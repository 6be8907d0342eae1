//! What a search by tags is for: files whose chosen tags agree.

use crate::grouping::{key_of, selected, tag_groups, GroupKey, TagField};
use crate::music_entry::EntryModel;
use crate::params::SameMusicParameters;
use crate::refinement_laws::{
    alike, law_group_is_complete, lemma_alike_contains, lemma_alike_keeps_order, lemma_selected,
};
use crate::same_music::{compared_tags, SameMusicModel};
use crate::simplified_name::simplified;
use crate::sound_laws::total_similar;
use crate::tag_laws::{
    agree, has_pair, law_agreeing_files_share_a_group, law_group_members_agree,
    law_groups_have_two_members,
};
use crate::text::{law_decimal_is_injective, lemma_decimal_nonempty, lowercase, trimmed};
use vstd::prelude::*;

verus! {

/// Whether two texts are the same but for case and surrounding white space, and not blank.
pub open spec fn same_text(x: Seq<char>, y: Seq<char>) -> bool {
    lowercase(trimmed(x)) == lowercase(trimmed(y)) && lowercase(trimmed(x)).len() > 0
}

/// Whether two texts have the same simplified lowercase, and not an empty one.
pub open spec fn similar_text(x: Seq<char>, y: Seq<char>) -> bool {
    simplified(lowercase(trimmed(x))) == simplified(lowercase(trimmed(y))) && simplified(
        lowercase(trimmed(x)),
    ).len() > 0
}

/// Whether two texts count as equal in a search: exactly, or approximately if that is asked for.
pub open spec fn equal_text(x: Seq<char>, y: Seq<char>, approximate: bool) -> bool {
    if approximate {
        similar_text(x, y)
    } else {
        same_text(x, y)
    }
}

/// Whether two files agree on every tag that a search asks for, each on its own: the title for the
/// first bit of the similarity, the artist for the second, then year, length and genre, and the
/// bitrate, if it is known, for the sixth. Only titles and artists may agree approximately.
pub open spec fn chosen_tags_agree(
    a: EntryModel,
    b: EntryModel,
    params: SameMusicParameters,
) -> bool {
    let bits = params.music_similarity.bits;
    let approximate = params.approximate_comparison;
    &&& bits & 1 == 1 ==> equal_text(a.track_title, b.track_title, approximate)
    &&& bits & 2 == 2 ==> equal_text(a.track_artist, b.track_artist, approximate)
    &&& bits & 4 == 4 ==> same_text(a.year, b.year)
    &&& bits & 8 == 8 ==> same_text(a.length, b.length)
    &&& bits & 16 == 16 ==> same_text(a.genre, b.genre)
    &&& bits & 32 == 32 ==> a.bitrate == b.bitrate && a.bitrate != 0
}

/// Whether a search asks for any tag at all.
pub open spec fn asks_for_a_tag(params: SameMusicParameters) -> bool {
    let bits = params.music_similarity.bits;
    ||| bits & 1 == 1
    ||| bits & 2 == 2
    ||| bits & 4 == 4
    ||| bits & 8 == 8
    ||| bits & 16 == 16
    ||| bits & 32 == 32
}

/// Two files have the same key of a search exactly if they agree on the tag behind it.
proof fn lemma_key(a: EntryModel, b: EntryModel, params: SameMusicParameters, key: GroupKey)
    requires
        selected(params).contains(key),
        agree(a, b, selected(params)),
    ensures
        key_of(a, key) == key_of(b, key) && key_of(a, key).len() > 0,
{
    let keys = selected(params);
    let i = choose|i: int| 0 <= i < keys.len() && keys[i] == key;
    assert(key_of(a, keys[i]) == key_of(b, keys[i]));
}

proof fn lemma_agree_means_chosen(a: EntryModel, b: EntryModel, params: SameMusicParameters)
    requires
        agree(a, b, selected(params)),
    ensures
        chosen_tags_agree(a, b, params),
{
    let bits = params.music_similarity.bits;
    let title = if params.approximate_comparison {
        GroupKey::Approximate(TagField::TrackTitle)
    } else {
        GroupKey::Exact(TagField::TrackTitle)
    };
    let artist = if params.approximate_comparison {
        GroupKey::Approximate(TagField::TrackArtist)
    } else {
        GroupKey::Exact(TagField::TrackArtist)
    };
    if bits & 1 == 1 {
        lemma_selected(params, title);
        lemma_key(a, b, params, title);
    }
    if bits & 2 == 2 {
        lemma_selected(params, artist);
        lemma_key(a, b, params, artist);
    }
    if bits & 4 == 4 {
        lemma_selected(params, GroupKey::Exact(TagField::Year));
        lemma_key(a, b, params, GroupKey::Exact(TagField::Year));
    }
    if bits & 8 == 8 {
        lemma_selected(params, GroupKey::Exact(TagField::Length));
        lemma_key(a, b, params, GroupKey::Exact(TagField::Length));
    }
    if bits & 16 == 16 {
        lemma_selected(params, GroupKey::Exact(TagField::Genre));
        lemma_key(a, b, params, GroupKey::Exact(TagField::Genre));
    }
    if bits & 32 == 32 {
        lemma_selected(params, GroupKey::Bitrate);
        lemma_key(a, b, params, GroupKey::Bitrate);
        if a.bitrate != 0 && b.bitrate != 0 {
            law_decimal_is_injective(a.bitrate as nat, b.bitrate as nat);
        }
    }
}

proof fn lemma_chosen_means_agree(a: EntryModel, b: EntryModel, params: SameMusicParameters)
    requires
        chosen_tags_agree(a, b, params),
    ensures
        agree(a, b, selected(params)),
{
    let keys = selected(params);
    assert forall|i: int| 0 <= i < keys.len() implies key_of(a, #[trigger] keys[i]) == key_of(
        b,
        keys[i],
    ) && key_of(a, keys[i]).len() > 0 by {
        assert(keys.contains(keys[i]));
        lemma_selected(params, keys[i]);
        lemma_decimal_nonempty(a.bitrate as nat);
    }
}

/// A search has something to compare tags by exactly if it asks for a tag.
pub proof fn law_asking_gives_keys(params: SameMusicParameters)
    ensures
        asks_for_a_tag(params) <==> selected(params).len() > 0,
{
    let bits = params.music_similarity.bits;
    let keys = selected(params);
    if bits & 1 == 1 {
        lemma_selected(params, GroupKey::Approximate(TagField::TrackTitle));
        lemma_selected(params, GroupKey::Exact(TagField::TrackTitle));
    }
    if bits & 2 == 2 {
        lemma_selected(params, GroupKey::Approximate(TagField::TrackArtist));
        lemma_selected(params, GroupKey::Exact(TagField::TrackArtist));
    }
    lemma_selected(params, GroupKey::Exact(TagField::Year));
    lemma_selected(params, GroupKey::Exact(TagField::Length));
    lemma_selected(params, GroupKey::Exact(TagField::Genre));
    lemma_selected(params, GroupKey::Bitrate);
    if keys.len() > 0 {
        assert(keys.contains(keys[0]));
        lemma_selected(params, keys[0]);
    }
}

/// The groups that a search by tags finds when it goes through.
pub open spec fn groups_by_tags(tool: SameMusicModel) -> Seq<Seq<EntryModel>> {
    compared_tags(tool, false).0.duplicated_music_entries
}

/// Any two files of a group were compared, and agree on every tag that was asked for.
pub proof fn law_group_shares_chosen_tags(tool: SameMusicModel, g: int, p: int, q: int)
    requires
        tool.music_entries.len() > 0,
        0 <= g < groups_by_tags(tool).len(),
        0 <= p < groups_by_tags(tool)[g].len(),
        0 <= q < groups_by_tags(tool)[g].len(),
    ensures
        tool.music_entries.contains(groups_by_tags(tool)[g][p]),
        chosen_tags_agree(
            groups_by_tags(tool)[g][p],
            groups_by_tags(tool)[g][q],
            tool.params,
        ),
{
    law_group_members_agree(tool.music_entries, selected(tool.params), g, p, q);
    lemma_agree_means_chosen(
        groups_by_tags(tool)[g][p],
        groups_by_tags(tool)[g][q],
        tool.params,
    );
}

/// Two compared files that agree on every tag that was asked for are in one group, in the order in
/// which they were compared.
pub proof fn law_files_with_chosen_tags_share_a_group(tool: SameMusicModel, i: int, j: int)
    requires
        0 <= i < j < tool.music_entries.len(),
        chosen_tags_agree(tool.music_entries[i], tool.music_entries[j], tool.params),
    ensures
        exists|g: int|
            0 <= g < groups_by_tags(tool).len() && has_pair(
                #[trigger] groups_by_tags(tool)[g],
                tool.music_entries[i],
                tool.music_entries[j],
            ),
{
    let a = tool.music_entries[i];
    let b = tool.music_entries[j];
    lemma_chosen_means_agree(a, b, tool.params);
    assert(has_pair(tool.music_entries, a, b));
    law_agreeing_files_share_a_group(tool.music_entries, selected(tool.params), a, b);
    let groups = tag_groups(tool.music_entries, selected(tool.params));
    let g = choose|g: int| 0 <= g < groups.len() && has_pair(#[trigger] groups[g], a, b);
    assert(has_pair(groups_by_tags(tool)[g], a, b));
}

/// A group holds two files or more, and of the compared files exactly those that agree with any of
/// its own.
pub proof fn law_group_holds_all_that_agree(
    tool: SameMusicModel,
    g: int,
    p: int,
    other: EntryModel,
)
    requires
        tool.music_entries.len() > 0,
        asks_for_a_tag(tool.params),
        0 <= g < groups_by_tags(tool).len(),
        0 <= p < groups_by_tags(tool)[g].len(),
        tool.music_entries.contains(other),
    ensures
        groups_by_tags(tool)[g].len() >= 2,
        groups_by_tags(tool)[g].contains(other) <==> chosen_tags_agree(
            groups_by_tags(tool)[g][p],
            other,
            tool.params,
        ),
{
    let entries = tool.music_entries;
    let keys = selected(tool.params);
    let group = groups_by_tags(tool)[g];
    let a = group[p];
    law_asking_gives_keys(tool.params);
    law_groups_have_two_members(entries, keys, g);
    assert(group.contains(a));
    law_group_is_complete(entries, keys, g, a);
    lemma_alike_contains(entries, a, keys, other);
    if chosen_tags_agree(a, other, tool.params) {
        lemma_chosen_means_agree(a, other, tool.params);
    }
    if agree(a, other, keys) {
        lemma_agree_means_chosen(a, other, tool.params);
    }
}

/// A group is what is left of the compared files if those are dropped that do not agree with a given
/// one of its own: every one of them is there as often, and in the order, as it was compared.
pub proof fn law_group_is_what_agrees(tool: SameMusicModel, g: int, p: int)
    requires
        tool.music_entries.len() > 0,
        asks_for_a_tag(tool.params),
        0 <= g < groups_by_tags(tool).len(),
        0 <= p < groups_by_tags(tool)[g].len(),
    ensures
        groups_by_tags(tool)[g] == tool.music_entries.filter(
            |entry: EntryModel|
                chosen_tags_agree(groups_by_tags(tool)[g][p], entry, tool.params),
        ),
{
    let group = groups_by_tags(tool)[g];
    assert(group.contains(group[p]));
    law_group_is_complete(tool.music_entries, selected(tool.params), g, group[p]);
    lemma_alike_is_filtered(tool.music_entries, group[p], tool.params);
}

proof fn lemma_alike_is_filtered(
    entries: Seq<EntryModel>,
    a: EntryModel,
    params: SameMusicParameters,
)
    ensures
        alike(entries, a, selected(params)) == entries.filter(
            |entry: EntryModel| chosen_tags_agree(a, entry, params),
        ),
    decreases entries.len(),
{
    reveal(Seq::filter);
    if entries.len() > 0 {
        lemma_alike_is_filtered(entries.drop_last(), a, params);
        if chosen_tags_agree(a, entries.last(), params) {
            lemma_chosen_means_agree(a, entries.last(), params);
        }
        if agree(a, entries.last(), selected(params)) {
            lemma_agree_means_chosen(a, entries.last(), params);
        }
    }
}

/// The files of a group stand in it in the order in which they were compared.
pub proof fn law_group_keeps_the_order(tool: SameMusicModel, g: int, p: int, q: int)
    requires
        tool.music_entries.len() > 0,
        0 <= g < groups_by_tags(tool).len(),
        0 <= p < q < groups_by_tags(tool)[g].len(),
    ensures
        has_pair(tool.music_entries, groups_by_tags(tool)[g][p], groups_by_tags(tool)[g][q]),
{
    let group = groups_by_tags(tool)[g];
    assert(group.contains(group[p]));
    law_group_is_complete(tool.music_entries, selected(tool.params), g, group[p]);
    lemma_alike_keeps_order(
        tool.music_entries,
        group[p],
        selected(tool.params),
        p,
        q,
    );
}

/// A search by tags that goes through has dropped the files it compared and, without reference
/// folders, counted every group, and every file of a group but one as a duplicate. Everything else
/// is as it was.
pub proof fn law_tag_search_counts(tool: SameMusicModel)
    requires
        tool.music_entries.len() > 0,
    ensures
        ({
            let after = compared_tags(tool, false).0;
            let groups = after.duplicated_music_entries;
            let counted = if tool.common_data.use_reference_folders {
                0
            } else {
                groups.len()
            };
            let duplicates = if tool.common_data.use_reference_folders {
                0
            } else {
                groups.flatten().len() - groups.len()
            };
            &&& after.number_of_groups == tool.number_of_groups + counted
            &&& after.number_of_duplicates == tool.number_of_duplicates + duplicates
            &&& after.music_entries.len() == 0
            &&& after.common_data == tool.common_data
            &&& after.music_to_check == tool.music_to_check
            &&& after.params == tool.params
            &&& after.duplicated_music_entries_referenced
                == tool.duplicated_music_entries_referenced
        }),
{
    lemma_total_similar_is_flat(compared_tags(tool, false).0.duplicated_music_entries);
}

/// All files of groups but one of each are as many as there are files less the number of groups.
pub proof fn lemma_total_similar_is_flat(groups: Seq<Seq<EntryModel>>)
    ensures
        total_similar(groups) == groups.flatten().len() - groups.len(),
    decreases groups.len(),
{
    groups.lemma_flatten_and_flatten_alt_are_equivalent();
    if groups.len() > 0 {
        lemma_total_similar_is_flat(groups.drop_last());
        groups.drop_last().lemma_flatten_and_flatten_alt_are_equivalent();
    }
}

} // verus!
