//! Groups of files that agree on their tags.

use crate::music_entry::{group_models, models, EntryModel, MusicEntry};
use crate::params::{MusicSimilarity, SameMusicParameters};
use crate::progress::{always, count_items, never};
use crate::refinement_laws::{are_within, law_approximate_keys_merge_groups};
use crate::simplified_name::{get_simplified_name, simplified};
use crate::sorted_map::{
    has_key, is_ascending, items_at, lemma_mapped, lemma_mapped_with_value, lemma_rank_parts,
    lemma_with_value, mapped, value_at, with_value, SortedMap,
};
use crate::text::{decimal, law_trimming_is_idempotent, lowercase, push_decimal, trimmed};
use std::sync::atomic::AtomicUsize;
use std::sync::Arc;
use vstd::prelude::*;

verus! {

/// A tag that holds text.
#[derive(Clone, Copy, PartialEq, Eq, Structural, Debug)]
pub enum TagField {
    TrackTitle,
    TrackArtist,
    Year,
    Length,
    Genre,
}

/// What files are put together by.
#[derive(Clone, Copy, PartialEq, Eq, Structural, Debug)]
pub enum GroupKey {
    /// A tag without surrounding white space, in lower case.
    Exact(TagField),
    /// The same, simplified.
    Approximate(TagField),
    /// The bitrate, where it is known.
    Bitrate,
    /// The simplified title.
    SimilarTitle,
}

/// The text of a tag.
pub open spec fn tag_text(entry: EntryModel, field: TagField) -> Seq<char> {
    match field {
        TagField::TrackTitle => entry.track_title,
        TagField::TrackArtist => entry.track_artist,
        TagField::Year => entry.year,
        TagField::Length => entry.length,
        TagField::Genre => entry.genre,
    }
}

/// The key of a file. Files with an empty key are left out of all groups.
pub open spec fn key_of(entry: EntryModel, key: GroupKey) -> Seq<char> {
    match key {
        GroupKey::Exact(field) => lowercase(trimmed(tag_text(entry, field))),
        GroupKey::Approximate(field) => simplified(lowercase(trimmed(tag_text(entry, field)))),
        GroupKey::Bitrate => if entry.bitrate == 0 {
            Seq::empty()
        } else {
            decimal(entry.bitrate as nat)
        },
        GroupKey::SimilarTitle => simplified(entry.track_title),
    }
}

/// Whether the exact key of a file, if it has one, is more than white space.
pub open spec fn keeps_text(entry: EntryModel, field: TagField) -> bool {
    let key = key_of(entry, GroupKey::Exact(field));
    key.len() > 0 ==> trimmed(key).len() > 0
}

/// Whether the exact keys of all files, where they have one, are more than white space.
pub open spec fn all_keep_text(entries: Seq<EntryModel>, field: TagField) -> bool {
    forall|i: int| 0 <= i < entries.len() ==> keeps_text(#[trigger] entries[i], field)
}

/// The text of a tag.
fn tag_of(entry: &MusicEntry, field: TagField) -> (r: &str)
    ensures
        r@ == tag_text(entry@, field),
{
    match field {
        TagField::TrackTitle => entry.track_title.as_str(),
        TagField::TrackArtist => entry.track_artist.as_str(),
        TagField::Year => entry.year.as_str(),
        TagField::Length => entry.length.as_str(),
        TagField::Genre => entry.genre.as_str(),
    }
}

/// The key of a file.
pub fn get_key(entry: &MusicEntry, key: GroupKey) -> (r: String)
    ensures
        r@ == key_of(entry@, key),
        key matches GroupKey::Exact(field) ==> keeps_text(entry@, field),
        key matches GroupKey::Approximate(field) ==> keeps_text(entry@, field),
{
    proof {
        match key {
            GroupKey::Exact(field) => {
                law_trimming_is_idempotent(tag_text(entry@, field));
            },
            GroupKey::Approximate(field) => {
                law_trimming_is_idempotent(tag_text(entry@, field));
            },
            _ => {},
        }
    }
    match key {
        GroupKey::Exact(field) => tag_of(entry, field).trim().to_lowercase(),
        GroupKey::Approximate(field) => {
            let thing = tag_of(entry, field).trim().to_lowercase();
            get_simplified_name(thing.as_str())
        },
        GroupKey::Bitrate => {
            let mut thing = String::new();
            if entry.bitrate != 0 {
                push_decimal(&mut thing, entry.bitrate as u64);
            }
            assert(thing@ =~= key_of(entry@, key));
            thing
        },
        GroupKey::SimilarTitle => get_simplified_name(entry.track_title.as_str()),
    }
}

/// Files with their keys.
pub open spec fn keyed_by(entries: Seq<EntryModel>, key: GroupKey) -> Seq<(Seq<char>, EntryModel)> {
    Seq::new(entries.len(), |i: int| (key_of(entries[i], key), entries[i]))
}

/// The files under a key, in their order.
pub open spec fn under_key(keyed: Seq<(Seq<char>, EntryModel)>, key: Seq<char>) -> Seq<EntryModel>
    decreases keyed.len(),
{
    if keyed.len() == 0 {
        Seq::empty()
    } else if keyed.last().0 == key {
        under_key(keyed.drop_last(), key).push(keyed.last().1)
    } else {
        under_key(keyed.drop_last(), key)
    }
}

/// The files put together under their keys, in the order of the keys; an empty key does not count.
pub open spec fn grouped(keyed: Seq<(Seq<char>, EntryModel)>) -> Seq<(Seq<char>, Seq<EntryModel>)>
    decreases keyed.len(),
{
    if keyed.len() == 0 {
        Seq::empty()
    } else {
        let before = grouped(keyed.drop_last());
        let key = keyed.last().0;
        if key.len() == 0 {
            before
        } else {
            with_value(before, key, under_key(keyed, key))
        }
    }
}

/// The groups are exactly the non-empty keys in ascending order, each with all files under it.
pub proof fn lemma_grouped(keyed: Seq<(Seq<char>, EntryModel)>)
    ensures
        is_ascending(grouped(keyed)),
        forall|k: Seq<char>| #[trigger]
            has_key(grouped(keyed), k) <==> k.len() > 0 && under_key(keyed, k).len() > 0,
        forall|k: Seq<char>|
            has_key(grouped(keyed), k) ==> #[trigger] value_at(grouped(keyed), k) == under_key(
                keyed,
                k,
            ),
        forall|i: int|
            0 <= i < grouped(keyed).len() ==> (#[trigger] grouped(keyed)[i]).0.len() > 0 && grouped(
                keyed,
            )[i].1 == under_key(keyed, grouped(keyed)[i].0),
    decreases keyed.len(),
{
    let g = grouped(keyed);
    if keyed.len() > 0 {
        let rest = keyed.drop_last();
        let key = keyed.last().0;
        let before = grouped(rest);
        lemma_grouped(rest);
        if key.len() > 0 {
            lemma_with_value(before, key, under_key(keyed, key));
        }
        assert forall|k: Seq<char>| #[trigger] has_key(g, k) <==> k.len() > 0 && under_key(
            keyed,
            k,
        ).len() > 0 by {
            assert(has_key(before, k) <==> k.len() > 0 && under_key(rest, k).len() > 0);
        }
        assert forall|k: Seq<char>| has_key(g, k) implies #[trigger] value_at(g, k) == under_key(
            keyed,
            k,
        ) by {
            if k != key {
                assert(has_key(before, k));
                assert(value_at(before, k) == under_key(rest, k));
            }
        }
    }
    assert forall|i: int| 0 <= i < g.len() implies (#[trigger] g[i]).0.len() > 0 && g[i].1
        == under_key(keyed, g[i].0) by {
        assert(has_key(g, g[i].0));
        lemma_rank_parts(g, g[i].0);
        assert(value_at(g, g[i].0) == under_key(keyed, g[i].0));
    }
}

/// The model of a list of files with their keys.
pub open spec fn keyed_models(keyed: Seq<(String, MusicEntry)>) -> Seq<(Seq<char>, EntryModel)> {
    Seq::new(keyed.len(), |i: int| (keyed[i].0@, keyed[i].1@))
}

/// The model of groups under their keys.
pub open spec fn grouped_models(pairs: Seq<(Seq<char>, Vec<MusicEntry>)>) -> Seq<
    (Seq<char>, Seq<EntryModel>),
> {
    mapped(pairs, |list: Vec<MusicEntry>| models(list@))
}

/// Puts files together under the keys that come with them.
pub fn group_keyed(keyed: Vec<(String, MusicEntry)>) -> (r: SortedMap<Vec<MusicEntry>>)
    ensures
        grouped_models(r@) == grouped(keyed_models(keyed@)),
        is_ascending(r@),
{
    let ghost all = keyed_models(keyed@);
    let mut groups: SortedMap<Vec<MusicEntry>> = SortedMap::new();
    assert(grouped_models(groups@) =~= grouped(all.take(0)));
    for pair in it: keyed.into_iter()
        invariant
            it.seq() == keyed@,
            all == keyed_models(keyed@),
            grouped_models(groups@) == grouped(all.take(it.index())),
            is_ascending(groups@),
    {
        proof {
            let i = it.index();
            assert(all.take(i + 1).drop_last() =~= all.take(i));
            assert(all.take(i + 1).last() == (pair.0@, pair.1@));
        }
        let (key, entry) = pair;
        if !key.as_str().is_empty() {
            let ghost before = groups@;
            groups.push_under(key, entry);
            proof {
                let i = it.index();
                let f = |list: Vec<MusicEntry>| models(list@);
                let list = choose|list: Vec<MusicEntry>| #[trigger]
                    list@ == items_at(before, key@).push(entry) && groups@ == with_value(
                        before,
                        key@,
                        list,
                    );
                lemma_mapped_with_value(before, f, key@, list);
                lemma_mapped(before, f, key@);
                lemma_grouped(all.take(i));
                assert(models(list@) =~= under_key(all.take(i + 1), key@)) by {
                    assert(has_key(grouped(all.take(i)), key@) == has_key(before, key@));
                    if has_key(before, key@) {
                        assert(value_at(grouped(all.take(i)), key@) == models(
                            value_at(before, key@)@,
                        ));
                    } else {
                        assert(under_key(all.take(i), key@) =~= Seq::empty());
                    }
                }
            }
        }
    }
    assert(all.take(keyed@.len() as int) =~= all);
    groups
}

/// Puts files together that have the same key.
pub fn group_by(entries: Vec<MusicEntry>, key: GroupKey) -> (r: SortedMap<Vec<MusicEntry>>)
    ensures
        grouped_models(r@) == grouped(keyed_by(models(entries@), key)),
        is_ascending(r@),
        key matches GroupKey::Approximate(field) ==> all_keep_text(models(entries@), field),
{
    let mut keyed: Vec<(String, MusicEntry)> = Vec::new();
    for entry in it: entries.into_iter()
        invariant
            it.seq() == entries@,
            keyed@.len() == it.index(),
            forall|j: int|
                0 <= j < it.index() ==> (#[trigger] keyed@[j]).0@ == key_of(entries@[j]@, key)
                    && keyed@[j].1@ == entries@[j]@,
            key matches GroupKey::Approximate(field) ==> forall|j: int|
                0 <= j < it.index() ==> keeps_text((#[trigger] entries@[j])@, field),
    {
        let thing = get_key(&entry, key);
        keyed.push((thing, entry));
    }
    assert(keyed_models(keyed@) =~= keyed_by(models(entries@), key));
    group_keyed(keyed)
}

/// Puts files together that have similar titles.
pub fn get_entries_grouped_by_title(music_data: Vec<MusicEntry>) -> (r: SortedMap<
    Vec<MusicEntry>,
>)
    ensures
        grouped_models(r@) == grouped(keyed_by(models(music_data@), GroupKey::SimilarTitle)),
        is_ascending(r@),
{
    group_by(music_data, GroupKey::SimilarTitle)
}

/// The groups with more than one file.
pub open spec fn large_groups(pairs: Seq<(Seq<char>, Seq<EntryModel>)>) -> Seq<Seq<EntryModel>>
    decreases pairs.len(),
{
    if pairs.len() == 0 {
        Seq::empty()
    } else if pairs.last().1.len() > 1 {
        large_groups(pairs.drop_last()).push(pairs.last().1)
    } else {
        large_groups(pairs.drop_last())
    }
}

/// Groups split further by a key; what is left alone is dropped.
pub open spec fn refined(groups: Seq<Seq<EntryModel>>, key: GroupKey) -> Seq<Seq<EntryModel>>
    decreases groups.len(),
{
    if groups.len() == 0 {
        Seq::empty()
    } else {
        refined(groups.drop_last(), key) + large_groups(grouped(keyed_by(groups.last(), key)))
    }
}

/// Appends the lists with more than one file.
pub fn push_large_groups(
    pairs: SortedMap<Vec<MusicEntry>>,
    new_duplicates: &mut Vec<Vec<MusicEntry>>,
)
    ensures
        group_models(final(new_duplicates)@) == group_models(old(new_duplicates)@) + large_groups(
            grouped_models(pairs@),
        ),
{
    let ghost before = group_models(new_duplicates@);
    let ghost all = grouped_models(pairs@);
    let pairs = pairs.into_pairs();
    assert(large_groups(all.take(0)) =~= Seq::empty());
    assert(group_models(new_duplicates@) =~= before + large_groups(all.take(0)));
    for pair in it: pairs.into_iter()
        invariant
            it.seq() == pairs@,
            all.len() == pairs@.len(),
            forall|i: int|
                0 <= i < all.len() ==> (#[trigger] all[i]) == (pairs@[i].0@, models(pairs@[i].1@)),
            group_models(new_duplicates@) == before + large_groups(all.take(it.index())),
    {
        let ghost earlier = new_duplicates@;
        proof {
            let i = it.index();
            assert(all.take(i + 1).drop_last() =~= all.take(i));
            assert(all.take(i + 1).last() == all[i]);
        }
        let (_key, list) = pair;
        if list.len() > 1 {
            new_duplicates.push(list);
            assert(group_models(new_duplicates@) =~= group_models(earlier).push(models(list@)));
            assert(group_models(new_duplicates@) =~= before + large_groups(
                all.take(it.index() + 1),
            ));
        }
    }
    assert(all.take(pairs@.len() as int) =~= all);
}

/// Splits groups further by a key and drops what is left alone. An approximate comparison only
/// merges the groups that an exact one finds.
pub fn check_music_item(
    old_duplicates: Vec<Vec<MusicEntry>>,
    items_counter: &Arc<AtomicUsize>,
    key: GroupKey,
) -> (r: Vec<Vec<MusicEntry>>)
    ensures
        group_models(r@) == refined(group_models(old_duplicates@), key),
        key matches GroupKey::Approximate(field) ==> are_within(
            refined(group_models(old_duplicates@), GroupKey::Exact(field)),
            group_models(r@),
        ),
{
    let ghost all = group_models(old_duplicates@);
    let old_duplicates_len = old_duplicates.len();
    let mut new_duplicates: Vec<Vec<MusicEntry>> = Vec::new();
    assert(group_models(new_duplicates@) =~= refined(all.take(0), key));
    for group in it: old_duplicates.into_iter()
        invariant
            it.seq() == old_duplicates@,
            all == group_models(old_duplicates@),
            group_models(new_duplicates@) == refined(all.take(it.index()), key),
            key matches GroupKey::Approximate(field) ==> forall|g: int|
                0 <= g < it.index() ==> all_keep_text(#[trigger] all[g], field),
    {
        proof {
            let i = it.index();
            assert(all.take(i + 1).drop_last() =~= all.take(i));
            assert(all.take(i + 1).last() == models(group@));
            assert(all[i] == models(group@));
        }
        push_large_groups(group_by(group, key), &mut new_duplicates);
    }
    assert(all.take(old_duplicates@.len() as int) =~= all);
    proof {
        if let GroupKey::Approximate(field) = key {
            law_approximate_keys_merge_groups(all, field);
        }
    }
    count_items(items_counter, old_duplicates_len);
    new_duplicates
}

/// The key for a tag that may be compared approximately.
pub open spec fn tag_key(field: TagField, approximate: bool) -> GroupKey {
    if approximate {
        GroupKey::Approximate(field)
    } else {
        GroupKey::Exact(field)
    }
}

/// A key if it is asked for.
pub open spec fn key_if(wanted: bool, key: GroupKey) -> Seq<GroupKey> {
    if wanted {
        seq![key]
    } else {
        Seq::empty()
    }
}

/// The keys that a search compares files by, in the order in which they are applied. Only titles
/// and artists are ever compared approximately.
pub open spec fn selected(params: SameMusicParameters) -> Seq<GroupKey> {
    let tags = params.music_similarity;
    let approximate = params.approximate_comparison;
    key_if(tags.has(MusicSimilarity::TRACK_TITLE), tag_key(TagField::TrackTitle, approximate))
        + key_if(
        tags.has(MusicSimilarity::TRACK_ARTIST),
        tag_key(TagField::TrackArtist, approximate),
    ) + key_if(tags.has(MusicSimilarity::YEAR), GroupKey::Exact(TagField::Year)) + key_if(
        tags.has(MusicSimilarity::LENGTH),
        GroupKey::Exact(TagField::Length),
    ) + key_if(tags.has(MusicSimilarity::GENRE), GroupKey::Exact(TagField::Genre)) + key_if(
        tags.has(MusicSimilarity::BITRATE),
        GroupKey::Bitrate,
    )
}

/// Adds a key to a list if it is wanted.
fn push_key(keys: &mut Vec<GroupKey>, wanted: bool, key: GroupKey)
    ensures
        final(keys)@ == old(keys)@ + key_if(wanted, key),
{
    if wanted {
        keys.push(key);
    }
}

/// The keys that a search compares files by, in the order in which they are applied.
pub fn selected_keys(params: &SameMusicParameters) -> (r: Vec<GroupKey>)
    ensures
        r@ == selected(*params),
{
    let tags = params.music_similarity;
    let (title, artist) = if params.approximate_comparison {
        (GroupKey::Approximate(TagField::TrackTitle), GroupKey::Approximate(TagField::TrackArtist))
    } else {
        (GroupKey::Exact(TagField::TrackTitle), GroupKey::Exact(TagField::TrackArtist))
    };
    let mut r: Vec<GroupKey> = Vec::new();
    push_key(&mut r, tags.contains(MusicSimilarity::TRACK_TITLE), title);
    assert(r@ =~= key_if(tags.has(MusicSimilarity::TRACK_TITLE), title));
    push_key(&mut r, tags.contains(MusicSimilarity::TRACK_ARTIST), artist);
    push_key(&mut r, tags.contains(MusicSimilarity::YEAR), GroupKey::Exact(TagField::Year));
    push_key(&mut r, tags.contains(MusicSimilarity::LENGTH), GroupKey::Exact(TagField::Length));
    push_key(&mut r, tags.contains(MusicSimilarity::GENRE), GroupKey::Exact(TagField::Genre));
    push_key(&mut r, tags.contains(MusicSimilarity::BITRATE), GroupKey::Bitrate);
    r
}

/// Groups split by several keys, one after the other.
pub open spec fn refined_by(groups: Seq<Seq<EntryModel>>, keys: Seq<GroupKey>) -> Seq<
    Seq<EntryModel>,
>
    decreases keys.len(),
{
    if keys.len() == 0 {
        groups
    } else {
        refined(refined_by(groups, keys.drop_last()), keys.last())
    }
}

/// The groups of files that agree on all keys.
pub open spec fn tag_groups(entries: Seq<EntryModel>, keys: Seq<GroupKey>) -> Seq<Seq<EntryModel>> {
    refined_by(seq![entries], keys)
}

/// Splits groups further by a key, unless the search is to stop.
pub fn check_unless_stopped(
    stop_received: bool,
    old_duplicates: Vec<Vec<MusicEntry>>,
    items_counter: &Arc<AtomicUsize>,
    key: GroupKey,
) -> (r: Option<Vec<Vec<MusicEntry>>>)
    ensures
        stop_received ==> r is None,
        !stop_received ==> r is Some && group_models(r->0@) == refined(
            group_models(old_duplicates@),
            key,
        ),
{
    if stop_received {
        None
    } else {
        Some(check_music_item(old_duplicates, items_counter, key))
    }
}

/// Finds the groups of files that agree on all keys. Before each key it is asked whether to stop,
/// and a single yes ends the comparison.
pub fn find_tag_groups<F: Fn() -> bool>(
    entries: Vec<MusicEntry>,
    keys: &Vec<GroupKey>,
    stop: &F,
    items_counter: &Arc<AtomicUsize>,
) -> (r: Option<Vec<Vec<MusicEntry>>>)
    requires
        call_requires(*stop, ()),
    ensures
        keys@.len() == 0 || never(*stop) ==> r is Some,
        keys@.len() > 0 && always(*stop) ==> r is None,
        r matches Some(groups) ==> group_models(groups@) == tag_groups(models(entries@), keys@),
{
    let ghost start = seq![models(entries@)];
    let mut old_duplicates: Vec<Vec<MusicEntry>> = Vec::new();
    old_duplicates.push(entries);
    assert(group_models(old_duplicates@) =~= start);
    let mut i: usize = 0;
    assert(refined_by(start, keys@.take(0)) == start);
    while i < keys.len()
        invariant
            i <= keys@.len(),
            call_requires(*stop, ()),
            i > 0 ==> !always(*stop),
            group_models(old_duplicates@) == refined_by(start, keys@.take(i as int)),
        decreases keys@.len() - i,
    {
        proof {
            assert(keys@.take(i + 1).drop_last() =~= keys@.take(i as int));
            assert(keys@.take(i + 1).last() == keys@[i as int]);
        }
        let stop_received = (*stop)();
        match check_unless_stopped(stop_received, old_duplicates, items_counter, keys[i]) {
            Some(new_duplicates) => {
                old_duplicates = new_duplicates;
            },
            None => {
                return None;
            },
        }
        i = i + 1;
    }
    assert(keys@.take(keys@.len() as int) =~= keys@);
    Some(old_duplicates)
}

} // verus!
