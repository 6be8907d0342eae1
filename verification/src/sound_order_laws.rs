//! The order in which a search by sound gives its groups, and what is left of one that is stopped.

use crate::common::{CommonModel, MessagesModel};
use crate::fingerprint_matching::{compared, Thresholds};
use crate::grouping::{grouped, key_of, keyed_by, lemma_grouped, under_key, GroupKey};
use crate::music_entry::EntryModel;
use crate::params::WorkContinueStatus;
use crate::same_music::{
    checks_of, compared_sounds, compared_tags, is_step_of, thresholds_of, SameMusicModel,
};
use crate::simplified_name::simplified;
use crate::sound_search::{errors_until, sound_errors, sound_groups};
use crate::sound_search_laws::{
    groups_by_sound, law_base_files_are_served_in_turn, law_groups_follow_their_base_files,
    lemma_check_of, lemma_check_origin,
};
use crate::splitting::{
    law_split_keeps_every_file, lemma_by_path_keeps_order, split, split_each, GroupedModel,
};
use crate::tag_laws::{has_pair, lemma_under_key};
use crate::text::text_less;
use vstd::prelude::*;

verus! {

/// Where a check comes from, and how many checks come before it.
proof fn lemma_check_place(
    pairs: Seq<(Seq<char>, Seq<EntryModel>)>,
    use_reference_folders: bool,
    reference_paths: Set<Seq<char>>,
    c: int,
) -> (i: int)
    requires
        0 <= c < split_each(pairs, use_reference_folders, reference_paths).len(),
    ensures
        0 <= i < pairs.len(),
        split_each(pairs, use_reference_folders, reference_paths)[c] == split(
            pairs[i].1,
            use_reference_folders,
            reference_paths,
        ),
        c == split_each(pairs.take(i), use_reference_folders, reference_paths).len(),
    decreases pairs.len(),
{
    let n = pairs.len() - 1;
    let rest = pairs.drop_last();
    let before = split_each(rest, use_reference_folders, reference_paths);
    assert(pairs.take(n) =~= rest);
    if c < before.len() {
        let i = lemma_check_place(rest, use_reference_folders, reference_paths, c);
        assert(rest[i] == pairs[i]);
        assert(rest.take(i) =~= pairs.take(i));
        i
    } else {
        n
    }
}

proof fn lemma_checks_grow(
    pairs: Seq<(Seq<char>, Seq<EntryModel>)>,
    use_reference_folders: bool,
    reference_paths: Set<Seq<char>>,
    i: int,
    j: int,
)
    requires
        0 <= i <= j <= pairs.len(),
    ensures
        split_each(pairs.take(i), use_reference_folders, reference_paths).len() <= split_each(
            pairs.take(j),
            use_reference_folders,
            reference_paths,
        ).len(),
    decreases j - i,
{
    if i < j {
        lemma_checks_grow(pairs, use_reference_folders, reference_paths, i, j - 1);
        assert(pairs.take(j).drop_last() =~= pairs.take(j - 1));
    }
}

/// Where only similar titles are compared, the checks stand in the order of the simplified titles.
pub proof fn law_checks_are_in_order_of_titles(
    tool: SameMusicModel,
    reference_paths: Set<Seq<char>>,
    c: int,
    d: int,
    a: EntryModel,
    b: EntryModel,
)
    requires
        tool.params.compare_fingerprints_only_with_similar_titles,
        0 <= c < d < checks_of(tool, reference_paths).len(),
        checks_of(tool, reference_paths)[c].base_files.contains(a),
        checks_of(tool, reference_paths)[d].base_files.contains(b),
    ensures
        text_less(simplified(a.track_title), simplified(b.track_title)),
{
    let entries = tool.music_entries;
    let uses = tool.common_data.use_reference_folders;
    let keyed = keyed_by(entries, GroupKey::SimilarTitle);
    let pairs = grouped(keyed);
    lemma_grouped(keyed);
    let i = lemma_check_place(pairs, uses, reference_paths, c);
    let j = lemma_check_place(pairs, uses, reference_paths, d);
    if j <= i {
        lemma_checks_grow(pairs, uses, reference_paths, j, i);
    }
    lemma_title_of_check(entries, pairs[i].0, a, uses, reference_paths);
    lemma_title_of_check(entries, pairs[j].0, b, uses, reference_paths);
    assert(pairs[i].1 == under_key(keyed, pairs[i].0));
    assert(pairs[j].1 == under_key(keyed, pairs[j].0));
    assert(text_less(pairs[i].0, pairs[j].0));
}

proof fn lemma_title_of_check(
    entries: Seq<EntryModel>,
    title: Seq<char>,
    a: EntryModel,
    use_reference_folders: bool,
    reference_paths: Set<Seq<char>>,
)
    ensures
        ({
            let list = under_key(keyed_by(entries, GroupKey::SimilarTitle), title);
            split(list, use_reference_folders, reference_paths).base_files.contains(a)
                ==> simplified(a.track_title) == title
        }),
{
    let list = under_key(keyed_by(entries, GroupKey::SimilarTitle), title);
    if split(list, use_reference_folders, reference_paths).base_files.contains(a) {
        law_split_keeps_every_file(list, use_reference_folders, reference_paths, a);
        lemma_under_key(entries, GroupKey::SimilarTitle, title);
        let p = choose|p: int| 0 <= p < list.len() && list[p] == a;
        assert(key_of(
            under_key(keyed_by(entries, GroupKey::SimilarTitle), title)[p],
            GroupKey::SimilarTitle,
        ) == title);
    }
}

proof fn lemma_groups_grow(checks: Seq<GroupedModel>, thresholds: Thresholds, c: int, d: int)
    requires
        0 <= c < d <= checks.len(),
    ensures
        sound_groups(checks.take(c), thresholds).len() + compared(
            checks[c].base_files,
            checks[c].files_to_compare,
            thresholds,
        ).groups.len() <= sound_groups(checks.take(d), thresholds).len(),
    decreases d - c,
{
    assert(checks.take(d).drop_last() =~= checks.take(d - 1));
    assert(checks.take(d).last() == checks[d - 1]);
    if c < d - 1 {
        lemma_groups_grow(checks, thresholds, c, d - 1);
    }
}

/// The groups that a search by sound finds stand in the order of their base files in the search;
/// where only similar titles are compared, in the order of the simplified titles first.
pub proof fn law_sound_groups_are_in_order(
    tool: SameMusicModel,
    reference_paths: Set<Seq<char>>,
    g: int,
    h: int,
)
    requires
        tool.music_entries.len() > 0,
        0 <= g < h < groups_by_sound(tool, reference_paths).len(),
    ensures
        ({
            let a = groups_by_sound(tool, reference_paths)[g].last();
            let b = groups_by_sound(tool, reference_paths)[h].last();
            ||| tool.params.compare_fingerprints_only_with_similar_titles && text_less(
                simplified(a.track_title),
                simplified(b.track_title),
            )
            ||| (tool.params.compare_fingerprints_only_with_similar_titles ==> simplified(
                a.track_title,
            ) == simplified(b.track_title)) && has_pair(tool.music_entries, a, b)
        }),
{
    let checks = checks_of(tool, reference_paths);
    let thresholds = thresholds_of(tool.params);
    let all = groups_by_sound(tool, reference_paths);
    let uses = tool.common_data.use_reference_folders;
    let a = all[g].last();
    let b = all[h].last();
    let (c, start) = lemma_check_of(checks, thresholds, g);
    let (d, other_start) = lemma_check_of(checks, thresholds, h);
    let groups = compared(checks[c].base_files, checks[c].files_to_compare, thresholds).groups;
    let other_groups = compared(
        checks[d].base_files,
        checks[d].files_to_compare,
        thresholds,
    ).groups;
    assert(groups[g - start] == all[g]);
    assert(other_groups[h - other_start] == all[h]);
    let i = law_base_files_are_served_in_turn(
        checks[c].base_files,
        checks[c].files_to_compare,
        tool.params,
        g - start,
    );
    let j = law_base_files_are_served_in_turn(
        checks[d].base_files,
        checks[d].files_to_compare,
        tool.params,
        h - other_start,
    );
    assert(checks[c].base_files[i] == a);
    assert(checks[d].base_files[j] == b);
    if d < c {
        lemma_groups_grow(checks, thresholds, d, c);
    } else if c < d {
        law_checks_are_in_order_of_titles(tool, reference_paths, c, d, a, b);
    } else {
        let base = checks[c].base_files;
        law_groups_follow_their_base_files(
            base,
            checks[c].files_to_compare,
            tool.params,
            g - start,
            h - start,
        );
        let list = lemma_check_origin(tool, reference_paths, c);
        let (p, q) = choose|p: int, q: int|
            0 <= p < q < base.len() && #[trigger] base[p] == a && #[trigger] base[q] == b;
        if uses {
            lemma_by_path_keeps_order(list, reference_paths, true, p, q);
        } else {
            assert(has_pair(list, list[p], list[q]));
        }
        let (k, l) = choose|k: int, l: int|
            0 <= k < l < list.len() && #[trigger] list[k] == a && #[trigger] list[l] == b;
        assert(has_pair(tool.music_entries, list[k], list[l]));
        assert(list.contains(a) && list.contains(b));
        assert(tool.music_entries.contains(b));
    }
}

proof fn lemma_errors_grow(
    base_files: Seq<EntryModel>,
    files: Seq<EntryModel>,
    thresholds: Thresholds,
    k: int,
)
    requires
        0 <= k <= base_files.len(),
    ensures
        compared(base_files.take(k), files, thresholds).errors.is_prefix_of(
            compared(base_files, files, thresholds).errors,
        ),
    decreases base_files.len() - k,
{
    if k < base_files.len() {
        lemma_errors_grow(base_files, files, thresholds, k + 1);
        assert(base_files.take(k + 1).drop_last() =~= base_files.take(k));
        let before = compared(base_files.take(k), files, thresholds);
        let after = compared(base_files.take(k + 1), files, thresholds);
        assert(before.errors.is_prefix_of(after.errors));
    } else {
        assert(base_files.take(k) =~= base_files);
    }
}

proof fn lemma_all_errors_grow(checks: Seq<GroupedModel>, thresholds: Thresholds, c: int)
    requires
        0 <= c <= checks.len(),
    ensures
        sound_errors(checks.take(c), thresholds).is_prefix_of(sound_errors(checks, thresholds)),
    decreases checks.len() - c,
{
    if c < checks.len() {
        lemma_all_errors_grow(checks, thresholds, c + 1);
        assert(checks.take(c + 1).drop_last() =~= checks.take(c));
        assert(sound_errors(checks.take(c), thresholds).is_prefix_of(
            sound_errors(checks.take(c + 1), thresholds),
        ));
    } else {
        assert(checks.take(c) =~= checks);
    }
}

/// Checks up to a base file of one of them.
pub open spec fn cut_off(checks: Seq<GroupedModel>, group: int, base_file: int) -> Seq<
    GroupedModel,
> {
    checks.take(group).push(
        GroupedModel {
            base_files: checks[group].base_files.take(base_file),
            files_to_compare: checks[group].files_to_compare,
        },
    )
}

/// A comparison that is stopped finds nothing. One of tags changes nothing. One of sounds drops the
/// files to compare and keeps the first of the errors that it would have met: those of a search that
/// ends before the base file. Without files to compare nothing changes and nothing is stopped.
pub proof fn law_stopped_comparison_finds_nothing(
    tool: SameMusicModel,
    reference_paths: Set<Seq<char>>,
    group: int,
    base_file: int,
)
    requires
        0 <= group < checks_of(tool, reference_paths).len(),
        0 <= base_file < checks_of(tool, reference_paths)[group].base_files.len(),
    ensures
        is_step_of(checks_of(tool, reference_paths), group, base_file),
        tool.music_entries.len() > 0 ==> compared_tags(tool, true) == (
            tool,
            WorkContinueStatus::Stop,
        ),
        tool.music_entries.len() > 0 ==> {
            let (stopped, status) = compared_sounds(
                tool,
                reference_paths,
                Some((group, base_file)),
            );
            let (done, _) = compared_sounds(tool, reference_paths, None);
            let errors = stopped.common_data.text_messages.errors;
            let old_errors = tool.common_data.text_messages.errors;
            &&& status == WorkContinueStatus::Stop
            &&& old_errors.is_prefix_of(errors)
            &&& errors.is_prefix_of(done.common_data.text_messages.errors)
            &&& errors == old_errors + sound_errors(
                cut_off(checks_of(tool, reference_paths), group, base_file),
                thresholds_of(tool.params),
            )
            &&& stopped == (SameMusicModel {
                music_entries: Seq::empty(),
                common_data: CommonModel {
                    text_messages: MessagesModel { errors, ..tool.common_data.text_messages },
                    ..tool.common_data
                },
                ..tool
            })
        },
        tool.music_entries.len() == 0 ==> compared_tags(tool, true) == (
            tool,
            WorkContinueStatus::Continue,
        ) && compared_sounds(tool, reference_paths, Some((group, base_file))) == (
            tool,
            WorkContinueStatus::Continue,
        ),
{
    let checks = checks_of(tool, reference_paths);
    let thresholds = thresholds_of(tool.params);
    let met = errors_until(checks, thresholds, group, base_file);
    let all = sound_errors(checks, thresholds);
    let old_errors = tool.common_data.text_messages.errors;
    let check = checks[group];
    lemma_all_errors_grow(checks, thresholds, group + 1);
    assert(checks.take(group + 1).drop_last() =~= checks.take(group));
    assert(checks.take(group + 1).last() == check);
    lemma_errors_grow(check.base_files, check.files_to_compare, thresholds, base_file);
    assert(met.is_prefix_of(sound_errors(checks.take(group + 1), thresholds)));
    assert(met.is_prefix_of(all));
    assert((old_errors + met).is_prefix_of(old_errors + all));
    assert(old_errors.is_prefix_of(old_errors + met));
    let cut = cut_off(checks, group, base_file);
    assert(cut.drop_last() =~= checks.take(group));
    assert(met =~= sound_errors(cut, thresholds));
}

} // verus!
