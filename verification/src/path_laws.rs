//! How often a path occurs among files and groups.

use crate::cache::{values, with_entries};
use crate::fingerprint_matching::{
    compared, outcomes_of, pair_outcome, paths, similar_files, with_base_file, PairModel,
    Thresholds,
};
use crate::grouping::{grouped, keyed_by, tag_groups, GroupKey};
use crate::music_entry::EntryModel;
use crate::sorted_map::{has_key, is_ascending, lemma_rank_parts, lemma_with_value, rank, with_value};
use crate::sound_search::sound_groups;
use crate::splitting::{groups_to_check, has_pairs, split_each, GroupedModel};
use crate::tag_laws::{
    lemma_grouped_weight, lemma_tag_groups_weight, lemma_total_weight_add, paired_weight,
    total_weight, weight,
};
use crate::text::lemma_text_order;
use vstd::prelude::*;

verus! {

/// One for a file with a given path and zero for all others.
pub open spec fn is_at(path: Seq<char>) -> spec_fn(EntryModel) -> nat {
    |e: EntryModel|
        if e.path == path {
            1
        } else {
            0
        }
}

/// How often a path occurs in a list.
pub open spec fn path_count(list: Seq<EntryModel>, path: Seq<char>) -> nat {
    weight(list, is_at(path))
}

/// How often a path occurs in groups.
pub open spec fn path_count_over(groups: Seq<Seq<EntryModel>>, path: Seq<char>) -> nat {
    total_weight(groups, is_at(path))
}

/// Whether no path occurs twice in a list.
pub open spec fn has_distinct_paths(list: Seq<EntryModel>) -> bool {
    forall|path: Seq<char>| #[trigger] path_count(list, path) <= 1
}

/// Whether no path occurs twice over all groups.
pub open spec fn have_distinct_paths(groups: Seq<Seq<EntryModel>>) -> bool {
    forall|path: Seq<char>| #[trigger] path_count_over(groups, path) <= 1
}

/// Comparing distinct files by tags reports no path twice.
pub proof fn law_tag_groups_have_distinct_paths(entries: Seq<EntryModel>, keys: Seq<GroupKey>)
    requires
        has_distinct_paths(entries),
    ensures
        have_distinct_paths(tag_groups(entries, keys)),
{
    assert forall|path: Seq<char>| #[trigger] path_count_over(
        tag_groups(entries, keys),
        path,
    ) <= 1 by {
        lemma_tag_groups_weight(entries, keys, is_at(path));
        assert(path_count(entries, path) <= 1);
    }
}

/// The similar files have a path at most as often as all files; not at all if no file with that
/// path is similar.
proof fn lemma_similar_paths(
    files: Seq<EntryModel>,
    outcomes: Seq<PairModel>,
    path: Seq<char>,
)
    ensures
        path_count(similar_files(files, outcomes), path) <= path_count(files, path),
        (forall|i: int|
            0 <= i < files.len() && (#[trigger] files[i]).path == path ==> !(outcomes[i] is Similar))
            ==> path_count(similar_files(files, outcomes), path) == 0,
    decreases files.len(),
{
    if files.len() > 0 {
        let rest = files.drop_last();
        let before = similar_files(rest, outcomes);
        lemma_similar_paths(rest, outcomes, path);
        assert(before.push(files.last()).drop_last() =~= before);
        assert(files[files.len() - 1] == files.last());
        if forall|i: int|
            0 <= i < files.len() && (#[trigger] files[i]).path == path ==> !(outcomes[i] is Similar) {
            assert forall|i: int| 0 <= i < rest.len() && (#[trigger] rest[i]).path
                == path implies !(outcomes[i] is Similar) by {
                assert(rest[i] == files[i]);
            }
        }
    }
}

/// A list in which a path occurs has a file with it.
proof fn lemma_counted_path_is_there(list: Seq<EntryModel>, path: Seq<char>)
    ensures
        path_count(list, path) > 0 ==> paths(list).contains(path),
    decreases list.len(),
{
    if list.len() > 0 {
        let rest = list.drop_last();
        lemma_counted_path_is_there(rest, path);
        assert(list[list.len() - 1] == list.last());
        if path_count(rest, path) > 0 {
            let i = choose|i: int| 0 <= i < rest.len() && #[trigger] rest[i].path == path;
            assert(list[i].path == path);
        }
    }
}

/// The groups of a comparison by sound have a path at most once, and only if it counts as used.
proof fn lemma_compared_paths(
    base: Seq<EntryModel>,
    files: Seq<EntryModel>,
    thresholds: Thresholds,
    path: Seq<char>,
)
    requires
        path_count(files, path) <= 1,
    ensures
        ({
            let state = compared(base, files, thresholds);
            &&& path_count_over(state.groups, path) <= 1
            &&& path_count_over(state.groups, path) > 0 ==> state.used_paths.contains(path)
            &&& path_count(files, path) == 0 && path_count(base, path) == 0 ==> path_count_over(
                state.groups,
                path,
            ) == 0
        }),
    decreases base.len(),
{
    if base.len() > 0 {
        let rest = base.drop_last();
        let last = base.last();
        let before = compared(rest, files, thresholds);
        let state = compared(base, files, thresholds);
        lemma_compared_paths(rest, files, thresholds, path);
        assert(state == with_base_file(before, last, files, thresholds));
        if !before.used_paths.contains(last.path) {
            let outcomes = outcomes_of(last, files, before.used_paths, thresholds);
            let similar = similar_files(files, outcomes);
            let group = similar.push(last);
            lemma_similar_paths(files, outcomes, path);
            lemma_counted_path_is_there(similar, path);
            assert(group.drop_last() =~= similar);
            if before.used_paths.contains(path) || last.path == path {
                assert forall|i: int| 0 <= i < files.len() && (#[trigger] files[i]).path
                    == path implies !(outcomes[i] is Similar) by {
                    assert(outcomes[i] == pair_outcome(
                        last,
                        files[i],
                        before.used_paths,
                        thresholds,
                    ));
                }
            }
            if similar.len() > 0 {
                assert(state.groups == before.groups.push(group));
                assert(state.groups.drop_last() =~= before.groups);
                assert(path_count_over(state.groups, path) == path_count_over(before.groups, path)
                    + path_count(group, path));
            }
        }
    }
}

/// Comparing all files of a list with each other reports a path at most as often as it is there.
proof fn lemma_self_compared_paths(list: Seq<EntryModel>, thresholds: Thresholds, path: Seq<char>)
    requires
        path_count(list, path) <= 1,
    ensures
        path_count_over(compared(list, list, thresholds).groups, path) <= path_count(list, path),
{
    lemma_compared_paths(list, list, thresholds, path);
}

proof fn lemma_sound_groups_push(
    checks: Seq<GroupedModel>,
    check: GroupedModel,
    thresholds: Thresholds,
    path: Seq<char>,
)
    ensures
        path_count_over(sound_groups(checks.push(check), thresholds), path) == path_count_over(
            sound_groups(checks, thresholds),
            path,
        ) + path_count_over(
            compared(check.base_files, check.files_to_compare, thresholds).groups,
            path,
        ),
{
    assert(checks.push(check).drop_last() =~= checks);
    lemma_total_weight_add(
        sound_groups(checks, thresholds),
        compared(check.base_files, check.files_to_compare, thresholds).groups,
        is_at(path),
    );
}

proof fn lemma_split_each_paths(
    pairs: Seq<(Seq<char>, Seq<EntryModel>)>,
    reference_paths: Set<Seq<char>>,
    thresholds: Thresholds,
    path: Seq<char>,
)
    requires
        paired_weight(pairs, is_at(path)) <= 1,
    ensures
        path_count_over(
            sound_groups(split_each(pairs, false, reference_paths), thresholds),
            path,
        ) <= paired_weight(pairs, is_at(path)),
    decreases pairs.len(),
{
    if pairs.len() > 0 {
        let rest = pairs.drop_last();
        let list = pairs.last().1;
        let before = split_each(rest, false, reference_paths);
        let check = GroupedModel { base_files: list, files_to_compare: list };
        lemma_split_each_paths(rest, reference_paths, thresholds, path);
        assert(path_count(list, path) <= 1);
        lemma_self_compared_paths(list, thresholds, path);
        if has_pairs(check) {
            lemma_sound_groups_push(before, check, thresholds, path);
        }
    }
}

/// Comparing distinct files by sound reports no path twice, whether or not only files with similar
/// titles are compared.
pub proof fn law_sound_groups_have_distinct_paths(
    entries: Seq<EntryModel>,
    only_with_similar_titles: bool,
    reference_paths: Set<Seq<char>>,
    thresholds: Thresholds,
)
    requires
        has_distinct_paths(entries),
    ensures
        have_distinct_paths(
            sound_groups(
                groups_to_check(entries, only_with_similar_titles, false, reference_paths),
                thresholds,
            ),
        ),
{
    let checks = groups_to_check(entries, only_with_similar_titles, false, reference_paths);
    assert forall|path: Seq<char>| #[trigger] path_count_over(
        sound_groups(checks, thresholds),
        path,
    ) <= 1 by {
        assert(path_count(entries, path) <= 1);
        if only_with_similar_titles {
            lemma_grouped_weight(entries, GroupKey::SimilarTitle, is_at(path));
            lemma_split_each_paths(
                grouped(keyed_by(entries, GroupKey::SimilarTitle)),
                reference_paths,
                thresholds,
                path,
            );
        } else {
            let check = GroupedModel { base_files: entries, files_to_compare: entries };
            let none = Seq::<GroupedModel>::empty();
            lemma_self_compared_paths(entries, thresholds, path);
            lemma_sound_groups_push(none, check, thresholds, path);
            assert(checks =~= none.push(check));
            assert(path_count_over(sound_groups(none, thresholds), path) == 0);
        }
    }
}

/// Whether every file of a map stands under its path.
pub open spec fn is_under_paths(pairs: Seq<(Seq<char>, EntryModel)>) -> bool {
    forall|i: int| 0 <= i < pairs.len() ==> (#[trigger] pairs[i]).0 == pairs[i].1.path
}

/// Files that are stored under their paths stand under their paths.
pub proof fn lemma_stored_under_paths(entries: Seq<EntryModel>)
    ensures
        is_ascending(with_entries(Seq::empty(), entries)),
        is_under_paths(with_entries(Seq::empty(), entries)),
    decreases entries.len(),
{
    if entries.len() > 0 {
        let before = with_entries(Seq::empty(), entries.drop_last());
        let last = entries.last();
        lemma_stored_under_paths(entries.drop_last());
        lemma_with_value(before, last.path, last);
        lemma_rank_parts(before, last.path);
        let after = with_value(before, last.path, last);
        let r = rank(before, last.path);
        assert forall|i: int| 0 <= i < after.len() implies (#[trigger] after[i]).0
            == after[i].1.path by {
            if has_key(before, last.path) {
                if i != r {
                    assert(after[i] == before[i]);
                }
            } else {
                if i < r {
                    assert(after[i] == before[i]);
                } else if i > r {
                    assert(after[i] == before[i - 1]);
                }
            }
        }
    }
}

/// The files of a map under their paths have distinct paths.
pub proof fn lemma_map_has_distinct_paths(pairs: Seq<(Seq<char>, EntryModel)>)
    requires
        is_ascending(pairs),
        is_under_paths(pairs),
    ensures
        has_distinct_paths(values(pairs)),
{
    assert forall|path: Seq<char>| #[trigger] path_count(values(pairs), path) <= 1 by {
        lemma_map_path_count(pairs, path);
    }
}

proof fn lemma_map_path_count(pairs: Seq<(Seq<char>, EntryModel)>, path: Seq<char>)
    requires
        is_ascending(pairs),
        is_under_paths(pairs),
    ensures
        path_count(values(pairs), path) <= 1,
        path_count(values(pairs), path) > 0 ==> has_key(pairs, path),
    decreases pairs.len(),
{
    if pairs.len() > 0 {
        let rest = pairs.drop_last();
        let n = pairs.len() - 1;
        assert(values(pairs).drop_last() =~= values(rest));
        assert forall|i: int| 0 <= i < rest.len() implies (#[trigger] rest[i]).0
            == rest[i].1.path by {
            assert(rest[i] == pairs[i]);
        }
        assert forall|i: int, j: int| 0 <= i < j < rest.len() implies crate::text::text_less(
            #[trigger] rest[i].0,
            #[trigger] rest[j].0,
        ) by {
            assert(rest[i] == pairs[i] && rest[j] == pairs[j]);
        }
        lemma_map_path_count(rest, path);
        assert(pairs[n].0 == pairs[n].1.path);
        if path_count(values(rest), path) > 0 {
            let i = choose|i: int| 0 <= i < rest.len() && #[trigger] rest[i].0 == path;
            assert(pairs[i].0 == path);
            assert(crate::text::text_less(pairs[i].0, pairs[n].0));
            lemma_text_order(path, path, path);
        }
    }
}

} // verus!
