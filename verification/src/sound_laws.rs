//! What holds of the groups that a comparison by sound finds.

use crate::fingerprint_matching::{
    compared, outcomes_of, pair_outcome, paths, similar_files, sound_alike, ComparisonModel,
    PairModel, Thresholds,
};
use crate::music_entry::EntryModel;
use vstd::prelude::*;

verus! {

/// Whether a file is one of those that turned out similar.
pub open spec fn turned_out_similar(
    files: Seq<EntryModel>,
    outcomes: Seq<PairModel>,
    entry: EntryModel,
) -> bool {
    exists|k: int| 0 <= k < files.len() && outcomes[k] is Similar && #[trigger] files[k] == entry
}

/// The files that turned out similar are those whose comparison said so.
pub proof fn lemma_similar_files(files: Seq<EntryModel>, outcomes: Seq<PairModel>)
    ensures
        forall|p: int|
            0 <= p < similar_files(files, outcomes).len() ==> turned_out_similar(
                files,
                outcomes,
                #[trigger] similar_files(files, outcomes)[p],
            ),
        forall|k: int|
            0 <= k < files.len() && outcomes[k] is Similar ==> similar_files(
                files,
                outcomes,
            ).contains(#[trigger] files[k]),
    decreases files.len(),
{
    let similar = similar_files(files, outcomes);
    if files.len() > 0 {
        let rest = files.drop_last();
        let before = similar_files(rest, outcomes);
        lemma_similar_files(rest, outcomes);
        assert forall|p: int| 0 <= p < similar.len() implies turned_out_similar(
            files,
            outcomes,
            #[trigger] similar[p],
        ) by {
            if p < before.len() {
                assert(similar[p] == before[p]);
                assert(turned_out_similar(rest, outcomes, before[p]));
                let k = choose|k: int|
                    0 <= k < rest.len() && outcomes[k] is Similar && #[trigger] rest[k]
                        == before[p];
                assert(files[k] == similar[p]);
            } else {
                assert(files[files.len() - 1] == similar[p]);
            }
        }
        assert forall|k: int| 0 <= k < files.len() && outcomes[k] is Similar implies similar.contains(
            #[trigger] files[k],
        ) by {
            if k < rest.len() {
                assert(rest[k] == files[k]);
                assert(before.contains(files[k]));
                let p = choose|p: int| 0 <= p < before.len() && before[p] == files[k];
                assert(similar[p] == files[k]);
            } else {
                assert(similar[similar.len() - 1] == files[k]);
            }
        }
    }
}

/// Whether a file is in one of the groups.
pub open spec fn is_reported(groups: Seq<Seq<EntryModel>>, path: Seq<char>) -> bool {
    exists|g: int, p: int|
        0 <= g < groups.len() && 0 <= p < groups[g].len() && (#[trigger] groups[g][p]).path == path
}

/// Whether a group is made of files that sound like its last member, a base file.
pub open spec fn is_sound_group(
    group: Seq<EntryModel>,
    base_files: Seq<EntryModel>,
    files: Seq<EntryModel>,
    thresholds: Thresholds,
) -> bool {
    &&& group.len() >= 2
    &&& base_files.contains(group.last())
    &&& forall|p: int|
        0 <= p < group.len() - 1 ==> files.contains(#[trigger] group[p]) && group[p].path
            != group.last().path && sound_alike(
            group.last().fingerprint,
            group[p].fingerprint,
            thresholds,
        )
}

/// Whether no path occurs in two of the groups.
pub open spec fn are_disjoint(groups: Seq<Seq<EntryModel>>) -> bool {
    forall|g: int, h: int, p: int, q: int|
        0 <= g < h < groups.len() && 0 <= p < groups[g].len() && 0 <= q < groups[h].len()
            ==> (#[trigger] groups[g][p]).path != (#[trigger] groups[h][q]).path
}

/// Whether every similar pair is in the groups with at least one of its files.
pub open spec fn misses_nothing(
    state: ComparisonModel,
    base_files: Seq<EntryModel>,
    files: Seq<EntryModel>,
    thresholds: Thresholds,
) -> bool {
    forall|i: int, j: int|
        0 <= i < base_files.len() && 0 <= j < files.len() && (#[trigger] base_files[i]).path != (
        #[trigger] files[j]).path && sound_alike(
            base_files[i].fingerprint,
            files[j].fingerprint,
            thresholds,
        ) ==> state.used_paths.contains(base_files[i].path) || state.used_paths.contains(
            files[j].path,
        )
}

/// How many files of a list have a path that is in a group.
pub open spec fn count_used(files: Seq<EntryModel>, used_paths: Set<Seq<char>>) -> nat
    decreases files.len(),
{
    if files.len() == 0 {
        0
    } else {
        count_used(files.drop_last(), used_paths) + (if used_paths.contains(files.last().path) {
            1nat
        } else {
            0
        })
    }
}

/// How many files the groups hold beside their base files.
pub open spec fn total_similar(groups: Seq<Seq<EntryModel>>) -> int
    decreases groups.len(),
{
    if groups.len() == 0 {
        0
    } else {
        total_similar(groups.drop_last()) + groups.last().len() - 1
    }
}

proof fn lemma_count_used(
    files: Seq<EntryModel>,
    outcomes: Seq<PairModel>,
    before: Set<Seq<char>>,
    after: Set<Seq<char>>,
)
    requires
        forall|p: Seq<char>| #[trigger] before.contains(p) ==> after.contains(p),
        forall|k: int|
            0 <= k < files.len() && outcomes[k] is Similar ==> !before.contains(
                (#[trigger] files[k]).path,
            ) && after.contains(files[k].path),
    ensures
        count_used(files, before) + similar_files(files, outcomes).len() <= count_used(
            files,
            after,
        ),
        count_used(files, after) <= files.len(),
    decreases files.len(),
{
    if files.len() > 0 {
        let rest = files.drop_last();
        let n = files.len() - 1;
        assert forall|k: int| 0 <= k < rest.len() && outcomes[k] is Similar implies !before.contains(
            (#[trigger] rest[k]).path,
        ) && after.contains(rest[k].path) by {
            assert(rest[k] == files[k]);
        }
        lemma_count_used(rest, outcomes, before, after);
        assert(files[n] == files.last());
    }
}

/// What holds after any number of base files have been compared.
pub proof fn lemma_compared(
    base_files: Seq<EntryModel>,
    files: Seq<EntryModel>,
    thresholds: Thresholds,
)
    ensures
        ({
            let state = compared(base_files, files, thresholds);
            &&& forall|g: int|
                0 <= g < state.groups.len() ==> is_sound_group(
                    #[trigger] state.groups[g],
                    base_files,
                    files,
                    thresholds,
                )
            &&& are_disjoint(state.groups)
            &&& forall|path: Seq<char>| #[trigger]
                state.used_paths.contains(path) <==> is_reported(state.groups, path)
            &&& misses_nothing(state, base_files, files, thresholds)
            &&& state.groups.len() <= base_files.len()
            &&& total_similar(state.groups) <= count_used(files, state.used_paths)
        }),
    decreases base_files.len(),
{
    let after = compared(base_files, files, thresholds);
    if base_files.len() > 0 {
        let n = base_files.len() - 1;
        let rest = base_files.drop_last();
        let f = base_files.last();
        let before = compared(rest, files, thresholds);
        lemma_compared(rest, files, thresholds);
        let outcomes = outcomes_of(f, files, before.used_paths, thresholds);
        let similar = similar_files(files, outcomes);
        let fresh = !before.used_paths.contains(f.path) && similar.len() > 0;
        lemma_similar_files(files, outcomes);
        if fresh {
            let group = similar.push(f);
            assert(after.groups == before.groups.push(group));
            assert(base_files[n] == f);
            assert(is_sound_group(group, base_files, files, thresholds)) by {
                assert(group.last() == f);
                assert forall|p: int| 0 <= p < group.len() - 1 implies files.contains(
                    #[trigger] group[p],
                ) && group[p].path != f.path && sound_alike(
                    f.fingerprint,
                    group[p].fingerprint,
                    thresholds,
                ) by {
                    assert(group[p] == similar[p]);
                    assert(turned_out_similar(files, outcomes, similar[p]));
                    let k = choose|k: int|
                        0 <= k < files.len() && outcomes[k] is Similar && #[trigger] files[k]
                            == similar[p];
                    assert(outcomes[k] == pair_outcome(
                        f,
                        files[k],
                        before.used_paths,
                        thresholds,
                    ));
                }
            }
            assert forall|p: int| 0 <= p < group.len() implies !before.used_paths.contains(
                (#[trigger] group[p]).path,
            ) by {
                if p < similar.len() {
                    assert(group[p] == similar[p]);
                    assert(turned_out_similar(files, outcomes, similar[p]));
                    let k = choose|k: int|
                        0 <= k < files.len() && outcomes[k] is Similar && #[trigger] files[k]
                            == similar[p];
                    assert(outcomes[k] == pair_outcome(
                        f,
                        files[k],
                        before.used_paths,
                        thresholds,
                    ));
                }
            }
            assert(are_disjoint(after.groups)) by {
                assert forall|g: int, h: int, p: int, q: int|
                    0 <= g < h < after.groups.len() && 0 <= p < after.groups[g].len() && 0 <= q
                        < after.groups[h].len() implies (#[trigger] after.groups[g][p]).path != (
                #[trigger] after.groups[h][q]).path by {
                    assert(after.groups[g] == before.groups[g]);
                    if h < before.groups.len() {
                        assert(after.groups[h] == before.groups[h]);
                        assert(before.groups[g][p].path != before.groups[h][q].path);
                    } else {
                        assert(after.groups[h] == group);
                        let path = before.groups[g][p].path;
                        assert(is_reported(before.groups, path));
                        assert(before.used_paths.contains(path));
                        assert(!before.used_paths.contains(group[q].path));
                    }
                }
            }
            assert forall|path: Seq<char>| #[trigger]
                after.used_paths.contains(path) <==> is_reported(after.groups, path) by {
                if is_reported(before.groups, path) {
                    let (g, p) = choose|g: int, p: int|
                        0 <= g < before.groups.len() && 0 <= p < before.groups[g].len() && (
                        #[trigger] before.groups[g][p]).path == path;
                    assert(after.groups[g][p].path == path);
                }
                let last = before.groups.len() as int;
                assert(after.groups[last] == group);
                if paths(similar).contains(path) {
                    let p = choose|p: int|
                        0 <= p < similar.len() && #[trigger] similar[p].path == path;
                    assert(group[p] == similar[p]);
                    assert(after.groups[last][p].path == path);
                }
                if path == f.path {
                    assert(after.groups[last][similar.len() as int].path == path);
                }
                if is_reported(after.groups, path) {
                    let (g, p) = choose|g: int, p: int|
                        0 <= g < after.groups.len() && 0 <= p < after.groups[g].len() && (
                        #[trigger] after.groups[g][p]).path == path;
                    if g < last {
                        assert(before.groups[g][p].path == path);
                        assert(before.used_paths.contains(path));
                    } else if p < similar.len() {
                        assert(similar[p].path == path);
                    }
                }
            }
            assert(total_similar(after.groups) == total_similar(before.groups) + similar.len()) by {
                assert(after.groups.drop_last() =~= before.groups);
            }
            assert forall|k: int| 0 <= k < files.len() && outcomes[k] is Similar implies
                !before.used_paths.contains((#[trigger] files[k]).path)
                && after.used_paths.contains(files[k].path) by {
                assert(outcomes[k] == pair_outcome(f, files[k], before.used_paths, thresholds));
                assert(similar.contains(files[k]));
                let p = choose|p: int| 0 <= p < similar.len() && similar[p] == files[k];
                assert(similar[p].path == files[k].path);
                assert(paths(similar).contains(files[k].path));
            }
            lemma_count_used(files, outcomes, before.used_paths, after.used_paths);
        } else {
            assert(after.groups == before.groups);
            assert(after.used_paths == before.used_paths);
        }
        assert forall|g: int| 0 <= g < after.groups.len() implies is_sound_group(
            #[trigger] after.groups[g],
            base_files,
            files,
            thresholds,
        ) by {
            if g < before.groups.len() {
                assert(after.groups[g] == before.groups[g]);
                assert(is_sound_group(before.groups[g], rest, files, thresholds));
                let last = before.groups[g].last();
                let i = choose|i: int| 0 <= i < rest.len() && rest[i] == last;
                assert(base_files[i] == last);
            }
        }
        assert(misses_nothing(after, base_files, files, thresholds)) by {
            assert forall|i: int, j: int|
                0 <= i < base_files.len() && 0 <= j < files.len() && (#[trigger] base_files[i]).path
                    != (#[trigger] files[j]).path && sound_alike(
                    base_files[i].fingerprint,
                    files[j].fingerprint,
                    thresholds,
                ) implies after.used_paths.contains(base_files[i].path)
                || after.used_paths.contains(files[j].path) by {
                if i < n {
                    assert(rest[i] == base_files[i]);
                } else if !before.used_paths.contains(f.path) && !before.used_paths.contains(
                    files[j].path,
                ) {
                    assert(outcomes[j] == pair_outcome(
                        f,
                        files[j],
                        before.used_paths,
                        thresholds,
                    ));
                    assert(similar.contains(files[j]));
                    assert(fresh);
                }
            }
        }
    }
}

/// Every group ends with a base file and otherwise holds files, at least one, that sound like it
/// and have another path.
pub proof fn law_sound_groups_are_alike(
    base_files: Seq<EntryModel>,
    files: Seq<EntryModel>,
    thresholds: Thresholds,
    g: int,
)
    requires
        0 <= g < compared(base_files, files, thresholds).groups.len(),
    ensures
        is_sound_group(
            compared(base_files, files, thresholds).groups[g],
            base_files,
            files,
            thresholds,
        ),
{
    lemma_compared(base_files, files, thresholds);
}

/// No path is in two groups.
pub proof fn law_sound_groups_are_disjoint(
    base_files: Seq<EntryModel>,
    files: Seq<EntryModel>,
    thresholds: Thresholds,
)
    ensures
        are_disjoint(compared(base_files, files, thresholds).groups),
{
    lemma_compared(base_files, files, thresholds);
}

/// Of a base file and another file that sound alike at least one is in a group.
pub proof fn law_similar_pairs_are_reported(
    base_files: Seq<EntryModel>,
    files: Seq<EntryModel>,
    thresholds: Thresholds,
    i: int,
    j: int,
)
    requires
        0 <= i < base_files.len(),
        0 <= j < files.len(),
        base_files[i].path != files[j].path,
        sound_alike(base_files[i].fingerprint, files[j].fingerprint, thresholds),
    ensures
        is_reported(compared(base_files, files, thresholds).groups, base_files[i].path)
            || is_reported(compared(base_files, files, thresholds).groups, files[j].path),
{
    lemma_compared(base_files, files, thresholds);
    let state = compared(base_files, files, thresholds);
    assert(misses_nothing(state, base_files, files, thresholds));
    assert(state.used_paths.contains(base_files[i].path) || state.used_paths.contains(
        files[j].path,
    ));
}

/// There are no more groups than base files, and beside the base files no more files in them than
/// were to be compared.
pub proof fn lemma_sound_group_sizes(
    base_files: Seq<EntryModel>,
    files: Seq<EntryModel>,
    thresholds: Thresholds,
)
    ensures
        compared(base_files, files, thresholds).groups.len() <= base_files.len(),
        total_similar(compared(base_files, files, thresholds).groups) <= files.len(),
        forall|g: int|
            0 <= g < compared(base_files, files, thresholds).groups.len() ==> (
            #[trigger] compared(base_files, files, thresholds).groups[g]).len() >= 2,
{
    lemma_compared(base_files, files, thresholds);
    let state = compared(base_files, files, thresholds);
    let none = Seq::new(files.len(), |i: int| PairModel::Nothing);
    lemma_count_used(files, none, Set::empty(), state.used_paths);
    assert forall|g: int| 0 <= g < state.groups.len() implies (#[trigger] state.groups[g]).len()
        >= 2 by {
        assert(is_sound_group(state.groups[g], base_files, files, thresholds));
    }
}

} // verus!
