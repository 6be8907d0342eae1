//! Comparing all files by sound, group by group.

use crate::fingerprint_matching::{
    compare_fingerprints, compared, sound_alike, texts, Thresholds,
};
use crate::grouping::{grouped, keyed_by, GroupKey};
use crate::music_entry::{group_models, EntryModel, MusicEntry};
use crate::progress::{always, never};
use crate::sound_laws::{
    is_reported, is_sound_group, law_similar_pairs_are_reported, law_sound_groups_are_alike,
    lemma_sound_group_sizes, total_similar,
};
use crate::splitting::{
    are_compared, check_models, groups_to_check, has_pairs, lemma_by_path, split, split_each,
    GroupedFilesToCheck, GroupedModel,
};
use crate::tag_laws::{lemma_grouped_weight, paired_weight, weight};
use std::sync::atomic::AtomicUsize;
use std::sync::Arc;
use vstd::prelude::*;

verus! {

/// The groups of files that sound alike, group by group.
pub open spec fn sound_groups(groups: Seq<GroupedModel>, thresholds: Thresholds) -> Seq<
    Seq<EntryModel>,
>
    decreases groups.len(),
{
    if groups.len() == 0 {
        Seq::empty()
    } else {
        sound_groups(groups.drop_last(), thresholds) + compared(
            groups.last().base_files,
            groups.last().files_to_compare,
            thresholds,
        ).groups
    }
}

/// The messages of the comparisons that failed, group by group.
pub open spec fn sound_errors(groups: Seq<GroupedModel>, thresholds: Thresholds) -> Seq<Seq<char>>
    decreases groups.len(),
{
    if groups.len() == 0 {
        Seq::empty()
    } else {
        sound_errors(groups.drop_last(), thresholds) + compared(
            groups.last().base_files,
            groups.last().files_to_compare,
            thresholds,
        ).errors
    }
}

/// The messages up to some base file of some group.
pub open spec fn errors_until(
    groups: Seq<GroupedModel>,
    thresholds: Thresholds,
    group: int,
    base_file: int,
) -> Seq<Seq<char>> {
    sound_errors(groups.take(group), thresholds) + compared(
        groups[group].base_files.take(base_file),
        groups[group].files_to_compare,
        thresholds,
    ).errors
}

/// How many base files there are.
pub open spec fn base_file_count(groups: Seq<GroupedModel>) -> nat
    decreases groups.len(),
{
    if groups.len() == 0 {
        0
    } else {
        base_file_count(groups.drop_last()) + groups.last().base_files.len()
    }
}

/// How many files to compare there are.
pub open spec fn compared_file_count(groups: Seq<GroupedModel>) -> nat
    decreases groups.len(),
{
    if groups.len() == 0 {
        0
    } else {
        compared_file_count(groups.drop_last()) + groups.last().files_to_compare.len()
    }
}

/// The number of base files of the first groups is at most that of all groups.
proof fn lemma_base_file_count_grows(groups: Seq<GroupedModel>, i: int)
    requires
        0 <= i <= groups.len(),
    ensures
        base_file_count(groups.take(i)) <= base_file_count(groups),
    decreases groups.len() - i,
{
    if i < groups.len() {
        lemma_base_file_count_grows(groups, i + 1);
        assert(groups.take(i + 1).drop_last() =~= groups.take(i));
    } else {
        assert(groups.take(i) =~= groups);
    }
}

/// How many base files there are: the number of steps that a search by sound takes.
pub fn base_files_number(groups: &Vec<GroupedFilesToCheck>) -> (r: usize)
    requires
        base_file_count(check_models(groups@)) <= usize::MAX,
    ensures
        r == base_file_count(check_models(groups@)),
{
    let ghost all = check_models(groups@);
    let mut r: usize = 0;
    let mut i: usize = 0;
    while i < groups.len()
        invariant
            i <= groups@.len(),
            all == check_models(groups@),
            base_file_count(all) <= usize::MAX,
            r == base_file_count(all.take(i as int)),
        decreases groups@.len() - i,
    {
        proof {
            lemma_base_file_count_grows(all, i + 1);
            assert(all.take(i + 1).drop_last() =~= all.take(i as int));
            assert(all.take(i + 1).last() == groups@[i as int]@);
        }
        r = r + groups[i].base_files.len();
        i = i + 1;
    }
    assert(all.take(all.len() as int) =~= all);
    r
}

/// Takes over the groups that a comparison found, if it was not stopped. Returns whether the search
/// goes on.
pub fn add_found(
    found: &mut Vec<Vec<MusicEntry>>,
    new_groups: Option<Vec<Vec<MusicEntry>>>,
) -> (r: bool)
    ensures
        r == (new_groups is Some),
        group_models(final(found)@) == match new_groups {
            Some(new) => group_models(old(found)@) + group_models(new@),
            None => group_models(old(found)@),
        },
{
    let ghost before = found@;
    match new_groups {
        Some(new_groups) => {
            let mut new_groups = new_groups;
            let ghost new = new_groups@;
            found.append(&mut new_groups);
            assert(group_models(found@) =~= group_models(before) + group_models(new));
            true
        },
        None => false,
    }
}

/// Finds the groups of files that sound alike. Before each base file it is asked whether to stop, and
/// a single yes ends the search. The messages of comparisons that failed are added to the errors
/// either way.
pub fn find_sound_groups<F: Fn() -> bool>(
    groups: Vec<GroupedFilesToCheck>,
    thresholds: Thresholds,
    stop: &F,
    items_counter: &Arc<AtomicUsize>,
    errors: &mut Vec<String>,
) -> (r: Option<Vec<Vec<MusicEntry>>>)
    requires
        call_requires(*stop, ()),
    ensures
        base_file_count(check_models(groups@)) == 0 || never(*stop) ==> r is Some,
        base_file_count(check_models(groups@)) > 0 && always(*stop) ==> r is None,
        match r {
            Some(found) => group_models(found@) == sound_groups(check_models(groups@), thresholds)
                && texts(final(errors)@) == texts(old(errors)@) + sound_errors(
                check_models(groups@),
                thresholds,
            ),
            None => exists|g: int, k: int|
                0 <= g < groups@.len() && 0 <= k < groups@[g].base_files@.len() && texts(
                    final(errors)@,
                ) == texts(old(errors)@) + #[trigger] errors_until(
                    check_models(groups@),
                    thresholds,
                    g,
                    k,
                ),
        },
{
    let ghost all = check_models(groups@);
    let ghost errors_before = texts(errors@);
    let mut found: Vec<Vec<MusicEntry>> = Vec::new();
    assert(group_models(found@) =~= sound_groups(all.take(0), thresholds));
    assert(texts(errors@) =~= errors_before + sound_errors(all.take(0), thresholds));
    for group in it: groups.into_iter()
        invariant
            it.seq() == groups@,
            call_requires(*stop, ()),
            base_file_count(all.take(it.index())) > 0 ==> !always(*stop),
            all == check_models(groups@),
            errors_before == texts(old(errors)@),
            group_models(found@) == sound_groups(all.take(it.index()), thresholds),
            texts(errors@) == errors_before + sound_errors(all.take(it.index()), thresholds),
    {
        let ghost i = it.index();
        let ghost errors_now = texts(errors@);
        proof {
            assert(all.take(i + 1).drop_last() =~= all.take(i));
            assert(all.take(i + 1).last() == group@);
            assert(all[i] == group@);
        }
        proof {
            lemma_base_file_count_grows(all, i + 1);
        }
        let GroupedFilesToCheck { base_files, files_to_compare } = group;
        let new_groups = compare_fingerprints(
            stop,
            items_counter,
            base_files,
            &files_to_compare,
            thresholds,
            errors,
        );
        proof {
            if new_groups is None {
                let k = choose|k: int|
                    0 <= k < base_files@.len() && texts(errors@) == errors_now
                        + #[trigger] compared(
                        group@.base_files.take(k),
                        group@.files_to_compare,
                        thresholds,
                    ).errors;
                assert(texts(errors@) =~= errors_before + errors_until(all, thresholds, i, k));
                assert(0 <= k < groups@[i].base_files@.len());
            } else {
                assert(texts(errors@) =~= errors_before + sound_errors(all.take(i + 1), thresholds));
            }
        }
        if !add_found(&mut found, new_groups) {
            return None;
        }
    }
    assert(all.take(all.len() as int) =~= all);
    Some(found)
}

proof fn lemma_total_similar_add(a: Seq<Seq<EntryModel>>, b: Seq<Seq<EntryModel>>)
    ensures
        total_similar(a + b) == total_similar(a) + total_similar(b),
    decreases b.len(),
{
    if b.len() == 0 {
        assert(a + b =~= a);
    } else {
        assert((a + b).drop_last() =~= a + b.drop_last());
        lemma_total_similar_add(a, b.drop_last());
    }
}

/// There are at most as many groups as base files, and besides one file per group they hold at
/// most as many files as are compared. Every group has at least two files.
pub proof fn lemma_sound_search_sizes(groups: Seq<GroupedModel>, thresholds: Thresholds)
    ensures
        sound_groups(groups, thresholds).len() <= base_file_count(groups),
        total_similar(sound_groups(groups, thresholds)) <= compared_file_count(groups),
        forall|g: int|
            0 <= g < sound_groups(groups, thresholds).len() ==> (#[trigger] sound_groups(
                groups,
                thresholds,
            )[g]).len() >= 2,
    decreases groups.len(),
{
    if groups.len() > 0 {
        let last = groups.last();
        let before = sound_groups(groups.drop_last(), thresholds);
        let new = compared(last.base_files, last.files_to_compare, thresholds).groups;
        lemma_sound_search_sizes(groups.drop_last(), thresholds);
        lemma_sound_group_sizes(last.base_files, last.files_to_compare, thresholds);
        lemma_total_similar_add(before, new);
        assert forall|g: int| 0 <= g < (before + new).len() implies (#[trigger] (before
            + new)[g]).len() >= 2 by {
            if g < before.len() {
                assert((before + new)[g] == before[g]);
            } else {
                assert((before + new)[g] == new[g - before.len()]);
            }
        }
    }
}

/// Every file weighs one.
pub open spec fn one() -> spec_fn(EntryModel) -> nat {
    |e: EntryModel| 1
}

/// Counted by one each, files weigh as much as there are.
pub proof fn lemma_weight_is_length(list: Seq<EntryModel>)
    ensures
        weight(list, one()) == list.len(),
    decreases list.len(),
{
    if list.len() > 0 {
        lemma_weight_is_length(list.drop_last());
    }
}

proof fn lemma_split_each_sizes(
    pairs: Seq<(Seq<char>, Seq<EntryModel>)>,
    use_reference_folders: bool,
    reference_paths: Set<Seq<char>>,
)
    ensures
        base_file_count(split_each(pairs, use_reference_folders, reference_paths)) <= paired_weight(
            pairs,
            one(),
        ),
        compared_file_count(split_each(pairs, use_reference_folders, reference_paths))
            <= paired_weight(pairs, one()),
    decreases pairs.len(),
{
    if pairs.len() > 0 {
        let list = pairs.last().1;
        let before = split_each(pairs.drop_last(), use_reference_folders, reference_paths);
        let group = split(list, use_reference_folders, reference_paths);
        lemma_split_each_sizes(pairs.drop_last(), use_reference_folders, reference_paths);
        lemma_split_sizes(list, use_reference_folders, reference_paths);
        lemma_weight_is_length(list);
        if has_pairs(group) {
            assert(before.push(group).drop_last() =~= before);
        }
    }
}

proof fn lemma_split_sizes(
    list: Seq<EntryModel>,
    use_reference_folders: bool,
    reference_paths: Set<Seq<char>>,
)
    ensures
        split(list, use_reference_folders, reference_paths).base_files.len() <= list.len(),
        split(list, use_reference_folders, reference_paths).files_to_compare.len() <= list.len(),
{
    if list.len() > 0 {
        lemma_by_path(list, reference_paths, true, list[0]);
        lemma_by_path(list, reference_paths, false, list[0]);
    }
}

/// Neither side of the groups to check has more files than there are in all.
pub proof fn lemma_groups_to_check_sizes(
    entries: Seq<EntryModel>,
    only_with_similar_titles: bool,
    use_reference_folders: bool,
    reference_paths: Set<Seq<char>>,
)
    ensures
        base_file_count(
            groups_to_check(
                entries,
                only_with_similar_titles,
                use_reference_folders,
                reference_paths,
            ),
        ) <= entries.len(),
        compared_file_count(
            groups_to_check(
                entries,
                only_with_similar_titles,
                use_reference_folders,
                reference_paths,
            ),
        ) <= entries.len(),
{
    lemma_weight_is_length(entries);
    if only_with_similar_titles {
        lemma_grouped_weight(entries, GroupKey::SimilarTitle, one());
        lemma_split_each_sizes(
            grouped(keyed_by(entries, GroupKey::SimilarTitle)),
            use_reference_folders,
            reference_paths,
        );
    } else {
        let group = split(entries, use_reference_folders, reference_paths);
        lemma_split_sizes(entries, use_reference_folders, reference_paths);
        assert(seq![group].drop_last() =~= Seq::empty());
        assert(base_file_count(seq![group].drop_last()) == 0);
        assert(compared_file_count(seq![group].drop_last()) == 0);
    }
}

/// Whether a group is made of files that sound like its last member, and were to be compared with
/// it.
pub open spec fn comes_from_check(
    group: Seq<EntryModel>,
    checks: Seq<GroupedModel>,
    thresholds: Thresholds,
) -> bool {
    exists|c: int|
        0 <= c < checks.len() && is_sound_group(
            group,
            (#[trigger] checks[c]).base_files,
            checks[c].files_to_compare,
            thresholds,
        )
}

/// Every group that a search by sound reports is a base file with files that were to be compared
/// with it and sound like it.
pub proof fn law_search_reports_sound_groups(
    checks: Seq<GroupedModel>,
    thresholds: Thresholds,
    g: int,
)
    requires
        0 <= g < sound_groups(checks, thresholds).len(),
    ensures
        comes_from_check(sound_groups(checks, thresholds)[g], checks, thresholds),
    decreases checks.len(),
{
    let rest = checks.drop_last();
    let last = checks.last();
    let before = sound_groups(rest, thresholds);
    let group = sound_groups(checks, thresholds)[g];
    if g < before.len() {
        law_search_reports_sound_groups(rest, thresholds, g);
        assert(group == before[g]);
        let c = choose|c: int|
            0 <= c < rest.len() && is_sound_group(
                group,
                (#[trigger] rest[c]).base_files,
                rest[c].files_to_compare,
                thresholds,
            );
        assert(checks[c] == rest[c]);
    } else {
        law_sound_groups_are_alike(
            last.base_files,
            last.files_to_compare,
            thresholds,
            g - before.len(),
        );
        assert(checks[checks.len() - 1] == last);
    }
}

/// Of two files that were to be compared and sound alike at least one is in a group.
pub proof fn law_search_reports_similar_pairs(
    checks: Seq<GroupedModel>,
    thresholds: Thresholds,
    a: EntryModel,
    b: EntryModel,
)
    requires
        are_compared(checks, a, b),
        a.path != b.path,
        sound_alike(a.fingerprint, b.fingerprint, thresholds),
    ensures
        is_reported(sound_groups(checks, thresholds), a.path) || is_reported(
            sound_groups(checks, thresholds),
            b.path,
        ),
    decreases checks.len(),
{
    let rest = checks.drop_last();
    let last = checks.last();
    let before = sound_groups(rest, thresholds);
    let new = compared(last.base_files, last.files_to_compare, thresholds).groups;
    let c = choose|c: int|
        0 <= c < checks.len() && (#[trigger] checks[c]).base_files.contains(a)
            && checks[c].files_to_compare.contains(b);
    if c < rest.len() {
        assert(rest[c] == checks[c]);
        law_search_reports_similar_pairs(rest, thresholds, a, b);
    } else {
        let i = choose|i: int| 0 <= i < last.base_files.len() && last.base_files[i] == a;
        let j = choose|j: int|
            0 <= j < last.files_to_compare.len() && last.files_to_compare[j] == b;
        law_similar_pairs_are_reported(last.base_files, last.files_to_compare, thresholds, i, j);
    }
    lemma_reported_in_both(before, new, a.path);
    lemma_reported_in_both(before, new, b.path);
}

proof fn lemma_reported_in_both(
    before: Seq<Seq<EntryModel>>,
    new: Seq<Seq<EntryModel>>,
    path: Seq<char>,
)
    ensures
        is_reported(before, path) || is_reported(new, path) ==> is_reported(before + new, path),
{
    if is_reported(before, path) {
        let (g, p) = choose|g: int, p: int|
            0 <= g < before.len() && 0 <= p < before[g].len() && (#[trigger] before[g][p]).path
                == path;
        assert((before + new)[g][p].path == path);
    } else if is_reported(new, path) {
        let (g, p) = choose|g: int, p: int|
            0 <= g < new.len() && 0 <= p < new[g].len() && (#[trigger] new[g][p]).path == path;
        assert((before + new)[before.len() + g][p].path == path);
    }
}

/// A search of some groups and then others finds what the search of the former finds and then what
/// that of the latter finds, with as many base files as both; and one group is compared by itself.
pub proof fn law_searches_add_up(
    a: Seq<GroupedModel>,
    b: Seq<GroupedModel>,
    thresholds: Thresholds,
    one: GroupedModel,
)
    ensures
        sound_groups(a + b, thresholds) == sound_groups(a, thresholds) + sound_groups(
            b,
            thresholds,
        ),
        sound_errors(a + b, thresholds) == sound_errors(a, thresholds) + sound_errors(
            b,
            thresholds,
        ),
        base_file_count(a + b) == base_file_count(a) + base_file_count(b),
        compared_file_count(a + b) == compared_file_count(a) + compared_file_count(b),
        sound_groups(seq![one], thresholds) == compared(
            one.base_files,
            one.files_to_compare,
            thresholds,
        ).groups,
        sound_errors(seq![one], thresholds) == compared(
            one.base_files,
            one.files_to_compare,
            thresholds,
        ).errors,
        base_file_count(seq![one]) == one.base_files.len(),
        compared_file_count(seq![one]) == one.files_to_compare.len(),
    decreases b.len(),
{
    let single = seq![one];
    let none: Seq<GroupedModel> = Seq::empty();
    let alone = compared(one.base_files, one.files_to_compare, thresholds);
    assert(single.drop_last() =~= none);
    assert(single.last() == one);
    assert(sound_groups(none, thresholds) =~= Seq::empty());
    assert(sound_errors(none, thresholds) =~= Seq::empty());
    assert(base_file_count(none) == 0 && compared_file_count(none) == 0);
    assert(sound_groups(single, thresholds) =~= alone.groups);
    assert(sound_errors(single, thresholds) =~= alone.errors);
    if b.len() == 0 {
        assert(a + b =~= a);
        assert(sound_groups(a + b, thresholds) =~= sound_groups(a, thresholds) + sound_groups(
            b,
            thresholds,
        ));
        assert(sound_errors(a + b, thresholds) =~= sound_errors(a, thresholds) + sound_errors(
            b,
            thresholds,
        ));
    } else {
        law_searches_add_up(a, b.drop_last(), thresholds, one);
        assert((a + b).drop_last() =~= a + b.drop_last());
        assert((a + b).last() == b.last());
        assert(sound_groups(a + b, thresholds) =~= sound_groups(a, thresholds) + sound_groups(
            b,
            thresholds,
        ));
        assert(sound_errors(a + b, thresholds) =~= sound_errors(a, thresholds) + sound_errors(
            b,
            thresholds,
        ));
    }
}

} // verus!
