//! Which files are compared by sound with which others.

use crate::fingerprint_matching::{
    compared, comparison_start, failures, outcomes_of, similar_files, texts, Thresholds,
};
use crate::grouping::{
    get_entries_grouped_by_title, grouped, grouped_models, key_of, keyed_by, lemma_grouped,
    under_key, GroupKey,
};
use crate::music_entry::{clone_entries, models, EntryModel, MusicEntry};
use crate::sorted_map::has_key;
use crate::tag_laws::{has_pair, lemma_under_key};
use vstd::hash_set::StringHashSet;
use vstd::prelude::*;

verus! {

/// Files to compare with each other: every base file with every file to compare.
#[derive(Debug)]
pub struct GroupedFilesToCheck {
    pub base_files: Vec<MusicEntry>,
    pub files_to_compare: Vec<MusicEntry>,
}

/// The model of files to compare with each other.
#[verifier::ext_equal]
pub struct GroupedModel {
    pub base_files: Seq<EntryModel>,
    pub files_to_compare: Seq<EntryModel>,
}

impl View for GroupedFilesToCheck {
    type V = GroupedModel;

    open spec fn view(&self) -> GroupedModel {
        GroupedModel {
            base_files: models(self.base_files@),
            files_to_compare: models(self.files_to_compare@),
        }
    }
}

/// The models of several such groups.
pub open spec fn check_models(groups: Seq<GroupedFilesToCheck>) -> Seq<GroupedModel> {
    Seq::new(groups.len(), |i: int| groups[i]@)
}

/// The files whose path is in a set, or those whose path is not, in their order.
pub open spec fn by_path(entries: Seq<EntryModel>, paths: Set<Seq<char>>, inside: bool) -> Seq<
    EntryModel,
>
    decreases entries.len(),
{
    if entries.len() == 0 {
        Seq::empty()
    } else {
        let before = by_path(entries.drop_last(), paths, inside);
        if paths.contains(entries.last().path) == inside {
            before.push(entries.last())
        } else {
            before
        }
    }
}

/// Parts files into base files and files to compare. With reference folders, the files in them are
/// compared with all others; without, all files are compared with each other.
pub open spec fn split(
    entries: Seq<EntryModel>,
    use_reference_folders: bool,
    reference_paths: Set<Seq<char>>,
) -> GroupedModel {
    if use_reference_folders {
        GroupedModel {
            base_files: by_path(entries, reference_paths, true),
            files_to_compare: by_path(entries, reference_paths, false),
        }
    } else {
        GroupedModel { base_files: entries, files_to_compare: entries }
    }
}

/// Whether there is something to compare: not if a side is empty, nor if both sides are the same
/// single file.
pub open spec fn has_pairs(group: GroupedModel) -> bool {
    &&& group.base_files.len() > 0
    &&& group.files_to_compare.len() > 0
    &&& !(group.base_files.len() == 1 && group.files_to_compare.len() == 1
        && group.base_files[0].path == group.files_to_compare[0].path)
}

/// Splits each group, and keeps those in which there is something to compare.
pub open spec fn split_each(
    pairs: Seq<(Seq<char>, Seq<EntryModel>)>,
    use_reference_folders: bool,
    reference_paths: Set<Seq<char>>,
) -> Seq<GroupedModel>
    decreases pairs.len(),
{
    if pairs.len() == 0 {
        Seq::empty()
    } else {
        let before = split_each(pairs.drop_last(), use_reference_folders, reference_paths);
        let group = split(pairs.last().1, use_reference_folders, reference_paths);
        if has_pairs(group) {
            before.push(group)
        } else {
            before
        }
    }
}

/// What is compared by sound: either only files with similar titles, or everything.
pub open spec fn groups_to_check(
    entries: Seq<EntryModel>,
    only_with_similar_titles: bool,
    use_reference_folders: bool,
    reference_paths: Set<Seq<char>>,
) -> Seq<GroupedModel> {
    if only_with_similar_titles {
        split_each(
            grouped(keyed_by(entries, GroupKey::SimilarTitle)),
            use_reference_folders,
            reference_paths,
        )
    } else {
        seq![split(entries, use_reference_folders, reference_paths)]
    }
}

/// A list of paths as a set.
fn path_set(list: &Vec<String>) -> (r: StringHashSet)
    ensures
        r@ == texts(list@).to_set(),
{
    let ghost all = texts(list@);
    let mut r = StringHashSet::new();
    let mut i: usize = 0;
    assert(r@ =~= all.take(0).to_set());
    while i < list.len()
        invariant
            i <= list@.len(),
            all == texts(list@),
            r@ == all.take(i as int).to_set(),
        decreases list@.len() - i,
    {
        r.insert(list[i].clone());
        proof {
            let now = all.take(i + 1);
            assert(now =~= all.take(i as int).push(list@[i as int]@));
            assert forall|p: Seq<char>| #[trigger] r@.contains(p) <==> now.to_set().contains(p) by {
                if now.contains(p) {
                    let j = choose|j: int| 0 <= j < now.len() && now[j] == p;
                    if j < i {
                        assert(all.take(i as int)[j] == p);
                    }
                }
                if all.take(i as int).contains(p) {
                    let j = choose|j: int|
                        0 <= j < all.take(i as int).len() && all.take(i as int)[j] == p;
                    assert(now[j] == p);
                }
                assert(now[i as int] == list@[i as int]@);
            }
            assert(r@ =~= now.to_set());
        }
        i = i + 1;
    }
    assert(all.take(all.len() as int) =~= all);
    r
}

/// Parts files into base files and files to compare.
fn split_by_set(
    music_data: Vec<MusicEntry>,
    use_reference_folders: bool,
    reference_paths: &StringHashSet,
) -> (r: GroupedFilesToCheck)
    ensures
        r@ == split(models(music_data@), use_reference_folders, reference_paths@),
{
    if !use_reference_folders {
        let base_files = clone_entries(&music_data);
        return GroupedFilesToCheck { base_files, files_to_compare: music_data };
    }
    let ghost all = models(music_data@);
    let ghost paths = reference_paths@;
    let mut base_files: Vec<MusicEntry> = Vec::new();
    let mut files_to_compare: Vec<MusicEntry> = Vec::new();
    assert(models(base_files@) =~= by_path(all.take(0), paths, true));
    assert(models(files_to_compare@) =~= by_path(all.take(0), paths, false));
    for entry in it: music_data.into_iter()
        invariant
            it.seq() == music_data@,
            all == models(music_data@),
            paths == reference_paths@,
            models(base_files@) == by_path(all.take(it.index()), paths, true),
            models(files_to_compare@) == by_path(all.take(it.index()), paths, false),
    {
        let ghost base_before = models(base_files@);
        let ghost compare_before = models(files_to_compare@);
        proof {
            let i = it.index();
            assert(all.take(i + 1).drop_last() =~= all.take(i));
            assert(all.take(i + 1).last() == entry@);
        }
        if reference_paths.contains(entry.path.as_str()) {
            base_files.push(entry);
            assert(models(base_files@) =~= base_before.push(entry@));
        } else {
            files_to_compare.push(entry);
            assert(models(files_to_compare@) =~= compare_before.push(entry@));
        }
    }
    assert(all.take(all.len() as int) =~= all);
    GroupedFilesToCheck { base_files, files_to_compare }
}

/// Parts files into base files and files to compare. The reference paths are those of the files
/// that lie in a reference folder.
pub fn split_fingerprints_to_base_and_files_to_compare(
    music_data: Vec<MusicEntry>,
    use_reference_folders: bool,
    reference_paths: &Vec<String>,
) -> (r: (Vec<MusicEntry>, Vec<MusicEntry>))
    ensures
        models(r.0@) == split(
            models(music_data@),
            use_reference_folders,
            texts(reference_paths@).to_set(),
        ).base_files,
        models(r.1@) == split(
            models(music_data@),
            use_reference_folders,
            texts(reference_paths@).to_set(),
        ).files_to_compare,
{
    let set = path_set(reference_paths);
    let group = split_by_set(music_data, use_reference_folders, &set);
    (group.base_files, group.files_to_compare)
}

/// Whether there is something to compare.
fn has_pairs_to_compare(group: &GroupedFilesToCheck) -> (r: bool)
    ensures
        r == has_pairs(group@),
{
    if group.base_files.len() == 0 || group.files_to_compare.len() == 0 {
        return false;
    }
    assert(group@.base_files[0] == group.base_files@[0]@);
    assert(group@.files_to_compare[0] == group.files_to_compare@[0]@);
    !(group.base_files.len() == 1 && group.files_to_compare.len() == 1
        && group.base_files[0].path == group.files_to_compare[0].path)
}

/// Decides which files are compared by sound with which others. The reference paths are those of
/// the files that lie in a reference folder.
pub fn split_files_to_check(
    entries: Vec<MusicEntry>,
    only_with_similar_titles: bool,
    use_reference_folders: bool,
    reference_paths: &Vec<String>,
) -> (r: Vec<GroupedFilesToCheck>)
    ensures
        check_models(r@) == groups_to_check(
            models(entries@),
            only_with_similar_titles,
            use_reference_folders,
            texts(reference_paths@).to_set(),
        ),
{
    let set = path_set(reference_paths);
    let ghost paths = set@;
    let mut r: Vec<GroupedFilesToCheck> = Vec::new();
    if !only_with_similar_titles {
        let ghost all = models(entries@);
        r.push(split_by_set(entries, use_reference_folders, &set));
        assert(check_models(r@) =~= seq![split(all, use_reference_folders, paths)]);
        return r;
    }
    let entries_grouped_by_title = get_entries_grouped_by_title(entries);
    let ghost all = grouped_models(entries_grouped_by_title@);
    let pairs = entries_grouped_by_title.into_pairs();
    assert(check_models(r@) =~= split_each(all.take(0), use_reference_folders, paths));
    for pair in it: pairs.into_iter()
        invariant
            it.seq() == pairs@,
            all.len() == pairs@.len(),
            forall|i: int|
                0 <= i < all.len() ==> (#[trigger] all[i]) == (pairs@[i].0@, models(pairs@[i].1@)),
            paths == set@,
            check_models(r@) == split_each(all.take(it.index()), use_reference_folders, paths),
    {
        let ghost before = check_models(r@);
        proof {
            let i = it.index();
            assert(all.take(i + 1).drop_last() =~= all.take(i));
            assert(all.take(i + 1).last() == all[i]);
        }
        let (_title, list) = pair;
        let group = split_by_set(list, use_reference_folders, &set);
        if has_pairs_to_compare(&group) {
            r.push(group);
            assert(check_models(r@) =~= before.push(group@));
        }
    }
    assert(all.take(pairs@.len() as int) =~= all);
    r
}

/// A file lies on exactly one side if there are reference folders, and on both if there are none.
pub proof fn law_split_keeps_every_file(
    entries: Seq<EntryModel>,
    use_reference_folders: bool,
    reference_paths: Set<Seq<char>>,
    entry: EntryModel,
)
    ensures
        split(entries, use_reference_folders, reference_paths).base_files.contains(entry)
            <==> entries.contains(entry) && (use_reference_folders ==> reference_paths.contains(
            entry.path,
        )),
        split(entries, use_reference_folders, reference_paths).files_to_compare.contains(entry)
            <==> entries.contains(entry) && (use_reference_folders ==> !reference_paths.contains(
            entry.path,
        )),
{
    lemma_by_path(entries, reference_paths, true, entry);
    lemma_by_path(entries, reference_paths, false, entry);
}

/// What picking files by their path comes to.
pub proof fn lemma_by_path(
    entries: Seq<EntryModel>,
    paths: Set<Seq<char>>,
    inside: bool,
    entry: EntryModel,
)
    ensures
        by_path(entries, paths, inside).contains(entry) <==> entries.contains(entry) && (
        paths.contains(entry.path) == inside),
        by_path(entries, paths, inside).len() <= entries.len(),
    decreases entries.len(),
{
    let list = by_path(entries, paths, inside);
    if entries.len() > 0 {
        let rest = entries.drop_last();
        let before = by_path(rest, paths, inside);
        lemma_by_path(rest, paths, inside, entry);
        if list.contains(entry) {
            let j = choose|j: int| 0 <= j < list.len() && list[j] == entry;
            if j < before.len() {
                assert(before[j] == entry);
                let k = choose|k: int| 0 <= k < rest.len() && rest[k] == entry;
                assert(entries[k] == entry);
            } else {
                assert(entries[entries.len() - 1] == entry);
            }
        }
        if entries.contains(entry) && paths.contains(entry.path) == inside {
            let k = choose|k: int| 0 <= k < entries.len() && entries[k] == entry;
            if k < rest.len() {
                assert(rest[k] == entry);
                let j = choose|j: int| 0 <= j < before.len() && before[j] == entry;
                assert(list[j] == entry);
            } else {
                assert(list[before.len() as int] == entry);
            }
        }
    }
}

/// The files whose path is in a set, or not, stand in the order of the list.
pub proof fn lemma_by_path_keeps_order(
    entries: Seq<EntryModel>,
    paths: Set<Seq<char>>,
    inside: bool,
    p: int,
    q: int,
)
    requires
        0 <= p < q < by_path(entries, paths, inside).len(),
    ensures
        has_pair(
            entries,
            by_path(entries, paths, inside)[p],
            by_path(entries, paths, inside)[q],
        ),
    decreases entries.len(),
{
    let list = by_path(entries, paths, inside);
    let rest = entries.drop_last();
    let before = by_path(rest, paths, inside);
    if q < before.len() {
        lemma_by_path_keeps_order(rest, paths, inside, p, q);
        let (i, j) = choose|i: int, j: int|
            0 <= i < j < rest.len() && #[trigger] rest[i] == before[p] && #[trigger] rest[j]
                == before[q];
        assert(entries[i] == list[p] && entries[j] == list[q]);
    } else {
        assert(before.contains(before[p]));
        lemma_by_path(rest, paths, inside, before[p]);
        let i = choose|i: int| 0 <= i < rest.len() && rest[i] == before[p];
        assert(entries[i] == list[p] && entries[entries.len() - 1] == list[q]);
    }
}

/// Nothing is lost with a group in which there is nothing to compare: a comparison would find no
/// groups and report no errors.
pub proof fn law_dropped_groups_hold_nothing(group: GroupedModel, thresholds: Thresholds)
    requires
        !has_pairs(group),
    ensures
        compared(group.base_files, group.files_to_compare, thresholds).groups.len() == 0,
        compared(group.base_files, group.files_to_compare, thresholds).errors.len() == 0,
{
    let base = group.base_files;
    let files = group.files_to_compare;
    if base.len() > 0 && files.len() == 0 {
        lemma_nothing_to_compare(base, files, thresholds);
    } else if base.len() > 0 {
        let outcomes = outcomes_of(base[0], files, Set::empty(), thresholds);
        assert(base.drop_last() =~= Seq::empty());
        assert(compared(base.drop_last(), files, thresholds) == comparison_start());
        assert(files.drop_last() =~= Seq::empty());
        assert(outcomes.drop_last() =~= Seq::empty());
        assert(similar_files(files.drop_last(), outcomes).len() == 0);
        assert(failures(outcomes.drop_last()).len() == 0);
        assert(similar_files(files, outcomes).len() == 0);
        assert(failures(outcomes).len() == 0);
    }
}

proof fn lemma_nothing_to_compare(
    base: Seq<EntryModel>,
    files: Seq<EntryModel>,
    thresholds: Thresholds,
)
    requires
        files.len() == 0,
    ensures
        compared(base, files, thresholds) == comparison_start(),
    decreases base.len(),
{
    if base.len() > 0 {
        lemma_nothing_to_compare(base.drop_last(), files, thresholds);
        let outcomes = outcomes_of(base.last(), files, Set::empty(), thresholds);
        assert(outcomes.len() == 0);
        assert(failures(outcomes).len() == 0);
        assert(compared(base, files, thresholds) =~= comparison_start());
    }
}

/// Whether two files are to be compared.
pub open spec fn are_compared(checks: Seq<GroupedModel>, a: EntryModel, b: EntryModel) -> bool {
    exists|c: int|
        0 <= c < checks.len() && (#[trigger] checks[c]).base_files.contains(a)
            && checks[c].files_to_compare.contains(b)
}

/// Files with similar titles are compared, also if all others are not. With reference folders, one
/// of the two has to lie in one and the other must not.
pub proof fn law_similar_titles_are_compared(
    entries: Seq<EntryModel>,
    only_with_similar_titles: bool,
    use_reference_folders: bool,
    reference_paths: Set<Seq<char>>,
    a: EntryModel,
    b: EntryModel,
)
    requires
        entries.contains(a),
        entries.contains(b),
        a.path != b.path,
        only_with_similar_titles ==> key_of(a, GroupKey::SimilarTitle) == key_of(
            b,
            GroupKey::SimilarTitle,
        ) && key_of(a, GroupKey::SimilarTitle).len() > 0,
        use_reference_folders ==> reference_paths.contains(a.path) && !reference_paths.contains(
            b.path,
        ),
    ensures
        are_compared(
            groups_to_check(
                entries,
                only_with_similar_titles,
                use_reference_folders,
                reference_paths,
            ),
            a,
            b,
        ),
{
    if only_with_similar_titles {
        let keyed = keyed_by(entries, GroupKey::SimilarTitle);
        let pairs = grouped(keyed);
        let k = key_of(a, GroupKey::SimilarTitle);
        lemma_grouped(keyed);
        lemma_under_key(entries, GroupKey::SimilarTitle, k);
        assert(under_key(keyed, k).contains(a) && under_key(keyed, k).contains(b));
        assert(has_key(pairs, k));
        let i = choose|i: int| 0 <= i < pairs.len() && #[trigger] pairs[i].0 == k;
        assert(pairs[i].1 == under_key(keyed, k));
        lemma_split_each(pairs, use_reference_folders, reference_paths, i, a, b);
    } else {
        law_split_keeps_every_file(entries, use_reference_folders, reference_paths, a);
        law_split_keeps_every_file(entries, use_reference_folders, reference_paths, b);
        let checks = groups_to_check(entries, false, use_reference_folders, reference_paths);
        assert(checks[0].base_files.contains(a));
    }
}

proof fn lemma_split_each(
    pairs: Seq<(Seq<char>, Seq<EntryModel>)>,
    use_reference_folders: bool,
    reference_paths: Set<Seq<char>>,
    i: int,
    a: EntryModel,
    b: EntryModel,
)
    requires
        0 <= i < pairs.len(),
        pairs[i].1.contains(a),
        pairs[i].1.contains(b),
        a.path != b.path,
        use_reference_folders ==> reference_paths.contains(a.path) && !reference_paths.contains(
            b.path,
        ),
    ensures
        are_compared(split_each(pairs, use_reference_folders, reference_paths), a, b),
    decreases pairs.len(),
{
    let checks = split_each(pairs, use_reference_folders, reference_paths);
    let before = split_each(pairs.drop_last(), use_reference_folders, reference_paths);
    if i < pairs.len() - 1 {
        lemma_split_each(pairs.drop_last(), use_reference_folders, reference_paths, i, a, b);
        let c = choose|c: int|
            0 <= c < before.len() && (#[trigger] before[c]).base_files.contains(a)
                && before[c].files_to_compare.contains(b);
        assert(checks[c] == before[c]);
    } else {
        let list = pairs[i].1;
        let group = split(list, use_reference_folders, reference_paths);
        law_split_keeps_every_file(list, use_reference_folders, reference_paths, a);
        law_split_keeps_every_file(list, use_reference_folders, reference_paths, b);
        assert(has_pairs(group));
        assert(checks[before.len() as int] == group);
    }
}

/// The files in a set of paths, or not in it, of one list and then another are those of the former
/// and then those of the latter; and a single file is one of them or not.
pub proof fn law_parting_by_path_adds_up(
    a: Seq<EntryModel>,
    b: Seq<EntryModel>,
    paths: Set<Seq<char>>,
    inside: bool,
    entry: EntryModel,
)
    ensures
        by_path(a + b, paths, inside) == by_path(a, paths, inside) + by_path(b, paths, inside),
        by_path(seq![entry], paths, inside) == if paths.contains(entry.path) == inside {
            seq![entry]
        } else {
            Seq::empty()
        },
    decreases b.len(),
{
    assert(by_path(Seq::empty(), paths, inside) =~= Seq::empty());
    assert(seq![entry].drop_last() =~= Seq::empty());
    assert(by_path(seq![entry], paths, inside) =~= if paths.contains(entry.path) == inside {
        seq![entry]
    } else {
        Seq::empty()
    });
    if b.len() == 0 {
        assert(a + b =~= a);
        assert(by_path(a, paths, inside) + by_path(b, paths, inside) =~= by_path(a, paths, inside));
    } else {
        law_parting_by_path_adds_up(a, b.drop_last(), paths, inside, entry);
        assert((a + b).drop_last() =~= a + b.drop_last());
        assert((a + b).last() == b.last());
        assert(by_path(a + b, paths, inside) =~= by_path(a, paths, inside) + by_path(
            b,
            paths,
            inside,
        ));
    }
}

/// Without regard to titles everything is compared at once. With it, every group that is kept has
/// something to compare: a base file and another file.
pub proof fn law_kept_groups_have_pairs(
    entries: Seq<EntryModel>,
    only_with_similar_titles: bool,
    use_reference_folders: bool,
    reference_paths: Set<Seq<char>>,
    c: int,
)
    requires
        0 <= c < groups_to_check(
            entries,
            only_with_similar_titles,
            use_reference_folders,
            reference_paths,
        ).len(),
    ensures
        ({
            let checks = groups_to_check(
                entries,
                only_with_similar_titles,
                use_reference_folders,
                reference_paths,
            );
            let base = checks[c].base_files;
            let files = checks[c].files_to_compare;
            &&& !only_with_similar_titles ==> checks.len() == 1
            &&& only_with_similar_titles ==> base.len() > 0 && files.len() > 0 && (base.len() > 1
                || files.len() > 1 || base[0].path != files[0].path)
            &&& !use_reference_folders ==> base == files
        }),
{
    if only_with_similar_titles {
        lemma_kept_groups(
            grouped(keyed_by(entries, GroupKey::SimilarTitle)),
            use_reference_folders,
            reference_paths,
            c,
        );
    }
}

proof fn lemma_kept_groups(
    pairs: Seq<(Seq<char>, Seq<EntryModel>)>,
    use_reference_folders: bool,
    reference_paths: Set<Seq<char>>,
    c: int,
)
    requires
        0 <= c < split_each(pairs, use_reference_folders, reference_paths).len(),
    ensures
        has_pairs(split_each(pairs, use_reference_folders, reference_paths)[c]),
        !use_reference_folders ==> split_each(
            pairs,
            use_reference_folders,
            reference_paths,
        )[c].base_files == split_each(
            pairs,
            use_reference_folders,
            reference_paths,
        )[c].files_to_compare,
    decreases pairs.len(),
{
    let before = split_each(pairs.drop_last(), use_reference_folders, reference_paths);
    if c < before.len() {
        lemma_kept_groups(pairs.drop_last(), use_reference_folders, reference_paths, c);
    }
}

} // verus!
