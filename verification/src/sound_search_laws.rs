//! What a search by sound is for: files that share a stretch of sound.

use crate::fingerprint_matching::{
    compared, duration_of, failures, outcomes_of, pair_outcome, segments_of, similar_files,
    sound_alike, timed, PairModel, Thresholds,
};
use crate::grouping::{grouped, key_of, keyed_by, lemma_grouped, under_key, GroupKey};
use crate::music_entry::EntryModel;
use crate::params::SameMusicParameters;
use crate::same_music::{
    after_sound_search, checks_of, compared_sounds, thresholds_of, SameMusicModel,
};
use crate::simplified_name::simplified;
use crate::sound_laws::{
    is_reported, is_sound_group, lemma_compared, lemma_similar_files, misses_nothing,
    turned_out_similar,
};
use crate::sound_search::{
    law_search_reports_similar_pairs, law_search_reports_sound_groups, sound_errors, sound_groups,
};
use crate::splitting::{
    are_compared, law_similar_titles_are_compared, law_split_keeps_every_file,
    lemma_by_path_keeps_order, split, split_each, GroupedModel,
};
use crate::tag_laws::{has_pair, lemma_under_key, lemma_under_key_keeps_order};
use crate::tag_search_laws::lemma_total_similar_is_flat;
use vstd::prelude::*;

verus! {

/// Whether two fingerprints, neither of them too long, match in a stretch that lasts longer than a
/// search's shortest stretch and differs by less than its greatest difference.
pub open spec fn share_a_stretch(fp1: Seq<u32>, fp2: Seq<u32>, params: SameMusicParameters) -> bool {
    &&& fp1.len() < 524286
    &&& fp2.len() < 524286
    &&& exists|i: int|
        0 <= i < segments_of(fp1, fp2).len() && params.minimum_segment_duration.less(
            duration_of((#[trigger] segments_of(fp1, fp2)[i]).items_count),
        ) && segments_of(fp1, fp2)[i].score.less(params.maximum_difference)
}

/// Whether a search compares a file with another one: not with itself; with reference folders only
/// a file in one of them with a file outside; and, if that is asked for, only where the titles have
/// the same simplified form, and not an empty one.
pub open spec fn are_to_be_compared(
    tool: SameMusicModel,
    reference_paths: Set<Seq<char>>,
    a: EntryModel,
    b: EntryModel,
) -> bool {
    &&& tool.music_entries.contains(a)
    &&& tool.music_entries.contains(b)
    &&& a.path != b.path
    &&& tool.common_data.use_reference_folders ==> reference_paths.contains(a.path)
        && !reference_paths.contains(b.path)
    &&& tool.params.compare_fingerprints_only_with_similar_titles ==> simplified(a.track_title)
        == simplified(b.track_title) && simplified(a.track_title).len() > 0
}

proof fn lemma_alike(fp1: Seq<u32>, fp2: Seq<u32>, params: SameMusicParameters)
    ensures
        sound_alike(fp1, fp2, thresholds_of(params)) <==> share_a_stretch(fp1, fp2, params),
{
    let segments = segments_of(fp1, fp2);
    let thresholds = thresholds_of(params);
    if sound_alike(fp1, fp2, thresholds) {
        let i = choose|i: int|
            0 <= i < timed(segments).len() && thresholds.accept(#[trigger] timed(segments)[i]);
        assert(params.minimum_segment_duration.less(duration_of(segments[i].items_count)));
    }
    if share_a_stretch(fp1, fp2, params) {
        let i = choose|i: int|
            0 <= i < segments.len() && params.minimum_segment_duration.less(
                duration_of((#[trigger] segments[i]).items_count),
            ) && segments[i].score.less(params.maximum_difference);
        assert(thresholds.accept(timed(segments)[i]));
    }
}

/// A group that was found by comparing sounds ends with its base file, and every other file of it
/// shares a stretch with that one, by the thresholds that the search was given.
pub proof fn law_group_shares_a_stretch(
    tool: SameMusicModel,
    checks: Seq<GroupedModel>,
    g: int,
    p: int,
)
    requires
        0 <= g < after_sound_search(tool, checks).duplicated_music_entries.len(),
        0 <= p < after_sound_search(tool, checks).duplicated_music_entries[g].len() - 1,
    ensures
        ({
            let group = after_sound_search(tool, checks).duplicated_music_entries[g];
            &&& are_compared(checks, group.last(), group[p])
            &&& group[p].path != group.last().path
            &&& share_a_stretch(group.last().fingerprint, group[p].fingerprint, tool.params)
        }),
{
    let thresholds = thresholds_of(tool.params);
    let group = after_sound_search(tool, checks).duplicated_music_entries[g];
    law_search_reports_sound_groups(checks, thresholds, g);
    let c = choose|c: int|
        0 <= c < checks.len() && is_sound_group(
            group,
            (#[trigger] checks[c]).base_files,
            checks[c].files_to_compare,
            thresholds,
        );
    assert(checks[c].files_to_compare.contains(group[p]));
    lemma_alike(group.last().fingerprint, group[p].fingerprint, tool.params);
}

/// Of two files that are compared and share a stretch, by the thresholds that the search was given,
/// one is in a group.
pub proof fn law_shared_stretch_is_reported(
    tool: SameMusicModel,
    checks: Seq<GroupedModel>,
    a: EntryModel,
    b: EntryModel,
)
    requires
        are_compared(checks, a, b),
        a.path != b.path,
        share_a_stretch(a.fingerprint, b.fingerprint, tool.params),
    ensures
        is_reported(after_sound_search(tool, checks).duplicated_music_entries, a.path)
            || is_reported(after_sound_search(tool, checks).duplicated_music_entries, b.path),
{
    lemma_alike(a.fingerprint, b.fingerprint, tool.params);
    law_search_reports_similar_pairs(checks, thresholds_of(tool.params), a, b);
}

/// The groups that a search by sound finds when it goes through.
pub open spec fn groups_by_sound(tool: SameMusicModel, reference_paths: Set<Seq<char>>) -> Seq<
    Seq<EntryModel>,
> {
    compared_sounds(tool, reference_paths, None).0.duplicated_music_entries
}

/// Where a check of a search comes from: the files of the search, or those with one simplified
/// title.
pub proof fn lemma_check_origin(
    tool: SameMusicModel,
    reference_paths: Set<Seq<char>>,
    c: int,
) -> (list: Seq<EntryModel>)
    requires
        0 <= c < checks_of(tool, reference_paths).len(),
    ensures
        checks_of(tool, reference_paths)[c] == split(
            list,
            tool.common_data.use_reference_folders,
            reference_paths,
        ),
        !tool.params.compare_fingerprints_only_with_similar_titles ==> list == tool.music_entries,
        forall|a: EntryModel| #[trigger] list.contains(a) ==> tool.music_entries.contains(a),
        tool.params.compare_fingerprints_only_with_similar_titles ==> forall|a: EntryModel|
            #[trigger]
            list.contains(a) ==> simplified(a.track_title).len() > 0,
        tool.params.compare_fingerprints_only_with_similar_titles ==> forall|
            a: EntryModel,
            b: EntryModel,
        |
            #![trigger list.contains(a), tool.music_entries.contains(b)]
            list.contains(a) && tool.music_entries.contains(b) ==> (list.contains(b) <==> simplified(
                a.track_title,
            ) == simplified(b.track_title)),
        forall|p: int, q: int|
            0 <= p < q < list.len() ==> has_pair(
                tool.music_entries,
                #[trigger] list[p],
                #[trigger] list[q],
            ),
{
    let entries = tool.music_entries;
    if tool.params.compare_fingerprints_only_with_similar_titles {
        let keyed = keyed_by(entries, GroupKey::SimilarTitle);
        let pairs = grouped(keyed);
        lemma_grouped(keyed);
        let i = lemma_split_each_origin(
            pairs,
            tool.common_data.use_reference_folders,
            reference_paths,
            c,
        );
        let k = pairs[i].0;
        let list = pairs[i].1;
        assert(list == under_key(keyed, k));
        lemma_under_key(entries, GroupKey::SimilarTitle, k);
        assert forall|a: EntryModel| #[trigger] list.contains(a) implies entries.contains(a)
            && simplified(a.track_title) == k by {
            let p = choose|p: int| 0 <= p < list.len() && list[p] == a;
            assert(under_key(keyed, k)[p] == a);
            assert(key_of(a, GroupKey::SimilarTitle) == k);
        }
        assert forall|a: EntryModel, b: EntryModel|
            #![trigger list.contains(a), entries.contains(b)]
            list.contains(a) && entries.contains(b) implies (list.contains(b) <==> simplified(
            a.track_title,
        ) == simplified(b.track_title)) by {
            assert(key_of(b, GroupKey::SimilarTitle) == simplified(b.track_title));
        }
        assert forall|p: int, q: int| 0 <= p < q < list.len() implies has_pair(
            entries,
            #[trigger] list[p],
            #[trigger] list[q],
        ) by {
            lemma_under_key_keeps_order(entries, GroupKey::SimilarTitle, k, p, q);
        }
        list
    } else {
        assert forall|p: int, q: int| 0 <= p < q < entries.len() implies has_pair(
            entries,
            #[trigger] entries[p],
            #[trigger] entries[q],
        ) by {}
        entries
    }
}

proof fn lemma_split_each_origin(
    pairs: Seq<(Seq<char>, Seq<EntryModel>)>,
    use_reference_folders: bool,
    reference_paths: Set<Seq<char>>,
    c: int,
) -> (i: int)
    requires
        0 <= c < split_each(pairs, use_reference_folders, reference_paths).len(),
    ensures
        0 <= i < pairs.len(),
        split_each(pairs, use_reference_folders, reference_paths)[c] == split(
            pairs[i].1,
            use_reference_folders,
            reference_paths,
        ),
    decreases pairs.len(),
{
    let before = split_each(pairs.drop_last(), use_reference_folders, reference_paths);
    if c < before.len() {
        let i = lemma_split_each_origin(
            pairs.drop_last(),
            use_reference_folders,
            reference_paths,
            c,
        );
        assert(pairs.drop_last()[i] == pairs[i]);
        i
    } else {
        pairs.len() - 1
    }
}

/// What a search by sound reports: every group is a base file, at its end, after files that are to
/// be compared with it and share a stretch with it.
pub proof fn law_found_files_share_a_stretch(
    tool: SameMusicModel,
    reference_paths: Set<Seq<char>>,
    g: int,
    p: int,
)
    requires
        tool.music_entries.len() > 0,
        0 <= g < groups_by_sound(tool, reference_paths).len(),
        0 <= p < groups_by_sound(tool, reference_paths)[g].len() - 1,
    ensures
        ({
            let group = groups_by_sound(tool, reference_paths)[g];
            &&& are_to_be_compared(tool, reference_paths, group.last(), group[p])
            &&& share_a_stretch(group.last().fingerprint, group[p].fingerprint, tool.params)
        }),
{
    let checks = checks_of(tool, reference_paths);
    let group = groups_by_sound(tool, reference_paths)[g];
    law_group_shares_a_stretch(tool, checks, g, p);
    lemma_compared_are_to_be(tool, reference_paths, group.last(), group[p]);
}

proof fn lemma_compared_are_to_be(
    tool: SameMusicModel,
    reference_paths: Set<Seq<char>>,
    a: EntryModel,
    b: EntryModel,
)
    requires
        are_compared(checks_of(tool, reference_paths), a, b),
        a.path != b.path,
    ensures
        are_to_be_compared(tool, reference_paths, a, b),
{
    let checks = checks_of(tool, reference_paths);
    let c = choose|c: int|
        0 <= c < checks.len() && (#[trigger] checks[c]).base_files.contains(a)
            && checks[c].files_to_compare.contains(b);
    let list = lemma_check_origin(tool, reference_paths, c);
    let uses = tool.common_data.use_reference_folders;
    law_split_keeps_every_file(list, uses, reference_paths, a);
    law_split_keeps_every_file(list, uses, reference_paths, b);
    assert(list.contains(a) && list.contains(b));
    assert(tool.music_entries.contains(b));
}

/// What a search by sound misses: nothing. Of two files that are to be compared and share a stretch
/// one is in a group.
pub proof fn law_shared_stretches_are_found(
    tool: SameMusicModel,
    reference_paths: Set<Seq<char>>,
    a: EntryModel,
    b: EntryModel,
)
    requires
        are_to_be_compared(tool, reference_paths, a, b),
        share_a_stretch(a.fingerprint, b.fingerprint, tool.params),
    ensures
        is_reported(groups_by_sound(tool, reference_paths), a.path) || is_reported(
            groups_by_sound(tool, reference_paths),
            b.path,
        ),
{
    law_similar_titles_are_compared(
        tool.music_entries,
        tool.params.compare_fingerprints_only_with_similar_titles,
        tool.common_data.use_reference_folders,
        reference_paths,
        a,
        b,
    );
    law_shared_stretch_is_reported(tool, checks_of(tool, reference_paths), a, b);
}

proof fn lemma_similar_files_keep_order(
    files: Seq<EntryModel>,
    outcomes: Seq<PairModel>,
    p: int,
    q: int,
)
    requires
        0 <= p < q < similar_files(files, outcomes).len(),
    ensures
        has_pair(files, similar_files(files, outcomes)[p], similar_files(files, outcomes)[q]),
    decreases files.len(),
{
    let similar = similar_files(files, outcomes);
    let rest = files.drop_last();
    let before = similar_files(rest, outcomes);
    if q < before.len() {
        lemma_similar_files_keep_order(rest, outcomes, p, q);
        let (i, j) = choose|i: int, j: int|
            0 <= i < j < rest.len() && #[trigger] rest[i] == before[p] && #[trigger] rest[j]
                == before[q];
        assert(files[i] == similar[p] && files[j] == similar[q]);
    } else {
        lemma_similar_files(rest, outcomes);
        assert(turned_out_similar(rest, outcomes, before[p]));
        let i = choose|i: int|
            0 <= i < rest.len() && outcomes[i] is Similar && #[trigger] rest[i] == before[p];
        assert(files[i] == similar[p] && files[files.len() - 1] == similar[q]);
    }
}

/// Whether a group is what came of comparing the base file at a place: of the files that sound like
/// it all are in that group or an earlier one, in their order; and a base file before it that sounds
/// like it, where the two are compared, is in an earlier group.
pub open spec fn comes_of(
    groups: Seq<Seq<EntryModel>>,
    g: int,
    base_files: Seq<EntryModel>,
    files: Seq<EntryModel>,
    params: SameMusicParameters,
    j: int,
) -> bool {
    let base = base_files[j];
    &&& 0 <= j < base_files.len()
    &&& groups[g].len() > 0
    &&& groups[g].last() == base
    &&& forall|b: EntryModel|
        #![trigger files.contains(b)]
        files.contains(b) && b.path != base.path && share_a_stretch(
            base.fingerprint,
            b.fingerprint,
            params,
        ) ==> is_reported(groups.take(g + 1), b.path)
    &&& forall|i: int|
        0 <= i < j && files.contains(base) && (#[trigger] base_files[i]).path != base.path
            && share_a_stretch(base_files[i].fingerprint, base.fingerprint, params) ==> is_reported(
            groups.take(g),
            base_files[i].path,
        )
    &&& forall|p: int, q: int|
        0 <= p < q < groups[g].len() - 1 ==> has_pair(
            files,
            #[trigger] groups[g][p],
            #[trigger] groups[g][q],
        )
}

/// Base files are compared first come, first served.
pub proof fn law_base_files_are_served_in_turn(
    base_files: Seq<EntryModel>,
    files: Seq<EntryModel>,
    params: SameMusicParameters,
    g: int,
) -> (j: int)
    requires
        0 <= g < compared(base_files, files, thresholds_of(params)).groups.len(),
    ensures
        comes_of(
            compared(base_files, files, thresholds_of(params)).groups,
            g,
            base_files,
            files,
            params,
            j,
        ),
    decreases base_files.len(),
{
    let thresholds = thresholds_of(params);
    let after = compared(base_files, files, thresholds);
    let rest = base_files.drop_last();
    let n = base_files.len() - 1;
    let f = base_files.last();
    let before = compared(rest, files, thresholds);
    if g < before.groups.len() {
        let j = law_base_files_are_served_in_turn(rest, files, params, g);
        assert(after.groups.take(g + 1) =~= before.groups.take(g + 1));
        assert(after.groups.take(g) =~= before.groups.take(g));
        assert forall|i: int|
            0 <= i < j && files.contains(base_files[j]) && (#[trigger] base_files[i]).path
                != base_files[j].path && share_a_stretch(
                base_files[i].fingerprint,
                base_files[j].fingerprint,
                params,
            ) implies is_reported(after.groups.take(g), base_files[i].path) by {
            assert(rest[i] == base_files[i]);
        }
        j
    } else {
        let outcomes = outcomes_of(f, files, before.used_paths, thresholds);
        let similar = similar_files(files, outcomes);
        lemma_compared(rest, files, thresholds);
        lemma_similar_files(files, outcomes);
        assert(after.groups == before.groups.push(similar.push(f)));
        assert(after.groups.take(g) =~= before.groups);
        assert(after.groups.take(g + 1) =~= after.groups);
        assert forall|b: EntryModel|
            #![trigger files.contains(b)]
            files.contains(b) && b.path != f.path && share_a_stretch(
                f.fingerprint,
                b.fingerprint,
                params,
            ) implies is_reported(after.groups.take(g + 1), b.path) by {
            let k = choose|k: int| 0 <= k < files.len() && files[k] == b;
            lemma_alike(f.fingerprint, b.fingerprint, params);
            if before.used_paths.contains(b.path) {
                assert(is_reported(before.groups, b.path));
                let (h, p) = choose|h: int, p: int|
                    0 <= h < before.groups.len() && 0 <= p < before.groups[h].len() && (
                    #[trigger] before.groups[h][p]).path == b.path;
                assert(after.groups[h][p].path == b.path);
            } else {
                assert(outcomes[k] == pair_outcome(f, files[k], before.used_paths, thresholds));
                assert(similar.contains(files[k]));
                let p = choose|p: int| 0 <= p < similar.len() && similar[p] == b;
                assert(after.groups[g][p] == b);
                assert(after.groups[g][p].path == b.path);
            }
        }
        assert forall|i: int|
            0 <= i < n && files.contains(f) && (#[trigger] base_files[i]).path != f.path
                && share_a_stretch(
                base_files[i].fingerprint,
                f.fingerprint,
                params,
            ) implies is_reported(after.groups.take(g), base_files[i].path) by {
            let k = choose|k: int| 0 <= k < files.len() && files[k] == f;
            lemma_alike(base_files[i].fingerprint, f.fingerprint, params);
            assert(misses_nothing(before, rest, files, thresholds));
            assert(rest[i] == base_files[i]);
            assert(rest[i].path != files[k].path);
        }
        assert forall|p: int, q: int|
            0 <= p < q < after.groups[g].len() - 1 implies has_pair(
            files,
            #[trigger] after.groups[g][p],
            #[trigger] after.groups[g][q],
        ) by {
            lemma_similar_files_keep_order(files, outcomes, p, q);
            assert(after.groups[g][p] == similar[p] && after.groups[g][q] == similar[q]);
        }
        n
    }
}

/// The groups stand in the order of their base files.
pub proof fn law_groups_follow_their_base_files(
    base_files: Seq<EntryModel>,
    files: Seq<EntryModel>,
    params: SameMusicParameters,
    g: int,
    h: int,
)
    requires
        0 <= g < h < compared(base_files, files, thresholds_of(params)).groups.len(),
    ensures
        has_pair(
            base_files,
            compared(base_files, files, thresholds_of(params)).groups[g].last(),
            compared(base_files, files, thresholds_of(params)).groups[h].last(),
        ),
    decreases base_files.len(),
{
    let thresholds = thresholds_of(params);
    let after = compared(base_files, files, thresholds);
    let rest = base_files.drop_last();
    let before = compared(rest, files, thresholds);
    let a = after.groups[g].last();
    let b = after.groups[h].last();
    if h < before.groups.len() {
        law_groups_follow_their_base_files(rest, files, params, g, h);
        let (i, j) = choose|i: int, j: int|
            0 <= i < j < rest.len() && #[trigger] rest[i] == a && #[trigger] rest[j] == b;
        assert(base_files[i] == a && base_files[j] == b);
    } else {
        lemma_compared(rest, files, thresholds);
        assert(is_sound_group(before.groups[g], rest, files, thresholds));
        let i = choose|i: int| 0 <= i < rest.len() && rest[i] == a;
        assert(base_files[i] == a && base_files[base_files.len() - 1] == b);
    }
}

/// Which check a group comes of, and where the groups of that check begin.
pub proof fn lemma_check_of(checks: Seq<GroupedModel>, thresholds: Thresholds, g: int) -> (r: (
    int,
    int,
))
    requires
        0 <= g < sound_groups(checks, thresholds).len(),
    ensures
        ({
            let (c, start) = r;
            let groups = compared(
                checks[c].base_files,
                checks[c].files_to_compare,
                thresholds,
            ).groups;
            &&& 0 <= c < checks.len()
            &&& 0 <= start <= g < start + groups.len() <= sound_groups(checks, thresholds).len()
            &&& groups == sound_groups(checks, thresholds).subrange(start, start + groups.len())
            &&& start == sound_groups(checks.take(c), thresholds).len()
        }),
    decreases checks.len(),
{
    let all = sound_groups(checks, thresholds);
    let before = sound_groups(checks.drop_last(), thresholds);
    assert(checks.take(checks.len() - 1) =~= checks.drop_last());
    if g < before.len() {
        let (c, start) = lemma_check_of(checks.drop_last(), thresholds, g);
        assert(checks.drop_last().take(c) =~= checks.take(c));
        let groups = compared(checks[c].base_files, checks[c].files_to_compare, thresholds).groups;
        assert(checks.drop_last()[c] == checks[c]);
        assert(groups =~= all.subrange(start, start + groups.len()));
        (c, start)
    } else {
        let last = checks.last();
        let groups = compared(last.base_files, last.files_to_compare, thresholds).groups;
        assert(groups =~= all.subrange(before.len() as int, before.len() as int + groups.len()));
        (checks.len() - 1, before.len() as int)
    }
}

/// A group that a search by sound reports holds every file that is to be compared with its base file
/// and shares a stretch with it, unless an earlier group does.
pub proof fn law_base_file_gathers_what_it_shares(
    tool: SameMusicModel,
    reference_paths: Set<Seq<char>>,
    g: int,
    b: EntryModel,
)
    requires
        tool.music_entries.len() > 0,
        0 <= g < groups_by_sound(tool, reference_paths).len(),
        are_to_be_compared(
            tool,
            reference_paths,
            groups_by_sound(tool, reference_paths)[g].last(),
            b,
        ),
        share_a_stretch(
            groups_by_sound(tool, reference_paths)[g].last().fingerprint,
            b.fingerprint,
            tool.params,
        ),
    ensures
        is_reported(groups_by_sound(tool, reference_paths).take(g + 1), b.path),
{
    let checks = checks_of(tool, reference_paths);
    let thresholds = thresholds_of(tool.params);
    let all = groups_by_sound(tool, reference_paths);
    let a = all[g].last();
    let uses = tool.common_data.use_reference_folders;
    let (c, start) = lemma_check_of(checks, thresholds, g);
    let base = checks[c].base_files;
    let files = checks[c].files_to_compare;
    let groups = compared(base, files, thresholds).groups;
    assert(groups[g - start] == all[g]);
    let j = law_base_files_are_served_in_turn(base, files, tool.params, g - start);
    assert(base.contains(a)) by {
        assert(base[j] == a);
    }
    let list = lemma_check_origin(tool, reference_paths, c);
    law_split_keeps_every_file(list, uses, reference_paths, a);
    law_split_keeps_every_file(list, uses, reference_paths, b);
    assert(list.contains(a));
    assert(list.contains(b));
    assert(files.contains(b));
    let part = groups.take(g - start + 1);
    assert(is_reported(part, b.path));
    let (h, p) = choose|h: int, p: int|
        0 <= h < part.len() && 0 <= p < part[h].len() && (#[trigger] part[h][p]).path == b.path;
    assert(part[h] == all.subrange(start, start + groups.len())[h]);
    assert(all.take(g + 1)[start + h] == part[h]);
    assert(all.take(g + 1)[start + h][p].path == b.path);
}

/// The files of a group that a search by sound reports, but for its base file at the end, stand in
/// the order of the search.
pub proof fn law_sound_group_keeps_the_order(
    tool: SameMusicModel,
    reference_paths: Set<Seq<char>>,
    g: int,
    p: int,
    q: int,
)
    requires
        tool.music_entries.len() > 0,
        0 <= g < groups_by_sound(tool, reference_paths).len(),
        0 <= p < q < groups_by_sound(tool, reference_paths)[g].len() - 1,
    ensures
        has_pair(
            tool.music_entries,
            groups_by_sound(tool, reference_paths)[g][p],
            groups_by_sound(tool, reference_paths)[g][q],
        ),
{
    let checks = checks_of(tool, reference_paths);
    let thresholds = thresholds_of(tool.params);
    let all = groups_by_sound(tool, reference_paths);
    let (c, start) = lemma_check_of(checks, thresholds, g);
    let files = checks[c].files_to_compare;
    let groups = compared(checks[c].base_files, files, thresholds).groups;
    assert(groups[g - start] == all[g]);
    law_base_files_are_served_in_turn(checks[c].base_files, files, tool.params, g - start);
    let list = lemma_check_origin(tool, reference_paths, c);
    let group = groups[g - start];
    assert(has_pair(files, group[p], group[q]));
    let (i, j) = choose|i: int, j: int|
        0 <= i < j < files.len() && #[trigger] files[i] == group[p] && #[trigger] files[j]
            == group[q];
    if tool.common_data.use_reference_folders {
        lemma_by_path_keeps_order(list, reference_paths, false, i, j);
    } else {
        assert(has_pair(list, list[i], list[j]));
    }
    let (k, l) = choose|k: int, l: int|
        0 <= k < l < list.len() && #[trigger] list[k] == group[p] && #[trigger] list[l] == group[q];
    assert(has_pair(tool.music_entries, list[k], list[l]));
}

/// What is said of two files of which the first, or else the second, has too long a fingerprint.
pub open spec fn complaint(first_is_too_long: bool) -> Seq<char> {
    "Error while comparing fingerprints: "@ + if first_is_too_long {
        "Fingerprint #0 is too long"@
    } else {
        "Fingerprint #1 is too long"@
    }
}

/// Whether a comparison of a list of base files with a list of files can give a message.
pub open spec fn can_complain(
    base_files: Seq<EntryModel>,
    files: Seq<EntryModel>,
    message: Seq<char>,
) -> bool {
    exists|a: EntryModel, b: EntryModel| #[trigger]
        base_files.contains(a) && #[trigger] files.contains(b) && a.path != b.path && (
        a.fingerprint.len() >= 524286 || b.fingerprint.len() >= 524286) && message == complaint(
            a.fingerprint.len() >= 524286,
        )
}

proof fn lemma_failures(outcomes: Seq<PairModel>)
    ensures
        forall|message: Seq<char>| #[trigger]
            failures(outcomes).contains(message) <==> outcomes.contains(
                PairModel::Failed(message),
            ),
    decreases outcomes.len(),
{
    let list = failures(outcomes);
    if outcomes.len() > 0 {
        let rest = outcomes.drop_last();
        lemma_failures(rest);
        assert forall|message: Seq<char>| #[trigger] list.contains(message) <==> outcomes.contains(
            PairModel::Failed(message),
        ) by {
            let failed = PairModel::Failed(message);
            if list.contains(message) {
                let e = choose|e: int| 0 <= e < list.len() && list[e] == message;
                if e < failures(rest).len() {
                    assert(failures(rest)[e] == message);
                    assert(failures(rest).contains(message));
                    let k = choose|k: int| 0 <= k < rest.len() && rest[k] == failed;
                    assert(outcomes[k] == failed);
                } else {
                    assert(outcomes[outcomes.len() - 1] == failed);
                }
            }
            if outcomes.contains(failed) {
                let k = choose|k: int| 0 <= k < outcomes.len() && outcomes[k] == failed;
                if k < rest.len() {
                    assert(rest[k] == failed);
                    assert(failures(rest).contains(message));
                    let e = choose|e: int|
                        0 <= e < failures(rest).len() && failures(rest)[e] == message;
                    assert(list[e] == message);
                } else {
                    assert(list[list.len() - 1] == message);
                }
            }
        }
    }
}

/// What a comparison complains of: only files with too long a fingerprint, and every pair with one
/// of which neither file is in a group.
pub proof fn law_long_fingerprints_are_complained_of(
    base_files: Seq<EntryModel>,
    files: Seq<EntryModel>,
    thresholds: Thresholds,
)
    ensures
        ({
            let state = compared(base_files, files, thresholds);
            &&& forall|message: Seq<char>| #[trigger]
                state.errors.contains(message) ==> can_complain(base_files, files, message)
            &&& forall|a: EntryModel, b: EntryModel| #[trigger]
                base_files.contains(a) && #[trigger] files.contains(b) && a.path != b.path && (
                a.fingerprint.len() >= 524286 || b.fingerprint.len() >= 524286) && !is_reported(
                    state.groups,
                    a.path,
                ) && !is_reported(state.groups, b.path) ==> state.errors.contains(
                    complaint(a.fingerprint.len() >= 524286),
                )
        }),
    decreases base_files.len(),
{
    let after = compared(base_files, files, thresholds);
    if base_files.len() > 0 {
        let rest = base_files.drop_last();
        let n = base_files.len() - 1;
        let f = base_files.last();
        let before = compared(rest, files, thresholds);
        law_long_fingerprints_are_complained_of(rest, files, thresholds);
        lemma_compared(rest, files, thresholds);
        lemma_compared(base_files, files, thresholds);
        let outcomes = outcomes_of(f, files, before.used_paths, thresholds);
        lemma_failures(outcomes);
        assert(base_files[n] == f);
        assert forall|message: Seq<char>| #[trigger]
            after.errors.contains(message) implies can_complain(base_files, files, message) by {
            let e = choose|e: int| 0 <= e < after.errors.len() && after.errors[e] == message;
            if e < before.errors.len() {
                assert(before.errors[e] == message);
                assert(before.errors.contains(message));
                let (a, b) = choose|a: EntryModel, b: EntryModel| #[trigger]
                    rest.contains(a) && #[trigger] files.contains(b) && a.path != b.path && (
                    a.fingerprint.len() >= 524286 || b.fingerprint.len() >= 524286) && message
                        == complaint(a.fingerprint.len() >= 524286);
                let i = choose|i: int| 0 <= i < rest.len() && rest[i] == a;
                assert(base_files[i] == a);
                assert(base_files.contains(a));
            } else {
                assert(failures(outcomes)[e - before.errors.len()] == message);
                assert(failures(outcomes).contains(message));
                let k = choose|k: int|
                    0 <= k < outcomes.len() && outcomes[k] == PairModel::Failed(message);
                assert(outcomes[k] == pair_outcome(f, files[k], before.used_paths, thresholds));
                assert(base_files.contains(f) && files.contains(files[k]));
            }
        }
        assert forall|a: EntryModel, b: EntryModel| #[trigger]
            base_files.contains(a) && #[trigger] files.contains(b) && a.path != b.path && (
            a.fingerprint.len() >= 524286 || b.fingerprint.len() >= 524286) && !is_reported(
                after.groups,
                a.path,
            ) && !is_reported(after.groups, b.path) implies after.errors.contains(
            complaint(a.fingerprint.len() >= 524286),
        ) by {
            let message = complaint(a.fingerprint.len() >= 524286);
            assert(!after.used_paths.contains(a.path) && !after.used_paths.contains(b.path));
            assert(!before.used_paths.contains(a.path) && !before.used_paths.contains(b.path));
            let i = choose|i: int| 0 <= i < base_files.len() && base_files[i] == a;
            if i < n {
                assert(rest[i] == a);
                assert(rest.contains(a));
                assert(!is_reported(before.groups, a.path));
                assert(!is_reported(before.groups, b.path));
                assert(before.errors.contains(message));
                let e = choose|e: int| 0 <= e < before.errors.len() && before.errors[e] == message;
                assert(after.errors[e] == message);
            } else {
                let k = choose|k: int| 0 <= k < files.len() && files[k] == b;
                assert(outcomes[k] == pair_outcome(f, files[k], before.used_paths, thresholds));
                assert(outcomes[k] == PairModel::Failed(message));
                assert(failures(outcomes).contains(message));
                let e = choose|e: int|
                    0 <= e < failures(outcomes).len() && failures(outcomes)[e] == message;
                assert(after.errors[before.errors.len() + e] == message);
            }
        }
    }
}

/// A search by sound that goes through has dropped the files it compared and, without reference
/// folders, counted every group, and every file of a group but one as a duplicate. It has kept the
/// messages there were, and adds none if no fingerprint is too long. Everything else is as it was.
pub proof fn law_sound_search_counts(tool: SameMusicModel, reference_paths: Set<Seq<char>>)
    requires
        tool.music_entries.len() > 0,
    ensures
        ({
            let after = compared_sounds(tool, reference_paths, None).0;
            let groups = after.duplicated_music_entries;
            let counted = if tool.common_data.use_reference_folders {
                0
            } else {
                groups.len()
            };
            let duplicates = if tool.common_data.use_reference_folders {
                0
            } else {
                groups.flatten().len() - groups.len()
            };
            let old_errors = tool.common_data.text_messages.errors;
            let errors = after.common_data.text_messages.errors;
            &&& after.number_of_groups == tool.number_of_groups + counted
            &&& after.number_of_duplicates == tool.number_of_duplicates + duplicates
            &&& after.music_entries.len() == 0
            &&& after.music_to_check == tool.music_to_check
            &&& after.params == tool.params
            &&& after.duplicated_music_entries_referenced
                == tool.duplicated_music_entries_referenced
            &&& old_errors.is_prefix_of(errors)
            &&& after.common_data.text_messages.warnings == tool.common_data.text_messages.warnings
            &&& after.common_data.text_messages.messages == tool.common_data.text_messages.messages
            &&& (forall|i: int|
                0 <= i < tool.music_entries.len() ==> (
                #[trigger] tool.music_entries[i]).fingerprint.len() < 524286) ==> errors
                == old_errors
        }),
{
    let checks = checks_of(tool, reference_paths);
    let thresholds = thresholds_of(tool.params);
    let uses = tool.common_data.use_reference_folders;
    lemma_total_similar_is_flat(groups_by_sound(tool, reference_paths));
    let old_errors = tool.common_data.text_messages.errors;
    let found = sound_errors(checks, thresholds);
    assert(old_errors.is_prefix_of(old_errors + found));
    if forall|i: int|
        0 <= i < tool.music_entries.len() ==> (#[trigger] tool.music_entries[i]).fingerprint.len()
            < 524286 {
        assert forall|c: int| 0 <= c < checks.len() implies compared(
            (#[trigger] checks[c]).base_files,
            checks[c].files_to_compare,
            thresholds,
        ).errors.len() == 0 by {
            let base = checks[c].base_files;
            let files = checks[c].files_to_compare;
            let errors = compared(base, files, thresholds).errors;
            law_long_fingerprints_are_complained_of(base, files, thresholds);
            if errors.len() > 0 {
                assert(errors.contains(errors[0]));
                let (a, b) = choose|a: EntryModel, b: EntryModel| #[trigger]
                    base.contains(a) && #[trigger] files.contains(b) && a.path != b.path && (
                    a.fingerprint.len() >= 524286 || b.fingerprint.len() >= 524286) && errors[0]
                        == complaint(a.fingerprint.len() >= 524286);
                let list = lemma_check_origin(tool, reference_paths, c);
                law_split_keeps_every_file(list, uses, reference_paths, a);
                law_split_keeps_every_file(list, uses, reference_paths, b);
                assert(list.contains(a) && list.contains(b));
                assert(tool.music_entries.contains(a) && tool.music_entries.contains(b));
            }
        }
        lemma_no_errors(checks, thresholds);
        assert(old_errors + found =~= old_errors);
    }
}

proof fn lemma_no_errors(checks: Seq<GroupedModel>, thresholds: Thresholds)
    requires
        forall|c: int|
            0 <= c < checks.len() ==> compared(
                (#[trigger] checks[c]).base_files,
                checks[c].files_to_compare,
                thresholds,
            ).errors.len() == 0,
    ensures
        sound_errors(checks, thresholds).len() == 0,
    decreases checks.len(),
{
    if checks.len() > 0 {
        let rest = checks.drop_last();
        assert forall|c: int| 0 <= c < rest.len() implies compared(
            (#[trigger] rest[c]).base_files,
            rest[c].files_to_compare,
            thresholds,
        ).errors.len() == 0 by {
            assert(rest[c] == checks[c]);
        }
        lemma_no_errors(rest, thresholds);
        assert(checks[checks.len() - 1] == checks.last());
    }
}

/// What came of comparing a file with some files and then others: the similar files, and the
/// messages of failures, are those of the former and then those of the latter.
pub proof fn law_outcomes_add_up(
    files: Seq<EntryModel>,
    outcomes: Seq<PairModel>,
    more_files: Seq<EntryModel>,
    more_outcomes: Seq<PairModel>,
)
    requires
        files.len() == outcomes.len(),
        more_files.len() == more_outcomes.len(),
    ensures
        similar_files(files + more_files, outcomes + more_outcomes) == similar_files(files, outcomes)
            + similar_files(more_files, more_outcomes),
        failures(outcomes + more_outcomes) == failures(outcomes) + failures(more_outcomes),
    decreases more_files.len(),
{
    let all_files = files + more_files;
    let all_outcomes = outcomes + more_outcomes;
    if more_files.len() == 0 {
        assert(all_files =~= files);
        assert(all_outcomes =~= outcomes);
        assert(similar_files(all_files, all_outcomes) =~= similar_files(files, outcomes)
            + similar_files(more_files, more_outcomes));
        assert(failures(all_outcomes) =~= failures(outcomes) + failures(more_outcomes));
    } else {
        let rest_files = more_files.drop_last();
        let rest_outcomes = more_outcomes.drop_last();
        law_outcomes_add_up(files, outcomes, rest_files, rest_outcomes);
        assert(all_files.drop_last() =~= files + rest_files);
        assert(all_outcomes.drop_last() =~= outcomes + rest_outcomes);
        lemma_outcomes_in_use(files + rest_files, all_outcomes, outcomes + rest_outcomes);
        lemma_outcomes_in_use(rest_files, more_outcomes, rest_outcomes);
        assert(all_outcomes[all_files.len() - 1] == more_outcomes[more_files.len() - 1]);
        assert(similar_files(all_files, all_outcomes) =~= similar_files(files, outcomes)
            + similar_files(more_files, more_outcomes));
        assert(failures(all_outcomes) =~= failures(outcomes) + failures(more_outcomes));
    }
}

/// Only the outcomes of the files themselves matter.
proof fn lemma_outcomes_in_use(
    files: Seq<EntryModel>,
    outcomes: Seq<PairModel>,
    others: Seq<PairModel>,
)
    requires
        forall|i: int| 0 <= i < files.len() ==> #[trigger] outcomes[i] == others[i],
    ensures
        similar_files(files, outcomes) == similar_files(files, others),
    decreases files.len(),
{
    if files.len() > 0 {
        lemma_outcomes_in_use(files.drop_last(), outcomes, others);
        assert(outcomes[files.len() - 1] == others[files.len() - 1]);
    }
}

/// A group is what is left of the files to compare if those are dropped that are the base file
/// itself, share no stretch with it or are in an earlier group; and the base file at the end.
pub proof fn law_group_is_what_shares_a_stretch(
    base_files: Seq<EntryModel>,
    files: Seq<EntryModel>,
    params: SameMusicParameters,
    g: int,
)
    requires
        0 <= g < compared(base_files, files, thresholds_of(params)).groups.len(),
    ensures
        ({
            let groups = compared(base_files, files, thresholds_of(params)).groups;
            let base = groups[g].last();
            &&& groups[g].len() > 1
            &&& base_files.contains(base)
            &&& !is_reported(groups.take(g), base.path)
            &&& groups[g].drop_last() == files.filter(
                |file: EntryModel|
                    file.path != base.path && share_a_stretch(
                        base.fingerprint,
                        file.fingerprint,
                        params,
                    ) && !is_reported(groups.take(g), file.path),
            )
        }),
    decreases base_files.len(),
{
    let thresholds = thresholds_of(params);
    let after = compared(base_files, files, thresholds);
    let rest = base_files.drop_last();
    let f = base_files.last();
    let before = compared(rest, files, thresholds);
    if g < before.groups.len() {
        law_group_is_what_shares_a_stretch(rest, files, params, g);
        assert(after.groups.take(g) =~= before.groups.take(g));
        let base = before.groups[g].last();
        let i = choose|i: int| 0 <= i < rest.len() && rest[i] == base;
        assert(base_files[i] == base);
    } else {
        let outcomes = outcomes_of(f, files, before.used_paths, thresholds);
        let similar = similar_files(files, outcomes);
        lemma_compared(rest, files, thresholds);
        assert(after.groups == before.groups.push(similar.push(f)));
        assert(after.groups.take(g) =~= before.groups);
        assert(after.groups[g].drop_last() =~= similar);
        assert(base_files[base_files.len() - 1] == f);
        let kept = |file: EntryModel|
            file.path != f.path && share_a_stretch(f.fingerprint, file.fingerprint, params)
                && !is_reported(after.groups.take(g), file.path);
        assert forall|k: int| 0 <= k < files.len() implies (#[trigger] outcomes[k] is Similar <==> kept(
            files[k],
        )) by {
            lemma_alike(f.fingerprint, files[k].fingerprint, params);
            assert(outcomes[k] == pair_outcome(f, files[k], before.used_paths, thresholds));
            assert(before.used_paths.contains(files[k].path) <==> is_reported(
                before.groups,
                files[k].path,
            ));
        }
        lemma_similar_files_are_filtered(files, outcomes, kept);
    }
}

proof fn lemma_similar_files_are_filtered(
    files: Seq<EntryModel>,
    outcomes: Seq<PairModel>,
    kept: spec_fn(EntryModel) -> bool,
)
    requires
        forall|k: int|
            0 <= k < files.len() ==> (#[trigger] outcomes[k] is Similar <==> kept(files[k])),
    ensures
        similar_files(files, outcomes) == files.filter(kept),
    decreases files.len(),
{
    reveal(Seq::filter);
    if files.len() > 0 {
        let rest = files.drop_last();
        assert forall|k: int| 0 <= k < rest.len() implies (#[trigger] outcomes[k] is Similar <==> kept(
            rest[k],
        )) by {
            assert(rest[k] == files[k]);
        }
        lemma_similar_files_are_filtered(rest, outcomes, kept);
        assert(outcomes[files.len() - 1] is Similar <==> kept(files[files.len() - 1]));
    }
}

} // verus!
