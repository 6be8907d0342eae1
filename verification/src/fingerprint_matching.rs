//! Files that sound alike.

use crate::ieee::{Binary32, Binary64};
use crate::music_entry::{group_models, models, EntryModel, MusicEntry};
use crate::preset::{is_preset, preset};
use crate::progress::{always, count_items, never};
use rayon::iter::{IntoParallelRefIterator, ParallelIterator};
use rusty_chromaprint::{match_fingerprints, Configuration, Segment};
use std::sync::atomic::AtomicUsize;
use std::sync::Arc;
use vstd::hash_set::StringHashSet;
use vstd::prelude::*;
use vstd::string::*;

verus! {

/// A stretch in which two fingerprints match.
#[derive(Clone, Copy, PartialEq, Eq, Structural, Debug)]
pub struct MatchedSegment {
    /// How many items of the fingerprints it covers.
    pub items_count: usize,
    /// How much the fingerprints differ there.
    pub score: Binary64,
}

/// A stretch in which two fingerprints match, with its duration in seconds.
#[derive(Clone, Copy, PartialEq, Eq, Structural, Debug)]
pub struct TimedSegment {
    pub duration: Binary32,
    pub score: Binary64,
}

/// The stretches in which two fingerprints match.
pub uninterp spec fn segments_of(fp1: Seq<u32>, fp2: Seq<u32>) -> Seq<MatchedSegment>;

/// How long a stretch of a fingerprint made with the preset lasts, in seconds.
pub uninterp spec fn duration_of(items_count: usize) -> Binary32;

/// How many items are too many for a fingerprint to be compared.
pub open spec fn too_long(fingerprint: Seq<u32>) -> bool {
    fingerprint.len() >= 524286
}

/// `rusty_chromaprint::match_fingerprints`: refuses a fingerprint of 524286 items or more, the
/// first one before the second; otherwise the outcome depends on the two fingerprints alone. It
/// takes a configuration and makes no use of it.
#[verifier::external_body]
fn matching_segments(fp1: &Vec<u32>, fp2: &Vec<u32>, configuration: &Configuration) -> (r: Result<
    Vec<MatchedSegment>,
    String,
>)
    ensures
        match r {
            Ok(segments) => !too_long(fp1@) && !too_long(fp2@) && segments@ == segments_of(
                fp1@,
                fp2@,
            ),
            Err(message) => if too_long(fp1@) {
                message@ == "Fingerprint #0 is too long"@
            } else {
                too_long(fp2@) && message@ == "Fingerprint #1 is too long"@
            },
        },
{
    match match_fingerprints(fp1, fp2, configuration) {
        Ok(segments) => Ok(segments.iter().map(|s| MatchedSegment {
            items_count: s.items_count,
            score: Binary64 { bits: s.score.to_bits() },
        }).collect()),
        Err(e) => Err(e.to_string()),
    }
}

/// `rusty_chromaprint::Segment::duration`: under the preset it depends on the number of items alone.
#[verifier::external_body]
fn segment_duration(items_count: usize, configuration: &Configuration) -> (r: Binary32)
    requires
        is_preset(*configuration),
    ensures
        r == duration_of(items_count),
{
    let segment = Segment { offset1: 0, offset2: 0, items_count, score: Default::default() };
    Binary32 { bits: segment.duration(configuration).to_bits() }
}

/// Stretches with their durations.
pub open spec fn timed(segments: Seq<MatchedSegment>) -> Seq<TimedSegment> {
    Seq::new(
        segments.len(),
        |i: int|
            TimedSegment {
                duration: duration_of(segments[i].items_count),
                score: segments[i].score,
            },
    )
}

/// What a search demands of a stretch.
#[derive(Clone, Copy, Debug)]
pub struct Thresholds {
    /// A stretch has to last longer than this.
    pub minimum_segment_duration: Binary32,
    /// A stretch has to differ by less than this.
    pub maximum_difference: Binary64,
}

impl Thresholds {
    /// Whether a stretch is long enough and alike enough.
    pub open spec fn accept(self, segment: TimedSegment) -> bool {
        &&& self.minimum_segment_duration.less(segment.duration)
        &&& segment.score.less(self.maximum_difference)
    }

    /// Whether any stretch is long enough and alike enough.
    pub open spec fn accept_any(self, segments: Seq<TimedSegment>) -> bool {
        exists|i: int| 0 <= i < segments.len() && self.accept(#[trigger] segments[i])
    }

    /// Whether any stretch is long enough and alike enough.
    pub fn has_similar_segment(&self, segments: &Vec<TimedSegment>) -> (r: bool)
        ensures
            r == self.accept_any(segments@),
    {
        for i in 0..segments.len()
            invariant
                forall|j: int| 0 <= j < i ==> !self.accept(#[trigger] segments@[j]),
        {
            let s = segments[i];
            if self.minimum_segment_duration.is_less_than(s.duration) && s.score.is_less_than(
                self.maximum_difference,
            ) {
                assert(self.accept(segments@[i as int]));
                return true;
            }
        }
        false
    }
}

/// What comes of comparing two files.
pub enum PairModel {
    /// They are not alike, or there was nothing to compare.
    Nothing,
    Similar,
    /// They cannot be compared.
    Failed(Seq<char>),
}

/// What comes of comparing two files.
#[derive(Debug)]
pub enum PairOutcome {
    /// They are not alike, or there was nothing to compare.
    Nothing,
    Similar,
    /// They cannot be compared.
    Failed(String),
}

impl View for PairOutcome {
    type V = PairModel;

    open spec fn view(&self) -> PairModel {
        match *self {
            PairOutcome::Nothing => PairModel::Nothing,
            PairOutcome::Similar => PairModel::Similar,
            PairOutcome::Failed(message) => PairModel::Failed(message@),
        }
    }
}

/// The matching stretches of two fingerprints, or why there are none to be had.
pub open spec fn match_result(fp1: Seq<u32>, fp2: Seq<u32>) -> Result<Seq<TimedSegment>, Seq<char>> {
    if too_long(fp1) {
        Err("Fingerprint #0 is too long"@)
    } else if too_long(fp2) {
        Err("Fingerprint #1 is too long"@)
    } else {
        Ok(timed(segments_of(fp1, fp2)))
    }
}

/// What the matching stretches of two files amount to.
pub open spec fn judged(
    matched: Result<Seq<TimedSegment>, Seq<char>>,
    thresholds: Thresholds,
) -> PairModel {
    match matched {
        Ok(segments) => if thresholds.accept_any(segments) {
            PairModel::Similar
        } else {
            PairModel::Nothing
        },
        Err(message) => PairModel::Failed("Error while comparing fingerprints: "@ + message),
    }
}

/// Whether two fingerprints have a stretch in common that is long enough and alike enough.
pub open spec fn sound_alike(fp1: Seq<u32>, fp2: Seq<u32>, thresholds: Thresholds) -> bool {
    judged(match_result(fp1, fp2), thresholds) is Similar
}

/// What comes of comparing a file with another one: nothing if the other is already in a group, or
/// is the same file.
pub open spec fn pair_outcome(
    base: EntryModel,
    other: EntryModel,
    used_paths: Set<Seq<char>>,
    thresholds: Thresholds,
) -> PairModel {
    if used_paths.contains(other.path) || other.path == base.path {
        PairModel::Nothing
    } else {
        judged(match_result(base.fingerprint, other.fingerprint), thresholds)
    }
}

/// The model of a result of matching.
pub open spec fn match_model(matched: Result<Vec<TimedSegment>, String>) -> Result<
    Seq<TimedSegment>,
    Seq<char>,
> {
    match matched {
        Ok(segments) => Ok(segments@),
        Err(message) => Err(message@),
    }
}

/// Decides what the matching stretches of two files amount to.
pub fn judge(matched: Result<Vec<TimedSegment>, String>, thresholds: Thresholds) -> (r: PairOutcome)
    ensures
        r@ == judged(match_model(matched), thresholds),
{
    match matched {
        Ok(segments) => if thresholds.has_similar_segment(&segments) {
            PairOutcome::Similar
        } else {
            PairOutcome::Nothing
        },
        Err(message) => {
            let mut text = "Error while comparing fingerprints: ".to_owned();
            text.append(message.as_str());
            PairOutcome::Failed(text)
        },
    }
}

/// Matches two fingerprints.
pub fn match_files(fp1: &Vec<u32>, fp2: &Vec<u32>) -> (r: Result<Vec<TimedSegment>, String>)
    ensures
        match_model(r) == match_result(fp1@, fp2@),
{
    let configuration = preset();
    match matching_segments(fp1, fp2, &configuration) {
        Ok(segments) => {
            let mut r: Vec<TimedSegment> = Vec::new();
            for i in 0..segments.len()
                invariant
                    is_preset(configuration),
                    r@.len() == i,
                    forall|j: int|
                        0 <= j < i ==> (#[trigger] r@[j]) == timed(segments@)[j],
            {
                let s = segments[i];
                let duration = segment_duration(s.items_count, &configuration);
                r.push(TimedSegment { duration, score: s.score });
            }
            assert(r@ =~= timed(segments@));
            Ok(r)
        },
        Err(message) => Err(message),
    }
}

/// Compares a file with another one.
pub fn compare_pair(
    f_entry: &MusicEntry,
    e_entry: &MusicEntry,
    used_paths: &StringHashSet,
    thresholds: Thresholds,
) -> (r: PairOutcome)
    ensures
        r@ == pair_outcome(f_entry@, e_entry@, used_paths@, thresholds),
{
    if used_paths.contains(e_entry.path.as_str()) || e_entry.path == f_entry.path {
        return PairOutcome::Nothing;
    }
    judge(match_files(&f_entry.fingerprint, &e_entry.fingerprint), thresholds)
}

/// What comes of comparing a file with each of several others.
pub open spec fn outcomes_of(
    base: EntryModel,
    files: Seq<EntryModel>,
    used_paths: Set<Seq<char>>,
    thresholds: Thresholds,
) -> Seq<PairModel> {
    Seq::new(files.len(), |i: int| pair_outcome(base, files[i], used_paths, thresholds))
}

/// The models of a list of outcomes.
pub open spec fn outcome_models(outcomes: Seq<PairOutcome>) -> Seq<PairModel> {
    Seq::new(outcomes.len(), |i: int| outcomes[i]@)
}

/// `map` and `collect` of `rayon`'s parallel iterator over a list: the results of calling
/// [`compare_pair`] on each file stand in the order of the files, whatever the order of the calls.
#[verifier::external_body]
fn compare_with_each(
    f_entry: &MusicEntry,
    files_to_compare: &Vec<MusicEntry>,
    used_paths: &StringHashSet,
    thresholds: Thresholds,
) -> (r: Vec<PairOutcome>)
    ensures
        outcome_models(r@) == outcomes_of(
            f_entry@,
            models(files_to_compare@),
            used_paths@,
            thresholds,
        ),
{
    files_to_compare.par_iter().map(
        |e_entry| compare_pair(f_entry, e_entry, used_paths, thresholds),
    ).collect()
}

/// The files that turned out similar.
pub open spec fn similar_files(files: Seq<EntryModel>, outcomes: Seq<PairModel>) -> Seq<EntryModel>
    decreases files.len(),
{
    if files.len() == 0 {
        Seq::empty()
    } else if outcomes[files.len() - 1] is Similar {
        similar_files(files.drop_last(), outcomes).push(files.last())
    } else {
        similar_files(files.drop_last(), outcomes)
    }
}

/// The messages of the comparisons that failed.
pub open spec fn failures(outcomes: Seq<PairModel>) -> Seq<Seq<char>>
    decreases outcomes.len(),
{
    if outcomes.len() == 0 {
        Seq::empty()
    } else {
        match outcomes.last() {
            PairModel::Failed(message) => failures(outcomes.drop_last()).push(message),
            _ => failures(outcomes.drop_last()),
        }
    }
}

/// The paths of a list of files.
pub open spec fn paths(files: Seq<EntryModel>) -> Set<Seq<char>> {
    Set::new(|p: Seq<char>| exists|i: int| 0 <= i < files.len() && #[trigger] files[i].path == p)
}

/// How far a comparison by sound has got.
#[verifier::ext_equal]
pub struct ComparisonModel {
    /// The paths of the files that are in a group.
    pub used_paths: Set<Seq<char>>,
    pub groups: Seq<Seq<EntryModel>>,
    pub errors: Seq<Seq<char>>,
}

/// Nothing compared yet.
pub open spec fn comparison_start() -> ComparisonModel {
    ComparisonModel { used_paths: Set::empty(), groups: Seq::empty(), errors: Seq::empty() }
}

/// Records what came of comparing a base file: the similar files and the base file itself form a
/// group, if there are any.
pub open spec fn with_outcomes(
    state: ComparisonModel,
    base: EntryModel,
    files: Seq<EntryModel>,
    outcomes: Seq<PairModel>,
) -> ComparisonModel {
    let similar = similar_files(files, outcomes);
    if similar.len() == 0 {
        ComparisonModel { errors: state.errors + failures(outcomes), ..state }
    } else {
        ComparisonModel {
            used_paths: state.used_paths.union(paths(similar)).insert(base.path),
            groups: state.groups.push(similar.push(base)),
            errors: state.errors + failures(outcomes),
        }
    }
}

/// Compares one more base file, unless it is in a group already.
pub open spec fn with_base_file(
    state: ComparisonModel,
    base: EntryModel,
    files: Seq<EntryModel>,
    thresholds: Thresholds,
) -> ComparisonModel {
    if state.used_paths.contains(base.path) {
        state
    } else {
        with_outcomes(state, base, files, outcomes_of(base, files, state.used_paths, thresholds))
    }
}

/// Compares base files one after the other.
pub open spec fn compared(
    base_files: Seq<EntryModel>,
    files: Seq<EntryModel>,
    thresholds: Thresholds,
) -> ComparisonModel
    decreases base_files.len(),
{
    if base_files.len() == 0 {
        comparison_start()
    } else {
        with_base_file(
            compared(base_files.drop_last(), files, thresholds),
            base_files.last(),
            files,
            thresholds,
        )
    }
}

/// The texts of a list.
pub open spec fn texts(list: Seq<String>) -> Seq<Seq<char>> {
    Seq::new(list.len(), |i: int| list[i]@)
}

/// How far a comparison by sound has got.
pub struct Comparison {
    used_paths: StringHashSet,
    groups: Vec<Vec<MusicEntry>>,
    errors: Vec<String>,
}

impl View for Comparison {
    type V = ComparisonModel;

    closed spec fn view(&self) -> ComparisonModel {
        ComparisonModel {
            used_paths: self.used_paths@,
            groups: group_models(self.groups@),
            errors: texts(self.errors@),
        }
    }
}

impl Comparison {
    /// Nothing compared yet.
    pub fn new() -> (r: Comparison)
        ensures
            r@ == comparison_start(),
    {
        let r = Comparison {
            used_paths: StringHashSet::new(),
            groups: Vec::new(),
            errors: Vec::new(),
        };
        assert(r@ =~= comparison_start());
        r
    }

    /// Records what came of comparing a base file with each of the files to compare.
    pub fn record(
        &mut self,
        f_entry: MusicEntry,
        files_to_compare: &Vec<MusicEntry>,
        outcomes: Vec<PairOutcome>,
    )
        requires
            outcomes@.len() == files_to_compare@.len(),
        ensures
            final(self)@ == with_outcomes(
                old(self)@,
                f_entry@,
                models(files_to_compare@),
                outcome_models(outcomes@),
            ),
    {
        let ghost files = models(files_to_compare@);
        let ghost all = outcome_models(outcomes@);
        let ghost before = self@;
        let ghost earlier_groups = self.groups@;
        let mut music_entries: Vec<MusicEntry> = Vec::new();
        let total = files_to_compare.len();
        let mut i: usize = 0;
        assert(models(music_entries@) =~= similar_files(files.take(0), all));
        assert(before.used_paths.union(paths(similar_files(files.take(0), all)))
            =~= before.used_paths);
        assert(before.errors + failures(all.take(0)) =~= before.errors);
        for outcome in it: outcomes.into_iter()
            invariant
                it.seq() == outcomes@,
                i == it.index(),
                outcomes@.len() == files_to_compare@.len() == total,
                files == models(files_to_compare@),
                all == outcome_models(outcomes@),
                self.groups@ == earlier_groups,
                models(music_entries@) == similar_files(files.take(i as int), all),
                self.used_paths@ == before.used_paths.union(paths(models(music_entries@))),
                texts(self.errors@) == before.errors + failures(all.take(i as int)),
        {
            proof {
                assert(files.take(i + 1).drop_last() =~= files.take(i as int));
                assert(files.take(i + 1).last() == files[i as int]);
                assert(all.take(i + 1).drop_last() =~= all.take(i as int));
                assert(all.take(i + 1).last() == all[i as int]);
                assert(all[i as int] == outcome@);
            }
            match outcome {
                PairOutcome::Nothing => {},
                PairOutcome::Similar => {
                    let ghost list = models(music_entries@);
                    let entry = files_to_compare[i].clone();
                    self.used_paths.insert(entry.path.clone());
                    music_entries.push(entry);
                    proof {
                        let new = models(music_entries@);
                        assert(new =~= list.push(files[i as int]));
                        assert(new[list.len() as int].path == files[i as int].path);
                        assert forall|p: Seq<char>| #[trigger] paths(new).contains(p) <==> paths(
                            list,
                        ).contains(p) || p == files[i as int].path by {
                            if paths(list).contains(p) {
                                let j = choose|j: int|
                                    0 <= j < list.len() && #[trigger] list[j].path == p;
                                assert(new[j].path == p);
                            }
                            if paths(new).contains(p) {
                                let j = choose|j: int|
                                    0 <= j < new.len() && #[trigger] new[j].path == p;
                                if j < list.len() {
                                    assert(list[j].path == p);
                                }
                            }
                        }
                        assert(self.used_paths@ =~= before.used_paths.union(paths(new)));
                    }
                },
                PairOutcome::Failed(message) => {
                    let ghost earlier = texts(self.errors@);
                    self.errors.push(message);
                    assert(texts(self.errors@) =~= earlier.push(message@));
                    assert(texts(self.errors@) =~= before.errors + failures(all.take(i + 1)));
                },
            }
            i = i + 1;
        }
        assert(files.take(files.len() as int) =~= files);
        assert(all.take(all.len() as int) =~= all);
        if music_entries.len() > 0 {
            let ghost list = models(music_entries@);
            self.used_paths.insert(f_entry.path.clone());
            music_entries.push(f_entry);
            assert(models(music_entries@) =~= list.push(f_entry@));
            self.groups.push(music_entries);
            assert(group_models(self.groups@) =~= group_models(earlier_groups).push(
                models(music_entries@),
            ));
        } else {
            assert(paths(models(music_entries@)) =~= Set::empty());
            assert(self.used_paths@ =~= before.used_paths);
        }
        proof {
            assert(self@ =~= with_outcomes(before, f_entry@, files, all));
        }
    }

    /// Compares one more base file with each of the files to compare.
    pub fn add_base_file(
        &mut self,
        f_entry: MusicEntry,
        files_to_compare: &Vec<MusicEntry>,
        thresholds: Thresholds,
    )
        ensures
            final(self)@ == with_base_file(
                old(self)@,
                f_entry@,
                models(files_to_compare@),
                thresholds,
            ),
    {
        if self.used_paths.contains(f_entry.path.as_str()) {
            return;
        }
        let outcomes = compare_with_each(&f_entry, files_to_compare, &self.used_paths, thresholds);
        assert(outcomes@.len() == outcome_models(outcomes@).len());
        self.record(f_entry, files_to_compare, outcomes);
    }
}

impl Comparison {
    /// Compares one more base file with each of the files to compare, unless the search is to stop.
    /// Returns whether it goes on.
    pub fn add_unless_stopped(
        &mut self,
        stop_received: bool,
        f_entry: MusicEntry,
        files_to_compare: &Vec<MusicEntry>,
        thresholds: Thresholds,
    ) -> (r: bool)
        ensures
            r == !stop_received,
            final(self)@ == if stop_received {
                old(self)@
            } else {
                with_base_file(old(self)@, f_entry@, models(files_to_compare@), thresholds)
            },
    {
        if stop_received {
            return false;
        }
        self.add_base_file(f_entry, files_to_compare, thresholds);
        true
    }

    /// The groups that were found. The errors are handed over.
    pub fn finish(self, errors: &mut Vec<String>) -> (r: Vec<Vec<MusicEntry>>)
        ensures
            group_models(r@) == self@.groups,
            texts(final(errors)@) == texts(old(errors)@) + self@.errors,
    {
        let ghost earlier = errors@;
        let mut new_errors = self.errors;
        errors.append(&mut new_errors);
        assert(texts(errors@) =~= texts(earlier) + texts(self.errors@));
        self.groups
    }
}

/// Compares base files with others. Before each base file it is asked whether to stop, and a single
/// yes ends the comparison. The messages of comparisons that failed are added to the errors either
/// way.
pub fn compare_fingerprints<F: Fn() -> bool>(
    stop: &F,
    items_counter: &Arc<AtomicUsize>,
    base_files: Vec<MusicEntry>,
    files_to_compare: &Vec<MusicEntry>,
    thresholds: Thresholds,
    errors: &mut Vec<String>,
) -> (r: Option<Vec<Vec<MusicEntry>>>)
    requires
        call_requires(*stop, ()),
    ensures
        base_files@.len() == 0 || never(*stop) ==> r is Some,
        base_files@.len() > 0 && always(*stop) ==> r is None,
        match r {
            Some(groups) => {
                let end = compared(models(base_files@), models(files_to_compare@), thresholds);
                group_models(groups@) == end.groups && texts(final(errors)@) == texts(old(errors)@)
                    + end.errors
            },
            None => exists|k: int|
                0 <= k < base_files@.len() && texts(final(errors)@) == texts(old(errors)@)
                    + #[trigger] compared(
                    models(base_files@).take(k),
                    models(files_to_compare@),
                    thresholds,
                ).errors,
        },
{
    let ghost base = models(base_files@);
    let ghost files = models(files_to_compare@);
    let mut comparison = Comparison::new();
    for f_entry in it: base_files.into_iter()
        invariant
            it.seq() == base_files@,
            call_requires(*stop, ()),
            it.index() > 0 ==> !always(*stop),
            base == models(base_files@),
            files == models(files_to_compare@),
            comparison@ == compared(base.take(it.index()), files, thresholds),
            texts(errors@) == texts(old(errors)@),
    {
        count_items(items_counter, 1);
        proof {
            let i = it.index();
            assert(base.take(i + 1).drop_last() =~= base.take(i));
            assert(base.take(i + 1).last() == f_entry@);
        }
        let stop_received = (*stop)();
        if !comparison.add_unless_stopped(stop_received, f_entry, files_to_compare, thresholds) {
            comparison.finish(errors);
            assert(texts(errors@) == texts(old(errors)@) + compared(
                base.take(it.index()),
                files,
                thresholds,
            ).errors);
            return None;
        }
    }
    assert(base.take(base.len() as int) =~= base);
    Some(comparison.finish(errors))
}

} // verus!
