//! What holds of a search from its beginning to its end.

use crate::cache::{cached_part, map_models, missing_part, values, EntryMap};
use crate::common::MessagesModel;
use crate::grouping::{selected, tag_groups};
use crate::music_entry::EntryModel;
use crate::params::{CheckingMethod, WorkContinueStatus};
use crate::path_laws::{
    has_distinct_paths, have_distinct_paths, is_under_paths, law_sound_groups_have_distinct_paths,
    law_tag_groups_have_distinct_paths, lemma_map_has_distinct_paths, lemma_stored_under_paths,
    path_count,
};
use crate::refinement_laws::{are_within, asking_for_more, law_asking_for_more_finds_less};
use crate::same_music::{
    after_deleting, after_loading, after_walk, checks_of, compared_sounds, compared_tags,
    is_cache_of, readable, thresholds_of, total_referenced, with_cache_messages,
    with_files_to_fingerprint, with_referenced, with_results, without_groups, LoadedCache,
    ReadingKind, SameMusicModel, WalkModel,
};
use crate::search_stages::{begun, is_over, next_stage, with_stopped_search, SearchStage};
use crate::sorted_map::is_ascending;
use crate::sound_laws::total_similar;
use crate::sound_search::lemma_sound_search_sizes;
use crate::tag_laws::law_groups_have_two_members;
use vstd::prelude::*;

verus! {

/// What comes from outside while something is read of files.
pub struct ReadingModel {
    /// What the cache has, if it can be loaded.
    pub loaded: Option<Seq<(Seq<char>, EntryModel)>>,
    pub loading_messages: MessagesModel,
    /// Whether the search was to stop when the cache was loaded.
    pub stopped_after_loading: bool,
    /// What reading files gives.
    pub read: spec_fn(Seq<EntryModel>) -> Seq<Option<EntryModel>>,
    /// Whether reading was stopped.
    pub was_stopped: bool,
    pub saving_messages: MessagesModel,
    /// Whether the search was to stop when the cache was saved.
    pub stopped_after_saving: bool,
}

/// What comes from outside during a search.
pub struct SearchModel {
    pub walk: WalkModel,
    pub tags: ReadingModel,
    pub fingerprints: ReadingModel,
    /// Whether the comparison of tags was stopped.
    pub tags_stopped: bool,
    /// Before which group and base file the comparison of sounds was stopped, if it was.
    pub sounds_stopped: Option<(int, int)>,
    /// The paths of the files that lie in a reference folder.
    pub reference_paths: Set<Seq<char>>,
    /// The reference files with their duplicates elsewhere.
    pub referenced: Seq<(EntryModel, Seq<EntryModel>)>,
    /// What came of deleting files.
    pub deleting: (MessagesModel, WorkContinueStatus),
}

/// Whether a stage ended or was stopped.
pub open spec fn status_of(stopped: bool) -> WorkContinueStatus {
    if stopped {
        WorkContinueStatus::Stop
    } else {
        WorkContinueStatus::Continue
    }
}

/// What the cache has that is held against the files to check.
pub open spec fn known(tool: SameMusicModel, input: ReadingModel) -> Seq<(Seq<char>, EntryModel)> {
    if tool.common_data.use_cache && input.loaded is Some {
        input.loaded->0
    } else {
        Seq::empty()
    }
}

/// The files that are read.
pub open spec fn files_to_read(tool: SameMusicModel, input: ReadingModel) -> Seq<EntryModel> {
    if tool.common_data.use_cache {
        values(missing_part(tool.music_to_check, known(tool, input)))
    } else {
        values(tool.music_to_check)
    }
}

/// A search whose files to check have been read.
pub open spec fn after_reading_files(
    tool: SameMusicModel,
    kind: ReadingKind,
    input: ReadingModel,
) -> (SameMusicModel, WorkContinueStatus) {
    let loaded = after_loading(tool, input.loading_messages);
    if input.stopped_after_loading {
        (loaded, WorkContinueStatus::Stop)
    } else {
        let connected = with_results(
            loaded,
            (input.read)(files_to_read(tool, input)),
            cached_part(tool.music_to_check, known(tool, input)),
        );
        (
            with_cache_messages(connected, input.saving_messages),
            status_of(
                input.was_stopped || (kind == ReadingKind::Fingerprints
                    && input.stopped_after_saving),
            ),
        )
    }
}

/// A search after a stage of reading.
pub open spec fn after_reading(tool: SameMusicModel, kind: ReadingKind, input: ReadingModel) -> (
    SameMusicModel,
    WorkContinueStatus,
) {
    match kind {
        ReadingKind::Tags => if tool.music_to_check.len() == 0 {
            (tool, WorkContinueStatus::Continue)
        } else {
            after_reading_files(tool, kind, input)
        },
        ReadingKind::Fingerprints => if tool.music_entries.len() == 0 {
            (tool, WorkContinueStatus::Continue)
        } else {
            after_reading_files(with_files_to_fingerprint(tool), kind, input)
        },
    }
}

/// A search whose groups were held against the reference folders, if there are any.
pub open spec fn filtered(
    tool: SameMusicModel,
    referenced: Seq<(EntryModel, Seq<EntryModel>)>,
) -> SameMusicModel {
    if tool.common_data.use_reference_folders {
        with_referenced(without_groups(tool), referenced)
    } else {
        tool
    }
}

/// A search after the comparison of tags.
pub open spec fn after_comparing_tags(tool: SameMusicModel, input: SearchModel) -> (
    SameMusicModel,
    WorkContinueStatus,
) {
    let (compared, status) = compared_tags(tool, input.tags_stopped);
    if tool.music_entries.len() == 0 || status == WorkContinueStatus::Stop {
        (compared, status)
    } else {
        (filtered(compared, input.referenced), status)
    }
}

/// A search after the comparison of sounds.
pub open spec fn after_comparing_sounds(tool: SameMusicModel, input: SearchModel) -> (
    SameMusicModel,
    WorkContinueStatus,
) {
    let (compared, status) = compared_sounds(tool, input.reference_paths, input.sounds_stopped);
    if tool.music_entries.len() == 0 || status == WorkContinueStatus::Stop {
        (compared, status)
    } else {
        (filtered(compared, input.referenced), status)
    }
}

/// A search after a stage, and how the stage ended.
pub open spec fn after_stage(tool: SameMusicModel, stage: SearchStage, input: SearchModel) -> (
    SameMusicModel,
    WorkContinueStatus,
) {
    match stage {
        SearchStage::CheckFiles => after_walk(tool, input.walk),
        SearchStage::ReadTags => after_reading(tool, ReadingKind::Tags, input.tags),
        SearchStage::CalculateFingerprints => after_reading(
            tool,
            ReadingKind::Fingerprints,
            input.fingerprints,
        ),
        SearchStage::CheckForDuplicateTags => after_comparing_tags(tool, input),
        SearchStage::CheckForDuplicateFingerprints => after_comparing_sounds(tool, input),
        SearchStage::DeleteFiles => after_deleting(tool, input.deleting),
        _ => (tool, WorkContinueStatus::Continue),
    }
}

/// What comes from outside while something is read of files, put together from what the calls of a
/// stage are given.
pub open spec fn reading_of(
    loaded_items: Option<EntryMap>,
    loading_messages: MessagesModel,
    stopped_after_loading: bool,
    results: Seq<Option<EntryModel>>,
    was_stopped: bool,
    saving_messages: MessagesModel,
    stopped_after_saving: bool,
) -> ReadingModel {
    ReadingModel {
        loaded: match loaded_items {
            Some(items) => Some(map_models(items@)),
            None => None,
        },
        loading_messages,
        stopped_after_loading,
        read: |files: Seq<EntryModel>| results,
        was_stopped,
        saving_messages,
        stopped_after_saving,
    }
}

/// A search after [`SameMusic::start_reading`] has found that there are files to read.
///
/// [`SameMusic::start_reading`]: crate::same_music::SameMusic::start_reading
pub open spec fn started(tool: SameMusicModel, kind: ReadingKind) -> SameMusicModel {
    match kind {
        ReadingKind::Tags => tool,
        ReadingKind::Fingerprints => with_files_to_fingerprint(tool),
    }
}

/// The calls of a reading stage make up the stage: starting to read, choosing the files to read,
/// connecting the results and finishing lead from a search to what the stage makes of it. The files
/// chosen are those that the stage reads.
pub proof fn law_reading_calls_make_a_stage(
    tool: SameMusicModel,
    kind: ReadingKind,
    loaded_items: Option<EntryMap>,
    loading_messages: MessagesModel,
    cache: LoadedCache,
    results: Seq<Option<EntryModel>>,
    was_stopped: bool,
    saving_messages: MessagesModel,
    stopped_after_saving: bool,
)
    requires
        kind == ReadingKind::Tags ==> tool.music_to_check.len() > 0,
        kind == ReadingKind::Fingerprints ==> tool.music_entries.len() > 0,
        is_cache_of(started(tool, kind), loaded_items, cache),
    ensures
        ({
            let chosen = after_loading(started(tool, kind), loading_messages);
            let connected = with_results(
                chosen,
                results,
                map_models(cache.records_already_cached@),
            );
            let input = reading_of(
                loaded_items,
                loading_messages,
                false,
                results,
                was_stopped,
                saving_messages,
                stopped_after_saving,
            );
            &&& after_reading(tool, kind, input) == (
                with_cache_messages(connected, saving_messages),
                status_of(
                    was_stopped || (kind == ReadingKind::Fingerprints && stopped_after_saving),
                ),
            )
            &&& files_to_read(started(tool, kind), input) == values(
                map_models(cache.non_cached_files_to_check@),
            )
            &&& after_reading(
                tool,
                kind,
                ReadingModel { stopped_after_loading: true, ..input },
            ) == (chosen, WorkContinueStatus::Stop)
        }),
{
}

/// How many stages may still come.
pub open spec fn stages_left(stage: SearchStage) -> int {
    match stage {
        SearchStage::CheckFiles => 5,
        SearchStage::ReadTags => 4,
        SearchStage::CalculateFingerprints => 3,
        SearchStage::CheckForDuplicateFingerprints => 2,
        SearchStage::CheckForDuplicateTags => 2,
        SearchStage::DeleteFiles => 1,
        _ => 0,
    }
}

/// A search run from a stage to its end, through the stages that [`SameMusic::advance_search`]
/// names.
///
/// [`SameMusic::advance_search`]: crate::same_music::SameMusic::advance_search
pub open spec fn run_from(
    tool: SameMusicModel,
    stage: SearchStage,
    input: SearchModel,
) -> SameMusicModel
    decreases stages_left(stage),
{
    if is_over(stage) {
        tool
    } else {
        let (after, status) = after_stage(tool, stage, input);
        if status == WorkContinueStatus::Stop {
            with_stopped_search(after, true)
        } else {
            run_from(after, next_stage(stage, tool.params.check_type), input)
        }
    }
}

/// A whole search.
pub open spec fn searched(tool: SameMusicModel, input: SearchModel) -> SameMusicModel {
    run_from(begun(tool), SearchStage::CheckFiles, input)
}

/// Whether a search has found and counted nothing so far.
pub open spec fn has_no_results(tool: SameMusicModel) -> bool {
    &&& tool.number_of_duplicates == 0
    &&& tool.number_of_groups == 0
    &&& tool.duplicated_music_entries.len() == 0
    &&& tool.duplicated_music_entries_referenced.len() == 0
}

/// Whether a search is as new: no files to check, none to compare, nothing found. The settings may
/// have been changed.
pub open spec fn is_new(tool: SameMusicModel) -> bool {
    &&& has_no_results(tool)
    &&& tool.music_to_check.len() == 0
    &&& tool.music_entries.len() == 0
}

/// Whether a search uses reference folders exactly if it has any.
pub open spec fn uses_its_reference_folders(tool: SameMusicModel) -> bool {
    tool.common_data.use_reference_folders == (tool.common_data.reference_directories.len() > 0)
}

/// Whether results stand only where they belong: beside reference files if there are reference
/// folders, in groups otherwise.
pub open spec fn has_results_in_place(tool: SameMusicModel) -> bool {
    if tool.common_data.use_reference_folders {
        tool.duplicated_music_entries.len() == 0
    } else {
        tool.duplicated_music_entries_referenced.len() == 0
    }
}

/// Whether the counters of a search match what it has found.
pub open spec fn is_counted(tool: SameMusicModel) -> bool {
    if tool.common_data.use_reference_folders {
        &&& tool.number_of_groups == tool.duplicated_music_entries_referenced.len()
        &&& tool.number_of_duplicates == total_referenced(tool.duplicated_music_entries_referenced)
    } else {
        &&& tool.number_of_groups == tool.duplicated_music_entries.len()
        &&& tool.number_of_duplicates == total_similar(tool.duplicated_music_entries)
    }
}

/// Whether files are still to be compared.
pub open spec fn is_before_results(stage: SearchStage) -> bool {
    stage != SearchStage::DeleteFiles && !is_over(stage)
}

proof fn lemma_stage(tool: SameMusicModel, stage: SearchStage, input: SearchModel)
    requires
        uses_its_reference_folders(tool),
        has_results_in_place(tool),
        is_counted(tool),
        is_before_results(stage) ==> has_no_results(tool),
    ensures
        ({
            let (after, status) = after_stage(tool, stage, input);
            &&& uses_its_reference_folders(after)
            &&& has_results_in_place(after)
            &&& is_counted(after)
            &&& after.common_data.reference_directories == tool.common_data.reference_directories
            &&& after.params == tool.params
            &&& status == WorkContinueStatus::Continue && is_before_results(
                next_stage(stage, tool.params.check_type),
            ) ==> has_no_results(after)
        }),
{
}

proof fn lemma_run(tool: SameMusicModel, stage: SearchStage, input: SearchModel)
    requires
        uses_its_reference_folders(tool),
        has_results_in_place(tool),
        is_counted(tool),
        is_before_results(stage) ==> has_no_results(tool),
    ensures
        uses_its_reference_folders(run_from(tool, stage, input)),
        has_results_in_place(run_from(tool, stage, input)),
        is_counted(run_from(tool, stage, input)),
        run_from(tool, stage, input).common_data.reference_directories
            == tool.common_data.reference_directories,
    decreases stages_left(stage),
{
    if !is_over(stage) {
        let (after, status) = after_stage(tool, stage, input);
        lemma_stage(tool, stage, input);
        if status == WorkContinueStatus::Continue {
            lemma_run(after, next_stage(stage, tool.params.check_type), input);
        }
    }
}

/// Reference folders decide where results stand. After a search, stopped or not, they are used
/// exactly if there are any; with them there are no plain groups, without them no reference files.
pub proof fn law_reference_folders_decide(tool: SameMusicModel, input: SearchModel)
    requires
        is_new(tool),
    ensures
        searched(tool, input).common_data.use_reference_folders == (
        tool.common_data.reference_directories.len() > 0),
        searched(tool, input).common_data.use_reference_folders ==> searched(
            tool,
            input,
        ).duplicated_music_entries.len() == 0,
        !searched(tool, input).common_data.use_reference_folders ==> searched(
            tool,
            input,
        ).duplicated_music_entries_referenced.len() == 0,
{
    lemma_run(begun(tool), SearchStage::CheckFiles, input);
}

/// After one search, stopped or not, the counters match what is stored: as many groups as there are
/// groups or reference files, and as many duplicates as there are files beside one in each group,
/// or beside the reference files.
pub proof fn law_counters_match_results(tool: SameMusicModel, input: SearchModel)
    requires
        is_new(tool),
    ensures
        is_counted(searched(tool, input)),
{
    lemma_run(begun(tool), SearchStage::CheckFiles, input);
}

/// Whether results come of files, one of each or none, and have their paths.
pub open spec fn come_of(results: Seq<Option<EntryModel>>, files: Seq<EntryModel>) -> bool {
    &&& results.len() <= files.len()
    &&& forall|i: int|
        0 <= i < results.len() && (#[trigger] results[i]) is Some ==> results[i]->0.path
            == files[i].path
}

/// Whether reading, unless it is stopped, never changes the path of a file.
pub open spec fn keeps_paths(input: ReadingModel) -> bool {
    !input.was_stopped ==> forall|files: Seq<EntryModel>|
        come_of(#[trigger] (input.read)(files), files)
}

/// A path occurs among results at most as often as among the files they come of.
proof fn lemma_readable_paths(
    results: Seq<Option<EntryModel>>,
    files: Seq<EntryModel>,
    path: Seq<char>,
)
    requires
        come_of(results, files),
    ensures
        path_count(readable(results), path) <= path_count(files, path),
    decreases files.len(),
{
    if results.len() == 0 {
        assert(readable(results).len() == 0);
    } else {
        let rest = files.drop_last();
        if results.len() < files.len() {
            assert forall|i: int| 0 <= i < results.len() && (
            #[trigger] results[i]) is Some implies results[i]->0.path == rest[i].path by {
                assert(rest[i] == files[i]);
            }
            lemma_readable_paths(results, rest, path);
        } else {
            let earlier = results.drop_last();
            let n = results.len() - 1;
            assert forall|i: int| 0 <= i < earlier.len() && (
            #[trigger] earlier[i]) is Some implies earlier[i]->0.path == rest[i].path by {
                assert(earlier[i] == results[i]);
                assert(rest[i] == files[i]);
            }
            lemma_readable_paths(earlier, rest, path);
            let before = readable(earlier);
            assert(results[n] == results.last());
            match results.last() {
                Some(entry) => {
                    assert(entry.path == files.last().path);
                    assert(before.push(entry).drop_last() =~= before);
                },
                None => {},
            }
        }
    }
}

/// Whether the files to check stand in order under their paths.
spec fn is_ordered(tool: SameMusicModel) -> bool {
    is_ascending(tool.music_to_check) && is_under_paths(tool.music_to_check)
}

proof fn lemma_read_files_are_distinct(
    tool: SameMusicModel,
    kind: ReadingKind,
    input: ReadingModel,
)
    requires
        !tool.common_data.use_cache,
        is_ordered(tool),
        keeps_paths(input),
        after_reading_files(tool, kind, input).1 == WorkContinueStatus::Continue,
    ensures
        has_distinct_paths(after_reading_files(tool, kind, input).0.music_entries),
{
    let files = values(tool.music_to_check);
    let none = Seq::<(Seq<char>, EntryModel)>::empty();
    crate::same_music::lemma_nothing_cached(tool.music_to_check);
    let results = (input.read)(files);
    let entries = readable(results);
    lemma_map_has_distinct_paths(tool.music_to_check);
    assert(values(none) =~= Seq::empty());
    assert(after_reading_files(tool, kind, input).0.music_entries =~= entries);
    assert forall|path: Seq<char>| #[trigger] path_count(entries, path) <= 1 by {
        assert(come_of((input.read)(files), files));
        lemma_readable_paths(results, files, path);
        assert(path_count(files, path) <= 1);
    }
}

/// What is known before a stage of a search without a cache and without reference folders.
spec fn is_distinct_before(tool: SameMusicModel, stage: SearchStage) -> bool {
    match stage {
        SearchStage::CheckFiles => tool.music_to_check.len() == 0 && tool.music_entries.len() == 0,
        SearchStage::ReadTags => is_ordered(tool) && tool.music_entries.len() == 0,
        SearchStage::CalculateFingerprints => true,
        SearchStage::CheckForDuplicateTags => has_distinct_paths(tool.music_entries),
        SearchStage::CheckForDuplicateFingerprints => has_distinct_paths(tool.music_entries),
        _ => true,
    }
}

/// Whether every group has at least two files, and no path occurs twice over all groups.
pub open spec fn has_proper_groups(tool: SameMusicModel) -> bool {
    &&& forall|g: int|
        0 <= g < tool.duplicated_music_entries.len() ==> (
        #[trigger] tool.duplicated_music_entries[g]).len() >= 2
    &&& have_distinct_paths(tool.duplicated_music_entries)
}

proof fn lemma_empty_paths(list: Seq<EntryModel>)
    requires
        list.len() == 0,
    ensures
        has_distinct_paths(list),
{
    assert forall|path: Seq<char>| #[trigger] path_count(list, path) <= 1 by {}
}

proof fn lemma_empty_groups(groups: Seq<Seq<EntryModel>>)
    requires
        groups.len() == 0,
    ensures
        have_distinct_paths(groups),
{
    assert forall|path: Seq<char>| #[trigger]
        crate::path_laws::path_count_over(groups, path) <= 1 by {}
}

proof fn lemma_proper_stage(tool: SameMusicModel, stage: SearchStage, input: SearchModel)
    requires
        !tool.common_data.use_cache,
        !tool.common_data.use_reference_folders,
        tool.params.check_type == CheckingMethod::AudioTags ==> selected(tool.params).len() > 0,
        keeps_paths(input.tags),
        keeps_paths(input.fingerprints),
        is_distinct_before(tool, stage),
        stage == SearchStage::CheckForDuplicateTags ==> tool.params.check_type
            == CheckingMethod::AudioTags,
        has_proper_groups(tool),
        !is_over(stage),
        tool.params.check_type != CheckingMethod::Other,
    ensures
        ({
            let (after, status) = after_stage(tool, stage, input);
            &&& !after.common_data.use_cache
            &&& !after.common_data.use_reference_folders
            &&& after.params == tool.params
            &&& has_proper_groups(after)
            &&& status == WorkContinueStatus::Continue ==> is_distinct_before(
                after,
                next_stage(stage, tool.params.check_type),
            )
        }),
{
    let (after, status) = after_stage(tool, stage, input);
    match stage {
        SearchStage::CheckFiles => {
            match input.walk {
                WalkModel::Found { files, warnings } => {
                    lemma_stored_under_paths(files);
                },
                _ => {},
            }
        },
        SearchStage::ReadTags => {
            if tool.music_to_check.len() == 0 {
                lemma_empty_paths(tool.music_entries);
            } else if status == WorkContinueStatus::Continue {
                lemma_read_files_are_distinct(tool, ReadingKind::Tags, input.tags);
            }
        },
        SearchStage::CalculateFingerprints => {
            if tool.music_entries.len() == 0 {
                lemma_empty_paths(tool.music_entries);
            } else {
                let chosen = with_files_to_fingerprint(tool);
                lemma_stored_under_paths(
                    crate::same_music::files_to_fingerprint(
                        tool.music_entries,
                        tool.params.compare_fingerprints_only_with_similar_titles,
                    ),
                );
                if status == WorkContinueStatus::Continue {
                    lemma_read_files_are_distinct(
                        chosen,
                        ReadingKind::Fingerprints,
                        input.fingerprints,
                    );
                }
            }
        },
        SearchStage::CheckForDuplicateTags => {
            let keys = selected(tool.params);
            let groups = tag_groups(tool.music_entries, keys);
            law_tag_groups_have_distinct_paths(tool.music_entries, keys);
            assert forall|g: int| 0 <= g < groups.len() implies (#[trigger] groups[g]).len() >= 2 by {
                law_groups_have_two_members(tool.music_entries, keys, g);
            }
        },
        SearchStage::CheckForDuplicateFingerprints => {
            let checks = checks_of(tool, input.reference_paths);
            lemma_sound_search_sizes(checks, thresholds_of(tool.params));
            law_sound_groups_have_distinct_paths(
                tool.music_entries,
                tool.params.compare_fingerprints_only_with_similar_titles,
                input.reference_paths,
                thresholds_of(tool.params),
            );
        },
        _ => {},
    }
}

proof fn lemma_proper_run(tool: SameMusicModel, stage: SearchStage, input: SearchModel)
    requires
        !tool.common_data.use_cache,
        !tool.common_data.use_reference_folders,
        tool.params.check_type == CheckingMethod::AudioTags ==> selected(tool.params).len() > 0,
        keeps_paths(input.tags),
        keeps_paths(input.fingerprints),
        is_distinct_before(tool, stage),
        stage == SearchStage::CheckForDuplicateTags ==> tool.params.check_type
            == CheckingMethod::AudioTags,
        has_proper_groups(tool),
        tool.params.check_type != CheckingMethod::Other,
    ensures
        has_proper_groups(run_from(tool, stage, input)),
    decreases stages_left(stage),
{
    if !is_over(stage) {
        let (after, status) = after_stage(tool, stage, input);
        lemma_proper_stage(tool, stage, input);
        if status == WorkContinueStatus::Continue {
            lemma_proper_run(after, next_stage(stage, tool.params.check_type), input);
        }
    }
}

/// A search without a cache and without reference folders reports groups of at least two files, and
/// no path twice over all groups, whether it goes by tags or by sound.
pub proof fn law_no_path_is_reported_twice(tool: SameMusicModel, input: SearchModel)
    requires
        is_new(tool),
        tool.params.is_valid(),
        tool.params.check_type == CheckingMethod::AudioTags ==> selected(tool.params).len() > 0,
        !tool.common_data.use_cache,
        tool.common_data.reference_directories.len() == 0,
        keeps_paths(input.tags),
        keeps_paths(input.fingerprints),
    ensures
        has_proper_groups(searched(tool, input)),
{
    lemma_empty_groups(tool.duplicated_music_entries);
    lemma_proper_run(begun(tool), SearchStage::CheckFiles, input);
}

/// A search that asks for more equal tags.
pub open spec fn with_more_tags(tool: SameMusicModel, tags: u32) -> SameMusicModel {
    SameMusicModel { params: asking_for_more(tool.params, tags), ..tool }
}

/// Asking for more equal tags never adds a duplicate: each group found is within one that is found
/// when less is asked for, and no more duplicates are counted.
pub proof fn law_more_tags_never_add_a_duplicate(
    tool: SameMusicModel,
    tags: u32,
    input: SearchModel,
)
    requires
        !tool.common_data.use_reference_folders,
        tool.music_entries.len() > 0,
        !input.tags_stopped,
    ensures
        are_within(
            after_comparing_tags(with_more_tags(tool, tags), input).0.duplicated_music_entries,
            after_comparing_tags(tool, input).0.duplicated_music_entries,
        ),
        after_comparing_tags(with_more_tags(tool, tags), input).0.number_of_duplicates
            <= after_comparing_tags(tool, input).0.number_of_duplicates,
{
    law_asking_for_more_finds_less(tool.music_entries, tool.params, tags);
}

} // verus!
