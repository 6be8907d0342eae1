//! The order in which a search for duplicated music proceeds.

use crate::common::CommonModel;
use crate::params::{CheckingMethod, WorkContinueStatus};
use crate::same_music::{SameMusic, SameMusicModel};
use vstd::prelude::*;

verus! {

/// What a search does next.
#[derive(Clone, Copy, PartialEq, Eq, Structural, Debug)]
pub enum SearchStage {
    CheckFiles,
    ReadTags,
    CheckForDuplicateTags,
    CalculateFingerprints,
    CheckForDuplicateFingerprints,
    DeleteFiles,
    /// All stages were done.
    Finished,
    /// A stage was stopped.
    Stopped,
}

/// Whether a search is over.
pub open spec fn is_over(stage: SearchStage) -> bool {
    stage == SearchStage::Finished || stage == SearchStage::Stopped
}

/// The stage after one that was done.
pub open spec fn next_stage(stage: SearchStage, check_type: CheckingMethod) -> SearchStage {
    match stage {
        SearchStage::CheckFiles => SearchStage::ReadTags,
        SearchStage::ReadTags => if check_type == CheckingMethod::AudioTags {
            SearchStage::CheckForDuplicateTags
        } else {
            SearchStage::CalculateFingerprints
        },
        SearchStage::CalculateFingerprints => SearchStage::CheckForDuplicateFingerprints,
        SearchStage::CheckForDuplicateTags => SearchStage::DeleteFiles,
        SearchStage::CheckForDuplicateFingerprints => SearchStage::DeleteFiles,
        SearchStage::DeleteFiles => SearchStage::Finished,
        SearchStage::Finished => SearchStage::Finished,
        SearchStage::Stopped => SearchStage::Stopped,
    }
}

/// A search that has begun: reference folders are used if there are any.
pub open spec fn begun(tool: SameMusicModel) -> SameMusicModel {
    SameMusicModel {
        common_data: CommonModel {
            use_reference_folders: tool.common_data.reference_directories.len() > 0,
            ..tool.common_data
        },
        ..tool
    }
}

/// A search with another answer to whether it was stopped.
pub open spec fn with_stopped_search(tool: SameMusicModel, stopped: bool) -> SameMusicModel {
    SameMusicModel {
        common_data: CommonModel { stopped_search: stopped, ..tool.common_data },
        ..tool
    }
}

impl SameMusic {
    /// Begins a search. From here on, reference folders are used if there are any.
    pub fn begin_search(&mut self) -> (r: SearchStage)
        ensures
            r == SearchStage::CheckFiles,
            final(self)@ == begun(old(self)@),
    {
        let data = self.get_cd_mut();
        data.use_reference_folders = data.reference_directories.len() > 0;
        SearchStage::CheckFiles
    }

    /// Goes on after a stage. A search that is stopped remembers so.
    pub fn advance_search(&mut self, stage: SearchStage, status: WorkContinueStatus) -> (r:
        SearchStage)
        requires
            !is_over(stage),
            old(self)@.params.check_type != CheckingMethod::Other || stage
                == SearchStage::CheckFiles && status == WorkContinueStatus::Stop,
        ensures
            match status {
                WorkContinueStatus::Continue => r == next_stage(stage, old(self)@.params.check_type)
                    && final(self)@ == old(self)@,
                WorkContinueStatus::Stop => r == SearchStage::Stopped && final(self)@
                    == with_stopped_search(old(self)@, true),
            },
    {
        if status == WorkContinueStatus::Stop {
            let data = self.get_cd_mut();
            data.stopped_search = true;
            return SearchStage::Stopped;
        }
        match stage {
            SearchStage::CheckFiles => SearchStage::ReadTags,
            SearchStage::ReadTags => if self.get_check_method() == CheckingMethod::AudioTags {
                SearchStage::CheckForDuplicateTags
            } else {
                SearchStage::CalculateFingerprints
            },
            SearchStage::CalculateFingerprints => SearchStage::CheckForDuplicateFingerprints,
            SearchStage::CheckForDuplicateTags => SearchStage::DeleteFiles,
            SearchStage::CheckForDuplicateFingerprints => SearchStage::DeleteFiles,
            SearchStage::DeleteFiles => SearchStage::Finished,
            SearchStage::Finished => SearchStage::Finished,
            SearchStage::Stopped => SearchStage::Stopped,
        }
    }
}

/// The stage that a search reaches when its stages end as given. Whatever follows the end of a
/// search has no effect.
pub open spec fn stage_after(
    statuses: Seq<WorkContinueStatus>,
    check_type: CheckingMethod,
) -> SearchStage
    decreases statuses.len(),
{
    if statuses.len() == 0 {
        SearchStage::CheckFiles
    } else {
        let stage = stage_after(statuses.drop_last(), check_type);
        if !is_over(stage) && statuses.last() == WorkContinueStatus::Stop {
            SearchStage::Stopped
        } else {
            next_stage(stage, check_type)
        }
    }
}

/// How many stages a search has.
pub open spec fn stage_count(check_type: CheckingMethod) -> int {
    if check_type == CheckingMethod::AudioTags {
        4
    } else {
        5
    }
}

/// How many stages come before a stage.
pub open spec fn stages_before(stage: SearchStage, check_type: CheckingMethod) -> int {
    match stage {
        SearchStage::CheckFiles => 0,
        SearchStage::ReadTags => 1,
        SearchStage::CheckForDuplicateTags => 2,
        SearchStage::CalculateFingerprints => 2,
        SearchStage::CheckForDuplicateFingerprints => 3,
        SearchStage::DeleteFiles => stage_count(check_type) - 1,
        SearchStage::Finished => stage_count(check_type),
        SearchStage::Stopped => stage_count(check_type),
    }
}

/// Whether some of the first stages was stopped.
pub open spec fn was_stopped(statuses: Seq<WorkContinueStatus>, stages: int) -> bool {
    exists|i: int|
        0 <= i < statuses.len() && i < stages && #[trigger] statuses[i] == WorkContinueStatus::Stop
}

proof fn lemma_stage_after(statuses: Seq<WorkContinueStatus>, check_type: CheckingMethod)
    requires
        check_type != CheckingMethod::Other,
    ensures
        ({
            let stage = stage_after(statuses, check_type);
            let count = stage_count(check_type);
            &&& (stage == SearchStage::Stopped) == was_stopped(statuses, count)
            &&& stage != SearchStage::Stopped ==> stages_before(stage, check_type) == (
            if statuses.len() < count {
                statuses.len() as int
            } else {
                count
            })
            &&& stage == SearchStage::CheckForDuplicateTags ==> check_type
                == CheckingMethod::AudioTags
            &&& stage == SearchStage::CalculateFingerprints || stage
                == SearchStage::CheckForDuplicateFingerprints ==> check_type
                == CheckingMethod::AudioContent
        }),
    decreases statuses.len(),
{
    let count = stage_count(check_type);
    if statuses.len() > 0 {
        let rest = statuses.drop_last();
        lemma_stage_after(rest, check_type);
        let n = statuses.len() - 1;
        if was_stopped(rest, count) {
            let i = choose|i: int|
                0 <= i < rest.len() && i < count && #[trigger] rest[i] == WorkContinueStatus::Stop;
            assert(statuses[i] == WorkContinueStatus::Stop);
        }
        if was_stopped(statuses, count) && !was_stopped(rest, count) {
            let i = choose|i: int|
                0 <= i < statuses.len() && i < count && #[trigger] statuses[i]
                    == WorkContinueStatus::Stop;
            if i < n {
                assert(rest[i] == WorkContinueStatus::Stop);
            }
        }
        if !is_over(stage_after(rest, check_type)) && statuses.last() == WorkContinueStatus::Stop {
            assert(statuses[n] == WorkContinueStatus::Stop);
        }
    }
}

/// A search counts as stopped exactly if one of its stages was stopped, and is finished exactly if
/// all of them were done: four for a search by tags, five for one by sound.
pub proof fn law_search_runs_all_stages(
    statuses: Seq<WorkContinueStatus>,
    check_type: CheckingMethod,
)
    requires
        check_type != CheckingMethod::Other,
    ensures
        stage_after(statuses, check_type) == SearchStage::Stopped <==> was_stopped(
            statuses,
            stage_count(check_type),
        ),
        stage_after(statuses, check_type) == SearchStage::Finished <==> !was_stopped(
            statuses,
            stage_count(check_type),
        ) && statuses.len() >= stage_count(check_type),
{
    lemma_stage_after(statuses, check_type);
}

/// A search by tags never compares sounds, and a search by sound never compares tags.
pub proof fn law_search_keeps_to_its_method(
    statuses: Seq<WorkContinueStatus>,
    check_type: CheckingMethod,
)
    requires
        check_type != CheckingMethod::Other,
    ensures
        stage_after(statuses, check_type) == SearchStage::CheckForDuplicateTags ==> check_type
            == CheckingMethod::AudioTags,
        stage_after(statuses, check_type) == SearchStage::CalculateFingerprints || stage_after(
            statuses,
            check_type,
        ) == SearchStage::CheckForDuplicateFingerprints ==> check_type
            == CheckingMethod::AudioContent,
{
    lemma_stage_after(statuses, check_type);
}

/// What a search does one after the other, as long as nothing stops it: it finds files and reads
/// their tags; then it compares tags, or makes fingerprints and compares sounds; and at last it
/// deletes files.
pub proof fn law_stages_follow_one_another(
    statuses: Seq<WorkContinueStatus>,
    check_type: CheckingMethod,
)
    requires
        check_type != CheckingMethod::Other,
        !was_stopped(statuses, stage_count(check_type)),
    ensures
        ({
            let done = statuses.len();
            stage_after(statuses, check_type) == if check_type == CheckingMethod::AudioTags {
                if done == 0 {
                    SearchStage::CheckFiles
                } else if done == 1 {
                    SearchStage::ReadTags
                } else if done == 2 {
                    SearchStage::CheckForDuplicateTags
                } else if done == 3 {
                    SearchStage::DeleteFiles
                } else {
                    SearchStage::Finished
                }
            } else {
                if done == 0 {
                    SearchStage::CheckFiles
                } else if done == 1 {
                    SearchStage::ReadTags
                } else if done == 2 {
                    SearchStage::CalculateFingerprints
                } else if done == 3 {
                    SearchStage::CheckForDuplicateFingerprints
                } else if done == 4 {
                    SearchStage::DeleteFiles
                } else {
                    SearchStage::Finished
                }
            }
        }),
{
    lemma_stage_after(statuses, check_type);
}

} // verus!
