//! The search for duplicated music.

use crate::cache::{
    bare_entries, cached_part, entries_to_check, extract_loaded_cache, into_values, map_models,
    missing_part, store_entries, values, with_entries, EntryMap,
};
use crate::common::{
    append_texts, joined_messages, CommonModel, CommonToolData, MessagesModel, TextMessages,
};
use crate::fingerprint_matching::{texts, Thresholds};
use crate::grouping::{
    find_tag_groups, get_entries_grouped_by_title, grouped, keyed_by, large_groups,
    push_large_groups, refined, refined_by, selected, selected_keys, tag_groups, GroupKey,
};
use crate::music_entry::{
    clone_entries, clone_groups, group_models, models, EntryModel, FileEntry, MusicEntry,
};
use crate::params::{CheckingMethod, SameMusicParameters, WorkContinueStatus};
use crate::progress::{always, check_if_stop_received, never};
use crate::search_laws::is_new;
use crate::sorted_map::SortedMap;
use crate::sound_laws::total_similar;
use crate::sound_search::{
    base_file_count, base_files_number, compared_file_count, errors_until, find_sound_groups,
    lemma_groups_to_check_sizes, lemma_sound_search_sizes, lemma_weight_is_length, one,
    sound_errors, sound_groups,
};
use crate::splitting::{
    check_models, groups_to_check, split_files_to_check, GroupedFilesToCheck, GroupedModel,
};
use crate::tag_laws::{
    agree, has_pair, law_agreeing_files_share_a_group, law_groups_have_two_members,
    lemma_tag_groups_weight, total_weight,
};
use std::sync::atomic::{AtomicBool, AtomicUsize};
use std::sync::Arc;
use vstd::prelude::*;

verus! {

/// How much was found.
#[derive(Debug)]
pub struct Info {
    pub number_of_duplicates: usize,
    pub number_of_groups: u64,
}

impl Default for Info {
    fn default() -> (r: Info)
        ensures
            r == (Info { number_of_duplicates: 0, number_of_groups: 0 }),
    {
        Info { number_of_duplicates: 0, number_of_groups: 0 }
    }
}

/// The search for duplicated music: its settings, the files it works on and what it has found.
#[derive(Debug)]
pub struct SameMusic {
    common_data: CommonToolData,
    information: Info,
    music_to_check: EntryMap,
    music_entries: Vec<MusicEntry>,
    duplicated_music_entries: Vec<Vec<MusicEntry>>,
    duplicated_music_entries_referenced: Vec<(MusicEntry, Vec<MusicEntry>)>,
    params: SameMusicParameters,
}

/// The state of a search as mathematical values.
#[verifier::ext_equal]
pub struct SameMusicModel {
    pub common_data: CommonModel,
    pub number_of_duplicates: int,
    pub number_of_groups: int,
    /// Files whose tags or fingerprints are still wanted, under their paths.
    pub music_to_check: Seq<(Seq<char>, EntryModel)>,
    /// Files to compare.
    pub music_entries: Seq<EntryModel>,
    /// Groups of duplicates.
    pub duplicated_music_entries: Seq<Seq<EntryModel>>,
    /// Files in reference folders with their duplicates elsewhere.
    pub duplicated_music_entries_referenced: Seq<(EntryModel, Seq<EntryModel>)>,
    pub params: SameMusicParameters,
}

/// The model of reference files with their duplicates.
pub open spec fn referenced_models(list: Seq<(MusicEntry, Vec<MusicEntry>)>) -> Seq<
    (EntryModel, Seq<EntryModel>),
> {
    Seq::new(list.len(), |i: int| (list[i].0@, models(list[i].1@)))
}

impl View for SameMusic {
    type V = SameMusicModel;

    closed spec fn view(&self) -> SameMusicModel {
        SameMusicModel {
            common_data: self.common_data@,
            number_of_duplicates: self.information.number_of_duplicates as int,
            number_of_groups: self.information.number_of_groups as int,
            music_to_check: map_models(self.music_to_check@),
            music_entries: models(self.music_entries@),
            duplicated_music_entries: group_models(self.duplicated_music_entries@),
            duplicated_music_entries_referenced: referenced_models(
                self.duplicated_music_entries_referenced@,
            ),
            params: self.params,
        }
    }
}

/// What a walk through the directories came to.
#[derive(Debug)]
pub enum DirTraversalResult {
    /// There are no extensions to look for.
    NoExtensions,
    /// The walk was stopped.
    Stopped,
    SuccessFiles { file_entries: Vec<FileEntry>, warnings: Vec<String> },
}

/// What a walk through the directories comes to.
pub enum WalkModel {
    NoExtensions,
    Stopped,
    Found { files: Seq<EntryModel>, warnings: Seq<Seq<char>> },
}

impl View for DirTraversalResult {
    type V = WalkModel;

    open spec fn view(&self) -> WalkModel {
        match *self {
            DirTraversalResult::NoExtensions => WalkModel::NoExtensions,
            DirTraversalResult::Stopped => WalkModel::Stopped,
            DirTraversalResult::SuccessFiles { file_entries, warnings } => WalkModel::Found {
                files: bare_entries(file_entries@),
                warnings: texts(warnings@),
            },
        }
    }
}

/// A search after the walk through the directories.
pub open spec fn after_walk(tool: SameMusicModel, walk: WalkModel) -> (
    SameMusicModel,
    WorkContinueStatus,
) {
    match walk {
        WalkModel::NoExtensions => (tool, WorkContinueStatus::Continue),
        WalkModel::Stopped => (tool, WorkContinueStatus::Stop),
        WalkModel::Found { files, warnings } => (
            with_found_files(tool, files, warnings),
            WorkContinueStatus::Continue,
        ),
    }
}

/// A search after deleting, if that was asked for.
pub open spec fn after_deleting(
    tool: SameMusicModel,
    outcome: (MessagesModel, WorkContinueStatus),
) -> (SameMusicModel, WorkContinueStatus) {
    if tool.common_data.delete_requested {
        (
            SameMusicModel {
                common_data: CommonModel {
                    text_messages: joined_messages(tool.common_data.text_messages, outcome.0),
                    ..tool.common_data
                },
                ..tool
            },
            outcome.1,
        )
    } else {
        (tool, WorkContinueStatus::Continue)
    }
}

/// Files to check beside a cache.
#[derive(Debug)]
pub struct LoadedCache {
    /// All that the cache has.
    pub loaded: EntryMap,
    /// The records for files to check.
    pub records_already_cached: EntryMap,
    /// The files to check that the cache does not have.
    pub non_cached_files_to_check: EntryMap,
}

/// A search with files that a walk through the directories found.
pub open spec fn with_found_files(
    tool: SameMusicModel,
    files: Seq<EntryModel>,
    warnings: Seq<Seq<char>>,
) -> SameMusicModel {
    SameMusicModel {
        common_data: CommonModel {
            text_messages: MessagesModel {
                warnings: tool.common_data.text_messages.warnings + warnings,
                ..tool.common_data.text_messages
            },
            ..tool.common_data
        },
        music_to_check: with_entries(Seq::empty(), files),
        ..tool
    }
}

/// A search whose files to compare are those just read and those from a cache.
pub open spec fn with_results(
    tool: SameMusicModel,
    results: Seq<Option<EntryModel>>,
    cached: Seq<(Seq<char>, EntryModel)>,
) -> SameMusicModel {
    SameMusicModel { music_entries: readable(results) + values(cached), ..tool }
}

/// A search whose groups were taken out.
pub open spec fn without_groups(tool: SameMusicModel) -> SameMusicModel {
    SameMusicModel { duplicated_music_entries: Seq::empty(), ..tool }
}

/// A search with reference files and their duplicates, counted.
pub open spec fn with_referenced(
    tool: SameMusicModel,
    referenced: Seq<(EntryModel, Seq<EntryModel>)>,
) -> SameMusicModel {
    SameMusicModel {
        duplicated_music_entries_referenced: referenced,
        number_of_duplicates: tool.number_of_duplicates + total_referenced(referenced),
        number_of_groups: tool.number_of_groups + referenced.len(),
        ..tool
    }
}

/// What is read of files.
#[derive(Clone, Copy, PartialEq, Eq, Structural, Debug)]
pub enum ReadingKind {
    Tags,
    Fingerprints,
}

/// A search with the messages that came of loading or saving a cache, if caches are used.
pub open spec fn with_cache_messages(
    tool: SameMusicModel,
    messages: MessagesModel,
) -> SameMusicModel {
    SameMusicModel {
        common_data: CommonModel {
            text_messages: if tool.common_data.use_cache {
                joined_messages(tool.common_data.text_messages, messages)
            } else {
                tool.common_data.text_messages
            },
            ..tool.common_data
        },
        ..tool
    }
}

/// A search whose files to check have been held against a cache: none are left here.
pub open spec fn after_loading(tool: SameMusicModel, messages: MessagesModel) -> SameMusicModel {
    SameMusicModel { music_to_check: Seq::empty(), ..with_cache_messages(tool, messages) }
}

/// Whether the files to check of a search were parted by a cache. Without a cache, all of them are
/// to be read.
pub open spec fn is_cache_of(
    tool: SameMusicModel,
    loaded_items: Option<EntryMap>,
    cache: LoadedCache,
) -> bool {
    let known = if tool.common_data.use_cache && loaded_items is Some {
        map_models(loaded_items->0@)
    } else {
        Seq::empty()
    };
    &&& map_models(cache.loaded@) == known
    &&& map_models(cache.records_already_cached@) == cached_part(tool.music_to_check, known)
    &&& map_models(cache.non_cached_files_to_check@) == if tool.common_data.use_cache {
        missing_part(tool.music_to_check, known)
    } else {
        tool.music_to_check
    }
}

/// The files that fingerprints are wanted of: all, or only those with a title similar to that of
/// another file.
pub open spec fn files_to_fingerprint(
    entries: Seq<EntryModel>,
    only_with_similar_titles: bool,
) -> Seq<EntryModel> {
    if only_with_similar_titles {
        large_groups(grouped(keyed_by(entries, GroupKey::SimilarTitle))).flatten()
    } else {
        entries
    }
}

/// A search whose files to compare are to be fingerprinted.
pub open spec fn with_files_to_fingerprint(tool: SameMusicModel) -> SameMusicModel {
    SameMusicModel {
        music_to_check: with_entries(
            Seq::empty(),
            files_to_fingerprint(
                tool.music_entries,
                tool.params.compare_fingerprints_only_with_similar_titles,
            ),
        ),
        music_entries: Seq::empty(),
        ..tool
    }
}

/// How many duplicates stand beside reference files.
pub open spec fn total_referenced(list: Seq<(EntryModel, Seq<EntryModel>)>) -> nat
    decreases list.len(),
{
    if list.len() == 0 {
        0
    } else {
        total_referenced(list.drop_last()) + list.last().1.len()
    }
}

/// A search with new groups, counted unless they are still to be held against reference folders.
pub open spec fn with_groups(tool: SameMusicModel, groups: Seq<Seq<EntryModel>>) -> SameMusicModel {
    SameMusicModel {
        duplicated_music_entries: groups,
        number_of_duplicates: if tool.common_data.use_reference_folders {
            tool.number_of_duplicates
        } else {
            tool.number_of_duplicates + total_similar(groups)
        },
        number_of_groups: if tool.common_data.use_reference_folders {
            tool.number_of_groups
        } else {
            tool.number_of_groups + groups.len()
        },
        music_entries: Seq::empty(),
        ..tool
    }
}

/// A search with other errors.
pub open spec fn with_errors(tool: SameMusicModel, errors: Seq<Seq<char>>) -> SameMusicModel {
    SameMusicModel {
        common_data: CommonModel {
            text_messages: MessagesModel { errors, ..tool.common_data.text_messages },
            ..tool.common_data
        },
        ..tool
    }
}

/// The thresholds of a comparison by sound.
pub open spec fn thresholds_of(params: SameMusicParameters) -> Thresholds {
    Thresholds {
        minimum_segment_duration: params.minimum_segment_duration,
        maximum_difference: params.maximum_difference,
    }
}

/// What a search compares by sound.
pub open spec fn checks_of(tool: SameMusicModel, reference_paths: Set<Seq<char>>) -> Seq<
    GroupedModel,
> {
    groups_to_check(
        tool.music_entries,
        tool.params.compare_fingerprints_only_with_similar_titles,
        tool.common_data.use_reference_folders,
        reference_paths,
    )
}

/// A search after all comparisons by sound.
pub open spec fn after_sound_search(
    tool: SameMusicModel,
    checks: Seq<GroupedModel>,
) -> SameMusicModel {
    with_groups(
        with_errors(
            tool,
            tool.common_data.text_messages.errors + sound_errors(
                checks,
                thresholds_of(tool.params),
            ),
        ),
        sound_groups(checks, thresholds_of(tool.params)),
    )
}

/// Whether there is a base file at a place of a group.
pub open spec fn is_step_of(checks: Seq<GroupedModel>, group: int, base_file: int) -> bool {
    0 <= group < checks.len() && 0 <= base_file < checks[group].base_files.len()
}

/// A search that was stopped before a base file: what is left of it are the errors met until then.
pub open spec fn stopped_at(
    tool: SameMusicModel,
    checks: Seq<GroupedModel>,
    group: int,
    base_file: int,
) -> SameMusicModel {
    SameMusicModel {
        music_entries: Seq::empty(),
        ..with_errors(
            tool,
            tool.common_data.text_messages.errors + errors_until(
                checks,
                thresholds_of(tool.params),
                group,
                base_file,
            ),
        )
    }
}

/// A search after the comparison of tags, and how that ended; with reference folders, the groups are
/// still to be held against them.
pub open spec fn compared_tags(tool: SameMusicModel, stopped: bool) -> (
    SameMusicModel,
    WorkContinueStatus,
) {
    if tool.music_entries.len() == 0 {
        (tool, WorkContinueStatus::Continue)
    } else if stopped {
        (tool, WorkContinueStatus::Stop)
    } else {
        (
            with_groups(tool, tag_groups(tool.music_entries, selected(tool.params))),
            WorkContinueStatus::Continue,
        )
    }
}

/// A search after the comparison of sounds, and how that ended, if it was stopped before a given
/// base file of a given group or not at all; with reference folders, the groups are still to be held
/// against them.
pub open spec fn compared_sounds(
    tool: SameMusicModel,
    reference_paths: Set<Seq<char>>,
    stopped: Option<(int, int)>,
) -> (SameMusicModel, WorkContinueStatus) {
    let checks = checks_of(tool, reference_paths);
    if tool.music_entries.len() == 0 {
        (tool, WorkContinueStatus::Continue)
    } else {
        match stopped {
            Some((group, base_file)) => (
                stopped_at(tool, checks, group, base_file),
                WorkContinueStatus::Stop,
            ),
            None => (after_sound_search(tool, checks), WorkContinueStatus::Continue),
        }
    }
}

/// Whether the comparison of sounds may have come to something: it went through, or it was stopped
/// before some base file.
pub open spec fn is_sound_comparison(
    tool: SameMusicModel,
    reference_paths: Set<Seq<char>>,
    end: (SameMusicModel, WorkContinueStatus),
) -> bool {
    match end.1 {
        WorkContinueStatus::Continue => end == compared_sounds(tool, reference_paths, None),
        WorkContinueStatus::Stop => exists|g: int, k: int|
            is_step_of(checks_of(tool, reference_paths), g, k) && end == #[trigger] compared_sounds(
                tool,
                reference_paths,
                Some((g, k)),
            ),
    }
}

/// The files of groups, one group after the other.
fn flattened(groups: Vec<Vec<MusicEntry>>) -> (r: Vec<MusicEntry>)
    ensures
        models(r@) == group_models(groups@).flatten(),
{
    let ghost all = group_models(groups@);
    let mut r: Vec<MusicEntry> = Vec::new();
    assert(models(r@) =~= all.take(0).flatten());
    for group in it: groups.into_iter()
        invariant
            it.seq() == groups@,
            all == group_models(groups@),
            models(r@) == all.take(it.index()).flatten(),
    {
        let ghost before = r@;
        let mut group = group;
        let ghost new = group@;
        r.append(&mut group);
        proof {
            let i = it.index();
            assert(models(r@) =~= models(before) + models(new));
            let now = all.take(i + 1);
            assert(now.drop_last() =~= all.take(i));
            assert(now.last() == models(new));
            now.lemma_flatten_and_flatten_alt_are_equivalent();
            all.take(i).lemma_flatten_and_flatten_alt_are_equivalent();
        }
    }
    assert(all.take(all.len() as int) =~= all);
    r
}

proof fn lemma_total_similar_grows(groups: Seq<Seq<EntryModel>>, i: int)
    requires
        0 <= i <= groups.len(),
        forall|g: int| 0 <= g < groups.len() ==> (#[trigger] groups[g]).len() >= 1,
    ensures
        0 <= total_similar(groups.take(i)) <= total_similar(groups),
    decreases groups.len() - i,
{
    if i < groups.len() {
        lemma_total_similar_grows(groups, i + 1);
        lemma_total_similar_nonnegative(groups, i);
        assert(groups.take(i + 1).drop_last() =~= groups.take(i));
        assert(groups.take(i + 1).last() == groups[i]);
    } else {
        lemma_total_similar_nonnegative(groups, i);
        assert(groups.take(i) =~= groups);
    }
}

proof fn lemma_total_similar_nonnegative(groups: Seq<Seq<EntryModel>>, i: int)
    requires
        0 <= i <= groups.len(),
        forall|g: int| 0 <= g < groups.len() ==> (#[trigger] groups[g]).len() >= 1,
    ensures
        0 <= total_similar(groups.take(i)),
    decreases i,
{
    if i > 0 {
        lemma_total_similar_nonnegative(groups, i - 1);
        assert(groups.take(i).drop_last() =~= groups.take(i - 1));
        assert(groups.take(i).last() == groups[i - 1]);
    }
}

proof fn lemma_total_referenced_grows(list: Seq<(EntryModel, Seq<EntryModel>)>, i: int)
    requires
        0 <= i <= list.len(),
    ensures
        total_referenced(list.take(i)) <= total_referenced(list),
    decreases list.len() - i,
{
    if i < list.len() {
        lemma_total_referenced_grows(list, i + 1);
        assert(list.take(i + 1).drop_last() =~= list.take(i));
    } else {
        assert(list.take(i) =~= list);
    }
}

/// The groups found by tags are not empty, and together hold at most as many files as were
/// compared.
proof fn lemma_tag_group_sizes(entries: Seq<EntryModel>, keys: Seq<GroupKey>)
    requires
        entries.len() > 0,
    ensures
        forall|g: int|
            0 <= g < tag_groups(entries, keys).len() ==> (#[trigger] tag_groups(
                entries,
                keys,
            )[g]).len() >= 1,
        tag_groups(entries, keys).len() <= entries.len(),
        total_similar(tag_groups(entries, keys)) <= entries.len(),
{
    let groups = tag_groups(entries, keys);
    if keys.len() == 0 {
        assert(groups =~= seq![entries]);
    } else {
        assert forall|g: int| 0 <= g < groups.len() implies (#[trigger] groups[g]).len() >= 1 by {
            law_groups_have_two_members(entries, keys, g);
        }
    }
    lemma_tag_groups_weight(entries, keys, one());
    lemma_weight_is_length(entries);
    lemma_total_similar_bound(groups);
}

proof fn lemma_total_similar_bound(groups: Seq<Seq<EntryModel>>)
    requires
        forall|g: int| 0 <= g < groups.len() ==> (#[trigger] groups[g]).len() >= 1,
    ensures
        total_similar(groups) + groups.len() == total_weight(groups, one()),
        total_similar(groups) >= 0,
    decreases groups.len(),
{
    if groups.len() > 0 {
        let rest = groups.drop_last();
        assert forall|g: int| 0 <= g < rest.len() implies (#[trigger] rest[g]).len() >= 1 by {
            assert(rest[g] == groups[g]);
        }
        lemma_total_similar_bound(rest);
        lemma_weight_is_length(groups.last());
        assert(groups.last() == groups[groups.len() - 1]);
    }
}

proof fn lemma_flatten_contains(
    groups: Seq<Seq<EntryModel>>,
    g: int,
    entry: EntryModel,
)
    requires
        0 <= g < groups.len(),
        groups[g].contains(entry),
    ensures
        groups.flatten().contains(entry),
    decreases groups.len(),
{
    let first = groups.first();
    let rest = groups.drop_first().flatten();
    assert(groups.flatten() == first + rest);
    if g == 0 {
        let j = choose|j: int| 0 <= j < first.len() && first[j] == entry;
        assert((first + rest)[j] == entry);
    } else {
        assert(groups.drop_first()[g - 1] == groups[g]);
        lemma_flatten_contains(groups.drop_first(), g - 1, entry);
        let j = choose|j: int| 0 <= j < rest.len() && rest[j] == entry;
        assert((first + rest)[first.len() + j] == entry);
    }
}

/// Of two files that are to be compared, because their titles are similar or because all files are,
/// fingerprints are made.
pub proof fn law_compared_files_are_fingerprinted(
    entries: Seq<EntryModel>,
    only_with_similar_titles: bool,
    a: EntryModel,
    b: EntryModel,
)
    requires
        has_pair(entries, a, b),
        only_with_similar_titles ==> agree(a, b, seq![GroupKey::SimilarTitle]),
    ensures
        files_to_fingerprint(entries, only_with_similar_titles).contains(a),
        files_to_fingerprint(entries, only_with_similar_titles).contains(b),
{
    if only_with_similar_titles {
        let keys = seq![GroupKey::SimilarTitle];
        let groups = tag_groups(entries, keys);
        let large = large_groups(grouped(keyed_by(entries, GroupKey::SimilarTitle)));
        law_agreeing_files_share_a_group(entries, keys, a, b);
        let g = choose|g: int| 0 <= g < groups.len() && has_pair(#[trigger] groups[g], a, b);
        assert(keys.drop_last() =~= Seq::empty());
        let start = seq![entries];
        assert(refined_by(start, keys.drop_last()) == start);
        assert(start.drop_last() =~= Seq::empty());
        assert(refined(start.drop_last(), GroupKey::SimilarTitle) =~= Seq::empty());
        assert(groups =~= large);
        lemma_flatten_contains(large, g, a);
        lemma_flatten_contains(large, g, b);
    }
}

/// Groups and duplicates are counted apart, and together count no more than the files compared;
/// there are duplicates exactly if there are groups.
pub proof fn law_tag_counts(entries: Seq<EntryModel>, keys: Seq<GroupKey>)
    requires
        entries.len() > 0,
        keys.len() > 0,
    ensures
        total_similar(tag_groups(entries, keys)) + tag_groups(entries, keys).len() <= entries.len(),
        total_similar(tag_groups(entries, keys)) > 0 <==> tag_groups(entries, keys).len() > 0,
{
    let groups = tag_groups(entries, keys);
    lemma_tag_group_sizes(entries, keys);
    lemma_tag_groups_weight(entries, keys, one());
    lemma_weight_is_length(entries);
    lemma_total_similar_bound(groups);
    if groups.len() > 0 {
        let n = groups.len() - 1;
        law_groups_have_two_members(entries, keys, n);
        lemma_total_similar_nonnegative(groups, n);
        assert(groups.take(n) =~= groups.drop_last());
    }
}

impl SameMusic {
    /// A search that has not begun. Files are kept, caches are used, and there are no reference
    /// directories, unless that is changed.
    pub fn new(params: SameMusicParameters) -> (r: SameMusic)
        ensures
            r@ == (SameMusicModel {
                common_data: CommonModel {
                    text_messages: MessagesModel {
                        messages: Seq::empty(),
                        warnings: Seq::empty(),
                        errors: Seq::empty(),
                    },
                    reference_directories: Seq::empty(),
                    use_reference_folders: false,
                    use_cache: true,
                    delete_outdated_cache: true,
                    delete_requested: false,
                    stopped_search: false,
                },
                number_of_duplicates: 0,
                number_of_groups: 0,
                music_to_check: Seq::empty(),
                music_entries: Seq::empty(),
                duplicated_music_entries: Seq::empty(),
                duplicated_music_entries_referenced: Seq::empty(),
                params,
            }),
            is_new(r@),
    {
        let r = SameMusic {
            common_data: CommonToolData::new(),
            information: Info::default(),
            music_to_check: SortedMap::new(),
            music_entries: Vec::new(),
            duplicated_music_entries: Vec::new(),
            duplicated_music_entries_referenced: Vec::new(),
            params,
        };
        assert(r@.music_to_check =~= Seq::empty());
        assert(r@.music_entries =~= Seq::empty());
        assert(r@.duplicated_music_entries =~= Seq::empty());
        assert(r@.duplicated_music_entries_referenced =~= Seq::empty());
        r
    }

    /// Takes over what a walk through the directories found.
    pub fn check_files(&mut self, result: DirTraversalResult) -> (r: WorkContinueStatus)
        ensures
            (final(self)@, r) == after_walk(old(self)@, result@),
    {
        match result {
            DirTraversalResult::NoExtensions => WorkContinueStatus::Continue,
            DirTraversalResult::Stopped => WorkContinueStatus::Stop,
            DirTraversalResult::SuccessFiles { file_entries, warnings } => {
                self.music_to_check = entries_to_check(file_entries);
                append_texts(&mut self.common_data.text_messages.warnings, warnings);
                WorkContinueStatus::Continue
            },
        }
    }

    /// Holds the files to check against a cache, and takes over the messages that came with it.
    pub fn load_cache(&mut self, loaded_items: Option<EntryMap>, messages: TextMessages) -> (r:
        LoadedCache)
        ensures
            final(self)@ == after_loading(old(self)@, messages@),
            is_cache_of(old(self)@, loaded_items, r),
    {
        let mut files: EntryMap = SortedMap::new();
        let ghost before = self@;
        std::mem::swap(&mut files, &mut self.music_to_check);
        assert(map_models(self.music_to_check@) =~= Seq::empty());
        if self.common_data.use_cache {
            let loaded = match loaded_items {
                Some(items) => items,
                None => SortedMap::new(),
            };
            assert(loaded_items is None ==> map_models(loaded@) =~= Seq::empty());
            self.common_data.text_messages.extend_with_another_messages(messages);
            let (records_already_cached, non_cached_files_to_check) = extract_loaded_cache(
                &loaded,
                files,
            );
            LoadedCache { loaded, records_already_cached, non_cached_files_to_check }
        } else {
            let loaded: EntryMap = SortedMap::new();
            let records_already_cached: EntryMap = SortedMap::new();
            assert(map_models(loaded@) =~= Seq::empty());
            proof {
                lemma_nothing_cached(before.music_to_check);
            }
            LoadedCache { loaded, records_already_cached, non_cached_files_to_check: files }
        }
    }
}

/// An empty cache has no records.
pub proof fn lemma_nothing_cached(files: Seq<(Seq<char>, EntryModel)>)
    ensures
        cached_part(files, Seq::empty()) == Seq::<(Seq<char>, EntryModel)>::empty(),
    decreases files.len(),
{
    if files.len() > 0 {
        lemma_nothing_cached(files.drop_last());
        assert(!crate::sorted_map::has_key(
            Seq::<(Seq<char>, EntryModel)>::empty(),
            files.last().0,
        ));
    }
}

/// The entries that came of reading files, in their order; files that could not be read are left
/// out.
pub open spec fn readable(results: Seq<Option<EntryModel>>) -> Seq<EntryModel>
    decreases results.len(),
{
    if results.len() == 0 {
        Seq::empty()
    } else {
        match results.last() {
            Some(entry) => readable(results.drop_last()).push(entry),
            None => readable(results.drop_last()),
        }
    }
}

/// The model of what came of reading a file.
pub open spec fn result_model(result: Option<MusicEntry>) -> Option<EntryModel> {
    match result {
        Some(entry) => Some(entry@),
        None => None,
    }
}

/// The models of what came of reading files.
pub open spec fn result_models(results: Seq<Option<MusicEntry>>) -> Seq<Option<EntryModel>> {
    Seq::new(results.len(), |i: int| result_model(results[i]))
}

/// The entries that came of reading files.
fn readable_entries(results: Vec<Option<MusicEntry>>) -> (r: Vec<MusicEntry>)
    ensures
        models(r@) == readable(result_models(results@)),
{
    let ghost all = result_models(results@);
    let mut r: Vec<MusicEntry> = Vec::new();
    assert(models(r@) =~= readable(all.take(0)));
    for result in it: results.into_iter()
        invariant
            it.seq() == results@,
            all == result_models(results@),
            models(r@) == readable(all.take(it.index())),
    {
        let ghost before = models(r@);
        proof {
            let i = it.index();
            assert(all.take(i + 1).drop_last() =~= all.take(i));
            assert(all.take(i + 1).last() == result_model(result));
        }
        if let Some(entry) = result {
            r.push(entry);
            assert(models(r@) =~= before.push(entry@));
        }
    }
    assert(all.take(all.len() as int) =~= all);
    r
}

/// A file with its fingerprint; nothing if there is none.
pub fn with_fingerprint(music_entry: MusicEntry, fingerprint: Option<Vec<u32>>) -> (r: Option<
    MusicEntry,
>)
    ensures
        match fingerprint {
            Some(new) => r is Some && r->0@ == (EntryModel {
                fingerprint: new@,
                ..music_entry@
            }),
            None => r is None,
        },
{
    match fingerprint {
        Some(new) => {
            let mut music_entry = music_entry;
            music_entry.fingerprint = new;
            Some(music_entry)
        },
        None => None,
    }
}

/// How a stage ends that several threads work on: it stops if one of them was stopped, or if
/// stopping was asked for in the end.
pub fn stage_status(check_was_stopped: bool, stop_received: bool) -> (r: WorkContinueStatus)
    ensures
        r == if check_was_stopped || stop_received {
            WorkContinueStatus::Stop
        } else {
            WorkContinueStatus::Continue
        },
{
    if check_was_stopped || stop_received {
        WorkContinueStatus::Stop
    } else {
        WorkContinueStatus::Continue
    }
}

/// What a stage goes on with, unless it is to stop.
pub fn unless_stopped<T>(stop_received: bool, value: T) -> (r: Option<T>)
    ensures
        r == if stop_received {
            None
        } else {
            Some(value)
        },
{
    if stop_received {
        None
    } else {
        Some(value)
    }
}

impl SameMusic {
    /// Whether there are files to compare.
    pub fn has_music_entries(&self) -> (r: bool)
        ensures
            r == (self@.music_entries.len() > 0),
    {
        self.music_entries.len() > 0
    }

    /// What goes to the cache: all that was loaded, and the given files under their paths on top
    /// of it. Nothing if caches are not used.
    pub fn save_cache(&self, vec_file_entry: Vec<MusicEntry>, loaded: EntryMap) -> (r: Option<
        EntryMap,
    >)
        ensures
            r is Some == self@.common_data.use_cache,
            r matches Some(all) ==> map_models(all@) == with_entries(
                map_models(loaded@),
                models(vec_file_entry@),
            ),
    {
        if !self.common_data.use_cache {
            return None;
        }
        let mut all_results = loaded;
        store_entries(&mut all_results, vec_file_entry);
        Some(all_results)
    }

    /// Connects the files that were just read with those from the cache: they are the files to
    /// compare from now on. Returns what goes to the cache, if caches are used.
    pub fn connect_results(
        &mut self,
        results: Vec<Option<MusicEntry>>,
        records_already_cached: EntryMap,
        loaded: EntryMap,
    ) -> (r: Option<EntryMap>)
        ensures
            final(self)@ == with_results(
                old(self)@,
                result_models(results@),
                map_models(records_already_cached@),
            ),
            r is Some == old(self)@.common_data.use_cache,
            r matches Some(all) ==> map_models(all@) == with_entries(
                map_models(loaded@),
                readable(result_models(results@)) + values(map_models(records_already_cached@)),
            ),
    {
        let mut vec_file_entry = readable_entries(results);
        let mut cached = into_values(records_already_cached);
        let ghost read = vec_file_entry@;
        let ghost known = cached@;
        vec_file_entry.append(&mut cached);
        assert(models(vec_file_entry@) =~= models(read) + models(known));
        self.music_entries = clone_entries(&vec_file_entry);
        self.save_cache(vec_file_entry, loaded)
    }

    /// Moves the files that fingerprints are wanted of to the files to check.
    pub fn select_files_to_fingerprint(&mut self)
        ensures
            final(self)@ == with_files_to_fingerprint(old(self)@),
    {
        let mut entries: Vec<MusicEntry> = Vec::new();
        std::mem::swap(&mut entries, &mut self.music_entries);
        assert(models(self.music_entries@) =~= Seq::empty());
        let ghost all = models(entries@);
        let selected_entries = if self.params.compare_fingerprints_only_with_similar_titles {
            let mut groups: Vec<Vec<MusicEntry>> = Vec::new();
            assert(group_models(groups@) =~= Seq::empty());
            push_large_groups(get_entries_grouped_by_title(entries), &mut groups);
            assert(group_models(groups@) =~= large_groups(
                grouped(keyed_by(all, GroupKey::SimilarTitle)),
            ));
            flattened(groups)
        } else {
            entries
        };
        let mut music_to_check: EntryMap = SortedMap::new();
        assert(map_models(music_to_check@) =~= Seq::empty());
        store_entries(&mut music_to_check, selected_entries);
        self.music_to_check = music_to_check;
    }

    /// Begins to read something of the files. Returns whether there are files to read.
    pub fn start_reading(&mut self, kind: ReadingKind) -> (r: bool)
        ensures
            match kind {
                ReadingKind::Tags => r == (old(self)@.music_to_check.len() > 0) && final(self)@
                    == old(self)@,
                ReadingKind::Fingerprints => r == (old(self)@.music_entries.len() > 0)
                    && final(self)@ == if r {
                    with_files_to_fingerprint(old(self)@)
                } else {
                    old(self)@
                },
            },
    {
        match kind {
            ReadingKind::Tags => self.music_to_check.len() > 0,
            ReadingKind::Fingerprints => {
                if self.music_entries.len() == 0 {
                    return false;
                }
                self.select_files_to_fingerprint();
                true
            },
        }
    }

    /// Holds the files to check against a cache. Returns nothing if the search is to stop.
    pub fn choose_files_to_read(
        &mut self,
        loaded_items: Option<EntryMap>,
        messages: TextMessages,
        stop_flag: &Arc<AtomicBool>,
    ) -> (r: Option<LoadedCache>)
        ensures
            final(self)@ == after_loading(old(self)@, messages@),
            r matches Some(cache) ==> is_cache_of(old(self)@, loaded_items, cache),
    {
        let cache = self.load_cache(loaded_items, messages);
        unless_stopped(check_if_stop_received(stop_flag), cache)
    }

    /// Ends a stage of reading, with the messages that came of saving the cache. It stops if the
    /// work was stopped; after fingerprints the request to stop is looked at once more.
    pub fn finish_reading(
        &mut self,
        kind: ReadingKind,
        messages: TextMessages,
        check_was_stopped: bool,
        stop_flag: &Arc<AtomicBool>,
    ) -> (r: WorkContinueStatus)
        ensures
            final(self)@ == with_cache_messages(old(self)@, messages@),
            check_was_stopped ==> r == WorkContinueStatus::Stop,
            kind == ReadingKind::Tags && !check_was_stopped ==> r == WorkContinueStatus::Continue,
    {
        if self.common_data.use_cache {
            self.common_data.text_messages.extend_with_another_messages(messages);
        }
        let stop_received = match kind {
            ReadingKind::Tags => false,
            ReadingKind::Fingerprints => check_if_stop_received(stop_flag),
        };
        stage_status(check_was_stopped, stop_received)
    }

    /// Counts the groups: all files of a group but one are duplicates.
    fn count_groups(&mut self)
        requires
            forall|g: int|
                0 <= g < old(self)@.duplicated_music_entries.len() ==> (#[trigger] old(
                    self,
                )@.duplicated_music_entries[g]).len() >= 1,
            old(self)@.number_of_duplicates + total_similar(old(self)@.duplicated_music_entries)
                <= usize::MAX,
            old(self)@.number_of_groups + old(self)@.duplicated_music_entries.len() <= u64::MAX,
        ensures
            final(self)@ == (SameMusicModel {
                number_of_duplicates: old(self)@.number_of_duplicates + total_similar(
                    old(self)@.duplicated_music_entries,
                ),
                number_of_groups: old(self)@.number_of_groups
                    + old(self)@.duplicated_music_entries.len(),
                ..old(self)@
            }),
    {
        let ghost before = self@;
        let ghost all = self@.duplicated_music_entries;
        let mut duplicates: usize = self.information.number_of_duplicates;
        let mut groups: u64 = self.information.number_of_groups;
        let mut i: usize = 0;
        while i < self.duplicated_music_entries.len()
            invariant
                i <= self.duplicated_music_entries@.len(),
                self@ == before,
                all == group_models(self.duplicated_music_entries@),
                forall|g: int| 0 <= g < all.len() ==> (#[trigger] all[g]).len() >= 1,
                before.number_of_duplicates + total_similar(all) <= usize::MAX,
                before.number_of_groups + all.len() <= u64::MAX,
                duplicates == before.number_of_duplicates + total_similar(all.take(i as int)),
                groups == before.number_of_groups + i,
            decreases self.duplicated_music_entries@.len() - i,
        {
            proof {
                lemma_total_similar_grows(all, i + 1);
                lemma_total_similar_grows(all, i as int);
                assert(all.take(i + 1).drop_last() =~= all.take(i as int));
                assert(all.take(i + 1).last() == all[i as int]);
            }
            duplicates = duplicates + (self.duplicated_music_entries[i].len() - 1);
            groups = groups + 1;
            i = i + 1;
        }
        assert(all.take(all.len() as int) =~= all);
        self.information.number_of_duplicates = duplicates;
        self.information.number_of_groups = groups;
    }

    /// Takes over the groups that a comparison found, counts them unless they are still to be held
    /// against reference folders, and drops the files that were compared. Nothing changes if the
    /// comparison was stopped.
    pub fn take_over_groups(&mut self, found: Option<Vec<Vec<MusicEntry>>>) -> (r:
        WorkContinueStatus)
        requires
            found matches Some(groups) ==> forall|g: int|
                0 <= g < groups@.len() ==> (#[trigger] groups@[g])@.len() >= 1,
            found matches Some(groups) ==> old(self)@.common_data.use_reference_folders || (old(
                self,
            )@.number_of_duplicates + total_similar(group_models(groups@)) <= usize::MAX && old(
                self,
            )@.number_of_groups + groups@.len() <= u64::MAX),
        ensures
            match found {
                Some(groups) => r == WorkContinueStatus::Continue && final(self)@ == with_groups(
                    old(self)@,
                    group_models(groups@),
                ),
                None => r == WorkContinueStatus::Stop && final(self)@ == old(self)@,
            },
    {
        match found {
            Some(groups) => {
                proof {
                    assert forall|g: int| 0 <= g < group_models(groups@).len() implies (
                    #[trigger] group_models(groups@)[g]).len() >= 1 by {
                        assert(groups@[g]@.len() >= 1);
                    }
                }
                self.duplicated_music_entries = groups;
                if !self.common_data.use_reference_folders {
                    self.count_groups();
                }
                self.music_entries.clear();
                assert(self@.music_entries =~= Seq::empty());
                WorkContinueStatus::Continue
            },
            None => WorkContinueStatus::Stop,
        }
    }

    /// Finds the groups of files that agree on all tags asked for. Before each tag it is asked
    /// whether to stop, and a single yes ends the search; then nothing changes.
    pub fn compare_tags<F: Fn() -> bool>(
        &mut self,
        stop: &F,
        items_counter: &Arc<AtomicUsize>,
    ) -> (r: WorkContinueStatus)
        requires
            call_requires(*stop, ()),
            old(self)@.common_data.use_reference_folders || old(self)@.number_of_duplicates + old(
                self,
            )@.music_entries.len() <= usize::MAX,
            old(self)@.common_data.use_reference_folders || old(self)@.number_of_groups + old(
                self,
            )@.music_entries.len() <= u64::MAX,
        ensures
            old(self)@.music_entries.len() == 0 || selected(old(self)@.params).len() == 0 || never(
                *stop,
            ) ==> r == WorkContinueStatus::Continue,
            old(self)@.music_entries.len() > 0 && selected(old(self)@.params).len() > 0 && always(
                *stop,
            ) ==> r == WorkContinueStatus::Stop,
            (final(self)@, r) == compared_tags(old(self)@, r == WorkContinueStatus::Stop),
    {
        if self.music_entries.len() == 0 {
            return WorkContinueStatus::Continue;
        }
        let ghost before = self@;
        let keys = selected_keys(&self.params);
        let found = find_tag_groups(
            clone_entries(&self.music_entries),
            &keys,
            stop,
            items_counter,
        );
        proof {
            lemma_tag_group_sizes(before.music_entries, keys@);
            if found is Some {
                let groups = found->0;
                assert forall|g: int| 0 <= g < groups@.len() implies (
                #[trigger] groups@[g])@.len() >= 1 by {
                    assert(group_models(groups@)[g].len() == groups@[g]@.len());
                }
            }
        }
        self.take_over_groups(found)
    }

    /// Finds the groups of files that agree on all tags asked for, as [`SameMusic::compare_tags`]
    /// does, and stops when the flag is set.
    pub fn check_for_duplicate_tags(
        &mut self,
        stop_flag: &Arc<AtomicBool>,
        items_counter: &Arc<AtomicUsize>,
    ) -> (r: WorkContinueStatus)
        requires
            old(self)@.common_data.use_reference_folders || old(self)@.number_of_duplicates + old(
                self,
            )@.music_entries.len() <= usize::MAX,
            old(self)@.common_data.use_reference_folders || old(self)@.number_of_groups + old(
                self,
            )@.music_entries.len() <= u64::MAX,
        ensures
            old(self)@.music_entries.len() == 0 || selected(old(self)@.params).len() == 0 ==> r
                == WorkContinueStatus::Continue,
            (final(self)@, r) == compared_tags(old(self)@, r == WorkContinueStatus::Stop),
    {
        let stop = || -> bool { check_if_stop_received(stop_flag) };
        self.compare_tags(&stop, items_counter)
    }

    /// Takes the files to compare and decides which of them are compared by sound with which
    /// others. The reference paths are those of the files that lie in a reference folder.
    pub fn split_fingerprints_to_check(&mut self, reference_paths: &Vec<String>) -> (r: Vec<
        GroupedFilesToCheck,
    >)
        ensures
            final(self)@ == (SameMusicModel { music_entries: Seq::empty(), ..old(self)@ }),
            check_models(r@) == groups_to_check(
                old(self)@.music_entries,
                old(self)@.params.compare_fingerprints_only_with_similar_titles,
                old(self)@.common_data.use_reference_folders,
                texts(reference_paths@).to_set(),
            ),
            base_file_count(check_models(r@)) <= old(self)@.music_entries.len(),
            compared_file_count(check_models(r@)) <= old(self)@.music_entries.len(),
    {
        let mut entries: Vec<MusicEntry> = Vec::new();
        std::mem::swap(&mut entries, &mut self.music_entries);
        assert(models(self.music_entries@) =~= Seq::empty());
        proof {
            lemma_groups_to_check_sizes(
                models(entries@),
                self.params.compare_fingerprints_only_with_similar_titles,
                self.common_data.use_reference_folders,
                texts(reference_paths@).to_set(),
            );
        }
        split_files_to_check(
            entries,
            self.params.compare_fingerprints_only_with_similar_titles,
            self.common_data.use_reference_folders,
            reference_paths,
        )
    }

    /// Finds the groups of files that sound alike among those to be compared. Before each base file
    /// it is asked whether to stop, and a single yes ends the search; then nothing changes but the
    /// errors that were met.
    pub fn compare_groups<F: Fn() -> bool>(
        &mut self,
        grouped_files_to_check: Vec<GroupedFilesToCheck>,
        stop: &F,
        items_counter: &Arc<AtomicUsize>,
    ) -> (r: WorkContinueStatus)
        requires
            call_requires(*stop, ()),
            old(self)@.common_data.use_reference_folders || old(self)@.number_of_duplicates
                + compared_file_count(check_models(grouped_files_to_check@)) <= usize::MAX,
            old(self)@.common_data.use_reference_folders || old(self)@.number_of_groups
                + base_file_count(check_models(grouped_files_to_check@)) <= u64::MAX,
        ensures
            base_file_count(check_models(grouped_files_to_check@)) == 0 || never(*stop) ==> r
                == WorkContinueStatus::Continue,
            base_file_count(check_models(grouped_files_to_check@)) > 0 && always(*stop) ==> r
                == WorkContinueStatus::Stop,
            match r {
                WorkContinueStatus::Continue => final(self)@ == after_sound_search(
                    old(self)@,
                    check_models(grouped_files_to_check@),
                ),
                WorkContinueStatus::Stop => exists|g: int, k: int|
                    is_step_of(check_models(grouped_files_to_check@), g, k) && final(self)@
                        == with_errors(
                        old(self)@,
                        old(self)@.common_data.text_messages.errors + #[trigger] errors_until(
                            check_models(grouped_files_to_check@),
                            thresholds_of(old(self)@.params),
                            g,
                            k,
                        ),
                    ),
            },
    {
        let ghost before = self@;
        let ghost checks = check_models(grouped_files_to_check@);
        let thresholds = Thresholds {
            minimum_segment_duration: self.params.minimum_segment_duration,
            maximum_difference: self.params.maximum_difference,
        };
        let found = find_sound_groups(
            grouped_files_to_check,
            thresholds,
            stop,
            items_counter,
            &mut self.common_data.text_messages.errors,
        );
        proof {
            lemma_sound_search_sizes(checks, thresholds);
            if found is Some {
                let groups = found->0;
                assert forall|g: int| 0 <= g < groups@.len() implies (
                #[trigger] groups@[g])@.len() >= 1 by {
                    assert(group_models(groups@)[g].len() == groups@[g]@.len());
                }
            } else {
                let (g, k) = choose|g: int, k: int|
                    0 <= g < grouped_files_to_check@.len() && 0 <= k
                        < grouped_files_to_check@[g].base_files@.len()
                        && self@.common_data.text_messages.errors
                        == before.common_data.text_messages.errors + #[trigger] errors_until(
                        checks,
                        thresholds,
                        g,
                        k,
                    );
                assert(checks[g] == grouped_files_to_check@[g]@);
                assert(is_step_of(checks, g, k));
                assert(self@ == with_errors(
                    before,
                    before.common_data.text_messages.errors + errors_until(
                        checks,
                        thresholds,
                        g,
                        k,
                    ),
                ));
            }
        }
        self.take_over_groups(found)
    }

    /// How many base files a search by sound has to go through. The reference paths are those of the
    /// files that lie in a reference folder.
    pub fn get_base_files_number(&self, reference_paths: &Vec<String>) -> (r: usize)
        ensures
            r == base_file_count(checks_of(self@, texts(reference_paths@).to_set())),
    {
        proof {
            assert(self@.music_entries.len() == self.music_entries.len());
            lemma_groups_to_check_sizes(
                self@.music_entries,
                self.params.compare_fingerprints_only_with_similar_titles,
                self.common_data.use_reference_folders,
                texts(reference_paths@).to_set(),
            );
        }
        let groups = split_files_to_check(
            clone_entries(&self.music_entries),
            self.params.compare_fingerprints_only_with_similar_titles,
            self.common_data.use_reference_folders,
            reference_paths,
        );
        base_files_number(&groups)
    }

    /// Finds the groups of files that sound alike. Without files to compare nothing changes. Before
    /// each base file it is asked whether to stop, and a single yes ends the search; then no groups
    /// are found, but the errors that were met are kept and the files to compare are gone.
    pub fn compare_sounds<F: Fn() -> bool>(
        &mut self,
        reference_paths: &Vec<String>,
        stop: &F,
        items_counter: &Arc<AtomicUsize>,
    ) -> (r: WorkContinueStatus)
        requires
            call_requires(*stop, ()),
            old(self)@.common_data.use_reference_folders || old(self)@.number_of_duplicates + old(
                self,
            )@.music_entries.len() <= usize::MAX,
            old(self)@.common_data.use_reference_folders || old(self)@.number_of_groups + old(
                self,
            )@.music_entries.len() <= u64::MAX,
        ensures
            old(self)@.music_entries.len() == 0 || base_file_count(
                checks_of(old(self)@, texts(reference_paths@).to_set()),
            ) == 0 || never(*stop) ==> r == WorkContinueStatus::Continue,
            old(self)@.music_entries.len() > 0 && base_file_count(
                checks_of(old(self)@, texts(reference_paths@).to_set()),
            ) > 0 && always(*stop) ==> r == WorkContinueStatus::Stop,
            is_sound_comparison(
                old(self)@,
                texts(reference_paths@).to_set(),
                (final(self)@, r),
            ),
    {
        let ghost before = self@;
        let ghost paths = texts(reference_paths@).to_set();
        let ghost checks = checks_of(before, paths);
        if self.music_entries.len() == 0 {
            assert((self@, WorkContinueStatus::Continue) == compared_sounds(before, paths, None));
            return WorkContinueStatus::Continue;
        }
        let groups = self.split_fingerprints_to_check(reference_paths);
        let ghost middle = self@;
        let status = self.compare_groups(groups, stop, items_counter);
        proof {
            if status == WorkContinueStatus::Stop {
                let (g, k) = choose|g: int, k: int|
                    is_step_of(checks, g, k) && self@ == with_errors(
                        middle,
                        middle.common_data.text_messages.errors + #[trigger] errors_until(
                            checks,
                            thresholds_of(middle.params),
                            g,
                            k,
                        ),
                    );
                assert(self@ == stopped_at(before, checks, g, k));
                assert((self@, status) == compared_sounds(before, paths, Some((g, k))));
            } else {
                assert((self@, status) == compared_sounds(before, paths, None));
            }
        }
        status
    }

    /// Finds the groups of files that sound alike, as [`SameMusic::compare_sounds`] does, and stops
    /// when the flag is set.
    pub fn check_for_duplicate_fingerprints(
        &mut self,
        reference_paths: &Vec<String>,
        stop_flag: &Arc<AtomicBool>,
        items_counter: &Arc<AtomicUsize>,
    ) -> (r: WorkContinueStatus)
        requires
            old(self)@.common_data.use_reference_folders || old(self)@.number_of_duplicates + old(
                self,
            )@.music_entries.len() <= usize::MAX,
            old(self)@.common_data.use_reference_folders || old(self)@.number_of_groups + old(
                self,
            )@.music_entries.len() <= u64::MAX,
        ensures
            old(self)@.music_entries.len() == 0 || base_file_count(
                checks_of(old(self)@, texts(reference_paths@).to_set()),
            ) == 0 ==> r == WorkContinueStatus::Continue,
            is_sound_comparison(
                old(self)@,
                texts(reference_paths@).to_set(),
                (final(self)@, r),
            ),
    {
        let stop = || -> bool { check_if_stop_received(stop_flag) };
        self.compare_sounds(reference_paths, &stop, items_counter)
    }

    /// With reference folders, hands the groups out, so that each can be held against them.
    pub fn take_groups_to_filter(&mut self) -> (r: Option<Vec<Vec<MusicEntry>>>)
        ensures
            match r {
                Some(groups) => old(self)@.common_data.use_reference_folders && group_models(
                    groups@,
                ) == old(self)@.duplicated_music_entries && final(self)@ == without_groups(old(self)@),
                None => !old(self)@.common_data.use_reference_folders && final(self)@ == old(
                    self,
                )@,
            },
    {
        if !self.common_data.use_reference_folders {
            return None;
        }
        let mut groups: Vec<Vec<MusicEntry>> = Vec::new();
        std::mem::swap(&mut groups, &mut self.duplicated_music_entries);
        assert(group_models(self.duplicated_music_entries@) =~= Seq::empty());
        Some(groups)
    }

    /// Takes over reference files with their duplicates elsewhere, and counts them.
    pub fn set_referenced(&mut self, referenced: Vec<(MusicEntry, Vec<MusicEntry>)>)
        requires
            old(self)@.number_of_duplicates + total_referenced(referenced_models(referenced@))
                <= usize::MAX,
            old(self)@.number_of_groups + referenced@.len() <= u64::MAX,
        ensures
            final(self)@ == with_referenced(old(self)@, referenced_models(referenced@)),
    {
        let ghost before = self@;
        let ghost all = referenced_models(referenced@);
        let mut duplicates: usize = self.information.number_of_duplicates;
        let mut groups: u64 = self.information.number_of_groups;
        let mut i: usize = 0;
        while i < referenced.len()
            invariant
                i <= referenced@.len(),
                all == referenced_models(referenced@),
                before.number_of_duplicates + total_referenced(all) <= usize::MAX,
                before.number_of_groups + all.len() <= u64::MAX,
                duplicates == before.number_of_duplicates + total_referenced(all.take(i as int)),
                groups == before.number_of_groups + i,
            decreases referenced@.len() - i,
        {
            proof {
                lemma_total_referenced_grows(all, i + 1);
                assert(all.take(i + 1).drop_last() =~= all.take(i as int));
                assert(all.take(i + 1).last() == all[i as int]);
            }
            duplicates = duplicates + referenced[i].1.len();
            groups = groups + 1;
            i = i + 1;
        }
        assert(all.take(all.len() as int) =~= all);
        self.information.number_of_duplicates = duplicates;
        self.information.number_of_groups = groups;
        self.duplicated_music_entries_referenced = referenced;
    }

    /// The files that may be deleted; nothing if no deletion is asked for.
    pub fn files_to_delete(&self) -> (r: Option<Vec<Vec<MusicEntry>>>)
        ensures
            match r {
                Some(groups) => self@.common_data.delete_requested && group_models(groups@)
                    == self@.duplicated_music_entries,
                None => !self@.common_data.delete_requested,
            },
    {
        if self.common_data.delete_requested {
            Some(clone_groups(&self.duplicated_music_entries))
        } else {
            None
        }
    }

    /// Takes over what came of deleting the files that [`SameMusic::files_to_delete`] gave. Nothing
    /// changes if no deletion is asked for.
    pub fn delete_files(&mut self, messages: TextMessages, status: WorkContinueStatus) -> (r:
        WorkContinueStatus)
        ensures
            (final(self)@, r) == after_deleting(old(self)@, (messages@, status)),
    {
        if !self.common_data.delete_requested {
            return WorkContinueStatus::Continue;
        }
        self.common_data.text_messages.extend_with_another_messages(messages);
        status
    }

    pub fn get_duplicated_music_entries(&self) -> (r: &Vec<Vec<MusicEntry>>)
        ensures
            group_models(r@) == self@.duplicated_music_entries,
    {
        &self.duplicated_music_entries
    }

    pub fn get_params(&self) -> (r: &SameMusicParameters)
        ensures
            *r == self@.params,
    {
        &self.params
    }

    pub fn get_information(&self) -> (r: &Info)
        ensures
            r.number_of_duplicates == self@.number_of_duplicates,
            r.number_of_groups == self@.number_of_groups,
    {
        &self.information
    }

    pub fn get_similar_music_referenced(&self) -> (r: &Vec<(MusicEntry, Vec<MusicEntry>)>)
        ensures
            referenced_models(r@) == self@.duplicated_music_entries_referenced,
    {
        &self.duplicated_music_entries_referenced
    }

    /// The number of groups: of reference files if there are reference folders.
    pub fn get_number_of_base_duplicated_files(&self) -> (r: usize)
        ensures
            r == if self@.common_data.use_reference_folders {
                self@.duplicated_music_entries_referenced.len()
            } else {
                self@.duplicated_music_entries.len()
            },
    {
        if self.common_data.use_reference_folders {
            self.duplicated_music_entries_referenced.len()
        } else {
            self.duplicated_music_entries.len()
        }
    }

    pub fn get_use_reference(&self) -> (r: bool)
        ensures
            r == self@.common_data.use_reference_folders,
    {
        self.common_data.use_reference_folders
    }

    /// The files to compare.
    pub fn get_music_entries(&self) -> (r: &Vec<MusicEntry>)
        ensures
            models(r@) == self@.music_entries,
    {
        &self.music_entries
    }

    /// The files whose tags or fingerprints are wanted, under their paths.
    pub fn get_music_to_check(&self) -> (r: &EntryMap)
        ensures
            map_models(r@) == self@.music_to_check,
    {
        &self.music_to_check
    }

    pub fn get_cd(&self) -> (r: &CommonToolData)
        ensures
            r@ == self@.common_data,
    {
        &self.common_data
    }

    /// Changes the settings.
    pub fn get_cd_mut(&mut self) -> (r: &mut CommonToolData)
        ensures
            (*r)@ == old(self)@.common_data,
            final(self)@ == (SameMusicModel { common_data: (*final(r))@, ..old(self)@ }),
    {
        &mut self.common_data
    }

    pub fn get_check_method(&self) -> (r: CheckingMethod)
        ensures
            r == self@.params.check_type,
    {
        self.params.check_type
    }

    pub fn found_any_broken_files(&self) -> (r: bool)
        ensures
            r == (self@.number_of_duplicates > 0),
    {
        self.information.number_of_duplicates > 0
    }
}

} // verus!
