use czkawka::cache::EntryMap;
use czkawka::common::TextMessages;
use czkawka::ieee::{Binary32, Binary64};
use czkawka::music_entry::{FileEntry, MusicEntry};
use czkawka::params::{CheckingMethod, MusicSimilarity, SameMusicParameters, WorkContinueStatus};
use czkawka::same_music::{
    stage_status, unless_stopped, with_fingerprint, DirTraversalResult, Info, ReadingKind,
    SameMusic,
};
use czkawka::search_stages::SearchStage;
use czkawka::sorted_map::SortedMap;
use std::sync::atomic::{AtomicBool, AtomicUsize};
use std::sync::Arc;

fn parameters(method: CheckingMethod, only_similar_titles: bool) -> SameMusicParameters {
    SameMusicParameters::new(
        MusicSimilarity::new(MusicSimilarity::TRACK_TITLE),
        false,
        method,
        Binary32 { bits: 10.0f32.to_bits() },
        Binary64 { bits: 2.0f64.to_bits() },
        only_similar_titles,
    )
}

fn found(path: &str) -> FileEntry {
    FileEntry { path: path.to_string(), size: 5, modified_date: 6 }
}

fn titled(path: &str, title: &str) -> MusicEntry {
    let mut entry = found(path).into_music_entry();
    entry.track_title = title.to_string();
    entry
}

fn map(entries: Vec<MusicEntry>) -> EntryMap {
    let mut map: EntryMap = SortedMap::new();
    for entry in entries {
        map.insert(entry.path.clone(), entry);
    }
    map
}

fn noise(seed: u32, length: usize) -> Vec<u32> {
    let mut x = seed;
    (0..length)
        .map(|_| {
            x = x.wrapping_mul(1_664_525).wrapping_add(1_013_904_223);
            x ^ (x >> 16)
        })
        .collect()
}

fn messages(text: &str) -> TextMessages {
    let mut messages = TextMessages::new();
    messages.messages.push(text.to_string());
    messages
}

fn flags(stop: bool) -> (Arc<AtomicBool>, Arc<AtomicUsize>) {
    (Arc::new(AtomicBool::new(stop)), Arc::new(AtomicUsize::new(0)))
}

fn keys(map: EntryMap) -> Vec<String> {
    map.into_pairs().into_iter().map(|(key, _)| key).collect()
}

fn paths(groups: &[Vec<MusicEntry>]) -> Vec<Vec<&str>> {
    groups.iter().map(|g| g.iter().map(|e| e.path.as_str()).collect()).collect()
}

/// A search whose files to compare are the given ones.
fn search_with(params: SameMusicParameters, entries: Vec<MusicEntry>) -> SameMusic {
    let mut search = SameMusic::new(params);
    search.connect_results(entries.into_iter().map(Some).collect(), map(vec![]), map(vec![]));
    search
}

#[test]
fn a_new_search_has_found_nothing() {
    let search = SameMusic::new(parameters(CheckingMethod::AudioTags, false));
    assert!(search.get_duplicated_music_entries().is_empty());
    assert!(search.get_similar_music_referenced().is_empty());
    assert_eq!(search.get_information().number_of_duplicates, 0);
    assert_eq!(search.get_information().number_of_groups, 0);
    assert_eq!(search.get_number_of_base_duplicated_files(), 0);
    assert!(!search.get_use_reference());
    assert!(!search.found_any_broken_files());
    assert!(!search.has_music_entries());
    assert_eq!(search.get_check_method(), CheckingMethod::AudioTags);
    assert!(!search.get_params().approximate_comparison);
    assert!(search.get_cd().use_cache);
    assert!(!search.get_cd().stopped_search);
    assert_eq!(Info::default().number_of_groups, 0);
}

#[test]
fn found_files_are_to_be_checked() {
    let mut search = SameMusic::new(parameters(CheckingMethod::AudioTags, false));
    assert_eq!(search.check_files(DirTraversalResult::NoExtensions), WorkContinueStatus::Continue);
    assert_eq!(search.check_files(DirTraversalResult::Stopped), WorkContinueStatus::Stop);
    assert!(search.get_music_to_check().is_empty());
    let mut again = found("a");
    again.size = 77;
    let result = DirTraversalResult::SuccessFiles {
        file_entries: vec![found("b"), found("a"), again],
        warnings: vec!["careful".to_string()],
    };
    assert_eq!(search.check_files(result), WorkContinueStatus::Continue);
    assert_eq!(search.get_music_to_check().len(), 2);
    assert_eq!(search.get_music_to_check().get("a").unwrap().size, 77);
    assert_eq!(search.get_cd().text_messages.warnings, vec!["careful"]);
}

#[test]
fn a_cache_spares_reading() {
    let mut search = SameMusic::new(parameters(CheckingMethod::AudioTags, false));
    let result = DirTraversalResult::SuccessFiles {
        file_entries: vec![found("a"), found("b"), found("c")],
        warnings: vec![],
    };
    search.check_files(result);
    let (stop, _) = flags(false);
    assert!(search.start_reading(ReadingKind::Tags));
    let cached = map(vec![titled("b", "Cached"), titled("z", "Gone")]);
    let cache = search.choose_files_to_read(Some(cached), messages("loaded"), &stop).unwrap();
    assert!(search.get_music_to_check().is_empty());
    assert_eq!(cache.records_already_cached.len(), 1);
    assert_eq!(cache.records_already_cached.get("b").unwrap().track_title, "Cached");
    let to_read: Vec<String> = keys(cache.non_cached_files_to_check);
    assert_eq!(to_read, vec!["a", "c"]);

    let results = vec![Some(titled("a", "Read")), None];
    let saved =
        search.connect_results(results, cache.records_already_cached, cache.loaded).unwrap();
    let titles: Vec<&str> =
        search.get_music_entries().iter().map(|e| e.track_title.as_str()).collect();
    assert_eq!(titles, vec!["Read", "Cached"]);
    assert_eq!(saved.get("z").unwrap().track_title, "Gone");
    assert_eq!(keys(saved), vec!["a", "b", "z"]);
    assert_eq!(
        search.finish_reading(ReadingKind::Tags, messages("saved"), false, &stop),
        WorkContinueStatus::Continue
    );
    assert_eq!(search.get_cd().text_messages.messages, vec!["loaded", "saved"]);
}

#[test]
fn what_was_saved_is_found_again() {
    let params = parameters(CheckingMethod::AudioTags, false);
    let mut search = SameMusic::new(params);
    let saved = search
        .connect_results(
            vec![Some(titled("a", "First")), Some(titled("a", "Last")), Some(titled("b", "B"))],
            map(vec![]),
            map(vec![titled("b", "Old"), titled("c", "Kept")]),
        )
        .unwrap();
    let result = DirTraversalResult::SuccessFiles {
        file_entries: vec![found("a"), found("b"), found("c"), found("d")],
        warnings: vec![],
    };
    search.check_files(result);
    let cache = search.load_cache(Some(saved), TextMessages::new());
    assert_eq!(cache.records_already_cached.get("a").unwrap().track_title, "Last");
    assert_eq!(cache.records_already_cached.get("b").unwrap().track_title, "B");
    assert_eq!(cache.records_already_cached.get("c").unwrap().track_title, "Kept");
    assert_eq!(keys(cache.non_cached_files_to_check), vec!["d"]);
}

#[test]
fn without_a_cache_everything_is_read() {
    let mut search = SameMusic::new(parameters(CheckingMethod::AudioTags, false));
    search.get_cd_mut().use_cache = false;
    let result =
        DirTraversalResult::SuccessFiles { file_entries: vec![found("a")], warnings: vec![] };
    search.check_files(result);
    let cached = map(vec![titled("a", "Cached")]);
    let cache = search.load_cache(Some(cached), messages("unused"));
    assert!(cache.loaded.is_empty());
    assert!(cache.records_already_cached.is_empty());
    assert_eq!(cache.non_cached_files_to_check.len(), 1);
    assert!(search.get_cd().text_messages.messages.is_empty());
    let saved = search.connect_results(
        vec![Some(titled("a", "Read"))],
        cache.records_already_cached,
        cache.loaded,
    );
    assert!(saved.is_none());
    assert_eq!(search.get_music_entries().len(), 1);
}

#[test]
fn reading_can_be_stopped() {
    let (stop, _) = flags(true);
    let (go_on, _) = flags(false);
    let mut search = SameMusic::new(parameters(CheckingMethod::AudioTags, false));
    assert!(!search.start_reading(ReadingKind::Tags));
    assert!(!search.start_reading(ReadingKind::Fingerprints));
    assert!(search.choose_files_to_read(None, TextMessages::new(), &stop).is_none());
    assert_eq!(
        search.finish_reading(ReadingKind::Tags, TextMessages::new(), true, &go_on),
        WorkContinueStatus::Stop
    );
    // Only fingerprints look at the request once more.
    assert_eq!(
        search.finish_reading(ReadingKind::Tags, TextMessages::new(), false, &stop),
        WorkContinueStatus::Continue
    );
    assert_eq!(
        search.finish_reading(ReadingKind::Fingerprints, TextMessages::new(), false, &stop),
        WorkContinueStatus::Stop
    );
    assert_eq!(
        search.finish_reading(ReadingKind::Fingerprints, TextMessages::new(), false, &go_on),
        WorkContinueStatus::Continue
    );
    assert_eq!(stage_status(false, true), WorkContinueStatus::Stop);
    assert_eq!(unless_stopped(false, 7), Some(7));
    assert_eq!(unless_stopped(true, 7), None);
}

#[test]
fn fingerprints_are_wanted_of_files_with_similar_titles() {
    let entries = vec![
        titled("1", "Song (a)"),
        titled("2", "Lonely"),
        titled("3", "Song [b]"),
        titled("4", ""),
    ];
    let mut search =
        search_with(parameters(CheckingMethod::AudioContent, true), entries.clone());
    assert!(search.start_reading(ReadingKind::Fingerprints));
    assert!(!search.has_music_entries());
    assert_eq!(search.get_music_to_check().len(), 2);
    assert!(search.get_music_to_check().contains_key("1"));
    assert!(search.get_music_to_check().contains_key("3"));

    let mut search = search_with(parameters(CheckingMethod::AudioContent, false), entries);
    assert!(search.start_reading(ReadingKind::Fingerprints));
    assert_eq!(search.get_music_to_check().len(), 4);
}

#[test]
fn files_without_fingerprint_are_dropped() {
    assert!(with_fingerprint(titled("a", "T"), None).is_none());
    let entry = with_fingerprint(titled("a", "T"), Some(vec![1, 2])).unwrap();
    assert_eq!(entry.fingerprint, vec![1, 2]);
    assert_eq!(entry.track_title, "T");
}

#[test]
fn duplicates_by_tags_are_counted() {
    let mut search = search_with(
        parameters(CheckingMethod::AudioTags, false),
        vec![titled("1", "a"), titled("2", "b"), titled("3", "A"), titled("4", " a ")],
    );
    let (stop, counter) = flags(false);
    assert_eq!(search.check_for_duplicate_tags(&stop, &counter), WorkContinueStatus::Continue);
    assert_eq!(paths(search.get_duplicated_music_entries()), vec![vec!["1", "3", "4"]]);
    assert_eq!(search.get_information().number_of_duplicates, 2);
    assert_eq!(search.get_information().number_of_groups, 1);
    assert_eq!(search.get_number_of_base_duplicated_files(), 1);
    assert!(search.found_any_broken_files());
    assert!(!search.has_music_entries());
    assert!(search.take_groups_to_filter().is_none());
    // With nothing left to compare, nothing changes.
    assert_eq!(search.check_for_duplicate_tags(&stop, &counter), WorkContinueStatus::Continue);
    assert_eq!(search.get_information().number_of_groups, 1);
}

#[test]
fn only_a_known_bitrate_counts() {
    let with_bitrate = |path: &str, bitrate: u32| {
        let mut entry = titled(path, "");
        entry.bitrate = bitrate;
        entry
    };
    let params = SameMusicParameters::new(
        MusicSimilarity::new(MusicSimilarity::BITRATE),
        false,
        CheckingMethod::AudioTags,
        Binary32 { bits: 10.0f32.to_bits() },
        Binary64 { bits: 2.0f64.to_bits() },
        false,
    );
    let mut search = search_with(
        params,
        vec![
            with_bitrate("a", 0),
            with_bitrate("b", 0),
            with_bitrate("c", 320),
            with_bitrate("d", 320),
            with_bitrate("e", 320),
        ],
    );
    let (_, counter) = flags(false);
    assert_eq!(search.compare_tags(&|| false, &counter), WorkContinueStatus::Continue);
    assert_eq!(paths(search.get_duplicated_music_entries()), vec![vec!["c", "d", "e"]]);
    assert_eq!(search.get_information().number_of_duplicates, 2);
    assert_eq!(search.get_information().number_of_groups, 1);
    assert!(!search.has_music_entries());
}

#[test]
fn only_titles_and_artists_are_compared_approximately() {
    let with_genre = |path: &str, title: &str, genre: &str| {
        let mut entry = titled(path, title);
        entry.genre = genre.to_string();
        entry
    };
    let params = SameMusicParameters::new(
        MusicSimilarity::new(MusicSimilarity::TRACK_TITLE | MusicSimilarity::GENRE),
        true,
        CheckingMethod::AudioTags,
        Binary32 { bits: 10.0f32.to_bits() },
        Binary64 { bits: 2.0f64.to_bits() },
        false,
    );
    let mut search = search_with(
        params,
        vec![
            with_genre("a", "Song (live)", "Rock"),
            with_genre("b", "song", "rock"),
            with_genre("c", "SONG", "Rock (live)"),
        ],
    );
    let (stop, counter) = flags(false);
    assert_eq!(search.check_for_duplicate_tags(&stop, &counter), WorkContinueStatus::Continue);
    assert_eq!(paths(search.get_duplicated_music_entries()), vec![vec!["a", "b"]]);
    assert_eq!(search.get_information().number_of_duplicates, 1);
    assert_eq!(search.get_information().number_of_groups, 1);
}

#[test]
fn found_groups_are_taken_over() {
    let params = parameters(CheckingMethod::AudioTags, false);
    let mut search = search_with(params, vec![titled("1", "a")]);
    assert_eq!(search.take_over_groups(None), WorkContinueStatus::Stop);
    assert!(search.has_music_entries());
    let groups = vec![vec![titled("1", "a"), titled("2", "a")], vec![titled("3", "b")]];
    assert_eq!(search.take_over_groups(Some(groups)), WorkContinueStatus::Continue);
    assert_eq!(search.get_information().number_of_groups, 2);
    assert_eq!(search.get_information().number_of_duplicates, 1);
    assert!(!search.has_music_entries());
}

#[test]
fn a_stopped_comparison_changes_nothing() {
    let mut search = search_with(
        parameters(CheckingMethod::AudioTags, false),
        vec![titled("1", "a"), titled("2", "a")],
    );
    let (stop, counter) = flags(true);
    assert_eq!(search.check_for_duplicate_tags(&stop, &counter), WorkContinueStatus::Stop);
    assert!(search.get_duplicated_music_entries().is_empty());
    assert_eq!(search.get_music_entries().len(), 2);
}

#[test]
fn duplicates_by_sound_are_counted() {
    let heard = |path: &str, seed: u32| {
        with_fingerprint(titled(path, "Song"), Some(noise(seed, 200))).unwrap()
    };
    let mut search = search_with(
        parameters(CheckingMethod::AudioContent, true),
        vec![heard("1", 1), heard("2", 2), heard("3", 1)],
    );
    let (stop, counter) = flags(false);
    assert_eq!(search.get_base_files_number(&vec![]), 3);
    assert_eq!(
        search.check_for_duplicate_fingerprints(&vec![], &stop, &counter),
        WorkContinueStatus::Continue
    );
    assert!(!search.has_music_entries());
    assert_eq!(paths(search.get_duplicated_music_entries()), vec![vec!["3", "1"]]);
    assert_eq!(search.get_information().number_of_duplicates, 1);
    assert_eq!(search.get_information().number_of_groups, 1);
    // With nothing left to compare, earlier groups are kept.
    assert_eq!(
        search.check_for_duplicate_fingerprints(&vec![], &stop, &counter),
        WorkContinueStatus::Continue
    );
    assert_eq!(paths(search.get_duplicated_music_entries()), vec![vec!["3", "1"]]);
    assert_eq!(search.get_information().number_of_groups, 1);
}

#[test]
fn files_to_compare_by_sound_are_split_off() {
    let mut search = search_with(
        parameters(CheckingMethod::AudioContent, true),
        vec![titled("1", "Song"), titled("2", "Other"), titled("3", "Song")],
    );
    let groups = search.split_fingerprints_to_check(&vec![]);
    assert_eq!(groups.len(), 1);
    assert!(!search.has_music_entries());
    let (_, counter) = flags(false);
    assert_eq!(
        search.compare_groups(groups, &|| false, &counter),
        WorkContinueStatus::Continue
    );
    assert!(search.get_duplicated_music_entries().is_empty());
}

#[test]
fn a_stopped_comparison_by_sound_finds_nothing() {
    let heard = |path: &str| with_fingerprint(titled(path, "Song"), Some(noise(1, 200))).unwrap();
    let mut search = search_with(
        parameters(CheckingMethod::AudioContent, false),
        vec![heard("1"), heard("2")],
    );
    let (stop, counter) = flags(true);
    assert_eq!(
        search.check_for_duplicate_fingerprints(&vec![], &stop, &counter),
        WorkContinueStatus::Stop
    );
    assert!(search.get_duplicated_music_entries().is_empty());
    assert!(!search.has_music_entries());
}

#[test]
fn reference_folders_change_what_is_counted() {
    let mut search = search_with(
        parameters(CheckingMethod::AudioTags, false),
        vec![titled("/ref/1", "a"), titled("/new/2", "a"), titled("/new/3", "a")],
    );
    search.get_cd_mut().reference_directories.push("/ref".to_string());
    assert_eq!(search.begin_search(), SearchStage::CheckFiles);
    assert!(search.get_use_reference());
    let (stop, counter) = flags(false);
    search.check_for_duplicate_tags(&stop, &counter);
    assert_eq!(search.get_information().number_of_groups, 0);
    let groups = search.take_groups_to_filter().unwrap();
    assert_eq!(paths(&groups), vec![vec!["/ref/1", "/new/2", "/new/3"]]);
    assert!(search.get_duplicated_music_entries().is_empty());
    let mut group = groups.into_iter().next().unwrap();
    let others = group.split_off(1);
    search.set_referenced(vec![(group.pop().unwrap(), others)]);
    assert_eq!(search.get_information().number_of_duplicates, 2);
    assert_eq!(search.get_information().number_of_groups, 1);
    assert_eq!(search.get_number_of_base_duplicated_files(), 1);
    assert_eq!(search.get_similar_music_referenced()[0].0.path, "/ref/1");
}

/// Runs a whole search by tags over files whose titles are their names without the last character.
fn search_by_tags(files: Vec<&str>, references: Vec<&str>) -> SameMusic {
    let (stop, counter) = flags(false);
    let mut search = SameMusic::new(parameters(CheckingMethod::AudioTags, false));
    search.get_cd_mut().use_cache = false;
    search.get_cd_mut().reference_directories =
        references.iter().map(|r| r.to_string()).collect();
    let mut stage = search.begin_search();
    loop {
        let status = match stage {
            SearchStage::CheckFiles => search.check_files(DirTraversalResult::SuccessFiles {
                file_entries: files.iter().map(|path| found(path)).collect(),
                warnings: vec![],
            }),
            SearchStage::ReadTags => {
                assert!(search.start_reading(ReadingKind::Tags));
                let cache =
                    search.choose_files_to_read(None, TextMessages::new(), &stop).unwrap();
                let results = cache
                    .non_cached_files_to_check
                    .into_pairs()
                    .into_iter()
                    .map(|(path, _)| {
                        let name = path.rsplit('/').next().unwrap();
                        Some(titled(&path, &name[..name.len() - 1]))
                    })
                    .collect();
                search.connect_results(results, cache.records_already_cached, cache.loaded);
                search.finish_reading(ReadingKind::Tags, TextMessages::new(), false, &stop)
            }
            SearchStage::CheckForDuplicateTags => {
                let status = search.check_for_duplicate_tags(&stop, &counter);
                if let Some(groups) = search.take_groups_to_filter() {
                    let referenced = groups
                        .into_iter()
                        .filter_map(|group| {
                            let (mut inside, outside): (Vec<_>, Vec<_>) = group
                                .into_iter()
                                .partition(|entry| entry.path.starts_with("/ref/"));
                            if outside.is_empty() {
                                None
                            } else {
                                inside.pop().map(|file| (file, outside))
                            }
                        })
                        .collect();
                    search.set_referenced(referenced);
                }
                status
            }
            SearchStage::Finished | SearchStage::Stopped => return search,
            _ => WorkContinueStatus::Continue,
        };
        stage = search.advance_search(stage, status);
    }
}

#[test]
fn after_a_search_counters_match_results() {
    let files = vec!["/new/aa1", "/new/aa2", "/new/b1", "/ref/aa3", "/ref/b2", "/new/c1", "/new/b1"];
    let search = search_by_tags(files.clone(), vec![]);
    assert!(!search.get_use_reference());
    assert!(search.get_similar_music_referenced().is_empty());
    assert_eq!(
        paths(search.get_duplicated_music_entries()),
        vec![vec!["/new/aa1", "/new/aa2", "/ref/aa3"], vec!["/new/b1", "/ref/b2"]]
    );
    assert_eq!(search.get_information().number_of_groups, 2);
    assert_eq!(search.get_information().number_of_duplicates, 3);

    let search = search_by_tags(files, vec!["/ref"]);
    assert!(search.get_use_reference());
    assert!(search.get_duplicated_music_entries().is_empty());
    assert_eq!(search.get_similar_music_referenced().len(), 2);
    assert_eq!(search.get_information().number_of_groups, 2);
    assert_eq!(search.get_information().number_of_duplicates, 3);
    assert_eq!(search.get_number_of_base_duplicated_files(), 2);
}

#[test]
fn files_are_deleted_only_on_request() {
    let mut search = search_with(
        parameters(CheckingMethod::AudioTags, false),
        vec![titled("1", "a"), titled("2", "a")],
    );
    let (stop, counter) = flags(false);
    search.check_for_duplicate_tags(&stop, &counter);
    assert!(search.files_to_delete().is_none());
    search.get_cd_mut().delete_requested = true;
    assert_eq!(paths(&search.files_to_delete().unwrap()), vec![vec!["1", "2"]]);
    assert_eq!(
        search.delete_files(messages("deleted"), WorkContinueStatus::Stop),
        WorkContinueStatus::Stop
    );
    assert_eq!(search.get_cd().text_messages.messages, vec!["deleted"]);
    search.get_cd_mut().delete_requested = false;
    assert_eq!(
        search.delete_files(messages("unused"), WorkContinueStatus::Stop),
        WorkContinueStatus::Continue
    );
    assert_eq!(search.get_cd().text_messages.messages, vec!["deleted"]);
}

#[test]
fn stages_follow_each_other() {
    let go_on = WorkContinueStatus::Continue;
    let mut search = SameMusic::new(parameters(CheckingMethod::AudioTags, false));
    let mut stages = vec![search.begin_search()];
    while *stages.last().unwrap() != SearchStage::Finished {
        stages.push(search.advance_search(*stages.last().unwrap(), go_on));
    }
    assert_eq!(
        stages,
        vec![
            SearchStage::CheckFiles,
            SearchStage::ReadTags,
            SearchStage::CheckForDuplicateTags,
            SearchStage::DeleteFiles,
            SearchStage::Finished,
        ]
    );
    let mut search = SameMusic::new(parameters(CheckingMethod::AudioContent, false));
    let mut stages = vec![search.begin_search()];
    while *stages.last().unwrap() != SearchStage::Finished {
        stages.push(search.advance_search(*stages.last().unwrap(), go_on));
    }
    assert_eq!(
        stages,
        vec![
            SearchStage::CheckFiles,
            SearchStage::ReadTags,
            SearchStage::CalculateFingerprints,
            SearchStage::CheckForDuplicateFingerprints,
            SearchStage::DeleteFiles,
            SearchStage::Finished,
        ]
    );
    assert!(!search.get_cd().stopped_search);
    assert_eq!(
        search.advance_search(SearchStage::ReadTags, WorkContinueStatus::Stop),
        SearchStage::Stopped
    );
    assert!(search.get_cd().stopped_search);
}

#[test]
fn results_as_text() {
    let mut search = search_with(
        parameters(CheckingMethod::AudioTags, false),
        vec![titled("/m/1", "a"), titled("/m/2", "A")],
    );
    let mut text = String::new();
    search.write_results(&mut text);
    assert_eq!(text, "Not found any similar music files.");

    let (stop, counter) = flags(false);
    search.check_for_duplicate_tags(&stop, &counter);
    let mut text = String::new();
    search.write_results(&mut text);
    assert_eq!(
        text,
        "1 music files which have similar friends\n\n.\n\
         Found 2 music files which have similar friends\n\
         TT: a  -  TA:   -  Y:   -  L:   -  G:   -  B: 0  -  P: \"/m/1\"\n\
         TT: A  -  TA:   -  Y:   -  L:   -  G:   -  B: 0  -  P: \"/m/2\"\n\n"
    );
}

#[test]
fn referenced_results_as_text() {
    let mut search = SameMusic::new(parameters(CheckingMethod::AudioTags, false));
    let mut reference = titled("/r/1", "T");
    reference.track_artist = "A".to_string();
    reference.year = "1999".to_string();
    reference.length = "3:45".to_string();
    reference.genre = "Rock".to_string();
    reference.bitrate = 320;
    search.set_referenced(vec![(reference, vec![titled("/m/2", "T")])]);
    let mut text = String::from("> ");
    search.write_results(&mut text);
    assert_eq!(
        text,
        "> 1 music files which have similar friends\n\n.\n\
         Found 1 music files which have similar friends\n\n\
         TT: T  -  TA: A  -  Y: 1999  -  L: 3:45  -  G: Rock  -  B: 320  -  P: \"/r/1\"\n\
         TT: T  -  TA:   -  Y:   -  L:   -  G:   -  B: 0  -  P: \"/m/2\"\n\n"
    );
}
