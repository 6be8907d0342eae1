use czkawka::fingerprint_matching::{
    compare_fingerprints, judge, match_files, Comparison, PairOutcome, Thresholds, TimedSegment,
};
use czkawka::ieee::{Binary32, Binary64};
use czkawka::music_entry::{FileEntry, MusicEntry};
use czkawka::sound_search::{add_found, base_files_number, find_sound_groups};
use czkawka::splitting::{
    split_files_to_check, split_fingerprints_to_base_and_files_to_compare, GroupedFilesToCheck,
};
use std::sync::atomic::{AtomicUsize, Ordering};
use std::sync::Arc;

fn single(x: f32) -> Binary32 {
    Binary32 { bits: x.to_bits() }
}

fn double(x: f64) -> Binary64 {
    Binary64 { bits: x.to_bits() }
}

fn thresholds(duration: f32, difference: f64) -> Thresholds {
    Thresholds {
        minimum_segment_duration: single(duration),
        maximum_difference: double(difference),
    }
}

/// Items without a pattern that repeats.
fn noise(seed: u32, length: usize) -> Vec<u32> {
    let mut x = seed;
    (0..length)
        .map(|_| {
            x = x.wrapping_mul(1_664_525).wrapping_add(1_013_904_223);
            x ^ (x >> 16)
        })
        .collect()
}

fn file(path: &str, title: &str, fingerprint: Vec<u32>) -> MusicEntry {
    let mut entry =
        FileEntry { path: path.to_string(), size: 1, modified_date: 2 }.into_music_entry();
    entry.track_title = title.to_string();
    entry.fingerprint = fingerprint;
    entry
}

fn paths(groups: &[Vec<MusicEntry>]) -> Vec<Vec<&str>> {
    groups.iter().map(|g| g.iter().map(|e| e.path.as_str()).collect()).collect()
}

fn names(entries: &[MusicEntry]) -> Vec<&str> {
    entries.iter().map(|e| e.path.as_str()).collect()
}

fn counter() -> Arc<AtomicUsize> {
    Arc::new(AtomicUsize::new(0))
}

#[test]
fn the_same_sound_is_one_stretch() {
    let fingerprint = noise(1, 100);
    let segments = match_files(&fingerprint, &fingerprint).unwrap();
    assert_eq!(segments.len(), 1);
    assert_eq!(segments[0].score, double(0.0));
    let seconds = f32::from_bits(segments[0].duration.bits);
    assert!((seconds - 100.0 * 1365.0 / 11025.0).abs() < 0.001);
}

#[test]
fn silence_matches_nothing() {
    assert_eq!(match_files(&vec![], &vec![]).unwrap(), vec![]);
    assert_eq!(match_files(&noise(1, 100), &vec![]).unwrap(), vec![]);
}

#[test]
fn fingerprints_can_be_too_long() {
    let long = vec![0u32; 524_286];
    assert_eq!(match_files(&long, &vec![]).unwrap_err(), "Fingerprint #0 is too long");
    assert_eq!(match_files(&vec![], &long).unwrap_err(), "Fingerprint #1 is too long");
    assert_eq!(match_files(&noise(1, 524_285), &vec![]).unwrap(), vec![]);
}

#[test]
fn stretches_are_held_against_thresholds() {
    let segment = |duration: f32, score: f64| TimedSegment {
        duration: single(duration),
        score: double(score),
    };
    let limits = thresholds(10.0, 2.0);
    assert!(limits.has_similar_segment(&vec![segment(1.0, 0.0), segment(10.5, 1.9)]));
    assert!(!limits.has_similar_segment(&vec![segment(10.0, 0.0)]));
    assert!(!limits.has_similar_segment(&vec![segment(11.0, 2.0)]));
    assert!(!limits.has_similar_segment(&vec![segment(9.0, 0.0), segment(11.0, 3.0)]));
    assert!(!limits.has_similar_segment(&vec![]));
    assert!(!limits.has_similar_segment(&vec![segment(f32::NAN, 0.0), segment(11.0, f64::NAN)]));
    assert!(matches!(judge(Ok(vec![segment(11.0, 0.0)]), limits), PairOutcome::Similar));
    assert!(matches!(judge(Ok(vec![]), limits), PairOutcome::Nothing));
    match judge(Err("too bad".to_string()), limits) {
        PairOutcome::Failed(message) => {
            assert_eq!(message, "Error while comparing fingerprints: too bad");
        }
        other => panic!("{other:?}"),
    }
}

#[test]
fn similar_files_form_a_group_with_the_base_file_last() {
    let files = vec![
        file("a", "", noise(1, 200)),
        file("b", "", noise(2, 200)),
        file("c", "", noise(1, 200)),
        file("d", "", noise(1, 150)),
        file("e", "", noise(2, 200)),
    ];
    let counter = counter();
    let mut errors = vec![];
    let groups = compare_fingerprints(
        &|| false,
        &counter,
        files.clone(),
        &files,
        thresholds(10.0, 2.0),
        &mut errors,
    )
    .unwrap();
    assert_eq!(paths(&groups), vec![vec!["c", "d", "a"], vec!["e", "b"]]);
    assert!(errors.is_empty());
    assert_eq!(counter.load(Ordering::Relaxed), 5);
}

#[test]
fn a_file_is_not_its_own_duplicate() {
    let files = vec![file("a", "", noise(1, 200)), file("a", "", noise(1, 200))];
    let counter = counter();
    let mut errors = vec![];
    let groups = compare_fingerprints(
        &|| false,
        &counter,
        files.clone(),
        &files,
        thresholds(1.0, 2.0),
        &mut errors,
    )
    .unwrap();
    assert!(groups.is_empty());
}

#[test]
fn comparisons_that_fail_are_reported() {
    let files = vec![file("a", "", noise(1, 20)), file("b", "", vec![0; 524_286])];
    let counter = counter();
    let mut errors = vec!["before".to_string()];
    let groups = compare_fingerprints(
        &|| false,
        &counter,
        files.clone(),
        &files,
        thresholds(1.0, 2.0),
        &mut errors,
    )
    .unwrap();
    assert!(groups.is_empty());
    assert_eq!(
        errors,
        vec![
            "before",
            "Error while comparing fingerprints: Fingerprint #1 is too long",
            "Error while comparing fingerprints: Fingerprint #0 is too long",
        ]
    );
}

#[test]
fn many_comparisons_keep_the_order_of_the_files() {
    let base = vec![file("base", "", noise(7, 120))];
    let files: Vec<MusicEntry> =
        (0..300).map(|i| file(&format!("{i:03}"), "", noise(7 + i % 3, 120))).collect();
    let counter = counter();
    let mut errors = vec![];
    let groups =
        compare_fingerprints(&|| false, &counter, base, &files, thresholds(10.0, 1.0), &mut errors)
            .unwrap();
    let mut expected: Vec<String> = (0..100).map(|i| format!("{:03}", 3 * i)).collect();
    expected.push("base".to_string());
    assert_eq!(paths(&groups), vec![expected.iter().map(String::as_str).collect::<Vec<_>>()]);
}

#[test]
fn a_base_file_is_added_unless_stopped() {
    let files = vec![file("a", "", noise(1, 200)), file("b", "", noise(1, 200))];
    let limits = thresholds(10.0, 2.0);
    let mut comparison = Comparison::new();
    assert!(!comparison.add_unless_stopped(true, files[0].clone(), &files, limits));
    assert!(comparison.finish(&mut vec![]).is_empty());
    let mut comparison = Comparison::new();
    assert!(comparison.add_unless_stopped(false, files[0].clone(), &files, limits));
    assert_eq!(paths(&comparison.finish(&mut vec![])), vec![vec!["b", "a"]]);
}

#[test]
fn a_comparison_of_sounds_can_be_stopped() {
    let files = vec![file("a", "", noise(1, 20))];
    let counter = counter();
    let mut errors = vec![];
    let limits = thresholds(1.0, 2.0);
    assert!(compare_fingerprints(&|| true, &counter, files.clone(), &files, limits, &mut errors)
        .is_none());
    assert_eq!(counter.load(Ordering::Relaxed), 1);
    assert!(compare_fingerprints(&|| true, &counter, vec![], &files, limits, &mut errors).is_some());
}

#[test]
fn a_comparison_of_sounds_stops_at_the_first_yes() {
    let files = vec![
        file("a", "", noise(1, 200)),
        file("b", "", vec![0; 524_286]),
        file("c", "", noise(1, 200)),
    ];
    let counter = counter();
    let asked = AtomicUsize::new(0);
    let mut errors = vec![];
    let stop = || asked.fetch_add(1, Ordering::Relaxed) == 1;
    let limits = thresholds(1.0, 2.0);
    assert!(compare_fingerprints(&stop, &counter, files.clone(), &files, limits, &mut errors)
        .is_none());
    assert_eq!(asked.load(Ordering::Relaxed), 2);
    // What the first base file met is kept.
    assert_eq!(errors.len(), 1);
}

#[test]
fn found_groups_are_added() {
    let mut found = vec![vec![file("a", "", vec![])]];
    assert!(add_found(&mut found, Some(vec![vec![file("b", "", vec![])]])));
    assert_eq!(paths(&found), vec![vec!["a"], vec!["b"]]);
    assert!(!add_found(&mut found, None));
    assert_eq!(paths(&found), vec![vec!["a"], vec!["b"]]);
}

#[test]
fn reference_files_are_the_base() {
    let files = vec![
        file("/ref/a", "", vec![]),
        file("/new/b", "", vec![]),
        file("/ref/c", "", vec![]),
        file("/new/d", "", vec![]),
    ];
    let references = vec!["/ref/c".to_string(), "/ref/a".to_string()];
    let (base, others) =
        split_fingerprints_to_base_and_files_to_compare(files.clone(), true, &references);
    assert_eq!(names(&base), vec!["/ref/a", "/ref/c"]);
    assert_eq!(names(&others), vec!["/new/b", "/new/d"]);
    let (base, others) =
        split_fingerprints_to_base_and_files_to_compare(files, false, &references);
    assert_eq!(names(&base), vec!["/ref/a", "/new/b", "/ref/c", "/new/d"]);
    assert_eq!(names(&others), names(&base));
}

#[test]
fn groups_without_pairs_are_dropped() {
    let files = vec![
        file("/ref/a", "One", vec![]),
        file("/new/b", "Two", vec![]),
        file("/ref/c", "Two", vec![]),
        file("/new/d", "Three", vec![]),
        file("/new/e", "Three", vec![]),
        file("/new/f", "", vec![]),
    ];
    let groups = split_files_to_check(files.clone(), true, false, &vec![]);
    let sides: Vec<(Vec<&str>, Vec<&str>)> =
        groups.iter().map(|g| (names(&g.base_files), names(&g.files_to_compare))).collect();
    assert_eq!(
        sides,
        vec![
            (vec!["/new/d", "/new/e"], vec!["/new/d", "/new/e"]),
            (vec!["/new/b", "/ref/c"], vec!["/new/b", "/ref/c"]),
        ]
    );
    assert_eq!(base_files_number(&groups), 4);

    let references = vec!["/ref/a".to_string(), "/ref/c".to_string()];
    let groups = split_files_to_check(files.clone(), true, true, &references);
    let sides: Vec<(Vec<&str>, Vec<&str>)> =
        groups.iter().map(|g| (names(&g.base_files), names(&g.files_to_compare))).collect();
    assert_eq!(sides, vec![(vec!["/ref/c"], vec!["/new/b"])]);

    let groups = split_files_to_check(files, false, true, &references);
    assert_eq!(groups.len(), 1);
    assert_eq!(base_files_number(&groups), 2);
    assert_eq!(groups[0].files_to_compare.len(), 4);
}

#[test]
fn groups_are_searched_one_after_the_other() {
    let group = |list: Vec<MusicEntry>| GroupedFilesToCheck {
        base_files: list.clone(),
        files_to_compare: list,
    };
    let groups = vec![
        group(vec![file("a", "", noise(1, 200)), file("b", "", noise(1, 200))]),
        group(vec![file("c", "", noise(1, 200)), file("d", "", noise(2, 200))]),
        group(vec![file("e", "", noise(1, 200)), file("f", "", noise(1, 200))]),
    ];
    let counter = counter();
    let mut errors = vec![];
    let found =
        find_sound_groups(groups, thresholds(10.0, 2.0), &|| false, &counter, &mut errors).unwrap();
    assert_eq!(paths(&found), vec![vec!["b", "a"], vec!["f", "e"]]);
    assert_eq!(counter.load(Ordering::Relaxed), 6);
}
