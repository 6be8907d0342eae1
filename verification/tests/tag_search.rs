use czkawka::grouping::{
    check_music_item, check_unless_stopped, find_tag_groups, get_entries_grouped_by_title, get_key,
    selected_keys, GroupKey, TagField,
};
use czkawka::ieee::{Binary32, Binary64};
use czkawka::music_entry::{FileEntry, MusicEntry};
use czkawka::params::{CheckingMethod, MusicSimilarity, SameMusicParameters};
use std::sync::atomic::{AtomicUsize, Ordering};
use std::sync::Arc;

fn file(path: &str, title: &str, artist: &str, year: &str, bitrate: u32) -> MusicEntry {
    let mut entry =
        FileEntry { path: path.to_string(), size: 1, modified_date: 2 }.into_music_entry();
    entry.track_title = title.to_string();
    entry.track_artist = artist.to_string();
    entry.year = year.to_string();
    entry.bitrate = bitrate;
    entry
}

fn paths(groups: &[Vec<MusicEntry>]) -> Vec<Vec<&str>> {
    groups.iter().map(|g| g.iter().map(|e| e.path.as_str()).collect()).collect()
}

fn parameters(bits: u32, approximate: bool) -> SameMusicParameters {
    SameMusicParameters::new(
        MusicSimilarity::new(bits),
        approximate,
        CheckingMethod::AudioTags,
        Binary32 { bits: 10.0f32.to_bits() },
        Binary64 { bits: 2.0f64.to_bits() },
        false,
    )
}

fn groups_of(entries: Vec<MusicEntry>, keys: Vec<GroupKey>) -> Vec<Vec<MusicEntry>> {
    let counter = Arc::new(AtomicUsize::new(0));
    find_tag_groups(entries, &keys, &|| false, &counter).unwrap()
}

#[test]
fn keys_of_a_file() {
    let entry = file("p", "  Tytuł (Live) ", " ARTIST\t", " 1999 ", 320);
    assert_eq!(get_key(&entry, GroupKey::Exact(TagField::TrackTitle)), "tytuł (live)");
    assert_eq!(get_key(&entry, GroupKey::Approximate(TagField::TrackTitle)), "tytul");
    assert_eq!(get_key(&entry, GroupKey::SimilarTitle), "Tytul");
    assert_eq!(get_key(&entry, GroupKey::Exact(TagField::TrackArtist)), "artist");
    assert_eq!(get_key(&entry, GroupKey::Exact(TagField::Year)), "1999");
    assert_eq!(get_key(&entry, GroupKey::Exact(TagField::Genre)), "");
    assert_eq!(get_key(&entry, GroupKey::Bitrate), "320");
    assert_eq!(get_key(&file("p", "", "", "", 0), GroupKey::Bitrate), "");
}

#[test]
fn keys_are_selected_in_order() {
    let all = MusicSimilarity::TRACK_TITLE
        | MusicSimilarity::TRACK_ARTIST
        | MusicSimilarity::YEAR
        | MusicSimilarity::LENGTH
        | MusicSimilarity::GENRE
        | MusicSimilarity::BITRATE;
    assert_eq!(
        selected_keys(&parameters(all, true)),
        vec![
            GroupKey::Approximate(TagField::TrackTitle),
            GroupKey::Approximate(TagField::TrackArtist),
            GroupKey::Exact(TagField::Year),
            GroupKey::Exact(TagField::Length),
            GroupKey::Exact(TagField::Genre),
            GroupKey::Bitrate,
        ]
    );
    assert_eq!(
        selected_keys(&parameters(MusicSimilarity::TRACK_ARTIST, false)),
        vec![GroupKey::Exact(TagField::TrackArtist)]
    );
}

#[test]
fn parameters_are_kept() {
    let params = parameters(MusicSimilarity::YEAR | MusicSimilarity::GENRE, true);
    assert!(params.music_similarity.contains(MusicSimilarity::YEAR));
    assert!(params.music_similarity.contains(MusicSimilarity::GENRE));
    assert!(!params.music_similarity.contains(MusicSimilarity::LENGTH));
    assert!(!params.music_similarity.is_empty());
    assert!(MusicSimilarity::new(MusicSimilarity::NONE).is_empty());
    assert_eq!(params.check_type, CheckingMethod::AudioTags);
}

#[test]
fn groups_come_in_the_order_of_their_keys() {
    let entries = vec![
        file("1", "Beta", "", "", 0),
        file("2", "alpha", "", "", 0),
        file("3", " beta ", "", "", 0),
        file("4", "ALPHA", "", "", 0),
        file("5", "gamma", "", "", 0),
        file("6", "", "", "", 0),
        file("7", "", "", "", 0),
    ];
    let counter = Arc::new(AtomicUsize::new(0));
    let groups =
        check_music_item(vec![entries], &counter, GroupKey::Exact(TagField::TrackTitle));
    assert_eq!(paths(&groups), vec![vec!["2", "4"], vec!["1", "3"]]);
    assert_eq!(counter.load(Ordering::Relaxed), 1);
}

#[test]
fn every_key_has_to_agree() {
    let entries = vec![
        file("1", "Song", "A", "1999", 320),
        file("2", "song", "a", "2000", 320),
        file("3", "Song (Remix)", "A", "1999", 128),
        file("4", "Song", "B", "1999", 320),
    ];
    let exact = vec![GroupKey::Exact(TagField::TrackTitle), GroupKey::Exact(TagField::TrackArtist)];
    assert_eq!(paths(&groups_of(entries.clone(), exact)), vec![vec!["1", "2"]]);
    let approximate =
        vec![GroupKey::Approximate(TagField::TrackTitle), GroupKey::Exact(TagField::TrackArtist)];
    assert_eq!(paths(&groups_of(entries.clone(), approximate)), vec![vec!["1", "2", "3"]]);
    let bitrate = vec![GroupKey::Bitrate];
    assert_eq!(paths(&groups_of(entries.clone(), bitrate)), vec![vec!["1", "2", "4"]]);
    assert_eq!(paths(&groups_of(entries, vec![])), vec![vec!["1", "2", "3", "4"]]);
}

#[test]
fn files_are_not_multiplied() {
    let entry = file("1", "Song", "A", "1999", 320);
    let groups = groups_of(
        vec![entry.clone(), entry.clone(), file("2", "Other", "", "", 0)],
        vec![GroupKey::Exact(TagField::TrackTitle)],
    );
    assert_eq!(paths(&groups), vec![vec!["1", "1"]]);
}

#[test]
fn an_approximate_comparison_merges_exact_groups() {
    let entries = vec![
        file("1", "Song", "", "", 0),
        file("2", "song (Live)", "", "", 0),
        file("3", "SONG", "", "", 0),
        file("4", "Song (live)", "", "", 0),
    ];
    let counter = Arc::new(AtomicUsize::new(0));
    let field = TagField::TrackTitle;
    let exact = check_music_item(vec![entries.clone()], &counter, GroupKey::Exact(field));
    assert_eq!(paths(&exact), vec![vec!["1", "3"], vec!["2", "4"]]);
    let approximate = check_music_item(vec![entries], &counter, GroupKey::Approximate(field));
    assert_eq!(paths(&approximate), vec![vec!["1", "2", "3", "4"]]);
}

#[test]
fn asking_for_more_tags_finds_less() {
    let entries = vec![
        file("1", "Song", "A", "", 0),
        file("2", "Song", "A", "", 0),
        file("3", "Song", "B", "", 0),
        file("4", "Song", "B", "", 0),
        file("5", "Song", "C", "", 0),
    ];
    let title = GroupKey::Exact(TagField::TrackTitle);
    let artist = GroupKey::Exact(TagField::TrackArtist);
    let less = groups_of(entries.clone(), vec![title]);
    assert_eq!(paths(&less), vec![vec!["1", "2", "3", "4", "5"]]);
    let more = groups_of(entries, vec![title, artist]);
    assert_eq!(paths(&more), vec![vec!["1", "2"], vec!["3", "4"]]);
}

#[test]
fn a_step_is_taken_unless_stopped() {
    let counter = Arc::new(AtomicUsize::new(0));
    let entries = vec![file("1", "", "", "", 1), file("2", "", "", "", 1)];
    assert!(check_unless_stopped(true, vec![entries.clone()], &counter, GroupKey::Bitrate).is_none());
    let groups = check_unless_stopped(false, vec![entries], &counter, GroupKey::Bitrate).unwrap();
    assert_eq!(paths(&groups), vec![vec!["1", "2"]]);
}

#[test]
fn a_comparison_of_tags_can_be_stopped() {
    let counter = Arc::new(AtomicUsize::new(0));
    let keys = vec![GroupKey::Bitrate, GroupKey::Exact(TagField::TrackTitle)];
    let entries = vec![file("1", "a", "", "", 1), file("2", "a", "", "", 1)];
    assert!(find_tag_groups(entries.clone(), &keys, &|| true, &counter).is_none());
    assert!(find_tag_groups(entries.clone(), &vec![], &|| true, &counter).is_some());
    let asked = AtomicUsize::new(0);
    let second = || asked.fetch_add(1, Ordering::Relaxed) == 1;
    assert!(find_tag_groups(entries, &keys, &second, &counter).is_none());
    assert_eq!(asked.load(Ordering::Relaxed), 2);
    assert_eq!(counter.load(Ordering::Relaxed), 1);
}

#[test]
fn files_are_grouped_by_simplified_title() {
    let groups = get_entries_grouped_by_title(vec![
        file("1", "Song (a)", "", "", 0),
        file("2", "  ", "", "", 0),
        file("3", "Łódź", "", "", 0),
        file("4", "Song [b]", "", "", 0),
        file("5", "song", "", "", 0),
    ])
    .into_pairs();
    let keys: Vec<&str> = groups.iter().map(|(key, _)| key.as_str()).collect();
    assert_eq!(keys, vec!["Lodz", "Song", "song"]);
    let lists: Vec<Vec<MusicEntry>> = groups.iter().map(|(_, list)| list.clone()).collect();
    assert_eq!(paths(&lists), vec![vec!["3"], vec!["1", "4"], vec!["5"]]);
}
