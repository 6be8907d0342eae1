use czkawka::music_entry::{FileEntry, MusicEntry};
use czkawka::tags::{
    apply_tags, format_length, read_single_file_tags, FileTags, TagReading, TagValues,
};

fn bare(path: &str) -> MusicEntry {
    FileEntry { path: path.to_string(), size: 10, modified_date: 20 }.into_music_entry()
}

fn tag(
    title: Option<&str>,
    artist: Option<&str>,
    year: Option<&str>,
    genre: Option<&str>,
) -> TagValues {
    TagValues {
        track_title: title.map(str::to_string),
        track_artist: artist.map(str::to_string),
        year: year.map(str::to_string),
        genre: genre.map(str::to_string),
    }
}

#[test]
fn found_files_have_nothing_but_path_size_and_date() {
    let entry = bare("/music/a.mp3");
    assert_eq!(entry.get_path(), "/music/a.mp3");
    assert_eq!(entry.get_size(), 10);
    assert_eq!(entry.get_modified_date(), 20);
    assert!(entry.fingerprint.is_empty());
    assert_eq!(entry.track_title, "");
    assert_eq!(entry.bitrate, 0);
}

#[test]
fn lengths_are_minutes_and_seconds() {
    assert_eq!(format_length(0), "");
    assert_eq!(format_length(1), "0:01");
    assert_eq!(format_length(999), "0:01");
    assert_eq!(format_length(61_020), "1:01");
    assert_eq!(format_length(600_000), "10:00");
    assert_eq!(format_length(225_500), "3:45");
    assert_eq!(format_length(4_294_967_295), "71582:47");
    assert_eq!(format_length(4_294_967_296), "");
}

#[test]
fn a_shown_length_may_be_a_second_short() {
    // 59999 / 60 = 999, and 999 * 6 / 100 = 59.
    assert_eq!(format_length(59_999), "0:59");
    // 2000 / 60 = 33, and 33 * 6 / 100 = 1.
    assert_eq!(format_length(2_000), "0:01");
}

#[test]
fn the_primary_tag_comes_first() {
    let file = FileTags {
        audio_bitrate: Some(320),
        duration_in_milliseconds: 225_500,
        primary_tag: Some(tag(Some("Title"), Some(""), None, Some("Rock"))),
        tags: vec![
            tag(Some("Other"), None, Some(""), Some("Pop")),
            tag(None, Some("Artist"), Some("1999"), None),
            tag(None, Some("Late"), Some("2000"), None),
        ],
    };
    let entry = apply_tags(bare("/music/a.mp3"), &file);
    assert_eq!(entry.track_title, "Title");
    assert_eq!(entry.track_artist, "Artist");
    assert_eq!(entry.year, "1999");
    assert_eq!(entry.genre, "Rock");
    assert_eq!(entry.length, "3:45");
    assert_eq!(entry.bitrate, 320);
    assert_eq!(entry.path, "/music/a.mp3");
    assert_eq!(entry.size, 10);
}

#[test]
fn without_tags_texts_are_empty() {
    let file = FileTags {
        audio_bitrate: None,
        duration_in_milliseconds: 0,
        primary_tag: None,
        tags: vec![],
    };
    let entry = apply_tags(bare("a"), &file);
    assert_eq!(entry.track_title, "");
    assert_eq!(entry.length, "");
    assert_eq!(entry.bitrate, 0);
}

#[test]
fn files_that_cannot_be_read_are_dropped() {
    assert!(read_single_file_tags(bare("a"), TagReading::Unreadable).is_none());
    assert!(read_single_file_tags(bare("a"), TagReading::Crashed).is_none());
    let kept = read_single_file_tags(bare("a"), TagReading::Unsupported).unwrap();
    assert_eq!(kept.path, "a");
    assert_eq!(kept.track_title, "");
    let file = FileTags {
        audio_bitrate: Some(1),
        duration_in_milliseconds: 1,
        primary_tag: None,
        tags: vec![tag(Some("T"), None, None, None)],
    };
    let tagged = read_single_file_tags(bare("a"), TagReading::Tagged(file)).unwrap();
    assert_eq!(tagged.track_title, "T");
    assert_eq!(tagged.length, "0:01");
}
