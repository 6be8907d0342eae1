//! Tags as they are read from a file.

use crate::music_entry::{EntryModel, MusicEntry};
use crate::text::{decimal, lemma_decimal_nonempty, push_decimal};
use vstd::prelude::*;
use vstd::string::*;

verus! {

/// The texts that one tag of a file holds.
#[derive(Debug)]
pub struct TagValues {
    pub track_title: Option<String>,
    pub track_artist: Option<String>,
    pub year: Option<String>,
    pub genre: Option<String>,
}

/// What a file's tags and properties say.
#[derive(Debug)]
pub struct FileTags {
    /// In kilobits per second.
    pub audio_bitrate: Option<u32>,
    pub duration_in_milliseconds: u128,
    /// The tag that is most common for this kind of file.
    pub primary_tag: Option<TagValues>,
    pub tags: Vec<TagValues>,
}

/// What came of reading a file's tags.
#[derive(Debug)]
pub enum TagReading {
    /// The file cannot be opened.
    Unreadable,
    /// The reader gave up in a way that says the file is not to be trusted.
    Crashed,
    /// The file is not one whose tags can be read.
    Unsupported,
    Tagged(FileTags),
}

/// An optional text as a mathematical value.
pub open spec fn optional_text(text: Option<String>) -> Option<Seq<char>> {
    match text {
        Some(t) => Some(t@),
        None => None,
    }
}

/// The texts of one tag as mathematical values.
pub struct TagModel {
    pub track_title: Option<Seq<char>>,
    pub track_artist: Option<Seq<char>>,
    pub year: Option<Seq<char>>,
    pub genre: Option<Seq<char>>,
}

impl View for TagValues {
    type V = TagModel;

    open spec fn view(&self) -> TagModel {
        TagModel {
            track_title: optional_text(self.track_title),
            track_artist: optional_text(self.track_artist),
            year: optional_text(self.year),
            genre: optional_text(self.genre),
        }
    }
}

/// The models of a list of tags.
pub open spec fn tag_models(tags: Seq<TagValues>) -> Seq<TagModel> {
    Seq::new(tags.len(), |i: int| tags[i]@)
}

/// The tags of a file in the order in which they are asked: the primary one first.
pub open spec fn asked_tags(primary: Option<TagValues>, tags: Seq<TagValues>) -> Seq<TagModel> {
    match primary {
        Some(tag) => seq![tag@] + tag_models(tags),
        None => tag_models(tags),
    }
}

/// The first text of a list that is there and not empty, or the empty text.
pub open spec fn first_text(texts: Seq<Option<Seq<char>>>) -> Seq<char>
    decreases texts.len(),
{
    if texts.len() == 0 {
        Seq::empty()
    } else if first_text(texts.drop_last()).len() > 0 {
        first_text(texts.drop_last())
    } else {
        match texts.last() {
            Some(t) => t,
            None => Seq::empty(),
        }
    }
}

pub open spec fn titles(tags: Seq<TagModel>) -> Seq<Option<Seq<char>>> {
    Seq::new(tags.len(), |i: int| tags[i].track_title)
}

pub open spec fn artists(tags: Seq<TagModel>) -> Seq<Option<Seq<char>>> {
    Seq::new(tags.len(), |i: int| tags[i].track_artist)
}

pub open spec fn years(tags: Seq<TagModel>) -> Seq<Option<Seq<char>>> {
    Seq::new(tags.len(), |i: int| tags[i].year)
}

pub open spec fn genres(tags: Seq<TagModel>) -> Seq<Option<Seq<char>>> {
    Seq::new(tags.len(), |i: int| tags[i].genre)
}

/// The first text that is there and not empty is the one found.
pub proof fn law_first_text(texts: Seq<Option<Seq<char>>>, i: int)
    requires
        0 <= i < texts.len(),
        texts[i] is Some,
        texts[i]->0.len() > 0,
        forall|j: int| 0 <= j < i ==> (#[trigger] texts[j] is None || texts[j]->0.len() == 0),
    ensures
        first_text(texts) == texts[i]->0,
    decreases texts.len(),
{
    let rest = texts.drop_last();
    if i < rest.len() {
        assert(rest[i] == texts[i]);
        assert forall|j: int| 0 <= j < i implies (#[trigger] rest[j] is None || rest[j]->0.len()
            == 0) by {
            assert(rest[j] == texts[j]);
        }
        law_first_text(rest, i);
    } else {
        assert forall|j: int| 0 <= j < rest.len() implies (#[trigger] rest[j] is None
            || rest[j]->0.len() == 0) by {
            assert(rest[j] == texts[j]);
        }
        lemma_no_text(rest);
    }
}

/// Where no text is there and not empty, none is found.
pub proof fn lemma_no_text(texts: Seq<Option<Seq<char>>>)
    requires
        forall|j: int|
            0 <= j < texts.len() ==> (#[trigger] texts[j] is None || texts[j]->0.len() == 0),
    ensures
        first_text(texts).len() == 0,
    decreases texts.len(),
{
    if texts.len() > 0 {
        let rest = texts.drop_last();
        assert forall|j: int| 0 <= j < rest.len() implies (#[trigger] rest[j] is None
            || rest[j]->0.len() == 0) by {
            assert(rest[j] == texts[j]);
        }
        lemma_no_text(rest);
        assert(texts[texts.len() - 1] == texts.last());
    }
}

/// A number below a hundred in two digits.
pub open spec fn two_digits(n: nat) -> Seq<char> {
    if n < 10 {
        seq!['0'] + decimal(n)
    } else {
        decimal(n)
    }
}

/// Whole minutes of a duration.
pub open spec fn shown_minutes(milliseconds: nat) -> nat {
    milliseconds / 60 / 1000
}

/// Seconds beyond the whole minutes, as they are shown.
pub open spec fn shown_seconds(milliseconds: nat) -> nat {
    milliseconds / 60 % 1000 * 6 / 100
}

/// The text of a duration: minutes and seconds; at least a second if there is anything at all;
/// nothing for a duration of zero or beyond what 32 bits hold.
pub open spec fn length_text(milliseconds: nat) -> Seq<char> {
    if milliseconds > u32::MAX {
        Seq::empty()
    } else if shown_minutes(milliseconds) != 0 || shown_seconds(milliseconds) != 0 {
        decimal(shown_minutes(milliseconds)) + seq![':'] + two_digits(shown_seconds(milliseconds))
    } else if milliseconds > 0 {
        seq!['0', ':', '0', '1']
    } else {
        Seq::empty()
    }
}

/// The minutes shown are the whole minutes, and the seconds shown are at most one too few.
pub proof fn law_length_is_right_to_the_second(milliseconds: nat)
    ensures
        shown_minutes(milliseconds) == milliseconds / 60000,
        shown_seconds(milliseconds) < 60,
        shown_seconds(milliseconds) <= milliseconds % 60000 / 1000,
        milliseconds % 60000 / 1000 <= shown_seconds(milliseconds) + 1,
{
}

/// A duration that is not zero is always shown, and never as zero.
pub proof fn law_length_is_shown(milliseconds: nat)
    requires
        0 < milliseconds <= u32::MAX,
    ensures
        length_text(milliseconds).len() >= 4,
        length_text(milliseconds) != seq!['0', ':', '0', '0'],
{
    let minutes = shown_minutes(milliseconds);
    let seconds = shown_seconds(milliseconds);
    lemma_decimal_nonempty(minutes);
    lemma_decimal_nonempty(seconds);
    if minutes != 0 || seconds != 0 {
        let text = length_text(milliseconds);
        let zero = seq!['0', ':', '0', '0'];
        law_length_is_right_to_the_second(milliseconds);
        lemma_decimal_nonempty(seconds / 10);
        if seconds >= 10 {
            assert(decimal(seconds).len() >= 2);
        }
        if text == zero {
            let m = decimal(minutes);
            if m.len() > 1 {
                assert(text.len() > 4);
            }
            assert(text[0] == m[0]);
            assert(m =~= seq!['0']);
            if minutes < 10 {
                assert(m == seq![crate::text::digit(minutes)]);
                assert(minutes == 0);
            } else {
                lemma_decimal_nonempty(minutes / 10);
                assert(m.len() >= 2);
            }
            assert(text[2] == two_digits(seconds)[0]);
            assert(text[3] == two_digits(seconds)[1]);
            if seconds < 10 {
                assert(two_digits(seconds)[1] == crate::text::digit(seconds));
                assert(seconds == 0);
            } else {
                assert(decimal(seconds / 10) == seq![crate::text::digit(seconds / 10)]);
                assert(two_digits(seconds)[0] == crate::text::digit(seconds / 10));
            }
        }
    }
}

/// The text of a duration.
pub fn format_length(milliseconds: u128) -> (r: String)
    ensures
        r@ == length_text(milliseconds as nat),
{
    let mut length = String::new();
    if milliseconds <= u32::MAX as u128 {
        let old_length_number: u32 = milliseconds as u32;
        let length_number: u32 = old_length_number / 60;
        let minutes: u32 = length_number / 1000;
        let seconds: u32 = (length_number % 1000) * 6 / 100;
        if minutes != 0 || seconds != 0 {
            push_decimal(&mut length, minutes as u64);
            length.push(':');
            if seconds < 10 {
                length.push('0');
            }
            push_decimal(&mut length, seconds as u64);
        } else if old_length_number > 0 {
            // Shorter than a second, but not zero.
            length.push('0');
            length.push(':');
            length.push('0');
            length.push('1');
        }
    }
    assert(length@ =~= length_text(milliseconds as nat));
    length
}

/// A file with what its tags say.
pub open spec fn tagged_entry(
    entry: EntryModel,
    tags: Seq<TagModel>,
    bitrate: Option<u32>,
    milliseconds: nat,
) -> EntryModel {
    EntryModel {
        track_title: first_text(titles(tags)),
        track_artist: first_text(artists(tags)),
        year: first_text(years(tags)),
        genre: first_text(genres(tags)),
        length: length_text(milliseconds),
        bitrate: match bitrate {
            Some(b) => b,
            None => 0,
        },
        ..entry
    }
}

/// Takes over a text if there is none yet.
fn fill(current: &mut String, offered: &Option<String>)
    ensures
        final(current)@ == (if old(current)@.len() > 0 {
            old(current)@
        } else {
            match optional_text(*offered) {
                Some(t) => t,
                None => Seq::empty(),
            }
        }),
{
    if current.as_str().is_empty() {
        if let Some(tag_value) = offered {
            *current = tag_value.clone();
        } else {
            assert(current@ =~= Seq::empty());
        }
    }
}

/// Asks one more tag for what is still missing.
fn ask_tag(
    tag: &TagValues,
    track_title: &mut String,
    track_artist: &mut String,
    year: &mut String,
    genre: &mut String,
    Ghost(asked): Ghost<Seq<TagModel>>,
)
    requires
        old(track_title)@ == first_text(titles(asked)),
        old(track_artist)@ == first_text(artists(asked)),
        old(year)@ == first_text(years(asked)),
        old(genre)@ == first_text(genres(asked)),
    ensures
        final(track_title)@ == first_text(titles(asked.push(tag@))),
        final(track_artist)@ == first_text(artists(asked.push(tag@))),
        final(year)@ == first_text(years(asked.push(tag@))),
        final(genre)@ == first_text(genres(asked.push(tag@))),
{
    proof {
        let all = asked.push(tag@);
        assert(titles(all).drop_last() =~= titles(asked));
        assert(artists(all).drop_last() =~= artists(asked));
        assert(years(all).drop_last() =~= years(asked));
        assert(genres(all).drop_last() =~= genres(asked));
    }
    fill(track_title, &tag.track_title);
    fill(track_artist, &tag.track_artist);
    fill(year, &tag.year);
    fill(genre, &tag.genre);
}

/// Takes over what a file's tags say: each text from the primary tag, or else from the first tag
/// that has it.
pub fn apply_tags(music_entry: MusicEntry, file: &FileTags) -> (r: MusicEntry)
    ensures
        r@ == tagged_entry(
            music_entry@,
            asked_tags(file.primary_tag, file.tags@),
            file.audio_bitrate,
            file.duration_in_milliseconds as nat,
        ),
{
    let ghost all = asked_tags(file.primary_tag, file.tags@);
    let mut track_title = String::new();
    let mut track_artist = String::new();
    let mut year = String::new();
    let mut genre = String::new();
    let ghost mut asked: Seq<TagModel> = Seq::empty();
    proof {
        assert(titles(asked) =~= Seq::empty());
        assert(artists(asked) =~= Seq::empty());
        assert(years(asked) =~= Seq::empty());
        assert(genres(asked) =~= Seq::empty());
    }
    if let Some(tag) = &file.primary_tag {
        ask_tag(
            tag,
            &mut track_title,
            &mut track_artist,
            &mut year,
            &mut genre,
            Ghost(asked),
        );
        proof {
            asked = asked.push(tag@);
        }
    }
    let ghost first = asked;
    for i in 0..file.tags.len()
        invariant
            asked == first + tag_models(file.tags@).take(i as int),
            track_title@ == first_text(titles(asked)),
            track_artist@ == first_text(artists(asked)),
            year@ == first_text(years(asked)),
            genre@ == first_text(genres(asked)),
    {
        ask_tag(
            &file.tags[i],
            &mut track_title,
            &mut track_artist,
            &mut year,
            &mut genre,
            Ghost(asked),
        );
        proof {
            asked = asked.push(file.tags@[i as int]@);
            assert(asked =~= first + tag_models(file.tags@).take(i + 1));
        }
    }
    assert(asked =~= all);
    let bitrate: u32 = match file.audio_bitrate {
        Some(b) => b,
        None => 0,
    };
    MusicEntry {
        track_title,
        track_artist,
        year,
        length: format_length(file.duration_in_milliseconds),
        genre,
        bitrate,
        size: music_entry.size,
        path: music_entry.path,
        modified_date: music_entry.modified_date,
        fingerprint: music_entry.fingerprint,
    }
}

/// A file after its tags were read: dropped if it cannot be trusted, as it was if it has no tags.
pub fn read_single_file_tags(music_entry: MusicEntry, reading: TagReading) -> (r: Option<MusicEntry>)
    ensures
        match reading {
            TagReading::Unreadable => r is None,
            TagReading::Crashed => r is None,
            TagReading::Unsupported => r is Some && r->0@ == music_entry@,
            TagReading::Tagged(file) => r is Some && r->0@ == tagged_entry(
                music_entry@,
                asked_tags(file.primary_tag, file.tags@),
                file.audio_bitrate,
                file.duration_in_milliseconds as nat,
            ),
        },
{
    match reading {
        TagReading::Unreadable => None,
        TagReading::Crashed => None,
        TagReading::Unsupported => Some(music_entry),
        TagReading::Tagged(file) => Some(apply_tags(music_entry, &file)),
    }
}

} // verus!
