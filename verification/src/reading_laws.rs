//! What is read from the tags of a file.

use crate::music_entry::EntryModel;
use crate::tags::{
    artists, asked_tags, first_text, genres, law_first_text, law_length_is_right_to_the_second,
    length_text, lemma_no_text, shown_minutes, shown_seconds, tag_models, tagged_entry, titles,
    two_digits, years, TagModel, TagValues,
};
use crate::text::{decimal, digit};
use crate::text_laws::{is_numeral, law_decimal_reads_back, number_of};
use vstd::prelude::*;

verus! {

/// Whether a text that may be missing is missing or empty.
pub open spec fn is_blank(text: Option<Seq<char>>) -> bool {
    text is None || text->0.len() == 0
}

/// Whether a text is the first of several that is there and not empty, or empty because there is
/// none.
pub open spec fn is_first(text: Seq<char>, texts: Seq<Option<Seq<char>>>) -> bool {
    ||| exists|i: int|
        0 <= i < texts.len() && #[trigger] texts[i] == Some(text) && text.len() > 0 && forall|j: int|
            0 <= j < i ==> is_blank(#[trigger] texts[j])
    ||| text.len() == 0 && forall|j: int| 0 <= j < texts.len() ==> is_blank(#[trigger] texts[j])
}

proof fn lemma_is_first(texts: Seq<Option<Seq<char>>>)
    ensures
        is_first(first_text(texts), texts),
{
    if exists|i: int| 0 <= i < texts.len() && !is_blank(#[trigger] texts[i]) {
        let i = choose|i: int| 0 <= i < texts.len() && !is_blank(#[trigger] texts[i]);
        let first = lemma_first_place(texts, i);
        law_first_text(texts, first);
        assert(texts[first] == Some(first_text(texts)));
    } else {
        lemma_no_text(texts);
    }
}

proof fn lemma_first_place(texts: Seq<Option<Seq<char>>>, i: int) -> (first: int)
    requires
        0 <= i < texts.len(),
        !is_blank(texts[i]),
    ensures
        0 <= first < texts.len(),
        !is_blank(texts[first]),
        forall|j: int| 0 <= j < first ==> is_blank(#[trigger] texts[j]),
    decreases i,
{
    if exists|j: int| 0 <= j < i && !is_blank(#[trigger] texts[j]) {
        let j = choose|j: int| 0 <= j < i && !is_blank(#[trigger] texts[j]);
        lemma_first_place(texts, j)
    } else {
        i
    }
}

/// Title, artist, year and genre of a file are each the first of the same kind among its tags that
/// is there and not empty.
pub proof fn law_each_text_has_its_own_source(
    entry: EntryModel,
    tags: Seq<TagModel>,
    bitrate: Option<u32>,
    milliseconds: nat,
)
    ensures
        ({
            let read = tagged_entry(entry, tags, bitrate, milliseconds);
            &&& is_first(read.track_title, Seq::new(tags.len(), |i: int| tags[i].track_title))
            &&& is_first(read.track_artist, Seq::new(tags.len(), |i: int| tags[i].track_artist))
            &&& is_first(read.year, Seq::new(tags.len(), |i: int| tags[i].year))
            &&& is_first(read.genre, Seq::new(tags.len(), |i: int| tags[i].genre))
        }),
{
    lemma_is_first(titles(tags));
    lemma_is_first(artists(tags));
    lemma_is_first(years(tags));
    lemma_is_first(genres(tags));
    assert(titles(tags) =~= Seq::new(tags.len(), |i: int| tags[i].track_title));
    assert(artists(tags) =~= Seq::new(tags.len(), |i: int| tags[i].track_artist));
    assert(years(tags) =~= Seq::new(tags.len(), |i: int| tags[i].year));
    assert(genres(tags) =~= Seq::new(tags.len(), |i: int| tags[i].genre));
}

/// What is read as title, artist, year or genre depends on the tags of that kind alone: other tags
/// may change as they like.
pub proof fn law_texts_do_not_mix(
    entry: EntryModel,
    tags: Seq<TagModel>,
    others: Seq<TagModel>,
    bitrate: Option<u32>,
    milliseconds: nat,
)
    requires
        tags.len() == others.len(),
    ensures
        ({
            let read = tagged_entry(entry, tags, bitrate, milliseconds);
            let reread = tagged_entry(entry, others, bitrate, milliseconds);
            &&& (forall|i: int|
                0 <= i < tags.len() ==> (#[trigger] tags[i]).track_title == others[i].track_title)
                ==> read.track_title == reread.track_title
            &&& (forall|i: int|
                0 <= i < tags.len() ==> (#[trigger] tags[i]).track_artist == others[i].track_artist)
                ==> read.track_artist == reread.track_artist
            &&& (forall|i: int| 0 <= i < tags.len() ==> (#[trigger] tags[i]).year == others[i].year)
                ==> read.year == reread.year
            &&& (forall|i: int|
                0 <= i < tags.len() ==> (#[trigger] tags[i]).genre == others[i].genre) ==> read.genre
                == reread.genre
        }),
{
    if forall|i: int|
        0 <= i < tags.len() ==> (#[trigger] tags[i]).track_title == others[i].track_title {
        assert(titles(tags) =~= titles(others));
    }
    if forall|i: int|
        0 <= i < tags.len() ==> (#[trigger] tags[i]).track_artist == others[i].track_artist {
        assert(artists(tags) =~= artists(others));
    }
    if forall|i: int| 0 <= i < tags.len() ==> (#[trigger] tags[i]).year == others[i].year {
        assert(years(tags) =~= years(others));
    }
    if forall|i: int| 0 <= i < tags.len() ==> (#[trigger] tags[i]).genre == others[i].genre {
        assert(genres(tags) =~= genres(others));
    }
}

/// The view of a text that may be missing.
pub open spec fn text_view(text: Option<String>) -> Option<Seq<char>> {
    match text {
        Some(t) => Some(t@),
        None => None,
    }
}

/// Whether a text is the one that the primary tag has, or the first that the other tags have if the
/// primary tag has none.
pub open spec fn is_from_primary(
    text: Seq<char>,
    primary: Option<Seq<char>>,
    others: Seq<Option<Seq<char>>>,
) -> bool {
    if is_blank(primary) {
        is_first(text, others)
    } else {
        text == primary->0
    }
}

proof fn lemma_first_or_rest(texts: Seq<Option<Seq<char>>>, rest: Seq<Option<Seq<char>>>)
    requires
        texts.len() == rest.len() + 1,
        forall|i: int| 0 <= i < rest.len() ==> #[trigger] rest[i] == texts[i + 1],
    ensures
        is_from_primary(first_text(texts), texts[0], rest),
{
    lemma_is_first(texts);
    let text = first_text(texts);
    if is_blank(texts[0]) {
        if text.len() > 0 {
            let i = choose|i: int|
                0 <= i < texts.len() && #[trigger] texts[i] == Some(text) && text.len() > 0
                    && forall|j: int| 0 <= j < i ==> is_blank(#[trigger] texts[j]);
            assert(i > 0);
            assert(rest[i - 1] == Some(text));
            assert forall|j: int| 0 <= j < i - 1 implies is_blank(#[trigger] rest[j]) by {
                assert(is_blank(texts[j + 1]));
            }
        } else {
            assert forall|j: int| 0 <= j < rest.len() implies is_blank(#[trigger] rest[j]) by {
                assert(is_blank(texts[j + 1]));
            }
        }
    } else {
        law_first_text(texts, 0);
    }
}

/// The primary tag is asked first. Where it is missing, or does not have a text, the other tags
/// decide, in their order.
pub proof fn law_primary_tag_decides(
    entry: EntryModel,
    primary: Option<TagValues>,
    tags: Seq<TagValues>,
    bitrate: Option<u32>,
    milliseconds: nat,
)
    ensures
        ({
            let read = tagged_entry(entry, asked_tags(primary, tags), bitrate, milliseconds);
            let titles = Seq::new(tags.len(), |i: int| text_view(tags[i].track_title));
            let artists = Seq::new(tags.len(), |i: int| text_view(tags[i].track_artist));
            let years = Seq::new(tags.len(), |i: int| text_view(tags[i].year));
            let genres = Seq::new(tags.len(), |i: int| text_view(tags[i].genre));
            match primary {
                Some(tag) => {
                    &&& is_from_primary(read.track_title, text_view(tag.track_title), titles)
                    &&& is_from_primary(read.track_artist, text_view(tag.track_artist), artists)
                    &&& is_from_primary(read.year, text_view(tag.year), years)
                    &&& is_from_primary(read.genre, text_view(tag.genre), genres)
                },
                None => {
                    &&& is_first(read.track_title, titles)
                    &&& is_first(read.track_artist, artists)
                    &&& is_first(read.year, years)
                    &&& is_first(read.genre, genres)
                },
            }
        }),
{
    let asked = asked_tags(primary, tags);
    let models = tag_models(tags);
    let title_texts = Seq::new(tags.len(), |i: int| text_view(tags[i].track_title));
    let artist_texts = Seq::new(tags.len(), |i: int| text_view(tags[i].track_artist));
    let year_texts = Seq::new(tags.len(), |i: int| text_view(tags[i].year));
    let genre_texts = Seq::new(tags.len(), |i: int| text_view(tags[i].genre));
    if primary is Some {
        lemma_first_or_rest(titles(asked), title_texts);
        lemma_first_or_rest(artists(asked), artist_texts);
        lemma_first_or_rest(years(asked), year_texts);
        lemma_first_or_rest(genres(asked), genre_texts);
    } else {
        assert(titles(models) =~= title_texts);
        assert(artists(models) =~= artist_texts);
        assert(years(models) =~= year_texts);
        assert(genres(models) =~= genre_texts);
        lemma_is_first(title_texts);
        lemma_is_first(artist_texts);
        lemma_is_first(year_texts);
        lemma_is_first(genre_texts);
    }
}

/// Reading tags leaves alone what a file is: its path, its size, its date and its fingerprint. The
/// bitrate is the one that the file states, or zero.
pub proof fn law_tags_leave_the_file_alone(
    entry: EntryModel,
    tags: Seq<TagModel>,
    bitrate: Option<u32>,
    milliseconds: nat,
)
    ensures
        ({
            let read = tagged_entry(entry, tags, bitrate, milliseconds);
            &&& read.path == entry.path
            &&& read.size == entry.size
            &&& read.modified_date == entry.modified_date
            &&& read.fingerprint == entry.fingerprint
            &&& bitrate is Some ==> read.bitrate == bitrate->0
            &&& bitrate is None ==> read.bitrate == 0
        }),
{
}

/// The length that is read is made of minutes, a colon and two digits of seconds. Read back, the
/// minutes are the whole minutes of the duration and the seconds at most one too few, but never
/// zero with zero minutes. There is no length for a duration of zero or beyond 32 bits.
pub proof fn law_length_reads_back(
    entry: EntryModel,
    tags: Seq<TagModel>,
    bitrate: Option<u32>,
    milliseconds: nat,
)
    ensures
        ({
            let text = tagged_entry(entry, tags, bitrate, milliseconds).length;
            let n = text.len() as int;
            let minutes = text.take(n - 3);
            let seconds = text.skip(n - 2);
            &&& milliseconds == 0 || milliseconds > 0xffff_ffff <==> n == 0
            &&& n > 0 ==> {
                &&& n >= 4
                &&& text[n - 3] == ':'
                &&& is_numeral(minutes)
                &&& is_numeral(seconds)
                &&& n > 4 ==> text[0] != '0'
                &&& number_of(minutes) == milliseconds / 60000
                &&& number_of(seconds) < 60
                &&& milliseconds < 1020 ==> number_of(seconds) == 1
                &&& milliseconds >= 1020 ==> number_of(seconds) == milliseconds % 60000 / 60 * 6
                    / 100
            }
        }),
{
    let text = length_text(milliseconds);
    let m = shown_minutes(milliseconds);
    let s = shown_seconds(milliseconds);
    law_length_is_right_to_the_second(milliseconds);
    law_decimal_reads_back(m);
    law_decimal_reads_back(s);
    law_decimal_reads_back(s / 10);
    let n = text.len() as int;
    if 0 < milliseconds <= 0xffff_ffff {
        lemma_two_digits(s);
        if m != 0 || s != 0 {
            assert(text.take(n - 3) =~= decimal(m));
            assert(text.skip(n - 2) =~= two_digits(s));
            assert(text[0] == decimal(m)[0]);
        } else {
            lemma_two_digits(1);
            law_decimal_reads_back(0);
            assert(text.take(n - 3) =~= decimal(0));
            assert(text.skip(n - 2) =~= two_digits(1));
        }
    }
}

proof fn lemma_two_digits(s: nat)
    requires
        s < 100,
    ensures
        two_digits(s).len() == 2,
        is_numeral(two_digits(s)),
        number_of(two_digits(s)) == s,
{
    law_decimal_reads_back(s);
    law_decimal_reads_back(s / 10);
    if s < 10 {
        let text = two_digits(s);
        assert(text =~= seq!['0', digit(s)]);
        assert(text.drop_last() =~= seq!['0']);
        assert(text.drop_last().drop_last() =~= Seq::empty());
        reveal_with_fuel(number_of, 3);
    } else {
        assert(decimal(s / 10).len() == 1);
    }
}

} // verus!
