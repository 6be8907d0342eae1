//! What becomes of a title, character by character.

use crate::name_laws::{
    lemma_printable_is_plain, lemma_printable_part, lemma_printable_scan, lemma_tidy_is_fixed,
};
use crate::simplified_name::{
    is_printable, is_tidy, law_name_is_tidy, lemma_scan_is_tidy, lemma_scan_splits, part_of,
    scan_from, scan_start, simplified, simplified_once, table_transliteration, transliterated,
    with_part, NameScan,
};
use crate::text::{is_number, is_white_space, lemma_trimmed_ends, trimmed};
use vstd::prelude::*;

verus! {

/// Whether a character belongs to a word: a letter, or, unless numbers are ignored, a digit.
pub open spec fn is_word_character(c: char, ignore_numbers: bool) -> bool {
    ||| 'a' <= c && c <= 'z'
    ||| 'A' <= c && c <= 'Z'
    ||| !ignore_numbers && '0' <= c && c <= '9'
}

pub open spec fn is_opening_bracket(c: char) -> bool {
    c == '(' || c == '['
}

pub open spec fn is_closing_bracket(c: char) -> bool {
    c == ')' || c == ']'
}

/// How many brackets are open at the end of a text. A closing bracket closes any that is open.
pub open spec fn open_brackets(what: Seq<char>) -> nat
    decreases what.len(),
{
    if what.len() == 0 {
        0
    } else {
        let before = open_brackets(what.drop_last());
        if is_opening_bracket(what.last()) {
            before + 1
        } else if is_closing_bracket(what.last()) && before > 0 {
            (before - 1) as nat
        } else {
            before
        }
    }
}

/// The word characters of a text, in their order.
pub open spec fn words_of(text: Seq<char>, ignore_numbers: bool) -> Seq<char>
    decreases text.len(),
{
    if text.len() == 0 {
        Seq::empty()
    } else if is_word_character(text.last(), ignore_numbers) {
        words_of(text.drop_last(), ignore_numbers).push(text.last())
    } else {
        words_of(text.drop_last(), ignore_numbers)
    }
}

/// The word characters of a text that stand outside all brackets, in their order.
pub open spec fn words_outside(text: Seq<char>, ignore_numbers: bool) -> Seq<char>
    decreases text.len(),
{
    if text.len() == 0 {
        Seq::empty()
    } else if is_word_character(text.last(), ignore_numbers) && open_brackets(text.drop_last())
        == 0 {
        words_outside(text.drop_last(), ignore_numbers).push(text.last())
    } else {
        words_outside(text.drop_last(), ignore_numbers)
    }
}

/// The scan counts brackets, and nothing else.
proof fn lemma_depth(what: Seq<char>, ignore_numbers: bool)
    ensures
        scan_from(scan_start(), what, ignore_numbers).depth == open_brackets(what),
    decreases what.len(),
{
    if what.len() > 0 {
        lemma_depth(what.drop_last(), ignore_numbers);
    }
}

/// What a stretch amounts to depends only on how far it takes the scan.
proof fn lemma_exchange(
    before: Seq<char>,
    x: Seq<char>,
    y: Seq<char>,
    after: Seq<char>,
    ignore_numbers: bool,
)
    requires
        scan_from(scan_from(scan_start(), before, ignore_numbers), x, ignore_numbers) == scan_from(
            scan_from(scan_start(), before, ignore_numbers),
            y,
            ignore_numbers,
        ),
    ensures
        simplified_once(before + x + after, ignore_numbers) == simplified_once(
            before + y + after,
            ignore_numbers,
        ),
{
    lemma_scan_splits(scan_start(), before + x, after, ignore_numbers);
    lemma_scan_splits(scan_start(), before + y, after, ignore_numbers);
    lemma_scan_splits(scan_start(), before, x, ignore_numbers);
    lemma_scan_splits(scan_start(), before, y, ignore_numbers);
}

/// Reading one character.
proof fn lemma_one(scan: NameScan, c: char, ignore_numbers: bool)
    ensures
        scan_from(scan, seq![c], ignore_numbers) == with_part(
            scan,
            part_of(c, ignore_numbers),
        ),
{
    assert(seq![c].drop_last() =~= Seq::empty());
    assert(seq![c].last() == c);
    assert(scan_from(scan, Seq::empty(), ignore_numbers) == scan);
}

/// Reading two characters.
proof fn lemma_two(scan: NameScan, c: char, d: char, ignore_numbers: bool)
    ensures
        scan_from(scan, seq![c, d], ignore_numbers) == scan_from(
            scan_from(scan, seq![c], ignore_numbers),
            seq![d],
            ignore_numbers,
        ),
{
    lemma_scan_splits(scan, seq![c], seq![d], ignore_numbers);
    assert(seq![c] + seq![d] =~= seq![c, d]);
}

/// Reading nothing.
proof fn lemma_none(scan: NameScan, ignore_numbers: bool)
    ensures
        scan_from(scan, Seq::empty(), ignore_numbers) == scan,
{
}

/// Outside brackets a printable character that is neither part of a word nor a bracket acts exactly
/// like a space.
pub proof fn law_separator_acts_like_a_space(what: Seq<char>, i: int, ignore_numbers: bool)
    requires
        0 <= i < what.len(),
        ' ' <= what[i] && what[i] <= '~',
        !is_word_character(what[i], ignore_numbers),
        !is_opening_bracket(what[i]),
        !is_closing_bracket(what[i]),
        open_brackets(what.take(i)) == 0,
    ensures
        simplified_once(what.update(i, ' '), ignore_numbers) == simplified_once(
            what,
            ignore_numbers,
        ),
{
    let before = what.take(i);
    let after = what.skip(i + 1);
    let scan = scan_from(scan_start(), before, ignore_numbers);
    lemma_depth(before, ignore_numbers);
    lemma_printable_part(what[i], ignore_numbers);
    lemma_one(scan, what[i], ignore_numbers);
    lemma_one(scan, ' ', ignore_numbers);
    lemma_exchange(before, seq![what[i]], seq![' '], after, ignore_numbers);
    assert(before + seq![what[i]] + after =~= what);
    assert(before + seq![' '] + after =~= what.update(i, ' '));
}

/// Any white space acts exactly like a space, inside brackets and outside.
pub proof fn law_white_space_acts_like_a_space(what: Seq<char>, i: int, ignore_numbers: bool)
    requires
        0 <= i < what.len(),
        is_white_space(what[i]),
    ensures
        simplified_once(what.update(i, ' '), ignore_numbers) == simplified_once(
            what,
            ignore_numbers,
        ),
{
    let before = what.take(i);
    let after = what.skip(i + 1);
    let scan = scan_from(scan_start(), before, ignore_numbers);
    lemma_one(scan, what[i], ignore_numbers);
    lemma_one(scan, ' ', ignore_numbers);
    lemma_exchange(before, seq![what[i]], seq![' '], after, ignore_numbers);
    assert(before + seq![what[i]] + after =~= what);
    assert(before + seq![' '] + after =~= what.update(i, ' '));
}

/// Of two spaces in a row one is enough, and a title does as well without a space at its start.
pub proof fn law_spaces_collapse(before: Seq<char>, after: Seq<char>, ignore_numbers: bool)
    requires
        before.len() == 0 || before.last() == ' ',
    ensures
        simplified_once(before + seq![' '] + after, ignore_numbers) == simplified_once(
            before + after,
            ignore_numbers,
        ),
{
    let scan = scan_from(scan_start(), before, ignore_numbers);
    lemma_one(scan, ' ', ignore_numbers);
    lemma_none(scan, ignore_numbers);
    lemma_exchange(before, seq![' '], Seq::empty(), after, ignore_numbers);
    assert(before + Seq::empty() + after =~= before + after);
}

/// A printable title does as well without a space at its end.
pub proof fn law_trailing_space_is_dropped(what: Seq<char>, ignore_numbers: bool)
    requires
        is_printable(what),
    ensures
        simplified_once(what.push(' '), ignore_numbers) == simplified_once(what, ignore_numbers),
{
    lemma_printable_scan(what, ignore_numbers);
    lemma_scan_is_tidy(what, ignore_numbers);
    assert(what.push(' ').drop_last() =~= what);
    let text = scan_from(scan_start(), what, ignore_numbers).text;
    assert(text.push(' ').drop_last() =~= text);
}

/// Words that are separated by single spaces stay as they are.
pub proof fn law_tidy_words_stay(text: Seq<char>, ignore_numbers: bool)
    requires
        is_tidy(text),
        forall|i: int|
            0 <= i < text.len() ==> #[trigger] text[i] == ' ' || is_word_character(
                text[i],
                ignore_numbers,
            ),
    ensures
        simplified_once(text, ignore_numbers) == text,
{
    assert(is_printable(text));
    lemma_tidy_is_fixed(text, ignore_numbers);
}

/// A character inside brackets that is neither a bracket nor white space may as well be missing.
pub proof fn law_bracketed_character_is_dropped(
    before: Seq<char>,
    c: char,
    after: Seq<char>,
    ignore_numbers: bool,
)
    requires
        open_brackets(before) > 0,
        !is_opening_bracket(c),
        !is_closing_bracket(c),
        !is_white_space(c),
    ensures
        simplified_once(before + seq![c] + after, ignore_numbers) == simplified_once(
            before + after,
            ignore_numbers,
        ),
{
    let scan = scan_from(scan_start(), before, ignore_numbers);
    lemma_depth(before, ignore_numbers);
    lemma_one(scan, c, ignore_numbers);
    lemma_none(scan, ignore_numbers);
    lemma_exchange(before, seq![c], Seq::empty(), after, ignore_numbers);
    assert(before + Seq::empty() + after =~= before + after);
}

/// Brackets around nothing leave no trace, whether they are of one form or not; nor does a closing
/// bracket where none is open.
pub proof fn law_empty_brackets_are_dropped(
    before: Seq<char>,
    opening: char,
    closing: char,
    after: Seq<char>,
    ignore_numbers: bool,
)
    requires
        is_opening_bracket(opening),
        is_closing_bracket(closing),
    ensures
        simplified_once(before + seq![opening, closing] + after, ignore_numbers) == simplified_once(
            before + after,
            ignore_numbers,
        ),
        open_brackets(before) == 0 ==> simplified_once(
            before + seq![closing] + after,
            ignore_numbers,
        ) == simplified_once(before + after, ignore_numbers),
{
    let scan = scan_from(scan_start(), before, ignore_numbers);
    let open = scan_from(scan, seq![opening], ignore_numbers);
    lemma_depth(before, ignore_numbers);
    lemma_one(scan, opening, ignore_numbers);
    lemma_one(open, closing, ignore_numbers);
    lemma_one(scan, closing, ignore_numbers);
    lemma_two(scan, opening, closing, ignore_numbers);
    lemma_none(scan, ignore_numbers);
    assert(before + Seq::empty() + after =~= before + after);
    lemma_exchange(before, seq![opening, closing], Seq::empty(), after, ignore_numbers);
    if open_brackets(before) == 0 {
        lemma_exchange(before, seq![closing], Seq::empty(), after, ignore_numbers);
    }
}

/// A space may stand on either side of a bracket, and a bracket at the end leaves no trace.
pub proof fn law_bracket_itself_is_not_seen(
    before: Seq<char>,
    bracket: char,
    after: Seq<char>,
    ignore_numbers: bool,
)
    requires
        is_opening_bracket(bracket) || is_closing_bracket(bracket),
    ensures
        simplified_once(before + seq![bracket, ' '] + after, ignore_numbers) == simplified_once(
            before + seq![' ', bracket] + after,
            ignore_numbers,
        ),
        simplified_once(before.push(bracket), ignore_numbers) == simplified_once(
            before,
            ignore_numbers,
        ),
{
    let scan = scan_from(scan_start(), before, ignore_numbers);
    lemma_one(scan, bracket, ignore_numbers);
    lemma_one(scan, ' ', ignore_numbers);
    lemma_one(scan_from(scan, seq![bracket], ignore_numbers), ' ', ignore_numbers);
    lemma_one(scan_from(scan, seq![' '], ignore_numbers), bracket, ignore_numbers);
    lemma_two(scan, bracket, ' ', ignore_numbers);
    lemma_two(scan, ' ', bracket, ignore_numbers);
    lemma_exchange(before, seq![bracket, ' '], seq![' ', bracket], after, ignore_numbers);
    assert(before.push(bracket).drop_last() =~= before);
}

/// The text read so far of a printable title holds the word characters outside brackets.
proof fn lemma_words(what: Seq<char>, ignore_numbers: bool)
    requires
        is_printable(what),
    ensures
        words_of(scan_from(scan_start(), what, ignore_numbers).text, ignore_numbers)
            == words_outside(what, ignore_numbers),
    decreases what.len(),
{
    if what.len() > 0 {
        let rest = what.drop_last();
        let c = what.last();
        assert(c == what[what.len() - 1]);
        assert forall|i: int| 0 <= i < rest.len() implies ' ' <= #[trigger] rest[i] && rest[i]
            <= '~' by {
            assert(rest[i] == what[i]);
        }
        lemma_words(rest, ignore_numbers);
        lemma_depth(rest, ignore_numbers);
        lemma_printable_part(c, ignore_numbers);
        let text = scan_from(scan_start(), rest, ignore_numbers).text;
        assert(text.push(c).drop_last() =~= text);
        assert(text.push(' ').drop_last() =~= text);
    }
}

/// Of a printable title the simplified name holds exactly the word characters outside brackets, in
/// their order, and spaces.
pub proof fn law_name_holds_the_words_outside(what: Seq<char>, ignore_numbers: bool)
    requires
        is_printable(what),
    ensures
        words_of(simplified_once(what, ignore_numbers), ignore_numbers) == words_outside(
            what,
            ignore_numbers,
        ),
        forall|i: int|
            0 <= i < simplified_once(what, ignore_numbers).len() ==> (#[trigger] simplified_once(
                what,
                ignore_numbers,
            )[i] == ' ' || is_word_character(
                simplified_once(what, ignore_numbers)[i],
                ignore_numbers,
            )),
        is_tidy(simplified_once(what, ignore_numbers)),
{
    lemma_words(what, ignore_numbers);
    lemma_printable_scan(what, ignore_numbers);
    law_name_is_tidy(what, ignore_numbers);
    let text = scan_from(scan_start(), what, ignore_numbers).text;
    let name = simplified_once(what, ignore_numbers);
    assert forall|i: int| 0 <= i < name.len() implies (#[trigger] name[i] == ' '
        || is_word_character(name[i], ignore_numbers)) by {
        assert(name[i] == text[i]);
    }
}

/// Every letter of a title without brackets is in its simplified name, and so, where numbers are
/// not ignored, is every digit.
pub proof fn law_title_without_brackets_keeps_its_words(what: Seq<char>, ignore_numbers: bool)
    requires
        is_printable(what),
        forall|i: int|
            0 <= i < what.len() ==> !is_opening_bracket(#[trigger] what[i]),
    ensures
        words_of(simplified_once(what, ignore_numbers), ignore_numbers) == words_of(
            what,
            ignore_numbers,
        ),
{
    law_name_holds_the_words_outside(what, ignore_numbers);
    lemma_no_brackets(what, ignore_numbers);
}

proof fn lemma_no_brackets(what: Seq<char>, ignore_numbers: bool)
    requires
        forall|i: int|
            0 <= i < what.len() ==> !is_opening_bracket(#[trigger] what[i]),
    ensures
        open_brackets(what) == 0,
        words_outside(what, ignore_numbers) == words_of(what, ignore_numbers),
    decreases what.len(),
{
    if what.len() > 0 {
        let rest = what.drop_last();
        assert forall|i: int| 0 <= i < rest.len() implies !is_opening_bracket(
            #[trigger] rest[i],
        ) by {
            assert(rest[i] == what[i]);
        }
        lemma_no_brackets(rest, ignore_numbers);
        assert(what.last() == what[what.len() - 1]);
    }
}

/// A text without word characters, of word characters and spaces, and tidy, is empty.
proof fn lemma_no_words(text: Seq<char>, ignore_numbers: bool)
    requires
        is_tidy(text),
        forall|i: int|
            0 <= i < text.len() ==> (#[trigger] text[i] == ' ' || is_word_character(
                text[i],
                ignore_numbers,
            )),
    ensures
        words_of(text, ignore_numbers).len() == 0 <==> text.len() == 0,
{
    if text.len() > 0 {
        assert(text.last() == text[text.len() - 1]);
    }
}

/// The simplified name of a printable title: its letters outside brackets if there are any, without
/// the digits; else its digits outside brackets if there are any; else the trimmed title.
pub proof fn law_name_prefers_letters(what: Seq<char>)
    requires
        is_printable(what),
    ensures
        ({
            let letters = words_outside(what, true);
            let letters_and_digits = words_outside(what, false);
            let name = simplified(what);
            if letters.len() > 0 {
                &&& words_of(name, false) == letters
                &&& name == simplified_once(what, true)
            } else if letters_and_digits.len() > 0 {
                &&& words_of(name, false) == letters_and_digits
                &&& name == simplified_once(what, false)
            } else {
                name == trimmed(what)
            }
        }),
{
    law_name_holds_the_words_outside(what, true);
    law_name_holds_the_words_outside(what, false);
    lemma_no_words(simplified_once(what, true), true);
    lemma_no_words(simplified_once(what, false), false);
    lemma_printable_is_plain(what);
    lemma_words_without_digits(simplified_once(what, true));
}

proof fn lemma_words_without_digits(text: Seq<char>)
    requires
        forall|i: int|
            0 <= i < text.len() ==> (#[trigger] text[i] == ' ' || is_word_character(text[i], true)),
    ensures
        words_of(text, true) == words_of(text, false),
    decreases text.len(),
{
    if text.len() > 0 {
        let rest = text.drop_last();
        assert forall|i: int| 0 <= i < rest.len() implies (#[trigger] rest[i] == ' '
            || is_word_character(rest[i], true)) by {
            assert(rest[i] == text[i]);
        }
        lemma_words_without_digits(rest);
        assert(text.last() == text[text.len() - 1]);
    }
}

/// As long as a printable title has a word outside brackets, it does not matter for its simplified
/// name which separator stands between words.
pub proof fn law_separators_do_not_matter(what: Seq<char>, i: int)
    requires
        is_printable(what),
        0 <= i < what.len(),
        !is_word_character(what[i], false),
        !is_opening_bracket(what[i]),
        !is_closing_bracket(what[i]),
        open_brackets(what.take(i)) == 0,
        words_outside(what, false).len() > 0,
    ensures
        simplified(what.update(i, ' ')) == simplified(what),
{
    law_separator_acts_like_a_space(what, i, true);
    law_separator_acts_like_a_space(what, i, false);
    law_name_holds_the_words_outside(what, false);
    lemma_no_words(simplified_once(what, false), false);
}

/// Outside brackets a foreign character that is neither white space nor a kept number acts like a
/// space if it has no transliteration, and like its trimmed transliteration if that is made of words
/// with single spaces between them.
pub proof fn law_foreign_character_is_transliterated(
    before: Seq<char>,
    c: char,
    after: Seq<char>,
    ignore_numbers: bool,
)
    requires
        open_brackets(before) == 0,
        !(' ' <= c && c <= '~'),
        !is_white_space(c),
        ignore_numbers || !is_number(c),
    ensures
        ({
            let name = simplified_once(before + seq![c] + after, ignore_numbers);
            match table_transliteration(c) {
                None => name == simplified_once(before + seq![' '] + after, ignore_numbers),
                Some(t) => {
                    let words = trimmed(t);
                    words.len() > 0 && is_tidy(words) && (forall|i: int|
                        0 <= i < words.len() ==> (#[trigger] words[i] == ' ' || is_word_character(
                            words[i],
                            ignore_numbers,
                        ))) ==> name == simplified_once(before + words + after, ignore_numbers)
                },
            }
        }),
{
    let scan = scan_from(scan_start(), before, ignore_numbers);
    lemma_depth(before, ignore_numbers);
    lemma_one(scan, c, ignore_numbers);
    match table_transliteration(c) {
        None => {
            lemma_one(scan, ' ', ignore_numbers);
            lemma_exchange(before, seq![c], seq![' '], after, ignore_numbers);
        },
        Some(t) => {
            let words = trimmed(t);
            if words.len() > 0 && is_tidy(words) && (forall|i: int|
                0 <= i < words.len() ==> (#[trigger] words[i] == ' ' || is_word_character(
                    words[i],
                    ignore_numbers,
                ))) {
                assert(words[0] == ' ' || is_word_character(words[0], ignore_numbers));
                assert(words[0] != c);
                lemma_tidy_words(scan, words, ignore_numbers, words.len() as int);
                assert(words.take(words.len() as int) =~= words);
                assert(words[words.len() - 1] == words.last());
                lemma_exchange(before, seq![c], words, after, ignore_numbers);
            }
        },
    }
}

proof fn lemma_tidy_words(scan: NameScan, words: Seq<char>, ignore_numbers: bool, n: int)
    requires
        scan.depth == 0,
        is_tidy(words),
        forall|i: int|
            0 <= i < words.len() ==> (#[trigger] words[i] == ' ' || is_word_character(
                words[i],
                ignore_numbers,
            )),
        0 < n <= words.len(),
    ensures
        ({
            let after = scan_from(scan, words.take(n), ignore_numbers);
            &&& after.text == scan.text + words.take(n)
            &&& after.depth == 0
            &&& after.spaced == (words[n - 1] == ' ')
        }),
    decreases n,
{
    assert(words.take(n).drop_last() =~= words.take(n - 1));
    assert(words.take(n).last() == words[n - 1]);
    assert(scan.text + words.take(n) =~= (scan.text + words.take(n - 1)).push(words[n - 1]));
    lemma_printable_part(words[n - 1], ignore_numbers);
    if n > 1 {
        lemma_tidy_words(scan, words, ignore_numbers, n - 1);
        assert(!(words[n - 2] == ' ' && words[n - 2 + 1] == ' '));
    } else {
        assert(words.take(0) =~= Seq::empty());
        assert(words.first() == words[0]);
        assert(scan.text + words.take(0) =~= scan.text);
        lemma_none(scan, ignore_numbers);
    }
}

/// At the end of a title, outside brackets, a letter or a wanted number comes out as it stands, so
/// that another one in its place changes that one character.
pub proof fn law_word_character_is_taken_over(
    before: Seq<char>,
    c: char,
    d: char,
    ignore_numbers: bool,
)
    requires
        open_brackets(before) == 0,
        is_word_character(c, ignore_numbers) || (!ignore_numbers && is_number(c) && !is_white_space(
            c,
        )),
        is_word_character(d, ignore_numbers),
    ensures
        simplified_once(before.push(c), ignore_numbers).len() > 0,
        simplified_once(before.push(c), ignore_numbers).last() == c,
        simplified_once(before.push(c), ignore_numbers).drop_last().push(d) == simplified_once(
            before.push(d),
            ignore_numbers,
        ),
{
    lemma_depth(before, ignore_numbers);
    assert(before.push(c).drop_last() =~= before);
    assert(before.push(d).drop_last() =~= before);
    let text = scan_from(scan_start(), before, ignore_numbers).text;
    assert(text.push(c).drop_last() =~= text);
    assert(text.push(d).drop_last() =~= text);
}

/// A foreign character behind words comes out as its trimmed transliteration, whatever that holds,
/// after a space if there was one.
pub proof fn law_transliteration_is_taken_over(
    words: Seq<char>,
    spaced: bool,
    c: char,
    ignore_numbers: bool,
)
    requires
        is_tidy(words),
        forall|i: int|
            0 <= i < words.len() ==> (#[trigger] words[i] == ' ' || is_word_character(
                words[i],
                ignore_numbers,
            )),
        spaced ==> words.len() > 0,
        !(' ' <= c && c <= '~'),
        !is_white_space(c),
        ignore_numbers || !is_number(c),
        table_transliteration(c) matches Some(t) && trimmed(t).len() > 0 && trimmed(t)[0] != c,
    ensures
        ({
            let before = if spaced {
                words.push(' ')
            } else {
                words
            };
            simplified_once(before.push(c), ignore_numbers) == before + trimmed(
                table_transliteration(c)->0,
            )
        }),
{
    let before = if spaced {
        words.push(' ')
    } else {
        words
    };
    let r = trimmed(table_transliteration(c)->0);
    lemma_none(scan_start(), ignore_numbers);
    if words.len() > 0 {
        lemma_tidy_words(scan_start(), words, ignore_numbers, words.len() as int);
        assert(words.take(words.len() as int) =~= words);
        assert(words[words.len() - 1] == words.last());
        assert(scan_start().text + words =~= words);
    } else {
        assert(words =~= Seq::empty());
    }
    assert(words.push(' ').drop_last() =~= words);
    assert(before.push(c).drop_last() =~= before);
    assert(scan_from(scan_start(), before, ignore_numbers).text =~= before);
    lemma_trimmed_ends(table_transliteration(c)->0);
    assert((before + r).last() == r.last());
}

/// The simplified name of any title is the name without numbers, unless that is empty; then the name
/// with numbers, unless that is empty; then the trimmed transliteration, unless that is empty; and
/// then the trimmed title.
pub proof fn law_name_falls_back(what: Seq<char>)
    ensures
        ({
            let name = simplified(what);
            let plain = trimmed(transliterated(what));
            &&& simplified_once(what, true).len() > 0 ==> name == simplified_once(what, true)
            &&& name.len() == 0 ==> trimmed(what).len() == 0
            &&& simplified_once(what, true).len() == 0 ==> {
                &&& simplified_once(what, false).len() > 0 ==> name == simplified_once(what, false)
                &&& simplified_once(what, false).len() == 0 && plain.len() > 0 ==> name == plain
                &&& simplified_once(what, false).len() == 0 && plain.len() == 0 ==> name == trimmed(
                    what,
                )
            }
        }),
{
}

/// A foreign character whose transliteration is blank, outside brackets, leaves no trace behind a
/// word; but a space behind it counts even if there was a space before it.
pub proof fn law_blank_transliteration(
    before: Seq<char>,
    words: Seq<char>,
    c: char,
    after: Seq<char>,
    ignore_numbers: bool,
)
    requires
        !(' ' <= c && c <= '~'),
        !is_white_space(c),
        ignore_numbers || !is_number(c),
        table_transliteration(c) matches Some(t) && trimmed(t).len() == 0,
        open_brackets(before) == 0,
        before.len() > 0,
        is_word_character(before.last(), ignore_numbers),
        words.len() > 0,
        is_tidy(words),
        forall|i: int|
            0 <= i < words.len() ==> (#[trigger] words[i] == ' ' || is_word_character(
                words[i],
                ignore_numbers,
            )),
    ensures
        simplified_once(before + seq![c] + after, ignore_numbers) == simplified_once(
            before + after,
            ignore_numbers,
        ),
        simplified_once(words.push(' ').push(c).push(' ') + words, ignore_numbers) == words.push(
            ' ',
        ).push(' ') + words,
{
    let scan = scan_from(scan_start(), before, ignore_numbers);
    lemma_depth(before, ignore_numbers);
    lemma_depth(before.drop_last(), ignore_numbers);
    lemma_one(scan, c, ignore_numbers);
    lemma_none(scan, ignore_numbers);
    assert(trimmed(table_transliteration(c)->0) =~= Seq::empty());
    assert(open_brackets(before.drop_last()) == 0);
    assert(!scan.spaced);
    assert(scan.text + Seq::<char>::empty() =~= scan.text);
    lemma_exchange(before, seq![c], Seq::empty(), after, ignore_numbers);
    assert(before + Seq::empty() + after =~= before + after);
    let n = words.len() as int;
    let s1 = words.push(' ');
    let s2 = s1.push(c);
    let s3 = s2.push(' ');
    let text = words.push(' ').push(' ');
    lemma_tidy_words(scan_start(), words, ignore_numbers, n);
    assert(words.take(n) =~= words);
    assert(scan_start().text + words =~= words);
    assert(words[n - 1] == words.last());
    assert(s1.drop_last() =~= words);
    assert(s2.drop_last() =~= s1);
    assert(s3.drop_last() =~= s2);
    assert(s1 + Seq::<char>::empty() =~= s1);
    let r0 = scan_from(scan_start(), words, ignore_numbers);
    let r1 = scan_from(scan_start(), s1, ignore_numbers);
    let r2 = scan_from(scan_start(), s2, ignore_numbers);
    let read = scan_from(scan_start(), s3, ignore_numbers);
    assert(r1 == with_part(r0, part_of(' ', ignore_numbers)));
    assert(r2 == with_part(r1, part_of(c, ignore_numbers)));
    assert(read == with_part(r2, part_of(' ', ignore_numbers)));
    assert(read.text =~= text);
    assert(read.depth == 0);
    lemma_scan_splits(scan_start(), s3, words, ignore_numbers);
    lemma_tidy_words(read, words, ignore_numbers, n);
    assert((text + words).last() == words.last());
}

} // verus!
