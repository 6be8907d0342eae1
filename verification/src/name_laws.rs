//! What holds of simplified names.

use crate::simplified_name::{
    has_tidy_replacements, is_kept, is_printable, is_replaced, is_tidy, law_name_is_tidy,
    lemma_depth_ignores_numbers, lemma_scan_is_tidy, lemma_scan_splits, part_of, plain_length,
    pieces, replacement, scan_from, scan_start, simplified, simplified_once, transliterated,
    NameScan, Part,
};
use crate::text::{
    is_number, is_white_space, law_trimming_is_idempotent, lemma_trimmed_end, lemma_trimmed_start,
    trimmed, trimmed_start,
};
use vstd::prelude::*;

verus! {

/// A printable character other than the space, a bracket, and what is kept only separates words.
pub proof fn lemma_printable_part(c: char, ignore_numbers: bool)
    requires
        ' ' <= c && c <= '~',
    ensures
        !(part_of(c, ignore_numbers) is Replaced),
        c == ' ' <==> part_of(c, ignore_numbers) is Space,
        is_kept(c, ignore_numbers) ==> part_of(c, ignore_numbers) == Part::Kept(c),
        part_of(c, ignore_numbers) matches Part::Kept(k) ==> k == c && is_kept(c, ignore_numbers),
        c != ' ' && !is_kept(c, ignore_numbers) ==> part_of(c, ignore_numbers) is Separator
            || part_of(c, ignore_numbers) is OpenBracket || part_of(
            c,
            ignore_numbers,
        ) is CloseBracket,
        c != ' ' && !is_kept(c, ignore_numbers) && is_number(c) ==> part_of(
            c,
            ignore_numbers,
        ) is Separator,
{
    let one = seq![c];
    if c != ' ' {
        assert(!is_white_space(c));
        assert(one.first() == c && one.last() == c);
        assert(trimmed(one) == one);
        assert(replacement(c) == Some(one));
    }
}

/// The text read so far of a printable title.
pub proof fn lemma_printable_scan(what: Seq<char>, ignore_numbers: bool)
    requires
        is_printable(what),
    ensures
        ({
            let text = scan_from(scan_start(), what, ignore_numbers).text;
            forall|i: int|
                0 <= i < text.len() ==> #[trigger] text[i] == ' ' || (is_kept(
                    text[i],
                    ignore_numbers,
                ) && ' ' <= text[i] && text[i] <= '~')
        }),
        has_tidy_replacements(what, ignore_numbers),
    decreases what.len(),
{
    assert forall|i: int| 0 <= i < what.len() implies !#[trigger] is_replaced(
        what,
        i,
        ignore_numbers,
    ) by {
        lemma_printable_part(what[i], ignore_numbers);
    }
    if what.len() > 0 {
        let rest = what.drop_last();
        assert forall|i: int| 0 <= i < rest.len() implies ' ' <= #[trigger] rest[i] && rest[i]
            <= '~' by {
            assert(rest[i] == what[i]);
        }
        lemma_printable_scan(rest, ignore_numbers);
        let c = what.last();
        assert(c == what[what.len() - 1]);
        lemma_printable_part(c, ignore_numbers);
        let before = scan_from(scan_start(), rest, ignore_numbers).text;
        let text = scan_from(scan_start(), what, ignore_numbers).text;
        assert(text == before || text == before.push(' ') || (text == before.push(c) && is_kept(
            c,
            ignore_numbers,
        )));
        assert forall|i: int| 0 <= i < text.len() implies #[trigger] text[i] == ' ' || (is_kept(
            text[i],
            ignore_numbers,
        ) && ' ' <= text[i] && text[i] <= '~') by {
            if i < before.len() {
                assert(text[i] == before[i]);
            }
        }
    }
}

/// A tidy text of kept characters and spaces is read as it stands.
pub proof fn lemma_tidy_is_fixed(text: Seq<char>, ignore_numbers: bool)
    requires
        is_tidy(text),
        is_printable(text),
        forall|i: int|
            0 <= i < text.len() ==> #[trigger] text[i] == ' ' || is_kept(text[i], ignore_numbers),
    ensures
        simplified_once(text, ignore_numbers) == text,
{
    lemma_tidy_prefix(text, ignore_numbers, text.len() as int);
    assert(text.take(text.len() as int) =~= text);
}

proof fn lemma_tidy_prefix(text: Seq<char>, ignore_numbers: bool, n: int)
    requires
        is_tidy(text),
        is_printable(text),
        forall|i: int|
            0 <= i < text.len() ==> #[trigger] text[i] == ' ' || is_kept(text[i], ignore_numbers),
        0 <= n <= text.len(),
    ensures
        ({
            let scan = scan_from(scan_start(), text.take(n), ignore_numbers);
            &&& scan.text == text.take(n)
            &&& scan.depth == 0
            &&& scan.spaced == (n == 0 || text[n - 1] == ' ')
        }),
    decreases n,
{
    if n > 0 {
        lemma_tidy_prefix(text, ignore_numbers, n - 1);
        assert(text.take(n).drop_last() =~= text.take(n - 1));
        assert(text.take(n).last() == text[n - 1]);
        assert(text.take(n) =~= text.take(n - 1).push(text[n - 1]));
        lemma_printable_part(text[n - 1], ignore_numbers);
        if text[n - 1] == ' ' {
            if n >= 2 {
                assert(!(text[n - 2] == ' ' && text[n - 2 + 1] == ' '));
            } else {
                assert(text.first() == text[0]);
            }
        }
    }
}

/// Nothing is left of numbers and spaces where numbers are ignored.
proof fn lemma_numbers_are_ignored(text: Seq<char>)
    requires
        is_printable(text),
        forall|i: int| 0 <= i < text.len() ==> #[trigger] text[i] == ' ' || is_digit(text[i]),
    ensures
        scan_from(scan_start(), text, true) == scan_start(),
    decreases text.len(),
{
    if text.len() > 0 {
        let rest = text.drop_last();
        assert forall|i: int| 0 <= i < rest.len() implies (#[trigger] rest[i] == ' ' || is_digit(
            rest[i],
        )) && ' ' <= rest[i] && rest[i] <= '~' by {
            assert(rest[i] == text[i]);
        }
        lemma_numbers_are_ignored(rest);
        assert(text.last() == text[text.len() - 1]);
        lemma_printable_part(text.last(), true);
    }
}

/// Whether a character is one of the ten digits.
pub open spec fn is_digit(c: char) -> bool {
    '0' <= c && c <= '9'
}

/// Where reading a printable title without numbers leaves nothing, reading it with them leaves no
/// letters.
proof fn lemma_no_letters(what: Seq<char>)
    requires
        is_printable(what),
        scan_from(scan_start(), what, true).text.len() == 0,
    ensures
        ({
            let text = scan_from(scan_start(), what, false).text;
            forall|i: int| 0 <= i < text.len() ==> #[trigger] text[i] == ' ' || is_digit(text[i])
        }),
    decreases what.len(),
{
    if what.len() > 0 {
        let rest = what.drop_last();
        assert forall|i: int| 0 <= i < rest.len() implies ' ' <= #[trigger] rest[i] && rest[i]
            <= '~' by {
            assert(rest[i] == what[i]);
        }
        let c = what.last();
        assert(c == what[what.len() - 1]);
        lemma_printable_part(c, true);
        lemma_printable_part(c, false);
        lemma_no_letters(rest);
        lemma_depth_ignores_numbers(rest);
    }
}

/// Reading more never takes anything away.
proof fn lemma_scan_grows(scan: NameScan, what: Seq<char>, ignore_numbers: bool)
    ensures
        scan_from(scan, what, ignore_numbers).text.len() >= scan.text.len(),
    decreases what.len(),
{
    if what.len() > 0 {
        lemma_scan_grows(scan, what.drop_last(), ignore_numbers);
    }
}

/// Spaces before anything else leave no trace.
proof fn lemma_leading_spaces(spaces: Seq<char>, ignore_numbers: bool)
    requires
        forall|i: int| 0 <= i < spaces.len() ==> #[trigger] spaces[i] == ' ',
    ensures
        scan_from(scan_start(), spaces, ignore_numbers) == scan_start(),
    decreases spaces.len(),
{
    if spaces.len() > 0 {
        let rest = spaces.drop_last();
        assert forall|i: int| 0 <= i < rest.len() implies #[trigger] rest[i] == ' ' by {
            assert(rest[i] == spaces[i]);
        }
        lemma_leading_spaces(rest, ignore_numbers);
        assert(spaces.last() == spaces[spaces.len() - 1]);
    }
}

/// Where nothing is left of a printable title, nothing is left of the trimmed title.
proof fn lemma_trimmed_leaves_nothing(what: Seq<char>, ignore_numbers: bool)
    requires
        is_printable(what),
        simplified_once(what, ignore_numbers).len() == 0,
    ensures
        simplified_once(trimmed(what), ignore_numbers).len() == 0,
{
    let start = trimmed_start(what);
    let text = trimmed(what);
    lemma_trimmed_start(what);
    lemma_trimmed_end(start);
    let dropped = what.len() - start.len();
    let lead = what.take(dropped);
    let trail = start.skip(text.len() as int);
    assert(lead + text + trail =~= what);
    assert forall|i: int| 0 <= i < lead.len() implies #[trigger] lead[i] == ' ' by {
        assert(lead[i] == what[i]);
        assert(is_white_space(what[i]));
    }
    lemma_leading_spaces(lead, ignore_numbers);
    lemma_scan_splits(scan_start(), lead + text, trail, ignore_numbers);
    lemma_scan_splits(scan_start(), lead, text, ignore_numbers);
    lemma_scan_grows(
        scan_from(scan_start(), text, ignore_numbers),
        trail,
        ignore_numbers,
    );
    lemma_printable_scan(what, ignore_numbers);
    lemma_scan_is_tidy(what, ignore_numbers);
}

/// A printable text is its own transliteration.
pub proof fn lemma_printable_is_plain(what: Seq<char>)
    requires
        is_printable(what),
    ensures
        transliterated(what) == what,
        plain_length(what) == what.len(),
    decreases what.len(),
{
    if what.len() > 0 {
        let rest = what.drop_first();
        assert forall|i: int| 0 <= i < rest.len() implies ' ' <= #[trigger] rest[i] && rest[i]
            <= '~' by {
            assert(rest[i] == what[i + 1]);
        }
        lemma_printable_is_plain(rest);
        assert(what.first() == what[0]);
    }
    let n = what.len() as int;
    assert(what.take(n) =~= what);
    assert(pieces(what.skip(n), 0) =~= Seq::empty());
    assert(transliterated(what) =~= what);
}

/// Simplifying twice is simplifying once: the simplified name of a printable ASCII title is its own
/// simplified name.
pub proof fn law_simplified_name_is_simple(what: Seq<char>)
    requires
        is_printable(what),
    ensures
        simplified(simplified(what)) == simplified(what),
{
    let short = simplified_once(what, true);
    let long = simplified_once(what, false);
    lemma_printable_scan(what, true);
    lemma_printable_scan(what, false);
    law_name_is_tidy(what, true);
    law_name_is_tidy(what, false);
    lemma_scan_is_tidy(what, true);
    lemma_scan_is_tidy(what, false);
    lemma_printable_is_plain(what);
    if short.len() > 0 {
        let text = scan_from(scan_start(), what, true).text;
        assert forall|i: int| 0 <= i < short.len() implies (#[trigger] short[i] == ' ' || is_kept(
            short[i],
            true,
        )) && ' ' <= short[i] && short[i] <= '~' by {
            assert(short[i] == text[i]);
        }
        lemma_tidy_is_fixed(short, true);
    } else if long.len() > 0 {
        let text = scan_from(scan_start(), what, false).text;
        lemma_no_letters(what);
        assert forall|i: int| 0 <= i < long.len() implies (#[trigger] long[i] == ' ' || is_digit(
            long[i],
        )) && ' ' <= long[i] && long[i] <= '~' by {
            assert(long[i] == text[i]);
        }
        lemma_numbers_are_ignored(long);
        lemma_tidy_is_fixed(long, false);
    } else {
        let text = trimmed(what);
        crate::text::lemma_trimmed_ends(what);
        lemma_trimmed_leaves_nothing(what, true);
        lemma_trimmed_leaves_nothing(what, false);
        assert forall|i: int| 0 <= i < text.len() implies ' ' <= #[trigger] text[i] && text[i]
            <= '~' by {
            assert(what.contains(text[i]));
        }
        lemma_printable_is_plain(text);
        law_trimming_is_idempotent(what);
    }
}

} // verus!
