//! Simplified names: titles reduced to what makes two of them comparable.

use crate::text::{is_letter, is_number, is_white_space, trimmed};
use vstd::prelude::*;
use vstd::string::*;

verus! {

/// What the transliteration table has for a character other than those from the space to the tilde.
pub uninterp spec fn table_transliteration(c: char) -> Option<Seq<char>>;

/// The ASCII transliteration of a character, where there is one. The characters from the space to
/// the tilde stand for themselves.
pub open spec fn transliteration(c: char) -> Option<Seq<char>> {
    if ' ' <= c && c <= '~' {
        Some(seq![c])
    } else {
        table_transliteration(c)
    }
}

/// How many characters at the start of a text are below U+007F.
pub open spec fn plain_length(s: Seq<char>) -> nat
    decreases s.len(),
{
    if s.len() > 0 && (s.first() as u32) < 127 {
        plain_length(s.drop_first()) + 1
    } else {
        0
    }
}

/// What stands for one character of a text. A transliteration of several characters loses the space
/// at its end where the text ends or another space follows.
pub open spec fn piece_at(s: Seq<char>, i: int) -> Seq<char> {
    match transliteration(s[i]) {
        None => seq!['[', '?', ']'],
        Some(t) => {
            let followed_by_space = i + 1 == s.len() || (match transliteration(s[i + 1]) {
                Some(next) => next.len() > 0 && next[0] == ' ',
                None => false,
            });
            if t.len() > 1 && t.last() == ' ' && followed_by_space {
                t.drop_last()
            } else {
                t
            }
        },
    }
}

/// What stands for the first characters of a text.
pub open spec fn pieces(s: Seq<char>, count: nat) -> Seq<char>
    decreases count,
{
    if count == 0 {
        Seq::empty()
    } else {
        pieces(s, (count - 1) as nat) + piece_at(s, count - 1)
    }
}

/// The ASCII transliteration of a whole text: it is left as it is up to the first character that is
/// not below U+007F, and transliterated piece by piece from there on.
pub open spec fn transliterated(s: Seq<char>) -> Seq<char> {
    let plain = plain_length(s);
    let rest = s.skip(plain as int);
    s.take(plain as int) + pieces(rest, rest.len())
}

/// `deunicode::deunicode_char`: a table lookup. What it finds is ASCII, and the characters from
/// the space to the tilde stand for themselves.
pub assume_specification[ deunicode::deunicode_char ](ch: char) -> (r: Option<&'static str>)
    ensures
        match r {
            Some(t) => if ' ' <= ch && ch <= '~' {
                t@ == seq![ch]
            } else {
                table_transliteration(ch) == Some(t@)
            },
            None => !(' ' <= ch && ch <= '~') && table_transliteration(ch) is None,
        },
        r matches Some(t) ==> forall|i: int| 0 <= i < t@.len() ==> (#[trigger] t@[i] as u32) < 128,
;

/// `deunicode::deunicode`: copies the characters below U+007F that a text starts with, and puts the
/// transliteration of each further character, or `[?]`, behind them.
pub assume_specification[ deunicode::deunicode ](s: &str) -> (r: String)
    ensures
        r@ == transliterated(s@),
;

/// What a character of a title amounts to.
pub enum Part {
    OpenBracket,
    CloseBracket,
    Space,
    /// A character that is taken over.
    Kept(char),
    /// A character, such as a dot or a comma, that only separates words.
    Separator,
    /// A character with a replacement of its own.
    Replaced(Seq<char>),
}

/// What a character amounts to, given what is known of it: whether it is white space, whether it
/// is a letter or a wanted number, and its replacement, where there is one.
pub open spec fn part_with(
    character: char,
    white_space: bool,
    kept: bool,
    replacement: Option<Seq<char>>,
) -> Part {
    if white_space || character == ' ' {
        Part::Space
    } else if character == '(' || character == '[' {
        Part::OpenBracket
    } else if character == ')' || character == ']' {
        Part::CloseBracket
    } else if kept {
        Part::Kept(character)
    } else {
        match replacement {
            Some(r) if r.len() == 0 || r[0] != character => Part::Replaced(r),
            _ => Part::Separator,
        }
    }
}

/// Whether a character is taken over unchanged.
pub open spec fn is_kept(c: char, ignore_numbers: bool) -> bool {
    is_letter(c) || (!ignore_numbers && is_number(c))
}

/// What replaces a character: its transliteration, trimmed.
pub open spec fn replacement(c: char) -> Option<Seq<char>> {
    match transliteration(c) {
        Some(t) => Some(trimmed(t)),
        None => None,
    }
}

/// What a character of a title amounts to.
pub open spec fn part_of(c: char, ignore_numbers: bool) -> Part {
    part_with(c, is_white_space(c), is_kept(c, ignore_numbers), replacement(c))
}

/// How far a title has been read.
pub struct NameScan {
    /// The simplified text so far.
    pub text: Seq<char>,
    /// How many brackets are open.
    pub depth: nat,
    /// Whether no further space is wanted at this place.
    pub spaced: bool,
}

/// The text so far, with a space unless there is one already.
pub open spec fn with_space(scan: NameScan) -> NameScan {
    if scan.spaced {
        scan
    } else {
        NameScan { text: scan.text.push(' '), spaced: true, ..scan }
    }
}

/// Adds one more part. Inside brackets only spaces and brackets count.
pub open spec fn with_part(scan: NameScan, part: Part) -> NameScan {
    match part {
        Part::OpenBracket => NameScan { depth: scan.depth + 1, ..scan },
        Part::CloseBracket => NameScan {
            depth: if scan.depth == 0 {
                0
            } else {
                (scan.depth - 1) as nat
            },
            ..scan
        },
        Part::Space => with_space(scan),
        _ if scan.depth > 0 => scan,
        Part::Kept(c) => NameScan { text: scan.text.push(c), spaced: false, ..scan },
        Part::Separator => with_space(scan),
        Part::Replaced(r) => NameScan { text: scan.text + r, spaced: false, ..scan },
    }
}

/// Reads a stretch of a title, from a given state on.
pub open spec fn scan_from(scan: NameScan, what: Seq<char>, ignore_numbers: bool) -> NameScan
    decreases what.len(),
{
    if what.len() == 0 {
        scan
    } else {
        with_part(
            scan_from(scan, what.drop_last(), ignore_numbers),
            part_of(what.last(), ignore_numbers),
        )
    }
}

/// The state before the first character: nothing read, and no space wanted in front.
pub open spec fn scan_start() -> NameScan {
    NameScan { text: Seq::empty(), depth: 0, spaced: true }
}

/// A text without the space at its end, if there is one.
pub open spec fn without_last_space(text: Seq<char>) -> Seq<char> {
    if text.len() > 0 && text.last() == ' ' {
        text.drop_last()
    } else {
        text
    }
}

/// The simplified name with numbers ignored or kept: letters and transliterations outside
/// brackets, words separated by spaces.
pub open spec fn simplified_once(what: Seq<char>, ignore_numbers: bool) -> Seq<char> {
    without_last_space(scan_from(scan_start(), what, ignore_numbers).text)
}

/// The first of four candidates that is not empty, or the last.
pub open spec fn first_usable(
    without_numbers: Seq<char>,
    with_numbers: Seq<char>,
    transliterated: Seq<char>,
    title: Seq<char>,
) -> Seq<char> {
    if without_numbers.len() > 0 {
        without_numbers
    } else if with_numbers.len() > 0 {
        with_numbers
    } else if transliterated.len() > 0 {
        transliterated
    } else {
        title
    }
}

/// The simplified name: without numbers if that leaves anything, else with them, else the plain
/// transliteration, else the trimmed text itself.
pub open spec fn simplified(what: Seq<char>) -> Seq<char> {
    first_usable(
        simplified_once(what, true),
        simplified_once(what, false),
        trimmed(transliterated(what)),
        trimmed(what),
    )
}

/// `String::pop`: takes the last character off, if there is one.
pub assume_specification[ String::pop ](s: &mut String) -> (r: Option<char>)
    ensures
        old(s)@.len() == 0 ==> r is None && final(s)@ == old(s)@,
        old(s)@.len() > 0 ==> r == Some(old(s)@.last()) && final(s)@ == old(s)@.drop_last(),
;

/// What a character of a title amounts to.
#[derive(Debug)]
pub enum NamePart<'a> {
    OpenBracket,
    CloseBracket,
    Space,
    Kept(char),
    Separator,
    Replaced(&'a str),
}

impl<'a> View for NamePart<'a> {
    type V = Part;

    open spec fn view(&self) -> Part {
        match *self {
            NamePart::OpenBracket => Part::OpenBracket,
            NamePart::CloseBracket => Part::CloseBracket,
            NamePart::Space => Part::Space,
            NamePart::Kept(c) => Part::Kept(c),
            NamePart::Separator => Part::Separator,
            NamePart::Replaced(r) => Part::Replaced(r@),
        }
    }
}

/// The view of an optional text.
pub open spec fn optional_text(text: Option<&str>) -> Option<Seq<char>> {
    match text {
        Some(t) => Some(t@),
        None => None,
    }
}

/// Whether a text starts with a given character.
fn starts_with_char(text: &str, c: char) -> (r: bool)
    ensures
        r == (text@.len() > 0 && text@[0] == c),
{
    let mut characters = text.chars();
    match characters.next() {
        Some(first) => first == c,
        None => false,
    }
}

/// Sorts a character in, given what is known of it.
pub fn classify<'a>(
    character: char,
    white_space: bool,
    kept: bool,
    replacement: Option<&'a str>,
) -> (r: NamePart<'a>)
    ensures
        r@ == part_with(character, white_space, kept, optional_text(replacement)),
{
    if white_space || character == ' ' {
        NamePart::Space
    } else if character == '(' || character == '[' {
        NamePart::OpenBracket
    } else if character == ')' || character == ']' {
        NamePart::CloseBracket
    } else if kept {
        NamePart::Kept(character)
    } else {
        match replacement {
            Some(new_items) => {
                // A dot or a comma is its own transliteration and mostly useless.
                if starts_with_char(new_items, character) {
                    NamePart::Separator
                } else {
                    NamePart::Replaced(new_items)
                }
            },
            None => NamePart::Separator,
        }
    }
}

/// A simplified name in the making.
#[derive(Debug)]
pub struct NameBuilder {
    text: String,
    depth: usize,
    spaced: bool,
}

impl View for NameBuilder {
    type V = NameScan;

    closed spec fn view(&self) -> NameScan {
        NameScan { text: self.text@, depth: self.depth as nat, spaced: self.spaced }
    }
}

impl NameBuilder {
    /// Nothing read yet.
    pub fn new() -> (r: NameBuilder)
        ensures
            r@ == scan_start(),
    {
        NameBuilder { text: String::new(), depth: 0, spaced: true }
    }

    fn add_space(&mut self)
        ensures
            final(self)@ == with_space(old(self)@),
    {
        if !self.spaced {
            self.text.push(' ');
            self.spaced = true;
        }
    }

    /// Adds one more part of the title.
    pub fn add_part(&mut self, part: NamePart<'_>)
        requires
            old(self)@.depth < usize::MAX,
        ensures
            final(self)@ == with_part(old(self)@, part@),
    {
        match part {
            NamePart::OpenBracket => {
                self.depth = self.depth + 1;
            },
            NamePart::CloseBracket => {
                if self.depth > 0 {
                    self.depth = self.depth - 1;
                }
            },
            NamePart::Space => {
                self.add_space();
            },
            NamePart::Kept(c) => {
                if self.depth == 0 {
                    self.text.push(c);
                    self.spaced = false;
                }
            },
            NamePart::Separator => {
                if self.depth == 0 {
                    self.add_space();
                }
            },
            NamePart::Replaced(items) => {
                if self.depth == 0 {
                    self.text.append(items);
                    self.spaced = false;
                }
            },
        }
    }

    /// The finished name.
    pub fn finish(self) -> (r: String)
        ensures
            r@ == without_last_space(self@.text),
    {
        let mut text = self.text;
        match text.pop() {
            Some(' ') => {},
            Some(last) => {
                text.push(last);
                assert(text@ =~= self.text@);
            },
            None => {},
        }
        text
    }
}

/// One character other than white space is trimmed already.
proof fn lemma_trimmed_one(c: char)
    ensures
        !is_white_space(c) ==> trimmed(seq![c]) == seq![c],
{
}

/// Whether a text is made of the ASCII characters from the space to the tilde.
pub open spec fn is_printable(s: Seq<char>) -> bool {
    forall|i: int| 0 <= i < s.len() ==> ' ' <= #[trigger] s[i] && s[i] <= '~'
}

/// Simplifies a title in one pass over its characters. With numbers ignored the outcome is ASCII;
/// of a printable ASCII title only letters, numbers and single spaces between them are left.
pub fn get_simplified_name_internal(what: &str, ignore_numbers: bool) -> (r: String)
    ensures
        r@ == simplified_once(what@, ignore_numbers),
        ignore_numbers ==> forall|i: int| 0 <= i < r@.len() ==> (#[trigger] r@[i] as u32) < 128,
        is_printable(what@) ==> is_tidy(r@) && forall|i: int|
            0 <= i < r@.len() ==> #[trigger] r@[i] == ' ' || is_kept(r@[i], ignore_numbers),
{
    let length = what.unicode_len();
    let mut name = NameBuilder::new();
    for character in it: what.chars()
        invariant
            it.seq() == what@,
            what@.len() == length,
            name@.depth <= it.index(),
            name@ == scan_from(scan_start(), what@.take(it.index()), ignore_numbers),
            ignore_numbers ==> forall|i: int|
                0 <= i < name@.text.len() ==> (#[trigger] name@.text[i] as u32) < 128,
            is_printable(what@) ==> forall|j: int|
                0 <= j < it.index() ==> !#[trigger] is_replaced(what@, j, ignore_numbers),
            is_printable(what@) ==> forall|i: int|
                0 <= i < name@.text.len() ==> #[trigger] name@.text[i] == ' ' || is_kept(
                    name@.text[i],
                    ignore_numbers,
                ),
    {
        proof {
            assert(what@.take(it.index() + 1).drop_last() =~= what@.take(it.index()));
            assert(what@.take(it.index() + 1).last() == character);
            lemma_trimmed_one(character);
        }
        let white_space = character.is_whitespace();
        let kept = character.is_ascii_alphabetic() || (!ignore_numbers && character.is_numeric());
        let replacement = match deunicode::deunicode_char(character) {
            Some(text) => {
                proof {
                    crate::text::lemma_trimmed_ends(text@);
                }
                Some(text.trim())
            },
            None => None,
        };
        let part = classify(character, white_space, kept, replacement);
        assert(part@ == part_of(character, ignore_numbers));
        name.add_part(part);
    }
    assert(what@.take(what@.len() as int) =~= what@);
    proof {
        if is_printable(what@) {
            law_name_is_tidy(what@, ignore_numbers);
        }
    }
    name.finish()
}

/// Picks the first of four candidates for a simplified name that is not empty, or the last.
pub fn pick_name(
    without_numbers: String,
    with_numbers: String,
    transliterated: &str,
    title: &str,
) -> (r: String)
    ensures
        r@ == first_usable(without_numbers@, with_numbers@, transliterated@, title@),
{
    if !without_numbers.as_str().is_empty() {
        without_numbers
    } else if !with_numbers.as_str().is_empty() {
        with_numbers
    } else if !transliterated.is_empty() {
        transliterated.to_owned()
    } else {
        // An empty name would be ignored everywhere, so the title is more useful.
        title.to_owned()
    }
}

/// Simplifies a title for comparison with others.
pub fn get_simplified_name(what: &str) -> (r: String)
    ensures
        r@ == simplified(what@),
{
    let without_numbers = get_simplified_name_internal(what, true);
    if !without_numbers.as_str().is_empty() {
        return without_numbers;
    }
    let with_numbers = get_simplified_name_internal(what, false);
    let simplified_unicode = deunicode::deunicode(what);
    pick_name(without_numbers, with_numbers, simplified_unicode.trim(), what.trim())
}

/// A simplified name is empty only where the title is nothing but white space: whatever else
/// happens, the trimmed title is still there to fall back on.
pub proof fn law_only_a_blank_title_has_an_empty_name(what: Seq<char>)
    ensures
        simplified(what).len() == 0 ==> forall|i: int|
            0 <= i < what.len() ==> is_white_space(#[trigger] what[i]),
{
    crate::text::lemma_trimmed_empty(what);
}

/// A title may be read in two stretches.
pub proof fn lemma_scan_splits(scan: NameScan, a: Seq<char>, b: Seq<char>, ignore_numbers: bool)
    ensures
        scan_from(scan, a + b, ignore_numbers) == scan_from(
            scan_from(scan, a, ignore_numbers),
            b,
            ignore_numbers,
        ),
    decreases b.len(),
{
    if b.len() == 0 {
        assert(a + b =~= a);
    } else {
        assert((a + b).drop_last() =~= a + b.drop_last());
        lemma_scan_splits(scan, a, b.drop_last(), ignore_numbers);
    }
}

/// How many brackets are open before a position of a title.
pub open spec fn depth_at(what: Seq<char>, i: int) -> nat {
    scan_from(scan_start(), what.take(i), true).depth
}

/// Brackets are counted alike with numbers and without.
pub proof fn lemma_depth_ignores_numbers(what: Seq<char>)
    ensures
        scan_from(scan_start(), what, true).depth == scan_from(scan_start(), what, false).depth,
    decreases what.len(),
{
    if what.len() > 0 {
        lemma_depth_ignores_numbers(what.drop_last());
    }
}

/// What stands inside brackets leaves no trace in the simplified name: a character there that is
/// neither a bracket nor white space may as well be missing.
pub proof fn law_bracketed_characters_are_dropped(what: Seq<char>, i: int, ignore_numbers: bool)
    requires
        0 <= i < what.len(),
        depth_at(what, i) > 0,
        !(part_of(what[i], ignore_numbers) is Space),
        !(part_of(what[i], ignore_numbers) is OpenBracket),
        !(part_of(what[i], ignore_numbers) is CloseBracket),
    ensures
        simplified_once(what.remove(i), ignore_numbers) == simplified_once(what, ignore_numbers),
{
    let before = what.take(i);
    let after = what.skip(i + 1);
    let at = seq![what[i]];
    lemma_depth_ignores_numbers(before);
    assert(before + at =~= what.take(i + 1));
    assert((before + at) + after =~= what);
    assert(before + after =~= what.remove(i));
    lemma_scan_splits(scan_start(), before + at, after, ignore_numbers);
    lemma_scan_splits(scan_start(), before, after, ignore_numbers);
    assert((before + at).drop_last() =~= before);
    assert((before + at).last() == what[i]);
}

/// Whether a text neither starts nor ends with a space, nor has two in a row.
pub open spec fn is_tidy(text: Seq<char>) -> bool {
    &&& text.len() > 0 ==> text.first() != ' ' && text.last() != ' '
    &&& forall|i: int| 0 <= i < text.len() - 1 ==> !(#[trigger] text[i] == ' ' && text[i + 1] == ' ')
}

/// Whether the character at a position is replaced by its transliteration.
pub open spec fn is_replaced(what: Seq<char>, i: int, ignore_numbers: bool) -> bool {
    depth_at(what, i) == 0 && part_of(what[i], ignore_numbers) is Replaced
}

/// Whether every transliteration that goes into the simplified name is tidy and not empty.
pub open spec fn has_tidy_replacements(what: Seq<char>, ignore_numbers: bool) -> bool {
    forall|i: int|
        0 <= i < what.len() && #[trigger] is_replaced(what, i, ignore_numbers) ==> ({
            let r = part_of(what[i], ignore_numbers)->Replaced_0;
            r.len() > 0 && is_tidy(r)
        })
}

/// The text read so far has no space at its start and no two in a row.
pub proof fn lemma_scan_is_tidy(what: Seq<char>, ignore_numbers: bool)
    requires
        has_tidy_replacements(what, ignore_numbers),
    ensures
        ({
            let scan = scan_from(scan_start(), what, ignore_numbers);
            &&& scan.text.len() == 0 ==> scan.spaced
            &&& scan.text.len() > 0 ==> scan.text.first() != ' ' && (scan.spaced <==> scan.text.last()
                == ' ')
            &&& forall|i: int|
                0 <= i < scan.text.len() - 1 ==> !(#[trigger] scan.text[i] == ' ' && scan.text[i + 1]
                    == ' ')
        }),
    decreases what.len(),
{
    if what.len() > 0 {
        let prefix = what.drop_last();
        let n = what.len() - 1;
        assert forall|i: int| 0 <= i < prefix.len() && #[trigger] is_replaced(
            prefix,
            i,
            ignore_numbers,
        ) implies ({
            let r = part_of(prefix[i], ignore_numbers)->Replaced_0;
            r.len() > 0 && is_tidy(r)
        }) by {
            assert(prefix.take(i) =~= what.take(i));
            assert(is_replaced(what, i, ignore_numbers));
        }
        lemma_scan_is_tidy(prefix, ignore_numbers);
        assert(what.take(n) =~= prefix);
        lemma_depth_ignores_numbers(prefix);
        let scan = scan_from(scan_start(), prefix, ignore_numbers);
        if is_replaced(what, n, ignore_numbers) {
            let r = part_of(what[n], ignore_numbers)->Replaced_0;
            let text = scan.text + r;
            assert(text.first() != ' ') by {
                if scan.text.len() == 0 {
                    assert(text.first() == r.first());
                }
            }
            assert(text.last() == r.last());
            assert forall|i: int| 0 <= i < text.len() - 1 implies !(#[trigger] text[i] == ' '
                && text[i + 1] == ' ') by {
                if i >= scan.text.len() {
                    assert(text[i] == r[i - scan.text.len()]);
                    assert(text[i + 1] == r[i + 1 - scan.text.len()]);
                } else if i + 1 == scan.text.len() {
                    assert(text[i + 1] == r.first());
                } else {
                    assert(text[i] == scan.text[i] && text[i + 1] == scan.text[i + 1]);
                }
            }
        }
    }
}

/// A simplified name neither starts nor ends with a space, nor has two in a row, as long as the
/// transliterations that go into it are like that and none of them is empty.
pub proof fn law_name_is_tidy(what: Seq<char>, ignore_numbers: bool)
    requires
        has_tidy_replacements(what, ignore_numbers),
    ensures
        is_tidy(simplified_once(what, ignore_numbers)),
{
    lemma_scan_is_tidy(what, ignore_numbers);
    let text = scan_from(scan_start(), what, ignore_numbers).text;
    if text.len() > 1 && text.last() == ' ' {
        let n = text.len() - 2;
        assert(text[n] != ' ');
        assert(text.drop_last().last() == text[n]);
    }
}

} // verus!
