//! What the text about the results of a search tells.

use crate::music_entry::EntryModel;
use crate::report::{
    entry_line, entry_lines, group_texts, headline, referenced_texts, results_text,
};
use crate::same_music::SameMusicModel;
use crate::text::decimal;
use vstd::prelude::*;

verus! {

/// Whether a text holds another one in a piece.
pub open spec fn tells(text: Seq<char>, part: Seq<char>) -> bool {
    exists|i: int|
        0 <= i <= text.len() - part.len() && #[trigger] text.subrange(i, i + part.len()) == part
}

proof fn lemma_tells(before: Seq<char>, part: Seq<char>, after: Seq<char>)
    ensures
        tells(before + part + after, part),
{
    let text = before + part + after;
    let i = before.len() as int;
    assert(text.subrange(i, i + part.len()) =~= part);
}

/// What a longer text holds of a part of it, it holds.
proof fn lemma_tells_more(before: Seq<char>, text: Seq<char>, after: Seq<char>, part: Seq<char>)
    requires
        tells(text, part),
    ensures
        tells(before + text + after, part),
{
    let i = choose|i: int|
        0 <= i <= text.len() - part.len() && #[trigger] text.subrange(i, i + part.len()) == part;
    let all = before + text + after;
    let j = before.len() + i;
    assert(all.subrange(j, j + part.len()) =~= text.subrange(i, i + part.len()));
}

/// Lines about some files and then others are the lines about the former and then the latter.
pub proof fn law_lines_add_up(a: Seq<EntryModel>, b: Seq<EntryModel>)
    ensures
        entry_lines(a + b) == entry_lines(a) + entry_lines(b),
    decreases b.len(),
{
    if b.len() == 0 {
        assert(a + b =~= a);
        assert(entry_lines(a) + entry_lines(b) =~= entry_lines(a));
    } else {
        law_lines_add_up(a, b.drop_last());
        assert((a + b).drop_last() =~= a + b.drop_last());
        assert((a + b).last() == b.last());
        assert(entry_lines(a + b) =~= entry_lines(a) + entry_lines(b));
    }
}

/// The text about some groups and then others is the text about the former and then the latter.
pub proof fn law_group_texts_add_up(a: Seq<Seq<EntryModel>>, b: Seq<Seq<EntryModel>>)
    ensures
        group_texts(a + b) == group_texts(a) + group_texts(b),
    decreases b.len(),
{
    if b.len() == 0 {
        assert(a + b =~= a);
        assert(group_texts(a) + group_texts(b) =~= group_texts(a));
    } else {
        law_group_texts_add_up(a, b.drop_last());
        assert((a + b).drop_last() =~= a + b.drop_last());
        assert((a + b).last() == b.last());
        assert(group_texts(a + b) =~= group_texts(a) + group_texts(b));
    }
}

/// The text about some reference files and then others is the text about the former and then the
/// latter.
pub proof fn law_referenced_texts_add_up(
    a: Seq<(EntryModel, Seq<EntryModel>)>,
    b: Seq<(EntryModel, Seq<EntryModel>)>,
)
    ensures
        referenced_texts(a + b) == referenced_texts(a) + referenced_texts(b),
    decreases b.len(),
{
    if b.len() == 0 {
        assert(a + b =~= a);
        assert(referenced_texts(a) + referenced_texts(b) =~= referenced_texts(a));
    } else {
        law_referenced_texts_add_up(a, b.drop_last());
        assert((a + b).drop_last() =~= a + b.drop_last());
        assert((a + b).last() == b.last());
        assert(referenced_texts(a + b) =~= referenced_texts(a) + referenced_texts(b));
    }
}

/// Whether a text has a line that tells all of a file: its title, artist, year, length, genre and
/// bitrate, and its path in quotes.
pub open spec fn tells_all_of(text: Seq<char>, entry: EntryModel) -> bool {
    tells(
        text,
        "TT: "@ + entry.track_title + "  -  TA: "@ + entry.track_artist + "  -  Y: "@ + entry.year
            + "  -  L: "@ + entry.length + "  -  G: "@ + entry.genre + "  -  B: "@ + decimal(
            entry.bitrate as nat,
        ) + "  -  P: \""@ + entry.path + "\"\n"@,
    )
}

/// The line about one file tells all of it, and nothing else.
pub proof fn law_line_tells_all_of_a_file(entry: EntryModel)
    ensures
        tells_all_of(entry_lines(seq![entry]), entry),
        entry_lines(seq![entry]).len() == ("TT: "@ + "  -  TA: "@ + "  -  Y: "@ + "  -  L: "@
            + "  -  G: "@ + "  -  B: "@ + "  -  P: \""@ + "\"\n"@).len() + entry.track_title.len()
            + entry.track_artist.len() + entry.year.len() + entry.length.len() + entry.genre.len()
            + decimal(entry.bitrate as nat).len() + entry.path.len(),
{
    assert(seq![entry].drop_last() =~= Seq::empty());
    assert(entry_lines(Seq::empty()) =~= Seq::empty());
    assert(entry_lines(seq![entry]) =~= entry_line(entry));
    lemma_tells(Seq::empty(), entry_line(entry), Seq::empty());
    assert(Seq::empty() + entry_line(entry) + Seq::empty() =~= entry_line(entry));
}

proof fn lemma_lines_tell(entries: Seq<EntryModel>, p: int)
    requires
        0 <= p < entries.len(),
    ensures
        tells_all_of(entry_lines(entries), entries[p]),
{
    let a = entries.take(p);
    let b = seq![entries[p]];
    let c = entries.skip(p + 1);
    assert(a + b + c =~= entries);
    law_lines_add_up(a + b, c);
    law_lines_add_up(a, b);
    law_line_tells_all_of_a_file(entries[p]);
    lemma_tells_more(entry_lines(a), entry_lines(b), entry_lines(c), entry_line(entries[p]));
}

/// The text about one group says how many files it has and then tells all of each.
pub proof fn law_group_text_tells_all_of_a_group(group: Seq<EntryModel>)
    ensures
        group_texts(seq![group]) == "Found "@ + decimal(group.len())
            + " music files which have similar friends\n"@ + entry_lines(group) + "\n"@,
{
    assert(seq![group].drop_last() =~= Seq::empty());
    assert(group_texts(Seq::empty()) =~= Seq::empty());
    assert(group_texts(seq![group]) =~= "Found "@ + decimal(group.len())
        + " music files which have similar friends\n"@ + entry_lines(group) + "\n"@);
}

/// The text about one reference file says how many files are like it, then tells all of the
/// reference file and then of each of the others.
pub proof fn law_referenced_text_tells_all(reference: EntryModel, group: Seq<EntryModel>)
    ensures
        referenced_texts(seq![(reference, group)]) == "Found "@ + decimal(group.len())
            + " music files which have similar friends\n"@ + "\n"@ + entry_lines(
            seq![reference] + group,
        ) + "\n"@,
{
    let one = seq![(reference, group)];
    assert(one.drop_last() =~= Seq::empty());
    assert(referenced_texts(Seq::empty()) =~= Seq::empty());
    law_lines_add_up(seq![reference], group);
    assert(seq![reference].drop_last() =~= Seq::empty());
    assert(entry_lines(Seq::empty()) =~= Seq::empty());
    assert(entry_lines(seq![reference]) =~= entry_line(reference));
    assert(referenced_texts(one) =~= "Found "@ + decimal(group.len())
        + " music files which have similar friends\n"@ + "\n"@ + entry_lines(
        seq![reference] + group,
    ) + "\n"@);
}

/// Of every file in every group the text about groups tells all.
pub proof fn law_every_file_is_told_of(groups: Seq<Seq<EntryModel>>, g: int, p: int)
    requires
        0 <= g < groups.len(),
        0 <= p < groups[g].len(),
    ensures
        tells_all_of(group_texts(groups), groups[g][p]),
{
    let a = groups.take(g);
    let b = seq![groups[g]];
    let c = groups.skip(g + 1);
    assert(a + b + c =~= groups);
    law_group_texts_add_up(a + b, c);
    law_group_texts_add_up(a, b);
    law_group_text_tells_all_of_a_group(groups[g]);
    lemma_lines_tell(groups[g], p);
    let line = entry_line(groups[g][p]);
    lemma_tells_more(
        "Found "@ + decimal(groups[g].len()) + " music files which have similar friends\n"@,
        entry_lines(groups[g]),
        "\n"@,
        line,
    );
    lemma_tells_more(group_texts(a), group_texts(b), group_texts(c), line);
}

/// Of every reference file, and of every file like it, the text about reference files tells all.
pub proof fn law_every_referenced_file_is_told_of(
    groups: Seq<(EntryModel, Seq<EntryModel>)>,
    g: int,
    entry: EntryModel,
)
    requires
        0 <= g < groups.len(),
        entry == groups[g].0 || groups[g].1.contains(entry),
    ensures
        tells_all_of(referenced_texts(groups), entry),
{
    let a = groups.take(g);
    let b = seq![groups[g]];
    let c = groups.skip(g + 1);
    assert(a + b + c =~= groups);
    law_referenced_texts_add_up(a + b, c);
    law_referenced_texts_add_up(a, b);
    law_referenced_text_tells_all(groups[g].0, groups[g].1);
    assert(b =~= seq![(groups[g].0, groups[g].1)]);
    let files = seq![groups[g].0] + groups[g].1;
    if entry == groups[g].0 {
        lemma_lines_tell(files, 0);
    } else {
        let p = choose|p: int| 0 <= p < groups[g].1.len() && groups[g].1[p] == entry;
        assert(files[p + 1] == entry);
        lemma_lines_tell(files, p + 1);
    }
    let line = entry_line(entry);
    lemma_tells_more(
        "Found "@ + decimal(groups[g].1.len()) + " music files which have similar friends\n"@
            + "\n"@,
        entry_lines(files),
        "\n"@,
        line,
    );
    lemma_tells_more(referenced_texts(a), referenced_texts(b), referenced_texts(c), line);
}

/// The text about results says how many groups, or else reference files, there are, and tells all
/// of every file in them; and where there is neither it says that nothing was found.
pub proof fn law_results_are_told_of(tool: SameMusicModel)
    ensures
        ({
            let text = results_text(tool);
            let groups = tool.duplicated_music_entries;
            let referenced = tool.duplicated_music_entries_referenced;
            &&& groups.len() > 0 ==> text == decimal(groups.len())
                + " music files which have similar friends\n\n.\n"@ + group_texts(groups)
            &&& groups.len() == 0 && referenced.len() > 0 ==> text == decimal(referenced.len())
                + " music files which have similar friends\n\n.\n"@ + referenced_texts(referenced)
            &&& groups.len() == 0 && referenced.len() == 0 ==> text
                == "Not found any similar music files."@
            &&& forall|g: int, p: int|
                0 <= g < groups.len() && 0 <= p < groups[g].len() ==> tells_all_of(
                    text,
                    #[trigger] groups[g][p],
                )
        }),
{
    let text = results_text(tool);
    let groups = tool.duplicated_music_entries;
    assert forall|g: int, p: int| 0 <= g < groups.len() && 0 <= p < groups[g].len() implies
        tells_all_of(text, #[trigger] groups[g][p]) by {
        law_every_file_is_told_of(groups, g, p);
        lemma_tells_more(
            headline(groups.len()),
            group_texts(groups),
            Seq::empty(),
            entry_line(groups[g][p]),
        );
        assert(headline(groups.len()) + group_texts(groups) + Seq::empty() =~= text);
    }
}

} // verus!
