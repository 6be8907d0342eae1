//! What a search found, as text.

use crate::music_entry::{group_models, models, EntryModel, MusicEntry};
use crate::same_music::{referenced_models, SameMusic, SameMusicModel};
use crate::text::{decimal, push_decimal};
use vstd::prelude::*;
use vstd::string::*;

verus! {

/// A line about one file.
pub open spec fn entry_line(entry: EntryModel) -> Seq<char> {
    "TT: "@ + entry.track_title + "  -  TA: "@ + entry.track_artist + "  -  Y: "@ + entry.year
        + "  -  L: "@ + entry.length + "  -  G: "@ + entry.genre + "  -  B: "@ + decimal(
        entry.bitrate as nat,
    ) + "  -  P: \""@ + entry.path + "\"\n"@
}

/// Lines about files.
pub open spec fn entry_lines(entries: Seq<EntryModel>) -> Seq<char>
    decreases entries.len(),
{
    if entries.len() == 0 {
        Seq::empty()
    } else {
        entry_lines(entries.drop_last()) + entry_line(entries.last())
    }
}

/// What stands above everything.
pub open spec fn headline(groups: nat) -> Seq<char> {
    decimal(groups) + " music files which have similar friends\n\n.\n"@
}

/// What stands above a group.
pub open spec fn group_headline(files: nat) -> Seq<char> {
    "Found "@ + decimal(files) + " music files which have similar friends\n"@
}

/// The text about groups.
pub open spec fn group_texts(groups: Seq<Seq<EntryModel>>) -> Seq<char>
    decreases groups.len(),
{
    if groups.len() == 0 {
        Seq::empty()
    } else {
        group_texts(groups.drop_last()) + group_headline(groups.last().len()) + entry_lines(
            groups.last(),
        ) + "\n"@
    }
}

/// The text about reference files with their duplicates.
pub open spec fn referenced_texts(groups: Seq<(EntryModel, Seq<EntryModel>)>) -> Seq<char>
    decreases groups.len(),
{
    if groups.len() == 0 {
        Seq::empty()
    } else {
        referenced_texts(groups.drop_last()) + group_headline(groups.last().1.len()) + "\n"@
            + entry_line(groups.last().0) + entry_lines(groups.last().1) + "\n"@
    }
}

/// The text about all that a search found.
pub open spec fn results_text(tool: SameMusicModel) -> Seq<char> {
    let groups = tool.duplicated_music_entries;
    let referenced = tool.duplicated_music_entries_referenced;
    if groups.len() > 0 {
        headline(groups.len()) + group_texts(groups)
    } else if referenced.len() > 0 {
        headline(referenced.len()) + referenced_texts(referenced)
    } else {
        "Not found any similar music files."@
    }
}

/// Appends a line about one file.
pub fn write_music_entry(writer: &mut String, file_entry: &MusicEntry)
    ensures
        final(writer)@ == old(writer)@ + entry_line(file_entry@),
{
    let ghost before = writer@;
    let ghost entry = file_entry@;
    writer.append("TT: ");
    writer.append(file_entry.track_title.as_str());
    writer.append("  -  TA: ");
    writer.append(file_entry.track_artist.as_str());
    writer.append("  -  Y: ");
    writer.append(file_entry.year.as_str());
    writer.append("  -  L: ");
    writer.append(file_entry.length.as_str());
    writer.append("  -  G: ");
    writer.append(file_entry.genre.as_str());
    writer.append("  -  B: ");
    push_decimal(writer, file_entry.bitrate as u64);
    writer.append("  -  P: \"");
    writer.append(file_entry.path.as_str());
    writer.append("\"\n");
    assert(writer@ =~= before + entry_line(entry));
}

/// Appends lines about files.
fn write_music_entries(writer: &mut String, entries: &Vec<MusicEntry>)
    ensures
        final(writer)@ == old(writer)@ + entry_lines(models(entries@)),
{
    let ghost before = writer@;
    let ghost all = models(entries@);
    let mut i: usize = 0;
    assert(writer@ =~= before + entry_lines(all.take(0)));
    while i < entries.len()
        invariant
            i <= entries@.len(),
            all == models(entries@),
            writer@ == before + entry_lines(all.take(i as int)),
        decreases entries@.len() - i,
    {
        write_music_entry(writer, &entries[i]);
        proof {
            assert(all.take(i + 1).drop_last() =~= all.take(i as int));
            assert(all.take(i + 1).last() == entries@[i as int]@);
            assert(writer@ =~= before + entry_lines(all.take(i + 1)));
        }
        i = i + 1;
    }
    assert(all.take(all.len() as int) =~= all);
}

/// Appends what stands above everything.
fn write_headline(writer: &mut String, groups: usize)
    ensures
        final(writer)@ == old(writer)@ + headline(groups as nat),
{
    let ghost before = writer@;
    push_decimal(writer, groups as u64);
    writer.append(" music files which have similar friends\n\n.\n");
    assert(writer@ =~= before + headline(groups as nat));
}

/// Appends what stands above a group.
fn write_group_headline(writer: &mut String, files: usize)
    ensures
        final(writer)@ == old(writer)@ + group_headline(files as nat),
{
    let ghost before = writer@;
    writer.append("Found ");
    push_decimal(writer, files as u64);
    writer.append(" music files which have similar friends\n");
    assert(writer@ =~= before + group_headline(files as nat));
}

/// Appends the text about groups.
pub fn write_groups(writer: &mut String, groups: &Vec<Vec<MusicEntry>>)
    ensures
        final(writer)@ == old(writer)@ + group_texts(group_models(groups@)),
{
    let ghost before = writer@;
    let ghost all = group_models(groups@);
    let mut i: usize = 0;
    assert(writer@ =~= before + group_texts(all.take(0)));
    while i < groups.len()
        invariant
            i <= groups@.len(),
            all == group_models(groups@),
            writer@ == before + group_texts(all.take(i as int)),
        decreases groups@.len() - i,
    {
        write_group_headline(writer, groups[i].len());
        write_music_entries(writer, &groups[i]);
        writer.append("\n");
        proof {
            assert(all.take(i + 1).drop_last() =~= all.take(i as int));
            assert(all.take(i + 1).last() == models(groups@[i as int]@));
            assert(writer@ =~= before + group_texts(all.take(i + 1)));
        }
        i = i + 1;
    }
    assert(all.take(all.len() as int) =~= all);
}

/// Appends the text about reference files with their duplicates.
pub fn write_referenced(writer: &mut String, groups: &Vec<(MusicEntry, Vec<MusicEntry>)>)
    ensures
        final(writer)@ == old(writer)@ + referenced_texts(referenced_models(groups@)),
{
    let ghost before = writer@;
    let ghost all = referenced_models(groups@);
    let mut i: usize = 0;
    assert(writer@ =~= before + referenced_texts(all.take(0)));
    while i < groups.len()
        invariant
            i <= groups@.len(),
            all == referenced_models(groups@),
            writer@ == before + referenced_texts(all.take(i as int)),
        decreases groups@.len() - i,
    {
        write_group_headline(writer, groups[i].1.len());
        writer.append("\n");
        write_music_entry(writer, &groups[i].0);
        write_music_entries(writer, &groups[i].1);
        writer.append("\n");
        proof {
            assert(all.take(i + 1).drop_last() =~= all.take(i as int));
            assert(all.take(i + 1).last() == all[i as int]);
            assert(writer@ =~= before + referenced_texts(all.take(i + 1)));
        }
        i = i + 1;
    }
    assert(all.take(all.len() as int) =~= all);
}

impl SameMusic {
    /// Appends the text about all that was found.
    pub fn write_results(&self, writer: &mut String)
        ensures
            final(writer)@ == old(writer)@ + results_text(self@),
    {
        let ghost before = writer@;
        let groups = self.get_duplicated_music_entries();
        let referenced = self.get_similar_music_referenced();
        if groups.len() > 0 {
            write_headline(writer, groups.len());
            write_groups(writer, groups);
        } else if referenced.len() > 0 {
            write_headline(writer, referenced.len());
            write_referenced(writer, referenced);
        } else {
            writer.append("Not found any similar music files.");
        }
        assert(writer@ =~= before + results_text(self@));
    }
}

} // verus!
