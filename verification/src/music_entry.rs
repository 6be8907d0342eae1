//! Music files and what is known of them.

use vstd::prelude::*;

verus! {

/// A music file as a mathematical value.
#[verifier::ext_equal]
pub struct EntryModel {
    pub size: u64,
    pub path: Seq<char>,
    pub modified_date: u64,
    pub fingerprint: Seq<u32>,
    pub track_title: Seq<char>,
    pub track_artist: Seq<char>,
    pub year: Seq<char>,
    pub length: Seq<char>,
    pub genre: Seq<char>,
    pub bitrate: u32,
}

/// A music file. The path is its text, with what is not Unicode replaced.
#[derive(Debug)]
pub struct MusicEntry {
    pub size: u64,
    pub path: String,
    pub modified_date: u64,
    pub fingerprint: Vec<u32>,
    pub track_title: String,
    pub track_artist: String,
    pub year: String,
    pub length: String,
    pub genre: String,
    pub bitrate: u32,
}

impl View for MusicEntry {
    type V = EntryModel;

    open spec fn view(&self) -> EntryModel {
        EntryModel {
            size: self.size,
            path: self.path@,
            modified_date: self.modified_date,
            fingerprint: self.fingerprint@,
            track_title: self.track_title@,
            track_artist: self.track_artist@,
            year: self.year@,
            length: self.length@,
            genre: self.genre@,
            bitrate: self.bitrate,
        }
    }
}

impl Clone for MusicEntry {
    fn clone(&self) -> (r: Self)
        ensures
            r@ == self@,
    {
        let r = MusicEntry {
            size: self.size,
            path: self.path.clone(),
            modified_date: self.modified_date,
            fingerprint: self.fingerprint.clone(),
            track_title: self.track_title.clone(),
            track_artist: self.track_artist.clone(),
            year: self.year.clone(),
            length: self.length.clone(),
            genre: self.genre.clone(),
            bitrate: self.bitrate,
        };
        assert(r.fingerprint@ =~= self.fingerprint@);
        r
    }
}

impl MusicEntry {
    /// The text of the file's path.
    pub fn get_path(&self) -> (r: &str)
        ensures
            r@ == self@.path,
    {
        self.path.as_str()
    }

    /// When the file was last changed.
    pub fn get_modified_date(&self) -> (r: u64)
        ensures
            r == self@.modified_date,
    {
        self.modified_date
    }

    /// The size of the file in bytes.
    pub fn get_size(&self) -> (r: u64)
        ensures
            r == self@.size,
    {
        self.size
    }
}

/// The models of a list of files.
pub open spec fn models(entries: Seq<MusicEntry>) -> Seq<EntryModel> {
    Seq::new(entries.len(), |i: int| entries[i]@)
}

/// The models of a list of groups of files.
pub open spec fn group_models(groups: Seq<Vec<MusicEntry>>) -> Seq<Seq<EntryModel>> {
    Seq::new(groups.len(), |i: int| models(groups[i]@))
}

/// Copies a list of files.
pub fn clone_entries(entries: &Vec<MusicEntry>) -> (r: Vec<MusicEntry>)
    ensures
        models(r@) == models(entries@),
{
    let mut r: Vec<MusicEntry> = Vec::new();
    for i in 0..entries.len()
        invariant
            r@.len() == i,
            forall|j: int| 0 <= j < i ==> (#[trigger] r@[j])@ == entries@[j]@,
    {
        r.push(entries[i].clone());
    }
    assert(models(r@) =~= models(entries@));
    r
}

/// Copies a list of groups of files.
pub fn clone_groups(groups: &Vec<Vec<MusicEntry>>) -> (r: Vec<Vec<MusicEntry>>)
    ensures
        group_models(r@) == group_models(groups@),
{
    let mut r: Vec<Vec<MusicEntry>> = Vec::new();
    for i in 0..groups.len()
        invariant
            r@.len() == i,
            forall|j: int| 0 <= j < i ==> models((#[trigger] r@[j])@) == models(groups@[j]@),
    {
        r.push(clone_entries(&groups[i]));
    }
    assert(group_models(r@) =~= group_models(groups@));
    r
}

/// A file as it was found on disk.
#[derive(Debug)]
pub struct FileEntry {
    pub path: String,
    pub size: u64,
    pub modified_date: u64,
}

/// A music file of which nothing but path, size and date is known.
pub open spec fn bare_entry(path: Seq<char>, size: u64, modified_date: u64) -> EntryModel {
    EntryModel {
        size,
        path,
        modified_date,
        fingerprint: Seq::empty(),
        track_title: Seq::empty(),
        track_artist: Seq::empty(),
        year: Seq::empty(),
        length: Seq::empty(),
        genre: Seq::empty(),
        bitrate: 0,
    }
}

impl FileEntry {
    /// The music file, with tags and fingerprint still to be read.
    pub fn into_music_entry(self) -> (r: MusicEntry)
        ensures
            r@ == bare_entry(self.path@, self.size, self.modified_date),
    {
        MusicEntry {
            size: self.size,
            path: self.path,
            modified_date: self.modified_date,
            fingerprint: Vec::new(),
            track_title: String::new(),
            track_artist: String::new(),
            year: String::new(),
            length: String::new(),
            genre: String::new(),
            bitrate: 0,
        }
    }
}

} // verus!
