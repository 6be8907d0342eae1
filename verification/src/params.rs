//! What makes two music files count as the same, and what the tools have in common.

use crate::ieee::{Binary32, Binary64};
use vstd::prelude::*;

verus! {

/// A set of tags that have to agree.
#[derive(Clone, Copy, PartialEq, Eq, Structural, Debug)]
pub struct MusicSimilarity {
    pub bits: u32,
}

impl MusicSimilarity {
    pub const NONE: u32 = 0;

    pub const TRACK_TITLE: u32 = 0b1;

    pub const TRACK_ARTIST: u32 = 0b10;

    pub const YEAR: u32 = 0b100;

    pub const LENGTH: u32 = 0b1000;

    pub const GENRE: u32 = 0b10000;

    pub const BITRATE: u32 = 0b10_0000;

    /// Whether the tags given by a bit pattern are all in the set.
    pub open spec fn has(self, tags: u32) -> bool {
        self.bits & tags == tags
    }

    /// The set of the tags given by a bit pattern.
    pub fn new(bits: u32) -> (r: MusicSimilarity)
        ensures
            r.bits == bits,
    {
        MusicSimilarity { bits }
    }

    /// Whether the tags given by a bit pattern are all in the set.
    pub fn contains(&self, tags: u32) -> (r: bool)
        ensures
            r == self.has(tags),
    {
        self.bits & tags == tags
    }

    /// Whether the set has no tags.
    pub fn is_empty(&self) -> (r: bool)
        ensures
            r == (self.bits == MusicSimilarity::NONE),
    {
        self.bits == MusicSimilarity::NONE
    }
}

/// What files are compared by.
#[derive(Clone, Copy, PartialEq, Eq, Structural, Debug)]
pub enum CheckingMethod {
    /// The tags of the files.
    AudioTags,
    /// How the files sound.
    AudioContent,
    /// A method of another tool.
    Other,
}

/// Whether a stage ended or was cut short.
#[derive(Clone, Copy, PartialEq, Eq, Structural, Debug)]
pub enum WorkContinueStatus {
    Continue,
    Stop,
}

/// What the search for duplicated music is asked to do.
#[derive(Clone, Copy, Debug)]
pub struct SameMusicParameters {
    pub music_similarity: MusicSimilarity,
    pub approximate_comparison: bool,
    pub check_type: CheckingMethod,
    /// In seconds.
    pub minimum_segment_duration: Binary32,
    pub maximum_difference: Binary64,
    pub compare_fingerprints_only_with_similar_titles: bool,
}

impl SameMusicParameters {
    /// Whether some tag is asked for and the method is one for music.
    pub open spec fn is_valid(self) -> bool {
        &&& self.music_similarity.bits != MusicSimilarity::NONE
        &&& self.check_type != CheckingMethod::Other
    }

    pub fn new(
        music_similarity: MusicSimilarity,
        approximate_comparison: bool,
        check_type: CheckingMethod,
        minimum_segment_duration: Binary32,
        maximum_difference: Binary64,
        compare_fingerprints_only_with_similar_titles: bool,
    ) -> (r: SameMusicParameters)
        requires
            music_similarity.bits != MusicSimilarity::NONE,
            check_type != CheckingMethod::Other,
        ensures
            r == (SameMusicParameters {
                music_similarity,
                approximate_comparison,
                check_type,
                minimum_segment_duration,
                maximum_difference,
                compare_fingerprints_only_with_similar_titles,
            }),
            r.is_valid(),
    {
        SameMusicParameters {
            music_similarity,
            approximate_comparison,
            check_type,
            minimum_segment_duration,
            maximum_difference,
            compare_fingerprints_only_with_similar_titles,
        }
    }
}

/// A set has some tags exactly if it has each of them, and every set has all of its own tags.
pub proof fn law_tags_are_asked_for_one_by_one(tags: MusicSimilarity, a: u32, b: u32)
    ensures
        tags.has(a | b) <==> tags.has(a) && tags.has(b),
        tags.has(tags.bits),
        tags.has(0),
{
    let bits = tags.bits;
    assert((bits & (a | b) == a | b) <==> (bits & a == a && bits & b == b)) by (bit_vector);
    assert(bits & bits == bits) by (bit_vector);
    assert(bits & 0 == 0) by (bit_vector);
}

} // verus!
