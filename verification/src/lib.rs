//! GridStore: an immutable mapping from phrase identifiers to collections of
//! grid entries (geographic candidate features on an integer tile grid), with
//! spatially filtered, proximity-scored, top-K streaming retrieval.
//!
//! Relevance and proximity-weighted scores are carried as exact fixed-point
//! integers so that every comparison the ranking makes is verified:
//! a relevance is a numerator over [`RELEV_DEN`], a scoredist a numerator
//! over [`SCOREDIST_SCALE`].

use vstd::prelude::*;

pub mod bytes;
pub mod zorder;
pub mod codec;
pub mod keys;
pub mod spatial;
pub mod sorting;
pub mod matching;
pub mod heap;
pub mod builder;
pub mod store;
pub mod laws;

verus! {

/// Relevance is quantized to six discrete levels `0 ..= 5`, standing for the
/// fractions `0/5 ..= 5/5`.
pub const RELEV_LEVELS: u8 = 5;

/// Boosted relevance values are numerators over this denominator, so that the
/// 4% penalty applied to language mismatches stays an exact integer:
/// level `q` becomes `25 * q` when boosted and `24 * q` when penalized.
pub const RELEV_DEN: u8 = 125;

/// Scoredist values are numerators over this denominator.
pub const SCOREDIST_SCALE: u64 = 1048576;

/// Default bound on the number of records admitted to the streaming queue.
pub const MAX_CONTEXTS: usize = 40;

/// A single stored grid entry: a feature `id` pinned to tile coordinates
/// `(x, y)`, with quantized relevance, a 4-bit score and the hash of the
/// source phrase it came from.
#[derive(Clone, Copy, Debug, PartialEq, Eq, PartialOrd, Ord, Structural)]
pub struct GridEntry {
    /// Quantized relevance level in `0 ..= 5` (the fraction `relev / 5`).
    pub relev: u8,
    /// Quality score in `0 ..= 15`.
    pub score: u8,
    /// Tile x coordinate.
    pub x: u16,
    /// Tile y coordinate.
    pub y: u16,
    /// Feature identifier; fits in 24 bits.
    pub id: u32,
    /// Provenance hash of the phrase this entry was indexed under.
    pub source_phrase_hash: u8,
}

impl GridEntry {
    /// The invariant every stored entry satisfies.
    pub open spec fn wf(self) -> bool {
        self.relev <= 5 && self.score <= 15 && self.id < 0x100_0000
    }
}

/// A grid entry augmented with the per-query fields the streaming merger
/// ranks by.
#[derive(Clone, Copy, Debug, PartialEq, Eq, PartialOrd, Ord, Structural)]
pub struct MatchEntry {
    /// Boosted relevance, a numerator over [`RELEV_DEN`]: `25 * level` when
    /// the language matches or the entry is within the proximity radius,
    /// `24 * level` otherwise.
    pub relev: u8,
    /// Quality score in `0 ..= 15`.
    pub score: u8,
    /// Tile x coordinate.
    pub x: u16,
    /// Tile y coordinate.
    pub y: u16,
    /// Feature identifier; fits in 24 bits.
    pub id: u32,
    /// Provenance hash of the phrase this entry was indexed under.
    pub source_phrase_hash: u8,
    /// Whether the record's language set intersected the query's, or the
    /// record was stored with an empty language segment (every language).
    pub matches_language: bool,
    /// Chebyshev tile distance to the proximity point; 0 without proximity.
    pub distance: u16,
    /// Composite proximity-weighted score, a numerator over
    /// [`SCOREDIST_SCALE`]; `score * SCOREDIST_SCALE` without proximity.
    pub scoredist: u64,
}

/// The logical primary key of a record: a phrase and the languages it is
/// labeled with (`lang_set` is a bitset of language ids).
#[derive(Clone, Copy, Debug, PartialEq, Eq, PartialOrd, Ord, Hash)]
pub struct GridKey {
    pub phrase_id: u32,
    pub lang_set: u128,
}

/// The phrase selector of a query: one phrase, or a half-open range of them.
#[derive(Clone, Copy, Debug, PartialEq, Eq, Structural)]
pub enum MatchPhrase {
    Exact(u32),
    Range { start: u32, end: u32 },
}

/// The phrase selector plus the query's language bitset.
#[derive(Clone, Copy, Debug, PartialEq, Eq, Structural)]
pub struct MatchKey {
    pub match_phrase: MatchPhrase,
    pub lang_set: u128,
}

/// The recognized per-query options: the query's tile zoom, an optional
/// proximity point and an optional inclusive bounding box
/// `[min_x, min_y, max_x, max_y]`.
#[derive(Clone, Copy, Debug, PartialEq, Eq)]
pub struct MatchOpts {
    pub zoom: u16,
    pub proximity: Option<[u16; 2]>,
    pub bbox: Option<[u16; 4]>,
}

impl Default for MatchOpts {
    /// No proximity, no bounding box, zoom 0.
    fn default() -> (r: Self)
        ensures
            r.zoom == 0 && r.proximity is None && r.bbox is None,
    {
        MatchOpts { zoom: 0, proximity: None, bbox: None }
    }
}

/// The ways reading a store can fail.
#[derive(Clone, Copy, Debug, PartialEq, Eq, Structural)]
pub enum GridError {
    /// The store is corrupt: a record blob does not decode (a declared
    /// length exceeds the buffer or a relevance nibble is out of range), or
    /// a scanned key does not parse as a grid key.
    CorruptRecord,
    /// A renumber mapping does not cover an id, or maps it out of range.
    BadRenumber,
    /// A merged record grew past what the format's length fields can count.
    RecordTooLong,
}

} // verus!
