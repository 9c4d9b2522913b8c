//! What the indexer knows of a field and of the token being indexed.

use vstd::prelude::*;

verus! {

/// Identifies a document inside a segment.
pub type DocId = i32;

/// How much of a field's postings is indexed. Each option includes the ones
/// before it.
#[derive(Debug, Clone, Copy, PartialEq, Eq, Structural)]
pub enum IndexOptions {
    /// Not indexed.
    Null,
    /// Only documents.
    Docs,
    /// Documents and term frequencies.
    DocsAndFreqs,
    /// Documents, term frequencies and positions.
    DocsAndFreqsAndPositions,
    /// Documents, term frequencies, positions and character offsets.
    DocsAndFreqsAndPositionsAndOffsets,
}

impl IndexOptions {
    /// Place of the option in the order of options.
    pub open spec fn rank_spec(self) -> int {
        match self {
            IndexOptions::Null => 0,
            IndexOptions::Docs => 1,
            IndexOptions::DocsAndFreqs => 2,
            IndexOptions::DocsAndFreqsAndPositions => 3,
            IndexOptions::DocsAndFreqsAndPositionsAndOffsets => 4,
        }
    }

    /// Place of the option in the order of options.
    pub fn rank(self) -> (r: u8)
        ensures
            r == self.rank_spec(),
    {
        match self {
            IndexOptions::Null => 0,
            IndexOptions::Docs => 1,
            IndexOptions::DocsAndFreqs => 2,
            IndexOptions::DocsAndFreqsAndPositions => 3,
            IndexOptions::DocsAndFreqsAndPositionsAndOffsets => 4,
        }
    }

    /// Whether `self` includes `other`.
    pub fn at_least(self, other: IndexOptions) -> (r: bool)
        ensures
            r == (self.rank_spec() >= other.rank_spec()),
    {
        self.rank() >= other.rank()
    }

    /// Whether term frequencies are indexed.
    pub fn has_freqs(self) -> (r: bool)
        ensures
            r == (self.rank_spec() >= 2),
    {
        self.rank() >= 2
    }

    /// Whether positions are indexed.
    pub fn has_positions(self) -> (r: bool)
        ensures
            r == (self.rank_spec() >= 3),
    {
        self.rank() >= 3
    }

    /// Whether character offsets are indexed.
    pub fn has_offsets(self) -> (r: bool)
        ensures
            r == (self.rank_spec() >= 4),
    {
        self.rank() >= 4
    }
}

/// The static description of a field.
pub struct FieldInfo {
    pub name: String,
    pub number: u32,
    pub index_options: IndexOptions,
    pub store_payloads: bool,
}

impl FieldInfo {
    /// The description of a field that stores no payloads yet.
    pub fn new(name: String, number: u32, index_options: IndexOptions) -> (info: Self)
        ensures
            info.name == name,
            info.number == number,
            info.index_options == index_options,
            !info.store_payloads,
    {
        FieldInfo { name, number, index_options, store_payloads: false }
    }

    /// Records that some token of the field carried a payload. Payloads are
    /// only stored with positions.
    pub fn set_store_payloads(&mut self)
        ensures
            final(self).name == old(self).name,
            final(self).number == old(self).number,
            final(self).index_options == old(self).index_options,
            final(self).store_payloads == (old(self).store_payloads || old(self).index_options.rank_spec() >= 3),
    {
        if self.index_options.has_positions() {
            self.store_payloads = true;
        }
    }
}

/// What has been seen of one field of the document being inverted.
#[derive(Debug, Clone, Copy, PartialEq, Eq, Structural)]
pub struct FieldInvertState {
    /// Position of the current token.
    pub position: i32,
    /// Number of tokens so far.
    pub length: i32,
    /// Sum of the lengths of the earlier instances of the field in this
    /// document; added to every character offset.
    pub offset: usize,
    /// Number of distinct terms so far.
    pub unique_term_count: u32,
    /// Largest number of occurrences of one term so far.
    pub max_term_frequency: u32,
}

impl FieldInvertState {
    /// The state before the first token of a field.
    pub fn new() -> (state: Self)
        ensures
            state.position == -1,
            state.length == 0,
            state.offset == 0,
            state.unique_term_count == 0,
            state.max_term_frequency == 0,
    {
        FieldInvertState {
            position: -1,
            length: 0,
            offset: 0,
            unique_term_count: 0,
            max_term_frequency: 0,
        }
    }
}

/// One token as the analyzer hands it over: the bytes of its term, its
/// character offsets inside the field instance, and its payload, if any.
pub struct Token {
    pub term: Vec<u8>,
    pub start_offset: usize,
    pub end_offset: usize,
    pub payload: Option<Vec<u8>>,
}

impl Token {
    /// The payload's bytes; none when the token has no payload.
    pub open spec fn payload_bytes(&self) -> Seq<u8> {
        match self.payload {
            Some(p) => p@,
            None => Seq::empty(),
        }
    }

    /// The payload, when the token has one that is not empty.
    pub fn payload_slice(&self) -> (r: Option<&[u8]>)
        ensures
            match r {
                Some(p) => p@ == self.payload_bytes() && p@.len() > 0,
                None => self.payload_bytes().len() == 0,
            },
    {
        match &self.payload {
            Some(p) => if p.len() > 0 {
                Some(p.as_slice())
            } else {
                None
            },
            None => None,
        }
    }

    /// Number of bytes of the payload.
    pub fn payload_len(&self) -> (n: usize)
        ensures
            n == self.payload_bytes().len(),
    {
        match &self.payload {
            Some(p) => p.len(),
            None => 0,
        }
    }
}

} // verus!
