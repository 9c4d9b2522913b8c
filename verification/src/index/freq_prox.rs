//! The consumer that builds postings: for each term a stream of documents
//! and frequencies, and a stream of positions, payloads and offsets.

use vstd::prelude::*;
use crate::error::Error;
use crate::index::field::{DocId, FieldInfo, FieldInvertState, IndexOptions, Token};
use crate::index::term_vector::TermVectorsConsumerPerField;
use crate::index::terms_hash::TermsHashBase;
use crate::index::terms_hash_per_field::{
    TermsHashPerFieldBase,
    counted,
    encode_vint,
    lowered,
    stream_ok_at,
    vint_bytes,
};
use crate::util::byte_block_pool::{
    BYTE_BLOCK_SIZE,
    FIRST_LEVEL_SIZE,
    Headroom,
    MAX_TERM_LENGTH,
    term_header_len,
};
use crate::util::bytes_ref_hash::{MAX_TERMS, interned};
use crate::util::int_block_pool::INT_BLOCK_SIZE;
use crate::index::postings_array::{
    BYTES_PER_POSTING,
    MAX_POSTINGS,
    ParallelPostingsArray,
    PostingsArray,
    grow_column,
    grow_signed_column,
    grown_column,
};

verus! {

/// What the postings writer remembers of one term between two tokens.
pub struct TermState {
    /// The last document in which the term occurred.
    pub last_doc_id: i32,
    /// The code of that document, not yet written to the document stream.
    pub last_doc_code: u32,
    /// Number of occurrences of the term in that document; 0 when
    /// frequencies are not indexed.
    pub term_freq: u32,
    /// Position of the last occurrence; 0 when positions are not indexed.
    pub last_position: u32,
    /// Start offset of the last occurrence; 0 when offsets are not indexed.
    pub last_offset: u32,
}

/// The columns of the postings writer.
pub struct FreqProxPostingsArray {
    pub base: ParallelPostingsArray,
    /// Number of occurrences in the current document; empty when
    /// frequencies are not indexed.
    pub term_freqs: Vec<u32>,
    /// Last document in which the term occurred.
    pub last_doc_ids: Vec<i32>,
    /// Code of the last document.
    pub last_doc_codes: Vec<u32>,
    /// Last position of the term; empty when positions are not indexed.
    pub last_positions: Vec<u32>,
    /// Last start offset of the term; empty when offsets are not indexed.
    pub last_offsets: Vec<u32>,
    pub write_freqs: bool,
    pub write_prox: bool,
    pub write_offsets: bool,
}

impl FreqProxPostingsArray {
    /// Number of entries of a column that is kept only when `enabled`.
    pub open spec fn column_len(&self, enabled: bool) -> int {
        if enabled {
            self.base.size as int
        } else {
            0
        }
    }

    /// What the columns hold for a term.
    pub open spec fn state(&self, term: int) -> TermState {
        TermState {
            last_doc_id: self.last_doc_ids@[term],
            last_doc_code: self.last_doc_codes@[term],
            term_freq: if self.write_freqs {
                self.term_freqs@[term]
            } else {
                0
            },
            last_position: if self.write_prox {
                self.last_positions@[term]
            } else {
                0
            },
            last_offset: if self.write_offsets {
                self.last_offsets@[term]
            } else {
                0
            },
        }
    }

    /// `self` is `before` but for the entries of `term`, which hold `state`.
    pub open spec fn is_update_of(&self, before: &Self, term: int, state: TermState) -> bool {
        &&& self.base == before.base
        &&& self.write_freqs == before.write_freqs
        &&& self.write_prox == before.write_prox
        &&& self.write_offsets == before.write_offsets
        &&& self.last_doc_ids@ == before.last_doc_ids@.update(term, state.last_doc_id)
        &&& self.last_doc_codes@ == before.last_doc_codes@.update(term, state.last_doc_code)
        &&& self.term_freqs@ == (if self.write_freqs {
            before.term_freqs@.update(term, state.term_freq)
        } else {
            before.term_freqs@
        })
        &&& self.last_positions@ == (if self.write_prox {
            before.last_positions@.update(term, state.last_position)
        } else {
            before.last_positions@
        })
        &&& self.last_offsets@ == (if self.write_offsets {
            before.last_offsets@.update(term, state.last_offset)
        } else {
            before.last_offsets@
        })
    }

    /// `self` is `before` but, possibly, for the entries of `term`.
    pub open spec fn differs_only_at(&self, before: &Self, term: int) -> bool {
        self.is_update_of(before, term, self.state(term))
    }

    /// Columns that agree with `before` at every term but `term` differ
    /// from it at `term` alone.
    pub proof fn lemma_differs_from_entries(&self, before: &Self, term: int)
        requires
            self.base == before.base,
            self.write_freqs == before.write_freqs,
            self.write_prox == before.write_prox,
            self.write_offsets == before.write_offsets,
            self.last_doc_ids@.len() == before.last_doc_ids@.len(),
            self.last_doc_codes@.len() == before.last_doc_codes@.len(),
            self.term_freqs@.len() == before.term_freqs@.len(),
            self.last_positions@.len() == before.last_positions@.len(),
            self.last_offsets@.len() == before.last_offsets@.len(),
            0 <= term < before.last_doc_ids@.len(),
            term < before.last_doc_codes@.len(),
            before.write_freqs ==> term < before.term_freqs@.len(),
            before.write_prox ==> term < before.last_positions@.len(),
            before.write_offsets ==> term < before.last_offsets@.len(),
            !before.write_freqs ==> self.term_freqs@ == before.term_freqs@,
            !before.write_prox ==> self.last_positions@ == before.last_positions@,
            !before.write_offsets ==> self.last_offsets@ == before.last_offsets@,
            forall|t: int|
                0 <= t < self.last_doc_ids@.len() && t != term ==> #[trigger] self.last_doc_ids@[t]
                    == before.last_doc_ids@[t],
            forall|t: int|
                0 <= t < self.last_doc_codes@.len() && t != term
                    ==> #[trigger] self.last_doc_codes@[t] == before.last_doc_codes@[t],
            forall|t: int|
                0 <= t < self.term_freqs@.len() && t != term ==> #[trigger] self.term_freqs@[t]
                    == before.term_freqs@[t],
            forall|t: int|
                0 <= t < self.last_positions@.len() && t != term
                    ==> #[trigger] self.last_positions@[t] == before.last_positions@[t],
            forall|t: int|
                0 <= t < self.last_offsets@.len() && t != term ==> #[trigger] self.last_offsets@[t]
                    == before.last_offsets@[t],
        ensures
            self.differs_only_at(before, term),
    {
        let st = self.state(term);
        assert(self.last_doc_ids@ =~= before.last_doc_ids@.update(term, st.last_doc_id));
        assert(self.last_doc_codes@ =~= before.last_doc_codes@.update(term, st.last_doc_code));
        if self.write_freqs {
            assert(self.term_freqs@ =~= before.term_freqs@.update(term, st.term_freq));
        }
        if self.write_prox {
            assert(self.last_positions@ =~= before.last_positions@.update(term, st.last_position));
        }
        if self.write_offsets {
            assert(self.last_offsets@ =~= before.last_offsets@.update(term, st.last_offset));
        }
    }

    /// Columns that did not change differ at no term.
    pub proof fn lemma_differs_nowhere(&self, term: int)
        requires
            0 <= term < self.last_doc_ids@.len(),
            term < self.last_doc_codes@.len(),
            self.write_freqs ==> term < self.term_freqs@.len(),
            self.write_prox ==> term < self.last_positions@.len(),
            self.write_offsets ==> term < self.last_offsets@.len(),
        ensures
            self.differs_only_at(self, term),
    {
        let st = self.state(term);
        assert(self.last_doc_ids@ =~= self.last_doc_ids@.update(term, st.last_doc_id));
        assert(self.last_doc_codes@ =~= self.last_doc_codes@.update(term, st.last_doc_code));
        if self.write_freqs {
            assert(self.term_freqs@ =~= self.term_freqs@.update(term, st.term_freq));
        }
        if self.write_prox {
            assert(self.last_positions@ =~= self.last_positions@.update(term, st.last_position));
        }
        if self.write_offsets {
            assert(self.last_offsets@ =~= self.last_offsets@.update(term, st.last_offset));
        }
    }

    /// Columns that changed twice at one term changed once at that term.
    pub proof fn lemma_differs_twice(&self, mid: &Self, before: &Self, term: int)
        requires
            mid.differs_only_at(before, term),
            self.differs_only_at(mid, term),
            0 <= term < before.last_doc_ids@.len(),
            term < before.last_doc_codes@.len(),
            before.write_freqs ==> term < before.term_freqs@.len(),
            before.write_prox ==> term < before.last_positions@.len(),
            before.write_offsets ==> term < before.last_offsets@.len(),
        ensures
            self.differs_only_at(before, term),
    {
        let st = self.state(term);
        assert(self.last_doc_ids@ =~= before.last_doc_ids@.update(term, st.last_doc_id));
        assert(self.last_doc_codes@ =~= before.last_doc_codes@.update(term, st.last_doc_code));
        if self.write_freqs {
            assert(self.term_freqs@ =~= before.term_freqs@.update(term, st.term_freq));
        }
        if self.write_prox {
            assert(self.last_positions@ =~= before.last_positions@.update(term, st.last_position));
        }
        if self.write_offsets {
            assert(self.last_offsets@ =~= before.last_offsets@.update(term, st.last_offset));
        }
    }

    /// Columns of `size` entries each, all zero. A column that is not asked
    /// for stays empty.
    pub fn new(size: usize, write_freqs: bool, write_pos: bool, write_offsets: bool) -> (array:
        Self)
        requires
            size <= MAX_POSTINGS,
            write_offsets ==> write_pos,
        ensures
            array.wf(),
            array.base.wf(),
            array.base.size == size,
            array.write_freqs == write_freqs,
            array.write_prox == write_pos,
            array.write_offsets == write_offsets,
            forall|t: int|
                0 <= t < size ==> #[trigger] array.state(t) == (TermState {
                    last_doc_id: 0,
                    last_doc_code: 0,
                    term_freq: 0,
                    last_position: 0,
                    last_offset: 0,
                }),
    {
        let base = ParallelPostingsArray::new(size);
        let term_freqs: Vec<u32> = if write_freqs {
            vec![0u32; size]
        } else {
            Vec::with_capacity(0)
        };
        let mut last_positions: Vec<u32> = Vec::with_capacity(0);
        let mut last_offsets: Vec<u32> = Vec::with_capacity(0);
        if write_pos {
            last_positions = vec![0u32; size];
            if write_offsets {
                last_offsets = vec![0u32; size];
            }
        }
        FreqProxPostingsArray {
            base,
            term_freqs,
            last_doc_ids: vec![0i32; size],
            last_doc_codes: vec![0u32; size],
            last_positions,
            last_offsets,
            write_freqs,
            write_prox: write_pos,
            write_offsets,
        }
    }
}

impl PostingsArray for FreqProxPostingsArray {
    open spec fn parallel(&self) -> ParallelPostingsArray {
        self.base
    }

    open spec fn wf(&self) -> bool {
        &&& self.write_offsets ==> self.write_prox
        &&& self.last_doc_ids@.len() == self.base.size
        &&& self.last_doc_codes@.len() == self.base.size
        &&& self.term_freqs@.len() == self.column_len(self.write_freqs)
        &&& self.last_positions@.len() == self.column_len(self.write_prox)
        &&& self.last_offsets@.len() == self.column_len(self.write_offsets)
    }

    open spec fn same_own_columns(&self, before: &Self) -> bool {
        &&& self.term_freqs == before.term_freqs
        &&& self.last_doc_ids == before.last_doc_ids
        &&& self.last_doc_codes == before.last_doc_codes
        &&& self.last_positions == before.last_positions
        &&& self.last_offsets == before.last_offsets
        &&& self.write_freqs == before.write_freqs
        &&& self.write_prox == before.write_prox
        &&& self.write_offsets == before.write_offsets
    }

    open spec fn grown_from(&self, before: &Self) -> bool {
        &&& self.write_freqs == before.write_freqs
        &&& self.write_prox == before.write_prox
        &&& self.write_offsets == before.write_offsets
        &&& grown_column(before.last_doc_ids@, self.last_doc_ids@, self.base.size as int, 0i32)
        &&& grown_column(before.last_doc_codes@, self.last_doc_codes@, self.base.size as int, 0u32)
        &&& grown_column(
            before.term_freqs@,
            self.term_freqs@,
            self.column_len(self.write_freqs),
            0u32,
        )
        &&& grown_column(
            before.last_positions@,
            self.last_positions@,
            self.column_len(self.write_prox),
            0u32,
        )
        &&& grown_column(
            before.last_offsets@,
            self.last_offsets@,
            self.column_len(self.write_offsets),
            0u32,
        )
    }

    open spec fn posting_bytes(&self) -> int {
        BYTES_PER_POSTING + 8 + (if self.write_prox {
            4int
        } else {
            0int
        }) + (if self.write_offsets {
            4int
        } else {
            0int
        }) + (if self.write_freqs {
            4int
        } else {
            0int
        })
    }

    fn parallel_array(&self) -> (p: &ParallelPostingsArray) {
        &self.base
    }

    fn parallel_array_mut(&mut self) -> (p: &mut ParallelPostingsArray) {
        &mut self.base
    }

    fn bytes_per_posting(&self) -> (n: usize)
        ensures
            n == BYTES_PER_POSTING + 8 + (if self.write_prox {
                4int
            } else {
                0int
            }) + (if self.write_offsets {
                4int
            } else {
                0int
            }) + (if self.write_freqs {
                4int
            } else {
                0int
            }),
    {
        let mut bytes = self.base.bytes_per_posting() + 2 * 4;
        if self.write_prox {
            bytes += 4;
        }
        if self.write_offsets {
            bytes += 4;
        }
        if self.write_freqs {
            bytes += 4;
        }
        bytes
    }

    fn grow(&mut self) {
        self.base.grow();
        let new_size = self.base.size;
        if self.write_prox {
            grow_column(&mut self.last_positions, new_size);
        }
        if self.write_offsets {
            grow_column(&mut self.last_offsets, new_size);
        }
        if self.write_freqs {
            grow_column(&mut self.term_freqs, new_size);
        }
        grow_signed_column(&mut self.last_doc_ids, new_size);
        grow_column(&mut self.last_doc_codes, new_size);
    }

    fn clear(&mut self)
        ensures
            final(self).write_freqs == old(self).write_freqs,
            final(self).write_prox == old(self).write_prox,
            final(self).write_offsets == old(self).write_offsets,
    {
        self.base.clear();
        self.last_positions = Vec::with_capacity(0);
        self.last_offsets = Vec::with_capacity(0);
        self.term_freqs = Vec::with_capacity(0);
        self.last_doc_ids = Vec::with_capacity(0);
        self.last_doc_codes = Vec::with_capacity(0);
    }

}


/// What goes to the document stream when a term leaves a document: the
/// document's code, with the low bit set when the term occurred once, and
/// the frequency otherwise. Without frequencies, the code alone.
pub open spec fn doc_code_bytes(has_freq: bool, state: TermState) -> Seq<u8> {
    if !has_freq {
        vint_bytes(state.last_doc_code as nat)
    } else if state.term_freq == 1 {
        vint_bytes((state.last_doc_code | 1) as nat)
    } else {
        vint_bytes(state.last_doc_code as nat) + vint_bytes(state.term_freq as nat)
    }
}

/// What goes to the position stream for one occurrence: twice the position
/// code, plus one when a payload follows; then the payload's length and
/// bytes, if it has any.
pub open spec fn prox_bytes(code: u32, payload: Seq<u8>) -> Seq<u8> {
    if payload.len() > 0 {
        vint_bytes((code * 2 + 1) as nat) + vint_bytes(payload.len()) + payload
    } else {
        vint_bytes((code * 2) as nat)
    }
}

/// What goes to the position stream for the offsets of one occurrence: how
/// far the start lies behind the last start, and the length.
pub open spec fn offset_bytes(start: int, end: int, last: int) -> Seq<u8> {
    vint_bytes((start - last) as nat) + vint_bytes((end - start) as nat)
}

/// The bytes of one position code and of the payload that follows it.
pub fn encode_prox(code: u32, token: &Token) -> (bytes: Vec<u8>)
    requires
        code <= 0x7fff_ffff,
        token.payload_bytes().len() <= 0x7fff_ffff,
    ensures
        bytes@ == prox_bytes(code, token.payload_bytes()),
{
    match token.payload_slice() {
        Some(p) => {
            let mut bytes = encode_vint(code * 2 + 1);
            let ghost first = bytes@;
            let mut len = encode_vint(p.len() as u32);
            let ghost second = len@;
            bytes.append(&mut len);
            bytes.extend_from_slice(p);
            proof {
                assert(bytes@ =~= first + second + p@);
            }
            bytes
        },
        None => encode_vint(code * 2),
    }
}

/// The bytes of the offsets of one occurrence.
pub fn encode_offsets(start: u32, end: u32, last: u32) -> (bytes: Vec<u8>)
    requires
        last <= start <= end,
    ensures
        bytes@ == offset_bytes(start as int, end as int, last as int),
{
    let mut bytes = encode_vint(start - last);
    let ghost first = bytes@;
    let mut length = encode_vint(end - start);
    let ghost second = length@;
    bytes.append(&mut length);
    proof {
        assert(bytes@ =~= first + second);
    }
    bytes
}

/// Builds the postings of one field: consumes its tokens one by one and
/// keeps, for each term, the document and position streams up to date.
pub struct FreqProxTermsWriterPerField {
    pub base: TermsHashPerFieldBase<FreqProxPostingsArray>,
    pub has_freq: bool,
    pub has_prox: bool,
    pub has_offsets: bool,
    pub sum_total_term_freq: i64,
    pub sum_doc_freq: i64,
    /// Number of documents that have this field.
    pub doc_count: u32,
    /// Whether any token so far had a payload.
    pub saw_payloads: bool,
    /// The next consumer of the chain.
    pub next_per_field: TermVectorsConsumerPerField,
}

impl FreqProxTermsWriterPerField {
    /// The offset that names a stream of the current term in the byte
    /// arena.
    pub open spec fn key(&self, stream: int) -> int {
        self.base.stream_key(self.base.current(), stream)
    }

    /// Where the write head of a stream of the current term lies in the
    /// integer arena.
    pub open spec fn slot(&self, stream: int) -> int {
        self.base.head_slot(self.base.current(), stream)
    }

    /// What the columns hold for a term.
    pub open spec fn state(&self, term: int) -> TermState {
        self.base.postings_array.state(term)
    }

    /// The options and the columns agree, and the sums are in range.
    pub open spec fn config_ok(&self) -> bool {
        let options = self.base.field_info.index_options;
        let pa = &self.base.postings_array;
        &&& self.has_freq == (options.rank_spec() >= 2)
        &&& self.has_prox == (options.rank_spec() >= 3)
        &&& self.has_offsets == (options.rank_spec() >= 4)
        &&& pa.write_freqs == self.has_freq
        &&& pa.write_prox == self.has_prox
        &&& pa.write_offsets == self.has_offsets
        &&& self.base.streams() == (if self.has_prox {
            2int
        } else {
            1int
        })
        &&& 0 <= self.sum_doc_freq <= self.sum_total_term_freq <= self.doc_count * 0x7fff_ffff
    }

    /// What the writer needs of the arenas and of itself, whatever the
    /// columns hold for the terms.
    pub open spec fn core_ok(&self, pools: &TermsHashBase) -> bool {
        let pa = &self.base.postings_array;
        &&& self.base.wf(pools)
        &&& self.base.bytes_hash.wf(&pools.byte_pool)
        &&& self.base.terms() == self.base.bytes_hash.count()
        &&& self.config_ok()
        &&& forall|t: int|
            0 <= t < self.base.terms() ==> #[trigger] pa.base.text_starts@[t]
                == self.base.bytes_hash.starts()[t]
        &&& self.has_offsets ==> forall|t: int|
            self.base.terms() <= t < pa.base.size ==> (#[trigger] pa.last_offsets@[t]) == 0
    }

    /// What the columns hold for a term that has occurred: a document and,
    /// with frequencies, a positive frequency and a code whose low bit is
    /// free.
    pub open spec fn term_ok(&self, term: int) -> bool {
        &&& self.base.postings_array.last_doc_ids@[term] >= 0
        &&& self.has_freq ==> self.base.postings_array.term_freqs@[term] >= 1
        &&& self.has_freq ==> self.base.postings_array.last_doc_codes@[term] % 2 == 0
    }

    /// The writer's invariant with respect to the arenas.
    pub open spec fn wf(&self, pools: &TermsHashBase) -> bool {
        &&& self.core_ok(pools)
        &&& forall|t: int| 0 <= t < self.base.terms() ==> #[trigger] self.term_ok(t)
    }

    /// The invariant but for the columns of the current term, which has not
    /// occurred yet.
    pub open spec fn wf_at_new_term(&self, pools: &TermsHashBase) -> bool {
        &&& self.core_ok(pools)
        &&& forall|t: int|
            0 <= t < self.base.terms() && t != self.base.current() ==> #[trigger] self.term_ok(t)
        &&& 0 <= self.base.current()
        &&& self.has_offsets ==> self.base.postings_array.last_offsets@[self.base.current()] == 0
    }

    /// The position code of an occurrence and, with offsets, its offsets, as
    /// they go to the position stream; `last_offset` is the start of the
    /// occurrence before it.
    pub open spec fn occurrence_bytes(
        &self,
        code: u32,
        field_state: FieldInvertState,
        token: &Token,
        last_offset: u32,
    ) -> Seq<u8> {
        if !self.has_prox {
            Seq::empty()
        } else if self.has_offsets {
            prox_bytes(code, token.payload_bytes()) + offset_bytes(
                field_state.offset + token.start_offset,
                field_state.offset + token.end_offset,
                last_offset as int,
            )
        } else {
            prox_bytes(code, token.payload_bytes())
        }
    }

    /// What the columns hold for a term after its first occurrence.
    pub open spec fn first_state(
        &self,
        field_state: FieldInvertState,
        token: &Token,
        doc_id: DocId,
    ) -> TermState {
        TermState {
            last_doc_id: doc_id,
            last_doc_code: if self.has_freq {
                (doc_id * 2) as u32
            } else {
                doc_id as u32
            },
            term_freq: if self.has_freq {
                1
            } else {
                0
            },
            last_position: if self.has_prox {
                field_state.position as u32
            } else {
                0
            },
            last_offset: if self.has_offsets {
                (field_state.offset + token.start_offset) as u32
            } else {
                0
            },
        }
    }

    /// What the columns hold for a term after one more occurrence, when
    /// they held `state`.
    pub open spec fn repeat_state(
        &self,
        state: TermState,
        field_state: FieldInvertState,
        token: &Token,
        doc_id: DocId,
    ) -> TermState {
        if doc_id != state.last_doc_id {
            TermState {
                last_doc_id: doc_id,
                last_doc_code: if self.has_freq {
                    ((doc_id - state.last_doc_id) * 2) as u32
                } else {
                    (doc_id - state.last_doc_id) as u32
                },
                term_freq: if self.has_freq {
                    1
                } else {
                    0
                },
                last_position: if self.has_prox {
                    field_state.position as u32
                } else {
                    0
                },
                last_offset: if self.has_offsets {
                    (field_state.offset + token.start_offset) as u32
                } else {
                    0
                },
            }
        } else if self.has_freq {
            TermState {
                term_freq: (state.term_freq + 1) as u32,
                last_position: if self.has_prox {
                    field_state.position as u32
                } else {
                    0
                },
                last_offset: if self.has_offsets {
                    (field_state.offset + token.start_offset) as u32
                } else {
                    0
                },
                ..state
            }
        } else {
            state
        }
    }

    /// What one more occurrence of a term sends to the document stream:
    /// the pending code of the document that the term leaves, if it leaves
    /// one.
    pub open spec fn repeat_doc_bytes(&self, state: TermState, doc_id: DocId) -> Seq<u8> {
        if doc_id != state.last_doc_id {
            doc_code_bytes(self.has_freq, state)
        } else {
            Seq::empty()
        }
    }

    /// What one more occurrence of a term sends to the position stream.
    pub open spec fn repeat_pos_bytes(
        &self,
        state: TermState,
        field_state: FieldInvertState,
        token: &Token,
        doc_id: DocId,
    ) -> Seq<u8> {
        if doc_id != state.last_doc_id {
            self.occurrence_bytes(field_state.position as u32, field_state, token, 0)
        } else {
            self.occurrence_bytes(
                (field_state.position - state.last_position) as u32,
                field_state,
                token,
                state.last_offset,
            )
        }
    }

    /// Whether the arena has room for `doc_bytes` on the document stream of
    /// the current term and then for `pos_bytes` on its position stream.
    pub open spec fn room_for(
        &self,
        pools: &TermsHashBase,
        doc_bytes: Seq<u8>,
        pos_bytes: Seq<u8>,
    ) -> bool {
        self.room_at(pools, self.base.current(), doc_bytes, pos_bytes)
    }

    /// Whether the arena has room for `doc_bytes` on the document stream of
    /// `term` and then for `pos_bytes` on its position stream.
    pub open spec fn room_at(
        &self,
        pools: &TermsHashBase,
        term: int,
        doc_bytes: Seq<u8>,
        pos_bytes: Seq<u8>,
    ) -> bool {
        let h0 = pools.byte_pool.headroom(self.base.stream_key(term, 0));
        let h1 = pools.byte_pool.headroom(self.base.stream_key(term, 1));
        &&& h0.accepts(doc_bytes.len())
        &&& self.has_prox ==> h0.push_n(doc_bytes.len()).seen_by(h1.level, h1.used).accepts(
            pos_bytes.len(),
        )
    }

    /// What the columns hold for a term when one more occurrence of it was
    /// counted and then found no room on the position stream: what they
    /// hold after the occurrence, but for the position and the offset,
    /// which are those of the occurrence before, the offset starting anew
    /// in a new document.
    pub open spec fn stalled_state(
        &self,
        state: TermState,
        field_state: FieldInvertState,
        token: &Token,
        doc_id: DocId,
    ) -> TermState {
        TermState {
            last_position: state.last_position,
            last_offset: if doc_id != state.last_doc_id {
                0
            } else {
                state.last_offset
            },
            ..self.repeat_state(state, field_state, token, doc_id)
        }
    }

    /// `after` is `before` once `doc_bytes` went to the document stream of
    /// the current term and the position stream took as many of
    /// `pos_bytes` as the arena had room for, and not all of them.
    pub open spec fn posted_part(
        &self,
        before: &TermsHashBase,
        after: &TermsHashBase,
        doc_bytes: Seq<u8>,
        pos_bytes: Seq<u8>,
    ) -> bool {
        exists|k: int|
            0 <= k < pos_bytes.len() && #[trigger] self.posted(
                before,
                after,
                doc_bytes,
                pos_bytes.take(k),
            ) && before.byte_pool.headroom(self.key(0)).push_n(doc_bytes.len()).seen_by(
                before.byte_pool.headroom(self.key(1)).level,
                before.byte_pool.headroom(self.key(1)).used,
            ).stops_at(k)
    }

    /// `after` is `before` once `doc_bytes` went to the document stream of
    /// the current term and `pos_bytes` to its position stream. Each of the
    /// two streams keeps the slices that it had; no other write head moves;
    /// and where nothing was written, nothing changed.
    pub open spec fn posted(
        &self,
        before: &TermsHashBase,
        after: &TermsHashBase,
        doc_bytes: Seq<u8>,
        pos_bytes: Seq<u8>,
    ) -> bool {
        &&& doc_bytes.len() == 0 && pos_bytes.len() == 0 ==> *after == *before
        &&& after.byte_pool.streams()[self.key(0)].continues(before.byte_pool.streams()[self.key(0)])
        &&& self.has_prox ==> after.byte_pool.streams()[self.key(1)].continues(
            before.byte_pool.streams()[self.key(1)],
        )
        &&& after.int_pool.ints().len() == before.int_pool.ints().len()
        &&& forall|a: int|
            0 <= a < before.int_pool.ints().len() && a != self.slot(0) && (self.has_prox ==> a
                != self.slot(1)) ==> #[trigger] after.int_pool.ints()[a]
                == before.int_pool.ints()[a]
        &&& before.same_terms(after)
        &&& after.byte_pool.streams().dom() == before.byte_pool.streams().dom()
        &&& forall|k: int|
            k != self.key(0) && (self.has_prox ==> k != self.key(1))
                && before.byte_pool.streams().contains_key(k)
                ==> #[trigger] after.byte_pool.streams()[k] == before.byte_pool.streams()[k]
        &&& after.byte_pool.streams()[self.key(0)].data
            == before.byte_pool.streams()[self.key(0)].data + doc_bytes
        &&& self.has_prox ==> after.byte_pool.streams()[self.key(1)].data
            == before.byte_pool.streams()[self.key(1)].data + pos_bytes
    }

    /// The limits that a token must keep for the arithmetic of its codes:
    /// a position and a document that are not negative, offsets in order
    /// and within 31 bits, a payload whose length fits in 31 bits, and a
    /// count of distinct terms that can still grow.
    pub open spec fn token_in_range(
        field_state: FieldInvertState,
        token: &Token,
        doc_id: DocId,
    ) -> bool {
        &&& doc_id >= 0
        &&& field_state.position >= 0
        &&& field_state.unique_term_count < u32::MAX
        &&& token.payload_bytes().len() <= 0x7fff_ffff
        &&& token.start_offset <= token.end_offset
        &&& field_state.offset + token.end_offset <= 0x7fff_ffff
    }

    /// The order that the tokens of a term must keep: documents do not go
    /// back, and inside a document neither positions nor start offsets do;
    /// the frequency can still grow.
    pub open spec fn in_order(
        &self,
        state: TermState,
        field_state: FieldInvertState,
        token: &Token,
        doc_id: DocId,
    ) -> bool {
        &&& doc_id >= state.last_doc_id
        &&& doc_id == state.last_doc_id ==> {
            &&& self.has_freq ==> state.term_freq < u32::MAX
            &&& self.has_prox ==> field_state.position >= state.last_position
            &&& self.has_offsets ==> field_state.offset + token.start_offset >= state.last_offset
        }
    }

    /// A writer for the field that `field_info` describes. It is ready for
    /// use after `init`.
    pub fn new(field_info: FieldInfo, next_per_field: TermVectorsConsumerPerField) -> (writer:
        Self)
        ensures
            writer.next_per_field == next_per_field,
            writer.config_ok(),
            writer.base.field_info == field_info,
            writer.base.terms() == 0,
            writer.base.current() == -1,
            !writer.base.is_inited(),
            !writer.base.calls_next(),
            writer.base.postings_array.wf(),
            writer.base.postings_array.base.wf(),
            writer.base.postings_array.base.size == 2,
            writer.base.bytes_hash.count() == 0,
            writer.sum_total_term_freq == 0,
            writer.sum_doc_freq == 0,
            writer.doc_count == 0,
            !writer.saw_payloads,
            forall|t: int|
                0 <= t < 2 ==> #[trigger] writer.state(t) == (TermState {
                    last_doc_id: 0,
                    last_doc_code: 0,
                    term_freq: 0,
                    last_position: 0,
                    last_offset: 0,
                }),
    {
        let index_options = field_info.index_options;
        let stream_count: usize = if index_options.at_least(
            IndexOptions::DocsAndFreqsAndPositions,
        ) {
            2
        } else {
            1
        };
        let base = TermsHashPerFieldBase::new(
            stream_count,
            field_info,
            FreqProxPostingsArray::new(
                2,
                index_options.has_freqs(),
                index_options.has_positions(),
                index_options.has_offsets(),
            ),
        );
        FreqProxTermsWriterPerField {
            base,
            has_freq: index_options.at_least(IndexOptions::DocsAndFreqs),
            has_prox: index_options.at_least(IndexOptions::DocsAndFreqsAndPositions),
            has_offsets: index_options.at_least(IndexOptions::DocsAndFreqsAndPositionsAndOffsets),
            sum_total_term_freq: 0,
            sum_doc_freq: 0,
            doc_count: 0,
            saw_payloads: false,
            next_per_field,
        }
    }

    /// Makes the writer ready for use, with no terms.
    pub fn init(&mut self)
        requires
            old(self).config_ok(),
            old(self).base.postings_array.wf(),
            old(self).base.postings_array.base.wf(),
            old(self).has_offsets ==> forall|t: int|
                0 <= t < old(self).base.postings_array.base.size ==> (#[trigger] old(self).base.postings_array.last_offsets@[t]) == 0,
            old(self).next_per_field.base.streams() == 1,
            old(self).next_per_field.base.postings_array.wf(),
            old(self).next_per_field.base.postings_array.base.wf(),
        ensures
            final(self).base.is_inited(),
            final(self).base.terms() == 0,
            final(self).base.postings_array == old(self).base.postings_array,
            final(self).base.field_info == old(self).base.field_info,
            final(self).base.calls_next() == old(self).base.calls_next(),
            final(self).sum_total_term_freq == old(self).sum_total_term_freq,
            final(self).sum_doc_freq == old(self).sum_doc_freq,
            final(self).doc_count == old(self).doc_count,
            final(self).saw_payloads == old(self).saw_payloads,
            final(self).next_per_field.base.terms() == 0,
            final(self).next_per_field.do_vectors == old(self).next_per_field.do_vectors,
            final(self).next_per_field.do_vector_positions == old(self).next_per_field.do_vector_positions,
            final(self).next_per_field.do_vector_offsets == old(self).next_per_field.do_vector_offsets,
            forall|pools: &TermsHashBase| pools.wf() ==> #[trigger] final(self).wf(pools),
            forall|pools: &TermsHashBase|
                pools.wf() ==> #[trigger] final(self).next_per_field.wf(pools),
    {
        self.base.init();
        self.next_per_field.init();
    }

    /// Opens one instance of the field in a document, and asks the next
    /// consumer whether it takes part.
    pub fn start(&mut self, field_state: &FieldInvertState, first: bool) -> (r: Result<bool, Error>)
        ensures
            r == Ok::<bool, Error>(true),
            final(self).base.calls_next() == old(self).next_per_field.do_vectors,
            final(self).base.postings_array == old(self).base.postings_array,
            final(self).base.field_info == old(self).base.field_info,
            final(self).base.bytes_hash == old(self).base.bytes_hash,
            final(self).base.terms() == old(self).base.terms(),
            final(self).base.current() == old(self).base.current(),
            final(self).next_per_field == old(self).next_per_field,
            final(self).sum_total_term_freq == old(self).sum_total_term_freq,
            final(self).sum_doc_freq == old(self).sum_doc_freq,
            final(self).doc_count == old(self).doc_count,
            final(self).saw_payloads == old(self).saw_payloads,
            forall|pools: &TermsHashBase| old(self).wf(pools) ==> #[trigger] final(self).wf(pools),
    {
        let takes_part = match self.next_per_field.start(field_state, first) {
            Ok(b) => b,
            Err(e) => {
                return Err(e);
            },
        };
        let ghost before = *self;
        self.base.set_do_next_call(takes_part);
        proof {
            assert forall|pools: &TermsHashBase| old(self).wf(pools) implies #[trigger] self.wf(
                pools,
            ) by {
                assert forall|t: int| 0 <= t < self.base.terms() implies #[trigger] self.term_ok(
                    t,
                ) by {
                    assert(old(self).term_ok(t));
                }
            }
        }
        Ok(true)
    }

    /// Hands the token on to the next consumer of the chain.
    pub fn do_next(
        &mut self,
        next_pools: &mut TermsHashBase,
        field_state: &FieldInvertState,
        token: &Token,
        doc_id: DocId,
        text_start: usize,
    ) -> (r: Result<(), Error>)
        requires
            old(self).next_per_field.wf(old(next_pools)),
            old(self).next_per_field.admits(*field_state, token, text_start as int),
        ensures
            final(self).same_but_next(old(self)),
            final(self).next_per_field.wf(final(next_pools)),
            final(self).next_per_field.vector_added(
                &old(self).next_per_field,
                old(next_pools),
                final(next_pools),
                *field_state,
                token,
                text_start as int,
                r,
            ),
    {
        self.next_per_field.add_by_offset(next_pools, field_state, token, doc_id, text_start)
    }

    /// `self` is `before` but for the next consumer.
    pub open spec fn same_but_next(&self, before: &Self) -> bool {
        &&& self.base == before.base
        &&& self.has_freq == before.has_freq
        &&& self.has_prox == before.has_prox
        &&& self.has_offsets == before.has_offsets
        &&& self.sum_total_term_freq == before.sum_total_term_freq
        &&& self.sum_doc_freq == before.sum_doc_freq
        &&& self.doc_count == before.doc_count
        &&& self.saw_payloads == before.saw_payloads
    }

    /// Writes the position code of one occurrence of the current term, and
    /// the token's payload, if it has one, to the position stream, and
    /// remembers the position.
    pub fn write_prox(
        &mut self,
        pools: &mut TermsHashBase,
        term_id: usize,
        prox_code: u32,
        field_state: &FieldInvertState,
        token: &Token,
    ) -> (r: Result<(), Error>)
        requires
            old(self).wf(old(pools)),
            old(self).has_prox,
            term_id == old(self).base.current(),
            prox_code <= 0x7fff_ffff,
            field_state.position >= 0,
            token.payload_bytes().len() <= 0x7fff_ffff,
        ensures
            final(self).wf(final(pools)),
            old(pools).extended(final(pools), old(self).key(1), old(self).key(1)),
            final(self).base.postings_array.differs_only_at(
                &old(self).base.postings_array,
                term_id as int,
            ),
            final(self).base.current() == old(self).base.current(),
            old(pools).same_terms(final(pools)),
            r is Ok <==> old(self).base.headroom(old(pools), 1).accepts(
                prox_bytes(prox_code, token.payload_bytes()).len(),
            ),
            match r {
                Ok(()) => {
                    &&& final(self).base.headroom(final(pools), 1) == old(self).base.headroom(
                        old(pools),
                        1,
                    ).push_n(prox_bytes(prox_code, token.payload_bytes()).len())
                    &&& old(pools).wrote(
                        final(pools),
                        old(self).key(1),
                        old(self).slot(1),
                        prox_bytes(prox_code, token.payload_bytes()),
                    )
                    &&& final(self).base.postings_array.is_update_of(
                        &old(self).base.postings_array,
                        term_id as int,
                        (TermState {
                            last_position: field_state.position as u32,
                            ..old(self).state(term_id as int)
                        }),
                    )
                    &&& final(self).saw_payloads == (old(self).saw_payloads
                        || token.payload_bytes().len() > 0)
                    &&& final(self).same_but_columns(old(self))
                },
                Err(e) => {
                    &&& e == Error::PoolExhausted
                    &&& *final(self) == *old(self)
                    &&& old(pools).wrote_part(
                        final(pools),
                        old(self).key(1),
                        old(self).slot(1),
                        prox_bytes(prox_code, token.payload_bytes()),
                    )
                },
            },
    {
        proof {
            self.base.lemma_wf(pools);
            assert(stream_ok_at(self.base.postings_array.base, pools, term_id as int, 1));
        }
        let bytes = encode_prox(prox_code, token);
        match self.base.write_bytes(pools, 1, bytes.as_slice()) {
            Ok(()) => {},
            Err(e) => {
                proof {
                    self.lemma_terms_kept(old(pools), pools);
                    self.base.postings_array.lemma_differs_nowhere(term_id as int);
                }
                return Err(e);
            },
        }
        if token.payload_len() > 0 {
            self.saw_payloads = true;
        }
        self.base.postings_array.last_positions[term_id] = field_state.position as u32;
        proof {
            self.lemma_columns_changed(old(self), pools);
            self.lemma_terms_kept(old(pools), pools);
            let pa = self.base.postings_array;
            let pa0 = old(self).base.postings_array;
            let t = term_id as int;
            assert(old(self).term_ok(t));
            assert(pa.last_doc_ids@ =~= pa0.last_doc_ids@.update(t, pa.last_doc_ids@[t]));
            assert(pa.last_doc_codes@ =~= pa0.last_doc_codes@.update(t, pa.last_doc_codes@[t]));
            assert(pa.term_freqs@ =~= pa0.term_freqs@.update(t, pa.term_freqs@[t]));
            assert(pa.last_positions@ =~= pa0.last_positions@.update(t, pa.last_positions@[t]));
            if self.has_offsets {
                assert(pa.last_offsets@ =~= pa0.last_offsets@.update(t, pa.last_offsets@[t]));
            }
            self.lemma_entry_changed(old(self), old(pools), t);
        }
        Ok(())
    }

    /// The term table's invariant carries over to arenas with the same
    /// terms.
    proof fn lemma_terms_kept(&self, before: &TermsHashBase, after: &TermsHashBase)
        requires
            self.base.bytes_hash.wf(&before.byte_pool),
            self.base.wf(after),
            after.byte_pool.terms() == before.byte_pool.terms(),
        ensures
            self.base.bytes_hash.wf(&after.byte_pool),
            self.base.bytes_hash.terms(&after.byte_pool) == self.base.bytes_hash.terms(
                &before.byte_pool,
            ),
    {
        self.base.lemma_wf(after);
        self.base.bytes_hash.lemma_same_terms(&before.byte_pool, &after.byte_pool);
    }

    /// Writes the offsets of one occurrence of the current term to the
    /// position stream, and remembers the start offset. `offset_accum` is
    /// added to both offsets of the token.
    pub fn write_offsets(
        &mut self,
        pools: &mut TermsHashBase,
        term_id: usize,
        offset_accum: usize,
        token: &Token,
    ) -> (r: Result<(), Error>)
        requires
            old(self).wf(old(pools)),
            old(self).has_offsets,
            term_id == old(self).base.current(),
            token.start_offset <= token.end_offset,
            offset_accum + token.end_offset <= 0x7fff_ffff,
            offset_accum + token.start_offset >= old(self).state(term_id as int).last_offset,
        ensures
            final(self).wf(final(pools)),
            old(pools).extended(final(pools), old(self).key(1), old(self).key(1)),
            final(self).base.postings_array.differs_only_at(
                &old(self).base.postings_array,
                term_id as int,
            ),
            final(self).base.current() == old(self).base.current(),
            old(pools).same_terms(final(pools)),
            r is Ok <==> old(self).base.headroom(old(pools), 1).accepts(
                offset_bytes(
                    offset_accum + token.start_offset,
                    offset_accum + token.end_offset,
                    old(self).state(term_id as int).last_offset as int,
                ).len(),
            ),
            match r {
                Ok(()) => {
                    &&& final(self).base.headroom(final(pools), 1) == old(self).base.headroom(
                        old(pools),
                        1,
                    ).push_n(
                        offset_bytes(
                            offset_accum + token.start_offset,
                            offset_accum + token.end_offset,
                            old(self).state(term_id as int).last_offset as int,
                        ).len(),
                    )
                    &&& old(pools).wrote(
                        final(pools),
                        old(self).key(1),
                        old(self).slot(1),
                        offset_bytes(
                            offset_accum + token.start_offset,
                            offset_accum + token.end_offset,
                            old(self).state(term_id as int).last_offset as int,
                        ),
                    )
                    &&& final(self).base.postings_array.is_update_of(
                        &old(self).base.postings_array,
                        term_id as int,
                        (TermState {
                            last_offset: (offset_accum + token.start_offset) as u32,
                            ..old(self).state(term_id as int)
                        }),
                    )
                    &&& final(self).saw_payloads == old(self).saw_payloads
                    &&& final(self).same_but_columns(old(self))
                },
                Err(e) => {
                    &&& e == Error::PoolExhausted
                    &&& *final(self) == *old(self)
                    &&& old(pools).wrote_part(
                        final(pools),
                        old(self).key(1),
                        old(self).slot(1),
                        offset_bytes(
                            offset_accum + token.start_offset,
                            offset_accum + token.end_offset,
                            old(self).state(term_id as int).last_offset as int,
                        ),
                    )
                },
            },
    {
        proof {
            self.base.lemma_wf(pools);
            assert(stream_ok_at(self.base.postings_array.base, pools, term_id as int, 1));
        }
        let start_offset = (offset_accum + token.start_offset) as u32;
        let end_offset = (offset_accum + token.end_offset) as u32;
        let last = self.base.postings_array.last_offsets[term_id];
        let bytes = encode_offsets(start_offset, end_offset, last);
        match self.base.write_bytes(pools, 1, bytes.as_slice()) {
            Ok(()) => {},
            Err(e) => {
                proof {
                    self.lemma_terms_kept(old(pools), pools);
                    self.base.postings_array.lemma_differs_nowhere(term_id as int);
                }
                return Err(e);
            },
        }
        self.base.postings_array.last_offsets[term_id] = start_offset;
        proof {
            self.lemma_columns_changed(old(self), pools);
            self.lemma_terms_kept(old(pools), pools);
            let pa = self.base.postings_array;
            let pa0 = old(self).base.postings_array;
            let t = term_id as int;
            assert(old(self).term_ok(t));
            assert(pa.last_doc_ids@ =~= pa0.last_doc_ids@.update(t, pa.last_doc_ids@[t]));
            assert(pa.last_doc_codes@ =~= pa0.last_doc_codes@.update(t, pa.last_doc_codes@[t]));
            assert(pa.term_freqs@ =~= pa0.term_freqs@.update(t, pa.term_freqs@[t]));
            assert(pa.last_positions@ =~= pa0.last_positions@.update(t, pa.last_positions@[t]));
            if self.has_offsets {
                assert(pa.last_offsets@ =~= pa0.last_offsets@.update(t, pa.last_offsets@[t]));
            }
            self.lemma_entry_changed(old(self), old(pools), t);
        }
        Ok(())
    }

    /// Writes one occurrence of the current term to the position stream:
    /// its position code with the payload and, with offsets, its offsets.
    pub fn write_occurrence(
        &mut self,
        pools: &mut TermsHashBase,
        term_id: usize,
        prox_code: u32,
        field_state: &FieldInvertState,
        token: &Token,
    ) -> (r: Result<(), Error>)
        requires
            old(self).wf(old(pools)),
            old(self).has_prox,
            term_id == old(self).base.current(),
            prox_code <= 0x7fff_ffff,
            field_state.position >= 0,
            token.payload_bytes().len() <= 0x7fff_ffff,
            token.start_offset <= token.end_offset,
            field_state.offset + token.end_offset <= 0x7fff_ffff,
            old(self).has_offsets ==> field_state.offset + token.start_offset >= old(self).state(
                term_id as int,
            ).last_offset,
        ensures
            final(self).wf(final(pools)),
            old(pools).extended(final(pools), old(self).key(1), old(self).key(1)),
            final(self).base.postings_array.differs_only_at(
                &old(self).base.postings_array,
                term_id as int,
            ),
            final(self).base.current() == old(self).base.current(),
            old(pools).same_terms(final(pools)),
            r is Ok <==> old(self).base.headroom(old(pools), 1).accepts(
                old(self).occurrence_bytes(
                    prox_code,
                    *field_state,
                    token,
                    old(self).state(term_id as int).last_offset,
                ).len(),
            ),
            match r {
                Ok(()) => {
                    &&& old(pools).wrote(
                        final(pools),
                        old(self).key(1),
                        old(self).slot(1),
                        old(self).occurrence_bytes(
                            prox_code,
                            *field_state,
                            token,
                            old(self).state(term_id as int).last_offset,
                        ),
                    )
                    &&& final(self).base.postings_array.is_update_of(
                        &old(self).base.postings_array,
                        term_id as int,
                        (TermState {
                            last_position: field_state.position as u32,
                            last_offset: if old(self).has_offsets {
                                (field_state.offset + token.start_offset) as u32
                            } else {
                                0
                            },
                            ..old(self).state(term_id as int)
                        }),
                    )
                    &&& final(self).saw_payloads == (old(self).saw_payloads
                        || token.payload_bytes().len() > 0)
                    &&& final(self).same_but_columns(old(self))
                },
                Err(e) => {
                    &&& e == Error::PoolExhausted
                    &&& *final(self) == *old(self)
                    &&& old(pools).wrote_part(
                        final(pools),
                        old(self).key(1),
                        old(self).slot(1),
                        old(self).occurrence_bytes(
                            prox_code,
                            *field_state,
                            token,
                            old(self).state(term_id as int).last_offset,
                        ),
                    )
                },
            },
    {
        proof {
            self.base.lemma_wf(pools);
            assert(stream_ok_at(self.base.postings_array.base, pools, term_id as int, 1));
        }
        let mut bytes = encode_prox(prox_code, token);
        let ghost first = bytes@;
        if self.has_offsets {
            let start_offset = (field_state.offset + token.start_offset) as u32;
            let end_offset = (field_state.offset + token.end_offset) as u32;
            let last = self.base.postings_array.last_offsets[term_id];
            let mut offsets = encode_offsets(start_offset, end_offset, last);
            let ghost second = offsets@;
            bytes.append(&mut offsets);
            proof {
                assert(bytes@ =~= first + second);
            }
        }
        match self.base.write_bytes(pools, 1, bytes.as_slice()) {
            Ok(()) => {},
            Err(e) => {
                proof {
                    self.lemma_terms_kept(old(pools), pools);
                    self.base.postings_array.lemma_differs_nowhere(term_id as int);
                }
                return Err(e);
            },
        }
        if token.payload_len() > 0 {
            self.saw_payloads = true;
        }
        self.base.postings_array.last_positions[term_id] = field_state.position as u32;
        if self.has_offsets {
            self.base.postings_array.last_offsets[term_id] = (field_state.offset
                + token.start_offset) as u32;
        }
        proof {
            self.lemma_columns_changed(old(self), pools);
            self.lemma_terms_kept(old(pools), pools);
            let pa = self.base.postings_array;
            let pa0 = old(self).base.postings_array;
            let t = term_id as int;
            assert(old(self).term_ok(t));
            assert(pa.last_doc_ids@ =~= pa0.last_doc_ids@.update(t, pa.last_doc_ids@[t]));
            assert(pa.last_doc_codes@ =~= pa0.last_doc_codes@.update(t, pa.last_doc_codes@[t]));
            assert(pa.term_freqs@ =~= pa0.term_freqs@.update(t, pa.term_freqs@[t]));
            assert(pa.last_positions@ =~= pa0.last_positions@.update(t, pa.last_positions@[t]));
            if self.has_offsets {
                assert(pa.last_offsets@ =~= pa0.last_offsets@.update(t, pa.last_offsets@[t]));
            }
            self.lemma_entry_changed(old(self), old(pools), t);
        }
        Ok(())
    }

    /// Writes the pending code of the last document of the current term to
    /// the document stream, and with frequencies above one the frequency.
    pub fn flush_doc(&self, pools: &mut TermsHashBase, term_id: usize) -> (r: Result<(), Error>)
        requires
            self.wf(old(pools)),
            term_id == self.base.current(),
        ensures
            self.wf(final(pools)),
            old(pools).extended(final(pools), self.key(0), self.key(0)),
            old(pools).same_terms(final(pools)),
            r is Ok <==> self.base.headroom(old(pools), 0).accepts(
                doc_code_bytes(self.has_freq, self.state(term_id as int)).len(),
            ),
            match r {
                Ok(()) => {
                    &&& self.base.headroom(final(pools), 0) == self.base.headroom(
                        old(pools),
                        0,
                    ).push_n(doc_code_bytes(self.has_freq, self.state(term_id as int)).len())
                    &&& old(pools).wrote(
                        final(pools),
                        self.key(0),
                        self.slot(0),
                        doc_code_bytes(self.has_freq, self.state(term_id as int)),
                    )
                },
                Err(e) => {
                    &&& e == Error::PoolExhausted
                    &&& old(pools).wrote_part(
                        final(pools),
                        self.key(0),
                        self.slot(0),
                        doc_code_bytes(self.has_freq, self.state(term_id as int)),
                    )
                },
            },
    {
        proof {
            self.base.lemma_wf(pools);
            assert(stream_ok_at(self.base.postings_array.base, pools, term_id as int, 0));
            assert(self.term_ok(term_id as int));
        }
        let code = self.base.postings_array.last_doc_codes[term_id];
        let bytes = if !self.has_freq {
            encode_vint(code)
        } else if self.base.postings_array.term_freqs[term_id] == 1 {
            encode_vint(code | 1)
        } else {
            let mut bytes = encode_vint(code);
            let ghost first = bytes@;
            let mut freq = encode_vint(self.base.postings_array.term_freqs[term_id]);
            let ghost second = freq@;
            bytes.append(&mut freq);
            proof {
                assert(bytes@ =~= first + second);
            }
            bytes
        };
        let r = self.base.write_bytes(pools, 0, bytes.as_slice());
        proof {
            self.lemma_terms_kept(old(pools), pools);
        }
        r
    }

    /// The field's state after the first occurrence of a term.
    pub open spec fn first_field_state(field_state: FieldInvertState) -> FieldInvertState {
        FieldInvertState {
            max_term_frequency: if field_state.max_term_frequency < 1 {
                1
            } else {
                field_state.max_term_frequency
            },
            unique_term_count: (field_state.unique_term_count + 1) as u32,
            ..field_state
        }
    }

    /// The field's state after one more occurrence of a term whose columns
    /// held `state`.
    pub open spec fn repeat_field_state(
        &self,
        state: TermState,
        field_state: FieldInvertState,
        doc_id: DocId,
    ) -> FieldInvertState {
        if doc_id != state.last_doc_id {
            FieldInvertState {
                max_term_frequency: if self.has_freq && field_state.max_term_frequency < 1 {
                    1
                } else {
                    field_state.max_term_frequency
                },
                unique_term_count: (field_state.unique_term_count + 1) as u32,
                ..field_state
            }
        } else if self.has_freq {
            FieldInvertState {
                max_term_frequency: if field_state.max_term_frequency < state.term_freq + 1 {
                    (state.term_freq + 1) as u32
                } else {
                    field_state.max_term_frequency
                },
                ..field_state
            }
        } else {
            field_state
        }
    }

    /// Records the first occurrence of the current term: its document, and
    /// with positions the occurrence itself. Nothing goes to the document
    /// stream: the document's code waits for the term's next document.
    pub fn new_term(
        &mut self,
        pools: &mut TermsHashBase,
        term_id: usize,
        field_state: &mut FieldInvertState,
        token: &Token,
        doc_id: DocId,
    ) -> (r: Result<(), Error>)
        requires
            old(self).wf_at_new_term(old(pools)),
            term_id == old(self).base.current(),
            Self::token_in_range(*old(field_state), token, doc_id),
        ensures
            final(self).wf(final(pools)),
            final(self).base.stream_bytes(final(pools), term_id as int, 0) == old(self).base.stream_bytes(old(pools), term_id as int, 0),
            old(pools).extended(final(pools), old(self).key(0), (if old(self).has_prox {
                    old(self).key(1)
                } else {
                    old(self).key(0)
                })),
            final(self).base.postings_array.differs_only_at(
                &old(self).base.postings_array,
                term_id as int,
            ),
            final(self).same_but_columns(old(self)),
            final(self).base.postings_array.base == old(self).base.postings_array.base,
            old(pools).same_terms(final(pools)),
            r is Ok <==> old(self).room_for(
                old(pools),
                Seq::empty(),
                old(self).occurrence_bytes(
                    old(field_state).position as u32,
                    *old(field_state),
                    token,
                    0,
                ),
            ),
            match r {
                Ok(()) => {
                    &&& old(self).posted(
                        old(pools),
                        final(pools),
                        Seq::empty(),
                        old(self).occurrence_bytes(
                            old(field_state).position as u32,
                            *old(field_state),
                            token,
                            0,
                        ),
                    )
                    &&& final(self).base.postings_array.is_update_of(
                        &old(self).base.postings_array,
                        term_id as int,
                        old(self).first_state(*old(field_state), token, doc_id),
                    )
                    &&& final(self).saw_payloads == (old(self).saw_payloads || (old(self).has_prox
                        && token.payload_bytes().len() > 0))
                    &&& *final(field_state) == Self::first_field_state(*old(field_state))
                },
                Err(e) => {
                    &&& e == Error::PoolExhausted
                    &&& *final(field_state) == *old(field_state)
                    &&& old(self).has_prox
                    &&& old(pools).wrote_part(
                        final(pools),
                        old(self).key(1),
                        old(self).slot(1),
                        old(self).occurrence_bytes(
                            old(field_state).position as u32,
                            *old(field_state),
                            token,
                            0,
                        ),
                    )
                    &&& final(self).base.postings_array.is_update_of(
                        &old(self).base.postings_array,
                        term_id as int,
                        (TermState {
                            last_position: old(self).state(term_id as int).last_position,
                            last_offset: old(self).state(term_id as int).last_offset,
                            ..old(self).first_state(*old(field_state), token, doc_id)
                        }),
                    )
                    &&& final(self).saw_payloads == old(self).saw_payloads
                },
            },
    {
        let ghost t = term_id as int;
        let ghost pa0 = old(self).base.postings_array;
        let ghost key0 = self.key(0);
        let ghost key1 = self.key(1);
        proof {
            self.base.lemma_wf(pools);
            assert(stream_ok_at(pa0.base, pools, t, 0));
        }
        self.base.postings_array.last_doc_ids[term_id] = doc_id;
        if !self.has_freq {
            self.base.postings_array.last_doc_codes[term_id] = doc_id as u32;
        } else {
            self.base.postings_array.last_doc_codes[term_id] = (doc_id as u32) * 2;
            self.base.postings_array.term_freqs[term_id] = 1;
        }
        let ghost mid_self = *self;
        proof {
            self.base.postings_array.lemma_differs_from_entries(&pa0, t);
            pools.lemma_extended_by_nothing(key0, if self.has_prox {
                key1
            } else {
                key0
            });
            self.lemma_columns_changed(old(self), pools);
            assert forall|t2: int| 0 <= t2 < self.base.terms() implies #[trigger] self.term_ok(
                t2,
            ) by {
                if t2 != t {
                    assert(old(self).term_ok(t2));
                }
            }
            assert(pools.byte_pool.streams()[key0].data + Seq::<u8>::empty()
                =~= pools.byte_pool.streams()[key0].data);
        }
        if self.has_prox {
            proof {
                assert(stream_ok_at(pa0.base, pools, t, 1));
                old(self).base.lemma_distinct(old(pools), t, 0, t, 1);
                assert(old(self).base.headroom(old(pools), 0).push_n(0).seen_by(
                    old(self).base.headroom(old(pools), 1).level,
                    old(self).base.headroom(old(pools), 1).used,
                ) == old(self).base.headroom(old(pools), 1));
            }
            match self.write_occurrence(
                pools,
                term_id,
                field_state.position as u32,
                field_state,
                token,
            ) {
                Ok(()) => {
                    proof {
                        self.base.postings_array.lemma_differs_twice(
                            &mid_self.base.postings_array,
                            &pa0,
                            t,
                        );
                        old(pools).lemma_extended_wider(pools, key1, key0, key1);
                    }
                },
                Err(e) => {
                    proof {
                        self.base.postings_array.lemma_differs_twice(
                            &mid_self.base.postings_array,
                            &pa0,
                            t,
                        );
                        old(pools).lemma_extended_wider(pools, key1, key0, key1);
                    }
                    return Err(e);
                },
            }
        }
        field_state.max_term_frequency = if field_state.max_term_frequency < 1 {
            1
        } else {
            field_state.max_term_frequency
        };
        field_state.unique_term_count = field_state.unique_term_count + 1;
        proof {
            let pa = self.base.postings_array;
            let pa1 = mid_self.base.postings_array;
            let st = old(self).first_state(*old(field_state), token, doc_id);
            assert(pa.last_doc_ids@ =~= pa0.last_doc_ids@.update(t, st.last_doc_id));
            assert(pa.last_doc_codes@ =~= pa0.last_doc_codes@.update(t, st.last_doc_code));
            if self.has_freq {
                assert(pa.term_freqs@ =~= pa0.term_freqs@.update(t, st.term_freq));
            }
            if self.has_prox {
                assert(pa.last_positions@ =~= pa0.last_positions@.update(t, st.last_position));
            }
            if self.has_offsets {
                assert(pa.last_offsets@ =~= pa0.last_offsets@.update(t, st.last_offset));
            }
        }
        Ok(())
    }

    /// Records one more occurrence of the current term. In the document of
    /// its last occurrence, the frequency grows and the occurrence goes to
    /// the position stream. In a later document, the code of the document
    /// that the term leaves goes to the document stream first.
    pub fn add_term(
        &mut self,
        pools: &mut TermsHashBase,
        term_id: usize,
        field_state: &mut FieldInvertState,
        token: &Token,
        doc_id: DocId,
    ) -> (r: Result<(), Error>)
        requires
            old(self).wf(old(pools)),
            term_id == old(self).base.current(),
            Self::token_in_range(*old(field_state), token, doc_id),
            old(self).in_order(old(self).state(term_id as int), *old(field_state), token, doc_id),
        ensures
            final(self).wf(final(pools)),
            old(pools).extended(final(pools), old(self).key(0), (if old(self).has_prox {
                    old(self).key(1)
                } else {
                    old(self).key(0)
                })),
            final(self).base.postings_array.differs_only_at(
                &old(self).base.postings_array,
                term_id as int,
            ),
            final(self).same_but_columns(old(self)),
            final(self).base.postings_array.base == old(self).base.postings_array.base,
            old(pools).same_terms(final(pools)),
            r is Ok <==> old(self).room_for(
                old(pools),
                old(self).repeat_doc_bytes(old(self).state(term_id as int), doc_id),
                old(self).repeat_pos_bytes(
                    old(self).state(term_id as int),
                    *old(field_state),
                    token,
                    doc_id,
                ),
            ),
            match r {
                Ok(()) => {
                    &&& old(self).posted(
                        old(pools),
                        final(pools),
                        old(self).repeat_doc_bytes(old(self).state(term_id as int), doc_id),
                        old(self).repeat_pos_bytes(
                            old(self).state(term_id as int),
                            *old(field_state),
                            token,
                            doc_id,
                        ),
                    )
                    &&& final(self).base.postings_array.is_update_of(
                        &old(self).base.postings_array,
                        term_id as int,
                        old(self).repeat_state(
                            old(self).state(term_id as int),
                            *old(field_state),
                            token,
                            doc_id,
                        ),
                    )
                    &&& final(self).saw_payloads == (old(self).saw_payloads || (old(self).has_prox
                        && (old(self).has_freq || doc_id != old(self).state(
                        term_id as int,
                    ).last_doc_id) && token.payload_bytes().len() > 0))
                    &&& *final(field_state) == old(self).repeat_field_state(
                        old(self).state(term_id as int),
                        *old(field_state),
                        doc_id,
                    )
                },
                Err(e) => {
                    let st = old(self).state(term_id as int);
                    let d = old(self).repeat_doc_bytes(st, doc_id);
                    let p = old(self).repeat_pos_bytes(st, *old(field_state), token, doc_id);
                    &&& e == Error::PoolExhausted
                    &&& if !old(self).base.headroom(old(pools), 0).accepts(d.len()) {
                        &&& old(pools).wrote_part(
                            final(pools),
                            old(self).key(0),
                            old(self).slot(0),
                            d,
                        )
                        &&& *final(self) == *old(self)
                        &&& *final(field_state) == *old(field_state)
                    } else {
                        &&& old(self).has_prox
                        &&& old(self).posted_part(old(pools), final(pools), d, p)
                        &&& final(self).base.postings_array.is_update_of(
                            &old(self).base.postings_array,
                            term_id as int,
                            old(self).stalled_state(st, *old(field_state), token, doc_id),
                        )
                        &&& final(self).saw_payloads == old(self).saw_payloads
                        &&& *final(field_state) == (FieldInvertState {
                            unique_term_count: old(field_state).unique_term_count,
                            ..old(self).repeat_field_state(st, *old(field_state), doc_id)
                        })
                    }
                },
            },
    {
        let ghost t = term_id as int;
        let ghost pa0 = old(self).base.postings_array;
        let ghost st0 = old(self).state(t);
        let ghost key0 = self.key(0);
        let ghost key1 = self.key(1);
        let ghost h0 = self.base.headroom(pools, 0);
        let ghost h1 = self.base.headroom(pools, 1);
        let ghost d = self.repeat_doc_bytes(st0, doc_id);
        let ghost k1 = if self.has_prox {
            key1
        } else {
            key0
        };
        proof {
            self.base.lemma_wf(pools);
            assert(stream_ok_at(pa0.base, pools, t, 0));
            assert(self.term_ok(t));
            if self.has_prox {
                assert(stream_ok_at(pa0.base, pools, t, 1));
                self.base.lemma_distinct(pools, t, 0, t, 1);
            }
            assert(h0.push_n(0).seen_by(h1.level, h1.used) == h1);
            assert(pools.byte_pool.streams()[key0].data + Seq::<u8>::empty()
                =~= pools.byte_pool.streams()[key0].data);
            pools.lemma_extended_by_nothing(key0, k1);
            self.base.postings_array.lemma_differs_nowhere(t);
        }
        let last_doc = self.base.postings_array.last_doc_ids[term_id];
        if doc_id != last_doc {
            match self.flush_doc(pools, term_id) {
                Ok(()) => {
                    proof {
                        old(pools).lemma_extended_wider(pools, key0, key0, k1);
                    }
                },
                Err(e) => {
                    proof {
                        old(pools).lemma_extended_wider(pools, key0, key0, k1);
                    }
                    return Err(e);
                },
            }
            let ghost mid = *pools;
            if !self.has_freq {
                self.base.postings_array.last_doc_codes[term_id] = (doc_id - last_doc) as u32;
            } else {
                self.base.postings_array.term_freqs[term_id] = 1;
                field_state.max_term_frequency = if field_state.max_term_frequency < 1 {
                    1
                } else {
                    field_state.max_term_frequency
                };
                self.base.postings_array.last_doc_codes[term_id] = ((doc_id - last_doc) as u32)
                    * 2;
            }
            self.base.postings_array.last_doc_ids[term_id] = doc_id;
            if self.has_offsets {
                self.base.postings_array.last_offsets[term_id] = 0;
            }
            let ghost mid_self = *self;
            proof {
                self.base.postings_array.lemma_differs_from_entries(&pa0, t);
                self.lemma_columns_changed(old(self), pools);
                assert forall|t2: int| 0 <= t2 < self.base.terms() implies #[trigger] self.term_ok(
                    t2,
                ) by {
                    assert(old(self).term_ok(t2));
                }
            }
            if self.has_prox {
                proof {
                    assert(self.base.headroom(pools, 1) == h0.push_n(d.len()).seen_by(
                        h1.level,
                        h1.used,
                    ));
                }
                let r = self.write_occurrence(
                    pools,
                    term_id,
                    field_state.position as u32,
                    field_state,
                    token,
                );
                proof {
                    self.base.postings_array.lemma_differs_twice(
                        &mid_self.base.postings_array,
                        &pa0,
                        t,
                    );
                    mid.lemma_extended_wider(pools, key1, key0, k1);
                    old(pools).lemma_extended_twice(&mid, pools, key0, k1);
                }
                match r {
                    Ok(()) => {},
                    Err(e) => {
                        proof {
                            let p = old(self).repeat_pos_bytes(st0, *old(field_state), token, doc_id);
                            let k = choose|k: int|
                                0 <= k < p.len() && #[trigger] mid.wrote(
                                    pools,
                                    key1,
                                    self.slot(1),
                                    p.take(k),
                                ) && mid.byte_pool.headroom(key1).stops_at(k);
                            assert(pools.byte_pool.streams().dom() =~= old(pools).byte_pool.streams().dom());
                            assert(old(self).posted(old(pools), pools, d, p.take(k)));
                            let pa = self.base.postings_array;
                            let st = old(self).stalled_state(st0, *old(field_state), token, doc_id);
                            assert(pa.last_doc_ids@ =~= pa0.last_doc_ids@.update(t, st.last_doc_id));
                            assert(pa.last_doc_codes@ =~= pa0.last_doc_codes@.update(
                                t,
                                st.last_doc_code,
                            ));
                            assert(pa.term_freqs@ =~= pa0.term_freqs@.update(t, st.term_freq));
                            assert(pa.last_positions@ =~= pa0.last_positions@.update(
                                t,
                                st.last_position,
                            ));
                            if self.has_offsets {
                                assert(pa.last_offsets@ =~= pa0.last_offsets@.update(
                                    t,
                                    st.last_offset,
                                ));
                            }
                        }
                        return Err(e);
                    },
                }
                proof {
                    assert(pools.byte_pool.streams().dom() =~= old(pools).byte_pool.streams().dom());
                }
            }
            field_state.unique_term_count = field_state.unique_term_count + 1;
        } else if self.has_freq {
            let freq = self.base.postings_array.term_freqs[term_id] + 1;
            self.base.postings_array.term_freqs[term_id] = freq;
            field_state.max_term_frequency = if field_state.max_term_frequency < freq {
                freq
            } else {
                field_state.max_term_frequency
            };
            let ghost mid_self = *self;
            proof {
                self.base.postings_array.lemma_differs_from_entries(&pa0, t);
                self.lemma_columns_changed(old(self), pools);
                assert forall|t2: int| 0 <= t2 < self.base.terms() implies #[trigger] self.term_ok(
                    t2,
                ) by {
                    assert(old(self).term_ok(t2));
                }
            }
            if self.has_prox {
                let code = field_state.position as u32
                    - self.base.postings_array.last_positions[term_id];
                let r = self.write_occurrence(pools, term_id, code, field_state, token);
                proof {
                    self.base.postings_array.lemma_differs_twice(
                        &mid_self.base.postings_array,
                        &pa0,
                        t,
                    );
                    old(pools).lemma_extended_wider(pools, key1, key0, k1);
                }
                match r {
                    Ok(()) => {},
                    Err(e) => {
                        proof {
                            let p = old(self).repeat_pos_bytes(st0, *old(field_state), token, doc_id);
                            let k = choose|k: int|
                                0 <= k < p.len() && #[trigger] old(pools).wrote(
                                    pools,
                                    key1,
                                    self.slot(1),
                                    p.take(k),
                                ) && old(pools).byte_pool.headroom(key1).stops_at(k);
                            assert(old(self).posted(old(pools), pools, d, p.take(k)));
                            let pa = self.base.postings_array;
                            let st = old(self).stalled_state(st0, *old(field_state), token, doc_id);
                            assert(pa.last_doc_ids@ =~= pa0.last_doc_ids@.update(t, st.last_doc_id));
                            assert(pa.last_doc_codes@ =~= pa0.last_doc_codes@.update(
                                t,
                                st.last_doc_code,
                            ));
                            assert(pa.term_freqs@ =~= pa0.term_freqs@.update(t, st.term_freq));
                            assert(pa.last_positions@ =~= pa0.last_positions@.update(
                                t,
                                st.last_position,
                            ));
                            if self.has_offsets {
                                assert(pa.last_offsets@ =~= pa0.last_offsets@.update(
                                    t,
                                    st.last_offset,
                                ));
                            }
                        }
                        return Err(e);
                    },
                }
            }
        }
        proof {
            let pa = self.base.postings_array;
            let st = old(self).repeat_state(st0, *old(field_state), token, doc_id);
            assert(pa.last_doc_ids@ =~= pa0.last_doc_ids@.update(t, st.last_doc_id));
            assert(pa.last_doc_codes@ =~= pa0.last_doc_codes@.update(t, st.last_doc_code));
            if self.has_freq {
                assert(pa.term_freqs@ =~= pa0.term_freqs@.update(t, st.term_freq));
            }
            if self.has_prox {
                assert(pa.last_positions@ =~= pa0.last_positions@.update(t, st.last_position));
            }
            if self.has_offsets {
                assert(pa.last_offsets@ =~= pa0.last_offsets@.update(t, st.last_offset));
            }
        }
        Ok(())
    }

    /// The fill of the last block of the byte arena and the number of its
    /// blocks once a term of `len` bytes was stored.
    pub open spec fn geometry_with_term(pools: &TermsHashBase, len: int) -> (int, int) {
        if pools.byte_pool.fits(len + 2) {
            (pools.byte_pool.upto() + term_header_len(len) + len, pools.byte_pool.num_buffers())
        } else {
            (term_header_len(len) + len, pools.byte_pool.num_buffers() + 1)
        }
    }

    /// The fill of the last block of the byte arena and the number of its
    /// blocks once a term of `len` bytes was stored and got its streams.
    pub open spec fn geometry_with_streams(&self, pools: &TermsHashBase, len: int) -> (int, int) {
        let (upto, buffers) = Self::geometry_with_term(pools, len);
        let size = self.base.streams() * FIRST_LEVEL_SIZE;
        if upto + size <= BYTE_BLOCK_SIZE {
            (upto + size, buffers)
        } else {
            (size, buffers + 1)
        }
    }

    /// Where the first slices of the streams of a new term of `len` bytes
    /// start: they are the last that the byte arena gives out for it.
    pub open spec fn streams_start(&self, pools: &TermsHashBase, len: int) -> int {
        let (upto, buffers) = self.geometry_with_streams(pools, len);
        (buffers - 1) * BYTE_BLOCK_SIZE + upto - self.base.streams() * FIRST_LEVEL_SIZE
    }

    /// Whether the arenas can take a new term of `len` bytes and its
    /// streams.
    pub open spec fn room_for_term(&self, pools: &TermsHashBase, len: int) -> bool {
        let (upto, buffers) = Self::geometry_with_term(pools, len);
        &&& pools.int_pool.can_allocate(self.base.streams())
        &&& pools.byte_pool.can_allocate(len + 2)
        &&& (upto + self.base.streams() * FIRST_LEVEL_SIZE <= BYTE_BLOCK_SIZE || buffers
            < pools.byte_pool.limit())
    }

    /// Why `term`, not yet known, cannot become a term of the field now;
    /// `None` when it can.
    pub open spec fn intern_error(&self, pools: &TermsHashBase, term: Seq<u8>) -> Option<Error> {
        if self.base.terms() + 1 >= MAX_TERMS {
            Some(Error::TooManyTerms)
        } else if term.len() > MAX_TERM_LENGTH {
            Some(Error::MaxBytesLengthExceeded)
        } else if !self.room_for_term(pools, term.len() as int) {
            Some(Error::PoolExhausted)
        } else {
            None
        }
    }

    /// The terms of the field, by id.
    pub open spec fn terms(&self, pools: &TermsHashBase) -> Seq<Seq<u8>> {
        self.base.bytes_hash.terms(&pools.byte_pool)
    }

    /// The shared columns hold for every term below `id` what they held in
    /// `before`: where a term's bytes, its write heads and its first
    /// slices are is set once.
    pub open spec fn new_term_columns(&self, before: &Self, id: int) -> bool {
        let pa = self.base.postings_array.base;
        let pa0 = before.base.postings_array.base;
        forall|t: int|
            0 <= t < id ==> {
                &&& (#[trigger] pa.text_starts@[t]) == pa0.text_starts@[t]
                &&& pa.int_starts@[t] == pa0.int_starts@[t]
                &&& pa.byte_starts@[t] == pa0.byte_starts@[t]
            }
    }

    /// `self` is `before` but for the term that the writer stands on.
    pub open spec fn same_but_cursor(&self, before: &Self) -> bool {
        &&& self.base.stream_count == before.base.stream_count
        &&& self.base.field_info == before.base.field_info
        &&& self.base.bytes_hash == before.base.bytes_hash
        &&& self.base.num_terms == before.base.num_terms
        &&& self.base.postings_array == before.base.postings_array
        &&& self.base.do_next_call == before.base.do_next_call
        &&& self.base.inited == before.base.inited
        &&& self.base.bytes_used == before.base.bytes_used
        &&& self.has_freq == before.has_freq
        &&& self.has_prox == before.has_prox
        &&& self.has_offsets == before.has_offsets
        &&& self.sum_total_term_freq == before.sum_total_term_freq
        &&& self.sum_doc_freq == before.sum_doc_freq
        &&& self.doc_count == before.doc_count
        &&& self.saw_payloads == before.saw_payloads
        &&& self.next_per_field == before.next_per_field
    }

    /// Whether the arenas can take `term` as a new term of the field.
    pub fn check_room(&self, pools: &TermsHashBase, term: &[u8]) -> (r: Result<(), Error>)
        requires
            self.wf(pools),
        ensures
            match r {
                Ok(()) => self.intern_error(pools, term@) is None,
                Err(e) => self.intern_error(pools, term@) == Some(e),
            },
    {
        proof {
            self.base.lemma_wf(pools);
            self.base.bytes_hash.lemma_wf(&pools.byte_pool);
            pools.byte_pool.lemma_geometry();
            pools.int_pool.lemma_bounds();
        }
        let count = self.base.bytes_hash.size();
        if count + 1 >= MAX_TERMS {
            return Err(Error::TooManyTerms);
        }
        let len = term.len();
        if len > MAX_TERM_LENGTH {
            return Err(Error::MaxBytesLengthExceeded);
        }
        let sc = self.base.stream_count();
        if pools.int_pool.int_upto() + sc > INT_BLOCK_SIZE && pools.int_pool.buffer_count()
            >= pools.int_pool.max_buffers() {
            return Err(Error::PoolExhausted);
        }
        let upto = pools.byte_pool.byte_upto();
        let buffers = pools.byte_pool.buffer_count();
        let fits = upto + len + 2 <= BYTE_BLOCK_SIZE;
        if !fits && buffers >= pools.byte_pool.max_buffers() {
            return Err(Error::PoolExhausted);
        }
        let header: usize = if len < 128 {
            1
        } else {
            2
        };
        let upto2 = if fits {
            upto + header + len
        } else {
            header + len
        };
        let buffers2 = if fits {
            buffers
        } else {
            buffers + 1
        };
        if upto2 + sc * FIRST_LEVEL_SIZE > BYTE_BLOCK_SIZE && buffers2
            >= pools.byte_pool.max_buffers() {
            return Err(Error::PoolExhausted);
        }
        Ok(())
    }

    /// Stores `term`, which is not a term of the field yet, and gives it an
    /// id and an entry in every column. The term has no streams yet.
    fn intern_bytes(&mut self, pools: &mut TermsHashBase, term: &[u8]) -> (id: i32)
        requires
            old(self).wf(old(pools)),
            !old(self).terms(old(pools)).contains(term@),
            old(self).intern_error(old(pools), term@) is None,
        ensures
            id == old(self).base.terms(),
            final(self).base.wf(final(pools)),
            final(self).base.bytes_hash.wf(&final(pools).byte_pool),
            final(self).base.bytes_hash.count() == id + 1,
            final(self).base.terms() == id,
            final(self).base.can_add_streams(final(pools)),
            final(self).terms(final(pools)) == old(self).terms(old(pools)).push(term@),
            final(self).base.bytes_hash.starts() == old(self).base.bytes_hash.starts().push(
                old(pools).byte_pool.next_start(term@.len() + 2int) as u32,
            ),
            final(self).config_ok(),
            final(self).base.postings_array.base.size > id,
            final(pools).int_pool == old(pools).int_pool,
            final(pools).byte_pool.limit() == old(pools).byte_pool.limit(),
            final(pools).byte_pool.streams() == old(pools).byte_pool.streams(),
            final(pools).byte_pool.upto() == Self::geometry_with_term(
                old(pools),
                term@.len() as int,
            ).0,
            final(pools).byte_pool.num_buffers() == Self::geometry_with_term(
                old(pools),
                term@.len() as int,
            ).1,
            final(self).base.postings_array.base.int_starts@.take(id as int)
                == old(self).base.postings_array.base.int_starts@.take(id as int),
            final(self).base.postings_array.base.byte_starts@.take(id as int)
                == old(self).base.postings_array.base.byte_starts@.take(id as int),
            forall|t: int|
                0 <= t <= id ==> #[trigger] final(self).base.postings_array.base.text_starts@[t]
                    == final(self).base.bytes_hash.starts()[t],
            forall|t: int| 0 <= t < id ==> #[trigger] final(self).state(t) == old(self).state(t),
            forall|t: int| 0 <= t < id ==> #[trigger] final(self).term_ok(t),
            final(self).has_offsets ==> forall|t: int|
                id <= t < final(self).base.postings_array.base.size ==> (#[trigger] final(self).base.postings_array.last_offsets@[t]) == 0,
            final(self).base.field_info == old(self).base.field_info,
            final(self).base.do_next_call == old(self).base.do_next_call,
            final(self).base.stream_count == old(self).base.stream_count,
            final(self).saw_payloads == old(self).saw_payloads,
            final(self).sum_total_term_freq == old(self).sum_total_term_freq,
            final(self).sum_doc_freq == old(self).sum_doc_freq,
            final(self).doc_count == old(self).doc_count,
            final(self).next_per_field == old(self).next_per_field,
            final(self).base.bytes_used == final(self).base.counted_from(
                old(self).base.bytes_used,
                old(self).base.postings_array.base.size as int,
            ),
    {
        proof {
            self.base.lemma_wf(pools);
            self.base.bytes_hash.lemma_wf(&pools.byte_pool);
            pools.byte_pool.lemma_geometry();
            pools.int_pool.lemma_bounds();
        }
        let ghost pa0 = old(self).base.postings_array;
        let id = match self.base.bytes_hash.add(&mut pools.byte_pool, term) {
            Ok(id) => id,
            Err(e) => {
                proof {
                    assert(false);
                }
                -1
            },
        };
        proof {
            assert forall|t: int, s: int|
                0 <= t < self.base.terms() && 0 <= s < self.base.streams() implies #[trigger] stream_ok_at(
                pa0.base,
                pools,
                t,
                s,
            ) by {
                assert(stream_ok_at(pa0.base, old(pools), t, s));
            }
            self.base.bytes_hash.lemma_wf(&pools.byte_pool);
            old(self).base.lemma_frame(old(pools), pools);
            self.base.lemma_rebuild(&old(self).base, pools);
        }
        self.base.reserve_term(id as usize);
        let ghost self1 = *self;
        let start = self.base.bytes_hash.byte_start(id as usize);
        self.base.postings_array.base.text_starts[id as usize] = start as u32;
        proof {
            let pa = self.base.postings_array;
            self.base.lemma_rebuild(&self1.base, pools);
            assert(pa.base.int_starts@.take(id as int) =~= pa0.base.int_starts@.take(id as int));
            assert(pa.base.byte_starts@.take(id as int) =~= pa0.base.byte_starts@.take(id as int));
            assert forall|t: int| 0 <= t <= id implies #[trigger] pa.base.text_starts@[t]
                == self.base.bytes_hash.starts()[t] by {
                if t < id {
                    assert(pa0.base.text_starts@[t] == old(self).base.bytes_hash.starts()[t]);
                }
            }
            assert forall|t: int| 0 <= t < id implies #[trigger] self.state(t) == old(self).state(
                t,
            ) by {
                assert(old(self).term_ok(t));
            }
            assert forall|t: int| 0 <= t < id implies #[trigger] self.term_ok(t) by {
                assert(old(self).term_ok(t));
                assert(self.state(t) == old(self).state(t));
            }
            if self.has_offsets {
                assert forall|t: int| id <= t < pa.base.size implies (#[trigger] pa.last_offsets@[t])
                    == 0 by {
                    if t < pa0.base.size {
                        assert(pa0.last_offsets@[t] == 0);
                    }
                }
            }
        }
        id
    }

    /// Moves the writer to the term `term`, which becomes a term of the
    /// field when it is not one yet. Returns the id of a new term, and
    /// `-(id + 1)` for a known one. A new term has its bytes in the arena,
    /// and empty streams.
    pub fn intern(&mut self, pools: &mut TermsHashBase, term: &[u8]) -> (r: Result<i32, Error>)
        requires
            old(self).wf(old(pools)),
        ensures
            final(self).base.field_info == old(self).base.field_info,
            final(self).base.do_next_call == old(self).base.do_next_call,
            final(self).saw_payloads == old(self).saw_payloads,
            final(self).sum_total_term_freq == old(self).sum_total_term_freq,
            final(self).sum_doc_freq == old(self).sum_doc_freq,
            final(self).doc_count == old(self).doc_count,
            final(self).next_per_field == old(self).next_per_field,
            final(self).base.bytes_used == final(self).base.counted_from(
                old(self).base.bytes_used,
                old(self).base.postings_array.base.size as int,
            ),
            r matches Ok(id) ==> interned(
                old(self).terms(old(pools)),
                term@,
                final(self).terms(final(pools)),
                id as int,
            ),
            match r {
                Ok(id) => if id >= 0 {
                    &&& !old(self).terms(old(pools)).contains(term@)
                    &&& old(self).intern_error(old(pools), term@) is None
                    &&& id == old(self).base.terms()
                    &&& final(self).wf_at_new_term(final(pools))
                    &&& final(self).base.current() == id
                    &&& final(self).base.terms() == id + 1
                    &&& final(self).terms(final(pools)) == old(self).terms(old(pools)).push(term@)
                    &&& final(self).base.bytes_hash.starts() == old(self).base.bytes_hash.starts().push(
                        old(pools).byte_pool.next_start(term@.len() + 2int) as u32,
                    )
                    &&& old(pools).int_pool.took(&final(pools).int_pool, old(self).base.streams())
                    &&& final(self).base.postings_array.base.int_starts@[id as int]
                        == old(pools).int_pool.next_start(old(self).base.streams())
                    &&& final(self).base.postings_array.base.byte_starts@[id as int]
                        == old(self).streams_start(old(pools), term@.len() as int)
                    &&& final(self).new_term_columns(old(self), id as int)
                    &&& final(pools).byte_pool.limit() == old(pools).byte_pool.limit()
                    &&& final(pools).byte_pool.upto() == old(self).geometry_with_streams(
                        old(pools),
                        term@.len() as int,
                    ).0
                    &&& final(pools).byte_pool.num_buffers() == old(self).geometry_with_streams(
                        old(pools),
                        term@.len() as int,
                    ).1
                    &&& forall|s: int|
                        0 <= s < old(self).base.streams() ==> #[trigger] final(self).base.stream_bytes(
                            final(pools),
                            id as int,
                            s,
                        ) == Seq::<u8>::empty() && final(pools).byte_pool.streams()[final(self).base.stream_key(id as int, s)].slices.len() == 1
                    &&& forall|t: int|
                        0 <= t < id ==> #[trigger] final(self).state(t) == old(self).state(t)
                    &&& forall|t: int, s: int|
                        0 <= t < id && 0 <= s < old(self).base.streams() ==> #[trigger] final(self).base.stream_bytes(final(pools), t, s) == old(self).base.stream_bytes(
                            old(pools),
                            t,
                            s,
                        )
                } else {
                    &&& 0 <= -(id + 1) < old(self).base.terms()
                    &&& old(self).terms(old(pools))[-(id + 1)] == term@
                    &&& final(self).wf(final(pools))
                    &&& final(self).base.current() == -(id + 1)
                    &&& final(self).same_but_cursor(old(self))
                    &&& *final(pools) == *old(pools)
                },
                Err(e) => {
                    &&& !old(self).terms(old(pools)).contains(term@)
                    &&& old(self).intern_error(old(pools), term@) == Some(e)
                    &&& *final(self) == *old(self)
                    &&& *final(pools) == *old(pools)
                },
            },
    {
        proof {
            self.base.lemma_wf(pools);
            self.base.bytes_hash.lemma_wf(&pools.byte_pool);
        }
        let found = self.base.bytes_hash.find(&pools.byte_pool, term);
        if found >= 0 {
            match self.base.add(pools, -(found + 1)) {
                Ok(()) => {},
                Err(e) => {
                    proof {
                        assert(false);
                    }
                    return Err(e);
                },
            }
            proof {
                assert forall|t: int| 0 <= t < self.base.terms() implies #[trigger] self.term_ok(
                    t,
                ) by {
                    assert(old(self).term_ok(t));
                }
            }
            return Ok(-(found + 1));
        }
        match self.check_room(pools, term) {
            Ok(()) => {},
            Err(e) => {
                return Err(e);
            },
        }
        let id = self.intern_bytes(pools, term);
        let ghost pools1 = *pools;
        let ghost self2 = *self;
        proof {
            self.base.lemma_wf(pools);
            pools.byte_pool.lemma_geometry();
        }
        match self.base.add(pools, id) {
            Ok(()) => {},
            Err(e) => {
                proof {
                    assert(false);
                }
                return Err(e);
            },
        }
        proof {
            self.lemma_streams_added(old(self), &self2, old(pools), &pools1, pools, id as int);
            old(pools).int_pool.lemma_bounds();
            let pa = self.base.postings_array.base;
            let pa0 = old(self).base.postings_array.base;
            let pa2 = self2.base.postings_array.base;
            assert forall|t: int| 0 <= t < id implies {
                &&& (#[trigger] pa.text_starts@[t]) == pa0.text_starts@[t]
                &&& pa.int_starts@[t] == pa0.int_starts@[t]
                &&& pa.byte_starts@[t] == pa0.byte_starts@[t]
            } by {
                assert(pa2.text_starts@[t] == self2.base.bytes_hash.starts()[t]);
                assert(pa0.text_starts@[t] == old(self).base.bytes_hash.starts()[t]);
                assert(pa2.int_starts@.take(id as int)[t] == pa0.int_starts@.take(id as int)[t]);
                assert(pa2.byte_starts@.take(id as int)[t] == pa0.byte_starts@.take(id as int)[t]);
            }
        }
        Ok(id)
    }

    /// What follows for the writer once a new term, stored by
    /// `intern_bytes`, has its streams.
    proof fn lemma_streams_added(
        &self,
        before: &Self,
        mid: &Self,
        pools0: &TermsHashBase,
        pools1: &TermsHashBase,
        pools: &TermsHashBase,
        id: int,
    )
        requires
            before.wf(pools0),
            id == before.base.terms(),
            mid.base.wf(pools1),
            mid.base.bytes_hash.wf(&pools1.byte_pool),
            mid.base.terms() == id,
            mid.base.stream_count == before.base.stream_count,
            mid.base.postings_array.base.wf(),
            mid.base.postings_array.base.size > id,
            pools1.byte_pool.streams() == pools0.byte_pool.streams(),
            mid.base.postings_array.base.int_starts@.take(id)
                == before.base.postings_array.base.int_starts@.take(id),
            mid.base.postings_array.base.byte_starts@.take(id)
                == before.base.postings_array.base.byte_starts@.take(id),
            forall|t: int|
                0 <= t <= id ==> #[trigger] mid.base.postings_array.base.text_starts@[t]
                    == mid.base.bytes_hash.starts()[t],
            forall|t: int| 0 <= t < id ==> #[trigger] mid.state(t) == before.state(t),
            forall|t: int| 0 <= t < id ==> #[trigger] mid.term_ok(t),
            mid.has_offsets ==> forall|t: int|
                id <= t < mid.base.postings_array.base.size ==> (#[trigger] mid.base.postings_array.last_offsets@[t])
                    == 0,
            mid.config_ok(),
            mid.base.bytes_hash.count() == id + 1,
            // what `add` of the base writer ensures
            self.base.wf(pools),
            self.base.stream_count == mid.base.stream_count,
            self.base.inited == mid.base.inited,
            self.base.field_info == mid.base.field_info,
            self.base.bytes_hash == mid.base.bytes_hash,
            self.base.do_next_call == mid.base.do_next_call,
            self.base.terms() == id + 1,
            self.base.current() == id,
            self.base.postings_array.same_own_columns(&mid.base.postings_array),
            self.base.postings_array.base.size == mid.base.postings_array.base.size,
            self.base.postings_array.base.text_starts == mid.base.postings_array.base.text_starts,
            self.base.postings_array.base.int_starts@
                == mid.base.postings_array.base.int_starts@.update(
                id,
                pools1.int_pool.next_start(mid.base.streams()) as u32,
            ),
            self.base.postings_array.base.byte_starts@
                == mid.base.postings_array.base.byte_starts@.update(
                id,
                pools1.byte_pool.next_start(mid.base.streams() * FIRST_LEVEL_SIZE) as u32,
            ),
            pools.byte_pool.terms() == pools1.byte_pool.terms(),
            0 <= pools1.byte_pool.next_start(mid.base.streams() * FIRST_LEVEL_SIZE) < 0x8000_0000,
            forall|k: int| #[trigger]
                pools1.byte_pool.streams().contains_key(k) ==> !mid.base.is_new_key(
                    pools1.byte_pool.next_start(mid.base.streams() * FIRST_LEVEL_SIZE),
                    k,
                ) && pools.byte_pool.streams().contains_key(k) && pools.byte_pool.streams()[k]
                    == pools1.byte_pool.streams()[k],
            forall|k: int| #[trigger]
                mid.base.is_new_key(
                    pools1.byte_pool.next_start(mid.base.streams() * FIRST_LEVEL_SIZE),
                    k,
                ) ==> pools.byte_pool.streams().contains_key(k) && pools.byte_pool.streams()[k]
                    == crate::util::byte_block_pool::SliceChain::fresh(k),
            self.has_freq == mid.has_freq,
            self.has_prox == mid.has_prox,
            self.has_offsets == mid.has_offsets,
            self.sum_total_term_freq == mid.sum_total_term_freq,
            self.sum_doc_freq == mid.sum_doc_freq,
            self.doc_count == mid.doc_count,
        ensures
            self.wf_at_new_term(pools),
            forall|s: int|
                0 <= s < before.base.streams() ==> #[trigger] self.base.stream_bytes(pools, id, s)
                    == Seq::<u8>::empty() && pools.byte_pool.streams()[self.base.stream_key(
                    id,
                    s,
                )].slices.len() == 1,
            forall|t: int| 0 <= t < id ==> #[trigger] self.state(t) == before.state(t),
            forall|t: int, s: int|
                0 <= t < id && 0 <= s < before.base.streams() ==> #[trigger] self.base.stream_bytes(
                    pools,
                    t,
                    s,
                ) == before.base.stream_bytes(pools0, t, s),
    {
        let pa = self.base.postings_array;
        let pa1 = mid.base.postings_array;
        let pa0 = before.base.postings_array;
        let sc = mid.base.streams();
        let first = pools1.byte_pool.next_start(sc * FIRST_LEVEL_SIZE);
        self.base.lemma_wf(pools);
        before.base.lemma_wf(pools0);
        self.base.bytes_hash.lemma_same_terms(&pools1.byte_pool, &pools.byte_pool);
        assert forall|t: int| 0 <= t < id implies #[trigger] self.state(t) == before.state(t) by {
            assert(mid.state(t) == before.state(t));
        }
        assert forall|t: int|
            0 <= t < self.base.terms() && t != self.base.current() implies #[trigger] self.term_ok(
            t,
        ) by {
            assert(mid.term_ok(t));
        }
        assert forall|t: int| 0 <= t < self.base.terms() implies #[trigger] pa.base.text_starts@[t]
            == self.base.bytes_hash.starts()[t] by {
            assert(pa1.base.text_starts@[t] == mid.base.bytes_hash.starts()[t]);
        }
        assert forall|t: int, s: int|
            0 <= t < id && 0 <= s < before.base.streams() implies #[trigger] self.base.stream_bytes(
            pools,
            t,
            s,
        ) == before.base.stream_bytes(pools0, t, s) by {
            assert(stream_ok_at(pa0.base, pools0, t, s));
            assert(pa1.base.byte_starts@.take(id)[t] == pa0.base.byte_starts@.take(id)[t]);
            assert(pa1.base.byte_starts@.take(id)[t] == pa1.base.byte_starts@[t]);
            assert(pa0.base.byte_starts@.take(id)[t] == pa0.base.byte_starts@[t]);
            assert(pa.base.byte_starts@[t] == pa1.base.byte_starts@[t]);
            assert(self.base.stream_key(t, s) == before.base.stream_key(t, s));
            assert(pools1.byte_pool.streams().contains_key(before.base.stream_key(t, s)));
        }
        assert forall|s: int| 0 <= s < before.base.streams() implies #[trigger] self.base.stream_bytes(
            pools,
            id,
            s,
        ) == Seq::<u8>::empty() && pools.byte_pool.streams()[self.base.stream_key(
            id,
            s,
        )].slices.len() == 1 by {
            assert((s * 5) % 5 == 0);
            assert(pa.base.byte_starts@[id] == first as u32);
            assert(self.base.stream_key(id, s) == first + s * 5);
            assert(mid.base.is_new_key(first, first + s * 5));
            assert(crate::util::byte_block_pool::SliceChain::fresh(first + s * 5).slices.len()
                == 1);
        }
        if self.has_offsets {
            assert forall|t: int|
                self.base.terms() <= t < pa.base.size implies (#[trigger] pa.last_offsets@[t])
                == 0 by {
                assert(pa1.last_offsets@[t] == 0);
            }
            assert(pa1.last_offsets@[id] == 0);
        }
    }

    /// `self` holds for every term but `term` what `before` held: the
    /// columns' entries, and the bytes of the streams.
    pub open spec fn others_kept(
        &self,
        before: &Self,
        pools0: &TermsHashBase,
        pools: &TermsHashBase,
        term: int,
    ) -> bool {
        &&& forall|t: int|
            0 <= t < before.base.terms() && t != term ==> #[trigger] self.state(t) == before.state(
                t,
            )
        &&& forall|t: int, s: int|
            0 <= t < before.base.terms() && t != term && 0 <= s < before.base.streams()
                ==> #[trigger] self.base.stream_bytes(pools, t, s) == before.base.stream_bytes(
                pools0,
                t,
                s,
            )
    }

    /// The arena as the position stream of a new term of `len` bytes sees
    /// it.
    pub open spec fn new_term_headroom(&self, pools: &TermsHashBase, len: int) -> Headroom {
        Headroom {
            upto: self.geometry_with_streams(pools, len).0,
            buffers: self.geometry_with_streams(pools, len).1,
            limit: pools.byte_pool.limit(),
            level: 0,
            used: 0,
        }
    }

    /// Whether the token keeps the limits and the order that `add` asks
    /// for.
    pub open spec fn admits(
        &self,
        pools: &TermsHashBase,
        field_state: FieldInvertState,
        token: &Token,
        doc_id: DocId,
    ) -> bool {
        &&& Self::token_in_range(field_state, token, doc_id)
        &&& forall|t: int|
            0 <= t < self.base.terms() && #[trigger] self.terms(pools)[t] == token.term@
                ==> self.in_order(self.state(t), field_state, token, doc_id)
    }

    /// Whether `add` may be called with this token: tests what `add`
    /// requires of it.
    pub fn accepts(
        &self,
        pools: &TermsHashBase,
        field_state: &FieldInvertState,
        token: &Token,
        doc_id: DocId,
    ) -> (ok: bool)
        requires
            self.wf(pools),
        ensures
            ok == self.admits(pools, *field_state, token, doc_id),
    {
        proof {
            self.base.lemma_wf(pools);
            self.base.bytes_hash.lemma_wf(&pools.byte_pool);
        }
        let payload_len = token.payload_len();
        if doc_id < 0 || field_state.position < 0 || field_state.unique_term_count == u32::MAX
            || payload_len > 0x7fff_ffff || token.start_offset > token.end_offset
            || token.end_offset > 0x7fff_ffff || field_state.offset > 0x7fff_ffff
            || field_state.offset + token.end_offset > 0x7fff_ffff {
            return false;
        }
        let found = self.base.bytes_hash.find(&pools.byte_pool, token.term.as_slice());
        if found < 0 {
            return true;
        }
        let t = found as usize;
        proof {
            assert(self.terms(pools)[t as int] == token.term@);
            assert forall|t2: int|
                0 <= t2 < self.base.terms() && #[trigger] self.terms(pools)[t2]
                    == token.term@ implies t2 == t by {
                if t2 != t {
                    assert(self.terms(pools)[t2] != self.terms(pools)[t as int]);
                }
            }
            assert(self.term_ok(t as int));
        }
        let pa = &self.base.postings_array;
        let last_doc = pa.last_doc_ids[t];
        if doc_id < last_doc {
            return false;
        }
        if doc_id == last_doc {
            if self.has_freq && pa.term_freqs[t] == u32::MAX {
                return false;
            }
            if self.has_prox && (field_state.position as u32) < pa.last_positions[t] {
                return false;
            }
            if self.has_offsets && ((field_state.offset + token.start_offset) as u32)
                < pa.last_offsets[t] {
                return false;
            }
        }
        true
    }

    /// What `add_posting` does with the token `token` of the document
    /// `doc_id`: `self`, `pools` and `fs` are `before`, `pools0` and `fs0`
    /// after the call that returned `r`.
    pub open spec fn posting_added(
        &self,
        before: &Self,
        pools0: &TermsHashBase,
        pools: &TermsHashBase,
        fs0: FieldInvertState,
        fs: FieldInvertState,
        token: &Token,
        doc_id: DocId,
        r: Result<(), Error>,
    ) -> bool {
        &&& self.base.field_info == before.base.field_info
        &&& self.base.do_next_call == before.base.do_next_call
        &&& self.sum_total_term_freq == before.sum_total_term_freq
        &&& self.sum_doc_freq == before.sum_doc_freq
        &&& self.doc_count == before.doc_count
        &&& self.base.bytes_used == self.base.counted_from(
            before.base.bytes_used,
            before.base.postings_array.base.size as int,
        )
        &&& before.terms(pools0).contains(token.term@) ==> {
                let t = before.terms(pools0).index_of(token.term@);
                let st = before.state(t);
                let d = before.repeat_doc_bytes(st, doc_id);
                let p = before.repeat_pos_bytes(st, fs0, token, doc_id);
                &&& self.terms(pools) == before.terms(pools0)
                &&& interned(
                    before.terms(pools0),
                    token.term@,
                    self.terms(pools),
                    -(self.base.current() + 1),
                )
                &&& self.base.bytes_hash.starts() == before.base.bytes_hash.starts()
                &&& self.base.postings_array.base == before.base.postings_array.base
                &&& self.base.current() == t
                &&& r is Ok ==> self.posted(pools0, pools, d, p)
                &&& r is Ok <==> before.room_at(pools0, t, d, p)
                &&& r is Err ==> r == Err::<(), Error>(Error::PoolExhausted)
                &&& r is Err ==> if !pools0.byte_pool.headroom(self.key(0)).accepts(d.len()) {
                    &&& pools0.wrote_part(pools, self.key(0), self.slot(0), d)
                    &&& self.state(t) == st
                    &&& fs == fs0
                    &&& self.saw_payloads == before.saw_payloads
                } else {
                    &&& before.has_prox
                    &&& self.posted_part(pools0, pools, d, p)
                    &&& self.state(t) == before.stalled_state(st, fs0, token, doc_id)
                    &&& self.saw_payloads == before.saw_payloads
                    &&& fs == (FieldInvertState {
                        unique_term_count: fs0.unique_term_count,
                        ..before.repeat_field_state(st, fs0, doc_id)
                    })
                }
                &&& self.others_kept(before, pools0, pools, t)
                &&& before.base.stream_bytes(pools0, t, 0).is_prefix_of(
                    self.base.stream_bytes(pools, t, 0),
                )
                &&& before.has_prox ==> before.base.stream_bytes(pools0, t, 1).is_prefix_of(
                    self.base.stream_bytes(pools, t, 1),
                )
                &&& r is Ok ==> {
                    &&& self.state(t) == before.repeat_state(
                        st,
                        fs0,
                        token,
                        doc_id,
                    )
                    &&& self.base.stream_bytes(pools, t, 0) == before.base.stream_bytes(pools0, t, 0) + d
                    &&& before.has_prox ==> self.base.stream_bytes(pools, t, 1)
                        == before.base.stream_bytes(pools0, t, 1) + p
                    &&& fs == before.repeat_field_state(
                        st,
                        fs0,
                        doc_id,
                    )
                    &&& self.saw_payloads == (before.saw_payloads || (before.has_prox
                        && (before.has_freq || doc_id != st.last_doc_id)
                        && token.payload_bytes().len() > 0))
                }
        }
        &&& !before.terms(pools0).contains(token.term@) ==> match before.intern_error(
                pools0,
                token.term@
        ) {
                Some(e) => {
                    &&& r == Err::<(), Error>(e)
                    &&& *self == *before
                    &&& *pools == *pools0
                    &&& fs == fs0
                },
                None => {
                    let id = before.base.terms();
                    let p = before.occurrence_bytes(
                        fs0.position as u32,
                        fs0,
                        token,
                        0,
                    );
                    &&& self.terms(pools) == before.terms(pools0).push(
                        token.term@,
                    )
                    &&& interned(
                        before.terms(pools0),
                        token.term@,
                        self.terms(pools),
                        self.base.current(),
                    )
                    &&& self.new_term_columns(before, id)
                    &&& self.base.postings_array.base.int_starts@[id]
                        == pools0.int_pool.next_start(before.base.streams())
                    &&& self.base.postings_array.base.byte_starts@[id] == before.streams_start(
                        pools0,
                        token.term@.len() as int,
                    )
                    &&& pools0.int_pool.took(&pools.int_pool, before.base.streams())
                    &&& self.base.bytes_hash.starts() == before.base.bytes_hash.starts().push(
                        pools0.byte_pool.next_start(token.term@.len() + 2int) as u32,
                    )
                    &&& self.base.current() == id
                    &&& r is Ok <==> (before.has_prox ==> before.new_term_headroom(
                        pools0,
                        token.term@.len() as int,
                    ).accepts(p.len()))
                    &&& r is Err ==> r == Err::<(), Error>(Error::PoolExhausted)
                    &&& r is Err ==> fs == fs0 && self.saw_payloads == before.saw_payloads
                        && exists|k: int|
                        0 <= k < p.len() && #[trigger] p.take(k) == self.base.stream_bytes(
                            pools,
                            id,
                            1,
                        ) && before.new_term_headroom(pools0, token.term@.len() as int).stops_at(k)
                    &&& self.others_kept(before, pools0, pools, id)
                    &&& self.base.stream_bytes(pools, id, 0) == Seq::<u8>::empty()
                    &&& r is Ok ==> {
                        &&& self.state(id) == before.first_state(
                            fs0,
                            token,
                            doc_id,
                        )
                        &&& self.base.stream_bytes(pools, id, 0) == Seq::<u8>::empty()
                        &&& before.has_prox ==> self.base.stream_bytes(
                            pools,
                            id,
                            1,
                        ) == p
                        &&& fs == Self::first_field_state(fs0)
                        &&& self.saw_payloads == (before.saw_payloads || (before.has_prox && token.payload_bytes().len() > 0))
                    }
                }
        }
    }

    /// Consumes one token of the document `doc_id` for the postings: finds
    /// the token's term, or makes it a term of the field, and records the
    /// occurrence.
    pub fn add_posting(
        &mut self,
        pools: &mut TermsHashBase,
        field_state: &mut FieldInvertState,
        token: &Token,
        doc_id: DocId,
    ) -> (r: Result<(), Error>)
        requires
            old(self).wf(old(pools)),
            old(self).admits(old(pools), *old(field_state), token, doc_id),
        ensures
            final(self).wf(final(pools)),
            final(self).next_per_field == old(self).next_per_field,
            final(self).posting_added(
                old(self),
                old(pools),
                final(pools),
                *old(field_state),
                *final(field_state),
                token,
                doc_id,
                r,
            ),
            r is Ok ==> 0 <= final(self).base.current() < final(self).base.terms(),
    {
        let ghost terms0 = self.terms(pools);
        proof {
            self.base.lemma_wf(pools);
            self.base.bytes_hash.lemma_wf(&pools.byte_pool);
        }
        let term_id = match self.intern(pools, token.term.as_slice()) {
            Ok(id) => id,
            Err(e) => {
                return Err(e);
            },
        };
        let ghost mid = *pools;
        let ghost mid_self = *self;
        if term_id >= 0 {
            let id = term_id as usize;
            proof {
                self.base.lemma_wf(pools);
                assert(stream_ok_at(self.base.postings_array.base, pools, id as int, 0));
                assert(self.base.stream_bytes(pools, id as int, 0) == Seq::<u8>::empty());
                crate::util::byte_block_pool::lemma_fresh_headroom(
                    pools.byte_pool.streams()[self.base.stream_key(id as int, 0)],
                );
                if self.has_prox {
                    assert(stream_ok_at(self.base.postings_array.base, pools, id as int, 1));
                    assert(self.base.stream_bytes(pools, id as int, 1) == Seq::<u8>::empty());
                    crate::util::byte_block_pool::lemma_fresh_headroom(
                        pools.byte_pool.streams()[self.base.stream_key(id as int, 1)],
                    );
                }
            }
            let r = self.new_term(pools, id, field_state, token, doc_id);
            proof {
                self.base.lemma_wf(pools);
                pools.int_pool.lemma_bounds();
                assert(old(pools).int_pool.took(&mid.int_pool, old(self).base.streams()));
                assert(old(pools).int_pool.took(&pools.int_pool, old(self).base.streams()));
                assert(mid_self.new_term_columns(old(self), id as int));
                assert(self.base.postings_array.base == mid_self.base.postings_array.base);
                assert(self.new_term_columns(old(self), id as int));
                self.lemma_others_kept(&mid_self, &mid, pools, id as int);
                assert forall|t: int|
                    0 <= t < old(self).base.terms() && t != id implies #[trigger] self.state(t)
                    == old(self).state(t) by {
                    assert(mid_self.state(t) == old(self).state(t));
                }
                assert forall|t: int, s: int|
                    0 <= t < old(self).base.terms() && t != id && 0 <= s < old(self).base.streams() implies #[trigger] self.base.stream_bytes(pools, t, s) == old(self).base.stream_bytes(old(pools), t, s) by {
                    assert(mid_self.base.stream_bytes(&mid, t, s) == old(self).base.stream_bytes(
                        old(pools),
                        t,
                        s,
                    ));
                }
                if r is Ok {
                    self.lemma_recorded(&mid_self, &mid, pools, id as int);
                    assert(Seq::<u8>::empty() + Seq::<u8>::empty() =~= Seq::<u8>::empty());
                    if self.has_prox {
                        let p = old(self).occurrence_bytes(
                            old(field_state).position as u32,
                            *old(field_state),
                            token,
                            0,
                        );
                        assert(Seq::<u8>::empty() + p =~= p);
                    }
                } else {
                    let p = old(self).occurrence_bytes(
                        old(field_state).position as u32,
                        *old(field_state),
                        token,
                        0,
                    );
                    let key1 = mid_self.key(1);
                    let k = choose|k: int|
                        0 <= k < p.len() && #[trigger] mid.wrote(
                            pools,
                            key1,
                            mid_self.slot(1),
                            p.take(k),
                        ) && mid.byte_pool.headroom(key1).stops_at(k);
                    assert(self.base.stream_bytes(pools, id as int, 1) =~= p.take(k));
                    assert(mid.byte_pool.headroom(key1) == old(self).new_term_headroom(
                        old(pools),
                        token.term@.len() as int,
                    ));
                }
            }
            r
        } else {
            let id = (-(term_id + 1)) as usize;
            proof {
                let t = terms0.index_of(token.term@);
                assert(terms0[id as int] == token.term@);
                if t != id {
                    assert(terms0[t] != terms0[id as int]);
                }
            }
            let r = self.add_term(pools, id, field_state, token, doc_id);
            proof {
                self.lemma_others_kept(&mid_self, &mid, pools, id as int);
                if r is Ok {
                    self.lemma_recorded(&mid_self, &mid, pools, id as int);
                } else {
                    let st = mid_self.state(id as int);
                    let d = mid_self.repeat_doc_bytes(st, doc_id);
                    let p = mid_self.repeat_pos_bytes(st, *old(field_state), token, doc_id);
                    if mid_self.base.headroom(&mid, 0).accepts(d.len()) {
                        let k = choose|k: int|
                            0 <= k < p.len() && #[trigger] mid_self.posted(
                                &mid,
                                pools,
                                d,
                                p.take(k),
                            ) && mid.byte_pool.headroom(mid_self.key(0)).push_n(d.len()).seen_by(
                                mid.byte_pool.headroom(mid_self.key(1)).level,
                                mid.byte_pool.headroom(mid_self.key(1)).used,
                            ).stops_at(k);
                        self.lemma_recorded(&mid_self, &mid, pools, id as int);
                        assert(self.posted(old(pools), pools, d, p.take(k)));
                        assert(self.state(id as int) == mid_self.stalled_state(
                            st,
                            *old(field_state),
                            token,
                            doc_id,
                        ));
                    }
                }
            }
            r
        }
    }

    /// Where the bytes of `term` lie in the arena, or will lie once the
    /// term is stored.
    pub open spec fn text_start_of(&self, pools: &TermsHashBase, term: Seq<u8>) -> int {
        if self.terms(pools).contains(term) {
            self.base.bytes_hash.starts()[self.terms(pools).index_of(term)] as int
        } else {
            pools.byte_pool.next_start(term.len() + 2int)
        }
    }

    /// Whether `add` may be called with this token: what the postings ask
    /// for, and what the next consumer asks for when it takes part.
    pub open spec fn admits_all(
        &self,
        pools: &TermsHashBase,
        next_pools: &TermsHashBase,
        field_state: FieldInvertState,
        token: &Token,
        doc_id: DocId,
    ) -> bool {
        &&& self.wf(pools)
        &&& self.admits(pools, field_state, token, doc_id)
        &&& self.base.calls_next() ==> {
            &&& self.next_per_field.wf(next_pools)
            &&& self.terms(pools).contains(token.term@) || token.term@.len() <= MAX_TERM_LENGTH
                ==> self.next_per_field.admits(
                field_state,
                token,
                self.text_start_of(pools, token.term@),
            )
        }
    }

    /// Whether `add` may be called with this token: tests what `add`
    /// requires of it.
    pub fn accepts_all(
        &self,
        pools: &TermsHashBase,
        next_pools: &TermsHashBase,
        field_state: &FieldInvertState,
        token: &Token,
        doc_id: DocId,
    ) -> (ok: bool)
        requires
            self.wf(pools),
            self.base.calls_next() ==> self.next_per_field.wf(next_pools),
        ensures
            ok == self.admits_all(pools, next_pools, *field_state, token, doc_id),
    {
        proof {
            self.base.lemma_wf(pools);
            self.base.bytes_hash.lemma_wf(&pools.byte_pool);
            pools.byte_pool.lemma_geometry();
        }
        if !self.accepts(pools, field_state, token, doc_id) {
            return false;
        }
        if !self.base.do_next_call() {
            return true;
        }
        let found = self.base.bytes_hash.find(&pools.byte_pool, token.term.as_slice());
        let text_start = if found >= 0 {
            proof {
                let terms = self.terms(pools);
                let t = terms.index_of(token.term@);
                assert(terms[found as int] == token.term@);
                if t != found {
                    assert(terms[t] != terms[found as int]);
                }
            }
            self.base.bytes_hash.byte_start(found as usize)
        } else if token.term.len() <= MAX_TERM_LENGTH {
            pools.byte_pool.start_of_next(token.term.len() + 2)
        } else {
            // the postings refuse a term of this length, and the next
            // consumer does not see the token
            return true;
        };
        self.next_per_field.accepts(next_pools, field_state, token, text_start)
    }

    /// Consumes one token of the document `doc_id`: records it in the
    /// postings and, when the next consumer takes part and the postings
    /// took the token, hands it on with the offset of its term. `pools` are
    /// the arenas of the postings, `next_pools` those of the next consumer.
    pub fn add(
        &mut self,
        pools: &mut TermsHashBase,
        next_pools: &mut TermsHashBase,
        field_state: &mut FieldInvertState,
        token: &Token,
        doc_id: DocId,
    ) -> (r: Result<(), Error>)
        requires
            old(self).admits_all(
                old(pools),
                old(next_pools),
                *old(field_state),
                token,
                doc_id,
            ),
        ensures
            final(self).wf(final(pools)),
            old(self).base.calls_next() ==> final(self).next_per_field.wf(final(next_pools)),
            exists|own: Result<(), Error>|
                {
                    &&& #[trigger] final(self).posting_added(
                        old(self),
                        old(pools),
                        final(pools),
                        *old(field_state),
                        *final(field_state),
                        token,
                        doc_id,
                        own,
                    )
                    &&& if own is Ok && old(self).base.calls_next() {
                        final(self).next_per_field.vector_added(
                            &old(self).next_per_field,
                            old(next_pools),
                            final(next_pools),
                            *final(field_state),
                            token,
                            old(self).text_start_of(old(pools), token.term@),
                            r,
                        )
                    } else {
                        &&& r == own
                        &&& final(self).next_per_field == old(self).next_per_field
                        &&& *final(next_pools) == *old(next_pools)
                    }
                },
    {
        proof {
            self.base.bytes_hash.lemma_wf(&pools.byte_pool);
            pools.byte_pool.lemma_geometry();
        }
        let own = self.add_posting(pools, field_state, token, doc_id);
        proof {
            assert(self.posting_added(
                old(self),
                old(pools),
                pools,
                *old(field_state),
                *field_state,
                token,
                doc_id,
                own,
            ));
        }
        match own {
            Ok(()) => {},
            Err(e) => {
                return Err(e);
            },
        }
        if !self.base.do_next_call() {
            return own;
        }
        let ghost mid = *self;
        proof {
            self.base.lemma_wf(pools);
        }
        let real_term_id = self.base.current_term();
        let text_start = self.base.postings_array.base.text_starts[real_term_id] as usize;
        proof {
            self.base.lemma_wf(pools);
            let terms0 = old(self).terms(old(pools));
            if terms0.contains(token.term@) {
                assert(text_start == old(self).text_start_of(old(pools), token.term@));
            } else {
                assert(old(self).intern_error(old(pools), token.term@) is None);
                assert(text_start == old(self).text_start_of(old(pools), token.term@));
            }
        }
        let r = self.do_next(next_pools, field_state, token, doc_id, text_start);
        proof {
            assert(self.base == mid.base);
            assert forall|t: int| 0 <= t < self.base.terms() implies #[trigger] self.term_ok(t) by {
                assert(mid.term_ok(t));
            }
            assert(self.posting_added(
                old(self),
                old(pools),
                pools,
                *old(field_state),
                *field_state,
                token,
                doc_id,
                own,
            )) by {
                self.lemma_posting_added_next(&mid, old(self), old(pools), pools, *old(field_state), *field_state, token, doc_id, own);
            }
        }
        r
    }

    /// What `add_posting` did does not depend on the next consumer.
    proof fn lemma_posting_added_next(
        &self,
        mid: &Self,
        before: &Self,
        pools0: &TermsHashBase,
        pools: &TermsHashBase,
        fs0: FieldInvertState,
        fs: FieldInvertState,
        token: &Token,
        doc_id: DocId,
        r: Result<(), Error>,
    )
        requires
            mid.posting_added(before, pools0, pools, fs0, fs, token, doc_id, r),
            self.same_but_next(mid),
            r is Ok,
        ensures
            self.posting_added(before, pools0, pools, fs0, fs, token, doc_id, r),
    {
        let t = mid.base.current();
        assert(self.terms(pools) == mid.terms(pools));
        assert forall|t2: int| self.state(t2) == mid.state(t2) by {
        }
        assert forall|t2: int, s: int| #[trigger]
            self.base.stream_bytes(pools, t2, s) == mid.base.stream_bytes(pools, t2, s) by {
        }
        assert(self.others_kept(before, pools0, pools, t) == mid.others_kept(
            before,
            pools0,
            pools,
            t,
        ));
        assert(self.new_term_columns(before, before.base.terms()) == mid.new_term_columns(
            before,
            before.base.terms(),
        ));
        assert forall|d: Seq<u8>, p: Seq<u8>| #[trigger]
            self.posted(pools0, pools, d, p) == mid.posted(pools0, pools, d, p) by {
        }
    }

    /// What an extension of the streams of one term and a change of the
    /// columns at that term leave as they were.
    proof fn lemma_others_kept(
        &self,
        before: &Self,
        pools0: &TermsHashBase,
        pools: &TermsHashBase,
        term: int,
    )
        requires
            before.core_ok(pools0),
            term == before.base.current(),
            0 <= term < before.base.terms(),
            self.same_but_columns(before),
            self.base.postings_array.differs_only_at(&before.base.postings_array, term),
            pools0.extended(pools, before.key(0), if before.has_prox {
                before.key(1)
            } else {
                before.key(0)
            }),
        ensures
            self.others_kept(before, pools0, pools, term),
            before.base.stream_bytes(pools0, term, 0).is_prefix_of(
                self.base.stream_bytes(pools, term, 0),
            ),
            before.has_prox ==> before.base.stream_bytes(pools0, term, 1).is_prefix_of(
                self.base.stream_bytes(pools, term, 1),
            ),
    {
        let pa0 = before.base.postings_array;
        let pa = self.base.postings_array;
        before.base.lemma_wf(pools0);
        assert(stream_ok_at(pa0.base, pools0, term, 0));
        if before.has_prox {
            assert(stream_ok_at(pa0.base, pools0, term, 1));
        }
        assert forall|t: int|
            0 <= t < before.base.terms() && t != term implies #[trigger] self.state(t)
            == before.state(t) by {
        }
        assert forall|t: int, s: int|
            0 <= t < before.base.terms() && t != term && 0 <= s
                < before.base.streams() implies #[trigger] self.base.stream_bytes(pools, t, s)
            == before.base.stream_bytes(pools0, t, s) by {
            assert(stream_ok_at(pa0.base, pools0, t, s));
            before.base.lemma_distinct(pools0, t, s, term, 0);
            if before.has_prox {
                before.base.lemma_distinct(pools0, t, s, term, 1);
            }
        }
    }

    /// What `posted` says of the arenas, read term by term.
    proof fn lemma_recorded(
        &self,
        before: &Self,
        pools0: &TermsHashBase,
        pools: &TermsHashBase,
        term: int,
    )
        requires
            before.core_ok(pools0),
            term == before.base.current(),
            0 <= term < before.base.terms(),
            self.same_but_columns(before),
            self.base.postings_array.base == before.base.postings_array.base,
            exists|d: Seq<u8>, p: Seq<u8>| #[trigger] before.posted(pools0, pools, d, p),
            exists|st: TermState| #[trigger]
                self.base.postings_array.is_update_of(&before.base.postings_array, term, st),
        ensures
            self.others_kept(before, pools0, pools, term),
            forall|d: Seq<u8>, p: Seq<u8>| #[trigger]
                before.posted(pools0, pools, d, p) ==> self.base.stream_bytes(pools, term, 0)
                    == before.base.stream_bytes(pools0, term, 0) + d && (before.has_prox
                    ==> self.base.stream_bytes(pools, term, 1) == before.base.stream_bytes(
                    pools0,
                    term,
                    1,
                ) + p),
            forall|st: TermState| #[trigger]
                self.base.postings_array.is_update_of(&before.base.postings_array, term, st) ==> {
                    &&& self.state(term).last_doc_id == st.last_doc_id
                    &&& self.state(term).last_doc_code == st.last_doc_code
                    &&& before.has_freq ==> self.state(term).term_freq == st.term_freq
                    &&& before.has_prox ==> self.state(term).last_position == st.last_position
                    &&& before.has_offsets ==> self.state(term).last_offset == st.last_offset
                },
    {
        let pa0 = before.base.postings_array;
        let pa = self.base.postings_array;
        before.base.lemma_wf(pools0);
        assert forall|t: int, s: int|
            0 <= t < before.base.terms() && t != term && 0 <= s
                < before.base.streams() implies #[trigger] self.base.stream_bytes(pools, t, s)
            == before.base.stream_bytes(pools0, t, s) by {
            assert(stream_ok_at(pa0.base, pools0, t, s));
            before.base.lemma_distinct(pools0, t, s, term, 0);
            if before.has_prox {
                before.base.lemma_distinct(pools0, t, s, term, 1);
            }
        }
    }

    /// Closes one instance of the field in a document: adds the document's
    /// counts to the field's sums, and marks the field as storing payloads
    /// when some token had one.
    pub fn finish(&mut self, field_state: &FieldInvertState) -> (r: Result<(), Error>)
        requires
            old(self).config_ok(),
            0 <= field_state.unique_term_count <= field_state.length,
            field_state.length > 0 ==> old(self).doc_count < u32::MAX,
        ensures
            r is Ok,
            final(self).config_ok(),
            final(self).sum_doc_freq == old(self).sum_doc_freq + field_state.unique_term_count,
            final(self).sum_total_term_freq == old(self).sum_total_term_freq + field_state.length,
            final(self).doc_count == old(self).doc_count + (if field_state.length > 0 {
                1int
            } else {
                0int
            }),
            final(self).saw_payloads == old(self).saw_payloads,
            final(self).base.field_info.name == old(self).base.field_info.name,
            final(self).base.field_info.number == old(self).base.field_info.number,
            final(self).base.field_info.index_options == old(self).base.field_info.index_options,
            final(self).base.field_info.store_payloads == (old(self).base.field_info.store_payloads || (old(self).saw_payloads && old(self).has_prox)),
            final(self).base.postings_array == old(self).base.postings_array,
            final(self).base.bytes_hash == old(self).base.bytes_hash,
            final(self).base.current() == old(self).base.current(),
            final(self).base.terms() == old(self).base.terms(),
            forall|pools: &TermsHashBase| old(self).wf(pools) ==> #[trigger] final(self).wf(pools),
    {
        match self.next_per_field.finish(field_state) {
            Ok(()) => {},
            Err(e) => {
                return Err(e);
            },
        }
        self.sum_doc_freq = self.sum_doc_freq + field_state.unique_term_count as i64;
        self.sum_total_term_freq = self.sum_total_term_freq + field_state.length as i64;
        if field_state.length > 0 {
            self.doc_count = self.doc_count + 1;
        }
        if self.saw_payloads {
            self.base.field_info.set_store_payloads();
        }
        proof {
            assert forall|pools: &TermsHashBase| old(self).wf(pools) implies #[trigger] self.wf(
                pools,
            ) by {
                old(self).base.lemma_wf(pools);
                self.base.lemma_rebuild(&old(self).base, pools);
                assert forall|t: int| 0 <= t < self.base.terms() implies #[trigger] self.term_ok(
                    t,
                ) by {
                    assert(old(self).term_ok(t));
                }
            }
        }
        Ok(())
    }

    /// Columns of `size` entries for the options of this field.
    pub fn create_postings_array(&self, size: usize) -> (array: FreqProxPostingsArray)
        requires
            self.base.field_info.index_options != IndexOptions::Null,
            size <= MAX_POSTINGS,
        ensures
            array.wf(),
            array.base.wf(),
            array.base.size == size,
            array.write_freqs == (self.base.field_info.index_options.rank_spec() >= 2),
            array.write_prox == (self.base.field_info.index_options.rank_spec() >= 3),
            array.write_offsets == (self.base.field_info.index_options.rank_spec() >= 4),
            forall|t: int|
                0 <= t < size ==> #[trigger] array.state(t) == (TermState {
                    last_doc_id: 0,
                    last_doc_code: 0,
                    term_freq: 0,
                    last_position: 0,
                    last_offset: 0,
                }),
    {
        let index_options = self.base.field_info.index_options;
        let has_freq = index_options.at_least(IndexOptions::DocsAndFreqs);
        let has_prox = index_options.at_least(IndexOptions::DocsAndFreqsAndPositions);
        let has_offsets = index_options.at_least(IndexOptions::DocsAndFreqsAndPositionsAndOffsets);
        FreqProxPostingsArray::new(size, has_freq, has_prox, has_offsets)
    }

    /// Forgets every term, releases the columns, and lowers the counter of
    /// bytes by what they took. The arenas are reset by whoever owns them.
    pub fn reset(&mut self)
        requires
            old(self).config_ok(),
            old(self).base.is_inited(),
            old(self).base.postings_array.wf(),
            1 <= old(self).base.stream_count <= crate::index::terms_hash_per_field::MAX_STREAM_COUNT,
        ensures
            final(self).base.terms() == 0,
            final(self).base.current() == -1,
            final(self).base.postings_array.base.size == 0,
            final(self).base.bytes_used == counted(
                old(self).base.bytes_used - old(self).base.postings_array.posting_bytes()
                    * old(self).base.postings_array.base.size,
            ),
            final(self).base.field_info == old(self).base.field_info,
            final(self).sum_total_term_freq == old(self).sum_total_term_freq,
            final(self).sum_doc_freq == old(self).sum_doc_freq,
            final(self).doc_count == old(self).doc_count,
            final(self).saw_payloads == old(self).saw_payloads,
            forall|pools: &TermsHashBase| pools.wf() ==> #[trigger] final(self).wf(pools),
    {
        self.base.bytes_used = lowered(
            self.base.bytes_used,
            self.base.postings_array.bytes_per_posting(),
            self.base.postings_array.base.size,
        );
        self.base.postings_array.clear();
        self.base.init();
    }

    /// `self` is `before` but for the columns and the payload mark.
    pub open spec fn same_but_columns(&self, before: &Self) -> bool {
        &&& self.base.stream_count == before.base.stream_count
        &&& self.base.field_info == before.base.field_info
        &&& self.base.bytes_hash == before.base.bytes_hash
        &&& self.base.num_terms == before.base.num_terms
        &&& self.base.int_upto_idx == before.base.int_upto_idx
        &&& self.base.int_upto_start == before.base.int_upto_start
        &&& self.base.do_next_call == before.base.do_next_call
        &&& self.base.inited == before.base.inited
        &&& self.base.term == before.base.term
        &&& self.base.bytes_used == before.base.bytes_used
        &&& self.has_freq == before.has_freq
        &&& self.has_prox == before.has_prox
        &&& self.has_offsets == before.has_offsets
        &&& self.sum_total_term_freq == before.sum_total_term_freq
        &&& self.sum_doc_freq == before.sum_doc_freq
        &&& self.doc_count == before.doc_count
        &&& self.next_per_field == before.next_per_field
    }

    /// What follows for the writer when its columns changed at one term
    /// alone, and that term still has a document and a frequency.
    proof fn lemma_entry_changed(&self, before: &Self, pools: &TermsHashBase, term: int)
        requires
            before.wf(pools),
            self.same_but_columns(before),
            0 <= term < before.base.terms(),
            self.term_ok(term),
            self.base.postings_array.differs_only_at(&before.base.postings_array, term),
        ensures
            forall|t: int| 0 <= t < self.base.terms() ==> #[trigger] self.term_ok(t),
    {
        before.base.lemma_wf(pools);
        assert forall|t: int| 0 <= t < self.base.terms() implies #[trigger] self.term_ok(t) by {
            if t != term {
                assert(before.term_ok(t));
            }
        }
    }

    /// The base writer's invariant reads only the shared columns.
    proof fn lemma_columns_changed(&self, before: &Self, pools: &TermsHashBase)
        requires
            before.base.wf(pools),
            self.same_but_columns(before),
            self.base.postings_array.base == before.base.postings_array.base,
            self.base.postings_array.wf(),
        ensures
            self.base.wf(pools),
    {
        before.base.lemma_wf(pools);
        self.base.lemma_rebuild(&before.base, pools);
    }
}

} // verus!
