//! The consumer that records term vectors. It comes second in the chain:
//! the postings writer has stored each term already, and hands over the
//! offset of the term instead of its bytes.

use vstd::prelude::*;
use crate::error::Error;
use crate::index::field::{DocId, FieldInfo, FieldInvertState, Token};
use crate::index::freq_prox::{encode_offsets, encode_prox, offset_bytes, prox_bytes};
use crate::index::postings_array::{
    BYTES_PER_POSTING,
    MAX_POSTINGS,
    ParallelPostingsArray,
    PostingsArray,
    grow_column,
    grown_column,
};
use crate::index::terms_hash::TermsHashBase;
use crate::index::terms_hash_per_field::{HASH_INIT_SIZE, TermsHashPerFieldBase, stream_ok_at};
use crate::util::byte_block_pool::{Headroom, lemma_fresh_headroom};
use crate::util::bytes_ref_hash::{BytesRefHash, MAX_TERMS};

verus! {

/// What the term-vectors consumer remembers of one term between two
/// tokens.
pub struct VectorState {
    /// Number of occurrences of the term.
    pub freq: u32,
    /// Start offset of the last occurrence.
    pub last_offset: u32,
    /// Position of the last occurrence.
    pub last_position: u32,
}

/// The columns of the term-vectors consumer.
pub struct TermVectorPostingsArray {
    pub base: ParallelPostingsArray,
    pub freqs: Vec<u32>,
    pub last_offsets: Vec<u32>,
    pub last_positions: Vec<u32>,
}

impl TermVectorPostingsArray {
    /// What the columns hold for a term.
    pub open spec fn state(&self, term: int) -> VectorState {
        VectorState {
            freq: self.freqs@[term],
            last_offset: self.last_offsets@[term],
            last_position: self.last_positions@[term],
        }
    }

    /// `self` is `before` but for the entries of `term`, which hold `state`.
    pub open spec fn is_update_of(&self, before: &Self, term: int, state: VectorState) -> bool {
        &&& self.base == before.base
        &&& self.freqs@ == before.freqs@.update(term, state.freq)
        &&& self.last_offsets@ == before.last_offsets@.update(term, state.last_offset)
        &&& self.last_positions@ == before.last_positions@.update(term, state.last_position)
    }

    /// `self` is `before` but, possibly, for the entries of `term`.
    pub open spec fn differs_only_at(&self, before: &Self, term: int) -> bool {
        self.is_update_of(before, term, self.state(term))
    }

    /// Columns that agree with `before` at every term but `term` differ
    /// from it at `term` alone.
    pub proof fn lemma_differs_from_entries(&self, before: &Self, term: int)
        requires
            self.base == before.base,
            self.freqs@.len() == before.freqs@.len(),
            self.last_offsets@.len() == before.last_offsets@.len(),
            self.last_positions@.len() == before.last_positions@.len(),
            0 <= term < before.freqs@.len(),
            term < before.last_offsets@.len(),
            term < before.last_positions@.len(),
            forall|t: int|
                0 <= t < self.freqs@.len() && t != term ==> #[trigger] self.freqs@[t]
                    == before.freqs@[t],
            forall|t: int|
                0 <= t < self.last_offsets@.len() && t != term ==> #[trigger] self.last_offsets@[t]
                    == before.last_offsets@[t],
            forall|t: int|
                0 <= t < self.last_positions@.len() && t != term
                    ==> #[trigger] self.last_positions@[t] == before.last_positions@[t],
        ensures
            self.differs_only_at(before, term),
    {
        let st = self.state(term);
        assert(self.freqs@ =~= before.freqs@.update(term, st.freq));
        assert(self.last_offsets@ =~= before.last_offsets@.update(term, st.last_offset));
        assert(self.last_positions@ =~= before.last_positions@.update(term, st.last_position));
    }

    /// Columns of `size` entries each, all zero.
    pub fn new(size: usize) -> (array: Self)
        requires
            size <= MAX_POSTINGS,
        ensures
            array.wf(),
            array.base.wf(),
            array.base.size == size,
    {
        TermVectorPostingsArray {
            base: ParallelPostingsArray::new(size),
            freqs: vec![0u32; size],
            last_offsets: vec![0u32; size],
            last_positions: vec![0u32; size],
        }
    }
}

impl PostingsArray for TermVectorPostingsArray {
    open spec fn parallel(&self) -> ParallelPostingsArray {
        self.base
    }

    open spec fn wf(&self) -> bool {
        &&& self.freqs@.len() == self.base.size
        &&& self.last_offsets@.len() == self.base.size
        &&& self.last_positions@.len() == self.base.size
    }

    open spec fn same_own_columns(&self, before: &Self) -> bool {
        &&& self.freqs == before.freqs
        &&& self.last_offsets == before.last_offsets
        &&& self.last_positions == before.last_positions
    }

    open spec fn grown_from(&self, before: &Self) -> bool {
        &&& grown_column(before.freqs@, self.freqs@, self.base.size as int, 0u32)
        &&& grown_column(before.last_offsets@, self.last_offsets@, self.base.size as int, 0u32)
        &&& grown_column(before.last_positions@, self.last_positions@, self.base.size as int, 0u32)
    }

    open spec fn posting_bytes(&self) -> int {
        BYTES_PER_POSTING + 12
    }

    fn parallel_array(&self) -> (p: &ParallelPostingsArray) {
        &self.base
    }

    fn parallel_array_mut(&mut self) -> (p: &mut ParallelPostingsArray) {
        &mut self.base
    }

    fn bytes_per_posting(&self) -> (n: usize)
        ensures
            n == BYTES_PER_POSTING + 12,
    {
        self.base.bytes_per_posting() + 3 * 4
    }

    fn grow(&mut self) {
        self.base.grow();
        let new_size = self.base.size;
        grow_column(&mut self.freqs, new_size);
        grow_column(&mut self.last_offsets, new_size);
        grow_column(&mut self.last_positions, new_size);
    }

    fn clear(&mut self) {
        self.base.clear();
        self.freqs = Vec::with_capacity(0);
        self.last_offsets = Vec::with_capacity(0);
        self.last_positions = Vec::with_capacity(0);
    }
}

/// Records, for each term of one field of the current document, where the
/// term occurs: one stream per term, with the position, the payload and the
/// offsets of each occurrence.
pub struct TermVectorsConsumerPerField {
    pub base: TermsHashPerFieldBase<TermVectorPostingsArray>,
    /// Whether term vectors are stored for this field at all.
    pub do_vectors: bool,
    pub do_vector_positions: bool,
    pub do_vector_offsets: bool,
    /// Whether any token so far had a payload.
    pub has_payloads: bool,
}

impl TermVectorsConsumerPerField {
    /// What the columns hold for a term.
    pub open spec fn state(&self, term: int) -> VectorState {
        self.base.postings_array.state(term)
    }

    /// The offsets of the terms that have an id, by id.
    pub open spec fn offsets(&self) -> Seq<u32> {
        self.base.bytes_hash.starts()
    }

    /// The consumer's invariant with respect to its arenas.
    pub open spec fn wf(&self, pools: &TermsHashBase) -> bool {
        &&& self.base.wf(pools)
        &&& self.base.bytes_hash.wf_by_offset()
        &&& self.base.terms() == self.base.bytes_hash.count()
        &&& self.base.streams() == 1
        &&& forall|t: int|
            0 <= t < self.base.terms() ==> #[trigger] self.base.postings_array.base.text_starts@[t]
                == self.base.bytes_hash.starts()[t]
    }

    /// What one occurrence sends to the stream of its term: with positions,
    /// the position code and the payload; with offsets, the offsets.
    pub open spec fn occurrence_bytes(
        &self,
        state: VectorState,
        field_state: FieldInvertState,
        token: &Token,
    ) -> Seq<u8> {
        (if self.do_vector_positions {
            prox_bytes(
                (field_state.position - state.last_position) as u32,
                token.payload_bytes(),
            )
        } else {
            Seq::empty()
        }) + (if self.do_vector_offsets {
            offset_bytes(
                field_state.offset + token.start_offset,
                field_state.offset + token.end_offset,
                state.last_offset as int,
            )
        } else {
            Seq::empty()
        })
    }

    /// What the columns hold for a term after one more occurrence, when
    /// they held `state`.
    pub open spec fn next_state(
        &self,
        state: VectorState,
        field_state: FieldInvertState,
        token: &Token,
    ) -> VectorState {
        VectorState {
            freq: (state.freq + 1) as u32,
            last_offset: if self.do_vector_offsets {
                (field_state.offset + token.start_offset) as u32
            } else {
                state.last_offset
            },
            last_position: if self.do_vector_positions {
                field_state.position as u32
            } else {
                state.last_position
            },
        }
    }

    /// The state of a term that has not occurred.
    pub open spec fn no_occurrence() -> VectorState {
        VectorState { freq: 0, last_offset: 0, last_position: 0 }
    }

    /// The limits and the order that an occurrence must keep after a term
    /// was in `state`: a position and offsets that do not go back and fit in
    /// 31 bits, a payload whose length fits in 31 bits, and a frequency
    /// that can still grow.
    pub open spec fn in_order(
        &self,
        state: VectorState,
        field_state: FieldInvertState,
        token: &Token,
    ) -> bool {
        &&& state.freq < u32::MAX
        &&& field_state.position >= 0
        &&& token.payload_bytes().len() <= 0x7fff_ffff
        &&& token.start_offset <= token.end_offset
        &&& field_state.offset + token.end_offset <= 0x7fff_ffff
        &&& self.do_vector_positions ==> field_state.position >= state.last_position
        &&& self.do_vector_offsets ==> field_state.offset + token.start_offset >= state.last_offset
    }

    /// Whether `add_by_offset` may be called with this token for the term at
    /// `text_start`.
    pub open spec fn admits(
        &self,
        field_state: FieldInvertState,
        token: &Token,
        text_start: int,
    ) -> bool {
        &&& 0 <= text_start <= u32::MAX
        &&& self.in_order(Self::no_occurrence(), field_state, token)
        &&& forall|t: int|
            0 <= t < self.base.terms() && #[trigger] self.offsets()[t] == text_start
                ==> self.in_order(self.state(t), field_state, token)
    }

    /// Whether an occurrence after `last_position` and `last_offset` keeps
    /// the limits and the order.
    fn occurrence_in_order(
        &self,
        freq: u32,
        last_offset: u32,
        last_position: u32,
        field_state: &FieldInvertState,
        token: &Token,
    ) -> (ok: bool)
        ensures
            ok == self.in_order(
                (VectorState { freq, last_offset, last_position }),
                *field_state,
                token,
            ),
    {
        let payload_len = token.payload_len();
        if freq == u32::MAX || field_state.position < 0 || payload_len > 0x7fff_ffff
            || token.start_offset > token.end_offset || token.end_offset > 0x7fff_ffff
            || field_state.offset > 0x7fff_ffff || field_state.offset + token.end_offset
            > 0x7fff_ffff {
            return false;
        }
        if self.do_vector_positions && (field_state.position as u32) < last_position {
            return false;
        }
        if self.do_vector_offsets && ((field_state.offset + token.start_offset) as u32)
            < last_offset {
            return false;
        }
        true
    }

    /// Whether `add_by_offset` may be called with this token for the term at
    /// `text_start`: tests what `add_by_offset` requires of them.
    pub fn accepts(
        &self,
        pools: &TermsHashBase,
        field_state: &FieldInvertState,
        token: &Token,
        text_start: usize,
    ) -> (ok: bool)
        requires
            self.wf(pools),
        ensures
            ok == self.admits(*field_state, token, text_start as int),
    {
        proof {
            self.base.lemma_wf(pools);
            self.base.bytes_hash.lemma_wf_by_offset();
        }
        if text_start > 0xffff_ffff {
            return false;
        }
        if !self.occurrence_in_order(0, 0, 0, field_state, token) {
            return false;
        }
        let found = self.base.bytes_hash.find_by_pool_offset(text_start);
        if found < 0 {
            return true;
        }
        let t = found as usize;
        proof {
            assert(self.offsets()[t as int] == text_start as u32);
            assert forall|t2: int|
                0 <= t2 < self.base.terms() && #[trigger] self.offsets()[t2]
                    == text_start implies t2 == t by {
                if t2 != t {
                    assert(self.offsets()[t2] != self.offsets()[t as int]);
                }
            }
        }
        let pa = &self.base.postings_array;
        self.occurrence_in_order(pa.freqs[t], pa.last_offsets[t], pa.last_positions[t], field_state, token)
    }

    /// A consumer for the field that `field_info` describes. It is ready
    /// for use after `init`.
    pub fn new(
        field_info: FieldInfo,
        do_vectors: bool,
        do_vector_positions: bool,
        do_vector_offsets: bool,
    ) -> (consumer: Self)
        ensures
            consumer.do_vectors == do_vectors,
            consumer.do_vector_positions == do_vector_positions,
            consumer.do_vector_offsets == do_vector_offsets,
            !consumer.has_payloads,
            consumer.base.field_info == field_info,
            consumer.base.streams() == 1,
            consumer.base.postings_array.wf(),
            consumer.base.postings_array.base.wf(),
    {
        TermVectorsConsumerPerField {
            base: TermsHashPerFieldBase::new(1, field_info, TermVectorPostingsArray::new(2)),
            do_vectors,
            do_vector_positions,
            do_vector_offsets,
            has_payloads: false,
        }
    }

    /// Makes the consumer ready for use, with no terms.
    pub fn init(&mut self)
        requires
            old(self).base.streams() == 1,
            old(self).base.postings_array.wf(),
            old(self).base.postings_array.base.wf(),
        ensures
            final(self).base.terms() == 0,
            final(self).base.field_info == old(self).base.field_info,
            final(self).base.postings_array == old(self).base.postings_array,
            final(self).do_vectors == old(self).do_vectors,
            final(self).do_vector_positions == old(self).do_vector_positions,
            final(self).do_vector_offsets == old(self).do_vector_offsets,
            final(self).has_payloads == old(self).has_payloads,
            forall|pools: &TermsHashBase| pools.wf() ==> #[trigger] final(self).wf(pools),
    {
        self.base.init();
        self.base.bytes_hash = BytesRefHash::new_by_pool_offset(HASH_INIT_SIZE);
        proof {
            assert forall|pools: &TermsHashBase| pools.wf() implies #[trigger] self.wf(pools) by {
                self.base.lemma_other_table(pools);
            }
        }
    }

    /// Whether the field takes part in the current document: it does when
    /// term vectors are stored for it.
    pub fn start(&mut self, field_state: &FieldInvertState, first: bool) -> (r: Result<
        bool,
        Error,
    >)
        ensures
            r == Ok::<bool, Error>(old(self).do_vectors),
            *final(self) == *old(self),
    {
        Ok(self.do_vectors)
    }

    /// Closes one instance of the field in a document.
    pub fn finish(&mut self, field_state: &FieldInvertState) -> (r: Result<(), Error>)
        ensures
            r is Ok,
            *final(self) == *old(self),
    {
        Ok(())
    }

    /// The bytes of one occurrence, as they go to the stream of its term.
    pub fn encode_occurrence(
        &self,
        last_position: u32,
        last_offset: u32,
        field_state: &FieldInvertState,
        token: &Token,
    ) -> (bytes: Vec<u8>)
        requires
            self.in_order(
                (VectorState { freq: 0, last_offset, last_position }),
                *field_state,
                token,
            ),
        ensures
            bytes@ == self.occurrence_bytes(
                (VectorState { freq: 0, last_offset, last_position }),
                *field_state,
                token,
            ),
    {
        let mut bytes: Vec<u8> = Vec::new();
        if self.do_vector_positions {
            let code = field_state.position as u32 - last_position;
            let mut prox = encode_prox(code, token);
            bytes.append(&mut prox);
        }
        let ghost first = bytes@;
        if self.do_vector_offsets {
            let start = (field_state.offset + token.start_offset) as u32;
            let end = (field_state.offset + token.end_offset) as u32;
            let mut offsets = encode_offsets(start, end, last_offset);
            bytes.append(&mut offsets);
        }
        proof {
            let second = if self.do_vector_offsets {
                offset_bytes(
                    field_state.offset + token.start_offset,
                    field_state.offset + token.end_offset,
                    last_offset as int,
                )
            } else {
                Seq::<u8>::empty()
            };
            assert(bytes@ =~= first + second);
            if self.do_vector_positions {
                assert(first =~= prox_bytes(
                    (field_state.position - last_position) as u32,
                    token.payload_bytes(),
                ));
            } else {
                assert(first =~= Seq::<u8>::empty());
            }
        }
        bytes
    }

    /// Records one occurrence of the current term.
    pub fn record(
        &mut self,
        pools: &mut TermsHashBase,
        term_id: usize,
        field_state: &FieldInvertState,
        token: &Token,
    ) -> (r: Result<(), Error>)
        requires
            old(self).wf(old(pools)),
            term_id == old(self).base.current(),
            old(self).in_order(old(self).state(term_id as int), *field_state, token),
        ensures
            final(self).wf(final(pools)),
            old(pools).extended(
                final(pools),
                old(self).base.stream_key(term_id as int, 0),
                old(self).base.stream_key(term_id as int, 0),
            ),
            final(self).base.postings_array.differs_only_at(
                &old(self).base.postings_array,
                term_id as int,
            ),
            final(self).base.current() == old(self).base.current(),
            final(self).base.bytes_hash == old(self).base.bytes_hash,
            final(self).base.postings_array.base == old(self).base.postings_array.base,
            final(self).base.terms() == old(self).base.terms(),
            final(self).base.bytes_used == old(self).base.bytes_used,
            final(self).do_vectors == old(self).do_vectors,
            final(self).do_vector_positions == old(self).do_vector_positions,
            final(self).do_vector_offsets == old(self).do_vector_offsets,
            final(self).base.field_info == old(self).base.field_info,
            r is Ok <==> old(self).base.headroom(old(pools), 0).accepts(
                old(self).occurrence_bytes(old(self).state(term_id as int), *field_state, token).len(),
            ),
            match r {
                Ok(()) => {
                    &&& old(pools).wrote(
                        final(pools),
                        old(self).base.stream_key(term_id as int, 0),
                        old(self).base.head_slot(term_id as int, 0),
                        old(self).occurrence_bytes(
                            old(self).state(term_id as int),
                            *field_state,
                            token,
                        ),
                    )
                    &&& final(self).base.postings_array.is_update_of(
                        &old(self).base.postings_array,
                        term_id as int,
                        old(self).next_state(old(self).state(term_id as int), *field_state, token),
                    )
                    &&& final(self).has_payloads == (old(self).has_payloads || (old(self).do_vector_positions && token.payload_bytes().len() > 0))
                },
                Err(e) => {
                    &&& e == Error::PoolExhausted
                    &&& *final(self) == *old(self)
                    &&& old(pools).wrote_part(
                        final(pools),
                        old(self).base.stream_key(term_id as int, 0),
                        old(self).base.head_slot(term_id as int, 0),
                        old(self).occurrence_bytes(
                            old(self).state(term_id as int),
                            *field_state,
                            token,
                        ),
                    )
                },
            },
    {
        proof {
            self.base.lemma_wf(pools);
        }
        let last_position = self.base.postings_array.last_positions[term_id];
        let last_offset = self.base.postings_array.last_offsets[term_id];
        let bytes = self.encode_occurrence(last_position, last_offset, field_state, token);
        match self.base.write_bytes(pools, 0, bytes.as_slice()) {
            Ok(()) => {},
            Err(e) => {
                proof {
                    self.base.postings_array.lemma_differs_from_entries(
                        &old(self).base.postings_array,
                        term_id as int,
                    );
                }
                return Err(e);
            },
        }
        let ghost before = *self;
        let freq = self.base.postings_array.freqs[term_id];
        self.base.postings_array.freqs[term_id] = freq + 1;
        if self.do_vector_positions {
            self.base.postings_array.last_positions[term_id] = field_state.position as u32;
            if token.payload_len() > 0 {
                self.has_payloads = true;
            }
        }
        if self.do_vector_offsets {
            self.base.postings_array.last_offsets[term_id] = (field_state.offset
                + token.start_offset) as u32;
        }
        proof {
            self.base.lemma_rebuild(&before.base, pools);
            let pa = self.base.postings_array;
            let pa0 = old(self).base.postings_array;
            let t = term_id as int;
            let st = old(self).next_state(old(self).state(t), *field_state, token);
            assert(pa.freqs@ =~= pa0.freqs@.update(t, st.freq));
            assert(pa.last_offsets@ =~= pa0.last_offsets@.update(t, st.last_offset));
            assert(pa.last_positions@ =~= pa0.last_positions@.update(t, st.last_position));
        }
        Ok(())
    }

    /// Records the first occurrence of the current term.
    pub fn new_term(
        &mut self,
        pools: &mut TermsHashBase,
        term_id: usize,
        field_state: &FieldInvertState,
        token: &Token,
        doc_id: DocId,
    ) -> (r: Result<(), Error>)
        requires
            old(self).wf(old(pools)),
            term_id == old(self).base.current(),
            old(self).in_order(Self::no_occurrence(), *field_state, token),
        ensures
            final(self).wf(final(pools)),
            old(pools).extended(
                final(pools),
                old(self).base.stream_key(term_id as int, 0),
                old(self).base.stream_key(term_id as int, 0),
            ),
            final(self).base.postings_array.differs_only_at(
                &old(self).base.postings_array,
                term_id as int,
            ),
            final(self).base.current() == old(self).base.current(),
            final(self).base.bytes_hash == old(self).base.bytes_hash,
            final(self).base.postings_array.base == old(self).base.postings_array.base,
            final(self).base.terms() == old(self).base.terms(),
            final(self).base.bytes_used == old(self).base.bytes_used,
            final(self).do_vectors == old(self).do_vectors,
            final(self).do_vector_positions == old(self).do_vector_positions,
            final(self).do_vector_offsets == old(self).do_vector_offsets,
            final(self).base.field_info == old(self).base.field_info,
            r is Ok <==> old(self).base.headroom(old(pools), 0).accepts(
                old(self).occurrence_bytes(Self::no_occurrence(), *field_state, token).len(),
            ),
            match r {
                Ok(()) => {
                    &&& old(pools).wrote(
                        final(pools),
                        old(self).base.stream_key(term_id as int, 0),
                        old(self).base.head_slot(term_id as int, 0),
                        old(self).occurrence_bytes(Self::no_occurrence(), *field_state, token),
                    )
                    &&& final(self).base.postings_array.is_update_of(
                        &old(self).base.postings_array,
                        term_id as int,
                        old(self).next_state(Self::no_occurrence(), *field_state, token),
                    )
                    &&& final(self).has_payloads == (old(self).has_payloads || (old(self).do_vector_positions && token.payload_bytes().len() > 0))
                },
                Err(e) => {
                    &&& e == Error::PoolExhausted
                    &&& final(self).has_payloads == old(self).has_payloads
                    &&& old(pools).wrote_part(
                        final(pools),
                        old(self).base.stream_key(term_id as int, 0),
                        old(self).base.head_slot(term_id as int, 0),
                        old(self).occurrence_bytes(Self::no_occurrence(), *field_state, token),
                    )
                    &&& final(self).base.postings_array.is_update_of(
                        &old(self).base.postings_array,
                        term_id as int,
                        Self::no_occurrence(),
                    )
                },
            },
    {
        proof {
            self.base.lemma_wf(pools);
        }
        self.base.postings_array.freqs[term_id] = 0;
        self.base.postings_array.last_offsets[term_id] = 0;
        self.base.postings_array.last_positions[term_id] = 0;
        let ghost mid = *self;
        proof {
            self.base.lemma_rebuild(&old(self).base, pools);
        }
        let r = self.record(pools, term_id, field_state, token);
        proof {
            self.base.postings_array.lemma_differs_from_entries(
                &old(self).base.postings_array,
                term_id as int,
            );
            if r is Ok {
                let pa = self.base.postings_array;
                let pa0 = old(self).base.postings_array;
                let t = term_id as int;
                let st = old(self).next_state(Self::no_occurrence(), *field_state, token);
                assert(pa.freqs@ =~= pa0.freqs@.update(t, st.freq));
                assert(pa.last_offsets@ =~= pa0.last_offsets@.update(t, st.last_offset));
                assert(pa.last_positions@ =~= pa0.last_positions@.update(t, st.last_position));
            }
        }
        r
    }

    /// Records one more occurrence of the current term.
    pub fn add_term(
        &mut self,
        pools: &mut TermsHashBase,
        term_id: usize,
        field_state: &FieldInvertState,
        token: &Token,
        doc_id: DocId,
    ) -> (r: Result<(), Error>)
        requires
            old(self).wf(old(pools)),
            term_id == old(self).base.current(),
            old(self).in_order(old(self).state(term_id as int), *field_state, token),
        ensures
            final(self).wf(final(pools)),
            old(pools).extended(
                final(pools),
                old(self).base.stream_key(term_id as int, 0),
                old(self).base.stream_key(term_id as int, 0),
            ),
            final(self).base.postings_array.differs_only_at(
                &old(self).base.postings_array,
                term_id as int,
            ),
            final(self).base.current() == old(self).base.current(),
            final(self).base.bytes_hash == old(self).base.bytes_hash,
            final(self).base.postings_array.base == old(self).base.postings_array.base,
            final(self).base.terms() == old(self).base.terms(),
            final(self).base.bytes_used == old(self).base.bytes_used,
            final(self).do_vectors == old(self).do_vectors,
            final(self).do_vector_positions == old(self).do_vector_positions,
            final(self).do_vector_offsets == old(self).do_vector_offsets,
            final(self).base.field_info == old(self).base.field_info,
            r is Ok <==> old(self).base.headroom(old(pools), 0).accepts(
                old(self).occurrence_bytes(old(self).state(term_id as int), *field_state, token).len(),
            ),
            match r {
                Ok(()) => {
                    &&& old(pools).wrote(
                        final(pools),
                        old(self).base.stream_key(term_id as int, 0),
                        old(self).base.head_slot(term_id as int, 0),
                        old(self).occurrence_bytes(
                            old(self).state(term_id as int),
                            *field_state,
                            token,
                        ),
                    )
                    &&& final(self).base.postings_array.is_update_of(
                        &old(self).base.postings_array,
                        term_id as int,
                        old(self).next_state(old(self).state(term_id as int), *field_state, token),
                    )
                    &&& final(self).has_payloads == (old(self).has_payloads || (old(self).do_vector_positions && token.payload_bytes().len() > 0))
                },
                Err(e) => {
                    &&& e == Error::PoolExhausted
                    &&& *final(self) == *old(self)
                    &&& old(pools).wrote_part(
                        final(pools),
                        old(self).base.stream_key(term_id as int, 0),
                        old(self).base.head_slot(term_id as int, 0),
                        old(self).occurrence_bytes(
                            old(self).state(term_id as int),
                            *field_state,
                            token,
                        ),
                    )
                },
            },
    {
        self.record(pools, term_id, field_state, token)
    }

    /// Why the term at an offset that has no id yet cannot get one now;
    /// `None` when it can.
    pub open spec fn term_error(&self, pools: &TermsHashBase) -> Option<Error> {
        if self.base.terms() + 1 >= MAX_TERMS {
            Some(Error::TooManyTerms)
        } else if !self.base.can_add_streams(pools) {
            Some(Error::PoolExhausted)
        } else {
            None
        }
    }

    /// The arena as the stream of a term sees it that gets its stream now.
    pub open spec fn new_term_headroom(pools: &TermsHashBase) -> Headroom {
        Headroom {
            upto: if pools.byte_pool.fits(5) {
                pools.byte_pool.upto() + 5
            } else {
                5
            },
            buffers: if pools.byte_pool.fits(5) {
                pools.byte_pool.num_buffers()
            } else {
                pools.byte_pool.num_buffers() + 1
            },
            limit: pools.byte_pool.limit(),
            level: 0,
            used: 0,
        }
    }

    /// `self` holds for every term but `term` what `before` held.
    pub open spec fn others_kept(
        &self,
        before: &Self,
        pools0: &TermsHashBase,
        pools: &TermsHashBase,
        term: int,
    ) -> bool {
        &&& forall|t: int|
            0 <= t < before.base.terms() && t != term ==> #[trigger] self.state(t) == before.state(
                t,
            )
        &&& forall|t: int|
            0 <= t < before.base.terms() && t != term ==> #[trigger] self.base.stream_bytes(
                pools,
                t,
                0,
            ) == before.base.stream_bytes(pools0, t, 0)
    }

    /// What `add_by_offset` does, for the token `token` of the term that
    /// the first consumer stored at `text_start`: `self` and `pools` are
    /// `before` and `pools0` after the call that returned `r`.
    pub open spec fn vector_added(
        &self,
        before: &Self,
        pools0: &TermsHashBase,
        pools: &TermsHashBase,
        field_state: FieldInvertState,
        token: &Token,
        text_start: int,
        r: Result<(), Error>,
    ) -> bool {
        &&& self.do_vectors == before.do_vectors
        &&& self.do_vector_positions == before.do_vector_positions
        &&& self.do_vector_offsets == before.do_vector_offsets
        &&& self.base.field_info == before.base.field_info
        &&& self.base.bytes_used == self.base.counted_from(
            before.base.bytes_used,
            before.base.postings_array.base.size as int,
        )
        &&& before.offsets().contains(text_start as u32) ==> {
            let t = before.offsets().index_of(text_start as u32);
            let bytes = before.occurrence_bytes(before.state(t), field_state, token);
            &&& self.offsets() == before.offsets()
            &&& self.base.postings_array.base == before.base.postings_array.base
            &&& self.base.current() == t
            &&& r is Ok ==> pools0.wrote(
                pools,
                before.base.stream_key(t, 0),
                before.base.head_slot(t, 0),
                bytes,
            )
            &&& r is Ok <==> pools0.byte_pool.headroom(before.base.stream_key(t, 0)).accepts(
                bytes.len(),
            )
            &&& r is Err ==> r == Err::<(), Error>(Error::PoolExhausted)
            &&& r is Err ==> self.state(t) == before.state(t) && pools0.wrote_part(
                pools,
                before.base.stream_key(t, 0),
                before.base.head_slot(t, 0),
                bytes,
            )
            &&& self.others_kept(before, pools0, pools, t)
            &&& before.base.stream_bytes(pools0, t, 0).is_prefix_of(
                self.base.stream_bytes(pools, t, 0),
            )
            &&& r is Ok ==> {
                &&& self.state(t) == before.next_state(before.state(t), field_state, token)
                &&& self.base.stream_bytes(pools, t, 0) == before.base.stream_bytes(pools0, t, 0)
                    + bytes
            }
        }
        &&& !before.offsets().contains(text_start as u32) ==> match before.term_error(pools0) {
            Some(e) => {
                &&& r == Err::<(), Error>(e)
                &&& *self == *before
                &&& *pools == *pools0
            },
            None => {
                let id = before.base.terms();
                let bytes = before.occurrence_bytes(Self::no_occurrence(), field_state, token);
                &&& self.offsets() == before.offsets().push(text_start as u32)
                &&& self.base.current() == id
                &&& r is Ok <==> Self::new_term_headroom(pools0).accepts(bytes.len())
                &&& r is Err ==> r == Err::<(), Error>(Error::PoolExhausted)
                &&& r is Err ==> self.state(id) == Self::no_occurrence() && exists|k: int|
                    0 <= k < bytes.len() && #[trigger] bytes.take(k) == self.base.stream_bytes(
                        pools,
                        id,
                        0,
                    ) && Self::new_term_headroom(pools0).stops_at(k)
                &&& self.others_kept(before, pools0, pools, id)
                &&& r is Ok ==> {
                    &&& self.state(id) == before.next_state(
                        Self::no_occurrence(),
                        field_state,
                        token,
                    )
                    &&& self.base.stream_bytes(pools, id, 0) == bytes
                }
            },
        }
    }

    /// Consumes one token whose term the first consumer stored at
    /// `text_start`: finds the id of that offset, or gives it one, and
    /// records the occurrence.
    pub fn add_by_offset(
        &mut self,
        pools: &mut TermsHashBase,
        field_state: &FieldInvertState,
        token: &Token,
        doc_id: DocId,
        text_start: usize,
    ) -> (r: Result<(), Error>)
        requires
            old(self).wf(old(pools)),
            old(self).admits(*field_state, token, text_start as int),
        ensures
            final(self).wf(final(pools)),
            final(self).vector_added(
                old(self),
                old(pools),
                final(pools),
                *field_state,
                token,
                text_start as int,
                r,
            ),
    {
        let ghost offsets0 = self.offsets();
        proof {
            self.base.lemma_wf(pools);
            self.base.bytes_hash.lemma_wf_by_offset();
            pools.byte_pool.lemma_geometry();
            pools.int_pool.lemma_bounds();
        }
        let found = self.base.bytes_hash.find_by_pool_offset(text_start);
        if found >= 0 {
            let id = found as usize;
            match self.base.add(pools, -(found + 1)) {
                Ok(()) => {},
                Err(e) => {
                    proof {
                        assert(false);
                    }
                    return Err(e);
                },
            }
            proof {
                let t = offsets0.index_of(text_start as u32);
                assert(offsets0[id as int] == text_start as u32);
                if t != id {
                    assert(offsets0[t] != offsets0[id as int]);
                }
            }
            let ghost mid_self = *self;
            let r = self.add_term(pools, id, field_state, token, doc_id);
            proof {
                self.lemma_others_kept(&mid_self, old(pools), pools, id as int);
                if r is Ok {
                    self.lemma_recorded(&mid_self, old(pools), pools, id as int);
                }
            }
            return r;
        }
        if self.base.bytes_hash.size() + 1 >= MAX_TERMS {
            return Err(Error::TooManyTerms);
        }
        if !self.base.has_room_for_streams(pools) {
            return Err(Error::PoolExhausted);
        }
        let id = match self.base.bytes_hash.add_by_pool_offset(text_start) {
            Ok(id) => id,
            Err(e) => {
                proof {
                    assert(false);
                }
                return Err(e);
            },
        };
        proof {
            self.base.lemma_rebuild(&old(self).base, pools);
        }
        self.base.reserve_term(id as usize);
        let ghost self1 = *self;
        self.base.postings_array.base.text_starts[id as usize] = text_start as u32;
        proof {
            self.base.lemma_rebuild(&self1.base, pools);
        }
        let ghost self2 = *self;
        match self.base.add(pools, id) {
            Ok(()) => {},
            Err(e) => {
                proof {
                    assert(false);
                }
                return Err(e);
            },
        }
        let ghost pools1 = *pools;
        let ghost self3 = *self;
        proof {
            let pa = self.base.postings_array;
            let pa0 = old(self).base.postings_array;
            self.base.lemma_wf(pools);
            assert forall|t: int| 0 <= t < self.base.terms() implies #[trigger] pa.base.text_starts@[t]
                == self.base.bytes_hash.starts()[t] by {
                if t < id {
                    assert(pa0.base.text_starts@[t] == old(self).base.bytes_hash.starts()[t]);
                }
            }
            let first = old(pools).byte_pool.next_start(5);
            assert(self2.base.is_new_key(first, first));
            assert(pa.base.byte_starts@[id as int] == first as u32);
            assert(self.base.stream_key(id as int, 0) == first);
            lemma_fresh_headroom(pools.byte_pool.streams()[first]);
            assert(self.base.headroom(pools, 0) == Self::new_term_headroom(old(pools)));
        }
        let r = self.new_term(pools, id as usize, field_state, token, doc_id);
        proof {
            let pa0 = old(self).base.postings_array;
            self.lemma_others_kept(&self3, &pools1, pools, id as int);
            assert forall|t: int|
                0 <= t < old(self).base.terms() && t != id implies #[trigger] self.state(t) == old(self).state(t) by {
                assert(self3.state(t) == old(self).state(t));
            }
            assert forall|t: int|
                0 <= t < old(self).base.terms() && t != id implies #[trigger] self.base.stream_bytes(
                pools,
                t,
                0,
            ) == old(self).base.stream_bytes(old(pools), t, 0) by {
                assert(stream_ok_at(pa0.base, old(pools), t, 0));
                assert(self3.base.stream_bytes(&pools1, t, 0) == old(self).base.stream_bytes(
                    old(pools),
                    t,
                    0,
                ));
            }
            if r is Ok {
                let bytes = old(self).occurrence_bytes(Self::no_occurrence(), *field_state, token);
                self.lemma_recorded(&self3, &pools1, pools, id as int);
                assert(Seq::<u8>::empty() + bytes =~= bytes);
            } else {
                let bytes = old(self).occurrence_bytes(Self::no_occurrence(), *field_state, token);
                let key = self3.base.stream_key(id as int, 0);
                let k = choose|k: int|
                    0 <= k < bytes.len() && #[trigger] pools1.wrote(
                        pools,
                        key,
                        self3.base.head_slot(id as int, 0),
                        bytes.take(k),
                    ) && pools1.byte_pool.headroom(key).stops_at(k);
                assert(self.base.stream_bytes(pools, id as int, 0) =~= bytes.take(k));
                assert(self.state(id as int) == Self::no_occurrence());
            }
        }
        r
    }

    /// What an extension of the stream of one term and a change of the
    /// columns at that term leave as they were.
    proof fn lemma_others_kept(
        &self,
        before: &Self,
        pools0: &TermsHashBase,
        pools: &TermsHashBase,
        term: int,
    )
        requires
            before.wf(pools0),
            term == before.base.current(),
            0 <= term < before.base.terms(),
            self.base.stream_count == before.base.stream_count,
            self.base.postings_array.differs_only_at(&before.base.postings_array, term),
            pools0.extended(
                pools,
                before.base.stream_key(term, 0),
                before.base.stream_key(term, 0),
            ),
        ensures
            self.others_kept(before, pools0, pools, term),
            before.base.stream_bytes(pools0, term, 0).is_prefix_of(
                self.base.stream_bytes(pools, term, 0),
            ),
    {
        let pa0 = before.base.postings_array;
        before.base.lemma_wf(pools0);
        assert(stream_ok_at(pa0.base, pools0, term, 0));
        assert forall|t: int|
            0 <= t < before.base.terms() && t != term implies #[trigger] self.state(t)
            == before.state(t) by {
        }
        assert forall|t: int|
            0 <= t < before.base.terms() && t != term implies #[trigger] self.base.stream_bytes(
            pools,
            t,
            0,
        ) == before.base.stream_bytes(pools0, t, 0) by {
            assert(stream_ok_at(pa0.base, pools0, t, 0));
            before.base.lemma_distinct(pools0, t, 0, term, 0);
        }
    }

    /// What `wrote` says of the arenas, read term by term.
    proof fn lemma_recorded(
        &self,
        before: &Self,
        pools0: &TermsHashBase,
        pools: &TermsHashBase,
        term: int,
    )
        requires
            before.wf(pools0),
            term == before.base.current(),
            0 <= term < before.base.terms(),
            self.base.postings_array.base == before.base.postings_array.base,
            self.base.stream_count == before.base.stream_count,
            exists|bytes: Seq<u8>| #[trigger]
                pools0.wrote(
                    pools,
                    before.base.stream_key(term, 0),
                    before.base.head_slot(term, 0),
                    bytes,
                ),
            exists|st: VectorState| #[trigger]
                self.base.postings_array.is_update_of(&before.base.postings_array, term, st),
        ensures
            self.others_kept(before, pools0, pools, term),
            forall|bytes: Seq<u8>| #[trigger]
                pools0.wrote(
                    pools,
                    before.base.stream_key(term, 0),
                    before.base.head_slot(term, 0),
                    bytes,
                ) ==> self.base.stream_bytes(pools, term, 0) == before.base.stream_bytes(
                    pools0,
                    term,
                    0,
                ) + bytes,
            forall|st: VectorState| #[trigger]
                self.base.postings_array.is_update_of(&before.base.postings_array, term, st)
                    ==> self.state(term) == st,
    {
        let pa0 = before.base.postings_array;
        before.base.lemma_wf(pools0);
        assert forall|t: int|
            0 <= t < before.base.terms() && t != term implies #[trigger] self.base.stream_bytes(
            pools,
            t,
            0,
        ) == before.base.stream_bytes(pools0, t, 0) by {
            assert(stream_ok_at(pa0.base, pools0, t, 0));
            before.base.lemma_distinct(pools0, t, 0, term, 0);
        }
    }
}

} // verus!
