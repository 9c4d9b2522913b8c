//! Reading the codes of the postings back: the inverse of what the postings
//! writer sends to the streams of a term, code by code.

use vstd::prelude::*;
use crate::index::freq_prox::{TermState, doc_code_bytes, offset_bytes, prox_bytes};
use crate::index::terms_hash_per_field::vint_bytes;
use crate::util::byte_slice_reader::{decode_vint, lemma_vint_round_trip};

verus! {

/// What the code of one document says: how far the document lies behind
/// the one before it, and how often the term occurs in it.
pub struct DocCode {
    pub delta: nat,
    /// The frequency; 0 when frequencies are not indexed.
    pub freq: nat,
    /// Number of bytes of the code.
    pub len: nat,
}

/// The code of one document at the start of `bytes`; `None` when `bytes`
/// ends inside it. With frequencies, a code with the low bit set stands for
/// a frequency of one, and any other code is followed by the frequency.
pub open spec fn decode_doc_code(bytes: Seq<u8>, has_freq: bool) -> Option<DocCode> {
    match decode_vint(bytes) {
        None => None,
        Some((code, n)) => if !has_freq {
            Some(DocCode { delta: code, freq: 0, len: n })
        } else if code % 2 == 1 {
            Some(DocCode { delta: code / 2, freq: 1, len: n })
        } else {
            match decode_vint(bytes.skip(n as int)) {
                Some((freq, m)) => Some(DocCode { delta: code / 2, freq, len: n + m }),
                None => None,
            }
        },
    }
}

/// What the code of one occurrence says: its position code, and its
/// payload.
pub struct ProxCode {
    pub code: nat,
    pub payload: Seq<u8>,
    /// Number of bytes of the code and the payload.
    pub len: nat,
}

/// The position code, and the payload that follows it, at the start of
/// `bytes`; `None` when `bytes` ends inside them. A code with the low bit
/// set is followed by the length of the payload and the payload.
pub open spec fn decode_prox(bytes: Seq<u8>) -> Option<ProxCode> {
    match decode_vint(bytes) {
        None => None,
        Some((v, n)) => if v % 2 == 0 {
            Some(ProxCode { code: v / 2, payload: Seq::empty(), len: n })
        } else {
            match decode_vint(bytes.skip(n as int)) {
                None => None,
                Some((size, m)) => if n + m + size <= bytes.len() {
                    Some(
                        ProxCode {
                            code: v / 2,
                            payload: bytes.subrange((n + m) as int, (n + m + size) as int),
                            len: n + m + size,
                        },
                    )
                } else {
                    None
                },
            }
        },
    }
}

/// What the offsets of one occurrence say: where it starts and ends.
pub struct OffsetCode {
    pub start: int,
    pub end: int,
    /// Number of bytes of the two numbers.
    pub len: nat,
}

/// The offsets at the start of `bytes`, for an occurrence that follows one
/// that started at `last`; `None` when `bytes` ends inside them.
pub open spec fn decode_offsets(bytes: Seq<u8>, last: int) -> Option<OffsetCode> {
    match decode_vint(bytes) {
        None => None,
        Some((delta, n)) => match decode_vint(bytes.skip(n as int)) {
            None => None,
            Some((length, m)) => Some(
                OffsetCode { start: last + delta, end: last + delta + length, len: n + m },
            ),
        },
    }
}

/// The code that a term leaves in the document stream reads back as the
/// distance and the frequency that it was made of, whatever follows it in
/// the stream.
pub proof fn lemma_doc_code_round_trip(has_freq: bool, state: TermState, rest: Seq<u8>)
    requires
        has_freq ==> state.last_doc_code % 2 == 0 && state.term_freq >= 1,
    ensures
        decode_doc_code(doc_code_bytes(has_freq, state) + rest, has_freq) == Some(
            DocCode {
                delta: if has_freq {
                    (state.last_doc_code / 2) as nat
                } else {
                    state.last_doc_code as nat
                },
                freq: if has_freq {
                    state.term_freq as nat
                } else {
                    0
                },
                len: doc_code_bytes(has_freq, state).len(),
            },
        ),
{
    let code = state.last_doc_code;
    if !has_freq {
        lemma_vint_round_trip(code as nat, rest);
    } else if state.term_freq == 1 {
        assert(code % 2 == 0 ==> (code | 1) == code + 1) by (bit_vector);
        lemma_vint_round_trip((code | 1) as nat, rest);
    } else {
        let first = vint_bytes(code as nat);
        let second = vint_bytes(state.term_freq as nat);
        lemma_vint_round_trip(code as nat, second + rest);
        lemma_vint_round_trip(state.term_freq as nat, rest);
        assert(first + second + rest =~= first + (second + rest));
        assert((first + (second + rest)).skip(first.len() as int) =~= second + rest);
    }
}

/// The code of an occurrence in the position stream reads back as the
/// position code and the payload that it was made of, whatever follows it
/// in the stream.
pub proof fn lemma_prox_round_trip(code: u32, payload: Seq<u8>, rest: Seq<u8>)
    requires
        code <= 0x7fff_ffff,
    ensures
        decode_prox(prox_bytes(code, payload) + rest) == Some(
            ProxCode { code: code as nat, payload, len: prox_bytes(code, payload).len() },
        ),
{
    if payload.len() > 0 {
        let first = vint_bytes((code * 2 + 1) as nat);
        let second = vint_bytes(payload.len());
        let all = first + second + payload + rest;
        lemma_vint_round_trip((code * 2 + 1) as nat, second + payload + rest);
        lemma_vint_round_trip(payload.len(), payload + rest);
        assert(all =~= first + (second + payload + rest));
        assert(all.skip(first.len() as int) =~= second + (payload + rest));
        assert(second + payload + rest =~= second + (payload + rest));
        assert(all.subrange(
            (first.len() + second.len()) as int,
            (first.len() + second.len() + payload.len()) as int,
        ) =~= payload);
    } else {
        lemma_vint_round_trip((code * 2) as nat, rest);
        assert(payload =~= Seq::<u8>::empty());
    }
}

/// The offsets of an occurrence in the position stream read back as the
/// offsets that they were made of, whatever follows them in the stream.
pub proof fn lemma_offsets_round_trip(start: int, end: int, last: int, rest: Seq<u8>)
    requires
        0 <= last <= start <= end,
    ensures
        decode_offsets(offset_bytes(start, end, last) + rest, last) == Some(
            OffsetCode { start, end, len: offset_bytes(start, end, last).len() },
        ),
{
    let first = vint_bytes((start - last) as nat);
    let second = vint_bytes((end - start) as nat);
    lemma_vint_round_trip((start - last) as nat, second + rest);
    lemma_vint_round_trip((end - start) as nat, rest);
    assert(first + second + rest =~= first + (second + rest));
    assert((first + (second + rest)).skip(first.len() as int) =~= second + rest);
}

} // verus!
