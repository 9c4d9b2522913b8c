//! The part that every consumer of terms shares: giving each term its
//! streams, and writing to them.
//!
//! A term has `stream_count` streams. Their write heads lie side by side in
//! the integer arena; their first slices lie side by side in the byte arena.

use vstd::prelude::*;
use crate::error::Error;
use crate::index::field::FieldInfo;
use crate::index::postings_array::{BYTES_PER_POSTING, ParallelPostingsArray, PostingsArray};
use crate::index::terms_hash::TermsHashBase;
use crate::util::byte_block_pool::{
    BYTE_BLOCK_SIZE,
    FIRST_LEVEL_SIZE,
    Headroom,
    SliceChain,
    be32,
};
use crate::util::byte_slice_reader::ByteSliceReader;
use crate::util::bytes_ref_hash::{BytesRefHash, MAX_TERMS};
use crate::util::int_block_pool::INT_BLOCK_SIZE;

verus! {

/// Number of slots of a new term table.
pub const HASH_INIT_SIZE: usize = 4;
/// The first slices of all streams of a term must fit in one block.
pub const MAX_STREAM_COUNT: usize = 6553;

/// The bytes of `v` as a variable-length integer: seven bits per byte, the
/// low ones first, the high bit set on every byte but the last.
pub open spec fn vint_bytes(v: nat) -> Seq<u8>
    decreases v,
{
    if v < 128 {
        seq![v as u8]
    } else {
        seq![(v % 128 + 128) as u8] + vint_bytes(v / 128)
    }
}

/// The 32 bits of `i`, read as an unsigned number.
pub open spec fn unsigned(i: i32) -> nat {
    if i >= 0 {
        i as nat
    } else {
        (i + 0x1_0000_0000) as nat
    }
}

/// Whether `key` is the start of one of `count` first slices that lie in a
/// row from `first` on.
pub open spec fn in_row(first: int, count: int, key: int) -> bool {
    first <= key < first + count * 5 && (key - first) % 5 == 0
}

/// The offset that names a stream of a term in the byte arena, by the
/// columns `pa`.
pub open spec fn stream_key_at(pa: ParallelPostingsArray, term: int, stream: int) -> int {
    pa.byte_starts@[term] as int + stream * FIRST_LEVEL_SIZE
}

/// Where the write head of a stream of a term lies in the integer arena, by
/// the columns `pa`.
pub open spec fn head_slot_at(pa: ParallelPostingsArray, term: int, stream: int) -> int {
    pa.int_starts@[term] as int + stream
}

/// The stream exists, and the integer arena holds its write head.
pub open spec fn stream_ok_at(
    pa: ParallelPostingsArray,
    pools: &TermsHashBase,
    term: int,
    stream: int,
) -> bool {
    &&& pools.byte_pool.streams().contains_key(stream_key_at(pa, term, stream))
    &&& 0 <= head_slot_at(pa, term, stream) < pools.int_pool.ints().len()
    &&& pools.int_pool.ints()[head_slot_at(pa, term, stream)]
        == pools.byte_pool.streams()[stream_key_at(pa, term, stream)].head()
}

/// The count `v` as the counter of bytes holds it: the counter stops at
/// the ends of its range.
pub open spec fn counted(v: int) -> i64 {
    if v > i64::MAX {
        i64::MAX
    } else if v < i64::MIN {
        i64::MIN
    } else {
        v as i64
    }
}

/// The counter of bytes after columns of `per` bytes per term grew by
/// `entries` terms.
pub fn raised(counter: i64, per: usize, entries: usize) -> (r: i64)
    requires
        per <= BYTES_PER_POSTING + 20,
    ensures
        r == counted(counter + per * entries),
{
    proof {
        assert(0 <= per * entries <= 32 * 0x1_0000_0000_0000_0000) by (nonlinear_arith)
            requires
                0 <= per <= 32,
                0 <= entries <= 0xffff_ffff_ffff_ffff,
        ;
    }
    let sum: i128 = counter as i128 + (per as i128) * (entries as i128);
    if sum > i64::MAX as i128 {
        i64::MAX
    } else {
        sum as i64
    }
}

/// The counter of bytes after columns of `per` bytes per term and of
/// `entries` terms were released.
pub fn lowered(counter: i64, per: usize, entries: usize) -> (r: i64)
    requires
        per <= BYTES_PER_POSTING + 20,
    ensures
        r == counted(counter - per * entries),
{
    proof {
        assert(0 <= per * entries <= 32 * 0x1_0000_0000_0000_0000) by (nonlinear_arith)
            requires
                0 <= per <= 32,
                0 <= entries <= 0xffff_ffff_ffff_ffff,
        ;
    }
    let rest: i128 = counter as i128 - (per as i128) * (entries as i128);
    if rest < i64::MIN as i128 {
        i64::MIN
    } else {
        rest as i64
    }
}

/// The bytes of `v` as a variable-length integer.
pub fn encode_vint(v: u32) -> (bytes: Vec<u8>)
    ensures
        bytes@ == vint_bytes(v as nat),
        1 <= bytes@.len() <= 5,
{
    let mut bytes: Vec<u8> = Vec::with_capacity(5);
    let mut rest = v;
    let ghost mut steps: int = 0;
    while rest >= 128
        invariant
            vint_bytes(v as nat) == bytes@ + vint_bytes(rest as nat),
            bytes@.len() == steps,
            0 <= steps <= 4,
            steps == 0 ==> rest <= 0xffff_ffff,
            steps == 1 ==> rest < 0x200_0000,
            steps == 2 ==> rest < 0x4_0000,
            steps == 3 ==> rest < 0x800,
            steps == 4 ==> rest < 0x10,
        decreases rest,
    {
        proof {
            assert(bytes@ + (seq![(rest % 128 + 128) as u8] + vint_bytes((rest / 128) as nat))
                =~= bytes@.push((rest % 128 + 128) as u8) + vint_bytes((rest / 128) as nat));
            steps = steps + 1;
        }
        bytes.push((rest % 128 + 128) as u8);
        rest = rest / 128;
    }
    proof {
        assert(bytes@ + seq![rest as u8] =~= bytes@.push(rest as u8));
    }
    bytes.push(rest as u8);
    bytes
}

/// The 32 bits of `i`, read as an unsigned number.
pub fn to_unsigned(i: i32) -> (v: u32)
    ensures
        v == unsigned(i),
{
    if i >= 0 {
        i as u32
    } else {
        (i as i64 + 0x1_0000_0000) as u32
    }
}

/// What every consumer of terms keeps for one field: the term table, the
/// columns, and where the write heads of the current term are.
pub struct TermsHashPerFieldBase<T: PostingsArray> {
    /// Number of streams per term.
    pub stream_count: usize,
    pub field_info: FieldInfo,
    /// The term table.
    pub bytes_hash: BytesRefHash,
    /// The columns, by term id.
    pub postings_array: T,
    /// Number of terms that have their streams.
    pub num_terms: usize,
    /// Block of the integer arena that holds the current term's write heads.
    pub int_upto_idx: usize,
    /// Position of those write heads in the block.
    pub int_upto_start: usize,
    /// Whether the next consumer of the chain takes part.
    pub do_next_call: bool,
    /// Whether `init` was called.
    pub inited: bool,
    /// The term that the writer stands on; -1 when it stands on none.
    pub term: i32,
    /// Bytes that the columns were counted with: raised when they grow,
    /// lowered when they are released.
    pub bytes_used: i64,
}

impl<T: PostingsArray> TermsHashPerFieldBase<T> {
    /// Number of streams per term.
    pub open spec fn streams(&self) -> int {
        self.stream_count as int
    }

    /// Number of terms that have their streams.
    pub open spec fn terms(&self) -> int {
        self.num_terms as int
    }

    /// The term that the writer stands on; -1 when it stands on none.
    pub open spec fn current(&self) -> int {
        self.term as int
    }

    /// Whether `init` was called.
    pub open spec fn is_inited(&self) -> bool {
        self.inited
    }

    /// Whether the next consumer of the chain takes part.
    pub open spec fn calls_next(&self) -> bool {
        self.do_next_call
    }

    /// The offset that names a stream of a term in the byte arena.
    pub open spec fn stream_key(&self, term: int, stream: int) -> int {
        stream_key_at(self.postings_array.parallel(), term, stream)
    }

    /// Where the write head of a stream of a term lies in the integer arena.
    pub open spec fn head_slot(&self, term: int, stream: int) -> int {
        head_slot_at(self.postings_array.parallel(), term, stream)
    }

    /// The bytes written so far to a stream of a term.
    pub open spec fn stream_bytes(&self, pools: &TermsHashBase, term: int, stream: int) -> Seq<u8> {
        pools.byte_pool.streams()[self.stream_key(term, stream)].data
    }

    /// The byte arena as a stream of the current term sees it.
    pub open spec fn headroom(&self, pools: &TermsHashBase, stream: int) -> Headroom {
        pools.byte_pool.headroom(self.stream_key(self.current(), stream))
    }

    /// The counter of bytes once the columns, of `size` entries before,
    /// are what they are now: raised by what the new entries take.
    pub open spec fn counted_from(&self, bytes_used: i64, size: int) -> i64 {
        if self.postings_array.parallel().size == size {
            bytes_used
        } else {
            counted(
                bytes_used + self.postings_array.posting_bytes() * (
                self.postings_array.parallel().size - size),
            )
        }
    }

    /// Whether the writer's cursor names the write heads of `term`: block
    /// and position in the block make up where the term's run of write
    /// heads starts in the integer arena.
    pub open spec fn stands_on(&self, term: int) -> bool {
        &&& self.int_upto_start < INT_BLOCK_SIZE
        &&& self.int_upto_idx * INT_BLOCK_SIZE + self.int_upto_start
            == self.postings_array.parallel().int_starts@[term]
    }

    /// The writer's invariant with respect to the arenas: every term below
    /// `terms()` has its streams and its write heads, in places of its own.
    pub closed spec fn wf(&self, pools: &TermsHashBase) -> bool {
        let pa = self.postings_array.parallel();
        let sc = self.stream_count as int;
        &&& self.inited
        &&& 1 <= sc <= MAX_STREAM_COUNT
        &&& pools.wf()
        &&& pa.wf()
        &&& self.postings_array.wf()
        &&& self.num_terms <= pa.size
        &&& self.num_terms <= MAX_TERMS
        &&& forall|t: int, s: int|
            0 <= t < self.num_terms && 0 <= s < sc ==> #[trigger] stream_ok_at(pa, pools, t, s)
        &&& forall|t: int|
            0 <= t < self.num_terms ==> #[trigger] pa.int_starts@[t] + sc
                <= pools.int_pool.cursor()
        &&& forall|t1: int, t2: int|
            0 <= t1 < t2 < self.num_terms ==> #[trigger] pa.int_starts@[t1] + sc
                <= #[trigger] pa.int_starts@[t2]
        &&& forall|t1: int, t2: int|
            0 <= t1 < t2 < self.num_terms ==> #[trigger] pa.byte_starts@[t1] + sc * 5
                <= #[trigger] pa.byte_starts@[t2]
        &&& -1 <= self.term < self.num_terms
        &&& self.term >= 0 ==> {
            &&& self.int_upto_start < INT_BLOCK_SIZE
            &&& self.int_upto_idx * INT_BLOCK_SIZE + self.int_upto_start
                == pa.int_starts@[self.term as int]
        }
    }

    /// What the invariant lets every caller know.
    pub proof fn lemma_wf(&self, pools: &TermsHashBase)
        requires
            self.wf(pools),
        ensures
            self.is_inited(),
            pools.wf(),
            self.postings_array.wf(),
            self.postings_array.parallel().wf(),
            1 <= self.streams() <= MAX_STREAM_COUNT,
            -1 <= self.current() < self.terms() <= self.postings_array.parallel().size,
            self.terms() <= MAX_TERMS,
            forall|t: int, s: int|
                0 <= t < self.terms() && 0 <= s < self.streams() ==> #[trigger] stream_ok_at(
                    self.postings_array.parallel(),
                    pools,
                    t,
                    s,
                ),
            forall|t: int|
                0 <= t < self.terms() ==> (#[trigger] self.postings_array.parallel().int_starts@[t])
                    + self.streams() <= pools.int_pool.cursor(),
            self.current() >= 0 ==> self.stands_on(self.current()),
    {
    }

    /// Two streams that are not the same stream of the same term have
    /// different names and different write-head slots.
    pub proof fn lemma_distinct(&self, pools: &TermsHashBase, t1: int, s1: int, t2: int, s2: int)
        requires
            self.wf(pools),
            0 <= t1 < self.terms(),
            0 <= t2 < self.terms(),
            0 <= s1 < self.streams(),
            0 <= s2 < self.streams(),
            t1 != t2 || s1 != s2,
        ensures
            self.stream_key(t1, s1) != self.stream_key(t2, s2),
            self.head_slot(t1, s1) != self.head_slot(t2, s2),
    {
        let pa = self.postings_array.parallel();
        let sc = self.stream_count as int;
        if t1 < t2 {
            assert(pa.int_starts@[t1] + sc <= pa.int_starts@[t2]);
            assert(pa.byte_starts@[t1] + sc * 5 <= pa.byte_starts@[t2]);
        } else if t2 < t1 {
            assert(pa.int_starts@[t2] + sc <= pa.int_starts@[t1]);
            assert(pa.byte_starts@[t2] + sc * 5 <= pa.byte_starts@[t1]);
        }
    }

    /// The invariant reads the arenas only at the writer's own streams and
    /// write heads: it carries over to arenas that agree there.
    pub proof fn lemma_frame(&self, pools: &TermsHashBase, other: &TermsHashBase)
        requires
            self.wf(pools),
            other.wf(),
            pools.int_pool.cursor() <= other.int_pool.cursor(),
            forall|t: int, s: int|
                0 <= t < self.terms() && 0 <= s < self.streams() ==> #[trigger] stream_ok_at(
                    self.postings_array.parallel(),
                    other,
                    t,
                    s,
                ),
        ensures
            self.wf(other),
    {
    }

    /// A writer is not disturbed by what another user of the arenas takes
    /// from them: its invariant carries over to arenas that keep every
    /// stream and every integer below the cursor, as they do when another
    /// writer gives a new term its streams or stores a term.
    pub proof fn lemma_undisturbed(&self, pools: &TermsHashBase, other: &TermsHashBase)
        requires
            self.wf(pools),
            other.wf(),
            pools.int_pool.cursor() <= other.int_pool.cursor(),
            pools.int_pool.ints().len() <= other.int_pool.ints().len(),
            forall|a: int|
                0 <= a < pools.int_pool.cursor() ==> #[trigger] other.int_pool.ints()[a]
                    == pools.int_pool.ints()[a],
            forall|k: int| #[trigger]
                pools.byte_pool.streams().contains_key(k) ==> other.byte_pool.streams().contains_key(
                    k,
                ) && other.byte_pool.streams()[k] == pools.byte_pool.streams()[k],
        ensures
            self.wf(other),
    {
        let pa = self.postings_array.parallel();
        assert forall|t: int, s: int|
            0 <= t < self.terms() && 0 <= s < self.streams() implies #[trigger] stream_ok_at(
            pa,
            other,
            t,
            s,
        ) by {
            assert(stream_ok_at(pa, pools, t, s));
            assert(pa.int_starts@[t] + self.streams() <= pools.int_pool.cursor());
            assert(pools.byte_pool.streams().contains_key(stream_key_at(pa, t, s)));
        }
        self.lemma_frame(pools, other);
    }

    /// The invariant reads, of the columns, only where the write heads and
    /// the streams are: it carries over to a writer that agrees with
    /// `before` there.
    pub proof fn lemma_rebuild(&self, before: &Self, pools: &TermsHashBase)
        requires
            before.wf(pools),
            self.postings_array.parallel().size == before.postings_array.parallel().size,
            self.postings_array.parallel().int_starts == before.postings_array.parallel().int_starts,
            self.postings_array.parallel().byte_starts
                == before.postings_array.parallel().byte_starts,
            self.postings_array.parallel().wf(),
            self.postings_array.wf(),
            self.stream_count == before.stream_count,
            self.num_terms == before.num_terms,
            self.int_upto_idx == before.int_upto_idx,
            self.int_upto_start == before.int_upto_start,
            self.inited == before.inited,
            self.term == before.term,
        ensures
            self.wf(pools),
    {
        let pa = self.postings_array.parallel();
        let pa0 = before.postings_array.parallel();
        assert forall|t: int, s: int|
            0 <= t < self.num_terms && 0 <= s < self.stream_count implies #[trigger] stream_ok_at(
            pa,
            pools,
            t,
            s,
        ) by {
            assert(stream_ok_at(pa0, pools, t, s));
        }
    }

    /// The invariant does not read the term table.
    pub proof fn lemma_other_table(&self, pools: &TermsHashBase)
        requires
            self.inited,
            1 <= self.stream_count <= MAX_STREAM_COUNT,
            self.num_terms == 0,
            self.term == -1,
            self.postings_array.wf(),
            self.postings_array.parallel().wf(),
            pools.wf(),
        ensures
            self.wf(pools),
    {
    }

    /// A writer for terms with `stream_count` streams each. The writer is
    /// ready for use after `init`.
    pub fn new(stream_count: usize, field_info: FieldInfo, postings_array: T) -> (writer: Self)
        ensures
            writer.streams() == stream_count,
            writer.terms() == 0,
            writer.current() == -1,
            !writer.is_inited(),
            !writer.calls_next(),
            writer.field_info == field_info,
            writer.postings_array == postings_array,
            writer.bytes_used == 0,
            writer.bytes_hash.count() == 0,
            forall|pool: &crate::util::byte_block_pool::ByteBlockPool|
                pool.wf() ==> #[trigger] writer.bytes_hash.wf(pool),
    {
        TermsHashPerFieldBase {
            stream_count,
            field_info,
            bytes_hash: BytesRefHash::new(HASH_INIT_SIZE),
            postings_array,
            num_terms: 0,
            int_upto_idx: 0,
            int_upto_start: 0,
            do_next_call: false,
            inited: false,
            term: -1,
            bytes_used: 0,
        }
    }

    /// Gives the writer an empty term table and makes it ready for use.
    pub fn init(&mut self)
        requires
            1 <= old(self).streams() <= MAX_STREAM_COUNT,
            old(self).postings_array.wf(),
            old(self).postings_array.parallel().wf(),
        ensures
            final(self).is_inited(),
            final(self).streams() == old(self).streams(),
            final(self).terms() == 0,
            final(self).current() == -1,
            final(self).calls_next() == old(self).calls_next(),
            final(self).int_upto_idx == old(self).int_upto_idx,
            final(self).int_upto_start == old(self).int_upto_start,
            final(self).field_info == old(self).field_info,
            final(self).postings_array == old(self).postings_array,
            final(self).bytes_used == old(self).bytes_used,
            final(self).bytes_hash.count() == 0,
            forall|pool: &crate::util::byte_block_pool::ByteBlockPool|
                pool.wf() ==> #[trigger] final(self).bytes_hash.wf(pool),
            forall|pools: &TermsHashBase| pools.wf() ==> #[trigger] final(self).wf(pools),
    {
        self.bytes_hash = BytesRefHash::new(HASH_INIT_SIZE);
        self.num_terms = 0;
        self.term = -1;
        self.inited = true;
    }

    /// Number of streams per term.
    pub fn stream_count(&self) -> (n: usize)
        ensures
            n == self.streams(),
    {
        self.stream_count
    }

    /// Number of terms that have their streams.
    pub fn num_terms(&self) -> (n: usize)
        ensures
            n == self.terms(),
    {
        self.num_terms
    }

    /// The term that the writer stands on.
    pub fn current_term(&self) -> (t: usize)
        requires
            0 <= self.current(),
        ensures
            t == self.current(),
    {
        self.term as usize
    }

    /// Whether the next consumer of the chain takes part.
    pub fn do_next_call(&self) -> (b: bool)
        ensures
            b == self.calls_next(),
    {
        self.do_next_call
    }

    /// Tells the writer whether the next consumer of the chain takes part.
    pub fn set_do_next_call(&mut self, value: bool)
        ensures
            final(self).calls_next() == value,
            final(self).streams() == old(self).streams(),
            final(self).terms() == old(self).terms(),
            final(self).current() == old(self).current(),
            final(self).is_inited() == old(self).is_inited(),
            final(self).field_info == old(self).field_info,
            final(self).postings_array == old(self).postings_array,
            final(self).bytes_hash == old(self).bytes_hash,
            final(self).bytes_used == old(self).bytes_used,
            forall|pools: &TermsHashBase| old(self).wf(pools) ==> #[trigger] final(self).wf(pools),
    {
        self.do_next_call = value;
    }

    /// Writes one byte to a stream of the current term. When the slice that
    /// is being written is full, the stream first moves on to a new slice,
    /// which lies where the arena puts its next region of that size: the
    /// last four bytes of the full slice then hold the offset of the new
    /// one, and the byte lies behind the three bytes that moved there. With
    /// room in the slice, the byte under the write head is the only byte of
    /// the arena that changes. Either way the write head moves forward.
    pub fn write_byte(&self, pools: &mut TermsHashBase, stream: usize, b: u8) -> (r: Result<
        (),
        Error,
    >)
        requires
            self.wf(old(pools)),
            self.current() >= 0,
            stream < self.streams(),
        ensures
            self.wf(final(pools)),
            old(pools).extended(
                final(pools),
                self.stream_key(self.current(), stream as int),
                self.stream_key(self.current(), stream as int),
            ),
            match r {
                Ok(()) => {
                    &&& self.headroom(old(pools), stream as int).can_push()
                    &&& self.headroom(final(pools), stream as int) == self.headroom(
                        old(pools),
                        stream as int,
                    ).push()
                    &&& old(pools).wrote(
                        final(pools),
                        self.stream_key(self.current(), stream as int),
                        self.head_slot(self.current(), stream as int),
                        seq![b],
                    )
                    &&& final(pools).byte_pool.streams()[self.stream_key(
                        self.current(),
                        stream as int,
                    )] == old(pools).byte_pool.streams()[self.stream_key(
                        self.current(),
                        stream as int,
                    )].put(
                        old(pools).byte_pool.next_start(
                            self.headroom(old(pools), stream as int).next_size(),
                        ),
                        b,
                    )
                    &&& self.headroom(old(pools), stream as int).has_space()
                        ==> final(pools).byte_pool.bytes() == old(pools).byte_pool.bytes().update(
                        old(pools).byte_pool.streams()[self.stream_key(
                            self.current(),
                            stream as int,
                        )].head(),
                        b,
                    )
                    &&& !self.headroom(old(pools), stream as int).has_space() ==> {
                        let start = old(pools).byte_pool.next_start(
                            self.headroom(old(pools), stream as int).next_size(),
                        );
                        let head = old(pools).byte_pool.streams()[self.stream_key(
                            self.current(),
                            stream as int,
                        )].head();
                        &&& be32(final(pools).byte_pool.bytes(), head - 3) == start
                        &&& final(pools).byte_pool.bytes()[start + 3] == b
                        &&& 0 <= start
                        &&& start + self.headroom(old(pools), stream as int).next_size()
                            <= final(pools).byte_pool.bytes().len()
                    }
                    &&& final(pools).byte_pool.streams()[self.stream_key(
                        self.current(),
                        stream as int,
                    )].head() > old(pools).byte_pool.streams()[self.stream_key(
                        self.current(),
                        stream as int,
                    )].head()
                },
                Err(e) => {
                    &&& e == Error::PoolExhausted
                    &&& !self.headroom(old(pools), stream as int).can_push()
                    &&& *final(pools) == *old(pools)
                },
            },
    {
        let ghost pa = self.postings_array.parallel();
        let ghost cur = self.term as int;
        let ghost key = stream_key_at(pa, cur, stream as int);
        let ghost chain = pools.byte_pool.streams()[key];
        proof {
            assert(stream_ok_at(pa, pools, cur, stream as int));
            pools.byte_pool.lemma_stream(key);
            pools.int_pool.lemma_bounds();
        }
        let slot = self.int_upto_idx * INT_BLOCK_SIZE + self.int_upto_start + stream;
        let mut head = pools.int_pool.get(slot) as usize;
        if pools.byte_pool.byte(head) != 0 {
            head = match pools.byte_pool.alloc_slice(head / BYTE_BLOCK_SIZE, head % BYTE_BLOCK_SIZE) {
                Ok(h) => h,
                Err(e) => {
                    proof {
                        pools.lemma_extended_by_nothing(key, key);
                    }
                    return Err(e);
                },
            };
            proof {
                let n = chain.count();
                assert(crate::util::byte_block_pool::chain_capacity(n as nat)
                    == crate::util::byte_block_pool::chain_capacity((n - 1) as nat)
                    + crate::util::byte_block_pool::chain_slice_size(n - 1) - 4);
                pools.byte_pool.lemma_stream(key);
            }
        }
        pools.byte_pool.write_byte(head, b);
        proof {
            pools.byte_pool.lemma_stream(key);
        }
        pools.int_pool.set(slot, (head + 1) as i32);
        proof {
            assert(pools.byte_pool.streams().dom() =~= old(pools).byte_pool.streams().dom());
            assert(pools.byte_pool.streams()[key].data =~= chain.data + seq![b]);
            assert forall|t: int, s: int|
                0 <= t < self.num_terms && 0 <= s < self.stream_count implies #[trigger] stream_ok_at(
                pa,
                pools,
                t,
                s,
            ) by {
                assert(stream_ok_at(pa, old(pools), t, s));
                if t != cur || s != stream {
                    self.lemma_distinct(old(pools), t, s, cur, stream as int);
                }
            }
            old(pools).lemma_wrote_extended(
                pools,
                key,
                head_slot_at(pa, cur, stream as int),
                seq![b],
                key,
                key,
            );
            old(pools).byte_pool.lemma_head_moves(&pools.byte_pool, key, seq![b]);
            if chain.is_full() {
                let n = chain.count();
                pools.byte_pool.lemma_stream(key);
                pools.byte_pool.lemma_stream_forward(key, n - 1);
                pools.byte_pool.lemma_stream_data(key, n, 3);
                assert(pools.byte_pool.streams()[key].slices[n] + crate::util::byte_block_pool::chain_slice_size(n)
                    <= pools.byte_pool.cursor());
            }
        }
        Ok(())
    }

    /// Writes `data` to a stream of the current term, byte by byte, as far
    /// as the arena has room: when it fails, the stream has taken as many
    /// bytes of `data` as the arena had room for, and no more. Without data
    /// nothing changes; with data the write head moves forward.
    pub fn write_bytes(&self, pools: &mut TermsHashBase, stream: usize, data: &[u8]) -> (r: Result<
        (),
        Error,
    >)
        requires
            self.wf(old(pools)),
            self.current() >= 0,
            stream < self.streams(),
        ensures
            self.wf(final(pools)),
            old(pools).extended(
                final(pools),
                self.stream_key(self.current(), stream as int),
                self.stream_key(self.current(), stream as int),
            ),
            r is Ok <==> self.headroom(old(pools), stream as int).accepts(data@.len()),
            match r {
                Ok(()) => {
                    &&& self.headroom(final(pools), stream as int) == self.headroom(
                        old(pools),
                        stream as int,
                    ).push_n(data@.len())
                    &&& old(pools).wrote(
                        final(pools),
                        self.stream_key(self.current(), stream as int),
                        self.head_slot(self.current(), stream as int),
                        data@,
                    )
                    &&& data@.len() == 0 ==> *final(pools) == *old(pools)
                    &&& data@.len() > 0 ==> final(pools).byte_pool.streams()[self.stream_key(
                        self.current(),
                        stream as int,
                    )].head() > old(pools).byte_pool.streams()[self.stream_key(
                        self.current(),
                        stream as int,
                    )].head()
                },
                Err(e) => {
                    &&& e == Error::PoolExhausted
                    &&& old(pools).wrote_part(
                        final(pools),
                        self.stream_key(self.current(), stream as int),
                        self.head_slot(self.current(), stream as int),
                        data@,
                    )
                },
            },
    {
        let ghost key = self.stream_key(self.current(), stream as int);
        let ghost slot = self.head_slot(self.current(), stream as int);
        let ghost room = self.headroom(pools, stream as int);
        let mut i: usize = 0;
        proof {
            assert(pools.byte_pool.streams()[key].data + data@.take(0) =~= pools.byte_pool.streams()[key].data);
            self.lemma_wf(pools);
            assert(stream_ok_at(self.postings_array.parallel(), pools, self.current(), stream as int));
            assert(pools.int_pool.ints() =~= pools.int_pool.ints().update(
                slot,
                pools.byte_pool.streams()[key].head() as i32,
            ));
        }
        while i < data.len()
            invariant
                0 <= i <= data@.len(),
                self.wf(pools),
                self.current() >= 0,
                stream < self.streams(),
                key == self.stream_key(self.current(), stream as int),
                slot == self.head_slot(self.current(), stream as int),
                room == self.headroom(old(pools), stream as int),
                room.accepts(i as nat),
                0 <= slot < old(pools).int_pool.ints().len(),
                old(pools).byte_pool.streams().contains_key(key),
                self.headroom(pools, stream as int) == room.push_n(i as nat),
                old(pools).wrote(pools, key, slot, data@.take(i as int)),
            decreases data@.len() - i,
        {
            let ghost before = *pools;
            match self.write_byte(pools, stream, data[i]) {
                Ok(()) => {},
                Err(e) => {
                    proof {
                        room.lemma_split(i as nat, (data@.len() - i) as nat);
                        assert(room.stops_at(i as int));
                        old(pools).lemma_wrote_extended(
                            pools,
                            key,
                            slot,
                            data@.take(i as int),
                            key,
                            key,
                        );
                    }
                    return Err(e);
                },
            }
            proof {
                assert(stream_ok_at(
                    self.postings_array.parallel(),
                    &before,
                    self.current(),
                    stream as int,
                ));
                assert(before.int_pool.ints().len() == old(pools).int_pool.ints().len());
                room.lemma_split(i as nat, 1);
                assert(room.push_n(i as nat).accepts(1)) by {
                    assert(room.push_n(i as nat).push().accepts(0));
                }
                assert(room.push_n(i as nat).push_n(1) == room.push_n(i as nat).push()) by {
                    assert(room.push_n(i as nat).push().push_n(0) == room.push_n(i as nat).push());
                }
                assert(data@.take(i + 1) =~= data@.take(i as int) + seq![data@[i as int]]);
                assert(pools.byte_pool.streams()[key].data =~= old(pools).byte_pool.streams()[key].data
                    + data@.take(i + 1));
                assert(pools.int_pool.ints() =~= old(pools).int_pool.ints().update(
                    slot,
                    pools.byte_pool.streams()[key].head() as i32,
                ));
            }
            i += 1;
        }
        proof {
            assert(data@.take(data@.len() as int) =~= data@);
            old(pools).lemma_wrote_extended(pools, key, slot, data@, key, key);
            self.lemma_wf(old(pools));
            self.lemma_wf(pools);
            old(pools).byte_pool.lemma_head_moves(&pools.byte_pool, key, data@);
        }
        Ok(())
    }

    /// Writes `i` to a stream of the current term as a variable-length
    /// integer, as far as the arena has room. The write head moves forward.
    pub fn write_vint(&self, pools: &mut TermsHashBase, stream: usize, i: i32) -> (r: Result<
        (),
        Error,
    >)
        requires
            self.wf(old(pools)),
            self.current() >= 0,
            stream < self.streams(),
        ensures
            self.wf(final(pools)),
            old(pools).extended(
                final(pools),
                self.stream_key(self.current(), stream as int),
                self.stream_key(self.current(), stream as int),
            ),
            r is Ok <==> self.headroom(old(pools), stream as int).accepts(
                vint_bytes(unsigned(i)).len(),
            ),
            match r {
                Ok(()) => {
                    &&& self.headroom(final(pools), stream as int) == self.headroom(
                        old(pools),
                        stream as int,
                    ).push_n(vint_bytes(unsigned(i)).len())
                    &&& old(pools).wrote(
                        final(pools),
                        self.stream_key(self.current(), stream as int),
                        self.head_slot(self.current(), stream as int),
                        vint_bytes(unsigned(i)),
                    )
                    &&& final(pools).byte_pool.streams()[self.stream_key(
                        self.current(),
                        stream as int,
                    )].head() > old(pools).byte_pool.streams()[self.stream_key(
                        self.current(),
                        stream as int,
                    )].head()
                },
                Err(e) => {
                    &&& e == Error::PoolExhausted
                    &&& old(pools).wrote_part(
                        final(pools),
                        self.stream_key(self.current(), stream as int),
                        self.head_slot(self.current(), stream as int),
                        vint_bytes(unsigned(i)),
                    )
                },
            },
    {
        let bytes = encode_vint(to_unsigned(i));
        self.write_bytes(pools, stream, bytes.as_slice())
    }

    /// Whether the arenas can take the streams of one more term.
    pub open spec fn can_add_streams(&self, pools: &TermsHashBase) -> bool {
        &&& pools.int_pool.can_allocate(self.streams())
        &&& pools.byte_pool.can_allocate(self.streams() * FIRST_LEVEL_SIZE)
    }

    /// Whether the arenas can take the streams of one more term.
    pub fn has_room_for_streams(&self, pools: &TermsHashBase) -> (ok: bool)
        requires
            self.wf(pools),
        ensures
            ok == self.can_add_streams(pools),
    {
        proof {
            pools.int_pool.lemma_bounds();
            pools.byte_pool.lemma_geometry();
        }
        let sc = self.stream_count;
        !(pools.int_pool.int_upto() + sc > INT_BLOCK_SIZE && pools.int_pool.buffer_count()
            >= pools.int_pool.max_buffers()) && !(pools.byte_pool.byte_upto() + sc
            * FIRST_LEVEL_SIZE > BYTE_BLOCK_SIZE && pools.byte_pool.buffer_count()
            >= pools.byte_pool.max_buffers())
    }

    /// Whether `key` names one of the streams that start in a row at `first`.
    pub open spec fn is_new_key(&self, first: int, key: int) -> bool {
        in_row(first, self.streams(), key)
    }

    /// Makes sure that the columns have an entry for `term_id`. When the
    /// columns grow for it, the counter of bytes is raised by what the new
    /// entries take.
    pub fn reserve_term(&mut self, term_id: usize)
        requires
            old(self).postings_array.wf(),
            old(self).postings_array.parallel().wf(),
            term_id <= old(self).postings_array.parallel().size,
            term_id < MAX_TERMS,
        ensures
            final(self).postings_array.wf(),
            final(self).postings_array.parallel().wf(),
            term_id < final(self).postings_array.parallel().size,
            term_id < old(self).postings_array.parallel().size ==> *final(self) == *old(self),
            term_id >= old(self).postings_array.parallel().size ==> {
                &&& final(self).postings_array.grown_from(&old(self).postings_array)
                &&& final(self).postings_array.parallel().grown_from(
                    &old(self).postings_array.parallel(),
                )
            },
            final(self).postings_array.posting_bytes() == old(self).postings_array.posting_bytes(),
            final(self).bytes_used == counted(
                old(self).bytes_used + old(self).postings_array.posting_bytes() * (
                final(self).postings_array.parallel().size - old(self).postings_array.parallel().size),
            ),
            final(self).bytes_used == final(self).counted_from(
                old(self).bytes_used,
                old(self).postings_array.parallel().size as int,
            ),
            final(self).stream_count == old(self).stream_count,
            final(self).field_info == old(self).field_info,
            final(self).bytes_hash == old(self).bytes_hash,
            final(self).num_terms == old(self).num_terms,
            final(self).int_upto_idx == old(self).int_upto_idx,
            final(self).int_upto_start == old(self).int_upto_start,
            final(self).do_next_call == old(self).do_next_call,
            final(self).inited == old(self).inited,
            final(self).term == old(self).term,
            forall|pools: &TermsHashBase| old(self).wf(pools) ==> #[trigger] final(self).wf(pools),
    {
        let size = self.postings_array.parallel_array().size;
        if term_id >= size {
            self.postings_array.grow();
            self.bytes_used = raised(
                self.bytes_used,
                self.postings_array.bytes_per_posting(),
                self.postings_array.parallel_array().size - size,
            );
            proof {
                let pa0 = old(self).postings_array.parallel();
                let pa = self.postings_array.parallel();
                assert forall|pools: &TermsHashBase| old(self).wf(pools) implies #[trigger] self.wf(
                    pools,
                ) by {
                    assert forall|t: int, s: int|
                        0 <= t < self.num_terms && 0 <= s < self.stream_count implies #[trigger] stream_ok_at(
                        pa,
                        pools,
                        t,
                        s,
                    ) by {
                        assert(stream_ok_at(pa0, pools, t, s));
                    }
                    assert forall|t: int| 0 <= t < self.num_terms implies #[trigger] pa.int_starts@[t]
                        + self.stream_count <= pools.int_pool.cursor() by {
                        assert(pa0.int_starts@[t] + self.stream_count <= pools.int_pool.cursor());
                    }
                    assert forall|t1: int, t2: int|
                        0 <= t1 < t2 < self.num_terms implies #[trigger] pa.int_starts@[t1]
                        + self.stream_count <= #[trigger] pa.int_starts@[t2] by {
                        assert(pa0.int_starts@[t1] + self.stream_count <= pa0.int_starts@[t2]);
                    }
                    assert forall|t1: int, t2: int|
                        0 <= t1 < t2 < self.num_terms implies #[trigger] pa.byte_starts@[t1]
                        + self.stream_count * 5 <= #[trigger] pa.byte_starts@[t2] by {
                        assert(pa0.byte_starts@[t1] + self.stream_count * 5
                            <= pa0.byte_starts@[t2]);
                    }
                }
            }
        }
    }

    /// Moves the writer to a term. For a new term, `term_id` is its id: the
    /// term gets its streams, each with an empty first slice, and its write
    /// heads. The write heads take a run of `stream_count` integers of the
    /// integer arena, in the last block when they fit there and at the
    /// start of a new block when they do not; no other integer changes.
    /// For a known term, `term_id` is `-(id + 1)`: the writer moves, and
    /// nothing else changes.
    pub fn add(&mut self, pools: &mut TermsHashBase, term_id: i32) -> (r: Result<(), Error>)
        requires
            old(self).wf(old(pools)),
            term_id >= 0 ==> term_id == old(self).terms() && term_id < old(self).postings_array.parallel().size && term_id < MAX_TERMS,
            term_id < 0 ==> -(term_id + 1) < old(self).terms(),
        ensures
            final(self).wf(final(pools)),
            final(self).stream_count == old(self).stream_count,
            final(self).inited == old(self).inited,
            final(self).field_info == old(self).field_info,
            final(self).bytes_hash == old(self).bytes_hash,
            final(self).do_next_call == old(self).do_next_call,
            final(self).bytes_used == old(self).bytes_used,
            r is Ok ==> final(self).stands_on(final(self).current()),
            term_id < 0 ==> {
                &&& r is Ok
                &&& *final(pools) == *old(pools)
                &&& final(self).current() == -(term_id + 1)
                &&& final(self).terms() == old(self).terms()
                &&& final(self).postings_array == old(self).postings_array
            },
            term_id >= 0 ==> match r {
                Ok(()) => {
                    let first = old(pools).byte_pool.next_start(
                        old(self).streams() * FIRST_LEVEL_SIZE,
                    );
                    let heads = old(pools).int_pool.next_start(old(self).streams());
                    let before = old(self).postings_array.parallel();
                    let after = final(self).postings_array.parallel();
                    &&& old(self).can_add_streams(old(pools))
                    &&& old(pools).int_pool.took(
                        &final(pools).int_pool,
                        old(self).streams(),
                    )
                    &&& final(self).int_upto_idx * INT_BLOCK_SIZE + final(self).int_upto_start
                        == heads
                    &&& forall|a: int|
                        0 <= a < final(pools).int_pool.ints().len() ==> #[trigger] final(pools).int_pool.ints()[a]
                            == (if heads <= a < heads + old(self).streams() {
                            (first + (a - heads) * FIRST_LEVEL_SIZE) as i32
                        } else if a < old(pools).int_pool.ints().len() {
                            old(pools).int_pool.ints()[a]
                        } else {
                            0i32
                        })
                    &&& final(self).terms() == old(self).terms() + 1
                    &&& final(self).current() == term_id
                    &&& final(self).postings_array.same_own_columns(&old(self).postings_array)
                    &&& after.size == before.size
                    &&& after.text_starts == before.text_starts
                    &&& after.int_starts@ == before.int_starts@.update(
                        term_id as int,
                        old(pools).int_pool.next_start(old(self).streams()) as u32,
                    )
                    &&& after.byte_starts@ == before.byte_starts@.update(
                        term_id as int,
                        first as u32,
                    )
                    &&& final(pools).byte_pool.terms() == old(pools).byte_pool.terms()
                    &&& old(pools).byte_pool.allocated(
                        &final(pools).byte_pool,
                        old(self).streams() * FIRST_LEVEL_SIZE,
                        old(self).streams() * FIRST_LEVEL_SIZE,
                    )
                    &&& forall|k: int| #[trigger]
                        old(pools).byte_pool.streams().contains_key(k) ==> !old(self).is_new_key(
                            first,
                            k,
                        ) && final(pools).byte_pool.streams().contains_key(k)
                            && final(pools).byte_pool.streams()[k]
                            == old(pools).byte_pool.streams()[k]
                    &&& forall|k: int| #[trigger]
                        old(self).is_new_key(first, k) ==> final(pools).byte_pool.streams().contains_key(k)
                            && final(pools).byte_pool.streams()[k] == SliceChain::fresh(k)
                    &&& forall|k: int| #[trigger]
                        final(pools).byte_pool.streams().contains_key(k) ==> old(pools).byte_pool.streams().contains_key(k) || old(self).is_new_key(first, k)
                },
                Err(e) => {
                    &&& e == Error::PoolExhausted
                    &&& !old(self).can_add_streams(old(pools))
                    &&& *final(self) == *old(self)
                    &&& *final(pools) == *old(pools)
                },
            },
    {
        let ghost pa0 = self.postings_array.parallel();
        proof {
            pools.int_pool.lemma_bounds();
            pools.byte_pool.lemma_geometry();
        }
        if term_id < 0 {
            let id = (-(term_id + 1)) as usize;
            let int_start = self.postings_array.parallel_array().int_starts[id] as usize;
            self.int_upto_idx = int_start / INT_BLOCK_SIZE;
            self.int_upto_start = int_start % INT_BLOCK_SIZE;
            self.term = id as i32;
            return Ok(());
        }
        let id = term_id as usize;
        let sc = self.stream_count;
        if pools.int_pool.int_upto() + sc > INT_BLOCK_SIZE && pools.int_pool.buffer_count()
            >= pools.int_pool.max_buffers() {
            return Err(Error::PoolExhausted);
        }
        if pools.byte_pool.byte_upto() + sc * FIRST_LEVEL_SIZE > BYTE_BLOCK_SIZE
            && pools.byte_pool.buffer_count() >= pools.byte_pool.max_buffers() {
            return Err(Error::PoolExhausted);
        }
        let int_start = match pools.int_pool.reserve(sc) {
            Ok(start) => start,
            Err(e) => {
                return Err(e);
            },
        };
        if pools.byte_pool.byte_upto() + sc * FIRST_LEVEL_SIZE > BYTE_BLOCK_SIZE {
            match pools.byte_pool.next_buffer() {
                Ok(()) => {},
                Err(e) => {
                    proof {
                        assert(false);
                    }
                    return Err(e);
                },
            }
        }
        let ghost mid = *pools;
        let ghost first = mid.byte_pool.cursor();
        let ghost base_upto = mid.byte_pool.upto();
        proof {
            mid.int_pool.lemma_bounds();
            mid.byte_pool.lemma_geometry();
            mid.byte_pool.lemma_streams_below_cursor();
            assert(first == old(pools).byte_pool.next_start(sc * 5));
        }
        let mut first_start: usize = 0;
        let mut i: usize = 0;
        while i < sc
            invariant
                0 <= i <= sc,
                1 <= sc <= MAX_STREAM_COUNT,
                sc == self.stream_count,
                pools.wf(),
                pools.byte_pool.num_buffers() == mid.byte_pool.num_buffers(),
                pools.byte_pool.upto() == base_upto + i * 5,
                base_upto + sc * 5 <= BYTE_BLOCK_SIZE,
                pools.byte_pool.cursor() == first + i * 5,
                pools.byte_pool.terms() == mid.byte_pool.terms(),
                first == mid.byte_pool.cursor(),
                i > 0 ==> first_start == first,
                forall|k: int| #[trigger]
                    mid.byte_pool.streams().contains_key(k) ==> k < first
                        && pools.byte_pool.streams().contains_key(k) && pools.byte_pool.streams()[k]
                        == mid.byte_pool.streams()[k],
                forall|k: int| #[trigger]
                    in_row(first, i as int, k) ==> pools.byte_pool.streams().contains_key(k)
                        && pools.byte_pool.streams()[k] == SliceChain::fresh(k),
                forall|k: int| #[trigger]
                    pools.byte_pool.streams().contains_key(k) ==> mid.byte_pool.streams().contains_key(
                        k,
                    ) || in_row(first, i as int, k),
                pools.int_pool.upto() == mid.int_pool.upto(),
                pools.int_pool.num_buffers() == mid.int_pool.num_buffers(),
                pools.int_pool.limit() == mid.int_pool.limit(),
                pools.byte_pool.limit() == mid.byte_pool.limit(),
                pools.int_pool.ints().len() == mid.int_pool.ints().len(),
                int_start + sc == mid.int_pool.cursor(),
                mid.int_pool.cursor() <= mid.int_pool.ints().len(),
                forall|a: int|
                    0 <= a < mid.int_pool.ints().len() && !(int_start <= a < int_start + i)
                        ==> #[trigger] pools.int_pool.ints()[a] == mid.int_pool.ints()[a],
                forall|j: int|
                    0 <= j < i ==> #[trigger] pools.int_pool.ints()[int_start + j] == first + j * 5,
            decreases sc - i,
        {
            let ghost before = *pools;
            let offset = match pools.byte_pool.new_slice(FIRST_LEVEL_SIZE) {
                Ok(o) => o,
                Err(e) => {
                    proof {
                        assert(false);
                    }
                    return Err(e);
                },
            };
            proof {
                pools.byte_pool.lemma_stream(offset as int);
                pools.int_pool.lemma_bounds();
            }
            pools.int_pool.set(int_start + i, offset as i32);
            if i == 0 {
                first_start = offset;
            }
            proof {
                assert forall|j: int| 0 <= j < i + 1 implies #[trigger] pools.int_pool.ints()[int_start
                    + j] == first + j * 5 by {
                    if j < i {
                        assert(before.int_pool.ints()[int_start + j] == first + j * 5);
                    }
                }
                assert forall|k: int| #[trigger] in_row(first, i + 1, k) implies pools.byte_pool.streams().contains_key(
                    k,
                ) && pools.byte_pool.streams()[k] == SliceChain::fresh(k) by {
                    if in_row(first, i as int, k) {
                        assert(before.byte_pool.streams().contains_key(k));
                        assert(k != offset);
                    } else {
                        assert(k == offset);
                    }
                }
                assert forall|k: int| #[trigger]
                    pools.byte_pool.streams().contains_key(
                        k,
                    ) implies mid.byte_pool.streams().contains_key(k) || in_row(first, i + 1, k) by {
                    if k != offset {
                        assert(before.byte_pool.streams().contains_key(k));
                        if !mid.byte_pool.streams().contains_key(k) {
                            assert(in_row(first, i as int, k));
                        }
                    } else {
                        assert((offset - first) % 5 == 0);
                    }
                }
            }
            i += 1;
        }
        let p = self.postings_array.parallel_array_mut();
        p.int_starts[id] = int_start as u32;
        p.byte_starts[id] = first_start as u32;
        self.int_upto_idx = int_start / INT_BLOCK_SIZE;
        self.int_upto_start = int_start % INT_BLOCK_SIZE;
        self.num_terms = self.num_terms + 1;
        self.term = id as i32;
        proof {
            let pa = self.postings_array.parallel();
            assert forall|t: int, s: int|
                0 <= t < self.num_terms && 0 <= s < sc implies #[trigger] stream_ok_at(
                pa,
                pools,
                t,
                s,
            ) by {
                if t < id {
                    assert(stream_ok_at(pa0, old(pools), t, s));
                    assert(pa0.int_starts@[t] + sc <= old(pools).int_pool.cursor());
                    let k = stream_key_at(pa0, t, s);
                    assert(mid.byte_pool.streams().contains_key(k));
                    assert(pools.byte_pool.streams().contains_key(k));
                    assert(pools.int_pool.ints()[head_slot_at(pa0, t, s)]
                        == old(pools).int_pool.ints()[head_slot_at(pa0, t, s)]);
                } else {
                    let k = first + s * 5;
                    assert((s * 5) % 5 == 0);
                    assert(in_row(first, sc as int, k));
                    assert(pools.byte_pool.streams().contains_key(k));
                    assert(pools.int_pool.ints()[int_start + s] == first + s * 5);
                    assert(crate::util::byte_block_pool::chain_capacity(0) == 0);
                }
            }
            assert forall|t: int| 0 <= t < self.num_terms implies #[trigger] pa.int_starts@[t]
                + sc <= pools.int_pool.cursor() by {
                if t < id {
                    assert(pa0.int_starts@[t] + sc <= old(pools).int_pool.cursor());
                }
            }
            assert forall|t1: int, t2: int|
                0 <= t1 < t2 < self.num_terms implies #[trigger] pa.int_starts@[t1] + sc
                <= #[trigger] pa.int_starts@[t2] by {
                if t2 < id {
                    assert(pa0.int_starts@[t1] + sc <= pa0.int_starts@[t2]);
                } else {
                    assert(pa0.int_starts@[t1] + sc <= old(pools).int_pool.cursor());
                }
            }
            assert forall|t1: int, t2: int|
                0 <= t1 < t2 < self.num_terms implies #[trigger] pa.byte_starts@[t1] + sc * 5
                <= #[trigger] pa.byte_starts@[t2] by {
                if t2 < id {
                    assert(pa0.byte_starts@[t1] + sc * 5 <= pa0.byte_starts@[t2]);
                } else {
                    assert(stream_ok_at(pa0, old(pools), t1, sc - 1));
                    let k = stream_key_at(pa0, t1, sc - 1);
                    assert(mid.byte_pool.streams().contains_key(k));
                    assert(k + 5 <= first);
                }
            }
            assert forall|k: int| old(pools).byte_pool.streams().contains_key(k) implies !old(self).is_new_key(first, k) by {
                assert(mid.byte_pool.streams().contains_key(k));
            }
            pools.int_pool.lemma_bounds();
            assert(old(pools).int_pool.took(&mid.int_pool, sc as int));
            assert(old(pools).int_pool.took(&pools.int_pool, sc as int));
            assert forall|a: int| 0 <= a < pools.int_pool.ints().len() implies #[trigger] pools.int_pool.ints()[a]
                == (if int_start <= a < int_start + sc {
                (first + (a - int_start) * FIRST_LEVEL_SIZE) as i32
            } else if a < old(pools).int_pool.ints().len() {
                old(pools).int_pool.ints()[a]
            } else {
                0i32
            }) by {
                if int_start <= a < int_start + sc {
                    let j = a - int_start;
                    assert(pools.int_pool.ints()[int_start + j] == first + j * 5);
                } else {
                    assert(pools.int_pool.ints()[a] == mid.int_pool.ints()[a]);
                }
            }
        }
        Ok(())
    }

    /// A reader over what has been written to a stream of a term.
    pub fn init_reader<'a>(&self, pools: &'a TermsHashBase, term_id: usize, stream: usize) -> (reader:
        ByteSliceReader<'a>)
        requires
            self.wf(pools),
            term_id < self.terms(),
            stream < self.streams(),
        ensures
            reader.wf(),
            reader.pool() == &pools.byte_pool,
            reader.stream() == self.stream_key(term_id as int, stream as int),
            reader.remaining() == self.stream_bytes(pools, term_id as int, stream as int),
    {
        proof {
            assert(stream_ok_at(
                self.postings_array.parallel(),
                pools,
                term_id as int,
                stream as int,
            ));
            pools.byte_pool.lemma_stream(self.stream_key(term_id as int, stream as int));
            pools.int_pool.lemma_bounds();
        }
        let pa = self.postings_array.parallel_array();
        let int_start = pa.int_starts[term_id] as usize;
        let start_index = pa.byte_starts[term_id] as usize + stream * FIRST_LEVEL_SIZE;
        let end_index = pools.int_pool.get(int_start + stream) as usize;
        ByteSliceReader::init(&pools.byte_pool, start_index, end_index)
    }

    /// The term ids, ordered by their terms. `term_pool` is the arena that
    /// holds the terms.
    pub fn sort_postings(&self, term_pool: &crate::util::byte_block_pool::ByteBlockPool) -> (sorted:
        Vec<i32>)
        requires
            self.bytes_hash.wf(term_pool),
        ensures
            self.bytes_hash.is_sorted_ids(term_pool, sorted@),
    {
        self.bytes_hash.sort(term_pool)
    }

    /// The bytes written so far to a stream of a term, read back from the
    /// arena.
    pub fn read_stream(&self, pools: &TermsHashBase, term_id: usize, stream: usize) -> (bytes: Vec<
        u8,
    >)
        requires
            self.wf(pools),
            term_id < self.terms(),
            stream < self.streams(),
        ensures
            bytes@ == self.stream_bytes(pools, term_id as int, stream as int),
    {
        let mut reader = self.init_reader(pools, term_id, stream);
        reader.read_to_end()
    }

    /// A write to one stream leaves every other stream of every term as it
    /// was, and puts the written bytes behind what the stream held.
    pub proof fn lemma_write_is_local(
        &self,
        before: &TermsHashBase,
        after: &TermsHashBase,
        term: int,
        stream: int,
        bytes: Seq<u8>,
    )
        requires
            self.wf(before),
            0 <= term < self.terms(),
            0 <= stream < self.streams(),
            before.wrote(after, self.stream_key(term, stream), self.head_slot(term, stream), bytes),
        ensures
            forall|t: int, s: int|
                0 <= t < self.terms() && 0 <= s < self.streams() ==> #[trigger] self.stream_bytes(
                    after,
                    t,
                    s,
                ) == self.stream_bytes(before, t, s) + (if t == term && s == stream {
                    bytes
                } else {
                    Seq::<u8>::empty()
                }),
    {
        let pa = self.postings_array.parallel();
        assert forall|t: int, s: int|
            0 <= t < self.terms() && 0 <= s < self.streams() implies #[trigger] self.stream_bytes(
            after,
            t,
            s,
        ) == self.stream_bytes(before, t, s) + (if t == term && s == stream {
            bytes
        } else {
            Seq::<u8>::empty()
        }) by {
            assert(stream_ok_at(pa, before, t, s));
            if t != term || s != stream {
                self.lemma_distinct(before, t, s, term, stream);
                assert(self.stream_bytes(before, t, s) + Seq::<u8>::empty()
                    =~= self.stream_bytes(before, t, s));
            }
        }
    }
}

/// One byte written to one stream of one term.
pub struct StreamWrite {
    pub term: int,
    pub stream: int,
    pub byte: u8,
}

/// The bytes that the writes `ops` send to a stream of a term, in their
/// order.
pub open spec fn written_to(ops: Seq<StreamWrite>, term: int, stream: int) -> Seq<u8>
    decreases ops.len(),
{
    if ops.len() == 0 {
        Seq::empty()
    } else {
        written_to(ops.drop_last(), term, stream) + (if ops.last().term == term
            && ops.last().stream == stream {
            seq![ops.last().byte]
        } else {
            Seq::empty()
        })
    }
}

/// Whatever the order in which bytes go to the streams of the terms, each
/// stream ends up with the bytes that were sent to it, in their order,
/// behind what it held: `states` are the arenas before the first write and
/// after each write of `ops`, to streams of the writer `writer`.
pub proof fn lemma_interleaved_writes<T: PostingsArray>(
    writer: &TermsHashPerFieldBase<T>,
    states: Seq<TermsHashBase>,
    ops: Seq<StreamWrite>,
    term: int,
    stream: int,
)
    requires
        states.len() == ops.len() + 1,
        forall|i: int| 0 <= i < states.len() ==> writer.wf(#[trigger] &states[i]),
        forall|i: int|
            0 <= i < ops.len() ==> {
                &&& 0 <= (#[trigger] ops[i]).term < writer.terms()
                &&& 0 <= ops[i].stream < writer.streams()
                &&& states[i].wrote(
                    &states[i + 1],
                    writer.stream_key(ops[i].term, ops[i].stream),
                    writer.head_slot(ops[i].term, ops[i].stream),
                    seq![ops[i].byte],
                )
            },
        0 <= term < writer.terms(),
        0 <= stream < writer.streams(),
    ensures
        writer.stream_bytes(&states[states.len() - 1], term, stream) == writer.stream_bytes(
            &states[0],
            term,
            stream,
        ) + written_to(ops, term, stream),
    decreases ops.len(),
{
    let first = writer.stream_bytes(&states[0], term, stream);
    if ops.len() == 0 {
        assert(first + Seq::<u8>::empty() =~= first);
    } else {
        let n = ops.len() - 1;
        let op = ops[n];
        let shorter = states.drop_last();
        assert forall|i: int| 0 <= i < shorter.len() implies writer.wf(#[trigger] &shorter[i]) by {
            assert(writer.wf(&states[i]));
        }
        assert forall|i: int| 0 <= i < ops.drop_last().len() implies {
            &&& 0 <= (#[trigger] ops.drop_last()[i]).term < writer.terms()
            &&& 0 <= ops.drop_last()[i].stream < writer.streams()
            &&& shorter[i].wrote(
                &shorter[i + 1],
                writer.stream_key(ops.drop_last()[i].term, ops.drop_last()[i].stream),
                writer.head_slot(ops.drop_last()[i].term, ops.drop_last()[i].stream),
                seq![ops.drop_last()[i].byte],
            )
        } by {
            assert(0 <= ops[i].term < writer.terms());
        }
        lemma_interleaved_writes(writer, shorter, ops.drop_last(), term, stream);
        assert(writer.wf(&states[n]));
        assert(0 <= ops[n].term < writer.terms());
        writer.lemma_write_is_local(
            &states[n],
            &states[n + 1],
            op.term,
            op.stream,
            seq![op.byte],
        );
        let mid = writer.stream_bytes(&states[n], term, stream);
        let tail = if op.term == term && op.stream == stream {
            seq![op.byte]
        } else {
            Seq::<u8>::empty()
        };
        assert(shorter[shorter.len() - 1] == states[n]);
        assert(shorter[0] == states[0]);
        assert(writer.stream_bytes(&states[n + 1], term, stream) == mid + tail);
        assert((first + written_to(ops.drop_last(), term, stream)) + tail =~= first + (written_to(
            ops.drop_last(),
            term,
            stream,
        ) + tail));
    }
}

} // verus!
