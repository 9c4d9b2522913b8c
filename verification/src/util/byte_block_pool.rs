//! An append-only arena of fixed-size byte blocks.
//!
//! The arena serves two kinds of tenants. *Slice chains* are growable byte
//! streams: a stream starts in a small slice and, when that slice is full,
//! continues in a larger one that the full slice forwards to. *Terms* are
//! immutable, length-prefixed byte strings. All offsets are absolute
//! positions in the arena.

use vstd::prelude::*;
use crate::error::Error;

verus! {

/// Number of bytes in a block.
pub const BYTE_BLOCK_SIZE: usize = 32768;
/// With this many blocks every arena offset still fits in 31 bits.
pub const MAX_BYTE_BLOCKS: usize = 65536;
/// Size of the first slice of every stream.
pub const FIRST_LEVEL_SIZE: usize = 5;
/// The longest term that fits in a block together with its length prefix.
pub const MAX_TERM_LENGTH: usize = 32766;

/// Size in bytes of a slice of the given level.
pub open spec fn level_size_spec(level: int) -> int {
    if level == 0 {
        5
    } else if level == 1 {
        14
    } else if level == 2 {
        20
    } else if level == 3 {
        30
    } else if level == 4 || level == 5 {
        40
    } else if level == 6 || level == 7 {
        80
    } else if level == 8 {
        120
    } else {
        200
    }
}

/// The level that follows `level`; the last level follows itself.
pub open spec fn next_level_spec(level: int) -> int {
    if level < 9 {
        level + 1
    } else {
        9
    }
}

/// Level of the `i`-th slice of a chain.
pub open spec fn chain_level(i: int) -> int {
    if i < 9 {
        i
    } else {
        9
    }
}

/// Size of the `i`-th slice of a chain.
pub open spec fn chain_slice_size(i: int) -> int {
    level_size_spec(chain_level(i))
}

/// Number of stream bytes that the first `n` slices of a chain hold once each
/// of them forwards to a successor: a forwarding slice gives up its last four
/// bytes to the pointer.
pub open spec fn chain_capacity(n: nat) -> int
    decreases n,
{
    if n == 0 {
        0
    } else {
        chain_capacity((n - 1) as nat) + chain_slice_size(n - 1) - 4
    }
}

/// The marker byte that terminates a slice of the given level.
pub open spec fn level_marker(level: int) -> int {
    16 + level
}

/// Big-endian value of the four bytes of `m` that start at `a`.
pub open spec fn be32(m: Seq<u8>, a: int) -> int {
    m[a] * 16777216 + m[a + 1] * 65536 + m[a + 2] * 256 + m[a + 3]
}

/// Size in bytes of a slice of the given level.
pub fn level_size(level: usize) -> (size: usize)
    ensures
        size == level_size_spec(level as int),
        5 <= size <= 200,
{
    if level == 0 {
        5
    } else if level == 1 {
        14
    } else if level == 2 {
        20
    } else if level == 3 {
        30
    } else if level == 4 || level == 5 {
        40
    } else if level == 6 || level == 7 {
        80
    } else if level == 8 {
        120
    } else {
        200
    }
}

/// The level that follows `level`; the last level follows itself.
pub fn next_level(level: usize) -> (next: usize)
    ensures
        next == next_level_spec(level as int),
{
    if level < 9 {
        level + 1
    } else {
        9
    }
}

/// The layout and content of one stream: where its slices start, in chain
/// order, and the bytes written to it so far.
pub struct SliceChain {
    pub slices: Seq<int>,
    pub data: Seq<u8>,
}

impl SliceChain {
    /// Number of slices of the chain.
    pub open spec fn count(self) -> int {
        self.slices.len() as int
    }

    /// Start of the slice that is being written.
    pub open spec fn last(self) -> int {
        self.slices[self.count() - 1]
    }

    /// Level of the slice that is being written.
    pub open spec fn level(self) -> int {
        chain_level(self.count() - 1)
    }

    /// Number of stream bytes in the slice that is being written.
    pub open spec fn used(self) -> int {
        self.data.len() - chain_capacity((self.count() - 1) as nat)
    }

    /// The write head: the offset that receives the next byte.
    pub open spec fn head(self) -> int {
        self.last() + self.used()
    }

    /// Whether the write head stands on the slice's marker byte.
    pub open spec fn is_full(self) -> bool {
        self.used() == level_size_spec(self.level()) - 1
    }

    /// The offset of the `j`-th byte of the `i`-th slice.
    pub open spec fn addr(self, i: int, j: int) -> int {
        self.slices[i] + j
    }

    /// The slices follow each other in the arena without overlap, and the
    /// slice that is being written holds no more than it can; a slice that
    /// continues another holds at least the three bytes that it took over.
    pub open spec fn layout_ok(self) -> bool {
        &&& self.count() >= 1
        &&& forall|i: int, j: int|
            0 <= i < j < self.count() ==> #[trigger] self.slices[i] + chain_slice_size(i)
                <= #[trigger] self.slices[j]
        &&& (if self.count() > 1 {
            3int
        } else {
            0int
        }) <= self.used() <= level_size_spec(self.level()) - 1
    }

    /// The chain after one more byte went to the slice being written.
    pub open spec fn push(self, b: u8) -> SliceChain {
        SliceChain { slices: self.slices, data: self.data.push(b) }
    }

    /// The chain after it was continued in a new slice at `start`.
    pub open spec fn extend(self, start: int) -> SliceChain {
        SliceChain { slices: self.slices.push(start), data: self.data }
    }

    /// A fresh chain whose first slice starts at `start`.
    pub open spec fn fresh(start: int) -> SliceChain {
        SliceChain { slices: seq![start], data: Seq::empty() }
    }

    /// The chain after one more byte went to the stream: to the slice being
    /// written when that has room, else to a new slice at `start`.
    pub open spec fn put(self, start: int, b: u8) -> SliceChain {
        if self.is_full() {
            self.extend(start).push(b)
        } else {
            self.push(b)
        }
    }

    /// The chain has the slices of `before`, where they were, and possibly
    /// more behind them.
    pub open spec fn continues(self, before: SliceChain) -> bool {
        &&& before.count() <= self.count()
        &&& forall|i: int| 0 <= i < before.count() ==> #[trigger] self.slices[i] == before.slices[i]
    }
}

/// The arena as one stream sees it when it asks for room: the fill of the
/// last block, the number of blocks, and the level and fill of the slice that
/// the stream is writing.
pub struct Headroom {
    pub upto: int,
    pub buffers: int,
    /// The largest number of blocks that the arena may have.
    pub limit: int,
    pub level: int,
    pub used: int,
}

impl Headroom {
    /// Whether the slice being written has room for a byte.
    pub open spec fn has_space(self) -> bool {
        self.used < level_size_spec(self.level) - 1
    }

    /// Size of the slice that would continue the stream.
    pub open spec fn next_size(self) -> int {
        level_size_spec(next_level_spec(self.level))
    }

    /// Whether one more byte can be written.
    pub open spec fn can_push(self) -> bool {
        self.has_space() || self.upto + self.next_size() <= BYTE_BLOCK_SIZE || self.buffers
            < self.limit
    }

    /// The headroom after one more byte was written.
    pub open spec fn push(self) -> Headroom {
        if self.has_space() {
            Headroom { used: self.used + 1, ..self }
        } else if self.upto + self.next_size() <= BYTE_BLOCK_SIZE {
            Headroom {
                upto: self.upto + self.next_size(),
                buffers: self.buffers,
                limit: self.limit,
                level: next_level_spec(self.level),
                used: 4,
            }
        } else {
            Headroom {
                upto: self.next_size(),
                buffers: self.buffers + 1,
                limit: self.limit,
                level: next_level_spec(self.level),
                used: 4,
            }
        }
    }

    /// Whether `n` more bytes can be written.
    pub open spec fn accepts(self, n: nat) -> bool
        decreases n,
    {
        n == 0 || (self.can_push() && self.push().accepts((n - 1) as nat))
    }

    /// The headroom after `n` more bytes were written.
    pub open spec fn push_n(self, n: nat) -> Headroom
        decreases n,
    {
        if n == 0 {
            self
        } else {
            self.push().push_n((n - 1) as nat)
        }
    }

    /// Whether the arena has room for `k` more bytes of the stream and for
    /// no byte after them.
    pub open spec fn stops_at(self, k: int) -> bool {
        &&& k >= 0
        &&& self.accepts(k as nat)
        &&& !self.push_n(k as nat).can_push()
    }

    /// The same arena seen by a stream of another level and fill.
    pub open spec fn seen_by(self, level: int, used: int) -> Headroom {
        Headroom { upto: self.upto, buffers: self.buffers, limit: self.limit, level, used }
    }

    /// Writing `i + j` bytes is writing `i` and then `j`.
    pub proof fn lemma_split(self, i: nat, j: nat)
        ensures
            self.accepts(i + j) <==> self.accepts(i) && self.push_n(i).accepts(j),
            self.push_n(i + j) == self.push_n(i).push_n(j),
        decreases i,
    {
        if i > 0 {
            self.push().lemma_split((i - 1) as nat, j);
            assert((i + j - 1) as nat == (i - 1) as nat + j);
        }
    }
}

/// A stream that holds no bytes in a single slice is at level 0 and has used
/// none of it.
pub proof fn lemma_fresh_headroom(chain: SliceChain)
    requires
        chain.slices.len() == 1,
        chain.data.len() == 0,
    ensures
        chain.level() == 0,
        chain.used() == 0,
{
}

/// The mark of a byte that belongs to a term.
spec fn owner_term() -> int {
    -1
}

/// The mark of a byte that belongs to nobody.
spec fn owner_free() -> int {
    -2
}

spec fn flat(buffers: Seq<Vec<u8>>) -> Seq<u8> {
    Seq::new((buffers.len() * BYTE_BLOCK_SIZE) as nat, |a: int| buffers[a / 32768]@[a % 32768])
}

spec fn pointer_at(m: Seq<u8>, c: SliceChain, i: int) -> int {
    be32(m, c.slices[i] + chain_slice_size(i) - 4)
}

spec fn chain_ok(m: Seq<u8>, owner: Seq<int>, limit: int, key: int, c: SliceChain) -> bool {
    let n = c.count();
    &&& c.layout_ok()
    &&& c.slices[0] == key
    &&& forall|i: int|
        0 <= i < n ==> 0 <= #[trigger] c.slices[i] && c.slices[i] + chain_slice_size(i) <= limit
    &&& forall|i: int, j: int|
        0 <= i < n && 0 <= j < chain_slice_size(i) ==> owner[#[trigger] c.addr(i, j)] == key
    &&& forall|i: int, j: int|
        0 <= i < n - 1 && 0 <= j < chain_slice_size(i) - 4 ==> m[#[trigger] c.addr(i, j)]
            == c.data[chain_capacity(i as nat) + j]
    &&& forall|i: int| 0 <= i < n - 1 ==> #[trigger] pointer_at(m, c, i) == c.slices[i + 1]
    &&& forall|j: int|
        0 <= j < c.used() ==> m[#[trigger] c.addr(n - 1, j)] == c.data[chain_capacity(
            (n - 1) as nat,
        ) + j]
    &&& forall|j: int|
        c.used() <= j < chain_slice_size(n - 1) - 1 ==> m[#[trigger] c.addr(n - 1, j)] == 0
    &&& m[c.last() + chain_slice_size(n - 1) - 1] == level_marker(c.level())
}

proof fn lemma_chain_frame(
    m: Seq<u8>,
    owner: Seq<int>,
    limit: int,
    m2: Seq<u8>,
    owner2: Seq<int>,
    limit2: int,
    key: int,
    c: SliceChain,
)
    requires
        chain_ok(m, owner, limit, key, c),
        limit <= limit2,
        limit <= m.len(),
        forall|a: int|
            0 <= a < limit && #[trigger] owner[a] == key ==> m2[a] == m[a] && owner2[a] == key,
    ensures
        chain_ok(m2, owner2, limit2, key, c),
{
    let n = c.count();
    assert forall|i: int, j: int| 0 <= i < n && 0 <= j < chain_slice_size(i) implies owner2[#[trigger] c.addr(
        i,
        j,
    )] == key && m2[c.addr(i, j)] == m[c.addr(i, j)] by {
        assert(0 <= c.slices[i]);
        assert(owner[c.addr(i, j)] == key);
    }
    assert forall|i: int| 0 <= i < n - 1 implies #[trigger] pointer_at(m2, c, i) == c.slices[i
        + 1] by {
        let s = chain_slice_size(i);
        assert(pointer_at(m, c, i) == c.slices[i + 1]);
        assert(m2[c.addr(i, s - 4)] == m[c.addr(i, s - 4)]);
        assert(m2[c.addr(i, s - 3)] == m[c.addr(i, s - 3)]);
        assert(m2[c.addr(i, s - 2)] == m[c.addr(i, s - 2)]);
        assert(m2[c.addr(i, s - 1)] == m[c.addr(i, s - 1)]);
    }
    assert(m2[c.addr(n - 1, chain_slice_size(n - 1) - 1)] == m[c.addr(
        n - 1,
        chain_slice_size(n - 1) - 1,
    )]);
}


proof fn lemma_capacity_monotonic(a: nat, b: nat)
    requires
        a <= b,
    ensures
        0 <= chain_capacity(a) <= chain_capacity(b),
    decreases b,
{
    if a < b {
        lemma_capacity_monotonic(a, (b - 1) as nat);
    } else if a > 0 {
        lemma_capacity_monotonic((a - 1) as nat, (a - 1) as nat);
    }
}

/// Number of bytes of the length prefix of a term of `len` bytes.
pub open spec fn term_header_len(len: int) -> int {
    if len < 128 {
        1
    } else {
        2
    }
}

spec fn term_addr(key: int, j: int) -> int {
    key + j
}

spec fn term_ok(m: Seq<u8>, owner: Seq<int>, limit: int, key: int, t: Seq<u8>) -> bool {
    let h = term_header_len(t.len() as int);
    &&& 0 <= key
    &&& key + h + t.len() <= limit
    &&& t.len() <= MAX_TERM_LENGTH
    &&& forall|j: int| 0 <= j < h + t.len() ==> owner[#[trigger] term_addr(key, j)] == owner_term()
    &&& if t.len() < 128 {
        m[key] == t.len()
    } else {
        m[key] == 128 + t.len() % 128 && m[key + 1] == t.len() / 128
    }
    &&& forall|j: int| 0 <= j < t.len() ==> m[#[trigger] term_addr(key + h, j)] == t[j]
}

proof fn lemma_term_frame(
    m: Seq<u8>,
    owner: Seq<int>,
    limit: int,
    m2: Seq<u8>,
    owner2: Seq<int>,
    limit2: int,
    key: int,
    t: Seq<u8>,
)
    requires
        term_ok(m, owner, limit, key, t),
        limit <= limit2,
        forall|a: int|
            0 <= a < limit && #[trigger] owner[a] == owner_term() ==> m2[a] == m[a] && owner2[a]
                == owner_term(),
    ensures
        term_ok(m2, owner2, limit2, key, t),
{
    let h = term_header_len(t.len() as int);
    assert forall|j: int| 0 <= j < h + t.len() implies owner2[#[trigger] term_addr(key, j)]
        == owner_term() && m2[term_addr(key, j)] == m[term_addr(key, j)] by {
        assert(owner[term_addr(key, j)] == owner_term());
    }
    assert(m2[term_addr(key, 0)] == m[term_addr(key, 0)]);
    if t.len() >= 128 {
        assert(m2[term_addr(key, 1)] == m[term_addr(key, 1)]);
    }
    assert forall|j: int| 0 <= j < t.len() implies m2[#[trigger] term_addr(key + h, j)]
        == t[j] by {
        assert(term_addr(key + h, j) == term_addr(key, h + j));
        assert(m[term_addr(key + h, j)] == t[j]);
    }
}

proof fn lemma_be32_parts(x: int)
    requires
        0 <= x < 0x8000_0000,
    ensures
        0 <= x / 16777216 < 128,
        0 <= (x / 65536) % 256 < 256,
        0 <= (x / 256) % 256 < 256,
        0 <= x % 256 < 256,
        (x / 16777216) * 16777216 + ((x / 65536) % 256) * 65536 + ((x / 256) % 256) * 256 + x
            % 256 == x,
{
}

/// The arena: its blocks, the position of the next free byte in the last
/// one, and a record of what lies where.
pub struct ByteBlockPool {
    buffers: Vec<Vec<u8>>,
    byte_upto: usize,
    /// The largest number of blocks that the arena may have.
    max_buffers: usize,
    /// The streams, each under the offset of its first slice.
    chains: Ghost<Map<int, SliceChain>>,
    /// The terms, each under the offset of its length prefix.
    blobs: Ghost<Map<int, Seq<u8>>>,
    /// For each byte of the arena, the stream that it belongs to, or the
    /// mark of a term's byte, or the mark of a free byte.
    owner: Ghost<Seq<int>>,
}

impl ByteBlockPool {
    /// The streams of the arena, each under the offset of its first slice.
    pub closed spec fn streams(&self) -> Map<int, SliceChain> {
        self.chains@
    }

    /// The terms of the arena, each under the offset of its length prefix.
    pub closed spec fn terms(&self) -> Map<int, Seq<u8>> {
        self.blobs@
    }

    /// The bytes of all blocks, in arena order.
    pub closed spec fn bytes(&self) -> Seq<u8> {
        flat(self.buffers@)
    }

    /// Number of blocks in the arena.
    pub closed spec fn num_buffers(&self) -> int {
        self.buffers@.len() as int
    }

    /// Position of the next free byte inside the last block.
    pub closed spec fn upto(&self) -> int {
        self.byte_upto as int
    }

    /// The largest number of blocks that the arena may have.
    pub closed spec fn limit(&self) -> int {
        self.max_buffers as int
    }

    /// The stream, if any, that the byte at `offset` belongs to.
    pub closed spec fn stream_at(&self, offset: int) -> int {
        self.owner@[offset]
    }

    /// Arena offset of the next free byte.
    pub open spec fn cursor(&self) -> int {
        if self.num_buffers() == 0 {
            0
        } else {
            (self.num_buffers() - 1) * BYTE_BLOCK_SIZE + self.upto()
        }
    }

    /// Whether `size` more bytes fit in the last block.
    pub open spec fn fits(&self, size: int) -> bool {
        self.upto() + size <= BYTE_BLOCK_SIZE
    }

    /// Whether a region of `size` bytes can be had, in the last block or in a
    /// new one.
    pub open spec fn can_allocate(&self, size: int) -> bool {
        self.fits(size) || self.num_buffers() < self.limit()
    }

    /// Where a region of `size` bytes allocated now would start.
    pub open spec fn next_start(&self, size: int) -> int {
        if self.fits(size) {
            self.cursor()
        } else {
            self.num_buffers() * BYTE_BLOCK_SIZE
        }
    }

    /// `after` has the geometry of `self` once `size` bytes were allocated
    /// where `need` bytes were asked to fit.
    pub open spec fn allocated(&self, after: &Self, need: int, size: int) -> bool {
        &&& after.cursor() == self.next_start(need) + size
        &&& after.upto() == (if self.fits(need) {
            self.upto() + size
        } else {
            size
        })
        &&& after.num_buffers() == (if self.fits(need) {
            self.num_buffers()
        } else {
            self.num_buffers() + 1
        })
        &&& after.limit() == self.limit()
    }

    /// `after` has the geometry of `self`.
    pub open spec fn same_geometry(&self, after: &Self) -> bool {
        &&& after.upto() == self.upto()
        &&& after.num_buffers() == self.num_buffers()
        &&& after.limit() == self.limit()
    }

    spec fn shape_ok(&self) -> bool {
        &&& forall|i: int|
            0 <= i < self.buffers@.len() ==> (#[trigger] self.buffers@[i])@.len()
                == BYTE_BLOCK_SIZE
        &&& self.buffers@.len() <= self.max_buffers <= MAX_BYTE_BLOCKS
        &&& self.byte_upto <= BYTE_BLOCK_SIZE
        &&& (self.buffers@.len() == 0 ==> self.byte_upto == BYTE_BLOCK_SIZE)
        &&& self.owner@.len() == self.buffers@.len() * BYTE_BLOCK_SIZE
    }

    spec fn fresh_above(&self, from: int) -> bool {
        &&& forall|a: int| from <= a < self.owner@.len() ==> #[trigger] self.owner@[a] == owner_free()
        &&& forall|a: int| from <= a < self.owner@.len() ==> #[trigger] self.bytes()[a] == 0
    }

    spec fn tenants_ok(&self, limit: int) -> bool {
        &&& forall|k: int| #[trigger]
            self.chains@.contains_key(k) ==> chain_ok(
                self.bytes(),
                self.owner@,
                limit,
                k,
                self.chains@[k],
            )
        &&& forall|k: int| #[trigger]
            self.blobs@.contains_key(k) ==> term_ok(
                self.bytes(),
                self.owner@,
                limit,
                k,
                self.blobs@[k],
            )
    }

    /// The arena's invariant: blocks have their size, streams and terms lie
    /// below the cursor in regions of their own, laid out as the readers
    /// expect, and everything from the cursor on is zero.
    pub closed spec fn wf(&self) -> bool {
        &&& self.shape_ok()
        &&& self.fresh_above(self.cursor())
        &&& self.tenants_ok(self.cursor())
    }

    /// An arena without blocks.
    pub fn new() -> (pool: Self)
        ensures
            pool.wf(),
            pool.streams() == Map::<int, SliceChain>::empty(),
            pool.terms() == Map::<int, Seq<u8>>::empty(),
            pool.num_buffers() == 0,
            pool.upto() == BYTE_BLOCK_SIZE,
            pool.limit() == MAX_BYTE_BLOCKS,
    {
        ByteBlockPool::with_limit(MAX_BYTE_BLOCKS)
    }

    /// An arena without blocks that may get `max_buffers` blocks, or as
    /// many as any arena may have when that is less.
    pub fn with_limit(max_buffers: usize) -> (pool: Self)
        ensures
            pool.wf(),
            pool.streams() == Map::<int, SliceChain>::empty(),
            pool.terms() == Map::<int, Seq<u8>>::empty(),
            pool.num_buffers() == 0,
            pool.upto() == BYTE_BLOCK_SIZE,
            pool.limit() == (if max_buffers <= MAX_BYTE_BLOCKS {
                max_buffers
            } else {
                MAX_BYTE_BLOCKS
            }),
    {
        ByteBlockPool {
            buffers: Vec::new(),
            byte_upto: BYTE_BLOCK_SIZE,
            max_buffers: if max_buffers <= MAX_BYTE_BLOCKS {
                max_buffers
            } else {
                MAX_BYTE_BLOCKS
            },
            chains: Ghost(Map::empty()),
            blobs: Ghost(Map::empty()),
            owner: Ghost(Seq::empty()),
        }
    }

    /// Empties the arena for the next segment: forgets every stream and
    /// every term, gives back every block but the first, and zeroes that
    /// one.
    pub fn reset(&mut self)
        requires
            old(self).wf(),
        ensures
            final(self).wf(),
            final(self).streams() == Map::<int, SliceChain>::empty(),
            final(self).terms() == Map::<int, Seq<u8>>::empty(),
            final(self).limit() == old(self).limit(),
            final(self).num_buffers() == (if old(self).num_buffers() == 0 {
                0int
            } else {
                1int
            }),
            final(self).upto() == (if old(self).num_buffers() == 0 {
                BYTE_BLOCK_SIZE as int
            } else {
                0int
            }),
    {
        if self.buffers.len() == 0 {
            proof {
                self.chains@ = Map::empty();
                self.blobs@ = Map::empty();
            }
            return ;
        }
        self.buffers.truncate(1);
        let mut i: usize = 0;
        while i < BYTE_BLOCK_SIZE
            invariant
                0 <= i <= BYTE_BLOCK_SIZE,
                self.buffers@.len() == 1,
                self.buffers@[0]@.len() == BYTE_BLOCK_SIZE,
                self.max_buffers == old(self).max_buffers,
                1 <= self.max_buffers <= MAX_BYTE_BLOCKS,
                forall|j: int| 0 <= j < i ==> #[trigger] self.buffers@[0]@[j] == 0,
            decreases BYTE_BLOCK_SIZE - i,
        {
            self.buffers[0][i] = 0;
            i += 1;
        }
        self.byte_upto = 0;
        proof {
            self.chains@ = Map::empty();
            self.blobs@ = Map::empty();
            self.owner@ = Seq::new(BYTE_BLOCK_SIZE as nat, |a: int| owner_free());
            assert forall|a: int| 0 <= a < self.owner@.len() implies #[trigger] self.bytes()[a]
                == 0 by {
                assert(self.buffers@[0]@[a] == 0);
            }
        }
    }

    /// Number of blocks in the arena.
    pub fn buffer_count(&self) -> (n: usize)
        ensures
            n == self.num_buffers(),
    {
        self.buffers.len()
    }

    /// The largest number of blocks that the arena may have.
    pub fn max_buffers(&self) -> (n: usize)
        ensures
            n == self.limit(),
    {
        self.max_buffers
    }

    /// Position of the next free byte inside the last block.
    pub fn byte_upto(&self) -> (n: usize)
        ensures
            n == self.upto(),
    {
        self.byte_upto
    }

    fn get(&self, a: usize) -> (b: u8)
        requires
            self.shape_ok(),
            a < self.buffers@.len() * BYTE_BLOCK_SIZE,
        ensures
            b == self.bytes()[a as int],
    {
        self.buffers[a / BYTE_BLOCK_SIZE][a % BYTE_BLOCK_SIZE]
    }

    fn set(&mut self, a: usize, b: u8)
        requires
            old(self).shape_ok(),
            a < old(self).buffers@.len() * BYTE_BLOCK_SIZE,
        ensures
            final(self).shape_ok(),
            final(self).bytes() == old(self).bytes().update(a as int, b),
            final(self).byte_upto == old(self).byte_upto,
            final(self).max_buffers == old(self).max_buffers,
            final(self).buffers@.len() == old(self).buffers@.len(),
            final(self).chains == old(self).chains,
            final(self).blobs == old(self).blobs,
            final(self).owner == old(self).owner,
    {
        self.buffers[a / BYTE_BLOCK_SIZE][a % BYTE_BLOCK_SIZE] = b;
        assert(final(self).bytes() =~= old(self).bytes().update(a as int, b));
    }

    /// Where a region of `size` bytes allocated now would start.
    pub fn start_of_next(&self, size: usize) -> (start: usize)
        requires
            self.wf(),
            size <= BYTE_BLOCK_SIZE,
        ensures
            start == self.next_start(size as int),
    {
        if self.buffers.len() == 0 {
            0
        } else if self.byte_upto + size <= BYTE_BLOCK_SIZE {
            (self.buffers.len() - 1) * BYTE_BLOCK_SIZE + self.byte_upto
        } else {
            self.buffers.len() * BYTE_BLOCK_SIZE
        }
    }

    /// Copies the three bytes at `from` to `to`.
    fn copy_three(&mut self, from: usize, to: usize)
        requires
            old(self).shape_ok(),
            from + 3 <= to,
            to + 3 <= old(self).buffers@.len() * BYTE_BLOCK_SIZE,
        ensures
            final(self).shape_ok(),
            final(self).byte_upto == old(self).byte_upto,
            final(self).max_buffers == old(self).max_buffers,
            final(self).buffers@.len() == old(self).buffers@.len(),
            final(self).chains == old(self).chains,
            final(self).blobs == old(self).blobs,
            final(self).owner == old(self).owner,
            forall|a: int|
                0 <= a < old(self).bytes().len() && !(to <= a < to + 3) ==> #[trigger] final(self).bytes()[a] == old(self).bytes()[a],
            final(self).bytes()[to as int] == old(self).bytes()[from as int],
            final(self).bytes()[to + 1] == old(self).bytes()[from + 1],
            final(self).bytes()[to + 2] == old(self).bytes()[from + 2],
    {
        let b0 = self.get(from);
        let b1 = self.get(from + 1);
        let b2 = self.get(from + 2);
        self.set(to, b0);
        self.set(to + 1, b1);
        self.set(to + 2, b2);
    }

    /// Writes `value` at `at` as four bytes, the high ones first.
    fn write_be32(&mut self, at: usize, value: usize)
        requires
            old(self).shape_ok(),
            at + 4 <= old(self).buffers@.len() * BYTE_BLOCK_SIZE,
            value < 0x8000_0000,
        ensures
            final(self).shape_ok(),
            final(self).byte_upto == old(self).byte_upto,
            final(self).max_buffers == old(self).max_buffers,
            final(self).buffers@.len() == old(self).buffers@.len(),
            final(self).chains == old(self).chains,
            final(self).blobs == old(self).blobs,
            final(self).owner == old(self).owner,
            forall|a: int|
                0 <= a < old(self).bytes().len() && !(at <= a < at + 4) ==> #[trigger] final(self).bytes()[a] == old(self).bytes()[a],
            be32(final(self).bytes(), at as int) == value,
    {
        proof {
            lemma_be32_parts(value as int);
        }
        self.set(at, (value / 16777216) as u8);
        self.set(at + 1, ((value / 65536) % 256) as u8);
        self.set(at + 2, ((value / 256) % 256) as u8);
        self.set(at + 3, (value % 256) as u8);
    }

    /// The byte at an arena offset.
    pub fn byte(&self, offset: usize) -> (b: u8)
        requires
            self.wf(),
            offset < self.num_buffers() * BYTE_BLOCK_SIZE,
        ensures
            b == self.bytes()[offset as int],
    {
        self.get(offset)
    }

    fn grow(&mut self) -> (r: Result<(), Error>)
        requires
            old(self).wf(),
        ensures
            final(self).wf(),
            final(self).streams() == old(self).streams(),
            final(self).terms() == old(self).terms(),
            final(self).limit() == old(self).limit(),
            match r {
                Ok(()) => {
                    &&& old(self).num_buffers() < old(self).limit()
                    &&& final(self).num_buffers() == old(self).num_buffers() + 1
                    &&& final(self).upto() == 0
                    &&& forall|a: int|
                        0 <= a < old(self).owner@.len() ==> #[trigger] final(self).owner@[a]
                            == old(self).owner@[a]
                    &&& forall|a: int|
                        0 <= a < old(self).owner@.len() ==> #[trigger] final(self).bytes()[a]
                            == old(self).bytes()[a]
                },
                Err(e) => {
                    &&& e == Error::PoolExhausted
                    &&& old(self).num_buffers() >= old(self).limit()
                    &&& *final(self) == *old(self)
                },
            },
    {
        if self.buffers.len() >= self.max_buffers {
            return Err(Error::PoolExhausted);
        }
        let block: Vec<u8> = vec![0u8; BYTE_BLOCK_SIZE];
        self.buffers.push(block);
        self.byte_upto = 0;
        proof {
            let old_len = old(self).owner@.len() as int;
            self.owner@ = old(self).owner@ + Seq::new(BYTE_BLOCK_SIZE as nat, |a: int| owner_free());
            let m = old(self).bytes();
            let m2 = self.bytes();
            assert forall|a: int| 0 <= a < old_len implies m2[a] == m[a] by {
                assert(a / 32768 < old(self).buffers@.len());
            }
            assert forall|a: int| old_len <= a < self.owner@.len() implies #[trigger] m2[a]
                == 0 by {
                assert(a / 32768 == old(self).buffers@.len());
            }
            assert(old(self).cursor() <= old_len);
            assert forall|k: int| #[trigger] self.chains@.contains_key(k) implies chain_ok(
                m2,
                self.owner@,
                self.cursor(),
                k,
                self.chains@[k],
            ) by {
                lemma_chain_frame(
                    m,
                    old(self).owner@,
                    old(self).cursor(),
                    m2,
                    self.owner@,
                    self.cursor(),
                    k,
                    self.chains@[k],
                );
            }
            assert forall|k: int| #[trigger] self.blobs@.contains_key(k) implies term_ok(
                m2,
                self.owner@,
                self.cursor(),
                k,
                self.blobs@[k],
            ) by {
                lemma_term_frame(
                    m,
                    old(self).owner@,
                    old(self).cursor(),
                    m2,
                    self.owner@,
                    self.cursor(),
                    k,
                    self.blobs@[k],
                );
            }
        }
        Ok(())
    }

    /// Appends a zeroed block and moves the cursor to its start.
    pub fn next_buffer(&mut self) -> (r: Result<(), Error>)
        requires
            old(self).wf(),
        ensures
            final(self).wf(),
            final(self).streams() == old(self).streams(),
            final(self).terms() == old(self).terms(),
            final(self).limit() == old(self).limit(),
            match r {
                Ok(()) => {
                    &&& old(self).num_buffers() < old(self).limit()
                    &&& final(self).num_buffers() == old(self).num_buffers() + 1
                    &&& final(self).upto() == 0
                },
                Err(e) => {
                    &&& e == Error::PoolExhausted
                    &&& old(self).num_buffers() >= old(self).limit()
                    &&& *final(self) == *old(self)
                },
            },
    {
        self.grow()
    }

    proof fn lemma_frame(before: &Self, after: &Self, limit: int, limit2: int, except: int)
        requires
            before.tenants_ok(limit),
            limit <= limit2,
            limit <= before.bytes().len(),
            forall|a: int|
                0 <= a < limit && #[trigger] before.owner@[a] != except && before.owner@[a]
                    != owner_free() ==> after.bytes()[a] == before.bytes()[a] && after.owner@[a]
                    == before.owner@[a],
        ensures
            forall|k: int| #[trigger]
                before.chains@.contains_key(k) && k != except ==> chain_ok(
                    after.bytes(),
                    after.owner@,
                    limit2,
                    k,
                    before.chains@[k],
                ),
            forall|k: int| #[trigger]
                before.blobs@.contains_key(k) && except != owner_term() ==> term_ok(
                    after.bytes(),
                    after.owner@,
                    limit2,
                    k,
                    before.blobs@[k],
                ),
    {
        assert forall|k: int| #[trigger]
            before.chains@.contains_key(k) && k != except implies chain_ok(
            after.bytes(),
            after.owner@,
            limit2,
            k,
            before.chains@[k],
        ) by {
            assert(before.chains@[k].slices[0] >= 0);
            lemma_chain_frame(
                before.bytes(),
                before.owner@,
                limit,
                after.bytes(),
                after.owner@,
                limit2,
                k,
                before.chains@[k],
            );
        }
        assert forall|k: int| #[trigger]
            before.blobs@.contains_key(k) && except != owner_term() implies term_ok(
            after.bytes(),
            after.owner@,
            limit2,
            k,
            before.blobs@[k],
        ) by {
            lemma_term_frame(
                before.bytes(),
                before.owner@,
                limit,
                after.bytes(),
                after.owner@,
                limit2,
                k,
                before.blobs@[k],
            );
        }
    }

    /// Takes `size` bytes at the cursor, after moving to a new block when
    /// `need` bytes do not fit in the last one.
    fn reserve(&mut self, need: usize, size: usize) -> (r: Result<usize, Error>)
        requires
            old(self).wf(),
            1 <= size <= need <= BYTE_BLOCK_SIZE,
        ensures
            final(self).wf(),
            final(self).chains == old(self).chains,
            final(self).blobs == old(self).blobs,
            match r {
                Ok(start) => {
                    &&& old(self).can_allocate(need as int)
                    &&& start == old(self).next_start(need as int)
                    &&& old(self).allocated(final(self), need as int, size as int)
                    &&& old(self).cursor() <= start
                    &&& start + size <= final(self).owner@.len()
                    &&& final(self).owner@.len() <= 0x8000_0000
                    &&& forall|a: int|
                        start <= a < start + size ==> #[trigger] final(self).owner@[a]
                            == owner_free()
                    &&& forall|a: int|
                        start <= a < start + size ==> #[trigger] final(self).bytes()[a] == 0
                    &&& forall|a: int|
                        0 <= a < old(self).cursor() ==> #[trigger] final(self).owner@[a] == old(self).owner@[a]
                    &&& forall|a: int|
                        0 <= a < old(self).cursor() ==> #[trigger] final(self).bytes()[a] == old(self).bytes()[a]
                },
                Err(e) => {
                    &&& e == Error::PoolExhausted
                    &&& !old(self).can_allocate(need as int)
                    &&& *final(self) == *old(self)
                },
            },
    {
        if self.byte_upto > BYTE_BLOCK_SIZE - need {
            match self.grow() {
                Ok(()) => {},
                Err(e) => {
                    return Err(e);
                },
            }
        }
        let ghost mid = *self;
        let start = (self.buffers.len() - 1) * BYTE_BLOCK_SIZE + self.byte_upto;
        self.byte_upto += size;
        proof {
            assert(self.bytes() == mid.bytes());
            Self::lemma_frame(&mid, self, mid.cursor(), self.cursor(), owner_free());
        }
        Ok(start)
    }

    /// Starts a stream: allocates its first slice and marks the slice's end.
    /// Returns the arena offset of the slice's first byte, which names the
    /// stream from then on.
    pub fn new_slice(&mut self, size: usize) -> (r: Result<usize, Error>)
        requires
            old(self).wf(),
        ensures
            final(self).wf(),
            final(self).terms() == old(self).terms(),
            match r {
                Ok(start) => {
                    &&& size == FIRST_LEVEL_SIZE
                    &&& old(self).can_allocate(size as int)
                    &&& start == old(self).next_start(size as int)
                    &&& old(self).allocated(final(self), size as int, size as int)
                    &&& !old(self).streams().contains_key(start as int)
                    &&& final(self).streams() == old(self).streams().insert(
                        start as int,
                        SliceChain::fresh(start as int),
                    )
                },
                Err(e) => {
                    &&& *final(self) == *old(self)
                    &&& if size != FIRST_LEVEL_SIZE {
                        e == Error::IllegalArgument
                    } else {
                        e == Error::PoolExhausted && !old(self).can_allocate(size as int)
                    }
                },
            },
    {
        if size != FIRST_LEVEL_SIZE {
            return Err(Error::IllegalArgument);
        }
        let start = match self.reserve(size, size) {
            Ok(s) => s,
            Err(e) => {
                return Err(e);
            },
        };
        let ghost mid = *self;
        self.set(start + size - 1, 16);
        proof {
            let key = start as int;
            let c = SliceChain::fresh(key);
            if mid.chains@.contains_key(key) {
                let c0 = mid.chains@[key];
                assert(mid.owner@[c0.addr(0, 0)] == key);
                assert(false);
            }
            self.owner@ = Seq::new(
                mid.owner@.len(),
                |a: int|
                    if start <= a < start + size {
                        key
                    } else {
                        mid.owner@[a]
                    },
            );
            self.chains@ = mid.chains@.insert(key, c);
            Self::lemma_frame(&mid, self, mid.cursor(), self.cursor(), owner_free());
            assert(c.slices[0] == key);
            assert(chain_capacity(0) == 0);
            assert forall|j: int| c.used() <= j < chain_slice_size(0) - 1 implies self.bytes()[#[trigger] c.addr(
                0,
                j,
            )] == 0 by {
                assert(mid.bytes()[key + j] == 0);
            }
            assert(chain_ok(self.bytes(), self.owner@, self.cursor(), key, c));
            assert forall|a: int| self.cursor() <= a < self.owner@.len() implies #[trigger] self.bytes()[a]
                == 0 by {
                assert(mid.bytes()[a] == 0);
            }
            assert forall|a: int| self.cursor() <= a < self.owner@.len() implies #[trigger] self.owner@[a]
                == owner_free() by {
                assert(mid.owner@[a] == owner_free());
            }
        }
        Ok(start)
    }

    /// The arena as the stream `key` sees it.
    pub open spec fn headroom(&self, key: int) -> Headroom {
        Headroom {
            upto: self.upto(),
            buffers: self.num_buffers(),
            limit: self.limit(),
            level: self.streams()[key].level(),
            used: self.streams()[key].used(),
        }
    }

    /// `after` is `self` once `bytes` went to the stream `key`: the stream
    /// holds what it held and then `bytes`, in the slices that it had and
    /// possibly more behind them, and no other stream and no term changed.
    pub open spec fn appended(&self, after: &Self, key: int, bytes: Seq<u8>) -> bool {
        &&& after.terms() == self.terms()
        &&& after.limit() == self.limit()
        &&& after.streams().dom() == self.streams().dom()
        &&& forall|k: int|
            k != key && self.streams().contains_key(k) ==> #[trigger] after.streams()[k]
                == self.streams()[k]
        &&& after.streams()[key].data == self.streams()[key].data + bytes
        &&& after.streams()[key].continues(self.streams()[key])
    }

    /// Writing moves the write head of a stream forward, never back: also
    /// when the stream goes on in a new slice.
    pub proof fn lemma_head_moves(&self, after: &Self, key: int, bytes: Seq<u8>)
        requires
            self.wf(),
            after.wf(),
            self.streams().contains_key(key),
            self.appended(after, key, bytes),
        ensures
            after.streams()[key].head() >= self.streams()[key].head(),
            bytes.len() > 0 ==> after.streams()[key].head() > self.streams()[key].head(),
    {
        let c0 = self.streams()[key];
        let c1 = after.streams()[key];
        assert(after.streams().dom().contains(key));
        self.lemma_stream(key);
        after.lemma_stream(key);
        let n0 = c0.count();
        let n1 = c1.count();
        assert(c1.slices[n0 - 1] == c0.slices[n0 - 1]);
        if n1 > n0 {
            assert(c1.slices[n0 - 1] + chain_slice_size(n0 - 1) <= c1.slices[n1 - 1]);
        }
    }

    /// Whether `head` is the write head of a stream of this arena.
    pub open spec fn is_head(&self, head: int) -> bool {
        &&& self.streams().contains_key(self.stream_at(head))
        &&& self.streams()[self.stream_at(head)].head() == head
    }

    /// Writes `b` at the write head `head` of a stream whose current slice
    /// has room.
    pub fn write_byte(&mut self, head: usize, b: u8)
        requires
            old(self).wf(),
            old(self).is_head(head as int),
            !old(self).streams()[old(self).stream_at(head as int)].is_full(),
        ensures
            final(self).wf(),
            final(self).terms() == old(self).terms(),
            old(self).same_geometry(final(self)),
            final(self).streams() == old(self).streams().insert(
                old(self).stream_at(head as int),
                old(self).streams()[old(self).stream_at(head as int)].push(b),
            ),
            final(self).bytes() == old(self).bytes().update(head as int, b),
    {
        let ghost key = self.owner@[head as int];
        let ghost c = self.chains@[key];
        let ghost n = c.count();
        proof {
            assert(c.slices[n - 1] + chain_slice_size(n - 1) <= self.cursor());
        }
        self.set(head, b);
        proof {
            let c2 = c.push(b);
            let m = old(self).bytes();
            let m2 = self.bytes();
            self.chains@ = old(self).chains@.insert(key, c2);
            Self::lemma_frame(old(self), self, self.cursor(), self.cursor(), key);
            lemma_capacity_monotonic((n - 1) as nat, (n - 1) as nat);
            assert(head == c.addr(n - 1, c.used()));
            assert(old(self).owner@[c.addr(n - 1, c.used())] == key);
            assert forall|i: int, j: int|
                0 <= i < n - 1 && 0 <= j < chain_slice_size(i) - 4 implies m2[#[trigger] c2.addr(
                i,
                j,
            )] == c2.data[chain_capacity(i as nat) + j] by {
                assert(c.slices[i] + chain_slice_size(i) <= c.slices[n - 1]);
                assert(m[c.addr(i, j)] == c.data[chain_capacity(i as nat) + j]);
                lemma_capacity_monotonic((i + 1) as nat, (n - 1) as nat);
                lemma_capacity_monotonic(i as nat, i as nat);
                assert(chain_capacity((i + 1) as nat) == chain_capacity(i as nat)
                    + chain_slice_size(i) - 4);
            }
            assert forall|i: int| 0 <= i < n - 1 implies #[trigger] pointer_at(m2, c2, i)
                == c2.slices[i + 1] by {
                assert(c.slices[i] + chain_slice_size(i) <= c.slices[n - 1]);
                assert(pointer_at(m, c, i) == c.slices[i + 1]);
            }
            assert forall|j: int| 0 <= j < c2.used() implies m2[#[trigger] c2.addr(n - 1, j)]
                == c2.data[chain_capacity((n - 1) as nat) + j] by {
                if j < c.used() {
                    assert(m[c.addr(n - 1, j)] == c.data[chain_capacity((n - 1) as nat) + j]);
                }
            }
            assert forall|j: int|
                c2.used() <= j < chain_slice_size(n - 1) - 1 implies m2[#[trigger] c2.addr(
                n - 1,
                j,
            )] == 0 by {
                assert(m[c.addr(n - 1, j)] == 0);
            }
            assert forall|i: int, j: int|
                0 <= i < n && 0 <= j < chain_slice_size(i) implies self.owner@[#[trigger] c2.addr(
                i,
                j,
            )] == key by {
                assert(old(self).owner@[c.addr(i, j)] == key);
            }
            assert(chain_ok(m2, self.owner@, self.cursor(), key, c2));
            assert forall|a: int| self.cursor() <= a < self.owner@.len() implies #[trigger] m2[a]
                == 0 by {
                assert(m[a] == 0);
                assert(old(self).owner@[a] == owner_free());
            }
        }
    }

    /// Continues a full stream in a slice of the next level. `buffer` and
    /// `upto` give the block and the position in it of the stream's write
    /// head, which stands on the marker of the full slice. The last three
    /// stream bytes of the full slice move to the front of the new one; their
    /// place and the marker's receive the new slice's offset. Returns the new
    /// write head.
    pub fn alloc_slice(&mut self, buffer: usize, upto: usize) -> (r: Result<usize, Error>)
        requires
            old(self).wf(),
            buffer < old(self).num_buffers(),
            upto < BYTE_BLOCK_SIZE,
            old(self).is_head(buffer * BYTE_BLOCK_SIZE + upto),
            old(self).streams()[old(self).stream_at(buffer * BYTE_BLOCK_SIZE + upto)].is_full(),
        ensures
            final(self).wf(),
            final(self).terms() == old(self).terms(),
            ({
                let head = buffer * BYTE_BLOCK_SIZE + upto;
                let key = old(self).stream_at(head);
                let chain = old(self).streams()[key];
                let size = level_size_spec(next_level_spec(chain.level()));
                match r {
                    Ok(new_head) => {
                        &&& old(self).can_allocate(size)
                        &&& new_head == old(self).next_start(size) + 3
                        &&& old(self).allocated(final(self), size, size)
                        &&& final(self).streams() == old(self).streams().insert(
                            key,
                            chain.extend(new_head - 3),
                        )
                        &&& be32(final(self).bytes(), head - 3) == new_head - 3
                    },
                    Err(e) => {
                        &&& e == Error::PoolExhausted
                        &&& !old(self).can_allocate(size)
                        &&& *final(self) == *old(self)
                    },
                }
            }),
    {
        let head = buffer * BYTE_BLOCK_SIZE + upto;
        let ghost key = self.owner@[head as int];
        let ghost c = self.chains@[key];
        let ghost n = c.count();
        proof {
            assert(c.slices[n - 1] + chain_slice_size(n - 1) <= self.cursor());
            assert(0 <= c.slices[n - 1]);
            assert(self.bytes()[c.last() + chain_slice_size(n - 1) - 1] == level_marker(c.level()));
        }
        let marker = self.get(head);
        let level = (marker - 16) as usize;
        let new_level = next_level(level);
        let new_size = level_size(new_level);
        let start = match self.reserve(new_size, new_size) {
            Ok(s) => s,
            Err(e) => {
                return Err(e);
            },
        };
        let ghost mid = *self;
        proof {
            assert(mid.bytes()[c.addr(n - 1, c.used() - 3)] == old(self).bytes()[c.addr(
                n - 1,
                c.used() - 3,
            )]);
            assert(mid.bytes()[c.addr(n - 1, c.used() - 2)] == old(self).bytes()[c.addr(
                n - 1,
                c.used() - 2,
            )]);
            assert(mid.bytes()[c.addr(n - 1, c.used() - 1)] == old(self).bytes()[c.addr(
                n - 1,
                c.used() - 1,
            )]);
        }
        self.copy_three(head - 3, start);
        self.write_be32(head - 3, start);
        self.set(start + new_size - 1, (16 + new_level) as u8);
        proof {
            self.owner@ = Seq::new(
                mid.owner@.len(),
                |a: int|
                    if start <= a < start + new_size {
                        key
                    } else {
                        mid.owner@[a]
                    },
            );
            self.chains@ = mid.chains@.insert(key, c.extend(start as int));
            assert(mid.chains@ == old(self).chains@);
            Self::lemma_alloc_slice(
                &mid,
                self,
                old(self).cursor(),
                key,
                head as int,
                start as int,
                new_size as int,
            );
        }
        Ok(start + 3)
    }

    proof fn lemma_alloc_slice(
        mid: &Self,
        after: &Self,
        limit: int,
        key: int,
        head: int,
        start: int,
        size: int,
    )
        requires
            mid.shape_ok(),
            after.shape_ok(),
            mid.tenants_ok(limit),
            mid.chains@.contains_key(key),
            mid.chains@[key].head() == head,
            mid.chains@[key].is_full(),
            size == level_size_spec(next_level_spec(mid.chains@[key].level())),
            0 <= limit <= start,
            start + size == after.cursor(),
            after.cursor() <= mid.owner@.len(),
            after.owner@.len() == mid.owner@.len(),
            forall|a: int| start <= a < mid.owner@.len() ==> #[trigger] mid.owner@[a] == owner_free(),
            forall|a: int| start <= a < mid.owner@.len() ==> #[trigger] mid.bytes()[a] == 0,
            forall|a: int|
                0 <= a < mid.owner@.len() ==> #[trigger] after.owner@[a] == (if start <= a < start
                    + size {
                    key
                } else {
                    mid.owner@[a]
                }),
            forall|a: int|
                0 <= a < mid.owner@.len() && !(head - 3 <= a <= head) && !(start <= a < start + 3)
                    && a != start + size - 1 ==> #[trigger] after.bytes()[a] == mid.bytes()[a],
            after.bytes()[start] == mid.bytes()[head - 3],
            after.bytes()[start + 1] == mid.bytes()[head - 2],
            after.bytes()[start + 2] == mid.bytes()[head - 1],
            be32(after.bytes(), head - 3) == start,
            after.bytes()[start + size - 1] == level_marker(next_level_spec(mid.chains@[key].level())),
            after.chains@ == mid.chains@.insert(key, mid.chains@[key].extend(start)),
            after.blobs@ == mid.blobs@,
        ensures
            after.tenants_ok(after.cursor()),
            after.fresh_above(after.cursor()),
    {
        let c = mid.chains@[key];
        let n = c.count();
        let c2 = c.extend(start);
        let m = mid.bytes();
        let m2 = after.bytes();
        let s = chain_slice_size(n - 1);
        assert(chain_ok(m, mid.owner@, limit, key, c));
        assert(0 <= c.slices[n - 1] && c.slices[n - 1] + s <= limit);
        assert(head == c.slices[n - 1] + s - 1);
        assert forall|a: int|
            0 <= a < limit && #[trigger] mid.owner@[a] != key && mid.owner@[a]
                != owner_free() implies m2[a] == m[a] && after.owner@[a] == mid.owner@[a] by {
            assert(mid.owner@[c.addr(n - 1, s - 4)] == key);
            assert(mid.owner@[c.addr(n - 1, s - 3)] == key);
            assert(mid.owner@[c.addr(n - 1, s - 2)] == key);
            assert(mid.owner@[c.addr(n - 1, s - 1)] == key);
        }
        Self::lemma_frame(mid, after, limit, after.cursor(), key);
        lemma_capacity_monotonic((n - 1) as nat, (n - 1) as nat);
        assert(chain_capacity(n as nat) == chain_capacity((n - 1) as nat) + s - 4);
        assert(c2.used() == 3);
        assert forall|i: int, j: int| 0 <= i < j < c2.count() implies #[trigger] c2.slices[i]
            + chain_slice_size(i) <= #[trigger] c2.slices[j] by {
            if j == n {
                assert(c.slices[i] + chain_slice_size(i) <= limit);
            } else {
                assert(c.slices[i] + chain_slice_size(i) <= c.slices[j]);
            }
        }
        assert(c2.layout_ok());
        assert forall|i: int| 0 <= i < n + 1 implies 0 <= #[trigger] c2.slices[i] && c2.slices[i]
            + chain_slice_size(i) <= after.cursor() by {
            if i < n {
                assert(0 <= c.slices[i] && c.slices[i] + chain_slice_size(i) <= limit);
            }
        }
        assert forall|i: int, j: int|
            0 <= i < n + 1 && 0 <= j < chain_slice_size(i) implies after.owner@[#[trigger] c2.addr(
            i,
            j,
        )] == key by {
            if i < n {
                assert(0 <= c.slices[i] && c.slices[i] + chain_slice_size(i) <= limit);
                assert(mid.owner@[c.addr(i, j)] == key);
            }
        }
        assert forall|i: int, j: int|
            0 <= i < n && 0 <= j < chain_slice_size(i) - 4 implies m2[#[trigger] c2.addr(i, j)]
            == c2.data[chain_capacity(i as nat) + j] by {
            assert(0 <= c.slices[i] && c.slices[i] + chain_slice_size(i) <= limit);
            if i < n - 1 {
                assert(c.slices[i] + chain_slice_size(i) <= c.slices[n - 1]);
                assert(m[c.addr(i, j)] == c.data[chain_capacity(i as nat) + j]);
            } else {
                assert(m[c.addr(n - 1, j)] == c.data[chain_capacity((n - 1) as nat) + j]);
            }
        }
        assert forall|i: int| 0 <= i < n implies #[trigger] pointer_at(m2, c2, i) == c2.slices[i
            + 1] by {
            assert(0 <= c.slices[i] && c.slices[i] + chain_slice_size(i) <= limit);
            if i < n - 1 {
                assert(c.slices[i] + chain_slice_size(i) <= c.slices[n - 1]);
                assert(pointer_at(m, c, i) == c.slices[i + 1]);
            } else {
                assert(pointer_at(m2, c2, i) == be32(m2, head - 3));
            }
        }
        assert forall|j: int| 0 <= j < c2.used() implies m2[#[trigger] c2.addr(n, j)]
            == c2.data[chain_capacity(n as nat) + j] by {
            assert(m[c.addr(n - 1, s - 4 + j)] == c.data[chain_capacity((n - 1) as nat) + s - 4
                + j]);
        }
        assert forall|j: int| c2.used() <= j < chain_slice_size(n) - 1 implies m2[#[trigger] c2.addr(
            n,
            j,
        )] == 0 by {
            assert(m[start + j] == 0);
        }
        assert(chain_level(n) == next_level_spec(chain_level(n - 1)));
        assert(chain_ok(m2, after.owner@, after.cursor(), key, c2));
        assert forall|a: int| after.cursor() <= a < after.owner@.len() implies #[trigger] m2[a]
            == 0 by {
            assert(m[a] == 0);
        }
        assert forall|a: int|
            after.cursor() <= a < after.owner@.len() implies #[trigger] after.owner@[a]
            == owner_free() by {
            assert(mid.owner@[a] == owner_free());
        }
    }


    /// What the invariant says of the arena's size.
    pub proof fn lemma_geometry(&self)
        requires
            self.wf(),
        ensures
            0 <= self.upto() <= BYTE_BLOCK_SIZE,
            0 <= self.num_buffers() <= self.limit() <= MAX_BYTE_BLOCKS,
            self.num_buffers() == 0 ==> self.upto() == BYTE_BLOCK_SIZE,
            0 <= self.cursor() <= self.num_buffers() * BYTE_BLOCK_SIZE <= 0x8000_0000,
            self.bytes().len() == self.num_buffers() * BYTE_BLOCK_SIZE,
    {
    }

    /// Every stream starts below the cursor, and so does its first slice
    /// end.
    pub proof fn lemma_streams_below_cursor(&self)
        requires
            self.wf(),
        ensures
            forall|k: int| #[trigger]
                self.streams().contains_key(k) ==> 0 <= k && k + FIRST_LEVEL_SIZE <= self.cursor(),
    {
        assert forall|k: int| #[trigger] self.streams().contains_key(k) implies 0 <= k && k
            + FIRST_LEVEL_SIZE <= self.cursor() by {
            let c = self.chains@[k];
            assert(0 <= c.slices[0] && c.slices[0] + chain_slice_size(0) <= self.cursor());
        }
    }

    /// What the invariant says of one stream: how it is laid out, that its
    /// write head lies inside the arena and belongs to it, and that the byte
    /// under the head is zero unless the slice is full.
    pub proof fn lemma_stream(&self, key: int)
        requires
            self.wf(),
            self.streams().contains_key(key),
        ensures
            self.streams()[key].layout_ok(),
            self.streams()[key].slices[0] == key,
            forall|i: int|
                0 <= i < self.streams()[key].count() ==> 0 <= #[trigger] self.streams()[key].slices[i]
                    && self.streams()[key].slices[i] + chain_slice_size(i) <= self.cursor(),
            self.cursor() <= self.num_buffers() * BYTE_BLOCK_SIZE <= 0x8000_0000,
            self.bytes().len() == self.num_buffers() * BYTE_BLOCK_SIZE,
            0 <= self.streams()[key].head() < self.cursor(),
            self.stream_at(self.streams()[key].head()) == key,
            self.is_head(self.streams()[key].head()),
            self.bytes()[self.streams()[key].head()] == (if self.streams()[key].is_full() {
                level_marker(self.streams()[key].level())
            } else {
                0
            }),
    {
        let c = self.chains@[key];
        let n = c.count();
        assert(0 <= c.slices[n - 1] && c.slices[n - 1] + chain_slice_size(n - 1) <= self.cursor());
        assert(self.owner@[c.addr(n - 1, c.used())] == key);
        if !c.is_full() {
            assert(self.bytes()[c.addr(n - 1, c.used())] == 0);
        }
    }

    /// The stream byte that a position of a slice holds: position `j` of the
    /// `i`-th slice of the stream `key`.
    pub proof fn lemma_stream_data(&self, key: int, i: int, j: int)
        requires
            self.wf(),
            self.streams().contains_key(key),
            0 <= i < self.streams()[key].count(),
            0 <= j,
            i < self.streams()[key].count() - 1 ==> j < chain_slice_size(i) - 4,
            i == self.streams()[key].count() - 1 ==> j < self.streams()[key].used(),
        ensures
            0 <= chain_capacity(i as nat) + j < self.streams()[key].data.len(),
            0 <= self.streams()[key].slices[i] + j < self.cursor(),
            self.bytes()[self.streams()[key].slices[i] + j] == self.streams()[key].data[chain_capacity(
                i as nat,
            ) + j],
    {
        let c = self.chains@[key];
        let n = c.count();
        assert(0 <= c.slices[i] && c.slices[i] + chain_slice_size(i) <= self.cursor());
        lemma_capacity_monotonic(i as nat, i as nat);
        if i < n - 1 {
            lemma_capacity_monotonic((i + 1) as nat, (n - 1) as nat);
            assert(self.bytes()[c.addr(i, j)] == c.data[chain_capacity(i as nat) + j]);
        } else {
            assert(self.bytes()[c.addr(n - 1, j)] == c.data[chain_capacity((n - 1) as nat) + j]);
        }
    }

    /// How many stream bytes precede the `i`-th slice of a stream, and that
    /// the stream holds them.
    pub proof fn lemma_stream_capacity(&self, key: int, i: int)
        requires
            self.wf(),
            self.streams().contains_key(key),
            0 <= i < self.streams()[key].count(),
        ensures
            0 <= chain_capacity(i as nat) <= chain_capacity((self.streams()[key].count() - 1) as nat)
                <= self.streams()[key].data.len(),
            i < self.streams()[key].count() - 1 ==> chain_capacity(i as nat) + chain_slice_size(i)
                - 4 <= chain_capacity((self.streams()[key].count() - 1) as nat),
    {
        let c = self.chains@[key];
        let n = c.count();
        lemma_capacity_monotonic(i as nat, (n - 1) as nat);
        if i < n - 1 {
            lemma_capacity_monotonic((i + 1) as nat, (n - 1) as nat);
        }
    }

    /// The last four bytes of a slice that has a successor hold the
    /// successor's offset.
    pub proof fn lemma_stream_forward(&self, key: int, i: int)
        requires
            self.wf(),
            self.streams().contains_key(key),
            0 <= i < self.streams()[key].count() - 1,
        ensures
            be32(self.bytes(), self.streams()[key].slices[i] + chain_slice_size(i) - 4)
                == self.streams()[key].slices[i + 1],
    {
        let c = self.chains@[key];
        assert(pointer_at(self.bytes(), c, i) == c.slices[i + 1]);
    }

    /// Stores a term at the cursor, behind a length prefix of one byte for
    /// lengths below 128 and of two bytes otherwise. A new block is started
    /// when the term and a two-byte prefix do not fit in the last one.
    /// Returns the offset of the prefix, which names the term from then on.
    pub fn append_term(&mut self, term: &[u8]) -> (r: Result<usize, Error>)
        requires
            old(self).wf(),
        ensures
            final(self).wf(),
            final(self).streams() == old(self).streams(),
            match r {
                Ok(start) => {
                    &&& term@.len() <= MAX_TERM_LENGTH
                    &&& old(self).can_allocate(term@.len() + 2int)
                    &&& start == old(self).next_start(term@.len() + 2int)
                    &&& old(self).allocated(
                        final(self),
                        term@.len() + 2int,
                        term_header_len(term@.len() as int) + term@.len(),
                    )
                    &&& !old(self).terms().contains_key(start as int)
                    &&& final(self).terms() == old(self).terms().insert(start as int, term@)
                    &&& final(self).cursor() <= 0x8000_0000
                },
                Err(e) => {
                    &&& *final(self) == *old(self)
                    &&& if term@.len() > MAX_TERM_LENGTH {
                        e == Error::MaxBytesLengthExceeded
                    } else {
                        e == Error::PoolExhausted && !old(self).can_allocate(term@.len() + 2int)
                    }
                },
            },
    {
        let len = term.len();
        if len > MAX_TERM_LENGTH {
            return Err(Error::MaxBytesLengthExceeded);
        }
        let header: usize = if len < 128 {
            1
        } else {
            2
        };
        let start = match self.reserve(len + 2, header + len) {
            Ok(s) => s,
            Err(e) => {
                return Err(e);
            },
        };
        let ghost mid = *self;
        if len < 128 {
            self.set(start, len as u8);
        } else {
            self.set(start, (128 + len % 128) as u8);
            self.set(start + 1, (len / 128) as u8);
        }
        let mut i: usize = 0;
        while i < len
            invariant
                self.shape_ok(),
                0 <= i <= len,
                len == term@.len(),
                header == term_header_len(len as int),
                start + header + len <= self.buffers@.len() * BYTE_BLOCK_SIZE,
                self.byte_upto == mid.byte_upto,
                self.max_buffers == mid.max_buffers,
                self.buffers@.len() == mid.buffers@.len(),
                self.chains == mid.chains,
                self.blobs == mid.blobs,
                self.owner == mid.owner,
                forall|a: int|
                    0 <= a < mid.owner@.len() && !(start <= a < start + header + i)
                        ==> #[trigger] self.bytes()[a] == mid.bytes()[a],
                if len < 128 {
                    self.bytes()[start as int] == len
                } else {
                    self.bytes()[start as int] == 128 + len % 128 && self.bytes()[start + 1] == len
                        / 128
                },
                forall|j: int|
                    0 <= j < i ==> self.bytes()[#[trigger] term_addr(start + header, j)] == term@[j],
            decreases len - i,
        {
            let ghost before = self.bytes();
            self.set(start + header + i, term[i]);
            proof {
                assert forall|j: int| 0 <= j < i + 1 implies self.bytes()[#[trigger] term_addr(
                    start + header,
                    j,
                )] == term@[j] by {
                    if j < i {
                        assert(before[term_addr(start + header, j)] == term@[j]);
                    }
                }
            }
            i += 1;
        }
        proof {
            let key = start as int;
            if mid.blobs@.contains_key(key) {
                assert(mid.owner@[term_addr(key, 0)] == owner_term());
                assert(false);
            }
            self.owner@ = Seq::new(
                mid.owner@.len(),
                |a: int|
                    if start <= a < start + header + len {
                        owner_term()
                    } else {
                        mid.owner@[a]
                    },
            );
            self.blobs@ = mid.blobs@.insert(key, term@);
            Self::lemma_frame(&mid, self, old(self).cursor(), self.cursor(), owner_free());
            assert(term_ok(self.bytes(), self.owner@, self.cursor(), key, term@));
            assert forall|a: int| self.cursor() <= a < self.owner@.len() implies #[trigger] self.bytes()[a]
                == 0 by {
                assert(mid.bytes()[a] == 0);
            }
            assert forall|a: int|
                self.cursor() <= a < self.owner@.len() implies #[trigger] self.owner@[a]
                == owner_free() by {
                assert(mid.owner@[a] == owner_free());
            }
        }
        Ok(start)
    }

    /// Where the bytes of the term at `offset` start, behind its length
    /// prefix, and how many they are.
    pub fn term_range(&self, offset: usize) -> (r: (usize, usize))
        requires
            self.wf(),
            self.terms().contains_key(offset as int),
        ensures
            r.1 == self.terms()[offset as int].len(),
            r.1 <= MAX_TERM_LENGTH,
            r.0 == offset + term_header_len(r.1 as int),
            r.0 + r.1 <= self.cursor(),
            self.cursor() <= self.num_buffers() * BYTE_BLOCK_SIZE <= 0x8000_0000,
            forall|j: int|
                0 <= j < r.1 ==> self.bytes()[r.0 + j] == #[trigger] self.terms()[offset as int][j],
    {
        let ghost t = self.blobs@[offset as int];
        proof {
            assert(term_ok(self.bytes(), self.owner@, self.cursor(), offset as int, t));
        }
        let first = self.get(offset);
        let (start, len) = if first < 128 {
            (offset + 1, first as usize)
        } else {
            let second = self.get(offset + 1);
            (offset + 2, (first as usize - 128) + second as usize * 128)
        };
        proof {
            assert forall|j: int| 0 <= j < len implies self.bytes()[start + j] == #[trigger] t[j] by {
                assert(self.bytes()[term_addr(start as int, j)] == t[j]);
            }
        }
        (start, len)
    }
}

} // verus!
