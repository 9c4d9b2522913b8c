//! Interning of terms: a hash table from the bytes of a term to a dense id.
//!
//! The bytes are stored once, in a [`ByteBlockPool`]; the table holds ids,
//! and a column gives each id the offset of its term in the pool. The table
//! is open-addressed with linear probing and doubles before it is half full.

use vstd::prelude::*;
use crate::error::Error;
use crate::util::byte_block_pool::{ByteBlockPool, MAX_TERM_LENGTH, term_header_len};

verus! {

/// The table never holds this many terms, so that ids fit in 31 bits.
pub const MAX_TERMS: usize = 0x2000_0000;
/// The table never has more slots than this.
pub const MAX_HASH_SIZE: usize = 0x4000_0000;
/// The table never has fewer slots than this.
pub const MIN_HASH_SIZE: usize = 4;

/// The hash code of a term: the polynomial of its bytes in base 31, modulo
/// 2^32.
pub open spec fn term_hash(s: Seq<u8>) -> u32
    decreases s.len(),
{
    if s.len() == 0 {
        0
    } else {
        ((term_hash(s.drop_last()) as int * 31 + s.last() as int) % 0x1_0000_0000) as u32
    }
}

/// `a` and `b` agree on their first `k` bytes, and there `a` ends while `b`
/// goes on, or `a` has the smaller byte.
pub open spec fn less_at(a: Seq<u8>, b: Seq<u8>, k: int) -> bool {
    &&& 0 <= k <= a.len()
    &&& k <= b.len()
    &&& a.take(k) == b.take(k)
    &&& if k == a.len() {
        k < b.len()
    } else {
        k < b.len() && a[k] < b[k]
    }
}

/// `a` comes strictly before `b` in the lexicographic order of unsigned
/// bytes.
pub open spec fn lex_less(a: Seq<u8>, b: Seq<u8>) -> bool {
    exists|k: int| less_at(a, b, k)
}

/// The lexicographic order is transitive.
pub proof fn lemma_lex_less_transitive(a: Seq<u8>, b: Seq<u8>, c: Seq<u8>)
    requires
        lex_less(a, b),
        lex_less(b, c),
    ensures
        lex_less(a, c),
{
    let k1 = choose|k: int| less_at(a, b, k);
    let k2 = choose|k: int| less_at(b, c, k);
    let k = if k1 < k2 {
        k1
    } else {
        k2
    };
    assert(a.take(k) =~= c.take(k)) by {
        assert forall|i: int| 0 <= i < k implies a[i] == c[i] by {
            assert(a.take(k1)[i] == b.take(k1)[i]);
            assert(b.take(k2)[i] == c.take(k2)[i]);
        }
    }
    if k1 < k2 {
        assert(b.take(k2)[k1] == c.take(k2)[k1]);
    } else if k2 < k1 {
        assert(a.take(k1)[k2] == b.take(k1)[k2]);
    }
    assert(less_at(a, c, k));
}

/// No byte string comes before itself.
pub proof fn lemma_lex_less_irreflexive(a: Seq<u8>)
    ensures
        !lex_less(a, a),
{
}

/// Slot `x` of a table of `size` slots is among the `k` slots that a probe
/// from slot `s` visits first.
pub open spec fn probed(s: int, k: int, x: int, size: int) -> bool {
    (s <= x < s + k) || (s <= x + size < s + k)
}

/// The slot that a probe from slot `s` reaches after `k` steps.
pub open spec fn probe_slot(s: int, k: int, size: int) -> int {
    if s + k < size {
        s + k
    } else {
        s + k - size
    }
}

proof fn lemma_pigeonhole(f: Seq<int>, m: int)
    requires
        0 <= m,
        forall|i: int| 0 <= i < f.len() ==> 0 <= #[trigger] f[i] < m,
        forall|i: int, j: int| 0 <= i < j < f.len() ==> #[trigger] f[i] != #[trigger] f[j],
    ensures
        f.len() <= m,
    decreases f.len(),
{
    if f.len() > 0 {
        let n = f.len() - 1;
        let last = f[n];
        // Send whatever maps to m - 1 to where the last element maps, and drop
        // the last element.
        let g = Seq::new(
            n as nat,
            |i: int|
                if f[i] == m - 1 {
                    last
                } else {
                    f[i]
                },
        );
        assert forall|i: int| 0 <= i < g.len() implies 0 <= #[trigger] g[i] < m - 1 by {
            assert(f[i] != f[n]);
        }
        assert forall|i: int, j: int| 0 <= i < j < g.len() implies #[trigger] g[i]
            != #[trigger] g[j] by {
            assert(f[i] != f[j]);
            assert(f[i] != f[n]);
            assert(f[j] != f[n]);
        }
        assert(0 <= f[0] < m);
        lemma_pigeonhole(g, m - 1);
    }
}

/// The hash code of `bytes`.
pub fn hash_bytes(bytes: &[u8]) -> (code: u32)
    ensures
        code == term_hash(bytes@),
{
    let mut code: u32 = 0;
    let mut i: usize = 0;
    while i < bytes.len()
        invariant
            0 <= i <= bytes@.len(),
            code == term_hash(bytes@.take(i as int)),
        decreases bytes@.len() - i,
    {
        proof {
            assert(bytes@.take(i + 1).drop_last() =~= bytes@.take(i as int));
        }
        code = ((code as u64 * 31 + bytes[i] as u64) % 0x1_0000_0000) as u32;
        i += 1;
    }
    proof {
        assert(bytes@.take(bytes@.len() as int) =~= bytes@);
    }
    code
}

/// The hash code of the term stored at `offset` of `pool`.
pub fn hash_term(pool: &ByteBlockPool, offset: usize) -> (code: u32)
    requires
        pool.wf(),
        pool.terms().contains_key(offset as int),
    ensures
        code == term_hash(pool.terms()[offset as int]),
{
    let (start, len) = pool.term_range(offset);
    let ghost t = pool.terms()[offset as int];
    let mut code: u32 = 0;
    let mut i: usize = 0;
    while i < len
        invariant
            0 <= i <= len,
            len == t.len(),
            pool.wf(),
            start + len <= pool.num_buffers() * 32768 <= 0x8000_0000,
            t == pool.terms()[offset as int],
            forall|j: int| 0 <= j < len ==> pool.bytes()[start + j] == #[trigger] t[j],
            code == term_hash(t.take(i as int)),
        decreases len - i,
    {
        proof {
            assert(t.take(i + 1).drop_last() =~= t.take(i as int));
            assert(pool.bytes()[start + i] == t[i as int]);
        }
        let b = pool.byte(start + i);
        code = ((code as u64 * 31 + b as u64) % 0x1_0000_0000) as u32;
        i += 1;
    }
    proof {
        assert(t.take(t.len() as int) =~= t);
    }
    code
}

/// Whether the term stored at `offset` of `pool` is `bytes`.
pub fn term_equals(pool: &ByteBlockPool, offset: usize, bytes: &[u8]) -> (same: bool)
    requires
        pool.wf(),
        pool.terms().contains_key(offset as int),
    ensures
        same == (pool.terms()[offset as int] == bytes@),
{
    let (start, len) = pool.term_range(offset);
    let ghost t = pool.terms()[offset as int];
    if len != bytes.len() {
        return false;
    }
    let mut i: usize = 0;
    while i < len
        invariant
            0 <= i <= len,
            len == t.len(),
            len == bytes@.len(),
            pool.wf(),
            start + len <= pool.num_buffers() * 32768 <= 0x8000_0000,
            t == pool.terms()[offset as int],
            forall|j: int| 0 <= j < len ==> pool.bytes()[start + j] == #[trigger] t[j],
            forall|j: int| 0 <= j < i ==> t[j] == bytes@[j],
        decreases len - i,
    {
        proof {
            assert(pool.bytes()[start + i] == t[i as int]);
        }
        if pool.byte(start + i) != bytes[i] {
            return false;
        }
        i += 1;
    }
    proof {
        assert(t =~= bytes@);
    }
    true
}

/// Compares the terms stored at `a` and `b` of `pool` in the lexicographic
/// order of unsigned bytes: -1 when the first comes before the second, 1
/// when it comes after, 0 when they are the same term.
pub fn term_order(pool: &ByteBlockPool, a: usize, b: usize) -> (order: i8)
    requires
        pool.wf(),
        pool.terms().contains_key(a as int),
        pool.terms().contains_key(b as int),
    ensures
        order == -1 || order == 0 || order == 1,
        order == -1 ==> lex_less(pool.terms()[a as int], pool.terms()[b as int]),
        order == 1 ==> lex_less(pool.terms()[b as int], pool.terms()[a as int]),
        order == 0 ==> pool.terms()[a as int] == pool.terms()[b as int],
{
    let (start_a, len_a) = pool.term_range(a);
    let (start_b, len_b) = pool.term_range(b);
    let ghost ta = pool.terms()[a as int];
    let ghost tb = pool.terms()[b as int];
    let mut i: usize = 0;
    while i < len_a && i < len_b
        invariant
            0 <= i <= len_a,
            i <= len_b,
            len_a == ta.len(),
            len_b == tb.len(),
            pool.wf(),
            start_a + len_a <= pool.num_buffers() * 32768 <= 0x8000_0000,
            start_b + len_b <= pool.num_buffers() * 32768,
            ta == pool.terms()[a as int],
            tb == pool.terms()[b as int],
            forall|j: int| 0 <= j < len_a ==> pool.bytes()[start_a + j] == #[trigger] ta[j],
            forall|j: int| 0 <= j < len_b ==> pool.bytes()[start_b + j] == #[trigger] tb[j],
            ta.take(i as int) == tb.take(i as int),
        decreases len_a - i,
    {
        proof {
            assert(pool.bytes()[start_a + i] == ta[i as int]);
            assert(pool.bytes()[start_b + i] == tb[i as int]);
        }
        let x = pool.byte(start_a + i);
        let y = pool.byte(start_b + i);
        if x < y {
            proof {
                assert(less_at(ta, tb, i as int));
            }
            return -1;
        }
        if x > y {
            proof {
                assert(less_at(tb, ta, i as int));
            }
            return 1;
        }
        proof {
            assert(ta.take(i + 1) =~= ta.take(i as int).push(ta[i as int]));
            assert(tb.take(i + 1) =~= tb.take(i as int).push(tb[i as int]));
        }
        i += 1;
    }
    if len_a < len_b {
        proof {
            assert(less_at(ta, tb, i as int));
        }
        -1
    } else if len_a > len_b {
        proof {
            assert(less_at(tb, ta, i as int));
        }
        1
    } else {
        proof {
            assert(ta.take(i as int) =~= ta);
            assert(tb.take(i as int) =~= tb);
        }
        0
    }
}


/// The state of the slots once the first `n` ids are in the table: `ids` are
/// the slots, `homes` gives each id the slot where its probe starts, `dist`
/// how many steps further it was put. Every slot on the way from an id's
/// home to its place is taken.
spec fn slots_ok(ids: Seq<i32>, dist: Seq<int>, homes: Seq<int>, n: int) -> bool {
    let size = ids.len() as int;
    &&& 0 <= n <= dist.len()
    &&& n <= homes.len()
    &&& forall|p: int| 0 <= p < size ==> -1 <= #[trigger] ids[p] < n
    &&& forall|e: int|
        0 <= e < n ==> 0 <= #[trigger] dist[e] < size && 0 <= homes[e] < size && ids[probe_slot(
            homes[e],
            dist[e],
            size,
        )] == e
    &&& forall|p: int|
        0 <= p < size && #[trigger] ids[p] != -1 ==> probe_slot(
            homes[ids[p] as int],
            dist[ids[p] as int],
            size,
        ) == p
    &&& forall|e: int, x: int|
        0 <= e < n && 0 <= x < size && #[trigger] probed(homes[e], dist[e], x, size) ==> ids[x]
            != -1
}

proof fn lemma_table_has_gap(ids: Seq<i32>, dist: Seq<int>, homes: Seq<int>, n: int)
    requires
        slots_ok(ids, dist, homes, n),
        forall|p: int| 0 <= p < ids.len() ==> #[trigger] ids[p] != -1,
    ensures
        ids.len() <= n,
{
    let f = Seq::new(ids.len(), |p: int| ids[p] as int);
    assert forall|i: int, j: int| 0 <= i < j < f.len() implies #[trigger] f[i]
        != #[trigger] f[j] by {
        assert(ids[i] != -1);
        assert(ids[j] != -1);
    }
    lemma_pigeonhole(f, n);
}

proof fn lemma_insert_slot(
    ids: Seq<i32>,
    dist: Seq<int>,
    homes: Seq<int>,
    n: int,
    homes2: Seq<int>,
    pos: int,
    k: int,
)
    requires
        slots_ok(ids, dist, homes, n),
        dist.len() == n,
        n < i32::MAX,
        homes2.len() > n,
        forall|e: int| 0 <= e < n ==> homes2[e] == homes[e],
        0 <= homes2[n] < ids.len(),
        0 <= k < ids.len(),
        pos == probe_slot(homes2[n], k, ids.len() as int),
        ids[pos] == -1,
        forall|x: int|
            0 <= x < ids.len() && #[trigger] probed(homes2[n], k, x, ids.len() as int) ==> ids[x]
                != -1,
    ensures
        slots_ok(ids.update(pos, n as i32), dist.push(k), homes2, n + 1),
{
    let size = ids.len() as int;
    let ids2 = ids.update(pos, n as i32);
    let dist2 = dist.push(k);
    assert forall|e: int| 0 <= e < n + 1 implies 0 <= #[trigger] dist2[e] < size && 0
        <= homes2[e] < size && ids2[probe_slot(homes2[e], dist2[e], size)] == e by {
        if e < n {
            assert(0 <= dist[e] < size);
        }
    }
    assert forall|p: int| 0 <= p < size && #[trigger] ids2[p] != -1 implies probe_slot(
        homes2[ids2[p] as int],
        dist2[ids2[p] as int],
        size,
    ) == p by {
        if p != pos {
            assert(ids[p] != -1);
        }
    }
    assert forall|e: int, x: int|
        0 <= e < n + 1 && 0 <= x < size && #[trigger] probed(
            homes2[e],
            dist2[e],
            x,
            size,
        ) implies ids2[x] != -1 by {
        if e < n {
            assert(0 <= dist[e] < size);
            assert(probed(homes[e], dist[e], x, size));
        }
    }
    assert forall|p: int| 0 <= p < size implies -1 <= #[trigger] ids2[p] < n + 1 by {
        if p != pos {
            assert(-1 <= ids[p] < n);
        }
    }
}

/// Finds, on the probe that starts at `home`, the first free slot.
fn probe_free(
    ids: &Vec<i32>,
    home: usize,
    Ghost(dist): Ghost<Seq<int>>,
    Ghost(homes): Ghost<Seq<int>>,
    Ghost(n): Ghost<int>,
) -> (r: (usize, Ghost<int>))
    requires
        slots_ok(ids@, dist, homes, n),
        n < ids@.len(),
        home < ids@.len(),
    ensures
        r.0 < ids@.len(),
        0 <= r.1@ < ids@.len(),
        r.0 == probe_slot(home as int, r.1@, ids@.len() as int),
        ids@[r.0 as int] == -1,
        forall|x: int|
            0 <= x < ids@.len() && #[trigger] probed(home as int, r.1@, x, ids@.len() as int)
                ==> ids@[x] != -1,
{
    let size = ids.len();
    let mut pos = home;
    let ghost mut k: int = 0;
    loop
        invariant
            size == ids@.len(),
            slots_ok(ids@, dist, homes, n),
            n < size,
            home < size,
            0 <= k < size,
            pos == probe_slot(home as int, k, size as int),
            forall|x: int|
                0 <= x < size && #[trigger] probed(home as int, k, x, size as int) ==> ids@[x]
                    != -1,
        decreases size - k,
    {
        if ids[pos] == -1 {
            return (pos, Ghost(k));
        }
        proof {
            assert forall|x: int|
                0 <= x < size && #[trigger] probed(home as int, k + 1, x, size as int) implies ids@[x]
                != -1 by {
                if x != pos {
                    assert(probed(home as int, k, x, size as int));
                }
            }
            if k + 1 == size {
                assert forall|p: int| 0 <= p < size implies #[trigger] ids@[p] != -1 by {
                    assert(probed(home as int, k + 1, p, size as int));
                }
                lemma_table_has_gap(ids@, dist, homes, n);
            }
            k = k + 1;
        }
        pos = if pos + 1 == size {
            0
        } else {
            pos + 1
        };
    }
}

/// A list with one more entry holds what it held, and the new entry.
proof fn lemma_contains_push<A>(s: Seq<A>, x: A)
    ensures
        forall|e: A| #[trigger] s.push(x).contains(e) <==> s.contains(e) || e == x,
{
    assert forall|e: A| #[trigger] s.push(x).contains(e) <==> s.contains(e) || e == x by {
        if s.push(x).contains(e) {
            let k = choose|k: int| 0 <= k < s.push(x).len() && s.push(x)[k] == e;
            if k < s.len() {
                assert(s[k] == e);
            }
        }
        if s.contains(e) {
            let k = choose|k: int| 0 <= k < s.len() && s[k] == e;
            assert(s.push(x)[k] == e);
        }
        if e == x {
            assert(s.push(x)[s.len() as int] == e);
        }
    }
}

/// The term table: the slots of the hash table, and the column of term
/// offsets.
pub struct BytesRefHash {
    ids: Vec<i32>,
    bytes_start: Vec<u32>,
    by_offset: bool,
    dist: Ghost<Seq<int>>,
}

impl BytesRefHash {
    /// The column of term offsets: for each id, where its term lies in the
    /// pool.
    pub closed spec fn starts(&self) -> Seq<u32> {
        self.bytes_start@
    }

    /// Number of slots of the table.
    pub closed spec fn capacity(&self) -> int {
        self.ids@.len() as int
    }

    /// Number of interned terms.
    pub open spec fn count(&self) -> int {
        self.starts().len() as int
    }

    /// The interned terms, by id.
    pub open spec fn terms(&self, pool: &ByteBlockPool) -> Seq<Seq<u8>> {
        Seq::new(self.starts().len(), |e: int| pool.terms()[self.starts()[e] as int])
    }

    spec fn homes(&self, pool: &ByteBlockPool) -> Seq<int> {
        Seq::new(
            self.bytes_start@.len(),
            |e: int| term_hash(pool.terms()[self.bytes_start@[e] as int]) as int % (self.ids@.len() as int),
        )
    }

    spec fn entries_ok(&self, pool: &ByteBlockPool) -> bool {
        &&& pool.wf()
        &&& MIN_HASH_SIZE <= self.ids@.len() <= MAX_HASH_SIZE
        &&& self.bytes_start@.len() < MAX_TERMS
        &&& self.bytes_start@.len() < self.ids@.len()
        &&& self.dist@.len() == self.bytes_start@.len()
        &&& forall|e: int|
            0 <= e < self.bytes_start@.len() ==> pool.terms().contains_key(
                #[trigger] self.bytes_start@[e] as int,
            )
        &&& forall|e1: int, e2: int|
            0 <= e1 < e2 < self.bytes_start@.len() ==> #[trigger] self.terms(pool)[e1]
                != #[trigger] self.terms(pool)[e2]
        &&& slots_ok(self.ids@, self.dist@, self.homes(pool), self.bytes_start@.len() as int)
    }

    /// The table's invariant with respect to the pool that holds its terms:
    /// every id has its term in the pool, no term has two ids, every id is
    /// found by the probe for its term, and the table is less than half
    /// full.
    pub closed spec fn wf(&self, pool: &ByteBlockPool) -> bool {
        &&& !self.by_offset
        &&& self.entries_ok(pool)
        &&& 2 * self.bytes_start@.len() < self.ids@.len()
    }

    /// What the invariant lets every caller know.
    pub proof fn lemma_wf(&self, pool: &ByteBlockPool)
        requires
            self.wf(pool),
        ensures
            pool.wf(),
            self.count() < MAX_TERMS,
            MIN_HASH_SIZE <= self.capacity() <= MAX_HASH_SIZE,
            2 * self.count() < self.capacity(),
            forall|e: int|
                0 <= e < self.count() ==> pool.terms().contains_key(
                    #[trigger] self.starts()[e] as int,
                ),
            forall|e1: int, e2: int|
                0 <= e1 < self.count() && 0 <= e2 < self.count() && e1 != e2
                    ==> #[trigger] self.terms(pool)[e1] != #[trigger] self.terms(pool)[e2],
    {
        assert forall|e1: int, e2: int|
            0 <= e1 < self.count() && 0 <= e2 < self.count() && e1 != e2 implies #[trigger] self.terms(
            pool,
        )[e1] != #[trigger] self.terms(pool)[e2] by {
            if e1 < e2 {
                assert(self.terms(pool)[e1] != self.terms(pool)[e2]);
            } else {
                assert(self.terms(pool)[e2] != self.terms(pool)[e1]);
            }
        }
    }

    /// No term has two ids: the id of a term is where the term stands among
    /// the terms.
    pub proof fn lemma_index_of(&self, pool: &ByteBlockPool, id: int)
        requires
            self.wf(pool),
            0 <= id < self.count(),
        ensures
            self.terms(pool).index_of(self.terms(pool)[id]) == id,
    {
        let terms = self.terms(pool);
        let i = terms.index_of(terms[id]);
        assert(0 <= i < terms.len() && terms[i] == terms[id]);
        self.lemma_wf(pool);
        if i != id {
            assert(terms[i] != terms[id]);
        }
    }

    /// The invariant does not depend on what else the pool holds: it carries
    /// over to any pool with the same terms.
    pub proof fn lemma_same_terms(&self, pool: &ByteBlockPool, other: &ByteBlockPool)
        requires
            self.wf(pool),
            other.wf(),
            other.terms() == pool.terms(),
        ensures
            self.wf(other),
            self.terms(other) == self.terms(pool),
    {
        assert(self.homes(other) =~= self.homes(pool));
        assert(self.terms(other) =~= self.terms(pool));
    }

    /// An empty table of `capacity` slots, or of the nearest number that the
    /// table admits.
    pub fn new(capacity: usize) -> (hash: Self)
        ensures
            hash.count() == 0,
            hash.capacity() == (if capacity < MIN_HASH_SIZE {
                MIN_HASH_SIZE
            } else if capacity > MAX_HASH_SIZE {
                MAX_HASH_SIZE
            } else {
                capacity
            }),
            forall|pool: &ByteBlockPool| pool.wf() ==> #[trigger] hash.wf(pool),
    {
        let size = if capacity < MIN_HASH_SIZE {
            MIN_HASH_SIZE
        } else if capacity > MAX_HASH_SIZE {
            MAX_HASH_SIZE
        } else {
            capacity
        };
        let ids: Vec<i32> = vec![-1i32; size];
        BytesRefHash { ids, bytes_start: Vec::new(), by_offset: false, dist: Ghost(Seq::empty()) }
    }

    /// Number of slots of the table.
    pub fn slots(&self) -> (n: usize)
        ensures
            n == self.capacity(),
    {
        self.ids.len()
    }

    /// Number of interned terms.
    pub fn size(&self) -> (n: usize)
        ensures
            n == self.count(),
    {
        self.bytes_start.len()
    }

    /// Where the term of `id` lies in the pool.
    pub fn byte_start(&self, id: usize) -> (offset: usize)
        requires
            id < self.count(),
        ensures
            offset == self.starts()[id as int],
    {
        self.bytes_start[id] as usize
    }

    /// The bytes of the term of `id`.
    pub fn get(&self, pool: &ByteBlockPool, id: usize) -> (term: Vec<u8>)
        requires
            self.wf(pool),
            id < self.count(),
        ensures
            term@ == self.terms(pool)[id as int],
    {
        let offset = self.bytes_start[id] as usize;
        let (start, len) = pool.term_range(offset);
        let ghost t = pool.terms()[offset as int];
        let mut term: Vec<u8> = Vec::with_capacity(len);
        let mut i: usize = 0;
        while i < len
            invariant
                0 <= i <= len,
                len == t.len(),
                pool.wf(),
                start + len <= pool.num_buffers() * 32768 <= 0x8000_0000,
                forall|j: int| 0 <= j < len ==> pool.bytes()[start + j] == #[trigger] t[j],
                term@ == t.take(i as int),
            decreases len - i,
        {
            proof {
                assert(pool.bytes()[start + i] == t[i as int]);
                assert(t.take(i + 1) =~= t.take(i as int).push(t[i as int]));
            }
            term.push(pool.byte(start + i));
            i += 1;
        }
        proof {
            assert(t.take(len as int) =~= t);
        }
        term
    }

    /// Probes for `bytes`, whose hash code is `code`: stops at the slot that
    /// holds the id of `bytes`, or at the free slot where it would go.
    fn find_slot(&self, pool: &ByteBlockPool, bytes: &[u8], code: u32) -> (r: (usize, Ghost<int>))
        requires
            self.wf(pool),
            code == term_hash(bytes@),
        ensures
            r.0 < self.ids@.len(),
            0 <= r.1@ < self.ids@.len(),
            0 <= code as int % (self.ids@.len() as int) < self.ids@.len(),
            r.0 == probe_slot(
                code as int % (self.ids@.len() as int),
                r.1@,
                self.ids@.len() as int,
            ),
            forall|x: int|
                0 <= x < self.ids@.len() && #[trigger] probed(
                    code as int % (self.ids@.len() as int),
                    r.1@,
                    x,
                    self.ids@.len() as int,
                ) ==> self.ids@[x] != -1,
            self.ids@[r.0 as int] == -1 ==> forall|e: int|
                0 <= e < self.count() ==> #[trigger] self.terms(pool)[e] != bytes@,
            self.ids@[r.0 as int] != -1 ==> 0 <= self.ids@[r.0 as int] < self.count()
                && self.terms(pool)[self.ids@[r.0 as int] as int] == bytes@,
    {
        let size = self.ids.len();
        let home = (code as usize) % size;
        let mut pos = home;
        let ghost mut k: int = 0;
        let ghost homes = self.homes(pool);
        let ghost n = self.bytes_start@.len() as int;
        proof {
            vstd::arithmetic::div_mod::lemma_mod_pos_bound(code as int, size as int);
        }
        loop
            invariant
                self.wf(pool),
                size == self.ids@.len(),
                homes == self.homes(pool),
                n == self.bytes_start@.len(),
                home == code as int % (size as int),
                code == term_hash(bytes@),
                home < size,
                0 <= k < size,
                pos == probe_slot(home as int, k, size as int),
                forall|x: int|
                    0 <= x < size && #[trigger] probed(home as int, k, x, size as int)
                        ==> self.ids@[x] != -1 && self.terms(pool)[self.ids@[x] as int] != bytes@,
            decreases size - k,
        {
            let e = self.ids[pos];
            if e == -1 {
                proof {
                    assert forall|e2: int| 0 <= e2 < self.count() implies #[trigger] self.terms(
                        pool,
                    )[e2] != bytes@ by {
                        if self.terms(pool)[e2] == bytes@ {
                            let d = self.dist@[e2];
                            assert(homes[e2] == home);
                            let slot = probe_slot(home as int, d, size as int);
                            assert(self.ids@[slot] == e2);
                            if d < k {
                                assert(probed(home as int, k, slot, size as int));
                            } else if d > k {
                                assert(probed(homes[e2], d, pos as int, size as int));
                            }
                            assert(false);
                        }
                    }
                }
                return (pos, Ghost(k));
            }
            if term_equals(pool, self.bytes_start[e as usize] as usize, bytes) {
                return (pos, Ghost(k));
            }
            proof {
                assert forall|x: int|
                    0 <= x < size && #[trigger] probed(
                        home as int,
                        k + 1,
                        x,
                        size as int,
                    ) implies self.ids@[x] != -1 && self.terms(pool)[self.ids@[x] as int]
                    != bytes@ by {
                    if x != pos {
                        assert(probed(home as int, k, x, size as int));
                    }
                }
                if k + 1 == size {
                    assert forall|p: int| 0 <= p < size implies #[trigger] self.ids@[p] != -1 by {
                        assert(probed(home as int, k + 1, p, size as int));
                    }
                    lemma_table_has_gap(self.ids@, self.dist@, homes, n);
                }
                k = k + 1;
            }
            pos = if pos + 1 == size {
                0
            } else {
                pos + 1
            };
        }
    }

    /// The id of `bytes`, or -1 when `bytes` is not interned.
    pub fn find(&self, pool: &ByteBlockPool, bytes: &[u8]) -> (id: i32)
        requires
            self.wf(pool),
        ensures
            -1 <= id < self.count(),
            id == -1 ==> !self.terms(pool).contains(bytes@),
            id != -1 ==> self.terms(pool)[id as int] == bytes@ && self.terms(pool).index_of(bytes@)
                == id,
    {
        let code = hash_bytes(bytes);
        let (pos, _k) = self.find_slot(pool, bytes, code);
        proof {
            if self.ids@[pos as int] != -1 {
                self.lemma_index_of(pool, self.ids@[pos as int] as int);
            }
        }
        self.ids[pos]
    }

    /// Number of slots once the table holds `count` terms: twice as many as
    /// before, as far as the largest table allows, when the table would
    /// otherwise be half full.
    pub open spec fn capacity_for(&self, count: int) -> int {
        if 2 * count >= self.capacity() {
            if 2 * self.capacity() > MAX_HASH_SIZE {
                MAX_HASH_SIZE as int
            } else {
                2 * self.capacity()
            }
        } else {
            self.capacity()
        }
    }

    /// Why `bytes`, not yet interned, cannot be interned now; `None` when it
    /// can.
    pub open spec fn add_error(&self, pool: &ByteBlockPool, bytes: Seq<u8>) -> Option<Error> {
        if self.count() + 1 >= MAX_TERMS {
            Some(Error::TooManyTerms)
        } else if bytes.len() > MAX_TERM_LENGTH {
            Some(Error::MaxBytesLengthExceeded)
        } else if !pool.can_allocate(bytes.len() + 2int) {
            Some(Error::PoolExhausted)
        } else {
            None
        }
    }

    /// Rebuilds the table with twice as many slots, as far as the largest
    /// table allows, from the terms in the pool.
    fn rehash(&mut self, pool: &ByteBlockPool)
        requires
            !old(self).by_offset,
            old(self).entries_ok(pool),
            old(self).bytes_start@.len() < old(self).ids@.len(),
        ensures
            final(self).wf(pool),
            final(self).bytes_start == old(self).bytes_start,
            final(self).ids@.len() == (if 2 * old(self).ids@.len() > MAX_HASH_SIZE {
                MAX_HASH_SIZE as int
            } else {
                2 * old(self).ids@.len() as int
            }),
    {
        let size = self.ids.len();
        let new_size = if 2 * size > MAX_HASH_SIZE {
            MAX_HASH_SIZE
        } else {
            2 * size
        };
        let count = self.bytes_start.len();
        let mut new_ids: Vec<i32> = vec![-1i32; new_size];
        let ghost mut new_dist: Seq<int> = Seq::empty();
        let ghost homes2 = Seq::new(
            count as nat,
            |e: int| term_hash(pool.terms()[self.bytes_start@[e] as int]) as int % (new_size as int),
        );
        let mut e: usize = 0;
        while e < count
            invariant
                0 <= e <= count,
                count == self.bytes_start@.len(),
                count < MAX_TERMS,
                2 * count < new_size,
                new_ids@.len() == new_size,
                new_dist.len() == e,
                pool.wf(),
                forall|i: int|
                    0 <= i < count ==> pool.terms().contains_key(
                        #[trigger] self.bytes_start@[i] as int,
                    ),
                homes2 == Seq::new(
                    count as nat,
                    |e: int|
                        term_hash(pool.terms()[self.bytes_start@[e] as int]) as int % (
                        new_size as int),
                ),
                slots_ok(new_ids@, new_dist, homes2, e as int),
            decreases count - e,
        {
            proof {
                assert(pool.terms().contains_key(self.bytes_start@[e as int] as int));
            }
            let code = hash_term(pool, self.bytes_start[e] as usize);
            let home = (code as usize) % new_size;
            proof {
                vstd::arithmetic::div_mod::lemma_mod_pos_bound(code as int, new_size as int);
            }
            let (pos, Ghost(k)) = probe_free(
                &new_ids,
                home,
                Ghost(new_dist),
                Ghost(homes2),
                Ghost(e as int),
            );
            proof {
                lemma_insert_slot(new_ids@, new_dist, homes2, e as int, homes2, pos as int, k);
                new_dist = new_dist.push(k);
            }
            new_ids[pos] = e as i32;
            e += 1;
        }
        self.ids = new_ids;
        self.dist = Ghost(new_dist);
        proof {
            assert(self.homes(pool) =~= homes2);
            assert(self.terms(pool) =~= old(self).terms(pool));
        }
    }

    /// Interns `bytes`. Returns the new id when `bytes` was not interned
    /// before, and `-(id + 1)` when it was, under `id`.
    pub fn add(&mut self, pool: &mut ByteBlockPool, bytes: &[u8]) -> (r: Result<i32, Error>)
        requires
            old(self).wf(old(pool)),
        ensures
            final(self).wf(final(pool)),
            final(pool).streams() == old(pool).streams(),
            r matches Ok(id) ==> interned(
                old(self).terms(old(pool)),
                bytes@,
                final(self).terms(final(pool)),
                id as int,
            ),
            match r {
                Ok(id) => if id >= 0 {
                    &&& !old(self).terms(old(pool)).contains(bytes@)
                    &&& old(self).add_error(old(pool), bytes@) is None
                    &&& id == old(self).count()
                    &&& final(self).capacity() == old(self).capacity_for(old(self).count() + 1)
                    &&& final(self).terms(final(pool)) == old(self).terms(old(pool)).push(bytes@)
                    &&& final(self).starts() == old(self).starts().push(
                        old(pool).next_start(bytes@.len() + 2int) as u32,
                    )
                    &&& !old(pool).terms().contains_key(old(pool).next_start(bytes@.len() + 2int))
                    &&& final(pool).terms() == old(pool).terms().insert(
                        old(pool).next_start(bytes@.len() + 2int),
                        bytes@,
                    )
                    &&& old(pool).allocated(
                        final(pool),
                        bytes@.len() + 2int,
                        term_header_len(bytes@.len() as int) + bytes@.len(),
                    )
                } else {
                    &&& 0 <= -(id + 1) < old(self).count()
                    &&& old(self).terms(old(pool))[-(id + 1)] == bytes@
                    &&& old(self).terms(old(pool)).index_of(bytes@) == -(id + 1)
                    &&& *final(self) == *old(self)
                    &&& *final(pool) == *old(pool)
                },
                Err(e) => {
                    &&& !old(self).terms(old(pool)).contains(bytes@)
                    &&& old(self).add_error(old(pool), bytes@) == Some(e)
                    &&& *final(self) == *old(self)
                    &&& *final(pool) == *old(pool)
                },
            },
    {
        let code = hash_bytes(bytes);
        let (pos, Ghost(k)) = self.find_slot(pool, bytes, code);
        let e = self.ids[pos];
        if e != -1 {
            proof {
                self.lemma_index_of(pool, e as int);
            }
            return Ok(-(e + 1));
        }
        let id = self.bytes_start.len();
        if id + 1 >= MAX_TERMS {
            return Err(Error::TooManyTerms);
        }
        let offset = match pool.append_term(bytes) {
            Ok(o) => o,
            Err(e) => {
                return Err(e);
            },
        };
        let ghost homes = old(self).homes(old(pool));
        self.bytes_start.push(offset as u32);
        self.ids[pos] = id as i32;
        proof {
            self.dist@ = self.dist@.push(k);
            let homes2 = self.homes(pool);
            assert forall|i: int| 0 <= i < id implies homes2[i] == homes[i] by {
                assert(old(pool).terms().contains_key(old(self).bytes_start@[i] as int));
            }
            assert(pool.terms()[offset as int] == bytes@);
            lemma_insert_slot(
                old(self).ids@,
                old(self).dist@,
                homes,
                id as int,
                homes2,
                pos as int,
                k,
            );
            assert forall|i: int| 0 <= i < self.bytes_start@.len() implies pool.terms().contains_key(
                #[trigger] self.bytes_start@[i] as int,
            ) by {
                if i < id {
                    assert(old(pool).terms().contains_key(old(self).bytes_start@[i] as int));
                }
            }
            assert forall|i: int| 0 <= i < id implies self.terms(pool)[i] == old(self).terms(
                old(pool),
            )[i] by {
                assert(old(pool).terms().contains_key(old(self).bytes_start@[i] as int));
            }
            assert(self.terms(pool) =~= old(self).terms(old(pool)).push(bytes@));
            assert forall|e1: int, e2: int|
                0 <= e1 < e2 < self.bytes_start@.len() implies #[trigger] self.terms(pool)[e1]
                != #[trigger] self.terms(pool)[e2] by {
                if e2 < id {
                    assert(old(self).terms(old(pool))[e1] != old(self).terms(old(pool))[e2]);
                } else {
                    assert(old(self).terms(old(pool))[e1] != bytes@);
                }
            }
        }
        if 2 * (id + 1) >= self.ids.len() {
            self.rehash(pool);
        }
        Ok(id as i32)
    }

    /// Forgets every term; the table keeps its slots and its kind of key.
    pub fn clear(&mut self)
        ensures
            final(self).count() == 0,
            final(self).capacity() == old(self).capacity(),
            final(self).keyed_by_offset() == old(self).keyed_by_offset(),
            forall|pool: &ByteBlockPool|
                pool.wf() && MIN_HASH_SIZE <= old(self).capacity() <= MAX_HASH_SIZE && !old(self).keyed_by_offset() ==> #[trigger] final(self).wf(pool),
            MIN_HASH_SIZE <= old(self).capacity() <= MAX_HASH_SIZE && old(self).keyed_by_offset()
                ==> final(self).wf_by_offset(),
    {
        let size = self.ids.len();
        let mut i: usize = 0;
        while i < size
            invariant
                0 <= i <= size,
                size == self.ids@.len(),
                self.ids@.len() == old(self).ids@.len(),
                self.by_offset == old(self).by_offset,
                forall|p: int| 0 <= p < i ==> #[trigger] self.ids@[p] == -1,
            decreases size - i,
        {
            self.ids[i] = -1;
            i += 1;
        }
        self.bytes_start = Vec::new();
        self.dist = Ghost(Seq::empty());
    }

    /// `sorted` lists every id once, in the strict lexicographic order of the
    /// terms.
    pub open spec fn is_sorted_ids(&self, pool: &ByteBlockPool, sorted: Seq<i32>) -> bool {
        &&& sorted.len() == self.count()
        &&& forall|i: int| 0 <= i < sorted.len() ==> 0 <= #[trigger] sorted[i] < self.count()
        &&& forall|e: i32| 0 <= e < self.count() ==> #[trigger] sorted.contains(e)
        &&& forall|i: int, j: int|
            0 <= i < j < sorted.len() ==> lex_less(
                self.terms(pool)[#[trigger] sorted[i] as int],
                self.terms(pool)[#[trigger] sorted[j] as int],
            )
    }

    /// Every entry of `ids` is the id of a term.
    pub open spec fn are_ids(&self, ids: Seq<i32>) -> bool {
        forall|i: int| 0 <= i < ids.len() ==> 0 <= #[trigger] ids[i] < self.count()
    }

    /// The terms of `ids` ascend strictly in the lexicographic order.
    pub open spec fn ascends(&self, pool: &ByteBlockPool, ids: Seq<i32>) -> bool {
        forall|i: int, j: int|
            0 <= i < j < ids.len() ==> lex_less(
                self.terms(pool)[#[trigger] ids[i] as int],
                self.terms(pool)[#[trigger] ids[j] as int],
            )
    }

    /// Merges two ascending lists of ids into one.
    fn merge(&self, pool: &ByteBlockPool, left: &Vec<i32>, right: &Vec<i32>) -> (merged: Vec<i32>)
        requires
            self.wf(pool),
            self.are_ids(left@),
            self.are_ids(right@),
            self.ascends(pool, left@),
            self.ascends(pool, right@),
            forall|a: int, b: int|
                0 <= a < left@.len() && 0 <= b < right@.len() ==> #[trigger] left@[a]
                    != #[trigger] right@[b],
            left@.len() + right@.len() <= usize::MAX,
        ensures
            merged@.len() == left@.len() + right@.len(),
            forall|e: i32| #[trigger] merged@.contains(e) <==> left@.contains(e) || right@.contains(e),
            self.are_ids(merged@),
            self.ascends(pool, merged@),
    {
        let mut merged: Vec<i32> = Vec::with_capacity(left.len() + right.len());
        let mut i: usize = 0;
        let mut j: usize = 0;
        proof {
            self.lemma_wf(pool);
        }
        while i < left.len() || j < right.len()
            invariant
                self.wf(pool),
                self.are_ids(left@),
                self.are_ids(right@),
                self.ascends(pool, left@),
                self.ascends(pool, right@),
                forall|a: int, b: int|
                    0 <= a < left@.len() && 0 <= b < right@.len() ==> #[trigger] left@[a]
                        != #[trigger] right@[b],
                0 <= i <= left@.len(),
                0 <= j <= right@.len(),
                merged@.len() == i + j,
                forall|e: i32|
                    #[trigger] merged@.contains(e) <==> left@.take(i as int).contains(e)
                        || right@.take(j as int).contains(e),
                self.are_ids(merged@),
                self.ascends(pool, merged@),
                forall|k: int|
                    0 <= k < merged@.len() && i < left@.len() ==> lex_less(
                        self.terms(pool)[#[trigger] merged@[k] as int],
                        self.terms(pool)[left@[i as int] as int],
                    ),
                forall|k: int|
                    0 <= k < merged@.len() && j < right@.len() ==> lex_less(
                        self.terms(pool)[#[trigger] merged@[k] as int],
                        self.terms(pool)[right@[j as int] as int],
                    ),
            decreases left@.len() - i + right@.len() - j,
        {
            let take_left = if i == left.len() {
                false
            } else if j == right.len() {
                true
            } else {
                let x = left[i] as usize;
                let y = right[j] as usize;
                proof {
                    self.lemma_wf(pool);
                    assert(pool.terms().contains_key(self.starts()[x as int] as int));
                    assert(pool.terms().contains_key(self.starts()[y as int] as int));
                    assert(left@[i as int] != right@[j as int]);
                    assert(self.terms(pool)[x as int] != self.terms(pool)[y as int]);
                }
                term_order(pool, self.bytes_start[x] as usize, self.bytes_start[y] as usize) < 0
            };
            let ghost before = merged@;
            let ghost terms = self.terms(pool);
            if take_left {
                let x = left[i];
                merged.push(x);
                proof {
                    assert(left@.take(i + 1) =~= left@.take(i as int).push(x));
                    lemma_contains_push(before, x);
                    lemma_contains_push(left@.take(i as int), x);
                    assert forall|k: int|
                        0 <= k < merged@.len() && i + 1 < left@.len() implies lex_less(
                        terms[#[trigger] merged@[k] as int],
                        terms[left@[i + 1] as int],
                    ) by {
                        assert(lex_less(terms[left@[i as int] as int], terms[left@[i + 1] as int]));
                        if k < before.len() {
                            assert(lex_less(terms[before[k] as int], terms[left@[i as int] as int]));
                            lemma_lex_less_transitive(
                                terms[before[k] as int],
                                terms[left@[i as int] as int],
                                terms[left@[i + 1] as int],
                            );
                        }
                    }
                    assert forall|k: int|
                        0 <= k < merged@.len() && j < right@.len() implies lex_less(
                        terms[#[trigger] merged@[k] as int],
                        terms[right@[j as int] as int],
                    ) by {
                        if k < before.len() {
                            assert(lex_less(terms[before[k] as int], terms[right@[j as int] as int]));
                        }
                    }
                    assert forall|a: int, b: int| 0 <= a < b < merged@.len() implies lex_less(
                        terms[#[trigger] merged@[a] as int],
                        terms[#[trigger] merged@[b] as int],
                    ) by {
                        if b < before.len() {
                            assert(lex_less(terms[before[a] as int], terms[before[b] as int]));
                        } else {
                            assert(lex_less(terms[before[a] as int], terms[left@[i as int] as int]));
                        }
                    }
                }
                i += 1;
            } else {
                let y = right[j];
                merged.push(y);
                proof {
                    assert(right@.take(j + 1) =~= right@.take(j as int).push(y));
                    lemma_contains_push(before, y);
                    lemma_contains_push(right@.take(j as int), y);
                    assert forall|k: int|
                        0 <= k < merged@.len() && j + 1 < right@.len() implies lex_less(
                        terms[#[trigger] merged@[k] as int],
                        terms[right@[j + 1] as int],
                    ) by {
                        assert(lex_less(
                            terms[right@[j as int] as int],
                            terms[right@[j + 1] as int],
                        ));
                        if k < before.len() {
                            assert(lex_less(terms[before[k] as int], terms[right@[j as int] as int]));
                            lemma_lex_less_transitive(
                                terms[before[k] as int],
                                terms[right@[j as int] as int],
                                terms[right@[j + 1] as int],
                            );
                        }
                    }
                    assert forall|k: int|
                        0 <= k < merged@.len() && i < left@.len() implies lex_less(
                        terms[#[trigger] merged@[k] as int],
                        terms[left@[i as int] as int],
                    ) by {
                        if k < before.len() {
                            assert(lex_less(terms[before[k] as int], terms[left@[i as int] as int]));
                        }
                    }
                    assert forall|a: int, b: int| 0 <= a < b < merged@.len() implies lex_less(
                        terms[#[trigger] merged@[a] as int],
                        terms[#[trigger] merged@[b] as int],
                    ) by {
                        if b < before.len() {
                            assert(lex_less(terms[before[a] as int], terms[before[b] as int]));
                        } else {
                            assert(lex_less(terms[before[a] as int], terms[right@[j as int] as int]));
                        }
                    }
                }
                j += 1;
            }
        }
        proof {
            assert(left@.take(left@.len() as int) =~= left@);
            assert(right@.take(right@.len() as int) =~= right@);
        }
        merged
    }

    /// Orders a list of distinct ids by their terms, by merging its sorted
    /// halves.
    fn merge_sort(&self, pool: &ByteBlockPool, ids: Vec<i32>) -> (sorted: Vec<i32>)
        requires
            self.wf(pool),
            self.are_ids(ids@),
            forall|a: int, b: int| 0 <= a < b < ids@.len() ==> #[trigger] ids@[a] != #[trigger] ids@[b],
        ensures
            sorted@.len() == ids@.len(),
            forall|e: i32| #[trigger] sorted@.contains(e) <==> ids@.contains(e),
            self.are_ids(sorted@),
            self.ascends(pool, sorted@),
        decreases ids@.len(),
    {
        if ids.len() <= 1 {
            return ids;
        }
        let mut left = ids;
        let mid = left.len() / 2;
        let right = left.split_off(mid);
        let ghost l0 = left@;
        let ghost r0 = right@;
        proof {
            assert forall|e: i32| #[trigger] ids@.contains(e) <==> l0.contains(e) || r0.contains(
                e,
            ) by {
                if ids@.contains(e) {
                    let k = choose|k: int| 0 <= k < ids@.len() && ids@[k] == e;
                    if k < mid {
                        assert(l0[k] == e);
                    } else {
                        assert(r0[k - mid] == e);
                    }
                }
                if l0.contains(e) {
                    let k = choose|k: int| 0 <= k < l0.len() && l0[k] == e;
                    assert(ids@[k] == e);
                }
                if r0.contains(e) {
                    let k = choose|k: int| 0 <= k < r0.len() && r0[k] == e;
                    assert(ids@[k + mid] == e);
                }
            }
            assert forall|a: int, b: int| 0 <= a < l0.len() && 0 <= b < r0.len() implies l0[a]
                != r0[b] by {
                assert(ids@[a] != ids@[b + mid]);
            }
            assert forall|a: int, b: int| 0 <= a < b < r0.len() implies #[trigger] r0[a]
                != #[trigger] r0[b] by {
                assert(ids@[a + mid] != ids@[b + mid]);
            }
            assert forall|i: int| 0 <= i < r0.len() implies 0 <= #[trigger] r0[i]
                < self.count() by {
                assert(0 <= ids@[i + mid] < self.count());
            }
        }
        let left = self.merge_sort(pool, left);
        let right = self.merge_sort(pool, right);
        proof {
            assert forall|a: int, b: int|
                0 <= a < left@.len() && 0 <= b < right@.len() implies #[trigger] left@[a]
                != #[trigger] right@[b] by {
                assert(left@.contains(left@[a]));
                assert(right@.contains(right@[b]));
                let x = choose|x: int| 0 <= x < l0.len() && l0[x] == left@[a];
                let y = choose|y: int| 0 <= y < r0.len() && r0[y] == right@[b];
                assert(l0[x] != r0[y]);
            }
        }
        self.merge(pool, &left, &right)
    }

    /// The ids, ordered by their terms: ascending in the lexicographic order
    /// of unsigned bytes.
    pub fn sort(&self, pool: &ByteBlockPool) -> (sorted: Vec<i32>)
        requires
            self.wf(pool),
        ensures
            self.is_sorted_ids(pool, sorted@),
    {
        let count = self.bytes_start.len();
        let mut ids: Vec<i32> = Vec::with_capacity(count);
        let mut i: usize = 0;
        proof {
            self.lemma_wf(pool);
        }
        while i < count
            invariant
                0 <= i <= count,
                count == self.bytes_start@.len(),
                count < MAX_TERMS,
                ids@.len() == i,
                forall|k: int| 0 <= k < i ==> #[trigger] ids@[k] == k,
            decreases count - i,
        {
            ids.push(i as i32);
            i += 1;
        }
        let sorted = self.merge_sort(pool, ids);
        proof {
            assert forall|e: i32| 0 <= e < self.count() implies #[trigger] sorted@.contains(e) by {
                assert(ids@[e as int] == e);
                assert(ids@.contains(e));
            }
        }
        sorted
    }

    /// Whether the table is keyed by the offsets of the terms rather than by
    /// their bytes.
    pub closed spec fn keyed_by_offset(&self) -> bool {
        self.by_offset
    }

    spec fn offset_homes(&self) -> Seq<int> {
        Seq::new(
            self.bytes_start@.len(),
            |e: int| self.bytes_start@[e] as int % (self.ids@.len() as int),
        )
    }

    spec fn offsets_ok(&self) -> bool {
        &&& self.by_offset
        &&& MIN_HASH_SIZE <= self.ids@.len() <= MAX_HASH_SIZE
        &&& self.bytes_start@.len() < MAX_TERMS
        &&& self.bytes_start@.len() < self.ids@.len()
        &&& self.dist@.len() == self.bytes_start@.len()
        &&& forall|e1: int, e2: int|
            0 <= e1 < e2 < self.bytes_start@.len() ==> #[trigger] self.bytes_start@[e1]
                != #[trigger] self.bytes_start@[e2]
        &&& slots_ok(self.ids@, self.dist@, self.offset_homes(), self.bytes_start@.len() as int)
    }

    /// The invariant of a table that is keyed by offsets: no offset has two
    /// ids, every id is found by the probe for its offset, and the table is
    /// less than half full.
    pub closed spec fn wf_by_offset(&self) -> bool {
        &&& self.offsets_ok()
        &&& 2 * self.bytes_start@.len() < self.ids@.len()
    }

    /// What the invariant of a table keyed by offsets lets every caller
    /// know.
    pub proof fn lemma_wf_by_offset(&self)
        requires
            self.wf_by_offset(),
        ensures
            self.keyed_by_offset(),
            self.count() < MAX_TERMS,
            forall|e1: int, e2: int|
                0 <= e1 < self.count() && 0 <= e2 < self.count() && e1 != e2
                    ==> #[trigger] self.starts()[e1] != #[trigger] self.starts()[e2],
    {
        assert forall|e1: int, e2: int|
            0 <= e1 < self.count() && 0 <= e2 < self.count() && e1 != e2 implies #[trigger] self.starts()[e1]
            != #[trigger] self.starts()[e2] by {
            if e1 < e2 {
                assert(self.bytes_start@[e1] != self.bytes_start@[e2]);
            } else {
                assert(self.bytes_start@[e2] != self.bytes_start@[e1]);
            }
        }
    }

    /// An empty table of `capacity` slots, or of the nearest number that the
    /// table admits, to be keyed by the offsets of terms that are stored by
    /// another table.
    pub fn new_by_pool_offset(capacity: usize) -> (hash: Self)
        ensures
            hash.count() == 0,
            hash.wf_by_offset(),
    {
        let size = if capacity < MIN_HASH_SIZE {
            MIN_HASH_SIZE
        } else if capacity > MAX_HASH_SIZE {
            MAX_HASH_SIZE
        } else {
            capacity
        };
        let ids: Vec<i32> = vec![-1i32; size];
        BytesRefHash { ids, bytes_start: Vec::new(), by_offset: true, dist: Ghost(Seq::empty()) }
    }

    fn find_offset_slot(&self, offset: u32) -> (r: (usize, Ghost<int>))
        requires
            self.wf_by_offset(),
        ensures
            r.0 < self.ids@.len(),
            0 <= r.1@ < self.ids@.len(),
            0 <= offset as int % (self.ids@.len() as int) < self.ids@.len(),
            r.0 == probe_slot(
                offset as int % (self.ids@.len() as int),
                r.1@,
                self.ids@.len() as int,
            ),
            forall|x: int|
                0 <= x < self.ids@.len() && #[trigger] probed(
                    offset as int % (self.ids@.len() as int),
                    r.1@,
                    x,
                    self.ids@.len() as int,
                ) ==> self.ids@[x] != -1,
            self.ids@[r.0 as int] == -1 ==> forall|e: int|
                0 <= e < self.count() ==> #[trigger] self.starts()[e] != offset,
            self.ids@[r.0 as int] != -1 ==> 0 <= self.ids@[r.0 as int] < self.count()
                && self.starts()[self.ids@[r.0 as int] as int] == offset,
    {
        let size = self.ids.len();
        let home = (offset as usize) % size;
        let mut pos = home;
        let ghost mut k: int = 0;
        let ghost homes = self.offset_homes();
        let ghost n = self.bytes_start@.len() as int;
        proof {
            vstd::arithmetic::div_mod::lemma_mod_pos_bound(offset as int, size as int);
        }
        loop
            invariant
                self.wf_by_offset(),
                size == self.ids@.len(),
                homes == self.offset_homes(),
                n == self.bytes_start@.len(),
                home == offset as int % (size as int),
                home < size,
                0 <= k < size,
                pos == probe_slot(home as int, k, size as int),
                forall|x: int|
                    0 <= x < size && #[trigger] probed(home as int, k, x, size as int)
                        ==> self.ids@[x] != -1 && self.bytes_start@[self.ids@[x] as int] != offset,
            decreases size - k,
        {
            let e = self.ids[pos];
            if e == -1 {
                proof {
                    assert forall|e2: int| 0 <= e2 < self.count() implies #[trigger] self.starts()[e2]
                        != offset by {
                        if self.bytes_start@[e2] == offset {
                            let d = self.dist@[e2];
                            assert(homes[e2] == home);
                            let slot = probe_slot(home as int, d, size as int);
                            assert(self.ids@[slot] == e2);
                            if d < k {
                                assert(probed(home as int, k, slot, size as int));
                            } else if d > k {
                                assert(probed(homes[e2], d, pos as int, size as int));
                            }
                            assert(false);
                        }
                    }
                }
                return (pos, Ghost(k));
            }
            if self.bytes_start[e as usize] == offset {
                return (pos, Ghost(k));
            }
            proof {
                assert forall|x: int|
                    0 <= x < size && #[trigger] probed(
                        home as int,
                        k + 1,
                        x,
                        size as int,
                    ) implies self.ids@[x] != -1 && self.bytes_start@[self.ids@[x] as int]
                    != offset by {
                    if x != pos {
                        assert(probed(home as int, k, x, size as int));
                    }
                }
                if k + 1 == size {
                    assert forall|p: int| 0 <= p < size implies #[trigger] self.ids@[p] != -1 by {
                        assert(probed(home as int, k + 1, p, size as int));
                    }
                    lemma_table_has_gap(self.ids@, self.dist@, homes, n);
                }
                k = k + 1;
            }
            pos = if pos + 1 == size {
                0
            } else {
                pos + 1
            };
        }
    }

    fn rehash_by_offset(&mut self)
        requires
            old(self).offsets_ok(),
        ensures
            final(self).wf_by_offset(),
            final(self).bytes_start == old(self).bytes_start,
            final(self).ids@.len() == (if 2 * old(self).ids@.len() > MAX_HASH_SIZE {
                MAX_HASH_SIZE as int
            } else {
                2 * old(self).ids@.len() as int
            }),
    {
        let size = self.ids.len();
        let new_size = if 2 * size > MAX_HASH_SIZE {
            MAX_HASH_SIZE
        } else {
            2 * size
        };
        let count = self.bytes_start.len();
        let mut new_ids: Vec<i32> = vec![-1i32; new_size];
        let ghost mut new_dist: Seq<int> = Seq::empty();
        let ghost homes2 = Seq::new(
            count as nat,
            |e: int| self.bytes_start@[e] as int % (new_size as int),
        );
        let mut e: usize = 0;
        while e < count
            invariant
                0 <= e <= count,
                count == self.bytes_start@.len(),
                count < MAX_TERMS,
                2 * count < new_size,
                new_ids@.len() == new_size,
                new_dist.len() == e,
                homes2 == Seq::new(
                    count as nat,
                    |e: int| self.bytes_start@[e] as int % (new_size as int),
                ),
                slots_ok(new_ids@, new_dist, homes2, e as int),
            decreases count - e,
        {
            let code = self.bytes_start[e];
            let home = (code as usize) % new_size;
            proof {
                vstd::arithmetic::div_mod::lemma_mod_pos_bound(code as int, new_size as int);
            }
            let (pos, Ghost(k)) = probe_free(
                &new_ids,
                home,
                Ghost(new_dist),
                Ghost(homes2),
                Ghost(e as int),
            );
            proof {
                lemma_insert_slot(new_ids@, new_dist, homes2, e as int, homes2, pos as int, k);
                new_dist = new_dist.push(k);
            }
            new_ids[pos] = e as i32;
            e += 1;
        }
        self.ids = new_ids;
        self.dist = Ghost(new_dist);
        proof {
            assert(self.offset_homes() =~= homes2);
        }
    }

    /// Gives an id to the term that another table stored at `offset`.
    /// Returns the new id when the offset had none, and `-(id + 1)` when it
    /// had `id`.
    pub fn add_by_pool_offset(&mut self, offset: usize) -> (r: Result<i32, Error>)
        requires
            old(self).wf_by_offset(),
            offset <= u32::MAX,
        ensures
            final(self).wf_by_offset(),
            match r {
                Ok(id) => if id >= 0 {
                    &&& !old(self).starts().contains(offset as u32)
                    &&& old(self).count() + 1 < MAX_TERMS
                    &&& id == old(self).count()
                    &&& final(self).capacity() == old(self).capacity_for(old(self).count() + 1)
                    &&& final(self).starts() == old(self).starts().push(offset as u32)
                } else {
                    &&& 0 <= -(id + 1) < old(self).count()
                    &&& old(self).starts()[-(id + 1)] == offset
                    &&& *final(self) == *old(self)
                },
                Err(e) => {
                    &&& e == Error::TooManyTerms
                    &&& !old(self).starts().contains(offset as u32)
                    &&& old(self).count() + 1 >= MAX_TERMS
                    &&& *final(self) == *old(self)
                },
            },
    {
        let (pos, Ghost(k)) = self.find_offset_slot(offset as u32);
        let e = self.ids[pos];
        if e != -1 {
            return Ok(-(e + 1));
        }
        let id = self.bytes_start.len();
        if id + 1 >= MAX_TERMS {
            return Err(Error::TooManyTerms);
        }
        let ghost homes = self.offset_homes();
        self.bytes_start.push(offset as u32);
        self.ids[pos] = id as i32;
        proof {
            self.dist@ = self.dist@.push(k);
            let homes2 = self.offset_homes();
            assert forall|i: int| 0 <= i < id implies homes2[i] == homes[i] by {
            }
            lemma_insert_slot(
                old(self).ids@,
                old(self).dist@,
                homes,
                id as int,
                homes2,
                pos as int,
                k,
            );
            assert forall|e1: int, e2: int|
                0 <= e1 < e2 < self.bytes_start@.len() implies #[trigger] self.bytes_start@[e1]
                != #[trigger] self.bytes_start@[e2] by {
                if e2 < id {
                    assert(old(self).bytes_start@[e1] != old(self).bytes_start@[e2]);
                } else {
                    assert(old(self).starts()[e1] != offset);
                }
            }
        }
        if 2 * (id + 1) >= self.ids.len() {
            self.rehash_by_offset();
        }
        Ok(id as i32)
    }

    /// The id of the term at `offset`, or -1 when it has none.
    pub fn find_by_pool_offset(&self, offset: usize) -> (id: i32)
        requires
            self.wf_by_offset(),
            offset <= u32::MAX,
        ensures
            -1 <= id < self.count(),
            id == -1 ==> !self.starts().contains(offset as u32),
            id != -1 ==> self.starts()[id as int] == offset,
    {
        let (pos, _k) = self.find_offset_slot(offset as u32);
        self.ids[pos]
    }
}

/// What interning `bytes` does to a table that holds the terms `before`,
/// when it succeeds: `after` are the terms then, and `r` is what is
/// returned. A string that the table does not hold becomes its last term,
/// and its id, the number of terms before it, is returned. For a string
/// that the table holds under `id`, nothing changes, and `-(id + 1)` is
/// returned.
pub open spec fn interned(before: Seq<Seq<u8>>, bytes: Seq<u8>, after: Seq<Seq<u8>>, r: int) -> bool {
    if before.contains(bytes) {
        after == before && r == -(before.index_of(bytes) + 1)
    } else {
        after == before.push(bytes) && r == before.len()
    }
}

/// The id that a value returned by the table names.
pub open spec fn id_of(r: int) -> int {
    if r >= 0 {
        r
    } else {
        -(r + 1)
    }
}

/// One step of a run: what interning `bytes` returns and leaves, for a
/// table that holds each of the strings `seen` once and nothing else.
pub proof fn lemma_interned_step(
    before: Seq<Seq<u8>>,
    bytes: Seq<u8>,
    after: Seq<Seq<u8>>,
    r: int,
    seen: Seq<Seq<u8>>,
)
    requires
        before.no_duplicates(),
        forall|x: Seq<u8>| before.contains(x) <==> seen.contains(x),
        interned(before, bytes, after, r),
    ensures
        after.no_duplicates(),
        forall|x: Seq<u8>| after.contains(x) <==> seen.push(bytes).contains(x),
        before.len() <= after.len(),
        forall|k: int| 0 <= k < before.len() ==> #[trigger] after[k] == before[k],
        0 <= id_of(r) < after.len(),
        after[id_of(r)] == bytes,
        r >= 0 <==> !seen.contains(bytes),
        r >= 0 ==> r == before.len(),
        after.len() == before.len() + (if r >= 0 {
            1int
        } else {
            0int
        }),
{
    let more = seen.push(bytes);
    assert(more[seen.len() as int] == bytes);
    if before.contains(bytes) {
        let at = before.index_of(bytes);
        assert(0 <= at < before.len() && before[at] == bytes);
        assert forall|x: Seq<u8>| after.contains(x) <==> more.contains(x) by {
            if after.contains(x) {
                let u = choose|u: int| 0 <= u < seen.len() && seen[u] == x;
                assert(more[u] == x);
            }
            if more.contains(x) {
                let u = choose|u: int| 0 <= u < more.len() && more[u] == x;
                if u < seen.len() {
                    assert(seen[u] == x);
                }
            }
        }
    } else {
        assert(after[before.len() as int] == bytes);
        assert forall|i: int, j: int|
            0 <= i < after.len() && 0 <= j < after.len() && i != j implies after[i] != after[j] by {
            if i < before.len() && j < before.len() {
                assert(before[i] != before[j]);
            } else if i < before.len() {
                assert(before.contains(before[i]));
            } else {
                assert(before.contains(before[j]));
            }
        }
        assert forall|x: Seq<u8>| after.contains(x) <==> more.contains(x) by {
            if after.contains(x) {
                let k = choose|k: int| 0 <= k < after.len() && after[k] == x;
                if k < before.len() {
                    assert(before[k] == x);
                    assert(before.contains(x));
                    let u = choose|u: int| 0 <= u < seen.len() && seen[u] == x;
                    assert(more[u] == x);
                }
            }
            if more.contains(x) {
                let u = choose|u: int| 0 <= u < more.len() && more[u] == x;
                if u < seen.len() {
                    assert(seen[u] == x);
                    assert(seen.contains(x));
                    let k = choose|k: int| 0 <= k < before.len() && before[k] == x;
                    assert(after[k] == x);
                }
            }
        }
    }
}

/// The ids of a run of strings. `run` are strings interned one after
/// another into a table that is empty at first, `tables[i]` are the terms
/// of the table before the `i`-th of them, and `results[i]` is what
/// interning it returned. Then a string gets a new id exactly when it did
/// not occur in the run before, and this id is the number of distinct
/// strings before it: the new ids are 0, 1, 2 and so on, in the order in
/// which the strings first appear. Two strings of the run have the same id
/// exactly when they are equal. In the end the table holds each string of
/// the run once, under its id, and nothing else.
pub proof fn lemma_ids_of_a_run(
    tables: Seq<Seq<Seq<u8>>>,
    run: Seq<Seq<u8>>,
    results: Seq<int>,
)
    requires
        tables.len() == run.len() + 1,
        results.len() == run.len(),
        tables[0].len() == 0,
        forall|i: int|
            0 <= i < run.len() ==> interned(tables[i], #[trigger] run[i], tables[i + 1], results[i]),
    ensures
        tables[run.len() as int].no_duplicates(),
        forall|x: Seq<u8>| tables[run.len() as int].contains(x) <==> run.contains(x),
        forall|i: int|
            0 <= i < run.len() ==> (#[trigger] results[i] >= 0 <==> !run.take(i).contains(run[i])),
        forall|i: int| 0 <= i < run.len() && #[trigger] results[i] >= 0 ==> results[i] == tables[i].len(),
        forall|i: int|
            0 <= i < run.len() ==> tables[i + 1].len() == (#[trigger] tables[i]).len() + (if results[i]
                >= 0 {
                1int
            } else {
                0int
            }),
        forall|i: int|
            0 <= i < run.len() ==> 0 <= id_of(#[trigger] results[i]) < tables[run.len() as int].len()
                && tables[run.len() as int][id_of(results[i])] == run[i],
        forall|i: int, j: int|
            0 <= i < run.len() && 0 <= j < run.len() ==> (id_of(#[trigger] results[i]) == id_of(
                #[trigger] results[j],
            ) <==> run[i] == run[j]),
    decreases run.len(),
{
    let n = run.len() as int;
    let last = tables[n];
    if n == 0 {
        assert forall|x: Seq<u8>| last.contains(x) <==> run.contains(x) by {
            if last.contains(x) {
                let k = choose|k: int| 0 <= k < last.len() && last[k] == x;
            }
            if run.contains(x) {
                let k = choose|k: int| 0 <= k < run.len() && run[k] == x;
            }
        }
    } else {
        let m = n - 1;
        let t0 = tables.drop_last();
        let r0 = run.drop_last();
        let q0 = results.drop_last();
        assert forall|i: int| 0 <= i < r0.len() implies interned(
            t0[i],
            #[trigger] r0[i],
            t0[i + 1],
            q0[i],
        ) by {
            assert(interned(tables[i], run[i], tables[i + 1], results[i]));
        }
        lemma_ids_of_a_run(t0, r0, q0);
        let mid = tables[m];
        assert(t0[r0.len() as int] == mid);
        assert(interned(mid, run[m], last, results[m]));
        lemma_interned_step(mid, run[m], last, results[m], r0);
        assert(run.take(m) =~= r0);
        assert(r0.push(run[m]) =~= run);
        assert forall|i: int| 0 <= i < run.len() implies (#[trigger] results[i] >= 0 <==> !run.take(
            i,
        ).contains(run[i])) by {
            if i < m {
                assert(q0[i] == results[i]);
                assert(r0.take(i) =~= run.take(i));
                assert(r0[i] == run[i]);
            }
        }
        assert forall|i: int| 0 <= i < run.len() && #[trigger] results[i] >= 0 implies results[i]
            == tables[i].len() by {
            if i < m {
                assert(q0[i] == results[i]);
                assert(t0[i] == tables[i]);
            }
        }
        assert forall|i: int| 0 <= i < run.len() implies tables[i + 1].len() == (#[trigger] tables[i]).len()
            + (if results[i] >= 0 {
            1int
        } else {
            0int
        }) by {
            if i < m {
                assert(q0[i] == results[i]);
                assert(t0[i] == tables[i]);
                assert(t0[i + 1] == tables[i + 1]);
            }
        }
        assert forall|i: int| 0 <= i < run.len() implies 0 <= id_of(#[trigger] results[i])
            < last.len() && last[id_of(results[i])] == run[i] by {
            if i < m {
                assert(q0[i] == results[i]);
                assert(r0[i] == run[i]);
                assert(mid[id_of(q0[i])] == r0[i]);
                assert(last[id_of(q0[i])] == mid[id_of(q0[i])]);
            }
        }
        assert forall|i: int, j: int| 0 <= i < run.len() && 0 <= j < run.len() implies (id_of(
            #[trigger] results[i],
        ) == id_of(#[trigger] results[j]) <==> run[i] == run[j]) by {
            assert(last[id_of(results[i])] == run[i]);
            assert(last[id_of(results[j])] == run[j]);
        }
    }
}

} // verus!
