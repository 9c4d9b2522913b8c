//! The arenas that the consumers of one indexing thread share.

use vstd::prelude::*;
use crate::util::byte_block_pool::ByteBlockPool;
use crate::util::int_block_pool::IntBlockPool;

verus! {

/// The arenas of one indexing thread: the integers hold the write heads of
/// the streams, the bytes hold the streams and, for the first consumer of a
/// chain, the terms.
pub struct TermsHashBase {
    pub int_pool: IntBlockPool,
    pub byte_pool: ByteBlockPool,
}

impl TermsHashBase {
    /// Both arenas are well-formed.
    pub open spec fn wf(&self) -> bool {
        &&& self.int_pool.wf()
        &&& self.byte_pool.wf()
    }

    /// `after` is `self` once `bytes` went to the stream `key`, whose write
    /// head lies at `slot` of the integer arena. Writing nothing changes
    /// nothing.
    pub open spec fn wrote(&self, after: &Self, key: int, slot: int, bytes: Seq<u8>) -> bool {
        &&& bytes.len() == 0 ==> *after == *self
        &&& self.byte_pool.appended(&after.byte_pool, key, bytes)
        &&& after.int_pool.ints() == self.int_pool.ints().update(
            slot,
            after.byte_pool.streams()[key].head() as i32,
        )
        &&& after.int_pool.upto() == self.int_pool.upto()
        &&& after.int_pool.num_buffers() == self.int_pool.num_buffers()
        &&& after.int_pool.limit() == self.int_pool.limit()
    }

    /// `after` is `self` once a write of `bytes` to the stream `key` stopped
    /// for want of room: the stream has taken as many of the bytes as the
    /// arena had room for, and not all of them.
    pub open spec fn wrote_part(&self, after: &Self, key: int, slot: int, bytes: Seq<u8>) -> bool {
        exists|k: int|
            0 <= k < bytes.len() && #[trigger] self.wrote(after, key, slot, bytes.take(k))
                && self.byte_pool.headroom(key).stops_at(k)
    }

    /// `after` is `self` but for the streams `key0` and `key1`, which hold
    /// what they held and possibly more behind it.
    pub open spec fn extended(&self, after: &Self, key0: int, key1: int) -> bool {
        &&& self.same_terms(after)
        &&& after.byte_pool.streams().dom() == self.byte_pool.streams().dom()
        &&& forall|k: int|
            self.byte_pool.streams().contains_key(k) ==> if k == key0 || k == key1 {
                self.byte_pool.streams()[k].data.is_prefix_of(
                    (#[trigger] after.byte_pool.streams()[k]).data,
                )
            } else {
                after.byte_pool.streams()[k] == self.byte_pool.streams()[k]
            }
    }

    /// A write extends the stream that it goes to.
    pub proof fn lemma_wrote_extended(
        &self,
        after: &Self,
        key: int,
        slot: int,
        bytes: Seq<u8>,
        key0: int,
        key1: int,
    )
        requires
            self.wrote(after, key, slot, bytes),
            self.byte_pool.streams().contains_key(key),
            key == key0 || key == key1,
        ensures
            self.extended(after, key0, key1),
    {
        assert forall|k: int| self.byte_pool.streams().contains_key(k) implies if k == key0 || k
            == key1 {
            self.byte_pool.streams()[k].data.is_prefix_of(
                (#[trigger] after.byte_pool.streams()[k]).data,
            )
        } else {
            after.byte_pool.streams()[k] == self.byte_pool.streams()[k]
        } by {
            if k == key {
                let d = self.byte_pool.streams()[k].data;
                assert((d + bytes).subrange(0, d.len() as int) =~= d);
            } else {
                let d = self.byte_pool.streams()[k].data;
                assert(d.subrange(0, d.len() as int) =~= d);
            }
        }
    }

    /// Extending twice is extending once.
    pub proof fn lemma_extended_twice(&self, mid: &Self, after: &Self, key0: int, key1: int)
        requires
            self.extended(mid, key0, key1),
            mid.extended(after, key0, key1),
        ensures
            self.extended(after, key0, key1),
    {
        assert forall|k: int| self.byte_pool.streams().contains_key(k) implies if k == key0 || k
            == key1 {
            self.byte_pool.streams()[k].data.is_prefix_of(
                (#[trigger] after.byte_pool.streams()[k]).data,
            )
        } else {
            after.byte_pool.streams()[k] == self.byte_pool.streams()[k]
        } by {
            assert(mid.byte_pool.streams().contains_key(k));
            let a = self.byte_pool.streams()[k].data;
            let b = mid.byte_pool.streams()[k].data;
            let c = after.byte_pool.streams()[k].data;
            if k == key0 || k == key1 {
                assert(a.is_prefix_of(b));
                assert(b.is_prefix_of(c));
                assert(c.subrange(0, a.len() as int) =~= b.subrange(0, a.len() as int));
            }
        }
    }

    /// What extends one stream extends, at most, that stream and another.
    pub proof fn lemma_extended_wider(&self, after: &Self, key: int, key0: int, key1: int)
        requires
            self.extended(after, key, key),
            key == key0 || key == key1,
        ensures
            self.extended(after, key0, key1),
    {
        assert forall|k: int| self.byte_pool.streams().contains_key(k) implies if k == key0 || k
            == key1 {
            self.byte_pool.streams()[k].data.is_prefix_of(
                (#[trigger] after.byte_pool.streams()[k]).data,
            )
        } else {
            after.byte_pool.streams()[k] == self.byte_pool.streams()[k]
        } by {
            let d = self.byte_pool.streams()[k].data;
            assert(d.subrange(0, d.len() as int) =~= d);
        }
    }

    /// Nothing is an extension too.
    pub proof fn lemma_extended_by_nothing(&self, key0: int, key1: int)
        ensures
            self.extended(self, key0, key1),
    {
        assert forall|k: int| self.byte_pool.streams().contains_key(k) implies if k == key0 || k
            == key1 {
            self.byte_pool.streams()[k].data.is_prefix_of(
                (#[trigger] self.byte_pool.streams()[k]).data,
            )
        } else {
            self.byte_pool.streams()[k] == self.byte_pool.streams()[k]
        } by {
            let d = self.byte_pool.streams()[k].data;
            assert(d.subrange(0, d.len() as int) =~= d);
        }
    }

    /// `after` holds the terms of `self`, and the integer arena has its
    /// geometry.
    pub open spec fn same_terms(&self, after: &Self) -> bool {
        &&& after.byte_pool.terms() == self.byte_pool.terms()
        &&& after.byte_pool.limit() == self.byte_pool.limit()
        &&& after.int_pool.upto() == self.int_pool.upto()
        &&& after.int_pool.num_buffers() == self.int_pool.num_buffers()
        &&& after.int_pool.limit() == self.int_pool.limit()
    }

    /// Arenas without blocks.
    pub fn new() -> (pools: Self)
        ensures
            pools.wf(),
            pools.byte_pool.streams() == Map::<int, crate::util::byte_block_pool::SliceChain>::empty(),
            pools.byte_pool.terms() == Map::<int, Seq<u8>>::empty(),
            pools.byte_pool.num_buffers() == 0,
            pools.int_pool.num_buffers() == 0,
    {
        TermsHashBase { int_pool: IntBlockPool::new(), byte_pool: ByteBlockPool::new() }
    }

    /// Arenas without blocks that may get `int_blocks` blocks of integers
    /// and `byte_blocks` blocks of bytes.
    pub fn with_limits(int_blocks: usize, byte_blocks: usize) -> (pools: Self)
        ensures
            pools.wf(),
            pools.byte_pool.streams() == Map::<int, crate::util::byte_block_pool::SliceChain>::empty(),
            pools.byte_pool.terms() == Map::<int, Seq<u8>>::empty(),
            pools.byte_pool.num_buffers() == 0,
            pools.int_pool.num_buffers() == 0,
            pools.int_pool.limit() == (if int_blocks <= crate::util::int_block_pool::MAX_INT_BLOCKS {
                int_blocks
            } else {
                crate::util::int_block_pool::MAX_INT_BLOCKS
            }),
            pools.byte_pool.limit() == (if byte_blocks
                <= crate::util::byte_block_pool::MAX_BYTE_BLOCKS {
                byte_blocks
            } else {
                crate::util::byte_block_pool::MAX_BYTE_BLOCKS
            }),
    {
        TermsHashBase {
            int_pool: IntBlockPool::with_limit(int_blocks),
            byte_pool: ByteBlockPool::with_limit(byte_blocks),
        }
    }

    /// Empties both arenas for the next segment. The consumers that used
    /// them have to forget their terms as well.
    pub fn reset(&mut self)
        requires
            old(self).wf(),
        ensures
            final(self).wf(),
            final(self).byte_pool.streams() == Map::<int, crate::util::byte_block_pool::SliceChain>::empty(),
            final(self).byte_pool.terms() == Map::<int, Seq<u8>>::empty(),
            final(self).byte_pool.cursor() == 0,
            final(self).int_pool.cursor() == 0,
    {
        self.int_pool.reset();
        self.byte_pool.reset();
    }
}

} // verus!
