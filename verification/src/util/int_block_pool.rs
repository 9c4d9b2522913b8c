//! An append-only arena of fixed-size blocks of 32-bit integers.

use vstd::prelude::*;
use crate::error::Error;

verus! {

/// Number of integers in a block.
pub const INT_BLOCK_SIZE: usize = 8192;
/// With this many blocks every arena offset still fits in 31 bits.
pub const MAX_INT_BLOCKS: usize = 262144;

spec fn flat(buffers: Seq<Vec<i32>>) -> Seq<i32> {
    Seq::new((buffers.len() * INT_BLOCK_SIZE) as nat, |a: int| buffers[a / 8192]@[a % 8192])
}

/// The arena: its blocks, and the position of the next free integer in the
/// last one.
pub struct IntBlockPool {
    buffers: Vec<Vec<i32>>,
    int_upto: usize,
    /// The largest number of blocks that the arena may have.
    max_buffers: usize,
}

impl IntBlockPool {
    /// The integers of all blocks, in arena order.
    pub closed spec fn ints(&self) -> Seq<i32> {
        flat(self.buffers@)
    }

    /// Number of blocks in the arena.
    pub closed spec fn num_buffers(&self) -> int {
        self.buffers@.len() as int
    }

    /// Position of the next free integer inside the last block.
    pub closed spec fn upto(&self) -> int {
        self.int_upto as int
    }

    /// The largest number of blocks that the arena may have.
    pub closed spec fn limit(&self) -> int {
        self.max_buffers as int
    }

    /// Arena offset of the next free integer.
    pub open spec fn cursor(&self) -> int {
        if self.num_buffers() == 0 {
            0
        } else {
            (self.num_buffers() - 1) * INT_BLOCK_SIZE + self.upto()
        }
    }

    /// Whether `count` more integers fit in the last block.
    pub open spec fn fits(&self, count: int) -> bool {
        self.upto() + count <= INT_BLOCK_SIZE
    }

    /// Whether `count` integers can be had, in the last block or in a new one.
    pub open spec fn can_allocate(&self, count: int) -> bool {
        self.fits(count) || self.num_buffers() < self.limit()
    }

    /// Where a run of `count` integers allocated now would start.
    pub open spec fn next_start(&self, count: int) -> int {
        if self.fits(count) {
            self.cursor()
        } else {
            self.num_buffers() * INT_BLOCK_SIZE
        }
    }

    /// `after` has the geometry of `self` once a run of `count` integers
    /// was taken: the cursor stands behind the run, and there is one block
    /// more exactly when the run did not fit in the last one.
    pub open spec fn took(&self, after: &Self, count: int) -> bool {
        &&& after.cursor() == self.next_start(count) + count
        &&& after.upto() == (if self.fits(count) {
            self.upto() + count
        } else {
            count
        })
        &&& after.num_buffers() == (if self.fits(count) {
            self.num_buffers()
        } else {
            self.num_buffers() + 1
        })
        &&& after.limit() == self.limit()
        &&& after.ints().len() == after.num_buffers() * INT_BLOCK_SIZE
    }

    /// The arena's invariant: blocks have their size, and there are not too
    /// many of them.
    pub closed spec fn wf(&self) -> bool {
        &&& forall|i: int|
            0 <= i < self.buffers@.len() ==> (#[trigger] self.buffers@[i])@.len() == INT_BLOCK_SIZE
        &&& self.buffers@.len() <= self.max_buffers <= MAX_INT_BLOCKS
        &&& self.int_upto <= INT_BLOCK_SIZE
        &&& (self.buffers@.len() == 0 ==> self.int_upto == INT_BLOCK_SIZE)
    }

    /// The arena's size follows from its number of blocks, and the cursor
    /// lies inside it.
    pub proof fn lemma_bounds(&self)
        requires
            self.wf(),
        ensures
            self.ints().len() == self.num_buffers() * INT_BLOCK_SIZE,
            0 <= self.cursor() <= self.ints().len() <= 0x8000_0000,
            0 <= self.upto() <= INT_BLOCK_SIZE,
            0 <= self.num_buffers() <= self.limit() <= MAX_INT_BLOCKS,
    {
    }

    /// An arena without blocks.
    pub fn new() -> (pool: Self)
        ensures
            pool.wf(),
            pool.num_buffers() == 0,
            pool.upto() == INT_BLOCK_SIZE,
            pool.limit() == MAX_INT_BLOCKS,
    {
        IntBlockPool::with_limit(MAX_INT_BLOCKS)
    }

    /// An arena without blocks that may get `max_buffers` blocks, or as
    /// many as any arena may have when that is less.
    pub fn with_limit(max_buffers: usize) -> (pool: Self)
        ensures
            pool.wf(),
            pool.num_buffers() == 0,
            pool.upto() == INT_BLOCK_SIZE,
            pool.limit() == (if max_buffers <= MAX_INT_BLOCKS {
                max_buffers
            } else {
                MAX_INT_BLOCKS
            }),
    {
        IntBlockPool {
            buffers: Vec::new(),
            int_upto: INT_BLOCK_SIZE,
            max_buffers: if max_buffers <= MAX_INT_BLOCKS {
                max_buffers
            } else {
                MAX_INT_BLOCKS
            },
        }
    }

    /// The largest number of blocks that the arena may have.
    pub fn max_buffers(&self) -> (n: usize)
        ensures
            n == self.limit(),
    {
        self.max_buffers
    }

    /// Empties the arena for the next segment: gives back every block but
    /// the first, and zeroes that one.
    pub fn reset(&mut self)
        requires
            old(self).wf(),
        ensures
            final(self).wf(),
            final(self).limit() == old(self).limit(),
            final(self).num_buffers() == (if old(self).num_buffers() == 0 {
                0int
            } else {
                1int
            }),
            final(self).upto() == (if old(self).num_buffers() == 0 {
                INT_BLOCK_SIZE as int
            } else {
                0int
            }),
            forall|a: int| 0 <= a < final(self).ints().len() ==> #[trigger] final(self).ints()[a] == 0,
    {
        if self.buffers.len() == 0 {
            return ;
        }
        self.buffers.truncate(1);
        let mut i: usize = 0;
        while i < INT_BLOCK_SIZE
            invariant
                0 <= i <= INT_BLOCK_SIZE,
                self.buffers@.len() == 1,
                self.buffers@[0]@.len() == INT_BLOCK_SIZE,
                self.max_buffers == old(self).max_buffers,
                1 <= self.max_buffers <= MAX_INT_BLOCKS,
                forall|j: int| 0 <= j < i ==> #[trigger] self.buffers@[0]@[j] == 0,
            decreases INT_BLOCK_SIZE - i,
        {
            self.buffers[0][i] = 0;
            i += 1;
        }
        self.int_upto = 0;
        proof {
            assert forall|a: int| 0 <= a < self.ints().len() implies #[trigger] self.ints()[a]
                == 0 by {
                assert(self.buffers@[0]@[a] == 0);
            }
        }
    }

    /// Number of blocks in the arena.
    pub fn buffer_count(&self) -> (n: usize)
        ensures
            n == self.num_buffers(),
    {
        self.buffers.len()
    }

    /// Position of the next free integer inside the last block.
    pub fn int_upto(&self) -> (n: usize)
        ensures
            n == self.upto(),
    {
        self.int_upto
    }

    /// The integer at an arena offset.
    pub fn get(&self, offset: usize) -> (v: i32)
        requires
            self.wf(),
            offset < self.num_buffers() * INT_BLOCK_SIZE,
        ensures
            v == self.ints()[offset as int],
    {
        self.buffers[offset / INT_BLOCK_SIZE][offset % INT_BLOCK_SIZE]
    }

    /// Replaces the integer at an arena offset.
    pub fn set(&mut self, offset: usize, v: i32)
        requires
            old(self).wf(),
            offset < old(self).num_buffers() * INT_BLOCK_SIZE,
        ensures
            final(self).wf(),
            final(self).limit() == old(self).limit(),
            final(self).ints() == old(self).ints().update(offset as int, v),
            final(self).upto() == old(self).upto(),
            final(self).num_buffers() == old(self).num_buffers(),
    {
        self.buffers[offset / INT_BLOCK_SIZE][offset % INT_BLOCK_SIZE] = v;
        assert(final(self).ints() =~= old(self).ints().update(offset as int, v));
    }

    /// Appends a zeroed block and moves the cursor to its start.
    pub fn next_buffer(&mut self) -> (r: Result<(), Error>)
        requires
            old(self).wf(),
        ensures
            final(self).wf(),
            final(self).limit() == old(self).limit(),
            match r {
                Ok(()) => {
                    &&& old(self).num_buffers() < old(self).limit()
                    &&& final(self).num_buffers() == old(self).num_buffers() + 1
                    &&& final(self).upto() == 0
                    &&& final(self).ints().len() == old(self).ints().len() + INT_BLOCK_SIZE
                    &&& forall|a: int|
                        0 <= a < old(self).ints().len() ==> #[trigger] final(self).ints()[a] == old(self).ints()[a]
                    &&& forall|a: int|
                        old(self).ints().len() <= a < final(self).ints().len()
                            ==> #[trigger] final(self).ints()[a] == 0
                },
                Err(e) => {
                    &&& e == Error::PoolExhausted
                    &&& old(self).num_buffers() >= old(self).limit()
                    &&& *final(self) == *old(self)
                },
            },
    {
        if self.buffers.len() >= self.max_buffers {
            return Err(Error::PoolExhausted);
        }
        let block: Vec<i32> = vec![0i32; INT_BLOCK_SIZE];
        self.buffers.push(block);
        self.int_upto = 0;
        proof {
            assert forall|a: int| 0 <= a < old(self).ints().len() implies #[trigger] self.ints()[a]
                == old(self).ints()[a] by {
                assert(a / 8192 < old(self).buffers@.len());
            }
            assert forall|a: int|
                old(self).ints().len() <= a < self.ints().len() implies #[trigger] self.ints()[a]
                == 0 by {
                assert(a / 8192 == old(self).buffers@.len());
            }
        }
        Ok(())
    }

    /// Takes a run of `count` consecutive integers, in a new block when the
    /// last one cannot hold it, and returns the arena offset of the first.
    /// A new block is added exactly when the run does not fit in the last
    /// one; it holds zeroes, and no integer of the arena changes.
    pub fn reserve(&mut self, count: usize) -> (r: Result<usize, Error>)
        requires
            old(self).wf(),
            1 <= count <= INT_BLOCK_SIZE,
        ensures
            final(self).wf(),
            final(self).limit() == old(self).limit(),
            match r {
                Ok(start) => {
                    &&& old(self).can_allocate(count as int)
                    &&& start == old(self).next_start(count as int)
                    &&& final(self).cursor() == start + count
                    &&& final(self).cursor() <= final(self).ints().len()
                    &&& old(self).ints().len() <= final(self).ints().len()
                    &&& old(self).took(final(self), count as int)
                    &&& forall|a: int|
                        0 <= a < old(self).ints().len() ==> #[trigger] final(self).ints()[a] == old(self).ints()[a]
                    &&& forall|a: int|
                        old(self).ints().len() <= a < final(self).ints().len()
                            ==> #[trigger] final(self).ints()[a] == 0
                },
                Err(e) => {
                    &&& e == Error::PoolExhausted
                    &&& !old(self).can_allocate(count as int)
                    &&& *final(self) == *old(self)
                },
            },
    {
        if self.int_upto + count > INT_BLOCK_SIZE {
            match self.next_buffer() {
                Ok(()) => {},
                Err(e) => {
                    return Err(e);
                },
            }
        }
        let start = (self.buffers.len() - 1) * INT_BLOCK_SIZE + self.int_upto;
        self.int_upto += count;
        proof {
            assert(self.ints() == flat(self.buffers@));
        }
        Ok(start)
    }
}

} // verus!
