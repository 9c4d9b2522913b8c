//! Columns indexed by term id.

use vstd::prelude::*;

verus! {

/// Bytes that the shared columns take per term.
pub const BYTES_PER_POSTING: usize = 12;
/// No column has more entries than this.
pub const MAX_POSTINGS: usize = 0x4000_0000;

/// The size that a column of `size` entries grows to: room for one more
/// term, and an eighth on top, at least three.
pub open spec fn grown_size(size: int) -> int {
    let target = size + 1;
    let extra = if target / 8 < 3 {
        3
    } else {
        target / 8
    };
    if target + extra > MAX_POSTINGS {
        MAX_POSTINGS as int
    } else {
        target + extra
    }
}

/// A column after it grew to `size` entries: what it held, then zeros.
pub open spec fn grown_column<T>(before: Seq<T>, after: Seq<T>, size: int, zero: T) -> bool {
    &&& after.len() == size
    &&& before.len() <= size
    &&& forall|i: int| 0 <= i < before.len() ==> after[i] == before[i]
    &&& forall|i: int| before.len() <= i < size ==> after[i] == zero
}

/// The columns that every consumer of terms keeps: for each term id, where
/// its bytes are, where its stream heads are, and where its first stream
/// starts.
pub struct ParallelPostingsArray {
    pub size: usize,
    pub text_starts: Vec<u32>,
    pub int_starts: Vec<u32>,
    pub byte_starts: Vec<u32>,
}

impl ParallelPostingsArray {
    /// Every column has `size` entries.
    pub open spec fn wf(&self) -> bool {
        &&& self.size <= MAX_POSTINGS
        &&& self.text_starts@.len() == self.size
        &&& self.int_starts@.len() == self.size
        &&& self.byte_starts@.len() == self.size
    }

    /// `self` is `before` after growing.
    pub open spec fn grown_from(&self, before: &Self) -> bool {
        &&& self.size == grown_size(before.size as int)
        &&& grown_column(before.text_starts@, self.text_starts@, self.size as int, 0u32)
        &&& grown_column(before.int_starts@, self.int_starts@, self.size as int, 0u32)
        &&& grown_column(before.byte_starts@, self.byte_starts@, self.size as int, 0u32)
    }

    /// Columns of `size` entries each, all zero.
    pub fn new(size: usize) -> (array: Self)
        requires
            size <= MAX_POSTINGS,
        ensures
            array.wf(),
            array.size == size,
            array.text_starts@ == Seq::new(size as nat, |i: int| 0u32),
            array.int_starts@ == Seq::new(size as nat, |i: int| 0u32),
            array.byte_starts@ == Seq::new(size as nat, |i: int| 0u32),
    {
        let array = ParallelPostingsArray {
            size,
            text_starts: vec![0u32; size],
            int_starts: vec![0u32; size],
            byte_starts: vec![0u32; size],
        };
        proof {
            assert(array.text_starts@ =~= Seq::new(size as nat, |i: int| 0u32));
            assert(array.int_starts@ =~= Seq::new(size as nat, |i: int| 0u32));
            assert(array.byte_starts@ =~= Seq::new(size as nat, |i: int| 0u32));
        }
        array
    }

    /// Bytes that the columns take per term.
    pub fn bytes_per_posting(&self) -> (n: usize)
        ensures
            n == BYTES_PER_POSTING,
    {
        BYTES_PER_POSTING
    }

    /// The size that the columns grow to next.
    pub fn next_size(&self) -> (n: usize)
        requires
            self.size <= MAX_POSTINGS,
        ensures
            n == grown_size(self.size as int),
            self.size < MAX_POSTINGS ==> n > self.size,
            n <= MAX_POSTINGS,
    {
        let target = self.size + 1;
        let extra = if target / 8 < 3 {
            3
        } else {
            target / 8
        };
        if target + extra > MAX_POSTINGS {
            MAX_POSTINGS
        } else {
            target + extra
        }
    }

    /// Makes room for more terms.
    pub fn grow(&mut self)
        requires
            old(self).wf(),
        ensures
            final(self).wf(),
            final(self).grown_from(old(self)),
    {
        let new_size = self.next_size();
        grow_column(&mut self.text_starts, new_size);
        grow_column(&mut self.int_starts, new_size);
        grow_column(&mut self.byte_starts, new_size);
        self.size = new_size;
    }

    /// Releases the columns.
    pub fn clear(&mut self)
        ensures
            final(self).wf(),
            final(self).size == 0,
    {
        self.size = 0;
        self.text_starts = Vec::new();
        self.int_starts = Vec::new();
        self.byte_starts = Vec::new();
    }
}

/// Continues a column with zeros up to `size` entries.
pub fn grow_column(column: &mut Vec<u32>, size: usize)
    requires
        old(column)@.len() <= size,
    ensures
        grown_column(old(column)@, final(column)@, size as int, 0u32),
{
    if size > column.len() {
        column.resize(size, 0u32);
        proof {
            assert forall|i: int| 0 <= i < old(column)@.len() implies column@[i] == old(column)@[i] by {
                assert(column@.subrange(0, old(column)@.len() as int)[i] == old(column)@[i]);
            }
        }
    }
}

/// Continues a column of signed entries with zeros up to `size` entries.
pub fn grow_signed_column(column: &mut Vec<i32>, size: usize)
    requires
        old(column)@.len() <= size,
    ensures
        grown_column(old(column)@, final(column)@, size as int, 0i32),
{
    if size > column.len() {
        column.resize(size, 0i32);
        proof {
            assert forall|i: int| 0 <= i < old(column)@.len() implies column@[i] == old(column)@[i] by {
                assert(column@.subrange(0, old(column)@.len() as int)[i] == old(column)@[i]);
            }
        }
    }
}

/// The columns of one consumer of terms: the shared ones, and its own.
pub trait PostingsArray: Sized {
    /// The shared columns.
    closed spec fn parallel(&self) -> ParallelPostingsArray {
        arbitrary()
    }

    /// Every column has as many entries as the shared ones.
    closed spec fn wf(&self) -> bool {
        arbitrary()
    }

    /// The consumer's own columns are those of `before`.
    closed spec fn same_own_columns(&self, before: &Self) -> bool {
        arbitrary()
    }

    /// `self` is `before` after growing: every column holds what it held,
    /// then zeros.
    closed spec fn grown_from(&self, before: &Self) -> bool {
        arbitrary()
    }

    /// Bytes that all columns together take per term.
    closed spec fn posting_bytes(&self) -> int {
        arbitrary()
    }

    fn parallel_array(&self) -> (p: &ParallelPostingsArray)
        ensures
            *p == self.parallel(),
    ;

    /// The shared columns, to be changed. The columns stay well-formed as
    /// long as the shared ones keep their size.
    fn parallel_array_mut(&mut self) -> (p: &mut ParallelPostingsArray)
        ensures
            *p == old(self).parallel(),
            final(self).parallel() == *final(p),
            final(self).same_own_columns(old(self)),
            final(self).posting_bytes() == old(self).posting_bytes(),
            old(self).wf() && final(p).size == old(self).parallel().size ==> final(self).wf(),
    ;

    /// Bytes that all columns together take per term.
    fn bytes_per_posting(&self) -> (n: usize)
        ensures
            n == self.posting_bytes(),
            BYTES_PER_POSTING <= n <= BYTES_PER_POSTING + 20,
    ;

    /// Makes room for more terms.
    fn grow(&mut self)
        requires
            old(self).wf(),
            old(self).parallel().wf(),
        ensures
            final(self).wf(),
            final(self).parallel().wf(),
            final(self).parallel().grown_from(&old(self).parallel()),
            final(self).grown_from(old(self)),
            final(self).posting_bytes() == old(self).posting_bytes(),
    ;

    /// Releases the columns.
    fn clear(&mut self)
        requires
            old(self).wf(),
        ensures
            final(self).wf(),
            final(self).parallel().wf(),
            final(self).parallel().size == 0,
            final(self).posting_bytes() == old(self).posting_bytes(),
    ;
}

} // verus!
