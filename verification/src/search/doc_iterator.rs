//! The contract of an iterator over document ids.

use vstd::prelude::*;
use crate::error::Error;
use crate::index::field::DocId;

verus! {

/// The id that an iterator stands on once it has no more documents.
pub const NO_MORE_DOCS: DocId = 0x7fff_ffff;

/// `d` is the smallest member of `docs` that is at least `target`, or
/// `NO_MORE_DOCS` when there is none.
pub open spec fn is_first_from(docs: Set<int>, target: int, d: int) -> bool {
    if exists|x: int| docs.contains(x) && x >= target {
        &&& docs.contains(d)
        &&& d >= target
        &&& forall|x: int| docs.contains(x) && x >= target ==> d <= x
    } else {
        d == NO_MORE_DOCS
    }
}

/// The members of `docs` above `d`.
pub open spec fn after(docs: Set<int>, d: int) -> Set<int> {
    Set::new(|x: int| docs.contains(x) && x > d)
}

/// Number of entries of `docs` below `bound`.
pub open spec fn count_below(docs: Seq<int>, bound: int) -> nat
    decreases docs.len(),
{
    if docs.len() == 0 {
        0
    } else {
        count_below(docs.drop_last(), bound) + (if docs.last() < bound {
            1nat
        } else {
            0nat
        })
    }
}

/// Replacing one entry changes the count by what the old and the new entry
/// contribute.
pub proof fn lemma_count_below_update(docs: Seq<int>, i: int, d: int, bound: int)
    requires
        0 <= i < docs.len(),
    ensures
        count_below(docs.update(i, d), bound) + (if docs[i] < bound {
            1nat
        } else {
            0nat
        }) == count_below(docs, bound) + (if d < bound {
            1nat
        } else {
            0nat
        }),
    decreases docs.len(),
{
    let n = docs.len() - 1;
    if i == n {
        assert(docs.update(i, d).drop_last() =~= docs.drop_last());
    } else {
        assert(docs.update(i, d).drop_last() =~= docs.drop_last().update(i, d));
        lemma_count_below_update(docs.drop_last(), i, d, bound);
    }
}

/// Exchanging two entries does not change the count.
pub proof fn lemma_count_below_swap(docs: Seq<int>, i: int, j: int, bound: int)
    requires
        0 <= i < docs.len(),
        0 <= j < docs.len(),
    ensures
        count_below(docs.update(i, docs[j]).update(j, docs[i]), bound) == count_below(docs, bound),
{
    lemma_count_below_update(docs, i, docs[j], bound);
    lemma_count_below_update(docs.update(i, docs[j]), j, docs[i], bound);
}

/// An iterator over document ids, in strictly ascending order. It stands on
/// -1 before the first document and on `NO_MORE_DOCS` after the last.
pub trait DocIterator: Sized {
    /// The iterator's own invariant.
    closed spec fn wf(&self) -> bool {
        arbitrary()
    }

    /// The document that the iterator stands on.
    closed spec fn doc(&self) -> int {
        arbitrary()
    }

    /// The documents that the iterator has yet to reach.
    closed spec fn rest(&self) -> Set<int> {
        arbitrary()
    }

    /// An estimate of the number of documents of the iterator.
    closed spec fn cost_spec(&self) -> nat {
        arbitrary()
    }

    /// Whether every move of the iterator succeeds. An iterator over a
    /// list in memory can say so; unless an iterator does, it may fail.
    open spec fn never_fails(&self) -> bool {
        false
    }

    /// The document that the iterator stands on.
    fn doc_id(&self) -> (d: DocId)
        requires
            self.wf(),
        ensures
            d == self.doc(),
    ;

    /// Moves to the next document and returns it. When the move fails, the
    /// iterator stays where it was.
    fn next(&mut self) -> (r: Result<DocId, Error>)
        requires
            old(self).wf(),
            old(self).doc() < NO_MORE_DOCS,
        ensures
            final(self).wf(),
            final(self).cost_spec() == old(self).cost_spec(),
            old(self).never_fails() ==> final(self).never_fails() && r is Ok,
            match r {
                Ok(d) => {
                    &&& d == final(self).doc()
                    &&& is_first_from(old(self).rest(), old(self).doc() + 1, d as int)
                    &&& final(self).rest() == after(old(self).rest(), d as int)
                },
                Err(_) => {
                    &&& final(self).doc() == old(self).doc()
                    &&& final(self).rest() == old(self).rest()
                },
            },
    ;

    /// Moves to the first document that is at least `target` and returns it.
    /// When the move fails, the iterator stands below `target`, not before
    /// where it stood, and has yet to reach what it had to reach from
    /// `target` on.
    fn advance(&mut self, target: DocId) -> (r: Result<DocId, Error>)
        requires
            old(self).wf(),
            old(self).doc() < target,
        ensures
            final(self).wf(),
            final(self).cost_spec() == old(self).cost_spec(),
            old(self).never_fails() ==> final(self).never_fails() && r is Ok,
            match r {
                Ok(d) => {
                    &&& d == final(self).doc()
                    &&& is_first_from(old(self).rest(), target as int, d as int)
                    &&& final(self).rest() == after(old(self).rest(), d as int)
                },
                Err(_) => {
                    &&& old(self).doc() <= final(self).doc() < target
                    &&& forall|x: int|
                        x >= target ==> (final(self).rest().contains(x) <==> old(self).rest().contains(x))
                },
            },
    ;

    /// An estimate of the number of documents of the iterator.
    fn cost(&self) -> (c: usize)
        requires
            self.wf(),
        ensures
            c == self.cost_spec(),
    ;
}


/// An iterator over a list of document ids that is given in ascending
/// order.
pub struct DocIdList {
    pub docs: Vec<DocId>,
    /// Number of documents that the iterator has reached or passed; one
    /// more than the length of the list once the iterator is exhausted.
    pub upto: usize,
}

impl DocIdList {
    /// The ids of `docs` are ascending, not negative, and below
    /// `NO_MORE_DOCS`.
    pub open spec fn is_ascending(docs: Seq<DocId>) -> bool {
        &&& forall|i: int| 0 <= i < docs.len() ==> 0 <= #[trigger] docs[i] < NO_MORE_DOCS
        &&& forall|i: int, j: int| 0 <= i < j < docs.len() ==> #[trigger] docs[i] < #[trigger] docs[j]
    }

    /// An iterator over `docs`, or `None` when `docs` is not a list of
    /// ascending ids.
    pub fn new(docs: Vec<DocId>) -> (r: Option<Self>)
        ensures
            r is Some <==> Self::is_ascending(docs@) && docs@.len() < usize::MAX,
            r matches Some(it) ==> it.wf() && it.docs == docs && it.upto == 0,
    {
        if docs.len() == usize::MAX {
            return None;
        }
        let mut i: usize = 0;
        while i < docs.len()
            invariant
                0 <= i <= docs@.len(),
                Self::is_ascending(docs@.take(i as int)),
            decreases docs@.len() - i,
        {
            let d = docs[i];
            if d < 0 || d >= NO_MORE_DOCS || (i > 0 && docs[i - 1] >= d) {
                proof {
                    if Self::is_ascending(docs@) {
                        if i > 0 {
                            assert(docs@[i - 1] < docs@[i as int]);
                        }
                        assert(0 <= docs@[i as int] < NO_MORE_DOCS);
                    }
                }
                return None;
            }
            proof {
                let t = docs@.take(i + 1);
                assert forall|a: int, b: int| 0 <= a < b < t.len() implies #[trigger] t[a]
                    < #[trigger] t[b] by {
                    if b < i {
                        assert(docs@.take(i as int)[a] < docs@.take(i as int)[b]);
                    } else if a < i - 1 {
                        assert(docs@.take(i as int)[a] < docs@.take(i as int)[i - 1]);
                    }
                }
                assert forall|a: int| 0 <= a < t.len() implies 0 <= #[trigger] t[a]
                    < NO_MORE_DOCS by {
                    if a < i {
                        assert(0 <= docs@.take(i as int)[a]);
                    }
                }
            }
            i += 1;
        }
        proof {
            assert(docs@.take(docs@.len() as int) =~= docs@);
        }
        Some(DocIdList { docs, upto: 0 })
    }

    /// The document that the iterator stands on after reaching `upto` ids.
    pub open spec fn doc_at(&self, upto: int) -> int {
        if upto == 0 {
            -1
        } else if upto > self.docs@.len() {
            NO_MORE_DOCS as int
        } else {
            self.docs@[upto - 1] as int
        }
    }
}

impl DocIterator for DocIdList {
    open spec fn wf(&self) -> bool {
        &&& Self::is_ascending(self.docs@)
        &&& self.docs@.len() < usize::MAX
        &&& self.upto <= self.docs@.len() + 1
    }

    open spec fn doc(&self) -> int {
        self.doc_at(self.upto as int)
    }

    open spec fn rest(&self) -> Set<int> {
        Set::new(
            |x: int|
                exists|j: int| self.upto <= j < self.docs@.len() && #[trigger] self.docs@[j] == x,
        )
    }

    open spec fn cost_spec(&self) -> nat {
        self.docs@.len()
    }

    open spec fn never_fails(&self) -> bool {
        true
    }

    fn doc_id(&self) -> (d: DocId) {
        if self.upto == 0 {
            -1
        } else if self.upto > self.docs.len() {
            NO_MORE_DOCS
        } else {
            self.docs[self.upto - 1]
        }
    }

    fn next(&mut self) -> (r: Result<DocId, Error>)
        ensures
            r is Ok,
    {
        proof {
            if 0 < self.upto <= self.docs@.len() {
                assert(0 <= self.docs@[self.upto - 1] < NO_MORE_DOCS);
            }
        }
        self.upto = self.upto + 1;
        let d = self.doc_id();
        proof {
            self.lemma_moved(old(self), old(self).doc() + 1);
        }
        Ok(d)
    }

    fn advance(&mut self, target: DocId) -> (r: Result<DocId, Error>)
        ensures
            r is Ok,
    {
        loop
            invariant_except_break
                self.doc() < target,
                forall|j: int|
                    old(self).upto <= j < self.upto && j < self.docs@.len() ==> #[trigger] self.docs@[j]
                        < target,
            invariant
                old(self).wf(),
                self.wf(),
                self.docs == old(self).docs,
                old(self).upto <= self.upto,
                old(self).doc() < target,
            ensures
                self.doc() >= target,
                self.upto > old(self).upto,
                forall|j: int|
                    old(self).upto <= j < self.upto - 1 && j < self.docs@.len()
                        ==> #[trigger] self.docs@[j] < target,
            decreases self.docs@.len() + 1 - self.upto,
        {
            proof {
                if 0 < self.upto <= self.docs@.len() {
                    assert(0 <= self.docs@[self.upto - 1] < NO_MORE_DOCS);
                }
            }
            self.upto = self.upto + 1;
            if self.doc_id() >= target {
                break ;
            }
        }
        proof {
            self.lemma_moved(old(self), target as int);
        }
        Ok(self.doc_id())
    }

    fn cost(&self) -> (c: usize) {
        self.docs.len()
    }
}

impl DocIdList {
    proof fn lemma_moved(&self, before: &Self, target: int)
        requires
            before.wf(),
            self.wf(),
            self.docs == before.docs,
            before.upto < self.upto,
            before.doc() < target,
            self.doc() >= target,
            forall|j: int|
                before.upto <= j < self.upto - 1 && j < self.docs@.len() ==> #[trigger] self.docs@[j]
                    < target,
        ensures
            is_first_from(before.rest(), target, self.doc()),
            self.rest() == after(before.rest(), self.doc()),
    {
        let d = self.doc();
        let n = self.docs@.len();
        if self.upto <= n {
            assert(before.rest().contains(d)) by {
                assert(self.docs@[self.upto - 1] == d);
            }
            assert forall|x: int| before.rest().contains(x) && x >= target implies d <= x by {
                let j = choose|j: int| before.upto <= j < n && #[trigger] self.docs@[j] == x;
                if j < self.upto - 1 {
                    assert(self.docs@[j] < target);
                } else if j > self.upto - 1 {
                    assert(self.docs@[self.upto - 1] < self.docs@[j]);
                }
            }
        } else {
            assert forall|x: int| before.rest().contains(x) implies x < target by {
                let j = choose|j: int| before.upto <= j < n && #[trigger] self.docs@[j] == x;
                assert(self.docs@[j] < target);
            }
        }
        assert forall|x: int| self.rest().contains(x) <==> after(before.rest(), d).contains(x) by {
            if self.rest().contains(x) {
                let j = choose|j: int| self.upto <= j < n && #[trigger] self.docs@[j] == x;
                assert(self.docs@[self.upto - 1] < self.docs@[j]);
            }
            if after(before.rest(), d).contains(x) {
                let j = choose|j: int| before.upto <= j < n && #[trigger] self.docs@[j] == x;
                if j < self.upto {
                    if self.upto <= n {
                        if j < self.upto - 1 {
                            assert(self.docs@[j] < self.docs@[self.upto - 1]);
                        }
                    } else {
                        assert(0 <= self.docs@[j] < NO_MORE_DOCS);
                    }
                }
            }
        }
        assert(self.rest() =~= after(before.rest(), d));
    }
}

} // verus!
