//! The union of several document iterators.

use vstd::prelude::*;
use crate::error::Error;
use crate::index::field::DocId;
use crate::search::doc_iterator::{
    DocIterator,
    NO_MORE_DOCS,
    after,
    count_below,
    is_first_from,
    lemma_count_below_update,
};
use crate::util::disi_priority_queue::{DisiPriorityQueue, parent};

verus! {

/// The iterator `e` stands on `x` or has yet to reach it.
pub open spec fn reaches<T: DocIterator>(e: T, x: int) -> bool {
    e.doc() == x || (e.doc() < x && e.rest().contains(x))
}

/// The sum of the cost estimates of `children`.
pub open spec fn total_cost<T: DocIterator>(children: Seq<T>) -> nat
    decreases children.len(),
{
    if children.len() == 0 {
        0
    } else {
        total_cost(children.drop_last()) + children.last().cost_spec()
    }
}

/// The error with which a move of a child ended, if it ended with one. A
/// move of the scorer that meets it ends with that error, unchanged.
pub fn failure_of(moved: Result<DocId, Error>) -> (failure: Option<Error>)
    ensures
        failure == (match moved {
            Ok(_) => None::<Error>,
            Err(e) => Some(e),
        }),
{
    match moved {
        Ok(_) => None,
        Err(e) => Some(e),
    }
}

/// Iterates over the documents of any of its children, each once, in
/// ascending order: the iterator of a disjunction of queries.
pub struct DisjunctionSumScorer<T: DocIterator> {
    pub sub_scorers: DisiPriorityQueue<T>,
    pub needs_scores: bool,
    pub cost: usize,
}

impl<T: DocIterator> DisjunctionSumScorer<T> {
    /// Some child stands on `x` or has yet to reach it.
    pub open spec fn covers(&self, x: int) -> bool {
        exists|i: int| 0 <= i < self.sub_scorers.heap@.len() && reaches(#[trigger] self.sub_scorers.heap@[i], x)
    }

    /// `self` and `before` cover the same documents from `from` on.
    pub open spec fn covers_like(&self, before: &Self, from: int) -> bool {
        forall|x: int|
            from <= x < NO_MORE_DOCS ==> (#[trigger] self.covers(x) <==> before.covers(x))
    }

    proof fn lemma_covers_same(&self, before: &Self)
        requires
            self.sub_scorers.same_elements(&before.sub_scorers),
        ensures
            forall|x: int| #[trigger] self.covers(x) <==> before.covers(x),
    {
        assert forall|x: int| #[trigger] self.covers(x) <==> before.covers(x) by {
            if self.covers(x) {
                let i = choose|i: int|
                    0 <= i < self.sub_scorers.heap@.len() && reaches(
                        #[trigger] self.sub_scorers.heap@[i],
                        x,
                    );
                let e = self.sub_scorers.heap@[i];
                assert(self.sub_scorers.heap@.contains(e));
                assert(before.sub_scorers.heap@.contains(e));
                let j = choose|j: int|
                    0 <= j < before.sub_scorers.heap@.len() && before.sub_scorers.heap@[j] == e;
                assert(reaches(before.sub_scorers.heap@[j], x));
            }
            if before.covers(x) {
                let i = choose|i: int|
                    0 <= i < before.sub_scorers.heap@.len() && reaches(
                        #[trigger] before.sub_scorers.heap@[i],
                        x,
                    );
                let e = before.sub_scorers.heap@[i];
                assert(before.sub_scorers.heap@.contains(e));
                assert(self.sub_scorers.heap@.contains(e));
                let j = choose|j: int|
                    0 <= j < self.sub_scorers.heap@.len() && self.sub_scorers.heap@[j] == e;
                assert(reaches(self.sub_scorers.heap@[j], x));
            }
        }
    }

    /// What moving the top child does to the queue: the queue stays in
    /// order below the top, the documents from `from` on stay covered, and
    /// one child less stands below `from`.
    proof fn lemma_top_moved(&self, before: &Self, from: int, d: int)
        requires
            self.sub_scorers.next == before.sub_scorers.next,
            before.sub_scorers.wf(),
            self.sub_scorers.heap@ == before.sub_scorers.heap@.update(0, self.sub_scorers.heap@[0]),
            self.sub_scorers.heap@[0].wf(),
            self.sub_scorers.heap@[0].doc() == d,
            before.sub_scorers.heap@[0].doc() < from,
            from <= NO_MORE_DOCS,
            is_first_from(before.sub_scorers.heap@[0].rest(), from, d),
            self.sub_scorers.heap@[0].rest() == after(before.sub_scorers.heap@[0].rest(), d),
        ensures
            self.sub_scorers.wf_below_top(),
            self.covers_like(before, from),
            count_below(self.sub_scorers.docs(), from) < count_below(
                before.sub_scorers.docs(),
                from,
            ),
            d >= from,
    {
        let old_top = before.sub_scorers.heap@[0];
        let new_top = self.sub_scorers.heap@[0];
        assert forall|i: int| 0 <= i < self.sub_scorers.heap@.len() implies (#[trigger] self.sub_scorers.heap@[i]).wf() by {
            if i > 0 {
                assert(before.sub_scorers.heap@[i].wf());
            }
        }
        assert forall|i: int|
            1 <= i < self.sub_scorers.heap@.len() && parent(i)
                >= 1 implies #[trigger] self.sub_scorers.ordered_at(i) by {
            assert(before.sub_scorers.ordered_at(i));
        }
        assert forall|x: int| from <= x < NO_MORE_DOCS implies (#[trigger] self.covers(x)
            <==> before.covers(x)) by {
            if self.covers(x) {
                let i = choose|i: int|
                    0 <= i < self.sub_scorers.heap@.len() && reaches(
                        #[trigger] self.sub_scorers.heap@[i],
                        x,
                    );
                if i == 0 {
                    assert(reaches(before.sub_scorers.heap@[0], x));
                } else {
                    assert(reaches(before.sub_scorers.heap@[i], x));
                }
            }
            if before.covers(x) {
                let i = choose|i: int|
                    0 <= i < before.sub_scorers.heap@.len() && reaches(
                        #[trigger] before.sub_scorers.heap@[i],
                        x,
                    );
                if i == 0 {
                    assert(old_top.rest().contains(x));
                    assert(reaches(self.sub_scorers.heap@[0], x));
                } else {
                    assert(reaches(self.sub_scorers.heap@[i], x));
                }
            }
        }
        assert(self.sub_scorers.docs() =~= before.sub_scorers.docs().update(0, d));
        lemma_count_below_update(before.sub_scorers.docs(), 0, d, from);
    }

    /// What a failed move of the top child does to the queue: nothing that
    /// the iterator shows.
    proof fn lemma_top_kept(&self, before: &Self)
        requires
            self.sub_scorers.next == before.sub_scorers.next,
            before.sub_scorers.wf(),
            self.sub_scorers.heap@ == before.sub_scorers.heap@.update(0, self.sub_scorers.heap@[0]),
            self.sub_scorers.heap@[0].wf(),
            self.sub_scorers.heap@[0].doc() == before.sub_scorers.heap@[0].doc(),
            self.sub_scorers.heap@[0].rest() == before.sub_scorers.heap@[0].rest(),
        ensures
            self.sub_scorers.wf(),
            forall|x: int| #[trigger] self.covers(x) <==> before.covers(x),
    {
        assert forall|i: int| 0 <= i < self.sub_scorers.heap@.len() implies (#[trigger] self.sub_scorers.heap@[i]).wf() by {
            if i > 0 {
                assert(before.sub_scorers.heap@[i].wf());
            }
        }
        assert forall|i: int|
            1 <= i < self.sub_scorers.heap@.len() && parent(i)
                >= 0 implies #[trigger] self.sub_scorers.ordered_at(i) by {
            assert(before.sub_scorers.ordered_at(i));
        }
        assert forall|x: int| #[trigger] self.covers(x) <==> before.covers(x) by {
            if self.covers(x) {
                let i = choose|i: int|
                    0 <= i < self.sub_scorers.heap@.len() && reaches(
                        #[trigger] self.sub_scorers.heap@[i],
                        x,
                    );
                assert(reaches(before.sub_scorers.heap@[i], x));
            }
            if before.covers(x) {
                let i = choose|i: int|
                    0 <= i < before.sub_scorers.heap@.len() && reaches(
                        #[trigger] before.sub_scorers.heap@[i],
                        x,
                    );
                assert(reaches(self.sub_scorers.heap@[i], x));
            }
        }
    }

    /// Where the iterator stands once no child stands below `from` any
    /// more.
    proof fn lemma_arrived(&self, before: &Self, from: int)
        requires
            before.sub_scorers.wf(),
            self.sub_scorers.wf(),
            before.sub_scorers.heap@[0].doc() < from,
            from <= self.sub_scorers.heap@[0].doc() <= NO_MORE_DOCS,
            self.covers_like(before, from),
        ensures
            is_first_from(before.rest(), from, self.doc()),
            self.rest() == after(before.rest(), self.doc()),
    {
        let d = self.doc();
        assert(reaches(self.sub_scorers.heap@[0], d));
        assert forall|x: int| from <= x < NO_MORE_DOCS && self.covers(x) implies d <= x by {
            let i = choose|i: int|
                0 <= i < self.sub_scorers.heap@.len() && reaches(
                    #[trigger] self.sub_scorers.heap@[i],
                    x,
                );
            self.sub_scorers.lemma_top_is_least(i);
        }
        if d < NO_MORE_DOCS {
            assert(self.covers(d));
            assert(before.covers(d));
            assert(before.rest().contains(d));
        }
        assert forall|x: int| before.rest().contains(x) && x >= from implies d <= x by {
            assert(self.covers(x));
        }
        assert(self.rest() =~= after(before.rest(), d));
    }

    /// The union of `children`. `needs_scores` tells whether the caller will
    /// ask for scores.
    pub fn new(children: Vec<T>, needs_scores: bool) -> (scorer: Self)
        requires
            children@.len() > 1,
            forall|i: int| 0 <= i < children@.len() ==> (#[trigger] children@[i]).wf(),
            total_cost(children@) <= usize::MAX,
        ensures
            scorer.wf(),
            scorer.needs_scores == needs_scores,
            scorer.cost == total_cost(children@),
            scorer.sub_scorers.heap@.len() == children@.len(),
            forall|e: T| #[trigger] scorer.sub_scorers.heap@.contains(e) <==> children@.contains(e),
            forall|x: int|
                #[trigger] scorer.covers(x) <==> exists|i: int|
                    0 <= i < children@.len() && reaches(#[trigger] children@[i], x),
            (forall|i: int| 0 <= i < children@.len() ==> (#[trigger] children@[i]).never_fails())
                ==> scorer.never_fails(),
    {
        let mut cost: usize = 0;
        let mut i: usize = 0;
        while i < children.len()
            invariant
                0 <= i <= children@.len(),
                cost == total_cost(children@.take(i as int)),
                total_cost(children@) <= usize::MAX,
                forall|i: int| 0 <= i < children@.len() ==> (#[trigger] children@[i]).wf(),
            decreases children@.len() - i,
        {
            proof {
                assert(children@.take(i + 1).drop_last() =~= children@.take(i as int));
                lemma_total_cost_prefix(children@, i + 1);
            }
            cost = cost + children[i].cost();
            i += 1;
        }
        proof {
            assert(children@.take(children@.len() as int) =~= children@);
        }
        let ghost given = children@;
        let scorer = DisjunctionSumScorer {
            sub_scorers: DisiPriorityQueue::new(children),
            needs_scores,
            cost,
        };
        proof {
            assert forall|x: int|
                #[trigger] scorer.covers(x) <==> exists|i: int|
                    0 <= i < given.len() && reaches(#[trigger] given[i], x) by {
                if scorer.covers(x) {
                    let i = choose|i: int|
                        0 <= i < scorer.sub_scorers.heap@.len() && reaches(
                            #[trigger] scorer.sub_scorers.heap@[i],
                            x,
                        );
                    let e = scorer.sub_scorers.heap@[i];
                    assert(scorer.sub_scorers.heap@.contains(e));
                    assert(given.contains(e));
                    let j = choose|j: int| 0 <= j < given.len() && given[j] == e;
                    assert(reaches(given[j], x));
                }
                if exists|i: int| 0 <= i < given.len() && reaches(#[trigger] given[i], x) {
                    let i = choose|i: int| 0 <= i < given.len() && reaches(#[trigger] given[i], x);
                    let e = given[i];
                    assert(given.contains(e));
                    assert(scorer.sub_scorers.heap@.contains(e));
                    let j = choose|j: int|
                        0 <= j < scorer.sub_scorers.heap@.len() && scorer.sub_scorers.heap@[j]
                            == e;
                    assert(reaches(scorer.sub_scorers.heap@[j], x));
                }
            }
            if forall|i: int| 0 <= i < given.len() ==> (#[trigger] given[i]).never_fails() {
                assert forall|i: int| 0 <= i < scorer.sub_scorers.heap@.len() implies (#[trigger] scorer.sub_scorers.heap@[i]).never_fails() by {
                    let e = scorer.sub_scorers.heap@[i];
                    assert(scorer.sub_scorers.heap@.contains(e));
                    assert(given.contains(e));
                    let j = choose|j: int| 0 <= j < given.len() && given[j] == e;
                    assert(given[j].never_fails());
                }
            }
        }
        scorer
    }

    /// The queue of the children.
    pub fn sub_scorers(&self) -> (queue: &DisiPriorityQueue<T>)
        ensures
            *queue == self.sub_scorers,
    {
        &self.sub_scorers
    }

    /// The queue of the children, to be changed. The scorer stays
    /// well-formed as long as the queue does.
    pub fn sub_scorers_mut(&mut self) -> (queue: &mut DisiPriorityQueue<T>)
        ensures
            *queue == old(self).sub_scorers,
            final(self).sub_scorers == *final(queue),
            final(self).needs_scores == old(self).needs_scores,
            final(self).cost == old(self).cost,
    {
        &mut self.sub_scorers
    }

    /// The sum of the cost estimates of the children.
    pub fn get_cost(&self) -> (c: usize)
        ensures
            c == self.cost,
    {
        self.cost
    }

    /// Whether the current document matches: it always does, since one
    /// child standing on it is enough.
    pub fn matches(&mut self) -> (r: Result<bool, Error>)
        ensures
            r == Ok::<bool, Error>(true),
            *final(self) == *old(self),
    {
        Ok(true)
    }

    /// Moves to the next document of any child: every child that stands on
    /// the current document moves on. The move fails only where a child's
    /// does, with the error that `failure_of` finds in the child's result;
    /// no child leaves the queue.
    pub fn approximate_next(&mut self) -> (r: Result<DocId, Error>)
        requires
            old(self).wf(),
            old(self).doc() < NO_MORE_DOCS,
        ensures
            final(self).wf(),
            final(self).cost == old(self).cost,
            final(self).needs_scores == old(self).needs_scores,
            final(self).sub_scorers.heap@.len() == old(self).sub_scorers.heap@.len(),
            old(self).never_fails() ==> final(self).never_fails() && r is Ok,
            match r {
                Ok(d) => {
                    &&& d == final(self).doc()
                    &&& is_first_from(old(self).rest(), old(self).doc() + 1, d as int)
                    &&& final(self).rest() == after(old(self).rest(), d as int)
                },
                Err(_) => {
                    &&& final(self).doc() == old(self).doc()
                    &&& final(self).rest() == old(self).rest()
                },
            },
    {
        let doc = self.sub_scorers.peek().doc_id();
        proof {
            assert forall|i: int| 0 <= i < self.sub_scorers.heap@.len() implies (#[trigger] self.sub_scorers.heap@[i]).doc()
                >= doc by {
                self.sub_scorers.lemma_top_is_least(i);
            }
        }
        loop
            invariant_except_break
                self.sub_scorers.heap@[0].doc() == doc,
            invariant
                old(self).sub_scorers.wf(),
                old(self).sub_scorers.heap@[0].doc() == doc,
                doc < NO_MORE_DOCS,
                self.sub_scorers.wf(),
                self.cost == old(self).cost,
                self.needs_scores == old(self).needs_scores,
                self.sub_scorers.heap@.len() == old(self).sub_scorers.heap@.len(),
                old(self).never_fails() ==> self.never_fails(),
                self.covers_like(old(self), doc + 1),
                forall|i: int|
                    0 <= i < self.sub_scorers.heap@.len() ==> (#[trigger] self.sub_scorers.heap@[i]).doc()
                        >= doc,
            ensures
                self.sub_scorers.heap@[0].doc() > doc,
            decreases count_below(self.sub_scorers.docs(), doc + 1),
        {
            let ghost before = *self;
            proof {
                if before.never_fails() {
                    assert(before.sub_scorers.heap@[0].never_fails());
                }
            }
            let top = self.sub_scorers.peek_mut();
            match failure_of(top.next()) {
                None => {},
                Some(e) => {
                    proof {
                        self.lemma_top_kept(&before);
                        assert(self.rest() =~= old(self).rest());
                    }
                    return Err(e);
                },
            }
            let ghost moved = *self;
            proof {
                self.lemma_top_moved(&before, doc + 1, self.sub_scorers.heap@[0].doc());
            }
            self.sub_scorers.update_top();
            proof {
                if before.never_fails() {
                    self.lemma_none_fails(&moved, &before);
                }
                self.lemma_covers_same(&moved);
                self.lemma_not_below(&moved, &before, doc as int);
                assert(count_below(self.sub_scorers.docs(), doc + 1) == count_below(
                    moved.sub_scorers.docs(),
                    doc + 1,
                ));
            }
            if self.sub_scorers.peek().doc_id() != doc {
                break ;
            }
        }
        let d = self.sub_scorers.peek().doc_id();
        proof {
            self.lemma_arrived(old(self), doc + 1);
        }
        Ok(d)
    }

    /// What a move of the top child that stopped below `from` does to the
    /// queue: the queue stays in order below the top, and the documents
    /// from `from` on stay covered.
    proof fn lemma_top_stalled(&self, before: &Self, from: int)
        requires
            self.sub_scorers.next == before.sub_scorers.next,
            before.sub_scorers.wf(),
            self.sub_scorers.heap@ == before.sub_scorers.heap@.update(0, self.sub_scorers.heap@[0]),
            self.sub_scorers.heap@[0].wf(),
            before.sub_scorers.heap@[0].doc() <= self.sub_scorers.heap@[0].doc() < from,
            forall|x: int|
                x >= from ==> (self.sub_scorers.heap@[0].rest().contains(x)
                    <==> before.sub_scorers.heap@[0].rest().contains(x)),
        ensures
            self.sub_scorers.wf_below_top(),
            self.covers_like(before, from),
    {
        assert forall|i: int| 0 <= i < self.sub_scorers.heap@.len() implies (#[trigger] self.sub_scorers.heap@[i]).wf() by {
            if i > 0 {
                assert(before.sub_scorers.heap@[i].wf());
            }
        }
        assert forall|i: int|
            1 <= i < self.sub_scorers.heap@.len() && parent(i)
                >= 1 implies #[trigger] self.sub_scorers.ordered_at(i) by {
            assert(before.sub_scorers.ordered_at(i));
        }
        assert forall|x: int| from <= x < NO_MORE_DOCS implies (#[trigger] self.covers(x)
            <==> before.covers(x)) by {
            if self.covers(x) {
                let i = choose|i: int|
                    0 <= i < self.sub_scorers.heap@.len() && reaches(
                        #[trigger] self.sub_scorers.heap@[i],
                        x,
                    );
                assert(reaches(before.sub_scorers.heap@[i], x));
            }
            if before.covers(x) {
                let i = choose|i: int|
                    0 <= i < before.sub_scorers.heap@.len() && reaches(
                        #[trigger] before.sub_scorers.heap@[i],
                        x,
                    );
                assert(reaches(self.sub_scorers.heap@[i], x));
            }
        }
    }

    /// Every child of `self` stands at or above `doc` when every child of
    /// `before` but its top did, the top of `moved` does, and `self` holds
    /// the children of `moved`, which is `before` with another top.
    proof fn lemma_not_below(&self, moved: &Self, before: &Self, doc: int)
        requires
            self.sub_scorers.same_elements(&moved.sub_scorers),
            moved.sub_scorers.heap@ == before.sub_scorers.heap@.update(
                0,
                moved.sub_scorers.heap@[0],
            ),
            before.sub_scorers.heap@.len() >= 1,
            moved.sub_scorers.heap@[0].doc() >= doc,
            forall|i: int|
                0 <= i < before.sub_scorers.heap@.len() ==> (#[trigger] before.sub_scorers.heap@[i]).doc()
                    >= doc,
        ensures
            forall|i: int|
                0 <= i < self.sub_scorers.heap@.len() ==> (#[trigger] self.sub_scorers.heap@[i]).doc()
                    >= doc,
    {
        assert forall|i: int| 0 <= i < self.sub_scorers.heap@.len() implies (#[trigger] self.sub_scorers.heap@[i]).doc()
            >= doc by {
            let e = self.sub_scorers.heap@[i];
            assert(self.sub_scorers.heap@.contains(e));
            assert(moved.sub_scorers.heap@.contains(e));
            let j = choose|j: int|
                0 <= j < moved.sub_scorers.heap@.len() && moved.sub_scorers.heap@[j] == e;
            if j > 0 {
                assert(before.sub_scorers.heap@[j].doc() >= doc);
            }
        }
    }

    /// No child of `self` ever fails when none of `before` does, nor the
    /// top of `moved`, and `self` holds the children of `moved`, which is
    /// `before` with another top.
    proof fn lemma_none_fails(&self, moved: &Self, before: &Self)
        requires
            self.sub_scorers.same_elements(&moved.sub_scorers),
            moved.sub_scorers.heap@ == before.sub_scorers.heap@.update(
                0,
                moved.sub_scorers.heap@[0],
            ),
            before.sub_scorers.heap@.len() >= 1,
            moved.sub_scorers.heap@[0].never_fails(),
            before.never_fails(),
        ensures
            self.never_fails(),
    {
        assert forall|i: int| 0 <= i < self.sub_scorers.heap@.len() implies (#[trigger] self.sub_scorers.heap@[i]).never_fails() by {
            let e = self.sub_scorers.heap@[i];
            assert(self.sub_scorers.heap@.contains(e));
            assert(moved.sub_scorers.heap@.contains(e));
            let j = choose|j: int|
                0 <= j < moved.sub_scorers.heap@.len() && moved.sub_scorers.heap@[j] == e;
            if j > 0 {
                assert(before.sub_scorers.heap@[j].never_fails());
            }
        }
    }

    /// Moves to the first document of any child that is at least `target`:
    /// every child that stands below `target` moves there. The move fails
    /// only where a child's does, with the error that `failure_of` finds in
    /// the child's result; no child leaves the queue.
    pub fn approximate_advance(&mut self, target: DocId) -> (r: Result<DocId, Error>)
        requires
            old(self).wf(),
            old(self).doc() < target,
        ensures
            final(self).wf(),
            final(self).cost == old(self).cost,
            final(self).needs_scores == old(self).needs_scores,
            final(self).sub_scorers.heap@.len() == old(self).sub_scorers.heap@.len(),
            old(self).never_fails() ==> final(self).never_fails() && r is Ok,
            match r {
                Ok(d) => {
                    &&& d == final(self).doc()
                    &&& is_first_from(old(self).rest(), target as int, d as int)
                    &&& final(self).rest() == after(old(self).rest(), d as int)
                },
                Err(_) => {
                    &&& old(self).doc() <= final(self).doc() < target
                    &&& forall|x: int|
                        x >= target ==> (final(self).rest().contains(x) <==> old(self).rest().contains(x))
                },
            },
    {
        let ghost doc = self.doc();
        proof {
            assert forall|i: int| 0 <= i < self.sub_scorers.heap@.len() implies (#[trigger] self.sub_scorers.heap@[i]).doc()
                >= doc by {
                self.sub_scorers.lemma_top_is_least(i);
            }
        }
        loop
            invariant_except_break
                self.sub_scorers.heap@[0].doc() < target,
            invariant
                old(self).sub_scorers.wf(),
                old(self).sub_scorers.heap@[0].doc() == doc,
                doc < target,
                self.sub_scorers.wf(),
                self.cost == old(self).cost,
                self.needs_scores == old(self).needs_scores,
                self.sub_scorers.heap@.len() == old(self).sub_scorers.heap@.len(),
                old(self).never_fails() ==> self.never_fails(),
                self.covers_like(old(self), target as int),
                forall|i: int|
                    0 <= i < self.sub_scorers.heap@.len() ==> (#[trigger] self.sub_scorers.heap@[i]).doc()
                        >= doc,
            ensures
                self.sub_scorers.heap@[0].doc() >= target,
            decreases count_below(self.sub_scorers.docs(), target as int),
        {
            let ghost before = *self;
            proof {
                if before.never_fails() {
                    assert(before.sub_scorers.heap@[0].never_fails());
                }
            }
            let top = self.sub_scorers.peek_mut();
            match failure_of(top.advance(target)) {
                None => {},
                Some(e) => {
                    let ghost moved = *self;
                    proof {
                        self.lemma_top_stalled(&before, target as int);
                    }
                    self.sub_scorers.update_top();
                    proof {
                        self.lemma_covers_same(&moved);
                        self.lemma_not_below(&moved, &before, doc);
                        assert(moved.sub_scorers.heap@.contains(moved.sub_scorers.heap@[0]));
                        let e0 = moved.sub_scorers.heap@[0];
                        assert(self.sub_scorers.heap@.contains(e0));
                        let j = choose|j: int|
                            0 <= j < self.sub_scorers.heap@.len() && self.sub_scorers.heap@[j]
                                == e0;
                        self.sub_scorers.lemma_top_is_least(j);
                    }
                    return Err(e);
                },
            }
            let ghost moved = *self;
            proof {
                self.lemma_top_moved(&before, target as int, self.sub_scorers.heap@[0].doc());
            }
            self.sub_scorers.update_top();
            proof {
                if before.never_fails() {
                    self.lemma_none_fails(&moved, &before);
                }
                self.lemma_covers_same(&moved);
                assert(count_below(self.sub_scorers.docs(), target as int) == count_below(
                    moved.sub_scorers.docs(),
                    target as int,
                ));
                self.lemma_not_below(&moved, &before, doc);
            }
            if self.sub_scorers.peek().doc_id() >= target {
                break ;
            }
        }
        let d = self.sub_scorers.peek().doc_id();
        proof {
            self.lemma_arrived(old(self), target as int);
        }
        Ok(d)
    }
}

impl<T: DocIterator> DocIterator for DisjunctionSumScorer<T> {
    open spec fn wf(&self) -> bool {
        self.sub_scorers.wf()
    }

    open spec fn doc(&self) -> int {
        self.sub_scorers.heap@[0].doc()
    }

    open spec fn rest(&self) -> Set<int> {
        Set::new(|x: int| self.sub_scorers.heap@[0].doc() < x < NO_MORE_DOCS && self.covers(x))
    }

    open spec fn cost_spec(&self) -> nat {
        self.cost as nat
    }

    open spec fn never_fails(&self) -> bool {
        forall|i: int|
            0 <= i < self.sub_scorers.heap@.len() ==> (#[trigger] self.sub_scorers.heap@[i]).never_fails()
    }

    fn doc_id(&self) -> (d: DocId) {
        self.sub_scorers.peek().doc_id()
    }

    fn next(&mut self) -> (r: Result<DocId, Error>)
        ensures
            final(self).sub_scorers.heap@.len() == old(self).sub_scorers.heap@.len(),
    {
        self.approximate_next()
    }

    fn advance(&mut self, target: DocId) -> (r: Result<DocId, Error>)
        ensures
            final(self).sub_scorers.heap@.len() == old(self).sub_scorers.heap@.len(),
    {
        self.approximate_advance(target)
    }

    fn cost(&self) -> (c: usize) {
        self.cost
    }
}

/// The cost of a prefix is at most the cost of the whole.
pub proof fn lemma_total_cost_prefix<T: DocIterator>(children: Seq<T>, n: int)
    requires
        0 <= n <= children.len(),
    ensures
        total_cost(children.take(n)) <= total_cost(children),
    decreases children.len(),
{
    if n < children.len() {
        assert(children.drop_last().take(n) =~= children.take(n));
        lemma_total_cost_prefix(children.drop_last(), n);
    } else {
        assert(children.take(n) =~= children);
    }
}

} // verus!
