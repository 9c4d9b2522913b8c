//! A priority queue of document iterators, ordered by the document that each
//! stands on.

use vstd::prelude::*;
use crate::index::field::DocId;
use crate::search::doc_iterator::{DocIterator, count_below, lemma_count_below_swap};

verus! {

/// The place above `i` in the heap.
pub open spec fn parent(i: int) -> int {
    (i - 1) / 2
}

/// Exchanges two entries of a vector.
pub fn swap_entries<T>(v: &mut Vec<T>, i: usize, j: usize)
    requires
        i < j < old(v)@.len(),
    ensures
        final(v)@ == old(v)@.update(i as int, old(v)@[j as int]).update(j as int, old(v)@[i as int]),
{
    let mut a = v.swap_remove(j);
    core::mem::swap(&mut v[i], &mut a);
    v.push(a);
    if j < v.len() - 1 {
        let b = v.swap_remove(j);
        v.push(b);
    }
    proof {
        assert(v@ =~= old(v)@.update(i as int, old(v)@[j as int]).update(
            j as int,
            old(v)@[i as int],
        ));
    }
}

/// A binary min-heap of iterators: the iterator that stands on the smallest
/// document is on top.
pub struct DisiPriorityQueue<T: DocIterator> {
    pub heap: Vec<T>,
    /// For each place of the heap, the next place in the list that
    /// `top_list` made last.
    pub next: Vec<Option<usize>>,
}

/// The places that the links `next` lead through from `place` on, `steps`
/// of them at most.
pub open spec fn chain_from(next: Seq<Option<usize>>, place: usize, steps: nat) -> Seq<usize>
    decreases steps,
{
    if steps == 0 {
        Seq::empty()
    } else {
        match next[place as int] {
            Some(n) => seq![place] + chain_from(next, n, (steps - 1) as nat),
            None => seq![place],
        }
    }
}

/// Links that lead through `list` lead, from any place of `list`, through
/// the rest of `list`.
proof fn lemma_chain_is_list(next: Seq<Option<usize>>, list: Seq<usize>, k: int, steps: nat)
    requires
        0 <= k < list.len(),
        steps >= list.len() - k,
        forall|a: int| 0 <= a < list.len() - 1 ==> next[#[trigger] list[a] as int] == Some(list[a + 1]),
        next[list[list.len() - 1] as int] == None::<usize>,
    ensures
        chain_from(next, list[k], steps) == list.skip(k),
    decreases list.len() - k,
{
    if k == list.len() - 1 {
        assert(list.skip(k) =~= seq![list[k]]);
    } else {
        lemma_chain_is_list(next, list, k + 1, (steps - 1) as nat);
        assert(list.skip(k) =~= seq![list[k]] + list.skip(k + 1));
    }
}

impl<T: DocIterator> DisiPriorityQueue<T> {
    /// The documents that the iterators stand on, in heap order.
    pub open spec fn docs(&self) -> Seq<int> {
        Seq::new(self.heap@.len(), |i: int| self.heap@[i].doc())
    }

    /// Every iterator of the queue is well-formed.
    pub open spec fn children_wf(&self) -> bool {
        forall|i: int| 0 <= i < self.heap@.len() ==> (#[trigger] self.heap@[i]).wf()
    }

    /// The entry at `i` does not come before the entry above it.
    pub open spec fn ordered_at(&self, i: int) -> bool {
        self.heap@[parent(i)].doc() <= self.heap@[i].doc()
    }

    /// Every entry whose place above is `from` or lower in the heap is in
    /// order with it.
    pub open spec fn is_heap_from(&self, from: int) -> bool {
        forall|i: int|
            1 <= i < self.heap@.len() && parent(i) >= from ==> #[trigger] self.ordered_at(i)
    }

    /// No iterator comes before the one above it.
    pub open spec fn is_heap(&self) -> bool {
        self.is_heap_from(0)
    }

    /// The queue's invariant: it is not empty, its iterators are
    /// well-formed, and no iterator comes before the one above it.
    pub open spec fn wf(&self) -> bool {
        &&& self.heap@.len() >= 1
        &&& self.next@.len() == self.heap@.len()
        &&& self.children_wf()
        &&& self.is_heap()
    }

    /// The queue as it is while its top is being moved: in order everywhere
    /// but, possibly, right below the top.
    pub open spec fn wf_below_top(&self) -> bool {
        &&& self.heap@.len() >= 1
        &&& self.next@.len() == self.heap@.len()
        &&& self.children_wf()
        &&& self.is_heap_from(1)
    }

    /// `self` holds the iterators of `other`, in some order.
    pub open spec fn same_elements(&self, other: &Self) -> bool {
        &&& self.heap@.len() == other.heap@.len()
        &&& forall|e: T| #[trigger] self.heap@.contains(e) <==> other.heap@.contains(e)
        &&& forall|bound: int|
            #[trigger] count_below(self.docs(), bound) == count_below(other.docs(), bound)
    }

    /// No iterator stands on a document before the top's.
    pub proof fn lemma_top_is_least(&self, i: int)
        requires
            self.wf(),
            0 <= i < self.heap@.len(),
        ensures
            self.heap@[0].doc() <= self.heap@[i].doc(),
        decreases i,
    {
        if i > 0 {
            assert(self.ordered_at(i));
            self.lemma_top_is_least(parent(i));
        }
    }

    proof fn lemma_swapped(&self, before: &Self, i: int, j: int)
        requires
            0 <= i < j < before.heap@.len(),
            self.heap@ == before.heap@.update(i, before.heap@[j]).update(j, before.heap@[i]),
        ensures
            self.same_elements(before),
    {
        assert forall|e: T| #[trigger] self.heap@.contains(e) <==> before.heap@.contains(e) by {
            if self.heap@.contains(e) {
                let k = choose|k: int| 0 <= k < self.heap@.len() && self.heap@[k] == e;
                if k == i {
                    assert(before.heap@[j] == e);
                } else if k == j {
                    assert(before.heap@[i] == e);
                } else {
                    assert(before.heap@[k] == e);
                }
            }
            if before.heap@.contains(e) {
                let k = choose|k: int| 0 <= k < before.heap@.len() && before.heap@[k] == e;
                if k == i {
                    assert(self.heap@[j] == e);
                } else if k == j {
                    assert(self.heap@[i] == e);
                } else {
                    assert(self.heap@[k] == e);
                }
            }
        }
        assert(self.docs() =~= before.docs().update(i, before.docs()[j]).update(
            j,
            before.docs()[i],
        ));
        assert forall|bound: int|
            #[trigger] count_below(self.docs(), bound) == count_below(before.docs(), bound) by {
            lemma_count_below_swap(before.docs(), i, j, bound);
        }
    }

    /// Moves the entry at `start` down until it comes before neither of the
    /// entries below it.
    fn down_heap(&mut self, start: usize)
        requires
            old(self).children_wf(),
            start < old(self).heap@.len(),
            old(self).is_heap_from(start as int + 1),
        ensures
            final(self).children_wf(),
            final(self).is_heap_from(start as int),
            final(self).same_elements(old(self)),
            final(self).next == old(self).next,
    {
        let n = self.heap.len();
        let mut i = start;
        proof {
            assert(self.same_elements(old(self)));
        }
        loop
            invariant
                n == self.heap@.len(),
                start <= i < n,
                self.children_wf(),
                self.next == old(self).next,
                self.same_elements(old(self)),
                forall|j: int|
                    1 <= j < n && parent(j) >= start && parent(j) != i ==> #[trigger] self.ordered_at(
                        j,
                    ),
                i > start ==> forall|c: int|
                    1 <= c < n && parent(c) == i ==> self.heap@[parent(i as int)].doc()
                        <= (#[trigger] self.heap@[c]).doc(),
            ensures
                self.children_wf(),
                self.is_heap_from(start as int),
                self.same_elements(old(self)),
                self.next == old(self).next,
            decreases n - i,
        {
            if i > (n - 1) / 2 || 2 * i + 1 >= n {
                proof {
                    assert forall|j: int|
                        1 <= j < n && parent(j) >= start implies #[trigger] self.ordered_at(j) by {
                    }
                }
                break ;
            }
            let left = 2 * i + 1;
            let mut smallest = left;
            if left + 1 < n {
                if self.heap[left + 1].doc_id() < self.heap[left].doc_id() {
                    smallest = left + 1;
                }
            }
            if self.heap[smallest].doc_id() >= self.heap[i].doc_id() {
                proof {
                    assert forall|j: int|
                        1 <= j < n && parent(j) >= start implies #[trigger] self.ordered_at(j) by {
                        if parent(j) == i {
                            assert(j == left || j == left + 1);
                        }
                    }
                }
                break ;
            }
            let ghost before = *self;
            swap_entries(&mut self.heap, i, smallest);
            proof {
                self.lemma_swapped(&before, i as int, smallest as int);
                assert forall|k: int| 0 <= k < n implies (#[trigger] self.heap@[k]).wf() by {
                    if k == i {
                        assert(before.heap@[smallest as int].wf());
                    } else if k == smallest {
                        assert(before.heap@[i as int].wf());
                    } else {
                        assert(before.heap@[k].wf());
                    }
                }
                assert forall|j: int|
                    1 <= j < n && parent(j) >= start && parent(j)
                        != smallest implies #[trigger] self.ordered_at(j) by {
                    if parent(j) == i {
                        assert(j == left || j == left + 1);
                    } else if j == i {
                        assert(before.heap@[parent(i as int)].doc()
                            <= before.heap@[smallest as int].doc());
                    } else {
                        assert(before.ordered_at(j));
                    }
                }
                assert forall|c: int| 1 <= c < n && parent(c) == smallest implies self.heap@[parent(
                    smallest as int,
                )].doc() <= (#[trigger] self.heap@[c]).doc() by {
                    assert(before.ordered_at(c));
                }
                assert forall|e: T| #[trigger] self.heap@.contains(e) <==> old(self).heap@.contains(
                    e,
                ) by {
                    assert(self.heap@.contains(e) <==> before.heap@.contains(e));
                    assert(before.heap@.contains(e) <==> old(self).heap@.contains(e));
                }
                assert forall|bound: int|
                    #[trigger] count_below(self.docs(), bound) == count_below(
                        old(self).docs(),
                        bound,
                    ) by {
                    assert(count_below(self.docs(), bound) == count_below(before.docs(), bound));
                    assert(count_below(before.docs(), bound) == count_below(
                        old(self).docs(),
                        bound,
                    ));
                }
            }
            i = smallest;
        }
    }

    /// A queue of the iterators `children`.
    pub fn new(children: Vec<T>) -> (queue: Self)
        requires
            children@.len() >= 1,
            forall|i: int| 0 <= i < children@.len() ==> (#[trigger] children@[i]).wf(),
        ensures
            queue.wf(),
            queue.heap@.len() == children@.len(),
            forall|e: T| #[trigger] queue.heap@.contains(e) <==> children@.contains(e),
            forall|bound: int|
                #[trigger] count_below(queue.docs(), bound) == count_below(
                    Seq::new(children@.len(), |i: int| children@[i].doc()),
                    bound,
                ),
    {
        let links: Vec<Option<usize>> = vec![None; children.len()];
        let mut queue = DisiPriorityQueue { heap: children, next: links };
        let ghost first = queue;
        let n = queue.heap.len();
        let mut i = n / 2;
        proof {
            assert(queue.docs() =~= Seq::new(children@.len(), |i: int| children@[i].doc()));
        }
        while i > 0
            invariant
                n == queue.heap@.len(),
                n == queue.next@.len(),
                0 <= i <= n / 2,
                queue.children_wf(),
                queue.is_heap_from(i as int),
                queue.same_elements(&first),
            decreases i,
        {
            i -= 1;
            let ghost before = queue;
            queue.down_heap(i);
            proof {
                assert forall|e: T| #[trigger] queue.heap@.contains(e) <==> first.heap@.contains(
                    e,
                ) by {
                    assert(queue.heap@.contains(e) <==> before.heap@.contains(e));
                    assert(before.heap@.contains(e) <==> first.heap@.contains(e));
                }
                assert forall|bound: int|
                    #[trigger] count_below(queue.docs(), bound) == count_below(
                        first.docs(),
                        bound,
                    ) by {
                    assert(count_below(queue.docs(), bound) == count_below(before.docs(), bound));
                    assert(count_below(before.docs(), bound) == count_below(first.docs(), bound));
                }
            }
        }
        queue
    }

    /// Number of iterators in the queue.
    pub fn len(&self) -> (n: usize)
        ensures
            n == self.heap@.len(),
    {
        self.heap.len()
    }

    /// The iterator that stands on the smallest document.
    pub fn peek(&self) -> (top: &T)
        requires
            self.heap@.len() >= 1,
        ensures
            *top == self.heap@[0],
    {
        &self.heap[0]
    }

    /// The iterator that stands on the smallest document, to be moved. The
    /// queue is in order again after `update_top`.
    pub fn peek_mut(&mut self) -> (top: &mut T)
        requires
            old(self).heap@.len() >= 1,
        ensures
            *top == old(self).heap@[0],
            final(self).heap@ == old(self).heap@.update(0, *final(top)),
            final(self).next == old(self).next,
    {
        &mut self.heap[0]
    }

    /// Puts the queue in order again after its top was moved.
    pub fn update_top(&mut self)
        requires
            old(self).wf_below_top(),
        ensures
            final(self).wf(),
            final(self).same_elements(old(self)),
            final(self).next == old(self).next,
    {
        self.down_heap(0);
    }

    /// `list` names, in ascending order of their places, exactly the
    /// iterators that stand on the top's document.
    pub open spec fn is_top_list(&self, list: Seq<usize>) -> bool {
        &&& forall|k: int|
            0 <= k < list.len() ==> (#[trigger] list[k]) < self.heap@.len()
                && self.heap@[list[k] as int].doc() == self.heap@[0].doc()
        &&& forall|a: int, b: int| 0 <= a < b < list.len() ==> #[trigger] list[a] < #[trigger] list[b]
        &&& forall|i: usize|
            i < self.heap@.len() && self.heap@[i as int].doc() == self.heap@[0].doc()
                ==> #[trigger] list.contains(i)
    }

    /// Where `list` names a place, it names the places right below it whose
    /// iterators stand on the document `top`.
    spec fn closed_under(&self, list: Seq<usize>, done: int, top: int) -> bool {
        forall|c: int|
            1 <= c < self.heap@.len() && (#[trigger] self.heap@[c]).doc() == top && list.take(
                done,
            ).contains(parent(c) as usize) ==> list.contains(c as usize)
    }

    proof fn lemma_listed(&self, list: Seq<usize>, i: int)
        requires
            self.wf(),
            list.len() >= 1,
            list[0] == 0,
            self.closed_under(list, list.len() as int, self.heap@[0].doc()),
            0 <= i < self.heap@.len(),
            self.heap@[i].doc() == self.heap@[0].doc(),
        ensures
            list.contains(i as usize),
        decreases i,
    {
        if i > 0 {
            let p = parent(i);
            assert(self.ordered_at(i));
            self.lemma_top_is_least(p);
            self.lemma_listed(list, p);
            assert(list.take(list.len() as int) =~= list);
        }
    }

    /// A list that is closed up to its `k`-th place, and that got the
    /// places right below that place whose iterators stand on `top`, is
    /// closed up to its next place.
    proof fn lemma_closed_step(&self, before: Seq<usize>, list: Seq<usize>, k: int, top: int)
        requires
            self.heap@.len() <= usize::MAX,
            0 <= k < before.len() <= list.len(),
            forall|a: int| 0 <= a < before.len() ==> #[trigger] list[a] == before[a],
            self.closed_under(before, k, top),
            forall|c: int|
                1 <= c < self.heap@.len() && parent(c) == before[k] && (#[trigger] self.heap@[c]).doc()
                    == top ==> list.contains(c as usize),
        ensures
            self.closed_under(list, k + 1, top),
    {
        assert forall|c: int|
            1 <= c < self.heap@.len() && (#[trigger] self.heap@[c]).doc() == top && list.take(
                k + 1,
            ).contains(parent(c) as usize) implies list.contains(c as usize) by {
            let taken = list.take(k + 1);
            let pc = parent(c) as usize;
            let a = choose|a: int| 0 <= a < taken.len() && #[trigger] taken[a] == pc;
            if a < k {
                assert(before.take(k)[a] == pc);
                assert(before.contains(c as usize));
                let b = choose|b: int| 0 <= b < before.len() && before[b] == c as usize;
                assert(list[b] == c as usize);
            } else {
                assert(a == k);
                assert(taken[k] == before[k]);
                assert(0 <= parent(c) < self.heap@.len());
                assert(parent(c) == before[k]);
            }
        }
    }

    /// Whether the links lead through `list` and end there.
    pub open spec fn links_through(next: Seq<Option<usize>>, list: Seq<usize>) -> bool {
        &&& list.len() >= 1
        &&& forall|a: int| 0 <= a < list.len() ==> (#[trigger] list[a]) < next.len()
        &&& forall|a: int| 0 <= a < list.len() - 1 ==> next[#[trigger] list[a] as int] == Some(list[a + 1])
        &&& next[list[list.len() - 1] as int] == None::<usize>
    }

    /// Puts `place` behind `tail` in the list.
    fn link(&mut self, tail: usize, place: usize, Ghost(list): Ghost<Seq<usize>>)
        requires
            old(self).next@.len() == old(self).heap@.len(),
            Self::links_through(old(self).next@, list),
            tail == list[list.len() - 1],
            place < old(self).next@.len(),
            forall|a: int| 0 <= a < list.len() ==> (#[trigger] list[a]) < place,
        ensures
            final(self).heap == old(self).heap,
            final(self).next@.len() == old(self).next@.len(),
            Self::links_through(final(self).next@, list.push(place)),
    {
        self.next[tail] = Some(place);
        self.next[place] = None;
        proof {
            let after = list.push(place);
            assert forall|a: int| 0 <= a < after.len() - 1 implies self.next@[#[trigger] after[a] as int]
                == Some(after[a + 1]) by {
                if a < list.len() - 1 {
                    assert(old(self).next@[list[a] as int] == Some(list[a + 1]));
                    assert(list[a] < place);
                    assert(list[a] < list[list.len() - 1] || list[a] == list[list.len() - 1]
                        || list[a] > list[list.len() - 1]);
                }
            }
        }
    }

    /// The invariant reads the links only for their number.
    proof fn lemma_same_heap(&self, other: &Self)
        requires
            other.wf(),
            self.heap == other.heap,
            self.next@.len() == self.heap@.len(),
        ensures
            self.wf(),
    {
        assert forall|i: int| 0 <= i < self.heap@.len() implies (#[trigger] self.heap@[i]).wf() by {
            assert(other.heap@[i].wf());
        }
        assert forall|i: int|
            1 <= i < self.heap@.len() && parent(i) >= 0 implies #[trigger] self.ordered_at(i) by {
            assert(other.ordered_at(i));
        }
    }

    /// The places that the links lead through from the top on.
    pub open spec fn chain(&self) -> Seq<usize> {
        chain_from(self.next@, 0, self.heap@.len())
    }

    /// Links the places of the iterators that stand on the top's document
    /// into a list that starts at the top, and returns the top's place. The
    /// list is found by walking down from the top through such iterators
    /// only; `next_in_list` leads through it.
    #[verifier::rlimit(50)]
    pub fn top_list(&mut self) -> (root: usize)
        requires
            old(self).wf(),
        ensures
            final(self).wf(),
            final(self).heap == old(self).heap,
            root == 0,
            final(self).is_top_list(final(self).chain()),
    {
        let n = self.heap.len();
        proof {
            assert(self.heap@[0].wf());
        }
        let top = self.heap[0].doc_id();
        self.next[0] = None;
        let mut cur: usize = 0;
        let mut tail: usize = 0;
        let ghost mut list: Seq<usize> = seq![0usize];
        let ghost mut k: int = 0;
        proof {
            assert(list.take(0).len() == 0);
        }
        loop
            invariant
                old(self).wf(),
                self.heap == old(self).heap,
                self.next@.len() == n,
                n == self.heap@.len(),
                top == old(self).heap@[0].doc(),
                0 <= k < list.len(),
                cur == list[k],
                tail == list[list.len() - 1],
                old(self).walked(list, k, top as int),
                Self::links_through(self.next@, list),
            ensures
                old(self).wf(),
                self.heap == old(self).heap,
                self.next@.len() == self.heap@.len(),
                top == old(self).heap@[0].doc(),
                old(self).walked(list, list.len() as int, top as int),
                Self::links_through(self.next@, list),
            decreases n - k,
        {
            let ghost before = list;
            let (new_tail, Ghost(longer)) = self.link_below(cur, tail, top, Ghost(list), Ghost(k));
            tail = new_tail;
            proof {
                list = longer;
            }
            match self.next[cur] {
                Some(following) => {
                    proof {
                        if k == list.len() - 1 {
                            assert(self.next@[list[k] as int] == None::<usize>);
                        }
                        assert(self.next@[list[k] as int] == Some(list[k + 1]));
                        k = k + 1;
                    }
                    cur = following;
                },
                None => {
                    proof {
                        if k < list.len() - 1 {
                            assert(self.next@[list[k] as int] == Some(list[k + 1]));
                        }
                    }
                    break ;
                },
            }
        }
        proof {
            lemma_chain_is_list(self.next@, list, 0, self.heap@.len() as nat);
            assert(list.skip(0) =~= list);
            assert forall|i: usize|
                i < self.heap@.len() && self.heap@[i as int].doc()
                    == self.heap@[0].doc() implies #[trigger] list.contains(i) by {
                old(self).lemma_listed(list, i as int);
            }
            self.lemma_same_heap(old(self));
        }
        0
    }

    /// What holds of the list while the heap is walked: it starts at the
    /// top, ascends, names only iterators that stand on `top`, and holds the
    /// places right below its first `done` places that do; its last place
    /// lies at most right below the last of those.
    spec fn walked(&self, list: Seq<usize>, done: int, top: int) -> bool {
        &&& list.len() >= 1
        &&& list[0] == 0
        &&& 0 <= done <= list.len()
        &&& forall|a: int|
            0 <= a < list.len() ==> a <= (#[trigger] list[a]) < self.heap@.len()
                && self.heap@[list[a] as int].doc() == top
        &&& forall|a: int, b: int| 0 <= a < b < list.len() ==> #[trigger] list[a] < #[trigger] list[b]
        &&& done >= 1 ==> list[list.len() - 1] <= 2 * list[done - 1] + 2
        &&& done == 0 ==> list.len() == 1
        &&& self.closed_under(list, done, top)
    }

    /// Every place of a walked list lies above the places right below its
    /// `k`-th place.
    proof fn lemma_list_below(&self, list: Seq<usize>, k: int, top: int)
        requires
            self.walked(list, k, top),
            k < list.len(),
        ensures
            forall|a: int| 0 <= a < list.len() ==> (#[trigger] list[a]) < 2 * list[k] + 1,
    {
        assert forall|a: int| 0 <= a < list.len() implies (#[trigger] list[a]) < 2 * list[k]
            + 1 by {
            if k >= 1 {
                assert(list[k - 1] < list[k]);
            }
            if a < list.len() - 1 {
                assert(list[a] < list[list.len() - 1]);
            }
        }
    }

    /// A list that was walked up to its `k`-th place, and that got behind
    /// it the places right below that place whose iterators stand on `top`,
    /// in their order, is walked up to the next place.
    proof fn lemma_walk_step(&self, list: Seq<usize>, longer: Seq<usize>, k: int, top: int)
        requires
            self.heap@.len() <= usize::MAX,
            self.walked(list, k, top),
            k < list.len(),
            list.len() <= longer.len() <= list.len() + 2,
            forall|a: int| 0 <= a < list.len() ==> #[trigger] longer[a] == list[a],
            forall|a: int|
                list.len() <= a < longer.len() ==> (#[trigger] longer[a]) < self.heap@.len()
                    && self.heap@[longer[a] as int].doc() == top && (longer[a] == 2 * list[k] + 1
                    || longer[a] == 2 * list[k] + 2),
            longer.len() == list.len() + 2 ==> longer[list.len() as int] == 2 * list[k] + 1
                && longer[list.len() + 1int] == 2 * list[k] + 2,
            2 * list[k] + 1 < self.heap@.len() && self.heap@[2 * list[k] + 1].doc() == top
                ==> longer.len() > list.len() && longer[list.len() as int] == 2 * list[k] + 1,
            2 * list[k] + 2 < self.heap@.len() && self.heap@[2 * list[k] + 2].doc() == top
                ==> longer.len() > list.len() && longer[longer.len() - 1] == 2 * list[k] + 2,
        ensures
            self.walked(longer, k + 1, top),
    {
        let p = list[k] as int;
        self.lemma_list_below(list, k, top);
        assert forall|a: int| 0 <= a < longer.len() implies a <= (#[trigger] longer[a])
            < self.heap@.len() && self.heap@[longer[a] as int].doc() == top by {
            if a < list.len() {
                assert(a <= list[a]);
            } else {
                assert(list.len() - 1 <= list[list.len() - 1]);
                assert(list[list.len() - 1] < 2 * p + 1);
            }
        }
        assert forall|a: int, b: int| 0 <= a < b < longer.len() implies #[trigger] longer[a]
            < #[trigger] longer[b] by {
            if b < list.len() {
                assert(list[a] < list[b]);
            } else if a < list.len() {
                assert(list[a] < 2 * p + 1);
            }
        }
        assert forall|c: int|
            1 <= c < self.heap@.len() && parent(c) == list[k] && (#[trigger] self.heap@[c]).doc()
                == top implies longer.contains(c as usize) by {
            assert(c == 2 * p + 1 || c == 2 * p + 2);
            if c == 2 * p + 1 {
                assert(longer[list.len() as int] == c as usize);
            } else {
                assert(longer[longer.len() - 1] == c as usize);
            }
        }
        self.lemma_closed_step(list, longer, k, top);
    }

    /// Puts the places right below `p` whose iterators stand on `top`
    /// behind `tail` in the list.
    #[verifier::rlimit(50)]
    fn link_below(
        &mut self,
        p: usize,
        tail: usize,
        top: DocId,
        Ghost(list): Ghost<Seq<usize>>,
        Ghost(k): Ghost<int>,
    ) -> (r: (usize, Ghost<Seq<usize>>))
        requires
            old(self).children_wf(),
            old(self).next@.len() == old(self).heap@.len(),
            Self::links_through(old(self).next@, list),
            old(self).walked(list, k, top as int),
            k < list.len(),
            p == list[k],
            tail == list[list.len() - 1],
        ensures
            final(self).heap == old(self).heap,
            final(self).next@.len() == old(self).next@.len(),
            Self::links_through(final(self).next@, r.1@),
            r.0 == r.1@[r.1@.len() - 1],
            list.len() <= r.1@.len(),
            forall|a: int| 0 <= a < list.len() ==> #[trigger] r.1@[a] == list[a],
            old(self).walked(r.1@, k + 1, top as int),
    {
        let n = self.heap.len();
        let mut tail = tail;
        let ghost mut longer = list;
        proof {
            old(self).lemma_list_below(list, k, top as int);
        }
        if p <= (n - 1) / 2 && 2 * p + 1 < n {
            let left = 2 * p + 1;
            proof {
                assert(old(self).heap@[left as int].wf());
            }
            if self.heap[left].doc_id() == top {
                self.link(tail, left, Ghost(longer));
                tail = left;
                proof {
                    longer = longer.push(left);
                }
            }
            if left + 1 < n {
                proof {
                    assert(old(self).heap@[left + 1].wf());
                }
                if self.heap[left + 1].doc_id() == top {
                    self.link(tail, left + 1, Ghost(longer));
                    tail = left + 1;
                    proof {
                        longer = longer.push((left + 1) as usize);
                    }
                }
            }
        }
        proof {
            old(self).lemma_walk_step(list, longer, k, top as int);
        }
        (tail, Ghost(longer))
    }

    /// The place that follows `place` in the list that `top_list` made
    /// last; `None` at its end.
    pub fn next_in_list(&self, place: usize) -> (following: Option<usize>)
        requires
            place < self.next@.len(),
        ensures
            following == self.next@[place as int],
    {
        self.next[place]
    }
}

} // verus!
