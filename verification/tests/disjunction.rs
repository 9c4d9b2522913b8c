use rucene::error::Error;
use rucene::search::disjunction_scorer::{failure_of, DisjunctionSumScorer};
use rucene::search::doc_iterator::{DocIdList, DocIterator, NO_MORE_DOCS};
use rucene::util::disi_priority_queue::{swap_entries, DisiPriorityQueue};

fn list(docs: &[i32]) -> DocIdList {
    DocIdList::new(docs.to_vec()).unwrap()
}

fn abc() -> DisjunctionSumScorer<DocIdList> {
    DisjunctionSumScorer::new(vec![list(&[0, 3, 7]), list(&[3, 5, 7]), list(&[7, 8])], true)
}

/// The places of the list that `top_list` makes, in the order of the list.
fn tied_places(queue: &mut DisiPriorityQueue<DocIdList>) -> Vec<usize> {
    let mut places = Vec::new();
    let mut place = Some(queue.top_list());
    while let Some(at) = place {
        places.push(at);
        place = queue.next_in_list(at);
    }
    places
}

fn tied_docs(scorer: &mut DisjunctionSumScorer<DocIdList>) -> Vec<Vec<i32>> {
    let queue = scorer.sub_scorers_mut();
    let mut tied: Vec<Vec<i32>> =
        tied_places(queue).iter().map(|place| queue.heap[*place].docs.clone()).collect();
    tied.sort();
    tied
}

#[test]
fn disjunction_emits_the_union_in_order() {
    let mut scorer = abc();
    assert_eq!(scorer.doc_id(), -1);
    let mut emitted = Vec::new();
    loop {
        let doc = scorer.next().unwrap();
        if doc == NO_MORE_DOCS {
            break;
        }
        emitted.push(doc);
    }
    assert_eq!(emitted, vec![0, 3, 5, 7, 8]);
    assert_eq!(scorer.doc_id(), NO_MORE_DOCS);
}

#[test]
fn top_list_names_the_children_on_the_current_doc() {
    let mut scorer = abc();
    assert_eq!(scorer.next(), Ok(0));
    assert_eq!(tied_docs(&mut scorer), vec![vec![0, 3, 7]]);
    assert_eq!(scorer.next(), Ok(3));
    assert_eq!(tied_docs(&mut scorer), vec![vec![0, 3, 7], vec![3, 5, 7]]);
    assert_eq!(scorer.next(), Ok(5));
    assert_eq!(tied_docs(&mut scorer), vec![vec![3, 5, 7]]);
    assert_eq!(scorer.next(), Ok(7));
    assert_eq!(tied_docs(&mut scorer), vec![vec![0, 3, 7], vec![3, 5, 7], vec![7, 8]]);
    assert_eq!(scorer.next(), Ok(8));
    assert_eq!(tied_docs(&mut scorer), vec![vec![7, 8]]);
}

#[test]
fn advance_lands_on_the_first_doc_from_the_target() {
    let mut scorer = abc();
    assert_eq!(scorer.advance(4), Ok(5));
    assert_eq!(scorer.doc_id(), 5);
    assert_eq!(scorer.advance(6), Ok(7));
    assert_eq!(tied_docs(&mut scorer).len(), 3);
    assert_eq!(scorer.advance(9), Ok(NO_MORE_DOCS));
    let mut scorer = abc();
    assert_eq!(scorer.advance(3), Ok(3));
    assert_eq!(scorer.approximate_next(), Ok(5));
    assert_eq!(scorer.approximate_advance(8), Ok(8));
    assert_eq!(scorer.matches(), Ok(true));
}

#[test]
fn cost_is_the_sum_of_the_children() {
    let scorer = abc();
    assert_eq!(scorer.get_cost(), 8);
    assert_eq!(scorer.cost(), 8);
    assert_eq!(scorer.sub_scorers().len(), 3);
    assert!(scorer.needs_scores);
}

#[test]
fn sub_scorers_mut_gives_the_queue() {
    let mut scorer = abc();
    scorer.next().unwrap();
    let queue = scorer.sub_scorers_mut();
    assert_eq!(queue.peek().doc_id(), 0);
    queue.peek_mut().next().unwrap();
    queue.update_top();
    assert_eq!(queue.peek().doc_id(), 3);
    assert_eq!(scorer.doc_id(), 3);
}

#[test]
fn queue_keeps_the_smallest_doc_on_top() {
    let mut children = Vec::new();
    for start in [40, 10, 30, 5, 20, 25, 15] {
        let mut child = list(&[start, start + 100]);
        child.next().unwrap();
        children.push(child);
    }
    let mut queue = DisiPriorityQueue::new(children);
    let mut order = Vec::new();
    while queue.peek().doc_id() < 100 {
        order.push(queue.peek().doc_id());
        queue.peek_mut().next().unwrap();
        queue.update_top();
    }
    assert_eq!(order, vec![5, 10, 15, 20, 25, 30, 40]);
    assert_eq!(queue.peek().doc_id(), 105);
    assert_eq!(queue.top_list(), 0);
    assert_eq!(queue.next_in_list(0), None);
    // all seven stand on 100 + something; move them onto one document
    let mut same = Vec::new();
    for _ in 0..7 {
        same.push(list(&[9]));
    }
    let mut queue = DisiPriorityQueue::new(same);
    assert_eq!(tied_places(&mut queue), vec![0, 1, 2, 3, 4, 5, 6]);
    queue.peek_mut().next().unwrap();
    queue.update_top();
    assert_eq!(tied_places(&mut queue).len(), 6);
}

#[test]
fn many_children_with_shared_docs() {
    let mut children = Vec::new();
    let mut union = std::collections::BTreeSet::new();
    for c in 0..17i32 {
        let docs: Vec<i32> = (0..60).map(|i| i * (c + 2) + (c % 3)).collect();
        for d in docs.iter() {
            union.insert(*d);
        }
        children.push(list(&docs));
    }
    let mut scorer = DisjunctionSumScorer::new(children, false);
    let mut emitted = Vec::new();
    loop {
        let doc = scorer.next().unwrap();
        if doc == NO_MORE_DOCS {
            break;
        }
        let queue = scorer.sub_scorers_mut();
        let tied = tied_places(queue);
        let holders = queue.heap.iter().filter(|child| child.doc_id() == doc).count();
        assert_eq!(tied.len(), holders);
        for pair in tied.windows(2) {
            assert!(pair[0] < pair[1]);
        }
        for place in tied {
            assert_eq!(queue.heap[place].doc_id(), doc);
        }
        emitted.push(doc);
    }
    assert_eq!(emitted, union.into_iter().collect::<Vec<i32>>());
}

#[test]
fn doc_id_list_wants_ascending_ids() {
    assert!(DocIdList::new(vec![1, 1]).is_none());
    assert!(DocIdList::new(vec![2, 1]).is_none());
    assert!(DocIdList::new(vec![-1, 1]).is_none());
    assert!(DocIdList::new(vec![1, NO_MORE_DOCS]).is_none());
    let mut it = DocIdList::new(vec![1, 4, 9]).unwrap();
    assert_eq!(it.doc_id(), -1);
    assert_eq!(it.advance(4), Ok(4));
    assert_eq!(it.next(), Ok(9));
    assert_eq!(it.next(), Ok(NO_MORE_DOCS));
    assert_eq!(it.cost(), 3);
    let mut empty = DocIdList::new(Vec::new()).unwrap();
    assert_eq!(empty.next(), Ok(NO_MORE_DOCS));
}

#[test]
fn swap_entries_exchanges_two_places() {
    let mut v = vec![10, 20, 30, 40];
    swap_entries(&mut v, 1, 3);
    assert_eq!(v, vec![10, 40, 30, 20]);
    swap_entries(&mut v, 0, 1);
    assert_eq!(v, vec![40, 10, 30, 20]);
}

/// A list of documents that cannot be read from `torn` on, if that is set.
struct TornList {
    list: DocIdList,
    torn: Option<i32>,
}

impl TornList {
    fn new(docs: &[i32], torn: Option<i32>) -> Self {
        TornList { list: list(docs), torn }
    }

    fn is_torn_ahead(&self) -> bool {
        let ahead = self.list.docs.get(self.list.upto).copied().unwrap_or(NO_MORE_DOCS);
        self.torn.map_or(false, |torn| ahead >= torn)
    }
}

impl DocIterator for TornList {
    fn doc_id(&self) -> i32 {
        self.list.doc_id()
    }

    fn next(&mut self) -> Result<i32, Error> {
        if self.is_torn_ahead() {
            return Err(Error::Io);
        }
        self.list.next()
    }

    fn advance(&mut self, target: i32) -> Result<i32, Error> {
        while self.list.doc_id() < target {
            if self.is_torn_ahead() {
                return Err(Error::Io);
            }
            self.list.next()?;
        }
        Ok(self.list.doc_id())
    }

    fn cost(&self) -> usize {
        self.list.cost()
    }
}

#[test]
fn a_child_that_fails_stops_the_move() {
    let mut scorer = DisjunctionSumScorer::new(
        vec![TornList::new(&[1, 4, 9], None), TornList::new(&[2, 4, 6], Some(6))],
        false,
    );
    assert_eq!(scorer.next(), Ok(1));
    assert_eq!(scorer.next(), Ok(2));
    assert_eq!(scorer.next(), Ok(4));
    // both children stand on 4; the second cannot leave it
    assert_eq!(scorer.next(), Err(Error::Io));
    assert_eq!(scorer.doc_id(), 4);
    assert_eq!(scorer.next(), Err(Error::Io));
    assert_eq!(scorer.doc_id(), 4);

    let mut scorer = DisjunctionSumScorer::new(
        vec![TornList::new(&[1, 4, 9], None), TornList::new(&[2, 4, 6], Some(6))],
        false,
    );
    assert_eq!(scorer.advance(3), Ok(4));
    assert_eq!(scorer.approximate_advance(8), Err(Error::Io));
    assert!(scorer.doc_id() >= 4 && scorer.doc_id() < 8);
}

#[test]
fn children_that_never_fail_give_every_document() {
    let mut scorer = DisjunctionSumScorer::new(
        vec![TornList::new(&[1, 4, 9], None), TornList::new(&[2, 4, 6], None)],
        false,
    );
    let mut emitted = Vec::new();
    while scorer.doc_id() < NO_MORE_DOCS {
        match scorer.approximate_next() {
            Ok(doc) if doc < NO_MORE_DOCS => emitted.push(doc),
            Ok(_) => {},
            Err(e) => panic!("{:?}", e),
        }
    }
    assert_eq!(emitted, vec![1, 2, 4, 6, 9]);
}

#[test]
fn a_move_fails_with_the_error_of_the_child() {
    assert_eq!(failure_of(Ok(7)), None);
    assert_eq!(failure_of(Ok(NO_MORE_DOCS)), None);
    assert_eq!(failure_of(Err(Error::Io)), Some(Error::Io));
    assert_eq!(failure_of(Err(Error::IllegalArgument)), Some(Error::IllegalArgument));

    let mut scorer = DisjunctionSumScorer::new(
        vec![TornList::new(&[1, 4, 9], None), TornList::new(&[2, 4, 6], Some(6))],
        false,
    );
    assert_eq!(scorer.advance(4), Ok(4));
    assert_eq!(scorer.next(), Err(Error::Io));
    assert_eq!(scorer.sub_scorers().len(), 2);
    assert_eq!(scorer.approximate_advance(20), Err(Error::Io));
    assert_eq!(scorer.sub_scorers().len(), 2);
}
