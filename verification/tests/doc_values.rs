use rucene::error::Error;
use rucene::index::doc_values::{
    has_next_ord, has_ord, has_values, ord_cursor, BinaryDocValues, DocValues,
    EmptyBinaryDocValues, EmptySortedDocValues, ImmutableBits, MatchNoBits, NumericDocValues,
    SingletonContext, SortedDocValues, SortedDocValuesTermIterator, SortedNumericDocValues,
    SortedSetDocValues, NO_MORE_ORDS,
};

/// A sorted column over a small dictionary; document `d` has the ordinal
/// `ords[d]`.
struct Colors {
    ords: Vec<i32>,
    names: Vec<&'static str>,
}

impl SortedDocValues for Colors {
    fn get_ord(&self, doc_id: i32) -> Result<i32, Error> {
        match self.ords.get(doc_id as usize) {
            Some(ord) => Ok(*ord),
            None => Err(Error::Io),
        }
    }

    fn lookup_ord(&self, ord: i32) -> Result<Vec<u8>, Error> {
        match self.names.get(ord as usize) {
            Some(name) => Ok(name.as_bytes().to_vec()),
            None => Err(Error::IllegalArgument),
        }
    }

    fn get_value_count(&self) -> usize {
        self.names.len()
    }
}

struct Squares;

impl NumericDocValues for Squares {
    fn get(&self, doc_id: i32) -> Result<i64, Error> {
        Ok(doc_id as i64 * doc_id as i64)
    }
}

struct EvenDocs {
    len: usize,
}

impl ImmutableBits for EvenDocs {
    fn get(&self, index: usize) -> Result<bool, Error> {
        Ok(index % 2 == 0)
    }

    fn len(&self) -> usize {
        self.len
    }
}

fn colors() -> Colors {
    Colors { ords: vec![1, -1, 0, 2, -1], names: vec!["blue", "green", "red"] }
}

#[test]
fn empty_columns_answer_every_document() {
    for doc in [0, 1, 1000, i32::MAX] {
        assert_eq!(DocValues::empty_binary().get(doc), Ok(Vec::new()));
        assert_eq!(DocValues::empty_numeric().get(doc), Ok(0));
        let sorted = DocValues::empty_sorted();
        assert_eq!(sorted.get_ord(doc), Ok(-1));
        assert_eq!(BinaryDocValues::get(&sorted, doc), Ok(Vec::new()));
        assert_eq!(sorted.lookup_ord(doc), Ok(Vec::new()));
        assert_eq!(sorted.get_value_count(), 0);
    }
    let sorted = DocValues::empty_sorted();
    let mut terms = sorted.term_iterator().unwrap();
    assert_eq!(terms.next(), Ok(None));
}

#[test]
fn empty_sorted_set_has_no_ords() {
    let set = DocValues::empty_sorted_set();
    for doc in [0, 7, i32::MAX] {
        let mut ctx = set.set_document(doc).unwrap();
        assert_eq!(set.next_ord(&mut ctx), Ok(NO_MORE_ORDS));
        assert_eq!(set.next_ord(&mut ctx), Ok(NO_MORE_ORDS));
    }
    assert_eq!(NO_MORE_ORDS, -1);
}

#[test]
fn empty_sorted_numeric_has_no_values() {
    let list = DocValues::empty_sorted_numeric(10);
    for doc in [0, 9, 10, 12345] {
        let ctx = list.set_document(doc).unwrap();
        assert_eq!(list.count(&ctx), 0);
    }
    assert_eq!(list.docs_with_field.len(), 10);
    assert_eq!(MatchNoBits::new(3).get(2), Ok(false));
}

#[test]
fn singleton_sorted_gives_one_ord_or_none() {
    let set = DocValues::singleton_sorted_doc_values(colors());
    let mut ctx = set.set_document(0).unwrap();
    assert_eq!(set.next_ord(&mut ctx), Ok(1));
    assert_eq!(set.next_ord(&mut ctx), Ok(NO_MORE_ORDS));
    let mut ctx = set.set_document(1).unwrap();
    assert_eq!(set.next_ord(&mut ctx), Ok(NO_MORE_ORDS));
    assert_eq!(set.set_document(99), Err(Error::Io));
    assert_eq!(set.get_sorted_doc_values().get_value_count(), 3);
}

#[test]
fn singleton_numeric_gives_one_value_or_none() {
    let list = DocValues::singleton_sorted_numeric_doc_values(Squares, EvenDocs { len: 6 });
    let ctx = list.set_document(4).unwrap();
    assert_eq!(list.count(&ctx), 1);
    assert_eq!(list.value_at(&ctx, 0), Ok(16));
    let ctx = list.set_document(3).unwrap();
    assert_eq!(list.count(&ctx), 0);
    // beyond the documents that the bits speak of
    let ctx = list.set_document(6).unwrap();
    assert_eq!(list.count(&ctx), 0);
    let inner = DocValues::unwrap_singleton(&list).unwrap().unwrap();
    assert_eq!(inner.get(5), Ok(25));
}

#[test]
fn docs_with_value_follow_the_column() {
    let bits = DocValues::docs_with_value_sorted(colors(), 5);
    assert_eq!(bits.len(), 5);
    let got: Vec<bool> = (0..5).map(|d| bits.get(d).unwrap()).collect();
    assert_eq!(got, vec![true, false, true, true, false]);

    let set = DocValues::singleton_sorted_doc_values(colors());
    let bits = DocValues::docs_with_value_sorted_set(set, 5);
    let got: Vec<bool> = (0..5).map(|d| bits.get(d).unwrap()).collect();
    assert_eq!(got, vec![true, false, true, true, false]);

    let list = DocValues::singleton_sorted_numeric_doc_values(Squares, EvenDocs { len: 4 });
    let bits = DocValues::docs_with_value_sorted_numeric(list, 4);
    assert_eq!(bits.len(), 4);
    let got: Vec<bool> = (0..4).map(|d| bits.get(d).unwrap()).collect();
    assert_eq!(got, vec![true, false, true, false]);

    let none = DocValues::docs_with_value_sorted(DocValues::empty_sorted(), -3);
    assert_eq!(none.len(), 0);
}

#[test]
fn term_iterator_walks_the_dictionary() {
    let dv = colors();
    let mut terms = SortedDocValuesTermIterator::new(&dv);
    assert_eq!(terms.next(), Ok(Some(b"blue".to_vec())));
    assert_eq!(terms.next(), Ok(Some(b"green".to_vec())));
    assert_eq!(terms.next(), Ok(Some(b"red".to_vec())));
    assert_eq!(terms.next(), Ok(None));
    assert_eq!(terms.next(), Ok(None));
}

/// A sorted column whose dictionary cannot be read from `torn_at` on.
struct Torn {
    count: usize,
    torn_at: i32,
}

impl SortedDocValues for Torn {
    fn get_ord(&self, _doc_id: i32) -> Result<i32, Error> {
        Err(Error::Io)
    }

    fn lookup_ord(&self, ord: i32) -> Result<Vec<u8>, Error> {
        if ord < self.torn_at {
            Ok(vec![b'a' + ord as u8])
        } else {
            Err(Error::Io)
        }
    }

    fn get_value_count(&self) -> usize {
        self.count
    }
}

struct NoBits;

impl ImmutableBits for NoBits {
    fn get(&self, _index: usize) -> Result<bool, Error> {
        Err(Error::IllegalArgument)
    }

    fn len(&self) -> usize {
        4
    }
}

#[test]
fn answers_follow_what_the_column_gave() {
    assert_eq!(has_ord(Ok(-1)), Ok(false));
    assert_eq!(has_ord(Ok(0)), Ok(true));
    assert_eq!(has_ord(Ok(17)), Ok(true));
    assert_eq!(has_ord(Err(Error::Io)), Err(Error::Io));

    assert_eq!(has_next_ord(Ok(NO_MORE_ORDS)), Ok(false));
    assert_eq!(has_next_ord(Ok(0)), Ok(true));
    assert_eq!(has_next_ord(Err(Error::IllegalArgument)), Err(Error::IllegalArgument));

    assert_eq!(ord_cursor(Ok(3)), Ok(3i64));
    assert_eq!(ord_cursor(Ok(-1)), Ok(-1i64));
    assert_eq!(ord_cursor(Err(Error::Io)), Err(Error::Io));

    let ctx = SingletonContext::of(9, Ok(true)).ok().unwrap();
    assert_eq!((ctx.value, ctx.present), (9, true));
    let ctx = SingletonContext::of(-4, Ok(false)).ok().unwrap();
    assert_eq!((ctx.value, ctx.present), (-4, false));
    assert_eq!(SingletonContext::of(9, Err(Error::Io)).err(), Some(Error::Io));

    let list = DocValues::singleton_sorted_numeric_doc_values(Squares, EvenDocs { len: 6 });
    assert_eq!(has_values(&list, list.set_document(2)), Ok(true));
    assert_eq!(has_values(&list, list.set_document(3)), Ok(false));
    assert_eq!(has_values(&list, Err(Error::Io)), Err(Error::Io));
}

#[test]
fn views_hand_on_the_error_of_the_column() {
    let bits = DocValues::docs_with_value_sorted(colors(), 8);
    assert_eq!(bits.get(4), Ok(false));
    assert_eq!(bits.get(6), Err(Error::Io));

    let set = DocValues::singleton_sorted_doc_values(colors());
    let bits = DocValues::docs_with_value_sorted_set(set, 8);
    assert_eq!(bits.get(3), Ok(true));
    assert_eq!(bits.get(7), Err(Error::Io));

    let list = DocValues::singleton_sorted_numeric_doc_values(Squares, NoBits);
    assert_eq!(list.set_document(2).err(), Some(Error::IllegalArgument));
    // beyond the bits, the bits are not asked
    let ctx = list.set_document(4).ok().unwrap();
    assert_eq!((ctx.value, ctx.present), (16, false));
    let ctx = list.set_document(-1).ok().unwrap();
    assert_eq!((ctx.value, ctx.present), (1, false));
    let bits = DocValues::docs_with_value_sorted_numeric(list, 4);
    assert_eq!(bits.get(1), Err(Error::IllegalArgument));
}

#[test]
fn term_iterator_stays_where_the_dictionary_is_torn() {
    let dv = Torn { count: 3, torn_at: 1 };
    let mut terms = SortedDocValuesTermIterator::new(&dv);
    assert_eq!(terms.next(), Ok(Some(vec![b'a'])));
    assert_eq!(terms.current_ord, 1);
    assert_eq!(terms.next(), Err(Error::Io));
    assert_eq!(terms.current_ord, 1);
    assert_eq!(terms.next(), Err(Error::Io));
    assert_eq!(terms.current_ord, 1);

    // behind the last value the column is not asked
    let dv = Torn { count: 0, torn_at: 0 };
    let mut terms = SortedDocValuesTermIterator::new(&dv);
    assert_eq!(terms.next(), Ok(None));
    assert_eq!(terms.current_ord, 0);
}

#[test]
fn term_iterator_steps_on_a_value_and_stays_on_an_error() {
    let dv = colors();
    let mut terms = SortedDocValuesTermIterator::new(&dv);
    assert_eq!(terms.step(Ok(b"x".to_vec())), Ok(Some(b"x".to_vec())));
    assert_eq!(terms.current_ord, 1);
    assert_eq!(terms.step(Err(Error::Io)), Err(Error::Io));
    assert_eq!(terms.current_ord, 1);
    assert_eq!(terms.next(), Ok(Some(b"green".to_vec())));
}

#[test]
fn empty_columns_answer_below_zero_too() {
    for doc in [i32::MIN, -1] {
        assert_eq!(DocValues::empty_binary().get(doc), Ok(Vec::new()));
        assert_eq!(EmptyBinaryDocValues::new().get(doc), Ok(Vec::new()));
        assert_eq!(DocValues::empty_numeric().get(doc), Ok(0));
        let sorted = EmptySortedDocValues::new();
        assert_eq!(sorted.get_ord(doc), Ok(-1));
        assert_eq!(BinaryDocValues::get(&sorted, doc), Ok(Vec::new()));
        assert_eq!(sorted.lookup_ord(doc), Ok(Vec::new()));
        let set = DocValues::empty_sorted_set();
        let mut ctx = set.set_document(doc).unwrap();
        assert_eq!(set.next_ord(&mut ctx), Ok(NO_MORE_ORDS));
        let list = DocValues::empty_sorted_numeric(3);
        let ctx = list.set_document(doc).ok().unwrap();
        assert_eq!(list.count(&ctx), 0);
    }
}
