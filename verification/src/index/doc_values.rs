//! Per-document columns of stored values, under a few common shapes, and
//! views of them as sets of documents.
//!
//! A column is a function of the document. Each trait names that function,
//! and says of each accessor what it returns when the column could be read.
//! A column that says of itself that it never fails owes an answer to every
//! query, and so does every view of it.

use vstd::prelude::*;
use crate::error::Error;
use crate::index::field::DocId;

verus! {

/// What `next_ord` returns when a document has no more ordinals.
pub const NO_MORE_ORDS: i64 = -1;

/// A column with one number per document.
pub trait NumericDocValues: Sized {
    /// The number of a document.
    closed spec fn value_of(&self, doc: int) -> i64 {
        arbitrary()
    }

    /// Whether the column can always be read. A column that is held in
    /// memory can say so; unless a column does, it may fail.
    open spec fn never_fails(&self) -> bool {
        false
    }

    fn get(&self, doc_id: DocId) -> (r: Result<i64, Error>)
        ensures
            r matches Ok(v) ==> v == self.value_of(doc_id as int),
            self.never_fails() ==> r is Ok,
    ;
}

/// A column with one byte string per document.
pub trait BinaryDocValues: Sized {
    /// The bytes of a document.
    closed spec fn bytes_of(&self, doc: int) -> Seq<u8> {
        arbitrary()
    }

    /// Whether the column can always be read. A column that is held in
    /// memory can say so; unless a column does, it may fail.
    open spec fn never_fails(&self) -> bool {
        false
    }

    fn get(&self, doc_id: DocId) -> (r: Result<Vec<u8>, Error>)
        ensures
            r matches Ok(v) ==> v@ == self.bytes_of(doc_id as int),
            self.never_fails() ==> r is Ok,
    ;
}

/// A column with at most one byte string per document, out of a dictionary
/// of distinct values. A document has the ordinal of its value in the
/// dictionary, or -1 when it has no value.
pub trait SortedDocValues: Sized {
    /// The ordinal of a document; -1 when it has no value.
    closed spec fn ord_of(&self, doc: int) -> int {
        arbitrary()
    }

    /// The value with an ordinal.
    closed spec fn term_of(&self, ord: int) -> Seq<u8> {
        arbitrary()
    }

    /// Number of values in the dictionary.
    closed spec fn count_spec(&self) -> nat {
        arbitrary()
    }

    /// Whether the column can always be read. A column that is held in
    /// memory can say so; unless a column does, it may fail.
    open spec fn never_fails(&self) -> bool {
        false
    }

    fn get_ord(&self, doc_id: DocId) -> (r: Result<i32, Error>)
        ensures
            r matches Ok(ord) ==> ord == self.ord_of(doc_id as int) && -1 <= ord
                < self.count_spec(),
            self.never_fails() ==> r is Ok,
    ;

    fn lookup_ord(&self, ord: i32) -> (r: Result<Vec<u8>, Error>)
        ensures
            r matches Ok(v) ==> v@ == self.term_of(ord as int),
            self.never_fails() ==> r is Ok,
    ;

    fn get_value_count(&self) -> (n: usize)
        ensures
            n == self.count_spec(),
    ;
}

/// A column with a set of ordinals per document, read in ascending order
/// through a cursor.
pub trait SortedSetDocValues: Sized {
    /// The cursor over the ordinals of one document.
    type Context;

    /// The ordinals of a document, ascending.
    closed spec fn ords_of(&self, doc: int) -> Seq<i64> {
        arbitrary()
    }

    /// The ordinals that a cursor has yet to return.
    closed spec fn remaining(&self, ctx: &Self::Context) -> Seq<i64> {
        arbitrary()
    }

    /// Whether the column can always be read. A column that is held in
    /// memory can say so; unless a column does, it may fail.
    open spec fn never_fails(&self) -> bool {
        false
    }

    fn set_document(&self, doc_id: DocId) -> (r: Result<Self::Context, Error>)
        ensures
            r matches Ok(ctx) ==> self.remaining(&ctx) == self.ords_of(doc_id as int),
            self.never_fails() ==> r is Ok,
    ;

    /// The next ordinal of the cursor's document, or `NO_MORE_ORDS`.
    fn next_ord(&self, ctx: &mut Self::Context) -> (r: Result<i64, Error>)
        ensures
            match r {
                Ok(ord) => if self.remaining(old(ctx)).len() == 0 {
                    ord == NO_MORE_ORDS && self.remaining(final(ctx)).len() == 0
                } else {
                    &&& ord == self.remaining(old(ctx))[0]
                    &&& ord >= 0
                    &&& self.remaining(final(ctx)) == self.remaining(old(ctx)).skip(1)
                },
                Err(_) => self.remaining(final(ctx)) == self.remaining(old(ctx)),
            },
            self.never_fails() ==> r is Ok,
    ;
}

/// A column with a list of numbers per document, read through a cursor.
pub trait SortedNumericDocValues: Sized {
    /// The cursor over the numbers of one document.
    type Context;

    /// The numbers of a document.
    closed spec fn values_of(&self, doc: int) -> Seq<i64> {
        arbitrary()
    }

    /// The numbers that a cursor stands for.
    closed spec fn values_at(&self, ctx: &Self::Context) -> Seq<i64> {
        arbitrary()
    }

    /// Whether the column can always be read. A column that is held in
    /// memory can say so; unless a column does, it may fail.
    open spec fn never_fails(&self) -> bool {
        false
    }

    fn set_document(&self, doc_id: DocId) -> (r: Result<Self::Context, Error>)
        ensures
            r matches Ok(ctx) ==> self.values_at(&ctx) == self.values_of(doc_id as int),
            self.never_fails() ==> r is Ok,
    ;

    fn count(&self, ctx: &Self::Context) -> (n: usize)
        ensures
            n == self.values_at(ctx).len(),
    ;

    fn value_at(&self, ctx: &Self::Context, index: usize) -> (r: Result<i64, Error>)
        requires
            index < self.values_at(ctx).len(),
        ensures
            r matches Ok(v) ==> v == self.values_at(ctx)[index as int],
            self.never_fails() ==> r is Ok,
    ;
}

/// A set of documents, as one bit per document.
pub trait ImmutableBits: Sized {
    /// Whether a document is in the set.
    closed spec fn bit(&self, index: int) -> bool {
        arbitrary()
    }

    /// Number of documents that the set speaks of.
    closed spec fn len_spec(&self) -> nat {
        arbitrary()
    }

    /// Whether the set can always be read. Unless a set says so, it may
    /// fail.
    open spec fn never_fails(&self) -> bool {
        false
    }

    fn get(&self, index: usize) -> (r: Result<bool, Error>)
        requires
            index < self.len_spec(),
        ensures
            r matches Ok(b) ==> b == self.bit(index as int),
            self.never_fails() ==> r is Ok,
    ;

    fn len(&self) -> (n: usize)
        ensures
            n == self.len_spec(),
    ;
}

/// The set of no documents.
pub struct MatchNoBits {
    pub len: usize,
}

impl MatchNoBits {
    /// The empty set of documents, out of `len` documents.
    pub fn new(len: usize) -> (bits: Self)
        ensures
            bits.len == len,
    {
        MatchNoBits { len }
    }
}

impl ImmutableBits for MatchNoBits {
    open spec fn bit(&self, index: int) -> bool {
        false
    }

    open spec fn never_fails(&self) -> bool {
        true
    }

    open spec fn len_spec(&self) -> nat {
        self.len as nat
    }

    fn get(&self, index: usize) -> (r: Result<bool, Error>)
        ensures
            r == Ok::<bool, Error>(false),
    {
        Ok(false)
    }

    fn len(&self) -> (n: usize) {
        self.len
    }
}

/// The binary column in which every document has the empty byte string.
pub struct EmptyBinaryDocValues;

impl EmptyBinaryDocValues {
    /// The column.
    pub fn new() -> (dv: Self)
        ensures
            dv.never_fails(),
            forall|doc: int| #[trigger] dv.bytes_of(doc) == Seq::<u8>::empty(),
    {
        EmptyBinaryDocValues {  }
    }
}

impl BinaryDocValues for EmptyBinaryDocValues {
    open spec fn bytes_of(&self, doc: int) -> Seq<u8> {
        Seq::empty()
    }

    open spec fn never_fails(&self) -> bool {
        true
    }

    fn get(&self, doc_id: DocId) -> (r: Result<Vec<u8>, Error>)
        ensures
            r matches Ok(v) && v@ == Seq::<u8>::empty(),
    {
        Ok(Vec::with_capacity(0))
    }
}

/// The sorted column with an empty dictionary: no document has a value.
#[derive(Clone, Copy)]
pub struct EmptySortedDocValues;

impl EmptySortedDocValues {
    /// The column.
    pub fn new() -> (dv: Self)
        ensures
            SortedDocValues::never_fails(&dv),
            BinaryDocValues::never_fails(&dv),
            dv.count_spec() == 0,
            forall|doc: int| #[trigger] dv.ord_of(doc) == -1,
            forall|doc: int| #[trigger] dv.bytes_of(doc) == Seq::<u8>::empty(),
    {
        EmptySortedDocValues {  }
    }

    /// An iterator over the values of the dictionary: there are none.
    pub fn term_iterator<'a>(&'a self) -> (r: Result<
        SortedDocValuesTermIterator<'a, EmptySortedDocValues>,
        Error,
    >)
        ensures
            r matches Ok(it) ==> it.dv == self && it.current_ord == 0,
            r is Ok,
    {
        Ok(SortedDocValuesTermIterator::new(self))
    }
}

impl SortedDocValues for EmptySortedDocValues {
    open spec fn ord_of(&self, doc: int) -> int {
        -1
    }

    open spec fn never_fails(&self) -> bool {
        true
    }

    open spec fn term_of(&self, ord: int) -> Seq<u8> {
        Seq::empty()
    }

    open spec fn count_spec(&self) -> nat {
        0
    }

    fn get_ord(&self, doc_id: DocId) -> (r: Result<i32, Error>)
        ensures
            r == Ok::<i32, Error>(-1i32),
    {
        Ok(-1)
    }

    fn lookup_ord(&self, ord: i32) -> (r: Result<Vec<u8>, Error>)
        ensures
            r matches Ok(v) && v@ == Seq::<u8>::empty(),
    {
        Ok(Vec::with_capacity(0))
    }

    fn get_value_count(&self) -> (n: usize) {
        0
    }
}

impl BinaryDocValues for EmptySortedDocValues {
    open spec fn bytes_of(&self, doc: int) -> Seq<u8> {
        Seq::empty()
    }

    open spec fn never_fails(&self) -> bool {
        true
    }

    fn get(&self, doc_id: DocId) -> (r: Result<Vec<u8>, Error>)
        ensures
            r matches Ok(v) && v@ == Seq::<u8>::empty(),
    {
        Ok(Vec::with_capacity(0))
    }
}

/// The numeric column in which every document has the number zero.
pub struct EmptyNumericDocValues;

impl NumericDocValues for EmptyNumericDocValues {
    open spec fn value_of(&self, doc: int) -> i64 {
        0
    }

    open spec fn never_fails(&self) -> bool {
        true
    }

    fn get(&self, doc_id: DocId) -> (r: Result<i64, Error>)
        ensures
            r == Ok::<i64, Error>(0i64),
    {
        Ok(0)
    }
}

/// Walks the dictionary of a sorted column in the order of the ordinals.
pub struct SortedDocValuesTermIterator<'a, D: SortedDocValues> {
    pub dv: &'a D,
    /// The ordinal of the value that `next` returns.
    pub current_ord: usize,
}

impl<'a, D: SortedDocValues> SortedDocValuesTermIterator<'a, D> {
    /// An iterator that stands before the first value of `dv`.
    pub fn new(dv: &'a D) -> (it: Self)
        ensures
            it.dv == dv,
            it.current_ord == 0,
    {
        SortedDocValuesTermIterator { dv, current_ord: 0 }
    }

    /// Whether the iterator stands behind the last value that it can give.
    pub open spec fn at_end(&self) -> bool {
        self.current_ord >= self.dv.count_spec() || self.current_ord > 0x7fff_ffff
    }

    /// What `next` returns when the value under the iterator was looked up
    /// with the result `term`: the value, and the iterator moves on by one;
    /// or the error, and the iterator stays.
    pub fn step(&mut self, term: Result<Vec<u8>, Error>) -> (r: Result<Option<Vec<u8>>, Error>)
        requires
            old(self).current_ord < usize::MAX,
        ensures
            final(self).dv == old(self).dv,
            match term {
                Ok(t) => r == Ok::<Option<Vec<u8>>, Error>(Some(t)) && final(self).current_ord
                    == old(self).current_ord + 1,
                Err(e) => r == Err::<Option<Vec<u8>>, Error>(e) && final(self).current_ord
                    == old(self).current_ord,
            },
    {
        match term {
            Ok(t) => {
                self.current_ord = self.current_ord + 1;
                Ok(Some(t))
            },
            Err(e) => Err(e),
        }
    }

    /// The next value of the dictionary; `None` after the last, without a
    /// look at the column. When the column cannot be read, the iterator
    /// stays where it is; a column that never fails gives every value.
    pub fn next(&mut self) -> (r: Result<Option<Vec<u8>>, Error>)
        ensures
            final(self).dv == old(self).dv,
            old(self).at_end() ==> r == Ok::<Option<Vec<u8>>, Error>(None),
            old(self).dv.never_fails() ==> r is Ok,
            match r {
                Ok(Some(term)) => {
                    &&& old(self).current_ord < old(self).dv.count_spec()
                    &&& old(self).current_ord <= 0x7fff_ffff
                    &&& term@ == old(self).dv.term_of(old(self).current_ord as int)
                    &&& final(self).current_ord == old(self).current_ord + 1
                },
                Ok(None) => {
                    &&& (old(self).current_ord >= old(self).dv.count_spec() || old(self).current_ord > 0x7fff_ffff)
                    &&& final(self).current_ord == old(self).current_ord
                },
                Err(_) => final(self).current_ord == old(self).current_ord,
            },
    {
        if self.current_ord >= self.dv.get_value_count() || self.current_ord > 0x7fff_ffff {
            return Ok(None);
        }
        let term = self.dv.lookup_ord(self.current_ord as i32);
        self.step(term)
    }
}

/// A sorted column seen as a column of sets: the set of a document holds
/// the document's ordinal, if it has one.
pub struct SingletonSortedSetDocValues<D: SortedDocValues> {
    pub dv_in: D,
}

impl<D: SortedDocValues> SingletonSortedSetDocValues<D> {
    /// The sorted column `dv_in` as a column of sets.
    pub fn new(dv_in: D) -> (dv: Self)
        ensures
            dv.dv_in == dv_in,
    {
        SingletonSortedSetDocValues { dv_in }
    }

    /// The sorted column under the view.
    pub fn get_sorted_doc_values(&self) -> (dv: &D)
        ensures
            *dv == self.dv_in,
    {
        &self.dv_in
    }
}

/// The cursor of a singleton view for a document whose ordinal was asked
/// for with the result `ord`: the ordinal, or the error.
pub fn ord_cursor(ord: Result<i32, Error>) -> (r: Result<i64, Error>)
    ensures
        r == (match ord {
            Ok(o) => Ok::<i64, Error>(o as i64),
            Err(e) => Err::<i64, Error>(e),
        }),
{
    match ord {
        Ok(o) => Ok(o as i64),
        Err(e) => Err(e),
    }
}

/// The set that holds `ord`, or nothing when `ord` is negative.
pub open spec fn singleton_ords(ord: int) -> Seq<i64> {
    if ord >= 0 {
        seq![ord as i64]
    } else {
        Seq::empty()
    }
}

impl<D: SortedDocValues> SortedSetDocValues for SingletonSortedSetDocValues<D> {
    type Context = i64;

    open spec fn ords_of(&self, doc: int) -> Seq<i64> {
        if -1 <= self.dv_in.ord_of(doc) <= 0x7fff_ffff {
            singleton_ords(self.dv_in.ord_of(doc))
        } else {
            Seq::empty()
        }
    }

    open spec fn remaining(&self, ctx: &i64) -> Seq<i64> {
        singleton_ords(*ctx as int)
    }

    open spec fn never_fails(&self) -> bool {
        self.dv_in.never_fails()
    }

    fn set_document(&self, doc_id: DocId) -> (r: Result<i64, Error>)
        ensures
            r matches Ok(ctx) ==> ctx == self.dv_in.ord_of(doc_id as int),
    {
        ord_cursor(self.dv_in.get_ord(doc_id))
    }

    fn next_ord(&self, ctx: &mut i64) -> (r: Result<i64, Error>)
        ensures
            r is Ok,
    {
        let ord = *ctx;
        *ctx = NO_MORE_ORDS;
        proof {
            if ord >= 0 {
                assert(singleton_ords(ord as int).skip(1) =~= singleton_ords(-1));
            }
        }
        if ord >= 0 {
            Ok(ord)
        } else {
            Ok(NO_MORE_ORDS)
        }
    }
}

/// A numeric column seen as a column of lists: the list of a document holds
/// the document's number when the document is in `docs_with_field`.
pub struct SingletonSortedNumericDocValues<N: NumericDocValues, B: ImmutableBits> {
    pub numeric_doc_values_in: N,
    pub docs_with_field: B,
}

impl<N: NumericDocValues, B: ImmutableBits> SingletonSortedNumericDocValues<N, B> {
    /// The numeric column `numeric_doc_values_in` as a column of lists;
    /// `docs_with_field` tells which documents have a number.
    pub fn new(numeric_doc_values_in: N, docs_with_field: B) -> (dv: Self)
        ensures
            dv.numeric_doc_values_in == numeric_doc_values_in,
            dv.docs_with_field == docs_with_field,
    {
        SingletonSortedNumericDocValues { numeric_doc_values_in, docs_with_field }
    }

    /// The numeric column under the view.
    pub fn get_numeric_doc_values(&self) -> (dv: Option<&N>)
        ensures
            dv == Some(&self.numeric_doc_values_in),
    {
        Some(&self.numeric_doc_values_in)
    }
}

/// The cursor of a singleton view: the number of the document, and whether
/// the document has it.
pub struct SingletonContext {
    pub value: i64,
    pub present: bool,
}

impl SingletonContext {
    /// The cursor for a document with the number `value`, of which the set
    /// of documents with a number was asked with the result `present`: the
    /// cursor, or the error.
    pub fn of(value: i64, present: Result<bool, Error>) -> (r: Result<SingletonContext, Error>)
        ensures
            match present {
                Ok(p) => r matches Ok(ctx) && ctx.value == value && ctx.present == p,
                Err(e) => r matches Err(f) && f == e,
            },
    {
        match present {
            Ok(present) => Ok(SingletonContext { value, present }),
            Err(e) => Err(e),
        }
    }
}

impl<N: NumericDocValues, B: ImmutableBits> SortedNumericDocValues for SingletonSortedNumericDocValues<
    N,
    B,
> {
    type Context = SingletonContext;

    open spec fn values_of(&self, doc: int) -> Seq<i64> {
        if 0 <= doc < self.docs_with_field.len_spec() && self.docs_with_field.bit(doc) {
            seq![self.numeric_doc_values_in.value_of(doc)]
        } else {
            Seq::empty()
        }
    }

    open spec fn values_at(&self, ctx: &SingletonContext) -> Seq<i64> {
        if ctx.present {
            seq![ctx.value]
        } else {
            Seq::empty()
        }
    }

    open spec fn never_fails(&self) -> bool {
        self.numeric_doc_values_in.never_fails() && self.docs_with_field.never_fails()
    }

    fn set_document(&self, doc_id: DocId) -> (r: Result<SingletonContext, Error>)
        ensures
            r matches Ok(ctx) ==> ctx.value == self.numeric_doc_values_in.value_of(doc_id as int),
    {
        let value = match self.numeric_doc_values_in.get(doc_id) {
            Ok(v) => v,
            Err(e) => {
                return Err(e);
            },
        };
        if doc_id < 0 || doc_id as usize >= self.docs_with_field.len() {
            return Ok(SingletonContext { value, present: false });
        }
        SingletonContext::of(value, self.docs_with_field.get(doc_id as usize))
    }

    fn count(&self, ctx: &SingletonContext) -> (n: usize) {
        if ctx.present {
            1
        } else {
            0
        }
    }

    fn value_at(&self, ctx: &SingletonContext, index: usize) -> (r: Result<i64, Error>)
        ensures
            r is Ok,
    {
        Ok(ctx.value)
    }
}

/// Whether a document has a value in a sorted column, when its ordinal was
/// asked for with the result `ord`: the ordinal is not negative; or the
/// error.
pub fn has_ord(ord: Result<i32, Error>) -> (r: Result<bool, Error>)
    ensures
        r == (match ord {
            Ok(o) => Ok::<bool, Error>(o >= 0),
            Err(e) => Err::<bool, Error>(e),
        }),
{
    match ord {
        Ok(o) => Ok(o >= 0),
        Err(e) => Err(e),
    }
}

/// Whether a document has a value in a column of sets, when the first
/// ordinal of its set was asked for with the result `first`: the set has
/// not ended there; or the error.
pub fn has_next_ord(first: Result<i64, Error>) -> (r: Result<bool, Error>)
    ensures
        r == (match first {
            Ok(o) => Ok::<bool, Error>(o != NO_MORE_ORDS),
            Err(e) => Err::<bool, Error>(e),
        }),
{
    match first {
        Ok(o) => Ok(o != NO_MORE_ORDS),
        Err(e) => Err(e),
    }
}

/// Whether a document has a value in the column of lists `dv`, when a
/// cursor over its list was asked for with the result `ctx`: the list
/// under the cursor is not empty; or the error.
pub fn has_values<D: SortedNumericDocValues>(dv: &D, ctx: Result<D::Context, Error>) -> (r: Result<
    bool,
    Error,
>)
    ensures
        r == (match ctx {
            Ok(c) => Ok::<bool, Error>(dv.values_at(&c).len() != 0),
            Err(e) => Err::<bool, Error>(e),
        }),
{
    match ctx {
        Ok(c) => Ok(dv.count(&c) != 0),
        Err(e) => Err(e),
    }
}

/// The documents that have a value in a sorted column.
pub struct SortedDocValuesBits<D: SortedDocValues> {
    pub dv: D,
    pub max_doc: i32,
}

impl<D: SortedDocValues> ImmutableBits for SortedDocValuesBits<D> {
    open spec fn bit(&self, index: int) -> bool {
        self.dv.ord_of(index) >= 0
    }

    open spec fn len_spec(&self) -> nat {
        if self.max_doc >= 0 {
            self.max_doc as nat
        } else {
            0
        }
    }

    open spec fn never_fails(&self) -> bool {
        self.dv.never_fails()
    }

    fn get(&self, index: usize) -> (r: Result<bool, Error>) {
        has_ord(self.dv.get_ord(index as DocId))
    }

    fn len(&self) -> (n: usize) {
        if self.max_doc >= 0 {
            self.max_doc as usize
        } else {
            0
        }
    }
}

/// The documents that have a value in a column of sets.
pub struct SortedSetDocValuesBits<D: SortedSetDocValues> {
    pub dv: D,
    pub max_doc: i32,
}

impl<D: SortedSetDocValues> ImmutableBits for SortedSetDocValuesBits<D> {
    open spec fn bit(&self, index: int) -> bool {
        self.dv.ords_of(index).len() > 0
    }

    open spec fn len_spec(&self) -> nat {
        if self.max_doc >= 0 {
            self.max_doc as nat
        } else {
            0
        }
    }

    open spec fn never_fails(&self) -> bool {
        self.dv.never_fails()
    }

    fn get(&self, index: usize) -> (r: Result<bool, Error>) {
        let mut ctx = match self.dv.set_document(index as DocId) {
            Ok(ctx) => ctx,
            Err(e) => {
                return Err(e);
            },
        };
        has_next_ord(self.dv.next_ord(&mut ctx))
    }

    fn len(&self) -> (n: usize) {
        if self.max_doc >= 0 {
            self.max_doc as usize
        } else {
            0
        }
    }
}

/// The documents that have a value in a column of lists of numbers.
pub struct SortedNumericDocValuesBits<D: SortedNumericDocValues> {
    pub dv: D,
    pub max_doc: i32,
}

impl<D: SortedNumericDocValues> ImmutableBits for SortedNumericDocValuesBits<D> {
    open spec fn bit(&self, index: int) -> bool {
        self.dv.values_of(index).len() > 0
    }

    open spec fn len_spec(&self) -> nat {
        if self.max_doc >= 0 {
            self.max_doc as nat
        } else {
            0
        }
    }

    open spec fn never_fails(&self) -> bool {
        self.dv.never_fails()
    }

    fn get(&self, index: usize) -> (r: Result<bool, Error>) {
        has_values(&self.dv, self.dv.set_document(index as DocId))
    }

    fn len(&self) -> (n: usize) {
        if self.max_doc >= 0 {
            self.max_doc as usize
        } else {
            0
        }
    }
}

/// Makers of the common columns and views.
pub struct DocValues;

impl DocValues {
    /// The binary column in which every document has the empty byte string.
    pub fn empty_binary() -> (dv: EmptyBinaryDocValues)
        ensures
            dv.never_fails(),
            forall|doc: int| #[trigger] dv.bytes_of(doc) == Seq::<u8>::empty(),
    {
        EmptyBinaryDocValues::new()
    }

    /// The numeric column in which every document has the number zero.
    pub fn empty_numeric() -> (dv: EmptyNumericDocValues)
        ensures
            dv.never_fails(),
            forall|doc: int| #[trigger] dv.value_of(doc) == 0,
    {
        EmptyNumericDocValues {  }
    }

    /// The sorted column in which no document has a value.
    pub fn empty_sorted() -> (dv: EmptySortedDocValues)
        ensures
            SortedDocValues::never_fails(&dv),
            BinaryDocValues::never_fails(&dv),
            dv.count_spec() == 0,
            forall|doc: int| #[trigger] dv.ord_of(doc) == -1,
            forall|doc: int| #[trigger] dv.bytes_of(doc) == Seq::<u8>::empty(),
    {
        EmptySortedDocValues::new()
    }

    /// The column of lists in which every document has the empty list.
    pub fn empty_sorted_numeric(max_doc: usize) -> (dv: SingletonSortedNumericDocValues<
        EmptyNumericDocValues,
        MatchNoBits,
    >)
        ensures
            dv.never_fails(),
            dv.docs_with_field.len == max_doc,
            forall|doc: int| #[trigger] dv.values_of(doc) == Seq::<i64>::empty(),
    {
        let dv = DocValues::empty_numeric();
        let docs_with_field = MatchNoBits::new(max_doc);
        SingletonSortedNumericDocValues::new(dv, docs_with_field)
    }

    /// The column of sets in which every document has the empty set.
    pub fn empty_sorted_set() -> (dv: SingletonSortedSetDocValues<EmptySortedDocValues>)
        ensures
            dv.never_fails(),
            forall|doc: int| #[trigger] dv.ords_of(doc) == Seq::<i64>::empty(),
    {
        let dv = DocValues::empty_sorted();
        SingletonSortedSetDocValues::new(dv)
    }

    /// The sorted column `dv` as a column of sets.
    pub fn singleton_sorted_doc_values<D: SortedDocValues>(dv: D) -> (set:
        SingletonSortedSetDocValues<D>)
        ensures
            set.dv_in == dv,
    {
        SingletonSortedSetDocValues::new(dv)
    }

    /// The numeric column `numeric_doc_values_in` as a column of lists;
    /// `docs_with_field` tells which documents have a number.
    pub fn singleton_sorted_numeric_doc_values<N: NumericDocValues, B: ImmutableBits>(
        numeric_doc_values_in: N,
        docs_with_field: B,
    ) -> (list: SingletonSortedNumericDocValues<N, B>)
        ensures
            list.numeric_doc_values_in == numeric_doc_values_in,
            list.docs_with_field == docs_with_field,
    {
        SingletonSortedNumericDocValues::new(numeric_doc_values_in, docs_with_field)
    }

    /// The documents below `max_doc` that have a value in `dv`.
    pub fn docs_with_value_sorted<D: SortedDocValues>(dv: D, max_doc: i32) -> (bits:
        SortedDocValuesBits<D>)
        ensures
            bits.dv == dv,
            bits.max_doc == max_doc,
            forall|d: int| #[trigger] bits.bit(d) == (dv.ord_of(d) >= 0),
    {
        SortedDocValuesBits { dv, max_doc }
    }

    /// The documents below `max_doc` that have a value in `dv`.
    pub fn docs_with_value_sorted_set<D: SortedSetDocValues>(dv: D, max_doc: i32) -> (bits:
        SortedSetDocValuesBits<D>)
        ensures
            bits.dv == dv,
            bits.max_doc == max_doc,
            forall|d: int| #[trigger] bits.bit(d) == (dv.ords_of(d).len() > 0),
    {
        SortedSetDocValuesBits { dv, max_doc }
    }

    /// The documents below `max_doc` that have a value in `dv`.
    pub fn docs_with_value_sorted_numeric<D: SortedNumericDocValues>(dv: D, max_doc: i32) -> (bits:
        SortedNumericDocValuesBits<D>)
        ensures
            bits.dv == dv,
            bits.max_doc == max_doc,
            forall|d: int| #[trigger] bits.bit(d) == (dv.values_of(d).len() > 0),
    {
        SortedNumericDocValuesBits { dv, max_doc }
    }

    /// The numeric column under a singleton view.
    pub fn unwrap_singleton<N: NumericDocValues, B: ImmutableBits>(
        dv: &SingletonSortedNumericDocValues<N, B>,
    ) -> (r: Result<Option<&N>, Error>)
        ensures
            r == Ok::<Option<&N>, Error>(Some(&dv.numeric_doc_values_in)),
    {
        Ok(dv.get_numeric_doc_values())
    }
}

} // verus!
