use rucene::error::Error;
use rucene::index::field::{FieldInfo, FieldInvertState, IndexOptions, Token};
use rucene::index::freq_prox::{encode_offsets, encode_prox, FreqProxPostingsArray};
use rucene::index::postings_array::{
    grow_column, grow_signed_column, ParallelPostingsArray, PostingsArray, BYTES_PER_POSTING,
    MAX_POSTINGS,
};
use rucene::index::term_vector::{TermVectorPostingsArray, TermVectorsConsumerPerField};
use rucene::index::terms_hash::TermsHashBase;
use rucene::util::byte_block_pool::ByteBlockPool;
use rucene::util::bytes_ref_hash::{hash_bytes, term_equals, term_order, BytesRefHash};

#[test]
fn columns_grow_by_an_eighth_and_at_least_three() {
    let mut array = ParallelPostingsArray::new(2);
    array.int_starts[1] = 77;
    assert_eq!(array.next_size(), 6);
    array.grow();
    assert_eq!(array.size, 6);
    assert_eq!(array.int_starts, vec![0, 77, 0, 0, 0, 0]);
    assert_eq!(array.text_starts.len(), 6);
    assert_eq!(array.byte_starts.len(), 6);
    array.grow();
    assert_eq!(array.size, 10);
    let big = ParallelPostingsArray::new(100);
    assert_eq!(big.next_size(), 101 + 12);
    assert_eq!(ParallelPostingsArray::new(0).next_size(), 4);
    let mut full = ParallelPostingsArray::new(0);
    full.size = MAX_POSTINGS;
    assert_eq!(full.next_size(), MAX_POSTINGS);
    array.clear();
    assert_eq!(array.size, 0);
    assert!(array.int_starts.is_empty());
}

#[test]
fn grow_column_keeps_what_is_there() {
    let mut column = vec![4u32, 5];
    grow_column(&mut column, 5);
    assert_eq!(column, vec![4, 5, 0, 0, 0]);
    grow_column(&mut column, 5);
    assert_eq!(column.len(), 5);
    let mut signed = vec![-4i32];
    grow_signed_column(&mut signed, 3);
    assert_eq!(signed, vec![-4, 0, 0]);
}

#[test]
fn postings_columns_follow_their_flags() {
    let mut all = FreqProxPostingsArray::new(3, true, true, true);
    assert_eq!(all.bytes_per_posting(), BYTES_PER_POSTING + 8 + 12);
    assert_eq!(all.parallel_array().size, 3);
    all.last_offsets[2] = 9;
    all.grow();
    assert_eq!(all.parallel_array().size, 7);
    assert_eq!(all.last_offsets, vec![0, 0, 9, 0, 0, 0, 0]);
    assert_eq!(all.term_freqs.len(), 7);
    assert_eq!(all.last_doc_ids.len(), 7);
    let mut docs_only = FreqProxPostingsArray::new(3, false, false, false);
    assert_eq!(docs_only.bytes_per_posting(), BYTES_PER_POSTING + 8);
    docs_only.grow();
    assert!(docs_only.term_freqs.is_empty());
    assert!(docs_only.last_positions.is_empty());
    assert_eq!(docs_only.last_doc_codes.len(), 7);
    docs_only.clear();
    assert_eq!(docs_only.parallel_array().size, 0);
    assert!(docs_only.last_doc_ids.is_empty());
    let mut vectors = TermVectorPostingsArray::new(1);
    assert_eq!(vectors.bytes_per_posting(), BYTES_PER_POSTING + 12);
    vectors.grow();
    assert_eq!(vectors.freqs.len(), 5);
}

#[test]
fn index_options_include_the_ones_before() {
    let all = [
        IndexOptions::Null,
        IndexOptions::Docs,
        IndexOptions::DocsAndFreqs,
        IndexOptions::DocsAndFreqsAndPositions,
        IndexOptions::DocsAndFreqsAndPositionsAndOffsets,
    ];
    for (rank, options) in all.iter().enumerate() {
        assert_eq!(options.rank() as usize, rank);
        assert_eq!(options.has_freqs(), rank >= 2);
        assert_eq!(options.has_positions(), rank >= 3);
        assert_eq!(options.has_offsets(), rank >= 4);
        for (other_rank, other) in all.iter().enumerate() {
            assert_eq!(options.at_least(*other), rank >= other_rank);
        }
    }
}

#[test]
fn payloads_are_stored_only_with_positions() {
    let mut info = FieldInfo::new(String::from("f"), 3, IndexOptions::DocsAndFreqs);
    info.set_store_payloads();
    assert!(!info.store_payloads);
    let mut info = FieldInfo::new(String::from("f"), 3, IndexOptions::DocsAndFreqsAndPositions);
    assert!(!info.store_payloads);
    info.set_store_payloads();
    assert!(info.store_payloads);
    assert_eq!(info.number, 3);
    let state = FieldInvertState::new();
    assert_eq!(state.position, -1);
    assert_eq!(state.length, 0);
}

#[test]
fn tokens_tell_their_payload() {
    let none = Token { term: vec![1], start_offset: 0, end_offset: 0, payload: None };
    let empty = Token { term: vec![1], start_offset: 0, end_offset: 0, payload: Some(vec![]) };
    let some = Token { term: vec![1], start_offset: 0, end_offset: 0, payload: Some(vec![5, 6]) };
    assert_eq!(none.payload_slice(), None);
    assert_eq!(empty.payload_slice(), None);
    assert_eq!(some.payload_slice(), Some(&[5u8, 6][..]));
    assert_eq!(none.payload_len(), 0);
    assert_eq!(some.payload_len(), 2);
    assert_eq!(encode_prox(3, &none), vec![6]);
    assert_eq!(encode_prox(3, &empty), vec![6]);
    assert_eq!(encode_prox(3, &some), vec![7, 2, 5, 6]);
    assert_eq!(encode_prox(0x7fff_ffff, &none), vec![0xfe, 0xff, 0xff, 0xff, 0x0f]);
    assert_eq!(encode_offsets(10, 15, 4), vec![6, 5]);
    assert_eq!(encode_offsets(300, 300, 0), vec![0xac, 0x02, 0]);
}

#[test]
fn the_table_gives_each_term_one_id() {
    let mut pool = ByteBlockPool::new();
    let mut hash = BytesRefHash::new(0);
    assert_eq!(hash.add(&mut pool, b"b"), Ok(0));
    assert_eq!(hash.add(&mut pool, b"a"), Ok(1));
    assert_eq!(hash.add(&mut pool, b"b"), Ok(-1));
    assert_eq!(hash.add(&mut pool, b""), Ok(2));
    assert_eq!(hash.add(&mut pool, b"a"), Ok(-2));
    assert_eq!(hash.add(&mut pool, b""), Ok(-3));
    assert_eq!(hash.size(), 3);
    assert_eq!(hash.find(&pool, b"a"), 1);
    assert_eq!(hash.find(&pool, b"c"), -1);
    assert_eq!(hash.byte_start(0), 0);
    assert_eq!(hash.byte_start(1), 2);
    assert_eq!(hash.byte_start(2), 4);
    assert_eq!(hash.get(&pool, 1), b"a");
    assert_eq!(hash.sort(&pool), vec![2, 1, 0]);
    let too_long = vec![0u8; 40_000];
    assert_eq!(hash.add(&mut pool, &too_long), Err(Error::MaxBytesLengthExceeded));
    assert_eq!(hash.size(), 3);
    hash.clear();
    assert_eq!(hash.size(), 0);
    assert_eq!(hash.find(&pool, b"a"), -1);
    assert_eq!(hash.add(&mut pool, b"a"), Ok(0));
}

#[test]
fn terms_compare_as_unsigned_bytes() {
    let mut pool = ByteBlockPool::new();
    let a = pool.append_term(b"abc").unwrap();
    let b = pool.append_term(b"abd").unwrap();
    let c = pool.append_term(b"ab").unwrap();
    let high = pool.append_term(&[0xff]).unwrap();
    let low = pool.append_term(&[0x01, 0x02]).unwrap();
    assert_eq!(term_order(&pool, a, b), -1);
    assert_eq!(term_order(&pool, b, a), 1);
    assert_eq!(term_order(&pool, c, a), -1);
    assert_eq!(term_order(&pool, a, a), 0);
    assert_eq!(term_order(&pool, high, low), 1);
    assert!(term_equals(&pool, a, b"abc"));
    assert!(!term_equals(&pool, a, b"abd"));
    assert!(!term_equals(&pool, a, b"ab"));
    assert_eq!(hash_bytes(b""), 0);
    assert_eq!(hash_bytes(b"a"), 97);
    assert_eq!(hash_bytes(b"ab"), 97 * 31 + 98);
    let long = vec![0xffu8; 64];
    let mut expected: u32 = 0;
    for _ in 0..64 {
        expected = expected.wrapping_mul(31).wrapping_add(0xff);
    }
    assert_eq!(hash_bytes(&long), expected);
}

#[test]
fn a_table_keyed_by_offsets_gives_each_offset_one_id() {
    let mut hash = BytesRefHash::new_by_pool_offset(4);
    assert_eq!(hash.add_by_pool_offset(100), Ok(0));
    assert_eq!(hash.add_by_pool_offset(7), Ok(1));
    assert_eq!(hash.add_by_pool_offset(100), Ok(-1));
    for (i, offset) in (0..500usize).map(|i| i * 4 + 1000).enumerate() {
        assert_eq!(hash.add_by_pool_offset(offset), Ok(i as i32 + 2));
    }
    assert_eq!(hash.size(), 502);
    assert_eq!(hash.find_by_pool_offset(7), 1);
    assert_eq!(hash.find_by_pool_offset(1000 + 4 * 499), 501);
    assert_eq!(hash.find_by_pool_offset(8), -1);
    assert_eq!(hash.byte_start(1), 7);
    hash.clear();
    assert_eq!(hash.find_by_pool_offset(7), -1);
    assert_eq!(hash.add_by_pool_offset(7), Ok(0));
}

#[test]
fn vectors_consumer_records_by_offset() {
    let mut pools = TermsHashBase::new();
    let info = FieldInfo::new(String::from("f"), 0, IndexOptions::Docs);
    let mut tv = TermVectorsConsumerPerField::new(info, true, true, false);
    tv.init();
    let mut state = FieldInvertState::new();
    assert_eq!(tv.start(&state, true), Ok(true));
    let t = Token { term: vec![b'x'], start_offset: 0, end_offset: 1, payload: None };
    for (position, text_start) in [(3, 40usize), (5, 12), (9, 40)] {
        state.position = position;
        assert!(tv.accepts(&pools, &state, &t, text_start));
        tv.add_by_offset(&mut pools, &state, &t, 0, text_start).unwrap();
    }
    assert_eq!(tv.base.num_terms(), 2);
    assert_eq!(tv.base.read_stream(&pools, 0, 0), vec![3 << 1, 6 << 1]);
    assert_eq!(tv.base.read_stream(&pools, 1, 0), vec![5 << 1]);
    assert_eq!(tv.base.postings_array.freqs[..2], [2, 1]);
    assert_eq!(tv.encode_occurrence(9, 0, &state, &t), vec![0]);
    state.position = 8;
    assert!(!tv.accepts(&pools, &state, &t, 40));
    assert!(tv.accepts(&pools, &state, &t, 12));
    assert_eq!(tv.finish(&state), Ok(()));
}

#[test]
fn the_table_doubles_before_it_is_half_full() {
    let mut pool = ByteBlockPool::new();
    let mut hash = BytesRefHash::new(4);
    assert_eq!(hash.slots(), 4);
    let mut sizes = Vec::new();
    for i in 0..9u8 {
        hash.add(&mut pool, &[i]).unwrap();
        sizes.push(hash.slots());
    }
    assert_eq!(sizes, vec![4, 8, 8, 16, 16, 16, 16, 32, 32]);
    hash.add(&mut pool, &[3]).unwrap();
    assert_eq!(hash.slots(), 32);
    assert_eq!(BytesRefHash::new(0).slots(), 4);
    assert_eq!(BytesRefHash::new(100).slots(), 100);
}
