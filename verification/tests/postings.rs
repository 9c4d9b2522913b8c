use rucene::error::Error;
use rucene::index::field::{FieldInfo, FieldInvertState, IndexOptions, Token};
use rucene::index::freq_prox::FreqProxTermsWriterPerField;
use rucene::index::term_vector::TermVectorsConsumerPerField;
use rucene::index::terms_hash::TermsHashBase;
use rucene::util::byte_block_pool::MAX_TERM_LENGTH;

fn writer(options: IndexOptions) -> FreqProxTermsWriterPerField {
    let info = FieldInfo::new(String::from("body"), 0, options);
    let vectors = TermVectorsConsumerPerField::new(
        FieldInfo::new(String::from("body"), 0, options),
        false,
        false,
        false,
    );
    let mut writer = FreqProxTermsWriterPerField::new(info, vectors);
    writer.init();
    writer
}

fn token(term: &[u8]) -> Token {
    Token { term: term.to_vec(), start_offset: 0, end_offset: 0, payload: None }
}

fn stream(writer: &FreqProxTermsWriterPerField, pools: &TermsHashBase, term: usize, s: usize) -> Vec<u8> {
    writer.base.init_reader(pools, term, s).read_to_end()
}

fn add_at(
    writer: &mut FreqProxTermsWriterPerField,
    pools: &mut TermsHashBase,
    state: &mut FieldInvertState,
    token: &Token,
    doc: i32,
    position: i32,
) {
    state.position = position;
    state.length += 1;
    let mut unused = TermsHashBase::new();
    assert!(writer.accepts_all(pools, &unused, state, token, doc));
    writer.add(pools, &mut unused, state, token, doc).unwrap();
    assert_eq!(unused.byte_pool.buffer_count(), 0);
}

#[test]
fn single_term_single_doc() {
    let mut pools = TermsHashBase::new();
    let mut w = writer(IndexOptions::DocsAndFreqsAndPositions);
    let mut state = FieldInvertState::new();
    add_at(&mut w, &mut pools, &mut state, &token(b"a"), 5, 3);
    assert_eq!(w.base.num_terms(), 1);
    assert_eq!(w.base.postings_array.base.int_starts[0], 0);
    assert_eq!(w.base.postings_array.base.text_starts[0], 0);
    // the term takes two bytes; the first slices of the two streams follow
    assert_eq!(w.base.postings_array.base.byte_starts[0], 2);
    assert_eq!(pools.int_pool.get(0), 2);
    assert_eq!(pools.int_pool.get(1), 7 + 1);
    assert_eq!(stream(&w, &pools, 0, 0), Vec::<u8>::new());
    assert_eq!(stream(&w, &pools, 0, 1), vec![6]);
    assert_eq!(w.base.postings_array.last_doc_ids[0], 5);
    assert_eq!(w.base.postings_array.last_doc_codes[0], 10);
    assert_eq!(w.base.postings_array.term_freqs[0], 1);
    assert_eq!(w.base.postings_array.last_positions[0], 3);
    assert_eq!(state.unique_term_count, 1);
    assert_eq!(state.max_term_frequency, 1);
}

#[test]
fn same_term_same_doc_three_positions() {
    let mut pools = TermsHashBase::new();
    let mut w = writer(IndexOptions::DocsAndFreqsAndPositions);
    let mut state = FieldInvertState::new();
    let t = token(b"a");
    add_at(&mut w, &mut pools, &mut state, &t, 0, 1);
    add_at(&mut w, &mut pools, &mut state, &t, 0, 4);
    add_at(&mut w, &mut pools, &mut state, &t, 0, 9);
    assert_eq!(w.base.postings_array.term_freqs[0], 3);
    assert_eq!(stream(&w, &pools, 0, 1), vec![2, 6, 10]);
    assert_eq!(stream(&w, &pools, 0, 0), Vec::<u8>::new());
    assert_eq!(state.unique_term_count, 1);
    assert_eq!(state.max_term_frequency, 3);
}

#[test]
fn same_term_two_docs() {
    let mut pools = TermsHashBase::new();
    let mut w = writer(IndexOptions::DocsAndFreqsAndPositions);
    let t = token(b"a");
    let mut state = FieldInvertState::new();
    add_at(&mut w, &mut pools, &mut state, &t, 2, 0);
    let mut state = FieldInvertState::new();
    add_at(&mut w, &mut pools, &mut state, &t, 7, 0);
    assert_eq!(stream(&w, &pools, 0, 0), vec![5]);
    assert_eq!(w.base.postings_array.last_doc_codes[0], 10);
    assert_eq!(w.base.postings_array.term_freqs[0], 1);
    assert_eq!(w.base.postings_array.last_doc_ids[0], 7);
    assert_eq!(stream(&w, &pools, 0, 1), vec![0, 0]);
}

#[test]
fn frequency_follows_an_even_doc_code() {
    let mut pools = TermsHashBase::new();
    let mut w = writer(IndexOptions::DocsAndFreqs);
    let t = token(b"x");
    let mut state = FieldInvertState::new();
    add_at(&mut w, &mut pools, &mut state, &t, 3, 0);
    add_at(&mut w, &mut pools, &mut state, &t, 3, 1);
    add_at(&mut w, &mut pools, &mut state, &t, 3, 2);
    let mut state = FieldInvertState::new();
    add_at(&mut w, &mut pools, &mut state, &t, 4, 0);
    let mut state = FieldInvertState::new();
    add_at(&mut w, &mut pools, &mut state, &t, 200, 0);
    // doc 3 with freq 3: code 6, then 3; doc 4 with freq 1: delta 1 -> 3
    assert_eq!(stream(&w, &pools, 0, 0), vec![6, 3, 3]);
    assert_eq!(w.base.postings_array.last_doc_codes[0], (200 - 4) << 1);
    assert_eq!(w.base.stream_count(), 1);
}

#[test]
fn docs_only_writes_raw_deltas() {
    let mut pools = TermsHashBase::new();
    let mut w = writer(IndexOptions::Docs);
    let t = token(b"x");
    for (doc, unique_after) in [(10, 1u32), (10, 0), (12, 1), (300, 1)] {
        let mut state = FieldInvertState::new();
        add_at(&mut w, &mut pools, &mut state, &t, doc, 0);
        // a further token of the same document counts no new term
        assert_eq!(state.unique_term_count, unique_after);
        assert_eq!(state.max_term_frequency, if doc == 10 && unique_after == 1 { 1 } else { 0 });
    }
    // doc 10 as is, then the delta 2; the delta 288 is still pending
    assert_eq!(stream(&w, &pools, 0, 0), vec![10, 2]);
    assert_eq!(w.base.postings_array.last_doc_codes[0], 288);
    assert_eq!(w.base.postings_array.last_doc_ids[0], 300);
    assert!(w.base.postings_array.term_freqs.is_empty());
    assert!(w.base.postings_array.last_positions.is_empty());
}

#[test]
fn payloads_and_offsets_follow_the_position() {
    let mut pools = TermsHashBase::new();
    let mut w = writer(IndexOptions::DocsAndFreqsAndPositionsAndOffsets);
    let mut state = FieldInvertState::new();
    state.offset = 100;
    let first = Token {
        term: b"pay".to_vec(),
        start_offset: 3,
        end_offset: 8,
        payload: Some(vec![9, 8, 7]),
    };
    add_at(&mut w, &mut pools, &mut state, &first, 1, 2);
    let second = Token {
        term: b"pay".to_vec(),
        start_offset: 10,
        end_offset: 12,
        payload: Some(Vec::new()),
    };
    add_at(&mut w, &mut pools, &mut state, &second, 1, 7);
    assert_eq!(
        stream(&w, &pools, 0, 1),
        vec![
            (2 << 1) | 1, 3, 9, 8, 7, 103, 5, // position 2 with payload, offsets 103..108
            5 << 1, 7, 2, // position delta 5, start delta 7, length 2
        ]
    );
    assert!(w.saw_payloads);
    assert_eq!(w.base.postings_array.last_offsets[0], 110);
    assert_eq!(w.base.postings_array.last_positions[0], 7);
    // a new document starts the offsets from zero again
    let mut state = FieldInvertState::new();
    let third = Token { term: b"pay".to_vec(), start_offset: 1, end_offset: 4, payload: None };
    add_at(&mut w, &mut pools, &mut state, &third, 2, 0);
    let all = stream(&w, &pools, 0, 1);
    assert_eq!(&all[10..], &[0, 1, 3]);
    assert_eq!(stream(&w, &pools, 0, 0), vec![2, 2]);
}

#[test]
fn terms_get_dense_ids_and_streams_of_their_own() {
    let mut pools = TermsHashBase::new();
    let mut w = writer(IndexOptions::DocsAndFreqsAndPositions);
    let words: [&[u8]; 7] = [b"the", b"quick", b"brown", b"fox", b"the", b"lazy", b"fox"];
    let mut state = FieldInvertState::new();
    for (position, word) in words.iter().enumerate() {
        add_at(&mut w, &mut pools, &mut state, &token(word), 0, position as i32);
    }
    assert_eq!(w.base.num_terms(), 5);
    assert_eq!(state.unique_term_count, 5);
    assert_eq!(state.max_term_frequency, 2);
    assert_eq!(w.base.bytes_hash.find(&pools.byte_pool, b"the"), 0);
    assert_eq!(w.base.bytes_hash.find(&pools.byte_pool, b"fox"), 3);
    assert_eq!(w.base.bytes_hash.find(&pools.byte_pool, b"lazy"), 4);
    assert_eq!(w.base.bytes_hash.find(&pools.byte_pool, b"dog"), -1);
    assert_eq!(stream(&w, &pools, 0, 1), vec![0, 4 << 1]);
    assert_eq!(stream(&w, &pools, 3, 1), vec![3 << 1, 3 << 1]);
    assert_eq!(stream(&w, &pools, 1, 1), vec![1 << 1]);
    assert_eq!(w.base.postings_array.term_freqs[..5], [2, 1, 1, 2, 1]);
    // the columns grew in step with the ids
    assert!(w.base.postings_array.base.size >= 5);
    assert_eq!(w.base.postings_array.last_doc_ids.len(), w.base.postings_array.base.size);
}

#[test]
fn sort_postings_orders_ids_by_term_bytes() {
    let mut pools = TermsHashBase::new();
    let mut w = writer(IndexOptions::Docs);
    let words: [&[u8]; 8] = [b"pear", b"apple", b"", b"fig", b"app", b"apple", b"\xff", b"figs"];
    for word in words.iter() {
        let mut state = FieldInvertState::new();
        add_at(&mut w, &mut pools, &mut state, &token(word), 0, 0);
    }
    let sorted = w.base.sort_postings(&pools.byte_pool);
    assert_eq!(sorted, vec![2, 4, 1, 3, 6, 0, 5]);
    let terms: Vec<Vec<u8>> =
        sorted.iter().map(|id| w.base.bytes_hash.get(&pools.byte_pool, *id as usize)).collect();
    for pair in terms.windows(2) {
        assert!(pair[0] < pair[1]);
    }
}

#[test]
fn many_terms_survive_the_growth_of_the_table() {
    let mut pools = TermsHashBase::new();
    let mut w = writer(IndexOptions::DocsAndFreqs);
    let count = 3000;
    for round in 0..2 {
        for i in 0..count {
            let word = format!("term{}", (i * 7919) % count);
            let mut state = FieldInvertState::new();
            add_at(&mut w, &mut pools, &mut state, &token(word.as_bytes()), round, 0);
        }
    }
    assert_eq!(w.base.num_terms(), count);
    for i in 0..count {
        let word = format!("term{}", (i * 7919) % count);
        assert_eq!(w.base.bytes_hash.find(&pools.byte_pool, word.as_bytes()), i as i32);
        assert_eq!(w.base.bytes_hash.get(&pools.byte_pool, i), word.as_bytes());
        // seen in doc 0 and in doc 1, once each
        assert_eq!(stream(&w, &pools, i, 0), vec![1]);
        assert_eq!(w.base.postings_array.last_doc_codes[i], 2);
    }
    let sorted = w.base.sort_postings(&pools.byte_pool);
    assert_eq!(sorted.len(), count);
    let mut seen = vec![false; count];
    for window in sorted.windows(2) {
        let a = w.base.bytes_hash.get(&pools.byte_pool, window[0] as usize);
        let b = w.base.bytes_hash.get(&pools.byte_pool, window[1] as usize);
        assert!(a < b);
    }
    for id in sorted {
        assert!(!seen[id as usize]);
        seen[id as usize] = true;
    }
}

#[test]
fn accepts_tells_what_add_requires() {
    let mut pools = TermsHashBase::new();
    let mut w = writer(IndexOptions::DocsAndFreqsAndPositions);
    let t = token(b"a");
    let mut state = FieldInvertState::new();
    // no position yet
    assert!(!w.accepts(&pools, &state, &t, 1));
    add_at(&mut w, &mut pools, &mut state, &t, 4, 6);
    // an earlier document, an earlier position
    assert!(!w.accepts(&pools, &state, &t, 3));
    state.position = 5;
    assert!(!w.accepts(&pools, &state, &t, 4));
    assert!(w.accepts(&pools, &state, &t, 5));
    assert!(w.accepts(&pools, &state, &token(b"b"), 4));
    assert!(!w.accepts(&pools, &state, &t, -1));
    let backwards = Token { term: b"c".to_vec(), start_offset: 5, end_offset: 2, payload: None };
    assert!(!w.accepts(&pools, &state, &backwards, 4));
}

#[test]
fn a_term_longer_than_a_block_leaves_the_writer_untouched() {
    let mut pools = TermsHashBase::new();
    let mut w = writer(IndexOptions::DocsAndFreqsAndPositions);
    let mut state = FieldInvertState::new();
    state.position = 0;
    let huge = token(&vec![b'z'; MAX_TERM_LENGTH + 1]);
    assert!(w.accepts(&pools, &state, &huge, 0));
    let mut unused = TermsHashBase::new();
    assert_eq!(
        w.add(&mut pools, &mut unused, &mut state, &huge, 0),
        Err(Error::MaxBytesLengthExceeded)
    );
    assert_eq!(w.base.num_terms(), 0);
    assert_eq!(pools.byte_pool.buffer_count(), 0);
    assert_eq!(state.unique_term_count, 0);
    add_at(&mut w, &mut pools, &mut state, &token(b"ok"), 0, 0);
    assert_eq!(w.base.num_terms(), 1);
}

#[test]
fn finish_adds_up_the_field() {
    let mut pools = TermsHashBase::new();
    let mut w = writer(IndexOptions::DocsAndFreqsAndPositions);
    let mut state = FieldInvertState::new();
    let with_payload =
        Token { term: b"a".to_vec(), start_offset: 0, end_offset: 1, payload: Some(vec![1]) };
    add_at(&mut w, &mut pools, &mut state, &with_payload, 0, 0);
    add_at(&mut w, &mut pools, &mut state, &token(b"b"), 0, 1);
    add_at(&mut w, &mut pools, &mut state, &token(b"a"), 0, 2);
    assert!(!w.base.field_info.store_payloads);
    assert_eq!(w.finish(&state), Ok(()));
    assert_eq!(w.sum_doc_freq, 2);
    assert_eq!(w.sum_total_term_freq, 3);
    assert_eq!(w.doc_count, 1);
    assert!(w.base.field_info.store_payloads);
    let empty = FieldInvertState::new();
    assert_eq!(w.finish(&empty), Ok(()));
    assert_eq!(w.doc_count, 1);
    assert!(w.sum_doc_freq <= w.sum_total_term_freq);
}

#[test]
fn reset_forgets_the_terms() {
    let mut pools = TermsHashBase::new();
    let mut w = writer(IndexOptions::DocsAndFreqs);
    let mut state = FieldInvertState::new();
    add_at(&mut w, &mut pools, &mut state, &token(b"a"), 0, 0);
    w.reset();
    assert_eq!(w.base.num_terms(), 0);
    assert_eq!(w.base.postings_array.base.size, 0);
    let mut pools = TermsHashBase::new();
    let mut state = FieldInvertState::new();
    add_at(&mut w, &mut pools, &mut state, &token(b"b"), 0, 0);
    assert_eq!(w.base.bytes_hash.find(&pools.byte_pool, b"b"), 0);
    assert_eq!(w.base.bytes_hash.find(&pools.byte_pool, b"a"), -1);
}

fn with_vectors(positions: bool, offsets: bool) -> FreqProxTermsWriterPerField {
    let info = FieldInfo::new(String::from("title"), 1, IndexOptions::DocsAndFreqsAndPositions);
    let vectors = TermVectorsConsumerPerField::new(
        FieldInfo::new(String::from("title"), 1, IndexOptions::DocsAndFreqsAndPositions),
        true,
        positions,
        offsets,
    );
    let mut writer = FreqProxTermsWriterPerField::new(info, vectors);
    writer.init();
    writer
}

#[test]
fn the_next_consumer_sees_each_token_by_the_offset_of_its_term() {
    let mut pools = TermsHashBase::new();
    let mut next_pools = TermsHashBase::new();
    let mut w = with_vectors(true, true);
    let mut state = FieldInvertState::new();
    assert_eq!(w.start(&state, true), Ok(true));
    assert!(w.base.do_next_call());
    let words: [(&[u8], usize, usize); 4] =
        [(b"to", 0, 2), (b"be", 3, 5), (b"or", 6, 8), (b"be", 13, 15)];
    for (position, (word, start, end)) in words.iter().enumerate() {
        state.position = position as i32;
        state.length += 1;
        let token =
            Token { term: word.to_vec(), start_offset: *start, end_offset: *end, payload: None };
        assert!(w.accepts_all(&pools, &next_pools, &state, &token, 0));
        w.add(&mut pools, &mut next_pools, &mut state, &token, 0).unwrap();
    }
    let tv = &w.next_per_field;
    assert_eq!(tv.base.num_terms(), 3);
    // the ids of the next consumer are keyed by where the postings stored the terms
    for id in 0..3 {
        assert_eq!(
            tv.base.postings_array.base.text_starts[id],
            w.base.postings_array.base.text_starts[id]
        );
        assert_eq!(tv.base.bytes_hash.byte_start(id), w.base.bytes_hash.byte_start(id));
    }
    assert_eq!(tv.base.postings_array.freqs[..3], [1, 2, 1]);
    let be = tv.base.init_reader(&next_pools, 1, 0).read_to_end();
    // position 1, offsets 3..5; then position delta 2, start delta 10, length 2
    assert_eq!(be, vec![1 << 1, 3, 2, 2 << 1, 10, 2]);
    let to = tv.base.init_reader(&next_pools, 0, 0).read_to_end();
    assert_eq!(to, vec![0, 0, 2]);
    // the next consumer stores no term bytes of its own
    assert_eq!(next_pools.byte_pool.byte_upto(), 3 * 5 + 14);
    assert_eq!(w.finish(&state), Ok(()));
}

#[test]
fn the_next_consumer_stays_out_when_vectors_are_off() {
    let mut pools = TermsHashBase::new();
    let mut next_pools = TermsHashBase::new();
    let mut w = writer(IndexOptions::DocsAndFreqs);
    let mut state = FieldInvertState::new();
    assert_eq!(w.start(&state, true), Ok(true));
    assert!(!w.base.do_next_call());
    state.position = 0;
    w.add(&mut pools, &mut next_pools, &mut state, &token(b"a"), 0).unwrap();
    assert_eq!(w.next_per_field.base.num_terms(), 0);
    assert_eq!(next_pools.byte_pool.buffer_count(), 0);
}

#[test]
fn vectors_with_payloads_and_without_offsets() {
    let mut pools = TermsHashBase::new();
    let mut next_pools = TermsHashBase::new();
    let mut w = with_vectors(true, false);
    let mut state = FieldInvertState::new();
    w.start(&state, true).unwrap();
    for (position, payload) in [(2, Some(vec![7u8])), (5, None)] {
        state.position = position;
        let t = Token { term: b"x".to_vec(), start_offset: 0, end_offset: 1, payload };
        assert!(w.accepts_all(&pools, &next_pools, &state, &t, 3));
        w.add(&mut pools, &mut next_pools, &mut state, &t, 3).unwrap();
    }
    let tv = &w.next_per_field;
    assert!(tv.has_payloads);
    assert_eq!(
        tv.base.init_reader(&next_pools, 0, 0).read_to_end(),
        vec![(2 << 1) | 1, 1, 7, 3 << 1]
    );
    assert_eq!(tv.base.postings_array.last_positions[0], 5);
    // going back in position is refused by the check
    state.position = 4;
    let t = token(b"x");
    assert!(!w.accepts_all(&pools, &next_pools, &state, &t, 3));
}

/// What the streams of one term decode to: for each document its id and
/// the positions of the term in it.
fn decode_postings(
    w: &FreqProxTermsWriterPerField,
    pools: &TermsHashBase,
    term: usize,
) -> Vec<(i32, Vec<u32>)> {
    let mut docs = w.base.init_reader(pools, term, 0);
    let mut prox = w.base.init_reader(pools, term, 1);
    let mut postings = Vec::new();
    let mut doc = 0;
    let mut flushed = Vec::new();
    while !docs.eof() {
        let code = docs.read_vint().unwrap();
        doc += (code >> 1) as i32;
        let freq = if code & 1 == 1 { 1 } else { docs.read_vint().unwrap() };
        flushed.push((doc, freq));
    }
    // the last document is still pending in the columns
    let pending = w.base.postings_array.last_doc_ids[term];
    flushed.push((pending, w.base.postings_array.term_freqs[term]));
    for (doc, freq) in flushed {
        let mut positions = Vec::new();
        let mut position = 0;
        for _ in 0..freq {
            let code = prox.read_vint().unwrap();
            assert_eq!(code & 1, 0);
            position += code >> 1;
            positions.push(position);
        }
        postings.push((doc, positions));
    }
    assert!(prox.eof());
    postings
}

#[test]
fn postings_decode_to_what_was_indexed() {
    let mut pools = TermsHashBase::new();
    let mut w = writer(IndexOptions::DocsAndFreqsAndPositions);
    let words = ["a", "b", "c", "b", "a", "a", "d", "a"];
    let mut expected: Vec<Vec<(i32, Vec<u32>)>> = vec![Vec::new(); 4];
    let mut x: u32 = 99;
    for doc in [0, 1, 5, 130, 131, 70000] {
        let mut state = FieldInvertState::new();
        let mut position = 0;
        for _ in 0..40 {
            x = x.wrapping_mul(1664525).wrapping_add(1013904223);
            let word = words[(x >> 20) as usize % words.len()];
            position += (x >> 28) as i32;
            add_at(&mut w, &mut pools, &mut state, &token(word.as_bytes()), doc, position);
            let id = w.base.bytes_hash.find(&pools.byte_pool, word.as_bytes()) as usize;
            match expected[id].last_mut() {
                Some((d, positions)) if *d == doc => positions.push(position as u32),
                _ => expected[id].push((doc, vec![position as u32])),
            }
        }
    }
    for id in 0..w.base.num_terms() {
        assert_eq!(decode_postings(&w, &pools, id), expected[id]);
    }
}

#[test]
fn two_fields_share_the_arenas() {
    let mut pools = TermsHashBase::new();
    let mut unused = TermsHashBase::new();
    let mut title = writer(IndexOptions::DocsAndFreqsAndPositions);
    let mut body = writer(IndexOptions::DocsAndFreqs);
    let mut expected_title = Vec::new();
    for doc in 0..50 {
        let mut title_state = FieldInvertState::new();
        let mut body_state = FieldInvertState::new();
        for position in 0..20 {
            title_state.position = position;
            let t = token(b"shared");
            title.add(&mut pools, &mut unused, &mut title_state, &t, doc).unwrap();
            expected_title.push(if position == 0 { 0 } else { 2 });
            body_state.position = position;
            let word = format!("w{}", (doc * 31 + position) % 17);
            body.add(&mut pools, &mut unused, &mut body_state, &token(word.as_bytes()), doc)
                .unwrap();
        }
    }
    assert_eq!(title.base.num_terms(), 1);
    assert_eq!(body.base.num_terms(), 17);
    // the streams of one field are untouched by the writes of the other
    assert_eq!(stream(&title, &pools, 0, 1), expected_title);
    let docs_of_shared = stream(&title, &pools, 0, 0);
    // 49 finished documents with 20 occurrences each: code 0 or 2, then the frequency
    assert_eq!(docs_of_shared.len(), 49 * 2);
    assert_eq!(&docs_of_shared[..4], &[0, 20, 2, 20]);
    for id in 0..17 {
        let word = body.base.bytes_hash.get(&pools.byte_pool, id);
        assert_eq!(body.base.bytes_hash.find(&pools.byte_pool, &word), id as i32);
        assert!(!stream(&body, &pools, id, 0).is_empty());
    }
    // both fields see the terms of the shared arena by their own ids
    assert_eq!(title.base.bytes_hash.get(&pools.byte_pool, 0), b"shared");
}

#[test]
fn create_postings_array_follows_the_options() {
    let w = writer(IndexOptions::DocsAndFreqs);
    let array = w.create_postings_array(16);
    assert_eq!(array.base.size, 16);
    assert_eq!(array.term_freqs.len(), 16);
    assert_eq!(array.last_doc_ids.len(), 16);
    assert!(array.last_positions.is_empty());
    assert!(array.last_offsets.is_empty());
    let w = writer(IndexOptions::DocsAndFreqsAndPositionsAndOffsets);
    let array = w.create_postings_array(3);
    assert_eq!(array.last_offsets, vec![0, 0, 0]);
    assert_eq!(array.last_positions.len(), 3);
}

#[test]
fn a_full_arena_stops_the_postings_and_leaves_them_readable() {
    let mut pools = TermsHashBase::with_limits(1, 1);
    let mut unused = TermsHashBase::new();
    let mut w = writer(IndexOptions::DocsAndFreqsAndPositions);
    let mut accepted: Vec<Vec<u8>> = Vec::new();
    let mut refused = 0;
    for i in 0..20_000u32 {
        let word = format!("term-{}", i % 3000);
        let mut state = FieldInvertState::new();
        state.position = 0;
        let t = token(word.as_bytes());
        assert!(w.accepts_all(&pools, &unused, &state, &t, (i / 3000) as i32));
        match w.add(&mut pools, &mut unused, &mut state, &t, (i / 3000) as i32) {
            Ok(()) => {
                if i < 3000 {
                    accepted.push(word.into_bytes());
                }
            }
            Err(e) => {
                assert_eq!(e, Error::PoolExhausted);
                refused += 1;
            }
        }
    }
    assert!(refused > 0);
    assert_eq!(pools.byte_pool.buffer_count(), 1);
    // every term that was taken is still found, and its streams can be read
    assert!(w.base.num_terms() >= accepted.len());
    for (id, word) in accepted.iter().enumerate() {
        assert_eq!(w.base.bytes_hash.find(&pools.byte_pool, word), id as i32);
        let positions = stream(&w, &pools, id, 1);
        assert!(!positions.is_empty());
        assert!(positions.iter().all(|b| *b == 0));
    }
    // a new term that does not fit changes nothing
    let terms = w.base.num_terms();
    let upto = pools.byte_pool.byte_upto();
    let mut state = FieldInvertState::new();
    state.position = 0;
    let long_term = token(&vec![b'q'; 20_000]);
    assert_eq!(
        w.add(&mut pools, &mut unused, &mut state, &long_term, 9),
        Err(Error::PoolExhausted)
    );
    assert_eq!(w.base.num_terms(), terms);
    assert_eq!(pools.byte_pool.byte_upto(), upto);
    assert_eq!(state.unique_term_count, 0);
}

/// What a test can see of the arenas: their geometry and every byte and
/// integer of their blocks.
fn snapshot(pools: &TermsHashBase) -> (usize, usize, Vec<u8>, usize, usize, Vec<i32>) {
    let bytes = pools.byte_pool.buffer_count() * rucene::util::byte_block_pool::BYTE_BLOCK_SIZE;
    let ints = pools.int_pool.buffer_count() * rucene::util::int_block_pool::INT_BLOCK_SIZE;
    (
        pools.byte_pool.buffer_count(),
        pools.byte_pool.byte_upto(),
        (0..bytes).map(|a| pools.byte_pool.byte(a)).collect(),
        pools.int_pool.buffer_count(),
        pools.int_pool.int_upto(),
        (0..ints).map(|a| pools.int_pool.get(a)).collect(),
    )
}

#[test]
fn a_repeat_in_the_same_doc_without_frequencies_changes_nothing() {
    let mut pools = TermsHashBase::new();
    let mut w = writer(IndexOptions::Docs);
    let mut state = FieldInvertState::new();
    let t = token(b"a");
    add_at(&mut w, &mut pools, &mut state, &t, 4, 0);
    let arenas = snapshot(&pools);
    let columns = (
        w.base.postings_array.last_doc_ids.clone(),
        w.base.postings_array.last_doc_codes.clone(),
        w.base.postings_array.base.int_starts.clone(),
        w.base.postings_array.base.byte_starts.clone(),
        w.base.postings_array.base.text_starts.clone(),
    );
    let (unique, max_freq) = (state.unique_term_count, state.max_term_frequency);
    add_at(&mut w, &mut pools, &mut state, &t, 4, 1);
    assert_eq!(snapshot(&pools), arenas);
    assert_eq!(w.base.postings_array.last_doc_ids, columns.0);
    assert_eq!(w.base.postings_array.last_doc_codes, columns.1);
    assert_eq!(w.base.postings_array.base.int_starts, columns.2);
    assert_eq!(w.base.postings_array.base.byte_starts, columns.3);
    assert_eq!(w.base.postings_array.base.text_starts, columns.4);
    assert_eq!((state.unique_term_count, state.max_term_frequency), (unique, max_freq));
    assert_eq!(stream(&w, &pools, 0, 0), Vec::<u8>::new());
}

#[test]
fn a_known_term_keeps_where_it_starts() {
    let mut pools = TermsHashBase::new();
    let mut w = writer(IndexOptions::DocsAndFreqsAndPositions);
    let mut state = FieldInvertState::new();
    add_at(&mut w, &mut pools, &mut state, &token(b"a"), 0, 0);
    add_at(&mut w, &mut pools, &mut state, &token(b"bb"), 0, 1);
    let starts = |w: &FreqProxTermsWriterPerField| {
        (
            w.base.postings_array.base.text_starts[..2].to_vec(),
            w.base.postings_array.base.int_starts[..2].to_vec(),
            w.base.postings_array.base.byte_starts[..2].to_vec(),
        )
    };
    let before = starts(&w);
    assert_eq!(before.1, vec![0, 2]);
    for (doc, position) in [(0, 2), (1, 0), (1, 5), (3, 1)] {
        add_at(&mut w, &mut pools, &mut state, &token(b"a"), doc, position);
        assert_eq!(w.base.current_term(), 0);
        assert_eq!(w.base.num_terms(), 2);
        assert_eq!(starts(&w), before);
    }
    // a third term leaves the starts of the first two alone, and takes the
    // next two integers
    let upto = pools.int_pool.int_upto();
    add_at(&mut w, &mut pools, &mut state, &token(b"c"), 3, 2);
    assert_eq!(starts(&w), before);
    assert_eq!(w.base.postings_array.base.int_starts[2] as usize, upto);
    assert_eq!(pools.int_pool.int_upto(), upto + 2);
}

#[test]
fn ids_follow_the_order_of_first_appearance() {
    let mut pools = TermsHashBase::new();
    let mut w = writer(IndexOptions::Docs);
    let run: [&[u8]; 8] = [b"b", b"a", b"b", b"c", b"a", b"", b"c", b"b"];
    let results: Vec<i32> = run.iter().map(|t| w.intern(&mut pools, t).unwrap()).collect();
    assert_eq!(results, vec![0, 1, -1, 2, -2, 3, -3, -1]);
    assert_eq!(w.base.num_terms(), 4);
    for (id, term) in [b"b".as_slice(), b"a", b"c", b""].iter().enumerate() {
        assert_eq!(w.base.bytes_hash.get(&pools.byte_pool, id), term.to_vec());
    }
}

#[test]
fn reset_lowers_the_counter_of_bytes() {
    let mut pools = TermsHashBase::new();
    let mut w = writer(IndexOptions::Docs);
    let mut state = FieldInvertState::new();
    assert_eq!(w.base.bytes_used, 0);
    for (i, term) in [b"a", b"b", b"c"].iter().enumerate() {
        add_at(&mut w, &mut pools, &mut state, &token(*term), 0, i as i32);
    }
    // the columns grew from two entries to six, at twenty bytes each
    assert_eq!(w.base.postings_array.base.size, 6);
    assert_eq!(w.base.bytes_used, 4 * 20);
    w.reset();
    assert_eq!(w.base.postings_array.base.size, 0);
    assert_eq!(w.base.bytes_used, 4 * 20 - 6 * 20);
}
