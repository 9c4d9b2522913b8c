use rucene::error::Error;
use rucene::index::field::{FieldInfo, IndexOptions};
use rucene::index::freq_prox::FreqProxPostingsArray;
use rucene::index::terms_hash::TermsHashBase;
use rucene::index::postings_array::PostingsArray;
use rucene::index::terms_hash_per_field::{
    encode_vint, lowered, raised, to_unsigned, TermsHashPerFieldBase,
};
use rucene::util::byte_block_pool::{
    level_size, next_level, ByteBlockPool, BYTE_BLOCK_SIZE, FIRST_LEVEL_SIZE, MAX_TERM_LENGTH,
};
use rucene::util::byte_slice_reader::ByteSliceReader;
use rucene::util::int_block_pool::{IntBlockPool, INT_BLOCK_SIZE};

fn plain_writer(streams: usize) -> TermsHashPerFieldBase<FreqProxPostingsArray> {
    let info = FieldInfo::new(String::from("body"), 0, IndexOptions::DocsAndFreqsAndPositions);
    let mut writer =
        TermsHashPerFieldBase::new(streams, info, FreqProxPostingsArray::new(8, true, true, false));
    writer.init();
    writer
}

#[test]
fn level_schedule_has_ten_levels() {
    let sizes: Vec<usize> = (0..10).map(level_size).collect();
    assert_eq!(sizes, vec![5, 14, 20, 30, 40, 40, 80, 80, 120, 200]);
    let next: Vec<usize> = (0..10).map(next_level).collect();
    assert_eq!(next, vec![1, 2, 3, 4, 5, 6, 7, 8, 9, 9]);
    assert_eq!(FIRST_LEVEL_SIZE, 5);
}

#[test]
fn new_slice_marks_its_end_and_returns_its_start() {
    let mut pool = ByteBlockPool::new();
    assert_eq!(pool.buffer_count(), 0);
    let first = pool.new_slice(FIRST_LEVEL_SIZE).unwrap();
    assert_eq!(first, 0);
    assert_eq!(pool.buffer_count(), 1);
    assert_eq!(pool.byte_upto(), 5);
    assert_eq!(pool.byte(4), 16);
    for offset in 0..4 {
        assert_eq!(pool.byte(offset), 0);
    }
    let second = pool.new_slice(FIRST_LEVEL_SIZE).unwrap();
    assert_eq!(second, 5);
    assert_eq!(pool.byte(9), 16);
}

#[test]
fn new_slice_refuses_other_sizes() {
    let mut pool = ByteBlockPool::new();
    assert_eq!(pool.new_slice(14), Err(Error::IllegalArgument));
    assert_eq!(pool.buffer_count(), 0);
}

#[test]
fn new_slice_moves_to_a_new_block_when_it_does_not_fit() {
    let mut pool = ByteBlockPool::new();
    let mut last = 0;
    for _ in 0..(BYTE_BLOCK_SIZE / FIRST_LEVEL_SIZE) {
        last = pool.new_slice(FIRST_LEVEL_SIZE).unwrap();
    }
    assert_eq!(last, BYTE_BLOCK_SIZE - 8);
    assert_eq!(pool.byte_upto(), BYTE_BLOCK_SIZE - 3);
    let next = pool.new_slice(FIRST_LEVEL_SIZE).unwrap();
    assert_eq!(next, BYTE_BLOCK_SIZE);
    assert_eq!(pool.buffer_count(), 2);
    assert_eq!(pool.byte_upto(), 5);
}

#[test]
fn alloc_slice_forwards_and_keeps_the_bytes() {
    let mut pool = ByteBlockPool::new();
    let start = pool.new_slice(FIRST_LEVEL_SIZE).unwrap();
    // another tenant in between, so that the new slice is not adjacent
    let other = pool.new_slice(FIRST_LEVEL_SIZE).unwrap();
    for (i, b) in [11u8, 22, 33, 44].iter().enumerate() {
        pool.write_byte(start + i, *b);
    }
    assert_eq!(pool.byte(start + 4), 16);
    let head = pool.alloc_slice(0, start + 4).unwrap();
    // the new slice starts at the old cursor; its first three bytes are the copies
    assert_eq!(head, 10 + 3);
    assert_eq!(pool.byte(10), 22);
    assert_eq!(pool.byte(11), 33);
    assert_eq!(pool.byte(12), 44);
    // the old slice keeps its first byte and forwards to offset 10
    assert_eq!(pool.byte(start), 11);
    assert_eq!(pool.byte(start + 1), 0);
    assert_eq!(pool.byte(start + 2), 0);
    assert_eq!(pool.byte(start + 3), 0);
    assert_eq!(pool.byte(start + 4), 10);
    // the new slice has the size and the marker of level 1
    assert_eq!(pool.byte_upto(), 10 + 14);
    assert_eq!(pool.byte(10 + 13), 17);
    // the neighbour is untouched
    assert_eq!(pool.byte(other + 4), 16);
    let mut reader = ByteSliceReader::init(&pool, start, head);
    assert_eq!(reader.read_to_end(), vec![11, 22, 33, 44]);
}

#[test]
fn forwarding_offset_is_big_endian() {
    let mut pool = ByteBlockPool::new();
    // fill most of two blocks so that the next slice starts at a large offset
    for _ in 0..(2 * (BYTE_BLOCK_SIZE / FIRST_LEVEL_SIZE) - 1) {
        pool.new_slice(FIRST_LEVEL_SIZE).unwrap();
    }
    let start = pool.new_slice(FIRST_LEVEL_SIZE).unwrap();
    assert_eq!(start, 2 * BYTE_BLOCK_SIZE - 8);
    for i in 0..4 {
        pool.write_byte(start + i, 1 + i as u8);
    }
    let head = pool.alloc_slice(1, BYTE_BLOCK_SIZE - 4).unwrap();
    let new_start = 2 * BYTE_BLOCK_SIZE;
    assert_eq!(head, new_start + 3);
    assert_eq!(pool.byte(start + 1), 0);
    assert_eq!(pool.byte(start + 2), 1);
    assert_eq!(pool.byte(start + 3), 0);
    assert_eq!(pool.byte(start + 4), 0);
    let mut reader = ByteSliceReader::init(&pool, start, head);
    assert_eq!(reader.read_to_end(), vec![1, 2, 3, 4]);
}

#[test]
fn slice_overflow_keeps_all_six_bytes() {
    let mut pools = TermsHashBase::new();
    let mut writer = plain_writer(1);
    writer.add(&mut pools, 0).unwrap();
    for b in 1..=5u8 {
        writer.write_byte(&mut pools, 0, b).unwrap();
    }
    // four bytes filled the first slice; the fifth moved the stream on
    assert_eq!(pools.byte_pool.byte_upto(), 5 + 14);
    writer.write_byte(&mut pools, 0, 6).unwrap();
    let mut reader = writer.init_reader(&pools, 0, 0);
    assert!(!reader.eof());
    assert_eq!(reader.read_to_end(), vec![1, 2, 3, 4, 5, 6]);
    assert!(reader.eof());
}

#[test]
fn interleaved_streams_read_back_what_was_written() {
    let mut pools = TermsHashBase::new();
    let mut writer = plain_writer(2);
    let terms = 5;
    for t in 0..terms {
        writer.add(&mut pools, t as i32).unwrap();
    }
    let mut expected: Vec<Vec<Vec<u8>>> = vec![vec![Vec::new(), Vec::new()]; terms];
    // a fixed pseudo-random interleaving of terms and streams
    let mut x: u32 = 12345;
    for _ in 0..4000 {
        x = x.wrapping_mul(1103515245).wrapping_add(12345);
        let t = ((x >> 16) % terms as u32) as usize;
        let s = ((x >> 8) % 2) as usize;
        let b = (x >> 24) as u8;
        writer.add(&mut pools, -(t as i32 + 1)).unwrap();
        writer.write_byte(&mut pools, s, b).unwrap();
        expected[t][s].push(b);
    }
    for t in 0..terms {
        for s in 0..2 {
            let mut reader = writer.init_reader(&pools, t, s);
            assert_eq!(reader.read_to_end(), expected[t][s]);
        }
    }
}

#[test]
fn long_stream_walks_through_every_level() {
    let mut pools = TermsHashBase::new();
    let mut writer = plain_writer(1);
    writer.add(&mut pools, 0).unwrap();
    let data: Vec<u8> = (0..100_000u32).map(|i| (i % 251) as u8).collect();
    writer.write_bytes(&mut pools, 0, &data).unwrap();
    assert!(pools.byte_pool.buffer_count() > 3);
    let mut reader = writer.init_reader(&pools, 0, 0);
    let mut count = 0;
    while !reader.eof() {
        assert_eq!(reader.read_byte(), data[count]);
        count += 1;
    }
    assert_eq!(count, data.len());
}

#[test]
fn vint_is_little_endian_base_128() {
    assert_eq!(encode_vint(0), vec![0]);
    assert_eq!(encode_vint(6), vec![6]);
    assert_eq!(encode_vint(127), vec![127]);
    assert_eq!(encode_vint(128), vec![0x80, 0x01]);
    assert_eq!(encode_vint(300), vec![0xac, 0x02]);
    assert_eq!(encode_vint(16384), vec![0x80, 0x80, 0x01]);
    assert_eq!(encode_vint(u32::MAX), vec![0xff, 0xff, 0xff, 0xff, 0x0f]);
    assert_eq!(to_unsigned(-1), u32::MAX);
    assert_eq!(to_unsigned(7), 7);
    assert_eq!(to_unsigned(i32::MIN), 0x8000_0000);
}

#[test]
fn write_vint_appends_the_encoding() {
    let mut pools = TermsHashBase::new();
    let mut writer = plain_writer(1);
    writer.add(&mut pools, 0).unwrap();
    writer.write_vint(&mut pools, 0, 300).unwrap();
    writer.write_vint(&mut pools, 0, -1).unwrap();
    writer.write_vint(&mut pools, 0, 5).unwrap();
    let mut reader = writer.init_reader(&pools, 0, 0);
    assert_eq!(
        reader.read_to_end(),
        vec![0xac, 0x02, 0xff, 0xff, 0xff, 0xff, 0x0f, 5]
    );
}

#[test]
fn terms_are_stored_behind_their_length() {
    let mut pool = ByteBlockPool::new();
    let short = pool.append_term(b"abc").unwrap();
    assert_eq!(short, 0);
    assert_eq!(pool.byte(0), 3);
    assert_eq!(pool.byte(1), b'a');
    assert_eq!(pool.term_range(short), (1, 3));
    let long_term = vec![7u8; 300];
    let long = pool.append_term(&long_term).unwrap();
    assert_eq!(long, 4);
    assert_eq!(pool.byte(4), 0x80 | (300 & 0x7f) as u8);
    assert_eq!(pool.byte(5), (300 >> 7) as u8);
    assert_eq!(pool.term_range(long), (6, 300));
    assert_eq!(pool.byte_upto(), 306);
}

#[test]
fn a_term_longer_than_a_block_is_refused() {
    let mut pool = ByteBlockPool::new();
    let too_long = vec![1u8; MAX_TERM_LENGTH + 1];
    assert_eq!(pool.append_term(&too_long), Err(Error::MaxBytesLengthExceeded));
    assert_eq!(pool.buffer_count(), 0);
    let longest = vec![1u8; MAX_TERM_LENGTH];
    assert_eq!(pool.append_term(&longest), Ok(0));
}

#[test]
fn int_pool_reserves_runs_inside_one_block() {
    let mut pool = IntBlockPool::new();
    assert_eq!(pool.reserve(3), Ok(0));
    pool.set(1, 42);
    assert_eq!(pool.get(1), 42);
    assert_eq!(pool.get(2), 0);
    assert_eq!(pool.int_upto(), 3);
    assert_eq!(pool.reserve(INT_BLOCK_SIZE - 3), Ok(3));
    assert_eq!(pool.reserve(2), Ok(INT_BLOCK_SIZE));
    assert_eq!(pool.buffer_count(), 2);
    assert_eq!(pool.get(1), 42);
}

#[test]
fn read_vint_reads_what_write_vint_wrote() {
    let mut pools = TermsHashBase::new();
    let mut writer = plain_writer(1);
    writer.add(&mut pools, 0).unwrap();
    let values: [i32; 9] = [0, 1, 127, 128, 300, 16383, 16384, i32::MAX, -1];
    for v in values {
        writer.write_vint(&mut pools, 0, v).unwrap();
    }
    let mut reader = writer.init_reader(&pools, 0, 0);
    for v in values {
        assert_eq!(reader.read_vint(), Some(to_unsigned(v)));
    }
    assert!(reader.eof());
    assert_eq!(reader.read_vint(), None);
}

#[test]
fn read_vint_refuses_what_is_no_vint() {
    let mut pools = TermsHashBase::new();
    let mut writer = plain_writer(2);
    writer.add(&mut pools, 0).unwrap();
    // six continuation bytes: longer than any 32-bit number
    writer.write_bytes(&mut pools, 0, &[0x80, 0x80, 0x80, 0x80, 0x80, 0x01]).unwrap();
    let mut reader = writer.init_reader(&pools, 0, 0);
    assert_eq!(reader.read_vint(), None);
    // five bytes whose value does not fit in 32 bits
    writer.write_bytes(&mut pools, 1, &[0xff, 0xff, 0xff, 0xff, 0x1f, 9]).unwrap();
    let mut reader = writer.init_reader(&pools, 0, 1);
    assert_eq!(reader.read_vint(), None);
    assert_eq!(reader.read_vint(), Some(9));
    // the stream ends inside the number
    writer.add(&mut pools, 1).unwrap();
    writer.write_bytes(&mut pools, 0, &[0x81]).unwrap();
    let mut reader = writer.init_reader(&pools, 1, 0);
    assert_eq!(reader.read_vint(), None);
    assert!(reader.eof());
}

#[test]
fn read_stream_gives_the_bytes_of_one_stream() {
    let mut pools = TermsHashBase::new();
    let mut writer = plain_writer(2);
    writer.add(&mut pools, 0).unwrap();
    writer.add(&mut pools, 1).unwrap();
    writer.write_bytes(&mut pools, 1, b"second stream of term one").unwrap();
    writer.add(&mut pools, -1).unwrap();
    writer.write_bytes(&mut pools, 0, b"first").unwrap();
    assert_eq!(writer.read_stream(&pools, 0, 0), b"first");
    assert_eq!(writer.read_stream(&pools, 0, 1), b"");
    assert_eq!(writer.read_stream(&pools, 1, 1), b"second stream of term one");
}

#[test]
fn reset_empties_the_arenas() {
    let mut pools = TermsHashBase::new();
    pools.reset();
    assert_eq!(pools.byte_pool.buffer_count(), 0);
    let mut writer = plain_writer(1);
    writer.add(&mut pools, 0).unwrap();
    let data = vec![0xabu8; 3 * BYTE_BLOCK_SIZE];
    writer.write_bytes(&mut pools, 0, &data).unwrap();
    assert!(pools.byte_pool.buffer_count() > 3);
    pools.reset();
    assert_eq!(pools.byte_pool.buffer_count(), 1);
    assert_eq!(pools.byte_pool.byte_upto(), 0);
    assert_eq!(pools.int_pool.buffer_count(), 1);
    assert_eq!(pools.int_pool.int_upto(), 0);
    assert_eq!(pools.int_pool.get(0), 0);
    for offset in [0, 1, 4, 5, 100, BYTE_BLOCK_SIZE - 1] {
        assert_eq!(pools.byte_pool.byte(offset), 0);
    }
    // a fresh writer starts over at the beginning of the arena
    let mut writer = plain_writer(1);
    writer.add(&mut pools, 0).unwrap();
    writer.write_byte(&mut pools, 0, 7).unwrap();
    assert_eq!(writer.read_stream(&pools, 0, 0), vec![7]);
    assert_eq!(pools.byte_pool.byte(0), 7);
}

#[test]
fn a_full_arena_refuses_new_slices_and_stays_as_it_is() {
    let mut pool = ByteBlockPool::with_limit(1);
    assert_eq!(pool.max_buffers(), 1);
    for _ in 0..(BYTE_BLOCK_SIZE / FIRST_LEVEL_SIZE) {
        pool.new_slice(FIRST_LEVEL_SIZE).unwrap();
    }
    assert_eq!(pool.byte_upto(), BYTE_BLOCK_SIZE - 3);
    assert_eq!(pool.new_slice(FIRST_LEVEL_SIZE), Err(Error::PoolExhausted));
    assert_eq!(pool.next_buffer(), Err(Error::PoolExhausted));
    assert_eq!(pool.buffer_count(), 1);
    assert_eq!(pool.byte_upto(), BYTE_BLOCK_SIZE - 3);
    // a term of one byte still fits with its prefix, a longer one does not
    assert_eq!(pool.append_term(b"ab"), Err(Error::PoolExhausted));
    assert_eq!(pool.append_term(b"a"), Ok(BYTE_BLOCK_SIZE - 3));
    // the first stream can still be written to, until it needs a new slice
    for i in 0..4 {
        pool.write_byte(i, 1);
    }
    assert_eq!(pool.alloc_slice(0, 4), Err(Error::PoolExhausted));
    assert_eq!(pool.byte(4), 16);
    let mut reader = ByteSliceReader::init(&pool, 0, 4);
    assert_eq!(reader.read_to_end(), vec![1, 1, 1, 1]);
    assert_eq!(ByteBlockPool::with_limit(usize::MAX).max_buffers(), 65536);
}

#[test]
fn a_write_into_a_full_arena_keeps_what_went_in() {
    let mut pools = TermsHashBase::with_limits(1, 2);
    let mut writer = plain_writer(1);
    writer.add(&mut pools, 0).unwrap();
    let data: Vec<u8> = (0..100_000u32).map(|i| (i % 253) as u8 + 1).collect();
    assert_eq!(writer.write_bytes(&mut pools, 0, &data), Err(Error::PoolExhausted));
    assert_eq!(pools.byte_pool.buffer_count(), 2);
    let kept = writer.read_stream(&pools, 0, 0);
    assert!(kept.len() > BYTE_BLOCK_SIZE);
    assert!(kept.len() < 2 * BYTE_BLOCK_SIZE);
    assert_eq!(kept[..], data[..kept.len()]);
    // the next byte is refused too, and nothing changes
    assert_eq!(writer.write_byte(&mut pools, 0, 9), Err(Error::PoolExhausted));
    assert_eq!(writer.write_vint(&mut pools, 0, 300), Err(Error::PoolExhausted));
    assert_eq!(writer.read_stream(&pools, 0, 0), kept);
}

#[test]
fn a_full_integer_arena_refuses_new_terms() {
    let mut pools = TermsHashBase::with_limits(1, 64);
    let info = FieldInfo::new(String::from("body"), 0, IndexOptions::DocsAndFreqsAndPositions);
    let mut writer = TermsHashPerFieldBase::new(
        2,
        info,
        FreqProxPostingsArray::new(INT_BLOCK_SIZE, true, true, false),
    );
    writer.init();
    for t in 0..(INT_BLOCK_SIZE / 2) {
        writer.add(&mut pools, t as i32).unwrap();
    }
    assert_eq!(pools.int_pool.int_upto(), INT_BLOCK_SIZE);
    assert!(!writer.has_room_for_streams(&pools));
    let before = pools.byte_pool.byte_upto();
    assert_eq!(writer.add(&mut pools, (INT_BLOCK_SIZE / 2) as i32), Err(Error::PoolExhausted));
    assert_eq!(writer.num_terms(), INT_BLOCK_SIZE / 2);
    assert_eq!(pools.byte_pool.byte_upto(), before);
    assert_eq!(pools.int_pool.reserve(1), Err(Error::PoolExhausted));
    assert_eq!(pools.int_pool.next_buffer(), Err(Error::PoolExhausted));
    // the terms that have their streams can still be written to
    writer.add(&mut pools, -1).unwrap();
    writer.write_byte(&mut pools, 1, 5).unwrap();
    assert_eq!(writer.read_stream(&pools, 0, 1), vec![5]);
}

/// All integers of the arena's blocks.
fn all_ints(pool: &IntBlockPool) -> Vec<i32> {
    (0..pool.buffer_count() * INT_BLOCK_SIZE).map(|a| pool.get(a)).collect()
}

/// All bytes of the arena's blocks.
fn all_bytes(pool: &ByteBlockPool) -> Vec<u8> {
    (0..pool.buffer_count() * BYTE_BLOCK_SIZE).map(|a| pool.byte(a)).collect()
}

#[test]
fn a_new_term_takes_one_integer_for_each_stream() {
    let mut pools = TermsHashBase::new();
    let mut writer = plain_writer(2);
    writer.add(&mut pools, 0).unwrap();
    assert_eq!(pools.int_pool.buffer_count(), 1);
    assert_eq!(pools.int_pool.int_upto(), 2);
    assert_eq!((writer.int_upto_idx, writer.int_upto_start), (0, 0));
    assert_eq!(writer.postings_array.base.int_starts[0], 0);
    assert_eq!(writer.postings_array.base.byte_starts[0], 0);
    assert_eq!(pools.int_pool.get(0), 0);
    assert_eq!(pools.int_pool.get(1), FIRST_LEVEL_SIZE as i32);
    assert_eq!(pools.byte_pool.byte_upto(), 2 * FIRST_LEVEL_SIZE);

    let before = all_ints(&pools.int_pool);
    writer.add(&mut pools, 1).unwrap();
    assert_eq!(pools.int_pool.buffer_count(), 1);
    assert_eq!(pools.int_pool.int_upto(), 4);
    assert_eq!((writer.int_upto_idx, writer.int_upto_start), (0, 2));
    let after = all_ints(&pools.int_pool);
    assert_eq!(after[2], 2 * FIRST_LEVEL_SIZE as i32);
    assert_eq!(after[3], 3 * FIRST_LEVEL_SIZE as i32);
    for a in (0..before.len()).filter(|a| *a != 2 && *a != 3) {
        assert_eq!(after[a], before[a]);
    }

    // a known term moves the writer and nothing else
    let ints = all_ints(&pools.int_pool);
    let bytes = all_bytes(&pools.byte_pool);
    writer.add(&mut pools, -1).unwrap();
    assert_eq!((writer.int_upto_idx, writer.int_upto_start), (0, 0));
    assert_eq!(writer.current_term(), 0);
    assert_eq!(writer.num_terms(), 2);
    assert_eq!(all_ints(&pools.int_pool), ints);
    assert_eq!(all_bytes(&pools.byte_pool), bytes);
    assert_eq!(writer.postings_array.base.int_starts[..2], [0, 2]);
}

#[test]
fn the_integer_arena_starts_a_block_exactly_when_the_run_does_not_fit() {
    let mut pools = TermsHashBase::new();
    let info = FieldInfo::new(String::from("body"), 0, IndexOptions::DocsAndFreqsAndPositions);
    let terms = INT_BLOCK_SIZE / 3 + 1;
    let mut writer =
        TermsHashPerFieldBase::new(3, info, FreqProxPostingsArray::new(terms, true, true, false));
    writer.init();
    for t in 0..terms - 1 {
        writer.add(&mut pools, t as i32).unwrap();
        assert_eq!(pools.int_pool.buffer_count(), 1);
        assert_eq!(pools.int_pool.int_upto(), 3 * (t + 1));
    }
    // two integers are left: a run of three starts the next block
    assert_eq!(pools.int_pool.int_upto(), INT_BLOCK_SIZE - 2);
    let before = all_ints(&pools.int_pool);
    writer.add(&mut pools, (terms - 1) as i32).unwrap();
    assert_eq!(pools.int_pool.buffer_count(), 2);
    assert_eq!(pools.int_pool.int_upto(), 3);
    assert_eq!((writer.int_upto_idx, writer.int_upto_start), (1, 0));
    assert_eq!(writer.postings_array.base.int_starts[terms - 1] as usize, INT_BLOCK_SIZE);
    let after = all_ints(&pools.int_pool);
    assert_eq!(after[..INT_BLOCK_SIZE], before[..]);
    assert!(after[INT_BLOCK_SIZE + 3..].iter().all(|v| *v == 0));
    let first = writer.postings_array.base.byte_starts[terms - 1] as i32;
    assert_eq!(after[INT_BLOCK_SIZE..INT_BLOCK_SIZE + 3], [first, first + 5, first + 10]);
}

#[test]
fn a_byte_goes_under_the_write_head_and_moves_it_by_one() {
    let mut pools = TermsHashBase::new();
    let mut writer = plain_writer(2);
    writer.add(&mut pools, 0).unwrap();
    let slot = writer.postings_array.base.int_starts[0] as usize + 1;
    let head = pools.int_pool.get(slot) as usize;
    assert_eq!(head, FIRST_LEVEL_SIZE);
    let ints = all_ints(&pools.int_pool);
    let bytes = all_bytes(&pools.byte_pool);
    writer.write_byte(&mut pools, 1, 0xab).unwrap();
    assert_eq!(pools.int_pool.get(slot) as usize, head + 1);
    assert_eq!(pools.byte_pool.byte(head), 0xab);
    let ints_after = all_ints(&pools.int_pool);
    let bytes_after = all_bytes(&pools.byte_pool);
    for a in (0..ints.len()).filter(|a| *a != slot) {
        assert_eq!(ints_after[a], ints[a]);
    }
    for a in (0..bytes.len()).filter(|a| *a != head) {
        assert_eq!(bytes_after[a], bytes[a]);
    }
    assert_eq!(pools.byte_pool.byte_upto(), 2 * FIRST_LEVEL_SIZE);
}

#[test]
fn a_full_slice_forwards_to_the_next_region_of_the_arena() {
    let mut pools = TermsHashBase::new();
    let mut writer = plain_writer(2);
    writer.add(&mut pools, 0).unwrap();
    let slot = writer.postings_array.base.int_starts[0] as usize;
    let mut last_head = pools.int_pool.get(slot);
    for b in 1..=4u8 {
        writer.write_byte(&mut pools, 0, b).unwrap();
        let head = pools.int_pool.get(slot);
        assert_eq!(head, last_head + 1);
        last_head = head;
    }
    // the head stands on the marker of the first slice
    assert_eq!(last_head as usize, FIRST_LEVEL_SIZE - 1);
    let start = pools.byte_pool.start_of_next(14);
    assert_eq!(start, 2 * FIRST_LEVEL_SIZE);
    writer.write_byte(&mut pools, 0, 5).unwrap();
    let pointer = (1..5).fold(0usize, |v, a| v * 256 + pools.byte_pool.byte(a) as usize);
    assert_eq!(pointer, start);
    assert!(pointer < pools.byte_pool.buffer_count() * BYTE_BLOCK_SIZE);
    assert_eq!(pools.byte_pool.byte(start), 2);
    assert_eq!(pools.byte_pool.byte(start + 1), 3);
    assert_eq!(pools.byte_pool.byte(start + 2), 4);
    assert_eq!(pools.byte_pool.byte(start + 3), 5);
    assert_eq!(pools.int_pool.get(slot) as usize, start + 4);
    assert!(pools.int_pool.get(slot) > last_head);
    assert_eq!(pools.byte_pool.byte_upto(), 2 * FIRST_LEVEL_SIZE + 14);
    assert_eq!(writer.read_stream(&pools, 0, 0), vec![1, 2, 3, 4, 5]);
}

#[test]
fn writing_no_bytes_changes_nothing() {
    let mut pools = TermsHashBase::new();
    let mut writer = plain_writer(2);
    writer.add(&mut pools, 0).unwrap();
    for b in 0..4u8 {
        writer.write_byte(&mut pools, 0, b + 1).unwrap();
    }
    // the slice is full: a byte would open a new one, no byte does not
    let ints = all_ints(&pools.int_pool);
    let bytes = all_bytes(&pools.byte_pool);
    writer.write_bytes(&mut pools, 0, &[]).unwrap();
    assert_eq!(all_ints(&pools.int_pool), ints);
    assert_eq!(all_bytes(&pools.byte_pool), bytes);
    assert_eq!(pools.byte_pool.byte_upto(), 2 * FIRST_LEVEL_SIZE);
    let head = pools.int_pool.get(0);
    writer.write_bytes(&mut pools, 0, &[9, 9]).unwrap();
    assert!(pools.int_pool.get(0) > head);
    let head = pools.int_pool.get(0);
    writer.write_vint(&mut pools, 0, 300).unwrap();
    assert_eq!(pools.int_pool.get(0), head + 2);
}

#[test]
fn the_counter_of_bytes_follows_the_columns() {
    let info = FieldInfo::new(String::from("body"), 0, IndexOptions::DocsAndFreqsAndPositions);
    let mut writer =
        TermsHashPerFieldBase::new(2, info, FreqProxPostingsArray::new(2, true, true, false));
    writer.init();
    assert_eq!(writer.bytes_used, 0);
    // 12 bytes for the shared columns, 8 for documents and codes, 4 each
    // for frequencies and positions
    let per = writer.postings_array.bytes_per_posting() as i64;
    assert_eq!(per, 28);
    writer.reserve_term(0);
    writer.reserve_term(1);
    assert_eq!(writer.bytes_used, 0);
    writer.reserve_term(2);
    // two entries grow to three and three more
    assert_eq!(writer.postings_array.base.size, 6);
    assert_eq!(writer.bytes_used, 4 * per);
    writer.reserve_term(5);
    assert_eq!(writer.bytes_used, 4 * per);
    writer.reserve_term(6);
    assert_eq!(writer.postings_array.base.size, 10);
    assert_eq!(writer.bytes_used, 8 * per);

    assert_eq!(raised(10, 28, 3), 94);
    assert_eq!(raised(i64::MAX - 5, 28, 1), i64::MAX);
    assert_eq!(raised(-100, 12, 0), -100);
    assert_eq!(lowered(94, 28, 3), 10);
    assert_eq!(lowered(0, 28, 2), -56);
    assert_eq!(lowered(i64::MIN + 5, 28, 1), i64::MIN);
}
