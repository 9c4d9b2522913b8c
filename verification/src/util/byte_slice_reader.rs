//! Reading a stream back from the arena, slice by slice.

use vstd::prelude::*;
use crate::util::byte_block_pool::{ByteBlockPool, chain_capacity, chain_level, chain_slice_size, level_size, next_level};

verus! {

/// The number that `bytes` starts with, read as a variable-length integer,
/// and the number of bytes that it takes; `None` when `bytes` ends before
/// the integer does.
pub open spec fn decode_vint(bytes: Seq<u8>) -> Option<(nat, nat)>
    decreases bytes.len(),
{
    if bytes.len() == 0 {
        None
    } else if bytes[0] < 128 {
        Some((bytes[0] as nat, 1nat))
    } else {
        match decode_vint(bytes.skip(1)) {
            Some((v, n)) => Some((((bytes[0] - 128) + 128 * v) as nat, n + 1)),
            None => None,
        }
    }
}

/// Reading back what was written gives the number that was written: a
/// stream that starts with the bytes of `v` decodes to `v`, and to the
/// number of those bytes.
pub proof fn lemma_vint_round_trip(v: nat, rest: Seq<u8>)
    ensures
        decode_vint(crate::index::terms_hash_per_field::vint_bytes(v) + rest) == Some(
            (v, crate::index::terms_hash_per_field::vint_bytes(v).len()),
        ),
    decreases v,
{
    let bytes = crate::index::terms_hash_per_field::vint_bytes(v);
    if v < 128 {
        assert((bytes + rest)[0] == v as u8);
    } else {
        let tail = crate::index::terms_hash_per_field::vint_bytes(v / 128);
        lemma_vint_round_trip(v / 128, rest);
        assert((bytes + rest).skip(1) =~= tail + rest);
        assert((bytes + rest)[0] == (v % 128 + 128) as u8);
    }
}

/// A cursor over the bytes of one stream of a [`ByteBlockPool`]. It follows
/// the forwarding offsets from slice to slice, so that the caller sees the
/// stream's bytes in the order in which they were written.
pub struct ByteSliceReader<'a> {
    pool: &'a ByteBlockPool,
    upto: usize,
    limit: usize,
    level: usize,
    end_index: usize,
    key: Ghost<int>,
    slice: Ghost<int>,
}

impl<'a> ByteSliceReader<'a> {
    /// The arena that is being read.
    pub closed spec fn pool(&self) -> &'a ByteBlockPool {
        self.pool
    }

    /// The stream that is being read.
    pub closed spec fn stream(&self) -> int {
        self.key@
    }

    /// Number of bytes read so far.
    pub closed spec fn position(&self) -> int {
        chain_capacity(self.slice@ as nat) + self.upto - self.pool.streams()[self.key@].slices[self.slice@]
    }

    /// The bytes still to be read.
    pub open spec fn remaining(&self) -> Seq<u8> {
        self.pool().streams()[self.stream()].data.skip(self.position())
    }

    /// The reader's invariant: it stands inside a slice of its stream, in an
    /// arena that is well-formed.
    pub closed spec fn wf(&self) -> bool {
        let c = self.pool.streams()[self.key@];
        &&& self.pool.wf()
        &&& self.pool.streams().contains_key(self.key@)
        &&& 0 <= self.slice@ < c.count()
        &&& self.end_index == c.head()
        &&& self.level == chain_level(self.slice@)
        &&& c.slices[self.slice@] <= self.upto <= self.limit
        &&& self.limit == (if self.slice@ == c.count() - 1 {
            c.head()
        } else {
            c.slices[self.slice@] + chain_slice_size(self.slice@) - 4
        })
    }

    proof fn lemma_position(&self)
        requires
            self.wf(),
        ensures
            0 <= self.position() <= self.pool.streams()[self.key@].data.len(),
            self.position() == self.pool.streams()[self.key@].data.len() <==> self.upto
                == self.end_index,
    {
        let c = self.pool.streams()[self.key@];
        let n = c.count();
        let i = self.slice@;
        self.pool.lemma_stream(self.key@);
        self.pool.lemma_stream_capacity(self.key@, i);
        if i < n - 1 {
            assert(c.slices[i] + chain_slice_size(i) <= c.slices[n - 1]);
        }
    }

    /// A reader over the stream that starts at `start_index` and whose write
    /// head is `end_index`.
    pub fn init(pool: &'a ByteBlockPool, start_index: usize, end_index: usize) -> (reader: Self)
        requires
            pool.wf(),
            pool.streams().contains_key(start_index as int),
            end_index == pool.streams()[start_index as int].head(),
        ensures
            reader.wf(),
            reader.pool() == pool,
            reader.stream() == start_index,
            reader.position() == 0,
            reader.remaining() == pool.streams()[start_index as int].data,
    {
        proof {
            pool.lemma_stream(start_index as int);
            let c = pool.streams()[start_index as int];
            if c.count() > 1 {
                assert(c.slices[0] + chain_slice_size(0) <= c.slices[c.count() - 1]);
            }
        }
        let first_size = level_size(0);
        let limit = if start_index + first_size >= end_index {
            end_index
        } else {
            start_index + first_size - 4
        };
        ByteSliceReader {
            pool,
            upto: start_index,
            limit,
            level: 0,
            end_index,
            key: Ghost(start_index as int),
            slice: Ghost(0),
        }
    }

    /// Whether every byte of the stream has been read.
    pub fn eof(&self) -> (done: bool)
        requires
            self.wf(),
        ensures
            done == (self.remaining().len() == 0),
    {
        proof {
            self.lemma_position();
        }
        self.upto == self.end_index
    }

    fn next_slice(&mut self)
        requires
            old(self).wf(),
            old(self).upto == old(self).limit,
            old(self).upto != old(self).end_index,
        ensures
            final(self).wf(),
            final(self).pool == old(self).pool,
            final(self).key == old(self).key,
            final(self).position() == old(self).position(),
            final(self).upto < final(self).limit,
    {
        let ghost c = self.pool.streams()[self.key@];
        let ghost i = self.slice@;
        proof {
            self.pool.lemma_stream(self.key@);
            self.pool.lemma_stream_forward(self.key@, i);
            assert(0 <= c.slices[i] && c.slices[i] + chain_slice_size(i) <= self.pool.cursor());
            assert(0 <= c.slices[i + 1] && c.slices[i + 1] + chain_slice_size(i + 1)
                <= self.pool.cursor());
            if i + 1 < c.count() - 1 {
                assert(c.slices[i + 1] + chain_slice_size(i + 1) <= c.slices[c.count() - 1]);
            }
        }
        let b0 = self.pool.byte(self.limit) as usize;
        let b1 = self.pool.byte(self.limit + 1) as usize;
        let b2 = self.pool.byte(self.limit + 2) as usize;
        let b3 = self.pool.byte(self.limit + 3) as usize;
        let next_index = b0 * 16777216 + b1 * 65536 + b2 * 256 + b3;
        self.level = next_level(self.level);
        let new_size = level_size(self.level);
        self.upto = next_index;
        if next_index + new_size >= self.end_index {
            self.limit = self.end_index;
        } else {
            self.limit = next_index + new_size - 4;
        }
        proof {
            self.slice@ = i + 1;
            assert(chain_capacity((i + 1) as nat) == chain_capacity(i as nat) + chain_slice_size(i)
                - 4);
        }
    }

    /// Reads the next byte of the stream.
    pub fn read_byte(&mut self) -> (b: u8)
        requires
            old(self).wf(),
            old(self).remaining().len() > 0,
        ensures
            final(self).wf(),
            final(self).pool() == old(self).pool(),
            final(self).stream() == old(self).stream(),
            final(self).position() == old(self).position() + 1,
            b == old(self).remaining()[0],
            final(self).remaining() == old(self).remaining().skip(1),
    {
        proof {
            self.lemma_position();
        }
        if self.upto == self.limit {
            self.next_slice();
        }
        proof {
            let c = self.pool.streams()[self.key@];
            self.pool.lemma_stream(self.key@);
            self.pool.lemma_stream_data(self.key@, self.slice@, self.upto - c.slices[self.slice@]);
        }
        let b = self.pool.byte(self.upto);
        self.upto += 1;
        proof {
            assert(final(self).remaining() =~= old(self).remaining().skip(1));
        }
        b
    }

    /// Reads the stream to its end.
    pub fn read_to_end(&mut self) -> (bytes: Vec<u8>)
        requires
            old(self).wf(),
        ensures
            final(self).wf(),
            final(self).pool() == old(self).pool(),
            final(self).stream() == old(self).stream(),
            bytes@ == old(self).remaining(),
            final(self).remaining().len() == 0,
    {
        let mut bytes: Vec<u8> = Vec::new();
        while !self.eof()
            invariant
                self.wf(),
                self.pool() == old(self).pool(),
                self.stream() == old(self).stream(),
                bytes@ + self.remaining() == old(self).remaining(),
            decreases self.remaining().len(),
        {
            let ghost before = self.remaining();
            let b = self.read_byte();
            bytes.push(b);
            proof {
                assert(bytes@ + self.remaining() =~= old(self).remaining());
            }
        }
        proof {
            assert(bytes@ =~= bytes@ + self.remaining());
        }
        bytes
    }

    /// Reads a variable-length integer of at most five bytes and 32 bits.
    /// Returns `None` when the stream ends inside the integer, or when the
    /// integer is longer or larger than that; the bytes that were looked at
    /// are consumed either way.
    pub fn read_vint(&mut self) -> (r: Option<u32>)
        requires
            old(self).wf(),
        ensures
            final(self).wf(),
            final(self).pool() == old(self).pool(),
            final(self).stream() == old(self).stream(),
            old(self).position() <= final(self).position() <= old(self).position() + 5,
            match decode_vint(old(self).remaining()) {
                Some((v, n)) => if n <= 5 && v <= u32::MAX {
                    &&& r == Some(v as u32)
                    &&& final(self).remaining() == old(self).remaining().skip(n as int)
                } else {
                    r is None
                },
                None => r is None,
            },
    {
        let mut acc: u64 = 0;
        let mut scale: u64 = 1;
        let mut k: usize = 0;
        let ghost start = self.remaining();
        proof {
            assert(start.skip(0) =~= start);
        }
        while k < 5
            invariant
                0 <= k <= 5,
                self.wf(),
                self.pool() == old(self).pool(),
                self.stream() == old(self).stream(),
                self.position() == old(self).position() + k,
                start == old(self).remaining(),
                self.remaining() == start.skip(k as int),
                k <= start.len(),
                scale == pow128(k as nat),
                acc < scale,
                decode_vint(start) == (match decode_vint(self.remaining()) {
                    Some((v, n)) => Some(((acc + scale * v) as nat, n + k as nat)),
                    None => None,
                }),
            decreases 5 - k,
        {
            if self.eof() {
                return None;
            }
            let ghost rem = self.remaining();
            let b = self.read_byte();
            proof {
                assert(pow128((k + 1) as nat) == 128 * pow128(k as nat));
                lemma_pow128_bound(k as nat);
                assert(rem.skip(1) =~= start.skip(k + 1));
                assert(scale * (b as u64) <= 0x8_0000_0000 * 255) by (nonlinear_arith)
                    requires
                        0 <= scale <= 0x8_0000_0000,
                        0 <= b <= 255,
                ;
            }
            if b < 128 {
                let value = acc + scale * (b as u64);
                proof {
                    assert(decode_vint(rem) == Some((b as nat, 1nat)));
                    assert(scale * (b as u64) == scale * (b as nat)) by (nonlinear_arith)
                        requires
                            scale >= 0,
                    ;
                }
                if value > 0xffff_ffff {
                    return None;
                }
                return Some(value as u32);
            }
            proof {
                let tail = decode_vint(rem.skip(1));
                assert(decode_vint(rem) == (match tail {
                    Some((v, n)) => Some((((b - 128) + 128 * v) as nat, n + 1)),
                    None => None,
                }));
                match tail {
                    Some((v, n)) => {
                        assert(acc + scale * (((b - 128) + 128 * v) as nat) == (acc + scale * (b
                            - 128)) + (scale * 128) * v) by (nonlinear_arith)
                            requires
                                b >= 128,
                                v >= 0,
                        ;
                    },
                    None => {},
                }
                assert(scale * (b - 128) <= scale * 127) by (nonlinear_arith)
                    requires
                        scale >= 0,
                        b <= 255,
                ;
            }
            acc = acc + scale * ((b - 128) as u64);
            scale = scale * 128;
            k += 1;
        }
        proof {
            match decode_vint(self.remaining()) {
                Some((v, n)) => {
                    assert(n >= 1) by {
                        lemma_decode_takes_bytes(self.remaining());
                    }
                },
                None => {},
            }
        }
        None
    }
}

/// The `k`-th power of 128.
pub open spec fn pow128(k: nat) -> nat
    decreases k,
{
    if k == 0 {
        1
    } else {
        128 * pow128((k - 1) as nat)
    }
}

proof fn lemma_pow128_bound(k: nat)
    requires
        k <= 5,
    ensures
        pow128(k) <= 0x8_0000_0000,
        pow128(k) >= 1,
{
    reveal_with_fuel(pow128, 6);
}

proof fn lemma_decode_takes_bytes(bytes: Seq<u8>)
    ensures
        decode_vint(bytes) matches Some((v, n)) ==> 1 <= n <= bytes.len(),
    decreases bytes.len(),
{
    if bytes.len() > 0 && bytes[0] >= 128 {
        lemma_decode_takes_bytes(bytes.skip(1));
    }
}

} // verus!
