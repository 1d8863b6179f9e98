//! Placement arithmetic for the chunks of one stream: how many fixed-size
//! chunks cover it and which byte range each one occupies.
//!
//! The loader owns the two numbers that describe the backing store — its
//! total length and the chosen chunk size — and computes the range that a
//! seek-and-read of any chunk must use.  The blocking read itself is an
//! external collaborator's job; it hands the bytes read to `Chunk::new` or
//! `Chunk::load`.

use vstd::arithmetic::div_mod::lemma_div_pos_is_pos;
use vstd::arithmetic::div_mod::lemma_fundamental_div_mod;
use vstd::arithmetic::div_mod::lemma_fundamental_div_mod_converse;
use vstd::arithmetic::div_mod::lemma_mod_pos_bound;
use vstd::arithmetic::mul::lemma_mul_increases;
use vstd::arithmetic::mul::lemma_mul_inequality;
use vstd::arithmetic::mul::lemma_mul_is_commutative;
use vstd::arithmetic::mul::lemma_mul_is_distributive_add_other_way;
use vstd::arithmetic::mul::lemma_mul_is_distributive_sub_other_way;
use vstd::prelude::*;

verus! {

/// Chunk placement for a stream of `total_size` bytes cut into chunks of
/// `chunk_size` bytes (the last chunk possibly shorter).
pub struct ChunkLoader {
    pub chunk_size: u64,
    pub total_size: u64,
}

impl ChunkLoader {
    /// A loader is meaningful only for a positive chunk size.
    pub open spec fn wf(&self) -> bool {
        self.chunk_size >= 1
    }

    /// Number of chunks: `total_size / chunk_size`, rounded up.
    pub open spec fn spec_chunk_count(&self) -> int {
        (self.total_size + self.chunk_size - 1) / (self.chunk_size as int)
    }

    pub fn new(chunk_size: u64, total_size: u64) -> (loader: ChunkLoader)
        requires
            chunk_size >= 1,
        ensures
            loader.wf(),
            loader.chunk_size == chunk_size,
            loader.total_size == total_size,
    {
        ChunkLoader { chunk_size, total_size }
    }

    /// How many chunks exist; valid chunk indices are `[0, chunk_count)`.
    pub fn chunk_count(&self) -> (count: u64)
        requires
            self.wf(),
        ensures
            count == self.spec_chunk_count(),
    {
        let d = self.total_size / self.chunk_size;
        let m = self.total_size % self.chunk_size;
        proof {
            lemma_ceil_div(self.total_size as int, self.chunk_size as int);
        }
        if m == 0 {
            d
        } else {
            d + 1
        }
    }

    /// The byte range of chunk `idx`: its stream offset and its length,
    /// `chunk_size` except for a shorter final chunk; `None` exactly when
    /// `idx` is out of range.
    pub fn chunk_range(&self, idx: u64) -> (r: Option<(u64, u64)>)
        requires
            self.wf(),
        ensures
            r is Some <==> idx < self.spec_chunk_count(),
            r is Some ==> {
                let (offset, length) = r.unwrap();
                &&& offset == idx * self.chunk_size
                &&& length == if self.chunk_size as int <= self.total_size - offset {
                    self.chunk_size as int
                } else {
                    self.total_size - offset
                }
                &&& 1 <= length <= self.chunk_size
                &&& offset + length <= self.total_size
            },
    {
        let count = self.chunk_count();
        if idx >= count {
            return None;
        }
        proof {
            lemma_chunk_offset_in_stream(
                self.total_size as int,
                self.chunk_size as int,
                idx as int,
            );
        }
        let offset = idx * self.chunk_size;
        let rest = self.total_size - offset;
        let length = if self.chunk_size < rest {
            self.chunk_size
        } else {
            rest
        };
        Some((offset, length))
    }
}

/// Rounding up a nonnegative division: adding `divisor - 1` before dividing
/// adds one to the quotient exactly when the division is not exact.
proof fn lemma_ceil_div(t: int, s: int)
    requires
        0 <= t,
        1 <= s,
    ensures
        t % s == 0 ==> (t + s - 1) / s == t / s,
        t % s != 0 ==> (t + s - 1) / s == t / s + 1,
        t % s != 0 ==> t / s + 1 <= t,
        0 <= t / s <= t,
{
    let q = t / s;
    let r = t % s;
    lemma_fundamental_div_mod(t, s);
    lemma_mod_pos_bound(t, s);
    lemma_div_pos_is_pos(t, s);
    if q > 0 {
        lemma_mul_increases(s, q);
        lemma_mul_is_commutative(s, q);
    }
    if r == 0 {
        assert(t + s - 1 == q * s + (s - 1)) by {
            lemma_mul_is_commutative(s, q);
        };
        lemma_fundamental_div_mod_converse(t + s - 1, s, q, s - 1);
    } else {
        assert(t + s - 1 == (q + 1) * s + (r - 1)) by {
            lemma_mul_is_commutative(s, q);
            lemma_mul_is_distributive_add_other_way(s, q, 1);
        };
        lemma_fundamental_div_mod_converse(t + s - 1, s, q + 1, r - 1);
    }
}

/// Every in-range chunk begins strictly inside the stream.
proof fn lemma_chunk_offset_in_stream(t: int, s: int, idx: int)
    requires
        0 <= t,
        1 <= s,
        0 <= idx,
        idx < (t + s - 1) / s,
    ensures
        idx * s < t,
{
    lemma_fundamental_div_mod(t, s);
    lemma_mod_pos_bound(t, s);
    lemma_ceil_div(t, s);
    if t % s == 0 {
        lemma_mul_inequality(idx, t / s - 1, s);
        lemma_mul_is_distributive_sub_other_way(s, t / s, 1);
    } else {
        lemma_mul_inequality(idx, t / s, s);
    }
}

/// The chunk count rounds the division up, and the final chunk's length is
/// the remainder of the stream: a full `chunk_size` when `total_size`
/// divides evenly, `total_size % chunk_size` bytes otherwise.
pub proof fn lemma_chunk_sizes(loader: ChunkLoader)
    requires
        loader.wf(),
    ensures
        loader.total_size as int % (loader.chunk_size as int) == 0 ==> loader.spec_chunk_count()
            == loader.total_size as int / (loader.chunk_size as int),
        loader.total_size as int % (loader.chunk_size as int) != 0 ==> loader.spec_chunk_count()
            == loader.total_size as int / (loader.chunk_size as int) + 1,
        loader.total_size >= 1 ==> loader.total_size - (loader.spec_chunk_count() - 1)
            * (loader.chunk_size as int) == if loader.total_size as int % (loader.chunk_size as int)
            == 0 {
            loader.chunk_size as int
        } else {
            loader.total_size as int % (loader.chunk_size as int)
        },
{
    let t = loader.total_size as int;
    let s = loader.chunk_size as int;
    lemma_fundamental_div_mod(t, s);
    lemma_mod_pos_bound(t, s);
    lemma_ceil_div(t, s);
    if t >= 1 {
        if t % s == 0 {
            assert(t / s >= 1) by {
                if t / s <= 0 {
                    lemma_mul_inequality(t / s, 0, s);
                }
            };
            assert((t / s - 1) * s == (t / s) * s - s) by {
                lemma_mul_is_distributive_sub_other_way(s, t / s, 1);
            };
        } else {
            assert((t / s + 1 - 1) * s == (t / s) * s);
        }
    }
}

} // verus!
