//! One counting-sort pass over one byte: count, lay out the buckets, scatter.
use crate::digits::{digit, Radix};
use crate::layout::{
    block_start, bucket, bucket_filled, laid_out, lemma_block_start_mono, lemma_bucket_members,
    lemma_bucket_take, lemma_lower_all, lemma_lower_step, lemma_lower_zero, lemma_scatter_done,
    lemma_scatter_room, lemma_scatter_start, lemma_scatter_step, lower, ranks_below,
};
use vstd::prelude::*;

verus! {

/// Number of buckets of a byte pass.
pub const NUM_BUCKETS: usize = 256;

/// The first bucket whose byte has its top bit set.
pub const FIRST_NEG_BUCKET: usize = 128;

/// How the buckets of a pass are put in order.
#[derive(Clone, Copy)]
pub enum BucketOrder {
    /// Ascending byte value.
    Ascending,
    /// Bytes 128..=255 (the two's-complement negatives, on the top byte) first, each group
    /// ascending.
    SignFirst,
    /// Bytes 128..=255 (the IEEE-754 negatives, on the top byte) first and in descending
    /// order, each of those buckets filled from the back; then bytes 0..=127 ascending.
    SignFirstReversed,
}

/// The position of the bucket of byte `d` in the write order.
pub open spec fn rank(order: BucketOrder, d: nat) -> nat {
    match order {
        BucketOrder::Ascending => d,
        BucketOrder::SignFirst => if d >= 128 {
            (d - 128) as nat
        } else {
            d + 128
        },
        BucketOrder::SignFirstReversed => if d >= 128 {
            (255 - d) as nat
        } else {
            d + 128
        },
    }
}

/// Whether the bucket at position `r` of the write order is filled from the back.
pub open spec fn reversed(order: BucketOrder) -> spec_fn(nat) -> bool {
    |r: nat|
        match order {
            BucketOrder::SignFirstReversed => r < 128,
            _ => false,
        }
}

/// The bucket position of each value on the pass over byte `p`.
pub open spec fn byte_rank<T: Radix>(order: BucketOrder, p: nat) -> spec_fn(T) -> nat {
    |x: T| rank(order, digit(x.bits(), p))
}

fn bucket_rank(order: BucketOrder, d: usize) -> (r: usize)
    requires
        d < 256,
    ensures
        r == rank(order, d as nat),
        r < 256,
{
    match order {
        BucketOrder::Ascending => d,
        BucketOrder::SignFirst => if d >= FIRST_NEG_BUCKET {
            d - FIRST_NEG_BUCKET
        } else {
            d + FIRST_NEG_BUCKET
        },
        BucketOrder::SignFirstReversed => if d >= FIRST_NEG_BUCKET {
            NUM_BUCKETS - 1 - d
        } else {
            d + FIRST_NEG_BUCKET
        },
    }
}

fn fills_from_back(order: BucketOrder, r: usize) -> (b: bool)
    ensures
        b == reversed(order)(r as nat),
{
    match order {
        BucketOrder::SignFirstReversed => r < FIRST_NEG_BUCKET,
        _ => false,
    }
}

/// A table of 256 zeros.
fn zero_table() -> (t: Vec<usize>)
    ensures
        t@.len() == NUM_BUCKETS,
        forall|r: int| 0 <= r < NUM_BUCKETS ==> t@[r] == 0,
{
    let mut t: Vec<usize> = Vec::new();
    let mut r: usize = 0;
    while r < NUM_BUCKETS
        invariant
            r <= NUM_BUCKETS,
            t@.len() == r,
            forall|q: int| 0 <= q < r ==> t@[q] == 0,
        decreases NUM_BUCKETS - r,
    {
        t.push(0);
        r = r + 1;
    }
    t
}

/// Counts, for each bucket position, how many elements of `src` fall in it on the pass over
/// byte `p`.
fn count_buckets<T: Radix>(src: &Vec<T>, p: usize, order: BucketOrder) -> (counts: Vec<usize>)
    requires
        p < T::width(),
    ensures
        counts@.len() == NUM_BUCKETS,
        forall|r: int|
            0 <= r < NUM_BUCKETS ==> counts@[r] == bucket(src@, byte_rank::<T>(order, p as nat), r as nat).len(),
{
    let ghost rk = byte_rank::<T>(order, p as nat);
    proof {
        T::lemma_width();
    }
    let shift = (p * 8) as u8;
    let mut counts = zero_table();
    let mut i: usize = 0;
    while i < src.len()
        invariant
            i <= src.len(),
            p < T::width() <= 16,
            shift == 8 * p,
            rk == byte_rank::<T>(order, p as nat),
            counts@.len() == NUM_BUCKETS,
            forall|r: int| 0 <= r < NUM_BUCKETS ==> counts@[r] == bucket(src@.take(i as int), rk, r as nat).len(),
        decreases src.len() - i,
    {
        let x = src[i];
        let r = bucket_rank(order, x.to_radix(shift));
        proof {
            assert forall|q: int| 0 <= q < NUM_BUCKETS implies counts@[q] == bucket(
                src@.take(i as int),
                rk,
                q as nat,
            ).len() && bucket(src@.take(i + 1), rk, q as nat).len() == bucket(
                src@.take(i as int),
                rk,
                q as nat,
            ).len() + if q == r {
                1int
            } else {
                0
            } by {
                lemma_bucket_take(src@, rk, q as nat, i as int);
            }
            lemma_bucket_members(src@.take(i as int), rk, r as nat);
        }
        counts.set(r, counts[r] + 1);
        i = i + 1;
    }
    assert(src@.take(src.len() as int) =~= src@);
    counts
}

/// Every value has a bucket position below 256 on every byte pass.
pub proof fn lemma_byte_ranks_below<T: Radix>(s: Seq<T>, order: BucketOrder, p: nat)
    ensures
        ranks_below(s, byte_rank::<T>(order, p), NUM_BUCKETS as nat),
{
}

/// Rearranges `src` into `dst` by the byte at `p`: the buckets go in the order `order` gives,
/// each keeping the input order (reversing it when filled from the back).
pub fn radix_pass<T: Radix>(src: &Vec<T>, dst: &mut Vec<T>, p: usize, order: BucketOrder)
    requires
        old(dst)@.len() == src@.len(),
        p < T::width(),
    ensures
        laid_out(
            final(dst)@,
            src@,
            byte_rank::<T>(order, p as nat),
            reversed(order),
            NUM_BUCKETS as nat,
        ),
{
    let ghost rk = byte_rank::<T>(order, p as nat);
    let ghost rev = reversed(order);
    let counts = count_buckets(src, p, order);
    proof {
        lemma_byte_ranks_below(src@, order, p as nat);
        lemma_lower_all(src@, rk, NUM_BUCKETS as nat);
    }

    // Where each bucket starts (or, when filled from the back, ends).
    proof {
        T::lemma_width();
        lemma_lower_zero(src@, rk);
    }
    let n = src.len();
    let mut offsets = zero_table();
    let mut total: usize = 0;
    let mut r: usize = 0;
    while r < NUM_BUCKETS
        invariant
            r <= NUM_BUCKETS,
            n == src@.len(),
            rk == byte_rank::<T>(order, p as nat),
            rev == reversed(order),
            lower(src@, rk, NUM_BUCKETS as nat) == src@,
            counts@.len() == NUM_BUCKETS,
            forall|q: int| 0 <= q < NUM_BUCKETS ==> counts@[q] == bucket(src@, rk, q as nat).len(),
            offsets@.len() == NUM_BUCKETS,
            total == block_start(src@, rk, r as nat),
            forall|q: int|
                0 <= q < r ==> offsets@[q] == if rev(q as nat) {
                    block_start(src@, rk, q as nat + 1)
                } else {
                    block_start(src@, rk, q as nat)
                },
        decreases NUM_BUCKETS - r,
    {
        proof {
            lemma_lower_step(src@, rk, r as nat);
            lemma_block_start_mono(src@, rk, r as nat + 1, NUM_BUCKETS as nat);
        }
        let next = total + counts[r];
        if fills_from_back(order, r) {
            offsets.set(r, next);
        } else {
            offsets.set(r, total);
        }
        total = next;
        r = r + 1;
    }

    let ghost start_dst = dst@;
    proof {
        assert forall|q: nat| q < NUM_BUCKETS implies #[trigger] bucket_filled(
            start_dst,
            src@,
            0,
            rk,
            rev,
            offsets@[q as int] as int,
            q,
        ) by {
            lemma_scatter_start(start_dst, src@, rk, rev, offsets@[q as int] as int, q);
        }
    }
    let shift = (p * 8) as u8;
    let mut i: usize = 0;
    while i < src.len()
        invariant
            i <= src.len(),
            p < T::width(),
            shift == 8 * p,
            rk == byte_rank::<T>(order, p as nat),
            rev == reversed(order),
            ranks_below(src@, rk, NUM_BUCKETS as nat),
            dst@.len() == src@.len(),
            offsets@.len() == NUM_BUCKETS,
            forall|q: nat|
                q < NUM_BUCKETS ==> #[trigger] bucket_filled(
                    dst@,
                    src@,
                    i as int,
                    rk,
                    rev,
                    offsets@[q as int] as int,
                    q,
                ),
        decreases src.len() - i,
    {
        let x = src[i];
        let b = bucket_rank(order, x.to_radix(shift));
        let ghost next = Seq::new(NUM_BUCKETS as nat, |q: int| offsets@[q] as int);
        proof {
            assert(rk(x) == b);
            assert(bucket_filled(dst@, src@, i as int, rk, rev, offsets@[b as int] as int, b as nat));
            lemma_scatter_room(dst@, src@, i as int, rk, rev, offsets@[b as int] as int);
            lemma_lower_all(src@, rk, NUM_BUCKETS as nat);
            lemma_block_start_mono(src@, rk, b as nat + 1, NUM_BUCKETS as nat);
            assert forall|q: nat| q < NUM_BUCKETS implies #[trigger] bucket_filled(
                dst@,
                src@,
                i as int,
                rk,
                rev,
                next[q as int],
                q,
            ) by {
                assert(bucket_filled(dst@, src@, i as int, rk, rev, offsets@[q as int] as int, q));
            }
        }
        let ghost d0 = dst@;
        let ghost pos = if rev(b as nat) { next[b as int] - 1 } else { next[b as int] };
        let ghost nn = next.update(b as int, if rev(b as nat) { pos } else { pos + 1 });
        proof {
            lemma_scatter_step(dst@, src@, i as int, rk, rev, NUM_BUCKETS as nat, next, pos, d0.update(pos, x), nn);
        }
        if fills_from_back(order, b) {
            offsets.set(b, offsets[b] - 1);
            dst.set(offsets[b], x);
        } else {
            dst.set(offsets[b], x);
            offsets.set(b, offsets[b] + 1);
        }
        proof {
            assert(dst@ == d0.update(pos, src@[i as int]));
            assert forall|q: nat| q < NUM_BUCKETS implies #[trigger] bucket_filled(
                dst@,
                src@,
                i + 1,
                rk,
                rev,
                offsets@[q as int] as int,
                q,
            ) by {
                assert(bucket_filled(d0.update(pos, x), src@, i + 1, rk, rev, nn[q as int], q));
                assert(nn[q as int] == offsets@[q as int] as int);
            }
        }
        i = i + 1;
    }
    proof {
        let next = Seq::new(NUM_BUCKETS as nat, |q: int| offsets@[q] as int);
        assert forall|q: nat| q < NUM_BUCKETS implies #[trigger] bucket_filled(
            dst@,
            src@,
            src@.len() as int,
            rk,
            rev,
            next[q as int],
            q,
        ) by {
            assert(bucket_filled(dst@, src@, i as int, rk, rev, offsets@[q as int] as int, q));
        }
        lemma_scatter_done(dst@, src@, rk, rev, NUM_BUCKETS as nat, next);
    }
}

} // verus!
