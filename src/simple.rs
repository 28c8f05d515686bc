//! A minimal radix sort of `u32` values, one bit per pass, least significant bit first.
use crate::layout::{
    block_start, bucket, bucket_filled, laid_out, lemma_block_start_mono, lemma_bucket_members,
    lemma_bucket_take, lemma_laid_out_permutes, lemma_laid_out_sorted, lemma_lower_all,
    lemma_lower_step, lemma_lower_zero, lemma_scatter_done, lemma_scatter_room,
    lemma_scatter_start, lemma_scatter_step, lemma_sorted_unique, ranks_below, sorted_by,
};
use vstd::arithmetic::div_mod::{lemma_mod_breakdown, lemma_small_mod};
use vstd::arithmetic::power2::{lemma2_to64, lemma_pow2_adds, lemma_pow2_pos, pow2};
use vstd::bits::{lemma_u32_pow2_no_overflow, lemma_u32_shl_is_mul, lemma_u32_shr_is_div};
use vstd::prelude::*;

verus! {

/// Bit `k` of each value: the bucket it goes to on the pass over that bit.
pub open spec fn bit_rank(k: nat) -> spec_fn(u32) -> nat {
    |x: u32| (x as nat / pow2(k)) % 2
}

/// The order given by the lowest `k` bits.
pub open spec fn low_bits(k: nat) -> spec_fn(u32) -> int {
    |x: u32| (x as nat % pow2(k)) as int
}

/// No bucket of a bit pass is filled from the back.
pub open spec fn forward() -> spec_fn(nat) -> bool {
    |r: nat| false
}

/// `s` is in ascending order.
pub open spec fn ascending(s: Seq<u32>) -> bool {
    sorted_by(s, |x: u32| x as int)
}

/// Whether bit `bit` of `x` is set; `mask` is that bit alone.
fn bit_is_set(x: u32, bit: u32, mask: u32) -> (r: bool)
    requires
        bit < 32,
        mask == 1u32 << bit,
    ensures
        r == (bit_rank(bit as nat)(x) == 1),
{
    proof {
        lemma_u32_shr_is_div(x, bit);
        assert(((x & mask) != 0) == ((x >> bit) % 2 == 1)) by (bit_vector)
            requires
                bit < 32,
                mask == 1u32 << bit,
        ;
    }
    (x & mask) != 0
}

/// Stable partition of `src` into `dst` by bit `bit`: clear bits first, then set bits.
fn bit_pass(src: &Vec<u32>, dst: &mut Vec<u32>, bit: u32, mask: u32)
    requires
        old(dst)@.len() == src@.len(),
        bit < 32,
        mask == 1u32 << bit,
    ensures
        laid_out(final(dst)@, src@, bit_rank(bit as nat), forward(), 2),
{
    let ghost rk = bit_rank(bit as nat);
    let ghost rev = forward();
    assert(ranks_below(src@, rk, 2));
    proof {
        lemma_lower_all(src@, rk, 2);
        lemma_lower_zero(src@, rk);
    }

    let mut zeros: usize = 0;
    let mut i: usize = 0;
    while i < src.len()
        invariant
            i <= src.len(),
            bit < 32,
            mask == 1u32 << bit,
            rk == bit_rank(bit as nat),
            zeros == bucket(src@.take(i as int), rk, 0).len(),
        decreases src.len() - i,
    {
        proof {
            lemma_bucket_take(src@, rk, 0, i as int);
            lemma_bucket_members(src@.take(i as int), rk, 0);
        }
        if !bit_is_set(src[i], bit, mask) {
            zeros = zeros + 1;
        }
        i = i + 1;
    }
    proof {
        assert(src@.take(src@.len() as int) =~= src@);
        lemma_lower_step(src@, rk, 0);
        lemma_lower_step(src@, rk, 1);
        lemma_block_start_mono(src@, rk, 1, 2);
    }

    let ghost start_dst = dst@;
    let mut next_zero: usize = 0;
    let mut next_one: usize = zeros;
    proof {
        lemma_scatter_start(start_dst, src@, rk, rev, 0, 0);
        lemma_scatter_start(start_dst, src@, rk, rev, zeros as int, 1);
    }
    let mut i: usize = 0;
    while i < src.len()
        invariant
            i <= src.len(),
            bit < 32,
            mask == 1u32 << bit,
            rk == bit_rank(bit as nat),
            rev == forward(),
            ranks_below(src@, rk, 2),
            block_start(src@, rk, 2) == src@.len(),
            dst@.len() == src@.len(),
            bucket_filled(dst@, src@, i as int, rk, rev, next_zero as int, 0),
            bucket_filled(dst@, src@, i as int, rk, rev, next_one as int, 1),
        decreases src.len() - i,
    {
        let x = src[i];
        let set = bit_is_set(x, bit, mask);
        let ghost next = seq![next_zero as int, next_one as int];
        let ghost d0 = dst@;
        let ghost r0 = rk(x);
        let ghost pos = next[r0 as int];
        let ghost nn = next.update(r0 as int, pos + 1);
        proof {
            assert(bucket_filled(dst@, src@, i as int, rk, rev, next[r0 as int], r0));
            lemma_scatter_room(dst@, src@, i as int, rk, rev, next[r0 as int]);
            lemma_block_start_mono(src@, rk, r0 + 1, 2);
            assert forall|q: nat| q < 2 implies #[trigger] bucket_filled(
                dst@,
                src@,
                i as int,
                rk,
                rev,
                next[q as int],
                q,
            ) by {}
            lemma_scatter_step(dst@, src@, i as int, rk, rev, 2, next, pos, d0.update(pos, x), nn);
        }
        if set {
            dst.set(next_one, x);
            next_one = next_one + 1;
        } else {
            dst.set(next_zero, x);
            next_zero = next_zero + 1;
        }
        proof {
            assert(bucket_filled(d0.update(pos, x), src@, i + 1, rk, rev, nn[0], 0));
            assert(bucket_filled(d0.update(pos, x), src@, i + 1, rk, rev, nn[1], 1));
        }
        i = i + 1;
    }
    proof {
        let next = seq![next_zero as int, next_one as int];
        assert forall|q: nat| q < 2 implies #[trigger] bucket_filled(
            dst@,
            src@,
            src@.len() as int,
            rk,
            rev,
            next[q as int],
            q,
        ) by {}
        lemma_scatter_done(dst@, src@, rk, rev, 2, next);
    }
}

/// A pass over bit `k` extends the order on the bits below `k` to the bits up to `k`.
proof fn lemma_bit_pass(out: Seq<u32>, src: Seq<u32>, k: nat)
    requires
        laid_out(out, src, bit_rank(k), forward(), 2),
        sorted_by(src, low_bits(k)),
    ensures
        sorted_by(out, low_bits(k + 1)),
        out.to_multiset() == src.to_multiset(),
{
    let m = pow2(k);
    lemma_pow2_pos(k);
    lemma_pow2_adds(k, 1);
    lemma2_to64();
    assert forall|x: u32| 0 <= #[trigger] low_bits(k)(x) < m by {}
    assert forall|x: u32| #[trigger] low_bits(k + 1)(x) == bit_rank(k)(x) * m + (if forward()(
        bit_rank(k)(x),
    ) {
        m - 1 - low_bits(k)(x)
    } else {
        low_bits(k)(x)
    }) - 0 by {
        lemma_mod_breakdown(x as int, m as int, 2);
        assert(m * ((x as nat / m) % 2) == ((x as nat / m) % 2) * m) by (nonlinear_arith);
    }
    lemma_laid_out_sorted(out, src, bit_rank(k), forward(), 2, low_bits(k), m as int, low_bits(k + 1), 0);
    lemma_laid_out_permutes(out, src, bit_rank(k), forward(), 2);
}

/// Sorts `vals` in place, ascending, one bit per pass from the least significant, skipping
/// the bits at and above the first one whose single-bit mask exceeds `max_value`. The result
/// is a rearrangement of `vals` in every case, and ascending whenever no element exceeds
/// `max_value`.
pub fn radix_sort_inplace(max_value: u32, vals: &mut Vec<u32>)
    ensures
        final(vals)@.to_multiset() == old(vals)@.to_multiset(),
        (forall|i: int| 0 <= i < old(vals)@.len() ==> old(vals)@[i] <= max_value) ==> ascending(
            final(vals)@,
        ),
{
    let ghost bounded = forall|i: int| 0 <= i < old(vals)@.len() ==> old(vals)@[i] <= max_value;
    let mut buf: Vec<u32> = Vec::new();
    let mut i: usize = 0;
    while i < vals.len()
        invariant
            i <= vals.len(),
            buf@ == vals@.take(i as int),
        decreases vals.len() - i,
    {
        buf.push(vals[i]);
        i = i + 1;
        assert(buf@ =~= vals@.take(i as int));
    }
    assert(buf@ =~= vals@);
    proof {
        lemma2_to64();
        assert forall|a: int, b: int| 0 <= a < b < vals@.len() implies low_bits(0)(
            #[trigger] vals@[a],
        ) <= low_bits(0)(#[trigger] vals@[b]) by {}
    }

    let mut bit: u32 = 0;
    while bit < 32 && (1u32 << bit) <= max_value
        invariant
            bit <= 32,
            buf@ == vals@,
            vals@.to_multiset() == old(vals)@.to_multiset(),
            bounded ==> forall|i: int| 0 <= i < vals@.len() ==> vals@[i] <= max_value,
            sorted_by(vals@, low_bits(bit as nat)),
        decreases 32 - bit,
    {
        let mask = 1u32 << bit;
        bit_pass(&buf, vals, bit, mask);
        proof {
            lemma_bit_pass(vals@, buf@, bit as nat);
            assert forall|i: int| bounded && 0 <= i < vals@.len() implies vals@[i] <= max_value by {
                let c = vals@[i];
                assert(vals@.to_multiset().count(c) > 0) by {
                    vals@.to_multiset_ensures();
                }
                buf@.to_multiset_ensures();
                assert(buf@.contains(c));
            }
        }
        let mut j: usize = 0;
        while j < vals.len()
            invariant
                j <= vals.len(),
                buf@.len() == vals@.len(),
                forall|q: int| 0 <= q < j ==> buf@[q] == vals@[q],
            decreases vals.len() - j,
        {
            buf.set(j, vals[j]);
            j = j + 1;
        }
        assert(buf@ =~= vals@);
        bit = bit + 1;
    }
    proof {
        if bounded {
            let k = bit as nat;
            if k == 32 {
                lemma2_to64();
            } else {
                lemma_u32_pow2_no_overflow(k);
                lemma_u32_shl_is_mul(1, bit);
            }
            assert(pow2(k) > max_value);
            lemma_pow2_pos(k);
            assert forall|a: int, b: int| 0 <= a < b < vals@.len() implies (#[trigger] vals@[a]) as int
                <= (#[trigger] vals@[b]) as int by {
                lemma_small_mod(vals@[a] as nat, pow2(k));
                lemma_small_mod(vals@[b] as nat, pow2(k));
                assert(low_bits(k)(vals@[a]) <= low_bits(k)(vals@[b]));
            }
        }
    }
}

/// Sorting values that are already ascending, under a bound on them, gives them back
/// unchanged.
pub proof fn lemma_inplace_idempotent(s: Seq<u32>, out: Seq<u32>)
    requires
        ascending(s),
        out.to_multiset() == s.to_multiset(),
        ascending(out),
    ensures
        out == s,
{
    let key = |x: u32| x as int;
    assert forall|x: u32, y: u32| #[trigger] key(x) == #[trigger] key(y) implies x == y by {}
    lemma_sorted_unique(out, s, key);
}

} // verus!
