//! The byte-bucket radix sorts: one pass per byte of the type, least significant byte first,
//! the last pass putting the values with the sign bit set first.
use crate::digits::{digit, F32Bits, F64Bits, Radix};
use crate::layout::{lemma_laid_out_permutes, lemma_laid_out_sorted, lemma_sorted_unique, sorted_by};
use crate::pass::{byte_rank, radix_pass, reversed, BucketOrder};
use vstd::arithmetic::div_mod::lemma_mod_breakdown;
use vstd::arithmetic::power2::{lemma2_to64, lemma2_to64_rest, lemma_pow2_adds, lemma_pow2_pos, pow2};
use vstd::prelude::*;

verus! {

/// The value of the sign bit of `T`'s bit pattern.
pub open spec fn sign_bit<T: Radix>() -> nat {
    pow2((8 * T::width() - 1) as nat)
}

/// The number of bit patterns of `T`.
pub open spec fn modulus<T: Radix>() -> nat {
    pow2(8 * T::width())
}

/// The integer that `x` stands for: its bit pattern, read as two's complement when `T` is
/// signed.
pub open spec fn int_key<T: Radix>(x: T) -> int {
    if T::signed() && x.bits() >= sign_bit::<T>() {
        x.bits() - modulus::<T>()
    } else {
        x.bits() as int
    }
}

/// The place of the IEEE-754 bit pattern of `x` in numeric order. Patterns without the sign
/// bit keep their place; a pattern with the sign bit goes below all of them, lower the
/// larger its magnitude. So `-0.0` comes just before `+0.0`, and NaNs sit beyond the
/// infinities of their sign, ordered by pattern.
pub open spec fn float_key<T: Radix>(x: T) -> int {
    if x.bits() >= sign_bit::<T>() {
        sign_bit::<T>() - 1 - x.bits()
    } else {
        x.bits() as int
    }
}

/// `s` is in ascending integer order.
pub open spec fn int_sorted<T: Radix>(s: Seq<T>) -> bool {
    sorted_by(s, |x: T| int_key(x))
}

/// `s` is in ascending IEEE-754 order, as `float_key` gives it.
pub open spec fn float_sorted<T: Radix>(s: Seq<T>) -> bool {
    sorted_by(s, |x: T| float_key(x))
}

/// For `i32`, the integer key is the number itself.
pub proof fn lemma_int_key_i32(x: i32)
    ensures
        int_key(x) == x as int,
{
    lemma2_to64();
    assert((x as u32) >= 0x8000_0000 <==> x < 0) by (bit_vector);
    assert(x < 0 ==> (x as u32) as int == x as int + 0x1_0000_0000) by (bit_vector);
    assert(x >= 0 ==> (x as u32) as int == x as int) by (bit_vector);
}

/// For `i64`, the integer key is the number itself.
pub proof fn lemma_int_key_i64(x: i64)
    ensures
        int_key(x) == x as int,
{
    lemma2_to64();
    lemma2_to64_rest();
    assert((x as u64) >= 0x8000_0000_0000_0000 <==> x < 0) by (bit_vector);
    assert(x < 0 ==> (x as u64) as int == x as int + 0x1_0000_0000_0000_0000) by (bit_vector);
    assert(x >= 0 ==> (x as u64) as int == x as int) by (bit_vector);
}

/// For `i128`, the integer key is the number itself.
pub proof fn lemma_int_key_i128(x: i128)
    ensures
        int_key(x) == x as int,
{
    lemma2_to64();
    lemma2_to64_rest();
    lemma_pow2_adds(64, 63);
    lemma_pow2_adds(64, 64);
    assert((x as u128) >= 0x8000_0000_0000_0000_0000_0000_0000_0000 <==> x < 0) by (bit_vector);
    assert(x < 0 ==> (x as u128) as int == x as int + 0x1_0000_0000_0000_0000_0000_0000_0000_0000)
        by (bit_vector);
    assert(x >= 0 ==> (x as u128) as int == x as int) by (bit_vector);
}

/// For the unsigned types, the integer key is the number itself.
pub proof fn lemma_int_key_unsigned(a: u32, b: u64, c: u128)
    ensures
        int_key(a) == a as int,
        int_key(b) == b as int,
        int_key(c) == c as int,
{
}

/// Two values with the same integer key are the same value.
pub proof fn lemma_int_key_injective<T: Radix>(x: T, y: T)
    ensures
        int_key(x) == int_key(y) ==> x == y,
{
    T::lemma_bits_injective(x, y);
    T::lemma_bits(x);
    T::lemma_bits(y);
    lemma_top_byte(x);
    lemma_top_byte(y);
}

/// Two values with the same floating-point key are the same value.
pub proof fn lemma_float_key_injective<T: Radix>(x: T, y: T)
    ensures
        float_key(x) == float_key(y) ==> x == y,
{
    T::lemma_bits_injective(x, y);
    T::lemma_bits(x);
    T::lemma_bits(y);
    lemma_top_byte(x);
    lemma_top_byte(y);
}

/// Sorting integers that are already in order gives them back unchanged: the only
/// rearrangement of a sequence that is in integer order is the sequence itself.
pub proof fn lemma_int_sort_idempotent<T: Radix>(s: Seq<T>, out: Seq<T>)
    requires
        int_sorted(s),
        out.to_multiset() == s.to_multiset(),
        int_sorted(out),
    ensures
        out == s,
{
    let key = |x: T| int_key(x);
    assert forall|x: T, y: T| #[trigger] key(x) == #[trigger] key(y) implies x == y by {
        lemma_int_key_injective(x, y);
    }
    lemma_sorted_unique(out, s, key);
}

/// Sorting floating-point bit patterns that are already in order gives them back unchanged.
pub proof fn lemma_float_sort_idempotent<T: Radix>(s: Seq<T>, out: Seq<T>)
    requires
        float_sorted(s),
        out.to_multiset() == s.to_multiset(),
        float_sorted(out),
    ensures
        out == s,
{
    let key = |x: T| float_key(x);
    assert forall|x: T, y: T| #[trigger] key(x) == #[trigger] key(y) implies x == y by {
        lemma_float_key_injective(x, y);
    }
    lemma_sorted_unique(out, s, key);
}

/// The order given by the lowest `p` bytes of the bit pattern.
pub open spec fn low_key<T: Radix>(p: nat) -> spec_fn(T) -> int {
    |x: T| (x.bits() % pow2(8 * p)) as int
}

/// The bit pattern is byte `p` above the bytes below it.
pub proof fn lemma_digit_split(b: nat, p: nat)
    ensures
        pow2(8 * (p + 1)) == pow2(8 * p) * 256,
        digit(b, p) * pow2(8 * p) + b % pow2(8 * p) == b % pow2(8 * (p + 1)),
        0 <= b % pow2(8 * p) < pow2(8 * p),
{
    let y = pow2(8 * p);
    lemma2_to64();
    lemma_pow2_pos(8 * p);
    lemma_pow2_adds(8 * p, 8);
    assert(8 * p + 8 == 8 * (p + 1));
    assert(pow2(8 * (p + 1)) == y * 256);
    lemma_mod_breakdown(b as int, y as int, 256);
    assert(b % (y * 256) == y * ((b / y) % 256) + b % y);
    assert(y * ((b / y) % 256) == ((b / y) % 256) * y) by (nonlinear_arith);
}

/// An ordering stays when its key is replaced by one equal on every value.
proof fn lemma_sorted_same_key<T>(s: Seq<T>, k1: spec_fn(T) -> int, k2: spec_fn(T) -> int)
    requires
        sorted_by(s, k1),
        forall|x: T| #[trigger] k1(x) == k2(x),
    ensures
        sorted_by(s, k2),
{
    assert forall|i: int, j: int| 0 <= i < j < s.len() implies k2(#[trigger] s[i]) <= k2(
        #[trigger] s[j],
    ) by {
        assert(k1(s[i]) <= k1(s[j]));
    }
}

/// Before any pass, every order on no bytes holds.
proof fn lemma_low_key_zero<T: Radix>(s: Seq<T>)
    ensures
        sorted_by(s, low_key::<T>(0)),
{
    lemma2_to64();
    assert forall|i: int, j: int| 0 <= i < j < s.len() implies low_key::<T>(0)(#[trigger] s[i])
        <= low_key::<T>(0)(#[trigger] s[j]) by {
        assert(8 * 0nat == 0);
    }
}

/// A pass over byte `p` in ascending bucket order extends the order on the bytes below `p`
/// to the bytes up to `p`.
proof fn lemma_ascending_pass<T: Radix>(out: Seq<T>, src: Seq<T>, p: nat)
    requires
        crate::layout::laid_out(
            out,
            src,
            byte_rank::<T>(BucketOrder::Ascending, p),
            reversed(BucketOrder::Ascending),
            256,
        ),
        sorted_by(src, low_key::<T>(p)),
    ensures
        sorted_by(out, low_key::<T>(p + 1)),
        out.to_multiset() == src.to_multiset(),
{
    let rk = byte_rank::<T>(BucketOrder::Ascending, p);
    let rev = reversed(BucketOrder::Ascending);
    lemma_pow2_pos(8 * p);
    assert forall|x: T| 0 <= #[trigger] low_key::<T>(p)(x) < pow2(8 * p) by {
        lemma_digit_split(x.bits(), p);
    }
    assert forall|x: T| #[trigger] low_key::<T>(p + 1)(x) == rk(x) * pow2(8 * p) + (if rev(rk(x)) {
        pow2(8 * p) - 1 - low_key::<T>(p)(x)
    } else {
        low_key::<T>(p)(x)
    }) - 0 by {
        lemma_digit_split(x.bits(), p);
    }
    lemma_laid_out_sorted(out, src, rk, rev, 256, low_key::<T>(p), pow2(8 * p) as int, low_key::<T>(p + 1), 0);
    lemma_laid_out_permutes(out, src, rk, rev, 256);
}

/// The top byte of a bit pattern against the sign bit: with `m` the weight of the top byte,
/// the pattern is `d * m + low`, the sign bit is `128 * m` and there are `256 * m` patterns.
proof fn lemma_top_byte<T: Radix>(x: T)
    ensures
        ({
            let w = T::width();
            let m = pow2(8 * (w - 1) as nat);
            let d = digit(x.bits(), (w - 1) as nat);
            let low = x.bits() % m;
            &&& m > 0
            &&& d < 256
            &&& 0 <= low < m
            &&& x.bits() == d * m + low
            &&& sign_bit::<T>() == 128 * m
            &&& modulus::<T>() == 256 * m
            &&& (x.bits() >= sign_bit::<T>() <==> d >= 128)
        }),
{
    T::lemma_width();
    T::lemma_bits(x);
    let w = T::width();
    let q = (w - 1) as nat;
    let m = pow2(8 * q);
    lemma2_to64();
    lemma_pow2_pos(8 * q);
    lemma_digit_split(x.bits(), q);
    assert(q + 1 == w);
    assert(x.bits() % pow2(8 * w) == x.bits()) by {
        vstd::arithmetic::div_mod::lemma_small_mod(x.bits(), pow2(8 * w));
    }
    lemma_pow2_adds(8 * q, 7);
    assert(8 * q + 7 == (8 * w - 1) as nat);
    let d = digit(x.bits(), q);
    let low = x.bits() % m;
    assert(d >= 128 ==> d * m >= 128 * m) by (nonlinear_arith)
        requires
            m > 0,
    ;
    assert(d < 128 ==> d * m + low < 128 * m) by (nonlinear_arith)
        requires
            m > 0,
            low < m,
    ;
}

/// The last pass of the integer sort puts the values in integer order.
proof fn lemma_sign_first_pass<T: Radix>(out: Seq<T>, src: Seq<T>)
    requires
        T::signed(),
        crate::layout::laid_out(
            out,
            src,
            byte_rank::<T>(BucketOrder::SignFirst, (T::width() - 1) as nat),
            reversed(BucketOrder::SignFirst),
            256,
        ),
        sorted_by(src, low_key::<T>((T::width() - 1) as nat)),
    ensures
        int_sorted(out),
        out.to_multiset() == src.to_multiset(),
{
    let q = (T::width() - 1) as nat;
    let rk = byte_rank::<T>(BucketOrder::SignFirst, q);
    let rev = reversed(BucketOrder::SignFirst);
    let m = pow2(8 * q);
    lemma_pow2_pos(8 * q);
    assert forall|x: T| 0 <= #[trigger] low_key::<T>(q)(x) < m by {
        lemma_digit_split(x.bits(), q);
    }
    let key = |x: T| int_key(x);
    assert forall|x: T| #[trigger] key(x) == rk(x) * m + (if rev(rk(x)) {
        m - 1 - low_key::<T>(q)(x)
    } else {
        low_key::<T>(q)(x)
    }) - 128 * m by {
        lemma_top_byte(x);
        let d = digit(x.bits(), q);
        if d >= 128 {
            assert(rk(x) * m == d * m - 128 * m) by (nonlinear_arith)
                requires
                    rk(x) == d - 128,
            ;
        } else {
            assert(rk(x) * m == d * m + 128 * m) by (nonlinear_arith)
                requires
                    rk(x) == d + 128,
            ;
        }
    }
    lemma_laid_out_sorted(out, src, rk, rev, 256, low_key::<T>(q), m as int, key, (128 * m) as int);
    lemma_laid_out_permutes(out, src, rk, rev, 256);
}

/// The last pass of the floating-point sort puts the values in IEEE-754 order.
proof fn lemma_sign_first_reversed_pass<T: Radix>(out: Seq<T>, src: Seq<T>)
    requires
        crate::layout::laid_out(
            out,
            src,
            byte_rank::<T>(BucketOrder::SignFirstReversed, (T::width() - 1) as nat),
            reversed(BucketOrder::SignFirstReversed),
            256,
        ),
        sorted_by(src, low_key::<T>((T::width() - 1) as nat)),
    ensures
        float_sorted(out),
        out.to_multiset() == src.to_multiset(),
{
    let q = (T::width() - 1) as nat;
    let rk = byte_rank::<T>(BucketOrder::SignFirstReversed, q);
    let rev = reversed(BucketOrder::SignFirstReversed);
    let m = pow2(8 * q);
    lemma_pow2_pos(8 * q);
    assert forall|x: T| 0 <= #[trigger] low_key::<T>(q)(x) < m by {
        lemma_digit_split(x.bits(), q);
    }
    let key = |x: T| float_key(x);
    assert forall|x: T| #[trigger] key(x) == rk(x) * m + (if rev(rk(x)) {
        m - 1 - low_key::<T>(q)(x)
    } else {
        low_key::<T>(q)(x)
    }) - 128 * m by {
        lemma_top_byte(x);
        let d = digit(x.bits(), q);
        if d >= 128 {
            assert(rk(x) * m == 255 * m - d * m) by (nonlinear_arith)
                requires
                    rk(x) == 255 - d,
            ;
        } else {
            assert(rk(x) * m == d * m + 128 * m) by (nonlinear_arith)
                requires
                    rk(x) == d + 128,
            ;
        }
    }
    lemma_laid_out_sorted(out, src, rk, rev, 256, low_key::<T>(q), m as int, key, (128 * m) as int);
    lemma_laid_out_permutes(out, src, rk, rev, 256);
}

/// A copy of `v`.
fn copy_of<T: Radix>(v: &Vec<T>) -> (r: Vec<T>)
    ensures
        r@ == v@,
{
    let mut r: Vec<T> = Vec::new();
    let mut i: usize = 0;
    while i < v.len()
        invariant
            i <= v.len(),
            r@ == v@.take(i as int),
        decreases v.len() - i,
    {
        r.push(v[i]);
        i = i + 1;
        assert(r@ =~= v@.take(i as int));
    }
    assert(r@ =~= v@);
    r
}

/// Overwrites `dst` with the elements of `src`, which has the same length.
fn copy_into<T: Radix>(dst: &mut Vec<T>, src: &Vec<T>)
    requires
        old(dst)@.len() == src@.len(),
    ensures
        final(dst)@ == src@,
{
    let mut i: usize = 0;
    while i < src.len()
        invariant
            i <= src.len(),
            dst@.len() == src@.len(),
            forall|j: int| 0 <= j < i ==> dst@[j] == src@[j],
        decreases src.len() - i,
    {
        dst.set(i, src[i]);
        i = i + 1;
    }
    assert(dst@ =~= src@);
}

/// Sorts integers in place, ascending, by a least-significant-byte-first radix sort: one
/// counting pass per byte. For a signed type the last pass puts the negative values first.
pub fn radix_sort_int<T: Radix>(vals: &mut Vec<T>)
    ensures
        final(vals)@.to_multiset() == old(vals)@.to_multiset(),
        int_sorted(final(vals)@),
{
    let num_iters = T::num_bytes();
    let signed = T::is_signed();
    proof {
        T::lemma_width();
        lemma_low_key_zero(vals@);
    }
    let mut vals_buf = copy_of(vals);
    let mut n_iter: usize = 0;
    while n_iter < num_iters
        invariant
            num_iters == T::width(),
            signed == T::signed(),
            n_iter <= num_iters,
            vals_buf@ == vals@,
            vals@.to_multiset() == old(vals)@.to_multiset(),
            n_iter < num_iters || !signed ==> sorted_by(vals@, low_key::<T>(n_iter as nat)),
            n_iter == num_iters && signed ==> int_sorted(vals@),
        decreases num_iters - n_iter,
    {
        if signed && n_iter == num_iters - 1 {
            radix_pass(&vals_buf, vals, n_iter, BucketOrder::SignFirst);
            proof {
                lemma_sign_first_pass(vals@, vals_buf@);
            }
        } else {
            radix_pass(&vals_buf, vals, n_iter, BucketOrder::Ascending);
            proof {
                lemma_ascending_pass(vals@, vals_buf@, n_iter as nat);
            }
        }
        copy_into(&mut vals_buf, vals);
        n_iter = n_iter + 1;
    }
    proof {
        if !signed {
            assert forall|x: T| #[trigger] low_key::<T>(T::width())(x) == (|y: T| int_key(y))(x) by {
                T::lemma_bits(x);
                vstd::arithmetic::div_mod::lemma_small_mod(x.bits(), pow2(8 * T::width()));
            }
            lemma_sorted_same_key(vals@, low_key::<T>(T::width()), |y: T| int_key(y));
        }
    }
}

/// Sorts IEEE-754 bit patterns in place, ascending in the order of the values they encode, by
/// a least-significant-byte-first radix sort. The last pass puts the patterns with the sign
/// bit first, in reverse, so that larger magnitudes come earlier among the negatives.
pub fn radix_sort_float<T: Radix>(vals: &mut Vec<T>)
    ensures
        final(vals)@.to_multiset() == old(vals)@.to_multiset(),
        float_sorted(final(vals)@),
{
    let num_iters = T::num_bytes();
    proof {
        T::lemma_width();
        lemma_low_key_zero(vals@);
    }
    let mut vals_buf = copy_of(vals);
    let mut n_iter: usize = 0;
    while n_iter < num_iters
        invariant
            num_iters == T::width(),
            n_iter <= num_iters,
            vals_buf@ == vals@,
            vals@.to_multiset() == old(vals)@.to_multiset(),
            n_iter < num_iters ==> sorted_by(vals@, low_key::<T>(n_iter as nat)),
            n_iter == num_iters ==> float_sorted(vals@),
        decreases num_iters - n_iter,
    {
        if n_iter == num_iters - 1 {
            radix_pass(&vals_buf, vals, n_iter, BucketOrder::SignFirstReversed);
            proof {
                lemma_sign_first_reversed_pass(vals@, vals_buf@);
            }
        } else {
            radix_pass(&vals_buf, vals, n_iter, BucketOrder::Ascending);
            proof {
                lemma_ascending_pass(vals@, vals_buf@, n_iter as nat);
            }
        }
        copy_into(&mut vals_buf, vals);
        n_iter = n_iter + 1;
    }
}

/// The integer types, which `RadixSortInt` sorts.
pub trait RadixInt: Radix {}

impl RadixInt for u32 {}

impl RadixInt for u64 {}

impl RadixInt for u128 {}

impl RadixInt for i32 {}

impl RadixInt for i64 {}

impl RadixInt for i128 {}

/// The IEEE-754 bit-pattern types, which `RadixSortFloat` sorts.
pub trait RadixFloat: Radix {}

impl RadixFloat for F32Bits {}

impl RadixFloat for F64Bits {}

/// In-place radix sort of a vector of integers.
pub trait RadixSortInt {
    fn radix_sort(&mut self);
}

impl<I: RadixInt> RadixSortInt for Vec<I> {
    /// Sorts the vector ascending; see `radix_sort_int`.
    fn radix_sort(&mut self)
        ensures
            final(self)@.to_multiset() == old(self)@.to_multiset(),
            int_sorted(final(self)@),
    {
        radix_sort_int(self)
    }
}

/// In-place radix sort of a vector of floating-point bit patterns.
pub trait RadixSortFloat {
    fn radix_sort(&mut self);
}

impl<F: RadixFloat> RadixSortFloat for Vec<F> {
    /// Sorts the vector in ascending IEEE-754 order; see `radix_sort_float`.
    fn radix_sort(&mut self)
        ensures
            final(self)@.to_multiset() == old(self)@.to_multiset(),
            float_sorted(final(self)@),
    {
        radix_sort_float(self)
    }
}

} // verus!
