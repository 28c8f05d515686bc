use vstd::arithmetic::power2::{lemma2_to64, lemma_pow2_adds, pow2};
use vstd::bits::{lemma_u32_shr_is_div, lemma_u64_shr_is_div, lemma_u128_shr_is_div};
use vstd::prelude::*;

verus! {

/// Byte `p` (counting from the least significant byte) of the unsigned number `bits`.
pub open spec fn digit(bits: nat, p: nat) -> nat {
    (bits / pow2(8 * p)) % 256
}

/// A fixed-width value whose ordering is decided by its bit pattern, read one byte at a time.
pub trait Radix: Copy + Sized {
    /// Width of the type in bytes.
    spec fn width() -> nat;

    /// Whether the type is a two's-complement signed integer.
    spec fn signed() -> bool;

    /// The bit pattern of the value, read as an unsigned number.
    spec fn bits(&self) -> nat;

    proof fn lemma_width()
        ensures
            1 <= Self::width() <= 16,
    ;

    proof fn lemma_bits(x: Self)
        ensures
            x.bits() < pow2(8 * Self::width()),
    ;

    proof fn lemma_bits_injective(x: Self, y: Self)
        ensures
            x.bits() == y.bits() ==> x == y,
    ;

    fn num_bytes() -> (r: usize)
        ensures
            r == Self::width(),
    ;

    fn is_signed() -> (r: bool)
        ensures
            r == Self::signed(),
    ;

    /// The byte at bit offset `offset` of the value's bit pattern.
    fn to_radix(&self, offset: u8) -> (r: usize)
        requires
            offset % 8 == 0,
            offset < 8 * Self::width(),
        ensures
            r == digit(self.bits(), offset as nat / 8),
    ;
}

impl Radix for u32 {
    open spec fn width() -> nat {
        4
    }

    open spec fn signed() -> bool {
        false
    }

    open spec fn bits(&self) -> nat {
        *self as nat
    }

    proof fn lemma_width() {
    }

    proof fn lemma_bits(x: Self) {
        lemma2_to64();
    }

    proof fn lemma_bits_injective(x: Self, y: Self) {
    }

    fn num_bytes() -> (r: usize) {
        4
    }

    fn is_signed() -> (r: bool) {
        false
    }

    fn to_radix(&self, offset: u8) -> (r: usize) {
        let s = offset as u32;
        proof {
            lemma_u32_shr_is_div(*self, s);
        }
        ((*self >> s) % 256) as usize
    }
}

impl Radix for u64 {
    open spec fn width() -> nat {
        8
    }

    open spec fn signed() -> bool {
        false
    }

    open spec fn bits(&self) -> nat {
        *self as nat
    }

    proof fn lemma_width() {
    }

    proof fn lemma_bits(x: Self) {
        lemma2_to64();
    }

    proof fn lemma_bits_injective(x: Self, y: Self) {
    }

    fn num_bytes() -> (r: usize) {
        8
    }

    fn is_signed() -> (r: bool) {
        false
    }

    fn to_radix(&self, offset: u8) -> (r: usize) {
        let s = offset as u64;
        proof {
            lemma_u64_shr_is_div(*self, s);
        }
        ((*self >> s) % 256) as usize
    }
}

impl Radix for u128 {
    open spec fn width() -> nat {
        16
    }

    open spec fn signed() -> bool {
        false
    }

    open spec fn bits(&self) -> nat {
        *self as nat
    }

    proof fn lemma_width() {
    }

    proof fn lemma_bits(x: Self) {
        lemma2_to64();
        lemma_pow2_adds(64, 64);
    }

    proof fn lemma_bits_injective(x: Self, y: Self) {
    }

    fn num_bytes() -> (r: usize) {
        16
    }

    fn is_signed() -> (r: bool) {
        false
    }

    fn to_radix(&self, offset: u8) -> (r: usize) {
        let s = offset as u128;
        proof {
            lemma_u128_shr_is_div(*self, s);
        }
        ((*self >> s) % 256) as usize
    }
}

impl Radix for i32 {
    open spec fn width() -> nat {
        4
    }

    open spec fn signed() -> bool {
        true
    }

    open spec fn bits(&self) -> nat {
        (*self as u32) as nat
    }

    proof fn lemma_width() {
    }

    proof fn lemma_bits(x: Self) {
        lemma2_to64();
    }

    proof fn lemma_bits_injective(x: Self, y: Self) {
        assert((x as u32) == (y as u32) ==> x == y) by (bit_vector);
    }

    fn num_bytes() -> (r: usize) {
        4
    }

    fn is_signed() -> (r: bool) {
        true
    }

    fn to_radix(&self, offset: u8) -> (r: usize) {
        (*self as u32).to_radix(offset)
    }
}

impl Radix for i64 {
    open spec fn width() -> nat {
        8
    }

    open spec fn signed() -> bool {
        true
    }

    open spec fn bits(&self) -> nat {
        (*self as u64) as nat
    }

    proof fn lemma_width() {
    }

    proof fn lemma_bits(x: Self) {
        lemma2_to64();
    }

    proof fn lemma_bits_injective(x: Self, y: Self) {
        assert((x as u64) == (y as u64) ==> x == y) by (bit_vector);
    }

    fn num_bytes() -> (r: usize) {
        8
    }

    fn is_signed() -> (r: bool) {
        true
    }

    fn to_radix(&self, offset: u8) -> (r: usize) {
        (*self as u64).to_radix(offset)
    }
}

impl Radix for i128 {
    open spec fn width() -> nat {
        16
    }

    open spec fn signed() -> bool {
        true
    }

    open spec fn bits(&self) -> nat {
        (*self as u128) as nat
    }

    proof fn lemma_width() {
    }

    proof fn lemma_bits(x: Self) {
        lemma2_to64();
        lemma_pow2_adds(64, 64);
    }

    proof fn lemma_bits_injective(x: Self, y: Self) {
        assert((x as u128) == (y as u128) ==> x == y) by (bit_vector);
    }

    fn num_bytes() -> (r: usize) {
        16
    }

    fn is_signed() -> (r: bool) {
        true
    }

    fn to_radix(&self, offset: u8) -> (r: usize) {
        (*self as u128).to_radix(offset)
    }
}

/// The bit pattern of an IEEE-754 single-precision number (`f32::to_bits`).
#[derive(Clone, Copy, Debug, PartialEq, Eq)]
pub struct F32Bits(pub u32);

/// The bit pattern of an IEEE-754 double-precision number (`f64::to_bits`).
#[derive(Clone, Copy, Debug, PartialEq, Eq)]
pub struct F64Bits(pub u64);

impl Radix for F32Bits {
    open spec fn width() -> nat {
        4
    }

    open spec fn signed() -> bool {
        false
    }

    open spec fn bits(&self) -> nat {
        self.0 as nat
    }

    proof fn lemma_width() {
    }

    proof fn lemma_bits(x: Self) {
        lemma2_to64();
    }

    proof fn lemma_bits_injective(x: Self, y: Self) {
    }

    fn num_bytes() -> (r: usize) {
        4
    }

    fn is_signed() -> (r: bool) {
        false
    }

    fn to_radix(&self, offset: u8) -> (r: usize) {
        self.0.to_radix(offset)
    }
}

impl Radix for F64Bits {
    open spec fn width() -> nat {
        8
    }

    open spec fn signed() -> bool {
        false
    }

    open spec fn bits(&self) -> nat {
        self.0 as nat
    }

    proof fn lemma_width() {
    }

    proof fn lemma_bits(x: Self) {
        lemma2_to64();
    }

    proof fn lemma_bits_injective(x: Self, y: Self) {
    }

    fn num_bytes() -> (r: usize) {
        8
    }

    fn is_signed() -> (r: bool) {
        false
    }

    fn to_radix(&self, offset: u8) -> (r: usize) {
        self.0.to_radix(offset)
    }
}

} // verus!
