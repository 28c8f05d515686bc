//! Least-significant-byte-first radix sorts of fixed-width integers and of IEEE-754 bit
//! patterns, with 256 buckets per pass, and a one-bit-per-pass sort of `u32` values.
use vstd::prelude::*;

pub mod digits;
pub mod layout;
pub mod pass;
pub mod simple;
pub mod sort;

pub use digits::{F32Bits, F64Bits, Radix};
pub use simple::radix_sort_inplace;
pub use sort::{radix_sort_float, radix_sort_int, RadixFloat, RadixInt, RadixSortFloat, RadixSortInt};

verus! {

} // verus!
