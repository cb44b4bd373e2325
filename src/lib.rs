//! Arbitrary-precision multiplication of non-negative decimal numbers with
//! the Karatsuba divide-and-conquer scheme.
//!
//! A number is a `Vec<u32>` of decimal digits, most significant first. Every
//! operation is stated over `model::value`, the natural number that a digit
//! vector denotes, and `model::digits_of`, the canonical digit vector of a
//! natural number.
use vstd::prelude::*;

pub mod arith;
pub mod convert;
pub mod engine;
pub mod laws;
pub mod model;
pub mod primitives;

pub use arith::{add_numbers, subtract_numbers};
pub use convert::{number_to_vec, vec_to_number};
pub use engine::{karatsuba, karatsuba_internal};
pub use primitives::{
    is_smaller, multiply_by_power_of_10, next_power_of_2, pad_to_length, remove_leading_zeros,
};

verus! {

} // verus!
