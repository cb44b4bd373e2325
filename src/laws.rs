//! Laws that relate the library's operations to one another, stated over the
//! spec functions in which those operations' own contracts are written.
use vstd::prelude::*;

use crate::model::{
    digits_of, display, is_digits, lemma_digits_of, lemma_strip_normalized,
    lemma_strip_zeros, lemma_value_all_zero, lemma_value_padded, lemma_value_single, padded,
    product_digits, scaled, strip_zeros, value, zeros,
};

verus! {

/// Multiplying anything by `[0]`, on either side, gives `[0]`; multiplying
/// `[1]` by a single digit gives that digit.
pub proof fn lemma_multiply_base_cases(v: Seq<u32>, d: u32)
    requires
        d < 10,
    ensures
        product_digits(seq![0u32], v) == seq![0u32],
        product_digits(v, seq![0u32]) == seq![0u32],
        product_digits(seq![1u32], seq![d]) == seq![d],
{
    lemma_value_single(0);
    lemma_value_single(1);
    lemma_value_single(d);
    assert(digits_of(0) == seq![0u32]);
    assert(digits_of(d as nat) == seq![d]);
}

/// Multiplication is commutative: `karatsuba(a, b)` and `karatsuba(b, a)`
/// give the same digits.
pub proof fn lemma_multiply_commutative(a: Seq<u32>, b: Seq<u32>)
    requires
        is_digits(a),
        is_digits(b),
    ensures
        product_digits(a, b) == product_digits(b, a),
{
    assert(value(a) * value(b) == value(b) * value(a)) by (nonlinear_arith);
}

/// Multiplying the digits of two native integers gives the digits of their
/// native product, whenever that product fits in a `u64`.
pub proof fn lemma_multiply_matches_native(u: u64, v: u64)
    requires
        u * v <= u64::MAX,
    ensures
        product_digits(digits_of(u as nat), digits_of(v as nat)) == digits_of((u * v) as nat),
{
    lemma_digits_of(u as nat);
    lemma_digits_of(v as nat);
}

/// Normalizing twice is normalizing once, and a normalized vector has a
/// leading zero only when it is `[0]`.
pub proof fn lemma_normalize_idempotent(v: Seq<u32>)
    ensures
        strip_zeros(strip_zeros(v)) == strip_zeros(v),
        strip_zeros(v).len() >= 1,
        strip_zeros(v)[0] == 0 ==> strip_zeros(v) == seq![0u32],
{
    lemma_strip_zeros(v);
    lemma_strip_normalized(strip_zeros(v));
    if strip_zeros(v)[0] == 0 {
        assert(strip_zeros(v) =~= seq![0u32]);
    }
}

/// Subtracting `b` from `a` and adding `b` back gives `a` normalized,
/// whenever `a` denotes at least as much as `b`.
pub proof fn lemma_subtract_add_round_trip(a: Seq<u32>, b: Seq<u32>)
    requires
        is_digits(a),
        is_digits(b),
        value(a) >= value(b),
    ensures
        digits_of(value(digits_of((value(a) - value(b)) as nat)) + value(b)) == strip_zeros(a),
{
    lemma_digits_of((value(a) - value(b)) as nat);
    lemma_strip_zeros(a);
}

/// The text of `v` scaled by ten to the `k` is the text of `v` normalized
/// followed by `k` zeros, or `"0"` when `v` denotes zero. This holds of every
/// `v` without leading zeros, and of every `v` of zeros; a nonzero `v` with a
/// leading zero keeps that zero when scaled.
pub proof fn lemma_scale_display(v: Seq<u32>, k: nat)
    requires
        is_digits(v),
        value(v) == 0 || (v.len() > 0 && v[0] != 0),
    ensures
        display(scaled(v, k)) == if value(v) == 0 {
            seq!['0']
        } else {
            display(strip_zeros(v)) + Seq::new(k, |i: int| '0')
        },
{
    lemma_value_all_zero(v);
    if value(v) == 0 {
        assert(display(seq![0u32]) =~= seq!['0']);
    } else {
        lemma_strip_normalized(v);
        assert(display(v + zeros(k)) =~= display(v) + Seq::new(k, |i: int| '0'));
    }
}

/// Leading zeros put in front of either factor do not change the product.
pub proof fn lemma_multiply_padding_invariant(a: Seq<u32>, b: Seq<u32>, m: nat, k: nat)
    ensures
        product_digits(padded(a, m), padded(b, k)) == product_digits(a, b),
{
    lemma_value_padded(a, m);
    lemma_value_padded(b, k);
}

} // verus!
