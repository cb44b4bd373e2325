//! Operations on digit vectors that do no arithmetic between two numbers:
//! powers of two for lengths, padding, normalization, scaling by ten, and
//! comparison.
use vstd::prelude::*;

use crate::model::{
    digits_of, is_digits, is_normalized, is_pow2, lemma_strip_zeros, lemma_value_all_zero,
    lemma_value_bound, lemma_value_concat, lemma_value_lower, lemma_value_single, padded, scaled,
    strip_zeros, value, zeros,
};
use vstd::arithmetic::power::{lemma_pow_increases, pow};

verus! {

/// Of two powers of two, a smaller one is at most half the larger.
pub proof fn lemma_pow2_gap(p: nat, q: nat)
    requires
        is_pow2(p),
        is_pow2(q),
        p < q,
    ensures
        2 * p <= q,
    decreases q,
{
    if p > 1 {
        lemma_pow2_gap(p / 2, q / 2);
    }
}

/// The smallest power of two that is at least `n` (1 when `n <= 1`).
pub fn next_power_of_2(n: usize) -> (r: usize)
    requires
        n <= usize::MAX / 2,
    ensures
        is_pow2(r as nat),
        n <= r,
        forall|q: nat| #[trigger] is_pow2(q) && n <= q ==> r <= q,
        n >= 1 ==> r < 2 * n,
{
    let mut power: usize = 1;
    while power < n
        invariant
            n <= usize::MAX / 2,
            power >= 1,
            is_pow2(power as nat),
            power == 1 || power < 2 * n,
            forall|q: nat| #[trigger] is_pow2(q) && n <= q ==> power <= q,
        decreases 2 * n - power,
    {
        proof {
            assert forall|q: nat| #[trigger] is_pow2(q) && n <= q implies power * 2 <= q by {
                lemma_pow2_gap(power as nat, q);
            }
        }
        power = power * 2;
    }
    power
}

/// `num` with zeros put in front until it is `length` long; a copy when it
/// is already that long or longer.
pub fn pad_to_length(num: &Vec<u32>, length: usize) -> (r: Vec<u32>)
    ensures
        r@ == padded(num@, length as nat),
{
    if num.len() >= length {
        let r = num.clone();
        assert(r@ =~= num@);
        return r;
    }
    let missing: usize = length - num.len();
    let mut out = vec![0u32; missing];
    out.extend_from_slice(num.as_slice());
    assert(out@ =~= zeros((length - num.len()) as nat) + num@);
    out
}

/// Drops leading zeros; an empty or all-zero vector becomes `[0]`.
pub fn remove_leading_zeros(num: Vec<u32>) -> (r: Vec<u32>)
    ensures
        r@ == strip_zeros(num@),
        is_digits(num@) ==> r@ == digits_of(value(num@)),
{
    proof {
        lemma_strip_zeros(num@);
    }
    let ghost target = strip_zeros(num@);
    let mut num = num;
    while num.len() > 1 && num[0] == 0
        invariant
            strip_zeros(num@) == target,
        decreases num.len(),
    {
        assert(num@.remove(0) =~= num@.drop_first());
        num.remove(0);
    }
    if num.is_empty() {
        vec![0u32]
    } else {
        num
    }
}

/// Appends `n` zeros to `num`, that is multiplies it by ten to the `n`,
/// except that a vector of zeros gives `[0]`.
pub fn multiply_by_power_of_10(num: &Vec<u32>, n: usize) -> (r: Vec<u32>)
    requires
        num.len() + n <= usize::MAX,
    ensures
        r@ == scaled(num@, n as nat),
        value(r@) == value(num@) * pow(10, n as nat),
{
    let mut i: usize = 0;
    while i < num.len() && num[i] == 0
        invariant
            i <= num.len(),
            forall|j: int| 0 <= j < i ==> #[trigger] num@[j] == 0,
        decreases num.len() - i,
    {
        i = i + 1;
    }
    if i == num.len() {
        proof {
            lemma_value_all_zero(num@);
            lemma_value_single(0);
        }
        return vec![0u32];
    }
    let mut result = num.clone();
    assert(result@ =~= num@);
    for k in 0..n
        invariant
            result@ == num@ + zeros(k as nat),
            num.len() + n <= usize::MAX,
    {
        result.push(0);
        assert(result@ =~= num@ + zeros((k + 1) as nat));
    }
    proof {
        lemma_value_concat(num@, zeros(n as nat));
        lemma_value_all_zero(zeros(n as nat));
    }
    result
}

/// Of two normalized digit vectors, the shorter denotes the smaller number.
proof fn lemma_shorter_smaller(a: Seq<u32>, b: Seq<u32>)
    requires
        is_digits(a),
        is_digits(b),
        is_normalized(a),
        is_normalized(b),
        a.len() < b.len(),
    ensures
        value(a) < value(b),
{
    lemma_value_bound(a);
    lemma_value_lower(b);
    lemma_pow_increases(10, a.len(), (b.len() - 1) as nat);
}

/// Of two digit vectors of one length that agree before position `i`, the
/// one with the smaller digit at `i` denotes the smaller number.
proof fn lemma_first_difference(a: Seq<u32>, b: Seq<u32>, i: int)
    requires
        is_digits(a),
        is_digits(b),
        a.len() == b.len(),
        0 <= i < a.len(),
        a.subrange(0, i) == b.subrange(0, i),
        a[i] < b[i],
    ensures
        value(a) < value(b),
{
    let len = a.len() as int;
    let a1 = a.subrange(0, i + 1);
    let b1 = b.subrange(0, i + 1);
    let ar = a.subrange(i + 1, len);
    let br = b.subrange(i + 1, len);
    assert(a =~= a1 + ar);
    assert(b =~= b1 + br);
    assert(a1.drop_last() =~= a.subrange(0, i));
    assert(b1.drop_last() =~= b.subrange(0, i));
    lemma_value_concat(a1, ar);
    lemma_value_concat(b1, br);
    assert(ar.len() == br.len());
    assert(is_digits(ar));
    lemma_value_bound(ar);
    let p = pow(10, ar.len());
    let va1 = value(a1);
    let vb1 = value(b1);
    assert(va1 + 1 <= vb1);
    assert(va1 * p + value(ar) < vb1 * p + value(br)) by (nonlinear_arith)
        requires
            va1 + 1 <= vb1,
            value(ar) < p,
    ;
}

/// Whether `a` denotes a smaller number than `b`.
pub fn is_smaller(a: &Vec<u32>, b: &Vec<u32>) -> (r: bool)
    requires
        is_digits(a@),
        is_digits(b@),
    ensures
        r == (value(a@) < value(b@)),
{
    let a_clean = remove_leading_zeros(a.clone());
    let b_clean = remove_leading_zeros(b.clone());
    proof {
        lemma_strip_zeros(a@);
        lemma_strip_zeros(b@);
    }
    if a_clean.len() < b_clean.len() {
        proof {
            lemma_shorter_smaller(a_clean@, b_clean@);
        }
        return true;
    }
    if a_clean.len() > b_clean.len() {
        proof {
            lemma_shorter_smaller(b_clean@, a_clean@);
        }
        return false;
    }
    for i in 0..a_clean.len()
        invariant
            a_clean.len() == b_clean.len(),
            is_digits(a_clean@),
            is_digits(b_clean@),
            value(a_clean@) == value(a@),
            value(b_clean@) == value(b@),
            a_clean@.subrange(0, i as int) == b_clean@.subrange(0, i as int),
    {
        if a_clean[i] < b_clean[i] {
            proof {
                lemma_first_difference(a_clean@, b_clean@, i as int);
            }
            return true;
        }
        if a_clean[i] > b_clean[i] {
            proof {
                lemma_first_difference(b_clean@, a_clean@, i as int);
            }
            return false;
        }
        assert(a_clean@.subrange(0, i + 1) =~= a_clean@.subrange(0, i as int).push(a_clean@[i as int]));
        assert(b_clean@.subrange(0, i + 1) =~= b_clean@.subrange(0, i as int).push(b_clean@[i as int]));
    }
    assert(a_clean@ =~= a_clean@.subrange(0, a_clean.len() as int));
    assert(b_clean@ =~= b_clean@.subrange(0, b_clean.len() as int));
    false
}

} // verus!
