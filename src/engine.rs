//! The Karatsuba multiplication of two digit vectors.
use vstd::arithmetic::power::{lemma_pow_adds, lemma_pow_positive, pow};
use vstd::prelude::*;

use crate::arith::{add_numbers, subtract_numbers};
use crate::convert::number_to_vec;
use crate::model::{
    digits_of, is_digits, is_pow2, lemma_digits_len, lemma_digits_of, lemma_value_bound,
    lemma_value_concat, lemma_value_padded, lemma_value_single, product_digits, value,
};
use crate::primitives::{multiply_by_power_of_10, next_power_of_2, pad_to_length, remove_leading_zeros};

verus! {

/// Splitting `a + b` into halves of `h` digits: the sum of the halves is at
/// most the whole, and below it once it reaches ten to the `h`.
proof fn lemma_halves_sum(a: Seq<u32>, b: Seq<u32>)
    requires
        is_digits(a),
        is_digits(b),
        a.len() == b.len(),
        a.len() >= 1,
    ensures
        value(a + b) == value(a) * pow(10, b.len()) + value(b),
        value(a) + value(b) <= value(a + b),
        value(a) + value(b) >= pow(10, b.len()) ==> value(a) + value(b) < value(a + b),
{
    lemma_value_concat(a, b);
    lemma_value_bound(b);
    lemma_pow_positive(10, b.len());
    let p = pow(10, b.len());
    assert(p >= 10) by {
        reveal(pow);
        lemma_pow_positive(10, (b.len() - 1) as nat);
    }
    let va = value(a);
    let vb = value(b);
    assert(va + vb <= va * p + vb) by (nonlinear_arith)
        requires
            p >= 10,
    ;
    if va + vb >= p {
        assert(va + vb < va * p + vb) by (nonlinear_arith)
            requires
                p >= 10,
                vb < p,
                va + vb >= p,
        ;
    }
}

/// The Karatsuba identity and bounds: with `x = a * p + b`, `y = c * p + d`
/// and halves below `p`, the cross term `(a + b)(c + d) - ac - bd` is
/// `ad + bc`, and `x * y = ac * p * p + cross * p + bd`.
proof fn lemma_karatsuba_identity(a: int, b: int, c: int, d: int, p: int)
    requires
        0 <= a < p,
        0 <= b < p,
        0 <= c < p,
        0 <= d < p,
    ensures
        (a + b) * (c + d) - a * c - b * d == a * d + b * c,
        (a * p + b) * (c * p + d) == a * c * (p * p) + (a * d + b * c) * p + b * d,
        0 <= a * c < p * p,
        0 <= b * d < p * p,
        0 <= a * d + b * c < 2 * (p * p),
{
    assert((a + b) * (c + d) == a * c + a * d + b * c + b * d) by (nonlinear_arith);
    assert((a * p + b) * (c * p + d) == (a * p) * (c * p) + (a * p) * d + b * (c * p) + b * d)
        by (nonlinear_arith);
    assert((a * p) * (c * p) == a * c * (p * p)) by (nonlinear_arith);
    assert((a * p) * d + b * (c * p) == (a * d + b * c) * p) by (nonlinear_arith);
    assert(0 <= a * c < p * p) by (nonlinear_arith)
        requires
            0 <= a < p,
            0 <= c < p,
    ;
    assert(0 <= b * d < p * p) by (nonlinear_arith)
        requires
            0 <= b < p,
            0 <= d < p,
    ;
    assert(0 <= a * d < p * p) by (nonlinear_arith)
        requires
            0 <= a < p,
            0 <= d < p,
    ;
    assert(0 <= b * c < p * p) by (nonlinear_arith)
        requires
            0 <= b < p,
            0 <= c < p,
    ;
}

/// When the sum of the halves of `x` or of `y` has more than `h` digits,
/// the two sums together are below `x + y`: the recursion on them, at the
/// length of `x`, still makes progress.
proof fn lemma_sums_shrink(a: Seq<u32>, b: Seq<u32>, c: Seq<u32>, d: Seq<u32>)
    requires
        is_digits(a),
        is_digits(b),
        is_digits(c),
        is_digits(d),
        a.len() == b.len(),
        c.len() == b.len(),
        d.len() == b.len(),
        b.len() >= 1,
        digits_of(value(a) + value(b)).len() > b.len() || digits_of(value(c) + value(d)).len()
            > b.len(),
    ensures
        value(a) + value(b) + value(c) + value(d) < value(a + b) + value(c + d),
{
    lemma_halves_sum(a, b);
    lemma_halves_sum(c, d);
    lemma_pow_positive(10, b.len());
    if value(a) + value(b) < pow(10, b.len()) {
        lemma_digits_len((value(a) + value(b)) as nat, b.len());
    }
    if value(c) + value(d) < pow(10, b.len()) {
        lemma_digits_len((value(c) + value(d)) as nat, b.len());
    }
}

/// Multiplies two digit vectors of one length, a power of two, by splitting
/// each in halves and recursing three times.
#[verifier::rlimit(60)]
pub fn karatsuba_internal(x: &Vec<u32>, y: &Vec<u32>) -> (r: Vec<u32>)
    requires
        x.len() == y.len(),
        is_pow2(x.len() as nat),
        x.len() <= usize::MAX / 4,
        is_digits(x@),
        is_digits(y@),
    ensures
        r@ == product_digits(x@, y@),
    decreases x.len(), value(x@) + value(y@),
{
    let n = x.len();
    if n == 1 {
        assert(x[0] < 10 && y[0] < 10);
        assert(x[0] * y[0] < 100) by (nonlinear_arith)
            requires
                x[0] < 10,
                y[0] < 10,
        ;
        let product = x[0] * y[0];
        proof {
            assert(x@ =~= seq![x[0]]);
            assert(y@ =~= seq![y[0]]);
            lemma_value_single(x[0]);
            lemma_value_single(y[0]);
        }
        return number_to_vec(product as u64);
    }
    let half = n / 2;
    let mut a = x.clone();
    assert(a@ =~= x@);
    let b = a.split_off(half);
    let mut c = y.clone();
    assert(c@ =~= y@);
    let d = c.split_off(half);
    let ghost va = value(a@);
    let ghost vb = value(b@);
    let ghost vc = value(c@);
    let ghost vd = value(d@);
    let ghost ph = pow(10, half as nat);
    proof {
        assert(x@ =~= a@ + b@);
        assert(y@ =~= c@ + d@);
        assert(is_digits(a@) && is_digits(b@) && is_digits(c@) && is_digits(d@));
        lemma_halves_sum(a@, b@);
        lemma_halves_sum(c@, d@);
        lemma_value_bound(a@);
        lemma_value_bound(b@);
        lemma_value_bound(c@);
        lemma_value_bound(d@);
        assert(pow(10, (half + 1) as nat) == 10 * ph) by {
            reveal(pow);
        }
        lemma_digits_len(va + vb, (half + 1) as nat);
        lemma_digits_len(vc + vd, (half + 1) as nat);
        lemma_digits_of(va + vb);
        lemma_digits_of(vc + vd);
    }

    let p = add_numbers(&a, &b);
    let q = add_numbers(&c, &d);

    let max_pq_len = if p.len() >= q.len() {
        p.len()
    } else {
        q.len()
    };
    let pq_len = next_power_of_2(max_pq_len);
    let p_padded = pad_to_length(&p, pq_len);
    let q_padded = pad_to_length(&q, pq_len);
    proof {
        assert(pq_len <= n);
        lemma_value_padded(p@, pq_len as nat);
        lemma_value_padded(q@, pq_len as nat);
        if pq_len == n {
            // The pair keeps its length only when a sum of halves carried.
            if max_pq_len <= half {
                assert(is_pow2(half as nat));
            }
            lemma_sums_shrink(a@, b@, c@, d@);
        }
    }

    let ac = karatsuba_internal(&a, &c);
    let bd = karatsuba_internal(&b, &d);
    let pq = karatsuba_internal(&p_padded, &q_padded);

    let ghost vac = va * vc;
    let ghost vbd = vb * vd;
    let ghost cross = va * vd + vb * vc;
    let ghost pn = pow(10, n as nat);
    proof {
        lemma_pow_adds(10, half as nat, half as nat);
        lemma_karatsuba_identity(va as int, vb as int, vc as int, vd as int, ph);
        lemma_digits_of(vac as nat);
        lemma_digits_of(vbd as nat);
        lemma_digits_of(((va + vb) * (vc + vd)) as nat);
        lemma_digits_len(vac as nat, n as nat);
        lemma_digits_len(vbd as nat, n as nat);
        assert(pow(10, (n + 1) as nat) == 10 * pn) by {
            reveal(pow);
        }
        lemma_digits_len(cross as nat, (n + 1) as nat);
        lemma_digits_of((vac + vbd) as nat);
        lemma_digits_of(cross as nat);
    }

    // (a + b)(c + d) is at least ac + bd, so this difference is never clamped.
    let temp = add_numbers(&ac, &bd);
    let adbc = subtract_numbers(&pq, &temp);

    let term1 = multiply_by_power_of_10(&ac, n);
    let term2 = multiply_by_power_of_10(&adbc, half);
    proof {
        assert(is_digits(term1@));
        assert(is_digits(term2@));
        lemma_value_bound(x@);
        lemma_value_bound(y@);
        lemma_pow_positive(10, half as nat);
        lemma_pow_positive(10, n as nat);
        let vx = value(x@);
        let vy = value(y@);
        assert(vx * vy < pn * pn) by (nonlinear_arith)
            requires
                0 <= vx < pn,
                0 <= vy < pn,
        ;
        assert(0 <= vac * pn && 0 <= cross * ph) by (nonlinear_arith)
            requires
                0 <= vac,
                0 <= cross,
                0 <= pn,
                0 <= ph,
        ;
        lemma_pow_adds(10, n as nat, n as nat);
        lemma_digits_len((vac * pn + cross * ph) as nat, (n + n) as nat);
        lemma_digits_of((vac * pn + cross * ph) as nat);
    }
    let partial = add_numbers(&term1, &term2);
    let result = add_numbers(&partial, &bd);
    proof {
        lemma_digits_of(value(x@) * value(y@));
    }
    remove_leading_zeros(result)
}

/// The product of two digit vectors of any lengths, in canonical form: both
/// are padded to one power-of-two length, then multiplied by Karatsuba's
/// scheme.
pub fn karatsuba(x: &Vec<u32>, y: &Vec<u32>) -> (r: Vec<u32>)
    requires
        is_digits(x@),
        is_digits(y@),
        x.len() <= usize::MAX / 8,
        y.len() <= usize::MAX / 8,
    ensures
        r@ == product_digits(x@, y@),
{
    let max_len = if x.len() >= y.len() {
        x.len()
    } else {
        y.len()
    };
    let n = next_power_of_2(max_len);

    let x_padded = pad_to_length(x, n);
    let y_padded = pad_to_length(y, n);
    proof {
        assert(is_pow2(1));
        lemma_value_padded(x@, n as nat);
        lemma_value_padded(y@, n as nat);
    }
    karatsuba_internal(&x_padded, &y_padded)
}

} // verus!
