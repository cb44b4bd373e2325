//! Conversions between native integers, digit vectors and text.
use vstd::arithmetic::power::{lemma_pow0, pow};
use vstd::prelude::*;

use crate::model::{
    digit_char, digits_of, display, is_digits, lemma_canonical, lemma_value_concat,
    lemma_value_single, value,
};

verus! {

/// The canonical digits of `num`; `0` gives `[0]`.
pub fn number_to_vec(num: u64) -> (r: Vec<u32>)
    ensures
        r@ == digits_of(num as nat),
{
    if num == 0 {
        return vec![0u32];
    }
    let mut digits: Vec<u32> = Vec::new();
    let mut rest: u64 = num;
    proof {
        lemma_pow0(10);
    }
    while rest > 0
        invariant
            is_digits(digits@),
            num as nat == rest as nat * pow(10, digits@.len()) + value(digits@),
            rest == 0 ==> digits@.len() > 0 && digits@[0] != 0,
        decreases rest,
    {
        let d = (rest % 10) as u32;
        let ghost prev = digits@;
        digits.insert(0, d);
        proof {
            assert(digits@ =~= seq![d] + prev);
            lemma_value_concat(seq![d], prev);
            lemma_value_single(d);
            let p = pow(10, prev.len());
            assert(pow(10, digits@.len()) == 10 * p) by {
                reveal(pow);
            }
            let q = rest / 10;
            assert(rest * p == q * (10 * p) + d * p) by (nonlinear_arith)
                requires
                    rest == 10 * q + d,
            ;
        }
        rest = rest / 10;
    }
    proof {
        lemma_canonical(digits@);
    }
    digits
}

/// The text of a digit vector: each digit as its character, most significant
/// first, with no separators.
pub fn vec_to_number(num: &Vec<u32>) -> (r: String)
    requires
        is_digits(num@),
    ensures
        r@ == display(num@),
{
    let numerals = "0123456789";
    let mut text = String::new();
    for i in 0..num.len()
        invariant
            is_digits(num@),
            numerals@ == "0123456789"@,
            text@ == display(num@.subrange(0, i as int)),
    {
        proof {
            reveal_strlit("0123456789");
        }
        let d = num[i] as usize;
        let piece = numerals.substring_ascii(d, d + 1);
        assert(piece@ =~= seq![digit_char(num@[i as int])]);
        text.append(piece);
        assert(num@.subrange(0, i + 1) =~= num@.subrange(0, i as int).push(num@[i as int]));
        assert(text@ =~= display(num@.subrange(0, i + 1)));
    }
    assert(num@.subrange(0, num.len() as int) =~= num@);
    text
}

} // verus!
