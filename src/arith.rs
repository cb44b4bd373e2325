//! Schoolbook addition and subtraction of digit vectors, right-aligned and
//! carried from the units place up.
use vstd::arithmetic::power::{lemma_pow_positive, pow};
use vstd::prelude::*;

use crate::model::{digits_of, is_digits, lemma_value_concat, lemma_value_single, value};
use crate::primitives::{is_smaller, remove_leading_zeros};

verus! {

/// The digit of `s` at place `i`, counted from the right (units are place 0);
/// zero to the left of `s`.
pub open spec fn digit_at(s: Seq<u32>, i: int) -> nat {
    if 0 <= i < s.len() {
        s[s.len() - 1 - i] as nat
    } else {
        0
    }
}

/// The number that the lowest `k` places of `s` denote.
pub open spec fn low_value(s: Seq<u32>, k: nat) -> nat
    decreases k,
{
    if k == 0 {
        0
    } else {
        (low_value(s, (k - 1) as nat) + digit_at(s, k - 1) * pow(10, (k - 1) as nat)) as nat
    }
}

/// The lowest `k` places depend only on the digits there.
pub proof fn lemma_low_value_agree(s: Seq<u32>, t: Seq<u32>, k: nat)
    requires
        forall|j: int| 0 <= j < k ==> digit_at(s, j) == digit_at(t, j),
    ensures
        low_value(s, k) == low_value(t, k),
    decreases k,
{
    if k > 0 {
        lemma_low_value_agree(s, t, (k - 1) as nat);
    }
}

/// All places of `s`, and any beyond its left end, denote `value(s)`.
pub proof fn lemma_low_value_whole(s: Seq<u32>, k: nat)
    requires
        k >= s.len(),
    ensures
        low_value(s, k) == value(s),
    decreases s.len(), k,
{
    if k > s.len() {
        lemma_low_value_whole(s, (k - 1) as nat);
    } else if s.len() > 0 {
        let t = s.drop_first();
        let n = (s.len() - 1) as nat;
        assert forall|j: int| 0 <= j < n implies digit_at(s, j) == digit_at(t, j) by {}
        lemma_low_value_agree(s, t, n);
        lemma_low_value_whole(t, n);
        assert(s =~= seq![s[0]] + t);
        lemma_value_concat(seq![s[0]], t);
        lemma_value_single(s[0]);
        assert(digit_at(s, n as int) == s[0]);
    }
}

/// Writing a digit at place `i` leaves the lower places as they were.
proof fn lemma_low_value_write(s: Seq<u32>, i: nat, d: u32)
    requires
        i < s.len(),
    ensures
        low_value(s.update(s.len() - 1 - i, d), (i + 1) as nat) == low_value(s, i) + d * pow(
            10,
            i,
        ),
{
    let t = s.update(s.len() - 1 - i, d);
    lemma_pow_positive(10, i);
    assert forall|j: int| 0 <= j < i implies digit_at(s, j) == digit_at(t, j) by {}
    lemma_low_value_agree(s, t, i);
}

/// The sum of the numbers that `a` and `b` denote, in canonical form.
pub fn add_numbers(a: &Vec<u32>, b: &Vec<u32>) -> (r: Vec<u32>)
    requires
        is_digits(a@),
        is_digits(b@),
        a.len() < usize::MAX,
        b.len() < usize::MAX,
    ensures
        r@ == digits_of(value(a@) + value(b@)),
{
    let max_len = if a.len() >= b.len() {
        a.len()
    } else {
        b.len()
    };
    let mut result = vec![0u32; max_len];
    let mut carry: u32 = 0;
    for i in 0..max_len
        invariant
            result.len() == max_len,
            a.len() <= max_len,
            b.len() <= max_len,
            is_digits(a@),
            is_digits(b@),
            is_digits(result@),
            carry <= 1,
            low_value(result@, i as nat) + carry * pow(10, i as nat) == low_value(a@, i as nat)
                + low_value(b@, i as nat),
    {
        let digit_a = if i < a.len() {
            a[a.len() - 1 - i]
        } else {
            0
        };
        let digit_b = if i < b.len() {
            b[b.len() - 1 - i]
        } else {
            0
        };
        assert(digit_a == digit_at(a@, i as int) && digit_b == digit_at(b@, i as int));
        let sum = digit_a + digit_b + carry;
        let ghost before = result@;
        result[max_len - 1 - i] = sum % 10;
        proof {
            lemma_low_value_write(before, i as nat, sum % 10);
            let p = pow(10, i as nat);
            assert(pow(10, (i + 1) as nat) == 10 * p) by {
                reveal(pow);
            }
            lemma_pow_positive(10, i as nat);
            assert((sum % 10) * p + (sum / 10) * (10 * p) == digit_a * p + digit_b * p + carry * p)
                by (nonlinear_arith)
                requires
                    sum == digit_a + digit_b + carry,
            ;
            assert(low_value(a@, (i + 1) as nat) == low_value(a@, i as nat) + digit_a * p);
            assert(low_value(b@, (i + 1) as nat) == low_value(b@, i as nat) + digit_b * p);
        }
        carry = sum / 10;
    }
    proof {
        lemma_low_value_whole(result@, max_len as nat);
        lemma_low_value_whole(a@, max_len as nat);
        lemma_low_value_whole(b@, max_len as nat);
        assert(value(result@) + carry * pow(10, max_len as nat) == value(a@) + value(b@));
    }
    if carry > 0 {
        let ghost low = result@;
        result.insert(0, carry);
        proof {
            assert(result@ =~= seq![carry] + low);
            lemma_value_concat(seq![carry], low);
            lemma_value_single(carry);
            assert(is_digits(result@));
        }
    }
    assert(value(result@) == value(a@) + value(b@));
    remove_leading_zeros(result)
}

/// The difference of the numbers that `a` and `b` denote, in canonical form;
/// `[0]` when `a` denotes less than `b`, since there are no negative numbers.
pub fn subtract_numbers(a: &Vec<u32>, b: &Vec<u32>) -> (r: Vec<u32>)
    requires
        is_digits(a@),
        is_digits(b@),
    ensures
        value(a@) < value(b@) ==> r@ == seq![0u32],
        value(a@) >= value(b@) ==> r@ == digits_of((value(a@) - value(b@)) as nat),
{
    if is_smaller(a, b) {
        return vec![0u32];
    }
    let max_len = if a.len() >= b.len() {
        a.len()
    } else {
        b.len()
    };
    let mut result = vec![0u32; max_len];
    let mut borrow: i32 = 0;
    for i in 0..max_len
        invariant
            result.len() == max_len,
            a.len() <= max_len,
            b.len() <= max_len,
            is_digits(a@),
            is_digits(b@),
            is_digits(result@),
            0 <= borrow <= 1,
            low_value(result@, i as nat) + low_value(b@, i as nat) == low_value(a@, i as nat)
                + borrow * pow(10, i as nat),
    {
        let digit_a = if i < a.len() {
            a[a.len() - 1 - i]
        } else {
            0
        };
        let digit_b = if i < b.len() {
            b[b.len() - 1 - i]
        } else {
            0
        };
        assert(digit_a == digit_at(a@, i as int) && digit_b == digit_at(b@, i as int));
        assert(digit_a < 10 && digit_b < 10);
        let ghost old_borrow = borrow;
        let mut diff: i32 = digit_a as i32 - digit_b as i32 - borrow;
        if diff < 0 {
            diff += 10;
            borrow = 1;
        } else {
            borrow = 0;
        }
        let ghost before = result@;
        result[max_len - 1 - i] = diff as u32;
        proof {
            lemma_low_value_write(before, i as nat, diff as u32);
            let p = pow(10, i as nat);
            assert(pow(10, (i + 1) as nat) == 10 * p) by {
                reveal(pow);
            }
            lemma_pow_positive(10, i as nat);
            assert(diff * p + digit_b * p + old_borrow * p == digit_a * p + borrow * (10 * p))
                by (nonlinear_arith)
                requires
                    diff + digit_b + old_borrow == digit_a + 10 * borrow,
            ;
            assert(low_value(a@, (i + 1) as nat) == low_value(a@, i as nat) + digit_a * p);
            assert(low_value(b@, (i + 1) as nat) == low_value(b@, i as nat) + digit_b * p);
        }
    }
    proof {
        lemma_low_value_whole(result@, max_len as nat);
        lemma_low_value_whole(a@, max_len as nat);
        lemma_low_value_whole(b@, max_len as nat);
        crate::model::lemma_value_bound(result@);
    }
    remove_leading_zeros(result)
}

} // verus!
