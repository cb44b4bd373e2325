//! The mathematical model of a digit vector, and the facts about it that the
//! executable code relies on.
use vstd::arithmetic::power::*;
use vstd::prelude::*;

verus! {

/// Every entry of `s` is a decimal digit.
pub open spec fn is_digits(s: Seq<u32>) -> bool {
    forall|i: int| 0 <= i < s.len() ==> #[trigger] s[i] < 10
}

/// The number that `s` denotes, read most significant digit first.
/// The empty sequence denotes zero.
pub open spec fn value(s: Seq<u32>) -> nat
    decreases s.len(),
{
    if s.len() == 0 {
        0
    } else {
        (value(s.drop_last()) * 10 + s.last()) as nat
    }
}

/// The canonical digits of `n`: no leading zero, and `[0]` for zero.
pub open spec fn digits_of(n: nat) -> Seq<u32>
    decreases n,
{
    if n < 10 {
        seq![n as u32]
    } else {
        digits_of(n / 10).push((n % 10) as u32)
    }
}

/// `s` has at least one entry, and a leading zero only when it is `[0]`.
pub open spec fn is_normalized(s: Seq<u32>) -> bool {
    s.len() >= 1 && (s.len() == 1 || s[0] != 0)
}

/// `s` without its leading zeros; an empty or all-zero `s` becomes `[0]`.
pub open spec fn strip_zeros(s: Seq<u32>) -> Seq<u32>
    decreases s.len(),
{
    if s.len() == 0 {
        seq![0u32]
    } else if s.len() > 1 && s[0] == 0 {
        strip_zeros(s.drop_first())
    } else {
        s
    }
}

/// `k` zero digits.
pub open spec fn zeros(k: nat) -> Seq<u32> {
    Seq::new(k, |i: int| 0u32)
}

/// Every entry of `s` is zero (true of the empty sequence).
pub open spec fn all_zero(s: Seq<u32>) -> bool {
    forall|i: int| 0 <= i < s.len() ==> #[trigger] s[i] == 0
}

/// `s` with zeros put in front until it is `len` long; never shortened.
pub open spec fn padded(s: Seq<u32>, len: nat) -> Seq<u32> {
    if s.len() >= len {
        s
    } else {
        zeros((len - s.len()) as nat) + s
    }
}

/// `s` times ten to the `k`: `k` zeros appended, or `[0]` when `s` denotes zero.
pub open spec fn scaled(s: Seq<u32>, k: nat) -> Seq<u32> {
    if all_zero(s) {
        seq![0u32]
    } else {
        s + zeros(k)
    }
}

/// `n` is a power of two.
pub open spec fn is_pow2(n: nat) -> bool
    decreases n,
{
    if n <= 1 {
        n == 1
    } else {
        n % 2 == 0 && is_pow2(n / 2)
    }
}

/// The character that writes the digit `d`.
pub open spec fn digit_char(d: u32) -> char {
    if d == 0 {
        '0'
    } else if d == 1 {
        '1'
    } else if d == 2 {
        '2'
    } else if d == 3 {
        '3'
    } else if d == 4 {
        '4'
    } else if d == 5 {
        '5'
    } else if d == 6 {
        '6'
    } else if d == 7 {
        '7'
    } else if d == 8 {
        '8'
    } else {
        '9'
    }
}

/// The text of a digit vector: one character per digit, in order.
pub open spec fn display(s: Seq<u32>) -> Seq<char> {
    s.map_values(|d: u32| digit_char(d))
}

/// The canonical digits of the product of the numbers that `a` and `b` denote.
pub open spec fn product_digits(a: Seq<u32>, b: Seq<u32>) -> Seq<u32> {
    digits_of(value(a) * value(b))
}

/// Reading `s1` followed by `s2` shifts `s1` left by the length of `s2`.
pub proof fn lemma_value_concat(s1: Seq<u32>, s2: Seq<u32>)
    ensures
        value(s1 + s2) == value(s1) * pow(10, s2.len()) + value(s2),
    decreases s2.len(),
{
    reveal(pow);
    if s2.len() == 0 {
        assert(s1 + s2 =~= s1);
    } else {
        let t = s2.drop_last();
        assert((s1 + s2).drop_last() =~= s1 + t);
        assert((s1 + s2).last() == s2.last());
        lemma_value_concat(s1, t);
        let a = value(s1);
        let p = pow(10, t.len());
        assert(pow(10, s2.len()) == 10 * p);
        assert((a * p + value(t)) * 10 + s2.last() == a * (10 * p) + (value(t) * 10 + s2.last()))
            by (nonlinear_arith);
    }
}

/// A single digit denotes itself.
pub proof fn lemma_value_single(d: u32)
    ensures
        value(seq![d]) == d,
{
    assert(seq![d].drop_last() =~= Seq::<u32>::empty());
    assert(value(Seq::<u32>::empty()) == 0);
}

/// Zeros denote zero.
pub proof fn lemma_value_zeros(k: nat)
    ensures
        value(zeros(k)) == 0,
    decreases k,
{
    if k > 0 {
        assert(zeros(k).drop_last() =~= zeros((k - 1) as nat));
        lemma_value_zeros((k - 1) as nat);
    }
}

/// A vector denotes zero exactly when all its entries are zero.
pub proof fn lemma_value_all_zero(s: Seq<u32>)
    ensures
        value(s) == 0 <==> all_zero(s),
    decreases s.len(),
{
    if s.len() > 0 {
        lemma_value_all_zero(s.drop_last());
        if all_zero(s) {
            assert(all_zero(s.drop_last()));
        }
        if value(s) == 0 {
            assert forall|i: int| 0 <= i < s.len() implies #[trigger] s[i] == 0 by {
                if i < s.len() - 1 {
                    assert(s.drop_last()[i] == s[i]);
                }
            }
        }
    }
}

/// Leading zeros do not change the value.
pub proof fn lemma_value_padded(s: Seq<u32>, len: nat)
    ensures
        value(padded(s, len)) == value(s),
        padded(s, len).len() == if s.len() >= len { s.len() } else { len },
        is_digits(s) ==> is_digits(padded(s, len)),
{
    if s.len() < len {
        let k = (len - s.len()) as nat;
        lemma_value_concat(zeros(k), s);
        lemma_value_zeros(k);
    }
}

/// A vector of `n` digits denotes less than ten to the `n`.
pub proof fn lemma_value_bound(s: Seq<u32>)
    requires
        is_digits(s),
    ensures
        value(s) < pow(10, s.len()),
    decreases s.len(),
{
    reveal(pow);
    if s.len() > 0 {
        let t = s.drop_last();
        lemma_value_bound(t);
        let p = pow(10, t.len());
        assert(value(t) * 10 + s.last() < 10 * p) by (nonlinear_arith)
            requires
                value(t) < p,
                s.last() < 10,
        ;
    }
}

/// A vector of `n` digits whose first digit is not zero denotes at least ten
/// to the `n - 1`.
pub proof fn lemma_value_lower(s: Seq<u32>)
    requires
        s.len() >= 1,
        s[0] != 0,
    ensures
        value(s) >= pow(10, (s.len() - 1) as nat),
{
    let head = s.subrange(0, 1);
    let rest = s.subrange(1, s.len() as int);
    assert(s =~= head + rest);
    lemma_value_concat(head, rest);
    assert(head =~= seq![s[0]]);
    lemma_value_single(s[0]);
    lemma_pow_positive(10, rest.len());
    let p = pow(10, rest.len());
    assert(s[0] * p >= p) by (nonlinear_arith)
        requires
            s[0] >= 1,
            p > 0,
    ;
}

/// The canonical digits of `n` are digits, normalized, and denote `n`.
pub proof fn lemma_digits_of(n: nat)
    ensures
        is_digits(digits_of(n)),
        is_normalized(digits_of(n)),
        value(digits_of(n)) == n,
    decreases n,
{
    if n < 10 {
        lemma_value_single(n as u32);
    } else {
        lemma_digits_of(n / 10);
        let d = digits_of(n);
        assert(d.drop_last() =~= digits_of(n / 10));
        assert(d[0] == digits_of(n / 10)[0]);
        let h = digits_of(n / 10);
        if h.len() == 1 {
            assert(h =~= seq![h[0]]);
            lemma_value_single(h[0]);
        }
        assert(h[0] != 0);
    }
}

/// A normalized digit vector is the canonical digits of its value.
pub proof fn lemma_canonical(s: Seq<u32>)
    requires
        is_digits(s),
        is_normalized(s),
    ensures
        s == digits_of(value(s)),
    decreases s.len(),
{
    if s.len() == 1 {
        assert(s =~= seq![s[0]]);
        lemma_value_single(s[0]);
    } else {
        let t = s.drop_last();
        assert(t[0] == s[0]);
        lemma_canonical(t);
        lemma_value_lower(t);
        lemma_pow_positive(10, (t.len() - 1) as nat);
        let v = value(s);
        assert(v / 10 == value(t) && v % 10 == s.last()) by (nonlinear_arith)
            requires
                v == value(t) * 10 + s.last(),
                s.last() < 10,
        ;
        assert(s =~= t.push(s.last()));
    }
}

/// Stripping leading zeros keeps the value and gives a normalized vector;
/// of a digit vector it gives the canonical digits.
pub proof fn lemma_strip_zeros(s: Seq<u32>)
    ensures
        value(strip_zeros(s)) == value(s),
        is_normalized(strip_zeros(s)),
        is_digits(s) ==> is_digits(strip_zeros(s)),
        is_digits(s) ==> strip_zeros(s) == digits_of(value(s)),
        strip_zeros(s).len() <= if s.len() == 0 { 1 } else { s.len() },
    decreases s.len(),
{
    if s.len() == 0 {
        lemma_value_single(0);
    } else if s.len() > 1 && s[0] == 0 {
        let t = s.drop_first();
        lemma_strip_zeros(t);
        assert(s =~= seq![0u32] + t);
        lemma_value_concat(seq![0u32], t);
        lemma_value_single(0);
    }
    if is_digits(s) {
        lemma_canonical(strip_zeros(s));
    }
}

/// A normalized vector is its own stripped form.
pub proof fn lemma_strip_normalized(s: Seq<u32>)
    requires
        is_normalized(s),
    ensures
        strip_zeros(s) == s,
{
}

/// The canonical digits of a number below ten to the `k` are at most `k` long.
pub proof fn lemma_digits_len(n: nat, k: nat)
    requires
        k >= 1,
        n < pow(10, k),
    ensures
        digits_of(n).len() <= k,
{
    lemma_digits_of(n);
    let d = digits_of(n);
    if d.len() > k {
        if d.len() == 1 {
        } else {
            lemma_value_lower(d);
            lemma_pow_increases(10, k, (d.len() - 1) as nat);
        }
    }
}

} // verus!
