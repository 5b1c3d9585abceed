//! The mathematical model of a magnitude: the integer that a little-endian
//! digit sequence denotes, and the facts about it that the algorithms rest on.

use crate::big_digit::{base, BigDigit};
use vstd::arithmetic::div_mod::lemma_fundamental_div_mod_converse;
use vstd::prelude::*;

verus! {

/// `base()` raised to the power `n`.
pub open spec fn base_pow(n: nat) -> int
    decreases n,
{
    if n == 0 {
        1
    } else {
        base() * base_pow((n - 1) as nat)
    }
}

/// The integer denoted by the digits `s`, least significant digit first.
pub open spec fn mag_value(s: Seq<BigDigit>) -> int
    decreases s.len(),
{
    if s.len() == 0 {
        0
    } else {
        mag_value(s.drop_last()) + s.last() * base_pow((s.len() - 1) as nat)
    }
}

/// Every digit of `s` is zero.
pub open spec fn all_zero(s: Seq<BigDigit>) -> bool {
    forall|i: int| 0 <= i < s.len() ==> s[i] == 0
}

/// `s` carries no zero digit at its most significant end.
pub open spec fn is_normalized(s: Seq<BigDigit>) -> bool {
    s.len() == 0 || s.last() != 0
}

/// The length of `s` without the zero digits at its most significant end.
pub open spec fn trimmed_len(s: Seq<BigDigit>) -> nat
    decreases s.len(),
{
    if s.len() == 0 || s.last() != 0 {
        s.len()
    } else {
        trimmed_len(s.drop_last())
    }
}

/// `s` without the zero digits at its most significant end.
pub open spec fn normalized(s: Seq<BigDigit>) -> Seq<BigDigit> {
    s.take(trimmed_len(s) as int)
}

/// `n` zero digits.
pub open spec fn zeros(n: nat) -> Seq<BigDigit> {
    Seq::new(n, |i: int| 0u64)
}

/// Every power of the radix is positive.
pub proof fn lemma_base_pow_positive(n: nat)
    ensures
        base_pow(n) >= 1,
    decreases n,
{
    if n > 0 {
        lemma_base_pow_positive((n - 1) as nat);
    }
}

/// The powers of the radix grow with the exponent.
pub proof fn lemma_base_pow_monotonic(i: nat, j: nat)
    requires
        i <= j,
    ensures
        base_pow(i) <= base_pow(j),
    decreases j,
{
    if i < j {
        lemma_base_pow_monotonic(i, (j - 1) as nat);
        lemma_base_pow_positive((j - 1) as nat);
    }
}

/// A digit times a power of the radix lies below the next power.
pub proof fn lemma_digit_term_bounds(d: BigDigit, n: nat)
    ensures
        0 <= d * base_pow(n) <= base_pow(n + 1) - base_pow(n),
        d != 0 ==> base_pow(n) <= d * base_pow(n),
{
    let p = base_pow(n);
    lemma_base_pow_positive(n);
    assert(0 <= d * p <= 0xFFFF_FFFF_FFFF_FFFF * p && (d != 0 ==> p <= d * p)) by (nonlinear_arith)
        requires
            0 <= d <= 0xFFFF_FFFF_FFFF_FFFF,
            p >= 1,
    ;
    assert(base_pow(n + 1) == base() * base_pow(n));
}

/// A magnitude of `n` digits denotes a value in `[0, base^n)`.
pub proof fn lemma_value_bounds(s: Seq<BigDigit>)
    ensures
        0 <= mag_value(s) < base_pow(s.len()),
    decreases s.len(),
{
    if s.len() > 0 {
        lemma_value_bounds(s.drop_last());
        lemma_digit_term_bounds(s.last(), (s.len() - 1) as nat);
    }
}

/// Extending a prefix by one digit adds that digit's term.
pub proof fn lemma_value_take_step(s: Seq<BigDigit>, i: int)
    requires
        0 <= i < s.len(),
    ensures
        mag_value(s.take(i + 1)) == mag_value(s.take(i)) + s[i] * base_pow(i as nat),
{
    assert(s.take(i + 1).drop_last() =~= s.take(i));
}

/// Replacing one digit changes the value by the difference of the digits,
/// scaled to their position.
pub proof fn lemma_value_update(s: Seq<BigDigit>, i: int, d: BigDigit)
    requires
        0 <= i < s.len(),
    ensures
        mag_value(s.update(i, d)) == mag_value(s) + (d - s[i]) * base_pow(i as nat),
    decreases s.len(),
{
    let t = s.update(i, d);
    let p = base_pow((s.len() - 1) as nat);
    if i == s.len() - 1 {
        assert(t.drop_last() =~= s.drop_last());
        assert(d * p == s[i] * p + (d - s[i]) * p) by (nonlinear_arith);
    } else {
        assert(t.drop_last() =~= s.drop_last().update(i, d));
        lemma_value_update(s.drop_last(), i, d);
    }
}

/// Zero digits at the most significant end do not change the value.
pub proof fn lemma_value_trailing_zeros(s: Seq<BigDigit>, k: int)
    requires
        0 <= k <= s.len(),
        forall|i: int| k <= i < s.len() ==> s[i] == 0,
    ensures
        mag_value(s) == mag_value(s.take(k)),
    decreases s.len(),
{
    if k == s.len() {
        assert(s.take(k) =~= s);
    } else {
        assert(s.drop_last().take(k) =~= s.take(k));
        lemma_value_trailing_zeros(s.drop_last(), k);
        let d = s[s.len() - 1];
        let p = base_pow((s.len() - 1) as nat);
        assert(d * p == 0) by (nonlinear_arith)
            requires
                d == 0,
        ;
    }
}

/// Powers of the radix multiply by adding their exponents.
pub proof fn lemma_base_pow_add(i: nat, j: nat)
    ensures
        base_pow(i + j) == base_pow(i) * base_pow(j),
    decreases j,
{
    let x = base_pow(i);
    if j == 0 {
        assert(x * 1 == x);
    } else {
        let y = base_pow((j - 1) as nat);
        lemma_base_pow_add(i, (j - 1) as nat);
        assert(base_pow(i + j) == base() * base_pow((i + j - 1) as nat));
        assert(base() * (x * y) == x * (base() * y)) by (nonlinear_arith);
    }
}

/// A magnitude is its first `k` digits plus the remaining digits at the
/// weight `base^k`.
pub proof fn lemma_value_split(s: Seq<BigDigit>, k: int)
    requires
        0 <= k <= s.len(),
    ensures
        mag_value(s) == mag_value(s.take(k)) + base_pow(k as nat) * mag_value(s.skip(k)),
    decreases s.len(),
{
    let pk = base_pow(k as nat);
    if k == s.len() {
        assert(s.take(k) =~= s);
        assert(mag_value(s.skip(k)) == 0);
        assert(pk * 0 == 0);
    } else {
        let r = s.drop_last();
        let d = s.last();
        let pm = base_pow((s.len() - 1 - k) as nat);
        let v = mag_value(r.skip(k));
        lemma_value_split(r, k);
        assert(r.take(k) =~= s.take(k));
        assert(s.skip(k).drop_last() =~= r.skip(k));
        lemma_base_pow_add(k as nat, (s.len() - 1 - k) as nat);
        assert(pk * (v + d * pm) == pk * v + d * (pk * pm)) by (nonlinear_arith);
    }
}

/// A magnitude whose value lies below `base^k` has only zero digits from
/// position `k` on.
pub proof fn lemma_value_fits(s: Seq<BigDigit>, k: int)
    requires
        0 <= k <= s.len(),
        mag_value(s) < base_pow(k as nat),
    ensures
        forall|i: int| k <= i < s.len() ==> s[i] == 0,
        mag_value(s.take(k)) == mag_value(s),
    decreases s.len(),
{
    if k == s.len() {
        assert(s.take(k) =~= s);
    } else {
        let r = s.drop_last();
        lemma_value_bounds(r);
        lemma_base_pow_monotonic(k as nat, (s.len() - 1) as nat);
        lemma_digit_term_bounds(s.last(), (s.len() - 1) as nat);
        assert(s.last() == 0);
        lemma_value_fits(r, k);
        assert forall|i: int| k <= i < s.len() implies s[i] == 0 by {
            if i < r.len() {
                assert(r[i] == s[i]);
            }
        }
        lemma_value_trailing_zeros(s, k);
    }
}

/// A single digit denotes itself.
pub proof fn lemma_value_single(s: Seq<BigDigit>)
    requires
        s.len() == 1,
    ensures
        mag_value(s) == s[0],
{
    assert(mag_value(s.drop_last()) == 0);
    assert(base_pow(0) == 1);
}

/// A magnitude denotes zero exactly when all its digits are zero.
pub proof fn lemma_zero_value(s: Seq<BigDigit>)
    ensures
        all_zero(s) <==> mag_value(s) == 0,
    decreases s.len(),
{
    if s.len() > 0 {
        let r = s.drop_last();
        lemma_zero_value(r);
        lemma_value_bounds(r);
        lemma_digit_term_bounds(s.last(), (s.len() - 1) as nat);
        lemma_base_pow_positive((s.len() - 1) as nat);
        if all_zero(s) {
            assert(all_zero(r)) by {
                assert forall|i: int| 0 <= i < r.len() implies r[i] == 0 by {
                    assert(r[i] == s[i]);
                }
            }
            let d = s[s.len() - 1];
            let p = base_pow((s.len() - 1) as nat);
            assert(d * p == 0) by (nonlinear_arith)
                requires
                    d == 0,
            ;
        }
        if mag_value(s) == 0 {
            assert(s.last() == 0);
            assert(all_zero(s)) by {
                assert forall|i: int| 0 <= i < s.len() implies s[i] == 0 by {
                    if i < r.len() {
                        assert(r[i] == s[i]);
                    }
                }
            }
        }
    }
}

/// Two magnitudes of one length that denote the same value have the same
/// digits.
pub proof fn lemma_value_injective(s: Seq<BigDigit>, t: Seq<BigDigit>)
    requires
        s.len() == t.len(),
        mag_value(s) == mag_value(t),
    ensures
        s == t,
    decreases s.len(),
{
    if s.len() == 0 {
        assert(s =~= t);
    } else {
        let p = base_pow((s.len() - 1) as nat);
        lemma_base_pow_positive((s.len() - 1) as nat);
        lemma_value_bounds(s.drop_last());
        lemma_value_bounds(t.drop_last());
        lemma_fundamental_div_mod_converse(
            mag_value(s),
            p,
            s.last() as int,
            mag_value(s.drop_last()),
        );
        lemma_fundamental_div_mod_converse(
            mag_value(t),
            p,
            t.last() as int,
            mag_value(t.drop_last()),
        );
        lemma_value_injective(s.drop_last(), t.drop_last());
        assert(s =~= s.drop_last().push(s.last()));
        assert(t =~= t.drop_last().push(t.last()));
    }
}

/// A normalized magnitude denotes more than any shorter magnitude.
pub proof fn lemma_shorter_is_smaller(s: Seq<BigDigit>, t: Seq<BigDigit>)
    requires
        s.len() < t.len(),
        is_normalized(t),
    ensures
        mag_value(s) < mag_value(t),
{
    lemma_value_bounds(s);
    lemma_value_bounds(t.drop_last());
    lemma_base_pow_monotonic(s.len(), (t.len() - 1) as nat);
    lemma_digit_term_bounds(t.last(), (t.len() - 1) as nat);
}

/// Between two magnitudes of one length that agree above position `i`, the
/// one with the smaller digit at `i` denotes the smaller value.
pub proof fn lemma_top_digit_decides(s: Seq<BigDigit>, t: Seq<BigDigit>, i: int)
    requires
        s.len() == t.len(),
        0 <= i < s.len(),
        forall|j: int| i < j < s.len() ==> s[j] == t[j],
        s[i] < t[i],
    ensures
        mag_value(s) < mag_value(t),
    decreases s.len(),
{
    let p = base_pow((s.len() - 1) as nat);
    if i == s.len() - 1 {
        lemma_value_bounds(s.drop_last());
        lemma_value_bounds(t.drop_last());
        assert((s[i] + 1) * p <= t[i] * p) by (nonlinear_arith)
            requires
                s[i] + 1 <= t[i],
                p >= 0,
        ;
        assert((s[i] + 1) * p == s[i] * p + p) by (nonlinear_arith);
    } else {
        assert forall|j: int| i < j < s.drop_last().len() implies s.drop_last()[j]
            == t.drop_last()[j] by {
            assert(s.drop_last()[j] == s[j]);
            assert(t.drop_last()[j] == t[j]);
        }
        lemma_top_digit_decides(s.drop_last(), t.drop_last(), i);
        assert(s.last() == t.last());
    }
}

/// Two normalized magnitudes that denote the same value have the same
/// digits.
pub proof fn lemma_normalized_unique(s: Seq<BigDigit>, t: Seq<BigDigit>)
    requires
        is_normalized(s),
        is_normalized(t),
        mag_value(s) == mag_value(t),
    ensures
        s == t,
{
    if s.len() < t.len() {
        lemma_shorter_is_smaller(s, t);
    } else if t.len() < s.len() {
        lemma_shorter_is_smaller(t, s);
    } else {
        lemma_value_injective(s, t);
    }
}

/// Trimming yields a normalized magnitude of the same value, and is the
/// only cut that does: the digits beyond it are zero, the one before it is
/// not.
pub proof fn lemma_normalized(s: Seq<BigDigit>)
    ensures
        trimmed_len(s) <= s.len(),
        is_normalized(normalized(s)),
        mag_value(normalized(s)) == mag_value(s),
        forall|i: int| trimmed_len(s) <= i < s.len() ==> s[i] == 0,
        is_normalized(s) ==> normalized(s) == s,
    decreases s.len(),
{
    if s.len() == 0 || s.last() != 0 {
        assert(s.take(s.len() as int) =~= s);
    } else {
        let r = s.drop_last();
        lemma_normalized(r);
        assert(r.take(trimmed_len(r) as int) =~= s.take(trimmed_len(s) as int));
        assert forall|i: int| trimmed_len(s) <= i < s.len() implies s[i] == 0 by {
            if i < r.len() {
                assert(r[i] == s[i]);
            }
        }
        lemma_value_trailing_zeros(s, trimmed_len(s) as int);
    }
}

/// Appending zero digits changes neither the value nor the normalized form.
pub proof fn lemma_zero_padding(s: Seq<BigDigit>, n: nat)
    ensures
        mag_value(s + zeros(n)) == mag_value(s),
        normalized(s + zeros(n)) == normalized(s),
{
    let t = s + zeros(n);
    assert(t.take(s.len() as int) =~= s);
    lemma_value_trailing_zeros(t, s.len() as int);
    lemma_normalized(s);
    lemma_normalized(t);
    lemma_normalized_unique(normalized(s), normalized(t));
}

} // verus!
