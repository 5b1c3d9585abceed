//! In-place subtraction of magnitudes.

use crate::algorithms::order::{difference_sign, normalized_len};
use crate::big_digit::{base, BigDigit, SignedDoubleBigDigit, BITS};
use crate::bigint::Sign;
use crate::biguint::BigUint;
use crate::digit_buf::{buf_as_mut_slice, buf_digits, buf_from_slice};
use crate::magnitude::{
    all_zero, base_pow, is_normalized, lemma_base_pow_positive, lemma_normalized,
    lemma_value_bounds, lemma_value_fits, lemma_value_single, lemma_value_split,
    lemma_value_take_step, lemma_value_trailing_zeros, lemma_value_update, lemma_zero_value,
    mag_value, normalized,
};
use vstd::arithmetic::div_mod::lemma_fundamental_div_mod_converse;
use vstd::prelude::*;

verus! {

/// Subtract with borrow: computes `a - b` plus the borrow held in `acc`,
/// returns its low digit and leaves the borrow for the next position in
/// `acc`.
pub fn sbb(a: BigDigit, b: BigDigit, acc: &mut SignedDoubleBigDigit) -> (lo: BigDigit)
    requires
        i128::MIN <= *old(acc) + a - b,
        *old(acc) + a <= i128::MAX,
    ensures
        lo == (*old(acc) + a - b) % base(),
        *final(acc) == (*old(acc) + a - b) / base(),
        *final(acc) * base() + lo == *old(acc) + a - b,
{
    *acc += a as SignedDoubleBigDigit;
    *acc -= b as SignedDoubleBigDigit;
    let ghost t: i128 = *acc;
    let lo = *acc as BigDigit;
    *acc >>= BITS;
    proof {
        let hi: i128 = *acc;
        assert(hi * 0x1_0000_0000_0000_0000 + lo == t) by (bit_vector)
            requires
                hi == t >> 64usize,
                lo == t as u64,
        ;
        lemma_fundamental_div_mod_converse(t as int, base(), hi as int, lo as int);
    }
    lo
}

/// Whether `x` denotes zero.
pub fn is_zero(x: &[BigDigit]) -> (r: bool)
    ensures
        r == all_zero(x@),
        r == (mag_value(x@) == 0),
{
    proof {
        lemma_zero_value(x@);
    }
    let mut i: usize = 0;
    while i < x.len()
        invariant
            i <= x.len(),
            forall|j: int| 0 <= j < i ==> x@[j] == 0,
            all_zero(x@) <==> mag_value(x@) == 0,
        decreases x.len() - i,
    {
        if x[i] != 0 {
            return false;
        }
        i += 1;
    }
    true
}

/// The value that [`__sub2`] leaves in `a`. A zero `a` stays as it is,
/// unless `b` is a single digit. In every other case the difference wraps
/// around at `base^len(a)`.
pub open spec fn sub2_value(a: Seq<BigDigit>, b: Seq<BigDigit>) -> int {
    if b.len() != 1 && mag_value(a) == 0 {
        0
    } else {
        (mag_value(a) - mag_value(b)) % base_pow(a.len())
    }
}

/// One position of a borrow chain. With incoming borrow `c`, the digit `x`
/// less the digit `y` gives the digit `d` and the outgoing borrow `c2`. At
/// the weight `p` of the position, the change of the digit is the incoming
/// borrow less `y`, less the outgoing borrow at the next weight.
proof fn lemma_chain_step(c: int, c2: int, x: int, y: int, d: int, p: int)
    requires
        c2 * base() + d == c + x - y,
    ensures
        (d - x) * p == c * p - y * p - c2 * (base() * p),
{
    assert((d - x) * p == (c - y - c2 * base()) * p);
    assert((c - y - c2 * base()) * p == c * p - y * p - c2 * (base() * p)) by (nonlinear_arith);
}

/// A borrow of minus one at weight `p` is `-p`.
proof fn lemma_borrow_term(c: int, p: int)
    requires
        c == -1,
    ensures
        c * p == -p,
{
    assert(c * p == -p) by (nonlinear_arith)
        requires
            c == -1,
    ;
}

/// A value that differs from `v` by `q` times the modulus, and lies within
/// the modulus, is `v` reduced.
proof fn lemma_wrapped(x: int, v: int, q: int, n: nat)
    requires
        0 <= v < base_pow(n),
        x == q * base_pow(n) + v,
    ensures
        x % base_pow(n) == v,
{
    lemma_fundamental_div_mod_converse(x, base_pow(n), q, v);
}

/// Calculate `a -= b` for `b` a scalar. Returns whether the borrow ran past
/// the last digit of `a`.
pub fn __sub_scalar(a: &mut [BigDigit], b: BigDigit) -> (borrow: bool)
    ensures
        final(a)@.len() == old(a)@.len(),
        borrow == (mag_value(old(a)@) < b),
        mag_value(final(a)@) == (mag_value(old(a)@) - b) % base_pow(old(a)@.len()),
{
    let ghost orig = a@;
    let n = a.len();
    let mut bw = b;
    let mut i: usize = 0;
    assert(base_pow(0) == 1);
    while i < n
        invariant
            a@.len() == n,
            orig.len() == n,
            i <= n,
            i > 0 ==> bw <= 1,
            i == 0 ==> bw == b,
            mag_value(a@) == mag_value(orig) - b + bw * base_pow(i as nat),
        ensures
            bw == 0 || i == n,
        decreases n - i,
    {
        let ghost before = a@;
        let ghost p = base_pow(i as nat);
        let (tmp, overflow) = a[i].overflowing_sub(bw);
        proof {
            lemma_value_update(before, i as int, tmp);
            let t = if overflow { 1int } else { 0int };
            assert((tmp - before[i as int]) * p == t * (base() * p) - bw * p) by (nonlinear_arith)
                requires
                    tmp - before[i as int] == t * base() - bw,
            ;
            assert(base_pow((i + 1) as nat) == base() * p);
        }
        bw = if overflow { 1 } else { 0 };
        a[i] = tmp;
        i += 1;
        if !overflow {
            break;
        }
    }
    proof {
        lemma_value_bounds(a@);
        lemma_value_bounds(orig);
        let x = mag_value(orig) - b;
        if bw == 0 {
            lemma_wrapped(x, mag_value(a@), 0, n as nat);
        } else if n == 0 {
            lemma_wrapped(x, 0, x, 0);
        } else {
            lemma_wrapped(x, mag_value(a@), -1, n as nat);
        }
    }
    bw > 0
}

/// Calculate `a -= b` and report whether the subtraction underflowed, that
/// is whether `b` exceeds `a`.
///
/// A single-digit `b` goes to [`__sub_scalar`]. A zero `a` is left as it is,
/// and underflows unless `b` is zero too. Otherwise the digits of `b` within
/// the length of `a` are subtracted, and a borrow that remains runs through
/// the higher digits of `a` until it clears. A digit of `b` beyond the
/// length of `a` that is not zero is an underflow as well.
pub fn __sub2(a: &mut [BigDigit], b: &[BigDigit]) -> (borrow: bool)
    ensures
        final(a)@.len() == old(a)@.len(),
        borrow == (mag_value(old(a)@) < mag_value(b@)),
        mag_value(final(a)@) == sub2_value(old(a)@, b@),
        !borrow ==> mag_value(final(a)@) == mag_value(old(a)@) - mag_value(b@),
{
    let mut borrow: SignedDoubleBigDigit = 0;
    let ghost orig = a@;
    proof {
        lemma_value_bounds(orig);
        lemma_value_bounds(b@);
    }

    if b.len() == 1 {
        proof {
            lemma_value_single(b@);
        }
        let underflow = __sub_scalar(a, b[0]);
        proof {
            lemma_exact_when_no_underflow(orig, b@, a@);
        }
        return underflow;
    }
    if is_zero(a) {
        return !is_zero(b);
    }
    let n = a.len();
    let len = if a.len() < b.len() {
        a.len()
    } else {
        b.len()
    };
    let (b_lo, b_hi) = b.split_at(len);

    let mut i: usize = 0;
    assert(base_pow(0) == 1);
    while i < len
        invariant
            a@.len() == n,
            orig.len() == n,
            i <= len,
            len <= n,
            b_lo@.len() == len,
            borrow == 0 || borrow == -1,
            mag_value(a@) == mag_value(orig) - mag_value(b_lo@.take(i as int)) - borrow
                * base_pow(i as nat),
        decreases len - i,
    {
        let ghost before = a@;
        let ghost c = borrow;
        let d = sbb(a[i], b_lo[i], &mut borrow);
        a[i] = d;
        proof {
            let p = base_pow(i as nat);
            lemma_value_update(before, i as int, d);
            lemma_value_take_step(b_lo@, i as int);
            lemma_chain_step(
                c as int,
                borrow as int,
                before[i as int] as int,
                b_lo@[i as int] as int,
                d as int,
                p,
            );
            assert(base_pow((i + 1) as nat) == base() * p);
        }
        i += 1;
    }
    assert(b_lo@.take(len as int) =~= b_lo@);

    let ghost low = mag_value(b_lo@);
    if borrow != 0 {
        while i < n
            invariant
                a@.len() == n,
                orig.len() == n,
                i <= n,
                borrow == 0 || borrow == -1,
                mag_value(a@) == mag_value(orig) - low - borrow * base_pow(i as nat),
            ensures
                borrow == 0 || i == n,
            decreases n - i,
        {
            let ghost before = a@;
            let ghost c = borrow;
            let d = sbb(a[i], 0, &mut borrow);
            a[i] = d;
            proof {
                let p = base_pow(i as nat);
                lemma_value_update(before, i as int, d);
                lemma_chain_step(c as int, borrow as int, before[i as int] as int, 0, d as int, p);
                assert(base_pow((i + 1) as nat) == base() * p);
            }
            i += 1;
            if borrow == 0 {
                break;
            }
        }
    }
    let beyond = !is_zero(b_hi);
    proof {
        let p = base_pow(n as nat);
        let high = mag_value(b_hi@);
        let q: int = if borrow == 0 {
            0
        } else {
            -1
        };
        lemma_value_bounds(a@);
        lemma_value_bounds(b_hi@);
        lemma_base_pow_positive(n as nat);
        if borrow != 0 {
            lemma_borrow_term(borrow as int, p);
        }
        assert(mag_value(orig) - low == q * p + mag_value(a@));
        // The digits of `b` beyond the length of `a` weigh `base^len(a)`.
        assert(b@.take(len as int) =~= b_lo@);
        assert(b@.skip(len as int) =~= b_hi@);
        lemma_value_split(b@, len as int);
        if high == 0 {
            assert(base_pow(len as nat) * high == 0) by (nonlinear_arith)
                requires
                    high == 0,
            ;
            lemma_wrapped(mag_value(orig) - mag_value(b@), mag_value(a@), q, n as nat);
        } else {
            assert(len == n);
            assert((q - high) * p == q * p - p * high && p * high >= p) by (nonlinear_arith)
                requires
                    high >= 1,
                    p >= 1,
            ;
            lemma_wrapped(mag_value(orig) - mag_value(b@), mag_value(a@), q - high, n as nat);
        }
        lemma_exact_when_no_underflow(orig, b@, a@);
    }
    borrow != 0 || beyond
}

/// Where `b` does not exceed `a`, what [`__sub2`] leaves is the exact
/// difference.
pub proof fn lemma_sub2_exact(a: Seq<BigDigit>, b: Seq<BigDigit>)
    requires
        mag_value(b) <= mag_value(a),
    ensures
        sub2_value(a, b) == mag_value(a) - mag_value(b),
{
    lemma_value_bounds(a);
    lemma_value_bounds(b);
    if !(b.len() != 1 && mag_value(a) == 0) {
        lemma_wrapped(mag_value(a) - mag_value(b), mag_value(a) - mag_value(b), 0, a.len());
    }
}

/// [`lemma_sub2_exact`] for a result `r` of [`__sub2`].
proof fn lemma_exact_when_no_underflow(a: Seq<BigDigit>, b: Seq<BigDigit>, r: Seq<BigDigit>)
    requires
        mag_value(r) == sub2_value(a, b),
    ensures
        mag_value(b) <= mag_value(a) ==> mag_value(r) == mag_value(a) - mag_value(b),
{
    if mag_value(b) <= mag_value(a) {
        lemma_sub2_exact(a, b);
    }
}

/// Calculate `a -= b`.
///
/// `b` must not exceed `a`, so that the difference is a magnitude.
pub fn sub2(a: &mut [BigDigit], b: &[BigDigit])
    requires
        mag_value(b@) <= mag_value(old(a)@),
    ensures
        final(a)@.len() == old(a)@.len(),
        mag_value(final(a)@) == mag_value(old(a)@) - mag_value(b@),
{
    let borrow = __sub2(a, b);
    assert(!borrow);
}

/// Calculate `b = a - b` for operands of one length, and report whether the
/// subtraction underflowed. On underflow the difference wraps around at
/// `base^len`.
pub fn __sub2rev(a: &[BigDigit], b: &mut [BigDigit]) -> (borrow: bool)
    requires
        old(b)@.len() == a@.len(),
    ensures
        final(b)@.len() == old(b)@.len(),
        borrow == (mag_value(a@) < mag_value(old(b)@)),
        mag_value(final(b)@) == (mag_value(a@) - mag_value(old(b)@)) % base_pow(a@.len()),
{
    let ghost orig = b@;
    let n = a.len();
    let mut borrow: SignedDoubleBigDigit = 0;
    let mut i: usize = 0;
    assert(base_pow(0) == 1);
    assert(a@.take(0) =~= orig.take(0));
    while i < n
        invariant
            a@.len() == n,
            b@.len() == n,
            orig.len() == n,
            i <= n,
            borrow == 0 || borrow == -1,
            forall|j: int| i <= j < n ==> b@[j] == orig[j],
            mag_value(b@.take(i as int)) == mag_value(a@.take(i as int)) - mag_value(
                orig.take(i as int),
            ) - borrow * base_pow(i as nat),
        decreases n - i,
    {
        let ghost before = b@;
        let ghost c = borrow;
        let d = sbb(a[i], b[i], &mut borrow);
        b[i] = d;
        proof {
            let p = base_pow(i as nat);
            assert(b@.take(i as int) =~= before.take(i as int));
            lemma_value_take_step(b@, i as int);
            lemma_value_take_step(a@, i as int);
            lemma_value_take_step(orig, i as int);
            lemma_chain_step(
                c as int,
                borrow as int,
                a@[i as int] as int,
                orig[i as int] as int,
                d as int,
                p,
            );
            assert((d - a@[i as int]) * p == d * p - a@[i as int] * p) by (nonlinear_arith);
            assert(base_pow((i + 1) as nat) == base() * p);
        }
        i += 1;
    }
    proof {
        assert(b@.take(n as int) =~= b@);
        assert(a@.take(n as int) =~= a@);
        assert(orig.take(n as int) =~= orig);
        lemma_value_bounds(b@);
        let x = mag_value(a@) - mag_value(orig);
        if borrow == 0 {
            lemma_wrapped(x, mag_value(b@), 0, n as nat);
        } else {
            lemma_borrow_term(borrow as int, base_pow(n as nat));
            lemma_wrapped(x, mag_value(b@), -1, n as nat);
        }
    }
    borrow != 0
}

/// Calculate `b = a - b`.
///
/// `b` must be at least as long as `a` and must not exceed it in value, so
/// that the difference is a magnitude.
pub fn sub2rev(a: &[BigDigit], b: &mut [BigDigit])
    requires
        a@.len() <= old(b)@.len(),
        mag_value(old(b)@) <= mag_value(a@),
    ensures
        final(b)@.len() == old(b)@.len(),
        mag_value(final(b)@) == mag_value(a@) - mag_value(old(b)@),
{
    let ghost orig = b@;
    let len = if a.len() < b.len() {
        a.len()
    } else {
        b.len()
    };
    proof {
        // The digits of `b` beyond the length of `a` are zero.
        lemma_value_bounds(a@);
        lemma_value_bounds(orig);
        lemma_value_fits(orig, len as int);
        assert(a@.subrange(0, len as int) =~= a@);
        assert(orig.subrange(0, len as int) =~= orig.take(len as int));
    }
    let (a_lo, a_hi) = a.split_at(len);
    let (b_lo, b_hi) = b.split_at_mut(len);

    let borrow = __sub2rev(a_lo, b_lo);

    proof {
        let d = mag_value(a@) - mag_value(orig);
        lemma_wrapped(d, d, 0, len as nat);
        let whole = b_lo@ + b_hi@;
        assert(whole.take(len as int) =~= b_lo@);
        assert forall|i: int| len <= i < whole.len() implies whole[i] == 0 by {
            assert(whole[i] == orig[i]);
        }
        lemma_value_trailing_zeros(whole, len as int);
    }
    assert(a_hi.len() == 0);
    assert(!borrow);
}

/// What [`sub_sign`] returns for `a - b`: the sign of the difference, and
/// its absolute value as a normalized magnitude.
pub open spec fn sub_sign_result(
    a: Seq<BigDigit>,
    b: Seq<BigDigit>,
    sign: Sign,
    magnitude: Seq<BigDigit>,
) -> bool {
    let d = mag_value(a) - mag_value(b);
    &&& sign == Sign::of(d)
    &&& is_normalized(magnitude)
    &&& mag_value(magnitude) == if d < 0 {
        -d
    } else {
        d
    }
}

/// Calculate the signed difference `a - b` of two magnitudes, which need
/// not be normalized.
pub fn sub_sign(a: &[BigDigit], b: &[BigDigit]) -> (r: (Sign, BigUint))
    ensures
        sub_sign_result(a@, b@, r.0, r.1@),
        r.0.apply(mag_value(r.1@)) == mag_value(a@) - mag_value(b@),
        r.0 == Sign::NoSign <==> mag_value(r.1@) == 0,
        mag_value(a@) == mag_value(b@) ==> r.0 == Sign::NoSign && r.1@ == Seq::<BigDigit>::empty(),
{
    // Normalize:
    let a_len = normalized_len(a);
    let b_len = normalized_len(b);
    proof {
        lemma_normalized(a@);
        lemma_normalized(b@);
    }
    let a_norm = &a[0..a_len];
    let b_norm = &b[0..b_len];
    assert(a_norm@ == normalized(a@));
    assert(b_norm@ == normalized(b@));

    match difference_sign(a_norm, b_norm) {
        Sign::Plus => {
            let mut buf = buf_from_slice(a_norm);
            sub2(buf_as_mut_slice(&mut buf), b_norm);
            proof {
                lemma_normalized(buf_digits(buf));
            }
            (Sign::Plus, BigUint::new_native(buf))
        },
        Sign::Minus => {
            let mut buf = buf_from_slice(b_norm);
            sub2(buf_as_mut_slice(&mut buf), a_norm);
            proof {
                lemma_normalized(buf_digits(buf));
            }
            (Sign::Minus, BigUint::new_native(buf))
        },
        Sign::NoSign => (Sign::NoSign, BigUint::zero()),
    }
}

} // verus!
