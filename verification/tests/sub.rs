use bignum_sub::algorithms::order::{difference_sign, normalized_len};
use bignum_sub::{
    __sub2, __sub2rev, __sub_scalar, is_zero, sbb, sub2, sub2rev, sub_sign, BigDigit, BigUint,
    Sign, SignedDoubleBigDigit, BITS, VEC_SIZE,
};
use num_traits::Num;

const MAX: BigDigit = BigDigit::MAX;

/// The normalized digits of `n`, least significant first.
fn digits(mut n: u128) -> Vec<BigDigit> {
    let mut out = Vec::new();
    while n != 0 {
        out.push(n as BigDigit);
        n >>= 64;
    }
    out
}

/// The value of at most two digits.
fn value(digits: &[BigDigit]) -> u128 {
    assert!(digits.len() <= 2);
    let mut v: u128 = 0;
    for (i, d) in digits.iter().enumerate() {
        v |= (*d as u128) << (64 * i);
    }
    v
}

/// The signed value of a result of `sub_sign` that fits in two digits.
fn signed(r: &(Sign, BigUint)) -> i128 {
    let m = value(r.1.as_slice()) as i128;
    match r.0 {
        Sign::Plus => m,
        Sign::Minus => -m,
        Sign::NoSign => 0,
    }
}

#[test]
fn test_sub_sign() {
    fn sub_sign_i(a: &[BigDigit], b: &[BigDigit]) -> i128 {
        signed(&sub_sign(a, b))
    }

    let a = <u128 as Num>::from_str_radix("265252859812191058636308480000000", 10).unwrap();
    let b = <u128 as Num>::from_str_radix("26525285981219105863630848000000", 10).unwrap();
    let a_i = a as i128;
    let b_i = b as i128;
    let a = digits(a);
    let b = digits(b);

    assert_eq!(sub_sign_i(&a[..], &b[..]), a_i - b_i);
    assert_eq!(sub_sign_i(&b[..], &a[..]), b_i - a_i);
}

#[test]
fn sub_sign_known_digits() {
    let a: [BigDigit; 2] = [0x865d_f5dd_5400_0000, 0xd13_f637_0f96];
    let b: [BigDigit; 2] = [0xda3c_9896_2200_0000, 0x14e_cbd2_4e5b];
    let d: [BigDigit; 2] = [0xac21_5d47_3200_0000, 0xbc5_2a64_c13a];
    assert_eq!(digits(265252859812191058636308480000000), a);
    assert_eq!(digits(26525285981219105863630848000000), b);

    let (sign, magnitude) = sub_sign(&a, &b);
    assert_eq!(sign, Sign::Plus);
    assert_eq!(magnitude.as_slice(), &d[..]);

    let (sign, magnitude) = sub_sign(&b, &a);
    assert_eq!(sign, Sign::Minus);
    assert_eq!(magnitude.as_slice(), &d[..]);
}

#[test]
fn constants() {
    assert_eq!(BITS, 64);
    assert_eq!(VEC_SIZE, 4);
    assert_eq!(BigDigit::BITS as usize, BITS);
    assert_eq!(SignedDoubleBigDigit::BITS as usize, 2 * BITS);
}

#[test]
fn sbb_without_borrow() {
    let mut acc: SignedDoubleBigDigit = 0;
    assert_eq!(sbb(5, 3, &mut acc), 2);
    assert_eq!(acc, 0);
}

#[test]
fn sbb_produces_borrow() {
    let mut acc: SignedDoubleBigDigit = 0;
    assert_eq!(sbb(2, 5, &mut acc), MAX - 2);
    assert_eq!(acc, -1);
}

#[test]
fn sbb_consumes_borrow() {
    let mut acc: SignedDoubleBigDigit = -1;
    assert_eq!(sbb(7, 3, &mut acc), 3);
    assert_eq!(acc, 0);
}

#[test]
fn sbb_borrow_chain_through_zero() {
    let mut acc: SignedDoubleBigDigit = -1;
    assert_eq!(sbb(0, 0, &mut acc), MAX);
    assert_eq!(acc, -1);
    assert_eq!(sbb(0, MAX, &mut acc), 0);
    assert_eq!(acc, -1);
    assert_eq!(sbb(MAX, MAX, &mut acc), MAX);
    assert_eq!(acc, -1);
    assert_eq!(sbb(1, 0, &mut acc), 0);
    assert_eq!(acc, 0);
}

#[test]
fn sbb_wide_accumulator() {
    // acc + a - b = 3 * 2^64 + 5
    let mut acc: SignedDoubleBigDigit = (3 << 64) + 10;
    assert_eq!(sbb(1, 6, &mut acc), 5);
    assert_eq!(acc, 3);
    // acc + a - b = -2 * 2^64 + 1
    let mut acc: SignedDoubleBigDigit = -(2 << 64);
    assert_eq!(sbb(4, 3, &mut acc), 1);
    assert_eq!(acc, -2);
}

#[test]
fn is_zero_cases() {
    assert!(is_zero(&[]));
    assert!(is_zero(&[0]));
    assert!(is_zero(&[0, 0, 0]));
    assert!(!is_zero(&[1]));
    assert!(!is_zero(&[0, 0, 1]));
    assert!(!is_zero(&[MAX, 0]));
}

#[test]
fn sub_scalar_single_digit() {
    let mut a = [5];
    assert!(!__sub_scalar(&mut a, 3));
    assert_eq!(a, [2]);
}

#[test]
fn sub_scalar_zero_subtrahend() {
    let mut a = [5, 9];
    assert!(!__sub_scalar(&mut a, 0));
    assert_eq!(a, [5, 9]);
}

#[test]
fn sub_scalar_borrow_stops_early() {
    let mut a = [0, 0, 7, 0];
    assert!(!__sub_scalar(&mut a, 1));
    assert_eq!(a, [MAX, MAX, 6, 0]);
}

#[test]
fn sub_scalar_underflow_wraps() {
    let mut a = [2];
    assert!(__sub_scalar(&mut a, 5));
    assert_eq!(a, [MAX - 2]);

    let mut a = [0, 0];
    assert!(__sub_scalar(&mut a, 1));
    assert_eq!(a, [MAX, MAX]);
}

#[test]
fn sub_scalar_empty_minuend() {
    let mut a: [BigDigit; 0] = [];
    assert!(!__sub_scalar(&mut a, 0));
    assert!(__sub_scalar(&mut a, 3));
}

#[test]
fn sub2_reporting_multi_digit() {
    // 2^128 - (2^64 + 1) = 2^128 - 2^64 - 1
    let mut a = [0, 0, 1];
    assert!(!__sub2(&mut a, &[1, 1]));
    assert_eq!(a, [MAX, MAX - 1, 0]);
}

#[test]
fn sub2_reporting_borrow_clears_before_end() {
    let mut a = [0, 0, 3, 9];
    assert!(!__sub2(&mut a, &[1, 0]));
    assert_eq!(a, [MAX, MAX, 2, 9]);
}

#[test]
fn sub2_reporting_underflow_wraps() {
    let mut a = [2, 0];
    assert!(__sub2(&mut a, &[5, 0]));
    assert_eq!(a, [MAX - 2, MAX]);
}

#[test]
fn sub2_reporting_single_digit_goes_scalar() {
    let mut a = [0, 1];
    assert!(!__sub2(&mut a, &[1]));
    assert_eq!(a, [MAX, 0]);

    let mut a: [BigDigit; 0] = [];
    assert!(__sub2(&mut a, &[4]));
    assert!(!__sub2(&mut a, &[0]));
}

#[test]
fn sub2_reporting_zero_minuend() {
    let mut a = [0, 0];
    assert!(!__sub2(&mut a, &[0, 0, 0]));
    assert_eq!(a, [0, 0]);

    // The whole of `b` decides, also beyond the length of `a`.
    let mut a = [0];
    assert!(__sub2(&mut a, &[0, 1]));
    assert_eq!(a, [0]);

    let mut a = [0, 0];
    assert!(__sub2(&mut a, &[3, 0]));
    assert_eq!(a, [0, 0]);

    let mut a: [BigDigit; 0] = [];
    assert!(!__sub2(&mut a, &[]));
    assert!(__sub2(&mut a, &[0, 0, 2]));
}

#[test]
fn sub2_reporting_empty_subtrahend() {
    let mut a = [7, 1];
    assert!(!__sub2(&mut a, &[]));
    assert_eq!(a, [7, 1]);
}

#[test]
fn sub2_reporting_longer_subtrahend() {
    // Zero digits of `b` beyond the length of `a` change nothing.
    let mut a = [5, 1];
    assert!(!__sub2(&mut a, &[6, 0, 0]));
    assert_eq!(a, [MAX, 0]);

    let mut a = [5, 1];
    assert!(!__sub2(&mut a, &[5, 1, 0, 0]));
    assert_eq!(a, [0, 0]);
}

#[test]
fn sub2_reporting_digit_beyond_minuend_underflows() {
    // A digit of `b` beyond the length of `a` that is not zero makes `b`
    // the larger; `a` holds the difference wrapped at its own length.
    let mut a = [5, 1];
    assert!(__sub2(&mut a, &[3, 0, 1]));
    assert_eq!(a, [2, 1]);

    let mut a = [5];
    assert!(__sub2(&mut a, &[3, 7]));
    assert_eq!(a, [2]);

    let mut a = [1, 0];
    assert!(__sub2(&mut a, &[2, 0, 0, 9]));
    assert_eq!(a, [MAX, MAX]);
}

#[test]
fn sub2_strict_five_minus_three() {
    let mut a = [5];
    sub2(&mut a, &[3]);
    assert_eq!(a, [2]);
}

#[test]
fn sub2_strict_multi_digit() {
    let mut a = [1, 2, 3];
    sub2(&mut a, &[2, 2]);
    assert_eq!(a, [MAX, MAX, 2]);

    let mut a = [4, 4];
    sub2(&mut a, &[4, 4]);
    assert_eq!(a, [0, 0]);
}

#[test]
fn two_minus_five_underflows() {
    // The strict subtractor is never to be called here: the reporting one
    // says why.
    let mut a = [2];
    assert!(__sub2(&mut a, &[5]));
}

#[test]
fn sub2_then_add_back() {
    let a = [3, 9];
    let b = [MAX, 2];
    let mut d = a;
    sub2(&mut d, &b);
    assert_eq!(value(&d).wrapping_add(value(&b)), value(&a));
    assert_eq!(d, [4, 6]);
}

#[test]
fn scalar_and_general_agree() {
    let cases: [(Vec<BigDigit>, BigDigit); 6] = [
        (vec![], 0),
        (vec![], 9),
        (vec![5], 3),
        (vec![2], 5),
        (vec![0, 0, 1], MAX),
        (vec![0, 0], 1),
    ];
    for (a, b) in cases.iter() {
        let mut general = a.clone();
        let mut scalar = a.clone();
        let borrow_general = __sub2(&mut general, &[*b]);
        let borrow_scalar = __sub_scalar(&mut scalar, *b);
        assert_eq!(borrow_general, borrow_scalar);
        assert_eq!(general, scalar);
    }
}

#[test]
fn sub2rev_reporting() {
    let mut b = [3, 0];
    assert!(!__sub2rev(&[5, 1], &mut b));
    assert_eq!(b, [2, 1]);

    let mut b = [2];
    assert!(__sub2rev(&[1], &mut b));
    assert_eq!(b, [MAX]);

    let mut b: [BigDigit; 0] = [];
    assert!(!__sub2rev(&[], &mut b));
}

#[test]
fn sub2rev_reporting_borrow_chain() {
    // 2^128 - 1 = [MAX, MAX, 0]
    let mut b = [1, 0, 0];
    assert!(!__sub2rev(&[0, 0, 1], &mut b));
    assert_eq!(b, [MAX, MAX, 0]);
}

#[test]
fn sub2rev_strict() {
    let mut b = [3, 1];
    sub2rev(&[2, 4], &mut b);
    assert_eq!(b, [MAX, 2]);

    // `b` may be longer than `a` where its upper digits are zero.
    let mut b = [1, 0, 0];
    sub2rev(&[0, 1], &mut b);
    assert_eq!(b, [MAX, 0, 0]);

    let mut b = [7];
    sub2rev(&[7], &mut b);
    assert_eq!(b, [0]);
}

#[test]
fn sub2rev_agrees_with_sub_sign() {
    let a = [9, 3, 5];
    let b = [4, 8, 5];
    // a <= b, one length: a := b - a
    let mut reversed = a;
    sub2rev(&b, &mut reversed);
    let (sign, magnitude) = sub_sign(&b, &a);
    assert_eq!(sign, Sign::Plus);
    assert_eq!(reversed, [MAX - 4, 4, 0]);
    assert_eq!(&reversed[..normalized_len(&reversed)], magnitude.as_slice());
}

#[test]
fn sub_sign_positive() {
    let (sign, magnitude) = sub_sign(&[5], &[3]);
    assert_eq!(sign, Sign::Plus);
    assert_eq!(magnitude.as_slice(), &[2]);
}

#[test]
fn sub_sign_negative() {
    let (sign, magnitude) = sub_sign(&[3], &[5]);
    assert_eq!(sign, Sign::Minus);
    assert_eq!(magnitude.as_slice(), &[2]);

    let (sign, magnitude) = sub_sign(&[MAX], &[0, 1]);
    assert_eq!(sign, Sign::Minus);
    assert_eq!(magnitude.as_slice(), &[1]);
}

#[test]
fn sub_sign_equal_is_zero() {
    let empty: [BigDigit; 0] = [];
    for a in [vec![], vec![0], vec![7], vec![1, 2, 3], vec![MAX, MAX, MAX, MAX, MAX]] {
        let (sign, magnitude) = sub_sign(&a, &a);
        assert_eq!(sign, Sign::NoSign);
        assert_eq!(magnitude.as_slice(), &empty[..]);
    }
}

#[test]
fn sub_sign_result_is_normalized() {
    // 2^64 - 1 leaves a zero upper digit, which is dropped.
    let (sign, magnitude) = sub_sign(&[0, 1], &[1]);
    assert_eq!(sign, Sign::Plus);
    assert_eq!(magnitude.as_slice(), &[MAX]);

    let (sign, magnitude) = sub_sign(&[1, 0, 5], &[2, 0, 5]);
    assert_eq!(sign, Sign::Minus);
    assert_eq!(magnitude.as_slice(), &[1]);
}

#[test]
fn sub_sign_longer_than_inline_buffer() {
    let a = [0, 0, 0, 0, 0, 1];
    let b = [1];
    let (sign, magnitude) = sub_sign(&a, &b);
    assert_eq!(sign, Sign::Plus);
    assert_eq!(magnitude.as_slice(), &[MAX, MAX, MAX, MAX, MAX]);

    let (sign, magnitude) = sub_sign(&b, &a);
    assert_eq!(sign, Sign::Minus);
    assert_eq!(magnitude.as_slice(), &[MAX, MAX, MAX, MAX, MAX]);
}

#[test]
fn sub_sign_ignores_zero_padding() {
    let plain = sub_sign(&[5, 7], &[9, 2]);
    let padded = sub_sign(&[5, 7, 0, 0], &[9, 2, 0]);
    assert_eq!(plain.0, Sign::Plus);
    assert_eq!(plain.1.as_slice(), &[MAX - 3, 4]);
    assert_eq!(padded.0, plain.0);
    assert_eq!(padded.1.as_slice(), plain.1.as_slice());

    let padded = sub_sign(&[0, 0], &[]);
    assert_eq!(padded.0, Sign::NoSign);
    assert!(padded.1.as_slice().is_empty());

    let padded = sub_sign(&[0, 0, 0], &[4, 0]);
    assert_eq!(padded.0, Sign::Minus);
    assert_eq!(padded.1.as_slice(), &[4]);
}

#[test]
fn sub_sign_matches_native_arithmetic() {
    let values: [u128; 7] = [
        0,
        1,
        u64::MAX as u128,
        1 << 64,
        (1 << 64) + 1,
        0x1234_5678_9abc_def0_0fed_cba9_8765_4321,
        (1 << 127) - 1,
    ];
    for x in values {
        for y in values {
            let r = sub_sign(&digits(x), &digits(y));
            assert_eq!(signed(&r), x as i128 - y as i128);
            assert_eq!(r.0 == Sign::NoSign, x == y);
            assert_eq!(r.1.as_slice(), &digits(x.abs_diff(y))[..]);
        }
    }
}

#[test]
fn biguint_zero_has_no_digits() {
    assert!(BigUint::zero().as_slice().is_empty());
}

#[test]
fn biguint_from_slice_normalizes() {
    let empty: [BigDigit; 0] = [];
    assert_eq!(BigUint::from_slice(&[]).as_slice(), &empty[..]);
    assert_eq!(BigUint::from_slice(&[0, 0]).as_slice(), &empty[..]);
    assert_eq!(BigUint::from_slice(&[7]).as_slice(), &[7]);
    assert_eq!(BigUint::from_slice(&[0, 3, 0, 0]).as_slice(), &[0, 3]);
    assert_eq!(
        BigUint::from_slice(&[1, 2, 3, 4, 5, 6, 0]).as_slice(),
        &[1, 2, 3, 4, 5, 6]
    );
}

#[test]
fn normalized_len_cases() {
    assert_eq!(normalized_len(&[]), 0);
    assert_eq!(normalized_len(&[0]), 0);
    assert_eq!(normalized_len(&[0, 0, 0]), 0);
    assert_eq!(normalized_len(&[1]), 1);
    assert_eq!(normalized_len(&[0, 1, 0, 0]), 2);
    assert_eq!(normalized_len(&[0, 0, 9]), 3);
}

#[test]
fn difference_sign_cases() {
    assert_eq!(difference_sign(&[], &[]), Sign::NoSign);
    assert_eq!(difference_sign(&[1], &[]), Sign::Plus);
    assert_eq!(difference_sign(&[], &[1]), Sign::Minus);
    assert_eq!(difference_sign(&[MAX], &[0, 1]), Sign::Minus);
    assert_eq!(difference_sign(&[0, 1], &[MAX]), Sign::Plus);
    // The most significant digit that differs decides.
    assert_eq!(difference_sign(&[9, 1, 4], &[0, 2, 4]), Sign::Minus);
    assert_eq!(difference_sign(&[0, 2, 4], &[9, 1, 4]), Sign::Plus);
    assert_eq!(difference_sign(&[3, 2, 4], &[3, 2, 4]), Sign::NoSign);
}
