use flexo::ratio::{parse_ratio, ratio_div, ratio_mul, ratio_sub, ratio_to_text, Ratio};

#[test]
fn parse_decimal_texts() {
    let r = parse_ratio("31.75");
    assert!(!r.neg);
    assert_eq!(r.num, 3175);
    assert_eq!(r.den, 100);

    let r = parse_ratio("-0.30");
    assert!(r.neg);
    assert_eq!(r.num, 30);
    assert_eq!(r.den, 100);

    let r = parse_ratio("10");
    assert_eq!((r.neg, r.num, r.den), (false, 10, 1));

    let r = parse_ratio("0.5");
    assert_eq!((r.neg, r.num, r.den), (false, 5, 10));
}

#[test]
fn parse_fallback_is_zero() {
    for s in ["", "-", ".", "abc", "1.2.3", "1e5", " 1", "12a"] {
        let r = parse_ratio(s);
        assert_eq!((r.neg, r.num, r.den), (false, 0, 1), "input {:?}", s);
    }
}

#[test]
fn render_decimal_texts() {
    assert_eq!(ratio_to_text(&Ratio { neg: false, num: 31750, den: 1000 }), "31.75");
    assert_eq!(ratio_to_text(&Ratio { neg: false, num: 0, den: 1 }), "0");
    assert_eq!(ratio_to_text(&Ratio { neg: false, num: 1, den: 3 }), "0.333333");
    assert_eq!(ratio_to_text(&Ratio { neg: false, num: 1, den: 8 }), "0.125");
    assert_eq!(ratio_to_text(&Ratio { neg: true, num: 5, den: 2 }), "-2.5");
    assert_eq!(ratio_to_text(&Ratio { neg: false, num: 100, den: 1 }), "100");
    // a magnitude below the six-digit scale truncates to zero
    assert_eq!(ratio_to_text(&Ratio { neg: false, num: 1, den: 10000000 }), "0");
}

#[test]
fn exact_operations() {
    let a = parse_ratio("31.75");
    let b = parse_ratio("3.175");
    let q = ratio_div(&a, &b).unwrap();
    assert_eq!(ratio_to_text(&q), "10");

    let m = ratio_mul(&parse_ratio("10"), &b).unwrap();
    assert_eq!(ratio_to_text(&m), "31.75");

    let one = Ratio { neg: false, num: 1, den: 1 };
    let d = ratio_sub(&one, &parse_ratio("0.25")).unwrap();
    assert_eq!(ratio_to_text(&d), "0.75");

    // subtraction crossing zero carries the sign
    let d = ratio_sub(&one, &parse_ratio("2.5")).unwrap();
    assert_eq!(ratio_to_text(&d), "-1.5");
}

#[test]
fn round_trip_exact() {
    // after = before * ratio / 100, then back: before = after / ratio * 100
    let before = parse_ratio("100");
    let ratio = parse_ratio("80.9");
    let hundred = Ratio { neg: false, num: 100, den: 1 };
    let m = ratio_mul(&before, &ratio).unwrap();
    let after = ratio_div(&m, &hundred).unwrap();
    assert_eq!(ratio_to_text(&after), "80.9");
    let q = ratio_div(&after, &ratio).unwrap();
    let back = ratio_mul(&q, &hundred).unwrap();
    assert_eq!(ratio_to_text(&back), "100");
}

#[test]
fn overflow_reports_none() {
    let big = Ratio { neg: false, num: u128::MAX, den: 1 };
    assert!(ratio_mul(&big, &Ratio { neg: false, num: 2, den: 1 }).is_none());
    assert!(ratio_sub(&Ratio { neg: true, num: u128::MAX, den: 1 }, &big).is_none());
    assert!(ratio_div(&big, &Ratio { neg: false, num: 1, den: 2 }).is_none());
}
