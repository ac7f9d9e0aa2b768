use flexo::text::{format_float, format_int};

#[test]
fn canonical_examples() {
    assert_eq!(format_float(String::from("007.50")), "7.50");
    assert_eq!(format_float(String::from("-0.5")), "-0.5");
    assert_eq!(format_float(String::from(".3")), "0.3");
    assert_eq!(format_float(String::from("")), "0");
    assert_eq!(format_float(String::from("-00.30")), "-0.30");
    assert_eq!(format_float(String::from("007")), "7");
}

#[test]
fn trimming_and_garbage() {
    assert_eq!(format_float(String::from("  12.30  ")), "12.30");
    assert_eq!(format_float(String::from("abc")), "0");
    assert_eq!(format_float(String::from("7x")), "7");
    assert_eq!(format_float(String::from("x7")), "0");
    assert_eq!(format_float(String::from("0")), "0");
    assert_eq!(format_float(String::from("00")), "0");
    assert_eq!(format_float(String::from("10")), "10");
    assert_eq!(format_float(String::from("0.5")), "0.5");
    assert_eq!(format_float(String::from("100")), "100");
}

#[test]
fn idempotent_on_samples() {
    let samples = [
        "007.50", "-0.5", ".3", "", "abc", "  12.30  ", "-00.30", "0", "10.01", "-", ".", "0.",
        "1e5", "3.175",
    ];
    for s in samples {
        let once = format_float(String::from(s));
        let twice = format_float(once.clone());
        assert_eq!(twice, once);
    }
}

#[test]
fn integer_variant() {
    assert_eq!(format_int(String::from("007")), "7");
    assert_eq!(format_int(String::from(" 0042 ")), "42");
    assert_eq!(format_int(String::from("abc")), "");
    assert_eq!(format_int(String::from("12.5")), "12");
    assert_eq!(format_int(String::from("000")), "");
    assert_eq!(format_int(String::from("")), "");
}
