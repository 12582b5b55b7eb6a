use dqr::decimal::parse_number;

fn less(a: &str, b: &str) -> bool {
    parse_number(a).unwrap().less(&parse_number(b).unwrap())
}

fn near(a: &str, b: &str) -> bool {
    parse_number(a).unwrap().near(&parse_number(b).unwrap())
}

#[test]
fn numerals_are_read_or_refused() {
    for good in ["0", "18", "-7", "+7", "1.5", "1.", ".5", "1e3", "1E3", "1.5e-7", "-0.0", "2e+2"] {
        assert!(parse_number(good).is_some(), "{}", good);
    }
    for bad in ["", "+", "-", ".", "e5", "1e", "1e+", "abc", "1.2.3", " 1", "1 ", "inf", "NaN", "0x10"] {
        assert!(parse_number(bad).is_none(), "{}", bad);
    }
}

#[test]
fn numerals_beyond_the_limits_are_refused() {
    assert!(parse_number("1e4096").is_some());
    assert!(parse_number("1e4097").is_none());
    assert!(parse_number("1e-4096").is_some());
    assert!(parse_number("1e-4097").is_none());
    assert!(parse_number("1e99999999999999999999999999").is_none());
    let long = "1".repeat(4096);
    assert!(parse_number(&long).is_some());
    let too_long = "1".repeat(4097);
    assert!(parse_number(&too_long).is_none());
}

#[test]
fn numbers_compare_as_rationals() {
    assert!(less("17", "18"));
    assert!(!less("18", "18"));
    assert!(!less("19", "18"));
    assert!(less("-1", "0"));
    assert!(less("-2", "-1"));
    assert!(!less("-1", "-2"));
    assert!(!less("0", "-0"));
    assert!(!less("-0", "0"));
    assert!(!less("0", "-1"));
    assert!(less("0.1", "0.11"));
    assert!(less("9", "10"));
    assert!(less("1e2", "101"));
    assert!(!less("1e2", "100"));
    assert!(!less("100", "1e2"));
    assert!(less("99.999", "1e2"));
    assert!(less("1.5e-7", "0.0000002"));
    assert!(less("1e-300", "1e300"));
    assert!(less("-1e300", "1e-300"));
    assert!(less("0.30000000000000004", "0.3000000000000001"));
    assert!(!less("000123", "123"));
    assert!(!less("123.000", "123"));
}

#[test]
fn equals_tolerance_is_two_to_the_minus_52() {
    // the tolerance is 2^-52 = 0.0000000000000002220446049250313080847263336181640625
    assert!(near("1", "1"));
    assert!(near("1", "1.0"));
    assert!(near("1", "1.0000000000000001"));
    assert!(near("1", "1.0000000000000002"));
    assert!(!near("1", "1.0000000000000003"));
    assert!(!near("1", "1.0000000001"));
    assert!(!near("1", "1.1"));
    assert!(near("0", "0.0000000000000002220446049250313080847263336181640624"));
    assert!(!near("0", "0.0000000000000002220446049250313080847263336181640625"));
    assert!(!near("0", "0.0000000000000002220446049250313080847263336181640626"));
    assert!(near("-0.0000000000000001", "0.0000000000000001"));
    assert!(!near("-0.0000000000000002", "0.0000000000000001"));
    assert!(near("1e-300", "-1e-300"));
    assert!(near("1e300", "1e300"));
    assert!(!near("1e300", "1.0000000000000001e300"));
    assert!(near("0.3", "0.30000000000000004"));
    assert!(near("-5", "-5.0000000000000001"));
    assert!(!near("-5", "5"));
}
