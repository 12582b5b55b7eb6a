use dqr::text::{
    chars_of, parse_count, render_number, same_text, split, string_of, strip_prefix, text_less,
    trim,
};

fn cs(text: &str) -> Vec<char> {
    text.chars().collect()
}

#[test]
fn strings_and_characters_convert_both_ways() {
    assert_eq!(chars_of("héllo"), vec!['h', 'é', 'l', 'l', 'o']);
    assert_eq!(string_of(&vec!['h', 'é', 'y']), "héy");
    assert_eq!(string_of(&chars_of("")), "");
    assert!(same_text("abc", "abc"));
    assert!(!same_text("abc", "abd"));
    assert!(!same_text("abc", "ab"));
}

#[test]
fn prefixes_are_stripped() {
    assert_eq!(strip_prefix(&cs("min_length:3"), "min_length:"), Some(cs("3")));
    assert_eq!(strip_prefix(&cs("equals:"), "equals:"), Some(cs("")));
    assert_eq!(strip_prefix(&cs("equal"), "equals:"), None);
    assert_eq!(strip_prefix(&cs("xequals:1"), "equals:"), None);
}

#[test]
fn identifiers_order_like_strings() {
    let samples = ["", "a", "A", "ab", "b", "R1", "R10", "R2", "age_min", "é", "z"];
    for a in samples {
        for b in samples {
            assert_eq!(text_less(&cs(a), &cs(b)), a < b, "{} {}", a, b);
        }
    }
}

#[test]
fn white_space_is_trimmed() {
    assert_eq!(trim(&cs("  a b \t\n")), cs("a b"));
    assert_eq!(trim(&cs("\u{a0}x\u{3000}")), cs("x"));
    assert_eq!(trim(&cs("   ")), cs(""));
    assert_eq!(trim(&cs("")), cs(""));
    assert_eq!(trim(&cs("x")), cs("x"));
}

#[test]
fn texts_split_at_each_separator() {
    assert_eq!(split(&cs("a,b"), ','), vec![cs("a"), cs("b")]);
    assert_eq!(split(&cs(""), ','), vec![cs("")]);
    assert_eq!(split(&cs("a,"), ','), vec![cs("a"), cs("")]);
    assert_eq!(split(&cs(",a,,b"), ','), vec![cs(""), cs("a"), cs(""), cs("b")]);
    assert_eq!(split(&cs("abc"), ','), vec![cs("abc")]);
}

#[test]
fn counts_are_written_and_read() {
    assert_eq!(render_number(0), cs("0"));
    assert_eq!(render_number(7), cs("7"));
    assert_eq!(render_number(10), cs("10"));
    assert_eq!(render_number(1234567890), cs("1234567890"));
    assert_eq!(render_number(usize::MAX), cs(&usize::MAX.to_string()));
    assert_eq!(parse_count(&cs("3")), Some(3));
    assert_eq!(parse_count(&cs("+3")), Some(3));
    assert_eq!(parse_count(&cs("007")), Some(7));
    assert_eq!(parse_count(&cs(&usize::MAX.to_string())), Some(usize::MAX));
    assert_eq!(parse_count(&cs("18446744073709551616")), None);
    assert_eq!(parse_count(&cs("99999999999999999999999")), None);
    assert_eq!(parse_count(&cs("")), None);
    assert_eq!(parse_count(&cs("+")), None);
    assert_eq!(parse_count(&cs("-3")), None);
    assert_eq!(parse_count(&cs("3 ")), None);
    assert_eq!(parse_count(&cs("3a")), None);
}
