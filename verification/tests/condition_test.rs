use dqr::condition::{check_dependency, check_equals, check_value};
use dqr::evaluation::check_dependency_met;
use dqr::json::Selected;

fn text(s: &str) -> Selected {
    Selected::Text(s.to_string())
}

fn number(s: &str) -> Selected {
    Selected::Number(s.to_string())
}

fn chars(s: &str) -> Vec<char> {
    s.chars().collect()
}

#[test]
fn conditions_are_checked_on_given_values() {
    assert!(check_value(&text("abc"), "required"));
    assert!(!check_value(&text(""), "required"));
    assert!(!check_value(&Selected::Null, "required"));
    assert!(check_value(&Selected::Array(0), "required"));
    assert!(check_value(&number("5"), "is_number"));
    assert!(!check_value(&text("5"), "is_number"));
    assert!(check_value(&Selected::Bool(false), "is_boolean"));
    assert!(check_value(&Selected::Array(3), "is_array"));
    assert!(check_value(&Selected::Object(0), "is_object"));
    assert!(!check_value(&Selected::Object(0), "is_array"));
    assert!(check_value(&text("abc"), "min_length:3"));
    assert!(!check_value(&text("abc"), "min_length:4"));
    assert!(check_value(&text("abc"), "max_length:3"));
    assert!(!check_value(&text("abc"), "max_length:2"));
    assert!(check_value(&number("18"), "min_value:18"));
    assert!(!check_value(&number("17.9"), "min_value:18"));
    assert!(check_value(&number("65"), "max_value:65"));
    assert!(!check_value(&number("65.1"), "max_value:65"));
    assert!(check_value(&text("a@b.cd"), "regex:^.+@.+$"));
    assert!(!check_value(&text("ab.cd"), "regex:^.+@.+$"));
    assert!(check_value(&Selected::Null, "something else"));
}

#[test]
fn a_number_whose_numeral_cannot_be_read_meets_no_bound() {
    assert!(!check_value(&number("not a numeral"), "min_value:1"));
    assert!(!check_value(&number("not a numeral"), "max_value:1"));
    assert!(!check_value(&number(""), "equals:1"));
    assert!(check_value(&number("not a numeral"), "is_number"));
}

#[test]
fn equality_is_checked_on_given_values() {
    assert!(check_equals(&text("a"), &chars("a")));
    assert!(!check_equals(&text("a"), &chars("b")));
    assert!(check_equals(&number("1.50"), &chars("1.5")));
    assert!(check_equals(&number("1e0"), &chars("1")));
    assert!(!check_equals(&number("2"), &chars("1")));
    assert!(check_equals(&Selected::Bool(true), &chars("true")));
    assert!(!check_equals(&Selected::Bool(true), &chars("false")));
    assert!(!check_equals(&Selected::Null, &chars("")));
    assert!(!check_equals(&Selected::Array(1), &chars("1")));
    assert!(!check_equals(&Selected::Object(1), &chars("1")));
}

#[test]
fn dependencies_are_checked_on_given_values() {
    assert!(check_dependency(&text("card"), "equals:card"));
    assert!(!check_dependency(&text("bank"), "equals:card"));
    assert!(check_dependency(&text("x"), "not_empty"));
    assert!(!check_dependency(&text(""), "not_empty"));
    assert!(check_dependency(&Selected::Array(1), "not_empty"));
    assert!(!check_dependency(&Selected::Array(0), "not_empty"));
    assert!(check_dependency(&Selected::Object(2), "not_empty"));
    assert!(!check_dependency(&Selected::Object(0), "not_empty"));
    assert!(check_dependency(&number("0"), "not_empty"));
    assert!(check_dependency(&Selected::Bool(false), "not_empty"));
    assert!(!check_dependency(&Selected::Null, "not_empty"));
    assert!(!check_dependency(&text("x"), "required"));
    assert!(!check_dependency(&text("x"), ""));
    assert!(!check_dependency_met(&Vec::new(), "not_empty"));
    assert!(check_dependency_met(&vec![Selected::Null, text("x")], "not_empty"));
    assert!(!check_dependency_met(&vec![Selected::Null, text("")], "not_empty"));
    assert!(check_dependency_met(&vec![text("a"), text("b")], "equals:b"));
    assert!(!check_dependency_met(&vec![text("a"), text("b")], "equals:c"));
}
