//! The conditions of rules and of dependency gates, and their evaluation on
//! one selected value.
//!
//! A condition is a bare keyword or a `name:argument` pair. A condition that
//! the engine does not know, or whose argument it cannot read, is met by
//! every value. A numeric bound is a decimal numeral, or one of the words
//! `inf`, `infinity` and `nan`, in any case and with an optional sign. A
//! numeral with more digits or a greater power of ten than `decimal` takes
//! is not read.

use crate::decimal::{number_less, number_near, parse_decimal, parse_number, parsed_number};
use crate::json::{Selected, SelectedView};
use crate::pattern::{regex_test, regex_verdict};
use crate::text::{
    after_prefix, chars_of, has_prefix, parse_count, parsed_count, same_text, string_of,
    strip_prefix,
};
use vstd::prelude::*;

verus! {

/// The length of a text in bytes of its UTF-8 encoding.
pub open spec fn utf8_length(s: Seq<char>) -> nat {
    vstd::utf8::encode_utf8(s).len()
}

/// Whether a value equals what a rule expects, by the kind of the value: a
/// string equals the expected text itself; a number equals the number that the
/// text writes, within the tolerance `2^-52`; a boolean equals `true` or
/// `false`, written so. Nothing else equals anything.
pub open spec fn equals_matches(value: SelectedView, expected: Seq<char>) -> bool {
    match value {
        SelectedView::Text(s) => s == expected,
        SelectedView::Number(numeral) => match (parsed_number(numeral), parsed_number(expected)) {
            (Some(x), Some(e)) => number_near(x, e),
            _ => false,
        },
        SelectedView::Bool(b) => (b && expected == "true"@) || (!b && expected == "false"@),
        _ => false,
    }
}

/// Whether a number lies at or above a bound. A value that is no number, or
/// whose numeral cannot be read, does not.
pub open spec fn at_least(value: SelectedView, bound: crate::decimal::Number) -> bool {
    match value {
        SelectedView::Number(numeral) => match parsed_number(numeral) {
            Some(x) => !number_less(x, bound),
            None => false,
        },
        _ => false,
    }
}

/// Whether a number lies at or below a bound.
pub open spec fn at_most(value: SelectedView, bound: crate::decimal::Number) -> bool {
    match value {
        SelectedView::Number(numeral) => match parsed_number(numeral) {
            Some(x) => !number_less(bound, x),
            None => false,
        },
        _ => false,
    }
}

/// A bound that is no number.
pub enum Unbounded {
    /// Greater than every number.
    Infinity,
    /// Smaller than every number.
    MinusInfinity,
    /// Neither smaller nor greater than any number.
    NotANumber,
}

/// `c` is the lower-case ASCII letter `letter`, or its upper-case form.
pub open spec fn letter_matches(c: char, letter: char) -> bool {
    c as u32 == letter as u32 || (65 <= c as u32 <= 90 && c as u32 + 32 == letter as u32)
}

/// `s` spells the lower-case word `word`, in any case.
pub open spec fn spells(s: Seq<char>, word: Seq<char>) -> bool {
    s.len() == word.len() && forall|i: int|
        0 <= i < s.len() ==> letter_matches(#[trigger] s[i], word[i])
}

/// The bound that `s` names, if it names one that is no number: `inf` or
/// `infinity`, with `-` before it for the negative one, or `nan`, whatever
/// its sign.
pub open spec fn named_bound(s: Seq<char>) -> Option<Unbounded> {
    let signed = s.len() > 0 && (s[0] == '-' || s[0] == '+');
    let word = if signed {
        s.skip(1)
    } else {
        s
    };
    if spells(word, seq!['i', 'n', 'f']) || spells(
        word,
        seq!['i', 'n', 'f', 'i', 'n', 'i', 't', 'y'],
    ) {
        if s[0] == '-' {
            Some(Unbounded::MinusInfinity)
        } else {
            Some(Unbounded::Infinity)
        }
    } else if spells(word, seq!['n', 'a', 'n']) {
        Some(Unbounded::NotANumber)
    } else {
        None
    }
}

/// The value is a number whose numeral can be read.
pub open spec fn readable_number(value: SelectedView) -> bool {
    value matches SelectedView::Number(numeral) && parsed_number(numeral) is Some
}

/// Whether a value meets the lower bound that `argument` writes: a number
/// that is not below the bound. Every value meets a bound that cannot be
/// read. No value is at or above infinity; every number is at or above minus
/// infinity, and none is below what is no number.
pub open spec fn meets_lower_bound(value: SelectedView, argument: Seq<char>) -> bool {
    match parsed_number(argument) {
        Some(bound) => at_least(value, bound),
        None => match named_bound(argument) {
            Some(Unbounded::Infinity) => false,
            Some(_) => readable_number(value),
            None => true,
        },
    }
}

/// Whether a value meets the upper bound that `argument` writes: a number
/// that is not above the bound. Every value meets a bound that cannot be
/// read. No value is at or below minus infinity; every number is at or below
/// infinity, and none is above what is no number.
pub open spec fn meets_upper_bound(value: SelectedView, argument: Seq<char>) -> bool {
    match parsed_number(argument) {
        Some(bound) => at_most(value, bound),
        None => match named_bound(argument) {
            Some(Unbounded::MinusInfinity) => false,
            Some(_) => readable_number(value),
            None => true,
        },
    }
}

/// Whether a selected value meets a condition.
pub open spec fn value_passes(value: SelectedView, condition: Seq<char>) -> bool {
    if condition == "required"@ {
        match value {
            SelectedView::Null => false,
            SelectedView::Text(s) => s.len() > 0,
            _ => true,
        }
    } else if condition == "is_number"@ {
        value is Number
    } else if condition == "is_string"@ {
        value is Text
    } else if condition == "is_boolean"@ {
        value is Bool
    } else if condition == "is_array"@ {
        value is Array
    } else if condition == "is_object"@ {
        value is Object
    } else if has_prefix(condition, "min_length:"@) {
        match parsed_count(after_prefix(condition, "min_length:"@)) {
            Some(n) => value matches SelectedView::Text(s) && utf8_length(s) >= n,
            None => true,
        }
    } else if has_prefix(condition, "max_length:"@) {
        match parsed_count(after_prefix(condition, "max_length:"@)) {
            Some(n) => value matches SelectedView::Text(s) && utf8_length(s) <= n,
            None => true,
        }
    } else if has_prefix(condition, "min_value:"@) {
        meets_lower_bound(value, after_prefix(condition, "min_value:"@))
    } else if has_prefix(condition, "max_value:"@) {
        meets_upper_bound(value, after_prefix(condition, "max_value:"@))
    } else if has_prefix(condition, "equals:"@) {
        equals_matches(value, after_prefix(condition, "equals:"@))
    } else if has_prefix(condition, "regex:"@) {
        match value {
            SelectedView::Text(s) => regex_verdict(after_prefix(condition, "regex:"@), s) != Some(
                false,
            ),
            _ => false,
        }
    } else {
        true
    }
}

/// Whether a selected value meets the condition of a dependency gate:
/// `equals:` with the expected text, or `not_empty`. No value meets any
/// other condition.
pub open spec fn dependency_holds(value: SelectedView, condition: Seq<char>) -> bool {
    if has_prefix(condition, "equals:"@) {
        equals_matches(value, after_prefix(condition, "equals:"@))
    } else if condition == "not_empty"@ {
        match value {
            SelectedView::Null => false,
            SelectedView::Text(s) => s.len() > 0,
            SelectedView::Array(n) => n > 0,
            SelectedView::Object(n) => n > 0,
            _ => true,
        }
    } else {
        false
    }
}

/// The length of a string in bytes.
fn byte_length(s: &String) -> (n: usize)
    ensures
        n == utf8_length(s@),
{
    s.as_str().as_bytes().len()
}

/// Whether a value equals what a rule expects.
pub fn check_equals(value: &Selected, expected: &Vec<char>) -> (r: bool)
    ensures
        r == equals_matches(value@, expected@),
{
    match value {
        Selected::Text(s) => {
            let cs = chars_of(s.as_str());
            crate::text::same_chars(&cs, expected)
        },
        Selected::Number(numeral) => {
            match parse_number(numeral.as_str()) {
                Some(x) => match parse_decimal(expected) {
                    Some(e) => x.near(&e),
                    None => false,
                },
                None => false,
            }
        },
        Selected::Bool(b) => {
            let word = string_of(expected);
            if *b {
                same_text(word.as_str(), "true")
            } else {
                same_text(word.as_str(), "false")
            }
        },
        _ => false,
    }
}

/// Whether a number lies at or above a bound.
fn check_at_least(value: &Selected, bound: &crate::decimal::Decimal) -> (r: bool)
    requires
        bound.wf(),
    ensures
        r == at_least(value@, bound@),
{
    match value {
        Selected::Number(numeral) => match parse_number(numeral.as_str()) {
            Some(x) => !x.less(bound),
            None => false,
        },
        _ => false,
    }
}

/// Whether a number lies at or below a bound.
fn check_at_most(value: &Selected, bound: &crate::decimal::Decimal) -> (r: bool)
    requires
        bound.wf(),
    ensures
        r == at_most(value@, bound@),
{
    match value {
        Selected::Number(numeral) => match parse_number(numeral.as_str()) {
            Some(x) => !bound.less(&x),
            None => false,
        },
        _ => false,
    }
}

/// Whether the characters of `cs` from `from` on spell `word`, in any case.
fn spells_from(cs: &Vec<char>, from: usize, word: &Vec<char>) -> (r: bool)
    requires
        from <= cs@.len(),
    ensures
        r == spells(cs@.skip(from as int), word@),
{
    if cs.len() - from != word.len() {
        return false;
    }
    let ghost rest = cs@.skip(from as int);
    let mut i: usize = 0;
    while i < word.len()
        invariant
            i <= word.len(),
            from + word.len() == cs.len(),
            rest == cs@.skip(from as int),
            forall|j: int| 0 <= j < i ==> letter_matches(#[trigger] rest[j], word@[j]),
        decreases word.len() - i,
    {
        let c: u32 = cs[from + i] as u32;
        let letter: u32 = word[i] as u32;
        assert(rest[i as int] == cs@[from + i]);
        if !(c == letter || (65 <= c && c <= 90 && c + 32 == letter)) {
            return false;
        }
        i = i + 1;
    }
    true
}

/// The bound that the argument names, if it names one that is no number.
pub fn read_named_bound(argument: &Vec<char>) -> (r: Option<Unbounded>)
    ensures
        r == named_bound(argument@),
{
    let signed = argument.len() > 0 && (argument[0] == '-' || argument[0] == '+');
    let from: usize = if signed {
        1
    } else {
        0
    };
    assert(argument@.skip(0) == argument@);
    let mut short: Vec<char> = Vec::new();
    short.push('i');
    short.push('n');
    short.push('f');
    assert(short@ == seq!['i', 'n', 'f']);
    let mut long: Vec<char> = Vec::new();
    long.push('i');
    long.push('n');
    long.push('f');
    long.push('i');
    long.push('n');
    long.push('i');
    long.push('t');
    long.push('y');
    assert(long@ == seq!['i', 'n', 'f', 'i', 'n', 'i', 't', 'y']);
    let mut none: Vec<char> = Vec::new();
    none.push('n');
    none.push('a');
    none.push('n');
    assert(none@ == seq!['n', 'a', 'n']);
    if spells_from(argument, from, &short) || spells_from(argument, from, &long) {
        if argument[0] == '-' {
            Some(Unbounded::MinusInfinity)
        } else {
            Some(Unbounded::Infinity)
        }
    } else if spells_from(argument, from, &none) {
        Some(Unbounded::NotANumber)
    } else {
        None
    }
}

/// Whether the value is a number whose numeral can be read.
fn check_readable(value: &Selected) -> (r: bool)
    ensures
        r == readable_number(value@),
{
    match value {
        Selected::Number(numeral) => parse_number(numeral.as_str()).is_some(),
        _ => false,
    }
}

/// Whether a value meets the lower bound that `argument` writes.
pub fn check_lower_bound(value: &Selected, argument: &Vec<char>) -> (r: bool)
    ensures
        r == meets_lower_bound(value@, argument@),
{
    match parse_decimal(argument) {
        Some(bound) => check_at_least(value, &bound),
        None => match read_named_bound(argument) {
            Some(Unbounded::Infinity) => false,
            Some(_) => check_readable(value),
            None => true,
        },
    }
}

/// Whether a value meets the upper bound that `argument` writes.
pub fn check_upper_bound(value: &Selected, argument: &Vec<char>) -> (r: bool)
    ensures
        r == meets_upper_bound(value@, argument@),
{
    match parse_decimal(argument) {
        Some(bound) => check_at_most(value, &bound),
        None => match read_named_bound(argument) {
            Some(Unbounded::MinusInfinity) => false,
            Some(_) => check_readable(value),
            None => true,
        },
    }
}

/// Whether a selected value meets a condition.
pub fn check_value(value: &Selected, condition: &str) -> (r: bool)
    ensures
        r == value_passes(value@, condition@),
{
    if same_text(condition, "required") {
        return match value {
            Selected::Null => false,
            Selected::Text(s) => {
                let cs = chars_of(s.as_str());
                cs.len() > 0
            },
            _ => true,
        };
    }
    if same_text(condition, "is_number") {
        return match value {
            Selected::Number(_) => true,
            _ => false,
        };
    }
    if same_text(condition, "is_string") {
        return match value {
            Selected::Text(_) => true,
            _ => false,
        };
    }
    if same_text(condition, "is_boolean") {
        return match value {
            Selected::Bool(_) => true,
            _ => false,
        };
    }
    if same_text(condition, "is_array") {
        return match value {
            Selected::Array(_) => true,
            _ => false,
        };
    }
    if same_text(condition, "is_object") {
        return match value {
            Selected::Object(_) => true,
            _ => false,
        };
    }
    let cs = chars_of(condition);
    if let Some(argument) = strip_prefix(&cs, "min_length:") {
        return match parse_count(&argument) {
            Some(n) => match value {
                Selected::Text(s) => byte_length(s) >= n,
                _ => false,
            },
            None => true,
        };
    }
    if let Some(argument) = strip_prefix(&cs, "max_length:") {
        return match parse_count(&argument) {
            Some(n) => match value {
                Selected::Text(s) => byte_length(s) <= n,
                _ => false,
            },
            None => true,
        };
    }
    if let Some(argument) = strip_prefix(&cs, "min_value:") {
        return check_lower_bound(value, &argument);
    }
    if let Some(argument) = strip_prefix(&cs, "max_value:") {
        return check_upper_bound(value, &argument);
    }
    if let Some(argument) = strip_prefix(&cs, "equals:") {
        return check_equals(value, &argument);
    }
    if let Some(argument) = strip_prefix(&cs, "regex:") {
        return match value {
            Selected::Text(s) => {
                let pattern = string_of(&argument);
                match regex_test(pattern.as_str(), s.as_str()) {
                    Some(found) => found,
                    None => true,
                }
            },
            _ => false,
        };
    }
    true
}

/// Whether a selected value meets the condition of a dependency gate.
pub fn check_dependency(value: &Selected, condition: &str) -> (r: bool)
    ensures
        r == dependency_holds(value@, condition@),
{
    let cs = chars_of(condition);
    if let Some(expected) = strip_prefix(&cs, "equals:") {
        return check_equals(value, &expected);
    }
    if same_text(condition, "not_empty") {
        return match value {
            Selected::Null => false,
            Selected::Text(s) => {
                let text = chars_of(s.as_str());
                text.len() > 0
            },
            Selected::Array(n) => *n > 0,
            Selected::Object(n) => *n > 0,
            _ => true,
        };
    }
    false
}

} // verus!
