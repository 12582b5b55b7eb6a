//! JSON documents and the values that a path selects in them.
//!
//! Documents are held by `serde_json` and queried by `jsonpath_lib`. The
//! engine reads a selected value only at its top: which kind of value it is,
//! the text of a string, the numeral of a number, the size of an array or an
//! object.

use crate::text::{char_is_whitespace, chars_of, digit_of, is_digit, is_whitespace};
use vstd::prelude::*;

verus! {

/// A JSON document, as `serde_json` holds it. To the engine it is opaque:
/// what it holds is spoken of through `json_text`.
#[verifier::external_type_specification]
#[verifier::external_body]
pub struct ExValue(serde_json::Value);

/// What a document holds: its compact JSON text, as `serde_json` writes it.
/// Two documents with the same text hold the same values in the same order.
pub uninterp spec fn json_text(document: serde_json::Value) -> Seq<char>;

/// The values that `jsonpath_lib::select` finds in the document with the
/// given text under the given path, each reduced to what the engine reads of
/// it, in the order of the query result; `None` where the path is refused.
pub uninterp spec fn selection(document: Seq<char>, path: Seq<char>) -> Option<Seq<SelectedView>>;

/// The text of the document that `serde_json` reads from a JSON text;
/// `None` where the text is not valid JSON.
pub uninterp spec fn json_normal_form(text: Seq<char>) -> Option<Seq<char>>;

/// The text of the document that is one string with the given content: the
/// content quoted and escaped.
pub uninterp spec fn json_string_literal(content: Seq<char>) -> Seq<char>;

/// The content of the document with the given text, where that document is
/// one string; `None` where it is another kind of value.
pub uninterp spec fn json_string_content(document: Seq<char>) -> Option<Seq<char>>;

/// A selected value, reduced to what the engine reads of it.
#[derive(Debug)]
pub enum Selected {
    Null,
    Bool(bool),
    /// A number, by its numeral.
    Number(String),
    /// A string, by its content.
    Text(String),
    /// An array, by its length.
    Array(usize),
    /// An object, by the number of its members.
    Object(usize),
}

/// The model of a selected value.
pub enum SelectedView {
    Null,
    Bool(bool),
    Number(Seq<char>),
    Text(Seq<char>),
    Array(nat),
    Object(nat),
}

impl View for Selected {
    type V = SelectedView;

    open spec fn view(&self) -> SelectedView {
        match self {
            Selected::Null => SelectedView::Null,
            Selected::Bool(b) => SelectedView::Bool(*b),
            Selected::Number(n) => SelectedView::Number(n@),
            Selected::Text(s) => SelectedView::Text(s@),
            Selected::Array(n) => SelectedView::Array(*n as nat),
            Selected::Object(n) => SelectedView::Object(*n as nat),
        }
    }
}

/// The models of a sequence of selected values.
pub open spec fn selected_views(s: Seq<Selected>) -> Seq<SelectedView> {
    s.map_values(|v: Selected| v@)
}

/// The longest path that the engine evaluates, in characters.
pub const MAX_PATH_LENGTH: usize = 1024;

/// The first index at or after `from` that holds no white space.
pub open spec fn after_spaces(path: Seq<char>, from: int) -> int
    decreases path.len() - from,
{
    if from < 0 || from >= path.len() || !is_whitespace(path[from]) {
        from
    } else {
        after_spaces(path, from + 1)
    }
}

/// The first index at or after `from` that holds no `0`.
pub open spec fn after_zeros(path: Seq<char>, from: int) -> int
    decreases path.len() - from,
{
    if from < 0 || from >= path.len() || path[from] != '0' {
        from
    } else {
        after_zeros(path, from + 1)
    }
}

/// A zero stands at `from` as the step of a slice: behind white space and
/// an optional `+`, one or more `0` and then no further digit.
pub open spec fn zero_step_at(path: Seq<char>, from: int) -> bool {
    let start = after_spaces(path, from);
    let digits = if 0 <= start < path.len() && path[start] == '+' {
        start + 1
    } else {
        start
    };
    let end = after_zeros(path, digits);
    end > digits && !(0 <= end < path.len() && is_digit(path[end]))
}

/// A `:` stands before index `i` with no `]` between: a `:` at `i` would
/// introduce the step of a slice.
pub open spec fn slice_open(path: Seq<char>, i: int) -> bool
    decreases i,
{
    if i <= 0 || i > path.len() {
        false
    } else if path[i - 1] == ':' {
        true
    } else if path[i - 1] == ']' {
        false
    } else {
        slice_open(path, i - 1)
    }
}

/// The most digits before, and behind, the point of a number in a filter.
pub const MAX_FILTER_DIGITS: usize = 15;

/// A character of a member name in a filter: an ASCII letter, a digit or `_`.
pub open spec fn is_name_char(c: char) -> bool {
    let u = c as u32;
    48 <= u <= 57 || 65 <= u <= 90 || 97 <= u <= 122 || u == 95
}

/// A character of a quoted text in a filter: any but the quotes, the
/// backslash and `?`.
pub open spec fn is_text_char(c: char) -> bool {
    c != '\'' && c != '"' && c != '\\' && c != '?'
}

/// The first index at or after `from` that holds no blank.
pub open spec fn blanks_end(path: Seq<char>, from: int) -> int
    decreases path.len() - from,
{
    if from < 0 || from >= path.len() || path[from] != ' ' {
        from
    } else {
        blanks_end(path, from + 1)
    }
}

/// The first index at or after `from` that holds no name character.
pub open spec fn name_end(path: Seq<char>, from: int) -> int
    decreases path.len() - from,
{
    if from < 0 || from >= path.len() || !is_name_char(path[from]) {
        from
    } else {
        name_end(path, from + 1)
    }
}

/// The first index at or after `from` that holds no digit.
pub open spec fn digits_end(path: Seq<char>, from: int) -> int
    decreases path.len() - from,
{
    if from < 0 || from >= path.len() || !is_digit(path[from]) {
        from
    } else {
        digits_end(path, from + 1)
    }
}

/// The first index at or after `from` that holds no character of a quoted
/// text.
pub open spec fn text_end(path: Seq<char>, from: int) -> int
    decreases path.len() - from,
{
    if from < 0 || from >= path.len() || !is_text_char(path[from]) {
        from
    } else {
        text_end(path, from + 1)
    }
}

/// The index behind the steps `.name` that stand at `from`, one after the
/// other.
pub open spec fn steps_end(path: Seq<char>, from: int) -> int
    decreases path.len() - from,
{
    let end = name_end(path, from + 1);
    if 0 <= from < path.len() && path[from] == '.' && from + 1 < end <= path.len() {
        steps_end(path, end)
    } else {
        from
    }
}

/// `c` stands at index `i`.
pub open spec fn holds(path: Seq<char>, i: int, c: char) -> bool {
    0 <= i < path.len() && path[i] == c
}

/// The length of the comparison operator at `from`: `==`, `!=`, `<=`, `>=`,
/// `<` or `>`; zero where none stands there.
pub open spec fn operator_length(path: Seq<char>, from: int) -> int {
    if (holds(path, from, '=') || holds(path, from, '!') || holds(path, from, '<') || holds(
        path,
        from,
        '>',
    )) && holds(path, from + 1, '=') {
        2
    } else if holds(path, from, '<') || holds(path, from, '>') {
        1
    } else {
        0
    }
}

/// The length of the number at `from`: an optional `-`, one to fifteen
/// digits, and optionally a point with one to fifteen digits behind it; zero
/// where none stands there.
pub open spec fn number_length(path: Seq<char>, from: int) -> int {
    let start = if holds(path, from, '-') {
        from + 1
    } else {
        from
    };
    let whole = digits_end(path, start);
    let fraction = digits_end(path, whole + 1);
    if !(start < whole <= start + MAX_FILTER_DIGITS) {
        0
    } else if holds(path, whole, '.') && whole + 1 < fraction <= whole + 1 + MAX_FILTER_DIGITS {
        fraction - from
    } else {
        whole - from
    }
}

/// The length of the literal at `from`: a text between two `'` or two `"`,
/// the word `true` or `false`, or a number; zero where none stands there.
pub open spec fn literal_length(path: Seq<char>, from: int) -> int {
    if holds(path, from, '\'') {
        if holds(path, text_end(path, from + 1), '\'') {
            text_end(path, from + 1) + 1 - from
        } else {
            0
        }
    } else if holds(path, from, '"') {
        if holds(path, text_end(path, from + 1), '"') {
            text_end(path, from + 1) + 1 - from
        } else {
            0
        }
    } else if holds(path, from, 't') && holds(path, from + 1, 'r') && holds(path, from + 2, 'u')
        && holds(path, from + 3, 'e') {
        4
    } else if holds(path, from, 'f') && holds(path, from + 1, 'a') && holds(path, from + 2, 'l')
        && holds(path, from + 3, 's') && holds(path, from + 4, 'e') {
        5
    } else {
        number_length(path, from)
    }
}

/// The index behind the term at `from` and the blanks that follow it, or
/// `-1` where no term stands there. A term is `@` with any number of steps
/// `.name`, by itself or compared with a literal: `@.a.b`, `@.a == 'x'`,
/// `@ < 5`. Blanks may stand around the operator.
pub open spec fn term_end(path: Seq<char>, from: int) -> int {
    let operator = blanks_end(path, steps_end(path, from + 1));
    let literal = blanks_end(path, operator + operator_length(path, operator));
    if !holds(path, from, '@') {
        -1
    } else if operator_length(path, operator) == 0 {
        operator
    } else if literal_length(path, literal) == 0 {
        -1
    } else {
        blanks_end(path, literal + literal_length(path, literal))
    }
}

/// `&&` or `||` stands at `from`.
pub open spec fn joins(path: Seq<char>, from: int) -> bool {
    (holds(path, from, '&') && holds(path, from + 1, '&')) || (holds(path, from, '|') && holds(
        path,
        from + 1,
        '|',
    ))
}

/// Terms stand from `from` on, with `&&` or `||` between them, up to `)]`.
pub open spec fn terms_close(path: Seq<char>, from: int) -> bool
    decreases path.len() - from,
{
    let end = term_end(path, from);
    let next = blanks_end(path, end + 2);
    if !(0 <= from < end <= path.len()) {
        false
    } else if holds(path, end, ')') {
        holds(path, end + 1, ']')
    } else if joins(path, end) && from < next <= path.len() {
        terms_close(path, next)
    } else {
        false
    }
}

/// A filter of the plain form stands at `open`: `[?(`, one or more terms
/// with `&&` or `||` between them, and `)]`. Blanks may stand before and
/// behind each term.
pub open spec fn plain_filter_at(path: Seq<char>, open: int) -> bool {
    &&& holds(path, open, '[')
    &&& holds(path, open + 1, '?')
    &&& holds(path, open + 2, '(')
    &&& terms_close(path, blanks_end(path, open + 3))
}

/// The paths that the engine evaluates: at most `MAX_PATH_LENGTH`
/// characters, no filter but of the plain form, and no slice with the step
/// zero. Member names, indices, wildcards, recursive descent, unions and
/// slices with another step are all among them. Left out are the filters
/// with parentheses inside, with a path that begins at `$`, with brackets,
/// wildcards or recursive descent behind `@`, with a literal on the left,
/// and with a number of more than fifteen digits or with an exponent.
pub open spec fn path_supported(path: Seq<char>) -> bool {
    &&& path.len() <= MAX_PATH_LENGTH
    &&& forall|i: int|
        0 <= i < path.len() ==> (#[trigger] path[i] == '?' ==> plain_filter_at(path, i - 1)) && (
        path[i] == ':' && slice_open(path, i) ==> !zero_step_at(path, i + 1))
}

/// Whether a zero stands at `from` as the step of a slice.
fn zero_step_follows(cs: &Vec<char>, from: usize) -> (r: bool)
    requires
        from <= cs@.len(),
    ensures
        r == zero_step_at(cs@, from as int),
{
    let mut start: usize = from;
    while start < cs.len() && char_is_whitespace(cs[start])
        invariant
            from <= start <= cs@.len(),
            after_spaces(cs@, from as int) == after_spaces(cs@, start as int),
        decreases cs@.len() - start,
    {
        start = start + 1;
    }
    let digits: usize = if start < cs.len() && cs[start] == '+' {
        start + 1
    } else {
        start
    };
    let mut end: usize = digits;
    while end < cs.len() && cs[end] == '0'
        invariant
            digits <= end <= cs@.len(),
            after_zeros(cs@, digits as int) == after_zeros(cs@, end as int),
        decreases cs@.len() - end,
    {
        end = end + 1;
    }
    end > digits && !(end < cs.len() && digit_of(cs[end]).is_some())
}

/// Whether `c` is a character of a member name in a filter.
fn name_char(c: char) -> (r: bool)
    ensures
        r == is_name_char(c),
{
    let u: u32 = c as u32;
    (48 <= u && u <= 57) || (65 <= u && u <= 90) || (97 <= u && u <= 122) || u == 95
}

/// Whether `c` is a character of a quoted text in a filter.
fn text_char(c: char) -> (r: bool)
    ensures
        r == is_text_char(c),
{
    c != '\'' && c != '"' && c != '\\' && c != '?'
}

/// The first index at or after `from` that holds no blank.
fn skip_blanks(cs: &Vec<char>, from: usize) -> (end: usize)
    requires
        from <= cs@.len(),
    ensures
        end == blanks_end(cs@, from as int),
        from <= end <= cs@.len(),
{
    let mut end: usize = from;
    while end < cs.len() && cs[end] == ' '
        invariant
            from <= end <= cs@.len(),
            blanks_end(cs@, from as int) == blanks_end(cs@, end as int),
        decreases cs@.len() - end,
    {
        end = end + 1;
    }
    end
}

/// The first index at or after `from` that holds no name character.
fn skip_name(cs: &Vec<char>, from: usize) -> (end: usize)
    requires
        from <= cs@.len(),
    ensures
        end == name_end(cs@, from as int),
        from <= end <= cs@.len(),
{
    let mut end: usize = from;
    while end < cs.len() && name_char(cs[end])
        invariant
            from <= end <= cs@.len(),
            name_end(cs@, from as int) == name_end(cs@, end as int),
        decreases cs@.len() - end,
    {
        end = end + 1;
    }
    end
}

/// The first index at or after `from` that holds no digit.
fn skip_digits(cs: &Vec<char>, from: usize) -> (end: usize)
    requires
        from <= cs@.len(),
    ensures
        end == digits_end(cs@, from as int),
        from <= end <= cs@.len(),
{
    let mut end: usize = from;
    while end < cs.len() && digit_of(cs[end]).is_some()
        invariant
            from <= end <= cs@.len(),
            digits_end(cs@, from as int) == digits_end(cs@, end as int),
        decreases cs@.len() - end,
    {
        end = end + 1;
    }
    end
}

/// The first index at or after `from` that holds no character of a quoted
/// text.
fn skip_text(cs: &Vec<char>, from: usize) -> (end: usize)
    requires
        from <= cs@.len(),
    ensures
        end == text_end(cs@, from as int),
        from <= end <= cs@.len(),
{
    let mut end: usize = from;
    while end < cs.len() && text_char(cs[end])
        invariant
            from <= end <= cs@.len(),
            text_end(cs@, from as int) == text_end(cs@, end as int),
        decreases cs@.len() - end,
    {
        end = end + 1;
    }
    end
}

/// The index behind the steps `.name` that stand at `from`.
fn skip_steps(cs: &Vec<char>, from: usize) -> (end: usize)
    requires
        from <= cs@.len(),
    ensures
        end == steps_end(cs@, from as int),
        from <= end <= cs@.len(),
{
    let mut at: usize = from;
    loop
        invariant_except_break
            from <= at <= cs@.len(),
            steps_end(cs@, from as int) == steps_end(cs@, at as int),
        ensures
            from <= at <= cs@.len(),
            at == steps_end(cs@, from as int),
        decreases cs@.len() - at,
    {
        if !(at < cs.len() && cs[at] == '.') {
            break ;
        }
        let end = skip_name(cs, at + 1);
        if end <= at + 1 {
            break ;
        }
        at = end;
    }
    at
}

/// Whether `c` stands at index `i`.
fn holds_char(cs: &Vec<char>, i: usize, c: char) -> (r: bool)
    ensures
        r == holds(cs@, i as int, c),
{
    i < cs.len() && cs[i] == c
}

/// The length of the comparison operator at `from`.
fn operator_width(cs: &Vec<char>, from: usize) -> (n: usize)
    requires
        from <= cs@.len() <= MAX_PATH_LENGTH,
    ensures
        n == operator_length(cs@, from as int),
        from + n <= cs@.len(),
{
    if from >= cs.len() {
        return 0;
    }
    let c = cs[from];
    let doubled = from + 1 < cs.len() && cs[from + 1] == '=';
    if (c == '=' || c == '!' || c == '<' || c == '>') && doubled {
        2
    } else if c == '<' || c == '>' {
        1
    } else {
        0
    }
}

/// The length of the number at `from`.
fn number_width(cs: &Vec<char>, from: usize) -> (n: usize)
    requires
        from <= cs@.len() <= MAX_PATH_LENGTH,
    ensures
        n == number_length(cs@, from as int),
        from + n <= cs@.len(),
{
    let start: usize = if holds_char(cs, from, '-') {
        from + 1
    } else {
        from
    };
    let whole = skip_digits(cs, start);
    if whole <= start || whole - start > MAX_FILTER_DIGITS {
        return 0;
    }
    if whole < cs.len() && cs[whole] == '.' {
        let fraction = skip_digits(cs, whole + 1);
        if fraction > whole + 1 && fraction - (whole + 1) <= MAX_FILTER_DIGITS {
            return fraction - from;
        }
    } else {
        assert(!holds(cs@, whole as int, '.'));
    }
    whole - from
}

/// The length of the literal at `from`.
fn literal_width(cs: &Vec<char>, from: usize) -> (n: usize)
    requires
        from <= cs@.len() <= MAX_PATH_LENGTH,
    ensures
        n == literal_length(cs@, from as int),
        from + n <= cs@.len(),
{
    if holds_char(cs, from, '\'') {
        let end = skip_text(cs, from + 1);
        if holds_char(cs, end, '\'') {
            end + 1 - from
        } else {
            0
        }
    } else if holds_char(cs, from, '"') {
        let end = skip_text(cs, from + 1);
        if holds_char(cs, end, '"') {
            end + 1 - from
        } else {
            0
        }
    } else if from < cs.len() && cs.len() - from >= 4 && cs[from] == 't' && cs[from + 1] == 'r'
        && cs[from + 2] == 'u' && cs[from + 3] == 'e' {
        4
    } else if from < cs.len() && cs.len() - from >= 5 && cs[from] == 'f' && cs[from + 1] == 'a'
        && cs[from + 2] == 'l' && cs[from + 3] == 's' && cs[from + 4] == 'e' {
        5
    } else {
        number_width(cs, from)
    }
}

/// The index behind the term at `from` and the blanks that follow it, if a
/// term stands there.
fn skip_term(cs: &Vec<char>, from: usize) -> (end: Option<usize>)
    requires
        from <= cs@.len() <= MAX_PATH_LENGTH,
    ensures
        match end {
            Some(e) => e == term_end(cs@, from as int) && from < e <= cs@.len(),
            None => term_end(cs@, from as int) == -1,
        },
{
    if !holds_char(cs, from, '@') {
        return None;
    }
    let operator = skip_blanks(cs, skip_steps(cs, from + 1));
    let width = operator_width(cs, operator);
    if width == 0 {
        return Some(operator);
    }
    let literal = skip_blanks(cs, operator + width);
    let length = literal_width(cs, literal);
    if length == 0 {
        return None;
    }
    Some(skip_blanks(cs, literal + length))
}

/// Whether a filter of the plain form stands at `open`.
fn plain_filter_stands(cs: &Vec<char>, open: usize) -> (r: bool)
    requires
        open + 1 < cs@.len() <= MAX_PATH_LENGTH,
    ensures
        r == plain_filter_at(cs@, open as int),
{
    if !(cs[open] == '[' && cs[open + 1] == '?' && holds_char(cs, open + 2, '(')) {
        return false;
    }
    let mut from: usize = skip_blanks(cs, open + 3);
    loop
        invariant
            from <= cs@.len() <= MAX_PATH_LENGTH,
            holds(cs@, open as int, '['),
            holds(cs@, open + 1, '?'),
            holds(cs@, open + 2, '('),
            plain_filter_at(cs@, open as int) == terms_close(cs@, from as int),
        decreases cs@.len() - from,
    {
        let end = match skip_term(cs, from) {
            Some(end) => end,
            None => {
                return false;
            },
        };
        if holds_char(cs, end, ')') {
            return holds_char(cs, end + 1, ']');
        }
        let joined = (holds_char(cs, end, '&') && holds_char(cs, end + 1, '&')) || (holds_char(
            cs,
            end,
            '|',
        ) && holds_char(cs, end + 1, '|'));
        if !joined {
            return false;
        }
        from = skip_blanks(cs, end + 2);
    }
}

/// Whether the engine evaluates `path`.
pub fn is_supported_path(path: &str) -> (r: bool)
    ensures
        r == path_supported(path@),
{
    let cs = chars_of(path);
    if cs.len() > MAX_PATH_LENGTH {
        return false;
    }
    let mut open: bool = false;
    let mut i: usize = 0;
    while i < cs.len()
        invariant
            i <= cs.len() <= MAX_PATH_LENGTH,
            cs@ == path@,
            open == slice_open(cs@, i as int),
            forall|j: int|
                0 <= j < i ==> (#[trigger] cs@[j] == '?' ==> plain_filter_at(cs@, j - 1)) && (
                cs@[j] == ':' && slice_open(cs@, j) ==> !zero_step_at(cs@, j + 1)),
        decreases cs.len() - i,
    {
        if cs[i] == '?' {
            if i == 0 || !plain_filter_stands(&cs, i - 1) {
                return false;
            }
        }
        if cs[i] == ':' {
            if open && zero_step_follows(&cs, i + 1) {
                return false;
            }
            open = true;
        } else if cs[i] == ']' {
            open = false;
        }
        i = i + 1;
    }
    true
}

/// `Value::to_string` of `serde_json`: the compact JSON text of the document.
/// Writing a document cannot fail: its numbers are finite and the names of
/// its members are strings.
#[verifier::external_body]
pub(crate) fn document_text(json: &serde_json::Value) -> (out: String)
    ensures
        out@ == json_text(*json),
{
    json.to_string()
}

/// `jsonpath_lib::select`: the values of the document that the path selects,
/// in the order of the query result, each handed out as its kind with the
/// content of a string, the numeral of a number, or the size of an array or
/// object. `None` where `select` returns an error. `path_supported` keeps
/// away the paths on which `select` can panic: a slice with the step zero,
/// and filters with an operand that `select` does not implement (a union, a
/// slice, an index or another path inside the filter), with a number that is
/// not finite, or with a term missing. In a filter of the plain form each
/// term is the members that `@` and names lead to, by themselves or compared
/// with one finite number, one text or one boolean; each term leaves one
/// result, `&&` and `||` join two into one, and the end of the filter takes
/// the last. `path_supported` also keeps away paths long enough to exhaust
/// the stack of the recursive parser.
#[verifier::external_body]
pub(crate) fn select_values(json: &serde_json::Value, path: &str) -> (r: Option<Vec<Selected>>)
    requires
        path_supported(path@),
    ensures
        match r {
            Some(values) => selection(json_text(*json), path@) == Some(selected_views(values@)),
            None => selection(json_text(*json), path@) is None,
        },
{
    let found = jsonpath_lib::select(json, path).ok()?;
    Some(found.into_iter().map(|v| match v {
        serde_json::Value::Null => Selected::Null,
        serde_json::Value::Bool(b) => Selected::Bool(*b),
        serde_json::Value::Number(n) => Selected::Number(n.to_string()),
        serde_json::Value::String(s) => Selected::Text(s.clone()),
        serde_json::Value::Array(a) => Selected::Array(a.len()),
        serde_json::Value::Object(o) => Selected::Object(o.len()),
    }).collect())
}

/// `serde_json::from_str`: the document that a JSON text writes. `None`
/// where the text is not valid JSON.
#[verifier::external_body]
pub(crate) fn parse_document(text: &str) -> (r: Option<serde_json::Value>)
    ensures
        match r {
            Some(document) => json_normal_form(text@) == Some(json_text(document)),
            None => json_normal_form(text@) is None,
        },
{
    serde_json::from_str::<serde_json::Value>(text).ok()
}

/// `Value::String` of `serde_json`: the document that is one string with the
/// given content. Its content is read back as it was given, and its text is
/// read back as the same document.
#[verifier::external_body]
pub(crate) fn string_document(content: &str) -> (out: serde_json::Value)
    ensures
        json_text(out) == json_string_literal(content@),
        json_string_content(json_text(out)) == Some(content@),
        json_normal_form(json_text(out)) == Some(json_text(out)),
{
    serde_json::Value::String(content.to_string())
}

/// `Value::as_str` of `serde_json`: the content of a document that is one
/// string. `None` where the document is another kind of value.
#[verifier::external_body]
pub(crate) fn string_content(document: &serde_json::Value) -> (r: Option<String>)
    ensures
        match r {
            Some(content) => json_string_content(json_text(*document)) == Some(content@),
            None => json_string_content(json_text(*document)) is None,
        },
{
    document.as_str().map(|s| s.to_string())
}

} // verus!
