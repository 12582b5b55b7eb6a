use dqr::evaluation::{evaluate_rule, RuleOutcome};
use dqr::json::is_supported_path;
use dqr::models::{ConditionalLogic, ValidationRule};
use serde_json::Value;

fn rule_on(selector: &str) -> ValidationRule {
    ValidationRule {
        id: "r".to_string(),
        selector: selector.to_string(),
        condition: "required".to_string(),
        key_fields: String::new(),
        journey: "DEFAULT".to_string(),
        system: "ALL".to_string(),
        depends_on_selector: String::new(),
        depends_on_condition: String::new(),
        parameters: Vec::new(),
        logic_type: ConditionalLogic::Standard,
        parent_rule_id: String::new(),
    }
}

fn sample() -> Value {
    serde_json::from_str(
        r#"{"a": {"a": [1, {"a": 2, "b": [true, null, "x"]}], "0": "zero"},
            "b": [[1, 2], [3], []], "1": {"a": "deep"}, "": 5, "c d": [0.5, -1e300]}"#,
    )
    .unwrap()
}

#[test]
fn every_supported_path_is_answered() {
    // every string over these characters that the engine takes for a path
    // is evaluated to an outcome
    let alphabet: Vec<char> =
        "$$$...[[[]]]**''\"\"@()=<>!&|-+0011a b\\~^/%#{}:::,,".chars().collect();
    let document = sample();
    let mut state: u64 = 0x2545F4914F6CDD1D;
    let mut checked = 0;
    let mut selected = 0;
    for round in 0..60000 {
        let mut path = String::new();
        if round % 3 != 0 {
            path.push('$');
        }
        state = state.wrapping_mul(6364136223846793005).wrapping_add(1442695040888963407);
        let length = (state >> 60) as usize;
        for _ in 0..length {
            state = state.wrapping_mul(6364136223846793005).wrapping_add(1442695040888963407);
            path.push(alphabet[(state >> 33) as usize % alphabet.len()]);
        }
        if is_supported_path(&path) {
            checked += 1;
        }
        if let RuleOutcome::Checked(_) = evaluate_rule(&document, &rule_on(&path)) {
            selected += 1;
        }
    }
    assert!(checked > 40000);
    assert!(selected > 100);
}

#[test]
fn every_supported_slice_and_union_is_answered() {
    // whatever stands between the brackets: a path that the engine takes is
    // evaluated to an outcome, on arrays and on what is nested in them
    let alphabet: Vec<char> = "0000112359:::::++-  ,,\t'a".chars().collect();
    let document = sample();
    let mut state: u64 = 0x9E3779B97F4A7C15;
    let mut supported = 0;
    let mut refused = 0;
    let mut selected = 0;
    for round in 0..120000 {
        let mut path = String::from(match round % 4 {
            0 => "$.b[",
            1 => "$..[",
            2 => "$.a.a[",
            _ => "$.b[*][",
        });
        state = state.wrapping_mul(6364136223846793005).wrapping_add(1442695040888963407);
        let length = 1 + (state >> 61) as usize;
        for _ in 0..length {
            state = state.wrapping_mul(6364136223846793005).wrapping_add(1442695040888963407);
            path.push(alphabet[(state >> 33) as usize % alphabet.len()]);
        }
        path.push(']');
        if round % 5 == 0 {
            path.push_str("[0:2:1]");
        }
        if is_supported_path(&path) {
            supported += 1;
        } else {
            refused += 1;
        }
        if let RuleOutcome::Checked(_) = evaluate_rule(&document, &rule_on(&path)) {
            selected += 1;
        }
    }
    assert!(supported > 60000);
    assert!(refused > 1000);
    assert!(selected > 1000);
}

fn next(state: &mut u64, bound: usize) -> usize {
    *state = state.wrapping_mul(6364136223846793005).wrapping_add(1442695040888963407);
    (*state >> 33) as usize % bound
}

fn plain_filter(state: &mut u64) -> String {
    let names = ["a", "b", "c", "d", "0", "1", "type", "x_1", "_", "A9"];
    let operators = ["==", "!=", "<", "<=", ">", ">="];
    let literals = [
        "1", "0", "-1", "2.5", "-0.0", "007", "123456789012345", "0.000000000000001",
        "999999999999999.999999999999999", "'x'", "''", "\"deep\"", "'a b'", "'[0:1:2]'", "'1'",
        "\"@.a == 1\"", "true", "false", "'true'", "'$'", "'é,:'",
    ];
    let blanks = ["", " ", "  "];
    let mut out = String::from("[?(");
    out.push_str(blanks[next(state, 3)]);
    let terms = 1 + if next(state, 3) == 0 { next(state, 4) } else { 0 };
    for term in 0..terms {
        if term > 0 {
            out.push_str(["&&", "||"][next(state, 2)]);
            out.push_str(blanks[next(state, 3)]);
        }
        out.push('@');
        for _ in 0..next(state, 4) {
            out.push('.');
            out.push_str(names[next(state, names.len())]);
        }
        out.push_str(blanks[next(state, 3)]);
        if next(state, 5) > 0 {
            out.push_str(operators[next(state, operators.len())]);
            out.push_str(blanks[next(state, 3)]);
            out.push_str(literals[next(state, literals.len())]);
            out.push_str(blanks[next(state, 3)]);
        }
    }
    out.push_str(")]");
    out
}

fn documents() -> Vec<Value> {
    [
        r#"{"a": {"a": [1, {"a": 2, "b": [true, null, "x"]}], "0": "zero"},
            "b": [[1, 2], [3], []], "1": {"a": "deep"}, "": 5, "c d": [0.5, -1e300]}"#,
        r#"[{"a": 1, "b": "x", "type": true}, {"a": "1", "b": 2.5, "c": {"d": [0, {"a": 0}]}},
            {"a": null, "0": 0, "1": [1], "_": {}}, [], [[{"a": {"b": {"c": 1}}}]], 7, "x", null,
            true, {"a": [{"a": [{"a": -1}]}]}, {"x_1": false, "A9": "a b", "d": 1e300}]"#,
        r#"{"a": 1}"#,
        r#"[]"#,
        r#""text""#,
        r#"null"#,
        r#"{"a": {"b": {"c": {"d": {"a": {"b": {"c": [1, 2.5, "x", true, null, [], {}]}}}}}}}"#,
    ]
    .iter()
    .map(|text| serde_json::from_str(text).unwrap())
    .collect()
}

#[test]
fn every_plain_filter_is_answered() {
    let before = ["$", "$.a", "$.b", "$..", "$..a", "$.c[*]", "$[*]", "$[0:3]", "$[0,1,2]", "$.*", "$..*", "$['a','b']", "$[-1]"];
    let behind = ["", ".a", "[0]", "..b", "[*]", ".*", "[0,1]", "[0:1]", "[::2]", "['a','b']", "..[0]", "['a']", "..*"];
    let documents = documents();
    let mut state: u64 = 0x0123456789ABCDEF;
    let mut selected = 0;
    for round in 0..60000 {
        let mut path = String::from(before[next(&mut state, before.len())]);
        if path.ends_with('.') {
            path.truncate(path.len() - 2);
            path.push_str("..");
        }
        path.push_str(&plain_filter(&mut state));
        path.push_str(behind[next(&mut state, behind.len())]);
        if next(&mut state, 3) == 0 {
            path.push_str(&plain_filter(&mut state));
            path.push_str(behind[next(&mut state, behind.len())]);
        }
        assert!(is_supported_path(&path), "{}", path);
        let document = &documents[round % documents.len()];
        match evaluate_rule(document, &rule_on(&path)) {
            RuleOutcome::Skipped => panic!("{} was skipped", path),
            RuleOutcome::Checked(_) => selected += 1,
            RuleOutcome::Malformed => {}
        }
    }
    assert!(selected > 45000);
}

#[test]
fn every_supported_path_near_a_plain_filter_is_answered() {
    // a plain filter with characters put in, left out or changed: whatever the
    // engine still takes for a path is evaluated to an outcome
    let alphabet: Vec<char> =
        "$.[]()@?'\"=!<>&|:,*-+ 0123456789abetrufalsxy_\\\tE".chars().collect();
    let documents = documents();
    let mut state: u64 = 0xFEDCBA9876543210;
    let mut supported = 0;
    let mut selected = 0;
    for round in 0..250000 {
        let mut text: Vec<char> = Vec::new();
        text.extend(["$", "$.a", "$..", "$[*]", "$.b"][next(&mut state, 5)].chars());
        text.extend(plain_filter(&mut state).chars());
        text.extend(["", ".a", "[0]", "[0:2]", "[0,1]"][next(&mut state, 5)].chars());
        if next(&mut state, 4) == 0 {
            text.extend(plain_filter(&mut state).chars());
        }
        for _ in 0..1 + next(&mut state, 3) {
            let at = next(&mut state, text.len() + 1);
            match next(&mut state, 3) {
                0 => text.insert(at, alphabet[next(&mut state, alphabet.len())]),
                1 => {
                    if at < text.len() {
                        text.remove(at);
                    }
                }
                _ => {
                    if at < text.len() {
                        text[at] = alphabet[next(&mut state, alphabet.len())];
                    }
                }
            }
        }
        let path: String = text.into_iter().collect();
        if is_supported_path(&path) {
            supported += 1;
        }
        let document = &documents[round % documents.len()];
        if let RuleOutcome::Checked(_) = evaluate_rule(document, &rule_on(&path)) {
            selected += 1;
        }
    }
    assert!(supported > 10000);
    assert!(selected > 5000);
}

#[test]
fn well_formed_paths_of_every_shape_are_answered() {
    let document = sample();
    let steps = [
        ".a", ".b", ".*", "..a", "..*", "[0]", "[1]", "[-1]", "[*]", "['a']", "[\"a\"]", "['0']",
        "['c d']", "['']", "[ 0 ]", "..[0]", "..['a']", ".1", "[9999999]", "[-9999999]", "[0:2]",
        "[:]", "[::2]", "[1:]", "[-1:]", "[0:9:3]", "[ 1 : 2 : 1 ]", "[0,1]", "[0, -1, 7]",
        "['a','b']", "[\"a\", '0']", "..[0,1]", "..[0:1]", "..['a','b']", "[0:0]", "[2:0:1]",
    ];
    let mut count = 0;
    for first in steps {
        for second in steps {
            for third in steps {
                let path = format!("${}{}{}", first, second, third);
                assert!(is_supported_path(&path));
                match evaluate_rule(&document, &rule_on(&path)) {
                    RuleOutcome::Skipped => panic!("{} was skipped", path),
                    _ => count += 1,
                }
            }
        }
    }
    assert_eq!(count, steps.len() * steps.len() * steps.len());
}

#[test]
fn the_longest_paths_are_answered() {
    let document = sample();
    let shapes = [".a", "[0]", "..a", ".*", "['a']", "..[0]", "[*]", "..*"];
    for shape in shapes {
        let mut path = String::from("$");
        while path.chars().count() + shape.len() <= 1024 {
            path.push_str(shape);
        }
        assert!(is_supported_path(&path));
        assert!(matches!(evaluate_rule(&document, &rule_on(&path)), RuleOutcome::Checked(_)));
        path.push_str(shape);
        assert!(!is_supported_path(&path));
        assert!(matches!(evaluate_rule(&document, &rule_on(&path)), RuleOutcome::Malformed));
    }
    for filler in [".", "[", "]", "'", "\"", "$", "*", "-", "0", " "] {
        let path = format!("${}", filler.repeat(1023));
        assert!(is_supported_path(&path));
        assert!(!matches!(evaluate_rule(&document, &rule_on(&path)), RuleOutcome::Skipped));
    }
}

#[test]
fn paths_into_a_deep_document_are_answered() {
    let mut text = String::new();
    for _ in 0..60 {
        text.push_str("{\"a\":[");
    }
    text.push('1');
    for _ in 0..60 {
        text.push_str("]}");
    }
    let document: Value = serde_json::from_str(&text).unwrap();
    for path in ["$..a", "$..*", "$..[0]", "$.a[0].a[0].a[0]"] {
        assert!(matches!(evaluate_rule(&document, &rule_on(path)), RuleOutcome::Checked(_)));
    }
}
