//! The evaluation of one rule on a document: the dependency gate, the
//! selection, and the check of each selected value.

use crate::condition::{check_dependency, check_value, dependency_holds, value_passes};
use crate::json::{
    is_supported_path, json_text, path_supported, select_values, selected_views, selection,
    Selected, SelectedView,
};
use crate::models::{failure_views, FailureView, RuleView, ValidationError, ValidationRule};
use crate::text::{chars_of, decimal_text, render_number, same_text, string_of};
use vstd::prelude::*;
use vstd::string::StringExecFns;

verus! {

/// The path of an error on one of several selected values: the selector with
/// the position of the value among those selected.
pub open spec fn item_path(selector: Seq<char>, index: nat) -> Seq<char> {
    selector + " (item "@ + decimal_text(index) + ")"@
}

/// The error of a rule on the selected value at `index`.
pub open spec fn failure_at(rule: RuleView, index: nat) -> FailureView {
    FailureView { path: item_path(rule.selector, index), rule_id: rule.id }
}

/// The error of a rule on the selection as a whole.
pub open spec fn failure_of(rule: RuleView) -> FailureView {
    FailureView { path: rule.selector, rule_id: rule.id }
}

/// The errors of a rule on the first `n` selected values: one for each value
/// that does not meet the condition, in the order of the values.
pub open spec fn item_failures(rule: RuleView, values: Seq<SelectedView>, n: nat) -> Seq<
    FailureView,
>
    decreases n,
{
    if n == 0 || n > values.len() {
        Seq::empty()
    } else if value_passes(values[n - 1], rule.condition) {
        item_failures(rule, values, (n - 1) as nat)
    } else {
        item_failures(rule, values, (n - 1) as nat).push(failure_at(rule, (n - 1) as nat))
    }
}

/// The errors of a rule on a selection. An empty selection fails only the
/// condition `required`, with one error at the selector itself.
pub open spec fn selection_failures(rule: RuleView, values: Seq<SelectedView>) -> Seq<FailureView> {
    if values.len() == 0 {
        if rule.condition == "required"@ {
            seq![failure_of(rule)]
        } else {
            Seq::empty()
        }
    } else {
        item_failures(rule, values, values.len())
    }
}

/// Some selected value meets the condition of the dependency gate.
pub open spec fn dependency_met(values: Seq<SelectedView>, condition: Seq<char>) -> bool {
    exists|i: int| 0 <= i < values.len() && dependency_holds(#[trigger] values[i], condition)
}

/// The rule has a dependency gate: both its path and its condition are given.
pub open spec fn is_gated(rule: RuleView) -> bool {
    rule.depends_on_selector.len() > 0 && rule.depends_on_condition.len() > 0
}

/// The rule has no dependency, or its dependency is met: the dependency path
/// selects a value that meets the dependency condition.
pub open spec fn gate_open(rule: RuleView, document: Seq<char>) -> bool {
    !is_gated(rule) || (path_supported(rule.depends_on_selector) && match selection(
        document,
        rule.depends_on_selector,
    ) {
        Some(values) => dependency_met(values, rule.depends_on_condition),
        None => false,
    })
}

/// What came of a rule on a document.
pub enum OutcomeView {
    /// The dependency gate held the rule back.
    Skipped,
    /// The selector is not a path that the engine evaluates.
    Malformed,
    /// The rule was checked, with these errors.
    Checked(Seq<FailureView>),
}

/// What comes of a rule on the document with the given text.
pub open spec fn rule_outcome(rule: RuleView, document: Seq<char>) -> OutcomeView {
    if !gate_open(rule, document) {
        OutcomeView::Skipped
    } else if !path_supported(rule.selector) {
        OutcomeView::Malformed
    } else {
        match selection(document, rule.selector) {
            None => OutcomeView::Malformed,
            Some(values) => OutcomeView::Checked(selection_failures(rule, values)),
        }
    }
}

/// What came of a rule on a document.
#[derive(Debug)]
pub enum RuleOutcome {
    /// The dependency gate held the rule back.
    Skipped,
    /// The selector is not a path that the engine evaluates.
    Malformed,
    /// The rule was checked, with these errors.
    Checked(Vec<ValidationError>),
}

impl View for RuleOutcome {
    type V = OutcomeView;

    open spec fn view(&self) -> OutcomeView {
        match self {
            RuleOutcome::Skipped => OutcomeView::Skipped,
            RuleOutcome::Malformed => OutcomeView::Malformed,
            RuleOutcome::Checked(errors) => OutcomeView::Checked(failure_views(errors@)),
        }
    }
}

/// The error of `rule` on the selected value at `index`.
fn item_failure(rule: &ValidationRule, index: usize) -> (out: ValidationError)
    ensures
        out@ == failure_at(rule@, index as nat),
{
    let number = string_of(&render_number(index));
    let path = rule.selector.clone().concat(" (item ").concat(number.as_str()).concat(")");
    ValidationError { path, rule_id: rule.id.clone() }
}

/// The errors of a rule on the values that its selector selected.
pub fn evaluate_selection(rule: &ValidationRule, values: &Vec<Selected>) -> (out: Vec<
    ValidationError,
>)
    ensures
        failure_views(out@) == selection_failures(rule@, selected_views(values@)),
{
    let mut out: Vec<ValidationError> = Vec::new();
    let ghost views = selected_views(values@);
    if values.len() == 0 {
        if same_text(rule.condition.as_str(), "required") {
            out.push(ValidationError { path: rule.selector.clone(), rule_id: rule.id.clone() });
            assert(failure_views(out@) == seq![failure_of(rule@)]);
        } else {
            assert(failure_views(out@) == Seq::<FailureView>::empty());
        }
        return out;
    }
    let mut i: usize = 0;
    assert(failure_views(out@) == Seq::<FailureView>::empty());
    while i < values.len()
        invariant
            i <= values.len(),
            views == selected_views(values@),
            failure_views(out@) == item_failures(rule@, views, i as nat),
        decreases values.len() - i,
    {
        assert(views[i as int] == values@[i as int]@);
        if !check_value(&values[i], rule.condition.as_str()) {
            let ghost before = failure_views(out@);
            out.push(item_failure(rule, i));
            assert(failure_views(out@) == before.push(failure_at(rule@, i as nat)));
        }
        i = i + 1;
    }
    out
}

/// Whether some selected value meets the condition of a dependency gate.
pub fn check_dependency_met(values: &Vec<Selected>, condition: &str) -> (r: bool)
    ensures
        r == dependency_met(selected_views(values@), condition@),
{
    let ghost views = selected_views(values@);
    let mut i: usize = 0;
    while i < values.len()
        invariant
            i <= values.len(),
            views == selected_views(values@),
            forall|j: int| 0 <= j < i ==> !dependency_holds(#[trigger] views[j], condition@),
        decreases values.len() - i,
    {
        assert(views[i as int] == values@[i as int]@);
        if check_dependency(&values[i], condition) {
            return true;
        }
        i = i + 1;
    }
    false
}

/// Whether the rule has no dependency, or its dependency is met.
fn gate_lets_through(json: &serde_json::Value, rule: &ValidationRule) -> (r: bool)
    ensures
        r == gate_open(rule@, json_text(*json)),
{
    let selector = chars_of(rule.depends_on_selector.as_str());
    let condition = chars_of(rule.depends_on_condition.as_str());
    if selector.len() == 0 || condition.len() == 0 {
        return true;
    }
    if !is_supported_path(rule.depends_on_selector.as_str()) {
        return false;
    }
    match select_values(json, rule.depends_on_selector.as_str()) {
        Some(values) => check_dependency_met(&values, rule.depends_on_condition.as_str()),
        None => false,
    }
}

/// Evaluates one rule on a document.
pub fn evaluate_rule(json: &serde_json::Value, rule: &ValidationRule) -> (out: RuleOutcome)
    ensures
        out@ == rule_outcome(rule@, json_text(*json)),
{
    if !gate_lets_through(json, rule) {
        return RuleOutcome::Skipped;
    }
    if !is_supported_path(rule.selector.as_str()) {
        return RuleOutcome::Malformed;
    }
    match select_values(json, rule.selector.as_str()) {
        None => RuleOutcome::Malformed,
        Some(values) => RuleOutcome::Checked(evaluate_selection(rule, &values)),
    }
}

} // verus!
