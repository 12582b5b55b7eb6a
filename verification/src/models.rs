//! The data that the engine works on: rules, validation errors and
//! responses, and the records of the management interface.

use vstd::prelude::*;
use vstd::string::StringExecFns;

verus! {

/// The journey of a rule or a request that names none.
pub fn default_journey() -> (out: String)
    ensures
        out@ == "DEFAULT"@,
{
    String::from_str("DEFAULT")
}

/// The system of a rule or a request that names none.
pub fn default_system() -> (out: String)
    ensures
        out@ == "ALL"@,
{
    String::from_str("ALL")
}

/// The part that a rule plays in a conditional tree.
#[derive(Debug, Clone, Copy, PartialEq, Eq, Structural)]
pub enum ConditionalLogic {
    /// A conditional root: its outcome picks the branch to evaluate.
    If,
    /// A rule of the branch taken when the root passes.
    Then,
    /// A rule of the branch taken when the root fails.
    Else,
    /// A rule outside any conditional tree.
    Standard,
}

impl Default for ConditionalLogic {
    fn default() -> (out: Self)
        ensures
            out == ConditionalLogic::Standard,
    {
        ConditionalLogic::Standard
    }
}

/// A named parameter of a rule. The value is held as JSON text.
#[derive(Debug)]
pub struct Parameter {
    pub name: String,
    pub value: String,
}

impl View for Parameter {
    type V = (Seq<char>, Seq<char>);

    open spec fn view(&self) -> (Seq<char>, Seq<char>) {
        (self.name@, self.value@)
    }
}

impl Clone for Parameter {
    fn clone(&self) -> (out: Self)
        ensures
            out@ == self@,
    {
        Parameter { name: self.name.clone(), value: self.value.clone() }
    }
}

/// The models of a sequence of parameters.
pub open spec fn parameter_views(s: Seq<Parameter>) -> Seq<(Seq<char>, Seq<char>)> {
    s.map_values(|p: Parameter| p@)
}

/// Copies a list of parameters.
pub fn clone_parameters(v: &Vec<Parameter>) -> (out: Vec<Parameter>)
    ensures
        parameter_views(out@) == parameter_views(v@),
{
    let mut out: Vec<Parameter> = Vec::new();
    let mut i: usize = 0;
    while i < v.len()
        invariant
            i <= v.len(),
            parameter_views(out@) == parameter_views(v@.take(i as int)),
        decreases v.len() - i,
    {
        let ghost before = parameter_views(out@);
        out.push(v[i].clone());
        assert(parameter_views(out@) == before.push(v@[i as int]@));
        assert(v@.take(i + 1) == v@.take(i as int).push(v@[i as int]));
        assert(parameter_views(v@.take(i + 1)) == parameter_views(v@.take(i as int)).push(
            v@[i as int]@,
        ));
        i = i + 1;
    }
    assert(v@.take(v.len() as int) == v@);
    out
}

/// A validation rule.
#[derive(Debug)]
pub struct ValidationRule {
    /// The identifier, unique among the rules of a repository.
    pub id: String,
    /// The path that selects the values to check.
    pub selector: String,
    /// The condition that each selected value must meet.
    pub condition: String,
    /// The field names under which the rule is indexed, separated by commas.
    pub key_fields: String,
    /// The journey that the rule belongs to.
    pub journey: String,
    /// The system that the rule belongs to, or `ALL`.
    pub system: String,
    /// The path of the dependency gate, or empty.
    pub depends_on_selector: String,
    /// The condition of the dependency gate, or empty.
    pub depends_on_condition: String,
    /// Free-form named parameters.
    pub parameters: Vec<Parameter>,
    /// The part that the rule plays in a conditional tree.
    pub logic_type: ConditionalLogic,
    /// For a `Then` or `Else` rule, the identifier of its root.
    pub parent_rule_id: String,
}

/// The model of a rule.
pub struct RuleView {
    pub id: Seq<char>,
    pub selector: Seq<char>,
    pub condition: Seq<char>,
    pub key_fields: Seq<char>,
    pub journey: Seq<char>,
    pub system: Seq<char>,
    pub depends_on_selector: Seq<char>,
    pub depends_on_condition: Seq<char>,
    pub parameters: Seq<(Seq<char>, Seq<char>)>,
    pub logic_type: ConditionalLogic,
    pub parent_rule_id: Seq<char>,
}

impl View for ValidationRule {
    type V = RuleView;

    open spec fn view(&self) -> RuleView {
        RuleView {
            id: self.id@,
            selector: self.selector@,
            condition: self.condition@,
            key_fields: self.key_fields@,
            journey: self.journey@,
            system: self.system@,
            depends_on_selector: self.depends_on_selector@,
            depends_on_condition: self.depends_on_condition@,
            parameters: parameter_views(self.parameters@),
            logic_type: self.logic_type,
            parent_rule_id: self.parent_rule_id@,
        }
    }
}

impl RuleView {
    /// The rule belongs to a branch of a conditional tree.
    pub open spec fn is_conditional_branch(self) -> bool {
        self.logic_type == ConditionalLogic::Then || self.logic_type == ConditionalLogic::Else
    }

    /// The rule is the root of a conditional tree.
    pub open spec fn is_condition_root(self) -> bool {
        self.logic_type == ConditionalLogic::If
    }
}

impl Clone for ValidationRule {
    fn clone(&self) -> (out: Self)
        ensures
            out@ == self@,
    {
        ValidationRule {
            id: self.id.clone(),
            selector: self.selector.clone(),
            condition: self.condition.clone(),
            key_fields: self.key_fields.clone(),
            journey: self.journey.clone(),
            system: self.system.clone(),
            depends_on_selector: self.depends_on_selector.clone(),
            depends_on_condition: self.depends_on_condition.clone(),
            parameters: clone_parameters(&self.parameters),
            logic_type: self.logic_type,
            parent_rule_id: self.parent_rule_id.clone(),
        }
    }
}

impl ValidationRule {
    /// Whether the rule belongs to a branch of a conditional tree.
    pub fn is_conditional_branch(&self) -> (r: bool)
        ensures
            r == self@.is_conditional_branch(),
    {
        self.logic_type == ConditionalLogic::Then || self.logic_type == ConditionalLogic::Else
    }

    /// Whether the rule is the root of a conditional tree.
    pub fn is_condition_root(&self) -> (r: bool)
        ensures
            r == self@.is_condition_root(),
    {
        self.logic_type == ConditionalLogic::If
    }
}

/// Whether two lists of parameters are the same.
pub fn same_parameters(a: &Vec<Parameter>, b: &Vec<Parameter>) -> (r: bool)
    ensures
        r == (parameter_views(a@) == parameter_views(b@)),
{
    if a.len() != b.len() {
        assert(parameter_views(a@).len() != parameter_views(b@).len());
        return false;
    }
    let mut i: usize = 0;
    while i < a.len()
        invariant
            i <= a.len(),
            a.len() == b.len(),
            forall|j: int| 0 <= j < i ==> a@[j]@ == b@[j]@,
        decreases a.len() - i,
    {
        if !(a[i].name == b[i].name && a[i].value == b[i].value) {
            assert(parameter_views(a@)[i as int] != parameter_views(b@)[i as int]);
            return false;
        }
        i = i + 1;
    }
    assert(parameter_views(a@) =~= parameter_views(b@));
    true
}

/// Whether two rules are the same.
pub fn same_rule(a: &ValidationRule, b: &ValidationRule) -> (r: bool)
    ensures
        r == (a@ == b@),
{
    a.id == b.id && a.selector == b.selector && a.condition == b.condition && a.key_fields
        == b.key_fields && a.journey == b.journey && a.system == b.system
        && a.depends_on_selector == b.depends_on_selector && a.depends_on_condition
        == b.depends_on_condition && same_parameters(&a.parameters, &b.parameters) && a.logic_type
        == b.logic_type && a.parent_rule_id == b.parent_rule_id
}

/// Whether two lists of rules are the same.
pub fn same_rules(a: &Vec<ValidationRule>, b: &Vec<ValidationRule>) -> (r: bool)
    ensures
        r == (rule_views(a@) == rule_views(b@)),
{
    if a.len() != b.len() {
        assert(rule_views(a@).len() != rule_views(b@).len());
        return false;
    }
    let mut i: usize = 0;
    while i < a.len()
        invariant
            i <= a.len(),
            a.len() == b.len(),
            forall|j: int| 0 <= j < i ==> a@[j]@ == b@[j]@,
        decreases a.len() - i,
    {
        if !same_rule(&a[i], &b[i]) {
            assert(rule_views(a@)[i as int] != rule_views(b@)[i as int]);
            return false;
        }
        i = i + 1;
    }
    assert(rule_views(a@) =~= rule_views(b@));
    true
}

/// The models of a sequence of rules.
pub open spec fn rule_views(s: Seq<ValidationRule>) -> Seq<RuleView> {
    s.map_values(|r: ValidationRule| r@)
}

/// Copies a list of rules.
pub fn clone_rules(v: &Vec<ValidationRule>) -> (out: Vec<ValidationRule>)
    ensures
        rule_views(out@) == rule_views(v@),
{
    let mut out: Vec<ValidationRule> = Vec::new();
    let mut i: usize = 0;
    while i < v.len()
        invariant
            i <= v.len(),
            rule_views(out@) == rule_views(v@.take(i as int)),
        decreases v.len() - i,
    {
        let ghost before = rule_views(out@);
        out.push(v[i].clone());
        assert(rule_views(out@) == before.push(v@[i as int]@));
        assert(v@.take(i + 1) == v@.take(i as int).push(v@[i as int]));
        assert(rule_views(v@.take(i + 1)) == rule_views(v@.take(i as int)).push(v@[i as int]@));
        i = i + 1;
    }
    assert(v@.take(v.len() as int) == v@);
    out
}

/// One failed check: where in the document, and under which rule.
#[derive(Debug)]
pub struct ValidationError {
    /// The selector of the rule; where the selection was not empty, with the
    /// position of the failing value among the selected ones.
    pub path: String,
    /// The identifier of the rule that failed.
    pub rule_id: String,
}

/// The model of a validation error.
pub struct FailureView {
    pub path: Seq<char>,
    pub rule_id: Seq<char>,
}

impl View for ValidationError {
    type V = FailureView;

    open spec fn view(&self) -> FailureView {
        FailureView { path: self.path@, rule_id: self.rule_id@ }
    }
}

impl Clone for ValidationError {
    fn clone(&self) -> (out: Self)
        ensures
            out@ == self@,
    {
        ValidationError { path: self.path.clone(), rule_id: self.rule_id.clone() }
    }
}

/// The models of a sequence of validation errors.
pub open spec fn failure_views(s: Seq<ValidationError>) -> Seq<FailureView> {
    s.map_values(|e: ValidationError| e@)
}

/// Copies a list of validation errors.
pub fn clone_failures(v: &Vec<ValidationError>) -> (out: Vec<ValidationError>)
    ensures
        failure_views(out@) == failure_views(v@),
{
    let mut out: Vec<ValidationError> = Vec::new();
    let mut i: usize = 0;
    while i < v.len()
        invariant
            i <= v.len(),
            failure_views(out@) == failure_views(v@.take(i as int)),
        decreases v.len() - i,
    {
        let ghost before = failure_views(out@);
        out.push(v[i].clone());
        assert(failure_views(out@) == before.push(v@[i as int]@));
        assert(v@.take(i + 1) == v@.take(i as int).push(v@[i as int]));
        assert(failure_views(v@.take(i + 1)) == failure_views(v@.take(i as int)).push(
            v@[i as int]@,
        ));
        i = i + 1;
    }
    assert(v@.take(v.len() as int) == v@);
    out
}

/// Moves the errors of `more` behind those of `errors`.
pub fn append_failures(errors: &mut Vec<ValidationError>, more: Vec<ValidationError>)
    ensures
        failure_views(final(errors)@) == failure_views(old(errors)@) + failure_views(more@),
{
    let mut more = more;
    let ghost all = more@;
    errors.append(&mut more);
    assert(errors@ == old(errors)@ + all);
    assert(failure_views(old(errors)@ + all) == failure_views(old(errors)@) + failure_views(all));
}

/// The verdict on a document.
#[derive(Debug)]
pub struct ValidationResponse {
    /// Whether the document met every rule that applied.
    pub valid: bool,
    /// The failed checks, in the order in which the rules were evaluated.
    pub errors: Vec<ValidationError>,
}

/// The model of a validation response.
pub struct ResponseView {
    pub valid: bool,
    pub errors: Seq<FailureView>,
}

impl View for ValidationResponse {
    type V = ResponseView;

    open spec fn view(&self) -> ResponseView {
        ResponseView { valid: self.valid, errors: failure_views(self.errors@) }
    }
}

impl Clone for ValidationResponse {
    fn clone(&self) -> (out: Self)
        ensures
            out@ == self@,
    {
        ValidationResponse { valid: self.valid, errors: clone_failures(&self.errors) }
    }
}

impl ValidationResponse {
    /// The verdict on a document that met every rule.
    pub fn success() -> (out: Self)
        ensures
            out@ == (ResponseView { valid: true, errors: Seq::empty() }),
    {
        let out = ValidationResponse { valid: true, errors: Vec::new() };
        assert(failure_views(out.errors@) == Seq::<FailureView>::empty());
        out
    }

    /// The verdict on a document that failed the given checks.
    pub fn failure(errors: Vec<ValidationError>) -> (out: Self)
        ensures
            out@ == (ResponseView { valid: false, errors: failure_views(errors@) }),
            out.errors == errors,
    {
        ValidationResponse { valid: false, errors }
    }
}

/// A request to validate a document.
#[derive(Debug)]
pub struct ValidationRequest {
    /// The document.
    pub data: serde_json::Value,
    /// The journey under which to validate.
    pub journey: String,
    /// The system that asks.
    pub system: String,
}

/// The answer of the management interface.
#[derive(Debug)]
pub struct ApiResponse<T> {
    pub success: bool,
    pub data: Option<T>,
    pub error: Option<String>,
}

/// A rule as the management interface shows it.
#[derive(Debug)]
pub struct RuleDisplay {
    pub id: String,
    pub field_path: String,
    pub validation_type: String,
    pub parameters: Option<String>,
    pub description: Option<String>,
    pub journey: String,
    pub system: String,
}

/// The model of a displayed rule.
pub struct DisplayView {
    pub id: Seq<char>,
    pub field_path: Seq<char>,
    pub validation_type: Seq<char>,
    pub parameters: Option<Seq<char>>,
    pub description: Option<Seq<char>>,
    pub journey: Seq<char>,
    pub system: Seq<char>,
}

/// The model of an optional text.
pub open spec fn optional_text(s: Option<String>) -> Option<Seq<char>> {
    match s {
        Some(t) => Some(t@),
        None => None,
    }
}

impl View for RuleDisplay {
    type V = DisplayView;

    open spec fn view(&self) -> DisplayView {
        DisplayView {
            id: self.id@,
            field_path: self.field_path@,
            validation_type: self.validation_type@,
            parameters: optional_text(self.parameters),
            description: optional_text(self.description),
            journey: self.journey@,
            system: self.system@,
        }
    }
}

/// The models of a sequence of displayed rules.
pub open spec fn display_views(s: Seq<RuleDisplay>) -> Seq<DisplayView> {
    s.map_values(|d: RuleDisplay| d@)
}

/// A request to create a rule.
#[derive(Debug)]
pub struct NewRuleRequest {
    /// The path that the rule checks; also the field it is indexed under.
    pub field_path: String,
    /// The condition of the rule.
    pub validation_type: String,
    /// Parameters as `name:value` pairs separated by commas.
    pub parameters: Option<String>,
    /// A description, stored among the parameters.
    pub description: Option<String>,
    pub journey: String,
    pub system: String,
}

/// The model of a request to create a rule.
pub struct NewRuleView {
    pub field_path: Seq<char>,
    pub validation_type: Seq<char>,
    pub parameters: Option<Seq<char>>,
    pub description: Option<Seq<char>>,
    pub journey: Seq<char>,
    pub system: Seq<char>,
}

impl View for NewRuleRequest {
    type V = NewRuleView;

    open spec fn view(&self) -> NewRuleView {
        NewRuleView {
            field_path: self.field_path@,
            validation_type: self.validation_type@,
            parameters: optional_text(self.parameters),
            description: optional_text(self.description),
            journey: self.journey@,
            system: self.system@,
        }
    }
}

} // verus!
