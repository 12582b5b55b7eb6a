//! The rule repository: the rules indexed by field, the branches of
//! conditional roots, and the cache of rule sets by journey and system.

use crate::error::{DqrError, ErrorView};
use crate::models::{
    clone_rules, display_views, rule_views, same_rules, ConditionalLogic, DisplayView,
    NewRuleRequest, NewRuleView, RuleDisplay, RuleView, ValidationRule,
};
use crate::parameters::{
    describe, description_among, read_parameters, requested_parameters, show_parameters,
    shown_parameters,
};
use crate::ordering::{dedup_by_id, deduplicated, sort_by_id, sorted_by_id};
use crate::text::{
    chars_of, decimal_text, pieces, render_number, same_text, split, string_of, texts_of, trim,
    trimmed,
};
use vstd::prelude::*;
use vstd::string::StringExecFns;

verus! {

/// The rules indexed under one field.
pub struct FieldEntry {
    pub field: String,
    pub rules: Vec<ValidationRule>,
}

/// The model of the rules indexed under one field.
pub struct FieldView {
    pub field: Seq<char>,
    pub rules: Seq<RuleView>,
}

impl View for FieldEntry {
    type V = FieldView;

    open spec fn view(&self) -> FieldView {
        FieldView { field: self.field@, rules: rule_views(self.rules@) }
    }
}

/// The branches of one conditional root.
pub struct BranchEntry {
    pub parent_id: String,
    pub then_rules: Vec<ValidationRule>,
    pub else_rules: Vec<ValidationRule>,
}

/// The model of the branches of one conditional root.
pub struct BranchView {
    pub parent_id: Seq<char>,
    pub then_rules: Seq<RuleView>,
    pub else_rules: Seq<RuleView>,
}

impl View for BranchEntry {
    type V = BranchView;

    open spec fn view(&self) -> BranchView {
        BranchView {
            parent_id: self.parent_id@,
            then_rules: rule_views(self.then_rules@),
            else_rules: rule_views(self.else_rules@),
        }
    }
}

/// The cached rule set of one journey and system.
pub struct ScopeEntry {
    pub journey: String,
    pub system: String,
    pub rules: Vec<ValidationRule>,
}

/// The model of a cached rule set.
pub struct ScopeView {
    pub journey: Seq<char>,
    pub system: Seq<char>,
    pub rules: Seq<RuleView>,
}

impl View for ScopeEntry {
    type V = ScopeView;

    open spec fn view(&self) -> ScopeView {
        ScopeView { journey: self.journey@, system: self.system@, rules: rule_views(self.rules@) }
    }
}

impl Clone for FieldEntry {
    fn clone(&self) -> (out: Self)
        ensures
            out@ == self@,
    {
        FieldEntry { field: self.field.clone(), rules: clone_rules(&self.rules) }
    }
}

impl Clone for BranchEntry {
    fn clone(&self) -> (out: Self)
        ensures
            out@ == self@,
    {
        BranchEntry {
            parent_id: self.parent_id.clone(),
            then_rules: clone_rules(&self.then_rules),
            else_rules: clone_rules(&self.else_rules),
        }
    }
}

impl Clone for ScopeEntry {
    fn clone(&self) -> (out: Self)
        ensures
            out@ == self@,
    {
        ScopeEntry {
            journey: self.journey.clone(),
            system: self.system.clone(),
            rules: clone_rules(&self.rules),
        }
    }
}

/// The models of the entries of an index.
pub open spec fn field_views(s: Seq<FieldEntry>) -> Seq<FieldView> {
    s.map_values(|e: FieldEntry| e@)
}

/// The models of the branches of the conditional roots.
pub open spec fn branch_views(s: Seq<BranchEntry>) -> Seq<BranchView> {
    s.map_values(|e: BranchEntry| e@)
}

/// The models of the cached rule sets.
pub open spec fn scope_views(s: Seq<ScopeEntry>) -> Seq<ScopeView> {
    s.map_values(|e: ScopeEntry| e@)
}

/// The texts of a sequence of strings.
pub open spec fn string_views(s: Seq<String>) -> Seq<Seq<char>> {
    s.map_values(|t: String| t@)
}

/// The first index at or after `from` of an entry for `field`, or the length
/// of the index if there is none.
pub open spec fn field_position(index: Seq<FieldView>, field: Seq<char>, from: int) -> int
    decreases index.len() - from,
{
    if from < 0 || from >= index.len() {
        index.len() as int
    } else if index[from].field == field {
        from
    } else {
        field_position(index, field, from + 1)
    }
}

/// The rules indexed under `field`, in the order in which they were added.
pub open spec fn indexed_under(index: Seq<FieldView>, field: Seq<char>) -> Seq<RuleView> {
    let p = field_position(index, field, 0);
    if 0 <= p < index.len() {
        index[p].rules
    } else {
        Seq::empty()
    }
}

/// Every indexed rule, field after field.
pub open spec fn all_indexed(index: Seq<FieldView>) -> Seq<RuleView>
    decreases index.len(),
{
    if index.len() == 0 {
        Seq::empty()
    } else {
        all_indexed(index.drop_last()) + index.last().rules
    }
}

/// The rules indexed under the given fields, one field after the other.
pub open spec fn gathered(index: Seq<FieldView>, fields: Seq<Seq<char>>) -> Seq<RuleView>
    decreases fields.len(),
{
    if fields.len() == 0 {
        Seq::empty()
    } else {
        gathered(index, fields.drop_last()) + indexed_under(index, fields.last())
    }
}

/// The rules that a query for `fields` draws on: every indexed rule where the
/// wildcard `*` is among the fields, else the rules indexed under them.
pub open spec fn collected(index: Seq<FieldView>, fields: Seq<Seq<char>>) -> Seq<RuleView> {
    if fields.contains("*"@) {
        all_indexed(index)
    } else {
        gathered(index, fields)
    }
}

/// The answer to a query for `fields`: the rules it draws on, sorted by
/// identifier, one rule for each identifier.
pub open spec fn rules_for_fields(index: Seq<FieldView>, fields: Seq<Seq<char>>) -> Seq<RuleView> {
    deduplicated(sorted_by_id(collected(index, fields)))
}

/// The whole rule set: the answer to a query for the wildcard.
pub open spec fn whole_rule_set(index: Seq<FieldView>) -> Seq<RuleView> {
    rules_for_fields(index, seq!["*"@])
}

/// A rule's journey fits a request: the request asks for `ALL_CHECKS`, or for
/// the journey of the rule.
pub open spec fn journey_matches(rule_journey: Seq<char>, journey: Seq<char>) -> bool {
    journey == "ALL_CHECKS"@ || rule_journey == journey
}

/// A rule's system fits a request: the rule is for `ALL` systems, or for the
/// system that asks.
pub open spec fn system_matches(rule_system: Seq<char>, system: Seq<char>) -> bool {
    rule_system == "ALL"@ || rule_system == system
}

/// The rule applies to a request of the given journey and system.
pub open spec fn in_scope(rule: RuleView, journey: Seq<char>, system: Seq<char>) -> bool {
    journey_matches(rule.journey, journey) && system_matches(rule.system, system)
}

/// The rules of `rules` that apply to the given journey and system, in
/// their order.
pub open spec fn scoped(rules: Seq<RuleView>, journey: Seq<char>, system: Seq<char>) -> Seq<
    RuleView,
>
    decreases rules.len(),
{
    if rules.len() == 0 {
        Seq::empty()
    } else if in_scope(rules.last(), journey, system) {
        scoped(rules.drop_last(), journey, system).push(rules.last())
    } else {
        scoped(rules.drop_last(), journey, system)
    }
}

/// The rule set of a journey and system.
pub open spec fn rules_for_scope(index: Seq<FieldView>, journey: Seq<char>, system: Seq<char>) -> Seq<
    RuleView,
> {
    scoped(whole_rule_set(index), journey, system)
}

/// The first index at or after `from` of the branches of `parent`, or the
/// number of entries if there are none.
pub open spec fn branch_position(branches: Seq<BranchView>, parent: Seq<char>, from: int) -> int
    decreases branches.len() - from,
{
    if from < 0 || from >= branches.len() {
        branches.len() as int
    } else if branches[from].parent_id == parent {
        from
    } else {
        branch_position(branches, parent, from + 1)
    }
}

/// The rules of the branch of `parent` that is taken when the root passes
/// (`passed`) or fails; empty where the root has no such branch.
pub open spec fn branch_of(branches: Seq<BranchView>, parent: Seq<char>, passed: bool) -> Seq<
    RuleView,
> {
    let p = branch_position(branches, parent, 0);
    if 0 <= p < branches.len() {
        if passed {
            branches[p].then_rules
        } else {
            branches[p].else_rules
        }
    } else {
        Seq::empty()
    }
}

/// The first index at or after `from` of the cached rule set of a journey
/// and system, or the number of entries if there is none.
pub open spec fn scope_position(
    scopes: Seq<ScopeView>,
    journey: Seq<char>,
    system: Seq<char>,
    from: int,
) -> int
    decreases scopes.len() - from,
{
    if from < 0 || from >= scopes.len() {
        scopes.len() as int
    } else if scopes[from].journey == journey && scopes[from].system == system {
        from
    } else {
        scope_position(scopes, journey, system, from + 1)
    }
}

/// The index with `rule` added under `field`: behind the rules that the
/// field has, or as the first rule of a new last entry.
pub open spec fn index_with(index: Seq<FieldView>, field: Seq<char>, rule: RuleView) -> Seq<
    FieldView,
> {
    let p = field_position(index, field, 0);
    if 0 <= p < index.len() {
        index.update(p, FieldView { field, rules: index[p].rules.push(rule) })
    } else {
        index.push(FieldView { field, rules: seq![rule] })
    }
}

/// The branches with `rule` added to a branch of `parent`: behind the rules
/// that the branch has, or as the first rule of a new last entry.
pub open spec fn branches_with(
    branches: Seq<BranchView>,
    parent: Seq<char>,
    rule: RuleView,
    then_side: bool,
) -> Seq<BranchView> {
    let p = branch_position(branches, parent, 0);
    if 0 <= p < branches.len() {
        if then_side {
            branches.update(
                p,
                BranchView { then_rules: branches[p].then_rules.push(rule), ..branches[p] },
            )
        } else {
            branches.update(
                p,
                BranchView { else_rules: branches[p].else_rules.push(rule), ..branches[p] },
            )
        }
    } else if then_side {
        branches.push(
            BranchView { parent_id: parent, then_rules: seq![rule], else_rules: Seq::empty() },
        )
    } else {
        branches.push(
            BranchView { parent_id: parent, then_rules: Seq::empty(), else_rules: seq![rule] },
        )
    }
}

/// The branches with those of one root replaced, or added as a new last
/// entry.
pub open spec fn branches_set(branches: Seq<BranchView>, entry: BranchView) -> Seq<BranchView> {
    let p = branch_position(branches, entry.parent_id, 0);
    if 0 <= p < branches.len() {
        branches.update(p, entry)
    } else {
        branches.push(entry)
    }
}

/// The field names that a rule is indexed under: the pieces of its field
/// list between commas, each without the white space around it. An empty
/// list names no field.
pub open spec fn key_field_names(key_fields: Seq<char>) -> Seq<Seq<char>> {
    if key_fields.len() == 0 {
        Seq::empty()
    } else {
        pieces(key_fields, ',').map_values(|p: Seq<char>| trimmed(p))
    }
}

/// The index with `rule` added under each of `names`, one after the other.
pub open spec fn index_with_all(index: Seq<FieldView>, names: Seq<Seq<char>>, rule: RuleView) -> Seq<
    FieldView,
>
    decreases names.len(),
{
    if names.len() == 0 {
        index
    } else {
        index_with(index_with_all(index, names.drop_last(), rule), names.last(), rule)
    }
}

/// The index that a load builds from `records`: each rule that is no branch
/// rule, under each of its field names, in the order of the records.
pub open spec fn loaded_index(records: Seq<RuleView>) -> Seq<FieldView>
    decreases records.len(),
{
    if records.len() == 0 {
        Seq::empty()
    } else {
        let before = loaded_index(records.drop_last());
        let rule = records.last();
        if rule.is_conditional_branch() {
            before
        } else {
            index_with_all(before, key_field_names(rule.key_fields), rule)
        }
    }
}

/// The branches that a load builds from `records`: each `Then` and `Else` rule
/// in the branch of the root that it names, in the order of the records.
pub open spec fn loaded_branches(records: Seq<RuleView>) -> Seq<BranchView>
    decreases records.len(),
{
    if records.len() == 0 {
        Seq::empty()
    } else {
        let before = loaded_branches(records.drop_last());
        let rule = records.last();
        if rule.logic_type == ConditionalLogic::Then {
            branches_with(before, rule.parent_rule_id, rule, true)
        } else if rule.logic_type == ConditionalLogic::Else {
            branches_with(before, rule.parent_rule_id, rule, false)
        } else {
            before
        }
    }
}

/// Some rule of `rules` has the identifier `id`.
pub open spec fn holds_id(rules: Seq<RuleView>, id: Seq<char>) -> bool {
    exists|i: int| 0 <= i < rules.len() && (#[trigger] rules[i]).id == id
}

/// The rules of `rules` with another identifier than `id`, in their order.
pub open spec fn without_id(rules: Seq<RuleView>, id: Seq<char>) -> Seq<RuleView>
    decreases rules.len(),
{
    if rules.len() == 0 {
        Seq::empty()
    } else if rules.last().id == id {
        without_id(rules.drop_last(), id)
    } else {
        without_id(rules.drop_last(), id).push(rules.last())
    }
}

/// The index without the rules that have the identifier `id`, and without
/// the fields that are left with no rule.
pub open spec fn index_without(index: Seq<FieldView>, id: Seq<char>) -> Seq<FieldView>
    decreases index.len(),
{
    if index.len() == 0 {
        Seq::empty()
    } else {
        let before = index_without(index.drop_last(), id);
        let rest = without_id(index.last().rules, id);
        if rest.len() == 0 {
            before
        } else {
            before.push(FieldView { field: index.last().field, rules: rest })
        }
    }
}

/// The branches without those of the root `id`, and without the branch rules
/// that have the identifier `id`.
pub open spec fn branches_without(branches: Seq<BranchView>, id: Seq<char>) -> Seq<BranchView>
    decreases branches.len(),
{
    if branches.len() == 0 {
        Seq::empty()
    } else {
        let before = branches_without(branches.drop_last(), id);
        let entry = branches.last();
        if entry.parent_id == id {
            before
        } else {
            before.push(
                BranchView {
                    parent_id: entry.parent_id,
                    then_rules: without_id(entry.then_rules, id),
                    else_rules: without_id(entry.else_rules, id),
                },
            )
        }
    }
}

/// Every branch rule, root after root, the `Then` rules of a root before its
/// `Else` rules.
pub open spec fn all_branch_rules(branches: Seq<BranchView>) -> Seq<RuleView>
    decreases branches.len(),
{
    if branches.len() == 0 {
        Seq::empty()
    } else {
        all_branch_rules(branches.drop_last()) + branches.last().then_rules
            + branches.last().else_rules
    }
}

/// A rule as the management interface shows it.
pub open spec fn display_of(rule: RuleView) -> DisplayView {
    DisplayView {
        id: rule.id,
        field_path: rule.selector,
        validation_type: rule.condition,
        parameters: shown_parameters(rule.parameters),
        description: description_among(rule.parameters),
        journey: rule.journey,
        system: rule.system,
    }
}

/// What the management interface shows of `rules`: the standard rules, in
/// their order.
pub open spec fn displayed(rules: Seq<RuleView>) -> Seq<DisplayView>
    decreases rules.len(),
{
    if rules.len() == 0 {
        Seq::empty()
    } else if rules.last().logic_type == ConditionalLogic::Standard {
        displayed(rules.drop_last()).push(display_of(rules.last()))
    } else {
        displayed(rules.drop_last())
    }
}

/// The identifier generated with the number `n`.
pub open spec fn generated_id(n: nat) -> Seq<char> {
    "R"@ + decimal_text(n)
}

/// The rule that a request asks for, under the identifier `id`: a standard
/// rule without a dependency gate, indexed under the path that it checks.
pub open spec fn requested_rule(request: NewRuleView, id: Seq<char>) -> RuleView {
    RuleView {
        id,
        selector: request.field_path,
        condition: request.validation_type,
        key_fields: request.field_path,
        journey: request.journey,
        system: request.system,
        depends_on_selector: Seq::empty(),
        depends_on_condition: Seq::empty(),
        parameters: requested_parameters(request.parameters, request.description),
        logic_type: ConditionalLogic::Standard,
        parent_rule_id: Seq::empty(),
    }
}

/// No two entries of the index are for one field.
pub open spec fn distinct_fields(index: Seq<FieldView>) -> bool {
    forall|i: int, j: int|
        #![trigger index[i], index[j]]
        0 <= i < j < index.len() ==> index[i].field != index[j].field
}

/// No two entries hold the branches of one conditional root.
pub open spec fn distinct_parents(branches: Seq<BranchView>) -> bool {
    forall|i: int, j: int|
        #![trigger branches[i], branches[j]]
        0 <= i < j < branches.len() ==> branches[i].parent_id != branches[j].parent_id
}

/// No two cached rule sets are for one journey and system.
pub open spec fn distinct_scopes(scopes: Seq<ScopeView>) -> bool {
    forall|i: int, j: int|
        #![trigger scopes[i], scopes[j]]
        0 <= i < j < scopes.len() ==> !(scopes[i].journey == scopes[j].journey
            && scopes[i].system == scopes[j].system)
}

/// Some entry of the index is for `field`.
pub open spec fn has_field(index: Seq<FieldView>, field: Seq<char>) -> bool {
    exists|k: int| 0 <= k < index.len() && (#[trigger] index[k]).field == field
}

/// Some entry holds the branches of `parent`.
pub open spec fn has_parent(branches: Seq<BranchView>, parent: Seq<char>) -> bool {
    exists|k: int| 0 <= k < branches.len() && (#[trigger] branches[k]).parent_id == parent
}

/// The model of a repository.
pub struct RepositoryView {
    /// The rules by field.
    pub index: Seq<FieldView>,
    /// The branches by conditional root.
    pub branches: Seq<BranchView>,
    /// The cached rule sets.
    pub scopes: Seq<ScopeView>,
    /// Where the rules were loaded from.
    pub file_path: Option<Seq<char>>,
    /// Every rule, in the order of arrival.
    pub all_rules: Seq<RuleView>,
    /// The highest number used in a generated identifier.
    pub issued: nat,
}

/// The rule repository.
pub struct RuleRepository {
    rules: Vec<FieldEntry>,
    conditional_rules: Vec<BranchEntry>,
    journey_system_cache: Vec<ScopeEntry>,
    rules_file_path: Option<String>,
    all_rules: Vec<ValidationRule>,
    issued: usize,
}

impl View for RuleRepository {
    type V = RepositoryView;

    closed spec fn view(&self) -> RepositoryView {
        RepositoryView {
            index: field_views(self.rules@),
            branches: branch_views(self.conditional_rules@),
            scopes: scope_views(self.journey_system_cache@),
            file_path: crate::models::optional_text(self.rules_file_path),
            all_rules: rule_views(self.all_rules@),
            issued: self.issued as nat,
        }
    }
}

impl RepositoryView {
    /// Each field has one entry in the index, each conditional root one entry
    /// for its branches, each journey and system at most one cached rule set,
    /// and each cached rule set is the rule set of its journey and system.
    pub open spec fn coherent(self) -> bool {
        &&& distinct_fields(self.index)
        &&& distinct_parents(self.branches)
        &&& distinct_scopes(self.scopes)
        &&& forall|i: int|
            0 <= i < self.scopes.len() ==> (#[trigger] self.scopes[i]).rules == rules_for_scope(
                self.index,
                self.scopes[i].journey,
                self.scopes[i].system,
            )
    }

    /// The repository with the rule set of a journey and system cached behind
    /// the others, unless it is cached already.
    pub open spec fn with_scope_cached(self, journey: Seq<char>, system: Seq<char>) -> RepositoryView {
        let entry = ScopeView {
            journey,
            system,
            rules: rules_for_scope(self.index, journey, system),
        };
        if scope_position(self.scopes, journey, system, 0) < self.scopes.len() {
            self
        } else {
            RepositoryView { scopes: self.scopes.push(entry), ..self }
        }
    }

    /// Where the search for the number of the next generated identifier
    /// begins: one more than the highest number used so far, and than the
    /// number of rules.
    pub open spec fn next_number(self) -> nat {
        if self.issued >= self.all_rules.len() {
            self.issued + 1
        } else {
            self.all_rules.len() + 1
        }
    }

    /// The least number from `from` up to `limit` whose generated identifier
    /// no rule of the repository has; `None` where there is none.
    pub open spec fn free_number(self, from: nat, limit: nat) -> Option<nat>
        decreases limit + 1 - from,
    {
        if from > limit {
            None
        } else if !self.knows(generated_id(from)) {
            Some(from)
        } else {
            self.free_number(from + 1, limit)
        }
    }

    /// The number of the next generated identifier: the least from
    /// `next_number` on, and within `usize`, whose identifier is new to the
    /// repository.
    pub open spec fn new_number(self) -> Option<nat> {
        self.free_number(self.next_number(), usize::MAX as nat)
    }

    /// The repository after the rule that `request` asks for was created with
    /// the identifier of `number`.
    pub open spec fn with_requested(self, request: NewRuleView, number: nat) -> RepositoryView {
        let rule = requested_rule(request, generated_id(number));
        RepositoryView {
            index: index_with(self.index, request.field_path, rule),
            all_rules: self.all_rules.push(rule),
            scopes: Seq::empty(),
            issued: number,
            ..self
        }
    }

    /// The repository holds a rule with the identifier `id`: in the list of all
    /// its rules, in its index, or in a branch.
    pub open spec fn knows(self, id: Seq<char>) -> bool {
        holds_id(self.all_rules, id) || holds_id(all_indexed(self.index), id) || holds_id(
            all_branch_rules(self.branches),
            id,
        )
    }

    /// The repository after the rules with the identifier `id` were deleted.
    pub open spec fn without(self, id: Seq<char>) -> RepositoryView {
        RepositoryView {
            index: index_without(self.index, id),
            branches: branches_without(self.branches, id),
            scopes: Seq::empty(),
            all_rules: without_id(self.all_rules, id),
            ..self
        }
    }

    /// The repository after a load of `records` from `path`. The highest
    /// number used in a generated identifier stays what it was.
    pub open spec fn loaded(path: Seq<char>, records: Seq<RuleView>, issued: nat) -> RepositoryView {
        RepositoryView {
            index: loaded_index(records),
            branches: loaded_branches(records),
            scopes: Seq::empty(),
            file_path: Some(path),
            all_rules: records,
            issued,
        }
    }

    /// The empty repository.
    pub open spec fn empty() -> RepositoryView {
        RepositoryView {
            index: Seq::empty(),
            branches: Seq::empty(),
            scopes: Seq::empty(),
            file_path: None,
            all_rules: Seq::empty(),
            issued: 0,
        }
    }
}

/// The index of the entry for `field`, or the length of the index.
fn find_field(index: &Vec<FieldEntry>, field: &str) -> (p: usize)
    ensures
        p == field_position(field_views(index@), field@, 0),
        p <= index@.len(),
        p < index@.len() ==> field_views(index@)[p as int].field == field@,
{
    let ghost views = field_views(index@);
    let mut p: usize = 0;
    while p < index.len() && !same_text(index[p].field.as_str(), field)
        invariant
            p <= index.len(),
            views == field_views(index@),
            field_position(views, field@, 0) == field_position(views, field@, p as int),
        decreases index.len() - p,
    {
        assert(views[p as int] == index@[p as int]@);
        p = p + 1;
    }
    assert(p < index.len() ==> views[p as int] == index@[p as int]@);
    p
}

/// Appends copies of the rules of `more` to `rules`.
fn extend_with_copies(rules: &mut Vec<ValidationRule>, more: &Vec<ValidationRule>)
    ensures
        rule_views(final(rules)@) == rule_views(old(rules)@) + rule_views(more@),
{
    let mut copies = clone_rules(more);
    let ghost added = copies@;
    rules.append(&mut copies);
    assert(rules@ == old(rules)@ + added);
    assert(rule_views(old(rules)@ + added) == rule_views(old(rules)@) + rule_views(added));
}

/// Whether `fields` holds the wildcard.
fn has_wildcard(fields: &[String]) -> (r: bool)
    ensures
        r == string_views(fields@).contains("*"@),
{
    let ghost texts = string_views(fields@);
    let mut i: usize = 0;
    while i < fields.len()
        invariant
            i <= fields.len(),
            texts == string_views(fields@),
            forall|j: int| 0 <= j < i ==> texts[j] != "*"@,
        decreases fields.len() - i,
    {
        assert(texts[i as int] == fields@[i as int]@);
        if same_text(fields[i].as_str(), "*") {
            return true;
        }
        i = i + 1;
    }
    false
}

/// Whether the rule applies to a request of the given journey and system.
pub fn rule_in_scope(rule: &ValidationRule, journey: &str, system: &str) -> (r: bool)
    ensures
        r == in_scope(rule@, journey@, system@),
{
    let journey_fits = same_text(journey, "ALL_CHECKS") || same_text(
        rule.journey.as_str(),
        journey,
    );
    let system_fits = same_text(rule.system.as_str(), "ALL") || same_text(
        rule.system.as_str(),
        system,
    );
    journey_fits && system_fits
}

/// Adds `rule` to the index under `field`.
fn index_add(index: &mut Vec<FieldEntry>, field: String, rule: ValidationRule)
    ensures
        field_views(final(index)@) == index_with(field_views(old(index)@), field@, rule@),
{
    let p = find_field(index, field.as_str());
    let ghost views = field_views(index@);
    if p < index.len() {
        let mut entry = index.remove(p);
        assert(entry@ == views[p as int]);
        let ghost rest = field_views(index@);
        assert(rest == views.remove(p as int));
        let ghost before = rule_views(entry.rules@);
        entry.rules.push(rule);
        assert(rule_views(entry.rules@) == before.push(rule@));
        index.insert(p, entry);
        assert(field_views(index@) == rest.insert(p as int, entry@));
        assert(rest.insert(p as int, entry@) == views.update(p as int, entry@));
    } else {
        let mut rules: Vec<ValidationRule> = Vec::new();
        rules.push(rule);
        assert(rule_views(rules@) == seq![rule@]);
        let entry = FieldEntry { field, rules };
        index.push(entry);
        assert(field_views(index@) == views.push(entry@));
    }
}

/// The index of the branches of `parent`, or the number of entries.
fn find_branch(branches: &Vec<BranchEntry>, parent: &str) -> (p: usize)
    ensures
        p == branch_position(branch_views(branches@), parent@, 0),
        p <= branches@.len(),
        p < branches@.len() ==> branch_views(branches@)[p as int].parent_id == parent@,
{
    let ghost views = branch_views(branches@);
    let mut p: usize = 0;
    while p < branches.len() && !same_text(branches[p].parent_id.as_str(), parent)
        invariant
            p <= branches.len(),
            views == branch_views(branches@),
            branch_position(views, parent@, 0) == branch_position(views, parent@, p as int),
        decreases branches.len() - p,
    {
        assert(views[p as int] == branches@[p as int]@);
        p = p + 1;
    }
    assert(p < branches.len() ==> views[p as int] == branches@[p as int]@);
    p
}

/// Adds `rule` to a branch of the root that it names.
fn branch_add(branches: &mut Vec<BranchEntry>, rule: ValidationRule, then_side: bool)
    ensures
        branch_views(final(branches)@) == branches_with(
            branch_views(old(branches)@),
            rule@.parent_rule_id,
            rule@,
            then_side,
        ),
{
    let p = find_branch(branches, rule.parent_rule_id.as_str());
    let ghost views = branch_views(branches@);
    if p < branches.len() {
        let mut entry = branches.remove(p);
        assert(entry@ == views[p as int]);
        let ghost rest = branch_views(branches@);
        assert(rest == views.remove(p as int));
        if then_side {
            let ghost before = rule_views(entry.then_rules@);
            entry.then_rules.push(rule);
            assert(rule_views(entry.then_rules@) == before.push(rule@));
        } else {
            let ghost before = rule_views(entry.else_rules@);
            entry.else_rules.push(rule);
            assert(rule_views(entry.else_rules@) == before.push(rule@));
        }
        branches.insert(p, entry);
        assert(branch_views(branches@) == rest.insert(p as int, entry@));
        assert(rest.insert(p as int, entry@) == views.update(p as int, entry@));
    } else {
        let parent = rule.parent_rule_id.clone();
        let mut then_rules: Vec<ValidationRule> = Vec::new();
        let mut else_rules: Vec<ValidationRule> = Vec::new();
        assert(rule_views(then_rules@) == Seq::<RuleView>::empty());
        assert(rule_views(else_rules@) == Seq::<RuleView>::empty());
        if then_side {
            then_rules.push(rule);
            assert(rule_views(then_rules@) == seq![rule@]);
        } else {
            else_rules.push(rule);
            assert(rule_views(else_rules@) == seq![rule@]);
        }
        let entry = BranchEntry { parent_id: parent, then_rules, else_rules };
        branches.push(entry);
        assert(branch_views(branches@) == views.push(entry@));
    }
}

/// The field names that a rule is indexed under.
fn field_names(key_fields: &str) -> (out: Vec<String>)
    ensures
        string_views(out@) == key_field_names(key_fields@),
{
    let cs = chars_of(key_fields);
    let mut out: Vec<String> = Vec::new();
    if cs.len() == 0 {
        assert(string_views(out@) == Seq::<Seq<char>>::empty());
        return out;
    }
    let parts = split(&cs, ',');
    let ghost raw = texts_of(parts@);
    let ghost names = raw.map_values(|p: Seq<char>| trimmed(p));
    let mut i: usize = 0;
    assert(string_views(out@) == names.take(0));
    while i < parts.len()
        invariant
            i <= parts.len(),
            raw == texts_of(parts@),
            names == raw.map_values(|p: Seq<char>| trimmed(p)),
            string_views(out@) == names.take(i as int),
        decreases parts.len() - i,
    {
        let name = string_of(&trim(&parts[i]));
        assert(raw[i as int] == parts@[i as int]@);
        let ghost before = string_views(out@);
        out.push(name);
        assert(string_views(out@) == before.push(name@));
        assert(names.take(i + 1) == names.take(i as int).push(names[i as int]));
        i = i + 1;
    }
    assert(names.take(names.len() as int) == names);
    out
}

/// Whether some rule of `rules` has the identifier `id`.
fn any_with_id(rules: &Vec<ValidationRule>, id: &str) -> (r: bool)
    ensures
        r == holds_id(rule_views(rules@), id@),
{
    let ghost views = rule_views(rules@);
    let mut i: usize = 0;
    while i < rules.len()
        invariant
            i <= rules.len(),
            views == rule_views(rules@),
            forall|j: int| 0 <= j < i ==> (#[trigger] views[j]).id != id@,
        decreases rules.len() - i,
    {
        assert(views[i as int] == rules@[i as int]@);
        if same_text(rules[i].id.as_str(), id) {
            return true;
        }
        i = i + 1;
    }
    false
}

/// The rules of `rules` with another identifier than `id`.
fn rules_without(rules: Vec<ValidationRule>, id: &str) -> (out: Vec<ValidationRule>)
    ensures
        rule_views(out@) == without_id(rule_views(rules@), id@),
{
    let ghost views = rule_views(rules@);
    let mut out: Vec<ValidationRule> = Vec::new();
    let mut i: usize = 0;
    assert(views.take(0) == Seq::<RuleView>::empty());
    assert(rule_views(out@) == Seq::<RuleView>::empty());
    while i < rules.len()
        invariant
            i <= rules.len(),
            views == rule_views(rules@),
            rule_views(out@) == without_id(views.take(i as int), id@),
        decreases rules.len() - i,
    {
        assert(views.take(i + 1).drop_last() == views.take(i as int));
        assert(views.take(i + 1).last() == rules@[i as int]@);
        if !same_text(rules[i].id.as_str(), id) {
            let ghost before = rule_views(out@);
            out.push(rules[i].clone());
            assert(rule_views(out@) == before.push(rules@[i as int]@));
        }
        i = i + 1;
    }
    assert(views.take(views.len() as int) == views);
    out
}

/// A rule of a concatenation is a rule of one of its parts.
pub proof fn lemma_holds_id_concat(a: Seq<RuleView>, b: Seq<RuleView>, id: Seq<char>)
    ensures
        holds_id(a + b, id) == (holds_id(a, id) || holds_id(b, id)),
{
    if holds_id(a + b, id) {
        let i = choose|i: int| 0 <= i < (a + b).len() && (#[trigger] (a + b)[i]).id == id;
        if i < a.len() {
            assert(a[i].id == id);
        } else {
            assert(b[i - a.len()].id == id);
        }
    }
    if holds_id(a, id) {
        let i = choose|i: int| 0 <= i < a.len() && (#[trigger] a[i]).id == id;
        assert((a + b)[i].id == id);
    }
    if holds_id(b, id) {
        let i = choose|i: int| 0 <= i < b.len() && (#[trigger] b[i]).id == id;
        assert((a + b)[a.len() + i].id == id);
    }
}

/// Copies the entries of an index.
fn clone_fields(v: &Vec<FieldEntry>) -> (out: Vec<FieldEntry>)
    ensures
        field_views(out@) == field_views(v@),
{
    let mut out: Vec<FieldEntry> = Vec::new();
    let mut i: usize = 0;
    while i < v.len()
        invariant
            i <= v.len(),
            field_views(out@) == field_views(v@.take(i as int)),
        decreases v.len() - i,
    {
        let ghost before = field_views(out@);
        out.push(v[i].clone());
        assert(field_views(out@) == before.push(v@[i as int]@));
        assert(v@.take(i + 1) == v@.take(i as int).push(v@[i as int]));
        assert(field_views(v@.take(i + 1)) == field_views(v@.take(i as int)).push(v@[i as int]@));
        i = i + 1;
    }
    assert(v@.take(v.len() as int) == v@);
    out
}

/// Copies the branches of the conditional roots.
fn clone_branches(v: &Vec<BranchEntry>) -> (out: Vec<BranchEntry>)
    ensures
        branch_views(out@) == branch_views(v@),
{
    let mut out: Vec<BranchEntry> = Vec::new();
    let mut i: usize = 0;
    while i < v.len()
        invariant
            i <= v.len(),
            branch_views(out@) == branch_views(v@.take(i as int)),
        decreases v.len() - i,
    {
        let ghost before = branch_views(out@);
        out.push(v[i].clone());
        assert(branch_views(out@) == before.push(v@[i as int]@));
        assert(v@.take(i + 1) == v@.take(i as int).push(v@[i as int]));
        assert(branch_views(v@.take(i + 1)) == branch_views(v@.take(i as int)).push(
            v@[i as int]@,
        ));
        i = i + 1;
    }
    assert(v@.take(v.len() as int) == v@);
    out
}

/// Copies the cached rule sets.
fn clone_scopes(v: &Vec<ScopeEntry>) -> (out: Vec<ScopeEntry>)
    ensures
        scope_views(out@) == scope_views(v@),
{
    let mut out: Vec<ScopeEntry> = Vec::new();
    let mut i: usize = 0;
    while i < v.len()
        invariant
            i <= v.len(),
            scope_views(out@) == scope_views(v@.take(i as int)),
        decreases v.len() - i,
    {
        let ghost before = scope_views(out@);
        out.push(v[i].clone());
        assert(scope_views(out@) == before.push(v@[i as int]@));
        assert(v@.take(i + 1) == v@.take(i as int).push(v@[i as int]));
        assert(scope_views(v@.take(i + 1)) == scope_views(v@.take(i as int)).push(v@[i as int]@));
        i = i + 1;
    }
    assert(v@.take(v.len() as int) == v@);
    out
}

impl Clone for RuleRepository {
    fn clone(&self) -> (out: Self)
        ensures
            out@ == self@,
    {
        RuleRepository {
            rules: clone_fields(&self.rules),
            conditional_rules: clone_branches(&self.conditional_rules),
            journey_system_cache: clone_scopes(&self.journey_system_cache),
            rules_file_path: match &self.rules_file_path {
                Some(path) => Some(path.clone()),
                None => None,
            },
            all_rules: clone_rules(&self.all_rules),
            issued: self.issued,
        }
    }
}

impl Default for RuleRepository {
    fn default() -> (out: Self)
        ensures
            out@ == RepositoryView::empty(),
            out.wf(),
    {
        RuleRepository::new()
    }
}

impl RuleRepository {
    /// The index and the branches have one entry for each key, and each
    /// cached rule set is the rule set of its journey and system.
    pub open spec fn wf(&self) -> bool {
        self@.coherent()
    }

    /// A repository without rules.
    pub fn new() -> (out: Self)
        ensures
            out@ == RepositoryView::empty(),
            out.wf(),
    {
        let out = RuleRepository {
            rules: Vec::new(),
            conditional_rules: Vec::new(),
            journey_system_cache: Vec::new(),
            rules_file_path: None,
            all_rules: Vec::new(),
            issued: 0,
        };
        assert(out@.index == Seq::<FieldView>::empty());
        assert(out@.branches == Seq::<BranchView>::empty());
        assert(out@.scopes == Seq::<ScopeView>::empty());
        assert(out@.all_rules == Seq::<RuleView>::empty());
        out
    }

    /// Forgets the cached rule sets.
    pub fn clear_caches(&mut self)
        ensures
            final(self)@ == (RepositoryView { scopes: Seq::empty(), ..old(self)@ }),
            old(self).wf() ==> final(self).wf(),
    {
        self.journey_system_cache.clear();
        assert(self@.scopes == Seq::<ScopeView>::empty());
    }

    /// Records where the rules come from.
    pub fn set_rules_file_path(&mut self, path: String)
        ensures
            final(self)@ == (RepositoryView { file_path: Some(path@), ..old(self)@ }),
            old(self).wf() ==> final(self).wf(),
    {
        self.rules_file_path = Some(path);
    }

    /// Where the rules come from, if that was recorded.
    pub fn rules_file_path(&self) -> (out: Option<String>)
        ensures
            crate::models::optional_text(out) == self@.file_path,
    {
        match &self.rules_file_path {
            Some(path) => Some(path.clone()),
            None => None,
        }
    }

    /// Adds a rule under a field. The cached rule sets are forgotten.
    pub fn add_rule(&mut self, key_field: String, rule: ValidationRule)
        ensures
            final(self)@ == (RepositoryView {
                index: index_with(old(self)@.index, key_field@, rule@),
                all_rules: old(self)@.all_rules.push(rule@),
                scopes: Seq::empty(),
                ..old(self)@
            }),
            old(self).wf() ==> final(self).wf(),
    {
        proof {
            if self.wf() {
                lemma_index_with_distinct(self@.index, key_field@, rule@);
            }
        }
        self.journey_system_cache.clear();
        let ghost everything = rule_views(self.all_rules@);
        index_add(&mut self.rules, key_field, rule.clone());
        self.all_rules.push(rule);
        assert(rule_views(self.all_rules@) == everything.push(rule@));
        assert(self@.scopes == Seq::<ScopeView>::empty());
    }

    /// The rules indexed under one field.
    pub fn get_rules_for_key_field(&self, key_field: &str) -> (out: Vec<ValidationRule>)
        ensures
            rule_views(out@) == indexed_under(self@.index, key_field@),
    {
        let p = find_field(&self.rules, key_field);
        if p < self.rules.len() {
            assert(field_views(self.rules@)[p as int] == self.rules@[p as int]@);
            clone_rules(&self.rules[p].rules)
        } else {
            let out: Vec<ValidationRule> = Vec::new();
            assert(rule_views(out@) == Seq::<RuleView>::empty());
            out
        }
    }

    /// Every indexed rule, field after field.
    fn every_indexed_rule(&self) -> (out: Vec<ValidationRule>)
        ensures
            rule_views(out@) == all_indexed(self@.index),
    {
        let ghost index = field_views(self.rules@);
        let mut out: Vec<ValidationRule> = Vec::new();
        let mut i: usize = 0;
        assert(index.take(0) == Seq::<FieldView>::empty());
        assert(rule_views(out@) == Seq::<RuleView>::empty());
        while i < self.rules.len()
            invariant
                i <= self.rules.len(),
                index == field_views(self.rules@),
                rule_views(out@) == all_indexed(index.take(i as int)),
            decreases self.rules.len() - i,
        {
            assert(index.take(i + 1).drop_last() == index.take(i as int));
            assert(index.take(i + 1).last() == self.rules@[i as int]@);
            extend_with_copies(&mut out, &self.rules[i].rules);
            i = i + 1;
        }
        assert(index.take(index.len() as int) == index);
        out
    }

    /// The rules indexed under any of the given fields, sorted by identifier,
    /// one rule for each identifier. The wildcard `*` among the fields asks
    /// for every rule.
    pub fn get_rules_for_key_fields(&self, fields: &[String]) -> (out: Vec<ValidationRule>)
        ensures
            rule_views(out@) == rules_for_fields(self@.index, string_views(fields@)),
    {
        let ghost texts = string_views(fields@);
        let found = if has_wildcard(fields) {
            self.every_indexed_rule()
        } else {
            let mut found: Vec<ValidationRule> = Vec::new();
            let mut i: usize = 0;
            assert(texts.take(0) == Seq::<Seq<char>>::empty());
            assert(rule_views(found@) == Seq::<RuleView>::empty());
            while i < fields.len()
                invariant
                    i <= fields.len(),
                    texts == string_views(fields@),
                    rule_views(found@) == gathered(self@.index, texts.take(i as int)),
                decreases fields.len() - i,
            {
                assert(texts.take(i + 1).drop_last() == texts.take(i as int));
                assert(texts.take(i + 1).last() == fields@[i as int]@);
                let under = self.get_rules_for_key_field(fields[i].as_str());
                let ghost before = rule_views(found@);
                let mut under = under;
                let ghost added = under@;
                found.append(&mut under);
                assert(rule_views(found@) == before + rule_views(added));
                i = i + 1;
            }
            assert(texts.take(texts.len() as int) == texts);
            found
        };
        dedup_by_id(sort_by_id(found))
    }

    /// Every rule, sorted by identifier, one rule for each identifier.
    fn whole_set(&self) -> (out: Vec<ValidationRule>)
        ensures
            rule_views(out@) == whole_rule_set(self@.index),
    {
        let found = self.every_indexed_rule();
        assert(seq!["*"@].contains("*"@)) by {
            assert(seq!["*"@][0] == "*"@);
        }
        dedup_by_id(sort_by_id(found))
    }

    /// The index of the cached rule set of a journey and system, or the number
    /// of cached rule sets.
    fn find_scope(&self, journey: &str, system: &str) -> (p: usize)
        ensures
            p == scope_position(self@.scopes, journey@, system@, 0),
            p <= self@.scopes.len(),
            p < self@.scopes.len() ==> self@.scopes[p as int].journey == journey@
                && self@.scopes[p as int].system == system@,
    {
        let ghost views = scope_views(self.journey_system_cache@);
        let mut p: usize = 0;
        while p < self.journey_system_cache.len() && !(same_text(
            self.journey_system_cache[p].journey.as_str(),
            journey,
        ) && same_text(self.journey_system_cache[p].system.as_str(), system))
            invariant
                p <= self.journey_system_cache.len(),
                views == scope_views(self.journey_system_cache@),
                scope_position(views, journey@, system@, 0) == scope_position(
                    views,
                    journey@,
                    system@,
                    p as int,
                ),
            decreases self.journey_system_cache.len() - p,
        {
            assert(views[p as int] == self.journey_system_cache@[p as int]@);
            p = p + 1;
        }
        assert(p < self.journey_system_cache.len() ==> views[p as int]
            == self.journey_system_cache@[p as int]@);
        p
    }

    /// The rule set of a journey and system: of the whole rule set, the rules
    /// whose journey and system fit. A cached rule set is handed out as it
    /// is; the cache is not written.
    pub fn get_rules_for_journey_system(&self, journey: &str, system: &str) -> (out: Vec<
        ValidationRule,
    >)
        requires
            self.wf(),
        ensures
            rule_views(out@) == rules_for_scope(self@.index, journey@, system@),
    {
        let p = self.find_scope(journey, system);
        if p < self.journey_system_cache.len() {
            assert(self@.scopes[p as int] == self.journey_system_cache@[p as int]@);
            return clone_rules(&self.journey_system_cache[p].rules);
        }
        self.scope_rules(journey, system)
    }

    /// Works out the rule set of a journey and system.
    fn scope_rules(&self, journey: &str, system: &str) -> (out: Vec<ValidationRule>)
        ensures
            rule_views(out@) == rules_for_scope(self@.index, journey@, system@),
    {
        let all = self.whole_set();
        let ghost views = rule_views(all@);
        let mut out: Vec<ValidationRule> = Vec::new();
        let mut i: usize = 0;
        assert(views.take(0) == Seq::<RuleView>::empty());
        assert(rule_views(out@) == Seq::<RuleView>::empty());
        while i < all.len()
            invariant
                i <= all.len(),
                views == rule_views(all@),
                rule_views(out@) == scoped(views.take(i as int), journey@, system@),
            decreases all.len() - i,
        {
            assert(views.take(i + 1).drop_last() == views.take(i as int));
            assert(views.take(i + 1).last() == all@[i as int]@);
            if rule_in_scope(&all[i], journey, system) {
                let ghost before = rule_views(out@);
                out.push(all[i].clone());
                assert(rule_views(out@) == before.push(all@[i as int]@));
            }
            i = i + 1;
        }
        assert(views.take(views.len() as int) == views);
        out
    }

    /// Caches `rules` as the rule set of a journey and system, if that is what
    /// they are and the rule set is not cached already. Rules that are not
    /// the rule set of the journey and system are not taken.
    pub fn update_journey_system_cache(
        &mut self,
        journey: &str,
        system: &str,
        rules: Vec<ValidationRule>,
    )
        requires
            old(self).wf(),
        ensures
            final(self).wf(),
            final(self)@ == if rule_views(rules@) == rules_for_scope(
                old(self)@.index,
                journey@,
                system@,
            ) {
                old(self)@.with_scope_cached(journey@, system@)
            } else {
                old(self)@
            },
    {
        let p = self.find_scope(journey, system);
        if p < self.journey_system_cache.len() {
            return ;
        }
        let expected = self.scope_rules(journey, system);
        if !same_rules(&rules, &expected) {
            return ;
        }
        let ghost before = scope_views(self.journey_system_cache@);
        let entry = ScopeEntry {
            journey: String::from_str(journey),
            system: String::from_str(system),
            rules,
        };
        self.journey_system_cache.push(entry);
        assert(scope_views(self.journey_system_cache@) == before.push(entry@));
        assert forall|i: int| 0 <= i < self@.scopes.len() implies (#[trigger] self@.scopes[i]).rules
            == rules_for_scope(self@.index, self@.scopes[i].journey, self@.scopes[i].system) by {
            if i < before.len() {
                assert(self@.scopes[i] == before[i]);
            }
        }
        proof {
            lemma_scope_position(before, journey@, system@, 0);
            let after = self@.scopes;
            assert forall|i: int, j: int| 0 <= i < j < after.len() implies !((
            #[trigger] after[i]).journey == (#[trigger] after[j]).journey && after[i].system
                == after[j].system) by {
                assert(after[i] == before[i]);
                if j < before.len() {
                    assert(after[j] == before[j]);
                }
            }
        }
    }

    /// The branches of a conditional root: the rules to evaluate when the root
    /// passes, and those to evaluate when it fails. Both are empty for a root
    /// without branches.
    pub fn get_conditional_rules(&self, parent_id: &str) -> (out: (
        Vec<ValidationRule>,
        Vec<ValidationRule>,
    ))
        ensures
            rule_views(out.0@) == branch_of(self@.branches, parent_id@, true),
            rule_views(out.1@) == branch_of(self@.branches, parent_id@, false),
    {
        let p = find_branch(&self.conditional_rules, parent_id);
        if p < self.conditional_rules.len() {
            assert(branch_views(self.conditional_rules@)[p as int]
                == self.conditional_rules@[p as int]@);
            (
                clone_rules(&self.conditional_rules[p].then_rules),
                clone_rules(&self.conditional_rules[p].else_rules),
            )
        } else {
            let then_rules: Vec<ValidationRule> = Vec::new();
            let else_rules: Vec<ValidationRule> = Vec::new();
            assert(rule_views(then_rules@) == Seq::<RuleView>::empty());
            assert(rule_views(else_rules@) == Seq::<RuleView>::empty());
            (then_rules, else_rules)
        }
    }

    /// Gives a conditional root its branches, in place of those it had. The
    /// cached rule sets are forgotten.
    pub fn set_conditional_rules(
        &mut self,
        parent_id: String,
        then_rules: Vec<ValidationRule>,
        else_rules: Vec<ValidationRule>,
    )
        ensures
            final(self)@ == (RepositoryView {
                branches: branches_set(
                    old(self)@.branches,
                    BranchView {
                        parent_id: parent_id@,
                        then_rules: rule_views(then_rules@),
                        else_rules: rule_views(else_rules@),
                    },
                ),
                scopes: Seq::empty(),
                ..old(self)@
            }),
            old(self).wf() ==> final(self).wf(),
    {
        proof {
            if self.wf() {
                lemma_branches_set_distinct(
                    self@.branches,
                    BranchView {
                        parent_id: parent_id@,
                        then_rules: rule_views(then_rules@),
                        else_rules: rule_views(else_rules@),
                    },
                );
            }
        }
        self.journey_system_cache.clear();
        let p = find_branch(&self.conditional_rules, parent_id.as_str());
        let ghost views = branch_views(self.conditional_rules@);
        let entry = BranchEntry { parent_id, then_rules, else_rules };
        if p < self.conditional_rules.len() {
            let gone = self.conditional_rules.remove(p);
            let ghost rest = branch_views(self.conditional_rules@);
            assert(rest == views.remove(p as int));
            self.conditional_rules.insert(p, entry);
            assert(branch_views(self.conditional_rules@) == rest.insert(p as int, entry@));
            assert(rest.insert(p as int, entry@) == views.update(p as int, entry@));
        } else {
            self.conditional_rules.push(entry);
            assert(branch_views(self.conditional_rules@) == views.push(entry@));
        }
        assert(self@.scopes == Seq::<ScopeView>::empty());
    }

    /// Replaces the whole repository by the rules read from a rule source.
    /// A `Then` or `Else` rule goes to the branch of the root that it names;
    /// every other rule is indexed under each of its field names.
    pub fn load_from_csv(&mut self, path: String, records: Vec<ValidationRule>)
        ensures
            final(self)@ == RepositoryView::loaded(
                path@,
                rule_views(records@),
                old(self)@.issued,
            ),
            final(self).wf(),
    {
        let ghost views = rule_views(records@);
        let mut index: Vec<FieldEntry> = Vec::new();
        let mut branches: Vec<BranchEntry> = Vec::new();
        let mut i: usize = 0;
        assert(views.take(0) == Seq::<RuleView>::empty());
        assert(field_views(index@) == Seq::<FieldView>::empty());
        assert(branch_views(branches@) == Seq::<BranchView>::empty());
        while i < records.len()
            invariant
                i <= records.len(),
                views == rule_views(records@),
                field_views(index@) == loaded_index(views.take(i as int)),
                branch_views(branches@) == loaded_branches(views.take(i as int)),
            decreases records.len() - i,
        {
            assert(views.take(i + 1).drop_last() == views.take(i as int));
            assert(views.take(i + 1).last() == records@[i as int]@);
            let rule = &records[i];
            if rule.logic_type == ConditionalLogic::Then {
                branch_add(&mut branches, rule.clone(), true);
            } else if rule.logic_type == ConditionalLogic::Else {
                branch_add(&mut branches, rule.clone(), false);
            } else {
                let names = field_names(rule.key_fields.as_str());
                let ghost texts = string_views(names@);
                let ghost start = field_views(index@);
                let mut k: usize = 0;
                assert(texts.take(0) == Seq::<Seq<char>>::empty());
                while k < names.len()
                    invariant
                        k <= names.len(),
                        texts == string_views(names@),
                        field_views(index@) == index_with_all(start, texts.take(k as int), rule@),
                    decreases names.len() - k,
                {
                    assert(texts.take(k + 1).drop_last() == texts.take(k as int));
                    assert(texts.take(k + 1).last() == names@[k as int]@);
                    index_add(&mut index, names[k].clone(), rule.clone());
                    k = k + 1;
                }
                assert(texts.take(texts.len() as int) == texts);
            }
            i = i + 1;
        }
        assert(views.take(views.len() as int) == views);
        proof {
            lemma_loaded_index_distinct(views);
            lemma_loaded_branches_distinct(views);
        }
        self.journey_system_cache.clear();
        self.rules = index;
        self.conditional_rules = branches;
        self.rules_file_path = Some(path);
        self.all_rules = records;
        assert(self@.scopes == Seq::<ScopeView>::empty());
    }

    /// Every rule, in the order of arrival.
    pub fn all_rules(&self) -> (out: Vec<ValidationRule>)
        ensures
            rule_views(out@) == self@.all_rules,
    {
        clone_rules(&self.all_rules)
    }

    /// What a save has to write, and where: the path that the rules were
    /// loaded from, and every rule. An error where no path was recorded.
    pub fn save_rules_to_file(&self) -> (out: Result<(String, Vec<ValidationRule>), DqrError>)
        ensures
            match out {
                Ok((path, rules)) => self@.file_path == Some(path@) && rule_views(rules@)
                    == self@.all_rules,
                Err(e) => self@.file_path is None && e@ == ErrorView::InvalidRuleConfig(
                    "No rules file path set"@,
                ),
            },
    {
        match &self.rules_file_path {
            Some(path) => Ok((path.clone(), clone_rules(&self.all_rules))),
            None => Err(DqrError::InvalidRuleConfig(String::from_str("No rules file path set"))),
        }
    }

    /// Whether the repository holds a rule with the identifier `id`.
    fn knows_rule(&self, id: &str) -> (r: bool)
        ensures
            r == self@.knows(id@),
    {
        if any_with_id(&self.all_rules, id) {
            return true;
        }
        let ghost index = field_views(self.rules@);
        let mut i: usize = 0;
        assert(index.take(0) == Seq::<FieldView>::empty());
        while i < self.rules.len()
            invariant
                i <= self.rules.len(),
                index == field_views(self.rules@),
                !holds_id(all_indexed(index.take(i as int)), id@),
                !holds_id(rule_views(self.all_rules@), id@),
            decreases self.rules.len() - i,
        {
            assert(index.take(i + 1).drop_last() == index.take(i as int));
            assert(index.take(i + 1).last() == self.rules@[i as int]@);
            proof {
                lemma_holds_id_concat(
                    all_indexed(index.take(i as int)),
                    rule_views(self.rules@[i as int].rules@),
                    id@,
                );
            }
            if any_with_id(&self.rules[i].rules, id) {
                proof {
                    lemma_all_indexed_prefix(index, i + 1, id@);
                }
                return true;
            }
            i = i + 1;
        }
        assert(index.take(index.len() as int) == index);
        let ghost branches = branch_views(self.conditional_rules@);
        let mut k: usize = 0;
        assert(branches.take(0) == Seq::<BranchView>::empty());
        while k < self.conditional_rules.len()
            invariant
                k <= self.conditional_rules.len(),
                branches == branch_views(self.conditional_rules@),
                !holds_id(all_branch_rules(branches.take(k as int)), id@),
                !holds_id(all_indexed(field_views(self.rules@)), id@),
                !holds_id(rule_views(self.all_rules@), id@),
            decreases self.conditional_rules.len() - k,
        {
            assert(branches.take(k + 1).drop_last() == branches.take(k as int));
            assert(branches.take(k + 1).last() == self.conditional_rules@[k as int]@);
            proof {
                let entry = self.conditional_rules@[k as int]@;
                lemma_holds_id_concat(
                    all_branch_rules(branches.take(k as int)),
                    entry.then_rules,
                    id@,
                );
                lemma_holds_id_concat(
                    all_branch_rules(branches.take(k as int)) + entry.then_rules,
                    entry.else_rules,
                    id@,
                );
            }
            if any_with_id(&self.conditional_rules[k].then_rules, id) || any_with_id(
                &self.conditional_rules[k].else_rules,
                id,
            ) {
                proof {
                    lemma_all_branch_rules_prefix(branches, k + 1, id@);
                }
                return true;
            }
            k = k + 1;
        }
        assert(branches.take(branches.len() as int) == branches);
        false
    }

    /// Deletes the rules with the identifier `rule_id`: from the list of all
    /// rules, from every field of the index, and from the branches, where
    /// the branches of a root with that identifier go as well. The cached
    /// rule sets are forgotten. An error, and no change, where the repository
    /// holds no such rule.
    pub fn delete_rule(&mut self, rule_id: &str) -> (out: Result<(), DqrError>)
        ensures
            match out {
                Ok(_) => old(self)@.knows(rule_id@) && final(self)@ == old(self)@.without(rule_id@),
                Err(e) => !old(self)@.knows(rule_id@) && e@ == ErrorView::RuleNotFound(rule_id@)
                    && final(self)@ == old(self)@,
            },
            old(self).wf() ==> final(self).wf(),
    {
        if !self.knows_rule(rule_id) {
            return Err(DqrError::RuleNotFound(String::from_str(rule_id)));
        }
        proof {
            lemma_index_without_fields(self@.index, rule_id@);
            lemma_branches_without_parents(self@.branches, rule_id@);
        }
        self.journey_system_cache.clear();
        let ghost index = field_views(self.rules@);
        let ghost branches = branch_views(self.conditional_rules@);
        let mut kept: Vec<FieldEntry> = Vec::new();
        let mut i: usize = 0;
        assert(index.take(0) == Seq::<FieldView>::empty());
        assert(field_views(kept@) == Seq::<FieldView>::empty());
        while i < self.rules.len()
            invariant
                i <= self.rules.len(),
                index == field_views(self.rules@),
                field_views(kept@) == index_without(index.take(i as int), rule_id@),
            decreases self.rules.len() - i,
        {
            assert(index.take(i + 1).drop_last() == index.take(i as int));
            assert(index.take(i + 1).last() == self.rules@[i as int]@);
            let rest = rules_without(clone_rules(&self.rules[i].rules), rule_id);
            if rest.len() > 0 {
                let entry = FieldEntry { field: self.rules[i].field.clone(), rules: rest };
                let ghost before = field_views(kept@);
                kept.push(entry);
                assert(field_views(kept@) == before.push(entry@));
            }
            i = i + 1;
        }
        assert(index.take(index.len() as int) == index);
        let mut left: Vec<BranchEntry> = Vec::new();
        let mut k: usize = 0;
        assert(branches.take(0) == Seq::<BranchView>::empty());
        assert(branch_views(left@) == Seq::<BranchView>::empty());
        while k < self.conditional_rules.len()
            invariant
                k <= self.conditional_rules.len(),
                branches == branch_views(self.conditional_rules@),
                branch_views(left@) == branches_without(branches.take(k as int), rule_id@),
            decreases self.conditional_rules.len() - k,
        {
            assert(branches.take(k + 1).drop_last() == branches.take(k as int));
            assert(branches.take(k + 1).last() == self.conditional_rules@[k as int]@);
            let entry = &self.conditional_rules[k];
            if !same_text(entry.parent_id.as_str(), rule_id) {
                let fresh = BranchEntry {
                    parent_id: entry.parent_id.clone(),
                    then_rules: rules_without(clone_rules(&entry.then_rules), rule_id),
                    else_rules: rules_without(clone_rules(&entry.else_rules), rule_id),
                };
                let ghost before = branch_views(left@);
                left.push(fresh);
                assert(branch_views(left@) == before.push(fresh@));
            }
            k = k + 1;
        }
        assert(branches.take(branches.len() as int) == branches);
        let all = rules_without(clone_rules(&self.all_rules), rule_id);
        self.rules = kept;
        self.conditional_rules = left;
        self.all_rules = all;
        assert(self@.scopes == Seq::<ScopeView>::empty());
        Ok(())
    }

    /// What the management interface shows: every standard rule, in the order
    /// of arrival.
    pub fn get_all_rules_for_display(&self) -> (out: Vec<RuleDisplay>)
        ensures
            display_views(out@) == displayed(self@.all_rules),
    {
        let ghost views = rule_views(self.all_rules@);
        let mut out: Vec<RuleDisplay> = Vec::new();
        let mut i: usize = 0;
        assert(views.take(0) == Seq::<RuleView>::empty());
        assert(display_views(out@) == Seq::<DisplayView>::empty());
        while i < self.all_rules.len()
            invariant
                i <= self.all_rules.len(),
                views == rule_views(self.all_rules@),
                display_views(out@) == displayed(views.take(i as int)),
            decreases self.all_rules.len() - i,
        {
            assert(views.take(i + 1).drop_last() == views.take(i as int));
            assert(views.take(i + 1).last() == self.all_rules@[i as int]@);
            let rule = &self.all_rules[i];
            if rule.logic_type == ConditionalLogic::Standard {
                let shown = RuleDisplay {
                    id: rule.id.clone(),
                    field_path: rule.selector.clone(),
                    validation_type: rule.condition.clone(),
                    parameters: show_parameters(&rule.parameters),
                    description: describe(&rule.parameters),
                    journey: rule.journey.clone(),
                    system: rule.system.clone(),
                };
                let ghost before = display_views(out@);
                out.push(shown);
                assert(display_views(out@) == before.push(shown@));
            }
            i = i + 1;
        }
        assert(views.take(views.len() as int) == views);
        out
    }

    /// Creates the rule that `request` asks for and returns its identifier:
    /// `R` with the least number that is greater than every number used
    /// before and than the number of rules, and whose identifier no rule of
    /// the repository has. The cached rule sets are forgotten. An error, and
    /// no change, where no such number is left.
    pub fn create_rule(&mut self, request: &NewRuleRequest) -> (out: Result<String, DqrError>)
        ensures
            match out {
                Ok(id) => old(self)@.new_number() matches Some(number) && id@ == generated_id(
                    number,
                ) && final(self)@ == old(self)@.with_requested(request@, number),
                Err(e) => old(self)@.new_number() is None && e@ == ErrorView::InvalidRuleConfig(
                    "No rule identifier is left"@,
                ) && final(self)@ == old(self)@,
            },
            out matches Ok(id) ==> !old(self)@.knows(id@),
            out is Ok && request.description is Some ==> display_of(
                final(self)@.all_rules.last(),
            ).description == request@.description,
            old(self).wf() ==> final(self).wf(),
    {
        let ghost before = self@;
        let used: usize = if self.issued >= self.all_rules.len() {
            self.issued
        } else {
            self.all_rules.len()
        };
        if used == usize::MAX {
            return Err(
                DqrError::InvalidRuleConfig(String::from_str("No rule identifier is left")),
            );
        }
        let mut number: usize = used + 1;
        let mut id = String::from_str("R").concat(string_of(&render_number(number)).as_str());
        while self.knows_rule(id.as_str())
            invariant
                self@ == before,
                before.next_number() <= number <= usize::MAX,
                id@ == generated_id(number as nat),
                before.new_number() == before.free_number(number as nat, usize::MAX as nat),
            decreases usize::MAX - number,
        {
            if number == usize::MAX {
                assert(before.free_number((number + 1) as nat, usize::MAX as nat) is None);
                return Err(
                    DqrError::InvalidRuleConfig(String::from_str("No rule identifier is left")),
                );
            }
            number = number + 1;
            id = String::from_str("R").concat(string_of(&render_number(number)).as_str());
        }
        let rule = ValidationRule {
            id: id.clone(),
            selector: request.field_path.clone(),
            condition: request.validation_type.clone(),
            key_fields: request.field_path.clone(),
            journey: request.journey.clone(),
            system: request.system.clone(),
            depends_on_selector: String::new(),
            depends_on_condition: String::new(),
            parameters: read_parameters(&request.parameters, &request.description),
            logic_type: ConditionalLogic::Standard,
            parent_rule_id: String::new(),
        };
        assert(rule@ == requested_rule(request@, generated_id(number as nat)));
        self.issued = number;
        assert(self@ == (RepositoryView { issued: number as nat, ..before }));
        assert(before.coherent() ==> self@.coherent());
        self.add_rule(request.field_path.clone(), rule);
        Ok(id)
    }

    /// How many conditional roots have branches.
    pub fn conditional_root_count(&self) -> (n: usize)
        ensures
            n == self@.branches.len(),
    {
        self.conditional_rules.len()
    }

    /// How many rule sets are cached.
    pub fn get_journey_system_cache_size(&self) -> (n: usize)
        ensures
            n == self@.scopes.len(),
    {
        self.journey_system_cache.len()
    }
}

/// The rules of the first `n` fields are among all indexed rules.
proof fn lemma_all_indexed_prefix(index: Seq<FieldView>, n: int, id: Seq<char>)
    requires
        0 <= n <= index.len(),
        holds_id(all_indexed(index.take(n)), id),
    ensures
        holds_id(all_indexed(index), id),
    decreases index.len() - n,
{
    if n == index.len() {
        assert(index.take(n) == index);
    } else {
        assert(index.take(n + 1).drop_last() == index.take(n));
        lemma_holds_id_concat(all_indexed(index.take(n)), index.take(n + 1).last().rules, id);
        lemma_all_indexed_prefix(index, n + 1, id);
    }
}

/// The rules of the first `n` roots are among all branch rules.
proof fn lemma_all_branch_rules_prefix(branches: Seq<BranchView>, n: int, id: Seq<char>)
    requires
        0 <= n <= branches.len(),
        holds_id(all_branch_rules(branches.take(n)), id),
    ensures
        holds_id(all_branch_rules(branches), id),
    decreases branches.len() - n,
{
    if n == branches.len() {
        assert(branches.take(n) == branches);
    } else {
        assert(branches.take(n + 1).drop_last() == branches.take(n));
        let entry = branches.take(n + 1).last();
        lemma_holds_id_concat(all_branch_rules(branches.take(n)), entry.then_rules, id);
        lemma_holds_id_concat(
            all_branch_rules(branches.take(n)) + entry.then_rules,
            entry.else_rules,
            id,
        );
        lemma_all_branch_rules_prefix(branches, n + 1, id);
    }
}


/// Where `field_position` points, an entry for the field stands, and none
/// before it.
pub proof fn lemma_field_position(index: Seq<FieldView>, field: Seq<char>, from: int)
    requires
        0 <= from <= index.len(),
    ensures
        from <= field_position(index, field, from) <= index.len(),
        field_position(index, field, from) < index.len() ==> index[field_position(
            index,
            field,
            from,
        )].field == field,
        forall|k: int|
            from <= k < field_position(index, field, from) ==> (#[trigger] index[k]).field
                != field,
    decreases index.len() - from,
{
    if from < index.len() && index[from].field != field {
        lemma_field_position(index, field, from + 1);
    }
}

/// Where `branch_position` points, the branches of the parent stand, and
/// none before it.
pub proof fn lemma_branch_position(branches: Seq<BranchView>, parent: Seq<char>, from: int)
    requires
        0 <= from <= branches.len(),
    ensures
        from <= branch_position(branches, parent, from) <= branches.len(),
        branch_position(branches, parent, from) < branches.len() ==> branches[branch_position(
            branches,
            parent,
            from,
        )].parent_id == parent,
        forall|k: int|
            from <= k < branch_position(branches, parent, from) ==> (
            #[trigger] branches[k]).parent_id != parent,
    decreases branches.len() - from,
{
    if from < branches.len() && branches[from].parent_id != parent {
        lemma_branch_position(branches, parent, from + 1);
    }
}

/// A rule added under a field leaves the index with one entry for each
/// field.
pub proof fn lemma_index_with_distinct(index: Seq<FieldView>, field: Seq<char>, rule: RuleView)
    requires
        distinct_fields(index),
    ensures
        distinct_fields(index_with(index, field, rule)),
{
    lemma_field_position(index, field, 0);
    let p = field_position(index, field, 0);
    let after = index_with(index, field, rule);
    assert forall|i: int, j: int| 0 <= i < j < after.len() implies (#[trigger] after[i]).field != (
    #[trigger] after[j]).field by {
        if p < index.len() {
            assert(after[i].field == index[i].field);
            assert(after[j].field == index[j].field);
        } else if j < index.len() {
            assert(after[i] == index[i] && after[j] == index[j]);
        } else {
            assert(after[i] == index[i]);
        }
    }
}

/// A rule added under several fields leaves the index with one entry for
/// each field.
pub proof fn lemma_index_with_all_distinct(
    index: Seq<FieldView>,
    names: Seq<Seq<char>>,
    rule: RuleView,
)
    requires
        distinct_fields(index),
    ensures
        distinct_fields(index_with_all(index, names, rule)),
    decreases names.len(),
{
    if names.len() > 0 {
        lemma_index_with_all_distinct(index, names.drop_last(), rule);
        lemma_index_with_distinct(
            index_with_all(index, names.drop_last(), rule),
            names.last(),
            rule,
        );
    }
}

/// A load builds an index with one entry for each field.
pub proof fn lemma_loaded_index_distinct(records: Seq<RuleView>)
    ensures
        distinct_fields(loaded_index(records)),
    decreases records.len(),
{
    if records.len() > 0 {
        lemma_loaded_index_distinct(records.drop_last());
        lemma_index_with_all_distinct(
            loaded_index(records.drop_last()),
            key_field_names(records.last().key_fields),
            records.last(),
        );
    }
}

/// A rule added to a branch leaves one entry for each conditional root.
pub proof fn lemma_branches_with_distinct(
    branches: Seq<BranchView>,
    parent: Seq<char>,
    rule: RuleView,
    then_side: bool,
)
    requires
        distinct_parents(branches),
    ensures
        distinct_parents(branches_with(branches, parent, rule, then_side)),
{
    lemma_branch_position(branches, parent, 0);
    let p = branch_position(branches, parent, 0);
    let after = branches_with(branches, parent, rule, then_side);
    assert forall|i: int, j: int| 0 <= i < j < after.len() implies (#[trigger] after[i]).parent_id
        != (#[trigger] after[j]).parent_id by {
        if p < branches.len() {
            assert(after[i].parent_id == branches[i].parent_id);
            assert(after[j].parent_id == branches[j].parent_id);
        } else if j < branches.len() {
            assert(after[i] == branches[i] && after[j] == branches[j]);
        } else {
            assert(after[i] == branches[i]);
        }
    }
}

/// Branches that are set leave one entry for each conditional root.
pub proof fn lemma_branches_set_distinct(branches: Seq<BranchView>, entry: BranchView)
    requires
        distinct_parents(branches),
    ensures
        distinct_parents(branches_set(branches, entry)),
{
    lemma_branch_position(branches, entry.parent_id, 0);
    let p = branch_position(branches, entry.parent_id, 0);
    let after = branches_set(branches, entry);
    assert forall|i: int, j: int| 0 <= i < j < after.len() implies (#[trigger] after[i]).parent_id
        != (#[trigger] after[j]).parent_id by {
        if p < branches.len() {
            assert(after[i].parent_id == branches[i].parent_id);
            assert(after[j].parent_id == branches[j].parent_id);
        } else if j < branches.len() {
            assert(after[i] == branches[i] && after[j] == branches[j]);
        } else {
            assert(after[i] == branches[i]);
        }
    }
}

/// A load builds branches with one entry for each conditional root.
pub proof fn lemma_loaded_branches_distinct(records: Seq<RuleView>)
    ensures
        distinct_parents(loaded_branches(records)),
    decreases records.len(),
{
    if records.len() > 0 {
        lemma_loaded_branches_distinct(records.drop_last());
        let rule = records.last();
        if rule.logic_type == ConditionalLogic::Then {
            lemma_branches_with_distinct(
                loaded_branches(records.drop_last()),
                rule.parent_rule_id,
                rule,
                true,
            );
        } else if rule.logic_type == ConditionalLogic::Else {
            lemma_branches_with_distinct(
                loaded_branches(records.drop_last()),
                rule.parent_rule_id,
                rule,
                false,
            );
        }
    }
}

/// A deletion leaves no field that the index did not have, and one entry for
/// each field.
pub proof fn lemma_index_without_fields(index: Seq<FieldView>, id: Seq<char>)
    ensures
        forall|field: Seq<char>| #[trigger]
            has_field(index_without(index, id), field) ==> has_field(index, field),
        distinct_fields(index) ==> distinct_fields(index_without(index, id)),
    decreases index.len(),
{
    if index.len() > 0 {
        let front = index.drop_last();
        let before = index_without(front, id);
        let after = index_without(index, id);
        lemma_index_without_fields(front, id);
        assert forall|field: Seq<char>| #[trigger] has_field(after, field) implies has_field(
            index,
            field,
        ) by {
            let k = choose|k: int| 0 <= k < after.len() && (#[trigger] after[k]).field == field;
            if k < before.len() {
                assert(before[k].field == field);
                assert(has_field(before, field));
                let m = choose|m: int| 0 <= m < front.len() && (#[trigger] front[m]).field == field;
                assert(index[m].field == field);
            } else {
                assert(index[index.len() - 1].field == field);
            }
        }
        if distinct_fields(index) {
            assert(distinct_fields(front)) by {
                assert forall|i: int, j: int| 0 <= i < j < front.len() implies (
                #[trigger] front[i]).field != (#[trigger] front[j]).field by {
                    assert(front[i] == index[i] && front[j] == index[j]);
                }
            }
            assert forall|i: int, j: int| 0 <= i < j < after.len() implies (
            #[trigger] after[i]).field != (#[trigger] after[j]).field by {
                if j < before.len() {
                    assert(after[i] == before[i] && after[j] == before[j]);
                } else {
                    assert(after[i] == before[i]);
                    assert(has_field(before, before[i].field));
                    let m = choose|m: int|
                        0 <= m < front.len() && (#[trigger] front[m]).field == before[i].field;
                    assert(index[m].field == before[i].field);
                    assert(after[j].field == index[index.len() - 1].field);
                }
            }
        }
    }
}

/// A deletion leaves no conditional root that had no branches before, and
/// one entry for each root.
pub proof fn lemma_branches_without_parents(branches: Seq<BranchView>, id: Seq<char>)
    ensures
        forall|parent: Seq<char>| #[trigger]
            has_parent(branches_without(branches, id), parent) ==> has_parent(branches, parent)
                && parent != id,
        distinct_parents(branches) ==> distinct_parents(branches_without(branches, id)),
    decreases branches.len(),
{
    if branches.len() > 0 {
        let front = branches.drop_last();
        let before = branches_without(front, id);
        let after = branches_without(branches, id);
        lemma_branches_without_parents(front, id);
        assert forall|parent: Seq<char>| #[trigger] has_parent(after, parent) implies has_parent(
            branches,
            parent,
        ) && parent != id by {
            let k = choose|k: int|
                0 <= k < after.len() && (#[trigger] after[k]).parent_id == parent;
            if k < before.len() {
                assert(before[k].parent_id == parent);
                assert(has_parent(before, parent));
                let m = choose|m: int|
                    0 <= m < front.len() && (#[trigger] front[m]).parent_id == parent;
                assert(branches[m].parent_id == parent);
            } else {
                assert(branches[branches.len() - 1].parent_id == parent);
            }
        }
        if distinct_parents(branches) {
            assert(distinct_parents(front)) by {
                assert forall|i: int, j: int| 0 <= i < j < front.len() implies (
                #[trigger] front[i]).parent_id != (#[trigger] front[j]).parent_id by {
                    assert(front[i] == branches[i] && front[j] == branches[j]);
                }
            }
            assert forall|i: int, j: int| 0 <= i < j < after.len() implies (
            #[trigger] after[i]).parent_id != (#[trigger] after[j]).parent_id by {
                if j < before.len() {
                    assert(after[i] == before[i] && after[j] == before[j]);
                } else {
                    assert(after[i] == before[i]);
                    assert(has_parent(before, before[i].parent_id));
                    let m = choose|m: int|
                        0 <= m < front.len() && (#[trigger] front[m]).parent_id
                            == before[i].parent_id;
                    assert(branches[m].parent_id == before[i].parent_id);
                    assert(after[j].parent_id == branches[branches.len() - 1].parent_id);
                }
            }
        }
    }
}


/// Where `scope_position` points, the rule set of the journey and system
/// stands, and none before it.
pub proof fn lemma_scope_position(
    scopes: Seq<ScopeView>,
    journey: Seq<char>,
    system: Seq<char>,
    from: int,
)
    requires
        0 <= from <= scopes.len(),
    ensures
        from <= scope_position(scopes, journey, system, from) <= scopes.len(),
        forall|k: int|
            from <= k < scope_position(scopes, journey, system, from) ==> !((
            #[trigger] scopes[k]).journey == journey && scopes[k].system == system),
    decreases scopes.len() - from,
{
    if from < scopes.len() && !(scopes[from].journey == journey && scopes[from].system == system) {
        lemma_scope_position(scopes, journey, system, from + 1);
    }
}

} // verus!
