//! The validation engine: the rules of a journey and system applied to a
//! document, conditional trees descended, and verdicts remembered.

use crate::error::{DqrError, ErrorView};
use crate::evaluation::{
    evaluate_rule, failure_of, rule_outcome, OutcomeView, RuleOutcome,
};
use crate::json::{document_text, json_text};
use crate::models::{
    append_failures, failure_views, rule_views, FailureView, NewRuleRequest, ResponseView,
    RuleDisplay, RuleView, ValidationError, ValidationResponse, ValidationRule,
};
use crate::rules::{
    branch_of, displayed, generated_id, rules_for_scope, BranchView, RepositoryView,
    RuleRepository,
};
use crate::text::same_text;
use vstd::prelude::*;
use vstd::string::StringExecFns;

verus! {

/// The most verdicts that the engine remembers. When one more arrives, the
/// oldest goes.
pub const VALIDATION_CACHE_CAPACITY: usize = 1024;

/// The errors that a rule reports of itself, without its branches: none
/// where its dependency is not met, one at the selector where the selector is
/// malformed, else those of the checked values. A conditional root that was
/// checked reports none of itself: whether it holds is no fault of the
/// document, it only selects the branch.
pub open spec fn own_failures(rule: RuleView, document: Seq<char>) -> Seq<FailureView> {
    match rule_outcome(rule, document) {
        OutcomeView::Skipped => Seq::empty(),
        OutcomeView::Malformed => seq![failure_of(rule)],
        OutcomeView::Checked(errors) => if rule.is_condition_root() {
            Seq::empty()
        } else {
            errors
        },
    }
}

/// The branch that a rule sends the evaluation into: for a conditional root
/// that was checked, whether it passed; for any other rule, and for a root
/// that was skipped or malformed, none.
pub open spec fn descent(rule: RuleView, document: Seq<char>) -> Option<bool> {
    if rule.is_condition_root() {
        match rule_outcome(rule, document) {
            OutcomeView::Checked(errors) => Some(errors.len() == 0),
            _ => None,
        }
    } else {
        None
    }
}

/// The errors of a rule with those of the branch that it sends the
/// evaluation into; for a conditional root that was checked, those of the
/// branch alone. `depth` bounds the nesting of branches that is followed.
pub open spec fn rule_failures(
    branches: Seq<BranchView>,
    document: Seq<char>,
    rule: RuleView,
    depth: nat,
) -> Seq<FailureView>
    decreases depth, 0nat,
{
    own_failures(rule, document) + (match descent(rule, document) {
        Some(passed) => if depth > 0 {
            list_failures(
                branches,
                document,
                branch_of(branches, rule.id, passed),
                (depth - 1) as nat,
            )
        } else {
            Seq::empty()
        },
        None => Seq::empty(),
    })
}

/// The errors of the rules of a branch, one rule after the other.
pub open spec fn list_failures(
    branches: Seq<BranchView>,
    document: Seq<char>,
    rules: Seq<RuleView>,
    depth: nat,
) -> Seq<FailureView>
    decreases depth, rules.len() + 1,
{
    if rules.len() == 0 {
        Seq::empty()
    } else {
        list_failures(branches, document, rules.drop_last(), depth) + rule_failures(
            branches,
            document,
            rules.last(),
            depth,
        )
    }
}

/// The errors of the rules of a rule set: those of each rule that is no
/// branch rule, with its branches, one rule after the other.
pub open spec fn top_failures(
    branches: Seq<BranchView>,
    document: Seq<char>,
    rules: Seq<RuleView>,
    depth: nat,
) -> Seq<FailureView>
    decreases rules.len(),
{
    if rules.len() == 0 {
        Seq::empty()
    } else if rules.last().is_conditional_branch() {
        top_failures(branches, document, rules.drop_last(), depth)
    } else {
        top_failures(branches, document, rules.drop_last(), depth) + rule_failures(
            branches,
            document,
            rules.last(),
            depth,
        )
    }
}

/// The verdict that goes with a list of errors.
pub open spec fn response_of(errors: Seq<FailureView>) -> ResponseView {
    ResponseView { valid: errors.len() == 0, errors }
}

/// The verdict of a repository on a document under a journey and system: the
/// errors of its rule set for them. Branches are followed as deep as the
/// repository has conditional roots with branches, which is every branch
/// unless the roots form a cycle.
pub open spec fn validation(
    repository: RepositoryView,
    document: Seq<char>,
    journey: Seq<char>,
    system: Seq<char>,
) -> ResponseView {
    response_of(
        top_failures(
            repository.branches,
            document,
            rules_for_scope(repository.index, journey, system),
            repository.branches.len(),
        ),
    )
}

/// What `apply_rule` returns for an outcome: a skipped rule counts as passed
/// without errors, a malformed selector is an error of the call, a checked
/// rule has passed if it has no errors.
pub open spec fn applied(rule: RuleView, outcome: OutcomeView) -> Result<
    (bool, Seq<FailureView>),
    ErrorView,
> {
    match outcome {
        OutcomeView::Skipped => Ok((true, Seq::empty())),
        OutcomeView::Malformed => Err(
            ErrorView::JsonPathError("Invalid JSONPath: "@ + rule.selector),
        ),
        OutcomeView::Checked(errors) => Ok((errors.len() == 0, errors)),
    }
}

/// A remembered verdict.
pub struct CacheEntry {
    pub document: String,
    pub journey: String,
    pub system: String,
    pub response: ValidationResponse,
}

/// The model of a remembered verdict.
pub struct CacheView {
    pub document: Seq<char>,
    pub journey: Seq<char>,
    pub system: Seq<char>,
    pub response: ResponseView,
}

impl View for CacheEntry {
    type V = CacheView;

    open spec fn view(&self) -> CacheView {
        CacheView {
            document: self.document@,
            journey: self.journey@,
            system: self.system@,
            response: self.response@,
        }
    }
}

impl Clone for CacheEntry {
    fn clone(&self) -> (out: Self)
        ensures
            out@ == self@,
    {
        CacheEntry {
            document: self.document.clone(),
            journey: self.journey.clone(),
            system: self.system.clone(),
            response: self.response.clone(),
        }
    }
}

/// The models of the remembered verdicts.
pub open spec fn cache_views(s: Seq<CacheEntry>) -> Seq<CacheView> {
    s.map_values(|e: CacheEntry| e@)
}

/// The first index at or after `from` of the verdict remembered for a
/// document, journey and system, or the number of verdicts if there is none.
pub open spec fn cache_position(
    cache: Seq<CacheView>,
    document: Seq<char>,
    journey: Seq<char>,
    system: Seq<char>,
    from: int,
) -> int
    decreases cache.len() - from,
{
    if from < 0 || from >= cache.len() {
        cache.len() as int
    } else if cache[from].document == document && cache[from].journey == journey
        && cache[from].system == system {
        from
    } else {
        cache_position(cache, document, journey, system, from + 1)
    }
}

/// No two remembered verdicts are for one document, journey and system.
pub open spec fn distinct_verdicts(cache: Seq<CacheView>) -> bool {
    forall|i: int, j: int|
        #![trigger cache[i], cache[j]]
        0 <= i < j < cache.len() ==> !(cache[i].document == cache[j].document && cache[i].journey
            == cache[j].journey && cache[i].system == cache[j].system)
}

/// Before the index where `cache_position` points, no verdict of the three
/// stands.
pub proof fn lemma_no_verdict_before(
    cache: Seq<CacheView>,
    document: Seq<char>,
    journey: Seq<char>,
    system: Seq<char>,
    from: int,
)
    requires
        0 <= from <= cache.len(),
    ensures
        from <= cache_position(cache, document, journey, system, from) <= cache.len(),
        forall|k: int|
            from <= k < cache_position(cache, document, journey, system, from) ==> !((
            #[trigger] cache[k]).document == document && cache[k].journey == journey
                && cache[k].system == system),
    decreases cache.len() - from,
{
    if from < cache.len() && !(cache[from].document == document && cache[from].journey == journey
        && cache[from].system == system) {
        lemma_no_verdict_before(cache, document, journey, system, from + 1);
    }
}

/// The cache with `entry` added at the end. Where the cache is full, its
/// oldest entry goes.
pub open spec fn cache_with(cache: Seq<CacheView>, entry: CacheView) -> Seq<CacheView> {
    if cache.len() >= VALIDATION_CACHE_CAPACITY {
        cache.drop_first().push(entry)
    } else {
        cache.push(entry)
    }
}

/// The model of an engine.
pub struct EngineView {
    pub repository: RepositoryView,
    pub cache: Seq<CacheView>,
}

/// The validation engine.
pub struct ValidationEngine {
    rule_repository: RuleRepository,
    validation_cache: Vec<CacheEntry>,
}

impl View for ValidationEngine {
    type V = EngineView;

    closed spec fn view(&self) -> EngineView {
        EngineView {
            repository: self.rule_repository@,
            cache: cache_views(self.validation_cache@),
        }
    }
}

impl EngineView {
    /// The repository is coherent, and each remembered verdict is the verdict
    /// of the repository as it is now; no more verdicts are remembered than
    /// the capacity allows, and at most one for a document, journey and
    /// system.
    pub open spec fn coherent(self) -> bool {
        &&& self.repository.coherent()
        &&& self.cache.len() <= VALIDATION_CACHE_CAPACITY
        &&& distinct_verdicts(self.cache)
        &&& forall|i: int|
            0 <= i < self.cache.len() ==> (#[trigger] self.cache[i]).response == validation(
                self.repository,
                self.cache[i].document,
                self.cache[i].journey,
                self.cache[i].system,
            )
    }
}

/// The errors of one rule, with its branches.
fn evaluate_tree(
    repository: &RuleRepository,
    json: &serde_json::Value,
    rule: &ValidationRule,
    depth: usize,
) -> (out: Vec<ValidationError>)
    ensures
        failure_views(out@) == rule_failures(
            repository@.branches,
            json_text(*json),
            rule@,
            depth as nat,
        ),
    decreases depth, 0nat,
{
    let mut out: Vec<ValidationError> = Vec::new();
    let passed: Option<bool> = match evaluate_rule(json, rule) {
        RuleOutcome::Skipped => {
            assert(failure_views(out@) == Seq::<FailureView>::empty());
            None
        },
        RuleOutcome::Malformed => {
            out.push(ValidationError { path: rule.selector.clone(), rule_id: rule.id.clone() });
            assert(failure_views(out@) == seq![failure_of(rule@)]);
            None
        },
        RuleOutcome::Checked(errors) => {
            if rule.is_condition_root() {
                assert(failure_views(out@) == Seq::<FailureView>::empty());
                Some(errors.len() == 0)
            } else {
                out = errors;
                None
            }
        },
    };
    assert(failure_views(out@) == crate::validation::own_failures(rule@, json_text(*json)));
    assert(passed == descent(rule@, json_text(*json)));
    let ghost own = failure_views(out@);
    match passed {
        Some(condition_passed) => {
            if depth > 0 {
                let below = process_conditional_rules(
                    repository,
                    json,
                    rule.id.as_str(),
                    condition_passed,
                    depth - 1,
                );
                append_failures(&mut out, below);
            } else {
                assert(own + Seq::<FailureView>::empty() == own);
            }
        },
        None => {
            assert(own + Seq::<FailureView>::empty() == own);
        },
    }
    out
}

/// The errors of the branch of a conditional root that its outcome selects.
fn process_conditional_rules(
    repository: &RuleRepository,
    json: &serde_json::Value,
    parent_id: &str,
    condition_passed: bool,
    depth: usize,
) -> (out: Vec<ValidationError>)
    ensures
        failure_views(out@) == list_failures(
            repository@.branches,
            json_text(*json),
            branch_of(repository@.branches, parent_id@, condition_passed),
            depth as nat,
        ),
    decreases depth, 1nat,
{
    let (then_rules, else_rules) = repository.get_conditional_rules(parent_id);
    let branch = if condition_passed {
        then_rules
    } else {
        else_rules
    };
    let ghost views = rule_views(branch@);
    let mut out: Vec<ValidationError> = Vec::new();
    let mut i: usize = 0;
    assert(views.take(0) == Seq::<RuleView>::empty());
    assert(failure_views(out@) == Seq::<FailureView>::empty());
    while i < branch.len()
        invariant
            i <= branch.len(),
            views == rule_views(branch@),
            failure_views(out@) == list_failures(
                repository@.branches,
                json_text(*json),
                views.take(i as int),
                depth as nat,
            ),
        decreases branch.len() - i,
    {
        assert(views.take(i + 1).drop_last() == views.take(i as int));
        assert(views.take(i + 1).last() == branch@[i as int]@);
        let errors = evaluate_tree(repository, json, &branch[i], depth);
        append_failures(&mut out, errors);
        i = i + 1;
    }
    assert(views.take(views.len() as int) == views);
    out
}

/// The verdict that goes with a list of errors.
fn respond(errors: Vec<ValidationError>) -> (out: ValidationResponse)
    ensures
        out@ == response_of(failure_views(errors@)),
{
    if errors.len() == 0 {
        assert(failure_views(errors@) == Seq::<FailureView>::empty());
        ValidationResponse::success()
    } else {
        ValidationResponse::failure(errors)
    }
}

/// The verdict of a repository on a document under a journey and system.
fn compute(repository: &RuleRepository, json: &serde_json::Value, journey: &str, system: &str) -> (out:
    ValidationResponse)
    requires
        repository.wf(),
    ensures
        out@ == validation(repository@, json_text(*json), journey@, system@),
{
    let rules = repository.get_rules_for_journey_system(journey, system);
    let depth = repository.conditional_root_count();
    let ghost views = rule_views(rules@);
    let mut errors: Vec<ValidationError> = Vec::new();
    let mut i: usize = 0;
    assert(views.take(0) == Seq::<RuleView>::empty());
    assert(failure_views(errors@) == Seq::<FailureView>::empty());
    while i < rules.len()
        invariant
            i <= rules.len(),
            views == rule_views(rules@),
            depth == repository@.branches.len(),
            failure_views(errors@) == top_failures(
                repository@.branches,
                json_text(*json),
                views.take(i as int),
                depth as nat,
            ),
        decreases rules.len() - i,
    {
        assert(views.take(i + 1).drop_last() == views.take(i as int));
        assert(views.take(i + 1).last() == rules@[i as int]@);
        if !rules[i].is_conditional_branch() {
            let more = evaluate_tree(repository, json, &rules[i], depth);
            append_failures(&mut errors, more);
        }
        i = i + 1;
    }
    assert(views.take(views.len() as int) == views);
    respond(errors)
}

/// Copies the remembered verdicts.
fn clone_cache(v: &Vec<CacheEntry>) -> (out: Vec<CacheEntry>)
    ensures
        cache_views(out@) == cache_views(v@),
{
    let mut out: Vec<CacheEntry> = Vec::new();
    let mut i: usize = 0;
    while i < v.len()
        invariant
            i <= v.len(),
            cache_views(out@) == cache_views(v@.take(i as int)),
        decreases v.len() - i,
    {
        let ghost before = cache_views(out@);
        out.push(v[i].clone());
        assert(cache_views(out@) == before.push(v@[i as int]@));
        assert(v@.take(i + 1) == v@.take(i as int).push(v@[i as int]));
        assert(cache_views(v@.take(i + 1)) == cache_views(v@.take(i as int)).push(v@[i as int]@));
        i = i + 1;
    }
    assert(v@.take(v.len() as int) == v@);
    out
}

impl Clone for ValidationEngine {
    fn clone(&self) -> (out: Self)
        ensures
            out@ == self@,
    {
        ValidationEngine {
            rule_repository: self.rule_repository.clone(),
            validation_cache: clone_cache(&self.validation_cache),
        }
    }
}

impl ValidationEngine {
    /// The cached rule sets and the remembered verdicts are right.
    pub open spec fn wf(&self) -> bool {
        self@.coherent()
    }

    /// An engine on the given repository, with no verdict remembered.
    pub fn new(rule_repository: RuleRepository) -> (out: Self)
        requires
            rule_repository.wf(),
        ensures
            out@ == (EngineView { repository: rule_repository@, cache: Seq::empty() }),
            out.wf(),
    {
        let out = ValidationEngine { rule_repository, validation_cache: Vec::new() };
        assert(cache_views(out.validation_cache@) == Seq::<CacheView>::empty());
        out
    }

    /// What the management interface shows: every standard rule.
    pub fn get_rules_for_display(&self) -> (out: Vec<RuleDisplay>)
        ensures
            crate::models::display_views(out@) == displayed(self@.repository.all_rules),
    {
        self.rule_repository.get_all_rules_for_display()
    }

    /// Creates the rule that `request` asks for and returns its identifier.
    /// The remembered verdicts and the cached rule sets are forgotten.
    pub fn create_rule(&mut self, request: &NewRuleRequest) -> (out: Result<String, DqrError>)
        requires
            old(self).wf(),
        ensures
            final(self).wf(),
            match out {
                Ok(id) => old(self)@.repository.new_number() matches Some(number) && id@
                    == generated_id(number) && final(self)@ == (EngineView {
                    repository: old(self)@.repository.with_requested(request@, number),
                    cache: Seq::empty(),
                }),
                Err(e) => old(self)@.repository.new_number() is None && e@
                    == ErrorView::InvalidRuleConfig("No rule identifier is left"@) && final(self)@
                    == old(self)@,
            },
            out matches Ok(id) ==> !old(self)@.repository.knows(id@),
    {
        let out = self.rule_repository.create_rule(request);
        if out.is_ok() {
            self.validation_cache.clear();
            assert(cache_views(self.validation_cache@) == Seq::<CacheView>::empty());
        }
        out
    }

    /// Deletes the rules with the identifier `rule_id`. The remembered
    /// verdicts and the cached rule sets are forgotten. An error, and no
    /// change, where the repository holds no such rule.
    pub fn delete_rule(&mut self, rule_id: &str) -> (out: Result<(), DqrError>)
        requires
            old(self).wf(),
        ensures
            final(self).wf(),
            match out {
                Ok(_) => old(self)@.repository.knows(rule_id@) && final(self)@ == (EngineView {
                    repository: old(self)@.repository.without(rule_id@),
                    cache: Seq::empty(),
                }),
                Err(e) => !old(self)@.repository.knows(rule_id@) && e@ == ErrorView::RuleNotFound(
                    rule_id@,
                ) && final(self)@ == old(self)@,
            },
    {
        let out = self.rule_repository.delete_rule(rule_id);
        if out.is_ok() {
            self.validation_cache.clear();
            assert(cache_views(self.validation_cache@) == Seq::<CacheView>::empty());
        }
        out
    }

    /// What a save has to write, and where.
    pub fn save_rules_to_file(&self) -> (out: Result<(String, Vec<ValidationRule>), DqrError>)
        ensures
            match out {
                Ok((path, rules)) => self@.repository.file_path == Some(path@) && rule_views(rules@)
                    == self@.repository.all_rules,
                Err(e) => self@.repository.file_path is None && e@
                    == ErrorView::InvalidRuleConfig("No rules file path set"@),
            },
    {
        self.rule_repository.save_rules_to_file()
    }

    /// Forgets the remembered verdicts.
    pub fn clear_validation_cache(&mut self)
        ensures
            final(self)@ == (EngineView { cache: Seq::empty(), ..old(self)@ }),
            old(self).wf() ==> final(self).wf(),
    {
        self.validation_cache.clear();
        assert(cache_views(self.validation_cache@) == Seq::<CacheView>::empty());
    }

    /// How many verdicts are remembered.
    pub fn get_validation_cache_size(&self) -> (n: usize)
        ensures
            n == self@.cache.len(),
    {
        self.validation_cache.len()
    }

    /// How many rule sets are cached.
    pub fn get_journey_system_cache_size(&self) -> (n: usize)
        ensures
            n == self@.repository.scopes.len(),
    {
        self.rule_repository.get_journey_system_cache_size()
    }

    /// The rule set of a journey and system.
    pub fn get_rules_for_journey_system(&self, journey: &str, system: &str) -> (out: Vec<
        ValidationRule,
    >)
        requires
            self.wf(),
        ensures
            rule_views(out@) == rules_for_scope(self@.repository.index, journey@, system@),
    {
        self.rule_repository.get_rules_for_journey_system(journey, system)
    }

    /// The index of the verdict remembered for a document, journey and
    /// system, or the number of remembered verdicts.
    fn find_verdict(&self, document: &str, journey: &str, system: &str) -> (p: usize)
        ensures
            p == cache_position(self@.cache, document@, journey@, system@, 0),
            p <= self@.cache.len(),
            p < self@.cache.len() ==> self@.cache[p as int].document == document@
                && self@.cache[p as int].journey == journey@ && self@.cache[p as int].system
                == system@,
    {
        let ghost views = cache_views(self.validation_cache@);
        let mut p: usize = 0;
        while p < self.validation_cache.len() && !(same_text(
            self.validation_cache[p].journey.as_str(),
            journey,
        ) && same_text(self.validation_cache[p].system.as_str(), system) && same_text(
            self.validation_cache[p].document.as_str(),
            document,
        ))
            invariant
                p <= self.validation_cache.len(),
                views == cache_views(self.validation_cache@),
                cache_position(views, document@, journey@, system@, 0) == cache_position(
                    views,
                    document@,
                    journey@,
                    system@,
                    p as int,
                ),
            decreases self.validation_cache.len() - p,
        {
            assert(views[p as int] == self.validation_cache@[p as int]@);
            p = p + 1;
        }
        assert(p < self.validation_cache.len() ==> views[p as int]
            == self.validation_cache@[p as int]@);
        p
    }

    /// Validates a document under a journey and system. Nothing is
    /// remembered; a remembered verdict is handed out as it is.
    pub fn validate(&self, json: &serde_json::Value, journey: &str, system: &str) -> (out: Result<
        ValidationResponse,
        DqrError,
    >)
        requires
            self.wf(),
        ensures
            out matches Ok(response) && response@ == validation(
                self@.repository,
                json_text(*json),
                journey@,
                system@,
            ),
    {
        let text = document_text(json);
        let p = self.find_verdict(text.as_str(), journey, system);
        if p < self.validation_cache.len() {
            assert(self@.cache[p as int] == self.validation_cache@[p as int]@);
            return Ok(self.validation_cache[p].response.clone());
        }
        Ok(compute(&self.rule_repository, json, journey, system))
    }

    /// Validates a document under a journey and system, and remembers the
    /// verdict, unless it was remembered already. The rules and the cached
    /// rule sets stay as they are.
    pub fn validate_mut(&mut self, json: &serde_json::Value, journey: &str, system: &str) -> (out:
        Result<ValidationResponse, DqrError>)
        requires
            old(self).wf(),
        ensures
            final(self).wf(),
            out matches Ok(response) && response@ == validation(
                old(self)@.repository,
                json_text(*json),
                journey@,
                system@,
            ),
            final(self)@ == if cache_position(
                old(self)@.cache,
                json_text(*json),
                journey@,
                system@,
                0,
            ) < old(self)@.cache.len() {
                old(self)@
            } else {
                EngineView {
                    repository: old(self)@.repository,
                    cache: cache_with(
                        old(self)@.cache,
                        CacheView {
                            document: json_text(*json),
                            journey: journey@,
                            system: system@,
                            response: validation(
                                old(self)@.repository,
                                json_text(*json),
                                journey@,
                                system@,
                            ),
                        },
                    ),
                }
            },
    {
        let text = document_text(json);
        let p = self.find_verdict(text.as_str(), journey, system);
        if p < self.validation_cache.len() {
            assert(self@.cache[p as int] == self.validation_cache@[p as int]@);
            return Ok(self.validation_cache[p].response.clone());
        }
        let response = compute(&self.rule_repository, json, journey, system);
        let entry = CacheEntry {
            document: text,
            journey: String::from_str(journey),
            system: String::from_str(system),
            response: response.clone(),
        };
        let ghost before = cache_views(self.validation_cache@);
        if self.validation_cache.len() >= VALIDATION_CACHE_CAPACITY {
            let oldest = self.validation_cache.remove(0);
            assert(cache_views(self.validation_cache@) == before.drop_first());
        }
        let ghost kept = cache_views(self.validation_cache@);
        self.validation_cache.push(entry);
        assert(cache_views(self.validation_cache@) == kept.push(entry@));
        assert forall|i: int| 0 <= i < self@.cache.len() implies (#[trigger] self@.cache[i]).response
            == validation(
            self@.repository,
            self@.cache[i].document,
            self@.cache[i].journey,
            self@.cache[i].system,
        ) by {
            if i < kept.len() {
                if kept.len() < before.len() {
                    assert(kept[i] == before[i + 1]);
                } else {
                    assert(kept[i] == before[i]);
                }
            }
        }
        proof {
            lemma_no_verdict_before(before, json_text(*json), journey@, system@, 0);
            let after = self@.cache;
            let shift: int = if kept.len() < before.len() {
                1
            } else {
                0
            };
            assert forall|i: int, j: int| 0 <= i < j < after.len() implies !((
            #[trigger] after[i]).document == (#[trigger] after[j]).document && after[i].journey
                == after[j].journey && after[i].system == after[j].system) by {
                assert(after[i] == before[i + shift]);
                if j < kept.len() {
                    assert(after[j] == before[j + shift]);
                }
            }
        }
        Ok(response)
    }

    /// Evaluates one rule on a document: whether the rule passed, and its
    /// errors. A rule that its dependency gate holds back counts as passed.
    /// An error where the selector is malformed.
    pub fn apply_rule(&self, json: &serde_json::Value, rule: &ValidationRule) -> (out: Result<
        (bool, Vec<ValidationError>),
        DqrError,
    >)
        ensures
            match applied(rule@, rule_outcome(rule@, json_text(*json))) {
                Ok((passed, errors)) => out matches Ok((p, e)) && p == passed && failure_views(e@)
                    == errors,
                Err(error) => out matches Err(e) && e@ == error,
            },
    {
        match evaluate_rule(json, rule) {
            RuleOutcome::Skipped => {
                let errors: Vec<ValidationError> = Vec::new();
                assert(failure_views(errors@) == Seq::<FailureView>::empty());
                Ok((true, errors))
            },
            RuleOutcome::Malformed => Err(
                DqrError::JsonPathError(
                    String::from_str("Invalid JSONPath: ").concat(rule.selector.as_str()),
                ),
            ),
            RuleOutcome::Checked(errors) => Ok((errors.len() == 0, errors)),
        }
    }
}

} // verus!
