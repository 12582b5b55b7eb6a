//! What holds of the engine as a whole, proved from the definitions of its
//! parts.

use crate::condition::value_passes;
use crate::evaluation::{
    failure_at, gate_open, item_failures, rule_outcome, selection_failures, OutcomeView,
};
use crate::json::SelectedView;
use crate::models::{FailureView, RuleView};
use crate::ordering::{
    deduplicated, lemma_deduplicated_members, lemma_deduplicated_ordered, lemma_sorted_members,
    lemma_sorted_ordered, sorted_by_id, strictly_ordered,
};
use crate::models::NewRuleView;
use crate::rules::{
    distinct_fields, distinct_parents, has_field, has_parent, lemma_branches_without_parents,
    lemma_field_position, lemma_index_without_fields, generated_id, all_branch_rules, all_indexed, branch_of, branch_position, branches_without, collected,
    gathered, holds_id, in_scope, index_without, indexed_under, journey_matches,
    lemma_branch_position, lemma_holds_id_concat, rules_for_fields, rules_for_scope, scoped, system_matches,
    whole_rule_set, without_id, BranchView, FieldView, RepositoryView,
};
use crate::validation::{
    cache_position, descent, list_failures, own_failures, rule_failures, top_failures, validation,
    CacheView, EngineView,
};
use vstd::prelude::*;

verus! {

/// A rule with the condition `required` has, on an empty selection, exactly
/// one error: under its own identifier, at its selector as it stands.
pub proof fn law_required_on_empty_selection(rule: RuleView, values: Seq<SelectedView>)
    requires
        rule.condition == "required"@,
        values.len() == 0,
    ensures
        selection_failures(rule, values) == seq![
            FailureView { path: rule.selector, rule_id: rule.id },
        ],
{
}

/// The positions among the first `n` selected values of those that do not
/// meet the condition, in rising order.
pub open spec fn failing_positions(values: Seq<SelectedView>, condition: Seq<char>, n: nat) -> Seq<
    nat,
>
    decreases n,
{
    if n == 0 || n > values.len() {
        Seq::empty()
    } else if value_passes(values[n - 1], condition) {
        failing_positions(values, condition, (n - 1) as nat)
    } else {
        failing_positions(values, condition, (n - 1) as nat).push((n - 1) as nat)
    }
}

/// `failing_positions` holds each position below `n` of a value that does
/// not meet the condition, once, and nothing else, in rising order.
pub proof fn lemma_failing_positions(values: Seq<SelectedView>, condition: Seq<char>, n: nat)
    requires
        n <= values.len(),
    ensures
        forall|k: int|
            0 <= k < failing_positions(values, condition, n).len() ==> (#[trigger] failing_positions(
                values,
                condition,
                n,
            )[k]) < n && !value_passes(
                values[failing_positions(values, condition, n)[k] as int],
                condition,
            ),
        forall|i: int|
            0 <= i < n && !value_passes(#[trigger] values[i], condition) ==> failing_positions(
                values,
                condition,
                n,
            ).contains(i as nat),
        forall|k: int, m: int|
            0 <= k < m < failing_positions(values, condition, n).len() ==> (#[trigger] failing_positions(
                values,
                condition,
                n,
            )[k]) < #[trigger] failing_positions(values, condition, n)[m],
    decreases n,
{
    if n > 0 {
        let before = failing_positions(values, condition, (n - 1) as nat);
        let now = failing_positions(values, condition, n);
        lemma_failing_positions(values, condition, (n - 1) as nat);
        assert forall|i: int|
            0 <= i < n && !value_passes(#[trigger] values[i], condition) implies now.contains(
            i as nat,
        ) by {
            if i < n - 1 {
                assert(before.contains(i as nat));
                let k = choose|k: int| 0 <= k < before.len() && before[k] == i as nat;
                assert(now[k] == i as nat);
            } else {
                assert(now[now.len() - 1] == i as nat);
            }
        }
    }
}

/// On a selection of any number of values, a rule whose condition is not
/// `required` has one error for each value that does not meet the condition,
/// and no other: as many errors as such values, each under the identifier of
/// the rule, at the selector marked with the position of its value, in the
/// order of the values.
pub proof fn law_one_error_for_each_failing_value(rule: RuleView, values: Seq<SelectedView>)
    requires
        rule.condition != "required"@,
    ensures
        selection_failures(rule, values).len() == failing_positions(
            values,
            rule.condition,
            values.len(),
        ).len(),
        forall|k: int|
            0 <= k < selection_failures(rule, values).len() ==> #[trigger] selection_failures(
                rule,
                values,
            )[k] == failure_at(rule, failing_positions(values, rule.condition, values.len())[k]),
        forall|i: int|
            0 <= i < values.len() ==> (failing_positions(
                values,
                rule.condition,
                values.len(),
            ).contains(i as nat) <==> !value_passes(#[trigger] values[i], rule.condition)),
        forall|k: int, m: int|
            0 <= k < m < failing_positions(values, rule.condition, values.len()).len()
                ==> (#[trigger] failing_positions(values, rule.condition, values.len())[k])
                < #[trigger] failing_positions(values, rule.condition, values.len())[m],
{
    let positions = failing_positions(values, rule.condition, values.len());
    lemma_item_failures(rule, values, values.len());
    lemma_failing_positions(values, rule.condition, values.len());
    assert forall|i: int| 0 <= i < values.len() implies (positions.contains(i as nat)
        <==> !value_passes(#[trigger] values[i], rule.condition)) by {
        if positions.contains(i as nat) {
            let k = choose|k: int| 0 <= k < positions.len() && positions[k] == i as nat;
            assert(!value_passes(values[positions[k] as int], rule.condition));
        }
    }
}

/// The errors on the first `n` values are those of the failing positions.
pub proof fn lemma_item_failures(rule: RuleView, values: Seq<SelectedView>, n: nat)
    requires
        n <= values.len(),
    ensures
        item_failures(rule, values, n).len() == failing_positions(values, rule.condition, n).len(),
        forall|k: int|
            0 <= k < item_failures(rule, values, n).len() ==> #[trigger] item_failures(
                rule,
                values,
                n,
            )[k] == failure_at(rule, failing_positions(values, rule.condition, n)[k]),
    decreases n,
{
    if n > 0 {
        lemma_item_failures(rule, values, (n - 1) as nat);
    }
}

/// The answer to a query for fields is in the strict order of the
/// identifiers: sorted, and with one rule for each identifier. The same
/// query on the same index has the same answer, rule for rule.
pub proof fn law_answers_are_strictly_ordered(index: Seq<FieldView>, fields: Seq<Seq<char>>)
    ensures
        strictly_ordered(rules_for_fields(index, fields)),
{
    lemma_sorted_ordered(collected(index, fields));
    lemma_deduplicated_ordered(sorted_by_id(collected(index, fields)));
}

/// Generated identifiers with different numbers are different.
pub proof fn law_generated_identifiers_differ(n: nat, m: nat)
    requires
        n != m,
    ensures
        generated_id(n) != generated_id(m),
{
    crate::text::lemma_decimal_text_value(n);
    crate::text::lemma_decimal_text_value(m);
    if generated_id(n) == generated_id(m) {
        assert(generated_id(n).skip("R"@.len() as int) == crate::text::decimal_text(n));
        assert(generated_id(m).skip("R"@.len() as int) == crate::text::decimal_text(m));
    }
}

/// The number that `free_number` finds lies within the bounds, and no rule
/// of the repository has its identifier.
pub proof fn lemma_free_number(repository: RepositoryView, from: nat, limit: nat)
    ensures
        repository.free_number(from, limit) matches Some(number) ==> from <= number <= limit
            && !repository.knows(generated_id(number)),
    decreases limit + 1 - from,
{
    if from <= limit && repository.knows(generated_id(from)) {
        lemma_free_number(repository, (from + 1) as nat, limit);
    }
}

/// The identifier of a created rule is new: no rule of the repository has
/// it, and its number is greater than the number of every identifier
/// generated before, whatever was deleted or loaded in between. So it
/// differs from each of them.
pub proof fn law_created_rules_get_new_identifiers(
    repository: RepositoryView,
    request: NewRuleView,
    deleted: Seq<char>,
    path: Seq<char>,
    records: Seq<RuleView>,
)
    ensures
        repository.new_number() matches Some(number) ==> {
            &&& !repository.knows(generated_id(number))
            &&& number > repository.issued
            &&& repository.with_requested(request, number).issued == number
        },
        repository.without(deleted).issued == repository.issued,
        RepositoryView::loaded(path, records, repository.issued).issued == repository.issued,
{
    lemma_free_number(repository, repository.next_number(), usize::MAX as nat);
}

/// A rule is in what `scoped` keeps exactly if it is among the rules and
/// applies to the journey and system.
pub proof fn lemma_scoped_members(rules: Seq<RuleView>, journey: Seq<char>, system: Seq<char>)
    ensures
        forall|x: RuleView|
            #![trigger scoped(rules, journey, system).contains(x)]
            scoped(rules, journey, system).contains(x) <==> rules.contains(x) && in_scope(
                x,
                journey,
                system,
            ),
    decreases rules.len(),
{
    if rules.len() > 0 {
        let front = rules.drop_last();
        let last = rules.last();
        let kept = scoped(front, journey, system);
        let now = scoped(rules, journey, system);
        lemma_scoped_members(front, journey, system);
        assert forall|x: RuleView| #![trigger now.contains(x)] now.contains(x) <==> rules.contains(
            x,
        ) && in_scope(x, journey, system) by {
            if now.contains(x) {
                let k = choose|k: int| 0 <= k < now.len() && now[k] == x;
                if k < kept.len() {
                    assert(kept[k] == x);
                    assert(kept.contains(x));
                    assert(front.contains(x));
                    let m = choose|m: int| 0 <= m < front.len() && front[m] == x;
                    assert(rules[m] == x);
                } else {
                    assert(x == last);
                    assert(rules[rules.len() - 1] == x);
                }
            }
            if rules.contains(x) && in_scope(x, journey, system) {
                let m = choose|m: int| 0 <= m < rules.len() && rules[m] == x;
                if m < rules.len() - 1 {
                    assert(front[m] == x);
                    assert(front.contains(x));
                    assert(kept.contains(x));
                    let k = choose|k: int| 0 <= k < kept.len() && kept[k] == x;
                    assert(now[k] == x);
                } else {
                    assert(now[now.len() - 1] == x);
                }
            }
        }
    }
}

/// Under the journey `ALL_CHECKS` the rule set holds every rule of the whole
/// rule set whose system is `ALL` or the system that asks, whatever the
/// journey of the rule, and no other rule.
pub proof fn law_all_checks_ignores_journeys(index: Seq<FieldView>, system: Seq<char>)
    ensures
        forall|x: RuleView|
            #![trigger rules_for_scope(index, "ALL_CHECKS"@, system).contains(x)]
            rules_for_scope(index, "ALL_CHECKS"@, system).contains(x) <==> whole_rule_set(
                index,
            ).contains(x) && system_matches(x.system, system),
{
    lemma_scoped_members(whole_rule_set(index), "ALL_CHECKS"@, system);
}

/// A rule of the whole rule set whose system is `ALL` is in the rule set of
/// every system, under each journey that it fits.
pub proof fn law_system_all_fits_every_system(
    index: Seq<FieldView>,
    rule: RuleView,
    journey: Seq<char>,
    system: Seq<char>,
)
    requires
        whole_rule_set(index).contains(rule),
        rule.system == "ALL"@,
        journey_matches(rule.journey, journey),
    ensures
        rules_for_scope(index, journey, system).contains(rule),
{
    lemma_scoped_members(whole_rule_set(index), journey, system);
}

/// A rule whose dependency is not met is skipped entirely: it has no error,
/// and if it is a conditional root, neither of its branches is evaluated.
pub proof fn law_unmet_dependency_skips_the_tree(
    branches: Seq<BranchView>,
    document: Seq<char>,
    rule: RuleView,
    depth: nat,
)
    requires
        !gate_open(rule, document),
    ensures
        rule_failures(branches, document, rule, depth) == Seq::<FailureView>::empty(),
{
    assert(own_failures(rule, document) + Seq::<FailureView>::empty() == own_failures(
        rule,
        document,
    ));
}

/// The errors of a conditional tree whose root was checked are those of one
/// branch, with what is nested in it: the `Then` branch where the check of
/// the root found no error, the `Else` branch where it found one. The root
/// reports nothing of itself, and the other branch contributes nothing.
pub proof fn law_one_branch_is_taken(
    branches: Seq<BranchView>,
    document: Seq<char>,
    root: RuleView,
    depth: nat,
)
    requires
        root.is_condition_root(),
        rule_outcome(root, document) is Checked,
        depth > 0,
    ensures
        rule_outcome(root, document)->Checked_0.len() == 0 ==> rule_failures(
            branches,
            document,
            root,
            depth,
        ) == list_failures(
            branches,
            document,
            branch_of(branches, root.id, true),
            (depth - 1) as nat,
        ),
        rule_outcome(root, document)->Checked_0.len() > 0 ==> rule_failures(
            branches,
            document,
            root,
            depth,
        ) == list_failures(
            branches,
            document,
            branch_of(branches, root.id, false),
            (depth - 1) as nat,
        ),
{
    let passed = rule_outcome(root, document)->Checked_0.len() == 0;
    let below = list_failures(
        branches,
        document,
        branch_of(branches, root.id, passed),
        (depth - 1) as nat,
    );
    assert(own_failures(root, document) == Seq::<FailureView>::empty());
    assert(Seq::<FailureView>::empty() + below == below);
}

/// The verdict on a document depends on the indexed rules and the branches
/// alone: not on what is cached, where the rules were loaded from, or which
/// identifiers were generated. Two validations of one document under one
/// journey and system, with the same rules, have the same verdict.
pub proof fn law_verdicts_follow_the_rules(
    first: RepositoryView,
    second: RepositoryView,
    document: Seq<char>,
    journey: Seq<char>,
    system: Seq<char>,
)
    requires
        first.index == second.index,
        first.branches == second.branches,
    ensures
        validation(first, document, journey, system) == validation(
            second,
            document,
            journey,
            system,
        ),
{
}

/// A verdict that the engine remembers for a document, journey and system is
/// the verdict that its repository gives on them now: a second validation of
/// the same three returns what the first returned, and no verdict outlives a
/// change of the rules.
pub proof fn law_remembered_verdicts_are_current(
    engine: EngineView,
    document: Seq<char>,
    journey: Seq<char>,
    system: Seq<char>,
)
    requires
        engine.coherent(),
        cache_position(engine.cache, document, journey, system, 0) < engine.cache.len(),
    ensures
        engine.cache[cache_position(engine.cache, document, journey, system, 0)].response
            == validation(engine.repository, document, journey, system),
{
    lemma_cache_position(engine.cache, document, journey, system, 0);
}

/// Where `cache_position` points, the verdict of the three stands.
pub proof fn lemma_cache_position(
    cache: Seq<CacheView>,
    document: Seq<char>,
    journey: Seq<char>,
    system: Seq<char>,
    from: int,
)
    requires
        0 <= from <= cache.len(),
    ensures
        from <= cache_position(cache, document, journey, system, from) <= cache.len(),
        cache_position(cache, document, journey, system, from) < cache.len() ==> {
            let p = cache_position(cache, document, journey, system, from);
            cache[p].document == document && cache[p].journey == journey && cache[p].system
                == system
        },
    decreases cache.len() - from,
{
    if from < cache.len() && !(cache[from].document == document && cache[from].journey == journey
        && cache[from].system == system) {
        lemma_cache_position(cache, document, journey, system, from + 1);
    }
}


/// Some error of `errors` is reported under the identifier `id`.
pub open spec fn reports(errors: Seq<FailureView>, id: Seq<char>) -> bool {
    exists|k: int| 0 <= k < errors.len() && (#[trigger] errors[k]).rule_id == id
}

/// An error of a concatenation is an error of one of its parts.
pub proof fn lemma_reports_concat(a: Seq<FailureView>, b: Seq<FailureView>, id: Seq<char>)
    ensures
        reports(a + b, id) == (reports(a, id) || reports(b, id)),
{
    if reports(a + b, id) {
        let k = choose|k: int| 0 <= k < (a + b).len() && (#[trigger] (a + b)[k]).rule_id == id;
        if k < a.len() {
            assert(a[k].rule_id == id);
        } else {
            assert(b[k - a.len()].rule_id == id);
        }
    }
    if reports(a, id) {
        let k = choose|k: int| 0 <= k < a.len() && (#[trigger] a[k]).rule_id == id;
        assert((a + b)[k].rule_id == id);
    }
    if reports(b, id) {
        let k = choose|k: int| 0 <= k < b.len() && (#[trigger] b[k]).rule_id == id;
        assert((a + b)[a.len() + k].rule_id == id);
    }
}

/// What is left by `without_id` are rules of the sequence, none of them with
/// the identifier that was taken out.
pub proof fn lemma_without_id(rules: Seq<RuleView>, id: Seq<char>)
    ensures
        !holds_id(without_id(rules, id), id),
        forall|other: Seq<char>|
            holds_id(without_id(rules, id), other) ==> #[trigger] holds_id(rules, other),
    decreases rules.len(),
{
    if rules.len() > 0 {
        let front = rules.drop_last();
        let kept = without_id(front, id);
        let now = without_id(rules, id);
        lemma_without_id(front, id);
        if holds_id(now, id) {
            let k = choose|k: int| 0 <= k < now.len() && (#[trigger] now[k]).id == id;
            if k < kept.len() {
                assert(kept[k].id == id);
            }
        }
        assert forall|other: Seq<char>| holds_id(now, other) implies #[trigger] holds_id(
            rules,
            other,
        ) by {
            let k = choose|k: int| 0 <= k < now.len() && (#[trigger] now[k]).id == other;
            if k < kept.len() {
                assert(kept[k].id == other);
                assert(holds_id(kept, other));
                assert(holds_id(front, other));
                let m = choose|m: int| 0 <= m < front.len() && (#[trigger] front[m]).id == other;
                assert(rules[m].id == other);
            } else {
                assert(rules[rules.len() - 1].id == other);
            }
        }
    }
}

/// After a deletion no indexed rule has the deleted identifier.
pub proof fn lemma_index_without(index: Seq<FieldView>, id: Seq<char>)
    ensures
        !holds_id(all_indexed(index_without(index, id)), id),
    decreases index.len(),
{
    if index.len() > 0 {
        let front = index.drop_last();
        let before = index_without(front, id);
        let rest = without_id(index.last().rules, id);
        lemma_index_without(front, id);
        lemma_without_id(index.last().rules, id);
        if rest.len() > 0 {
            let now = before.push(FieldView { field: index.last().field, rules: rest });
            assert(now.drop_last() == before);
            lemma_holds_id_concat(all_indexed(before), rest, id);
        }
    }
}

/// The rules of one field are among all indexed rules.
pub proof fn lemma_field_in_index(index: Seq<FieldView>, p: int, id: Seq<char>)
    requires
        0 <= p < index.len(),
        holds_id(index[p].rules, id),
    ensures
        holds_id(all_indexed(index), id),
    decreases index.len(),
{
    let front = index.drop_last();
    lemma_holds_id_concat(all_indexed(front), index.last().rules, id);
    if p < index.len() - 1 {
        assert(front[p] == index[p]);
        lemma_field_in_index(front, p, id);
    }
}

/// What a query draws on comes from the index.
pub proof fn lemma_collected_from_index(
    index: Seq<FieldView>,
    fields: Seq<Seq<char>>,
    id: Seq<char>,
)
    requires
        holds_id(collected(index, fields), id),
    ensures
        holds_id(all_indexed(index), id),
{
    if !fields.contains("*"@) {
        lemma_gathered_from_index(index, fields, id);
    }
}

/// What is gathered for fields comes from the index.
pub proof fn lemma_gathered_from_index(
    index: Seq<FieldView>,
    fields: Seq<Seq<char>>,
    id: Seq<char>,
)
    requires
        holds_id(gathered(index, fields), id),
    ensures
        holds_id(all_indexed(index), id),
    decreases fields.len(),
{
    if fields.len() > 0 {
        let under = indexed_under(index, fields.last());
        lemma_holds_id_concat(gathered(index, fields.drop_last()), under, id);
        if holds_id(gathered(index, fields.drop_last()), id) {
            lemma_gathered_from_index(index, fields.drop_last(), id);
        } else {
            let p = crate::rules::field_position(index, fields.last(), 0);
            lemma_field_in_index(index, p, id);
        }
    }
}

/// A rule of the answer to a query has the identifier of a rule that the
/// query draws on.
pub proof fn lemma_answer_from_collected(rules: Seq<RuleView>, id: Seq<char>)
    requires
        holds_id(deduplicated(sorted_by_id(rules)), id),
    ensures
        holds_id(rules, id),
{
    let sorted = sorted_by_id(rules);
    let answer = deduplicated(sorted);
    lemma_sorted_members(rules);
    lemma_deduplicated_members(sorted);
    let k = choose|k: int| 0 <= k < answer.len() && (#[trigger] answer[k]).id == id;
    assert(answer.contains(answer[k]));
    assert(sorted.contains(answer[k]));
    assert(rules.contains(answer[k]));
    let m = choose|m: int| 0 <= m < rules.len() && rules[m] == answer[k];
    assert(rules[m].id == id);
}

/// After a deletion no branch rule has the deleted identifier, and the
/// deleted identifier has no branches.
pub proof fn lemma_branches_without(branches: Seq<BranchView>, id: Seq<char>)
    ensures
        !holds_id(all_branch_rules(branches_without(branches, id)), id),
        forall|k: int|
            0 <= k < branches_without(branches, id).len() ==> (#[trigger] branches_without(
                branches,
                id,
            )[k]).parent_id != id,
    decreases branches.len(),
{
    if branches.len() > 0 {
        let front = branches.drop_last();
        let before = branches_without(front, id);
        let entry = branches.last();
        lemma_branches_without(front, id);
        if entry.parent_id != id {
            let fresh = BranchView {
                parent_id: entry.parent_id,
                then_rules: without_id(entry.then_rules, id),
                else_rules: without_id(entry.else_rules, id),
            };
            let now = before.push(fresh);
            assert(now.drop_last() == before);
            lemma_without_id(entry.then_rules, id);
            lemma_without_id(entry.else_rules, id);
            lemma_holds_id_concat(all_branch_rules(before), fresh.then_rules, id);
            lemma_holds_id_concat(
                all_branch_rules(before) + fresh.then_rules,
                fresh.else_rules,
                id,
            );
            assert forall|k: int| 0 <= k < now.len() implies (#[trigger] now[k]).parent_id != id by {
                if k < before.len() {
                    assert(now[k] == before[k]);
                }
            }
        }
    }
}

/// `branch_position` finds no entry where no entry has the parent.
pub proof fn lemma_no_branch_position(branches: Seq<BranchView>, parent: Seq<char>, from: int)
    requires
        0 <= from <= branches.len(),
        forall|k: int| 0 <= k < branches.len() ==> (#[trigger] branches[k]).parent_id != parent,
    ensures
        branch_position(branches, parent, from) == branches.len(),
    decreases branches.len() - from,
{
    if from < branches.len() {
        lemma_no_branch_position(branches, parent, from + 1);
    }
}

/// The rules of one root are among all branch rules.
pub proof fn lemma_branch_in_branches(branches: Seq<BranchView>, p: int, id: Seq<char>)
    requires
        0 <= p < branches.len(),
        holds_id(branches[p].then_rules, id) || holds_id(branches[p].else_rules, id),
    ensures
        holds_id(all_branch_rules(branches), id),
    decreases branches.len(),
{
    let front = branches.drop_last();
    let entry = branches.last();
    lemma_holds_id_concat(all_branch_rules(front), entry.then_rules, id);
    lemma_holds_id_concat(all_branch_rules(front) + entry.then_rules, entry.else_rules, id);
    if p < branches.len() - 1 {
        assert(front[p] == branches[p]);
        lemma_branch_in_branches(front, p, id);
    }
}

/// Each error of a rule by itself is reported under the identifier of the
/// rule.
pub proof fn lemma_own_failures_ids(rule: RuleView, document: Seq<char>)
    ensures
        forall|k: int|
            0 <= k < own_failures(rule, document).len() ==> (#[trigger] own_failures(
                rule,
                document,
            )[k]).rule_id == rule.id,
{
    match rule_outcome(rule, document) {
        OutcomeView::Checked(errors) => {
            if crate::json::path_supported(rule.selector) {
                match crate::json::selection(document, rule.selector) {
                    Some(values) => {
                        lemma_item_failures_ids(rule, values, values.len());
                    },
                    None => {},
                }
            }
        },
        _ => {},
    }
}

/// Each error on selected values is reported under the identifier of the
/// rule.
pub proof fn lemma_item_failures_ids(rule: RuleView, values: Seq<SelectedView>, n: nat)
    ensures
        forall|k: int|
            0 <= k < item_failures(rule, values, n).len() ==> (#[trigger] item_failures(
                rule,
                values,
                n,
            )[k]).rule_id == rule.id,
    decreases n,
{
    if n > 0 && n <= values.len() {
        let before = item_failures(rule, values, (n - 1) as nat);
        let now = item_failures(rule, values, n);
        lemma_item_failures_ids(rule, values, (n - 1) as nat);
        assert forall|k: int| 0 <= k < now.len() implies (#[trigger] now[k]).rule_id == rule.id by {
            if k < before.len() {
                assert(now[k] == before[k]);
            }
        }
    }
}

/// Each error of a rule with its branches is reported under the identifier
/// of the rule or of a branch rule.
pub proof fn lemma_rule_failures_ids(
    branches: Seq<BranchView>,
    document: Seq<char>,
    rule: RuleView,
    depth: nat,
    id: Seq<char>,
)
    requires
        reports(rule_failures(branches, document, rule, depth), id),
    ensures
        rule.id == id || holds_id(all_branch_rules(branches), id),
    decreases depth, 0nat,
{
    let own = own_failures(rule, document);
    lemma_own_failures_ids(rule, document);
    match descent(rule, document) {
        Some(passed) => {
            if depth > 0 {
                let branch = branch_of(branches, rule.id, passed);
                let below = list_failures(branches, document, branch, (depth - 1) as nat);
                lemma_reports_concat(own, below, id);
                if reports(below, id) {
                    lemma_list_failures_ids(branches, document, branch, (depth - 1) as nat, id);
                    if holds_id(branch, id) {
                        let p = branch_position(branches, rule.id, 0);
                        lemma_branch_in_branches(branches, p, id);
                    }
                } else {
                    let k = choose|k: int| 0 <= k < own.len() && (#[trigger] own[k]).rule_id == id;
                }
            } else {
                assert(own + Seq::<FailureView>::empty() == own);
                let k = choose|k: int| 0 <= k < own.len() && (#[trigger] own[k]).rule_id == id;
            }
        },
        None => {
            assert(own + Seq::<FailureView>::empty() == own);
            let k = choose|k: int| 0 <= k < own.len() && (#[trigger] own[k]).rule_id == id;
        },
    }
}

/// Each error of a list of rules with their branches is reported under the
/// identifier of a rule of the list or of a branch rule.
pub proof fn lemma_list_failures_ids(
    branches: Seq<BranchView>,
    document: Seq<char>,
    rules: Seq<RuleView>,
    depth: nat,
    id: Seq<char>,
)
    requires
        reports(list_failures(branches, document, rules, depth), id),
    ensures
        holds_id(rules, id) || holds_id(all_branch_rules(branches), id),
    decreases depth, rules.len() + 1,
{
    if rules.len() > 0 {
        let front = list_failures(branches, document, rules.drop_last(), depth);
        let last = rule_failures(branches, document, rules.last(), depth);
        lemma_reports_concat(front, last, id);
        if reports(front, id) {
            lemma_list_failures_ids(branches, document, rules.drop_last(), depth, id);
            if holds_id(rules.drop_last(), id) {
                let m = choose|m: int|
                    0 <= m < rules.drop_last().len() && (#[trigger] rules.drop_last()[m]).id == id;
                assert(rules[m].id == id);
            }
        } else {
            lemma_rule_failures_ids(branches, document, rules.last(), depth, id);
            if rules.last().id == id {
                assert(rules[rules.len() - 1].id == id);
            }
        }
    }
}

/// Each error of a rule set is reported under the identifier of a rule of the
/// set or of a branch rule.
pub proof fn lemma_top_failures_ids(
    branches: Seq<BranchView>,
    document: Seq<char>,
    rules: Seq<RuleView>,
    depth: nat,
    id: Seq<char>,
)
    requires
        reports(top_failures(branches, document, rules, depth), id),
    ensures
        holds_id(rules, id) || holds_id(all_branch_rules(branches), id),
    decreases rules.len(),
{
    if rules.len() > 0 {
        let front = top_failures(branches, document, rules.drop_last(), depth);
        if rules.last().is_conditional_branch() {
            lemma_top_failures_ids(branches, document, rules.drop_last(), depth, id);
        } else {
            let last = rule_failures(branches, document, rules.last(), depth);
            lemma_reports_concat(front, last, id);
            if reports(front, id) {
                lemma_top_failures_ids(branches, document, rules.drop_last(), depth, id);
            } else {
                lemma_rule_failures_ids(branches, document, rules.last(), depth, id);
                if rules.last().id == id {
                    assert(rules[rules.len() - 1].id == id);
                }
            }
        }
        if holds_id(rules.drop_last(), id) {
            let m = choose|m: int|
                0 <= m < rules.drop_last().len() && (#[trigger] rules.drop_last()[m]).id == id;
            assert(rules[m].id == id);
        }
    }
}

/// After the deletion of the rules with an identifier, no query for fields
/// answers with a rule of that identifier.
pub proof fn law_deleted_rule_leaves_every_query(
    repository: RepositoryView,
    id: Seq<char>,
    fields: Seq<Seq<char>>,
)
    ensures
        !holds_id(rules_for_fields(repository.without(id).index, fields), id),
{
    let index = repository.without(id).index;
    if holds_id(rules_for_fields(index, fields), id) {
        lemma_answer_from_collected(collected(index, fields), id);
        lemma_collected_from_index(index, fields, id);
        lemma_index_without(repository.index, id);
    }
}

/// After the deletion of the rules with an identifier, no conditional root
/// of that identifier has branches, and no branch holds a rule of that
/// identifier.
pub proof fn law_deleted_rule_leaves_every_branch(
    repository: RepositoryView,
    id: Seq<char>,
    passed: bool,
)
    ensures
        branch_of(repository.without(id).branches, id, passed) == Seq::<RuleView>::empty(),
        !holds_id(all_branch_rules(repository.without(id).branches), id),
{
    lemma_branches_without(repository.branches, id);
    lemma_no_branch_position(repository.without(id).branches, id, 0);
}

/// After the deletion of the rules with an identifier, no validation reports
/// an error under that identifier.
pub proof fn law_deleted_rule_reports_no_error(
    repository: RepositoryView,
    id: Seq<char>,
    document: Seq<char>,
    journey: Seq<char>,
    system: Seq<char>,
)
    ensures
        !reports(validation(repository.without(id), document, journey, system).errors, id),
{
    let after = repository.without(id);
    let rules = rules_for_scope(after.index, journey, system);
    let errors = top_failures(after.branches, document, rules, after.branches.len());
    if reports(errors, id) {
        lemma_top_failures_ids(after.branches, document, rules, after.branches.len(), id);
        lemma_branches_without(repository.branches, id);
        // so a rule of the rule set has the identifier
        let m = choose|m: int| 0 <= m < rules.len() && (#[trigger] rules[m]).id == id;
        lemma_scoped_members(whole_rule_set(after.index), journey, system);
        assert(rules.contains(rules[m]));
        let whole = whole_rule_set(after.index);
        assert(whole.contains(rules[m]));
        let w = choose|w: int| 0 <= w < whole.len() && whole[w] == rules[m];
        assert(whole[w].id == id);
        law_deleted_rule_leaves_every_query(repository, id, seq!["*"@]);
    }
}


/// The conditional root with the identifier `id` has branches.
pub open spec fn has_branches(branches: Seq<BranchView>, id: Seq<char>) -> bool {
    0 <= branch_position(branches, id, 0) < branches.len()
}

/// The conditional roots are ranked: each root with branches has a rank below
/// the number of such roots, and a root that stands in a branch of another
/// has a lower rank than that other. Roots can be ranked so exactly if no
/// root stands in its own tree.
pub open spec fn ranked(branches: Seq<BranchView>, rank: spec_fn(Seq<char>) -> nat) -> bool {
    &&& forall|id: Seq<char>| #[trigger]
        has_branches(branches, id) ==> rank(id) < branches.len()
    &&& forall|k: int, j: int|
        0 <= k < branches.len() && 0 <= j < branches[k].then_rules.len() && (
        #[trigger] branches[k].then_rules[j]).is_condition_root() && has_branches(
            branches,
            branches[k].then_rules[j].id,
        ) ==> rank(branches[k].then_rules[j].id) < rank(branches[k].parent_id)
    &&& forall|k: int, j: int|
        0 <= k < branches.len() && 0 <= j < branches[k].else_rules.len() && (
        #[trigger] branches[k].else_rules[j]).is_condition_root() && has_branches(
            branches,
            branches[k].else_rules[j].id,
        ) ==> rank(branches[k].else_rules[j].id) < rank(branches[k].parent_id)
}

/// The depth that the tree of a rule needs: none for a rule without
/// branches, else one more than the rank of the rule.
pub open spec fn needed_depth(
    branches: Seq<BranchView>,
    rank: spec_fn(Seq<char>) -> nat,
    rule: RuleView,
) -> nat {
    if rule.is_condition_root() && has_branches(branches, rule.id) {
        rank(rule.id) + 1
    } else {
        0
    }
}

/// With ranked roots, the errors of a rule with its branches are the same at
/// every depth that its tree needs.
pub proof fn lemma_rule_failures_settle(
    branches: Seq<BranchView>,
    rank: spec_fn(Seq<char>) -> nat,
    document: Seq<char>,
    rule: RuleView,
    d1: nat,
    d2: nat,
)
    requires
        ranked(branches, rank),
        needed_depth(branches, rank, rule) <= d1,
        needed_depth(branches, rank, rule) <= d2,
    ensures
        rule_failures(branches, document, rule, d1) == rule_failures(branches, document, rule, d2),
    decreases needed_depth(branches, rank, rule), 0nat,
{
    match descent(rule, document) {
        Some(passed) => {
            let branch = branch_of(branches, rule.id, passed);
            if has_branches(branches, rule.id) {
                let p = branch_position(branches, rule.id, 0);
                lemma_branch_position(branches, rule.id, 0);
                assert forall|j: int| 0 <= j < branch.len() implies needed_depth(
                    branches,
                    rank,
                    #[trigger] branch[j],
                ) <= rank(rule.id) by {
                    if passed {
                        assert(branch[j] == branches[p].then_rules[j]);
                    } else {
                        assert(branch[j] == branches[p].else_rules[j]);
                    }
                }
                lemma_list_failures_settle(
                    branches,
                    rank,
                    document,
                    branch,
                    (d1 - 1) as nat,
                    (d2 - 1) as nat,
                    rank(rule.id),
                );
            } else {
                assert(branch == Seq::<RuleView>::empty());
                if d1 > 0 {
                    assert(list_failures(branches, document, branch, (d1 - 1) as nat)
                        == Seq::<FailureView>::empty());
                }
                if d2 > 0 {
                    assert(list_failures(branches, document, branch, (d2 - 1) as nat)
                        == Seq::<FailureView>::empty());
                }
            }
        },
        None => {},
    }
}

/// With ranked roots, the errors of a list of rules with their branches are
/// the same at every depth that their trees need.
pub proof fn lemma_list_failures_settle(
    branches: Seq<BranchView>,
    rank: spec_fn(Seq<char>) -> nat,
    document: Seq<char>,
    rules: Seq<RuleView>,
    d1: nat,
    d2: nat,
    limit: nat,
)
    requires
        ranked(branches, rank),
        limit <= d1,
        limit <= d2,
        forall|j: int|
            0 <= j < rules.len() ==> needed_depth(branches, rank, #[trigger] rules[j]) <= limit,
    ensures
        list_failures(branches, document, rules, d1) == list_failures(
            branches,
            document,
            rules,
            d2,
        ),
    decreases limit, rules.len() + 1,
{
    if rules.len() > 0 {
        let front = rules.drop_last();
        assert forall|j: int| 0 <= j < front.len() implies needed_depth(
            branches,
            rank,
            #[trigger] front[j],
        ) <= limit by {
            assert(front[j] == rules[j]);
        }
        lemma_list_failures_settle(branches, rank, document, front, d1, d2, limit);
        assert(needed_depth(branches, rank, rules[rules.len() - 1]) <= limit);
        lemma_rule_failures_settle(branches, rank, document, rules.last(), d1, d2);
    }
}

/// With ranked roots, the errors of a rule set are the same at every depth
/// from the number of roots with branches on.
pub proof fn lemma_top_failures_settle(
    branches: Seq<BranchView>,
    rank: spec_fn(Seq<char>) -> nat,
    document: Seq<char>,
    rules: Seq<RuleView>,
    depth: nat,
)
    requires
        ranked(branches, rank),
        depth >= branches.len(),
    ensures
        top_failures(branches, document, rules, depth) == top_failures(
            branches,
            document,
            rules,
            branches.len(),
        ),
    decreases rules.len(),
{
    if rules.len() > 0 {
        lemma_top_failures_settle(branches, rank, document, rules.drop_last(), depth);
        if !rules.last().is_conditional_branch() {
            lemma_rule_failures_settle(
                branches,
                rank,
                document,
                rules.last(),
                depth,
                branches.len(),
            );
        }
    }
}

/// Where no conditional root stands in its own tree, a validation follows
/// every branch: to follow the branches deeper than it does would find the
/// same errors.
pub proof fn law_every_branch_is_followed(
    repository: RepositoryView,
    rank: spec_fn(Seq<char>) -> nat,
    document: Seq<char>,
    journey: Seq<char>,
    system: Seq<char>,
    depth: nat,
)
    requires
        ranked(repository.branches, rank),
        depth >= repository.branches.len(),
    ensures
        validation(repository, document, journey, system).errors == top_failures(
            repository.branches,
            document,
            rules_for_scope(repository.index, journey, system),
            depth,
        ),
{
    lemma_top_failures_settle(
        repository.branches,
        rank,
        document,
        rules_for_scope(repository.index, journey, system),
        depth,
    );
}


/// What is indexed under a field when one more entry stands behind the
/// others: what was indexed under it, or where the field had no entry, the
/// rules of the new entry if it is for the field.
pub proof fn lemma_indexed_under_push(index: Seq<FieldView>, entry: FieldView, field: Seq<char>)
    ensures
        indexed_under(index.push(entry), field) == if has_field(index, field) {
            indexed_under(index, field)
        } else if entry.field == field {
            entry.rules
        } else {
            Seq::empty()
        },
        !has_field(index, field) ==> indexed_under(index, field) == Seq::<RuleView>::empty(),
{
    let pushed = index.push(entry);
    let p = crate::rules::field_position(index, field, 0);
    let q = crate::rules::field_position(pushed, field, 0);
    lemma_field_position(index, field, 0);
    lemma_field_position(pushed, field, 0);
    if has_field(index, field) {
        let k = choose|k: int| 0 <= k < index.len() && (#[trigger] index[k]).field == field;
        assert(p <= k);
        assert(pushed[p] == index[p]);
        assert(q <= p);
        assert(pushed[q] == index[q]);
        assert(p <= q);
    } else {
        if p < index.len() {
            assert(index[p].field == field);
        }
        if q < index.len() {
            assert(pushed[q] == index[q]);
            assert(index[q].field == field);
        }
        if entry.field == field {
            assert(pushed[index.len() as int].field == field);
            assert(q <= index.len());
        } else if q == index.len() {
            assert(pushed[q] == entry);
        }
    }
}

/// A deletion leaves, under each field, the rules that the field had, less
/// the deleted ones, in their order.
pub proof fn law_deletion_keeps_the_rest_of_each_field(
    index: Seq<FieldView>,
    id: Seq<char>,
    field: Seq<char>,
)
    requires
        distinct_fields(index),
    ensures
        indexed_under(index_without(index, id), field) == without_id(
            indexed_under(index, field),
            id,
        ),
    decreases index.len(),
{
    if index.len() == 0 {
        lemma_indexed_under_push(Seq::empty(), FieldView { field, rules: Seq::empty() }, field);
        assert(!has_field(index, field));
    } else {
        let front = index.drop_last();
        let last = index.last();
        let before = index_without(front, id);
        let rest = without_id(last.rules, id);
        let kept = FieldView { field: last.field, rules: rest };
        assert(index == front.push(last));
        assert(distinct_fields(front)) by {
            assert forall|i: int, j: int| 0 <= i < j < front.len() implies (
            #[trigger] front[i]).field != (#[trigger] front[j]).field by {
                assert(front[i] == index[i] && front[j] == index[j]);
            }
        }
        law_deletion_keeps_the_rest_of_each_field(front, id, field);
        lemma_index_without_fields(front, id);
        lemma_indexed_under_push(front, last, field);
        lemma_indexed_under_push(before, kept, field);
        if has_field(front, field) {
            let m = choose|m: int| 0 <= m < front.len() && (#[trigger] front[m]).field == field;
            assert(index[m].field == field);
            assert(index[index.len() - 1].field == last.field);
            assert(last.field != field);
        } else {
            assert(!has_field(before, field));
            assert(without_id(Seq::<RuleView>::empty(), id) == Seq::<RuleView>::empty());
            if rest.len() == 0 {
                assert(rest == Seq::<RuleView>::empty());
            }
        }
    }
}

/// The branch of a conditional root when one more entry stands behind the
/// others.
pub proof fn lemma_branch_of_push(
    branches: Seq<BranchView>,
    entry: BranchView,
    parent: Seq<char>,
    passed: bool,
)
    ensures
        branch_of(branches.push(entry), parent, passed) == if has_parent(branches, parent) {
            branch_of(branches, parent, passed)
        } else if entry.parent_id == parent {
            if passed {
                entry.then_rules
            } else {
                entry.else_rules
            }
        } else {
            Seq::empty()
        },
        !has_parent(branches, parent) ==> branch_of(branches, parent, passed) == Seq::<
            RuleView,
        >::empty(),
{
    let pushed = branches.push(entry);
    let p = branch_position(branches, parent, 0);
    let q = branch_position(pushed, parent, 0);
    lemma_branch_position(branches, parent, 0);
    lemma_branch_position(pushed, parent, 0);
    if has_parent(branches, parent) {
        let k = choose|k: int|
            0 <= k < branches.len() && (#[trigger] branches[k]).parent_id == parent;
        assert(p <= k);
        assert(pushed[p] == branches[p]);
        assert(q <= p);
        assert(pushed[q] == branches[q]);
        assert(p <= q);
    } else {
        if p < branches.len() {
            assert(branches[p].parent_id == parent);
        }
        if q < branches.len() {
            assert(pushed[q] == branches[q]);
            assert(branches[q].parent_id == parent);
        }
        if entry.parent_id == parent {
            assert(pushed[branches.len() as int].parent_id == parent);
            assert(q <= branches.len());
        } else if q == branches.len() {
            assert(pushed[q] == entry);
        }
    }
}

/// A deletion leaves each other conditional root the rules that its
/// branches had, less the deleted ones, in their order; the deleted root has
/// no branch left.
pub proof fn law_deletion_keeps_the_rest_of_each_branch(
    branches: Seq<BranchView>,
    id: Seq<char>,
    parent: Seq<char>,
    passed: bool,
)
    requires
        distinct_parents(branches),
    ensures
        branch_of(branches_without(branches, id), parent, passed) == if parent == id {
            Seq::<RuleView>::empty()
        } else {
            without_id(branch_of(branches, parent, passed), id)
        },
    decreases branches.len(),
{
    assert(without_id(Seq::<RuleView>::empty(), id) == Seq::<RuleView>::empty());
    if branches.len() == 0 {
        lemma_branch_of_push(
            Seq::empty(),
            BranchView { parent_id: parent, then_rules: Seq::empty(), else_rules: Seq::empty() },
            parent,
            passed,
        );
        assert(!has_parent(branches, parent));
    } else {
        let front = branches.drop_last();
        let last = branches.last();
        let before = branches_without(front, id);
        let kept = BranchView {
            parent_id: last.parent_id,
            then_rules: without_id(last.then_rules, id),
            else_rules: without_id(last.else_rules, id),
        };
        assert(branches == front.push(last));
        assert(distinct_parents(front)) by {
            assert forall|i: int, j: int| 0 <= i < j < front.len() implies (
            #[trigger] front[i]).parent_id != (#[trigger] front[j]).parent_id by {
                assert(front[i] == branches[i] && front[j] == branches[j]);
            }
        }
        law_deletion_keeps_the_rest_of_each_branch(front, id, parent, passed);
        lemma_branches_without_parents(front, id);
        lemma_branch_of_push(front, last, parent, passed);
        lemma_branch_of_push(before, kept, parent, passed);
        if has_parent(front, parent) {
            let m = choose|m: int|
                0 <= m < front.len() && (#[trigger] front[m]).parent_id == parent;
            assert(branches[m].parent_id == parent);
            assert(branches[branches.len() - 1].parent_id == last.parent_id);
            assert(last.parent_id != parent);
        } else {
            assert(!has_parent(before, parent));
        }
    }
}

} // verus!
