//! The order of rules by identifier: a stable sort, and the removal of
//! neighbours with one identifier.

use crate::models::{rule_views, RuleView, ValidationRule};
use crate::text::{
    chars_of, lemma_lex_connected, lemma_lex_transitive, lex_le, lex_less, text_less,
};
use vstd::prelude::*;

verus! {

/// The first index at or after `from` whose rule has an identifier greater
/// than `id`, or the length of `s` if there is none.
pub open spec fn insert_position(s: Seq<RuleView>, id: Seq<char>, from: int) -> int
    decreases s.len() - from,
{
    if from < 0 || from >= s.len() {
        s.len() as int
    } else if lex_less(id, s[from].id) {
        from
    } else {
        insert_position(s, id, from + 1)
    }
}

/// `s` with `rule` put behind every rule whose identifier is no greater.
pub open spec fn inserted(s: Seq<RuleView>, rule: RuleView) -> Seq<RuleView> {
    s.insert(insert_position(s, rule.id, 0), rule)
}

/// The rules of `s` in the order of their identifiers; rules with one
/// identifier keep the order they have in `s`.
pub open spec fn sorted_by_id(s: Seq<RuleView>) -> Seq<RuleView>
    decreases s.len(),
{
    if s.len() == 0 {
        Seq::empty()
    } else {
        inserted(sorted_by_id(s.drop_last()), s.last())
    }
}

/// `s` without each rule that follows a rule with the same identifier
/// directly: of a run of such rules the first stays.
pub open spec fn deduplicated(s: Seq<RuleView>) -> Seq<RuleView>
    decreases s.len(),
{
    if s.len() == 0 {
        Seq::empty()
    } else {
        let front = deduplicated(s.drop_last());
        if front.len() > 0 && front.last().id == s.last().id {
            front
        } else {
            front.push(s.last())
        }
    }
}

/// No rule stands before a rule with a smaller identifier.
pub open spec fn ordered(s: Seq<RuleView>) -> bool {
    forall|i: int, j: int| 0 <= i < j < s.len() ==> lex_le(#[trigger] s[i].id, #[trigger] s[j].id)
}

/// Each rule has a greater identifier than the rule before it.
pub open spec fn strictly_ordered(s: Seq<RuleView>) -> bool {
    forall|i: int, j: int|
        0 <= i < j < s.len() ==> lex_less(#[trigger] s[i].id, #[trigger] s[j].id)
}

/// Where `insert_position` points: behind the rules that are no greater,
/// before the first that is greater.
pub proof fn lemma_insert_position(s: Seq<RuleView>, id: Seq<char>, from: int)
    requires
        0 <= from <= s.len(),
    ensures
        from <= insert_position(s, id, from) <= s.len(),
        forall|k: int| from <= k < insert_position(s, id, from) ==> !lex_less(id, #[trigger] s[k].id),
        insert_position(s, id, from) < s.len() ==> lex_less(
            id,
            s[insert_position(s, id, from)].id,
        ),
    decreases s.len() - from,
{
    if from < s.len() && !lex_less(id, s[from].id) {
        lemma_insert_position(s, id, from + 1);
    }
}

/// Inserting into an ordered sequence leaves it ordered.
pub proof fn lemma_inserted_ordered(s: Seq<RuleView>, rule: RuleView)
    requires
        ordered(s),
    ensures
        ordered(inserted(s, rule)),
{
    let p = insert_position(s, rule.id, 0);
    lemma_insert_position(s, rule.id, 0);
    let t = inserted(s, rule);
    assert forall|i: int, j: int| 0 <= i < j < t.len() implies lex_le(
        #[trigger] t[i].id,
        #[trigger] t[j].id,
    ) by {
        if j < p {
            assert(t[i] == s[i] && t[j] == s[j]);
        } else if j == p {
            assert(t[i] == s[i]);
            assert(!lex_less(rule.id, s[i].id));
        } else if i < p {
            assert(t[i] == s[i] && t[j] == s[j - 1]);
        } else if i == p {
            assert(t[j] == s[j - 1]);
            // rule < s[p] <= s[j - 1]
            if lex_less(s[j - 1].id, rule.id) {
                lemma_lex_transitive(s[j - 1].id, rule.id, s[p].id);
                if p < j - 1 {
                    assert(lex_le(s[p].id, s[j - 1].id));
                } else {
                    lemma_lex_connected(s[p].id, s[p].id);
                }
            }
        } else {
            assert(t[i] == s[i - 1] && t[j] == s[j - 1]);
        }
    }
}

/// A sorted sequence is ordered.
pub proof fn lemma_sorted_ordered(s: Seq<RuleView>)
    ensures
        ordered(sorted_by_id(s)),
    decreases s.len(),
{
    if s.len() > 0 {
        lemma_sorted_ordered(s.drop_last());
        lemma_inserted_ordered(sorted_by_id(s.drop_last()), s.last());
    }
}

/// Sorting keeps the rules: each rule of `s` is in the result, and the result
/// holds no other, and as many.
pub proof fn lemma_sorted_members(s: Seq<RuleView>)
    ensures
        sorted_by_id(s).len() == s.len(),
        forall|x: RuleView|
            #![trigger sorted_by_id(s).contains(x)]
            #![trigger s.contains(x)]
            sorted_by_id(s).contains(x) <==> s.contains(x),
    decreases s.len(),
{
    if s.len() > 0 {
        let front = s.drop_last();
        let sorted = sorted_by_id(front);
        lemma_sorted_members(front);
        let p = insert_position(sorted, s.last().id, 0);
        lemma_insert_position(sorted, s.last().id, 0);
        let t = sorted.insert(p, s.last());
        assert forall|x: RuleView|
            #![trigger t.contains(x)]
            #![trigger s.contains(x)]
            t.contains(x) <==> s.contains(x) by {
            if t.contains(x) {
                let k = choose|k: int| 0 <= k < t.len() && t[k] == x;
                if k < p {
                    assert(sorted[k] == x);
                    assert(sorted.contains(x));
                    assert(front.contains(x));
                    let m = choose|m: int| 0 <= m < front.len() && front[m] == x;
                    assert(s[m] == x);
                } else if k == p {
                    assert(s[s.len() - 1] == x);
                } else {
                    assert(sorted[k - 1] == x);
                    assert(sorted.contains(x));
                    let m = choose|m: int| 0 <= m < front.len() && front[m] == x;
                    assert(s[m] == x);
                }
            }
            if s.contains(x) {
                let m = choose|m: int| 0 <= m < s.len() && s[m] == x;
                if m == s.len() - 1 {
                    assert(t[p] == x);
                } else {
                    assert(front[m] == x);
                    assert(front.contains(x));
                    assert(sorted.contains(x));
                    let k = choose|k: int| 0 <= k < sorted.len() && sorted[k] == x;
                    if k < p {
                        assert(t[k] == x);
                    } else {
                        assert(t[k + 1] == x);
                    }
                }
            }
        }
    }
}

/// What stays after the removal of duplicates: rules of `s`, among them the
/// last rule kept, whose identifier is that of the last rule of `s`; and each
/// identifier of `s` is still there.
pub proof fn lemma_deduplicated_members(s: Seq<RuleView>)
    ensures
        forall|x: RuleView| #[trigger] deduplicated(s).contains(x) ==> s.contains(x),
        forall|x: RuleView|
            #[trigger] s.contains(x) ==> exists|k: int|
                0 <= k < deduplicated(s).len() && (#[trigger] deduplicated(s)[k]).id == x.id,
        s.len() > 0 ==> deduplicated(s).len() > 0 && deduplicated(s).last().id == s.last().id,
        deduplicated(s).len() <= s.len(),
    decreases s.len(),
{
    if s.len() > 0 {
        let front = s.drop_last();
        let kept = deduplicated(front);
        lemma_deduplicated_members(front);
        let d = deduplicated(s);
        assert forall|x: RuleView| d.contains(x) implies s.contains(x) by {
            let k = choose|k: int| 0 <= k < d.len() && d[k] == x;
            if k < kept.len() {
                assert(kept[k] == x);
                assert(kept.contains(x));
                let m = choose|m: int| 0 <= m < front.len() && front[m] == x;
                assert(s[m] == x);
            } else {
                assert(s[s.len() - 1] == x);
            }
        }
        assert forall|x: RuleView| s.contains(x) implies exists|k: int|
            0 <= k < d.len() && (#[trigger] d[k]).id == x.id by {
            let m = choose|m: int| 0 <= m < s.len() && s[m] == x;
            if m == s.len() - 1 {
                assert(d[d.len() - 1].id == x.id);
            } else {
                assert(front[m] == x);
                assert(front.contains(x));
                let k = choose|k: int| 0 <= k < kept.len() && (#[trigger] kept[k]).id == x.id;
                assert(d[k] == kept[k]);
            }
        }
    }
}

/// Removing duplicates keeps an ordered sequence ordered.
pub proof fn lemma_deduplicated_ordered(s: Seq<RuleView>)
    requires
        ordered(s),
    ensures
        strictly_ordered(deduplicated(s)),
        forall|k: int|
            0 <= k < deduplicated(s).len() && s.len() > 0 ==> lex_le(
                (#[trigger] deduplicated(s)[k]).id,
                s.last().id,
            ),
    decreases s.len(),
{
    if s.len() > 0 {
        let front = s.drop_last();
        let kept = deduplicated(front);
        assert(ordered(front)) by {
            assert forall|i: int, j: int| 0 <= i < j < front.len() implies lex_le(
                #[trigger] front[i].id,
                #[trigger] front[j].id,
            ) by {
                assert(front[i] == s[i] && front[j] == s[j]);
            }
        }
        lemma_deduplicated_ordered(front);
        lemma_deduplicated_members(front);
        let d = deduplicated(s);
        let last = s.last();
        lemma_lex_connected(last.id, last.id);
        // every kept rule is no greater than the last rule of `s`
        assert forall|k: int| 0 <= k < kept.len() implies lex_le(
            (#[trigger] kept[k]).id,
            last.id,
        ) by {
            assert(kept.contains(kept[k]));
            assert(front.contains(kept[k]));
            let m = choose|m: int| 0 <= m < front.len() && front[m] == kept[k];
            assert(s[m] == kept[k]);
            assert(lex_le(s[m].id, s[s.len() - 1].id));
        }
        if kept.len() > 0 && kept.last().id == last.id {
        } else {
            assert forall|i: int, j: int| 0 <= i < j < d.len() implies lex_less(
                #[trigger] d[i].id,
                #[trigger] d[j].id,
            ) by {
                if j < kept.len() {
                    assert(d[i] == kept[i] && d[j] == kept[j]);
                } else {
                    assert(d[i] == kept[i]);
                    assert(d[j] == last);
                    let top = kept.last();
                    assert(lex_le(top.id, last.id));
                    lemma_lex_connected(top.id, last.id);
                    assert(lex_less(top.id, last.id));
                    if i < kept.len() - 1 {
                        assert(lex_less(kept[i].id, kept[kept.len() - 1].id));
                        lemma_lex_transitive(kept[i].id, top.id, last.id);
                    }
                }
            }
            assert forall|k: int| 0 <= k < d.len() implies lex_le((#[trigger] d[k]).id, last.id) by {
                if k < kept.len() {
                    assert(d[k] == kept[k]);
                }
            }
        }
    }
}

/// Sorts rules by identifier, keeping the order of rules with one
/// identifier.
pub fn sort_by_id(rules: Vec<ValidationRule>) -> (out: Vec<ValidationRule>)
    ensures
        rule_views(out@) == sorted_by_id(rule_views(rules@)),
{
    let mut rules = rules;
    let ghost input = rule_views(rules@);
    let mut reversed: Vec<ValidationRule> = Vec::new();
    // take the rules off the end, so that each is moved once
    let ghost n = rules@.len();
    while rules.len() > 0
        invariant
            rules@.len() + reversed@.len() == n,
            n == input.len(),
            rule_views(rules@) == input.take(rules@.len() as int),
            forall|k: int|
                0 <= k < reversed@.len() ==> (#[trigger] reversed@[k])@ == input[n - 1 - k],
        decreases rules.len(),
    {
        let ghost before = rule_views(rules@);
        let rule = rules.pop().unwrap();
        assert(rule_views(rules@) == before.drop_last());
        assert(rule@ == before.last());
        reversed.push(rule);
    }
    let mut out: Vec<ValidationRule> = Vec::new();
    // the identifiers of the rules of `out`, as characters
    let mut ids: Vec<Vec<char>> = Vec::new();
    assert(input.take(0) == Seq::<RuleView>::empty());
    assert(rule_views(out@) == Seq::<RuleView>::empty());
    while reversed.len() > 0
        invariant
            reversed@.len() <= n,
            n == input.len(),
            forall|k: int|
                0 <= k < reversed@.len() ==> (#[trigger] reversed@[k])@ == input[n - 1 - k],
            rule_views(out@) == sorted_by_id(input.take(n - reversed@.len())),
            ids@.len() == out@.len(),
            forall|k: int| 0 <= k < ids@.len() ==> (#[trigger] ids@[k])@ == out@[k]@.id,
        decreases reversed.len(),
    {
        let ghost done = n - reversed@.len();
        let rule = reversed.pop().unwrap();
        assert(rule@ == input[done]);
        assert(input.take(done + 1).drop_last() == input.take(done));
        assert(input.take(done + 1).last() == input[done]);
        let id = chars_of(rule.id.as_str());
        let mut k: usize = 0;
        let ghost sorted = rule_views(out@);
        while k < out.len() && !text_less(&id, &ids[k])
            invariant
                k <= out.len(),
                sorted == rule_views(out@),
                id@ == rule@.id,
                ids@.len() == out@.len(),
                forall|j: int| 0 <= j < ids@.len() ==> (#[trigger] ids@[j])@ == out@[j]@.id,
                insert_position(sorted, id@, 0) == insert_position(sorted, id@, k as int),
            decreases out.len() - k,
        {
            assert(sorted[k as int] == out@[k as int]@);
            k = k + 1;
        }
        assert(k < out.len() ==> sorted[k as int] == out@[k as int]@);
        let ghost old_ids = ids@;
        let ghost old_out = out@;
        out.insert(k, rule);
        ids.insert(k, id);
        assert(rule_views(out@) == sorted.insert(k as int, rule@));
        assert forall|j: int| 0 <= j < ids@.len() implies (#[trigger] ids@[j])@ == out@[j]@.id by {
            if j < k {
                assert(ids@[j] == old_ids[j] && out@[j] == old_out[j]);
            } else if j > k {
                assert(ids@[j] == old_ids[j - 1] && out@[j] == old_out[j - 1]);
            }
        }
    }
    assert(input.take(n as int) == input);
    out
}

/// Removes each rule that follows a rule with the same identifier directly.
pub fn dedup_by_id(rules: Vec<ValidationRule>) -> (out: Vec<ValidationRule>)
    ensures
        rule_views(out@) == deduplicated(rule_views(rules@)),
{
    let mut rules = rules;
    let ghost input = rule_views(rules@);
    let ghost n = rules@.len();
    let mut reversed: Vec<ValidationRule> = Vec::new();
    while rules.len() > 0
        invariant
            rules@.len() + reversed@.len() == n,
            n == input.len(),
            rule_views(rules@) == input.take(rules@.len() as int),
            forall|k: int|
                0 <= k < reversed@.len() ==> (#[trigger] reversed@[k])@ == input[n - 1 - k],
        decreases rules.len(),
    {
        let ghost before = rule_views(rules@);
        let rule = rules.pop().unwrap();
        assert(rule_views(rules@) == before.drop_last());
        assert(rule@ == before.last());
        reversed.push(rule);
    }
    let mut out: Vec<ValidationRule> = Vec::new();
    assert(input.take(0) == Seq::<RuleView>::empty());
    assert(rule_views(out@) == Seq::<RuleView>::empty());
    while reversed.len() > 0
        invariant
            reversed@.len() <= n,
            n == input.len(),
            forall|k: int|
                0 <= k < reversed@.len() ==> (#[trigger] reversed@[k])@ == input[n - 1 - k],
            rule_views(out@) == deduplicated(input.take(n - reversed@.len())),
        decreases reversed.len(),
    {
        let ghost done = n - reversed@.len();
        let ghost kept = rule_views(out@);
        let rule = reversed.pop().unwrap();
        assert(rule@ == input[done]);
        assert(input.take(done + 1).drop_last() == input.take(done));
        assert(input.take(done + 1).last() == input[done]);
        let repeats = out.len() > 0 && out[out.len() - 1].id == rule.id;
        assert(out.len() > 0 ==> kept.last() == out@[out.len() - 1]@);
        if !repeats {
            out.push(rule);
            assert(rule_views(out@) == kept.push(rule@));
        }
    }
    assert(input.take(n as int) == input);
    out
}

} // verus!
