//! The free-form parameters of a rule: how a request writes them, and how the
//! management interface shows them.

use crate::json::{
    document_text, json_normal_form, json_string_content, json_string_literal, parse_document,
    string_content, string_document,
};
use crate::models::{parameter_views, Parameter};
use crate::text::{
    chars_of, find_from, lemma_position_from, pieces, position_from, same_text, slice_of, split,
    string_of, tail_from, texts_of, trim, trimmed,
};
use vstd::prelude::*;
use vstd::string::StringExecFns;

verus! {

/// The model of a list of parameters: names with values as JSON texts.
pub type Pairs = Seq<(Seq<char>, Seq<char>)>;

/// The first index at or after `from` of a parameter called `name`, or the
/// number of parameters if there is none.
pub open spec fn name_position(params: Pairs, name: Seq<char>, from: int) -> int
    decreases params.len() - from,
{
    if from < 0 || from >= params.len() {
        params.len() as int
    } else if params[from].0 == name {
        from
    } else {
        name_position(params, name, from + 1)
    }
}

/// No two parameters have one name.
pub open spec fn distinct_names(params: Pairs) -> bool {
    forall|i: int, j: int|
        #![trigger params[i], params[j]]
        0 <= i < j < params.len() ==> params[i].0 != params[j].0
}

/// The parameters with `name` set to `value`: in place of the value it had,
/// or as a new last parameter.
pub open spec fn upserted(params: Pairs, name: Seq<char>, value: Seq<char>) -> Pairs {
    let p = name_position(params, name, 0);
    if 0 <= p < params.len() {
        params.update(p, (name, value))
    } else {
        params.push((name, value))
    }
}

/// The value that a request writes as `text`: the JSON value that the text
/// writes, in normal form, or where it writes none, the string with the text
/// as content.
pub open spec fn parameter_value(text: Seq<char>) -> Seq<char> {
    match json_normal_form(text) {
        Some(normal) => normal,
        None => json_string_literal(text),
    }
}

/// The parameters with the pair that `part` writes: the name before the
/// first colon, without the white space around it, and the value behind the
/// colon. A part without a colon writes nothing.
pub open spec fn with_pair(params: Pairs, part: Seq<char>) -> Pairs {
    let k = position_from(part, ':', 0);
    if 0 <= k < part.len() {
        upserted(params, trimmed(part.take(k)), parameter_value(part.skip(k + 1)))
    } else {
        params
    }
}

/// The parameters with the pairs that `parts` write, one after the other.
pub open spec fn with_pairs(params: Pairs, parts: Seq<Seq<char>>) -> Pairs
    decreases parts.len(),
{
    if parts.len() == 0 {
        params
    } else {
        with_pair(with_pairs(params, parts.drop_last()), parts.last())
    }
}

/// The parameters of a requested rule: the `name:value` pairs between the
/// commas of the parameter text, and the description, if one is given, as the
/// parameter `description`.
pub open spec fn requested_parameters(
    parameters: Option<Seq<char>>,
    description: Option<Seq<char>>,
) -> Pairs {
    let written = match parameters {
        Some(text) => with_pairs(Seq::empty(), pieces(text, ',')),
        None => Seq::empty(),
    };
    match description {
        Some(text) => upserted(written, "description"@, json_string_literal(text)),
        None => written,
    }
}

/// The parameters as one text: `name:value` pairs with commas between them.
pub open spec fn joined_parameters(params: Pairs) -> Seq<char>
    decreases params.len(),
{
    if params.len() == 0 {
        Seq::empty()
    } else {
        let pair = params.last().0 + ":"@ + params.last().1;
        if params.len() == 1 {
            pair
        } else {
            joined_parameters(params.drop_last()) + ","@ + pair
        }
    }
}

/// The parameters as the management interface shows them: nothing where
/// there is none.
pub open spec fn shown_parameters(params: Pairs) -> Option<Seq<char>> {
    if params.len() == 0 {
        None
    } else {
        Some(joined_parameters(params))
    }
}

/// The content of the string that a JSON text writes; `None` where the text
/// is not valid JSON or writes another kind of value.
pub open spec fn written_string(text: Seq<char>) -> Option<Seq<char>> {
    match json_normal_form(text) {
        Some(document) => json_string_content(document),
        None => None,
    }
}

/// The description among the parameters: the content of the parameter
/// `description`, where there is one and its value is a string.
pub open spec fn description_among(params: Pairs) -> Option<Seq<char>> {
    let p = name_position(params, "description"@, 0);
    if 0 <= p < params.len() {
        written_string(params[p].1)
    } else {
        None
    }
}

/// The index of the parameter called `name`, or the number of parameters.
fn find_name(params: &Vec<Parameter>, name: &str) -> (p: usize)
    ensures
        p == name_position(parameter_views(params@), name@, 0),
        p <= params@.len(),
{
    let ghost views = parameter_views(params@);
    let mut p: usize = 0;
    while p < params.len() && !same_text(params[p].name.as_str(), name)
        invariant
            p <= params.len(),
            views == parameter_views(params@),
            name_position(views, name@, 0) == name_position(views, name@, p as int),
        decreases params.len() - p,
    {
        assert(views[p as int] == params@[p as int]@);
        p = p + 1;
    }
    assert(p < params.len() ==> views[p as int] == params@[p as int]@);
    p
}

/// Sets the parameter `name` to `value`.
pub fn upsert(params: &mut Vec<Parameter>, name: String, value: String)
    ensures
        parameter_views(final(params)@) == upserted(parameter_views(old(params)@), name@, value@),
{
    let p = find_name(params, name.as_str());
    let ghost views = parameter_views(params@);
    let entry = Parameter { name, value };
    if p < params.len() {
        let gone = params.remove(p);
        let ghost rest = parameter_views(params@);
        assert(rest == views.remove(p as int));
        params.insert(p, entry);
        assert(parameter_views(params@) == rest.insert(p as int, entry@));
        assert(rest.insert(p as int, entry@) == views.update(p as int, entry@));
    } else {
        params.push(entry);
        assert(parameter_views(params@) == views.push(entry@));
    }
}

/// The value that a request writes as `text`.
fn value_of(text: &str) -> (out: String)
    ensures
        out@ == parameter_value(text@),
{
    match parse_document(text) {
        Some(document) => document_text(&document),
        None => document_text(&string_document(text)),
    }
}

/// The parameters of a requested rule.
pub fn read_parameters(parameters: &Option<String>, description: &Option<String>) -> (out: Vec<
    Parameter,
>)
    ensures
        parameter_views(out@) == requested_parameters(
            crate::models::optional_text(*parameters),
            crate::models::optional_text(*description),
        ),
        *description matches Some(text) ==> description_among(parameter_views(out@)) == Some(
            text@,
        ),
        distinct_names(parameter_views(out@)),
{
    let mut out: Vec<Parameter> = Vec::new();
    assert(parameter_views(out@) == Seq::<(Seq<char>, Seq<char>)>::empty());
    if let Some(text) = parameters {
        let cs = chars_of(text.as_str());
        let parts = split(&cs, ',');
        let ghost raw = texts_of(parts@);
        let mut i: usize = 0;
        assert(raw.take(0) == Seq::<Seq<char>>::empty());
        while i < parts.len()
            invariant
                i <= parts.len(),
                raw == texts_of(parts@),
                parameter_views(out@) == with_pairs(Seq::empty(), raw.take(i as int)),
                distinct_names(parameter_views(out@)),
            decreases parts.len() - i,
        {
            assert(raw.take(i + 1).drop_last() == raw.take(i as int));
            assert(raw.take(i + 1).last() == parts@[i as int]@);
            let part = &parts[i];
            proof {
                lemma_position_from(part@, ':', 0);
            }
            let k = find_from(part, ':', 0);
            if k < part.len() {
                let name = string_of(&trim(&slice_of(part, 0, k)));
                let written = string_of(&tail_from(part, k + 1));
                assert(part@.subrange(0, k as int) == part@.take(k as int));
                let value = value_of(written.as_str());
                proof {
                    lemma_upserted_distinct(parameter_views(out@), name@, value@);
                }
                upsert(&mut out, name, value);
            }
            i = i + 1;
        }
        assert(raw.take(raw.len() as int) == raw);
    }
    if let Some(text) = description {
        let ghost written = parameter_views(out@);
        let value = document_text(&string_document(text.as_str()));
        proof {
            lemma_upserted_value(written, "description"@, value@);
            lemma_upserted_distinct(written, "description"@, value@);
        }
        upsert(&mut out, String::from_str("description"), value);
        assert(parameter_views(out@) == upserted(written, "description"@, value@));
        assert(description_among(parameter_views(out@)) == written_string(value@));
    }
    out
}

/// Where `name_position` points, a parameter called `name` stands, and none
/// before it.
pub proof fn lemma_name_position(params: Pairs, name: Seq<char>, from: int)
    requires
        0 <= from <= params.len(),
    ensures
        from <= name_position(params, name, from) <= params.len(),
        name_position(params, name, from) < params.len() ==> params[name_position(
            params,
            name,
            from,
        )].0 == name,
        forall|k: int| from <= k < name_position(params, name, from) ==> params[k].0 != name,
    decreases params.len() - from,
{
    if from < params.len() && params[from].0 != name {
        lemma_name_position(params, name, from + 1);
    }
}

/// The least index of a parameter called `name` is the one before which there
/// is none.
pub proof fn lemma_name_position_is(params: Pairs, name: Seq<char>, from: int, p: int)
    requires
        0 <= from <= p < params.len(),
        params[p].0 == name,
        forall|k: int| from <= k < p ==> params[k].0 != name,
    ensures
        name_position(params, name, from) == p,
    decreases p - from,
{
    if from < p {
        lemma_name_position_is(params, name, from + 1, p);
    }
}

/// Setting a parameter leaves each name with one parameter.
pub proof fn lemma_upserted_distinct(params: Pairs, name: Seq<char>, value: Seq<char>)
    requires
        distinct_names(params),
    ensures
        distinct_names(upserted(params, name, value)),
{
    let p = name_position(params, name, 0);
    let after = upserted(params, name, value);
    lemma_name_position(params, name, 0);
    assert forall|i: int, j: int| 0 <= i < j < after.len() implies (#[trigger] after[i]).0 != (
    #[trigger] after[j]).0 by {
        if p < params.len() {
            assert(after[i].0 == params[i].0);
            assert(after[j].0 == params[j].0);
        } else if j < params.len() {
            assert(after[i] == params[i] && after[j] == params[j]);
        } else {
            assert(after[i] == params[i]);
        }
    }
}

/// A parameter that was set has the value that it was set to.
pub proof fn lemma_upserted_value(params: Pairs, name: Seq<char>, value: Seq<char>)
    ensures
        0 <= name_position(upserted(params, name, value), name, 0) < upserted(
            params,
            name,
            value,
        ).len(),
        upserted(params, name, value)[name_position(upserted(params, name, value), name, 0)].1
            == value,
{
    let p = name_position(params, name, 0);
    let after = upserted(params, name, value);
    lemma_name_position(params, name, 0);
    assert forall|k: int| 0 <= k < p implies after[k].0 != name by {
        assert(after[k] == params[k]);
    }
    lemma_name_position_is(after, name, 0, p);
}

/// The parameters as the management interface shows them.
pub fn show_parameters(params: &Vec<Parameter>) -> (out: Option<String>)
    ensures
        crate::models::optional_text(out) == shown_parameters(parameter_views(params@)),
{
    if params.len() == 0 {
        return None;
    }
    let ghost views = parameter_views(params@);
    let mut text = String::new();
    let mut i: usize = 0;
    assert(views.take(0) == Seq::<(Seq<char>, Seq<char>)>::empty());
    while i < params.len()
        invariant
            i <= params.len(),
            views == parameter_views(params@),
            text@ == joined_parameters(views.take(i as int)),
        decreases params.len() - i,
    {
        assert(views.take(i + 1).drop_last() == views.take(i as int));
        assert(views.take(i + 1).last() == params@[i as int]@);
        assert(views.take(i + 1).len() == i + 1);
        let ghost before = text@;
        if i > 0 {
            text.append(",");
        }
        text.append(params[i].name.as_str());
        text.append(":");
        text.append(params[i].value.as_str());
        proof {
            let pair = params@[i as int]@.0 + ":"@ + params@[i as int]@.1;
            if i > 0 {
                assert(text@ == before + ","@ + pair);
            } else {
                assert(before == Seq::<char>::empty());
                assert(text@ == pair);
            }
        }
        i = i + 1;
    }
    assert(views.take(views.len() as int) == views);
    Some(text)
}

/// The description among the parameters.
pub fn describe(params: &Vec<Parameter>) -> (out: Option<String>)
    ensures
        crate::models::optional_text(out) == description_among(parameter_views(params@)),
{
    let p = find_name(params, "description");
    if p < params.len() {
        assert(parameter_views(params@)[p as int] == params@[p as int]@);
        match parse_document(params[p].value.as_str()) {
            Some(document) => string_content(&document),
            None => None,
        }
    } else {
        None
    }
}

} // verus!
