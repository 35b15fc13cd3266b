//! The render pipeline from end to end: scan, resolve, render.

use crate::order::strictly_ascending;
use crate::render::{render, rendered, total_over};
use crate::resolver::{
    initial_binding, lemma_answer_advances, lemma_none_unbound, lemma_unbound_ascending,
    lemma_unbound_members, piped_text, reserved_name, text_of, unbound, ResolutionError, Resolver,
};
use crate::scan::{lemma_variable_list, variable_list, variable_set};
use crate::text::views;
use vstd::prelude::*;

verus! {

/// `values` after the first `k` of `names` were bound to the first `k` of
/// `answers`, one after the other.
pub open spec fn bind_first(
    values: Map<Seq<char>, Seq<char>>,
    names: Seq<Seq<char>>,
    answers: Seq<Seq<char>>,
    k: nat,
) -> Map<Seq<char>, Seq<char>>
    decreases k,
{
    if k == 0 {
        values
    } else {
        bind_first(values, names, answers, (k - 1) as nat).insert(names[k - 1], answers[k - 1])
    }
}

/// The names that are asked for when `template` is resolved with this
/// redirected input, in the order of the queries.
pub open spec fn queries(template: Seq<char>, piped: Option<Seq<char>>) -> Seq<Seq<char>> {
    unbound(variable_list(template), initial_binding(variable_list(template), piped))
}

/// The binding that resolution ends with when the queries are answered by
/// `answers` in turn, or `None` where the answers run out before the queries.
pub open spec fn resolved(
    template: Seq<char>,
    piped: Option<Seq<char>>,
    answers: Seq<Seq<char>>,
) -> Option<Map<Seq<char>, Seq<char>>> {
    let asked = queries(template, piped);
    if asked.len() <= answers.len() {
        Some(
            bind_first(
                initial_binding(variable_list(template), piped),
                asked,
                answers,
                asked.len(),
            ),
        )
    } else {
        None
    }
}

/// The queries go out in ascending lexicographic order, each name once.
pub proof fn lemma_queries_ascending(template: Seq<char>, piped: Option<Seq<char>>)
    ensures
        strictly_ascending(queries(template, piped)),
{
    lemma_variable_list(template);
    lemma_unbound_ascending(
        variable_list(template),
        initial_binding(variable_list(template), piped),
    );
}

/// After the first `k` queries were answered, the values that were there
/// are there, and each of the first `k` names has its answer.
proof fn lemma_bind_first(
    values: Map<Seq<char>, Seq<char>>,
    names: Seq<Seq<char>>,
    answers: Seq<Seq<char>>,
    k: nat,
)
    requires
        strictly_ascending(names),
        k <= names.len(),
        k <= answers.len(),
        forall|j: int| 0 <= j < names.len() ==> !values.contains_key(#[trigger] names[j]),
    ensures
        forall|name: Seq<char>| #[trigger]
            values.contains_key(name) ==> bind_first(values, names, answers, k).contains_key(name)
                && bind_first(values, names, answers, k)[name] == values[name],
        forall|j: int|
            0 <= j < k ==> bind_first(values, names, answers, k).contains_key(#[trigger] names[j])
                && bind_first(values, names, answers, k)[names[j]] == answers[j],
        forall|name: Seq<char>| #[trigger]
            bind_first(values, names, answers, k).contains_key(name) ==> values.contains_key(name)
                || exists|j: int| 0 <= j < k && names[j] == name,
    decreases k,
{
    if k > 0 {
        lemma_bind_first(values, names, answers, (k - 1) as nat);
        let before = bind_first(values, names, answers, (k - 1) as nat);
        let after = bind_first(values, names, answers, k);
        assert forall|j: int| 0 <= j < k implies after.contains_key(#[trigger] names[j])
            && after[names[j]] == answers[j] by {
            if j < k - 1 {
                assert(crate::order::precedes(names[j], names[k - 1]));
                crate::order::lemma_precedes_irreflexive(names[j]);
            }
        }
        assert forall|name: Seq<char>| #[trigger] after.contains_key(name) implies values.contains_key(
            name,
        ) || exists|j: int| 0 <= j < k && names[j] == name by {
            if name != names[k - 1] {
                assert(before.contains_key(name));
                if !values.contains_key(name) {
                    let j = choose|j: int| 0 <= j < k - 1 && names[j] == name;
                    assert(names[j] == name);
                }
            }
        }
    }
}

/// Once the queries are answered every variable of the template has a
/// value, and nothing else has one: the binding is total.
pub proof fn lemma_resolved_is_total(
    template: Seq<char>,
    piped: Option<Seq<char>>,
    answers: Seq<Seq<char>>,
)
    requires
        resolved(template, piped, answers).is_some(),
    ensures
        total_over(resolved(template, piped, answers).unwrap(), template),
        resolved(template, piped, answers).unwrap().dom() == variable_set(template),
{
    let names = variable_list(template);
    let start = initial_binding(names, piped);
    let asked = queries(template, piped);
    let end = resolved(template, piped, answers).unwrap();
    lemma_variable_list(template);
    lemma_unbound_members(names, start);
    lemma_unbound_ascending(names, start);
    assert forall|j: int| 0 <= j < asked.len() implies !start.contains_key(#[trigger] asked[j]) by {
        assert(asked.contains(asked[j]));
    }
    lemma_bind_first(start, asked, answers, asked.len());
    assert forall|name: Seq<char>| variable_set(template).contains(name) <==> end.dom().contains(
        name,
    ) by {
        if variable_set(template).contains(name) {
            assert(names.contains(name));
            if !start.contains_key(name) {
                assert(asked.contains(name));
                let j = choose|j: int| 0 <= j < asked.len() && asked[j] == name;
                assert(end.contains_key(asked[j]));
            }
        }
        if end.contains_key(name) {
            if start.contains_key(name) {
                assert(name == reserved_name());
            } else {
                let j = choose|j: int| 0 <= j < asked.len() && asked[j] == name;
                assert(asked.contains(asked[j]));
            }
        }
    }
    assert(end.dom() =~= variable_set(template));
}

/// Redirected input wins: where the template has the reserved variable and
/// the redirected input gives a value, that value is bound to it, whatever
/// the answers are, and it is not asked for.
pub proof fn lemma_piped_input_wins(
    template: Seq<char>,
    content: Seq<char>,
    answers: Seq<Seq<char>>,
)
    requires
        variable_set(template).contains(reserved_name()),
        piped_text(content).is_some(),
        resolved(template, Some(content), answers).is_some(),
    ensures
        !queries(template, Some(content)).contains(reserved_name()),
        resolved(template, Some(content), answers).unwrap()[reserved_name()] == piped_text(
            content,
        ).unwrap(),
{
    let names = variable_list(template);
    let start = initial_binding(names, Some(content));
    let asked = queries(template, Some(content));
    lemma_variable_list(template);
    assert(names.contains(reserved_name()));
    lemma_unbound_members(names, start);
    lemma_unbound_ascending(names, start);
    assert forall|j: int| 0 <= j < asked.len() implies !start.contains_key(#[trigger] asked[j]) by {
        assert(asked.contains(asked[j]));
    }
    lemma_bind_first(start, asked, answers, asked.len());
    assert(start.contains_key(reserved_name()));
}

/// Each variable that is asked for gets the answer to its query, as it is.
pub proof fn lemma_answers_are_bound(
    template: Seq<char>,
    piped: Option<Seq<char>>,
    answers: Seq<Seq<char>>,
    j: int,
)
    requires
        resolved(template, piped, answers).is_some(),
        0 <= j < queries(template, piped).len(),
    ensures
        resolved(template, piped, answers).unwrap()[queries(template, piped)[j]] == answers[j],
{
    let names = variable_list(template);
    let start = initial_binding(names, piped);
    let asked = queries(template, piped);
    lemma_variable_list(template);
    lemma_unbound_members(names, start);
    lemma_unbound_ascending(names, start);
    assert forall|k: int| 0 <= k < asked.len() implies !start.contains_key(#[trigger] asked[k]) by {
        assert(asked.contains(asked[k]));
    }
    lemma_bind_first(start, asked, answers, asked.len());
}

/// Resolves and renders `template`. `piped` is the content of the redirected
/// input, or `None` where input is not redirected; `answers` holds the
/// answers to the queries, in the order in which the queries go out;
/// answers beyond the last query are not looked at. Fails, with the name of
/// the first query without an answer, where the answers run out.
pub fn process(template: &str, piped: Option<&str>, answers: &Vec<String>) -> (out: Result<
    String,
    ResolutionError,
>)
    ensures
        match resolved(template@, text_of(piped), views(answers@)) {
            Some(values) => out matches Ok(text) && text@ == rendered(template@, values),
            None => out matches Err(e) && e.variable@ == queries(
                template@,
                text_of(piped),
            )[answers@.len() as int],
        },
{
    let mut resolver = Resolver::new(template, piped);
    let ghost names = variable_list(template@);
    let ghost start = initial_binding(names, text_of(piped));
    let ghost asked = queries(template@, text_of(piped));
    let ghost given = views(answers@);
    let mut k: usize = 0;
    proof {
        lemma_variable_list(template@);
        assert(asked.skip(0) =~= asked);
    }
    loop
        invariant
            resolver.wf(),
            resolver.names() == names,
            strictly_ascending(names),
            asked == queries(template@, text_of(piped)),
            given == views(answers@),
            k <= answers.len(),
            k <= asked.len(),
            resolver.bound() == bind_first(start, asked, given, k as nat),
            resolver.asked() == asked.skip(k as int),
        ensures
            resolver.wf(),
            resolver.names() == names,
            k == asked.len(),
            k <= answers.len(),
            resolver.bound() == bind_first(start, asked, given, k as nat),
            resolver.pending_name().is_none(),
        decreases asked.len() - k,
    {
        match resolver.pending() {
            None => {
                break ;
            },
            Some(name) => {
                if k < answers.len() {
                    proof {
                        lemma_answer_advances(names, resolver.bound(), given[k as int]);
                        assert(asked.skip(k as int).drop_first() =~= asked.skip(k + 1));
                        assert(asked.skip(k as int)[0] == asked[k as int]);
                    }
                    resolver.answer(answers[k].clone());
                    k += 1;
                } else {
                    assert(asked.skip(k as int).len() > 0);
                    assert(asked.skip(k as int)[0] == asked[k as int]);
                    return Err(ResolutionError { variable: name });
                }
            },
        }
    }
    match resolver.finish() {
        Some(binding) => {
            proof {
                lemma_none_unbound(names, binding@);
                assert forall|name: Seq<char>| variable_set(template@).contains(name) implies binding@.contains_key(
                    name,
                ) by {
                    assert(names.contains(name));
                }
                assert(given.len() == answers@.len());
            }
            Ok(render(template, &binding))
        },
        None => vstd::pervasive::unreached(),
    }
}

} // verus!
