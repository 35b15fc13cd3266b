//! Resolution of a template's variables: which value each one gets, from
//! redirected input or from a query, and in which order the queries go out.
//!
//! The library decides; the caller reads the redirected input and puts the
//! queries to the user.

use crate::binding::ValueBinding;
use crate::order::strictly_ascending;
use crate::scan::{lemma_variable_list, variable_list, variable_set, variables};
use crate::text::{chars_of, string_of, views};
use vstd::prelude::*;

verus! {

/// The name of the variable that takes its value from redirected input.
pub open spec fn reserved_name() -> Seq<char> {
    "input"@
}

/// `s` without one line feed at its end, if it ends in one.
pub open spec fn without_newline(s: Seq<char>) -> Seq<char> {
    if s.len() > 0 && s.last() == '\n' {
        s.drop_last()
    } else {
        s
    }
}

/// The value that redirected input of this content gives: the content
/// without one trailing line feed, unless nothing is left of it.
pub open spec fn piped_text(content: Seq<char>) -> Option<Seq<char>> {
    if without_newline(content).len() > 0 {
        Some(without_newline(content))
    } else {
        None
    }
}

/// The content of an optional text.
pub open spec fn text_of(piped: Option<&str>) -> Option<Seq<char>> {
    match piped {
        Some(content) => Some(content@),
        None => None,
    }
}

/// The binding before any query: the reserved variable bound from the
/// redirected input, where the template has that variable and the input
/// gives a value, and nothing else.
pub open spec fn initial_binding(names: Seq<Seq<char>>, piped: Option<Seq<char>>) -> Map<
    Seq<char>,
    Seq<char>,
> {
    if names.contains(reserved_name()) && piped.is_some() && piped_text(piped.unwrap()).is_some() {
        Map::empty().insert(reserved_name(), piped_text(piped.unwrap()).unwrap())
    } else {
        Map::empty()
    }
}

/// The members of `names` that `values` does not bind, in the order of
/// `names`.
pub open spec fn unbound(names: Seq<Seq<char>>, values: Map<Seq<char>, Seq<char>>) -> Seq<
    Seq<char>,
>
    decreases names.len(),
{
    if names.len() == 0 {
        Seq::empty()
    } else if values.contains_key(names[0]) {
        unbound(names.drop_first(), values)
    } else {
        seq![names[0]] + unbound(names.drop_first(), values)
    }
}

/// Every member of `names` is bound once none is left unbound.
pub proof fn lemma_none_unbound(names: Seq<Seq<char>>, values: Map<Seq<char>, Seq<char>>)
    requires
        unbound(names, values).len() == 0,
    ensures
        forall|name: Seq<char>| names.contains(name) ==> values.contains_key(name),
    decreases names.len(),
{
    if names.len() > 0 {
        lemma_none_unbound(names.drop_first(), values);
        assert forall|name: Seq<char>| names.contains(name) implies values.contains_key(name) by {
            let k = choose|k: int| 0 <= k < names.len() && names[k] == name;
            if k > 0 {
                assert(names.drop_first()[k - 1] == name);
                assert(names.drop_first().contains(name));
            }
        }
    }
}

/// What is left unbound consists of members of `names` that `values` does
/// not bind, and holds each of them.
pub proof fn lemma_unbound_members(names: Seq<Seq<char>>, values: Map<Seq<char>, Seq<char>>)
    ensures
        forall|name: Seq<char>|
            #![trigger unbound(names, values).contains(name)]
            #![trigger names.contains(name)]
            unbound(names, values).contains(name) <==> (names.contains(name)
                && !values.contains_key(name)),
    decreases names.len(),
{
    let out = unbound(names, values);
    if names.len() > 0 {
        let tail = names.drop_first();
        lemma_unbound_members(tail, values);
        assert forall|name: Seq<char>|
            out.contains(name) <==> (names.contains(name) && !values.contains_key(name)) by {
            if out.contains(name) {
                let k = choose|k: int| 0 <= k < out.len() && out[k] == name;
                if values.contains_key(names[0]) || k > 0 {
                    if !values.contains_key(names[0]) {
                        assert(unbound(tail, values)[k - 1] == name);
                    }
                    assert(unbound(tail, values).contains(name));
                    let m = choose|m: int| 0 <= m < tail.len() && tail[m] == name;
                    assert(names[m + 1] == name);
                } else {
                    assert(names[0] == name);
                }
            }
            if names.contains(name) && !values.contains_key(name) {
                let k = choose|k: int| 0 <= k < names.len() && names[k] == name;
                if k == 0 {
                    assert(out[0] == name);
                } else {
                    assert(tail[k - 1] == name);
                    assert(tail.contains(name));
                    let m = choose|m: int|
                        0 <= m < unbound(tail, values).len() && unbound(tail, values)[m] == name;
                    if values.contains_key(names[0]) {
                        assert(out[m] == name);
                    } else {
                        assert(out[m + 1] == name);
                    }
                }
            }
        }
    }
}

/// Binding the first unbound name leaves the others unbound, in their order.
pub proof fn lemma_answer_advances(
    names: Seq<Seq<char>>,
    values: Map<Seq<char>, Seq<char>>,
    answer: Seq<char>,
)
    requires
        strictly_ascending(names),
        unbound(names, values).len() > 0,
    ensures
        unbound(names, values.insert(unbound(names, values)[0], answer)) == unbound(
            names,
            values,
        ).drop_first(),
    decreases names.len(),
{
    let first = unbound(names, values)[0];
    let after = values.insert(first, answer);
    let tail = names.drop_first();
    assert(strictly_ascending(tail)) by {
        assert forall|i: int, j: int| 0 <= i < j < tail.len() implies crate::order::precedes(
            tail[i],
            tail[j],
        ) by {
            assert(crate::order::precedes(names[i + 1], names[j + 1]));
        }
    }
    if values.contains_key(names[0]) {
        lemma_answer_advances(tail, values, answer);
    } else {
        assert(first == names[0]);
        assert forall|j: int| 0 <= j < tail.len() implies tail[j] != first by {
            assert(crate::order::precedes(names[0], names[j + 1]));
            crate::order::lemma_precedes_irreflexive(first);
        }
        lemma_unbound_same(tail, values, first, answer);
        assert(unbound(names, values).drop_first() =~= unbound(tail, values));
    }
}

/// Binding a name that is not in `names` changes nothing of what is left
/// unbound of `names`.
proof fn lemma_unbound_same(
    names: Seq<Seq<char>>,
    values: Map<Seq<char>, Seq<char>>,
    name: Seq<char>,
    value: Seq<char>,
)
    requires
        forall|j: int| 0 <= j < names.len() ==> names[j] != name,
    ensures
        unbound(names, values.insert(name, value)) == unbound(names, values),
    decreases names.len(),
{
    if names.len() > 0 {
        let tail = names.drop_first();
        assert forall|j: int| 0 <= j < tail.len() implies tail[j] != name by {
            assert(tail[j] == names[j + 1]);
        }
        lemma_unbound_same(tail, values, name, value);
        assert(names[0] != name);
    }
}

/// What is left unbound of an ascending list is ascending.
pub proof fn lemma_unbound_ascending(names: Seq<Seq<char>>, values: Map<Seq<char>, Seq<char>>)
    requires
        strictly_ascending(names),
    ensures
        strictly_ascending(unbound(names, values)),
    decreases names.len(),
{
    if names.len() > 0 {
        let tail = names.drop_first();
        let rest = unbound(tail, values);
        assert(strictly_ascending(tail)) by {
            assert forall|i: int, j: int| 0 <= i < j < tail.len() implies crate::order::precedes(
                tail[i],
                tail[j],
            ) by {
                assert(crate::order::precedes(names[i + 1], names[j + 1]));
            }
        }
        lemma_unbound_ascending(tail, values);
        lemma_unbound_members(tail, values);
        let out = unbound(names, values);
        if !values.contains_key(names[0]) {
            assert forall|i: int, j: int| 0 <= i < j < out.len() implies crate::order::precedes(
                out[i],
                out[j],
            ) by {
                if i == 0 {
                    assert(rest.contains(rest[j - 1]));
                    let m = choose|m: int| 0 <= m < tail.len() && tail[m] == rest[j - 1];
                    assert(crate::order::precedes(names[0], names[m + 1]));
                } else {
                    assert(crate::order::precedes(rest[i - 1], rest[j - 1]));
                }
            }
        }
    }
}

/// The value that redirected input of this content gives to the reserved
/// variable, if it gives one.
pub fn piped_value(content: &str) -> (value: Option<String>)
    ensures
        match value {
            Some(v) => piped_text(content@) == Some(v@),
            None => piped_text(content@).is_none(),
        },
{
    let chars = chars_of(content);
    let n = chars.len();
    let end = if n > 0 && chars[n - 1] == '\n' {
        n - 1
    } else {
        n
    };
    proof {
        assert(chars@.subrange(0, end as int) =~= without_newline(content@));
    }
    if end > 0 {
        Some(string_of(&chars, 0, end))
    } else {
        None
    }
}

/// Whether `names` holds the reserved name.
fn holds_reserved(names: &Vec<String>) -> (b: bool)
    ensures
        b == views(names@).contains(reserved_name()),
{
    let reserved = "input".to_owned();
    let mut i: usize = 0;
    while i < names.len()
        invariant
            i <= names.len(),
            reserved@ == reserved_name(),
            forall|j: int| 0 <= j < i ==> views(names@)[j] != reserved_name(),
        decreases names.len() - i,
    {
        if names[i] == reserved {
            assert(views(names@)[i as int] == reserved_name());
            return true;
        }
        i += 1;
    }
    false
}

/// Whether resolving `template` consults redirected input: whether the
/// reserved variable is among its variables.
pub fn wants_piped_input(template: &str) -> (b: bool)
    ensures
        b == variable_set(template@).contains(reserved_name()),
{
    let names = variables(template);
    proof {
        lemma_variable_list(template@);
    }
    holds_reserved(&names)
}

/// The label under which the value of the variable `name` is asked for.
pub fn prompt_text(name: &str) -> (label: String)
    ensures
        label@ == "Enter value for '"@ + name@ + "'"@,
{
    let mut label = "Enter value for '".to_owned();
    label.append(name);
    label.append("'");
    label
}

/// Why a resolution did not complete: the query for `variable` gave no
/// value.
#[derive(Debug)]
pub struct ResolutionError {
    pub variable: String,
}

/// The state of one resolution: the template's variables and the values
/// bound so far.
pub struct Resolver {
    names: Vec<String>,
    binding: ValueBinding,
}

impl Resolver {
    /// The variables that are being resolved, in ascending order.
    pub closed spec fn names(&self) -> Seq<Seq<char>> {
        views(self.names@)
    }

    /// The values bound so far.
    pub closed spec fn bound(&self) -> Map<Seq<char>, Seq<char>> {
        self.binding@
    }

    /// The invariant of the type: what [`Resolver::new`] establishes and
    /// every method keeps.
    pub closed spec fn wf(&self) -> bool {
        &&& self.binding.wf()
        &&& strictly_ascending(views(self.names@))
    }

    /// The names still to be asked for, in the order of the queries.
    pub open spec fn asked(&self) -> Seq<Seq<char>> {
        unbound(self.names(), self.bound())
    }

    /// The name of the next query, if one is left.
    pub open spec fn pending_name(&self) -> Option<Seq<char>> {
        if self.asked().len() > 0 {
            Some(self.asked()[0])
        } else {
            None
        }
    }

    /// Starts the resolution of `template`. `piped` is the content of the
    /// redirected input, or `None` where input is not redirected.
    pub fn new(template: &str, piped: Option<&str>) -> (resolver: Resolver)
        ensures
            resolver.wf(),
            resolver.names() == variable_list(template@),
            resolver.bound() == initial_binding(variable_list(template@), text_of(piped)),
    {
        let names = variables(template);
        let mut binding = ValueBinding::new();
        proof {
            lemma_variable_list(template@);
        }
        if let Some(content) = piped {
            if holds_reserved(&names) {
                if let Some(value) = piped_value(content) {
                    binding.bind("input".to_owned(), value);
                }
            }
        }
        Resolver { names, binding }
    }

    /// The name of the next query: the first variable, in ascending order,
    /// that has no value yet. `None` once every variable has one.
    pub fn pending(&self) -> (name: Option<String>)
        requires
            self.wf(),
        ensures
            match name {
                Some(n) => self.pending_name() == Some(n@),
                None => self.pending_name().is_none(),
            },
    {
        let mut i: usize = 0;
        proof {
            assert(self.names().skip(0) =~= self.names());
        }
        while i < self.names.len()
            invariant
                i <= self.names.len(),
                self.wf(),
                unbound(self.names().skip(i as int), self.bound()) == self.asked(),
            decreases self.names.len() - i,
        {
            proof {
                assert(self.names().skip(i as int)[0] == self.names@[i as int]@);
                assert(self.names().skip(i as int).drop_first() =~= self.names().skip(i + 1));
            }
            if !self.binding.contains(self.names[i].as_str()) {
                return Some(self.names[i].clone());
            }
            i += 1;
        }
        proof {
            assert(self.names().skip(i as int).len() == 0);
        }
        None
    }

    /// Takes the answer to the pending query: binds the pending name to
    /// `value` as it is. Does nothing where no query is pending.
    pub fn answer(&mut self, value: String)
        requires
            old(self).wf(),
        ensures
            final(self).wf(),
            final(self).names() == old(self).names(),
            match old(self).pending_name() {
                Some(name) => final(self).bound() == old(self).bound().insert(name, value@),
                None => final(self).bound() == old(self).bound(),
            },
    {
        match self.pending() {
            Some(name) => {
                self.binding.bind(name, value);
            },
            None => {},
        }
    }

    /// Ends the resolution: the binding, once every variable has a value;
    /// `None` while a query is pending.
    pub fn finish(self) -> (binding: Option<ValueBinding>)
        requires
            self.wf(),
        ensures
            match binding {
                Some(b) => self.pending_name().is_none() && b.wf() && b@ == self.bound(),
                None => self.pending_name().is_some(),
            },
    {
        match self.pending() {
            Some(_) => None,
            None => Some(self.binding),
        }
    }
}

} // verus!
