//! Substitution of bound values for the placeholders of a template.

use crate::binding::ValueBinding;
use crate::scan::{
    lemma_variable_list, match_token, names_from, token_at, token_name, variable_list,
    variable_set, variables,
};
use crate::text::{chars_of, string_of};
use vstd::prelude::*;

verus! {

/// The text that `s` renders to from position `i` on: each placeholder gives
/// way to the value bound to its name, every other character stays. Values
/// are put in as they are and are not read again.
pub open spec fn render_from(s: Seq<char>, values: Map<Seq<char>, Seq<char>>, i: int) -> Seq<char>
    decreases s.len() - i,
{
    if i < 0 || i >= s.len() {
        Seq::empty()
    } else {
        match token_at(s, i) {
            Some(t) => values[token_name(s, t)] + render_from(s, values, t.end),
            None => seq![s[i]] + render_from(s, values, i + 1),
        }
    }
}

/// The text that the template `s` renders to under `values`.
pub open spec fn rendered(s: Seq<char>, values: Map<Seq<char>, Seq<char>>) -> Seq<char> {
    render_from(s, values, 0)
}

/// `values` binds every variable of the template `s`.
pub open spec fn total_over(values: Map<Seq<char>, Seq<char>>, s: Seq<char>) -> bool {
    forall|name: Seq<char>| variable_set(s).contains(name) ==> values.contains_key(name)
}

/// Whether `binding` binds every variable of `template`, as rendering needs
/// it.
pub fn is_total(binding: &ValueBinding, template: &str) -> (b: bool)
    requires
        binding.wf(),
    ensures
        b == total_over(binding@, template@),
{
    let names = variables(template);
    let b = binding.covers(&names);
    proof {
        lemma_variable_list(template@);
        let list = variable_list(template@);
        if b {
            assert forall|name: Seq<char>| variable_set(template@).contains(name) implies binding@.contains_key(
                name,
            ) by {
                assert(list.contains(name));
                let k = choose|k: int| 0 <= k < list.len() && list[k] == name;
                assert(names@[k]@ == name);
            }
        } else {
            let k = choose|k: int| 0 <= k < names@.len() && !binding@.contains_key(names@[k]@);
            assert(list[k] == names@[k]@);
            assert(list.contains(names@[k]@));
        }
    }
    b
}

/// Renders `template`: every placeholder is replaced by the value that
/// `binding` holds for its name. The binding must be total over the
/// template's variables.
pub fn render(template: &str, binding: &ValueBinding) -> (out: String)
    requires
        binding.wf(),
        total_over(binding@, template@),
    ensures
        out@ == rendered(template@, binding@),
{
    let chars = chars_of(template);
    let mut out = String::new();
    let mut i: usize = 0;
    while i < chars.len()
        invariant
            i <= chars.len(),
            chars@ == template@,
            binding.wf(),
            total_over(binding@, chars@),
            names_from(chars@, i as int).subset_of(variable_set(chars@)),
            rendered(chars@, binding@) == out@ + render_from(chars@, binding@, i as int),
        decreases chars.len() - i,
    {
        match match_token(&chars, i) {
            Some((a, b, e)) => {
                let name = string_of(&chars, a, b);
                let ghost t = token_at(chars@, i as int).unwrap();
                proof {
                    assert(names_from(chars@, i as int).contains(name@));
                    assert(variable_set(chars@).contains(name@));
                    assert(names_from(chars@, e as int).subset_of(names_from(chars@, i as int)));
                }
                match binding.get(name.as_str()) {
                    Some(value) => {
                        let ghost before = out@;
                        out.append(value.as_str());
                        proof {
                            assert(before + (value@ + render_from(chars@, binding@, e as int))
                                =~= out@ + render_from(chars@, binding@, e as int));
                        }
                    },
                    None => vstd::pervasive::unreached(),
                }
                i = e;
            },
            None => {
                let ghost before = out@;
                out.push(chars[i]);
                proof {
                    assert(before + (seq![chars@[i as int]] + render_from(
                        chars@,
                        binding@,
                        i + 1,
                    )) =~= out@ + render_from(chars@, binding@, i + 1));
                }
                i += 1;
            },
        }
    }
    proof {
        assert(out@ + render_from(chars@, binding@, i as int) =~= out@);
    }
    out
}

} // verus!
