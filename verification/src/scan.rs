//! The placeholder grammar and the scanner that lists a template's variables.
//!
//! A placeholder is two opening braces, any white space, a name of one or
//! more ASCII letters, digits or underscores, any white space, and two
//! closing braces. Text that does not have this shape is ordinary text.

use crate::order::{precedes, rank, strictly_ascending, Rank};
use crate::order::{lemma_ascending_unique, lemma_precedes_total, lemma_precedes_transitive};
use crate::text::{
    char_is_name, char_is_space, chars_of, is_name_char, is_space, string_of, views,
};
use vstd::prelude::*;

verus! {

/// How many white-space characters stand in a row from position `i` on.
pub open spec fn space_run(s: Seq<char>, i: int) -> nat
    decreases s.len() - i,
{
    if 0 <= i < s.len() && is_space(s[i]) {
        1 + space_run(s, i + 1)
    } else {
        0
    }
}

/// How many name characters stand in a row from position `i` on.
pub open spec fn name_run(s: Seq<char>, i: int) -> nat
    decreases s.len() - i,
{
    if 0 <= i < s.len() && is_name_char(s[i]) {
        1 + name_run(s, i + 1)
    } else {
        0
    }
}

/// Positions `i` and `i + 1` both hold `c`.
pub open spec fn pair_at(s: Seq<char>, i: int, c: char) -> bool {
    0 <= i && i + 1 < s.len() && s[i] == c && s[i + 1] == c
}

/// Where the parts of one placeholder lie: the name is
/// `s[name_start..name_end]` and the placeholder ends just before `end`.
pub struct Token {
    pub name_start: int,
    pub name_end: int,
    pub end: int,
}

/// The placeholder that starts at position `i`, if one does.
pub open spec fn token_at(s: Seq<char>, i: int) -> Option<Token> {
    let name_start = i + 2 + space_run(s, i + 2);
    let name_end = name_start + name_run(s, name_start);
    let close = name_end + space_run(s, name_end);
    if pair_at(s, i, '{') && name_start < name_end && pair_at(s, close, '}') {
        Some(Token { name_start, name_end, end: close + 2 })
    } else {
        None
    }
}

/// The name that the token `t` of `s` carries.
pub open spec fn token_name(s: Seq<char>, t: Token) -> Seq<char> {
    s.subrange(t.name_start, t.name_end)
}

/// The names of the placeholders met when `s` is read from position `i` on,
/// left to right, each placeholder being passed over once it is found.
pub open spec fn names_from(s: Seq<char>, i: int) -> Set<Seq<char>>
    decreases s.len() - i,
{
    if i >= s.len() {
        Set::empty()
    } else {
        match token_at(s, i) {
            Some(t) => names_from(s, t.end).insert(token_name(s, t)),
            None => names_from(s, i + 1),
        }
    }
}

/// The set of variables that the template `s` refers to.
pub open spec fn variable_set(s: Seq<char>) -> Set<Seq<char>> {
    names_from(s, 0)
}

/// `names` lists the variables of the template `s`: each once, in ascending
/// lexicographic order.
pub open spec fn is_variable_list(names: Seq<Seq<char>>, s: Seq<char>) -> bool {
    &&& strictly_ascending(names)
    &&& forall|name: Seq<char>| names.contains(name) <==> variable_set(s).contains(name)
}

/// The variables of the template `s` in ascending lexicographic order.
pub open spec fn variable_list(s: Seq<char>) -> Seq<Seq<char>> {
    choose|names: Seq<Seq<char>>| is_variable_list(names, s)
}

/// `list` with `name` put at its place, unless it is there.
spec fn with_name(list: Seq<Seq<char>>, name: Seq<char>) -> Seq<Seq<char>>
    decreases list.len(),
{
    if list.len() == 0 {
        seq![name]
    } else if list[0] == name {
        list
    } else if precedes(name, list[0]) {
        seq![name] + list
    } else {
        seq![list[0]] + with_name(list.drop_first(), name)
    }
}

/// The ascending list of the names met from position `i` on.
spec fn list_from(s: Seq<char>, i: int) -> Seq<Seq<char>>
    decreases s.len() - i,
{
    if i >= s.len() {
        Seq::empty()
    } else {
        match token_at(s, i) {
            Some(t) => with_name(list_from(s, t.end), token_name(s, t)),
            None => list_from(s, i + 1),
        }
    }
}

proof fn lemma_with_name(list: Seq<Seq<char>>, name: Seq<char>)
    requires
        strictly_ascending(list),
    ensures
        strictly_ascending(with_name(list, name)),
        forall|x: Seq<char>|
            #![trigger with_name(list, name).contains(x)]
            #![trigger list.contains(x)]
            with_name(list, name).contains(x) <==> (list.contains(x) || x == name),
    decreases list.len(),
{
    let out = with_name(list, name);
    if list.len() == 0 {
        assert(out[0] == name);
    } else if list[0] == name {
        assert(list.contains(name));
    } else if precedes(name, list[0]) {
        assert forall|i: int, j: int| 0 <= i < j < out.len() implies precedes(out[i], out[j]) by {
            if i == 0 {
                if j > 1 {
                    lemma_precedes_transitive(name, list[0], list[j - 1]);
                }
            } else {
                assert(precedes(list[i - 1], list[j - 1]));
            }
        }
        assert forall|x: Seq<char>| out.contains(x) <==> (list.contains(x) || x == name) by {
            if out.contains(x) {
                let k = choose|k: int| 0 <= k < out.len() && out[k] == x;
                if k > 0 {
                    assert(list[k - 1] == x);
                }
            }
            if list.contains(x) {
                let k = choose|k: int| 0 <= k < list.len() && list[k] == x;
                assert(out[k + 1] == x);
            }
            if x == name {
                assert(out[0] == x);
            }
        }
    } else {
        let tail = list.drop_first();
        let rest = with_name(tail, name);
        assert(strictly_ascending(tail)) by {
            assert forall|i: int, j: int| 0 <= i < j < tail.len() implies precedes(
                tail[i],
                tail[j],
            ) by {
                assert(precedes(list[i + 1], list[j + 1]));
            }
        }
        lemma_with_name(tail, name);
        lemma_precedes_total(name, list[0]);
        assert forall|i: int, j: int| 0 <= i < j < out.len() implies precedes(out[i], out[j]) by {
            if i == 0 {
                let x = rest[j - 1];
                assert(rest.contains(x));
                if tail.contains(x) {
                    let k = choose|k: int| 0 <= k < tail.len() && tail[k] == x;
                    assert(precedes(list[0], list[k + 1]));
                }
            } else {
                assert(precedes(rest[i - 1], rest[j - 1]));
            }
        }
        assert forall|x: Seq<char>| out.contains(x) <==> (list.contains(x) || x == name) by {
            if out.contains(x) {
                let k = choose|k: int| 0 <= k < out.len() && out[k] == x;
                if k > 0 {
                    assert(rest[k - 1] == x);
                    assert(rest.contains(x));
                    if tail.contains(x) {
                        let m = choose|m: int| 0 <= m < tail.len() && tail[m] == x;
                        assert(list[m + 1] == x);
                    }
                } else {
                    assert(list[0] == x);
                }
            }
            if list.contains(x) {
                let k = choose|k: int| 0 <= k < list.len() && list[k] == x;
                if k == 0 {
                    assert(out[0] == x);
                } else {
                    assert(tail[k - 1] == x);
                    assert(tail.contains(x));
                    assert(rest.contains(x));
                    let m = choose|m: int| 0 <= m < rest.len() && rest[m] == x;
                    assert(out[m + 1] == x);
                }
            }
            if x == name {
                assert(rest.contains(x));
                let m = choose|m: int| 0 <= m < rest.len() && rest[m] == x;
                assert(out[m + 1] == x);
            }
        }
    }
}

proof fn lemma_list_from(s: Seq<char>, i: int)
    ensures
        strictly_ascending(list_from(s, i)),
        forall|x: Seq<char>|
            #![trigger list_from(s, i).contains(x)]
            #![trigger names_from(s, i).contains(x)]
            list_from(s, i).contains(x) <==> names_from(s, i).contains(x),
    decreases s.len() - i,
{
    if i < s.len() {
        match token_at(s, i) {
            Some(t) => {
                let rest = list_from(s, t.end);
                let name = token_name(s, t);
                lemma_list_from(s, t.end);
                lemma_with_name(rest, name);
                assert forall|x: Seq<char>|
                    with_name(rest, name).contains(x) <==> names_from(s, t.end).insert(
                        name,
                    ).contains(x) by {
                    if x != name {
                        assert(rest.contains(x) <==> names_from(s, t.end).contains(x));
                    }
                }
            },
            None => {
                lemma_list_from(s, i + 1);
            },
        }
    }
}

/// The variable list of a template is what its definition asks for: the
/// members of the variable set, each once, in ascending order. No other
/// list is.
pub proof fn lemma_variable_list(s: Seq<char>)
    ensures
        is_variable_list(variable_list(s), s),
        forall|names: Seq<Seq<char>>| is_variable_list(names, s) ==> names == variable_list(s),
{
    lemma_list_from(s, 0);
    assert(is_variable_list(list_from(s, 0), s));
    assert forall|names: Seq<Seq<char>>| is_variable_list(names, s) implies names
        == variable_list(s) by {
        lemma_ascending_unique(names, variable_list(s));
    }
}

/// The end of the white space that starts at `from`.
fn skip_spaces(chars: &Vec<char>, from: usize) -> (to: usize)
    requires
        from <= chars.len(),
    ensures
        to == from + space_run(chars@, from as int),
        to <= chars.len(),
{
    let mut j: usize = from;
    while j < chars.len() && char_is_space(chars[j])
        invariant
            from <= j <= chars.len(),
            from + space_run(chars@, from as int) == j + space_run(chars@, j as int),
        decreases chars.len() - j,
    {
        j += 1;
    }
    j
}

/// The end of the name characters that start at `from`.
fn skip_name(chars: &Vec<char>, from: usize) -> (to: usize)
    requires
        from <= chars.len(),
    ensures
        to == from + name_run(chars@, from as int),
        to <= chars.len(),
{
    let mut j: usize = from;
    while j < chars.len() && char_is_name(chars[j])
        invariant
            from <= j <= chars.len(),
            from + name_run(chars@, from as int) == j + name_run(chars@, j as int),
        decreases chars.len() - j,
    {
        j += 1;
    }
    j
}

/// Whether `chars[i]` and `chars[i + 1]` both hold `c`.
fn has_pair(chars: &Vec<char>, i: usize, c: char) -> (b: bool)
    requires
        i <= chars.len(),
    ensures
        b == pair_at(chars@, i as int, c),
{
    i < chars.len() && chars.len() - i >= 2 && chars[i] == c && chars[i + 1] == c
}

/// The placeholder that starts at `chars[i]`, if one does, as the bounds of
/// its name and its own end.
pub fn match_token(chars: &Vec<char>, i: usize) -> (found: Option<(usize, usize, usize)>)
    requires
        i <= chars.len(),
    ensures
        match found {
            Some((a, b, e)) => token_at(chars@, i as int) == Some(
                Token { name_start: a as int, name_end: b as int, end: e as int },
            ) && i + 2 <= a < b <= e - 2 && e <= chars.len(),
            None => token_at(chars@, i as int).is_none(),
        },
{
    if !has_pair(chars, i, '{') {
        return None;
    }
    let a = skip_spaces(chars, i + 2);
    let b = skip_name(chars, a);
    let c = skip_spaces(chars, b);
    if a < b && has_pair(chars, c, '}') {
        Some((a, b, c + 2))
    } else {
        None
    }
}

/// Puts `name` at its place in the ascending list `names`, unless it is there.
fn insert_name(names: &mut Vec<Vec<char>>, name: Vec<char>)
    requires
        strictly_ascending(old(names)@.map_values(|n: Vec<char>| n@)),
    ensures
        strictly_ascending(final(names)@.map_values(|n: Vec<char>| n@)),
        final(names)@.map_values(|n: Vec<char>| n@).to_set() == old(names)@.map_values(
            |n: Vec<char>| n@,
        ).to_set().insert(name@),
{
    let ghost before = names@.map_values(|n: Vec<char>| n@);
    let mut k: usize = 0;
    while k < names.len()
        invariant
            k <= names.len(),
            names@ == old(names)@,
            before == names@.map_values(|n: Vec<char>| n@),
            strictly_ascending(before),
            forall|j: int| 0 <= j < k ==> precedes(#[trigger] before[j], name@),
        ensures
            k < names.len() ==> precedes(name@, before[k as int]),
        decreases names.len() - k,
    {
        match rank(&names[k], &name) {
            Rank::Before => {
                assert(before[k as int] == names@[k as int]@);
            },
            Rank::Same => {
                proof {
                    assert(before[k as int] == name@);
                    assert(before.to_set().contains(name@));
                    assert(before.to_set().insert(name@) =~= before.to_set());
                }
                return ;
            },
            Rank::After => {
                assert(before[k as int] == names@[k as int]@);
                break ;
            },
        }
        k += 1;
    }
    names.insert(k, name);
    proof {
        let after = names@.map_values(|n: Vec<char>| n@);
        assert(after =~= before.insert(k as int, name@));
        assert forall|i: int, j: int| 0 <= i < j < after.len() implies precedes(
            after[i],
            after[j],
        ) by {
            if j < k {
                assert(after[i] == before[i] && after[j] == before[j]);
            } else if j == k {
                assert(after[i] == before[i]);
            } else if i == k {
                assert(after[j] == before[j - 1]);
                if j - 1 > k {
                    lemma_precedes_transitive(name@, before[k as int], before[j - 1]);
                }
            } else if i < k {
                assert(after[i] == before[i] && after[j] == before[j - 1]);
            } else {
                assert(after[i] == before[i - 1] && after[j] == before[j - 1]);
            }
        }
        assert forall|n: Seq<char>| after.to_set().contains(n) <==> before.to_set().insert(
            name@,
        ).contains(n) by {
            if after.contains(n) {
                let i = choose|i: int| 0 <= i < after.len() && after[i] == n;
                if i < k {
                    assert(before[i] == n);
                } else if i > k {
                    assert(before[i - 1] == n);
                }
            }
            if before.contains(n) {
                let i = choose|i: int| 0 <= i < before.len() && before[i] == n;
                if i < k {
                    assert(after[i] == n);
                } else {
                    assert(after[i + 1] == n);
                }
            }
            if n == name@ {
                assert(after[k as int] == n);
            }
        }
        assert(after.to_set() =~= before.to_set().insert(name@));
    }
}

/// Lists the variables of `template`: the distinct names of its
/// placeholders, in ascending lexicographic order.
pub fn variables(template: &str) -> (names: Vec<String>)
    ensures
        views(names@) == variable_list(template@),
{
    let chars = chars_of(template);
    let mut found: Vec<Vec<char>> = Vec::new();
    let mut i: usize = 0;
    assert(found@.map_values(|n: Vec<char>| n@).to_set() =~= Set::empty());
    while i < chars.len()
        invariant
            i <= chars.len(),
            chars@ == template@,
            strictly_ascending(found@.map_values(|n: Vec<char>| n@)),
            variable_set(chars@) == found@.map_values(|n: Vec<char>| n@).to_set().union(
                names_from(chars@, i as int),
            ),
        decreases chars.len() - i,
    {
        match match_token(&chars, i) {
            Some((a, b, e)) => {
                let name = slice_of(&chars, a, b);
                let ghost seen = found@.map_values(|n: Vec<char>| n@).to_set();
                insert_name(&mut found, name);
                proof {
                    let rest = names_from(chars@, e as int);
                    assert(seen.union(rest.insert(name@)) =~= seen.insert(name@).union(rest));
                }
                i = e;
            },
            None => {
                i += 1;
            },
        }
    }
    let mut names: Vec<String> = Vec::new();
    let mut k: usize = 0;
    while k < found.len()
        invariant
            k <= found.len(),
            names@.len() == k,
            forall|j: int| 0 <= j < k ==> (#[trigger] names@[j])@ == found@[j]@,
        decreases found.len() - k,
    {
        let n = string_of(&found[k], 0, found[k].len());
        proof {
            assert(found@[k as int]@.subrange(0, found@[k as int]@.len() as int) =~= found@[k as int]@);
        }
        names.push(n);
        k += 1;
    }
    proof {
        assert(views(names@) =~= found@.map_values(|n: Vec<char>| n@));
        assert(names_from(chars@, i as int) =~= Set::empty());
        assert(variable_set(chars@) =~= views(names@).to_set());
        lemma_variable_list(template@);
        assert(is_variable_list(views(names@), template@));
    }
    names
}

/// A copy of `chars[from..to]`.
fn slice_of(chars: &Vec<char>, from: usize, to: usize) -> (out: Vec<char>)
    requires
        from <= to <= chars.len(),
    ensures
        out@ == chars@.subrange(from as int, to as int),
{
    let mut out: Vec<char> = Vec::new();
    let mut i: usize = from;
    while i < to
        invariant
            from <= i <= to <= chars.len(),
            out@ == chars@.subrange(from as int, i as int),
        decreases to - i,
    {
        out.push(chars[i]);
        i += 1;
    }
    out
}

} // verus!
