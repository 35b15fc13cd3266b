//! What follows from the placeholder grammar: where placeholders can lie,
//! how the variables of a text are made up of those of its parts, and what
//! is left to scan in a rendered text.

use crate::render::{render_from, rendered, total_over};
use crate::scan::{
    name_run, names_from, pair_at, space_run, token_at, token_name, variable_set, Token,
};
use crate::text::{is_name_char, is_space};
use vstd::prelude::*;

verus! {

/// Every character of `s` is white space.
pub open spec fn all_spaces(s: Seq<char>) -> bool {
    forall|i: int| 0 <= i < s.len() ==> is_space(#[trigger] s[i])
}

/// `s` is a variable name: one or more name characters.
pub open spec fn is_name(s: Seq<char>) -> bool {
    s.len() > 0 && forall|i: int| 0 <= i < s.len() ==> is_name_char(#[trigger] s[i])
}

/// The placeholder for `name` with the white space `before` and `after`
/// around the name.
pub open spec fn placeholder(before: Seq<char>, name: Seq<char>, after: Seq<char>) -> Seq<char> {
    seq!['{', '{'] + before + name + after + seq!['}', '}']
}

/// `c` is a brace, opening or closing.
pub open spec fn is_brace(c: char) -> bool {
    c == '{' || c == '}'
}

/// `s` does not hold the character `c`.
pub open spec fn lacks(s: Seq<char>, c: char) -> bool {
    forall|i: int| 0 <= i < s.len() ==> #[trigger] s[i] != c
}

/// From position `i` on, `s` holds the character `c` in its placeholders
/// only.
pub open spec fn only_in_placeholders(s: Seq<char>, c: char, i: int) -> bool
    decreases s.len() - i,
{
    if i < 0 || i >= s.len() {
        true
    } else {
        match token_at(s, i) {
            Some(t) => only_in_placeholders(s, c, t.end),
            None => s[i] != c && only_in_placeholders(s, c, i + 1),
        }
    }
}

/// `s2` holds at `k + d` what `s` holds at `k`, for every `k` from `lo` up
/// to `hi`.
pub open spec fn same_stretch(s: Seq<char>, s2: Seq<char>, d: int, lo: int, hi: int) -> bool {
    &&& 0 <= lo <= hi <= s.len()
    &&& 0 <= lo + d
    &&& hi + d <= s2.len()
    &&& forall|k: int| lo <= k < hi ==> s[k] == #[trigger] s2[k + d]
}

proof fn lemma_space_run_chars(s: Seq<char>, i: int)
    requires
        0 <= i,
    ensures
        i + space_run(s, i) <= s.len() || space_run(s, i) == 0,
        forall|k: int| i <= k < i + space_run(s, i) ==> is_space(#[trigger] s[k]),
        i + space_run(s, i) < s.len() ==> !is_space(s[i + space_run(s, i)]),
    decreases s.len() - i,
{
    if i < s.len() && is_space(s[i]) {
        lemma_space_run_chars(s, i + 1);
    }
}

proof fn lemma_name_run_chars(s: Seq<char>, i: int)
    requires
        0 <= i,
    ensures
        i + name_run(s, i) <= s.len() || name_run(s, i) == 0,
        forall|k: int| i <= k < i + name_run(s, i) ==> is_name_char(#[trigger] s[k]),
        i + name_run(s, i) < s.len() ==> !is_name_char(s[i + name_run(s, i)]),
    decreases s.len() - i,
{
    if i < s.len() && is_name_char(s[i]) {
        lemma_name_run_chars(s, i + 1);
    }
}

proof fn lemma_space_run_exact(s: Seq<char>, i: int, n: nat)
    requires
        0 <= i,
        i + n <= s.len(),
        forall|k: int| i <= k < i + n ==> is_space(#[trigger] s[k]),
        i + n < s.len() ==> !is_space(s[i + n]),
    ensures
        space_run(s, i) == n,
    decreases n,
{
    if n > 0 {
        lemma_space_run_exact(s, i + 1, (n - 1) as nat);
    }
}

proof fn lemma_name_run_exact(s: Seq<char>, i: int, n: nat)
    requires
        0 <= i,
        i + n <= s.len(),
        forall|k: int| i <= k < i + n ==> is_name_char(#[trigger] s[k]),
        i + n < s.len() ==> !is_name_char(s[i + n]),
    ensures
        name_run(s, i) == n,
    decreases n,
{
    if n > 0 {
        lemma_name_run_exact(s, i + 1, (n - 1) as nat);
    }
}

/// Inside a placeholder, after its opening pair, there is no opening brace;
/// and the placeholder ends inside the text.
pub proof fn lemma_token_interior(s: Seq<char>, i: int)
    requires
        token_at(s, i).is_some(),
    ensures
        i + 5 <= token_at(s, i).unwrap().end <= s.len(),
        forall|k: int| i + 2 <= k < token_at(s, i).unwrap().end ==> #[trigger] s[k] != '{',
{
    let t = token_at(s, i).unwrap();
    lemma_space_run_chars(s, i + 2);
    lemma_name_run_chars(s, t.name_start);
    lemma_space_run_chars(s, t.name_end);
}

/// A placeholder is a placeholder wherever the same characters stand.
pub proof fn lemma_token_transfer(s: Seq<char>, i: int, s2: Seq<char>, d: int)
    requires
        token_at(s, i).is_some(),
        same_stretch(s, s2, d, i, token_at(s, i).unwrap().end),
    ensures
        token_at(s2, i + d) == Some(
            Token {
                name_start: token_at(s, i).unwrap().name_start + d,
                name_end: token_at(s, i).unwrap().name_end + d,
                end: token_at(s, i).unwrap().end + d,
            },
        ),
        token_name(s2, token_at(s2, i + d).unwrap()) == token_name(s, token_at(s, i).unwrap()),
{
    let t = token_at(s, i).unwrap();
    let close = t.end - 2;
    lemma_space_run_chars(s, i + 2);
    lemma_name_run_chars(s, t.name_start);
    lemma_space_run_chars(s, t.name_end);
    assert(s2[i + d] == s[i]);
    assert(s2[i + 1 + d] == s[i + 1]);
    assert(s2[close + d] == s[close]);
    assert(s2[close + 1 + d] == s[close + 1]);
    assert forall|k: int| i + 2 + d <= k < t.name_start + d implies is_space(#[trigger] s2[k]) by {
        assert(s2[(k - d) + d] == s[k - d]);
    }
    assert(s2[t.name_start + d] == s[t.name_start]);
    lemma_space_run_exact(s2, i + 2 + d, (t.name_start - (i + 2)) as nat);
    assert forall|k: int| t.name_start + d <= k < t.name_end + d implies is_name_char(
        #[trigger] s2[k],
    ) by {
        assert(s2[(k - d) + d] == s[k - d]);
    }
    assert(s2[t.name_end + d] == s[t.name_end]);
    lemma_name_run_exact(s2, t.name_start + d, (t.name_end - t.name_start) as nat);
    assert forall|k: int| t.name_end + d <= k < close + d implies is_space(#[trigger] s2[k]) by {
        assert(s2[(k - d) + d] == s[k - d]);
    }
    lemma_space_run_exact(s2, t.name_end + d, (close - t.name_end) as nat);
    let t2 = token_at(s2, i + d).unwrap();
    assert forall|k: int| 0 <= k < t.name_end - t.name_start implies token_name(s2, t2)[k]
        == token_name(s, t)[k] by {
        assert(s2[(t.name_start + k) + d] == s[t.name_start + k]);
    }
    assert(token_name(s2, t2) =~= token_name(s, t));
}

/// The variables met in a text from some position on are those met in the
/// tail that starts there.
pub proof fn lemma_names_of_tail(pre: Seq<char>, tail: Seq<char>, i: int)
    requires
        0 <= i,
    ensures
        names_from(pre + tail, pre.len() + i) == names_from(tail, i),
    decreases tail.len() - i,
{
    let s = pre + tail;
    let d = pre.len() as int;
    if i < tail.len() {
        assert forall|k: int| 0 <= k < tail.len() implies #[trigger] s[k + d] == tail[k] by {}
        if token_at(tail, i).is_some() {
            let t = token_at(tail, i).unwrap();
            lemma_token_interior(tail, i);
            lemma_token_transfer(tail, i, s, d);
            lemma_names_of_tail(pre, tail, t.end);
        } else if token_at(s, i + d).is_some() {
            let t = token_at(s, i + d).unwrap();
            lemma_token_interior(s, i + d);
            assert forall|k: int| i + d <= k < t.end implies s[k] == #[trigger] tail[k + (-d)] by {
                assert(s[(k - d) + d] == tail[k - d]);
            }
            lemma_token_transfer(s, i + d, tail, -d);
        } else {
            lemma_names_of_tail(pre, tail, i + 1);
        }
    }
}

/// Whether `tail` is empty or starts with an opening pair.
pub open spec fn starts_clean(tail: Seq<char>) -> bool {
    tail.len() == 0 || pair_at(tail, 0, '{')
}

proof fn lemma_names_split_from(pre: Seq<char>, tail: Seq<char>, i: int)
    requires
        0 <= i <= pre.len(),
        starts_clean(tail),
    ensures
        names_from(pre + tail, i) == names_from(pre, i).union(variable_set(tail)),
    decreases pre.len() - i,
{
    let s = pre + tail;
    let m = pre.len() as int;
    if i == m {
        lemma_names_of_tail(pre, tail, 0);
        assert(names_from(pre, i) =~= Set::empty());
        assert(names_from(s, i) =~= names_from(pre, i).union(variable_set(tail)));
    } else {
        assert forall|k: int| 0 <= k < m implies #[trigger] s[k + 0] == pre[k] by {}
        assert forall|k: int| 0 <= k < m implies pre[k] == #[trigger] s[k + 0] by {}
        if token_at(pre, i).is_some() {
            let t = token_at(pre, i).unwrap();
            lemma_token_interior(pre, i);
            lemma_token_transfer(pre, i, s, 0);
            lemma_names_split_from(pre, tail, t.end);
            assert(names_from(s, i) =~= names_from(pre, i).union(variable_set(tail)));
        } else if token_at(s, i).is_some() {
            let t = token_at(s, i).unwrap();
            lemma_token_interior(s, i);
            assert(tail.len() > 0);
            assert(s[m] == tail[0] && s[m + 1] == tail[1]);
            if i + 1 == m {
                assert(s[i + 2] != '{');
                assert(false);
            }
            if t.end > m {
                assert(s[m] != '{');
                assert(false);
            }
            lemma_token_transfer(s, i, pre, 0);
            assert(false);
        } else {
            lemma_names_split_from(pre, tail, i + 1);
        }
    }
}

/// The variables of a text that is cut before an opening pair are those of
/// the two parts.
pub proof fn lemma_names_split(pre: Seq<char>, tail: Seq<char>)
    requires
        starts_clean(tail),
    ensures
        variable_set(pre + tail) == variable_set(pre).union(variable_set(tail)),
{
    lemma_names_split_from(pre, tail, 0);
}

/// A placeholder followed by any text is found at its start, with its name,
/// whatever white space surrounds the name.
pub proof fn lemma_placeholder_found(
    before: Seq<char>,
    name: Seq<char>,
    after: Seq<char>,
    rest: Seq<char>,
)
    requires
        all_spaces(before),
        is_name(name),
        all_spaces(after),
    ensures
        token_at(placeholder(before, name, after) + rest, 0) == Some(
            Token {
                name_start: 2 + before.len() as int,
                name_end: 2 + before.len() as int + name.len() as int,
                end: placeholder(before, name, after).len() as int,
            },
        ),
        token_name(
            placeholder(before, name, after) + rest,
            token_at(placeholder(before, name, after) + rest, 0).unwrap(),
        ) == name,
        variable_set(placeholder(before, name, after) + rest) == variable_set(rest).insert(name),
{
    let p = placeholder(before, name, after);
    let s = p + rest;
    let a = 2 + before.len() as int;
    let b = a + name.len() as int;
    let c = b + after.len() as int;
    assert(p.len() == c + 2);
    assert(s[0] == '{' && s[1] == '{');
    assert forall|k: int| 2 <= k < a implies is_space(#[trigger] s[k]) by {
        assert(s[k] == before[k - 2]);
    }
    assert forall|k: int| a <= k < b implies is_name_char(#[trigger] s[k]) by {
        assert(s[k] == name[k - a]);
    }
    assert forall|k: int| b <= k < c implies is_space(#[trigger] s[k]) by {
        assert(s[k] == after[k - b]);
    }
    assert(s[c] == '}' && s[c + 1] == '}');
    assert(s[a] == name[0]);
    assert(!is_space(s[a]));
    if after.len() > 0 {
        assert(s[b] == after[0]);
    }
    assert(!is_name_char(s[b]));
    lemma_space_run_exact(s, 2, before.len());
    lemma_name_run_exact(s, a, name.len());
    lemma_space_run_exact(s, b, after.len());
    let t = token_at(s, 0).unwrap();
    assert(token_name(s, t) =~= name);
    lemma_names_of_tail(p, rest, 0);
}

/// The variable that a placeholder names does not depend on the white space
/// inside it: wherever the placeholder stands in a text, the text's
/// variables are those of what comes before, the name, and those of what
/// comes after.
pub proof fn lemma_whitespace_insensitive(
    pre: Seq<char>,
    before: Seq<char>,
    name: Seq<char>,
    after: Seq<char>,
    post: Seq<char>,
)
    requires
        all_spaces(before),
        is_name(name),
        all_spaces(after),
    ensures
        variable_set(pre + placeholder(before, name, after) + post) == variable_set(pre).union(
            variable_set(post),
        ).insert(name),
        variable_set(pre + placeholder(before, name, after) + post) == variable_set(
            pre + placeholder(Seq::empty(), name, Seq::empty()) + post,
        ),
{
    let p = placeholder(before, name, after);
    let q = placeholder(Seq::empty(), name, Seq::empty());
    lemma_placeholder_found(before, name, after, post);
    lemma_placeholder_found(Seq::empty(), name, Seq::empty(), post);
    assert((p + post)[0] == '{' && (p + post)[1] == '{');
    assert((q + post)[0] == '{' && (q + post)[1] == '{');
    lemma_names_split(pre, p + post);
    lemma_names_split(pre, q + post);
    assert(pre + p + post =~= pre + (p + post));
    assert(pre + q + post =~= pre + (q + post));
    assert(variable_set(pre).union(variable_set(post).insert(name)) =~= variable_set(pre).union(
        variable_set(post),
    ).insert(name));
}

/// The scan passes over no placeholder: one that starts at or behind the
/// position from which the text is read is met, and its name is among the
/// names found.
pub proof fn lemma_placeholder_is_met(s: Seq<char>, i: int, p: int)
    requires
        i <= p,
        token_at(s, p).is_some(),
    ensures
        names_from(s, i).contains(token_name(s, token_at(s, p).unwrap())),
    decreases s.len() - i,
{
    lemma_token_interior(s, p);
    if i < p {
        match token_at(s, i) {
            Some(t) => {
                lemma_token_interior(s, i);
                if t.end > p {
                    if p == i + 1 {
                        assert(s[i + 2] != '{');
                    } else {
                        assert(s[p] != '{');
                    }
                    assert(false);
                }
                lemma_placeholder_is_met(s, t.end, p);
            },
            None => {
                lemma_placeholder_is_met(s, i + 1, p);
            },
        }
    }
}

proof fn lemma_names_are_placeholder_names(s: Seq<char>, i: int, name: Seq<char>)
    requires
        names_from(s, i).contains(name),
    ensures
        exists|p: int| #[trigger] token_at(s, p).is_some() && token_name(s, token_at(s, p).unwrap()) == name,
    decreases s.len() - i,
{
    if i < s.len() {
        match token_at(s, i) {
            Some(t) => {
                if token_name(s, t) != name {
                    lemma_names_are_placeholder_names(s, t.end, name);
                }
            },
            None => {
                lemma_names_are_placeholder_names(s, i + 1, name);
            },
        }
    }
}

/// The variables of a text are the names of its placeholders, wherever
/// these stand: no placeholder is missed, and nothing else is taken for one.
pub proof fn lemma_variables_are_placeholder_names(s: Seq<char>, name: Seq<char>)
    ensures
        variable_set(s).contains(name) <==> exists|p: int| #[trigger]
            token_at(s, p).is_some() && token_name(s, token_at(s, p).unwrap()) == name,
{
    if variable_set(s).contains(name) {
        lemma_names_are_placeholder_names(s, 0, name);
    }
    if exists|p: int| #[trigger]
        token_at(s, p).is_some() && token_name(s, token_at(s, p).unwrap()) == name {
        let p = choose|p: int| #[trigger]
            token_at(s, p).is_some() && token_name(s, token_at(s, p).unwrap()) == name;
        lemma_placeholder_is_met(s, 0, p);
    }
}

/// What a text renders to from some position on is what the tail that
/// starts there renders to.
pub proof fn lemma_render_of_tail(
    pre: Seq<char>,
    tail: Seq<char>,
    values: Map<Seq<char>, Seq<char>>,
    i: int,
)
    requires
        0 <= i,
    ensures
        render_from(pre + tail, values, pre.len() + i) == render_from(tail, values, i),
    decreases tail.len() - i,
{
    let s = pre + tail;
    let d = pre.len() as int;
    if i < tail.len() {
        assert forall|k: int| 0 <= k < tail.len() implies #[trigger] s[k + d] == tail[k] by {}
        if token_at(tail, i).is_some() {
            let t = token_at(tail, i).unwrap();
            lemma_token_interior(tail, i);
            lemma_token_transfer(tail, i, s, d);
            lemma_render_of_tail(pre, tail, values, t.end);
        } else if token_at(s, i + d).is_some() {
            let t = token_at(s, i + d).unwrap();
            lemma_token_interior(s, i + d);
            assert forall|k: int| i + d <= k < t.end implies s[k] == #[trigger] tail[k + (-d)] by {
                assert(s[(k - d) + d] == tail[k - d]);
            }
            lemma_token_transfer(s, i + d, tail, -d);
        } else {
            lemma_render_of_tail(pre, tail, values, i + 1);
        }
    }
}

proof fn lemma_render_split_from(
    pre: Seq<char>,
    tail: Seq<char>,
    values: Map<Seq<char>, Seq<char>>,
    i: int,
)
    requires
        0 <= i <= pre.len(),
        starts_clean(tail),
    ensures
        render_from(pre + tail, values, i) == render_from(pre, values, i) + rendered(tail, values),
    decreases pre.len() - i,
{
    let s = pre + tail;
    let m = pre.len() as int;
    if i == m {
        lemma_render_of_tail(pre, tail, values, 0);
        assert(render_from(pre, values, i) + rendered(tail, values) =~= rendered(tail, values));
        if tail.len() == 0 {
            assert(render_from(s, values, i) =~= rendered(tail, values));
        }
    } else {
        assert forall|k: int| 0 <= k < m implies #[trigger] s[k + 0] == pre[k] by {}
        assert forall|k: int| 0 <= k < m implies pre[k] == #[trigger] s[k + 0] by {}
        if token_at(pre, i).is_some() {
            let t = token_at(pre, i).unwrap();
            lemma_token_interior(pre, i);
            lemma_token_transfer(pre, i, s, 0);
            lemma_render_split_from(pre, tail, values, t.end);
            let v = values[token_name(pre, t)];
            assert(v + (render_from(pre, values, t.end) + rendered(tail, values)) =~= (v
                + render_from(pre, values, t.end)) + rendered(tail, values));
        } else if token_at(s, i).is_some() {
            let t = token_at(s, i).unwrap();
            lemma_token_interior(s, i);
            assert(s[m] == tail[0] && s[m + 1] == tail[1]);
            if i + 1 == m {
                assert(s[i + 2] != '{');
                assert(false);
            }
            if t.end > m {
                assert(s[m] != '{');
                assert(false);
            }
            lemma_token_transfer(s, i, pre, 0);
            assert(false);
        } else {
            lemma_render_split_from(pre, tail, values, i + 1);
            assert(s[i] == pre[i]);
            assert(seq![pre[i]] + (render_from(pre, values, i + 1) + rendered(tail, values))
                =~= (seq![pre[i]] + render_from(pre, values, i + 1)) + rendered(tail, values));
        }
    }
}

/// Every placeholder gives way to the value of its name, whatever white
/// space surrounds the name, and what stands before and after it renders as
/// it would alone.
pub proof fn lemma_render_around_placeholder(
    pre: Seq<char>,
    before: Seq<char>,
    name: Seq<char>,
    after: Seq<char>,
    post: Seq<char>,
    values: Map<Seq<char>, Seq<char>>,
)
    requires
        all_spaces(before),
        is_name(name),
        all_spaces(after),
    ensures
        rendered(pre + placeholder(before, name, after) + post, values) == rendered(pre, values)
            + values[name] + rendered(post, values),
{
    let p = placeholder(before, name, after);
    lemma_placeholder_found(before, name, after, post);
    assert((p + post)[0] == '{' && (p + post)[1] == '{');
    lemma_render_split_from(pre, p + post, values, 0);
    lemma_render_of_tail(p, post, values, 0);
    assert(pre + p + post =~= pre + (p + post));
    assert(rendered(pre, values) + (values[name] + rendered(post, values)) =~= rendered(
        pre,
        values,
    ) + values[name] + rendered(post, values));
}

/// A text that lacks one of the two braces renders to itself.
pub proof fn lemma_render_plain(s: Seq<char>, c: char, values: Map<Seq<char>, Seq<char>>)
    requires
        is_brace(c),
        lacks(s, c),
    ensures
        rendered(s, values) == s,
{
    lemma_plain_without_brace(s, c);
    lemma_render_untouched(s, values, 0);
    assert(s.subrange(0, s.len() as int) =~= s);
}

proof fn lemma_render_untouched(s: Seq<char>, values: Map<Seq<char>, Seq<char>>, i: int)
    requires
        0 <= i <= s.len(),
        forall|p: int| token_at(s, p).is_none(),
    ensures
        render_from(s, values, i) == s.subrange(i, s.len() as int),
    decreases s.len() - i,
{
    if i < s.len() {
        lemma_render_untouched(s, values, i + 1);
        assert(seq![s[i]] + s.subrange(i + 1, s.len() as int) =~= s.subrange(i, s.len() as int));
    } else {
        assert(s.subrange(i, s.len() as int) =~= Seq::<char>::empty());
    }
}

/// A text that lacks one of the two braces holds no placeholder and has no
/// variable.
pub proof fn lemma_plain_without_brace(s: Seq<char>, c: char)
    requires
        is_brace(c),
        lacks(s, c),
    ensures
        forall|p: int| token_at(s, p).is_none(),
        variable_set(s) == Set::<Seq<char>>::empty(),
{
    assert forall|p: int| token_at(s, p).is_none() by {
        if token_at(s, p).is_some() {
            let t = token_at(s, p).unwrap();
            assert(s[p] != c);
            assert(s[t.end - 2] != c);
        }
    }
    lemma_no_token_no_names(s, 0);
}

proof fn lemma_no_token_no_names(s: Seq<char>, i: int)
    requires
        forall|p: int| token_at(s, p).is_none(),
    ensures
        names_from(s, i) == Set::<Seq<char>>::empty(),
    decreases s.len() - i,
{
    if i < s.len() {
        lemma_no_token_no_names(s, i + 1);
    }
}

proof fn lemma_render_lacks(s: Seq<char>, values: Map<Seq<char>, Seq<char>>, c: char, i: int)
    requires
        only_in_placeholders(s, c, i),
        forall|name: Seq<char>| #[trigger]
            names_from(s, i).contains(name) ==> values.contains_key(name),
        forall|name: Seq<char>| #[trigger] values.contains_key(name) ==> lacks(values[name], c),
    ensures
        lacks(render_from(s, values, i), c),
    decreases s.len() - i,
{
    if 0 <= i < s.len() {
        match token_at(s, i) {
            Some(t) => {
                let name = token_name(s, t);
                assert(names_from(s, i).contains(name));
                assert forall|n: Seq<char>| #[trigger]
                    names_from(s, t.end).contains(n) implies values.contains_key(n) by {
                    assert(names_from(s, i).contains(n));
                }
                lemma_render_lacks(s, values, c, t.end);
                assert(lacks(values[name], c));
            },
            None => {
                assert forall|n: Seq<char>| #[trigger]
                    names_from(s, i + 1).contains(n) implies values.contains_key(n) by {
                    assert(names_from(s, i).contains(n));
                }
                lemma_render_lacks(s, values, c, i + 1);
            },
        }
    }
}

/// Rendering leaves no placeholder behind, and nothing to scan, where one
/// of the two braces occurs in the template in its placeholders only and in
/// no bound value.
pub proof fn lemma_rendered_is_plain(s: Seq<char>, values: Map<Seq<char>, Seq<char>>, c: char)
    requires
        is_brace(c),
        total_over(values, s),
        only_in_placeholders(s, c, 0),
        forall|name: Seq<char>| #[trigger] values.contains_key(name) ==> lacks(values[name], c),
    ensures
        lacks(rendered(s, values), c),
        forall|p: int| token_at(rendered(s, values), p).is_none(),
        variable_set(rendered(s, values)) == Set::<Seq<char>>::empty(),
{
    lemma_render_lacks(s, values, c, 0);
    lemma_plain_without_brace(rendered(s, values), c);
}

} // verus!
