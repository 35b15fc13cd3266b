//! The lexicographic order on character sequences, which fixes the order in
//! which variable names are listed and asked for.

use vstd::prelude::*;

verus! {

/// `a` comes strictly before `b` in lexicographic order: at the first
/// position where they differ `a` holds the smaller character, or `a` is a
/// proper prefix of `b`.
pub open spec fn precedes(a: Seq<char>, b: Seq<char>) -> bool
    decreases a.len(),
{
    if b.len() == 0 {
        false
    } else if a.len() == 0 {
        true
    } else if a[0] != b[0] {
        a[0] < b[0]
    } else {
        precedes(a.drop_first(), b.drop_first())
    }
}

/// Each name comes strictly before every later one, so none occurs twice.
pub open spec fn strictly_ascending(names: Seq<Seq<char>>) -> bool {
    forall|i: int, j: int| 0 <= i < j < names.len() ==> precedes(names[i], names[j])
}

/// How two character sequences stand to each other.
#[derive(Clone, Copy, Debug, PartialEq, Eq)]
pub enum Rank {
    Before,
    Same,
    After,
}

/// No sequence comes before itself.
pub proof fn lemma_precedes_irreflexive(a: Seq<char>)
    ensures
        !precedes(a, a),
    decreases a.len(),
{
    if a.len() > 0 {
        lemma_precedes_irreflexive(a.drop_first());
    }
}

/// The order is transitive.
pub proof fn lemma_precedes_transitive(a: Seq<char>, b: Seq<char>, c: Seq<char>)
    requires
        precedes(a, b),
        precedes(b, c),
    ensures
        precedes(a, c),
    decreases a.len(),
{
    if a.len() > 0 && b.len() > 0 && c.len() > 0 && a[0] == b[0] && b[0] == c[0] {
        lemma_precedes_transitive(a.drop_first(), b.drop_first(), c.drop_first());
    }
}

/// Of two sequences exactly one comes first, unless they are equal.
pub proof fn lemma_precedes_total(a: Seq<char>, b: Seq<char>)
    ensures
        precedes(a, b) || a == b || precedes(b, a),
        !(precedes(a, b) && precedes(b, a)),
    decreases a.len(),
{
    if a.len() > 0 && b.len() > 0 {
        if a[0] == b[0] {
            lemma_precedes_total(a.drop_first(), b.drop_first());
            if a.drop_first() == b.drop_first() {
                assert(a =~= seq![a[0]] + a.drop_first());
                assert(b =~= seq![b[0]] + b.drop_first());
            }
        }
    } else if a.len() == 0 && b.len() == 0 {
        assert(a =~= b);
    }
}

/// A strictly ascending list is fixed by the set of its members.
pub proof fn lemma_ascending_unique(x: Seq<Seq<char>>, y: Seq<Seq<char>>)
    requires
        strictly_ascending(x),
        strictly_ascending(y),
        forall|n: Seq<char>| x.contains(n) <==> y.contains(n),
    ensures
        x == y,
    decreases x.len(),
{
    if x.len() == 0 {
        if y.len() > 0 {
            assert(y.contains(y[0]));
        }
        assert(x =~= y);
    } else {
        assert(x.contains(x[0]));
        assert(y.len() > 0);
        assert(y.contains(y[0]));
        let i = choose|i: int| 0 <= i < y.len() && y[i] == x[0];
        let j = choose|j: int| 0 <= j < x.len() && x[j] == y[0];
        if i > 0 {
            if j > 0 {
                lemma_precedes_transitive(y[0], y[i], x[j]);
            }
            lemma_precedes_irreflexive(y[0]);
        }
        assert(x[0] == y[0]);
        let xt = x.drop_first();
        let yt = y.drop_first();
        assert forall|n: Seq<char>| xt.contains(n) <==> yt.contains(n) by {
            if xt.contains(n) {
                let k = choose|k: int| 0 <= k < xt.len() && xt[k] == n;
                assert(x[k + 1] == n);
                assert(x.contains(n));
                let m = choose|m: int| 0 <= m < y.len() && y[m] == n;
                if m == 0 {
                    lemma_precedes_irreflexive(n);
                }
                assert(yt[m - 1] == n);
            }
            if yt.contains(n) {
                let k = choose|k: int| 0 <= k < yt.len() && yt[k] == n;
                assert(y[k + 1] == n);
                assert(y.contains(n));
                let m = choose|m: int| 0 <= m < x.len() && x[m] == n;
                if m == 0 {
                    lemma_precedes_irreflexive(n);
                }
                assert(xt[m - 1] == n);
            }
        }
        assert(strictly_ascending(xt)) by {
            assert forall|a: int, b: int| 0 <= a < b < xt.len() implies precedes(xt[a], xt[b]) by {
                assert(precedes(x[a + 1], x[b + 1]));
            }
        }
        assert(strictly_ascending(yt)) by {
            assert forall|a: int, b: int| 0 <= a < b < yt.len() implies precedes(yt[a], yt[b]) by {
                assert(precedes(y[a + 1], y[b + 1]));
            }
        }
        lemma_ascending_unique(xt, yt);
        assert(x =~= seq![x[0]] + xt);
        assert(y =~= seq![y[0]] + yt);
    }
}

/// Compares two character vectors lexicographically.
pub fn rank(a: &Vec<char>, b: &Vec<char>) -> (r: Rank)
    ensures
        r == Rank::Before <==> precedes(a@, b@),
        r == Rank::Same <==> a@ == b@,
        r == Rank::After <==> precedes(b@, a@),
{
    let mut i: usize = 0;
    proof {
        lemma_precedes_total(a@, b@);
        lemma_precedes_irreflexive(a@);
        assert(a@.skip(0) =~= a@);
        assert(b@.skip(0) =~= b@);
    }
    while i < a.len() && i < b.len()
        invariant
            i <= a.len(),
            i <= b.len(),
            a@.subrange(0, i as int) == b@.subrange(0, i as int),
            precedes(a@, b@) == precedes(a@.skip(i as int), b@.skip(i as int)),
            precedes(b@, a@) == precedes(b@.skip(i as int), a@.skip(i as int)),
        decreases a.len() - i,
    {
        let x = a[i];
        let y = b[i];
        proof {
            assert(a@.skip(i as int).drop_first() =~= a@.skip(i + 1));
            assert(b@.skip(i as int).drop_first() =~= b@.skip(i + 1));
            assert(a@.skip(i as int)[0] == x);
            assert(b@.skip(i as int)[0] == y);
        }
        if x < y {
            assert(a@ != b@);
            return Rank::Before;
        }
        if y < x {
            assert(a@ != b@);
            return Rank::After;
        }
        proof {
            assert(a@.subrange(0, i + 1) =~= a@.subrange(0, i as int).push(x));
            assert(b@.subrange(0, i + 1) =~= b@.subrange(0, i as int).push(y));
        }
        i += 1;
    }
    if i < b.len() {
        assert(a@.skip(i as int).len() == 0);
        assert(a@ != b@);
        Rank::Before
    } else if i < a.len() {
        assert(b@.skip(i as int).len() == 0);
        assert(a@ != b@);
        Rank::After
    } else {
        assert(a@ =~= a@.subrange(0, i as int));
        assert(b@ =~= b@.subrange(0, i as int));
        Rank::Same
    }
}

} // verus!
