//! Ordered association sequences.
//!
//! Attribute collections and resource maps are modelled as sequences of
//! key/value pairs whose keys are kept in ascending lexicographic order.
//! This module defines lookup, sorted insert-or-replace, and
//! last-write-wins union on such sequences, together with the facts the
//! collection operations are proved against.

use vstd::prelude::*;

use crate::strutil::{
    lex_lt, lemma_lex_lt_asymmetric, lemma_lex_lt_irreflexive, lemma_lex_lt_transitive,
    lemma_lex_lt_trichotomy,
};

verus! {

/// Value of the first pair with key `k`, if any.
pub open spec fn assoc_get<V>(s: Seq<(Seq<char>, V)>, k: Seq<char>) -> Option<V>
    decreases s.len(),
{
    if s.len() == 0 {
        None
    } else if s[0].0 == k {
        Some(s[0].1)
    } else {
        assoc_get(s.drop_first(), k)
    }
}

/// Keys strictly ascend.
pub open spec fn sorted_keys<V>(s: Seq<(Seq<char>, V)>) -> bool {
    forall|i: int, j: int|
        0 <= i < j < s.len() ==> lex_lt(#[trigger] s[i].0, #[trigger] s[j].0)
}

/// No two pairs share a key.
pub open spec fn unique_keys<V>(s: Seq<(Seq<char>, V)>) -> bool {
    forall|i: int, j: int| 0 <= i < j < s.len() ==> (#[trigger] s[i].0) != (#[trigger] s[j].0)
}

/// Inserts `(k, v)` at its ordered position, replacing the first pair
/// with key `k` if there is one.
pub open spec fn assoc_put<V>(s: Seq<(Seq<char>, V)>, k: Seq<char>, v: V) -> Seq<(Seq<char>, V)>
    decreases s.len(),
{
    if s.len() == 0 {
        seq![(k, v)]
    } else if lex_lt(k, s[0].0) {
        seq![(k, v)] + s
    } else if k == s[0].0 {
        seq![(k, v)] + s.drop_first()
    } else {
        seq![s[0]] + assoc_put(s.drop_first(), k, v)
    }
}

/// Folds `extra` into `base` pair by pair; a key present in both ends up
/// with the value from `extra`.
pub open spec fn assoc_union<V>(
    base: Seq<(Seq<char>, V)>,
    extra: Seq<(Seq<char>, V)>,
) -> Seq<(Seq<char>, V)>
    decreases extra.len(),
{
    if extra.len() == 0 {
        base
    } else {
        assoc_union(assoc_put(base, extra[0].0, extra[0].1), extra.drop_first())
    }
}

/// Strictly ordered sequences are strictly distinct.
pub proof fn lemma_lex_lt_ne(a: Seq<char>, b: Seq<char>)
    requires
        lex_lt(a, b),
    ensures
        a != b,
{
    if a == b {
        lemma_lex_lt_irreflexive(a);
    }
}

/// Sorted keys are pairwise distinct.
pub proof fn lemma_sorted_implies_unique<V>(s: Seq<(Seq<char>, V)>)
    requires
        sorted_keys(s),
    ensures
        unique_keys(s),
{
    assert forall|i: int, j: int| 0 <= i < j < s.len() implies (#[trigger] s[i].0) != (
    #[trigger] s[j].0) by {
        lemma_lex_lt_ne(s[i].0, s[j].0);
    }
}

/// A key that appears on no pair is not found.
pub proof fn lemma_assoc_get_none<V>(s: Seq<(Seq<char>, V)>, k: Seq<char>)
    requires
        forall|j: int| 0 <= j < s.len() ==> (#[trigger] s[j].0) != k,
    ensures
        assoc_get(s, k) is None,
    decreases s.len(),
{
    if s.len() > 0 {
        lemma_assoc_get_none(s.drop_first(), k);
    }
}

/// Lookup skips any prefix of pairs whose keys differ from `k`.
pub proof fn lemma_assoc_get_skip<V>(s: Seq<(Seq<char>, V)>, i: int, k: Seq<char>)
    requires
        0 <= i <= s.len(),
        forall|j: int| 0 <= j < i ==> (#[trigger] s[j].0) != k,
    ensures
        assoc_get(s, k) == assoc_get(s.skip(i), k),
    decreases i,
{
    if i > 0 {
        assert(s.drop_first().skip(i - 1) =~= s.skip(i));
        lemma_assoc_get_skip(s.drop_first(), i - 1, k);
    } else {
        assert(s.skip(0) =~= s);
    }
}

/// Insertion passes over any prefix of pairs whose keys are below `k`.
pub proof fn lemma_assoc_put_skip<V>(s: Seq<(Seq<char>, V)>, i: int, k: Seq<char>, v: V)
    requires
        0 <= i <= s.len(),
        forall|j: int| 0 <= j < i ==> lex_lt(#[trigger] s[j].0, k),
    ensures
        assoc_put(s, k, v) == s.take(i) + assoc_put(s.skip(i), k, v),
    decreases i,
{
    if i == 0 {
        assert(s.skip(0) =~= s);
        assert(s.take(0) + assoc_put(s.skip(0), k, v) =~= assoc_put(s, k, v));
    } else {
        lemma_lex_lt_asymmetric(s[0].0, k);
        lemma_lex_lt_ne(s[0].0, k);
        assert(s.drop_first().skip(i - 1) =~= s.skip(i));
        assert(s.drop_first().take(i - 1) =~= s.take(i).drop_first());
        lemma_assoc_put_skip(s.drop_first(), i - 1, k, v);
        assert(seq![s[0]] + (s.drop_first().take(i - 1) + assoc_put(s.drop_first().skip(i - 1), k, v))
            =~= s.take(i) + assoc_put(s.skip(i), k, v));
    }
}

/// What lookup finds after an insert-or-replace.
pub proof fn lemma_assoc_put_get<V>(s: Seq<(Seq<char>, V)>, k: Seq<char>, v: V, q: Seq<char>)
    ensures
        assoc_get(assoc_put(s, k, v), q) == if q == k {
            Some(v)
        } else {
            assoc_get(s, q)
        },
    decreases s.len(),
{
    if s.len() == 0 {
        let t = assoc_put(s, k, v);
        assert(t.drop_first() =~= Seq::<(Seq<char>, V)>::empty());
    } else if lex_lt(k, s[0].0) {
        let t = seq![(k, v)] + s;
        assert(t.drop_first() =~= s);
        lemma_lex_lt_ne(k, s[0].0);
    } else if k == s[0].0 {
        let t = seq![(k, v)] + s.drop_first();
        assert(t.drop_first() =~= s.drop_first());
    } else {
        let t = seq![s[0]] + assoc_put(s.drop_first(), k, v);
        assert(t.drop_first() =~= assoc_put(s.drop_first(), k, v));
        lemma_assoc_put_get(s.drop_first(), k, v, q);
        if q == s[0].0 {
            assert(assoc_get(t, q) == Some(s[0].1));
            assert(assoc_get(s, q) == Some(s[0].1));
        } else {
            assert(assoc_get(t, q) == assoc_get(t.drop_first(), q));
            assert(assoc_get(s, q) == assoc_get(s.drop_first(), q));
        }
    }
}

/// Insert-or-replace keeps the keys sorted.
pub proof fn lemma_assoc_put_sorted<V>(s: Seq<(Seq<char>, V)>, k: Seq<char>, v: V)
    requires
        sorted_keys(s),
    ensures
        sorted_keys(assoc_put(s, k, v)),
    decreases s.len(),
{
    if s.len() == 0 {
    } else if lex_lt(k, s[0].0) {
        let t = seq![(k, v)] + s;
        assert forall|i: int, j: int|
            0 <= i < j < t.len() implies lex_lt(#[trigger] t[i].0, #[trigger] t[j].0) by {
            if i == 0 {
                if j > 1 {
                    lemma_lex_lt_transitive(k, s[0].0, s[j - 1].0);
                }
            }
        }
    } else if k == s[0].0 {
        let t = seq![(k, v)] + s.drop_first();
        assert forall|i: int, j: int|
            0 <= i < j < t.len() implies lex_lt(#[trigger] t[i].0, #[trigger] t[j].0) by {
            assert(s.drop_first()[j - 1] == s[j]);
            if i > 0 {
                assert(s.drop_first()[i - 1] == s[i]);
            }
        }
    } else {
        lemma_lex_lt_trichotomy(k, s[0].0);
        assert(lex_lt(s[0].0, k));
        assert(sorted_keys(s.drop_first()));
        lemma_assoc_put_sorted(s.drop_first(), k, v);
        let u = assoc_put(s.drop_first(), k, v);
        let t = seq![s[0]] + u;
        lemma_assoc_put_above(s.drop_first(), k, v, s[0].0);
        assert forall|i: int, j: int|
            0 <= i < j < t.len() implies lex_lt(#[trigger] t[i].0, #[trigger] t[j].0) by {
            if i == 0 {
                assert(lex_lt(s[0].0, u[j - 1].0));
            }
        }
    }
}

/// Every key of `assoc_put(s, k, v)` is above any bound strictly below
/// both `k` and all keys of `s`.
pub proof fn lemma_assoc_put_above<V>(s: Seq<(Seq<char>, V)>, k: Seq<char>, v: V, lo: Seq<char>)
    requires
        lex_lt(lo, k),
        forall|j: int| 0 <= j < s.len() ==> lex_lt(lo, (#[trigger] s[j].0)),
    ensures
        forall|j: int|
            0 <= j < assoc_put(s, k, v).len() ==> lex_lt(lo, (#[trigger] assoc_put(s, k, v)[j].0)),
    decreases s.len(),
{
    if s.len() == 0 {
    } else if lex_lt(k, s[0].0) {
    } else if k == s[0].0 {
        let t = seq![(k, v)] + s.drop_first();
        assert forall|j: int| 0 <= j < t.len() implies lex_lt(lo, (#[trigger] t[j].0)) by {
            if j > 0 {
                assert(s.drop_first()[j - 1] == s[j]);
            }
        }
    } else {
        assert(forall|j: int|
            0 <= j < s.drop_first().len() ==> lex_lt(lo, (#[trigger] s.drop_first()[j].0)));
        lemma_assoc_put_above(s.drop_first(), k, v, lo);
        let u = assoc_put(s.drop_first(), k, v);
        let t = seq![s[0]] + u;
        assert forall|j: int| 0 <= j < t.len() implies lex_lt(lo, (#[trigger] t[j].0)) by {
            if j > 0 {
                assert(t[j] == u[j - 1]);
            }
        }
    }
}

/// Union keeps the keys of the base sorted.
pub proof fn lemma_assoc_union_sorted<V>(base: Seq<(Seq<char>, V)>, extra: Seq<(Seq<char>, V)>)
    requires
        sorted_keys(base),
    ensures
        sorted_keys(assoc_union(base, extra)),
    decreases extra.len(),
{
    if extra.len() > 0 {
        lemma_assoc_put_sorted(base, extra[0].0, extra[0].1);
        lemma_assoc_union_sorted(assoc_put(base, extra[0].0, extra[0].1), extra.drop_first());
    }
}

/// After a union, a key found in `extra` has the value from `extra`, and
/// any other key keeps its value from `base`.
pub proof fn lemma_assoc_union_get<V>(
    base: Seq<(Seq<char>, V)>,
    extra: Seq<(Seq<char>, V)>,
    q: Seq<char>,
)
    requires
        unique_keys(extra),
    ensures
        assoc_get(assoc_union(base, extra), q) == match assoc_get(extra, q) {
            Some(v) => Some(v),
            None => assoc_get(base, q),
        },
    decreases extra.len(),
{
    if extra.len() > 0 {
        let b2 = assoc_put(base, extra[0].0, extra[0].1);
        assert(unique_keys(extra.drop_first())) by {
            assert forall|i: int, j: int|
                0 <= i < j < extra.drop_first().len() implies (
            #[trigger] extra.drop_first()[i].0) != (#[trigger] extra.drop_first()[j].0) by {
                assert(extra.drop_first()[i] == extra[i + 1]);
                assert(extra.drop_first()[j] == extra[j + 1]);
            }
        }
        lemma_assoc_union_get(b2, extra.drop_first(), q);
        lemma_assoc_put_get(base, extra[0].0, extra[0].1, q);
        if q == extra[0].0 {
            assert(assoc_get(extra, q) == Some(extra[0].1));
            if assoc_get(extra.drop_first(), q) is Some {
                lemma_assoc_get_some_index(extra.drop_first(), q);
            }
        } else {
            assert(assoc_get(extra, q) == assoc_get(extra.drop_first(), q));
        }
    }
}

/// A successful lookup names some pair of the sequence, and returns that
/// pair's value.
pub proof fn lemma_assoc_get_some_index<V>(s: Seq<(Seq<char>, V)>, k: Seq<char>)
    requires
        assoc_get(s, k) is Some,
    ensures
        exists|i: int|
            0 <= i < s.len() && (#[trigger] s[i].0) == k && s[i].1 == assoc_get(s, k)->Some_0,
    decreases s.len(),
{
    if s.len() > 0 {
        if s[0].0 == k {
            assert(0 <= 0 < s.len() && s[0].0 == k && s[0].1 == assoc_get(s, k)->Some_0);
        } else {
            lemma_assoc_get_some_index(s.drop_first(), k);
            let i = choose|i: int|
                0 <= i < s.drop_first().len() && (#[trigger] s.drop_first()[i].0) == k
                    && s.drop_first()[i].1 == assoc_get(s.drop_first(), k)->Some_0;
            assert(s[i + 1].0 == k && s[i + 1].1 == assoc_get(s, k)->Some_0);
        }
    }
}

/// Re-inserting the value a key already holds changes nothing.
pub proof fn lemma_assoc_put_present_same<V>(s: Seq<(Seq<char>, V)>, k: Seq<char>, v: V)
    requires
        sorted_keys(s),
        assoc_get(s, k) == Some(v),
    ensures
        assoc_put(s, k, v) == s,
    decreases s.len(),
{
    if s[0].0 == k {
        lemma_lex_lt_irreflexive(k);
        assert(s[0] == (k, v));
        assert(seq![(k, v)] + s.drop_first() =~= s);
    } else {
        lemma_assoc_get_some_index(s.drop_first(), k);
        let i = choose|i: int|
            0 <= i < s.drop_first().len() && (#[trigger] s.drop_first()[i].0) == k
                && s.drop_first()[i].1 == assoc_get(s.drop_first(), k)->Some_0;
        assert(s[i + 1].0 == k);
        assert(lex_lt(s[0].0, k));
        lemma_lex_lt_asymmetric(s[0].0, k);
        assert(sorted_keys(s.drop_first()));
        lemma_assoc_put_present_same(s.drop_first(), k, v);
        assert(seq![s[0]] + s.drop_first() =~= s);
    }
}

/// In a sequence with pairwise distinct keys, lookup of any pair's key
/// finds that pair's value.
pub proof fn lemma_unique_get_index<V>(s: Seq<(Seq<char>, V)>, i: int)
    requires
        unique_keys(s),
        0 <= i < s.len(),
    ensures
        assoc_get(s, s[i].0) == Some(s[i].1),
    decreases s.len(),
{
    if i > 0 {
        assert(s[0].0 != s[i].0);
        assert(unique_keys(s.drop_first())) by {
            assert forall|p: int, q: int|
                0 <= p < q < s.drop_first().len() implies (#[trigger] s.drop_first()[p].0) != (
            #[trigger] s.drop_first()[q].0) by {
                assert(s.drop_first()[p] == s[p + 1]);
                assert(s.drop_first()[q] == s[q + 1]);
            }
        }
        lemma_unique_get_index(s.drop_first(), i - 1);
    }
}

/// Folding in entries the base already holds changes nothing.
pub proof fn lemma_assoc_union_absorbed<V>(base: Seq<(Seq<char>, V)>, extra: Seq<(Seq<char>, V)>)
    requires
        sorted_keys(base),
        forall|j: int|
            0 <= j < extra.len() ==> assoc_get(base, (#[trigger] extra[j].0)) == Some(extra[j].1),
    ensures
        assoc_union(base, extra) == base,
    decreases extra.len(),
{
    if extra.len() > 0 {
        lemma_assoc_put_present_same(base, extra[0].0, extra[0].1);
        assert forall|j: int| 0 <= j < extra.drop_first().len() implies assoc_get(
            base,
            (#[trigger] extra.drop_first()[j].0),
        ) == Some(extra.drop_first()[j].1) by {
            assert(extra.drop_first()[j] == extra[j + 1]);
        }
        lemma_assoc_union_absorbed(base, extra.drop_first());
    }
}

/// Inserting a key above every present key appends the pair at the end.
pub proof fn lemma_assoc_put_append<V>(s: Seq<(Seq<char>, V)>, k: Seq<char>, v: V)
    requires
        forall|j: int| 0 <= j < s.len() ==> lex_lt(#[trigger] s[j].0, k),
    ensures
        assoc_put(s, k, v) == s.push((k, v)),
    decreases s.len(),
{
    if s.len() == 0 {
        assert(assoc_put(s, k, v) =~= s.push((k, v)));
    } else {
        lemma_lex_lt_asymmetric(s[0].0, k);
        lemma_lex_lt_ne(s[0].0, k);
        lemma_assoc_put_append(s.drop_first(), k, v);
        assert(seq![s[0]] + s.drop_first().push((k, v)) =~= s.push((k, v)));
    }
}

} // verus!
