//! String ordering and comparison helpers.
//!
//! Attribute and resource names are kept in ascending lexicographic order
//! (by Unicode scalar value) inside a collection, so the exact meaning of
//! "less than" on strings is pinned down here once, together with the
//! ordering facts the collection proofs rely on.

use vstd::prelude::*;

verus! {

/// Strict order on single characters, by Unicode scalar value.
pub open spec fn char_lt(a: char, b: char) -> bool {
    (a as u32) < (b as u32)
}

/// Strict lexicographic order on character sequences: a proper prefix is
/// smaller, otherwise the first differing character decides.
pub open spec fn lex_lt(a: Seq<char>, b: Seq<char>) -> bool
    decreases a.len(),
{
    if b.len() == 0 {
        false
    } else if a.len() == 0 {
        true
    } else if char_lt(a[0], b[0]) {
        true
    } else if a[0] == b[0] {
        lex_lt(a.drop_first(), b.drop_first())
    } else {
        false
    }
}

/// Two characters with the same Unicode scalar value are the same character.
pub proof fn lemma_char_eq_from_u32(a: char, b: char)
    requires
        a as u32 == b as u32,
    ensures
        a == b,
{
    vstd::utf8::char_u32_cast(a, a as u32);
    vstd::utf8::char_u32_cast(b, b as u32);
}

/// Character equality is exactly equality of Unicode scalar values.
pub proof fn lemma_char_eq_u32(c: char, l: char)
    ensures
        (c == l) <==> (c as u32 == l as u32),
{
    if c as u32 == l as u32 {
        lemma_char_eq_from_u32(c, l);
    }
}

/// `lex_lt` never relates a sequence to itself.
pub proof fn lemma_lex_lt_irreflexive(a: Seq<char>)
    ensures
        !lex_lt(a, a),
    decreases a.len(),
{
    if a.len() > 0 {
        lemma_lex_lt_irreflexive(a.drop_first());
    }
}

/// Any two sequences are related by `lex_lt` one way or the other, unless
/// they are equal.
pub proof fn lemma_lex_lt_trichotomy(a: Seq<char>, b: Seq<char>)
    ensures
        lex_lt(a, b) || lex_lt(b, a) || a == b,
    decreases a.len(),
{
    if a.len() == 0 && b.len() == 0 {
        assert(a =~= b);
    } else if a.len() > 0 && b.len() > 0 {
        if !char_lt(a[0], b[0]) && !char_lt(b[0], a[0]) {
            lemma_char_eq_from_u32(a[0], b[0]);
            lemma_lex_lt_trichotomy(a.drop_first(), b.drop_first());
            if a.drop_first() == b.drop_first() {
                assert(a =~= seq![a[0]] + a.drop_first());
                assert(b =~= seq![b[0]] + b.drop_first());
            }
        }
    }
}

/// `lex_lt` is transitive.
pub proof fn lemma_lex_lt_transitive(a: Seq<char>, b: Seq<char>, c: Seq<char>)
    requires
        lex_lt(a, b),
        lex_lt(b, c),
    ensures
        lex_lt(a, c),
    decreases a.len(),
{
    if a.len() > 0 && b.len() > 0 && c.len() > 0 {
        if a[0] == b[0] && b[0] == c[0] {
            lemma_lex_lt_transitive(a.drop_first(), b.drop_first(), c.drop_first());
        }
    }
}

/// `lex_lt` is asymmetric.
pub proof fn lemma_lex_lt_asymmetric(a: Seq<char>, b: Seq<char>)
    requires
        lex_lt(a, b),
    ensures
        !lex_lt(b, a),
    decreases a.len(),
{
    if a.len() > 0 && b.len() > 0 && a[0] == b[0] {
        lemma_lex_lt_asymmetric(a.drop_first(), b.drop_first());
    }
}

/// Decides `lex_lt` on string slices.
pub fn str_lt(a: &str, b: &str) -> (r: bool)
    ensures
        r == lex_lt(a@, b@),
{
    let alen = a.unicode_len();
    let blen = b.unicode_len();
    let mut i: usize = 0;
    proof {
        assert(a@.skip(0) =~= a@);
        assert(b@.skip(0) =~= b@);
    }
    loop
        invariant
            i <= alen,
            i <= blen,
            alen == a@.len(),
            blen == b@.len(),
            lex_lt(a@, b@) == lex_lt(a@.skip(i as int), b@.skip(i as int)),
        decreases alen - i,
    {
        if i >= blen {
            return false;
        }
        if i >= alen {
            return true;
        }
        let ca = a.get_char(i);
        let cb = b.get_char(i);
        if (ca as u32) < (cb as u32) {
            return true;
        }
        if (cb as u32) < (ca as u32) {
            return false;
        }
        proof {
            lemma_char_eq_from_u32(ca, cb);
            assert(a@.skip(i as int).drop_first() =~= a@.skip(i as int + 1));
            assert(b@.skip(i as int).drop_first() =~= b@.skip(i as int + 1));
        }
        i = i + 1;
    }
}

/// Decides equality of the character sequences of two string slices.
pub fn str_eq(a: &str, b: &str) -> (r: bool)
    ensures
        r == (a@ == b@),
{
    let x = a.to_owned();
    let y = b.to_owned();
    x == y
}

/// Concatenates `a`, a dot, and `b` into one owned string.
pub fn join_dot(a: &str, b: &str) -> (r: String)
    ensures
        r@ == a@ + seq!['.'] + b@,
{
    proof {
        reveal_strlit(".");
        assert("."@ =~= seq!['.']);
    }
    let mut s = a.to_owned();
    s.append(".");
    s.append(b);
    s
}

/// Position of the first occurrence of `c` in `s` at or after `from`.
pub open spec fn find_from(s: Seq<char>, from: int, c: char) -> Option<int>
    decreases s.len() - from when 0 <= from <= s.len()
{
    if from >= s.len() {
        None
    } else if s[from] == c {
        Some(from)
    } else {
        find_from(s, from + 1, c)
    }
}

/// What a successful or failed search means, spelled out for callers.
pub proof fn lemma_find_from(s: Seq<char>, from: int, c: char)
    requires
        0 <= from <= s.len(),
    ensures
        match find_from(s, from, c) {
            Some(j) => from <= j < s.len() && s[j] == c && (forall|k: int|
                from <= k < j ==> s[k] != c),
            None => forall|k: int| from <= k < s.len() ==> s[k] != c,
        },
    decreases s.len() - from,
{
    if from < s.len() && s[from] != c {
        lemma_find_from(s, from + 1, c);
    }
}

/// Searching from `from` is searching the tail that starts at `from`.
pub proof fn lemma_find_from_skip(s: Seq<char>, p: int, c: char)
    requires
        0 <= p <= s.len(),
    ensures
        find_from(s, p, c) == match find_from(s.skip(p), 0, c) {
            Some(j) => Some(j + p),
            None => None,
        },
{
    lemma_find_from(s, p, c);
    lemma_find_from(s.skip(p), 0, c);
    match (find_from(s, p, c), find_from(s.skip(p), 0, c)) {
        (Some(a), Some(b)) => {
            assert(s.skip(p)[a - p] == s[a]);
            assert(s.skip(p)[b] == s[p + b]);
        },
        (Some(a), None) => {
            assert(s.skip(p)[a - p] == s[a]);
            assert(false);
        },
        (None, Some(b)) => {
            assert(s.skip(p)[b] == s[p + b]);
            assert(false);
        },
        (None, None) => {},
    }
}

/// Finds the first occurrence of `c` in `s` at or after `from`.
pub fn str_find_from(s: &str, from: usize, c: char) -> (r: Option<usize>)
    requires
        from <= s@.len(),
    ensures
        match r {
            Some(j) => find_from(s@, from as int, c) == Some(j as int),
            None => find_from(s@, from as int, c) is None,
        },
{
    let len = s.unicode_len();
    let mut i: usize = from;
    while i < len
        invariant
            from <= i <= len,
            len == s@.len(),
            find_from(s@, from as int, c) == find_from(s@, i as int, c),
        decreases len - i,
    {
        let ci = s.get_char(i);
        if (ci as u32) == (c as u32) {
            proof {
                lemma_char_eq_from_u32(ci, c);
            }
            return Some(i);
        }
        proof {
            assert(s@[i as int] != c);
        }
        i = i + 1;
    }
    None
}

} // verus!
