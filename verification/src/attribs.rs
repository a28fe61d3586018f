//! The attribute collection: an ordered mapping from attribute name to
//! attribute leaf, with merge-on-insert and filter evaluation.

use vstd::prelude::*;

use crate::assoc::{
    assoc_get, assoc_put, lemma_assoc_get_none, lemma_assoc_get_skip, lemma_assoc_get_some_index,
    lemma_assoc_put_get, lemma_assoc_put_present_same, lemma_assoc_put_skip, lemma_assoc_put_sorted,
    lemma_lex_lt_ne, sorted_keys,
};
use crate::attrl::{
    leaf_matches, lemma_merge_leaf_wf, merge_leaf, res_union, res_view, shape_ok, wf_leaf, Attrl,
    AttrlModel,
};
use crate::op::FilterError;
use crate::strutil::{
    lemma_lex_lt_irreflexive, lemma_lex_lt_transitive, lemma_lex_lt_trichotomy, lex_lt,
};

verus! {

/// One attribute name and the leaf stored under it.
#[derive(Debug, PartialEq)]
pub struct AttribEntry {
    pub name: String,
    pub leaf: Attrl,
}

impl View for AttribEntry {
    type V = (Seq<char>, AttrlModel);

    open spec fn view(&self) -> (Seq<char>, AttrlModel) {
        (self.name@, self.leaf@)
    }
}

impl Clone for AttribEntry {
    fn clone(&self) -> (r: Self)
        ensures
            r@ == self@,
    {
        AttribEntry { name: self.name.clone(), leaf: self.leaf.clone() }
    }
}

/// An ordered collection of named attributes.
#[derive(Debug, PartialEq)]
pub struct Attribs {
    attribs: Vec<AttribEntry>,
}

impl View for Attribs {
    type V = Seq<(Seq<char>, AttrlModel)>;

    closed spec fn view(&self) -> Seq<(Seq<char>, AttrlModel)> {
        self.attribs@.map_values(|e: AttribEntry| e@)
    }
}

/// Entries sorted by name, and every leaf well formed.
pub open spec fn wf_entries(s: Seq<(Seq<char>, AttrlModel)>) -> bool {
    sorted_keys(s) && (forall|i: int| 0 <= i < s.len() ==> wf_leaf(#[trigger] s[i].1))
}

/// What inserting `l` under `k` does to a collection: insert if the name
/// is absent, merge on matching shape, and keep the old leaf (dropping
/// the new one) on a shape mismatch.
pub open spec fn add_leaf(
    s: Seq<(Seq<char>, AttrlModel)>,
    k: Seq<char>,
    l: AttrlModel,
) -> Seq<(Seq<char>, AttrlModel)> {
    match assoc_get(s, k) {
        None => assoc_put(s, k, l),
        Some(old) => if shape_ok(old, l) {
            assoc_put(s, k, merge_leaf(old, l))
        } else {
            s
        },
    }
}

/// How a collection answers a filter collection: every filter entry must
/// name a stored attribute whose leaf matches; a missing name fails the
/// whole check, and the first erroneous filter entry reports its error.
pub open spec fn check_entries(
    a: Seq<(Seq<char>, AttrlModel)>,
    f: Seq<(Seq<char>, AttrlModel)>,
) -> Result<bool, FilterError>
    decreases f.len(),
{
    if f.len() == 0 {
        Ok(true)
    } else {
        match assoc_get(a, f[0].0) {
            None => Ok(false),
            Some(l) => match leaf_matches(l, f[0].1) {
                Err(e) => Err(e),
                Ok(false) => Ok(false),
                Ok(true) => check_entries(a, f.drop_first()),
            },
        }
    }
}

impl Clone for Attribs {
    fn clone(&self) -> (r: Self)
        ensures
            r@ == self@,
    {
        let mut out: Vec<AttribEntry> = Vec::new();
        let n = self.attribs.len();
        let mut i: usize = 0;
        while i < n
            invariant
                0 <= i <= n,
                n == self.attribs@.len(),
                out@.len() == i,
                forall|j: int| 0 <= j < i ==> (#[trigger] out@[j])@ == self.attribs@[j]@,
            decreases n - i,
        {
            out.push(self.attribs[i].clone());
            i = i + 1;
        }
        let r = Attribs { attribs: out };
        proof {
            assert(r@ =~= self@);
        }
        r
    }
}

impl Attribs {
    /// The collection is well formed: names strictly ascend and every
    /// leaf is well formed.
    pub open spec fn wf(&self) -> bool {
        wf_entries(self@)
    }

    /// An empty collection.
    pub fn new() -> (r: Attribs)
        ensures
            r@ == Seq::<(Seq<char>, AttrlModel)>::empty(),
            r.wf(),
    {
        let r = Attribs { attribs: Vec::new() };
        proof {
            assert(r@ =~= Seq::<(Seq<char>, AttrlModel)>::empty());
        }
        r
    }

    /// The entries, in ascending name order.
    pub fn attribs(&self) -> (r: &Vec<AttribEntry>)
        ensures
            r@.map_values(|e: AttribEntry| e@) == self@,
    {
        &self.attribs
    }

    /// Looks up the leaf stored under `key`.
    pub fn get<'a>(&'a self, key: &str) -> (r: Option<&'a Attrl>)
        ensures
            match r {
                Some(l) => assoc_get(self@, key@) == Some(l@),
                None => assoc_get(self@, key@) is None,
            },
    {
        let n = self.attribs.len();
        let mut i: usize = 0;
        proof {
            assert(self@.skip(0) =~= self@);
        }
        while i < n
            invariant
                0 <= i <= n,
                n == self.attribs@.len(),
                assoc_get(self@, key@) == assoc_get(self@.skip(i as int), key@),
            decreases n - i,
        {
            if crate::strutil::str_eq(self.attribs[i].name.as_str(), key) {
                proof {
                    assert(self@.skip(i as int)[0] == self.attribs@[i as int]@);
                }
                return Some(&self.attribs[i].leaf);
            }
            proof {
                assert(self@.skip(i as int)[0] == self.attribs@[i as int]@);
                assert(self@.skip(i as int).drop_first() =~= self@.skip(i as int + 1));
            }
            i = i + 1;
        }
        proof {
            assert(self@.skip(n as int) =~= Seq::<(Seq<char>, AttrlModel)>::empty());
        }
        None
    }

    /// Inserts `value` under `name`, merging with any leaf already
    /// stored there: a scalar replaces a scalar, resource maps union
    /// (the new side wins per resource name), and a shape mismatch
    /// leaves the collection unchanged.
    pub fn add(&mut self, name: String, value: Attrl)
        requires
            old(self).wf(),
            wf_leaf(value@),
        ensures
            final(self).wf(),
            final(self)@ == add_leaf(old(self)@, name@, value@),
    {
        let ghost s0 = self@;
        let ghost k = name@;
        let ghost l = value@;
        let n = self.attribs.len();
        let mut i: usize = 0;
        while i < n
            invariant_except_break
                0 <= i <= n,
                n == self.attribs@.len(),
                self@ == s0,
                k == name@,
                forall|j: int| 0 <= j < i ==> lex_lt(#[trigger] s0[j].0, k),
            ensures
                0 <= i <= n,
                n == self.attribs@.len(),
                self@ == s0,
                k == name@,
                forall|j: int| 0 <= j < i ==> lex_lt(#[trigger] s0[j].0, k),
                i == n || !lex_lt(s0[i as int].0, k),
            decreases n - i,
        {
            if !crate::strutil::str_lt(self.attribs[i].name.as_str(), name.as_str()) {
                break ;
            }
            proof {
                assert(s0[i as int] == self.attribs@[i as int]@);
            }
            i = i + 1;
        }
        let same = i < n && crate::strutil::str_eq(self.attribs[i].name.as_str(), name.as_str());
        proof {
            assert forall|j: int| 0 <= j < i implies (#[trigger] s0[j].0) != k by {
                lemma_lex_lt_ne(s0[j].0, k);
            }
            lemma_assoc_get_skip(s0, i as int, k);
        }
        if same {
            proof {
                assert(s0.skip(i as int)[0] == self.attribs@[i as int]@);
                assert(assoc_get(s0, k) == Some(s0[i as int].1));
                lemma_lex_lt_irreflexive(k);
                lemma_assoc_put_skip(s0, i as int, k, merge_leaf(s0[i as int].1, l));
                assert(s0.skip(i as int).drop_first() =~= s0.skip(i as int + 1));
            }
            let old_entry = self.attribs.remove(i);
            let AttribEntry { name: stored_name, leaf: stored_leaf } = old_entry;
            let ghost old_leaf = stored_leaf@;
            match (stored_leaf, value) {
                (Attrl::Value(_), Attrl::Value(nv)) => {
                    self.attribs.insert(i, AttribEntry { name: stored_name, leaf: Attrl::Value(nv) });
                    proof {
                        assert(self@ =~= s0.take(i as int) + (seq![(k, merge_leaf(old_leaf, l))]
                            + s0.skip(i as int + 1)));
                    }
                },
                (Attrl::Resource(mut om), Attrl::Resource(nm)) => {
                    proof {
                        assert(wf_leaf(old_leaf));
                        assert(sorted_keys(res_view(om@)));
                    }
                    res_union(&mut om, &nm);
                    self.attribs.insert(
                        i,
                        AttribEntry { name: stored_name, leaf: Attrl::Resource(om) },
                    );
                    proof {
                        assert(self@ =~= s0.take(i as int) + (seq![(k, merge_leaf(old_leaf, l))]
                            + s0.skip(i as int + 1)));
                    }
                },
                (kept, _) => {
                    self.attribs.insert(i, AttribEntry { name: stored_name, leaf: kept });
                    proof {
                        assert(!shape_ok(old_leaf, l));
                        assert(self@ =~= s0);
                    }
                },
            }
            proof {
                if shape_ok(old_leaf, l) {
                    lemma_merge_leaf_wf(old_leaf, l);
                    lemma_assoc_put_sorted(s0, k, merge_leaf(old_leaf, l));
                    assert(self@ == assoc_put(s0, k, merge_leaf(old_leaf, l)));
                    assert forall|j: int| 0 <= j < self@.len() implies wf_leaf(
                        #[trigger] self@[j].1,
                    ) by {
                        if j < i {
                            assert(self@[j] == s0[j]);
                        } else if j > i {
                            assert(self@[j] == s0[j]);
                        }
                    }
                }
            }
        } else {
            proof {
                if i < n {
                    assert(s0.skip(i as int)[0] == self.attribs@[i as int]@);
                    lemma_lex_lt_trichotomy(k, s0[i as int].0);
                    assert(lex_lt(k, s0[i as int].0));
                }
                assert forall|j: int| 0 <= j < s0.len() implies (#[trigger] s0[j].0) != k by {
                    if j < i {
                        lemma_lex_lt_ne(s0[j].0, k);
                    } else if j == i {
                        lemma_lex_lt_ne(k, s0[j].0);
                    } else {
                        lemma_lex_lt_transitive(k, s0[i as int].0, s0[j].0);
                        lemma_lex_lt_ne(k, s0[j].0);
                    }
                }
                lemma_assoc_get_none(s0, k);
                lemma_assoc_put_skip(s0, i as int, k, l);
                lemma_assoc_put_sorted(s0, k, l);
            }
            self.attribs.insert(i, AttribEntry { name, leaf: value });
            proof {
                if i < n {
                    assert(lex_lt(k, s0.skip(i as int)[0].0));
                    assert(self@ =~= s0.take(i as int) + (seq![(k, l)] + s0.skip(i as int)));
                } else {
                    assert(s0.skip(i as int) =~= Seq::<(Seq<char>, AttrlModel)>::empty());
                    assert(self@ =~= s0.take(i as int) + seq![(k, l)]);
                }
                assert(self@ == assoc_put(s0, k, l));
                assert forall|j: int| 0 <= j < self@.len() implies wf_leaf(
                    #[trigger] self@[j].1,
                ) by {
                    if j < i {
                        assert(self@[j] == s0[j]);
                    } else if j > i {
                        assert(self@[j] == s0[j - 1]);
                    }
                }
            }
        }
    }

    /// Checks whether this collection satisfies every constraint of
    /// `filter`; an empty filter is always satisfied.
    pub fn check_filter(&self, filter: &Attribs) -> (r: Result<bool, FilterError>)
        ensures
            r == check_entries(self@, filter@),
    {
        let n = filter.attribs.len();
        let mut i: usize = 0;
        proof {
            assert(filter@.skip(0) =~= filter@);
        }
        while i < n
            invariant
                0 <= i <= n,
                n == filter.attribs@.len(),
                check_entries(self@, filter@) == check_entries(self@, filter@.skip(i as int)),
            decreases n - i,
        {
            proof {
                assert(filter@.skip(i as int)[0] == filter.attribs@[i as int]@);
                assert(filter@.skip(i as int).drop_first() =~= filter@.skip(i as int + 1));
            }
            match self.get(filter.attribs[i].name.as_str()) {
                None => {
                    return Ok(false);
                },
                Some(l) => match l.apply_filter(&filter.attribs[i].leaf) {
                    Err(e) => {
                        return Err(e);
                    },
                    Ok(false) => {
                        return Ok(false);
                    },
                    Ok(true) => {},
                },
            }
            i = i + 1;
        }
        proof {
            assert(filter@.skip(n as int) =~= Seq::<(Seq<char>, AttrlModel)>::empty());
        }
        Ok(true)
    }
}

/// Adding the same leaf under the same name twice leaves the collection
/// exactly as the first add left it.
pub proof fn lemma_add_idempotent(s: Seq<(Seq<char>, AttrlModel)>, k: Seq<char>, l: AttrlModel)
    requires
        wf_entries(s),
        wf_leaf(l),
    ensures
        add_leaf(add_leaf(s, k, l), k, l) == add_leaf(s, k, l),
{
    match assoc_get(s, k) {
        None => {
            let r1 = assoc_put(s, k, l);
            lemma_assoc_put_get(s, k, l, k);
            lemma_assoc_put_sorted(s, k, l);
            crate::attrl::lemma_merge_leaf_self(l);
            lemma_assoc_put_present_same(r1, k, l);
        },
        Some(old) => {
            if shape_ok(old, l) {
                lemma_assoc_get_some_index(s, k);
                assert(wf_leaf(old));
                let m1 = merge_leaf(old, l);
                let r1 = assoc_put(s, k, m1);
                lemma_assoc_put_get(s, k, m1, k);
                lemma_assoc_put_sorted(s, k, m1);
                crate::attrl::lemma_merge_leaf_absorb(old, l);
                lemma_assoc_put_present_same(r1, k, m1);
            }
        },
    }
}

/// Adding a leaf whose shape conflicts with the one already stored under
/// that name leaves the whole collection untouched.
pub proof fn lemma_shape_conflict_keeps_old(
    s: Seq<(Seq<char>, AttrlModel)>,
    k: Seq<char>,
    l: AttrlModel,
)
    requires
        assoc_get(s, k) is Some,
        !shape_ok(assoc_get(s, k)->Some_0, l),
    ensures
        add_leaf(s, k, l) == s,
{
}

/// An empty filter is satisfied by every collection.
pub proof fn lemma_empty_filter_passes(a: Seq<(Seq<char>, AttrlModel)>)
    ensures
        check_entries(a, Seq::<(Seq<char>, AttrlModel)>::empty()) == Ok::<bool, FilterError>(true),
{
}

/// A filter naming an attribute the subject lacks is never satisfied.
pub proof fn lemma_missing_attribute_fails(
    a: Seq<(Seq<char>, AttrlModel)>,
    f: Seq<(Seq<char>, AttrlModel)>,
)
    requires
        exists|i: int| 0 <= i < f.len() && assoc_get(a, (#[trigger] f[i].0)) is None,
    ensures
        check_entries(a, f) != Ok::<bool, FilterError>(true),
    decreases f.len(),
{
    let i = choose|i: int| 0 <= i < f.len() && assoc_get(a, (#[trigger] f[i].0)) is None;
    match assoc_get(a, f[0].0) {
        None => {},
        Some(l) => {
            assert(i > 0);
            match leaf_matches(l, f[0].1) {
                Err(_) => {},
                Ok(b) => {
                    if b {
                        assert(0 <= i - 1 < f.drop_first().len() && assoc_get(
                            a,
                            f.drop_first()[i - 1].0,
                        ) is None);
                        lemma_missing_attribute_fails(a, f.drop_first());
                    }
                },
            }
        },
    }
}

} // verus!
