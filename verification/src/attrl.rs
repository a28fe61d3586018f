//! Attribute leaves: a scalar operator value, or a map from resource
//! names to operator values.
//!
//! An attribute name carries exactly one of the two shapes at a time.
//! Merging two leaves of the same shape either replaces the scalar or
//! unions the resource maps; a shape mismatch keeps the old leaf.

use vstd::prelude::*;

use crate::assoc::{assoc_get, assoc_union, lemma_assoc_union_sorted, sorted_keys};
use crate::op::{op_matches, FilterError, Op, OpModel};
use crate::strutil::lex_lt;

verus! {

/// One resource name and the operator value stored under it.
#[derive(Debug, PartialEq)]
pub struct ResourceEntry {
    pub name: String,
    pub op: Op,
}

impl View for ResourceEntry {
    type V = (Seq<char>, OpModel);

    open spec fn view(&self) -> (Seq<char>, OpModel) {
        (self.name@, self.op@)
    }
}

impl Clone for ResourceEntry {
    fn clone(&self) -> (r: Self)
        ensures
            r@ == self@,
    {
        ResourceEntry { name: self.name.clone(), op: self.op.clone() }
    }
}

/// An attribute leaf: a single value, or one value per resource name.
#[derive(Debug, PartialEq)]
pub enum Attrl {
    Value(Op),
    Resource(Vec<ResourceEntry>),
}

/// Mathematical model of an [`Attrl`]; a resource map is an ordered
/// association sequence keyed by resource name.
pub enum AttrlModel {
    Value(OpModel),
    Resource(Seq<(Seq<char>, OpModel)>),
}

/// The model of a resource-entry vector.
pub open spec fn res_view(v: Seq<ResourceEntry>) -> Seq<(Seq<char>, OpModel)> {
    v.map_values(|e: ResourceEntry| e@)
}

impl View for Attrl {
    type V = AttrlModel;

    open spec fn view(&self) -> AttrlModel {
        match self {
            Attrl::Value(op) => AttrlModel::Value(op@),
            Attrl::Resource(v) => AttrlModel::Resource(res_view(v@)),
        }
    }
}

/// A leaf is well formed when its resource names are in strictly
/// ascending order (so each resource name occurs once).
pub open spec fn wf_leaf(l: AttrlModel) -> bool {
    match l {
        AttrlModel::Value(_) => true,
        AttrlModel::Resource(m) => sorted_keys(m),
    }
}

/// Whether two leaves have the same shape, and so may merge.
pub open spec fn shape_ok(old: AttrlModel, new: AttrlModel) -> bool {
    match (old, new) {
        (AttrlModel::Value(_), AttrlModel::Value(_)) => true,
        (AttrlModel::Resource(_), AttrlModel::Resource(_)) => true,
        _ => false,
    }
}

/// The leaf obtained by merging `new` into `old`: a new scalar replaces
/// the old one, resource maps union with the new side winning per
/// resource name, and a shape mismatch keeps `old`.
pub open spec fn merge_leaf(old: AttrlModel, new: AttrlModel) -> AttrlModel {
    match (old, new) {
        (AttrlModel::Value(_), AttrlModel::Value(_)) => new,
        (AttrlModel::Resource(om), AttrlModel::Resource(nm)) => AttrlModel::Resource(
            assoc_union(om, nm),
        ),
        _ => old,
    }
}

/// Merging preserves well-formedness.
pub proof fn lemma_merge_leaf_wf(old: AttrlModel, new: AttrlModel)
    requires
        wf_leaf(old),
        wf_leaf(new),
    ensures
        wf_leaf(merge_leaf(old, new)),
{
    match (old, new) {
        (AttrlModel::Resource(om), AttrlModel::Resource(nm)) => {
            lemma_assoc_union_sorted(om, nm);
        },
        _ => {},
    }
}

/// Merging a leaf with itself gives it back.
pub proof fn lemma_merge_leaf_self(l: AttrlModel)
    requires
        wf_leaf(l),
    ensures
        merge_leaf(l, l) == l,
{
    match l {
        AttrlModel::Resource(m) => {
            crate::assoc::lemma_sorted_implies_unique(m);
            assert forall|j: int| 0 <= j < m.len() implies assoc_get(m, (#[trigger] m[j].0))
                == Some(m[j].1) by {
                crate::assoc::lemma_unique_get_index(m, j);
            }
            crate::assoc::lemma_assoc_union_absorbed(m, m);
        },
        _ => {},
    }
}

/// Merging the same new leaf in a second time changes nothing further.
pub proof fn lemma_merge_leaf_absorb(old: AttrlModel, new: AttrlModel)
    requires
        wf_leaf(old),
        wf_leaf(new),
        shape_ok(old, new),
    ensures
        merge_leaf(merge_leaf(old, new), new) == merge_leaf(old, new),
{
    match (old, new) {
        (AttrlModel::Resource(om), AttrlModel::Resource(nm)) => {
            let u = assoc_union(om, nm);
            lemma_assoc_union_sorted(om, nm);
            crate::assoc::lemma_sorted_implies_unique(nm);
            assert forall|j: int| 0 <= j < nm.len() implies assoc_get(u, (#[trigger] nm[j].0))
                == Some(nm[j].1) by {
                crate::assoc::lemma_assoc_union_get(om, nm, nm[j].0);
                crate::assoc::lemma_unique_get_index(nm, j);
            }
            crate::assoc::lemma_assoc_union_absorbed(u, nm);
        },
        _ => {},
    }
}

/// How a stored resource map answers a resource-map filter: each filter
/// entry whose resource name is stored must match; a filter entry whose
/// resource name is absent is not enforced.
pub open spec fn res_matches(
    stored: Seq<(Seq<char>, OpModel)>,
    filter: Seq<(Seq<char>, OpModel)>,
) -> Result<bool, FilterError>
    decreases filter.len(),
{
    if filter.len() == 0 {
        Ok(true)
    } else {
        match assoc_get(stored, filter[0].0) {
            None => res_matches(stored, filter.drop_first()),
            Some(v) => match op_matches(v, filter[0].1) {
                Err(e) => Err(e),
                Ok(false) => Ok(false),
                Ok(true) => res_matches(stored, filter.drop_first()),
            },
        }
    }
}

/// How a stored leaf answers a filter leaf: scalars compare by operator,
/// resource maps entry by entry, and a shape mismatch never matches.
pub open spec fn leaf_matches(stored: AttrlModel, filter: AttrlModel) -> Result<
    bool,
    FilterError,
> {
    match (stored, filter) {
        (AttrlModel::Value(v), AttrlModel::Value(f)) => op_matches(v, f),
        (AttrlModel::Resource(m), AttrlModel::Resource(f)) => res_matches(m, f),
        _ => Ok(false),
    }
}

/// Looks up the operator value stored under `k` in a resource-entry
/// vector.
pub fn res_get<'a>(v: &'a Vec<ResourceEntry>, k: &str) -> (r: Option<&'a Op>)
    ensures
        match r {
            Some(op) => assoc_get(res_view(v@), k@) == Some(op@),
            None => assoc_get(res_view(v@), k@) is None,
        },
{
    let n = v.len();
    let mut i: usize = 0;
    proof {
        assert(res_view(v@).skip(0) =~= res_view(v@));
    }
    while i < n
        invariant
            0 <= i <= n,
            n == v@.len(),
            assoc_get(res_view(v@), k@) == assoc_get(res_view(v@).skip(i as int), k@),
        decreases n - i,
    {
        if crate::strutil::str_eq(v[i].name.as_str(), k) {
            proof {
                assert(res_view(v@).skip(i as int)[0] == v@[i as int]@);
            }
            return Some(&v[i].op);
        }
        proof {
            assert(res_view(v@).skip(i as int)[0] == v@[i as int]@);
            assert(res_view(v@).skip(i as int).drop_first() =~= res_view(v@).skip(i as int + 1));
        }
        i = i + 1;
    }
    proof {
        assert(res_view(v@).skip(n as int) =~= Seq::<(Seq<char>, OpModel)>::empty());
    }
    None
}

/// Inserts `e` into a sorted resource-entry vector at its ordered
/// position, replacing the entry with the same resource name if present.
pub fn res_put(v: &mut Vec<ResourceEntry>, e: ResourceEntry)
    requires
        sorted_keys(res_view(old(v)@)),
    ensures
        res_view(final(v)@) == crate::assoc::assoc_put(res_view(old(v)@), e@.0, e@.1),
        sorted_keys(res_view(final(v)@)),
{
    let ghost s0 = res_view(v@);
    let n = v.len();
    let mut i: usize = 0;
    while i < n
        invariant_except_break
            0 <= i <= n,
            n == v@.len(),
            v@ == old(v)@,
            forall|j: int| 0 <= j < i ==> lex_lt(#[trigger] res_view(v@)[j].0, e@.0),
        ensures
            0 <= i <= n,
            n == v@.len(),
            v@ == old(v)@,
            forall|j: int| 0 <= j < i ==> lex_lt(#[trigger] res_view(v@)[j].0, e@.0),
            i == n || !lex_lt(res_view(v@)[i as int].0, e@.0),
        decreases n - i,
    {
        if !crate::strutil::str_lt(v[i].name.as_str(), e.name.as_str()) {
            break ;
        }
        proof {
            assert(res_view(v@)[i as int] == v@[i as int]@);
        }
        i = i + 1;
    }
    proof {
        crate::assoc::lemma_assoc_put_skip(s0, i as int, e@.0, e@.1);
        crate::assoc::lemma_assoc_put_sorted(s0, e@.0, e@.1);
    }
    if i < n {
        if crate::strutil::str_eq(v[i].name.as_str(), e.name.as_str()) {
            proof {
                assert(s0.skip(i as int)[0] == v@[i as int]@);
                crate::strutil::lemma_lex_lt_irreflexive(e@.0);
            }
            v.remove(i);
            v.insert(i, e);
            proof {
                assert(s0.skip(i as int).drop_first() =~= s0.skip(i as int + 1));
                assert(res_view(v@) =~= s0.take(i as int) + (seq![(e@.0, e@.1)] + s0.skip(
                    i as int + 1,
                )));
            }
        } else {
            proof {
                crate::strutil::lemma_lex_lt_trichotomy(e@.0, res_view(old(v)@)[i as int].0);
                assert(s0.skip(i as int)[0] == v@[i as int]@);
                assert(lex_lt(e@.0, s0.skip(i as int)[0].0));
            }
            v.insert(i, e);
            proof {
                assert(res_view(v@) =~= s0.take(i as int) + (seq![(e@.0, e@.1)] + s0.skip(
                    i as int,
                )));
            }
        }
    } else {
        v.push(e);
        proof {
            assert(s0.skip(i as int) =~= Seq::<(Seq<char>, OpModel)>::empty());
            assert(res_view(v@) =~= s0.take(i as int) + seq![(e@.0, e@.1)]);
        }
    }
}

/// Folds every entry of `extra` into the sorted vector `base`; an entry
/// of `extra` wins over an entry of `base` with the same resource name.
pub fn res_union(base: &mut Vec<ResourceEntry>, extra: &Vec<ResourceEntry>)
    requires
        sorted_keys(res_view(old(base)@)),
    ensures
        res_view(final(base)@) == assoc_union(res_view(old(base)@), res_view(extra@)),
        sorted_keys(res_view(final(base)@)),
{
    let n = extra.len();
    let mut i: usize = 0;
    proof {
        assert(res_view(extra@).skip(0) =~= res_view(extra@));
    }
    while i < n
        invariant
            0 <= i <= n,
            n == extra@.len(),
            sorted_keys(res_view(base@)),
            assoc_union(res_view(old(base)@), res_view(extra@)) == assoc_union(
                res_view(base@),
                res_view(extra@).skip(i as int),
            ),
        decreases n - i,
    {
        proof {
            assert(res_view(extra@).skip(i as int)[0] == extra@[i as int]@);
            assert(res_view(extra@).skip(i as int).drop_first() =~= res_view(extra@).skip(
                i as int + 1,
            ));
        }
        res_put(base, extra[i].clone());
        i = i + 1;
    }
    proof {
        assert(res_view(extra@).skip(n as int) =~= Seq::<(Seq<char>, OpModel)>::empty());
    }
}

impl Clone for Attrl {
    fn clone(&self) -> (r: Self)
        ensures
            r@ == self@,
    {
        match self {
            Attrl::Value(op) => Attrl::Value(op.clone()),
            Attrl::Resource(v) => {
                let mut out: Vec<ResourceEntry> = Vec::new();
                let n = v.len();
                let mut i: usize = 0;
                while i < n
                    invariant
                        0 <= i <= n,
                        n == v@.len(),
                        out@.len() == i,
                        forall|j: int| 0 <= j < i ==> (#[trigger] out@[j])@ == v@[j]@,
                    decreases n - i,
                {
                    out.push(v[i].clone());
                    i = i + 1;
                }
                proof {
                    assert(res_view(out@) =~= res_view(v@));
                }
                Attrl::Resource(out)
            },
        }
    }
}

impl Attrl {
    /// Evaluates this stored leaf against a filter leaf.
    pub fn apply_filter(&self, filter: &Attrl) -> (r: Result<bool, FilterError>)
        ensures
            r == leaf_matches(self@, filter@),
    {
        match (self, filter) {
            (Attrl::Value(v), Attrl::Value(f)) => v.apply_filter(f),
            (Attrl::Resource(m), Attrl::Resource(f)) => {
                let n = f.len();
                let mut i: usize = 0;
                proof {
                    assert(res_view(f@).skip(0) =~= res_view(f@));
                }
                while i < n
                    invariant
                        0 <= i <= n,
                        n == f@.len(),
                        self@ == AttrlModel::Resource(res_view(m@)),
                        filter@ == AttrlModel::Resource(res_view(f@)),
                        res_matches(res_view(m@), res_view(f@)) == res_matches(
                            res_view(m@),
                            res_view(f@).skip(i as int),
                        ),
                    decreases n - i,
                {
                    proof {
                        assert(res_view(f@).skip(i as int)[0] == f@[i as int]@);
                        assert(res_view(f@).skip(i as int).drop_first() =~= res_view(f@).skip(
                            i as int + 1,
                        ));
                    }
                    match res_get(m, f[i].name.as_str()) {
                        None => {},
                        Some(op) => match op.apply_filter(&f[i].op) {
                            Err(e) => {
                                return Err(e);
                            },
                            Ok(false) => {
                                return Ok(false);
                            },
                            Ok(true) => {},
                        },
                    }
                    i = i + 1;
                }
                proof {
                    assert(res_view(f@).skip(n as int) =~= Seq::<(Seq<char>, OpModel)>::empty());
                }
                Ok(true)
            },
            _ => Ok(false),
        }
    }
}

} // verus!
