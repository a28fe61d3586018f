//! Conversion between attribute collections and the flat record chains
//! exchanged with the batch server's client library.
//!
//! Outbound, every attribute becomes one record per value: scalar leaves
//! one record without a resource, resource leaves one record per resource
//! name, in ascending name order.  Inbound, records are folded back into
//! a collection with the usual merge rules; an inbound record carries no
//! meaningful operator, so its value comes back under a `Default`
//! operator, and an empty resource field counts as no resource.

use vstd::prelude::*;

use crate::assoc::{
    assoc_get, assoc_put, assoc_union, lemma_assoc_get_none, lemma_assoc_get_skip,
    lemma_assoc_put_append, lemma_assoc_put_skip, lemma_lex_lt_ne, sorted_keys,
};
use crate::attribs::{add_leaf, wf_entries, Attribs};
use crate::attrl::{res_view, wf_leaf, Attrl, AttrlModel, ResourceEntry};
use crate::op::{Op, OpKind, OpModel};
use crate::strutil::{lemma_lex_lt_irreflexive, lex_lt};

verus! {

/// One wire-level record: an attribute name, an optional resource name,
/// a value string, and an operator code.
#[derive(Debug, PartialEq)]
pub struct ChainNode {
    pub name: String,
    pub resource: Option<String>,
    pub value: String,
    pub op: OpKind,
}

/// Mathematical model of a [`ChainNode`].
pub struct NodeModel {
    pub name: Seq<char>,
    pub resource: Option<Seq<char>>,
    pub value: Seq<char>,
    pub op: OpKind,
}

impl View for ChainNode {
    type V = NodeModel;

    open spec fn view(&self) -> NodeModel {
        NodeModel {
            name: self.name@,
            resource: match &self.resource {
                Some(r) => Some(r@),
                None => None,
            },
            value: self.value@,
            op: self.op,
        }
    }
}

/// The model of a node vector.
pub open spec fn chain_view(v: Seq<ChainNode>) -> Seq<NodeModel> {
    v.map_values(|n: ChainNode| n@)
}

/// An operator value under the `Default` operator.
pub open spec fn default_op(v: Seq<char>) -> OpModel {
    OpModel { kind: OpKind::Default, val: v }
}

/// The records one attribute entry lowers to.
pub open spec fn nodes_of_entry(name: Seq<char>, l: AttrlModel) -> Seq<NodeModel> {
    match l {
        AttrlModel::Value(op) => seq![
            NodeModel { name, resource: None, value: op.val, op: op.kind },
        ],
        AttrlModel::Resource(m) => m.map_values(
            |p: (Seq<char>, OpModel)|
                NodeModel { name, resource: Some(p.0), value: p.1.val, op: p.1.kind },
        ),
    }
}

/// The record chain a whole collection lowers to, entry by entry in
/// stored (ascending name) order.
pub open spec fn chain_of_entries(s: Seq<(Seq<char>, AttrlModel)>) -> Seq<NodeModel>
    decreases s.len(),
{
    if s.len() == 0 {
        Seq::empty()
    } else {
        nodes_of_entry(s[0].0, s[0].1) + chain_of_entries(s.drop_first())
    }
}

/// The leaf an inbound record denotes: no resource, or an empty resource
/// name, gives a scalar; otherwise a one-entry resource map.  The
/// record's operator code is not read back; the value returns under
/// `Default`.
pub open spec fn node_leaf(n: NodeModel) -> AttrlModel {
    match n.resource {
        Some(r) => if r.len() == 0 {
            AttrlModel::Value(default_op(n.value))
        } else {
            AttrlModel::Resource(seq![(r, default_op(n.value))])
        },
        None => AttrlModel::Value(default_op(n.value)),
    }
}

/// Folds inbound records into a collection, in chain order.
pub open spec fn add_nodes(
    acc: Seq<(Seq<char>, AttrlModel)>,
    nodes: Seq<NodeModel>,
) -> Seq<(Seq<char>, AttrlModel)>
    decreases nodes.len(),
{
    if nodes.len() == 0 {
        acc
    } else {
        add_nodes(add_leaf(acc, nodes[0].name, node_leaf(nodes[0])), nodes.drop_first())
    }
}

/// The collection an inbound record chain denotes.
pub open spec fn from_chain_spec(nodes: Seq<NodeModel>) -> Seq<(Seq<char>, AttrlModel)> {
    add_nodes(Seq::empty(), nodes)
}

/// Appending an entry appends its records.
proof fn lemma_chain_of_entries_push(s: Seq<(Seq<char>, AttrlModel)>, p: (Seq<char>, AttrlModel))
    ensures
        chain_of_entries(s.push(p)) == chain_of_entries(s) + nodes_of_entry(p.0, p.1),
    decreases s.len(),
{
    if s.len() == 0 {
        assert(s.push(p)[0] == p);
        assert(s.push(p).drop_first() =~= Seq::<(Seq<char>, AttrlModel)>::empty());
        assert(chain_of_entries(Seq::<(Seq<char>, AttrlModel)>::empty()) == Seq::<
            NodeModel,
        >::empty());
        assert(chain_of_entries(s.push(p)) == nodes_of_entry(p.0, p.1) + chain_of_entries(
            s.push(p).drop_first(),
        ));
        assert(chain_of_entries(s.push(p)) =~= chain_of_entries(s) + nodes_of_entry(p.0, p.1));
    } else {
        assert(s.push(p).drop_first() =~= s.drop_first().push(p));
        lemma_chain_of_entries_push(s.drop_first(), p);
        assert(nodes_of_entry(s[0].0, s[0].1) + (chain_of_entries(s.drop_first())
            + nodes_of_entry(p.0, p.1)) =~= chain_of_entries(s) + nodes_of_entry(p.0, p.1));
    }
}

/// Lowers a collection to the record chain it denotes.
pub fn to_chain(a: &Attribs) -> (r: Vec<ChainNode>)
    ensures
        chain_view(r@) == chain_of_entries(a@),
{
    let entries = a.attribs();
    let n = entries.len();
    let mut out: Vec<ChainNode> = Vec::new();
    let mut i: usize = 0;
    proof {
        assert(a@.take(0) =~= Seq::<(Seq<char>, AttrlModel)>::empty());
        assert(chain_view(out@) =~= chain_of_entries(a@.take(0)));
    }
    while i < n
        invariant
            0 <= i <= n,
            n == entries@.len(),
            entries@.map_values(|e: crate::attribs::AttribEntry| e@) == a@,
            chain_view(out@) == chain_of_entries(a@.take(i as int)),
        decreases n - i,
    {
        proof {
            assert(a@[i as int] == entries@[i as int]@);
            assert(a@.take(i as int).push(a@[i as int]) =~= a@.take(i as int + 1));
            lemma_chain_of_entries_push(a@.take(i as int), a@[i as int]);
        }
        let entry = &entries[i];
        match &entry.leaf {
            Attrl::Value(op) => {
                let node = ChainNode {
                    name: entry.name.clone(),
                    resource: None,
                    value: op.val(),
                    op: op.op(),
                };
                out.push(node);
                proof {
                    assert(chain_view(out@) =~= chain_of_entries(a@.take(i as int))
                        + nodes_of_entry(a@[i as int].0, a@[i as int].1));
                }
            },
            Attrl::Resource(resv) => {
                let m = resv.len();
                let mut j: usize = 0;
                proof {
                    assert(nodes_of_entry(a@[i as int].0, a@[i as int].1).take(0) =~= Seq::<
                        NodeModel,
                    >::empty());
                    assert(chain_view(out@) + nodes_of_entry(a@[i as int].0, a@[i as int].1).take(0)
                        =~= chain_view(out@));
                }
                let ghost base = chain_view(out@);
                while j < m
                    invariant
                        0 <= j <= m,
                        m == resv@.len(),
                        0 <= i < a@.len(),
                        entry.leaf@ == AttrlModel::Resource(res_view(resv@)),
                        a@[i as int].1 == entry.leaf@,
                        a@[i as int].0 == entry.name@,
                        chain_view(out@) == base + nodes_of_entry(a@[i as int].0, a@[i as int].1)
                            .take(j as int),
                    decreases m - j,
                {
                    let re = &resv[j];
                    let node = ChainNode {
                        name: entry.name.clone(),
                        resource: Some(re.name.clone()),
                        value: re.op.val(),
                        op: re.op.op(),
                    };
                    let ghost nm = node@;
                    let ghost prev = out@;
                    out.push(node);
                    proof {
                        let noe = nodes_of_entry(a@[i as int].0, a@[i as int].1);
                        assert(res_view(resv@)[j as int] == resv@[j as int]@);
                        assert(noe[j as int] == (NodeModel {
                            name: a@[i as int].0,
                            resource: Some(resv@[j as int].name@),
                            value: resv@[j as int].op@.val,
                            op: resv@[j as int].op@.kind,
                        }));
                        assert(nm == noe[j as int]);
                        assert(noe.len() == resv@.len());
                        assert(out@.len() == prev.len() + 1);
                        assert(out@[prev.len() as int]@ == nm);
                        assert(chain_view(prev) == base + noe.take(j as int));
                        assert(chain_view(prev).len() == prev.len());
                        assert(noe.take(j as int).len() == j as int);
                        assert(prev.len() == base.len() + j);
                        assert forall|t: int|
                            0 <= t < chain_view(out@).len() implies chain_view(out@)[t] == (base
                            + noe.take(j as int + 1))[t] by {
                            if t < base.len() + j {
                                assert(out@[t] == prev[t]);
                                assert(chain_view(out@)[t] == chain_view(prev)[t]);
                                assert(chain_view(prev)[t] == (base + noe.take(j as int))[t]);
                            } else {
                                assert(chain_view(out@)[t] == nm);
                            }
                        }
                        assert(chain_view(out@) =~= base + noe.take(j as int + 1));
                    }
                    j = j + 1;
                }
                proof {
                    assert(nodes_of_entry(a@[i as int].0, a@[i as int].1).take(m as int)
                        =~= nodes_of_entry(a@[i as int].0, a@[i as int].1));
                }
            },
        }
        i = i + 1;
    }
    proof {
        assert(a@.take(n as int) =~= a@);
    }
    out
}

/// Rebuilds a collection from an inbound record chain.
pub fn from_chain(nodes: &Vec<ChainNode>) -> (r: Attribs)
    ensures
        r@ == from_chain_spec(chain_view(nodes@)),
        r.wf(),
{
    let mut a = Attribs::new();
    let n = nodes.len();
    let mut i: usize = 0;
    proof {
        assert(chain_view(nodes@).skip(0) =~= chain_view(nodes@));
    }
    while i < n
        invariant
            0 <= i <= n,
            n == nodes@.len(),
            a.wf(),
            from_chain_spec(chain_view(nodes@)) == add_nodes(a@, chain_view(nodes@).skip(i as int)),
        decreases n - i,
    {
        proof {
            assert(chain_view(nodes@).skip(i as int)[0] == nodes@[i as int]@);
            assert(chain_view(nodes@).skip(i as int).drop_first() =~= chain_view(nodes@).skip(
                i as int + 1,
            ));
        }
        let node = &nodes[i];
        let leaf: Attrl = match &node.resource {
            None => Attrl::Value(Op::Default(node.value.clone())),
            Some(r) => {
                if r.as_str().is_empty() {
                    Attrl::Value(Op::Default(node.value.clone()))
                } else {
                    let entry = ResourceEntry { name: r.clone(), op: Op::Default(node.value.clone()) };
                    Attrl::Resource(vec![entry])
                }
            },
        };
        proof {
            assert(wf_leaf(leaf@)) by {
                match leaf@ {
                    AttrlModel::Resource(m) => {
                        assert(sorted_keys(m));
                    },
                    _ => {},
                }
            }
            assert(leaf@ == node_leaf(nodes@[i as int]@)) by {
                match leaf {
                    Attrl::Resource(v) => {
                        assert(res_view(v@) =~= seq![
                            (nodes@[i as int]@.resource->Some_0, default_op(nodes@[i as int]@.value)),
                        ]);
                    },
                    _ => {},
                }
            }
        }
        a.add(node.name.clone(), leaf);
        i = i + 1;
    }
    proof {
        assert(chain_view(nodes@).skip(n as int) =~= Seq::<NodeModel>::empty());
    }
    a
}

/// A leaf the record chain represents losslessly: its operators are all
/// `Default` (an inbound record carries no other operator back), and a
/// resource map is non-empty with non-empty resource names.
pub open spec fn leaf_lossless(l: AttrlModel) -> bool {
    match l {
        AttrlModel::Value(o) => o.kind == OpKind::Default,
        AttrlModel::Resource(m) => m.len() > 0 && (forall|j: int|
            0 <= j < m.len() ==> (#[trigger] m[j]).0.len() > 0 && m[j].1.kind
                == OpKind::Default),
    }
}

/// A collection the record chain represents losslessly.
pub open spec fn chain_lossless(s: Seq<(Seq<char>, AttrlModel)>) -> bool {
    wf_entries(s) && (forall|i: int| 0 <= i < s.len() ==> leaf_lossless(#[trigger] s[i].1))
}

/// Every key of `acc` lies strictly below `k`.
pub open spec fn keys_below(acc: Seq<(Seq<char>, AttrlModel)>, k: Seq<char>) -> bool {
    forall|i: int| 0 <= i < acc.len() ==> lex_lt((#[trigger] acc[i]).0, k)
}

/// Folding a concatenation folds its halves in turn.
proof fn lemma_add_nodes_append(
    acc: Seq<(Seq<char>, AttrlModel)>,
    ns1: Seq<NodeModel>,
    ns2: Seq<NodeModel>,
)
    ensures
        add_nodes(acc, ns1 + ns2) == add_nodes(add_nodes(acc, ns1), ns2),
    decreases ns1.len(),
{
    if ns1.len() == 0 {
        assert(ns1 + ns2 =~= ns2);
    } else {
        assert((ns1 + ns2)[0] == ns1[0]);
        assert((ns1 + ns2).drop_first() =~= ns1.drop_first() + ns2);
        lemma_add_nodes_append(
            add_leaf(acc, ns1[0].name, node_leaf(ns1[0])),
            ns1.drop_first(),
            ns2,
        );
    }
}

/// Adding under a name above every present name appends the entry.
proof fn lemma_add_leaf_fresh(acc: Seq<(Seq<char>, AttrlModel)>, k: Seq<char>, l: AttrlModel)
    requires
        keys_below(acc, k),
    ensures
        add_leaf(acc, k, l) == acc.push((k, l)),
{
    assert forall|j: int| 0 <= j < acc.len() implies (#[trigger] acc[j].0) != k by {
        lemma_lex_lt_ne(acc[j].0, k);
    }
    lemma_assoc_get_none(acc, k);
    assert forall|j: int| 0 <= j < acc.len() implies lex_lt(#[trigger] acc[j].0, k) by {}
    lemma_assoc_put_append(acc, k, l);
}

/// Looking up the key of a freshly appended entry finds that entry.
proof fn lemma_get_appended(acc: Seq<(Seq<char>, AttrlModel)>, k: Seq<char>, l: AttrlModel)
    requires
        keys_below(acc, k),
    ensures
        assoc_get(acc.push((k, l)), k) == Some(l),
{
    let s = acc.push((k, l));
    assert forall|j: int| 0 <= j < acc.len() implies (#[trigger] s[j].0) != k by {
        assert(s[j] == acc[j]);
        lemma_lex_lt_ne(acc[j].0, k);
    }
    lemma_assoc_get_skip(s, acc.len() as int, k);
    assert(s.skip(acc.len() as int) =~= seq![(k, l)]);
}

/// Re-inserting under the key of the last entry replaces that entry.
proof fn lemma_put_replaces_last(
    acc: Seq<(Seq<char>, AttrlModel)>,
    k: Seq<char>,
    l1: AttrlModel,
    l2: AttrlModel,
)
    requires
        keys_below(acc, k),
    ensures
        assoc_put(acc.push((k, l1)), k, l2) == acc.push((k, l2)),
{
    let s = acc.push((k, l1));
    assert forall|j: int| 0 <= j < acc.len() implies lex_lt(#[trigger] s[j].0, k) by {
        assert(s[j] == acc[j]);
    }
    lemma_assoc_put_skip(s, acc.len() as int, k, l2);
    assert(s.skip(acc.len() as int) =~= seq![(k, l1)]);
    lemma_lex_lt_irreflexive(k);
    assert(assoc_put(seq![(k, l1)], k, l2) =~= seq![(k, l2)]);
    assert(s.take(acc.len() as int) =~= acc);
    assert(s.take(acc.len() as int) + assoc_put(s.skip(acc.len() as int), k, l2) =~= acc.push(
        (k, l2),
    ));
}

/// Folding the remaining resource records of one attribute grows the
/// appended resource map entry by entry.
proof fn lemma_add_res_nodes(
    base: Seq<(Seq<char>, AttrlModel)>,
    k: Seq<char>,
    m: Seq<(Seq<char>, OpModel)>,
    j: int,
)
    requires
        keys_below(base, k),
        sorted_keys(m),
        forall|t: int|
            0 <= t < m.len() ==> (#[trigger] m[t]).0.len() > 0 && m[t].1.kind == OpKind::Default,
        1 <= j <= m.len(),
    ensures
        add_nodes(
            base.push((k, AttrlModel::Resource(m.take(j)))),
            nodes_of_entry(k, AttrlModel::Resource(m)).skip(j),
        ) == base.push((k, AttrlModel::Resource(m))),
    decreases m.len() - j,
{
    let nodes = nodes_of_entry(k, AttrlModel::Resource(m));
    assert(nodes.len() == m.len());
    if j == m.len() {
        assert(nodes.skip(j) =~= Seq::<NodeModel>::empty());
        assert(m.take(j) =~= m);
    } else {
        let acc = base.push((k, AttrlModel::Resource(m.take(j))));
        assert(nodes.skip(j)[0] == nodes[j]);
        assert(nodes[j] == (NodeModel {
            name: k,
            resource: Some(m[j].0),
            value: m[j].1.val,
            op: m[j].1.kind,
        }));
        assert(default_op(m[j].1.val) == m[j].1);
        assert(node_leaf(nodes[j]) == AttrlModel::Resource(seq![m[j]])) by {
            assert(seq![(m[j].0, default_op(m[j].1.val))] =~= seq![m[j]]);
        }
        lemma_get_appended(base, k, AttrlModel::Resource(m.take(j)));
        let merged = AttrlModel::Resource(assoc_union(m.take(j), seq![m[j]]));
        assert(assoc_union(m.take(j), seq![m[j]]) == assoc_put(m.take(j), m[j].0, m[j].1)) by {
            let e = seq![m[j]];
            let b2 = assoc_put(m.take(j), e[0].0, e[0].1);
            assert(e.drop_first() =~= Seq::<(Seq<char>, OpModel)>::empty());
            assert(assoc_union(b2, Seq::<(Seq<char>, OpModel)>::empty()) == b2);
            assert(assoc_union(m.take(j), e) == assoc_union(b2, e.drop_first()));
        }
        assert forall|t: int| 0 <= t < m.take(j).len() implies lex_lt(
            #[trigger] m.take(j)[t].0,
            m[j].0,
        ) by {
            assert(m.take(j)[t] == m[t]);
        }
        lemma_assoc_put_append(m.take(j), m[j].0, m[j].1);
        assert(m.take(j).push(m[j]) =~= m.take(j + 1));
        assert(merged == AttrlModel::Resource(m.take(j + 1)));
        lemma_put_replaces_last(base, k, AttrlModel::Resource(m.take(j)), merged);
        assert(add_leaf(acc, k, node_leaf(nodes[j])) == base.push((k, merged)));
        assert(nodes.skip(j).drop_first() =~= nodes.skip(j + 1));
        lemma_add_res_nodes(base, k, m, j + 1);
    }
}

/// Folding the records of one fresh attribute appends exactly that
/// attribute.
proof fn lemma_add_entry_fresh(acc: Seq<(Seq<char>, AttrlModel)>, k: Seq<char>, l: AttrlModel)
    requires
        keys_below(acc, k),
        leaf_lossless(l),
        wf_leaf(l),
    ensures
        add_nodes(acc, nodes_of_entry(k, l)) == acc.push((k, l)),
{
    let nodes = nodes_of_entry(k, l);
    match l {
        AttrlModel::Value(o) => {
            assert(nodes[0] == (NodeModel { name: k, resource: None, value: o.val, op: o.kind }));
            assert(default_op(o.val) == o);
            assert(node_leaf(nodes[0]) == l);
            lemma_add_leaf_fresh(acc, k, l);
            assert(nodes.drop_first() =~= Seq::<NodeModel>::empty());
            assert(add_nodes(acc.push((k, l)), Seq::<NodeModel>::empty()) == acc.push((k, l)));
            assert(add_nodes(acc, nodes) == add_nodes(
                add_leaf(acc, nodes[0].name, node_leaf(nodes[0])),
                nodes.drop_first(),
            ));
        },
        AttrlModel::Resource(m) => {
            assert(nodes[0] == (NodeModel {
                name: k,
                resource: Some(m[0].0),
                value: m[0].1.val,
                op: m[0].1.kind,
            }));
            assert(default_op(m[0].1.val) == m[0].1);
            assert(node_leaf(nodes[0]) == AttrlModel::Resource(seq![m[0]])) by {
                assert(seq![(m[0].0, default_op(m[0].1.val))] =~= seq![m[0]]);
            }
            assert(seq![m[0]] =~= m.take(1));
            lemma_add_leaf_fresh(acc, k, AttrlModel::Resource(m.take(1)));
            assert(nodes.drop_first() =~= nodes.skip(1));
            lemma_add_res_nodes(acc, k, m, 1);
        },
    }
}

/// Folding the whole chain of a lossless collection back, onto an
/// accumulator that sits entirely below it, appends the collection.
proof fn lemma_round_trip_acc(acc: Seq<(Seq<char>, AttrlModel)>, s: Seq<(Seq<char>, AttrlModel)>)
    requires
        chain_lossless(s),
        forall|i: int, j: int|
            0 <= i < acc.len() && 0 <= j < s.len() ==> lex_lt(
                (#[trigger] acc[i]).0,
                (#[trigger] s[j]).0,
            ),
    ensures
        add_nodes(acc, chain_of_entries(s)) == acc + s,
    decreases s.len(),
{
    if s.len() == 0 {
        assert(chain_of_entries(s) =~= Seq::<NodeModel>::empty());
        assert(acc + s =~= acc);
    } else {
        lemma_add_nodes_append(acc, nodes_of_entry(s[0].0, s[0].1), chain_of_entries(
            s.drop_first(),
        ));
        assert(keys_below(acc, s[0].0));
        assert(wf_leaf(s[0].1));
        lemma_add_entry_fresh(acc, s[0].0, s[0].1);
        let acc2 = acc.push((s[0].0, s[0].1));
        assert(acc2 == acc.push(s[0])) by {
            assert((s[0].0, s[0].1) == s[0]);
        }
        assert(chain_lossless(s.drop_first())) by {
            assert forall|i: int, j: int|
                0 <= i < j < s.drop_first().len() implies lex_lt(
                (#[trigger] s.drop_first()[i]).0,
                (#[trigger] s.drop_first()[j]).0,
            ) by {
                assert(s.drop_first()[i] == s[i + 1]);
                assert(s.drop_first()[j] == s[j + 1]);
            }
            assert forall|i: int| 0 <= i < s.drop_first().len() implies wf_leaf(
                #[trigger] s.drop_first()[i].1,
            ) && leaf_lossless(s.drop_first()[i].1) by {
                assert(s.drop_first()[i] == s[i + 1]);
            }
        }
        assert forall|i: int, j: int|
            0 <= i < acc2.len() && 0 <= j < s.drop_first().len() implies lex_lt(
            (#[trigger] acc2[i]).0,
            (#[trigger] s.drop_first()[j]).0,
        ) by {
            assert(s.drop_first()[j] == s[j + 1]);
            if i < acc.len() {
                assert(acc2[i] == acc[i]);
            } else {
                assert(acc2[i] == s[0]);
                assert(lex_lt(s[0].0, s[j + 1].0));
            }
        }
        lemma_round_trip_acc(acc2, s.drop_first());
        assert(acc2 + s.drop_first() =~= acc + s);
    }
}

/// Round trip: lowering a collection to its record chain and folding the
/// chain back yields the collection again, for every collection the
/// chain represents losslessly.
pub proof fn lemma_chain_round_trip(s: Seq<(Seq<char>, AttrlModel)>)
    requires
        chain_lossless(s),
    ensures
        from_chain_spec(chain_of_entries(s)) == s,
{
    lemma_round_trip_acc(Seq::empty(), s);
    assert(Seq::<(Seq<char>, AttrlModel)>::empty() + s =~= s);
}

} // verus!
