//! Flattening an attribute collection into key/value pairs of coerced
//! values, suitable for serialization.
//!
//! Scalar attributes emit their name; resource attributes emit one
//! `name.resource` key per resource.  Two names are special: `comment`
//! always passes through as a raw string, and `state_count` carries a
//! packed `"State:Count State:Count "` string that is expanded into one
//! numeric entry per state (an empty segment ends the expansion, and a
//! segment without a colon is skipped).

use vstd::prelude::*;

use crate::attribs::Attribs;
use crate::attrl::{Attrl, AttrlModel};
use crate::coerce::{coerce, coerce_spec, Coerced, CoercedModel};
use crate::strutil::{find_from, join_dot, lemma_find_from, lemma_find_from_skip, str_find_from};

verus! {

/// The model of an emitted key/value vector.
pub open spec fn pairs_view(v: Seq<(String, Coerced)>) -> Seq<(Seq<char>, CoercedModel)> {
    v.map_values(|p: (String, Coerced)| (p.0@, p.1@))
}

/// The count part of one packed segment: the text between the first and
/// second colon, or to the end if there is no second colon.
pub open spec fn seg_num(seg: Seq<char>, c: int) -> Seq<char> {
    let after = seg.skip(c + 1);
    match find_from(after, 0, ':') {
        Some(d) => after.take(d),
        None => after,
    }
}

/// The entries a packed `state_count` value expands to, segment by
/// segment; an empty segment ends the expansion, and a segment without
/// a colon contributes nothing.
pub open spec fn state_count_entries(name: Seq<char>, packed: Seq<char>) -> Seq<
    (Seq<char>, CoercedModel),
>
    decreases packed.len(),
    via state_count_entries_decreases
{
    let seg_end = match find_from(packed, 0, ' ') {
        Some(j) => j,
        None => packed.len() as int,
    };
    let seg = packed.take(seg_end);
    if seg.len() == 0 {
        Seq::empty()
    } else {
        let here = match find_from(seg, 0, ':') {
            Some(c) => seq![
                (name + seq!['.'] + seg.take(c), coerce_spec(seg_num(seg, c))),
            ],
            None => Seq::empty(),
        };
        if seg_end < packed.len() {
            here + state_count_entries(name, packed.skip(seg_end + 1))
        } else {
            here
        }
    }
}

#[via_fn]
proof fn state_count_entries_decreases(name: Seq<char>, packed: Seq<char>) {
    lemma_find_from(packed, 0, ' ');
}

/// The entries one attribute emits.
pub open spec fn structured_of_entry(name: Seq<char>, l: AttrlModel) -> Seq<
    (Seq<char>, CoercedModel),
> {
    match l {
        AttrlModel::Value(o) => if name == "state_count"@ {
            state_count_entries(name, o.val)
        } else if name == "comment"@ {
            seq![(name, CoercedModel::Str(o.val))]
        } else {
            seq![(name, coerce_spec(o.val))]
        },
        AttrlModel::Resource(m) => m.map_values(
            |p: (Seq<char>, crate::op::OpModel)| (name + seq!['.'] + p.0, coerce_spec(p.1.val)),
        ),
    }
}

/// A collection's structured entries, attribute by attribute in stored
/// order.
pub open spec fn structured_entries(s: Seq<(Seq<char>, AttrlModel)>) -> Seq<
    (Seq<char>, CoercedModel),
>
    decreases s.len(),
{
    if s.len() == 0 {
        Seq::empty()
    } else {
        structured_of_entry(s[0].0, s[0].1) + structured_entries(s.drop_first())
    }
}

/// Appending an attribute appends its entries.
proof fn lemma_structured_entries_push(
    s: Seq<(Seq<char>, AttrlModel)>,
    p: (Seq<char>, AttrlModel),
)
    ensures
        structured_entries(s.push(p)) == structured_entries(s) + structured_of_entry(p.0, p.1),
    decreases s.len(),
{
    if s.len() == 0 {
        assert(s.push(p)[0] == p);
        assert(s.push(p).drop_first() =~= Seq::<(Seq<char>, AttrlModel)>::empty());
        assert(structured_entries(Seq::<(Seq<char>, AttrlModel)>::empty()) == Seq::<
            (Seq<char>, CoercedModel),
        >::empty());
        assert(structured_entries(s.push(p)) == structured_of_entry(p.0, p.1)
            + structured_entries(s.push(p).drop_first()));
        assert(structured_entries(s.push(p)) =~= structured_entries(s) + structured_of_entry(
            p.0,
            p.1,
        ));
    } else {
        assert(s.push(p).drop_first() =~= s.drop_first().push(p));
        lemma_structured_entries_push(s.drop_first(), p);
        assert(structured_of_entry(s[0].0, s[0].1) + (structured_entries(s.drop_first())
            + structured_of_entry(p.0, p.1)) =~= structured_entries(s) + structured_of_entry(
            p.0,
            p.1,
        ));
    }
}

/// Expands one packed `state_count` value.
fn expand_state_count(name: &str, packed: &str) -> (r: Vec<(String, Coerced)>)
    ensures
        pairs_view(r@) == state_count_entries(name@, packed@),
{
    let mut out: Vec<(String, Coerced)> = Vec::new();
    let len = packed.unicode_len();
    let mut pos: usize = 0;
    proof {
        assert(packed@.skip(0) =~= packed@);
        assert(pairs_view(out@) + state_count_entries(name@, packed@.skip(0)) =~= state_count_entries(
            name@,
            packed@,
        ));
    }
    loop
        invariant_except_break
            0 <= pos <= len,
            len == packed@.len(),
            state_count_entries(name@, packed@) == pairs_view(out@) + state_count_entries(
                name@,
                packed@.skip(pos as int),
            ),
        ensures
            pairs_view(out@) == state_count_entries(name@, packed@),
        decreases len - pos,
    {
        let ghost tail = packed@.skip(pos as int);
        let seg_end: usize = match crate::strutil::str_find_from(packed, pos, ' ') {
            Some(j) => j,
            None => len,
        };
        proof {
            lemma_find_from(packed@, pos as int, ' ');
            lemma_find_from_skip(packed@, pos as int, ' ');
        }
        let ghost rel_end: int = seg_end as int - pos as int;
        let ghost seg = tail.take(rel_end as int);
        proof {
            assert(match find_from(tail, 0, ' ') {
                Some(j) => j == rel_end,
                None => rel_end == tail.len(),
            });
        }
        if seg_end == pos {
            proof {
                assert(seg.len() == 0);
                assert(state_count_entries(name@, tail) =~= Seq::<(Seq<char>, CoercedModel)>::empty());
                assert(pairs_view(out@) + state_count_entries(name@, tail) =~= pairs_view(out@));
            }
            break ;
        }
        let seg_str = packed.substring_char(pos, seg_end);
        proof {
            assert(seg_str@ =~= seg);
        }
        let seg_len = seg_end - pos;
        let ghost here = match find_from(seg, 0, ':') {
            Some(c) => seq![(name@ + seq!['.'] + seg.take(c), coerce_spec(seg_num(seg, c)))],
            None => Seq::<(Seq<char>, CoercedModel)>::empty(),
        };
        let ghost prev_pairs = pairs_view(out@);
        match str_find_from(seg_str, 0, ':') {
            None => {
                proof {
                    assert(here =~= Seq::<(Seq<char>, CoercedModel)>::empty());
                    assert(pairs_view(out@) =~= prev_pairs + here);
                }
            },
            Some(cpos) => {
                proof {
                    lemma_find_from(seg, 0, ':');
                }
                let state = seg_str.substring_char(0, cpos);
                let after = seg_str.substring_char(cpos + 1, seg_len);
                proof {
                    assert(after@ =~= seg.skip(cpos as int + 1));
                    lemma_find_from(after@, 0, ':');
                }
                let after_len = seg_len - (cpos + 1);
                let dpos: usize = match str_find_from(after, 0, ':') {
                    Some(d) => d,
                    None => after_len,
                };
                let num = after.substring_char(0, dpos);
                proof {
                    assert(num@ =~= seg_num(seg, cpos as int));
                    assert(state@ =~= seg.take(cpos as int));
                }
                let key = join_dot(name, state);
                let val = coerce(num);
                out.push((key, val));
                proof {
                    assert(pairs_view(out@) =~= prev_pairs + here);
                }
            },
        }
        proof {
            assert(state_count_entries(name@, tail) == here + (if rel_end < tail.len() {
                state_count_entries(name@, tail.skip(rel_end + 1))
            } else {
                Seq::<(Seq<char>, CoercedModel)>::empty()
            }));
        }
        if seg_end == len {
            proof {
                assert(rel_end == tail.len());
                assert(state_count_entries(name@, tail) == here);
                assert(pairs_view(out@) =~= state_count_entries(name@, packed@));
            }
            break ;
        }
        proof {
            assert(rel_end < tail.len());
            assert(tail.skip(rel_end + 1) =~= packed@.skip(seg_end as int + 1));
            assert(pairs_view(out@) + state_count_entries(name@, packed@.skip(seg_end as int + 1))
                =~= state_count_entries(name@, packed@));
        }
        pos = seg_end + 1;
    }
    out
}

impl Attribs {
    /// Flattens the collection into coerced key/value pairs, in stored
    /// attribute order.
    pub fn to_structured_value(&self) -> (r: Vec<(String, Coerced)>)
        ensures
            pairs_view(r@) == structured_entries(self@),
    {
        let entries = self.attribs();
        let n = entries.len();
        let mut out: Vec<(String, Coerced)> = Vec::new();
        let mut i: usize = 0;
        proof {
            assert(self@.take(0) =~= Seq::<(Seq<char>, AttrlModel)>::empty());
            assert(pairs_view(out@) =~= structured_entries(self@.take(0)));
        }
        while i < n
            invariant
                0 <= i <= n,
                n == entries@.len(),
                entries@.map_values(|e: crate::attribs::AttribEntry| e@) == self@,
                pairs_view(out@) == structured_entries(self@.take(i as int)),
            decreases n - i,
        {
            proof {
                assert(self@[i as int] == entries@[i as int]@);
                assert(self@.take(i as int).push(self@[i as int]) =~= self@.take(i as int + 1));
                lemma_structured_entries_push(self@.take(i as int), self@[i as int]);
            }
            let ghost prev_pairs = pairs_view(out@);
            let entry = &entries[i];
            match &entry.leaf {
                Attrl::Value(op) => {
                    if crate::strutil::str_eq(entry.name.as_str(), "state_count") {
                        let v = op.val();
                        let mut expanded = expand_state_count(entry.name.as_str(), v.as_str());
                        let ghost exp_pairs = pairs_view(expanded@);
                        out.append(&mut expanded);
                        proof {
                            assert(pairs_view(out@) =~= prev_pairs + exp_pairs);
                        }
                    } else if crate::strutil::str_eq(entry.name.as_str(), "comment") {
                        out.push((entry.name.clone(), Coerced::Str(op.val())));
                        proof {
                            assert(pairs_view(out@) =~= prev_pairs + structured_of_entry(
                                self@[i as int].0,
                                self@[i as int].1,
                            ));
                        }
                    } else {
                        let v = op.val();
                        out.push((entry.name.clone(), coerce(v.as_str())));
                        proof {
                            assert(pairs_view(out@) =~= prev_pairs + structured_of_entry(
                                self@[i as int].0,
                                self@[i as int].1,
                            ));
                        }
                    }
                },
                Attrl::Resource(resv) => {
                    let m = resv.len();
                    let mut j: usize = 0;
                    proof {
                        assert(structured_of_entry(self@[i as int].0, self@[i as int].1).take(0)
                            =~= Seq::<(Seq<char>, CoercedModel)>::empty());
                        assert(pairs_view(out@) =~= prev_pairs + structured_of_entry(
                            self@[i as int].0,
                            self@[i as int].1,
                        ).take(0));
                    }
                    while j < m
                        invariant
                            0 <= j <= m,
                            m == resv@.len(),
                            0 <= i < self@.len(),
                            entry.leaf@ == AttrlModel::Resource(crate::attrl::res_view(resv@)),
                            self@[i as int].1 == entry.leaf@,
                            self@[i as int].0 == entry.name@,
                            pairs_view(out@) == prev_pairs + structured_of_entry(
                                self@[i as int].0,
                                self@[i as int].1,
                            ).take(j as int),
                        decreases m - j,
                    {
                        let re = &resv[j];
                        let key = join_dot(entry.name.as_str(), re.name.as_str());
                        let v = re.op.val();
                        let ghost before = pairs_view(out@);
                        let ghost prev_vec = out@;
                        out.push((key, coerce(v.as_str())));
                        proof {
                            let soe = structured_of_entry(self@[i as int].0, self@[i as int].1);
                            assert(crate::attrl::res_view(resv@)[j as int] == resv@[j as int]@);
                            assert(soe[j as int] == (
                                self@[i as int].0 + seq!['.'] + resv@[j as int].name@,
                                coerce_spec(resv@[j as int].op@.val),
                            ));
                            assert(soe.len() == resv@.len());
                            assert(soe.take(j as int).len() == j as int);
                            assert(before == prev_pairs + soe.take(j as int));
                            assert(before.len() == prev_pairs.len() + j);
                            assert(prev_vec.len() == before.len());
                            assert(pairs_view(out@).len() == before.len() + 1);
                            assert(pairs_view(out@)[prev_vec.len() as int] == soe[j as int]);
                            assert forall|t: int|
                                0 <= t < pairs_view(out@).len() implies pairs_view(out@)[t] == (
                            prev_pairs + soe.take(j as int + 1))[t] by {
                                if t < prev_vec.len() {
                                    assert(out@[t] == prev_vec[t]);
                                    assert(pairs_view(out@)[t] == before[t]);
                                    assert(before[t] == (prev_pairs + soe.take(j as int))[t]);
                                }
                            }
                            assert(pairs_view(out@) =~= prev_pairs + soe.take(j as int + 1));
                        }
                        j = j + 1;
                    }
                    proof {
                        assert(structured_of_entry(self@[i as int].0, self@[i as int].1).take(
                            m as int,
                        ) =~= structured_of_entry(self@[i as int].0, self@[i as int].1));
                    }
                },
            }
            i = i + 1;
        }
        proof {
            assert(self@.take(n as int) =~= self@);
        }
        out
    }
}

} // verus!
