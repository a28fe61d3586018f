//! The decision logic behind the server calls: what each call's outcome
//! means, which extend flags a request carries, and the criteria built
//! for node state transitions.
//!
//! The calls themselves block on the batch server and live outside this
//! crate; every function here takes the call's raw outcome, or builds
//! the values the call is handed, as plain data.

use vstd::prelude::*;

use crate::attribs::{add_leaf, Attribs};
use crate::attrl::{Attrl, AttrlModel};
use crate::op::{Op, OpKind, OpModel};
use crate::status::{statuses_of_entities, StatEntity, StatResp};

verus! {

/// Flags for modifying a reservation.
#[derive(Debug, PartialEq)]
pub enum ResvModFlag {
    Force,
}

/// Flags for submitting a reservation.
#[derive(Debug, PartialEq)]
pub enum ResvSubFlag {
    Maintenance,
}

/// The extend string a reservation submission carries: `"m"` when a
/// maintenance flag is present.
pub fn resv_sub_extend(flags: &Vec<ResvSubFlag>) -> (r: Option<String>)
    ensures
        match r {
            Some(s) => s@ == "m"@ && (exists|i: int|
                0 <= i < flags@.len() && flags@[i] is Maintenance),
            None => forall|i: int| 0 <= i < flags@.len() ==> !((#[trigger] flags@[i]) is Maintenance),
        },
{
    let n = flags.len();
    let mut i: usize = 0;
    while i < n
        invariant
            0 <= i <= n,
            n == flags@.len(),
            forall|j: int| 0 <= j < i ==> !((#[trigger] flags@[j]) is Maintenance),
        decreases n - i,
    {
        match flags[i] {
            ResvSubFlag::Maintenance => {
                return Some("m".to_owned());
            },
        }
    }
    None
}

/// The extend string a reservation modification carries: `"force"` when
/// a force flag is present.
pub fn resv_mod_extend(flags: &Vec<ResvModFlag>) -> (r: Option<String>)
    ensures
        match r {
            Some(s) => s@ == "force"@ && (exists|i: int|
                0 <= i < flags@.len() && flags@[i] is Force),
            None => forall|i: int| 0 <= i < flags@.len() ==> !((#[trigger] flags@[i]) is Force),
        },
{
    let n = flags.len();
    let mut i: usize = 0;
    while i < n
        invariant
            0 <= i <= n,
            n == flags@.len(),
            forall|j: int| 0 <= j < i ==> !((#[trigger] flags@[j]) is Force),
        decreases n - i,
    {
        match flags[i] {
            ResvModFlag::Force => {
                return Some("force".to_owned());
            },
        }
    }
    None
}

/// What a stat call's outcome means: a missing result chain together
/// with a raised error reports the error text; anything else is a
/// response, empty for a missing chain and transcribed entity by entity
/// otherwise.
pub fn stat_outcome(data: Option<Vec<StatEntity>>, error_raised: bool, error_text: String) -> (r:
    Result<StatResp, String>)
    ensures
        match r {
            Err(e) => data is None && error_raised && e@ == error_text@,
            Ok(resp) => match data {
                None => !error_raised && resp.resources@.len() == 0,
                Some(v) => statuses_of_entities(
                    resp.resources@,
                    v@.map_values(|e: StatEntity| e@),
                ),
            },
        },
{
    match data {
        None => {
            if error_raised {
                Err(error_text)
            } else {
                Ok(StatResp { resources: Vec::new() })
            }
        },
        Some(v) => Ok(StatResp::from_entities(v)),
    }
}

/// What a submission call's outcome means: the identifier the server
/// handed back, or the error text when it handed back none.
pub fn submit_outcome(id: Option<String>, error_text: String) -> (r: Result<String, String>)
    ensures
        match r {
            Ok(s) => id matches Some(x) && s@ == x@,
            Err(e) => id is None && e@ == error_text@,
        },
{
    match id {
        Some(x) => Ok(x),
        None => Err(error_text),
    }
}

/// What a manager or delete call's status code means: zero is success,
/// anything else reports the error text.
pub fn manage_outcome(status: i32, error_text: String) -> (r: Result<(), String>)
    ensures
        match r {
            Ok(_) => status == 0,
            Err(e) => status != 0 && e@ == error_text@,
        },
{
    if status == 0 {
        Ok(())
    } else {
        Err(error_text)
    }
}

/// The criteria that mark a node offline: increment `offline` onto the
/// node state, and set the comment when one is given.
pub fn offline_criteria(comment: Option<&str>) -> (r: Attribs)
    ensures
        r.wf(),
        ({
            let state_entry = (
                "state"@,
                AttrlModel::Value(OpModel { kind: OpKind::Incr, val: "offline"@ }),
            );
            match comment {
                None => r@ == seq![state_entry],
                Some(c) => r@ == seq![
                    ("comment"@, AttrlModel::Value(OpModel { kind: OpKind::Assign, val: c@ })),
                    state_entry,
                ],
            }
        }),
{
    proof {
        reveal_strlit("state");
        reveal_strlit("comment");
    }
    let mut a = Attribs::new();
    a.add("state".to_owned(), Attrl::Value(Op::Incr("offline".to_owned())));
    proof {
        lemma_single_entry(
            "state"@,
            AttrlModel::Value(OpModel { kind: OpKind::Incr, val: "offline"@ }),
        );
    }
    if let Some(c) = comment {
        proof {
            lemma_prepended_entry(
                "comment"@,
                AttrlModel::Value(OpModel { kind: OpKind::Assign, val: c@ }),
                "state"@,
                AttrlModel::Value(OpModel { kind: OpKind::Incr, val: "offline"@ }),
            );
        }
        a.add("comment".to_owned(), Attrl::Value(Op::Assign(c.to_owned())));
    }
    a
}

/// The criteria that clear a node: decrement `offline` and then `down`
/// off the node state (the second write replaces the first), and set the
/// comment when one is given.
pub fn clear_criteria(comment: Option<&str>) -> (r: Attribs)
    ensures
        r.wf(),
        ({
            let state_entry = (
                "state"@,
                AttrlModel::Value(OpModel { kind: OpKind::Decr, val: "down"@ }),
            );
            match comment {
                None => r@ == seq![state_entry],
                Some(c) => r@ == seq![
                    ("comment"@, AttrlModel::Value(OpModel { kind: OpKind::Assign, val: c@ })),
                    state_entry,
                ],
            }
        }),
{
    proof {
        reveal_strlit("state");
        reveal_strlit("comment");
    }
    let mut a = Attribs::new();
    a.add("state".to_owned(), Attrl::Value(Op::Decr("offline".to_owned())));
    proof {
        lemma_single_entry(
            "state"@,
            AttrlModel::Value(OpModel { kind: OpKind::Decr, val: "offline"@ }),
        );
    }
    a.add("state".to_owned(), Attrl::Value(Op::Decr("down".to_owned())));
    proof {
        lemma_replaced_single(
            "state"@,
            AttrlModel::Value(OpModel { kind: OpKind::Decr, val: "offline"@ }),
            AttrlModel::Value(OpModel { kind: OpKind::Decr, val: "down"@ }),
        );
    }
    if let Some(c) = comment {
        proof {
            lemma_prepended_entry(
                "comment"@,
                AttrlModel::Value(OpModel { kind: OpKind::Assign, val: c@ }),
                "state"@,
                AttrlModel::Value(OpModel { kind: OpKind::Decr, val: "down"@ }),
            );
        }
        a.add("comment".to_owned(), Attrl::Value(Op::Assign(c.to_owned())));
    }
    a
}

/// Adding to an empty collection makes the one-entry collection.
proof fn lemma_single_entry(k: Seq<char>, l: AttrlModel)
    ensures
        add_leaf(Seq::empty(), k, l) == seq![(k, l)],
{
    assert(add_leaf(Seq::<(Seq<char>, AttrlModel)>::empty(), k, l) =~= seq![(k, l)]);
}

/// Adding a scalar under the name of a one-entry scalar collection
/// replaces the entry.
proof fn lemma_replaced_single(k: Seq<char>, l1: AttrlModel, l2: AttrlModel)
    requires
        l1 is Value,
        l2 is Value,
    ensures
        add_leaf(seq![(k, l1)], k, l2) == seq![(k, l2)],
{
    let s = seq![(k, l1)];
    crate::strutil::lemma_lex_lt_irreflexive(k);
    assert(add_leaf(s, k, l2) =~= seq![(k, l2)]) by {
        assert(assoc_get_one(k, l1) == Some(l1));
        assert(crate::assoc::assoc_put(s, k, l2) =~= seq![(k, l2)]);
    }
}

/// Lookup in a one-entry sequence.
spec fn assoc_get_one(k: Seq<char>, l: AttrlModel) -> Option<AttrlModel> {
    crate::assoc::assoc_get(seq![(k, l)], k)
}

/// Adding under a name below a one-entry collection's name prepends the
/// new entry.
proof fn lemma_prepended_entry(k1: Seq<char>, l1: AttrlModel, k2: Seq<char>, l2: AttrlModel)
    requires
        crate::strutil::lex_lt(k1, k2),
    ensures
        add_leaf(seq![(k2, l2)], k1, l1) == seq![(k1, l1), (k2, l2)],
{
    let s = seq![(k2, l2)];
    crate::assoc::lemma_lex_lt_ne(k1, k2);
    crate::assoc::lemma_assoc_get_none(s, k1);
    assert(crate::assoc::assoc_put(s, k1, l1) =~= seq![(k1, l1), (k2, l2)]);
}

} // verus!
