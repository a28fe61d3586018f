//! One query result entity and the batch conversion of a whole inbound
//! result chain.

use vstd::prelude::*;

use crate::attribs::Attribs;
use crate::attrl::{Attrl, AttrlModel};
use crate::bridge::{chain_view, from_chain, from_chain_spec, ChainNode};

verus! {

/// One entity of an inbound result chain, as plain data: its name, its
/// optional free text, and its attribute records.
#[derive(Debug)]
pub struct StatEntity {
    pub name: String,
    pub text: Option<String>,
    pub attribs: Vec<ChainNode>,
}

/// Mathematical model of a [`StatEntity`].
pub struct StatEntityModel {
    pub name: Seq<char>,
    pub text: Option<Seq<char>>,
    pub attribs: Seq<crate::bridge::NodeModel>,
}

impl View for StatEntity {
    type V = StatEntityModel;

    open spec fn view(&self) -> StatEntityModel {
        StatEntityModel {
            name: self.name@,
            text: match &self.text {
                Some(t) => Some(t@),
                None => None,
            },
            attribs: chain_view(self.attribs@),
        }
    }
}

/// One server-returned entity and its rebuilt attribute collection.
#[derive(Debug)]
pub struct Status {
    name: String,
    text: Option<String>,
    attribs: Attribs,
}

/// Mathematical model of a [`Status`].
pub struct StatusModel {
    pub name: Seq<char>,
    pub text: Option<Seq<char>>,
    pub attribs: Seq<(Seq<char>, AttrlModel)>,
}

impl View for Status {
    type V = StatusModel;

    closed spec fn view(&self) -> StatusModel {
        StatusModel {
            name: self.name@,
            text: match &self.text {
                Some(t) => Some(t@),
                None => None,
            },
            attribs: self.attribs@,
        }
    }
}

impl Status {
    /// The attribute collection inside is well formed.
    pub closed spec fn wf(&self) -> bool {
        self.attribs.wf()
    }

    /// Builds a status record from its parts.
    pub fn new(name: String, text: Option<String>, attribs: Attribs) -> (r: Status)
        requires
            attribs.wf(),
        ensures
            r@.name == name@,
            r@.text == match text {
                Some(t) => Some(t@),
                None => None::<Seq<char>>,
            },
            r@.attribs == attribs@,
            r.wf(),
    {
        Status { name, text, attribs }
    }

    /// A copy of the entity's name.
    pub fn name(&self) -> (r: String)
        ensures
            r@ == self@.name,
    {
        self.name.clone()
    }

    /// The entity's attribute collection.
    pub fn attribs(&self) -> (r: &Attribs)
        ensures
            r@ == self@.attribs,
            self.wf() ==> r.wf(),
    {
        &self.attribs
    }

    /// Inserts an attribute into the entity's collection, with the usual
    /// merge rules.
    pub fn add(&mut self, k: String, v: Attrl)
        requires
            old(self).wf(),
            crate::attrl::wf_leaf(v@),
        ensures
            final(self).wf(),
            final(self)@.name == old(self)@.name,
            final(self)@.text == old(self)@.text,
            final(self)@.attribs == crate::attribs::add_leaf(old(self)@.attribs, k@, v@),
    {
        self.attribs.add(k, v);
    }
}

/// The response to a stat query: the returned entities in server order.
#[derive(Debug)]
pub struct StatResp {
    pub resources: Vec<Status>,
}

/// Whether `s` is the status record that entity `e` transcribes to.
pub open spec fn status_of_entity(s: Status, e: StatEntityModel) -> bool {
    &&& s@.name == e.name
    &&& s@.text == e.text
    &&& s@.attribs == from_chain_spec(e.attribs)
    &&& s.wf()
}

/// Whether `rs` transcribes the entity sequence `es`, in order.
pub open spec fn statuses_of_entities(rs: Seq<Status>, es: Seq<StatEntityModel>) -> bool {
    rs.len() == es.len() && (forall|i: int|
        0 <= i < rs.len() ==> status_of_entity(#[trigger] rs[i], es[i]))
}

impl StatResp {
    /// Transcribes a whole inbound result chain, entity by entity in
    /// chain order.
    pub fn from_entities(entities: Vec<StatEntity>) -> (r: StatResp)
        ensures
            statuses_of_entities(r.resources@, entities@.map_values(|e: StatEntity| e@)),
    {
        let n = entities.len();
        let mut out: Vec<Status> = Vec::new();
        let mut i: usize = 0;
        while i < n
            invariant
                0 <= i <= n,
                n == entities@.len(),
                out@.len() == i,
                forall|j: int|
                    0 <= j < i ==> status_of_entity(#[trigger] out@[j], entities@[j]@),
            decreases n - i,
        {
            let e = &entities[i];
            let attribs = from_chain(&e.attribs);
            let text = match &e.text {
                Some(t) => Some(t.clone()),
                None => None,
            };
            let st = Status::new(e.name.clone(), text, attribs);
            out.push(st);
            i = i + 1;
        }
        let r = StatResp { resources: out };
        proof {
            assert forall|j: int|
                0 <= j < r.resources@.len() implies status_of_entity(
                #[trigger] r.resources@[j],
                entities@.map_values(|e: StatEntity| e@)[j],
            ) by {
                assert(entities@.map_values(|e: StatEntity| e@)[j] == entities@[j]@);
            }
        }
        r
    }
}

} // verus!
