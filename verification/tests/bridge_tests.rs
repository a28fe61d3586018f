use pbs_client::attribs::Attribs;
use pbs_client::attrl::{Attrl, ResourceEntry};
use pbs_client::bridge::{from_chain, to_chain, ChainNode};
use pbs_client::op::{Op, OpKind};

fn res_entry(name: &str, op: Op) -> ResourceEntry {
    ResourceEntry { name: name.to_string(), op }
}

#[test]
fn walltime_criteria_lower_to_one_record() {
    let mut criteria = Attribs::new();
    criteria.add(
        "Resource_List".to_string(),
        Attrl::Resource(vec![res_entry("walltime", Op::Equal("01:00:00".to_string()))]),
    );
    let chain = to_chain(&criteria);
    assert_eq!(chain.len(), 1);
    assert_eq!(chain[0].name, "Resource_List".to_string());
    assert_eq!(chain[0].resource, Some("walltime".to_string()));
    assert_eq!(chain[0].value, "01:00:00".to_string());
    assert_eq!(chain[0].op, OpKind::Equal);
}

#[test]
fn scalar_attributes_lower_without_a_resource() {
    let mut a = Attribs::new();
    a.add("queue".to_string(), Attrl::Value(Op::Assign("debug".to_string())));
    let chain = to_chain(&a);
    assert_eq!(
        chain,
        vec![ChainNode {
            name: "queue".to_string(),
            resource: None,
            value: "debug".to_string(),
            op: OpKind::Assign,
        }]
    );
}

#[test]
fn chains_come_out_in_ascending_name_order() {
    let mut a = Attribs::new();
    a.add("b".to_string(), Attrl::Value(Op::Default("2".to_string())));
    a.add("a".to_string(), Attrl::Value(Op::Default("1".to_string())));
    let chain = to_chain(&a);
    let names: Vec<String> = chain.iter().map(|n| n.name.clone()).collect();
    assert_eq!(names, vec!["a".to_string(), "b".to_string()]);
}

#[test]
fn round_trip_restores_default_operator_collections() {
    let mut a = Attribs::new();
    a.add("host".to_string(), Attrl::Value(Op::Default("node1".to_string())));
    a.add(
        "Resource_List".to_string(),
        Attrl::Resource(vec![
            res_entry("ncpus", Op::Default("4".to_string())),
            res_entry("walltime", Op::Default("01:00:00".to_string())),
        ]),
    );
    let chain = to_chain(&a);
    let back = from_chain(&chain);
    assert_eq!(back, a);
}

#[test]
fn inbound_records_with_one_name_merge_their_resources() {
    let chain = vec![
        ChainNode {
            name: "Resource_List".to_string(),
            resource: Some("walltime".to_string()),
            value: "01:00:00".to_string(),
            op: OpKind::Default,
        },
        ChainNode {
            name: "Resource_List".to_string(),
            resource: Some("ncpus".to_string()),
            value: "4".to_string(),
            op: OpKind::Default,
        },
    ];
    let a = from_chain(&chain);
    let expected = Attrl::Resource(vec![
        res_entry("ncpus", Op::Default("4".to_string())),
        res_entry("walltime", Op::Default("01:00:00".to_string())),
    ]);
    assert_eq!(a.get("Resource_List"), Some(&expected));
}

#[test]
fn inbound_operator_codes_come_back_as_default() {
    let chain = vec![ChainNode {
        name: "n".to_string(),
        resource: None,
        value: "v".to_string(),
        op: OpKind::Equal,
    }];
    let a = from_chain(&chain);
    assert_eq!(a.get("n"), Some(&Attrl::Value(Op::Default("v".to_string()))));
}

#[test]
fn empty_inbound_resource_counts_as_no_resource() {
    let chain = vec![ChainNode {
        name: "n".to_string(),
        resource: Some("".to_string()),
        value: "v".to_string(),
        op: OpKind::Default,
    }];
    let a = from_chain(&chain);
    assert_eq!(a.get("n"), Some(&Attrl::Value(Op::Default("v".to_string()))));
}

#[test]
fn empty_collections_and_chains() {
    let empty = Attribs::new();
    assert_eq!(to_chain(&empty), Vec::new());
    let back = from_chain(&Vec::new());
    assert_eq!(back, empty);
}
