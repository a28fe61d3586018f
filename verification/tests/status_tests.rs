use pbs_client::api::{
    clear_criteria, manage_outcome, offline_criteria, resv_mod_extend, resv_sub_extend,
    stat_outcome, submit_outcome, ResvModFlag, ResvSubFlag,
};
use pbs_client::attrl::Attrl;
use pbs_client::bridge::ChainNode;
use pbs_client::coerce::{coerce, Coerced};
use pbs_client::op::{Op, OpKind};
use pbs_client::resource::Resource;
use pbs_client::status::{StatEntity, StatResp, Status};

fn ncpus_entity(host: &str, ncpus: &str) -> StatEntity {
    StatEntity {
        name: host.to_string(),
        text: None,
        attribs: vec![ChainNode {
            name: "ncpus".to_string(),
            resource: None,
            value: ncpus.to_string(),
            op: OpKind::Default,
        }],
    }
}

#[test]
fn two_host_chain_yields_two_numbered_statuses() {
    let entities = vec![ncpus_entity("host1", "8"), ncpus_entity("host2", "16")];
    let resp = StatResp::from_entities(entities);
    assert_eq!(resp.resources.len(), 2);
    assert_eq!(resp.resources[0].name(), "host1".to_string());
    assert_eq!(resp.resources[1].name(), "host2".to_string());
    let v1 = match resp.resources[0].attribs().get("ncpus") {
        Some(Attrl::Value(op)) => op.val(),
        other => panic!("unexpected leaf: {:?}", other),
    };
    let v2 = match resp.resources[1].attribs().get("ncpus") {
        Some(Attrl::Value(op)) => op.val(),
        other => panic!("unexpected leaf: {:?}", other),
    };
    assert_eq!(coerce(&v1), Coerced::Number(8));
    assert_eq!(coerce(&v2), Coerced::Number(16));
}

#[test]
fn status_records_keep_their_text() {
    let entity = StatEntity {
        name: "queue1".to_string(),
        text: Some("note".to_string()),
        attribs: Vec::new(),
    };
    let resp = StatResp::from_entities(vec![entity]);
    assert_eq!(resp.resources.len(), 1);
    assert_eq!(resp.resources[0].name(), "queue1".to_string());
}

#[test]
fn status_add_merges_into_its_collection() {
    let mut st = Status::new("host1".to_string(), None, pbs_client::attribs::Attribs::new());
    st.add("mem".to_string(), Attrl::Value(Op::Default("2gb".to_string())));
    assert_eq!(
        st.attribs().get("mem"),
        Some(&Attrl::Value(Op::Default("2gb".to_string())))
    );
    assert_eq!(st.name(), "host1".to_string());
}

#[test]
fn stat_outcome_reports_the_error_text() {
    let r = stat_outcome(None, true, "connection refused".to_string());
    assert_eq!(r.err(), Some("connection refused".to_string()));
}

#[test]
fn stat_outcome_without_error_is_an_empty_response() {
    let r = stat_outcome(None, false, "ignored".to_string());
    assert!(r.is_ok());
    assert_eq!(r.unwrap().resources.len(), 0);
}

#[test]
fn stat_outcome_transcribes_a_present_chain() {
    let r = stat_outcome(Some(vec![ncpus_entity("host1", "8")]), false, "".to_string());
    let resp = r.unwrap();
    assert_eq!(resp.resources.len(), 1);
    assert_eq!(resp.resources[0].name(), "host1".to_string());
}

#[test]
fn submit_outcome_hands_back_the_job_id() {
    assert_eq!(
        submit_outcome(Some("17.server".to_string()), "err".to_string()),
        Ok("17.server".to_string())
    );
    assert_eq!(
        submit_outcome(None, "no licence".to_string()),
        Err("no licence".to_string())
    );
}

#[test]
fn manage_outcome_treats_zero_as_success() {
    assert_eq!(manage_outcome(0, "err".to_string()), Ok(()));
    assert_eq!(manage_outcome(15044, "server error".to_string()), Err("server error".to_string()));
}

#[test]
fn reservation_extend_flags() {
    assert_eq!(resv_sub_extend(&vec![ResvSubFlag::Maintenance]), Some("m".to_string()));
    assert_eq!(resv_sub_extend(&Vec::new()), None);
    assert_eq!(resv_mod_extend(&vec![ResvModFlag::Force]), Some("force".to_string()));
    assert_eq!(resv_mod_extend(&Vec::new()), None);
}

#[test]
fn offline_criteria_increment_the_offline_state() {
    let a = offline_criteria(None);
    assert_eq!(a.get("state"), Some(&Attrl::Value(Op::Incr("offline".to_string()))));
    assert_eq!(a.get("comment"), None);

    let b = offline_criteria(Some("maintenance window"));
    assert_eq!(b.get("state"), Some(&Attrl::Value(Op::Incr("offline".to_string()))));
    assert_eq!(
        b.get("comment"),
        Some(&Attrl::Value(Op::Assign("maintenance window".to_string())))
    );
}

#[test]
fn clear_criteria_end_with_a_down_decrement() {
    let a = clear_criteria(None);
    assert_eq!(a.get("state"), Some(&Attrl::Value(Op::Decr("down".to_string()))));

    let b = clear_criteria(Some("back in service"));
    assert_eq!(b.get("state"), Some(&Attrl::Value(Op::Decr("down".to_string()))));
    assert_eq!(
        b.get("comment"),
        Some(&Attrl::Value(Op::Assign("back in service".to_string())))
    );
}

#[test]
fn entity_kinds_are_distinct() {
    let kinds = [
        Resource::Hostname,
        Resource::Que,
        Resource::Job,
        Resource::Reservation,
        Resource::Resource,
        Resource::Scheduler,
        Resource::Server,
        Resource::Vnode,
    ];
    for (i, a) in kinds.iter().enumerate() {
        for (j, b) in kinds.iter().enumerate() {
            assert_eq!(a == b, i == j);
        }
    }
}
