use pbs_client::attribs::Attribs;
use pbs_client::attrl::{Attrl, ResourceEntry};
use pbs_client::op::{FilterError, Op};

fn res_entry(name: &str, op: Op) -> ResourceEntry {
    ResourceEntry { name: name.to_string(), op }
}

#[test]
fn add_and_get_scalar() {
    let mut a = Attribs::new();
    a.add("ncpus".to_string(), Attrl::Value(Op::Default("4".to_string())));
    assert_eq!(a.get("ncpus"), Some(&Attrl::Value(Op::Default("4".to_string()))));
    assert_eq!(a.get("mem"), None);
}

#[test]
fn entries_are_kept_in_ascending_name_order() {
    let mut a = Attribs::new();
    a.add("b".to_string(), Attrl::Value(Op::Default("2".to_string())));
    a.add("a".to_string(), Attrl::Value(Op::Default("1".to_string())));
    a.add("c".to_string(), Attrl::Value(Op::Default("3".to_string())));
    let names: Vec<String> = a.attribs().iter().map(|e| e.name.clone()).collect();
    assert_eq!(names, vec!["a".to_string(), "b".to_string(), "c".to_string()]);
}

#[test]
fn adding_the_same_leaf_twice_is_idempotent() {
    let mut once = Attribs::new();
    once.add("n".to_string(), Attrl::Value(Op::Assign("x".to_string())));
    let mut twice = Attribs::new();
    twice.add("n".to_string(), Attrl::Value(Op::Assign("x".to_string())));
    twice.add("n".to_string(), Attrl::Value(Op::Assign("x".to_string())));
    assert_eq!(once, twice);
}

#[test]
fn scalar_replaces_scalar() {
    let mut a = Attribs::new();
    a.add("n".to_string(), Attrl::Value(Op::Assign("old".to_string())));
    a.add("n".to_string(), Attrl::Value(Op::Assign("new".to_string())));
    assert_eq!(a.get("n"), Some(&Attrl::Value(Op::Assign("new".to_string()))));
}

#[test]
fn resource_maps_union() {
    let mut a = Attribs::new();
    a.add(
        "Resource_List".to_string(),
        Attrl::Resource(vec![res_entry("walltime", Op::Default("01:00:00".to_string()))]),
    );
    a.add(
        "Resource_List".to_string(),
        Attrl::Resource(vec![res_entry("ncpus", Op::Default("4".to_string()))]),
    );
    let expected = Attrl::Resource(vec![
        res_entry("ncpus", Op::Default("4".to_string())),
        res_entry("walltime", Op::Default("01:00:00".to_string())),
    ]);
    assert_eq!(a.get("Resource_List"), Some(&expected));
}

#[test]
fn resource_union_last_write_wins_per_resource() {
    let mut a = Attribs::new();
    a.add(
        "Resource_List".to_string(),
        Attrl::Resource(vec![res_entry("ncpus", Op::Default("4".to_string()))]),
    );
    a.add(
        "Resource_List".to_string(),
        Attrl::Resource(vec![res_entry("ncpus", Op::Default("8".to_string()))]),
    );
    let expected = Attrl::Resource(vec![res_entry("ncpus", Op::Default("8".to_string()))]);
    assert_eq!(a.get("Resource_List"), Some(&expected));
}

#[test]
fn shape_conflict_keeps_the_old_value() {
    let mut a = Attribs::new();
    a.add("n".to_string(), Attrl::Value(Op::Default("v".to_string())));
    a.add(
        "n".to_string(),
        Attrl::Resource(vec![res_entry("r", Op::Default("w".to_string()))]),
    );
    assert_eq!(a.get("n"), Some(&Attrl::Value(Op::Default("v".to_string()))));

    let mut b = Attribs::new();
    b.add(
        "n".to_string(),
        Attrl::Resource(vec![res_entry("r", Op::Default("w".to_string()))]),
    );
    b.add("n".to_string(), Attrl::Value(Op::Default("v".to_string())));
    let expected = Attrl::Resource(vec![res_entry("r", Op::Default("w".to_string()))]);
    assert_eq!(b.get("n"), Some(&expected));
}

#[test]
fn empty_filter_always_passes() {
    let empty = Attribs::new();
    let mut a = Attribs::new();
    a.add("x".to_string(), Attrl::Value(Op::Default("1".to_string())));
    assert_eq!(a.check_filter(&Attribs::new()), Ok(true));
    assert_eq!(empty.check_filter(&Attribs::new()), Ok(true));
}

#[test]
fn missing_attribute_fails_the_filter() {
    let mut subject = Attribs::new();
    subject.add("present".to_string(), Attrl::Value(Op::Default("1".to_string())));
    let mut filter = Attribs::new();
    filter.add("absent".to_string(), Attrl::Value(Op::Default("".to_string())));
    assert_eq!(subject.check_filter(&filter), Ok(false));
}

#[test]
fn filter_compares_stored_values() {
    let mut subject = Attribs::new();
    subject.add("ncpus".to_string(), Attrl::Value(Op::Default("4".to_string())));
    let mut ok = Attribs::new();
    ok.add("ncpus".to_string(), Attrl::Value(Op::Equal("4".to_string())));
    assert_eq!(subject.check_filter(&ok), Ok(true));
    let mut bad = Attribs::new();
    bad.add("ncpus".to_string(), Attrl::Value(Op::Equal("5".to_string())));
    assert_eq!(subject.check_filter(&bad), Ok(false));
}

#[test]
fn filter_with_unsupported_operator_reports_an_error() {
    let mut subject = Attribs::new();
    subject.add("ncpus".to_string(), Attrl::Value(Op::Default("4".to_string())));
    let mut filter = Attribs::new();
    filter.add("ncpus".to_string(), Attrl::Value(Op::Unset("".to_string())));
    assert_eq!(subject.check_filter(&filter), Err(FilterError::UnsupportedOperator));
}

#[test]
fn resource_filter_checks_present_resources_only() {
    let mut subject = Attribs::new();
    subject.add(
        "Resource_List".to_string(),
        Attrl::Resource(vec![res_entry("walltime", Op::Default("10".to_string()))]),
    );
    let mut matching = Attribs::new();
    matching.add(
        "Resource_List".to_string(),
        Attrl::Resource(vec![res_entry("walltime", Op::Equal("10".to_string()))]),
    );
    assert_eq!(subject.check_filter(&matching), Ok(true));

    let mut mismatching = Attribs::new();
    mismatching.add(
        "Resource_List".to_string(),
        Attrl::Resource(vec![res_entry("walltime", Op::Equal("20".to_string()))]),
    );
    assert_eq!(subject.check_filter(&mismatching), Ok(false));

    // a resource name the subject lacks is not enforced
    let mut absent = Attribs::new();
    absent.add(
        "Resource_List".to_string(),
        Attrl::Resource(vec![res_entry("ncpus", Op::Equal("4".to_string()))]),
    );
    assert_eq!(subject.check_filter(&absent), Ok(true));
}

#[test]
fn shape_mismatch_never_matches_a_filter() {
    let mut subject = Attribs::new();
    subject.add(
        "n".to_string(),
        Attrl::Resource(vec![res_entry("r", Op::Default("1".to_string()))]),
    );
    let mut filter = Attribs::new();
    filter.add("n".to_string(), Attrl::Value(Op::Default("1".to_string())));
    assert_eq!(subject.check_filter(&filter), Ok(false));
}

#[test]
fn resource_filter_propagates_operator_errors() {
    let mut subject = Attribs::new();
    subject.add(
        "Resource_List".to_string(),
        Attrl::Resource(vec![res_entry("ncpus", Op::Default("4".to_string()))]),
    );
    let mut filter = Attribs::new();
    filter.add(
        "Resource_List".to_string(),
        Attrl::Resource(vec![res_entry("ncpus", Op::Incr("1".to_string()))]),
    );
    assert_eq!(subject.check_filter(&filter), Err(FilterError::UnsupportedOperator));
}
