use pbs_client::attribs::Attribs;
use pbs_client::attrl::{Attrl, ResourceEntry};
use pbs_client::coerce::Coerced;
use pbs_client::criteria::parse_criterion_str;
use pbs_client::op::Op;

fn res_entry(name: &str, op: Op) -> ResourceEntry {
    ResourceEntry { name: name.to_string(), op }
}

#[test]
fn scalar_attributes_emit_coerced_values() {
    let mut a = Attribs::new();
    a.add("ncpus".to_string(), Attrl::Value(Op::Default("8".to_string())));
    a.add("shared".to_string(), Attrl::Value(Op::Default("true".to_string())));
    let out = a.to_structured_value();
    assert_eq!(
        out,
        vec![
            ("ncpus".to_string(), Coerced::Number(8)),
            ("shared".to_string(), Coerced::Bool(true)),
        ]
    );
}

#[test]
fn resource_attributes_emit_dotted_keys() {
    let mut a = Attribs::new();
    a.add(
        "Resource_List".to_string(),
        Attrl::Resource(vec![
            res_entry("mem", Op::Default("2gb".to_string())),
            res_entry("walltime", Op::Default("01:00:00".to_string())),
        ]),
    );
    let out = a.to_structured_value();
    assert_eq!(
        out,
        vec![
            ("Resource_List.mem".to_string(), Coerced::Number(2000)),
            (
                "Resource_List.walltime".to_string(),
                Coerced::Str("01:00:00".to_string())
            ),
        ]
    );
}

#[test]
fn state_count_expands_into_one_entry_per_state() {
    let mut a = Attribs::new();
    a.add(
        "state_count".to_string(),
        Attrl::Value(Op::Default("Queued:3 Running:1 ".to_string())),
    );
    let out = a.to_structured_value();
    assert_eq!(
        out,
        vec![
            ("state_count.Queued".to_string(), Coerced::Number(3)),
            ("state_count.Running".to_string(), Coerced::Number(1)),
        ]
    );
}

#[test]
fn state_count_expansion_stops_at_an_empty_segment() {
    let mut a = Attribs::new();
    a.add(
        "state_count".to_string(),
        Attrl::Value(Op::Default("Queued:3  Running:1".to_string())),
    );
    let out = a.to_structured_value();
    assert_eq!(out, vec![("state_count.Queued".to_string(), Coerced::Number(3))]);
}

#[test]
fn comment_is_never_coerced() {
    let mut a = Attribs::new();
    a.add("comment".to_string(), Attrl::Value(Op::Default("123".to_string())));
    let out = a.to_structured_value();
    assert_eq!(out, vec![("comment".to_string(), Coerced::Str("123".to_string()))]);
}

#[test]
fn criteria_strings_parse_name_resource_operator_value() {
    let a = Attribs::from_strings(&vec!["ncpus=4".to_string()]);
    assert_eq!(a.get("ncpus"), Some(&Attrl::Value(Op::Equal("4".to_string()))));

    let b = Attribs::from_strings(&vec!["Resource_List.walltime=01:00:00".to_string()]);
    let expected = Attrl::Resource(vec![res_entry("walltime", Op::Equal("01:00:00".to_string()))]);
    assert_eq!(b.get("Resource_List"), Some(&expected));
}

#[test]
fn criteria_operator_spellings() {
    let parsed = parse_criterion_str("a!=4").unwrap();
    assert_eq!(parsed.2, Op::NotEqual("4".to_string()));
    let parsed = parse_criterion_str("a<=4").unwrap();
    assert_eq!(parsed.2, Op::EqualOrLessThan("4".to_string()));
    let parsed = parse_criterion_str("a>=4").unwrap();
    assert_eq!(parsed.2, Op::GreaterThan("4".to_string()));
    let parsed = parse_criterion_str("a<4").unwrap();
    assert_eq!(parsed.2, Op::LessThan("4".to_string()));
    let parsed = parse_criterion_str("a>4").unwrap();
    assert_eq!(parsed.2, Op::EqualOrGreaterThan("4".to_string()));
    let parsed = parse_criterion_str("a").unwrap();
    assert_eq!(parsed.2, Op::Default("".to_string()));
}

#[test]
fn criteria_without_a_leading_word_are_skipped() {
    let a = Attribs::from_strings(&vec!["=4".to_string(), "".to_string()]);
    assert_eq!(a.attribs().len(), 0);
    assert_eq!(parse_criterion_str(">weird"), None);
}

#[test]
fn criteria_with_a_second_dot_fold_it_into_the_value() {
    let parsed = parse_criterion_str("a.b.c=4").unwrap();
    assert_eq!(parsed.0, "a".to_string());
    assert_eq!(parsed.1, Some("b".to_string()));
    assert_eq!(parsed.2, Op::Default(".c=4".to_string()));
}
