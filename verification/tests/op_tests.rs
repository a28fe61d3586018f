use pbs_client::op::{FilterError, Op, OpKind};

#[test]
fn equal_matches_same_value() {
    let stored = Op::Default("4".to_string());
    assert_eq!(stored.apply_filter(&Op::Equal("4".to_string())), Ok(true));
    assert_eq!(stored.apply_filter(&Op::Equal("5".to_string())), Ok(false));
}

#[test]
fn not_equal_is_negation_of_equal() {
    let stored = Op::Default("4".to_string());
    for probe in ["4", "5", "", "abc"] {
        let eq = stored.apply_filter(&Op::Equal(probe.to_string())).unwrap();
        let ne = stored.apply_filter(&Op::NotEqual(probe.to_string())).unwrap();
        assert_eq!(ne, !eq);
    }
}

#[test]
fn default_filter_matches_any_stored_value() {
    for v in ["", "x", "123"] {
        let stored = Op::Default(v.to_string());
        assert_eq!(stored.apply_filter(&Op::Default("ignored".to_string())), Ok(true));
    }
}

#[test]
fn assign_filter_matches_any_stored_value() {
    let stored = Op::Equal("zzz".to_string());
    assert_eq!(stored.apply_filter(&Op::Assign("ignored".to_string())), Ok(true));
}

#[test]
fn mutation_operators_are_unsupported_filters() {
    let stored = Op::Default("4".to_string());
    assert_eq!(
        stored.apply_filter(&Op::Unset("".to_string())),
        Err(FilterError::UnsupportedOperator)
    );
    assert_eq!(
        stored.apply_filter(&Op::Incr("".to_string())),
        Err(FilterError::UnsupportedOperator)
    );
    assert_eq!(
        stored.apply_filter(&Op::Decr("".to_string())),
        Err(FilterError::UnsupportedOperator)
    );
}

#[test]
fn numeric_comparisons_use_coercion() {
    let stored = Op::Default("2gb".to_string());
    assert_eq!(stored.apply_filter(&Op::GreaterThan("1999".to_string())), Ok(true));
    assert_eq!(stored.apply_filter(&Op::GreaterThan("2000".to_string())), Ok(false));
    assert_eq!(stored.apply_filter(&Op::LessThan("2001".to_string())), Ok(true));
    assert_eq!(stored.apply_filter(&Op::EqualOrGreaterThan("2000".to_string())), Ok(true));
    assert_eq!(stored.apply_filter(&Op::EqualOrLessThan("1999".to_string())), Ok(false));
}

#[test]
fn numeric_comparison_of_non_number_is_a_type_error() {
    let stored = Op::Default("abc".to_string());
    assert_eq!(
        stored.apply_filter(&Op::LessThan("4".to_string())),
        Err(FilterError::NonNumeric)
    );
    let stored_num = Op::Default("4".to_string());
    assert_eq!(
        stored_num.apply_filter(&Op::GreaterThan("xyz".to_string())),
        Err(FilterError::NonNumeric)
    );
}

#[test]
fn op_kind_and_val_accessors() {
    let op = Op::EqualOrLessThan("12".to_string());
    assert_eq!(op.op(), OpKind::EqualOrLessThan);
    assert_eq!(op.val(), "12".to_string());
    assert_eq!(Op::Default("x".to_string()).op(), OpKind::Default);
}

#[test]
fn new_maps_operator_text_to_variants() {
    assert_eq!(Op::new(Some("4".to_string()), Some("=")), Op::Equal("4".to_string()));
    assert_eq!(Op::new(Some("4".to_string()), Some("!=")), Op::NotEqual("4".to_string()));
    assert_eq!(Op::new(Some("4".to_string()), Some("<")), Op::LessThan("4".to_string()));
    assert_eq!(
        Op::new(Some("4".to_string()), Some(">")),
        Op::EqualOrGreaterThan("4".to_string())
    );
    assert_eq!(
        Op::new(Some("4".to_string()), Some("<=")),
        Op::EqualOrLessThan("4".to_string())
    );
    assert_eq!(Op::new(Some("4".to_string()), Some(">=")), Op::GreaterThan("4".to_string()));
    assert_eq!(Op::new(Some("4".to_string()), None), Op::Default("4".to_string()));
    assert_eq!(Op::new(None, None), Op::Default("".to_string()));
}
