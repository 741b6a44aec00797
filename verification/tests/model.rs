use param_tuner::model::{
    is_internal_parameter, ApplyState, ExportSelection, FloatValue, ParameterEntry,
    ParameterTarget, ParameterTargetState, ParameterValue,
};

fn num(v: f64) -> FloatValue {
    let text = if v.fract() == 0.0 && v.is_finite() { format!("{:.1}", v) } else { format!("{}", v) };
    FloatValue { bits: v.to_bits(), text, debug: format!("{:?}", v) }
}

fn entry(name: &str, value: ParameterValue) -> ParameterEntry {
    ParameterEntry {
        name: name.to_string(),
        current_value: value.clone(),
        original_value: value,
        description: String::new(),
        additional_constraints: String::new(),
        read_only: false,
        dynamic_typing: false,
        integer_ranges: vec![],
        floating_ranges: vec![],
        changed: false,
        apply_state: ApplyState::Unchanged,
    }
}

#[test]
fn type_names() {
    assert_eq!(ParameterValue::NotSet.value_type_name(), "not_set");
    assert_eq!(ParameterValue::Bool(true).value_type_name(), "bool");
    assert_eq!(ParameterValue::Integer(1).value_type_name(), "integer");
    assert_eq!(ParameterValue::Double(num(1.0)).value_type_name(), "double");
    assert_eq!(ParameterValue::String("x".into()).value_type_name(), "string");
    assert_eq!(ParameterValue::ByteArray(vec![]).value_type_name(), "byte_array");
    assert_eq!(ParameterValue::BoolArray(vec![]).value_type_name(), "bool_array");
    assert_eq!(ParameterValue::IntegerArray(vec![]).value_type_name(), "integer_array");
    assert_eq!(ParameterValue::DoubleArray(vec![]).value_type_name(), "double_array");
    assert_eq!(ParameterValue::StringArray(vec![]).value_type_name(), "string_array");
}

#[test]
fn display_values() {
    assert_eq!(ParameterValue::NotSet.display_value(), "<not set>");
    assert_eq!(ParameterValue::Bool(false).display_value(), "false");
    assert_eq!(ParameterValue::Integer(-7).display_value(), "-7");
    assert_eq!(ParameterValue::Double(num(2.0)).display_value(), "2.0");
    assert_eq!(ParameterValue::Double(num(0.1)).display_value(), "0.1");
    assert_eq!(ParameterValue::Double(num(f64::INFINITY)).display_value(), "inf");
    assert_eq!(ParameterValue::String("hi there".into()).display_value(), "hi there");
    assert_eq!(ParameterValue::ByteArray(vec![1, 2, 3]).display_value(), "[3 bytes]");
    assert_eq!(ParameterValue::BoolArray(vec![true, false]).display_value(), "[[true, false]]");
    assert_eq!(ParameterValue::IntegerArray(vec![1, 20, -3]).display_value(), "[1, 20, -3]");
    assert_eq!(ParameterValue::DoubleArray(vec![num(1.0), num(1e20)]).display_value(), "[1.0, 1e20]");
    assert_eq!(
        ParameterValue::StringArray(vec!["a\"b".into(), "c".into()]).display_value(),
        "[\"a\\\"b\", \"c\"]"
    );
    assert_eq!(ParameterValue::StringArray(vec![]).display_value(), "[]");
}

#[test]
fn array_kinds() {
    assert!(!ParameterValue::NotSet.is_array());
    assert!(!ParameterValue::String("a".into()).is_array());
    assert!(ParameterValue::ByteArray(vec![]).is_array());
    assert!(ParameterValue::StringArray(vec![]).is_array());
    assert!(ParameterValue::DoubleArray(vec![num(1.0)]).is_array());
}

#[test]
fn value_equality_follows_floats() {
    assert!(ParameterValue::Double(num(0.0)).eq_value(&ParameterValue::Double(num(-0.0))));
    assert!(!ParameterValue::Double(num(f64::NAN)).eq_value(&ParameterValue::Double(num(f64::NAN))));
    assert!(!ParameterValue::Integer(1).eq_value(&ParameterValue::Bool(true)));
    assert!(ParameterValue::StringArray(vec!["a".into()]).eq_value(&ParameterValue::StringArray(vec!["a".into()])));
    assert!(!ParameterValue::IntegerArray(vec![1]).eq_value(&ParameterValue::IntegerArray(vec![1, 2])));
}

#[test]
fn stage_and_reset() {
    let mut e = entry("max_vel", ParameterValue::Double(num(0.5)));
    e.stage_value(ParameterValue::Double(num(0.75)));
    assert!(e.changed);
    assert!(matches!(e.apply_state, ApplyState::Pending));
    assert!(e.current_value.eq_value(&ParameterValue::Double(num(0.75))));
    e.reset();
    assert!(!e.changed);
    assert!(matches!(e.apply_state, ApplyState::Unchanged));
    assert!(e.current_value.eq_value(&ParameterValue::Double(num(0.5))));
}

#[test]
fn staging_the_original_is_no_change() {
    let mut e = entry("n", ParameterValue::Integer(5));
    e.stage_value(ParameterValue::Integer(6));
    e.stage_value(ParameterValue::Integer(5));
    assert!(!e.changed);
    assert!(matches!(e.apply_state, ApplyState::Unchanged));
}

#[test]
fn staging_nan_always_counts_as_change() {
    let mut e = entry("n", ParameterValue::Double(num(f64::NAN)));
    e.stage_value(ParameterValue::Double(num(f64::NAN)));
    assert!(e.changed);
    assert!(matches!(e.apply_state, ApplyState::Pending));
}

#[test]
fn changed_and_pending() {
    let mut t = ParameterTarget {
        full_node_name: "/a".into(),
        namespace: "/".into(),
        node_name: "a".into(),
        state: ParameterTargetState::Available,
        parameters: vec![entry("x", ParameterValue::Integer(1)), entry("y", ParameterValue::Integer(2))],
    };
    assert!(t.changed_parameters().is_empty());
    assert!(!t.has_pending_changes());
    t.parameters[1].stage_value(ParameterValue::Integer(3));
    let changed: Vec<&str> = t.changed_parameters().iter().map(|p| p.name.as_str()).collect();
    assert_eq!(changed, vec!["y"]);
    assert!(t.has_pending_changes());
    t.parameters[1].apply_state = ApplyState::Failed("rejected".into());
    assert!(!t.has_pending_changes());
}

#[test]
fn internal_parameters() {
    assert!(is_internal_parameter("use_sim_time"));
    assert!(is_internal_parameter("start_type_description_service"));
    assert!(is_internal_parameter("qos_overrides./parameter_events.publisher.depth"));
    assert!(!is_internal_parameter("qos_overrides"));
    assert!(!is_internal_parameter("use_sim_time2"));
    assert!(!is_internal_parameter(""));
}

#[test]
fn default_selection() {
    let s = ExportSelection::default();
    assert!(s.nodes.is_none());
    assert!(!s.only_changed);
    assert!(!s.include_internal);
    assert!(!s.include_readonly);
    assert!(!s.split_by_namespace);
    assert!(!s.split_by_node);
    assert!(s.max_nodes_per_file.is_none());
}
