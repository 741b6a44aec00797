use param_tuner::model::{
    ApplyState, ExportSelection, FloatValue, FloatingPointRange, ParameterEntry, ParameterTarget,
    ParameterTargetState, ParameterValue,
};
use param_tuner::yaml::{
    export_all_to_yaml, export_by_namespace, export_by_node, export_target_to_yaml,
    filter_parameters, format_yaml_float, format_yaml_value, indent_each_line, indent_for_name,
};

fn num(v: f64) -> FloatValue {
    let text = if v.fract() == 0.0 && v.is_finite() { format!("{:.1}", v) } else { format!("{}", v) };
    FloatValue { bits: v.to_bits(), text, debug: format!("{:?}", v) }
}

fn entry(name: &str, value: ParameterValue) -> ParameterEntry {
    ParameterEntry {
        name: name.to_string(),
        current_value: value.clone(),
        original_value: value,
        description: String::new(),
        additional_constraints: String::new(),
        read_only: false,
        dynamic_typing: false,
        integer_ranges: vec![],
        floating_ranges: vec![],
        changed: false,
        apply_state: ApplyState::Unchanged,
    }
}

fn sample_target(name: &str) -> ParameterTarget {
    ParameterTarget {
        full_node_name: name.to_string(),
        namespace: "/navigation".to_string(),
        node_name: name.trim_start_matches("/navigation/").to_string(),
        state: ParameterTargetState::Available,
        parameters: vec![
            ParameterEntry {
                name: "controller_frequency".to_string(),
                current_value: ParameterValue::Double(num(20.0)),
                original_value: ParameterValue::Double(num(20.0)),
                description: "Controller update frequency".to_string(),
                additional_constraints: String::new(),
                read_only: false,
                dynamic_typing: false,
                integer_ranges: vec![],
                floating_ranges: vec![FloatingPointRange { from: num(0.0), to: num(100.0), step: num(0.1) }],
                changed: false,
                apply_state: ApplyState::Unchanged,
            },
            ParameterEntry {
                name: "FollowPath.max_vel_x".to_string(),
                current_value: ParameterValue::Double(num(0.55)),
                original_value: ParameterValue::Double(num(0.55)),
                description: "Max velocity in X".to_string(),
                additional_constraints: String::new(),
                read_only: false,
                dynamic_typing: false,
                integer_ranges: vec![],
                floating_ranges: vec![],
                changed: false,
                apply_state: ApplyState::Unchanged,
            },
        ],
    }
}

fn everything() -> ExportSelection {
    ExportSelection {
        only_changed: false,
        include_internal: true,
        include_readonly: true,
        ..Default::default()
    }
}

#[test]
fn test_single_target_export() {
    let target = sample_target("/navigation/controller_server");
    let selection = ExportSelection::default();
    let yaml = export_target_to_yaml(&target, &selection);
    assert!(yaml.contains("/navigation/controller_server:"));
    assert!(yaml.contains("ros__parameters:"));
    assert!(yaml.contains("controller_frequency: 20.0"));
}

#[test]
fn test_only_changed_filter() {
    let mut target = sample_target("/navigation/controller_server");
    target.parameters[0].changed = true;
    target.parameters[1].changed = false;

    let selection = ExportSelection {
        only_changed: true,
        ..Default::default()
    };
    let yaml = export_target_to_yaml(&target, &selection);
    assert!(yaml.contains("controller_frequency"));
    assert!(!yaml.contains("FollowPath.max_vel_x"));
}

#[test]
fn single_target_section_is_exact() {
    let target = sample_target("/navigation/controller_server");
    let yaml = export_target_to_yaml(&target, &ExportSelection::default());
    assert_eq!(
        yaml,
        "/navigation/controller_server:\n  ros__parameters:\n    controller_frequency: 20.0\n    FollowPath.max_vel_x: 0.55\n\n"
    );
}

#[test]
fn nothing_selected_gives_empty_section() {
    let target = sample_target("/navigation/controller_server");
    let selection = ExportSelection { only_changed: true, ..Default::default() };
    assert_eq!(export_target_to_yaml(&target, &selection), "");
}

#[test]
fn internal_and_readonly_filters() {
    let mut target = sample_target("/a/n");
    let mut ro = entry("gain", ParameterValue::Integer(3));
    ro.read_only = true;
    target.parameters = vec![
        entry("use_sim_time", ParameterValue::Bool(false)),
        entry("qos_overrides./tf.depth", ParameterValue::Integer(10)),
        ro,
        entry("kept", ParameterValue::Bool(true)),
    ];
    let default_sel = ExportSelection::default();
    let names: Vec<&str> = filter_parameters(&target.parameters, &default_sel)
        .iter()
        .map(|p| p.name.as_str())
        .collect();
    assert_eq!(names, vec!["kept"]);
    let all = filter_parameters(&target.parameters, &everything());
    assert_eq!(all.len(), 4);
}

#[test]
fn yaml_scalars() {
    assert_eq!(format_yaml_value("a", &ParameterValue::NotSet, 4), "     a: null");
    assert_eq!(format_yaml_value("a", &ParameterValue::Bool(true), 0), " a: true");
    assert_eq!(format_yaml_value("a", &ParameterValue::Integer(-42), 0), " a: -42");
    assert_eq!(format_yaml_value("a", &ParameterValue::Integer(i64::MIN), 0), " a: -9223372036854775808");
    assert_eq!(format_yaml_value("a", &ParameterValue::Integer(0), 0), " a: 0");
    assert_eq!(format_yaml_value("a", &ParameterValue::Double(num(1.5)), 0), " a: 1.5");
    assert_eq!(format_yaml_value("a", &ParameterValue::Double(num(3.0)), 0), " a: 3.0");
}

#[test]
fn yaml_special_floats() {
    assert_eq!(format_yaml_float(&num(f64::INFINITY)), ".inf");
    assert_eq!(format_yaml_float(&num(f64::NEG_INFINITY)), "-.inf");
    assert_eq!(format_yaml_float(&num(f64::NAN)), ".nan");
    assert_eq!(format_yaml_float(&num(-0.0)), "-0.0");
    assert_eq!(format_yaml_float(&num(0.25)), "0.25");
}

#[test]
fn yaml_strings() {
    let s = |v: &str| format_yaml_value("k", &ParameterValue::String(v.to_string()), 2);
    assert_eq!(s("plain"), "   k: plain");
    assert_eq!(s(""), "   k: ''");
    assert_eq!(s("a: b"), "   k: 'a: b'");
    assert_eq!(s("it's #1"), "   k: 'it''s #1'");
    assert_eq!(s("a:b"), "   k: a:b");
    assert_eq!(s("hello world"), "   k: hello world");
    assert_eq!(s("x\ny"), "   k: |\n    x\n    y");
    assert_eq!(s("x\r\ny\n"), "   k: |\n    x\n    y");
    assert_eq!(s("true"), "   k: true");
    assert_eq!(s("42"), "   k: 42");
    assert_eq!(s("base_link"), "   k: base_link");
    assert_eq!(s("/map.frame-2"), "   k: /map.frame-2");
    assert_eq!(s("a\"b"), "   k: a\"b");
    assert_eq!(s("tab\there"), "   k: tab\there");
}

#[test]
fn yaml_block_scalar_at_parameter_depth() {
    let v = ParameterValue::String("a\nb".to_string());
    assert_eq!(format_yaml_value("s", &v, 4).trim_start(), "s: |\n      a\n      b");
}

#[test]
fn yaml_lists() {
    assert_eq!(format_yaml_value("b", &ParameterValue::ByteArray(vec![0, 255]), 0), " b: [0, 255]");
    assert_eq!(format_yaml_value("b", &ParameterValue::BoolArray(vec![true, false]), 0), " b: [true, false]");
    assert_eq!(format_yaml_value("b", &ParameterValue::IntegerArray(vec![]), 0), " b: []");
    assert_eq!(format_yaml_value("b", &ParameterValue::IntegerArray(vec![1, -2]), 0), " b: [1, -2]");
    assert_eq!(
        format_yaml_value("b", &ParameterValue::DoubleArray(vec![num(1.0), num(f64::NAN), num(0.5)]), 0),
        " b: [1.0, .nan, 0.5]"
    );
    assert_eq!(
        format_yaml_value(
            "b",
            &ParameterValue::StringArray(vec!["x".to_string(), "a b".to_string(), "k:v".to_string(), "o'k z".to_string(), "a,b".to_string(), "on".to_string()]),
            0
        ),
        " b: [x, 'a b', 'k:v', 'o''k z', a,b, on]"
    );
}

#[test]
fn indent_lines() {
    assert_eq!(indent_each_line("a\nb", 2), "  a\n  b");
    assert_eq!(indent_each_line("", 2), "");
    assert_eq!(indent_each_line("a\n", 1), " a");
    assert_eq!(indent_each_line("\n\n", 1), " \n ");
    assert_eq!(indent_each_line("a\r", 0), "a\r");
    assert_eq!(indent_for_name("FollowPath.PathAlign.scale", 4), 8);
    assert_eq!(indent_for_name("FollowPath.max_vel_x", 0), 2);
    assert_eq!(indent_for_name("plain", 2), 2);
}

#[test]
fn export_all_skips_unavailable_and_empty() {
    let a = sample_target("/navigation/controller_server");
    let mut b = sample_target("/navigation/gone");
    b.state = ParameterTargetState::Disappeared;
    let mut c = sample_target("/navigation/empty");
    c.parameters.clear();
    let yaml = export_all_to_yaml(&[a, b, c], &ExportSelection::default());
    assert_eq!(
        yaml,
        "# ROS 2 Parameters — Exported by ROS 2 Param Tuner\n# Generated: auto\n\n/navigation/controller_server:\n  ros__parameters:\n    controller_frequency: 20.0\n    FollowPath.max_vel_x: 0.55\n\n"
    );
}

#[test]
fn export_by_namespace_sorted_files() {
    let mut t1 = sample_target("/zeta/n1");
    t1.namespace = "/zeta".to_string();
    let mut t2 = sample_target("/n2");
    t2.namespace = String::new();
    let mut t3 = sample_target("/alpha/beta/n3");
    t3.namespace = "/alpha/beta".to_string();
    let mut t4 = sample_target("/zeta/n4");
    t4.namespace = "/zeta".to_string();
    let mut t5 = sample_target("/x/n5");
    t5.namespace = "/x".to_string();
    t5.state = ParameterTargetState::Timeout;
    let files = export_by_namespace(&[t1, t2, t3, t4, t5], &ExportSelection::default());
    let names: Vec<&str> = files.iter().map(|f| f.0.as_str()).collect();
    assert_eq!(names, vec!["root.yaml", "alpha_beta.yaml", "zeta.yaml"]);
    assert!(files[0].1.starts_with("# Namespace: /\n\n/n2:\n"));
    assert!(files[2].1.starts_with("# Namespace: /zeta\n\n/zeta/n1:\n"));
    assert!(files[2].1.contains("/zeta/n4:\n"));
    let pos1 = files[2].1.find("/zeta/n1:").unwrap();
    let pos4 = files[2].1.find("/zeta/n4:").unwrap();
    assert!(pos1 < pos4);
}

#[test]
fn export_by_namespace_slash_only() {
    let mut t = sample_target("//n");
    t.namespace = "//".to_string();
    let files = export_by_namespace(&[t], &ExportSelection::default());
    assert_eq!(files.len(), 1);
    assert_eq!(files[0].0, "root.yaml");
    assert!(files[0].1.starts_with("# Namespace: //\n\n"));
}

#[test]
fn export_by_node_files() {
    let a = sample_target("/navigation/controller_server");
    let mut b = sample_target("/navigation/empty");
    b.parameters.clear();
    let files = export_by_node(&[a, b], &ExportSelection::default());
    assert_eq!(files.len(), 1);
    assert_eq!(files[0].0, "navigation_controller_server.yaml");
    assert!(files[0].1.starts_with("/navigation/controller_server:\n"));
}

fn in_ns(full: &str, ns: &str) -> ParameterTarget {
    let mut t = sample_target(full);
    t.namespace = ns.to_string();
    t
}

#[test]
fn export_by_namespace_respects_node_limit() {
    let targets = [
        in_ns("/nav/a", "/nav"),
        in_ns("/nav/b", "/nav"),
        in_ns("/nav/c", "/nav"),
        in_ns("/loc/d", "/loc"),
    ];
    let selection = ExportSelection { max_nodes_per_file: Some(2), ..Default::default() };
    let files = export_by_namespace(&targets, &selection);
    let names: Vec<&str> = files.iter().map(|f| f.0.as_str()).collect();
    assert_eq!(names, vec!["loc.yaml", "nav.yaml", "nav_2.yaml"]);
    assert!(files[1].1.starts_with("# Namespace: /nav\n\n/nav/a:\n"));
    assert!(files[1].1.contains("/nav/b:\n"));
    assert!(!files[1].1.contains("/nav/c:\n"));
    assert!(files[2].1.starts_with("# Namespace: /nav\n\n/nav/c:\n"));
    let one = ExportSelection { max_nodes_per_file: Some(1), ..Default::default() };
    let files = export_by_namespace(&targets, &one);
    let names: Vec<&str> = files.iter().map(|f| f.0.as_str()).collect();
    assert_eq!(names, vec!["loc.yaml", "nav.yaml", "nav_2.yaml", "nav_3.yaml"]);
    let unlimited = ExportSelection { max_nodes_per_file: Some(0), ..Default::default() };
    assert_eq!(export_by_namespace(&targets, &unlimited).len(), 2);
}

#[test]
fn node_list_restricts_exports() {
    let targets = [in_ns("/nav/a", "/nav"), in_ns("/nav/b", "/nav"), in_ns("/loc/d", "/loc")];
    let selection = ExportSelection { nodes: Some(vec!["/nav/b".to_string()]), ..Default::default() };
    let all = export_all_to_yaml(&targets, &selection);
    assert!(all.contains("/nav/b:\n"));
    assert!(!all.contains("/nav/a:\n"));
    assert!(!all.contains("/loc/d:\n"));
    let files = export_by_namespace(&targets, &selection);
    assert_eq!(files.len(), 1);
    assert_eq!(files[0].0, "nav.yaml");
    let nodes = export_by_node(&targets, &selection);
    assert_eq!(nodes.len(), 1);
    assert_eq!(nodes[0].0, "nav_b.yaml");
    let empty_list = ExportSelection { nodes: Some(vec![]), ..Default::default() };
    assert_eq!(export_by_node(&targets, &empty_list).len(), 3);
}

#[test]
fn export_by_namespace_ignores_order_across_namespaces() {
    let a = [
        in_ns("/nav/a", "/nav"),
        in_ns("/loc/d", "/loc"),
        in_ns("/nav/b", "/nav"),
    ];
    let mut down = in_ns("/x/y", "/x");
    down.state = ParameterTargetState::Timeout;
    let b = [
        in_ns("/loc/d", "/loc"),
        down,
        in_ns("/nav/a", "/nav"),
        in_ns("/nav/b", "/nav"),
    ];
    let selection = ExportSelection::default();
    assert_eq!(export_by_namespace(&a, &selection), export_by_namespace(&b, &selection));
}
