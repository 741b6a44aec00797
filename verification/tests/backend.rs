use param_tuner::mock::MockBackend;
use param_tuner::model::{ExportSelection, ParameterTargetState, ParameterUpdate, ParameterValue};
use param_tuner::rpc::{nodes_to_inspect, reply_failure, RpcError};

#[test]
fn mock_discovers_three_nodes() {
    let s = MockBackend.discover_targets();
    let names: Vec<&str> = s.iter().map(|t| t.full_node_name.as_str()).collect();
    assert_eq!(names, vec!["/navigation/controller_server", "/navigation/planner_server", "/localization/amcl"]);
    assert_eq!(s[0].parameter_count, 12);
    assert_eq!(s[2].namespace, "/localization");
    assert!(s.iter().all(|t| t.state == ParameterTargetState::Available));
}

#[test]
fn mock_inspect_splits_names() {
    let t = MockBackend.inspect_target("/navigation/controller_server");
    assert_eq!(t.namespace, "/navigation");
    assert_eq!(t.node_name, "controller_server");
    assert_eq!(t.parameters.len(), 5);
    assert_eq!(t.parameters[0].name, "controller_frequency");
    assert_eq!(t.parameters[0].current_value.display_value(), "20.0");
    assert_eq!(t.parameters[0].additional_constraints, "Range: [0.0, 100.0]");
    let root = MockBackend.inspect_target("/amcl");
    assert_eq!(root.namespace, "/");
    assert_eq!(root.node_name, "amcl");
    assert_eq!(root.parameters.len(), 3);
    let bare = MockBackend.inspect_target("planner_server");
    assert_eq!(bare.namespace, "/");
    assert_eq!(bare.node_name, "planner_server");
    assert_eq!(bare.parameters.len(), 2);
    let unknown = MockBackend.inspect_target("/x/y");
    assert!(unknown.parameters.is_empty());
}

#[test]
fn mock_accepts_writes() {
    let r = MockBackend.set_parameter("/a", ParameterUpdate { name: "p".into(), value: ParameterValue::Integer(1) });
    assert_eq!(r.name, "p");
    assert!(r.successful);
    assert!(r.reason.is_none());
    let rs = MockBackend.set_parameters(
        "/a",
        vec![
            ParameterUpdate { name: "x".into(), value: ParameterValue::Bool(true) },
            ParameterUpdate { name: "y".into(), value: ParameterValue::NotSet },
        ],
        true,
    );
    let names: Vec<&str> = rs.iter().map(|r| r.name.as_str()).collect();
    assert_eq!(names, vec!["x", "y"]);
    assert!(rs.iter().all(|r| r.successful && r.reason.is_none()));
}

#[test]
fn mock_export_matches_readme_format() {
    let yaml = MockBackend.export_parameters(&ExportSelection::default());
    assert!(yaml.starts_with("# ROS 2 Parameters — Exported by ROS 2 Param Tuner\n# Generated: auto\n\n"));
    assert!(yaml.contains(
        "/navigation/controller_server:\n  ros__parameters:\n    controller_frequency: 20.0\n    FollowPath.max_vel_x: 0.55\n    FollowPath.max_vel_theta: 1.0\n    debug_trajectory_details: true\n\n"
    ));
    assert!(!yaml.contains("use_sim_time"));
    assert!(yaml.contains("/localization/amcl:\n  ros__parameters:\n    min_particles: 500\n    max_particles: 2000\n    update_min_a: 0.2\n\n"));
    let changed_only = MockBackend.export_parameters(&ExportSelection { only_changed: true, ..Default::default() });
    assert_eq!(changed_only, "# ROS 2 Parameters — Exported by ROS 2 Param Tuner\n# Generated: auto\n\n");
}

#[test]
fn mock_export_is_the_readme_sample() {
    let yaml = MockBackend.export_parameters(&ExportSelection::default());
    assert!(yaml.contains(
        "/navigation/controller_server:\n  ros__parameters:\n    controller_frequency: 20.0\n    FollowPath.max_vel_x: 0.55\n    FollowPath.max_vel_theta: 1.0\n    debug_trajectory_details: true\n\n/navigation/planner_server:\n  ros__parameters:\n    expected_planner_frequency: 5.0\n    GridBased.tolerance: 0.5\n"
    ));
}

#[test]
fn reply_failures() {
    let e = Some(RpcError { code: -32601, message: "no such method".into() });
    assert_eq!(reply_failure(&e, true).unwrap(), "Agent error: no such method (code -32601)");
    assert_eq!(reply_failure(&None, false).unwrap(), "Agent response missing result field");
    assert!(reply_failure(&None, true).is_none());
}

#[test]
fn export_inspects_available_nodes() {
    let mut s = MockBackend.discover_targets();
    s[1].state = ParameterTargetState::Timeout;
    assert_eq!(nodes_to_inspect(&s), vec!["/navigation/controller_server".to_string(), "/localization/amcl".to_string()]);
}
