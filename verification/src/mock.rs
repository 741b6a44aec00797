//! A backend for demonstration and tests that needs no ROS 2: three
//! navigation and localization nodes with fixed parameters, and every write
//! accepted.
use vstd::prelude::*;

use crate::model::{
    ApplyResult, ApplyState, ApplyStateView, EntryView, ExportSelection, FloatValue, FloatView,
    ParameterEntry, ParameterTarget, ParameterTargetState, ParameterTargetSummary,
    ParameterUpdate, ParameterValue, ResultView, SummaryView, TargetView, ValueView,
};
use crate::text::{chars_of, push_char_range, text_eq};
use crate::yaml::{export_all_to_yaml, export_header, exported_targets, sections, targets_view};

verus! {

/// The backend that serves fixed demonstration data.
pub struct MockBackend;

/// The summaries the backend reports.
pub open spec fn mock_summaries() -> Seq<SummaryView> {
    seq![
        SummaryView {
            full_node_name: "/navigation/controller_server"@,
            namespace: "/navigation"@,
            node_name: "controller_server"@,
            state: ParameterTargetState::Available,
            parameter_count: 12,
        },
        SummaryView {
            full_node_name: "/navigation/planner_server"@,
            namespace: "/navigation"@,
            node_name: "planner_server"@,
            state: ParameterTargetState::Available,
            parameter_count: 8,
        },
        SummaryView {
            full_node_name: "/localization/amcl"@,
            namespace: "/localization"@,
            node_name: "amcl"@,
            state: ParameterTargetState::Available,
            parameter_count: 15,
        },
    ]
}

/// The position of the last `/` in `s`.
pub open spec fn last_slash(s: Seq<char>) -> Option<int>
    decreases s.len(),
{
    if s.len() == 0 {
        None
    } else if s.last() == '/' {
        Some(s.len() - 1)
    } else {
        last_slash(s.drop_last())
    }
}

/// A full node name split at its last `/` into namespace and node name;
/// the namespace is `/` when nothing stands before that slash or there is
/// no slash.
pub open spec fn split_node_name(full: Seq<char>) -> (Seq<char>, Seq<char>) {
    match last_slash(full) {
        Some(i) => {
            let ns = full.subrange(0, i);
            let name = full.subrange(i + 1, full.len() as int);
            if ns.len() == 0 {
                ("/"@, name)
            } else {
                (ns, name)
            }
        },
        None => ("/"@, full),
    }
}

/// A demonstration number whose plain and debug texts are `text`.
pub open spec fn mock_number(bits: u64, text: Seq<char>) -> ValueView {
    ValueView::Double(FloatView { bits, text, debug: text })
}

/// A demonstration parameter: writable, unconstrained, unchanged.
pub open spec fn mock_entry(
    name: Seq<char>,
    value: ValueView,
    description: Seq<char>,
    constraints: Seq<char>,
) -> EntryView {
    EntryView {
        name,
        current_value: value,
        original_value: value,
        description,
        additional_constraints: constraints,
        read_only: false,
        dynamic_typing: false,
        integer_ranges: seq![],
        floating_ranges: seq![],
        changed: false,
        apply_state: ApplyStateView::Unchanged,
    }
}

/// The parameters of each demonstration node (none for other names).
pub open spec fn mock_parameters(node: Seq<char>) -> Seq<EntryView> {
    if node == "controller_server"@ {
        seq![
            mock_entry(
                "controller_frequency"@,
                mock_number(0x4034000000000000, "20.0"@),
                "Controller update frequency"@,
                "Range: [0.0, 100.0]"@,
            ),
            mock_entry(
                "FollowPath.max_vel_x"@,
                mock_number(0x3fe199999999999a, "0.55"@),
                "Maximum velocity in X direction"@,
                ""@,
            ),
            mock_entry(
                "FollowPath.max_vel_theta"@,
                mock_number(0x3ff0000000000000, "1.0"@),
                "Maximum angular velocity"@,
                ""@,
            ),
            mock_entry(
                "debug_trajectory_details"@,
                ValueView::Bool(true),
                "Enable debug trajectory details"@,
                ""@,
            ),
            mock_entry("use_sim_time"@, ValueView::Bool(false), "Use simulation time"@, ""@),
        ]
    } else if node == "planner_server"@ {
        seq![
            mock_entry(
                "expected_planner_frequency"@,
                mock_number(0x4014000000000000, "5.0"@),
                "Expected planner update frequency"@,
                ""@,
            ),
            mock_entry(
                "GridBased.tolerance"@,
                mock_number(0x3fe0000000000000, "0.5"@),
                "Planning tolerance"@,
                ""@,
            ),
        ]
    } else if node == "amcl"@ {
        seq![
            mock_entry(
                "min_particles"@,
                ValueView::Integer(500),
                "Minimum number of particles"@,
                ""@,
            ),
            mock_entry(
                "max_particles"@,
                ValueView::Integer(2000),
                "Maximum number of particles"@,
                ""@,
            ),
            mock_entry(
                "update_min_a"@,
                mock_number(0x3fc999999999999a, "0.2"@),
                "Minimum angular movement to trigger update"@,
                ""@,
            ),
        ]
    } else {
        seq![]
    }
}

/// The target the backend reports for a full node name.
pub open spec fn mock_target(full: Seq<char>) -> TargetView {
    let (ns, name) = split_node_name(full);
    TargetView {
        full_node_name: full,
        namespace: ns,
        node_name: name,
        state: ParameterTargetState::Available,
        parameters: mock_parameters(name),
    }
}

/// The result of an accepted write.
pub open spec fn accepted(name: Seq<char>) -> ResultView {
    ResultView { name, successful: true, reason: None }
}

/// The views of a list of summaries.
pub open spec fn summaries_view(v: Seq<ParameterTargetSummary>) -> Seq<SummaryView> {
    v.map_values(|s: ParameterTargetSummary| s@)
}

/// The views of a list of results.
pub open spec fn results_view(v: Seq<ApplyResult>) -> Seq<ResultView> {
    v.map_values(|r: ApplyResult| r@)
}

fn summary(full: &str, ns: &str, name: &str, count: usize) -> (res: ParameterTargetSummary)
    ensures
        res@ == (SummaryView {
            full_node_name: full@,
            namespace: ns@,
            node_name: name@,
            state: ParameterTargetState::Available,
            parameter_count: count,
        }),
{
    ParameterTargetSummary {
        full_node_name: String::from_str(full),
        namespace: String::from_str(ns),
        node_name: String::from_str(name),
        state: ParameterTargetState::Available,
        parameter_count: count,
    }
}

fn number(bits: u64, text: &str) -> (res: ParameterValue)
    ensures
        res@ == mock_number(bits, text@),
{
    ParameterValue::Double(
        FloatValue { bits, text: String::from_str(text), debug: String::from_str(text) },
    )
}

fn entry(name: &str, value: ParameterValue, description: &str, constraints: &str) -> (res:
    ParameterEntry)
    ensures
        res@ == mock_entry(name@, value@, description@, constraints@),
{
    let original = value.copy_value();
    let res = ParameterEntry {
        name: String::from_str(name),
        current_value: value,
        original_value: original,
        description: String::from_str(description),
        additional_constraints: String::from_str(constraints),
        read_only: false,
        dynamic_typing: false,
        integer_ranges: Vec::new(),
        floating_ranges: Vec::new(),
        changed: false,
        apply_state: ApplyState::Unchanged,
    };
    assert(res@.floating_ranges =~= Seq::<crate::model::FloatRangeView>::empty());
    res
}

fn parameters_of(node: &str) -> (res: Vec<ParameterEntry>)
    ensures
        crate::model::entries_view(res@) == mock_parameters(node@),
{
    let mut v: Vec<ParameterEntry> = Vec::new();
    if text_eq(node, "controller_server") {
        v.push(
            entry(
                "controller_frequency",
                number(0x4034000000000000, "20.0"),
                "Controller update frequency",
                "Range: [0.0, 100.0]",
            ),
        );
        v.push(
            entry(
                "FollowPath.max_vel_x",
                number(0x3fe199999999999a, "0.55"),
                "Maximum velocity in X direction",
                "",
            ),
        );
        v.push(
            entry(
                "FollowPath.max_vel_theta",
                number(0x3ff0000000000000, "1.0"),
                "Maximum angular velocity",
                "",
            ),
        );
        v.push(
            entry(
                "debug_trajectory_details",
                ParameterValue::Bool(true),
                "Enable debug trajectory details",
                "",
            ),
        );
        v.push(entry("use_sim_time", ParameterValue::Bool(false), "Use simulation time", ""));
    } else if text_eq(node, "planner_server") {
        v.push(
            entry(
                "expected_planner_frequency",
                number(0x4014000000000000, "5.0"),
                "Expected planner update frequency",
                "",
            ),
        );
        v.push(
            entry(
                "GridBased.tolerance",
                number(0x3fe0000000000000, "0.5"),
                "Planning tolerance",
                "",
            ),
        );
    } else if text_eq(node, "amcl") {
        v.push(
            entry(
                "min_particles",
                ParameterValue::Integer(500),
                "Minimum number of particles",
                "",
            ),
        );
        v.push(
            entry(
                "max_particles",
                ParameterValue::Integer(2000),
                "Maximum number of particles",
                "",
            ),
        );
        v.push(
            entry(
                "update_min_a",
                number(0x3fc999999999999a, "0.2"),
                "Minimum angular movement to trigger update",
                "",
            ),
        );
    }
    assert(crate::model::entries_view(v@) =~= mock_parameters(node@));
    v
}

/// Splits a full node name at its last `/`.
fn split_full_name(full: &str) -> (res: (String, String))
    ensures
        (res.0@, res.1@) == split_node_name(full@),
{
    let x = chars_of(full);
    let mut i: usize = x.len();
    assert(full@.subrange(0, full@.len() as int) =~= full@);
    while i > 0 && x[i - 1] != '/'
        invariant
            x@ == full@,
            i <= x@.len(),
            last_slash(full@) == last_slash(full@.subrange(0, i as int)),
        decreases i,
    {
        assert(full@.subrange(0, i as int).drop_last() =~= full@.subrange(0, i - 1));
        i = i - 1;
    }
    if i == 0 {
        assert(last_slash(full@.subrange(0, 0)) is None);
        let mut name = String::new();
        push_char_range(&mut name, &x, 0, x.len());
        assert(name@ =~= full@);
        (String::from_str("/"), name)
    } else {
        assert(last_slash(full@) == Some((i - 1) as int));
        let mut ns = String::new();
        push_char_range(&mut ns, &x, 0, i - 1);
        let mut name = String::new();
        push_char_range(&mut name, &x, i, x.len());
        if i - 1 == 0 {
            (String::from_str("/"), name)
        } else {
            (ns, name)
        }
    }
}

impl MockBackend {
    /// The demonstration nodes.
    pub fn discover_targets(&self) -> (res: Vec<ParameterTargetSummary>)
        ensures
            summaries_view(res@) == mock_summaries(),
    {
        let mut v: Vec<ParameterTargetSummary> = Vec::new();
        v.push(
            summary("/navigation/controller_server", "/navigation", "controller_server", 12),
        );
        v.push(summary("/navigation/planner_server", "/navigation", "planner_server", 8));
        v.push(summary("/localization/amcl", "/localization", "amcl", 15));
        assert(summaries_view(v@) =~= mock_summaries());
        v
    }

    /// The node of that full name, available, with the demonstration
    /// parameters of its node name.
    pub fn inspect_target(&self, full_node_name: &str) -> (res: ParameterTarget)
        ensures
            res@ == mock_target(full_node_name@),
    {
        let (namespace, node_name) = split_full_name(full_node_name);
        let parameters = parameters_of(node_name.as_str());
        ParameterTarget {
            full_node_name: String::from_str(full_node_name),
            namespace,
            node_name,
            state: ParameterTargetState::Available,
            parameters,
        }
    }

    /// Accepts the write.
    pub fn set_parameter(&self, node: &str, update: ParameterUpdate) -> (res: ApplyResult)
        ensures
            res@ == accepted(update@.name),
    {
        ApplyResult { name: update.name, successful: true, reason: None }
    }

    /// Accepts every write, one result per update in their order.
    pub fn set_parameters(&self, node: &str, updates: Vec<ParameterUpdate>, atomic: bool) -> (res:
        Vec<ApplyResult>)
        ensures
            results_view(res@) == updates@.map_values(|u: ParameterUpdate| accepted(u@.name)),
    {
        let mut out: Vec<ApplyResult> = Vec::new();
        let mut i: usize = 0;
        while i < updates.len()
            invariant
                i <= updates@.len(),
                out@.len() == i,
                forall|j: int|
                    0 <= j < i ==> (#[trigger] out@[j])@ == accepted(updates@[j]@.name),
            decreases updates@.len() - i,
        {
            out.push(ApplyResult { name: updates[i].name.clone(), successful: true, reason: None });
            i = i + 1;
        }
        assert(results_view(out@) =~= updates@.map_values(|u: ParameterUpdate| accepted(u@.name)));
        out
    }

    /// All demonstration nodes exported as one YAML text.
    pub fn export_parameters(&self, selection: &ExportSelection) -> (res: String)
        ensures
            res@ == export_header() + sections(
                exported_targets(
                    mock_summaries().map_values(|s: SummaryView| mock_target(s.full_node_name)),
                    selection@,
                ),
                selection@,
            ),
    {
        let summaries = self.discover_targets();
        let mut targets: Vec<ParameterTarget> = Vec::new();
        let mut i: usize = 0;
        while i < summaries.len()
            invariant
                summaries_view(summaries@) == mock_summaries(),
                i <= summaries@.len(),
                targets@.len() == i,
                forall|j: int|
                    0 <= j < i ==> (#[trigger] targets@[j])@ == mock_target(
                        summaries@[j]@.full_node_name,
                    ),
            decreases summaries@.len() - i,
        {
            let t = self.inspect_target(summaries[i].full_node_name.as_str());
            targets.push(t);
            i = i + 1;
        }
        assert(targets_view(targets@) =~= mock_summaries().map_values(
            |s: SummaryView| mock_target(s.full_node_name),
        ));
        export_all_to_yaml(targets.as_slice(), selection)
    }
}

} // verus!
