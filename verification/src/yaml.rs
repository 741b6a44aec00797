//! Export of parameters as standard ROS 2 parameter YAML
//! (the format of `ros2 param dump`): one section per node,
//!
//! ```text
//! /navigation/controller_server:
//!   ros__parameters:
//!     ...
//! ```
//!
//! in one file, one file per namespace, or one file per node.
use vstd::prelude::*;

use crate::model::{
    bracketed, comma_space, entries_view, entry_refs_view, internal_name, is_inf_bits, is_nan_bits,
    is_negative_bits, texts_view, EntryView, ExportSelection, FloatValue, FloatView,
    ParameterEntry, ParameterTarget, ParameterTargetState, ParameterValue, SelectionView,
    TargetView, ValueView, bracket_list, is_internal_parameter,
};
use crate::scalar::{law_quoted_reads_back, push_quoted, quoted, unquote};
use crate::text::{
    bool_text, chars_of, concat, contains_pair, decimal, digit_char, is_white, join, lemma_concat_push,
    lemma_join_push, lemma_line_break_at, lemma_lines_no_lf, lemma_split_join,
    lemma_text_lt_irreflexive, lemma_text_lt_total, lemma_text_lt_transitive, line_break, lines,
    push_bool, push_char, push_char_range, push_decimal, push_replaced, push_signed_decimal,
    push_spaces, push_str, replace_char, signed_decimal, spaces, split_at_char, split_lf, starts_with,
    strip_cr, text_contains_char, text_contains_pair, text_eq, text_less, text_lt, text_trim_start, text_trim_start_char, trim_start,
    trim_start_char,
};

verus! {

// ---------------------------------------------------------------------------
// Values
// ---------------------------------------------------------------------------

/// A number as YAML writes it: `.inf`, `-.inf`, `.nan`, or its plain text.
pub open spec fn yaml_float(f: FloatView) -> Seq<char> {
    if is_inf_bits(f.bits) {
        if is_negative_bits(f.bits) {
            "-.inf"@
        } else {
            ".inf"@
        }
    } else if is_nan_bits(f.bits) {
        ".nan"@
    } else {
        f.text
    }
}

/// The lines of `text`, each after `indent` spaces, joined by line feeds.
pub open spec fn indented_lines(text: Seq<char>, indent: nat) -> Seq<char> {
    join(lines(text).map_values(|l: Seq<char>| spaces(indent) + l), seq!['\n'])
}

/// A string inside a flow list: quoted when it holds a space or a colon.
pub open spec fn list_item(s: Seq<char>) -> Seq<char> {
    if s.contains(' ') || s.contains(':') {
        quoted(s)
    } else {
        s
    }
}

/// A string that cannot stand plain: it holds a line feed, `": "` or `#`.
pub open spec fn needs_quoting(s: Seq<char>) -> bool {
    s.contains('\n') || contains_pair(s, ':', ' ') || s.contains('#')
}

/// What follows `name: ` for a value, on a line indented by `indent`.
pub open spec fn yaml_body(v: ValueView, indent: nat) -> Seq<char> {
    match v {
        ValueView::NotSet => "null"@,
        ValueView::Bool(b) => bool_text(b),
        ValueView::Integer(i) => signed_decimal(i as int),
        ValueView::Double(f) => yaml_float(f),
        ValueView::String(s) => if needs_quoting(s) {
            if s.contains('\n') {
                seq!['|', '\n'] + indented_lines(s, indent + 2)
            } else {
                quoted(s)
            }
        } else if s.len() == 0 {
            seq!['\'', '\'']
        } else {
            s
        },
        ValueView::ByteArray(a) => bracketed(a.map_values(|b: u8| decimal(b as nat))),
        ValueView::BoolArray(a) => bracketed(a.map_values(|b: bool| bool_text(b))),
        ValueView::IntegerArray(a) => bracketed(a.map_values(|x: i64| signed_decimal(x as int))),
        ValueView::DoubleArray(a) => bracketed(a.map_values(|f: FloatView| yaml_float(f))),
        ValueView::StringArray(a) => bracketed(a.map_values(|s: Seq<char>| list_item(s))),
    }
}

/// The YAML line (or block) of one parameter: `indent` spaces, a space,
/// the name, `": "`, and the value.
pub open spec fn yaml_line(name: Seq<char>, v: ValueView, indent: nat) -> Seq<char> {
    spaces(indent) + seq![' '] + name + seq![':', ' '] + yaml_body(v, indent)
}

/// The number of `.` in a name: its key levels less one.
pub open spec fn dot_count(s: Seq<char>) -> nat
    decreases s.len(),
{
    if s.len() == 0 {
        0
    } else {
        dot_count(s.drop_last()) + if s.last() == '.' {
            1nat
        } else {
            0nat
        }
    }
}

/// The indentation of a parameter's key: two more spaces for each
/// dot-separated level past the first (`FollowPath.PathAlign.scale` at
/// base 4 gives 8).
pub fn indent_for_name(name: &str, base_indent: usize) -> (res: usize)
    requires
        base_indent + 2 * dot_count(name@) <= usize::MAX,
    ensures
        res == base_indent + 2 * dot_count(name@),
{
    let x = chars_of(name);
    let mut i: usize = 0;
    let mut indent: usize = base_indent;
    while i < x.len()
        invariant
            x@ == name@,
            i <= x@.len(),
            indent == base_indent + 2 * dot_count(name@.subrange(0, i as int)),
            base_indent + 2 * dot_count(name@) <= usize::MAX,
        decreases x@.len() - i,
    {
        proof {
            assert(name@.subrange(0, i + 1).drop_last() =~= name@.subrange(0, i as int));
            lemma_dot_count_prefix(name@, i + 1);
        }
        if x[i] == '.' {
            indent = indent + 2;
        }
        i = i + 1;
    }
    assert(name@.subrange(0, x@.len() as int) =~= name@);
    indent
}

proof fn lemma_dot_count_prefix(s: Seq<char>, i: int)
    requires
        0 <= i <= s.len(),
    ensures
        dot_count(s.subrange(0, i)) <= dot_count(s),
    decreases s.len() - i,
{
    if i < s.len() {
        lemma_dot_count_prefix(s, i + 1);
        assert(s.subrange(0, i + 1).drop_last() =~= s.subrange(0, i));
    } else {
        assert(s.subrange(0, i) =~= s);
    }
}

/// A number as YAML writes it.
pub fn format_yaml_float(v: &FloatValue) -> (res: String)
    ensures
        res@ == yaml_float(v@),
{
    if v.is_infinite() {
        if v.is_sign_negative() {
            String::from_str("-.inf")
        } else {
            String::from_str(".inf")
        }
    } else if v.is_nan() {
        String::from_str(".nan")
    } else {
        v.text.clone()
    }
}

/// The lines of `text`, each after `indent` spaces, joined by line feeds.
pub fn indent_each_line(text: &str, indent: usize) -> (res: String)
    ensures
        res@ == indented_lines(text@, indent as nat),
{
    let x = chars_of(text);
    let n = x.len();
    let mut out = String::new();
    let mut pos: usize = 0;
    let ghost mut done: Seq<Seq<char>> = seq![];
    let ghost f = |l: Seq<char>| spaces(indent as nat) + l;
    assert(text@.subrange(0, n as int) =~= text@);
    while pos < n
        invariant
            x@ == text@,
            n == x@.len(),
            pos <= n,
            (pos == 0) == (done.len() == 0),
            lines(text@) == done + lines(text@.subrange(pos as int, n as int)),
            out@ == join(done.map_values(f), seq!['\n']),
            f == (|l: Seq<char>| spaces(indent as nat) + l),
        decreases n - pos,
    {
        let mut k: usize = pos;
        while k < n && x[k] != '\n'
            invariant
                x@ == text@,
                n == x@.len(),
                pos <= k <= n,
                forall|j: int| pos <= j < k ==> x@[j] != '\n',
            decreases n - k,
        {
            k = k + 1;
        }
        let ghost rest = text@.subrange(pos as int, n as int);
        proof {
            assert forall|j: int| 0 <= j < k - pos implies rest[j] != '\n' by {
                assert(rest[j] == x@[pos + j]);
            }
            lemma_line_break_at(rest, k - pos);
        }
        let end: usize = if k < n && k > pos && x[k - 1] == '\r' {
            k - 1
        } else {
            k
        };
        let ghost line = text@.subrange(pos as int, end as int);
        proof {
            if k < n {
                assert(rest.subrange(0, (k - pos) as int) =~= text@.subrange(pos as int, k as int));
                assert(rest.subrange((k - pos + 1) as int, rest.len() as int) =~= text@.subrange(
                    k + 1,
                    n as int,
                ));
                assert(strip_cr(text@.subrange(pos as int, k as int)) =~= line);
                assert(lines(rest) == seq![line] + lines(text@.subrange(k + 1, n as int)));
            } else {
                assert(line =~= rest);
                assert(lines(rest) == seq![line]);
                assert(text@.subrange(n as int, n as int) =~= Seq::<char>::empty());
            }
            lemma_join_push(done.map_values(f), seq!['\n'], f(line));
            assert(done.push(line).map_values(f) =~= done.map_values(f).push(f(line)));
        }
        if pos > 0 {
            push_char(&mut out, '\n');
        }
        push_spaces(&mut out, indent);
        push_char_range(&mut out, &x, pos, end);
        proof {
            done = done.push(line);
        }
        pos = if k < n {
            k + 1
        } else {
            n
        };
        assert(lines(text@) == done + lines(text@.subrange(pos as int, n as int))) by {
            if k >= n {
                assert(lines(text@.subrange(n as int, n as int)) =~= Seq::<Seq<char>>::empty());
            }
            assert(done.drop_last() + seq![line] =~= done);
        }
    }
    out
}

/// The YAML line (or block) of one parameter.
pub fn format_yaml_value(name: &str, value: &ParameterValue, indent: usize) -> (res: String)
    requires
        value@ matches ValueView::String(s) && s.contains('\n') ==> indent <= usize::MAX - 2,
    ensures
        res@ == yaml_line(name@, value@, indent as nat),
{
    let mut out = String::new();
    push_spaces(&mut out, indent);
    push_char(&mut out, ' ');
    push_str(&mut out, name);
    push_char(&mut out, ':');
    push_char(&mut out, ' ');
    let ghost head = out@;
    assert(head =~= spaces(indent as nat) + seq![' '] + name@ + seq![':', ' ']);
    match value {
        ParameterValue::NotSet => push_str(&mut out, "null"),
        ParameterValue::Bool(b) => push_bool(&mut out, *b),
        ParameterValue::Integer(i) => push_signed_decimal(&mut out, *i),
        ParameterValue::Double(f) => {
            let t = format_yaml_float(f);
            push_str(&mut out, t.as_str());
        },
        ParameterValue::String(s) => {
            let has_newline = text_contains_char(s.as_str(), '\n');
            if has_newline || text_contains_pair(s.as_str(), ':', ' ') || text_contains_char(
                s.as_str(),
                '#',
            ) {
                if has_newline {
                    push_char(&mut out, '|');
                    push_char(&mut out, '\n');
                    let block = indent_each_line(s.as_str(), indent + 2);
                    push_str(&mut out, block.as_str());
                    assert(out@ =~= head + (seq!['|', '\n'] + indented_lines(s@, (indent + 2) as nat)));
                } else {
                    push_quoted(&mut out, s.as_str());
                }
            } else if s.as_str().is_empty() {
                push_char(&mut out, '\'');
                push_char(&mut out, '\'');
                assert(s@.len() == 0);
                assert(out@ =~= head + seq!['\'', '\'']);
            } else {
                push_str(&mut out, s.as_str());
                assert(s@.len() != 0);
            }
        },
        ParameterValue::ByteArray(a) => {
            let mut items: Vec<String> = Vec::new();
            let mut i: usize = 0;
            while i < a.len()
                invariant
                    i <= a@.len(),
                    items@.len() == i,
                    forall|j: int| 0 <= j < i ==> (#[trigger] items@[j])@ == decimal(a@[j] as nat),
                decreases a@.len() - i,
            {
                let mut t = String::new();
                push_decimal(&mut t, a[i] as u64);
                items.push(t);
                i = i + 1;
            }
            assert(texts_view(items@) =~= a@.map_values(|b: u8| decimal(b as nat)));
            let l = bracket_list(&items);
            push_str(&mut out, l.as_str());
        },
        ParameterValue::BoolArray(a) => {
            let mut items: Vec<String> = Vec::new();
            let mut i: usize = 0;
            while i < a.len()
                invariant
                    i <= a@.len(),
                    items@.len() == i,
                    forall|j: int| 0 <= j < i ==> (#[trigger] items@[j])@ == bool_text(a@[j]),
                decreases a@.len() - i,
            {
                let mut t = String::new();
                push_bool(&mut t, a[i]);
                items.push(t);
                i = i + 1;
            }
            assert(texts_view(items@) =~= a@.map_values(|b: bool| bool_text(b)));
            let l = bracket_list(&items);
            push_str(&mut out, l.as_str());
        },
        ParameterValue::IntegerArray(a) => {
            let mut items: Vec<String> = Vec::new();
            let mut i: usize = 0;
            while i < a.len()
                invariant
                    i <= a@.len(),
                    items@.len() == i,
                    forall|j: int|
                        0 <= j < i ==> (#[trigger] items@[j])@ == signed_decimal(a@[j] as int),
                decreases a@.len() - i,
            {
                let mut t = String::new();
                push_signed_decimal(&mut t, a[i]);
                items.push(t);
                i = i + 1;
            }
            assert(texts_view(items@) =~= a@.map_values(|x: i64| signed_decimal(x as int)));
            let l = bracket_list(&items);
            push_str(&mut out, l.as_str());
        },
        ParameterValue::DoubleArray(a) => {
            let mut items: Vec<String> = Vec::new();
            let mut i: usize = 0;
            while i < a.len()
                invariant
                    i <= a@.len(),
                    items@.len() == i,
                    forall|j: int| 0 <= j < i ==> (#[trigger] items@[j])@ == yaml_float(a@[j]@),
                decreases a@.len() - i,
            {
                items.push(format_yaml_float(&a[i]));
                i = i + 1;
            }
            assert(texts_view(items@) =~= a@.map_values(|f: FloatValue| f@).map_values(
                |f: FloatView| yaml_float(f),
            ));
            let l = bracket_list(&items);
            push_str(&mut out, l.as_str());
        },
        ParameterValue::StringArray(a) => {
            let mut items: Vec<String> = Vec::new();
            let mut i: usize = 0;
            while i < a.len()
                invariant
                    i <= a@.len(),
                    items@.len() == i,
                    forall|j: int| 0 <= j < i ==> (#[trigger] items@[j])@ == list_item(a@[j]@),
                decreases a@.len() - i,
            {
                let mut t = String::new();
                let item = a[i].as_str();
                if text_contains_char(item, ' ') || text_contains_char(item, ':') {
                    push_quoted(&mut t, item);
                } else {
                    push_str(&mut t, item);
                }
                items.push(t);
                i = i + 1;
            }
            assert(texts_view(items@) =~= texts_view(a@).map_values(
                |s: Seq<char>| list_item(s),
            ));
            let l = bracket_list(&items);
            push_str(&mut out, l.as_str());
        },
    }
    assert(out@ =~= head + yaml_body(value@, indent as nat));
    out
}


// ---------------------------------------------------------------------------
// Nodes
// ---------------------------------------------------------------------------

/// Whether an entry passes the selection's filters: changed (when only
/// changed ones are asked for), not internal (unless internal ones are
/// included), not read-only (unless read-only ones are included).
pub open spec fn selected(e: EntryView, sel: SelectionView) -> bool {
    &&& !(sel.only_changed && !e.changed)
    &&& !(!sel.include_internal && internal_name(e.name))
    &&& !(!sel.include_readonly && e.read_only)
}

/// The entries that pass the selection's filters, in their order.
pub open spec fn selected_entries(ps: Seq<EntryView>, sel: SelectionView) -> Seq<EntryView>
    decreases ps.len(),
{
    if ps.len() == 0 {
        seq![]
    } else if selected(ps.last(), sel) {
        selected_entries(ps.drop_last(), sel).push(ps.last())
    } else {
        selected_entries(ps.drop_last(), sel)
    }
}

/// The line of one exported parameter, nested under `ros__parameters:`
/// by four spaces.
pub open spec fn entry_line(e: EntryView) -> Seq<char> {
    spaces(4) + trim_start(yaml_line(e.name, e.current_value, 4)) + seq!['\n']
}

/// The YAML section of one node: empty when no parameter is selected.
pub open spec fn target_yaml(t: TargetView, sel: SelectionView) -> Seq<char> {
    let es = selected_entries(t.parameters, sel);
    if es.len() == 0 {
        seq![]
    } else {
        t.full_node_name + seq![':', '\n'] + "  ros__parameters:\n"@ + concat(
            es.map_values(|e: EntryView| entry_line(e)),
        ) + seq!['\n']
    }
}

/// The parameters that pass the selection's filters.
pub fn filter_parameters<'a>(params: &'a [ParameterEntry], selection: &ExportSelection) -> (res: Vec<
    &'a ParameterEntry,
>)
    ensures
        entry_refs_view(res@) == selected_entries(entries_view(params@), selection@),
{
    let mut out: Vec<&ParameterEntry> = Vec::new();
    let mut i: usize = 0;
    while i < params.len()
        invariant
            i <= params@.len(),
            entry_refs_view(out@) == selected_entries(
                entries_view(params@.subrange(0, i as int)),
                selection@,
            ),
        decreases params@.len() - i,
    {
        let p = &params[i];
        proof {
            assert(entries_view(params@.subrange(0, i + 1)).drop_last() =~= entries_view(
                params@.subrange(0, i as int),
            ));
        }
        let keep = !(selection.only_changed && !p.changed) && !(!selection.include_internal
            && is_internal_parameter(p.name.as_str())) && !(!selection.include_readonly
            && p.read_only);
        if keep {
            let ghost before = out@;
            out.push(p);
            assert(entry_refs_view(out@) =~= entry_refs_view(before).push(p@));
        }
        i = i + 1;
    }
    assert(params@.subrange(0, params@.len() as int) =~= params@);
    out
}

/// One node as a standard ROS 2 YAML section (empty when no parameter is
/// selected).
pub fn export_target_to_yaml(target: &ParameterTarget, selection: &ExportSelection) -> (res:
    String)
    ensures
        res@ == target_yaml(target@, selection@),
{
    let filtered = filter_parameters(target.parameters.as_slice(), selection);
    let ghost es = selected_entries(target@.parameters, selection@);
    assert(entry_refs_view(filtered@) == es);
    if filtered.len() == 0 {
        return String::new();
    }
    let mut output = String::new();
    push_str(&mut output, target.full_node_name.as_str());
    push_char(&mut output, ':');
    push_char(&mut output, '\n');
    push_str(&mut output, "  ros__parameters:\n");
    let ghost head = output@;
    let ghost g = |e: EntryView| entry_line(e);
    let mut i: usize = 0;
    while i < filtered.len()
        invariant
            i <= filtered@.len(),
            entry_refs_view(filtered@) == es,
            output@ == head + concat(es.subrange(0, i as int).map_values(g)),
            g == (|e: EntryView| entry_line(e)),
        decreases filtered@.len() - i,
    {
        let p = filtered[i];
        let line = format_yaml_value(p.name.as_str(), &p.current_value, 4);
        let trimmed = text_trim_start(line.as_str());
        push_spaces(&mut output, 4);
        push_str(&mut output, trimmed.as_str());
        push_char(&mut output, '\n');
        proof {
            assert(es[i as int] == p@);
            lemma_concat_push(es.subrange(0, i as int).map_values(g), g(es[i as int]));
            assert(es.subrange(0, i + 1).map_values(g) =~= es.subrange(0, i as int).map_values(
                g,
            ).push(g(es[i as int])));
        }
        i = i + 1;
    }
    push_char(&mut output, '\n');
    assert(es.subrange(0, es.len() as int) =~= es);
    assert(output@ =~= target_yaml(target@, selection@));
    output
}

// ---------------------------------------------------------------------------
// Files
// ---------------------------------------------------------------------------

/// The views of a list of targets.
pub open spec fn targets_view(ts: Seq<ParameterTarget>) -> Seq<TargetView> {
    ts.map_values(|t: ParameterTarget| t@)
}

/// The views of a list of (file name, content) pairs.
pub open spec fn files_view(fs: Seq<(String, String)>) -> Seq<(Seq<char>, Seq<char>)> {
    fs.map_values(|f: (String, String)| (f.0@, f.1@))
}

/// The node is among those the selection names (no list, or an empty one,
/// names every node).
pub open spec fn node_listed(t: TargetView, sel: SelectionView) -> bool {
    match sel.nodes {
        None => true,
        Some(ns) => ns.len() == 0 || ns.contains(t.full_node_name),
    }
}

/// The node takes part in an export: it is available and listed.
pub open spec fn exported(t: TargetView, sel: SelectionView) -> bool {
    t.state == ParameterTargetState::Available && node_listed(t, sel)
}

/// The targets that take part in an export, in their order.
pub open spec fn exported_targets(ts: Seq<TargetView>, sel: SelectionView) -> Seq<TargetView>
    decreases ts.len(),
{
    if ts.len() == 0 {
        seq![]
    } else if exported(ts.last(), sel) {
        exported_targets(ts.drop_last(), sel).push(ts.last())
    } else {
        exported_targets(ts.drop_last(), sel)
    }
}

/// The sections of the targets, one after the other.
pub open spec fn sections(ts: Seq<TargetView>, sel: SelectionView) -> Seq<char> {
    concat(ts.map_values(|t: TargetView| target_yaml(t, sel)))
}

/// The comment lines that open a single-file export.
pub open spec fn export_header() -> Seq<char> {
    "# ROS 2 Parameters — Exported by ROS 2 Param Tuner\n"@ + "# Generated: auto\n\n"@
}

proof fn lemma_sections_push(ts: Seq<TargetView>, t: TargetView, sel: SelectionView)
    ensures
        sections(ts.push(t), sel) == sections(ts, sel) + target_yaml(t, sel),
{
    let g = |t: TargetView| target_yaml(t, sel);
    assert(ts.push(t).map_values(g) =~= ts.map_values(g).push(g(t)));
    lemma_concat_push(ts.map_values(g), g(t));
}

/// Whether the target takes part in an export.
fn is_exported(t: &ParameterTarget, selection: &ExportSelection) -> (res: bool)
    ensures
        res == exported(t@, selection@),
{
    if t.state != ParameterTargetState::Available {
        return false;
    }
    match &selection.nodes {
        None => true,
        Some(ns) => {
            if ns.len() == 0 {
                return true;
            }
            let mut i: usize = 0;
            assert(selection@.nodes == Some(texts_view(ns@)));
            while i < ns.len()
                invariant
                    selection@.nodes == Some(texts_view(ns@)),
                    t.state == ParameterTargetState::Available,
                    ns@.len() > 0,
                    i <= ns@.len(),
                    forall|j: int| 0 <= j < i ==> ns@[j]@ != t.full_node_name@,
                decreases ns@.len() - i,
            {
                if ns[i] == t.full_node_name {
                    assert(selection@.nodes == Some(texts_view(ns@)));
                    assert(texts_view(ns@)[i as int] == t.full_node_name@);
                    assert(texts_view(ns@).contains(t.full_node_name@));
                    return true;
                }
                i = i + 1;
            }
            assert(!texts_view(ns@).contains(t.full_node_name@)) by {
                if texts_view(ns@).contains(t.full_node_name@) {
                    let j = choose|j: int|
                        0 <= j < texts_view(ns@).len() && texts_view(ns@)[j] == t.full_node_name@;
                    assert(ns@[j]@ == t.full_node_name@);
                }
            }
            false
        },
    }
}

/// The exported nodes in one YAML text, after the header comment.
pub fn export_all_to_yaml(targets: &[ParameterTarget], selection: &ExportSelection) -> (res:
    String)
    ensures
        res@ == export_header() + sections(
            exported_targets(targets_view(targets@), selection@),
            selection@,
        ),
{
    let mut output = String::new();
    push_str(&mut output, "# ROS 2 Parameters — Exported by ROS 2 Param Tuner\n");
    push_str(&mut output, "# Generated: auto\n\n");
    let mut i: usize = 0;
    while i < targets.len()
        invariant
            i <= targets@.len(),
            output@ == export_header() + sections(
                exported_targets(targets_view(targets@.subrange(0, i as int)), selection@),
                selection@,
            ),
        decreases targets@.len() - i,
    {
        let target = &targets[i];
        let ghost prev = exported_targets(targets_view(targets@.subrange(0, i as int)), selection@);
        proof {
            assert(targets_view(targets@.subrange(0, i + 1)).drop_last() =~= targets_view(
                targets@.subrange(0, i as int),
            ));
            assert(targets_view(targets@.subrange(0, i + 1)).last() == target@);
        }
        if !is_exported(target, selection) {
            i = i + 1;
            continue;
        }
        let section = export_target_to_yaml(target, selection);
        proof {
            lemma_sections_push(prev, target@, selection@);
        }
        if !section.as_str().is_empty() {
            push_str(&mut output, section.as_str());
        } else {
            assert(section@ =~= Seq::<char>::empty());
        }
        assert(output@ =~= export_header() + sections(prev.push(target@), selection@));
        i = i + 1;
    }
    assert(targets@.subrange(0, targets@.len() as int) =~= targets@);
    output
}

/// The namespace a target is filed under: its namespace, or `/` when that
/// is empty.
pub open spec fn ns_key(t: TargetView) -> Seq<char> {
    if t.namespace.len() == 0 {
        "/"@
    } else {
        t.namespace
    }
}

/// `k` put into the ordered list `ks` of distinct keys, unless it is there.
pub open spec fn insert_key(ks: Seq<Seq<char>>, k: Seq<char>) -> Seq<Seq<char>>
    decreases ks.len(),
{
    if ks.len() == 0 {
        seq![k]
    } else if ks[0] == k {
        ks
    } else if text_lt(k, ks[0]) {
        seq![k] + ks
    } else {
        seq![ks[0]] + insert_key(ks.drop_first(), k)
    }
}

/// The namespaces of the exported targets, each once, in ascending order.
pub open spec fn namespace_keys(ts: Seq<TargetView>, sel: SelectionView) -> Seq<Seq<char>>
    decreases ts.len(),
{
    if ts.len() == 0 {
        seq![]
    } else if exported(ts.last(), sel) {
        insert_key(namespace_keys(ts.drop_last(), sel), ns_key(ts.last()))
    } else {
        namespace_keys(ts.drop_last(), sel)
    }
}

/// The exported targets filed under `ns`, in their order.
pub open spec fn in_namespace(ts: Seq<TargetView>, ns: Seq<char>, sel: SelectionView) -> Seq<
    TargetView,
>
    decreases ts.len(),
{
    if ts.len() == 0 {
        seq![]
    } else if exported(ts.last(), sel) && ns_key(ts.last()) == ns {
        in_namespace(ts.drop_last(), ns, sel).push(ts.last())
    } else {
        in_namespace(ts.drop_last(), ns, sel)
    }
}

/// The texts that are not empty, in their order.
pub open spec fn nonempty_texts(xs: Seq<Seq<char>>) -> Seq<Seq<char>>
    decreases xs.len(),
{
    if xs.len() == 0 {
        seq![]
    } else if xs.last().len() > 0 {
        nonempty_texts(xs.drop_last()).push(xs.last())
    } else {
        nonempty_texts(xs.drop_last())
    }
}

/// The node sections of one namespace: the non-empty sections of its
/// targets, in their order.
pub open spec fn namespace_sections(ts: Seq<TargetView>, ns: Seq<char>, sel: SelectionView) -> Seq<
    Seq<char>,
> {
    nonempty_texts(in_namespace(ts, ns, sel).map_values(|t: TargetView| target_yaml(t, sel)))
}

/// The most node sections in one file (zero: no limit).
pub open spec fn node_limit(sel: SelectionView) -> nat {
    match sel.max_nodes_per_file {
        Some(k) => k as nat,
        None => 0,
    }
}

/// `xs` cut into runs of `k` items, the last run holding the rest; one
/// run holding everything when `k` is zero or `xs` is no longer than `k`.
pub open spec fn chunks(xs: Seq<Seq<char>>, k: nat) -> Seq<Seq<Seq<char>>>
    decreases xs.len(),
{
    if k == 0 || xs.len() <= k {
        seq![xs]
    } else {
        seq![xs.subrange(0, k as int)] + chunks(xs.subrange(k as int, xs.len() as int), k)
    }
}

/// The base of a namespace's file names: `root` for the root, else the
/// namespace without its leading slashes, the other slashes turned into
/// underscores.
pub open spec fn namespace_stem(ns: Seq<char>) -> Seq<char> {
    if ns == "/"@ {
        "root"@
    } else {
        let clean = replace_char(trim_start_char(ns, '/'), '/', "_"@);
        if clean.len() == 0 {
            "root"@
        } else {
            clean
        }
    }
}

/// The name of file `j` (from zero) of a namespace: `<stem>.yaml`, then
/// `<stem>_2.yaml`, `<stem>_3.yaml` and so on.
pub open spec fn chunk_file_name(ns: Seq<char>, j: int) -> Seq<char> {
    if j == 0 {
        namespace_stem(ns) + ".yaml"@
    } else {
        namespace_stem(ns) + seq!['_'] + decimal((j + 1) as nat) + ".yaml"@
    }
}

/// The comment that opens a namespace file.
pub open spec fn namespace_header(ns: Seq<char>) -> Seq<char> {
    "# Namespace: "@ + ns + seq!['\n', '\n']
}

/// The files of one namespace: its node sections in runs of at most the
/// selection's limit, one file per run.
pub open spec fn namespace_files(ts: Seq<TargetView>, ns: Seq<char>, sel: SelectionView) -> Seq<
    (Seq<char>, Seq<char>),
> {
    chunks(namespace_sections(ts, ns, sel), node_limit(sel)).map(
        |j: int, c: Seq<Seq<char>>| (chunk_file_name(ns, j), namespace_header(ns) + concat(c)),
    )
}

/// The files of the given namespaces, one namespace after the other.
pub open spec fn files_of_namespaces(
    ts: Seq<TargetView>,
    keys: Seq<Seq<char>>,
    sel: SelectionView,
) -> Seq<(Seq<char>, Seq<char>)>
    decreases keys.len(),
{
    if keys.len() == 0 {
        seq![]
    } else {
        files_of_namespaces(ts, keys.drop_last(), sel) + namespace_files(ts, keys.last(), sel)
    }
}

/// The namespace a target is filed under.
fn namespace_of(t: &ParameterTarget) -> (res: String)
    ensures
        res@ == ns_key(t@),
{
    if t.namespace.as_str().is_empty() {
        String::from_str("/")
    } else {
        t.namespace.clone()
    }
}

/// Puts `k` into the ordered list of distinct keys, unless it is there.
/// The namespaces are kept in this list, in the order a `BTreeMap` keyed by
/// them would walk, because that order is then stated and proved over
/// `text_lt`.
fn insert_sorted(keys: &mut Vec<String>, k: String)
    ensures
        texts_view(final(keys)@) == insert_key(texts_view(old(keys)@), k@),
{
    let ghost ks = texts_view(keys@);
    let mut j: usize = 0;
    assert(ks.subrange(0, ks.len() as int) =~= ks);
    assert(ks.subrange(0, 0) + ks.subrange(0, ks.len() as int) =~= ks);
    while j < keys.len() && !(keys[j] == k) && !text_less(k.as_str(), keys[j].as_str())
        invariant
            ks == texts_view(keys@),
            j <= keys@.len(),
            insert_key(ks, k@) == ks.subrange(0, j as int) + insert_key(
                ks.subrange(j as int, ks.len() as int),
                k@,
            ),
        decreases keys@.len() - j,
    {
        proof {
            let suffix = ks.subrange(j as int, ks.len() as int);
            assert(suffix[0] == ks[j as int]);
            assert(suffix.drop_first() =~= ks.subrange(j + 1, ks.len() as int));
            assert(ks.subrange(0, j + 1) =~= ks.subrange(0, j as int) + seq![ks[j as int]]);
            assert(insert_key(suffix, k@) == seq![ks[j as int]] + insert_key(
                ks.subrange(j + 1, ks.len() as int),
                k@,
            ));
        }
        j = j + 1;
    }
    if j < keys.len() && keys[j] == k {
        assert(insert_key(ks.subrange(j as int, ks.len() as int), k@) =~= ks.subrange(
            j as int,
            ks.len() as int,
        ));
        assert(ks.subrange(0, j as int) + ks.subrange(j as int, ks.len() as int) =~= ks);
    } else {
        let ghost kv = k@;
        keys.insert(j, k);
        proof {
            let suffix = ks.subrange(j as int, ks.len() as int);
            if j < ks.len() {
                assert(insert_key(suffix, kv) == seq![kv] + suffix);
            } else {
                assert(suffix =~= Seq::<Seq<char>>::empty());
            }
            assert(texts_view(keys@) =~= ks.subrange(0, j as int) + insert_key(suffix, kv));
        }
    }
}

/// The base of a namespace's file names.
fn namespace_stem_of(ns: &str) -> (res: String)
    ensures
        res@ == namespace_stem(ns@),
{
    if text_eq(ns, "/") {
        return String::from_str("root");
    }
    let trimmed = text_trim_start_char(ns, '/');
    let mut clean = String::new();
    push_replaced(&mut clean, trimmed.as_str(), '/', "_");
    if clean.as_str().is_empty() {
        String::from_str("root")
    } else {
        clean
    }
}

/// The non-empty node sections of the namespace `ns`.
fn sections_of_namespace(
    targets: &[ParameterTarget],
    ns: &String,
    selection: &ExportSelection,
) -> (res: Vec<String>)
    ensures
        texts_view(res@) == namespace_sections(targets_view(targets@), ns@, selection@),
{
    let ghost tv = targets_view(targets@);
    let ghost g = |t: TargetView| target_yaml(t, selection@);
    let mut secs: Vec<String> = Vec::new();
    let mut m: usize = 0;
    while m < targets.len()
        invariant
            tv == targets_view(targets@),
            g == (|t: TargetView| target_yaml(t, selection@)),
            m <= targets@.len(),
            texts_view(secs@) == nonempty_texts(
                in_namespace(tv.subrange(0, m as int), ns@, selection@).map_values(g),
            ),
        decreases targets@.len() - m,
    {
        let target = &targets[m];
        let ghost prev = in_namespace(tv.subrange(0, m as int), ns@, selection@);
        proof {
            assert(tv.subrange(0, m + 1).drop_last() =~= tv.subrange(0, m as int));
            assert(tv.subrange(0, m + 1).last() == target@);
        }
        if is_exported(target, selection) {
            let key = namespace_of(target);
            if key == *ns {
                let section = export_target_to_yaml(target, selection);
                proof {
                    assert(prev.push(target@).map_values(g) =~= prev.map_values(g).push(
                        g(target@),
                    ));
                    assert(prev.push(target@).map_values(g).drop_last() =~= prev.map_values(g));
                }
                if !section.as_str().is_empty() {
                    let ghost before = secs@;
                    secs.push(section);
                    assert(texts_view(secs@) =~= texts_view(before).push(g(target@)));
                }
            }
        }
        m = m + 1;
    }
    assert(tv.subrange(0, tv.len() as int) =~= tv);
    secs
}

/// Appends the files of one namespace to `out`.
fn push_namespace_files(
    out: &mut Vec<(String, String)>,
    ns: &String,
    secs: &Vec<String>,
    limit: usize,
)
    ensures
        files_view(final(out)@) == files_view(old(out)@) + chunks(texts_view(secs@), limit as nat).map(
            |j: int, c: Seq<Seq<char>>| (chunk_file_name(ns@, j), namespace_header(ns@) + concat(c)),
        ),
{
    let ghost f = |j: int, c: Seq<Seq<char>>| (chunk_file_name(ns@, j), namespace_header(ns@) + concat(c));
    let ghost xs = texts_view(secs@);
    let ghost cs = chunks(xs, limit as nat);
    let stem = namespace_stem_of(ns.as_str());
    let n = secs.len();
    let mut start: usize = 0;
    let mut j: usize = 0;
    assert(xs.subrange(0, xs.len() as int) =~= xs);
    loop
        invariant
            xs == texts_view(secs@),
            cs == chunks(xs, limit as nat),
            n == secs@.len(),
            start <= n,
            j <= start,
            j > 0 ==> start < n,
            j < cs.len(),
            cs.subrange(j as int, cs.len() as int) == chunks(
                xs.subrange(start as int, n as int),
                limit as nat,
            ),
            files_view(out@) == files_view(old(out)@) + cs.subrange(0, j as int).map(f),
            stem@ == namespace_stem(ns@),
            f == (|j: int, c: Seq<Seq<char>>| (
                chunk_file_name(ns@, j),
                namespace_header(ns@) + concat(c),
            )),
        decreases n - start,
    {
        let ghost rest = xs.subrange(start as int, n as int);
        let end: usize = if limit == 0 || n - start <= limit {
            n
        } else {
            start + limit
        };
        let mut name = String::new();
        push_str(&mut name, stem.as_str());
        if j > 0 {
            push_char(&mut name, '_');
            push_decimal(&mut name, (j + 1) as u64);
        }
        push_str(&mut name, ".yaml");
        let mut yaml = String::new();
        push_str(&mut yaml, "# Namespace: ");
        push_str(&mut yaml, ns.as_str());
        push_char(&mut yaml, '\n');
        push_char(&mut yaml, '\n');
        let ghost head = yaml@;
        let mut i: usize = start;
        while i < end
            invariant
                xs == texts_view(secs@),
                start <= i <= end <= n,
                n == secs@.len(),
                yaml@ == head + concat(xs.subrange(start as int, i as int)),
            decreases end - i,
        {
            proof {
                lemma_concat_push(xs.subrange(start as int, i as int), xs[i as int]);
                assert(xs.subrange(start as int, i + 1) =~= xs.subrange(start as int, i as int).push(
                    xs[i as int],
                ));
            }
            push_str(&mut yaml, secs[i].as_str());
            i = i + 1;
        }
        let ghost chunk = xs.subrange(start as int, end as int);
        proof {
            assert(cs[j as int] == cs.subrange(j as int, cs.len() as int)[0]);
            if limit == 0 || rest.len() <= limit {
                assert(chunk =~= rest);
                assert(chunks(rest, limit as nat) == seq![rest]);
            } else {
                assert(rest.subrange(0, limit as int) =~= chunk);
                assert(rest.subrange(limit as int, rest.len() as int) =~= xs.subrange(
                    end as int,
                    n as int,
                ));
                assert(chunks(rest, limit as nat)[0] == rest.subrange(0, limit as int));
            }
            assert(cs[j as int] == chunk);
            assert(name@ =~= chunk_file_name(ns@, j as int));
            assert(yaml@ =~= namespace_header(ns@) + concat(chunk));
        }
        let ghost before = out@;
        out.push((name, yaml));
        proof {
            assert(cs.subrange(0, j + 1).map(f) =~= cs.subrange(0, j as int).map(f).push(
                f(j as int, cs[j as int]),
            ));
            assert(files_view(out@) =~= files_view(before).push(f(j as int, cs[j as int])));
        }
        if end == n {
            proof {
                if limit == 0 || rest.len() <= limit {
                    assert(cs.subrange(j as int, cs.len() as int).len() == 1);
                } else {
                    assert(false);
                }
                assert(cs.subrange(0, j + 1) =~= cs);
            }
            return;
        }
        proof {
            assert(cs.subrange(j + 1, cs.len() as int) =~= cs.subrange(j as int, cs.len() as int).drop_first());
            assert(!(limit == 0 || rest.len() <= limit));
            assert(chunks(rest, limit as nat).drop_first() =~= chunks(
                xs.subrange(end as int, n as int),
                limit as nat,
            ));
            assert(chunks(xs.subrange(end as int, n as int), limit as nat).len() >= 1);
        }
        start = end;
        j = j + 1;
    }
}

/// The exported nodes grouped by namespace, in ascending order of the
/// namespace; a namespace's node sections spread over several files of at
/// most `max_nodes_per_file` sections each when a positive limit is set.
pub fn export_by_namespace(targets: &[ParameterTarget], selection: &ExportSelection) -> (res: Vec<
    (String, String),
>)
    ensures
        files_view(res@) == files_of_namespaces(
            targets_view(targets@),
            namespace_keys(targets_view(targets@), selection@),
            selection@,
        ),
{
    let ghost tv = targets_view(targets@);
    let mut keys: Vec<String> = Vec::new();
    let mut i: usize = 0;
    while i < targets.len()
        invariant
            tv == targets_view(targets@),
            i <= targets@.len(),
            texts_view(keys@) == namespace_keys(tv.subrange(0, i as int), selection@),
        decreases targets@.len() - i,
    {
        proof {
            assert(tv.subrange(0, i + 1).drop_last() =~= tv.subrange(0, i as int));
            assert(tv.subrange(0, i + 1).last() == targets@[i as int]@);
        }
        if is_exported(&targets[i], selection) {
            let k = namespace_of(&targets[i]);
            insert_sorted(&mut keys, k);
        }
        i = i + 1;
    }
    assert(tv.subrange(0, tv.len() as int) =~= tv);
    let ghost ks = texts_view(keys@);
    let limit: usize = match selection.max_nodes_per_file {
        Some(k) => k,
        None => 0,
    };
    let mut out: Vec<(String, String)> = Vec::new();
    let mut q: usize = 0;
    while q < keys.len()
        invariant
            tv == targets_view(targets@),
            ks == texts_view(keys@),
            ks == namespace_keys(tv, selection@),
            limit as nat == node_limit(selection@),
            q <= keys@.len(),
            files_view(out@) == files_of_namespaces(tv, ks.subrange(0, q as int), selection@),
        decreases keys@.len() - q,
    {
        let ns = &keys[q];
        let secs = sections_of_namespace(targets, ns, selection);
        push_namespace_files(&mut out, ns, &secs, limit);
        proof {
            assert(ks[q as int] == ns@);
            assert(ks.subrange(0, q + 1).drop_last() =~= ks.subrange(0, q as int));
        }
        q = q + 1;
    }
    assert(ks.subrange(0, ks.len() as int) =~= ks);
    out
}

/// The file of one node: its full name without leading slashes, the other
/// slashes turned into underscores, and `.yaml`.
pub open spec fn node_file_name(full: Seq<char>) -> Seq<char> {
    replace_char(trim_start_char(full, '/'), '/', "_"@) + ".yaml"@
}

/// One (file name, content) per exported node whose section is not empty,
/// in their order.
pub open spec fn node_files(ts: Seq<TargetView>, sel: SelectionView) -> Seq<
    (Seq<char>, Seq<char>),
>
    decreases ts.len(),
{
    if ts.len() == 0 {
        seq![]
    } else {
        let t = ts.last();
        let y = target_yaml(t, sel);
        if exported(t, sel) && y.len() > 0 {
            node_files(ts.drop_last(), sel).push((node_file_name(t.full_node_name), y))
        } else {
            node_files(ts.drop_last(), sel)
        }
    }
}

/// One YAML text per exported node that has selected parameters, each
/// with its file name.
pub fn export_by_node(targets: &[ParameterTarget], selection: &ExportSelection) -> (res: Vec<
    (String, String),
>)
    ensures
        files_view(res@) == node_files(targets_view(targets@), selection@),
{
    let ghost tv = targets_view(targets@);
    let mut out: Vec<(String, String)> = Vec::new();
    let mut i: usize = 0;
    while i < targets.len()
        invariant
            tv == targets_view(targets@),
            i <= targets@.len(),
            files_view(out@) == node_files(tv.subrange(0, i as int), selection@),
        decreases targets@.len() - i,
    {
        let target = &targets[i];
        proof {
            assert(tv.subrange(0, i + 1).drop_last() =~= tv.subrange(0, i as int));
            assert(tv.subrange(0, i + 1).last() == target@);
        }
        if is_exported(target, selection) {
            let trimmed = text_trim_start_char(target.full_node_name.as_str(), '/');
            let mut file_name = String::new();
            push_replaced(&mut file_name, trimmed.as_str(), '/', "_");
            push_str(&mut file_name, ".yaml");
            let yaml = export_target_to_yaml(target, selection);
            if !yaml.as_str().is_empty() {
                let ghost before = out@;
                out.push((file_name, yaml));
                assert(files_view(out@) =~= files_view(before).push(
                    (node_file_name(target@.full_node_name), target_yaml(target@, selection@)),
                ));
            }
        }
        i = i + 1;
    }
    assert(tv.subrange(0, tv.len() as int) =~= tv);
    out
}

// ---------------------------------------------------------------------------
// Laws
// ---------------------------------------------------------------------------

/// The keys are in strictly ascending order (so each occurs once).
pub open spec fn strictly_ascending(ks: Seq<Seq<char>>) -> bool {
    forall|i: int, j: int| 0 <= i < j < ks.len() ==> text_lt(#[trigger] ks[i], #[trigger] ks[j])
}

proof fn lemma_insert_key(ks: Seq<Seq<char>>, k: Seq<char>)
    requires
        strictly_ascending(ks),
    ensures
        strictly_ascending(insert_key(ks, k)),
        forall|x: Seq<char>| #[trigger] insert_key(ks, k).contains(x) <==> (ks.contains(x) || x == k),
    decreases ks.len(),
{
    let r = insert_key(ks, k);
    if ks.len() == 0 {
        assert(r =~= seq![k]);
        assert forall|x: Seq<char>| #[trigger] r.contains(x) <==> (ks.contains(x) || x == k) by {
            if x == k {
                assert(r[0] == x);
            }
        }
    } else if ks[0] == k {
        assert forall|x: Seq<char>| #[trigger] r.contains(x) <==> (ks.contains(x) || x == k) by {
            if x == k {
                assert(ks[0] == x);
            }
        }
    } else if text_lt(k, ks[0]) {
        assert(r =~= seq![k] + ks);
        assert forall|i: int, j: int| 0 <= i < j < r.len() implies text_lt(
            #[trigger] r[i],
            #[trigger] r[j],
        ) by {
            if i == 0 {
                if j > 1 {
                    assert(text_lt(ks[0], ks[j - 1]));
                    lemma_text_lt_transitive(k, ks[0], ks[j - 1]);
                }
            } else {
                assert(text_lt(ks[i - 1], ks[j - 1]));
            }
        }
        assert forall|x: Seq<char>| #[trigger] r.contains(x) <==> (ks.contains(x) || x == k) by {
            if r.contains(x) {
                let i = choose|i: int| 0 <= i < r.len() && r[i] == x;
                if i > 0 {
                    assert(ks[i - 1] == x);
                }
            }
            if ks.contains(x) {
                let i = choose|i: int| 0 <= i < ks.len() && ks[i] == x;
                assert(r[i + 1] == x);
            }
            if x == k {
                assert(r[0] == x);
            }
        }
    } else {
        let tail = ks.drop_first();
        assert(strictly_ascending(tail)) by {
            assert forall|i: int, j: int| 0 <= i < j < tail.len() implies text_lt(
                #[trigger] tail[i],
                #[trigger] tail[j],
            ) by {
                assert(text_lt(ks[i + 1], ks[j + 1]));
            }
        }
        lemma_insert_key(tail, k);
        let rest = insert_key(tail, k);
        assert(r =~= seq![ks[0]] + rest);
        lemma_text_lt_total(k, ks[0]);
        assert forall|x: Seq<char>| rest.contains(x) implies text_lt(ks[0], x) by {
            if x != k {
                assert(tail.contains(x));
                let i = choose|i: int| 0 <= i < tail.len() && tail[i] == x;
                assert(text_lt(ks[0], ks[i + 1]));
            }
        }
        assert forall|i: int, j: int| 0 <= i < j < r.len() implies text_lt(
            #[trigger] r[i],
            #[trigger] r[j],
        ) by {
            if i == 0 {
                assert(rest.contains(rest[j - 1]));
            } else {
                assert(text_lt(rest[i - 1], rest[j - 1]));
            }
        }
        assert forall|x: Seq<char>| #[trigger] r.contains(x) <==> (ks.contains(x) || x == k) by {
            if r.contains(x) {
                let i = choose|i: int| 0 <= i < r.len() && r[i] == x;
                if i > 0 {
                    assert(rest.contains(x));
                    if x != k {
                        let m = choose|m: int| 0 <= m < tail.len() && tail[m] == x;
                        assert(ks[m + 1] == x);
                    }
                } else {
                    assert(ks[0] == x);
                }
            }
            if ks.contains(x) {
                let i = choose|i: int| 0 <= i < ks.len() && ks[i] == x;
                if i == 0 {
                    assert(r[0] == x);
                } else {
                    assert(tail[i - 1] == x);
                    assert(rest.contains(x));
                    let m = choose|m: int| 0 <= m < rest.len() && rest[m] == x;
                    assert(r[m + 1] == x);
                }
            }
            if x == k {
                assert(rest.contains(x));
                let m = choose|m: int| 0 <= m < rest.len() && rest[m] == x;
                assert(r[m + 1] == x);
            }
        }
    }
}

proof fn lemma_ascending_distinct(ks: Seq<Seq<char>>)
    requires
        strictly_ascending(ks),
    ensures
        ks.no_duplicates(),
{
    assert forall|i: int, j: int| 0 <= i < ks.len() && 0 <= j < ks.len() && i != j implies ks[i]
        != ks[j] by {
        lemma_text_lt_irreflexive(ks[i]);
        if i < j {
            assert(text_lt(ks[i], ks[j]));
        } else {
            assert(text_lt(ks[j], ks[i]));
        }
    }
}

/// The namespace files come in strictly ascending order of namespace, so
/// no namespace has two files; and there is a file for a namespace exactly
/// when some available target is filed under it.
pub proof fn law_namespace_files_sorted_and_complete(ts: Seq<TargetView>, sel: SelectionView)
    ensures
        strictly_ascending(namespace_keys(ts, sel)),
        namespace_keys(ts, sel).no_duplicates(),
        forall|ns: Seq<char>| #[trigger]
            namespace_keys(ts, sel).contains(ns) <==> exists|i: int|
                0 <= i < ts.len() && exported(ts[i], sel) && ns_key(
                    #[trigger] ts[i],
                ) == ns,
    decreases ts.len(),
{
    if ts.len() > 0 {
        let init = ts.drop_last();
        law_namespace_files_sorted_and_complete(init, sel);
        if exported(ts.last(), sel) {
            lemma_insert_key(namespace_keys(init, sel), ns_key(ts.last()));
        }
        assert forall|ns: Seq<char>| #[trigger]
            namespace_keys(ts, sel).contains(ns) <==> exists|i: int|
                0 <= i < ts.len() && exported(ts[i], sel) && ns_key(
                    #[trigger] ts[i],
                ) == ns by {
            if namespace_keys(ts, sel).contains(ns) {
                if namespace_keys(init, sel).contains(ns) {
                    let i = choose|i: int|
                        0 <= i < init.len() && exported(init[i], sel)
                            && ns_key(#[trigger] init[i]) == ns;
                    assert(ts[i] == init[i]);
                } else {
                    assert(ts[ts.len() - 1] == ts.last());
                }
            }
            if exists|i: int|
                0 <= i < ts.len() && exported(ts[i], sel) && ns_key(
                    #[trigger] ts[i],
                ) == ns {
                let i = choose|i: int|
                    0 <= i < ts.len() && exported(ts[i], sel) && ns_key(
                        #[trigger] ts[i],
                    ) == ns;
                if i < ts.len() - 1 {
                    assert(init[i] == ts[i]);
                    assert(namespace_keys(init, sel).contains(ns));
                }
            }
        }
    }
    lemma_ascending_distinct(namespace_keys(ts, sel));
}

/// Each available target is filed in the file of its namespace, and a
/// namespace file holds only available targets of the input filed under
/// that namespace.
pub proof fn law_targets_filed_by_namespace(ts: Seq<TargetView>, sel: SelectionView)
    ensures
        forall|i: int|
            0 <= i < ts.len() && exported(ts[i], sel) ==> in_namespace(ts, ns_key(ts[i]), sel).contains(#[trigger] ts[i]),
        forall|ns: Seq<char>, t: TargetView| #[trigger]
            in_namespace(ts, ns, sel).contains(t) ==> ns_key(t) == ns && exported(t, sel)
                && ts.contains(t),
    decreases ts.len(),
{
    if ts.len() > 0 {
        let init = ts.drop_last();
        law_targets_filed_by_namespace(init, sel);
        assert forall|i: int|
            0 <= i < ts.len() && exported(ts[i], sel) implies in_namespace(ts, ns_key(ts[i]), sel).contains(#[trigger] ts[i]) by {
            let r = in_namespace(ts, ns_key(ts[i]), sel);
            if i == ts.len() - 1 {
                assert(r.last() == ts[i]);
                assert(r[r.len() - 1] == ts[i]);
            } else {
                assert(init[i] == ts[i]);
                let ri = in_namespace(init, ns_key(ts[i]), sel);
                assert(ri.contains(ts[i]));
                let m = choose|m: int| 0 <= m < ri.len() && ri[m] == ts[i];
                assert(r[m] == ts[i]);
            }
        }
        assert forall|ns: Seq<char>, t: TargetView| #[trigger]
            in_namespace(ts, ns, sel).contains(t) implies ns_key(t) == ns && exported(t, sel)
                && ts.contains(t) by {
            let r = in_namespace(ts, ns, sel);
            let ri = in_namespace(init, ns, sel);
            let m = choose|m: int| 0 <= m < r.len() && r[m] == t;
            if m < ri.len() {
                assert(ri[m] == t);
                assert(ri.contains(t));
                let k = choose|k: int| 0 <= k < init.len() && init[k] == t;
                assert(ts[k] == t);
            } else {
                assert(ts[ts.len() - 1] == t);
            }
        }
    }
}

/// The runs written one after the other.
pub open spec fn flatten_runs(cs: Seq<Seq<Seq<char>>>) -> Seq<Seq<char>>
    decreases cs.len(),
{
    if cs.len() == 0 {
        seq![]
    } else {
        flatten_runs(cs.drop_last()) + cs.last()
    }
}

proof fn lemma_flatten_front(a: Seq<Seq<char>>, cs: Seq<Seq<Seq<char>>>)
    ensures
        flatten_runs(seq![a] + cs) == a + flatten_runs(cs),
    decreases cs.len(),
{
    if cs.len() == 0 {
        let one = seq![a] + cs;
        assert(one.drop_last() =~= Seq::<Seq<Seq<char>>>::empty());
        assert(one.last() == a);
        assert(flatten_runs(one) == flatten_runs(one.drop_last()) + one.last());
        assert(flatten_runs(one) =~= a);
        assert(flatten_runs(cs) =~= Seq::<Seq<char>>::empty());
    } else {
        lemma_flatten_front(a, cs.drop_last());
        assert((seq![a] + cs).drop_last() =~= seq![a] + cs.drop_last());
        assert(a + flatten_runs(cs) =~= a + flatten_runs(cs.drop_last()) + cs.last());
    }
}

/// Cutting into runs loses, adds and reorders nothing, gives at least one
/// run, and with a positive limit no run is longer than the limit.
pub proof fn law_runs_within_limit(xs: Seq<Seq<char>>, k: nat)
    ensures
        chunks(xs, k).len() >= 1,
        flatten_runs(chunks(xs, k)) == xs,
        k > 0 ==> forall|i: int| 0 <= i < chunks(xs, k).len() ==> (#[trigger] chunks(xs, k)[i]).len() <= k,
    decreases xs.len(),
{
    if k == 0 || xs.len() <= k {
        assert(flatten_runs(seq![xs]) == flatten_runs(seq![xs].drop_last()) + xs);
        assert(seq![xs].drop_last() =~= Seq::<Seq<Seq<char>>>::empty());
        assert(flatten_runs(chunks(xs, k)) =~= xs);
    } else {
        let rest = xs.subrange(k as int, xs.len() as int);
        law_runs_within_limit(rest, k);
        lemma_flatten_front(xs.subrange(0, k as int), chunks(rest, k));
        assert(xs.subrange(0, k as int) + rest =~= xs);
        let cs = chunks(xs, k);
        assert forall|i: int| 0 <= i < cs.len() implies (#[trigger] cs[i]).len() <= k by {
            if i > 0 {
                assert(cs[i] == chunks(rest, k)[i - 1]);
            }
        }
    }
}

/// Each namespace file opens with the namespace comment and holds one run
/// of the namespace's node sections; the runs, in file order, are exactly
/// those sections; and with a positive `max_nodes_per_file` no file holds
/// more sections than that.
pub proof fn law_namespace_files_within_limit(ts: Seq<TargetView>, ns: Seq<char>, sel: SelectionView)
    ensures
        ({
            let cs = chunks(namespace_sections(ts, ns, sel), node_limit(sel));
            &&& namespace_files(ts, ns, sel).len() == cs.len() >= 1
            &&& flatten_runs(cs) == namespace_sections(ts, ns, sel)
            &&& forall|j: int|
                0 <= j < cs.len() ==> (#[trigger] namespace_files(ts, ns, sel)[j]) == (
                    chunk_file_name(ns, j),
                    namespace_header(ns) + concat(cs[j]),
                )
            &&& node_limit(sel) > 0 ==> forall|j: int|
                0 <= j < cs.len() ==> (#[trigger] cs[j]).len() <= node_limit(sel)
        }),
{
    law_runs_within_limit(namespace_sections(ts, ns, sel), node_limit(sel));
}

/// Every exported parameter passes the selection's filters, and every
/// parameter that passes them is exported: with `only_changed` only changed
/// parameters, without `include_internal` no internal ones, without
/// `include_readonly` no read-only ones.
pub proof fn law_export_filters(ps: Seq<EntryView>, sel: SelectionView)
    ensures
        forall|e: EntryView| #[trigger]
            selected_entries(ps, sel).contains(e) <==> (ps.contains(e) && selected(e, sel)),
    decreases ps.len(),
{
    if ps.len() > 0 {
        let init = ps.drop_last();
        law_export_filters(init, sel);
        assert forall|e: EntryView| #[trigger]
            selected_entries(ps, sel).contains(e) <==> (ps.contains(e) && selected(e, sel)) by {
            let r = selected_entries(ps, sel);
            let ri = selected_entries(init, sel);
            if r.contains(e) {
                if ri.contains(e) {
                    let i = choose|i: int| 0 <= i < init.len() && init[i] == e;
                    assert(ps[i] == e);
                } else {
                    assert(selected(ps.last(), sel));
                    assert(r.last() == ps.last());
                    let i = choose|i: int| 0 <= i < r.len() && r[i] == e;
                    if i < ri.len() {
                        assert(r[i] == ri[i]);
                    }
                    assert(ps[ps.len() - 1] == e);
                }
            }
            if ps.contains(e) && selected(e, sel) {
                let i = choose|i: int| 0 <= i < ps.len() && ps[i] == e;
                if i < ps.len() - 1 {
                    assert(init[i] == e);
                    assert(ri.contains(e));
                    let m = choose|m: int| 0 <= m < ri.len() && ri[m] == e;
                    if selected(ps.last(), sel) {
                        assert(r[m] == e);
                    }
                } else {
                    assert(r.last() == e);
                    assert(r[r.len() - 1] == e);
                }
            }
        }
    }
}

proof fn lemma_exported_only(ts: Seq<TargetView>, sel: SelectionView)
    ensures
        namespace_keys(ts, sel) == namespace_keys(exported_targets(ts, sel), sel),
        forall|ns: Seq<char>| #[trigger] in_namespace(ts, ns, sel) == in_namespace(
            exported_targets(ts, sel),
            ns,
            sel,
        ),
    decreases ts.len(),
{
    if ts.len() > 0 {
        let init = ts.drop_last();
        lemma_exported_only(init, sel);
        let et = exported_targets(init, sel);
        if exported(ts.last(), sel) {
            assert(et.push(ts.last()).drop_last() =~= et);
        }
        assert forall|ns: Seq<char>| #[trigger] in_namespace(ts, ns, sel) == in_namespace(
            exported_targets(ts, sel),
            ns,
            sel,
        ) by {
            assert(in_namespace(init, ns, sel) == in_namespace(et, ns, sel));
            if exported(ts.last(), sel) {
                assert(et.push(ts.last()).drop_last() =~= et);
                assert(et.push(ts.last()).last() == ts.last());
            }
        }
    }
}

proof fn lemma_files_same(
    a: Seq<TargetView>,
    b: Seq<TargetView>,
    keys: Seq<Seq<char>>,
    sel: SelectionView,
)
    requires
        forall|ns: Seq<char>| #[trigger] in_namespace(a, ns, sel) == in_namespace(b, ns, sel),
    ensures
        files_of_namespaces(a, keys, sel) == files_of_namespaces(b, keys, sel),
    decreases keys.len(),
{
    if keys.len() > 0 {
        lemma_files_same(a, b, keys.drop_last(), sel);
        assert(in_namespace(a, keys.last(), sel) == in_namespace(b, keys.last(), sel));
        assert(namespace_files(a, keys.last(), sel) == namespace_files(b, keys.last(), sel));
    }
}

/// The namespace export depends only on the targets that take part in it:
/// targets that are not available, or not listed, change nothing.
pub proof fn law_namespace_export_ignores_other_targets(ts: Seq<TargetView>, sel: SelectionView)
    ensures
        ({
            let et = exported_targets(ts, sel);
            files_of_namespaces(ts, namespace_keys(ts, sel), sel) == files_of_namespaces(
                et,
                namespace_keys(et, sel),
                sel,
            )
        }),
{
    lemma_exported_only(ts, sel);
    lemma_files_same(ts, exported_targets(ts, sel), namespace_keys(ts, sel), sel);
}

/// Cutting the indented text at its line feeds gives back the lines of
/// `text`, each after `indent` spaces: no line is lost, added or moved.
pub proof fn law_indented_lines_split(text: Seq<char>, indent: nat)
    ensures
        lines(text).len() == 0 ==> indented_lines(text, indent) == Seq::<char>::empty(),
        lines(text).len() > 0 ==> split_lf(indented_lines(text, indent)) == lines(text).map_values(
            |l: Seq<char>| spaces(indent) + l,
        ),
{
    lemma_lines_no_lf(text);
    let f = |l: Seq<char>| spaces(indent) + l;
    let xs = lines(text).map_values(f);
    if xs.len() > 0 {
        assert forall|i: int| 0 <= i < xs.len() implies !(#[trigger] xs[i]).contains('\n') by {
            let l = lines(text)[i];
            assert(xs[i] == spaces(indent) + l);
            if xs[i].contains('\n') {
                let j = choose|j: int| 0 <= j < xs[i].len() && xs[i][j] == '\n';
                if j >= indent {
                    assert(l[j - indent] == '\n');
                    assert(l.contains('\n'));
                }
            }
        }
        lemma_split_join(xs, '\n');
    }
}

proof fn lemma_trim_spaces(n: nat, x: Seq<char>)
    requires
        x.len() > 0,
        !is_white(x[0]),
    ensures
        trim_start(spaces(n) + x) == x,
    decreases n,
{
    if n > 0 {
        assert((spaces(n) + x).drop_first() =~= spaces((n - 1) as nat) + x);
        lemma_trim_spaces((n - 1) as nat, x);
    } else {
        assert(spaces(n) + x =~= x);
    }
}

/// A parameter whose name does not start with white space is exported as
/// the line `    name: value`, four spaces in, under `  ros__parameters:`.
pub proof fn law_entry_line_layout(e: EntryView)
    requires
        e.name.len() > 0,
        !is_white(e.name[0]),
    ensures
        entry_line(e) == spaces(4) + e.name + seq![':', ' '] + yaml_body(e.current_value, 4)
            + seq!['\n'],
{
    let x = e.name + seq![':', ' '] + yaml_body(e.current_value, 4);
    assert(yaml_line(e.name, e.current_value, 4) =~= spaces(5) + x);
    lemma_trim_spaces(5, x);
}

/// Reading a scalar written on one line: a single-quoted one as its inside
/// with doubled quotes undone, any other as it stands.
pub open spec fn read_line_scalar(t: Seq<char>) -> Seq<char> {
    if t.len() >= 2 && t[0] == '\'' && t.last() == '\'' {
        unquote(t.subrange(1, t.len() - 1))
    } else {
        t
    }
}

/// A string value without a line feed reads back as itself, unless it is
/// written plain while itself starting and ending with a quote. (One with a
/// line feed is written as a block whose lines are the string's lines: see
/// `law_indented_lines_split`.)
pub proof fn law_string_value_reads_back(s: Seq<char>, indent: nat)
    requires
        !s.contains('\n'),
        !(s.len() >= 2 && s[0] == '\'' && s.last() == '\''),
    ensures
        read_line_scalar(yaml_body(ValueView::String(s), indent)) == s,
{
    let t = yaml_body(ValueView::String(s), indent);
    if needs_quoting(s) {
        law_quoted_reads_back(s);
        assert(t.subrange(1, t.len() - 1) =~= replace_char(s, '\'', seq!['\'', '\'']));
    } else if s.len() == 0 {
        assert(t.subrange(1, t.len() - 1) =~= Seq::<char>::empty());
        assert(unquote(Seq::<char>::empty()) =~= s);
    }
}

/// Two strictly ascending lists with the same members are the same list.
proof fn lemma_ascending_unique(a: Seq<Seq<char>>, b: Seq<Seq<char>>)
    requires
        strictly_ascending(a),
        strictly_ascending(b),
        forall|x: Seq<char>| a.contains(x) <==> b.contains(x),
    ensures
        a == b,
    decreases a.len(),
{
    if a.len() == 0 {
        if b.len() > 0 {
            assert(b.contains(b[0]));
        }
        assert(a =~= b);
    } else {
        assert(a.contains(a[0]));
        assert(b.len() > 0);
        assert(b.contains(b[0]));
        if a[0] != b[0] {
            let j = choose|j: int| 0 <= j < b.len() && b[j] == a[0];
            let i = choose|i: int| 0 <= i < a.len() && a[i] == b[0];
            assert(j > 0 && i > 0);
            assert(text_lt(b[0], b[j]));
            assert(text_lt(a[0], a[i]));
            lemma_text_lt_transitive(a[0], b[0], a[0]);
            lemma_text_lt_irreflexive(a[0]);
        }
        let ta = a.drop_first();
        let tb = b.drop_first();
        assert forall|x: Seq<char>| ta.contains(x) <==> tb.contains(x) by {
            if ta.contains(x) {
                let i = choose|i: int| 0 <= i < ta.len() && ta[i] == x;
                assert(a[i + 1] == x);
                assert(text_lt(a[0], a[i + 1]));
                lemma_text_lt_irreflexive(x);
                assert(b.contains(x));
                let j = choose|j: int| 0 <= j < b.len() && b[j] == x;
                assert(j != 0);
                assert(tb[j - 1] == x);
            }
            if tb.contains(x) {
                let j = choose|j: int| 0 <= j < tb.len() && tb[j] == x;
                assert(b[j + 1] == x);
                assert(text_lt(b[0], b[j + 1]));
                lemma_text_lt_irreflexive(x);
                assert(a.contains(x));
                let i = choose|i: int| 0 <= i < a.len() && a[i] == x;
                assert(i != 0);
                assert(ta[i - 1] == x);
            }
        }
        assert(strictly_ascending(ta)) by {
            assert forall|i: int, j: int| 0 <= i < j < ta.len() implies text_lt(
                #[trigger] ta[i],
                #[trigger] ta[j],
            ) by {
                assert(text_lt(a[i + 1], a[j + 1]));
            }
        }
        assert(strictly_ascending(tb)) by {
            assert forall|i: int, j: int| 0 <= i < j < tb.len() implies text_lt(
                #[trigger] tb[i],
                #[trigger] tb[j],
            ) by {
                assert(text_lt(b[i + 1], b[j + 1]));
            }
        }
        lemma_ascending_unique(ta, tb);
        assert(a =~= seq![a[0]] + ta);
        assert(b =~= seq![b[0]] + tb);
    }
}

proof fn lemma_key_iff_group(ts: Seq<TargetView>, sel: SelectionView, k: Seq<char>)
    ensures
        namespace_keys(ts, sel).contains(k) <==> in_namespace(ts, k, sel).len() > 0,
{
    law_namespace_files_sorted_and_complete(ts, sel);
    law_targets_filed_by_namespace(ts, sel);
    if namespace_keys(ts, sel).contains(k) {
        let i = choose|i: int|
            0 <= i < ts.len() && exported(ts[i], sel) && ns_key(#[trigger] ts[i]) == k;
        assert(in_namespace(ts, ns_key(ts[i]), sel).contains(ts[i]));
    }
    if in_namespace(ts, k, sel).len() > 0 {
        let t = in_namespace(ts, k, sel)[0];
        assert(in_namespace(ts, k, sel).contains(t));
        assert(ts.contains(t));
        let i = choose|i: int| 0 <= i < ts.len() && ts[i] == t;
        assert(exported(ts[i], sel) && ns_key(ts[i]) == k);
    }
}

/// The namespace export depends only on what each namespace holds: two
/// lists of targets whose exported targets of every namespace are the
/// same, in the same order, give the same files, however else they differ
/// (targets of different namespaces in another order, targets added or
/// removed that take no part).
pub proof fn law_namespace_export_depends_on_groups(
    a: Seq<TargetView>,
    b: Seq<TargetView>,
    sel: SelectionView,
)
    requires
        forall|ns: Seq<char>| #[trigger] in_namespace(a, ns, sel) == in_namespace(b, ns, sel),
    ensures
        files_of_namespaces(a, namespace_keys(a, sel), sel) == files_of_namespaces(
            b,
            namespace_keys(b, sel),
            sel,
        ),
{
    law_namespace_files_sorted_and_complete(a, sel);
    law_namespace_files_sorted_and_complete(b, sel);
    assert forall|x: Seq<char>|
        namespace_keys(a, sel).contains(x) <==> namespace_keys(b, sel).contains(x) by {
        lemma_key_iff_group(a, sel, x);
        lemma_key_iff_group(b, sel, x);
        assert(in_namespace(a, x, sel) == in_namespace(b, x, sel));
    }
    lemma_ascending_unique(namespace_keys(a, sel), namespace_keys(b, sel));
    lemma_files_same(a, b, namespace_keys(a, sel), sel);
}

/// Reading a flow list `[a, b, ...]` whose items hold no comma: the inside
/// cut at each comma, each piece without its leading white space.
pub open spec fn read_flow_list(t: Seq<char>) -> Seq<Seq<char>> {
    let inner = t.subrange(1, t.len() - 1);
    if inner.len() == 0 {
        seq![]
    } else {
        split_at_char(inner, ',').map_values(|p: Seq<char>| trim_start(p))
    }
}

/// The items as they stand after each comma: a space before every item but
/// the first.
pub open spec fn after_commas(items: Seq<Seq<char>>) -> Seq<Seq<char>> {
    Seq::new(items.len(), |i: int| if i == 0 { items[0] } else { seq![' '] + items[i] })
}

proof fn lemma_join_comma_space(items: Seq<Seq<char>>)
    ensures
        join(items, comma_space()) == join(after_commas(items), seq![',']),
    decreases items.len(),
{
    if items.len() > 1 {
        let init = items.drop_last();
        lemma_join_comma_space(init);
        assert(after_commas(items).drop_last() =~= after_commas(init));
        assert(after_commas(items).last() == seq![' '] + items.last());
        assert(join(items, comma_space()) =~= join(after_commas(items), seq![',']));
    } else if items.len() == 1 {
        assert(after_commas(items)[0] == items[0]);
    }
}

/// A flow list of items that hold no comma and do not start with white
/// space reads back as those items.
pub proof fn law_flow_list_reads_back(items: Seq<Seq<char>>)
    requires
        forall|i: int| 0 <= i < items.len() ==> !(#[trigger] items[i]).contains(','),
        forall|i: int| 0 <= i < items.len() ==> (#[trigger] items[i]).len() > 0 && !is_white(items[i][0]),
    ensures
        read_flow_list(bracketed(items)) == items,
{
    let t = bracketed(items);
    let inner = join(items, comma_space());
    assert(t.subrange(1, t.len() - 1) =~= inner);
    if items.len() == 0 {
    } else {
        lemma_join_comma_space(items);
        let ys = after_commas(items);
        assert forall|i: int| 0 <= i < ys.len() implies !(#[trigger] ys[i]).contains(',') by {
            if i > 0 && ys[i].contains(',') {
                let j = choose|j: int| 0 <= j < ys[i].len() && ys[i][j] == ',';
                assert(items[i][j - 1] == ',');
                assert(items[i].contains(','));
            }
        }
        lemma_split_join(ys, ',');
        lemma_join_nonempty(items);
        assert forall|i: int| 0 <= i < items.len() implies trim_start(ys[i]) == items[i] by {
            if i == 0 {
                lemma_trim_spaces(0, items[0]);
                assert(spaces(0) + items[0] =~= items[0]);
            } else {
                lemma_trim_spaces(1, items[i]);
                assert(spaces(1) =~= seq![' ']);
            }
        }
        assert(split_at_char(inner, ',').map_values(|p: Seq<char>| trim_start(p)) =~= items);
    }
}

proof fn lemma_join_nonempty(items: Seq<Seq<char>>)
    requires
        items.len() > 0,
        items[0].len() > 0,
    ensures
        join(items, comma_space()).len() > 0,
    decreases items.len(),
{
    if items.len() > 1 {
        lemma_join_nonempty(items.drop_last());
    }
}

/// An exported integer list reads back as the same numbers, in order.
pub proof fn law_integer_list_reads_back(a: Seq<i64>)
    ensures
        read_flow_list(yaml_body(ValueView::IntegerArray(a), 0)).map_values(
            |t: Seq<char>| numeral_value(t),
        ) == a.map_values(|x: i64| x as int),
{
    let items = a.map_values(|x: i64| signed_decimal(x as int));
    assert forall|i: int| 0 <= i < items.len() implies !(#[trigger] items[i]).contains(',') && items[i].len() > 0
        && !is_white(items[i][0]) by {
        lemma_numeral_shape(a[i]);
    }
    law_flow_list_reads_back(items);
    assert forall|i: int| 0 <= i < a.len() implies numeral_value(items[i]) == a[i] as int by {
        law_integer_reads_back(a[i]);
    }
    assert(items.map_values(|t: Seq<char>| numeral_value(t)) =~= a.map_values(|x: i64| x as int));
}

/// An exported boolean list reads back as the same words, in order.
pub proof fn law_bool_list_reads_back(a: Seq<bool>)
    ensures
        read_flow_list(yaml_body(ValueView::BoolArray(a), 0)) == a.map_values(|b: bool| bool_text(b)),
{
    let items = a.map_values(|b: bool| bool_text(b));
    assert forall|i: int| 0 <= i < items.len() implies !(#[trigger] items[i]).contains(',') && items[i].len() > 0
        && !is_white(items[i][0]) by {
        if items[i].contains(',') {
            let j = choose|j: int| 0 <= j < items[i].len() && items[i][j] == ',';
        }
    }
    law_flow_list_reads_back(items);
}

proof fn lemma_numeral_shape(v: i64)
    ensures
        signed_decimal(v as int).len() > 0,
        !signed_decimal(v as int).contains(','),
        !is_white(signed_decimal(v as int)[0]),
{
    let n: nat = if v < 0 { (-v) as nat } else { v as nat };
    lemma_decimal_digits(n);
    let t = signed_decimal(v as int);
    if v < 0 {
        assert(t[0] == '-');
        assert forall|j: int| 0 <= j < t.len() implies t[j] != ',' by {
            if j > 0 {
                assert(t[j] == decimal(n)[j - 1]);
            }
        }
    } else {
        assert forall|j: int| 0 <= j < t.len() implies t[j] != ',' by {
            assert(t[j] == decimal(n)[j]);
        }
    }
}

proof fn lemma_decimal_digits(n: nat)
    ensures
        decimal(n).len() > 0,
        forall|j: int| 0 <= j < decimal(n).len() ==> '0' <= #[trigger] decimal(n)[j] <= '9',
    decreases n,
{
    if n >= 10 {
        lemma_decimal_digits(n / 10);
    }
}

/// `weaker` lets through every entry that `stronger` lets through: it asks
/// for changed entries only if `stronger` does, and includes internal and
/// read-only entries if `stronger` does.
pub open spec fn selection_weaker(weaker: SelectionView, stronger: SelectionView) -> bool {
    &&& weaker.only_changed ==> stronger.only_changed
    &&& stronger.include_internal ==> weaker.include_internal
    &&& stronger.include_readonly ==> weaker.include_readonly
}

/// Loosening the filters only adds entries: what a stricter selection
/// exports is what it keeps of the looser selection's export, in the same
/// order; and a selection that filters nothing exports every entry.
pub proof fn law_filters_monotone(ps: Seq<EntryView>, strict: SelectionView, loose: SelectionView)
    requires
        selection_weaker(loose, strict),
    ensures
        selected_entries(ps, strict) == selected_entries(selected_entries(ps, loose), strict),
        !loose.only_changed && loose.include_internal && loose.include_readonly
            ==> selected_entries(ps, loose) == ps,
    decreases ps.len(),
{
    if ps.len() > 0 {
        law_filters_monotone(ps.drop_last(), strict, loose);
        let inner = selected_entries(ps.drop_last(), loose);
        if selected(ps.last(), loose) {
            assert(inner.push(ps.last()).drop_last() =~= inner);
        }
        if !loose.only_changed && loose.include_internal && loose.include_readonly {
            assert(ps.drop_last().push(ps.last()) =~= ps);
        }
    }
}

/// The number a string of decimal digits stands for.
pub open spec fn digits_value(s: Seq<char>) -> int
    decreases s.len(),
{
    if s.len() == 0 {
        0
    } else {
        digits_value(s.drop_last()) * 10 + (s.last() as int - '0' as int)
    }
}

/// The number a signed decimal numeral stands for.
pub open spec fn numeral_value(s: Seq<char>) -> int {
    if s.len() > 0 && s[0] == '-' {
        -digits_value(s.drop_first())
    } else {
        digits_value(s)
    }
}

proof fn lemma_decimal_reads_back(n: nat)
    ensures
        digits_value(decimal(n)) == n,
        decimal(n).len() > 0,
        decimal(n)[0] != '-',
    decreases n,
{
    let d = n % 10;
    assert(digit_char(d) as int - '0' as int == d);
    if n >= 10 {
        lemma_decimal_reads_back(n / 10);
        let s = decimal(n);
        assert(s == decimal(n / 10).push(digit_char(d)));
        assert(s.drop_last() =~= decimal(n / 10));
        assert(s.last() == digit_char(d));
        assert(digits_value(s) == digits_value(s.drop_last()) * 10 + (s.last() as int - '0' as int));
        assert(n == (n / 10) * 10 + d);
    } else {
        let s = decimal(n);
        assert(s.drop_last() =~= Seq::<char>::empty());
        assert(digits_value(s) == digits_value(s.drop_last()) * 10 + (s.last() as int - '0' as int));
    }
}

/// An exported integer reads back as the same number.
pub proof fn law_integer_reads_back(v: i64)
    ensures
        numeral_value(signed_decimal(v as int)) == v,
{
    if v < 0 {
        lemma_decimal_reads_back((-v) as nat);
        assert((seq!['-'] + decimal((-v) as nat)).drop_first() =~= decimal((-v) as nat));
    } else {
        lemma_decimal_reads_back(v as nat);
    }
}

// ---------------------------------------------------------------------------
// Which nodes and parameters take part
// ---------------------------------------------------------------------------

/// A node that is not available takes no part in the single-file export:
/// the targets exported, and so the text, are those of the list without it.
pub proof fn law_export_all_skips_unavailable(ts: Seq<TargetView>, i: int, sel: SelectionView)
    requires
        0 <= i < ts.len(),
        ts[i].state != ParameterTargetState::Available,
    ensures
        exported_targets(ts, sel) == exported_targets(ts.remove(i), sel),
        export_header() + sections(exported_targets(ts, sel), sel) == export_header() + sections(
            exported_targets(ts.remove(i), sel),
            sel,
        ),
    decreases ts.len(),
{
    if i == ts.len() - 1 {
        assert(ts.remove(i) =~= ts.drop_last());
    } else {
        law_export_all_skips_unavailable(ts.drop_last(), i, sel);
        assert(ts.remove(i).drop_last() =~= ts.drop_last().remove(i));
        assert(ts.remove(i).last() == ts.last());
    }
}

/// Every node of the single-file export is an available node of the list,
/// and without a node list every available node is exported.
pub proof fn law_export_all_takes_available(ts: Seq<TargetView>, sel: SelectionView)
    ensures
        forall|k: int|
            0 <= k < exported_targets(ts, sel).len() ==> (#[trigger] exported_targets(ts, sel)[k]).state
                == ParameterTargetState::Available && ts.contains(exported_targets(ts, sel)[k]),
        sel.nodes is None ==> forall|j: int|
            0 <= j < ts.len() && (#[trigger] ts[j]).state == ParameterTargetState::Available
                ==> exported_targets(ts, sel).contains(ts[j]),
    decreases ts.len(),
{
    if ts.len() > 0 {
        let init = ts.drop_last();
        law_export_all_takes_available(init, sel);
        let r = exported_targets(ts, sel);
        let ri = exported_targets(init, sel);
        assert forall|k: int| 0 <= k < r.len() implies (#[trigger] r[k]).state
            == ParameterTargetState::Available && ts.contains(r[k]) by {
            if k < ri.len() {
                assert(r[k] == ri[k]);
                let j = choose|j: int| 0 <= j < init.len() && init[j] == ri[k];
                assert(ts[j] == r[k]);
            } else {
                assert(r[k] == ts.last());
                assert(ts[ts.len() - 1] == r[k]);
            }
        }
        if sel.nodes is None {
            assert forall|j: int|
                0 <= j < ts.len() && (#[trigger] ts[j]).state == ParameterTargetState::Available
                implies r.contains(ts[j]) by {
                if j < ts.len() - 1 {
                    assert(init[j] == ts[j]);
                    assert(ri.contains(ts[j]));
                    let k = choose|k: int| 0 <= k < ri.len() && ri[k] == ts[j];
                    assert(r[k] == ts[j]);
                } else {
                    assert(r.last() == ts[j]);
                    assert(r[r.len() - 1] == ts[j]);
                }
            }
        }
    }
}

/// A node that is not available gets no file of its own: the files are
/// those of the list without it.
pub proof fn law_node_files_skip_unavailable(ts: Seq<TargetView>, i: int, sel: SelectionView)
    requires
        0 <= i < ts.len(),
        ts[i].state != ParameterTargetState::Available,
    ensures
        node_files(ts, sel) == node_files(ts.remove(i), sel),
    decreases ts.len(),
{
    if i == ts.len() - 1 {
        assert(ts.remove(i) =~= ts.drop_last());
    } else {
        law_node_files_skip_unavailable(ts.drop_last(), i, sel);
        assert(ts.remove(i).drop_last() =~= ts.drop_last().remove(i));
        assert(ts.remove(i).last() == ts.last());
    }
}

/// Every file of the per-node export is that of an available node of the
/// list (its name made from the node's full name, its text the node's
/// section), and without a node list every available node with a
/// non-empty section has its file.
pub proof fn law_node_files_from_available(ts: Seq<TargetView>, sel: SelectionView)
    ensures
        forall|k: int|
            0 <= k < node_files(ts, sel).len() ==> exists|j: int|
                0 <= j < ts.len() && ts[j].state == ParameterTargetState::Available
                    && #[trigger] node_files(ts, sel)[k] == (
                    node_file_name(ts[j].full_node_name),
                    target_yaml(ts[j], sel),
                ),
        sel.nodes is None ==> forall|j: int|
            0 <= j < ts.len() && (#[trigger] ts[j]).state == ParameterTargetState::Available
                && target_yaml(ts[j], sel).len() > 0 ==> node_files(ts, sel).contains(
                (node_file_name(ts[j].full_node_name), target_yaml(ts[j], sel)),
            ),
    decreases ts.len(),
{
    if ts.len() > 0 {
        let init = ts.drop_last();
        law_node_files_from_available(init, sel);
        let r = node_files(ts, sel);
        let ri = node_files(init, sel);
        assert forall|k: int| 0 <= k < r.len() implies exists|j: int|
            0 <= j < ts.len() && ts[j].state == ParameterTargetState::Available && #[trigger] r[k]
                == (node_file_name(ts[j].full_node_name), target_yaml(ts[j], sel)) by {
            if k < ri.len() {
                assert(r[k] == ri[k]);
                let j = choose|j: int|
                    0 <= j < init.len() && init[j].state == ParameterTargetState::Available
                        && ri[k] == (node_file_name(init[j].full_node_name), target_yaml(init[j], sel));
                assert(ts[j] == init[j]);
            } else {
                let j = ts.len() - 1;
                assert(ts[j] == ts.last());
            }
        }
        if sel.nodes is None {
            assert forall|j: int|
                0 <= j < ts.len() && (#[trigger] ts[j]).state == ParameterTargetState::Available
                    && target_yaml(ts[j], sel).len() > 0 implies r.contains(
                (node_file_name(ts[j].full_node_name), target_yaml(ts[j], sel)),
            ) by {
                let f = (node_file_name(ts[j].full_node_name), target_yaml(ts[j], sel));
                if j < ts.len() - 1 {
                    assert(init[j] == ts[j]);
                    assert(ri.contains(f));
                    let k = choose|k: int| 0 <= k < ri.len() && ri[k] == f;
                    assert(r[k] == f);
                } else {
                    assert(r[r.len() - 1] == f);
                }
            }
        }
    }
}

/// The filters in words: without `include_readonly` no read-only
/// parameter is kept, without `include_internal` no internal one
/// (`use_sim_time`, `start_type_description_service`, `qos_overrides.*`),
/// with `only_changed` only changed ones; every parameter that breaks none
/// of these is kept; and the kept ones come from the list.
pub proof fn law_filter_rules(ps: Seq<EntryView>, sel: SelectionView)
    ensures
        forall|e: EntryView| #[trigger] selected_entries(ps, sel).contains(e) ==> {
            &&& ps.contains(e)
            &&& (!sel.include_readonly ==> !e.read_only)
            &&& (sel.only_changed ==> e.changed)
            &&& (!sel.include_internal ==> e.name != "use_sim_time"@ && e.name
                != "start_type_description_service"@ && !starts_with(e.name, "qos_overrides."@))
        },
        forall|e: EntryView|
            #![trigger ps.contains(e)]
            ps.contains(e) && (sel.include_readonly || !e.read_only) && (!sel.only_changed
                || e.changed) && (sel.include_internal || (e.name != "use_sim_time"@ && e.name
                != "start_type_description_service"@ && !starts_with(e.name, "qos_overrides."@)))
                ==> selected_entries(ps, sel).contains(e),
{
    law_export_filters(ps, sel);
}

/// The words of the simple values: `null`, the boolean's own word, an
/// integer that reads back as itself, `.inf`, `-.inf` and `.nan` for the
/// special numbers, and a boolean list whose items are the booleans' words.
pub proof fn law_scalar_words(b: bool, v: i64, f: FloatView, a: Seq<bool>, indent: nat)
    ensures
        yaml_body(ValueView::NotSet, indent) == seq!['n', 'u', 'l', 'l'],
        yaml_body(ValueView::Bool(b), indent) == if b {
            seq!['t', 'r', 'u', 'e']
        } else {
            seq!['f', 'a', 'l', 's', 'e']
        },
        numeral_value(yaml_body(ValueView::Integer(v), indent)) == v,
        is_inf_bits(f.bits) && !is_negative_bits(f.bits) ==> yaml_body(ValueView::Double(f), indent)
            == seq!['.', 'i', 'n', 'f'],
        is_inf_bits(f.bits) && is_negative_bits(f.bits) ==> yaml_body(ValueView::Double(f), indent)
            == seq!['-', '.', 'i', 'n', 'f'],
        is_nan_bits(f.bits) && !is_inf_bits(f.bits) ==> yaml_body(ValueView::Double(f), indent)
            == seq!['.', 'n', 'a', 'n'],
        !is_nan_bits(f.bits) && !is_inf_bits(f.bits) ==> yaml_body(ValueView::Double(f), indent)
            == f.text,
        read_flow_list(yaml_body(ValueView::BoolArray(a), indent)) == a.map_values(
            |x: bool| if x {
                seq!['t', 'r', 'u', 'e']
            } else {
                seq!['f', 'a', 'l', 's', 'e']
            },
        ),
{
    reveal_strlit("null");
    reveal_strlit(".inf");
    reveal_strlit("-.inf");
    reveal_strlit(".nan");
    law_integer_reads_back(v);
    law_bool_list_reads_back(a);
    assert(yaml_body(ValueView::BoolArray(a), indent) == yaml_body(ValueView::BoolArray(a), 0));
    assert(a.map_values(|x: bool| bool_text(x)) =~= a.map_values(
        |x: bool| if x {
            seq!['t', 'r', 'u', 'e']
        } else {
            seq!['f', 'a', 'l', 's', 'e']
        },
    ));
}

proof fn lemma_in_namespace_remove(ts: Seq<TargetView>, i: int, ns: Seq<char>, sel: SelectionView)
    requires
        0 <= i < ts.len(),
        ts[i].state != ParameterTargetState::Available,
    ensures
        in_namespace(ts, ns, sel) == in_namespace(ts.remove(i), ns, sel),
    decreases ts.len(),
{
    if i == ts.len() - 1 {
        assert(ts.remove(i) =~= ts.drop_last());
    } else {
        lemma_in_namespace_remove(ts.drop_last(), i, ns, sel);
        assert(ts.remove(i).drop_last() =~= ts.drop_last().remove(i));
        assert(ts.remove(i).last() == ts.last());
    }
}

/// A node that is not available takes no part in the namespace export:
/// the files are those of the list without it.
pub proof fn law_namespace_export_skips_unavailable(ts: Seq<TargetView>, i: int, sel: SelectionView)
    requires
        0 <= i < ts.len(),
        ts[i].state != ParameterTargetState::Available,
    ensures
        files_of_namespaces(ts, namespace_keys(ts, sel), sel) == files_of_namespaces(
            ts.remove(i),
            namespace_keys(ts.remove(i), sel),
            sel,
        ),
{
    assert forall|ns: Seq<char>| #[trigger] in_namespace(ts, ns, sel) == in_namespace(
        ts.remove(i),
        ns,
        sel,
    ) by {
        lemma_in_namespace_remove(ts, i, ns, sel);
    }
    law_namespace_export_depends_on_groups(ts, ts.remove(i), sel);
}

/// Every node filed under a namespace is an available node of the list
/// whose namespace (`/` for an empty one) is that namespace.
pub proof fn law_namespace_groups_hold_available(ts: Seq<TargetView>, ns: Seq<char>, sel: SelectionView)
    ensures
        forall|k: int|
            0 <= k < in_namespace(ts, ns, sel).len() ==> (#[trigger] in_namespace(ts, ns, sel)[k]).state
                == ParameterTargetState::Available && ts.contains(in_namespace(ts, ns, sel)[k])
                && ns == (if in_namespace(ts, ns, sel)[k].namespace.len() == 0 {
                seq!['/']
            } else {
                in_namespace(ts, ns, sel)[k].namespace
            }),
    decreases ts.len(),
{
    reveal_strlit("/");
    if ts.len() > 0 {
        let init = ts.drop_last();
        law_namespace_groups_hold_available(init, ns, sel);
        let r = in_namespace(ts, ns, sel);
        let ri = in_namespace(init, ns, sel);
        assert forall|k: int| 0 <= k < r.len() implies (#[trigger] r[k]).state
            == ParameterTargetState::Available && ts.contains(r[k]) && ns == (if r[k].namespace.len()
            == 0 {
            seq!['/']
        } else {
            r[k].namespace
        }) by {
            if k < ri.len() {
                assert(r[k] == ri[k]);
                let j = choose|j: int| 0 <= j < init.len() && init[j] == ri[k];
                assert(ts[j] == r[k]);
            } else {
                assert(r[k] == ts.last());
                assert(ts[ts.len() - 1] == r[k]);
            }
        }
    }
}

} // verus!
