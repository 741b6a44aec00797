//! The decisions of the agent client that talks JSON-RPC to the ROS 2
//! sidecar: what a reply means, and which nodes an export inspects.
//!
//! Sending requests and reading replies is left to the caller; these
//! functions take what was read and say what follows.
use vstd::prelude::*;

use crate::model::{texts_view, ParameterTargetState, ParameterTargetSummary, SummaryView};
use crate::mock::summaries_view;
use crate::text::{push_signed_decimal, push_str, signed_decimal};

verus! {

/// The `error` member of a JSON-RPC reply.
#[derive(Clone, Debug)]
pub struct RpcError {
    pub code: i64,
    pub message: String,
}

/// The failure a reply stands for: the agent's error when the reply holds
/// one, a missing result otherwise when there is no result, and none when
/// the result is there.
pub open spec fn reply_failure_text(
    error: Option<(i64, Seq<char>)>,
    has_result: bool,
) -> Option<Seq<char>> {
    match error {
        Some((code, message)) => Some(
            "Agent error: "@ + message + " (code "@ + signed_decimal(code as int) + ")"@,
        ),
        None => if has_result {
            None
        } else {
            Some("Agent response missing result field"@)
        },
    }
}

/// The view of a reply's error member: its code and message.
pub open spec fn error_view(error: Option<RpcError>) -> Option<(i64, Seq<char>)> {
    match error {
        Some(e) => Some((e.code, e.message@)),
        None => None,
    }
}

/// The view of an optional text.
pub open spec fn text_option(t: Option<String>) -> Option<Seq<char>> {
    match t {
        Some(s) => Some(s@),
        None => None,
    }
}

/// The failure a reply stands for, as its message, or `None` when the
/// reply carries a result to use.
pub fn reply_failure(error: &Option<RpcError>, has_result: bool) -> (res: Option<String>)
    ensures
        text_option(res) == reply_failure_text(error_view(*error), has_result),
{
    match error {
        Some(e) => {
            let mut text = String::new();
            push_str(&mut text, "Agent error: ");
            push_str(&mut text, e.message.as_str());
            push_str(&mut text, " (code ");
            push_signed_decimal(&mut text, e.code);
            push_str(&mut text, ")");
            Some(text)
        },
        None => if has_result {
            None
        } else {
            Some(String::from_str("Agent response missing result field"))
        },
    }
}

/// The full names of the available nodes, in their order.
pub open spec fn available_names(ss: Seq<SummaryView>) -> Seq<Seq<char>>
    decreases ss.len(),
{
    if ss.len() == 0 {
        seq![]
    } else if ss.last().state == ParameterTargetState::Available {
        available_names(ss.drop_last()).push(ss.last().full_node_name)
    } else {
        available_names(ss.drop_last())
    }
}

/// The nodes an export inspects: the available ones among those
/// discovered, in their order.
pub fn nodes_to_inspect(summaries: &Vec<ParameterTargetSummary>) -> (res: Vec<String>)
    ensures
        texts_view(res@) == available_names(summaries_view(summaries@)),
{
    let ghost sv = summaries_view(summaries@);
    let mut out: Vec<String> = Vec::new();
    let mut i: usize = 0;
    while i < summaries.len()
        invariant
            sv == summaries_view(summaries@),
            i <= summaries@.len(),
            texts_view(out@) == available_names(sv.subrange(0, i as int)),
        decreases summaries@.len() - i,
    {
        proof {
            assert(sv.subrange(0, i + 1).drop_last() =~= sv.subrange(0, i as int));
            assert(sv.subrange(0, i + 1).last() == summaries@[i as int]@);
        }
        if summaries[i].state == ParameterTargetState::Available {
            let ghost before = out@;
            out.push(summaries[i].full_node_name.clone());
            assert(texts_view(out@) =~= texts_view(before).push(summaries@[i as int]@.full_node_name));
        }
        i = i + 1;
    }
    assert(sv.subrange(0, sv.len() as int) =~= sv);
    out
}

} // verus!
