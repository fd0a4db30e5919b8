//! How the two receive loops (packets and flow events) answer a failed
//! receive, from the error's text and whether the limiter is running.

use vstd::prelude::*;
use crate::text::{contains, seq_contains_seq};

verus! {

/// What a receive loop does after a failed receive.
#[derive(Clone, Copy, Debug, PartialEq, Eq, Structural)]
pub enum RecvErrorAction {
    /// Skip the failure and receive the next packet.
    Retry,
    /// Leave the loop quietly: the limiter is stopping.
    Stop,
    /// Leave the loop and report the error.
    Fail,
}

/// The packet loop's answer to a failed receive, given the error's text and
/// whether the limiter is still running: a packet too large for the buffer
/// (error 87) is skipped, else the loop stops quietly when asked to stop and
/// fails otherwise.
pub fn packet_recv_error_action(error_text: &str, running: bool) -> (r: RecvErrorAction)
    ensures
        r == (if seq_contains_seq(error_text@, "87"@) {
            RecvErrorAction::Retry
        } else if !running {
            RecvErrorAction::Stop
        } else {
            RecvErrorAction::Fail
        }),
{
    if contains(error_text, "87") {
        RecvErrorAction::Retry
    } else if !running {
        RecvErrorAction::Stop
    } else {
        RecvErrorAction::Fail
    }
}

/// The flow loop's answer to a failed receive: it stops quietly once the
/// limiter is stopping, else skips buffer errors (87) and timeouts, and
/// fails on anything else.
pub fn flow_recv_error_action(error_text: &str, running: bool) -> (r: RecvErrorAction)
    ensures
        r == (if !running {
            RecvErrorAction::Stop
        } else if seq_contains_seq(error_text@, "87"@) || seq_contains_seq(
            error_text@,
            "timeout"@,
        ) {
            RecvErrorAction::Retry
        } else {
            RecvErrorAction::Fail
        }),
{
    if !running {
        RecvErrorAction::Stop
    } else if contains(error_text, "87") || contains(error_text, "timeout") {
        RecvErrorAction::Retry
    } else {
        RecvErrorAction::Fail
    }
}

} // verus!
