//! The debug-session protocol envelopes: the requests a front end sends and
//! the responses the session returns.

use vstd::prelude::*;

verus! {

/// A snapshot of the paused session a front end renders.
#[derive(Debug, PartialEq, Eq)]
pub struct DebugState {
    pub current_function: Option<String>,
    pub paused: bool,
    pub breakpoints: Vec<String>,
}

/// A request over the debug protocol.
#[derive(Debug, PartialEq, Eq)]
pub enum DebugRequest {
    Handshake { token: String },
    Step,
    Continue,
    AddBreakpoint { function: String },
    RemoveBreakpoint { function: String },
    GetState,
    Execute { function: String, args: Option<String> },
}

/// A response over the debug protocol.
#[derive(Debug, PartialEq, Eq)]
pub enum DebugResponse {
    Done,
    Error(String),
    State(DebugState),
    ExecutionResult { result: String },
    AuthSuccess,
    AuthFailed,
}

} // verus!
