//! Execution core of a debugger for contracts compiled to a sandboxed,
//! stack-based bytecode: argument normalisation and parsing, breakpoint
//! evaluation, storage diffing, mock dispatch, and upgrade-compatibility
//! analysis.

use vstd::prelude::*;

pub mod breakpoint;
pub mod contractspec;
pub mod decimal;
pub mod hostval;
pub mod json;
pub mod kv;
pub mod parser;
pub mod protocol;
pub mod runtime;
pub mod strutil;
pub mod upgrade;
pub mod wasm;

verus! {

/// Typed errors surfaced by the debugger core.
#[derive(Debug, PartialEq, Eq)]
pub enum DebuggerError {
    /// Malformed header or truncated section in the contract binary.
    InvalidBinary,
    /// The named function is not exported by the contract.
    InvalidFunction(String),
    /// Malformed JSON, type mismatch, arity mismatch, bad address or hex.
    InvalidArguments(String),
    /// Host-side failure, conversion failure, or storage capture failure.
    ExecutionError(String),
    /// The guest called an unmocked function on a mocked contract.
    MockNotFound(String, String),
    /// A breakpoint condition string held no recognised operator.
    InvalidCondition(String),
}

} // verus!
