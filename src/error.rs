use vstd::prelude::*;

verus! {

/// Every failure of the scripting pipeline, each attributable to what caused it.
#[derive(Debug, PartialEq, Eq)]
pub enum ScriptError {
    /// An event or a call named a script that is not attached.
    ScriptNotFound { script: u64 },
    /// The script's source did not compile or parse.
    CompileError { name: String, msg: String },
    /// The script failed while running a hook.
    RuntimeError { name: String, msg: String },
    /// An API provider failed to extend the API surface; fatal at startup.
    AttachFailure { msg: String },
    /// A per-context setup or teardown hook of a provider failed.
    SetupFailure { script: u64, msg: String },
    /// The script's source could not be loaded.
    LoadError { name: String, msg: String },
    /// A context was asked to run while it was not ready (busy, failed or torn down).
    NotReady { script: u64 },
    /// An event was sent at a priority that no handler stage claims.
    UnclaimedPriority { priority: u32 },
}

/// A script failure, surfaced as an event rather than thrown up the call stack.
#[derive(Debug, PartialEq, Eq)]
pub struct ScriptErrorEvent {
    pub err: ScriptError,
}

/// Whether an error is fatal to startup rather than isolated to one script.
pub open spec fn is_fatal(e: ScriptError) -> bool {
    e is AttachFailure
}

impl ScriptError {
    pub fn is_fatal(&self) -> (r: bool)
        ensures
            r == is_fatal(*self),
    {
        match self {
            ScriptError::AttachFailure { .. } => true,
            _ => false,
        }
    }
}

} // verus!
