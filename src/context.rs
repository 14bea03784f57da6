use vstd::prelude::*;

verus! {

/// The life of one script's execution context.
#[derive(PartialEq, Eq, Structural, Clone, Copy, Debug)]
pub enum ContextState {
    Uninitialized,
    Ready,
    Executing,
    TornDown,
    Failed,
}

/// What happens to a context.
#[derive(PartialEq, Eq, Structural, Clone, Copy, Debug)]
pub enum ContextEvent {
    SetupSucceeded,
    SetupFailed,
    BeginCall,
    EndCall,
    Detach,
}

/// The state a context moves to, or `None` where the event is not allowed in `s`.
pub open spec fn next_state(s: ContextState, e: ContextEvent) -> Option<ContextState> {
    match (s, e) {
        (ContextState::Uninitialized, ContextEvent::SetupSucceeded) => Some(ContextState::Ready),
        (ContextState::Uninitialized, ContextEvent::SetupFailed) => Some(ContextState::Failed),
        (ContextState::Ready, ContextEvent::BeginCall) => Some(ContextState::Executing),
        (ContextState::Executing, ContextEvent::EndCall) => Some(ContextState::Ready),
        (ContextState::TornDown, _) => None,
        (ContextState::Executing, ContextEvent::Detach) => None,
        (_, ContextEvent::Detach) => Some(ContextState::TornDown),
        _ => None,
    }
}

/// The context state reached from `s` through `events`, or `None` if one is refused.
pub open spec fn run_states(s: ContextState, events: Seq<ContextEvent>) -> Option<ContextState>
    decreases events.len(),
{
    if events.len() == 0 {
        Some(s)
    } else {
        match run_states(s, events.drop_last()) {
            Some(t) => next_state(t, events.last()),
            None => None,
        }
    }
}

/// Number of calls begun and not yet ended along `events` from a context in `s`.
pub open spec fn open_calls(s: ContextState, events: Seq<ContextEvent>) -> int
    decreases events.len(),
{
    if events.len() == 0 {
        if s == ContextState::Executing { 1 } else { 0 }
    } else {
        let k = open_calls(s, events.drop_last());
        match events.last() {
            ContextEvent::BeginCall => k + 1,
            ContextEvent::EndCall => k - 1,
            _ => k,
        }
    }
}

impl ContextState {
    /// Moves the context along `e`; `None` where the event is not allowed.
    pub fn step(self, e: ContextEvent) -> (r: Option<ContextState>)
        ensures
            r == next_state(self, e),
    {
        match (self, e) {
            (ContextState::Uninitialized, ContextEvent::SetupSucceeded) => Some(ContextState::Ready),
            (ContextState::Uninitialized, ContextEvent::SetupFailed) => Some(ContextState::Failed),
            (ContextState::Ready, ContextEvent::BeginCall) => Some(ContextState::Executing),
            (ContextState::Executing, ContextEvent::EndCall) => Some(ContextState::Ready),
            (ContextState::TornDown, _) => None,
            (ContextState::Executing, ContextEvent::Detach) => None,
            (_, ContextEvent::Detach) => Some(ContextState::TornDown),
            _ => None,
        }
    }

    /// Whether a hook may be invoked in this context now.
    pub fn is_ready(self) -> (r: bool)
        ensures
            r == (self == ContextState::Ready),
    {
        self == ContextState::Ready
    }
}

/// A context never runs two invocations at once: along every accepted sequence of
/// events, at most one call is open, and exactly one while the context is executing.
pub proof fn lemma_no_reentry(s: ContextState, events: Seq<ContextEvent>)
    requires
        s != ContextState::Executing,
        run_states(s, events) is Some,
    ensures
        open_calls(s, events) == (if run_states(s, events) == Some(ContextState::Executing) { 1int } else { 0int }),
        next_state(ContextState::Executing, ContextEvent::BeginCall) is None,
    decreases events.len(),
{
    if events.len() > 0 {
        let pre = events.drop_last();
        assert(run_states(s, pre) is Some);
        lemma_no_reentry(s, pre);
    }
}

/// A context whose setup failed never becomes ready again: only detaching leaves
/// that state.
pub proof fn lemma_failed_is_sticky(events: Seq<ContextEvent>)
    requires
        run_states(ContextState::Failed, events) is Some,
    ensures
        run_states(ContextState::Failed, events) == Some(ContextState::Failed)
            || run_states(ContextState::Failed, events) == Some(ContextState::TornDown),
    decreases events.len(),
{
    if events.len() > 0 {
        let pre = events.drop_last();
        assert(run_states(ContextState::Failed, pre) is Some);
        lemma_failed_is_sticky(pre);
    }
}

} // verus!
