//! A scripting host core: script collections attached to entities, per-script
//! execution contexts, a priority event queue handed out to handler stages, and
//! the registry of API providers that extend what scripts can call.
use vstd::prelude::*;

pub mod collection;
pub mod context;
pub mod dispatch;
pub mod error;
pub mod host;
pub mod plugin;
pub mod providers;
pub mod queue;

pub use collection::{CollectionOp, Script, ScriptCollection};
pub use context::{ContextEvent, ContextState};
pub use dispatch::{Invocation, Recipients, ScriptEvent, ScriptHost};
pub use error::{ScriptError, ScriptErrorEvent};
pub use host::{ContextEntry, ScriptContexts, ScriptKey, SyncPlan};
pub use plugin::{
    AddScriptApiProvider, AddScriptHost, AddScriptHostHandler, GenDocumentation, ScriptingApp,
    ScriptingPlugin,
};
pub use providers::{APIProvider, APIProviders};
pub use queue::{PriorityEventQueue, Queued, StageEvents};

verus! {

} // verus!
