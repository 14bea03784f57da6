use vstd::prelude::*;
use crate::context::ContextState;
use crate::dispatch::{ScriptEvent, ScriptHost, failures, invocation_plan, refused, run_stage, unclaimed_error};
use crate::error::{ScriptError, ScriptErrorEvent};
use crate::host::{ScriptContexts, ScriptKey, SyncPlan, detached, fresh_context, keep, lemma_keep, still_attached, synced, with_state, without_context};
use crate::providers::{APIProvider, APIProviders, first_failure, somes};
use crate::queue::{PriorityEventQueue, Queued, ordered, select, unclaimed, waiting};

verus! {

/// Everything the scripting core keeps for one script language: the API surface,
/// its providers, the contexts, the handler stages, the event queue and the error
/// events raised so far.
pub struct ScriptingApp<T, P, A> {
    pub api: T,
    pub providers: APIProviders<P>,
    pub contexts: ScriptContexts,
    /// The priority band `[min, max]` of each handler stage, in the order added.
    pub stages: Vec<(u32, u32)>,
    pub queue: PriorityEventQueue<ScriptEvent<A>>,
    pub errors: Vec<ScriptErrorEvent>,
}

/// Enables run-time scripting: sets up an empty scripting core around an API surface.
pub struct ScriptingPlugin;

impl ScriptingPlugin {
    pub fn build<T, P, A>(&self, api: T) -> (r: ScriptingApp<T, P, A>)
        ensures
            r.api == api,
            r.providers.providers@.len() == 0,
            r.contexts.contexts@.len() == 0,
            !r.contexts.started,
            r.stages@.len() == 0,
            r.queue.events@.len() == 0,
            r.errors@.len() == 0,
    {
        ScriptingApp {
            api,
            providers: APIProviders::new(),
            contexts: ScriptContexts::new(),
            stages: Vec::new(),
            queue: PriorityEventQueue::new(),
            errors: Vec::new(),
        }
    }
}

/// Registers a script host: builds the API surface from every registered provider.
pub trait AddScriptHost: Sized {
    spec fn host_started(&self) -> bool;

    spec fn registered_providers(&self) -> nat;

    /// Everything but the API surface and the host's start is as in `before`.
    spec fn keeps_all_but_api(&self, before: Self) -> bool;

    /// Attaches every provider to the API surface, in registration order, stopping
    /// at the first failure, which it returns; a failure is fatal, and then no script
    /// ever runs. With no provider registered it succeeds.
    fn add_script_host(&mut self) -> (r: Result<(), ScriptError>)
        ensures
            final(self).host_started() == (r is Ok),
            old(self).registered_providers() == 0 ==> r is Ok,
            exists|o: Seq<Result<(), ScriptError>>| {
                &&& o.len() <= old(self).registered_providers()
                &&& r == #[trigger] first_failure(o)
                &&& (o.len() < old(self).registered_providers() ==> r is Err)
            },
            final(self).keeps_all_but_api(*old(self));
}

/// Registers an API provider.
pub trait AddScriptApiProvider<P>: Sized {
    spec fn api_providers(&self) -> Seq<P>;

    /// Everything but the providers is as in `before`.
    spec fn keeps_all_but_providers(&self, before: Self) -> bool;

    /// Appends `provider`; it attaches only when the host starts.
    fn add_api_provider(&mut self, provider: P)
        ensures
            final(self).api_providers() == old(self).api_providers().push(provider),
            final(self).keeps_all_but_providers(*old(self));
}

/// Adds a handler stage that handles the events with priority in `[min, max]`.
pub trait AddScriptHostHandler: Sized {
    spec fn handler_stages(&self) -> Seq<(u32, u32)>;

    /// Everything but the handler stages is as in `before`.
    spec fn keeps_all_but_stages(&self, before: Self) -> bool;

    fn add_script_handler_stage(&mut self, min: u32, max: u32)
        ensures
            final(self).handler_stages() == old(self).handler_stages().push((min, max)),
            final(self).keeps_all_but_stages(*old(self));
}

/// Produces the documentation of every registered provider.
pub trait GenDocumentation: Sized {
    spec fn provider_count(&self) -> nat;

    /// Every provider's fragment that is present, in registration order, and nothing else.
    fn gen_documentation(&self) -> (r: Vec<String>)
        ensures
            exists|o: Seq<Option<String>>| o.len() == self.provider_count() && r@ == #[trigger] somes(o);
}

impl<T, P, A> ScriptingApp<T, P, A> {
    pub open spec fn same_providers(&self, o: Self) -> bool {
        self.providers.providers@ == o.providers.providers@
    }

    pub open spec fn same_contexts(&self, o: Self) -> bool {
        self.contexts.contexts@ == o.contexts.contexts@ && self.contexts.started == o.contexts.started
    }

    pub open spec fn same_stages(&self, o: Self) -> bool {
        self.stages@ == o.stages@
    }

    pub open spec fn same_queue(&self, o: Self) -> bool {
        self.queue.events@ == o.queue.events@
    }

    pub open spec fn same_errors(&self, o: Self) -> bool {
        self.errors@ == o.errors@
    }
}

/// The error events that a sync pass appends: teardown failures, then setup failures.
pub open spec fn sync_errors(teardown: Seq<ScriptError>, setup: Seq<Result<(), ScriptError>>) -> Seq<ScriptError> {
    teardown + failures(setup)
}

pub open spec fn setup_state(o: Result<(), ScriptError>) -> ContextState {
    if o is Ok {
        ContextState::Ready
    } else {
        ContextState::Failed
    }
}

pub open spec fn errs(s: Seq<ScriptErrorEvent>) -> Seq<ScriptError> {
    s.map_values(|x: ScriptErrorEvent| x.err)
}

impl<T, P: APIProvider<T>, A> AddScriptHost for ScriptingApp<T, P, A> {
    open spec fn host_started(&self) -> bool {
        self.contexts.started
    }

    open spec fn registered_providers(&self) -> nat {
        self.providers.providers@.len()
    }

    open spec fn keeps_all_but_api(&self, before: Self) -> bool {
        &&& self.same_providers(before)
        &&& self.contexts.contexts@ == before.contexts.contexts@
        &&& self.same_stages(before)
        &&& self.same_queue(before)
        &&& self.same_errors(before)
    }

    fn add_script_host(&mut self) -> (r: Result<(), ScriptError>) {
        let r = self.providers.attach_all(&mut self.api);
        self.contexts.start(&r);
        r
    }
}

impl<T, P, A> AddScriptApiProvider<P> for ScriptingApp<T, P, A> {
    open spec fn api_providers(&self) -> Seq<P> {
        self.providers.providers@
    }

    open spec fn keeps_all_but_providers(&self, before: Self) -> bool {
        &&& self.api == before.api
        &&& self.same_contexts(before)
        &&& self.same_stages(before)
        &&& self.same_queue(before)
        &&& self.same_errors(before)
    }

    fn add_api_provider(&mut self, provider: P) {
        self.providers.register(provider);
    }
}

impl<T, P, A> AddScriptHostHandler for ScriptingApp<T, P, A> {
    open spec fn handler_stages(&self) -> Seq<(u32, u32)> {
        self.stages@
    }

    open spec fn keeps_all_but_stages(&self, before: Self) -> bool {
        &&& self.api == before.api
        &&& self.same_providers(before)
        &&& self.same_contexts(before)
        &&& self.same_queue(before)
        &&& self.same_errors(before)
    }

    fn add_script_handler_stage(&mut self, min: u32, max: u32) {
        self.stages.push((min, max));
    }
}

impl<T, P: APIProvider<T>, A> GenDocumentation for ScriptingApp<T, P, A> {
    open spec fn provider_count(&self) -> nat {
        self.providers.providers@.len()
    }

    fn gen_documentation(&self) -> (r: Vec<String>) {
        self.providers.gen_all()
    }
}

impl<T, P: APIProvider<T>, A> ScriptingApp<T, P, A> {
    /// Enqueues an event for the handler stage whose band holds `priority`.
    pub fn send_event(&mut self, event: ScriptEvent<A>, priority: u32)
        ensures
            final(self).queue.events@ == old(self).queue.events@.push(Queued { priority, event }),
            final(self).api == old(self).api,
            final(self).same_providers(*old(self)),
            final(self).same_contexts(*old(self)),
            final(self).same_stages(*old(self)),
            final(self).same_errors(*old(self)),
    {
        self.queue.send(event, priority);
    }

    /// Brings the contexts in line with `attached`. Contexts of detached scripts are
    /// torn down by every provider and dropped; contexts that stay are untouched; each
    /// newly attached script gets a context set up by every provider, ready on
    /// success and failed otherwise. Teardown failures, then one error per failed
    /// setup, are appended to the error events. Before a successful start nothing
    /// changes.
    pub fn sync_scripts(&mut self, attached: &Vec<ScriptKey>) -> (r: SyncPlan)
        ensures
            final(self).contexts.started == old(self).contexts.started,
            final(self).api == old(self).api,
            final(self).same_providers(*old(self)),
            final(self).same_stages(*old(self)),
            final(self).same_queue(*old(self)),
            !old(self).contexts.started ==> final(self).same_contexts(*old(self)) && final(self).same_errors(*old(self))
                && r.created@.len() == 0 && r.torn_down@.len() == 0,
            old(self).contexts.started ==> ({
                let c0 = old(self).contexts.contexts@;
                let kept = keep(c0, still_attached(attached@));
                let n = old(self).providers.providers@.len();
                &&& r.created@ == keep(attached@, without_context(c0))
                &&& r.torn_down@ == keep(c0, detached(attached@))
                &&& final(self).contexts.contexts@.len() == kept.len() + r.created@.len()
                &&& forall|i: int| 0 <= i < kept.len() ==> #[trigger] final(self).contexts.contexts@[i] == kept[i]
                &&& exists|td: Seq<ScriptError>, so: Seq<Result<(), ScriptError>>| {
                    &&& so.len() == r.created@.len()
                    &&& errs(final(self).errors@) == errs(old(self).errors@) + #[trigger] sync_errors(td, so)
                    &&& (r.torn_down@.len() == 0 || n == 0) ==> td.len() == 0
                    &&& n == 0 ==> forall|k: int| 0 <= k < so.len() ==> (#[trigger] so[k]) is Ok
                    &&& forall|k: int| 0 <= k < so.len() ==> #[trigger] final(self).contexts.contexts@[kept.len() + k]
                        == with_state(fresh_context(r.created@[k]), setup_state(so[k]))
                }
            }),
    {
        let ghost c0 = self.contexts.contexts@;
        let ghost e0 = errs(self.errors@);
        let plan = self.contexts.sync_contexts(attached);
        if !self.contexts.started {
            return plan;
        }
        let ghost after = self.contexts.contexts@;
        let ghost kept = keep(c0, still_attached(attached@));
        let ghost n = self.providers.providers@.len();
        assert(after.len() == kept.len() + plan.created@.len());
        let ghost mut td: Seq<ScriptError> = Seq::empty();
        let mut i: usize = 0;
        while i < plan.torn_down.len()
            invariant
                i <= plan.torn_down@.len(),
                self.contexts.contexts@ == after,
                self.contexts.started,
                self.api == old(self).api,
                self.same_providers(*old(self)),
                self.same_stages(*old(self)),
                self.same_queue(*old(self)),
                n == self.providers.providers@.len(),
                errs(self.errors@) == e0 + td,
                (plan.torn_down@.len() == 0 || n == 0) ==> td.len() == 0,
            decreases plan.torn_down@.len() - i,
        {
            let c = plan.torn_down[i];
            let ghost before = errs(self.errors@);
            let mut tear = self.providers.teardown_all(c.entity, c.script);
            let ghost te = errs(tear@);
            proof {
                if n == 0 {
                    let o = choose|o: Seq<Result<(), ScriptError>>| o.len() == n && errs(tear@) == #[trigger] failures(o);
                    assert(failures(o) == Seq::<ScriptError>::empty());
                }
            }
            self.errors.append(&mut tear);
            proof {
                assert(errs(self.errors@) =~= before + te);
                assert(e0 + td + te =~= e0 + (td + te));
                td = td + te;
            }
            i = i + 1;
        }
        let base: usize = self.contexts.contexts.len() - plan.created.len();
        let ghost mut so: Seq<Result<(), ScriptError>> = Seq::empty();
        let mut k: usize = 0;
        while k < plan.created.len()
            invariant
                k <= plan.created@.len(),
                base == kept.len(),
                after == synced(c0, attached@),
                plan.created@ == keep(attached@, without_context(c0)),
                after.len() == kept.len() + plan.created@.len(),
                self.contexts.started,
                self.api == old(self).api,
                self.same_providers(*old(self)),
                self.same_stages(*old(self)),
                self.same_queue(*old(self)),
                n == self.providers.providers@.len(),
                self.contexts.contexts@.len() == after.len(),
                forall|j: int| 0 <= j < kept.len() ==> #[trigger] self.contexts.contexts@[j] == after[j],
                forall|j: int| kept.len() + k <= j < after.len() ==> #[trigger] self.contexts.contexts@[j] == after[j],
                so.len() == k,
                errs(self.errors@) == e0 + sync_errors(td, so),
                n == 0 ==> forall|q: int| 0 <= q < so.len() ==> (#[trigger] so[q]) is Ok,
                forall|q: int| 0 <= q < so.len() ==> #[trigger] self.contexts.contexts@[kept.len() + q]
                    == with_state(fresh_context(plan.created@[q]), setup_state(so[q])),
            decreases plan.created@.len() - k,
        {
            let key = plan.created[k];
            let out = self.providers.setup_all(key.0, key.1);
            let ghost og = out;
            let ghost before = self.errors@;
            let ghost cb = self.contexts.contexts@;
            assert(after[kept.len() + k] == fresh_context(plan.created@[k as int]));
            let nctx: usize = self.contexts.contexts.len();
            assert(base + k < nctx);
            let ev = self.contexts.record_setup(base + k, out);
            match ev {
                Some(ev) => {
                    self.errors.push(ev);
                },
                None => {},
            }
            proof {
                assert(so.push(og).drop_last() =~= so);
                assert(so.push(og).last() == og);
                if og is Ok {
                    assert(failures(so.push(og)) == failures(so));
                    assert(self.errors@ == before);
                } else {
                    let e = og->Err_0;
                    assert(failures(so.push(og)) == failures(so).push(e));
                    assert(errs(self.errors@) =~= errs(before).push(e));
                    assert(sync_errors(td, so.push(og)) =~= sync_errors(td, so).push(e));
                }
                assert(errs(self.errors@) =~= e0 + sync_errors(td, so.push(og)));
                assert forall|q: int| 0 <= q < so.len() + 1 implies #[trigger] self.contexts.contexts@[kept.len() + q]
                    == with_state(fresh_context(plan.created@[q]), setup_state(so.push(og)[q])) by {
                    if q < so.len() {
                        assert(self.contexts.contexts@[kept.len() + q] == cb[kept.len() + q]);
                    }
                }
                so = so.push(og);
            }
            k = k + 1;
        }
        proof {
            lemma_keep(c0, still_attached(attached@));
            assert forall|j: int| 0 <= j < kept.len() implies #[trigger] self.contexts.contexts@[j] == kept[j] by {
                assert(after[j] == (kept + keep(attached@, without_context(c0)).map_values(|q: ScriptKey| fresh_context(q)))[j]);
            }
            assert(so.len() == plan.created@.len());
        }
        plan
    }

    /// Runs the handler stage at `stage` over the attached scripts, and appends every
    /// error it raises to the error events: first one per event that no band claims,
    /// then one per failed invocation.
    pub fn run_handler_stage<H: ScriptHost<A>>(&mut self, stage: usize, host: &mut H, scripts: &Vec<ScriptKey>)
        requires
            stage < old(self).stages@.len(),
        ensures
            final(self).api == old(self).api,
            final(self).same_providers(*old(self)),
            final(self).same_contexts(*old(self)),
            final(self).same_stages(*old(self)),
            final(self).queue.events@ == select(
                old(self).queue.events@,
                waiting(old(self).stages@[stage as int].0 as int, old(self).stages@[stage as int].1 as int, old(self).stages@),
            ),
            exists|o: Seq<Result<(), ScriptError>>| {
                let min = old(self).stages@[stage as int].0 as int;
                let max = old(self).stages@[stage as int].1 as int;
                let plan = invocation_plan(ordered(old(self).queue.events@, min, max), scripts@);
                let lost = select(old(self).queue.events@, unclaimed(min, max, old(self).stages@));
                &&& o.len() == plan.len()
                &&& errs(final(self).errors@) == errs(old(self).errors@)
                    + lost.map_values(|q: Queued<ScriptEvent<A>>| unclaimed_error(q.priority)) + #[trigger] failures(o)
                &&& forall|i: int| 0 <= i < o.len()
                    ==> refused(old(self).contexts.contexts@, (plan[i].entity, plan[i].script), #[trigger] o[i])
            },
    {
        let (min, max) = self.stages[stage];
        let ghost q0 = self.queue.events@;
        let ghost c0 = self.contexts.contexts@;
        let ghost before = self.errors@;
        let mut raised = run_stage(&mut self.queue, min, max, &self.stages, &mut self.contexts, host, scripts);
        let ghost added = raised@;
        self.errors.append(&mut raised);
        proof {
            let plan = invocation_plan(ordered(q0, min as int, max as int), scripts@);
            let lost = select(q0, unclaimed(min as int, max as int, self.stages@));
            let o = choose|o: Seq<Result<(), ScriptError>>| {
                &&& o.len() == plan.len()
                &&& added.map_values(|x: ScriptErrorEvent| x.err)
                    == lost.map_values(|q: Queued<ScriptEvent<A>>| unclaimed_error(q.priority)) + #[trigger] failures(o)
                &&& forall|i: int| 0 <= i < o.len() ==> refused(c0, (plan[i].entity, plan[i].script), #[trigger] o[i])
            };
            assert(errs(self.errors@) =~= errs(before) + added.map_values(|x: ScriptErrorEvent| x.err));
            assert(errs(self.errors@) =~= errs(before) + lost.map_values(|q: Queued<ScriptEvent<A>>| unclaimed_error(q.priority)) + failures(o));
        }
    }
}

} // verus!
