use bevy_mod_scripting::collection::CollectionOp;
use bevy_mod_scripting::dispatch::{collect_errors, handle_events, plan_invocations, run_stage};
use bevy_mod_scripting::providers::collect_docs;
use bevy_mod_scripting::queue::is_claimed;
use bevy_mod_scripting::{
    APIProvider, AddScriptApiProvider, AddScriptHost, AddScriptHostHandler, ContextEntry,
    ContextEvent, ContextState, GenDocumentation, Invocation, PriorityEventQueue, Recipients,
    ScriptCollection, ScriptContexts, ScriptError, ScriptErrorEvent, ScriptEvent, ScriptHost,
    ScriptKey, ScriptingPlugin,
};

/// Records every hook it runs; fails in the scripts listed in `failing`.
struct RecordingHost {
    calls: Vec<(u64, u64, String)>,
    failing: Vec<u64>,
}

impl ScriptHost<Vec<String>> for RecordingHost {
    fn invoke(
        &mut self,
        entity: u64,
        script: u64,
        hook: &String,
        _args: &Vec<String>,
    ) -> Result<(), ScriptError> {
        if self.failing.contains(&script) {
            return Err(ScriptError::RuntimeError {
                name: format!("script{}", script),
                msg: "boom".to_string(),
            });
        }
        self.calls.push((entity, script, hook.clone()));
        Ok(())
    }
}

struct TestProvider {
    fail_teardown: bool,
    fail_attach: bool,
    fail_setup: bool,
    doc: Option<String>,
}

impl APIProvider<Vec<String>> for TestProvider {
    fn attach_api(&self, api: &mut Vec<String>) -> Result<(), ScriptError> {
        if self.fail_attach {
            return Err(ScriptError::AttachFailure { msg: "no api".to_string() });
        }
        api.push("print".to_string());
        Ok(())
    }

    fn setup_script(&self, _entity: u64, script: u64) -> Result<(), ScriptError> {
        if self.fail_setup {
            return Err(ScriptError::SetupFailure { script, msg: "setup".to_string() });
        }
        Ok(())
    }

    fn teardown_script(&self, _entity: u64, script: u64) -> Result<(), ScriptError> {
        if self.fail_teardown {
            return Err(ScriptError::SetupFailure { script, msg: "teardown".to_string() });
        }
        Ok(())
    }

    fn documentation(&self) -> Option<String> {
        self.doc.clone()
    }
}

fn update_event(recipients: Recipients) -> ScriptEvent<Vec<String>> {
    ScriptEvent { hook_name: "on_update".to_string(), args: Vec::new(), recipients }
}

fn names(c: &ScriptCollection) -> Vec<String> {
    (0..c.len()).map(|i| c.get(i).name.clone()).collect()
}

fn ready_contexts(keys: &Vec<ScriptKey>) -> ScriptContexts {
    let mut ctx = ScriptContexts::new();
    ctx.start(&Ok(()));
    ctx.sync_contexts(keys);
    for k in keys {
        assert_eq!(ctx.apply_event(*k, ContextEvent::SetupSucceeded), Ok(ContextState::Ready));
    }
    ctx
}

#[test]
fn attach_appends_with_fresh_ids() {
    let mut c = ScriptCollection::new();
    let a = c.attach("a".to_string(), 7);
    let b = c.attach("b".to_string(), 7);
    assert_eq!(a, 0);
    assert_eq!(b, 1);
    assert_eq!(names(&c), vec!["a".to_string(), "b".to_string()]);
    assert_eq!(c.get(1).handle, 7);
}

#[test]
fn detach_by_name_then_again() {
    let mut c = ScriptCollection::new();
    c.attach("a".to_string(), 1);
    c.attach("b".to_string(), 2);
    assert!(c.detach(&"a".to_string()));
    assert_eq!(names(&c), vec!["b".to_string()]);
    assert!(!c.detach(&"a".to_string()));
    assert_eq!(names(&c), vec!["b".to_string()]);
}

#[test]
fn detach_removes_every_duplicate() {
    let mut c = ScriptCollection::new();
    c.attach("a".to_string(), 1);
    c.attach("b".to_string(), 2);
    c.attach("a".to_string(), 3);
    assert!(c.detach(&"a".to_string()));
    assert_eq!(names(&c), vec!["b".to_string()]);
}

#[test]
fn replay_matches_model() {
    let ops = vec![
        CollectionOp::Attach { name: "a".to_string(), handle: 1 },
        CollectionOp::Attach { name: "b".to_string(), handle: 2 },
        CollectionOp::Detach { name: "a".to_string() },
        CollectionOp::Attach { name: "c".to_string(), handle: 3 },
        CollectionOp::Detach { name: "zzz".to_string() },
    ];
    let mut c = ScriptCollection::new();
    c.replay(&ops);
    assert_eq!(names(&c), vec!["b".to_string(), "c".to_string()]);
    assert_eq!(c.get(0).handle, 2);
    assert_eq!(c.get(1).handle, 3);
    assert_eq!(c.get(1).id, 2);
}

#[test]
fn stage_takes_band_in_priority_order() {
    let mut q: PriorityEventQueue<u32> = PriorityEventQueue::new();
    q.send(10, 3);
    q.send(11, 1);
    q.send(12, 3);
    q.send(13, 0);
    q.send(14, 7);
    q.send(15, 1);
    let out = q.drain_stage(0, 3, &vec![(0, 3), (4, 8)]);
    let got: Vec<(u32, u32)> = out.delivered.iter().map(|e| (e.priority, e.event)).collect();
    assert_eq!(got, vec![(0, 13), (1, 11), (1, 15), (3, 10), (3, 12)]);
    assert!(out.unclaimed.is_empty());
    assert_eq!(q.len(), 1);
    assert_eq!(q.events[0].event, 14);
}

#[test]
fn unclaimed_priority_is_reported_not_delivered() {
    let keys: Vec<ScriptKey> = vec![(1, 0)];
    let mut ctx = ready_contexts(&keys);
    let mut host = RecordingHost { calls: Vec::new(), failing: Vec::new() };
    let mut q = PriorityEventQueue::new();
    q.send(update_event(Recipients::All), 5);
    let errs = run_stage(&mut q, 0, 4, &vec![(0, 4)], &mut ctx, &mut host, &keys);
    assert_eq!(errs, vec![ScriptErrorEvent { err: ScriptError::UnclaimedPriority { priority: 5 } }]);
    assert!(host.calls.is_empty());
    assert_eq!(q.len(), 0);
}

#[test]
fn event_above_band_waits_for_its_stage() {
    let mut q: PriorityEventQueue<u32> = PriorityEventQueue::new();
    q.send(1, 6);
    let out = q.drain_stage(0, 4, &vec![(0, 4), (5, 9)]);
    assert!(out.delivered.is_empty());
    assert!(out.unclaimed.is_empty());
    assert_eq!(q.len(), 1);
    let later = q.drain_stage(5, 9, &vec![(0, 4), (5, 9)]);
    assert_eq!(later.delivered.len(), 1);
    assert_eq!(q.len(), 0);
}

#[test]
fn claimed_checks_every_band() {
    let ranges = vec![(0, 4), (10, 12)];
    assert!(is_claimed(&ranges, 0));
    assert!(is_claimed(&ranges, 11));
    assert!(!is_claimed(&ranges, 5));
    assert!(!is_claimed(&ranges, 13));
}

#[test]
fn both_scripts_run_once_in_attachment_order() {
    let mut col = ScriptCollection::new();
    let a = col.attach("a".to_string(), 1);
    let b = col.attach("b".to_string(), 2);
    let keys: Vec<ScriptKey> = vec![(1, a), (1, b)];
    let mut ctx = ready_contexts(&keys);
    let mut host = RecordingHost { calls: Vec::new(), failing: Vec::new() };
    let mut q = PriorityEventQueue::new();
    q.send(update_event(Recipients::All), 0);
    let errs = run_stage(&mut q, 0, 0, &vec![(0, 0)], &mut ctx, &mut host, &keys);
    assert!(errs.is_empty());
    assert_eq!(
        host.calls,
        vec![(1, a, "on_update".to_string()), (1, b, "on_update".to_string())]
    );
}

#[test]
fn one_failing_script_does_not_stop_the_other() {
    let keys: Vec<ScriptKey> = vec![(1, 0), (1, 1)];
    let mut ctx = ready_contexts(&keys);
    let mut host = RecordingHost { calls: Vec::new(), failing: vec![0] };
    let mut q = PriorityEventQueue::new();
    q.send(update_event(Recipients::All), 0);
    let events = q.drain_stage(0, 0, &vec![(0, 0)]).delivered;
    let errs = handle_events(&mut ctx, &mut host, &events, &keys);
    assert_eq!(errs.len(), 1);
    assert!(matches!(errs[0].err, ScriptError::RuntimeError { .. }));
    assert_eq!(host.calls, vec![(1, 1, "on_update".to_string())]);
    // both contexts are ready again
    assert_eq!(ctx.contexts[0].state, ContextState::Ready);
    assert_eq!(ctx.contexts[1].state, ContextState::Ready);
}

#[test]
fn recipients_select_scripts() {
    let keys: Vec<ScriptKey> = vec![(1, 0), (1, 1), (2, 2)];
    let mut q = PriorityEventQueue::new();
    q.send(update_event(Recipients::ScriptIds(vec![2, 0])), 0);
    q.send(update_event(Recipients::All), 1);
    let events = q.drain_stage(0, 1, &vec![(0, 1)]).delivered;
    let plan = plan_invocations(&events, &keys);
    assert_eq!(
        plan,
        vec![
            Invocation { event: 0, entity: 1, script: 0 },
            Invocation { event: 0, entity: 2, script: 2 },
            Invocation { event: 1, entity: 1, script: 0 },
            Invocation { event: 1, entity: 1, script: 1 },
            Invocation { event: 1, entity: 2, script: 2 },
        ]
    );
}

#[test]
fn errors_are_collected_in_order() {
    let outcomes = vec![
        Ok(()),
        Err(ScriptError::ScriptNotFound { script: 3 }),
        Ok(()),
        Err(ScriptError::NotReady { script: 4 }),
    ];
    let errs = collect_errors(outcomes);
    assert_eq!(
        errs,
        vec![
            ScriptErrorEvent { err: ScriptError::ScriptNotFound { script: 3 } },
            ScriptErrorEvent { err: ScriptError::NotReady { script: 4 } },
        ]
    );
}

#[test]
fn sync_twice_changes_nothing_the_second_time() {
    let mut ctx = ScriptContexts::new();
    ctx.start(&Ok(()));
    let first = ctx.sync_contexts(&vec![(1, 0), (2, 5)]);
    assert_eq!(first.created, vec![(1, 0), (2, 5)]);
    assert!(first.torn_down.is_empty());
    let second = ctx.sync_contexts(&vec![(1, 0), (2, 5)]);
    assert!(second.created.is_empty());
    assert!(second.torn_down.is_empty());
    assert_eq!(ctx.contexts.len(), 2);
}

#[test]
fn sync_tears_down_detached_scripts() {
    let mut ctx = ScriptContexts::new();
    ctx.start(&Ok(()));
    ctx.sync_contexts(&vec![(1, 0), (1, 1)]);
    let plan = ctx.sync_contexts(&vec![(1, 1), (1, 2)]);
    assert_eq!(
        plan.torn_down,
        vec![ContextEntry { entity: 1, script: 0, state: ContextState::Uninitialized }]
    );
    assert_eq!(plan.created, vec![(1, 2)]);
    assert_eq!(ctx.contexts.len(), 2);
    assert_eq!((ctx.contexts[0].entity, ctx.contexts[0].script), (1, 1));
    assert_eq!((ctx.contexts[1].entity, ctx.contexts[1].script), (1, 2));
}

#[test]
fn no_reentrant_call() {
    assert_eq!(ContextState::Executing.step(ContextEvent::BeginCall), None);
    assert_eq!(ContextState::Ready.step(ContextEvent::BeginCall), Some(ContextState::Executing));
    let keys: Vec<ScriptKey> = vec![(1, 0)];
    let mut ctx = ready_contexts(&keys);
    assert_eq!(ctx.apply_event((1, 0), ContextEvent::BeginCall), Ok(ContextState::Executing));
    assert_eq!(
        ctx.apply_event((1, 0), ContextEvent::BeginCall),
        Err(ScriptError::NotReady { script: 0 })
    );
    assert_eq!(ctx.apply_event((1, 0), ContextEvent::EndCall), Ok(ContextState::Ready));
}

#[test]
fn state_machine_transitions() {
    assert_eq!(ContextState::Uninitialized.step(ContextEvent::SetupFailed), Some(ContextState::Failed));
    assert_eq!(ContextState::Failed.step(ContextEvent::BeginCall), None);
    assert_eq!(ContextState::Failed.step(ContextEvent::Detach), Some(ContextState::TornDown));
    assert_eq!(ContextState::TornDown.step(ContextEvent::SetupSucceeded), None);
    assert_eq!(ContextState::Executing.step(ContextEvent::Detach), None);
    assert!(ContextState::Ready.is_ready());
    assert!(!ContextState::Failed.is_ready());
}

#[test]
fn missing_context_is_not_found() {
    let mut ctx = ScriptContexts::new();
    assert_eq!(
        ctx.apply_event((3, 9), ContextEvent::BeginCall),
        Err(ScriptError::ScriptNotFound { script: 9 })
    );
    assert_eq!(ctx.find((3, 9)), None);
}

#[test]
fn failed_attach_prevents_any_context() {
    let mut app = ScriptingPlugin.build::<Vec<String>, TestProvider, Vec<String>>(Vec::new());
    app.add_api_provider(TestProvider { fail_teardown: false, fail_attach: false, fail_setup: false, doc: None });
    app.add_api_provider(TestProvider { fail_teardown: false, fail_attach: true, fail_setup: false, doc: None });
    let r = app.add_script_host();
    assert_eq!(r, Err(ScriptError::AttachFailure { msg: "no api".to_string() }));
    assert!(r.as_ref().unwrap_err().is_fatal());
    let plan = app.sync_scripts(&vec![(1, 0), (1, 1)]);
    assert!(plan.created.is_empty());
    assert!(app.contexts.contexts.is_empty());
    assert!(app.errors.is_empty());
}

#[test]
fn app_runs_scripts_end_to_end() {
    let mut app = ScriptingPlugin.build::<Vec<String>, TestProvider, Vec<String>>(Vec::new());
    app.add_api_provider(TestProvider {
        fail_teardown: false,
        fail_attach: false,
        fail_setup: false,
        doc: Some("print(x)".to_string()),
    });
    assert_eq!(app.add_script_host(), Ok(()));
    assert_eq!(app.api, vec!["print".to_string()]);
    app.add_script_handler_stage(0, 4);
    app.add_script_handler_stage(5, 9);
    app.sync_scripts(&vec![(1, 0), (1, 1)]);
    assert_eq!(app.contexts.contexts[0].state, ContextState::Ready);
    app.send_event(update_event(Recipients::All), 6);
    app.send_event(update_event(Recipients::ScriptIds(vec![1])), 2);
    let mut host = RecordingHost { calls: Vec::new(), failing: Vec::new() };
    let keys: Vec<ScriptKey> = vec![(1, 0), (1, 1)];
    app.run_handler_stage(0, &mut host, &keys);
    assert_eq!(host.calls, vec![(1, 1, "on_update".to_string())]);
    app.run_handler_stage(1, &mut host, &keys);
    assert_eq!(host.calls.len(), 3);
    assert!(app.errors.is_empty());
    assert_eq!(app.gen_documentation(), vec!["print(x)".to_string()]);
}

#[test]
fn failed_setup_is_reported_and_sticky() {
    let mut app = ScriptingPlugin.build::<Vec<String>, TestProvider, Vec<String>>(Vec::new());
    app.add_api_provider(TestProvider { fail_teardown: false, fail_attach: false, fail_setup: true, doc: None });
    assert_eq!(app.add_script_host(), Ok(()));
    app.sync_scripts(&vec![(1, 0)]);
    assert_eq!(app.contexts.contexts[0].state, ContextState::Failed);
    assert_eq!(
        app.errors,
        vec![ScriptErrorEvent { err: ScriptError::SetupFailure { script: 0, msg: "setup".to_string() } }]
    );
    app.add_script_handler_stage(0, 0);
    app.send_event(update_event(Recipients::All), 0);
    let mut host = RecordingHost { calls: Vec::new(), failing: Vec::new() };
    app.run_handler_stage(0, &mut host, &vec![(1, 0)]);
    assert!(host.calls.is_empty());
    assert_eq!(app.errors.len(), 2);
    assert_eq!(app.errors[1].err, ScriptError::NotReady { script: 0 });
}

#[test]
fn docs_keep_present_fragments_in_order() {
    let frags = vec![Some("a".to_string()), None, Some("c".to_string()), None];
    assert_eq!(collect_docs(frags), vec!["a".to_string(), "c".to_string()]);
    assert!(collect_docs(Vec::new()).is_empty());
}

#[test]
fn documentation_follows_registration_order() {
    let mut app = ScriptingPlugin.build::<Vec<String>, TestProvider, Vec<String>>(Vec::new());
    for doc in [Some("first"), None, Some("third")] {
        app.add_api_provider(TestProvider {
            fail_teardown: false,
            fail_attach: false,
            fail_setup: false,
            doc: doc.map(|d| d.to_string()),
        });
    }
    assert_eq!(app.gen_documentation(), vec!["first".to_string(), "third".to_string()]);
}

#[test]
fn host_without_providers_starts() {
    let mut app = ScriptingPlugin.build::<Vec<String>, TestProvider, Vec<String>>(Vec::new());
    assert_eq!(app.add_script_host(), Ok(()));
    assert!(app.api.is_empty());
    app.sync_scripts(&vec![(4, 2)]);
    assert_eq!(app.contexts.contexts[0].state, ContextState::Ready);
}

#[test]
fn second_sync_adds_no_error() {
    let mut app = ScriptingPlugin.build::<Vec<String>, TestProvider, Vec<String>>(Vec::new());
    app.add_api_provider(TestProvider { fail_teardown: false, fail_attach: false, fail_setup: true, doc: None });
    assert_eq!(app.add_script_host(), Ok(()));
    app.sync_scripts(&vec![(1, 0)]);
    assert_eq!(app.errors.len(), 1);
    let plan = app.sync_scripts(&vec![(1, 0)]);
    assert!(plan.created.is_empty());
    assert_eq!(app.errors.len(), 1);
    assert_eq!(app.contexts.contexts[0].state, ContextState::Failed);
}

#[test]
fn teardown_failure_is_reported() {
    let mut app = ScriptingPlugin.build::<Vec<String>, TestProvider, Vec<String>>(Vec::new());
    app.add_api_provider(TestProvider { fail_teardown: true, fail_attach: false, fail_setup: false, doc: None });
    assert_eq!(app.add_script_host(), Ok(()));
    app.sync_scripts(&vec![(1, 0), (1, 1)]);
    let plan = app.sync_scripts(&vec![(1, 1)]);
    assert_eq!(plan.torn_down.len(), 1);
    assert_eq!(
        app.errors,
        vec![ScriptErrorEvent { err: ScriptError::SetupFailure { script: 0, msg: "teardown".to_string() } }]
    );
    assert_eq!(app.contexts.contexts.len(), 1);
    assert_eq!(app.contexts.contexts[0].state, ContextState::Ready);
}

#[test]
fn stage_errors_follow_earlier_errors() {
    let mut app = ScriptingPlugin.build::<Vec<String>, TestProvider, Vec<String>>(Vec::new());
    assert_eq!(app.add_script_host(), Ok(()));
    app.add_script_handler_stage(0, 1);
    app.sync_scripts(&vec![(1, 0)]);
    app.send_event(update_event(Recipients::All), 9);
    app.send_event(update_event(Recipients::All), 0);
    let mut host = RecordingHost { calls: Vec::new(), failing: vec![0] };
    app.run_handler_stage(0, &mut host, &vec![(1, 0)]);
    assert_eq!(app.errors.len(), 2);
    assert_eq!(app.errors[0].err, ScriptError::UnclaimedPriority { priority: 9 });
    assert!(matches!(app.errors[1].err, ScriptError::RuntimeError { .. }));
}
