use vstd::prelude::*;
use crate::context::{ContextEvent, ContextState};
use crate::error::{ScriptError, ScriptErrorEvent};
use crate::host::{ContextEntry, ScriptContexts, ScriptKey, has_context, is_first, keep, key_of};
use crate::queue::{PriorityEventQueue, Queued, StageEvents, ordered, select, unclaimed, waiting};

verus! {

/// Which scripts an event is addressed to.
pub enum Recipients {
    All,
    /// Only the scripts with these identifiers.
    ScriptIds(Vec<u64>),
}

/// A request to run the hook `hook_name` with `args` in the scripts it addresses.
pub struct ScriptEvent<A> {
    pub hook_name: String,
    pub args: A,
    pub recipients: Recipients,
}

/// One hook invocation: the event at `event` of the handled sequence, in one script.
#[derive(PartialEq, Eq, Structural, Clone, Copy, Debug)]
pub struct Invocation {
    pub event: usize,
    pub entity: u64,
    pub script: u64,
}

/// A language backend: runs a named hook in the context of one script.
pub trait ScriptHost<A> {
    fn invoke(&mut self, entity: u64, script: u64, hook: &String, args: &A) -> Result<(), ScriptError>;
}

impl Recipients {
    pub open spec fn targets(&self, script: u64) -> bool {
        match self {
            Recipients::All => true,
            Recipients::ScriptIds(ids) => ids@.contains(script),
        }
    }

    pub fn includes(&self, script: u64) -> (r: bool)
        ensures
            r == self.targets(script),
    {
        match self {
            Recipients::All => true,
            Recipients::ScriptIds(ids) => {
                let mut i: usize = 0;
                while i < ids.len()
                    invariant
                        i <= ids@.len(),
                        self.targets(script) == ids@.contains(script),
                        forall|j: int| 0 <= j < i ==> ids@[j] != script,
                    decreases ids@.len() - i,
                {
                    if ids[i] == script {
                        assert(ids@[i as int] == script);
                        return true;
                    }
                    i = i + 1;
                }
                false
            },
        }
    }
}

pub open spec fn addressed(r: Recipients) -> spec_fn(ScriptKey) -> bool {
    |k: ScriptKey| r.targets(k.1)
}

pub open spec fn invocation(event: int, k: ScriptKey) -> Invocation {
    Invocation { event: event as usize, entity: k.0, script: k.1 }
}

/// The invocations of one event, in the order of the attached scripts.
pub open spec fn invocations_of(event: int, r: Recipients, scripts: Seq<ScriptKey>) -> Seq<Invocation> {
    keep(scripts, addressed(r)).map_values(|k: ScriptKey| invocation(event, k))
}

/// Every invocation that handling `events` makes: event by event, and for each
/// event every addressed script in order.
pub open spec fn invocation_plan<A>(events: Seq<Queued<ScriptEvent<A>>>, scripts: Seq<ScriptKey>) -> Seq<Invocation>
    decreases events.len(),
{
    if events.len() == 0 {
        Seq::empty()
    } else {
        invocation_plan(events.drop_last(), scripts)
            + invocations_of(events.len() - 1, events.last().event.recipients, scripts)
    }
}

/// The errors among `outcomes`, in order, each as one error event.
pub open spec fn failures(outcomes: Seq<Result<(), ScriptError>>) -> Seq<ScriptError>
    decreases outcomes.len(),
{
    if outcomes.len() == 0 {
        Seq::empty()
    } else {
        let r = failures(outcomes.drop_last());
        match outcomes.last() {
            Ok(_) => r,
            Err(e) => r.push(e),
        }
    }
}

/// Lists the invocations that handling `events` makes over `scripts`, the attached
/// scripts in entity order and, within an entity, in attachment order.
pub fn plan_invocations<A>(events: &Vec<Queued<ScriptEvent<A>>>, scripts: &Vec<ScriptKey>) -> (r: Vec<Invocation>)
    ensures
        r@ == invocation_plan(events@, scripts@),
{
    let mut r: Vec<Invocation> = Vec::new();
    let mut e: usize = 0;
    while e < events.len()
        invariant
            e <= events@.len(),
            r@ == invocation_plan(events@.take(e as int), scripts@),
        decreases events@.len() - e,
    {
        let rec = &events[e].event.recipients;
        let ghost before = r@;
        let mut j: usize = 0;
        while j < scripts.len()
            invariant
                e < events@.len(),
                j <= scripts@.len(),
                *rec == events@[e as int].event.recipients,
                r@ == before + invocations_of(e as int, *rec, scripts@.take(j as int)),
            decreases scripts@.len() - j,
        {
            let k = scripts[j];
            assert(scripts@.take(j as int + 1).drop_last() =~= scripts@.take(j as int));
            assert(scripts@.take(j as int + 1).last() == k);
            if rec.includes(k.1) {
                r.push(Invocation { event: e, entity: k.0, script: k.1 });
                assert(r@ =~= before + invocations_of(e as int, *rec, scripts@.take(j as int + 1)));
            } else {
                assert(r@ =~= before + invocations_of(e as int, *rec, scripts@.take(j as int + 1)));
            }
            j = j + 1;
        }
        assert(scripts@.take(j as int) =~= scripts@);
        assert(events@.take(e as int + 1).drop_last() =~= events@.take(e as int));
        assert(events@.take(e as int + 1).last() == events@[e as int]);
        e = e + 1;
    }
    assert(events@.take(e as int) =~= events@);
    r
}

/// Turns the outcome of each invocation into error events: one for each failure,
/// in order; successes give none.
pub fn collect_errors(outcomes: Vec<Result<(), ScriptError>>) -> (r: Vec<ScriptErrorEvent>)
    ensures
        r@.map_values(|x: ScriptErrorEvent| x.err) == failures(outcomes@),
{
    let ghost o = outcomes@;
    let mut rest = outcomes;
    let mut rev: Vec<ScriptErrorEvent> = Vec::new();
    // walk from the back, then restore the order
    while rest.len() > 0
        invariant
            rest@ == o.take(rest@.len() as int),
            rest@.len() <= o.len(),
            failures(o) == failures(rest@) + rev@.map_values(|x: ScriptErrorEvent| x.err).reverse(),
        decreases rest@.len(),
    {
        let ghost pre = rest@;
        let x = rest.pop().unwrap();
        assert(pre.drop_last() =~= rest@);
        match x {
            Ok(_) => {},
            Err(e) => {
                let ghost tail = rev@.map_values(|x: ScriptErrorEvent| x.err);
                rev.push(ScriptErrorEvent { err: e });
                assert(rev@.map_values(|x: ScriptErrorEvent| x.err).reverse() =~= seq![e] + tail.reverse());
                assert(failures(pre) == failures(rest@).push(e));
                assert(failures(rest@).push(e) + tail.reverse() =~= failures(rest@) + (seq![e] + tail.reverse()));
            },
        }
    }
    assert(failures(rest@) =~= Seq::<ScriptError>::empty());
    let ghost back = rev@.map_values(|x: ScriptErrorEvent| x.err);
    assert(failures(o) =~= back.reverse());
    let mut r: Vec<ScriptErrorEvent> = Vec::new();
    while rev.len() > 0
        invariant
            r@.map_values(|x: ScriptErrorEvent| x.err) + rev@.map_values(|x: ScriptErrorEvent| x.err).reverse() == back.reverse(),
        decreases rev@.len(),
    {
        let ghost pre = rev@.map_values(|x: ScriptErrorEvent| x.err);
        let ghost done = r@.map_values(|x: ScriptErrorEvent| x.err);
        let x = rev.pop().unwrap();
        r.push(x);
        assert(rev@.map_values(|x: ScriptErrorEvent| x.err) =~= pre.drop_last());
        assert(r@.map_values(|x: ScriptErrorEvent| x.err) =~= done.push(x.err));
        assert(pre.reverse() =~= seq![x.err] + pre.drop_last().reverse());
        assert(done.push(x.err) + pre.drop_last().reverse() =~= done + (seq![x.err] + pre.drop_last().reverse()));
    }
    assert(rev@.map_values(|x: ScriptErrorEvent| x.err).reverse() =~= Seq::<ScriptError>::empty());
    assert(r@.map_values(|x: ScriptErrorEvent| x.err) =~= back.reverse());
    r
}

proof fn lemma_plan_events<A>(events: Seq<Queued<ScriptEvent<A>>>, scripts: Seq<ScriptKey>)
    requires
        events.len() <= usize::MAX,
    ensures
        forall|i: int| 0 <= i < invocation_plan(events, scripts).len()
            ==> (#[trigger] invocation_plan(events, scripts)[i]).event < events.len(),
        invocation_plan(events, scripts).len() <= events.len() * scripts.len(),
    decreases events.len(),
{
    if events.len() > 0 {
        let pre = events.drop_last();
        lemma_plan_events(pre, scripts);
        let a = invocation_plan(pre, scripts);
        let b = invocations_of(events.len() - 1, events.last().event.recipients, scripts);
        let p = invocation_plan(events, scripts);
        lemma_keep_len(scripts, addressed(events.last().event.recipients));
        assert forall|i: int| 0 <= i < p.len() implies (#[trigger] p[i]).event < events.len() by {
            if i < a.len() {
                assert(p[i] == a[i]);
            } else {
                assert(p[i] == b[i - a.len()]);
            }
        }
        assert(pre.len() * scripts.len() + scripts.len() == events.len() * scripts.len()) by (nonlinear_arith)
            requires pre.len() + 1 == events.len();
    }
}

proof fn lemma_keep_len<T>(s: Seq<T>, f: spec_fn(T) -> bool)
    ensures
        keep(s, f).len() <= s.len(),
    decreases s.len(),
{
    if s.len() > 0 {
        lemma_keep_len(s.drop_last(), f);
    }
}

/// What an invocation of script `k` yields before its hook is run, given the
/// contexts `ctx`: the script has no context, or its context is not ready.
pub open spec fn refused(ctx: Seq<ContextEntry>, k: ScriptKey, o: Result<(), ScriptError>) -> bool {
    &&& !has_context(ctx, k) ==> o == Err::<(), ScriptError>(ScriptError::ScriptNotFound { script: k.1 })
    &&& forall|j: int| is_first(ctx, k, j) && ctx[j].state != ContextState::Ready
        ==> o == Err::<(), ScriptError>(ScriptError::NotReady { script: k.1 })
}

/// Runs every invocation of `events` over `scripts`, in order, through `host`. A
/// script whose context is not ready, or whose hook fails, yields one error event and
/// handling goes on with the next invocation. Each context is back in the state it
/// had once its hook has returned.
pub fn handle_events<A, H: ScriptHost<A>>(
    contexts: &mut ScriptContexts,
    host: &mut H,
    events: &Vec<Queued<ScriptEvent<A>>>,
    scripts: &Vec<ScriptKey>,
) -> (r: Vec<ScriptErrorEvent>)
    ensures
        final(contexts).contexts@ == old(contexts).contexts@,
        final(contexts).started == old(contexts).started,
        exists|o: Seq<Result<(), ScriptError>>| {
            &&& o.len() == invocation_plan(events@, scripts@).len()
            &&& r@.map_values(|x: ScriptErrorEvent| x.err) == failures(o)
            &&& forall|i: int| 0 <= i < o.len() ==> refused(
                old(contexts).contexts@,
                (invocation_plan(events@, scripts@)[i].entity, invocation_plan(events@, scripts@)[i].script),
                #[trigger] o[i],
            )
        },
{
    let plan = plan_invocations(events, scripts);
    let n_events: usize = events.len();
    proof {
        assert(events@.len() == n_events);
        lemma_plan_events(events@, scripts@);
    }
    let ghost c0 = contexts.contexts@;
    let mut outcomes: Vec<Result<(), ScriptError>> = Vec::new();
    let mut n: usize = 0;
    while n < plan.len()
        invariant
            n <= plan@.len(),
            plan@ == invocation_plan(events@, scripts@),
            forall|i: int| 0 <= i < plan@.len() ==> (#[trigger] plan@[i]).event < events@.len(),
            contexts.contexts@ == c0,
            contexts.started == old(contexts).started,
            c0 == old(contexts).contexts@,
            outcomes@.len() == n,
            forall|i: int| 0 <= i < n ==> refused(c0, (plan@[i].entity, plan@[i].script), #[trigger] outcomes@[i]),
        decreases plan@.len() - n,
    {
        let inv = plan[n];
        assert(plan@[n as int].event < events@.len());
        let k: ScriptKey = (inv.entity, inv.script);
        let found = contexts.find(k);
        match contexts.apply_event(k, ContextEvent::BeginCall) {
            Err(e) => {
                outcomes.push(Err(e));
            },
            Ok(_) => {
                let i = found.unwrap();
                proof {
                    assert forall|j: int| is_first(c0, k, j) implies j == i as int by {
                        if j < i as int {
                            assert(key_of(c0[j]) != k);
                        } else if j > i as int {
                            assert(key_of(c0[i as int]) != k);
                        }
                    }
                }
                let ev = &events[inv.event].event;
                let out = host.invoke(k.0, k.1, &ev.hook_name, &ev.args);
                let ghost mid = contexts.contexts@;
                proof {
                    assert(c0[i as int].state == ContextState::Ready);
                    assert forall|j: int| 0 <= j < i implies key_of(#[trigger] mid[j]) != k by {
                        assert(mid[j] == c0[j]);
                    }
                    assert(is_first(mid, k, i as int));
                }
                let _ = contexts.apply_event(k, ContextEvent::EndCall);
                assert(contexts.contexts@ =~= c0);
                outcomes.push(out);
            },
        }
        n = n + 1;
    }
    let ghost o = outcomes@;
    let r = collect_errors(outcomes);
    assert(o.len() == invocation_plan(events@, scripts@).len());
    r
}

pub open spec fn unclaimed_error(priority: u32) -> ScriptError {
    ScriptError::UnclaimedPriority { priority }
}

/// One configuration error event for each event whose priority no stage claims, in order.
pub fn report_unclaimed<A>(lost: &Vec<Queued<ScriptEvent<A>>>) -> (r: Vec<ScriptErrorEvent>)
    ensures
        r@.len() == lost@.len(),
        forall|i: int| 0 <= i < r@.len() ==> (#[trigger] r@[i]).err == (ScriptError::UnclaimedPriority { priority: lost@[i].priority }),
{
    let mut r: Vec<ScriptErrorEvent> = Vec::new();
    let mut i: usize = 0;
    while i < lost.len()
        invariant
            i <= lost@.len(),
            r@.len() == i,
            forall|j: int| 0 <= j < i ==> (#[trigger] r@[j]).err == (ScriptError::UnclaimedPriority { priority: lost@[j].priority }),
        decreases lost@.len() - i,
    {
        r.push(ScriptErrorEvent { err: ScriptError::UnclaimedPriority { priority: lost[i].priority } });
        i = i + 1;
    }
    r
}

/// One handler stage with band `[min, max]`: takes the stage's events from the queue
/// and handles them by ascending priority; events that no band of `ranges` claims
/// are reported first, one configuration error each, and handed to no host; events
/// of other bands stay queued.
pub fn run_stage<A, H: ScriptHost<A>>(
    queue: &mut PriorityEventQueue<ScriptEvent<A>>,
    min: u32,
    max: u32,
    ranges: &Vec<(u32, u32)>,
    contexts: &mut ScriptContexts,
    host: &mut H,
    scripts: &Vec<ScriptKey>,
) -> (r: Vec<ScriptErrorEvent>)
    ensures
        final(queue).events@ == select(old(queue).events@, waiting(min as int, max as int, ranges@)),
        final(contexts).contexts@ == old(contexts).contexts@,
        final(contexts).started == old(contexts).started,
        exists|o: Seq<Result<(), ScriptError>>| {
            let plan = invocation_plan(ordered(old(queue).events@, min as int, max as int), scripts@);
            let lost = select(old(queue).events@, unclaimed(min as int, max as int, ranges@));
            &&& o.len() == plan.len()
            &&& r@.map_values(|x: ScriptErrorEvent| x.err)
                == lost.map_values(|q: Queued<ScriptEvent<A>>| unclaimed_error(q.priority)) + #[trigger] failures(o)
            &&& forall|i: int| 0 <= i < o.len()
                ==> refused(old(contexts).contexts@, (plan[i].entity, plan[i].script), #[trigger] o[i])
        },
{
    let StageEvents { delivered, unclaimed: lost } = queue.drain_stage(min, max, ranges);
    let mut r = report_unclaimed(&lost);
    let ghost head = r@;
    let mut handled = handle_events(contexts, host, &delivered, scripts);
    let ghost tail = handled@;
    r.append(&mut handled);
    proof {
        let plan = invocation_plan(ordered(old(queue).events@, min as int, max as int), scripts@);
        let o = choose|o: Seq<Result<(), ScriptError>>| {
            &&& o.len() == plan.len()
            &&& tail.map_values(|x: ScriptErrorEvent| x.err) == failures(o)
            &&& forall|i: int| 0 <= i < o.len() ==> refused(old(contexts).contexts@, (plan[i].entity, plan[i].script), #[trigger] o[i])
        };
        assert(head.map_values(|x: ScriptErrorEvent| x.err) =~= lost@.map_values(|q: Queued<ScriptEvent<A>>| unclaimed_error(q.priority)));
        assert(r@.map_values(|x: ScriptErrorEvent| x.err) =~= head.map_values(|x: ScriptErrorEvent| x.err) + tail.map_values(|x: ScriptErrorEvent| x.err));
    }
    r
}

} // verus!
