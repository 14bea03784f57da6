use vstd::prelude::*;
use crate::context::{ContextEvent, ContextState, next_state};
use crate::error::{ScriptError, ScriptErrorEvent};

verus! {

/// Identifies one attached script: the entity it is attached to and its identifier.
pub type ScriptKey = (u64, u64);

/// A live context of the host: which script it runs, and in what state.
#[derive(PartialEq, Eq, Structural, Clone, Copy, Debug)]
pub struct ContextEntry {
    pub entity: u64,
    pub script: u64,
    pub state: ContextState,
}

/// The entries of `s` that satisfy `f`, in order.
pub open spec fn keep<T>(s: Seq<T>, f: spec_fn(T) -> bool) -> Seq<T>
    decreases s.len(),
{
    if s.len() == 0 {
        s
    } else {
        let r = keep(s.drop_last(), f);
        if f(s.last()) {
            r.push(s.last())
        } else {
            r
        }
    }
}

pub(crate) proof fn lemma_keep<T>(s: Seq<T>, f: spec_fn(T) -> bool)
    ensures
        forall|i: int| 0 <= i < keep(s, f).len() ==> f(#[trigger] keep(s, f)[i]),
        forall|i: int| 0 <= i < keep(s, f).len() ==> s.contains(#[trigger] keep(s, f)[i]),
        forall|i: int| 0 <= i < s.len() && f(#[trigger] s[i]) ==> keep(s, f).contains(s[i]),
    decreases s.len(),
{
    if s.len() > 0 {
        let s0 = s.drop_last();
        lemma_keep(s0, f);
        let r0 = keep(s0, f);
        let r = keep(s, f);
        assert forall|i: int| 0 <= i < r.len() implies f(#[trigger] r[i]) && s.contains(r[i]) by {
            if i < r0.len() {
                assert(r[i] == r0[i]);
                let j = choose|j: int| 0 <= j < s0.len() && s0[j] == r0[i];
                assert(s[j] == r[i]);
            } else {
                assert(s[s.len() - 1] == r[i]);
            }
        }
        assert forall|i: int| 0 <= i < s.len() && f(#[trigger] s[i]) implies r.contains(s[i]) by {
            if i < s0.len() {
                assert(s0[i] == s[i]);
                let j = choose|j: int| 0 <= j < r0.len() && r0[j] == s0[i];
                assert(r[j] == r0[j]);
            } else {
                assert(r[r.len() - 1] == s[i]);
            }
        }
    }
}

proof fn lemma_keep_none<T>(s: Seq<T>, f: spec_fn(T) -> bool)
    requires
        forall|i: int| 0 <= i < s.len() ==> !f(#[trigger] s[i]),
    ensures
        keep(s, f) == Seq::<T>::empty(),
    decreases s.len(),
{
    if s.len() > 0 {
        let s0 = s.drop_last();
        assert forall|i: int| 0 <= i < s0.len() implies !f(#[trigger] s0[i]) by {
            assert(s0[i] == s[i]);
        }
        lemma_keep_none(s0, f);
    }
}

pub open spec fn key_of(e: ContextEntry) -> ScriptKey {
    (e.entity, e.script)
}

pub open spec fn has_context(ctx: Seq<ContextEntry>, k: ScriptKey) -> bool {
    exists|i: int| 0 <= i < ctx.len() && key_of(ctx[i]) == k
}

/// Contexts whose script is still attached.
pub open spec fn still_attached(att: Seq<ScriptKey>) -> spec_fn(ContextEntry) -> bool {
    |e: ContextEntry| att.contains(key_of(e))
}

/// Contexts whose script was detached.
pub open spec fn detached(att: Seq<ScriptKey>) -> spec_fn(ContextEntry) -> bool {
    |e: ContextEntry| !att.contains(key_of(e))
}

/// Attached scripts that have no context yet.
pub open spec fn without_context(ctx: Seq<ContextEntry>) -> spec_fn(ScriptKey) -> bool {
    |k: ScriptKey| !has_context(ctx, k)
}

pub open spec fn fresh_context(k: ScriptKey) -> ContextEntry {
    ContextEntry { entity: k.0, script: k.1, state: ContextState::Uninitialized }
}

/// The contexts after a sync pass: those whose script stays, then one new context
/// for each newly attached script, in attachment order.
pub open spec fn synced(ctx: Seq<ContextEntry>, att: Seq<ScriptKey>) -> Seq<ContextEntry> {
    keep(ctx, still_attached(att)) + keep(att, without_context(ctx)).map_values(|k: ScriptKey| fresh_context(k))
}

/// Calling sync twice with no attach or detach in between creates and tears down
/// nothing the second time.
pub proof fn lemma_sync_idempotent(ctx: Seq<ContextEntry>, att: Seq<ScriptKey>)
    ensures
        keep(att, without_context(synced(ctx, att))) == Seq::<ScriptKey>::empty(),
        keep(synced(ctx, att), detached(att)) == Seq::<ContextEntry>::empty(),
        synced(synced(ctx, att), att) == synced(ctx, att),
{
    let s = synced(ctx, att);
    let kept = keep(ctx, still_attached(att));
    let missing = keep(att, without_context(ctx));
    let fresh = missing.map_values(|k: ScriptKey| fresh_context(k));
    lemma_keep(ctx, still_attached(att));
    lemma_keep(att, without_context(ctx));
    assert forall|i: int| 0 <= i < s.len() implies !detached(att)(#[trigger] s[i]) by {
        if i < kept.len() {
            assert(s[i] == kept[i]);
            assert(still_attached(att)(kept[i]));
        } else {
            assert(s[i] == fresh[i - kept.len()]);
            assert(att.contains(missing[i - kept.len()]));
            assert(key_of(s[i]) == missing[i - kept.len()]);
        }
    }
    lemma_keep_none(s, detached(att));
    assert forall|i: int| 0 <= i < att.len() implies !without_context(s)(#[trigger] att[i]) by {
        if has_context(ctx, att[i]) {
            let j = choose|j: int| 0 <= j < ctx.len() && key_of(ctx[j]) == att[i];
            assert(still_attached(att)(ctx[j]));
            let k = choose|k: int| 0 <= k < kept.len() && kept[k] == ctx[j];
            assert(s[k] == kept[k]);
        } else {
            assert(without_context(ctx)(att[i]));
            let k = choose|k: int| 0 <= k < missing.len() && missing[k] == att[i];
            assert(s[kept.len() + k] == fresh[k]);
        }
    }
    lemma_keep_none(att, without_context(s));
    // the second pass keeps every context
    lemma_keep_all(s, still_attached(att));
    assert(keep(att, without_context(s)).map_values(|k: ScriptKey| fresh_context(k)) =~= Seq::<ContextEntry>::empty());
    assert(synced(s, att) =~= s);
}

proof fn lemma_keep_all<T>(s: Seq<T>, f: spec_fn(T) -> bool)
    requires
        forall|i: int| 0 <= i < s.len() ==> f(#[trigger] s[i]),
    ensures
        keep(s, f) == s,
    decreases s.len(),
{
    if s.len() > 0 {
        let s0 = s.drop_last();
        assert forall|i: int| 0 <= i < s0.len() implies f(#[trigger] s0[i]) by {
            assert(s0[i] == s[i]);
        }
        lemma_keep_all(s0, f);
        assert(s0.push(s.last()) =~= s);
    }
}

/// `i` is the first context of `ctx` that runs the script `k`.
pub open spec fn is_first(ctx: Seq<ContextEntry>, k: ScriptKey, i: int) -> bool {
    0 <= i < ctx.len() && key_of(ctx[i]) == k && forall|j: int| 0 <= j < i ==> key_of(#[trigger] ctx[j]) != k
}

pub open spec fn with_state(e: ContextEntry, s: ContextState) -> ContextEntry {
    ContextEntry { entity: e.entity, script: e.script, state: s }
}

/// The host's execution contexts, one for each attached script it has seen.
pub struct ScriptContexts {
    pub contexts: Vec<ContextEntry>,
    /// Whether every API provider attached successfully; no context is made before.
    pub started: bool,
}

/// What a sync pass did: scripts that got a new context, contexts that were dropped.
pub struct SyncPlan {
    pub created: Vec<ScriptKey>,
    pub torn_down: Vec<ContextEntry>,
}

fn contains_key(att: &Vec<ScriptKey>, k: ScriptKey) -> (r: bool)
    ensures
        r == att@.contains(k),
{
    let mut i: usize = 0;
    while i < att.len()
        invariant
            i <= att@.len(),
            forall|j: int| 0 <= j < i ==> att@[j] != k,
        decreases att@.len() - i,
    {
        if att[i].0 == k.0 && att[i].1 == k.1 {
            return true;
        }
        i = i + 1;
    }
    false
}

impl ScriptContexts {
    pub fn new() -> (r: Self)
        ensures
            r.contexts@ == Seq::<ContextEntry>::empty(),
            !r.started,
    {
        ScriptContexts { contexts: Vec::new(), started: false }
    }

    /// Records the outcome of attaching every API provider. Only success lets
    /// contexts be made; a failure is fatal and leaves the host unable to run scripts.
    pub fn start(&mut self, attached: &Result<(), ScriptError>)
        ensures
            final(self).started == (attached is Ok),
            final(self).contexts@ == old(self).contexts@,
    {
        self.started = attached.is_ok();
    }

    /// The first context that runs the script `k`, if any.
    pub fn find(&self, k: ScriptKey) -> (r: Option<usize>)
        ensures
            r is None <==> !has_context(self.contexts@, k),
            r matches Some(i) ==> is_first(self.contexts@, k, i as int),
    {
        let mut i: usize = 0;
        while i < self.contexts.len()
            invariant
                i <= self.contexts@.len(),
                forall|j: int| 0 <= j < i ==> key_of(#[trigger] self.contexts@[j]) != k,
            decreases self.contexts@.len() - i,
        {
            let c = self.contexts[i];
            if c.entity == k.0 && c.script == k.1 {
                return Some(i);
            }
            i = i + 1;
        }
        None
    }

    /// Brings the contexts in line with the attached scripts: contexts of detached
    /// scripts are dropped, and each newly attached script gets a context awaiting
    /// setup. Before a successful start nothing changes.
    pub fn sync_contexts(&mut self, attached: &Vec<ScriptKey>) -> (r: SyncPlan)
        ensures
            final(self).started == old(self).started,
            old(self).started ==> final(self).contexts@ == synced(old(self).contexts@, attached@),
            old(self).started ==> r.created@ == keep(attached@, without_context(old(self).contexts@)),
            old(self).started ==> r.torn_down@ == keep(old(self).contexts@, detached(attached@)),
            !old(self).started ==> final(self).contexts@ == old(self).contexts@,
            !old(self).started ==> r.created@.len() == 0 && r.torn_down@.len() == 0,
    {
        if !self.started {
            return SyncPlan { created: Vec::new(), torn_down: Vec::new() };
        }
        let ghost ctx = self.contexts@;
        let ghost att = attached@;
        let mut kept: Vec<ContextEntry> = Vec::new();
        let mut torn_down: Vec<ContextEntry> = Vec::new();
        let mut i: usize = 0;
        while i < self.contexts.len()
            invariant
                i <= ctx.len(),
                self.contexts@ == ctx,
                attached@ == att,
                kept@ == keep(ctx.take(i as int), still_attached(att)),
                torn_down@ == keep(ctx.take(i as int), detached(att)),
            decreases ctx.len() - i,
        {
            let c = self.contexts[i];
            assert(ctx.take(i as int + 1).drop_last() =~= ctx.take(i as int));
            assert(ctx.take(i as int + 1).last() == c);
            if contains_key(attached, (c.entity, c.script)) {
                kept.push(c);
            } else {
                torn_down.push(c);
            }
            i = i + 1;
        }
        assert(ctx.take(i as int) =~= ctx);
        let mut created: Vec<ScriptKey> = Vec::new();
        let mut j: usize = 0;
        while j < attached.len()
            invariant
                j <= att.len(),
                self.contexts@ == ctx,
                attached@ == att,
                kept@ == keep(ctx, still_attached(att)) + keep(att.take(j as int), without_context(ctx)).map_values(|k: ScriptKey| fresh_context(k)),
                created@ == keep(att.take(j as int), without_context(ctx)),
            decreases att.len() - j,
        {
            let k = attached[j];
            assert(att.take(j as int + 1).drop_last() =~= att.take(j as int));
            assert(att.take(j as int + 1).last() == k);
            let found = self.find(k);
            if found.is_none() {
                created.push(k);
                kept.push(ContextEntry { entity: k.0, script: k.1, state: ContextState::Uninitialized });
                assert(kept@ =~= keep(ctx, still_attached(att)) + keep(att.take(j as int + 1), without_context(ctx)).map_values(|k: ScriptKey| fresh_context(k)));
            } else {
                assert(keep(att.take(j as int + 1), without_context(ctx)) == keep(att.take(j as int), without_context(ctx)));
            }
            j = j + 1;
        }
        assert(att.take(j as int) =~= att);
        self.contexts = kept;
        SyncPlan { created, torn_down }
    }

    /// Applies `e` to the first context of the script `k`.
    pub fn apply_event(&mut self, k: ScriptKey, e: ContextEvent) -> (r: Result<ContextState, ScriptError>)
        ensures
            final(self).started == old(self).started,
            !has_context(old(self).contexts@, k) ==> r == Err::<ContextState, ScriptError>(ScriptError::ScriptNotFound { script: k.1 })
                && final(self).contexts@ == old(self).contexts@,
            forall|i: int| is_first(old(self).contexts@, k, i) ==> {
                let c = old(self).contexts@[i];
                match next_state(c.state, e) {
                    Some(s) => r == Ok::<ContextState, ScriptError>(s)
                        && final(self).contexts@ == old(self).contexts@.update(i, with_state(c, s)),
                    None => r == Err::<ContextState, ScriptError>(ScriptError::NotReady { script: k.1 })
                        && final(self).contexts@ == old(self).contexts@,
                }
            },
    {
        match self.find(k) {
            None => Err(ScriptError::ScriptNotFound { script: k.1 }),
            Some(i) => {
                let c = self.contexts[i];
                proof {
                    assert forall|i2: int| is_first(self.contexts@, k, i2) implies i2 == i as int by {
                        if i2 < i as int {
                            assert(key_of(self.contexts@[i2]) != k);
                        } else if i2 > i as int {
                            assert(key_of(self.contexts@[i as int]) != k);
                        }
                    }
                }
                match c.state.step(e) {
                    None => Err(ScriptError::NotReady { script: k.1 }),
                    Some(s) => {
                        self.contexts.set(i, ContextEntry { entity: c.entity, script: c.script, state: s });
                        Ok(s)
                    },
                }
            },
        }
    }
    /// Records the outcome of setting up the new context at `i`: it becomes ready on
    /// success; on failure it becomes failed, and the failure is one error event.
    pub fn record_setup(&mut self, i: usize, outcome: Result<(), ScriptError>) -> (r: Option<ScriptErrorEvent>)
        requires
            i < old(self).contexts@.len(),
            old(self).contexts@[i as int].state == ContextState::Uninitialized,
        ensures
            final(self).started == old(self).started,
            outcome is Ok ==> r is None
                && final(self).contexts@ == old(self).contexts@.update(i as int, with_state(old(self).contexts@[i as int], ContextState::Ready)),
            outcome is Err ==> r == Some(ScriptErrorEvent { err: outcome->Err_0 })
                && final(self).contexts@ == old(self).contexts@.update(i as int, with_state(old(self).contexts@[i as int], ContextState::Failed)),
    {
        let c = self.contexts[i];
        match outcome {
            Ok(()) => {
                self.contexts.set(i, ContextEntry { entity: c.entity, script: c.script, state: ContextState::Ready });
                None
            },
            Err(e) => {
                self.contexts.set(i, ContextEntry { entity: c.entity, script: c.script, state: ContextState::Failed });
                Some(ScriptErrorEvent { err: e })
            },
        }
    }
}

} // verus!
