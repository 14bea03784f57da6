use vstd::prelude::*;

verus! {

/// An event waiting in the queue, with the priority it was sent at.
pub struct Queued<E> {
    pub priority: u32,
    pub event: E,
}

/// The entries of `q` whose priority satisfies `f`, in queue order.
pub open spec fn select<E>(q: Seq<Queued<E>>, f: spec_fn(u32) -> bool) -> Seq<Queued<E>>
    decreases q.len(),
{
    if q.len() == 0 {
        q
    } else {
        let r = select(q.drop_last(), f);
        if f(q.last().priority) {
            r.push(q.last())
        } else {
            r
        }
    }
}

/// Priorities in the inclusive band `[lo, hi]`.
pub open spec fn in_band(lo: int, hi: int) -> spec_fn(u32) -> bool {
    |p: u32| lo <= p && p <= hi
}

/// Priorities outside the inclusive band `[lo, hi]`.
pub open spec fn out_band(lo: int, hi: int) -> spec_fn(u32) -> bool {
    |p: u32| !(lo <= p && p <= hi)
}

/// Priorities that some configured band claims.
pub open spec fn claimed_by(ranges: Seq<(u32, u32)>) -> spec_fn(u32) -> bool {
    |p: u32| exists|i: int| 0 <= i < ranges.len() && ranges[i].0 <= p && p <= ranges[i].1
}

/// Priorities outside `[lo, hi]` that another configured band claims: they wait for it.
pub open spec fn waiting(lo: int, hi: int, ranges: Seq<(u32, u32)>) -> spec_fn(u32) -> bool {
    |p: u32| !(lo <= p && p <= hi) && claimed_by(ranges)(p)
}

/// Priorities outside `[lo, hi]` that no configured band claims: a configuration error.
pub open spec fn unclaimed(lo: int, hi: int, ranges: Seq<(u32, u32)>) -> spec_fn(u32) -> bool {
    |p: u32| !(lo <= p && p <= hi) && !claimed_by(ranges)(p)
}

/// The entries of `q` with priority in `[lo, hi]`, by ascending priority, and in
/// queue order among equal priorities.
pub open spec fn ordered<E>(q: Seq<Queued<E>>, lo: int, hi: int) -> Seq<Queued<E>>
    decreases hi - lo + 1,
{
    if lo > hi {
        Seq::empty()
    } else {
        select(q, in_band(lo, lo)) + ordered(q, lo + 1, hi)
    }
}

proof fn lemma_select_all<E>(q: Seq<Queued<E>>, f: spec_fn(u32) -> bool)
    ensures
        forall|j: int| 0 <= j < select(q, f).len() ==> f(#[trigger] select(q, f)[j].priority),
        select(q, f).len() <= q.len(),
    decreases q.len(),
{
    if q.len() > 0 {
        lemma_select_all(q.drop_last(), f);
        let r0 = select(q.drop_last(), f);
        let r = select(q, f);
        assert forall|j: int| 0 <= j < r.len() implies f(#[trigger] r[j].priority) by {
            if j < r0.len() {
                assert(r[j] == r0[j]);
            }
        }
    }
}

/// What holds of every selected entry holds of every entry that the selection keeps.
proof fn lemma_select_bound<E>(q: Seq<Queued<E>>, f: spec_fn(u32) -> bool, g: spec_fn(u32) -> bool)
    requires
        forall|j: int| 0 <= j < select(q, f).len() ==> g(#[trigger] select(q, f)[j].priority),
    ensures
        forall|i: int| 0 <= i < q.len() && f(#[trigger] q[i].priority) ==> g(q[i].priority),
    decreases q.len(),
{
    if q.len() > 0 {
        let q0 = q.drop_last();
        let r0 = select(q0, f);
        let r = select(q, f);
        assert forall|j: int| 0 <= j < r0.len() implies g(#[trigger] r0[j].priority) by {
            assert(r[j] == r0[j]);
        }
        lemma_select_bound(q0, f, g);
        assert forall|i: int| 0 <= i < q.len() && f(#[trigger] q[i].priority) implies g(q[i].priority) by {
            if i < q0.len() {
                assert(q0[i] == q[i]);
            } else {
                assert(r[r.len() - 1] == q[i]);
            }
        }
    }
}

proof fn lemma_select_ext<E>(q: Seq<Queued<E>>, f: spec_fn(u32) -> bool, g: spec_fn(u32) -> bool)
    requires
        forall|i: int| 0 <= i < q.len() ==> f(#[trigger] q[i].priority) == g(q[i].priority),
    ensures
        select(q, f) == select(q, g),
    decreases q.len(),
{
    if q.len() > 0 {
        let q0 = q.drop_last();
        assert forall|i: int| 0 <= i < q0.len() implies f(#[trigger] q0[i].priority) == g(q0[i].priority) by {
            assert(q0[i] == q[i]);
        }
        lemma_select_ext(q0, f, g);
    }
}

proof fn lemma_select_compose<E>(q: Seq<Queued<E>>, f: spec_fn(u32) -> bool, g: spec_fn(u32) -> bool, h: spec_fn(u32) -> bool)
    requires
        forall|i: int| 0 <= i < q.len() ==> #[trigger] h(q[i].priority) == (f(q[i].priority) && g(q[i].priority)),
    ensures
        select(select(q, f), g) == select(q, h),
    decreases q.len(),
{
    if q.len() > 0 {
        let q0 = q.drop_last();
        assert forall|i: int| 0 <= i < q0.len() implies #[trigger] h(q0[i].priority) == (f(q0[i].priority) && g(q0[i].priority)) by {
            assert(q0[i] == q[i]);
        }
        lemma_select_compose(q0, f, g, h);
        let r0 = select(q.drop_last(), f);
        if f(q.last().priority) {
            assert(r0.push(q.last()).drop_last() =~= r0);
        }
    }
}

proof fn lemma_select_none<E>(q: Seq<Queued<E>>, f: spec_fn(u32) -> bool)
    requires
        forall|i: int| 0 <= i < q.len() ==> !f(#[trigger] q[i].priority),
    ensures
        select(q, f) == Seq::<Queued<E>>::empty(),
    decreases q.len(),
{
    if q.len() > 0 {
        let q0 = q.drop_last();
        assert forall|i: int| 0 <= i < q0.len() implies !f(#[trigger] q0[i].priority) by {
            assert(q0[i] == q[i]);
        }
        lemma_select_none(q0, f);
    }
}

/// Bands in which no entry lies contribute nothing to the order.
proof fn lemma_ordered_skip<E>(q: Seq<Queued<E>>, a: int, b: int, hi: int)
    requires
        a <= b <= hi + 1,
        forall|i: int| 0 <= i < q.len() ==> !(a <= #[trigger] q[i].priority && q[i].priority < b),
    ensures
        ordered(q, a, hi) == ordered(q, b, hi),
    decreases b - a,
{
    if a < b {
        assert forall|i: int| 0 <= i < q.len() implies !in_band(a, a)(#[trigger] q[i].priority) by {}
        lemma_select_none(q, in_band(a, a));
        lemma_ordered_skip(q, a + 1, b, hi);
        assert(ordered(q, a, hi) =~= ordered(q, a + 1, hi));
    }
}

/// A stage receives the events of its band, each in the band, by non-decreasing
/// priority; among equal priorities they keep the order in which they were sent.
pub proof fn lemma_stage_order<E>(q: Seq<Queued<E>>, lo: int, hi: int)
    ensures
        forall|i: int| 0 <= i < ordered(q, lo, hi).len() ==> lo <= #[trigger] ordered(q, lo, hi)[i].priority <= hi,
        forall|i: int, j: int| 0 <= i < j < ordered(q, lo, hi).len()
            ==> #[trigger] ordered(q, lo, hi)[i].priority <= #[trigger] ordered(q, lo, hi)[j].priority,
        forall|p: int| lo <= p <= hi ==> select(ordered(q, lo, hi), in_band(p, p)) == select(q, in_band(p, p)),
    decreases hi - lo + 1,
{
    if lo <= hi {
        lemma_stage_order(q, lo + 1, hi);
        let b = select(q, in_band(lo, lo));
        let r = ordered(q, lo + 1, hi);
        let o = ordered(q, lo, hi);
        lemma_select_all(q, in_band(lo, lo));
        assert(o == b + r);
        assert forall|i: int| 0 <= i < o.len() implies lo <= #[trigger] o[i].priority <= hi by {
            if i < b.len() {
                assert(o[i] == b[i]);
            } else {
                assert(o[i] == r[i - b.len()]);
            }
        }
        assert forall|i: int, j: int| 0 <= i < j < o.len() implies #[trigger] o[i].priority <= #[trigger] o[j].priority by {
            if j < b.len() {
                assert(o[i] == b[i] && o[j] == b[j]);
            } else if i < b.len() {
                assert(o[i] == b[i] && o[j] == r[j - b.len()]);
            } else {
                assert(o[i] == r[i - b.len()] && o[j] == r[j - b.len()]);
            }
        }
        assert forall|p: int| lo <= p <= hi implies select(o, in_band(p, p)) == select(q, in_band(p, p)) by {
            lemma_select_append(b, r, in_band(p, p));
            if p == lo {
                lemma_select_ext(b, in_band(p, p), |x: u32| true);
                lemma_select_true(b);
                assert forall|i: int| 0 <= i < r.len() implies !in_band(p, p)(#[trigger] r[i].priority) by {}
                lemma_select_none(r, in_band(p, p));
                assert(select(r, in_band(p, p)) + Seq::<Queued<E>>::empty() =~= select(r, in_band(p, p)));
                assert(b + Seq::<Queued<E>>::empty() =~= b);
            } else {
                assert forall|i: int| 0 <= i < b.len() implies !in_band(p, p)(#[trigger] b[i].priority) by {}
                lemma_select_none(b, in_band(p, p));
                assert(Seq::<Queued<E>>::empty() + select(r, in_band(p, p)) =~= select(r, in_band(p, p)));
            }
        }
    }
}

proof fn lemma_select_true<E>(q: Seq<Queued<E>>)
    ensures
        select(q, |x: u32| true) == q,
    decreases q.len(),
{
    if q.len() > 0 {
        lemma_select_true(q.drop_last());
        assert(q.drop_last().push(q.last()) =~= q);
    }
}

proof fn lemma_select_append<E>(a: Seq<Queued<E>>, b: Seq<Queued<E>>, f: spec_fn(u32) -> bool)
    ensures
        select(a + b, f) == select(a, f) + select(b, f),
    decreases b.len(),
{
    if b.len() == 0 {
        assert(a + b =~= a);
        assert(select(a, f) + select(b, f) =~= select(a, f));
    } else {
        lemma_select_append(a, b.drop_last(), f);
        assert((a + b).drop_last() =~= a + b.drop_last());
        assert((a + b).last() == b.last());
        let sa = select(a, f);
        let sb0 = select(b.drop_last(), f);
        assert((sa + sb0).push(b.last()) =~= sa + sb0.push(b.last()));
    }
}

/// Returns `v` in reverse order.
fn into_reversed<T>(v: Vec<T>) -> (r: Vec<T>)
    ensures
        r@.len() == v@.len(),
        forall|j: int| 0 <= j < r@.len() ==> #[trigger] r@[j] == v@[v@.len() - 1 - j],
{
    let mut v = v;
    let ghost v0 = v@;
    let mut r: Vec<T> = Vec::new();
    while v.len() > 0
        invariant
            v@ == v0.take(v0.len() - r@.len()),
            r@.len() <= v0.len(),
            forall|j: int| 0 <= j < r@.len() ==> #[trigger] r@[j] == v0[v0.len() - 1 - j],
        decreases v@.len(),
    {
        let x = v.pop().unwrap();
        r.push(x);
    }
    r
}

/// Splits `v` into the entries with priority in `[lo, hi]` and the others, both in
/// queue order.
fn split_band<E>(v: Vec<Queued<E>>, lo: u32, hi: u32) -> (r: (Vec<Queued<E>>, Vec<Queued<E>>))
    ensures
        r.0@ == select(v@, in_band(lo as int, hi as int)),
        r.1@ == select(v@, out_band(lo as int, hi as int)),
{
    let ghost v0 = v@;
    let n = v.len();
    let mut rev = into_reversed(v);
    let mut inside: Vec<Queued<E>> = Vec::new();
    let mut outside: Vec<Queued<E>> = Vec::new();
    while rev.len() > 0
        invariant
            n == v0.len(),
            rev@.len() <= n,
            forall|j: int| 0 <= j < rev@.len() ==> #[trigger] rev@[j] == v0[n - 1 - j],
            inside@ == select(v0.take(n - rev@.len()), in_band(lo as int, hi as int)),
            outside@ == select(v0.take(n - rev@.len()), out_band(lo as int, hi as int)),
        decreases rev@.len(),
    {
        let ghost k = n - rev@.len();
        assert(v0.take(k + 1).drop_last() =~= v0.take(k));
        let x = rev.pop().unwrap();
        assert(x == v0[k]);
        if lo <= x.priority && x.priority <= hi {
            inside.push(x);
        } else {
            outside.push(x);
        }
    }
    assert(v0.take(n as int) =~= v0);
    (inside, outside)
}

/// Whether some band of `ranges` holds `p`.
pub fn is_claimed(ranges: &Vec<(u32, u32)>, p: u32) -> (r: bool)
    ensures
        r == claimed_by(ranges@)(p),
{
    let mut i: usize = 0;
    while i < ranges.len()
        invariant
            i <= ranges@.len(),
            forall|k: int| 0 <= k < i ==> !(ranges@[k].0 <= p && p <= ranges@[k].1),
        decreases ranges@.len() - i,
    {
        if ranges[i].0 <= p && p <= ranges[i].1 {
            return true;
        }
        i = i + 1;
    }
    false
}

/// Splits `v` into the entries that some band of `ranges` claims and the others,
/// both in queue order.
fn split_claimed<E>(v: Vec<Queued<E>>, ranges: &Vec<(u32, u32)>) -> (r: (Vec<Queued<E>>, Vec<Queued<E>>))
    ensures
        r.0@ == select(v@, claimed_by(ranges@)),
        r.1@ == select(v@, |p: u32| !claimed_by(ranges@)(p)),
{
    let ghost v0 = v@;
    let n = v.len();
    let mut rev = into_reversed(v);
    let mut yes: Vec<Queued<E>> = Vec::new();
    let mut no: Vec<Queued<E>> = Vec::new();
    while rev.len() > 0
        invariant
            n == v0.len(),
            rev@.len() <= n,
            forall|j: int| 0 <= j < rev@.len() ==> #[trigger] rev@[j] == v0[n - 1 - j],
            yes@ == select(v0.take(n - rev@.len()), claimed_by(ranges@)),
            no@ == select(v0.take(n - rev@.len()), |p: u32| !claimed_by(ranges@)(p)),
        decreases rev@.len(),
    {
        let ghost k = n - rev@.len();
        assert(v0.take(k + 1).drop_last() =~= v0.take(k));
        let x = rev.pop().unwrap();
        assert(x == v0[k]);
        if is_claimed(ranges, x.priority) {
            yes.push(x);
        } else {
            no.push(x);
        }
    }
    assert(v0.take(n as int) =~= v0);
    (yes, no)
}

/// Orders the entries of `v` with priority in `[lo, hi]` by ascending priority,
/// stable among equal priorities; also returns the entries outside the band, in
/// queue order.
fn sort_band<E>(v: Vec<Queued<E>>, lo: u32, hi: u32) -> (r: (Vec<Queued<E>>, Vec<Queued<E>>))
    ensures
        r.0@ == ordered(v@, lo as int, hi as int),
        r.1@ == select(v@, out_band(lo as int, hi as int)),
{
    let ghost v0 = v@;
    let (mut rest, outside) = split_band(v, lo, hi);
    let mut out: Vec<Queued<E>> = Vec::new();
    let ghost mut cur: int = lo as int;
    proof {
        if lo > hi {
            lemma_select_none(v0, in_band(lo as int, hi as int));
            lemma_select_none(v0, in_band(hi as int + 1, hi as int));
            cur = hi as int + 1;
        }
    }
    while rest.len() > 0
        invariant
            lo <= cur <= hi + 1 || (lo > hi && cur == hi + 1),
            out@ + ordered(v0, cur, hi as int) == ordered(v0, lo as int, hi as int),
            rest@ == select(v0, in_band(cur, hi as int)),
        decreases hi + 1 - cur,
    {
        let mut m: u32 = rest[0].priority;
        let mut i: usize = 1;
        while i < rest.len()
            invariant
                1 <= i <= rest@.len(),
                exists|k: int| 0 <= k < i && rest@[k].priority == m,
                forall|k: int| 0 <= k < i ==> m <= #[trigger] rest@[k].priority,
            decreases rest@.len() - i,
        {
            if rest[i].priority < m {
                m = rest[i].priority;
            }
            i = i + 1;
        }
        proof {
            lemma_select_all(v0, in_band(cur, hi as int));
            let k = choose|k: int| 0 <= k < rest@.len() && rest@[k].priority == m;
            assert(in_band(cur, hi as int)(rest@[k].priority));
            // no entry of the queue lies in [cur, m)
            let g = |p: u32| m <= p;
            assert forall|j: int| 0 <= j < rest@.len() implies g(#[trigger] rest@[j].priority) by {}
            lemma_select_bound(v0, in_band(cur, hi as int), g);
            assert forall|j: int| 0 <= j < v0.len() implies !(cur <= #[trigger] v0[j].priority && v0[j].priority < m) by {
                if cur <= v0[j].priority && v0[j].priority < m {
                    assert(in_band(cur, hi as int)(v0[j].priority));
                }
            }
            lemma_ordered_skip(v0, cur, m as int, hi as int);
            lemma_select_compose(v0, in_band(cur, hi as int), in_band(m as int, m as int), in_band(m as int, m as int));
            lemma_select_compose(v0, in_band(cur, hi as int), out_band(m as int, m as int), in_band(m as int + 1, hi as int));
        }
        let (bucket, others) = split_band(rest, m, m);
        let mut bucket = bucket;
        out.append(&mut bucket);
        rest = others;
        proof {
            cur = m as int + 1;
        }
        assert(out@ + ordered(v0, cur, hi as int) =~= ordered(v0, lo as int, hi as int));
    }
    proof {
        lemma_select_bound(v0, in_band(cur, hi as int), |p: u32| false);
        assert forall|j: int| 0 <= j < v0.len() implies !(cur <= #[trigger] v0[j].priority && v0[j].priority < hi + 1) by {
            if cur <= v0[j].priority && v0[j].priority < hi + 1 {
                assert(in_band(cur, hi as int)(v0[j].priority));
            }
        }
        if cur <= hi + 1 {
            lemma_ordered_skip(v0, cur, hi + 1, hi as int);
        }
        assert(out@ =~= ordered(v0, lo as int, hi as int));
    }
    (out, outside)
}

/// Events sent during a frame, in the order they were sent, each with its priority.
pub struct PriorityEventQueue<E> {
    pub events: Vec<Queued<E>>,
}

/// What one handler stage takes from the queue.
pub struct StageEvents<E> {
    /// The events of the stage's band, to be handled in this order.
    pub delivered: Vec<Queued<E>>,
    /// Events whose priority no configured band claims: a configuration error.
    pub unclaimed: Vec<Queued<E>>,
}

impl<E> PriorityEventQueue<E> {
    pub fn new() -> (r: Self)
        ensures
            r.events@ == Seq::<Queued<E>>::empty(),
    {
        PriorityEventQueue { events: Vec::new() }
    }

    /// Enqueues `event` at `priority`, behind everything sent before it.
    pub fn send(&mut self, event: E, priority: u32)
        ensures
            final(self).events@ == old(self).events@.push(Queued { priority, event }),
    {
        self.events.push(Queued { priority, event });
    }

    pub fn len(&self) -> (r: usize)
        ensures
            r == self.events@.len(),
    {
        self.events.len()
    }

    /// Takes out what the stage with band `[min, max]` handles, by ascending priority
    /// and in sending order among equal priorities, and what no band of `ranges`
    /// claims; events that another band claims stay queued, in order.
    pub fn drain_stage(&mut self, min: u32, max: u32, ranges: &Vec<(u32, u32)>) -> (r: StageEvents<E>)
        ensures
            r.delivered@ == ordered(old(self).events@, min as int, max as int),
            r.unclaimed@ == select(old(self).events@, unclaimed(min as int, max as int, ranges@)),
            final(self).events@ == select(old(self).events@, waiting(min as int, max as int, ranges@)),
    {
        let ghost q = self.events@;
        let mut taken: Vec<Queued<E>> = Vec::new();
        core::mem::swap(&mut self.events, &mut taken);
        let (delivered, outside) = sort_band(taken, min, max);
        let (kept, lost) = split_claimed(outside, ranges);
        proof {
            lemma_select_compose(q, out_band(min as int, max as int), claimed_by(ranges@), waiting(min as int, max as int, ranges@));
            lemma_select_compose(q, out_band(min as int, max as int), |p: u32| !claimed_by(ranges@)(p), unclaimed(min as int, max as int, ranges@));
        }
        self.events = kept;
        StageEvents { delivered, unclaimed: lost }
    }
}

} // verus!
