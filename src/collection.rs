use vstd::prelude::*;

verus! {

/// One script attached to one entity.
pub struct Script {
    /// Source path or logical name.
    pub name: String,
    /// Identifier unique within the owning collection.
    pub id: u64,
    /// Opaque reference to the loaded source, owned by the asset loader.
    pub handle: u64,
}

/// The mathematical value of a script: name, identifier and source handle.
pub struct ScriptModel {
    pub name: Seq<char>,
    pub id: u64,
    pub handle: u64,
}

impl Script {
    pub open spec fn model(&self) -> ScriptModel {
        ScriptModel { name: self.name@, id: self.id, handle: self.handle }
    }
}

/// An operation on a collection: attach a source under a name, or detach a name.
pub enum CollectionOp {
    Attach { name: String, handle: u64 },
    Detach { name: String },
}

/// The scripts attached to one entity, in attachment order.
pub struct ScriptCollection {
    pub scripts: Vec<Script>,
    pub next_id: u64,
}

/// What an in-memory model keeps of a collection: names and source handles, in order.
pub open spec fn entries_of(s: Seq<ScriptModel>) -> Seq<(Seq<char>, u64)> {
    s.map_values(|m: ScriptModel| (m.name, m.handle))
}

/// Removes every entry that bears `name`, keeping the order of the others.
pub open spec fn without_name<T>(s: Seq<T>, key: spec_fn(T) -> Seq<char>, name: Seq<char>) -> Seq<T>
    decreases s.len(),
{
    if s.len() == 0 {
        s
    } else {
        let rest = without_name(s.drop_last(), key, name);
        if key(s.last()) == name {
            rest
        } else {
            rest.push(s.last())
        }
    }
}

pub open spec fn model_name() -> spec_fn((Seq<char>, u64)) -> Seq<char> {
    |e: (Seq<char>, u64)| e.0
}

pub open spec fn script_name() -> spec_fn(ScriptModel) -> Seq<char> {
    |m: ScriptModel| m.name
}

/// The in-memory model: appending attaches, removing by name detaches.
pub open spec fn model_step(m: Seq<(Seq<char>, u64)>, op: CollectionOp) -> Seq<(Seq<char>, u64)> {
    match op {
        CollectionOp::Attach { name, handle } => m.push((name@, handle)),
        CollectionOp::Detach { name } => without_name(m, model_name(), name@),
    }
}

pub open spec fn model_replay(m: Seq<(Seq<char>, u64)>, ops: Seq<CollectionOp>) -> Seq<(Seq<char>, u64)>
    decreases ops.len(),
{
    if ops.len() == 0 {
        m
    } else {
        model_step(model_replay(m, ops.drop_last()), ops.last())
    }
}

pub open spec fn contains_name(s: Seq<ScriptModel>, name: Seq<char>) -> bool {
    exists|i: int| 0 <= i < s.len() && s[i].name == name
}

proof fn lemma_without_name_len<T>(s: Seq<T>, key: spec_fn(T) -> Seq<char>, name: Seq<char>)
    ensures
        without_name(s, key, name).len() <= s.len(),
        (forall|i: int| 0 <= i < s.len() ==> key(s[i]) != name) ==> without_name(s, key, name) == s,
        (exists|i: int| 0 <= i < s.len() && key(s[i]) == name) ==> without_name(s, key, name).len() < s.len(),
        forall|i: int| 0 <= i < without_name(s, key, name).len() ==> key(#[trigger] without_name(s, key, name)[i]) != name,
    decreases s.len(),
{
    if s.len() > 0 {
        lemma_without_name_len(s.drop_last(), key, name);
        assert(s.drop_last().push(s.last()) =~= s);
        if exists|i: int| 0 <= i < s.len() && key(s[i]) == name {
            let i = choose|i: int| 0 <= i < s.len() && key(s[i]) == name;
            if i < s.len() - 1 {
                assert(key(s.drop_last()[i]) == name);
            }
        }
        let r = without_name(s, key, name);
        let r0 = without_name(s.drop_last(), key, name);
        assert forall|i: int| 0 <= i < r.len() implies key(#[trigger] r[i]) != name by {
            if i < r0.len() {
                assert(r[i] == r0[i]);
            }
        }
    }
}

proof fn lemma_without_name_map(s: Seq<ScriptModel>, name: Seq<char>)
    ensures
        entries_of(without_name(s, script_name(), name))
            == without_name(entries_of(s), model_name(), name),
    decreases s.len(),
{
    if s.len() > 0 {
        lemma_without_name_map(s.drop_last(), name);
        assert(entries_of(s.drop_last()) =~= entries_of(s).drop_last());
        let r = without_name(s.drop_last(), script_name(), name);
        assert(entries_of(r.push(s.last())) =~= entries_of(r).push((s.last().name, s.last().handle)));
    }
}

impl ScriptCollection {
    pub closed spec fn view(&self) -> Seq<ScriptModel> {
        self.scripts@.map_values(|s: Script| s.model())
    }

    /// Every identifier is below the next one to be given out.
    pub open spec fn wf(&self) -> bool {
        forall|i: int| 0 <= i < self@.len() ==> #[trigger] self@[i].id < self.next_id
    }

    /// No two scripts share an identifier.
    pub open spec fn ids_distinct(&self) -> bool {
        forall|i: int, j: int| 0 <= i < j < self@.len() ==> #[trigger] self@[i].id != #[trigger] self@[j].id
    }

    pub fn new() -> (r: ScriptCollection)
        ensures
            r@ == Seq::<ScriptModel>::empty(),
            r.wf(),
            r.ids_distinct(),
            r.next_id == 0,
    {
        let r = ScriptCollection { scripts: Vec::new(), next_id: 0 };
        assert(r@ =~= Seq::<ScriptModel>::empty());
        r
    }

    pub fn len(&self) -> (r: usize)
        ensures
            r == self@.len(),
    {
        self.scripts.len()
    }

    /// The script at `i` in attachment order.
    pub fn get(&self, i: usize) -> (r: &Script)
        requires
            i < self@.len(),
        ensures
            r.model() == self@[i as int],
    {
        &self.scripts[i]
    }

    /// Appends a script under `name`; returns its fresh identifier.
    pub fn attach(&mut self, name: String, handle: u64) -> (id: u64)
        requires
            old(self).next_id < u64::MAX,
        ensures
            final(self)@ == old(self)@.push(ScriptModel { name: name@, id: id, handle: handle }),
            id == old(self).next_id,
            old(self).wf() ==> forall|i: int| 0 <= i < old(self)@.len() ==> #[trigger] old(self)@[i].id != id,
            final(self).next_id == old(self).next_id + 1,
            old(self).wf() ==> final(self).wf(),
            old(self).wf() && old(self).ids_distinct() ==> final(self).ids_distinct(),
    {
        let id = self.next_id;
        self.scripts.push(Script { name, id, handle });
        self.next_id = id + 1;
        assert(self@ =~= old(self)@.push(ScriptModel { name: self.scripts@.last().name@, id: id, handle: handle }));
        id
    }

    /// Removes every script named `name`; returns whether any was removed.
    pub fn detach(&mut self, name: &String) -> (removed: bool)
        ensures
            final(self)@ == without_name(old(self)@, script_name(), name@),
            removed == contains_name(old(self)@, name@),
            final(self).next_id == old(self).next_id,
            old(self).wf() ==> final(self).wf(),
            old(self).ids_distinct() ==> final(self).ids_distinct(),
    {
        let ghost s0 = self@;
        let mut kept: Vec<Script> = Vec::new();
        let mut removed = false;
        let mut i: usize = 0;
        while i < self.scripts.len()
            invariant
                0 <= i <= self.scripts@.len(),
                s0 == self@,
                kept@.map_values(|s: Script| s.model()) == without_name(s0.take(i as int), script_name(), name@),
                removed == exists|k: int| 0 <= k < i && s0[k].name == name@,
            decreases self.scripts@.len() - i,
        {
            let s = &self.scripts[i];
            assert(s0.take(i as int + 1).drop_last() =~= s0.take(i as int));
            assert(s0[i as int] == s.model());
            assert(s0.take(i as int + 1).last() == s0[i as int]);
            assert(script_name()(s0[i as int]) == s.name@);
            let ghost prev = without_name(s0.take(i as int), script_name(), name@);
            if s.name == *name {
                removed = true;
                assert(without_name(s0.take(i as int + 1), script_name(), name@) == prev);
            } else {
                let c = Script { name: s.name.clone(), id: s.id, handle: s.handle };
                kept.push(c);
                assert(kept@.map_values(|s: Script| s.model()) =~= prev.push(s.model()));
                assert(without_name(s0.take(i as int + 1), script_name(), name@) == prev.push(s0[i as int]));
            }
            i = i + 1;
        }
        assert(s0.take(i as int) =~= s0);
        self.scripts = kept;
        proof {
            lemma_without_name_len(s0, script_name(), name@);
            lemma_without_name_sub(s0, script_name(), name@);
        }
        removed
    }


    /// Names and source handles in attachment order: what the in-memory model keeps.
    pub open spec fn entries(&self) -> Seq<(Seq<char>, u64)> {
        entries_of(self@)
    }

    /// Applies one attach or detach operation.
    pub fn apply(&mut self, op: &CollectionOp)
        requires
            old(self).next_id < u64::MAX,
        ensures
            final(self).entries() == model_step(old(self).entries(), *op),
            final(self).next_id <= old(self).next_id + 1,
            old(self).wf() ==> final(self).wf(),
            old(self).wf() && old(self).ids_distinct() ==> final(self).ids_distinct(),
    {
        match op {
            CollectionOp::Attach { name, handle } => {
                let _ = self.attach(name.clone(), *handle);
                assert(self.entries() =~= old(self).entries().push((name@, *handle)));
            },
            CollectionOp::Detach { name } => {
                let _ = self.detach(name);
                proof {
                    lemma_without_name_map(old(self)@, name@);
                }
            },
        }
    }

    /// Applies `ops` in order; the contents then equal the in-memory model replayed
    /// over the same operations.
    pub fn replay(&mut self, ops: &Vec<CollectionOp>)
        requires
            old(self).next_id + ops@.len() <= u64::MAX,
        ensures
            final(self).entries() == model_replay(old(self).entries(), ops@),
            old(self).wf() ==> final(self).wf(),
            old(self).wf() && old(self).ids_distinct() ==> final(self).ids_distinct(),
    {
        let ghost e0 = self.entries();
        let ghost w0 = self.wf();
        let ghost d0 = self.wf() && self.ids_distinct();
        let mut i: usize = 0;
        while i < ops.len()
            invariant
                i <= ops@.len(),
                self.next_id + (ops@.len() - i) <= old(self).next_id + ops@.len(),
                old(self).next_id + ops@.len() <= u64::MAX,
                self.entries() == model_replay(e0, ops@.take(i as int)),
                w0 ==> self.wf(),
                d0 ==> self.wf() && self.ids_distinct(),
            decreases ops@.len() - i,
        {
            self.apply(&ops[i]);
            assert(ops@.take(i as int + 1).drop_last() =~= ops@.take(i as int));
            i = i + 1;
        }
        assert(ops@.take(i as int) =~= ops@);
    }
}

/// Every entry of the result is an entry of `s`, taken in the same relative order.
proof fn lemma_without_name_sub(s: Seq<ScriptModel>, key: spec_fn(ScriptModel) -> Seq<char>, name: Seq<char>)
    ensures
        forall|i: int| 0 <= i < without_name(s, key, name).len() ==> exists|j: int| 0 <= j < s.len() && s[j] == #[trigger] without_name(s, key, name)[i],
        (forall|i: int, j: int| 0 <= i < j < s.len() ==> #[trigger] s[i].id != #[trigger] s[j].id) ==>
            forall|i: int, j: int| 0 <= i < j < without_name(s, key, name).len() ==> #[trigger] without_name(s, key, name)[i].id != #[trigger] without_name(s, key, name)[j].id,
    decreases s.len(),
{
    if s.len() > 0 {
        let s0 = s.drop_last();
        lemma_without_name_sub(s0, key, name);
        let r0 = without_name(s0, key, name);
        let r = without_name(s, key, name);
        assert forall|i: int| 0 <= i < r.len() implies exists|j: int| 0 <= j < s.len() && s[j] == #[trigger] r[i] by {
            if i < r0.len() {
                assert(r[i] == r0[i]);
                let j = choose|j: int| 0 <= j < s0.len() && s0[j] == r0[i];
                assert(s[j] == r[i]);
            } else {
                assert(s[s.len() - 1] == r[i]);
            }
        }
        if forall|i: int, j: int| 0 <= i < j < s.len() ==> #[trigger] s[i].id != #[trigger] s[j].id {
            assert forall|i: int, j: int| 0 <= i < j < s0.len() implies #[trigger] s0[i].id != #[trigger] s0[j].id by {
                assert(s0[i] == s[i] && s0[j] == s[j]);
            }
            assert forall|i: int, j: int| 0 <= i < j < r.len() implies #[trigger] r[i].id != #[trigger] r[j].id by {
                if j < r0.len() {
                    assert(r[i] == r0[i] && r[j] == r0[j]);
                } else {
                    assert(r[i] == r0[i]);
                    let k = choose|k: int| 0 <= k < s0.len() && s0[k] == r0[i];
                    assert(s[k] == s0[k]);
                    assert(r[j] == s.last());
                }
            }
        }
    }
}

} // verus!
