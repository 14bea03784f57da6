use vstd::prelude::*;
use crate::dispatch::{collect_errors, failures};
use crate::error::{ScriptError, ScriptErrorEvent};

verus! {

/// An extension of the API surface `T` of one script language.
pub trait APIProvider<T> {
    /// Adds this provider's callable operations to the shared API surface; runs once,
    /// before any context exists.
    fn attach_api(&self, api: &mut T) -> Result<(), ScriptError>;

    /// Prepares the new context of the script `script` on `entity`.
    fn setup_script(&self, entity: u64, script: u64) -> Result<(), ScriptError>;

    /// Releases what `setup_script` prepared, when the script is detached.
    fn teardown_script(&self, entity: u64, script: u64) -> Result<(), ScriptError>;

    /// This provider's part of the API documentation, if it has one.
    fn documentation(&self) -> Option<String>;
}

/// The providers of one script language, in registration order.
pub struct APIProviders<P> {
    pub providers: Vec<P>,
}

impl<P> APIProviders<P> {
    pub fn new() -> (r: Self)
        ensures
            r.providers@ == Seq::<P>::empty(),
    {
        APIProviders { providers: Vec::new() }
    }

    /// Appends `provider`; providers run in the order they were registered.
    pub fn register(&mut self, provider: P)
        ensures
            final(self).providers@ == old(self).providers@.push(provider),
    {
        self.providers.push(provider);
    }

    /// Lets every provider extend `api`, in registration order, stopping at the
    /// first failure, which it returns.
    pub fn attach_all<T>(&self, api: &mut T) -> (r: Result<(), ScriptError>)
        where
            P: APIProvider<T>,
        ensures
            self.providers@.len() == 0 ==> r is Ok && *final(api) == *old(api),
            exists|o: Seq<Result<(), ScriptError>>| {
                &&& o.len() <= self.providers@.len()
                &&& r == #[trigger] first_failure(o)
                &&& (o.len() < self.providers@.len() ==> r is Err)
            },
    {
        let ghost mut o: Seq<Result<(), ScriptError>> = Seq::empty();
        let mut i: usize = 0;
        while i < self.providers.len()
            invariant
                i <= self.providers@.len(),
                self.providers@.len() == 0 ==> *api == *old(api),
                o.len() == i,
                first_failure(o) == Ok::<(), ScriptError>(()),
            decreases self.providers@.len() - i,
        {
            let out = self.providers[i].attach_api(api);
            let ghost og = out;
            proof {
                assert(o.push(og).drop_last() =~= o);
                o = o.push(og);
            }
            match out {
                Ok(u) => {
                    assert(u == ());
                    assert(og == Ok::<(), ScriptError>(()));
                },
                Err(e) => {
                    return Err(e);
                },
            }
            i = i + 1;
        }
        assert(first_failure(o) == Ok::<(), ScriptError>(()));
        Ok(())
    }

    /// Runs every provider's setup for a new context, in registration order,
    /// stopping at the first failure, which it returns.
    pub fn setup_all<T>(&self, entity: u64, script: u64) -> (r: Result<(), ScriptError>)
        where
            P: APIProvider<T>,
        ensures
            self.providers@.len() == 0 ==> r is Ok,
            exists|o: Seq<Result<(), ScriptError>>| {
                &&& o.len() <= self.providers@.len()
                &&& r == #[trigger] first_failure(o)
                &&& (o.len() < self.providers@.len() ==> r is Err)
            },
    {
        let ghost mut o: Seq<Result<(), ScriptError>> = Seq::empty();
        let mut i: usize = 0;
        while i < self.providers.len()
            invariant
                i <= self.providers@.len(),
                o.len() == i,
                first_failure(o) == Ok::<(), ScriptError>(()),
            decreases self.providers@.len() - i,
        {
            let out = self.providers[i].setup_script(entity, script);
            let ghost og = out;
            proof {
                assert(o.push(og).drop_last() =~= o);
                o = o.push(og);
            }
            match out {
                Ok(u) => {
                    assert(u == ());
                    assert(og == Ok::<(), ScriptError>(()));
                },
                Err(e) => {
                    return Err(e);
                },
            }
            i = i + 1;
        }
        assert(first_failure(o) == Ok::<(), ScriptError>(()));
        Ok(())
    }

    /// Runs every provider's teardown for a dropped context, in registration order;
    /// returns one error event for each failure, in order, so that none is lost.
    pub fn teardown_all<T>(&self, entity: u64, script: u64) -> (r: Vec<ScriptErrorEvent>)
        where
            P: APIProvider<T>,
        ensures
            exists|o: Seq<Result<(), ScriptError>>|
                o.len() == self.providers@.len() && r@.map_values(|x: ScriptErrorEvent| x.err) == #[trigger] failures(o),
    {
        let mut outcomes: Vec<Result<(), ScriptError>> = Vec::new();
        let mut i: usize = 0;
        while i < self.providers.len()
            invariant
                i <= self.providers@.len(),
                outcomes@.len() == i,
            decreases self.providers@.len() - i,
        {
            outcomes.push(self.providers[i].teardown_script(entity, script));
            i = i + 1;
        }
        let ghost o = outcomes@;
        let r = collect_errors(outcomes);
        assert(o.len() == self.providers@.len() && r@.map_values(|x: ScriptErrorEvent| x.err) == failures(o));
        r
    }

    /// Collects every provider's documentation, in registration order.
    pub fn gen_all<T>(&self) -> (r: Vec<String>)
        where
            P: APIProvider<T>,
        ensures
            exists|o: Seq<Option<String>>| o.len() == self.providers@.len() && r@ == #[trigger] somes(o),
    {
        let mut frags: Vec<Option<String>> = Vec::new();
        let mut i: usize = 0;
        while i < self.providers.len()
            invariant
                i <= self.providers@.len(),
                frags@.len() == i,
            decreases self.providers@.len() - i,
        {
            frags.push(self.providers[i].documentation());
            i = i + 1;
        }
        let ghost o = frags@;
        let r = collect_docs(frags);
        assert(o.len() == self.providers@.len() && r@ == somes(o));
        r
    }
}

/// The first failure among `outcomes`, or success when there is none.
pub open spec fn first_failure(outcomes: Seq<Result<(), ScriptError>>) -> Result<(), ScriptError>
    decreases outcomes.len(),
{
    if outcomes.len() == 0 {
        Ok(())
    } else {
        match first_failure(outcomes.drop_last()) {
            Err(e) => Err(e),
            Ok(_) => outcomes.last(),
        }
    }
}

/// The fragments that are present, in order.
pub open spec fn somes(frags: Seq<Option<String>>) -> Seq<String>
    decreases frags.len(),
{
    if frags.len() == 0 {
        Seq::empty()
    } else {
        let r = somes(frags.drop_last());
        match frags.last() {
            Some(d) => r.push(d),
            None => r,
        }
    }
}

/// Joins documentation fragments into one artifact: every present fragment, in order.
pub fn collect_docs(frags: Vec<Option<String>>) -> (r: Vec<String>)
    ensures
        r@ == somes(frags@),
{
    let mut docs: Vec<String> = Vec::new();
    let mut i: usize = 0;
    while i < frags.len()
        invariant
            i <= frags@.len(),
            docs@ == somes(frags@.take(i as int)),
        decreases frags@.len() - i,
    {
        assert(frags@.take(i as int + 1).drop_last() =~= frags@.take(i as int));
        assert(frags@.take(i as int + 1).last() == frags@[i as int]);
        match &frags[i] {
            Some(d) => {
                docs.push(d.clone());
            },
            None => {},
        }
        i = i + 1;
    }
    assert(frags@.take(i as int) =~= frags@);
    docs
}

} // verus!
