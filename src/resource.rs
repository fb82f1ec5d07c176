use std::sync::Arc;
use std::sync::Mutex;
use vstd::prelude::*;
use crate::external::build_pool;
use crate::external::share;
use crate::external::spawn;
use crate::external::strong_count;
use crate::external::with_lock;

verus! {

/// The state of one cached resource.
pub enum Resource<T> {
    /// Loaded: holds the finished value.
    Ready(T),
    /// Not loaded yet.
    Load,
    /// The load failed, for the given reason.
    Fail(&'static str),
}

/// A shared, lock-guarded slot.
pub type Handle<T> = Arc<Mutex<Resource<T>>>;

/// Knows how to build and progress resources of one domain.
pub trait ResourceProvider<T> {
    /// Builds the resource at `location`, finished where the work allows.
    fn acquire(&self, location: &str) -> Resource<T>;

    /// Moves `resource` closer to completion with a bounded amount of work.
    fn update(&self, resource: &mut Resource<T>);
}

/// Decides how a (provider, location) pair becomes a shared handle.
pub trait ResourceMethod<T, P: ResourceProvider<T>> {
    /// Builds the handle for `location` through `provider`.
    fn acquire(&self, provider: &Arc<P>, location: &str) -> Handle<T>;
}

/// Builds each resource on the calling thread, before `acquire` returns.
pub struct StreamMethod;

impl StreamMethod {
    /// The method that loads on the caller's thread.
    pub fn new() -> StreamMethod {
        StreamMethod
    }
}

impl<R, P: ResourceProvider<R>> ResourceMethod<R, P> for StreamMethod {
    /// Calls the provider on this thread; the handle is a new mutex holding
    /// what it returned.
    fn acquire(&self, provider: &Arc<P>, location: &str) -> (r: Handle<R>)
        ensures
            exists|v: Resource<R>|
                call_ensures(<P as ResourceProvider<R>>::acquire, (&**provider, location), v)
                    && call_ensures(std::sync::Mutex::<Resource<R>>::new, (v,), *r),
    {
        let value = provider.acquire(location);
        Arc::new(Mutex::new(value))
    }
}

/// Builds each resource on a worker pool: `acquire` returns a pending handle
/// at once, and the worker fills it in when the provider is done.
pub struct AsyncMethod {
    thread_pool: rayon::ThreadPool,
}

/// The worker pool could not be built.
#[derive(Debug, PartialEq, Eq, Structural)]
pub enum PoolError {
    /// The pool's threads could not be started.
    Build,
}

impl AsyncMethod {
    /// The worker pool.
    pub closed spec fn pool(&self) -> rayon::ThreadPool {
        self.thread_pool
    }

    /// A method backed by a pool of `threads` workers (zero picks a default
    /// number). Fails only where the pool cannot be built.
    pub fn new(threads: usize) -> (r: Result<AsyncMethod, PoolError>)
        ensures
            r is Err ==> r == Err::<AsyncMethod, PoolError>(PoolError::Build),
            r is Ok ==> call_ensures(build_pool, (threads,), Ok(r->Ok_0.pool())),
            r is Err ==> exists|e: rayon::ThreadPoolBuildError|
                call_ensures(build_pool, (threads,), Err(e)),
    {
        match build_pool(threads) {
            Ok(thread_pool) => Ok(AsyncMethod { thread_pool }),
            Err(_) => Err(PoolError::Build),
        }
    }
}

/// Loads `location` through `provider`, with no lock held, and only then
/// stores the result in `slot` under its lock.
fn load_into<R, P: ResourceProvider<R>>(slot: Handle<R>, provider: Arc<P>, location: String) {
    let value = provider.acquire(location.as_str());
    with_lock(&*slot, move |state: &mut Resource<R>| { *state = value; });
}

impl<R: Send + 'static, P: ResourceProvider<R> + Send + Sync + 'static> ResourceMethod<R, P> for AsyncMethod {
    /// The handle is a new mutex made with `Load`; the load is queued on the
    /// pool.
    fn acquire(&self, provider: &Arc<P>, location: &str) -> (r: Handle<R>)
        ensures
            call_ensures(std::sync::Mutex::<Resource<R>>::new, (Resource::<R>::Load,), *r),
    {
        let resource = Arc::new(Mutex::new(Resource::Load));
        let slot = share(&resource);
        let provider = share(provider);
        let location = location.to_owned();
        spawn(&self.thread_pool, move || load_into(slot, provider, location));
        resource
    }
}

/// A table row as the contracts see it: the location, and the number the
/// store issued when it stored the row's handle. Each stored handle gets the
/// next number, so a row made anew never carries an earlier row's number.
pub type Row = (Seq<char>, nat);

/// Some row of `t` is stored under `location`.
pub open spec fn has_location(t: Seq<Row>, location: Seq<char>) -> bool {
    exists|i: int| 0 <= i < t.len() && t[i].0 == location
}

/// No two rows share a location.
pub open spec fn unique_locations(t: Seq<Row>) -> bool {
    forall|i: int, j: int| 0 <= i < t.len() && 0 <= j < t.len() && i != j ==> t[i].0 != t[j].0
}

/// No two rows share an issue number.
pub open spec fn unique_ids(t: Seq<Row>) -> bool {
    forall|i: int, j: int| 0 <= i < t.len() && 0 <= j < t.len() && i != j ==> t[i].1 != t[j].1
}

/// Every issue number in `t` is below `n`.
pub open spec fn ids_below(t: Seq<Row>, n: nat) -> bool {
    forall|i: int| 0 <= i < t.len() ==> t[i].1 < n
}

/// The elements of `s` whose strong count in `counts` is above one, that is,
/// whose handle someone besides the table still holds; order is kept.
pub open spec fn kept<A>(s: Seq<A>, counts: Seq<usize>) -> Seq<A>
    decreases s.len(),
{
    if s.len() == 0 || counts.len() == 0 {
        Seq::empty()
    } else {
        let rest = kept(s.drop_last(), counts.drop_last());
        if counts.last() > 1 {
            rest.push(s.last())
        } else {
            rest
        }
    }
}

/// One cached location.
#[verifier::reject_recursive_types(R)]
struct Entry<R> {
    location: String,
    resource: Handle<R>,
    id: Ghost<nat>,
}

/// The cache: a table from location to shared handle, one provider and one
/// acquisition method.
///
/// The table is a vector with no two rows under one location, searched in
/// order, so a lookup is linear in the number of rows. vstd specifies
/// `HashMap` only for keys whose hashing and equality it can model, which
/// `String` keys are not; over a vector every lookup, insertion and sweep is
/// proved.
#[verifier::reject_recursive_types(R)]
pub struct ResourceStorage<R, P: ResourceProvider<R>, M: ResourceMethod<R, P>> {
    resources: Vec<Entry<R>>,
    provider: Arc<P>,
    method: M,
    issued: Ghost<nat>,
}

impl<R, P: ResourceProvider<R>, M: ResourceMethod<R, P>> ResourceStorage<R, P, M> {
    /// The table, row by row.
    pub closed spec fn table(&self) -> Seq<Row> {
        self.resources@.map_values(|e: Entry<R>| (e.location@, e.id@))
    }

    /// The handle stored in each row of `table`.
    pub closed spec fn handles(&self) -> Seq<Handle<R>> {
        self.resources@.map_values(|e: Entry<R>| e.resource)
    }

    /// The provider the store was built with.
    pub closed spec fn provider(&self) -> P {
        *self.provider
    }

    /// The shared pointer to the provider, as handed to the method.
    pub closed spec fn provider_arc(&self) -> Arc<P> {
        self.provider
    }

    /// The acquisition method the store was built with.
    pub closed spec fn method(&self) -> M {
        self.method
    }

    /// How many issue numbers have been handed out; the next one is this number.
    pub closed spec fn issued(&self) -> nat {
        self.issued@
    }

    /// Locations and issue numbers are unique, each row has its handle, and
    /// every number was handed out already.
    pub open spec fn wf(&self) -> bool {
        &&& self.handles().len() == self.table().len()
        &&& unique_locations(self.table())
        &&& unique_ids(self.table())
        &&& ids_below(self.table(), self.issued())
    }

    /// `new` is `old` after `acquire(location)` returned `r`: a hit leaves the
    /// table alone and returns the stored handle; a miss appends a row with a
    /// fresh issue number and returns its handle.
    pub open spec fn acquired(old: Self, location: Seq<char>, new: Self, r: Handle<R>) -> bool {
        if has_location(old.table(), location) {
            &&& new.table() == old.table()
            &&& new.handles() == old.handles()
            &&& new.issued() == old.issued()
            &&& forall|i: int|
                0 <= i < old.table().len() && old.table()[i].0 == location ==> r
                    == old.handles()[i]
        } else {
            &&& new.table() == old.table().push((location, old.issued()))
            &&& new.handles() == old.handles().push(r)
            &&& new.issued() == old.issued() + 1
        }
    }

    /// `new` is `old` after the rows whose handle had no holder but the table
    /// (strong count one or less, as `counts` gives it per row) were removed.
    pub open spec fn swept(old: Self, counts: Seq<usize>, new: Self) -> bool {
        &&& counts.len() == old.table().len()
        &&& new.table() == kept(old.table(), counts)
        &&& new.handles() == kept(old.handles(), counts)
        &&& new.issued() == old.issued()
    }

    /// An empty cache over `provider` and `method`.
    pub fn new(provider: P, method: M) -> (r: Self)
        ensures
            r.wf(),
            r.table() == Seq::<Row>::empty(),
            r.issued() == 0,
            r.provider() == provider,
            r.method() == method,
    {
        let r = ResourceStorage {
            resources: Vec::new(),
            provider: Arc::new(provider),
            method,
            issued: Ghost(0),
        };
        assert(r.table() =~= Seq::<Row>::empty());
        r
    }

    /// The handle cached for `location`, created through the method on a miss.
    pub fn acquire(&mut self, location: &str) -> (r: Handle<R>)
        requires
            old(self).wf(),
        ensures
            final(self).wf(),
            Self::acquired(*old(self), location@, *final(self), r),
            !has_location(old(self).table(), location@) ==> call_ensures(
                <M as ResourceMethod<R, P>>::acquire,
                (&old(self).method(), &old(self).provider_arc(), location),
                r,
            ),
            final(self).provider() == old(self).provider(),
            final(self).method() == old(self).method(),
    {
        let key = location.to_owned();
        let n = self.resources.len();
        let mut i: usize = 0;
        while i < n
            invariant
                n == self.resources@.len(),
                self.wf(),
                key@ == location@,
                0 <= i <= n,
                forall|j: int| 0 <= j < i ==> self.table()[j].0 != location@,
            decreases n - i,
        {
            if self.resources[i].location == key {
                assert(self.table()[i as int].0 == location@);
                let r = share(&self.resources[i].resource);
                proof {
                    assert forall|j: int|
                        0 <= j < self.table().len() && self.table()[j].0 == location@ implies r
                        == self.handles()[j] by {
                        assert(self.table()[i as int].0 == self.table()[j].0);
                    }
                }
                return r;
            }
            i = i + 1;
        }
        let r = self.method.acquire(&self.provider, location);
        let ghost id = self.issued@;
        let entry = Entry { location: key, resource: share(&r), id: Ghost(id) };
        self.resources.push(entry);
        self.issued = Ghost(id + 1);
        assert(self.table() =~= old(self).table().push((location@, id)));
        assert(self.handles() =~= old(self).handles().push(r));
        r
    }

    /// Lets the provider progress every cached slot, each under its own lock,
    /// then evicts the rows whose handle nobody outside the table holds.
    /// The calling thread must not hold the lock of any cached slot: taking it
    /// again would not return.
    pub fn update(&mut self)
        requires
            old(self).wf(),
        ensures
            final(self).wf(),
            exists|counts: Seq<usize>|
                Self::swept(*old(self), counts, *final(self)) && forall|j: int|
                    0 <= j < counts.len() ==> call_ensures(
                        strong_count::<Mutex<Resource<R>>>,
                        (&old(self).handles()[j],),
                        #[trigger] counts[j],
                    ),
            final(self).provider() == old(self).provider(),
            final(self).method() == old(self).method(),
    {
        let n = self.resources.len();
        let mut i: usize = 0;
        while i < n
            invariant
                n == self.resources@.len(),
                0 <= i <= n,
            decreases n - i,
        {
            let provider = &self.provider;
            with_lock(&*self.resources[i].resource, |slot: &mut Resource<R>| provider.update(slot));
            i = i + 1;
        }
        let mut counts: Vec<usize> = Vec::new();
        let mut i: usize = 0;
        while i < n
            invariant
                n == self.resources@.len(),
                0 <= i <= n,
                counts@.len() == i,
                self == old(self),
                forall|j: int|
                    0 <= j < i ==> call_ensures(
                        strong_count::<Mutex<Resource<R>>>,
                        (&self.handles()[j],),
                        #[trigger] counts@[j],
                    ),
            decreases n - i,
        {
            counts.push(strong_count(&self.resources[i].resource));
            i = i + 1;
        }
        self.sweep(&counts);
    }

    /// Removes every row whose strong count in `counts` is one or less: the
    /// table's own pointer is then the last one. `counts` gives one count per
    /// row, in table order, and must be the rows' real strong counts taken at
    /// the call: a made-up count of one evicts a handle that is still held, and
    /// a later `acquire` of its location then makes a second live handle.
    pub fn sweep(&mut self, counts: &Vec<usize>)
        requires
            old(self).wf(),
            counts@.len() == old(self).table().len(),
        ensures
            final(self).wf(),
            Self::swept(*old(self), counts@, *final(self)),
            final(self).provider() == old(self).provider(),
            final(self).method() == old(self).method(),
    {
        let n = self.resources.len();
        let mut rows: Vec<Entry<R>> = Vec::new();
        let mut i: usize = 0;
        while i < n
            invariant
                n == self.resources@.len(),
                n == counts@.len(),
                self.wf(),
                0 <= i <= n,
                rows@.map_values(|e: Entry<R>| (e.location@, e.id@)) == kept(
                    self.table().take(i as int),
                    counts@.take(i as int),
                ),
                rows@.map_values(|e: Entry<R>| e.resource) == kept(
                    self.handles().take(i as int),
                    counts@.take(i as int),
                ),
            decreases n - i,
        {
            proof {
                assert(self.table().take(i + 1).drop_last() =~= self.table().take(i as int));
                assert(self.handles().take(i + 1).drop_last() =~= self.handles().take(i as int));
                assert(counts@.take(i + 1).drop_last() =~= counts@.take(i as int));
            }
            if counts[i] > 1 {
                let e = &self.resources[i];
                let row = Entry { location: e.location.clone(), resource: share(&e.resource), id: e.id };
                let ghost before = rows@;
                rows.push(row);
                assert(rows@.map_values(|e: Entry<R>| (e.location@, e.id@)) =~= before.map_values(
                    |e: Entry<R>| (e.location@, e.id@),
                ).push(self.table()[i as int]));
                assert(rows@.map_values(|e: Entry<R>| e.resource) =~= before.map_values(
                    |e: Entry<R>| e.resource,
                ).push(self.handles()[i as int]));
            }
            i = i + 1;
        }
        proof {
            assert(self.table().take(n as int) =~= self.table());
            assert(self.handles().take(n as int) =~= self.handles());
            assert(counts@.take(n as int) =~= counts@);
            lemma_kept_preserves(self.table(), counts@, self.issued());
            lemma_kept_len(self.table(), self.handles(), counts@);
        }
        self.resources = rows;
    }
}

impl<R, P: ResourceProvider<R>, M: ResourceMethod<R, P>> ResourceStorage<R, P, M> {
    /// Acquiring one location twice, with no update between, returns the same
    /// handle both times, and the second call leaves the table as the first
    /// one left it.
    pub proof fn lemma_acquire_idempotent(
        s0: Self,
        location: Seq<char>,
        s1: Self,
        r1: Handle<R>,
        s2: Self,
        r2: Handle<R>,
    )
        requires
            s0.wf(),
            Self::acquired(s0, location, s1, r1),
            Self::acquired(s1, location, s2, r2),
        ensures
            r2 == r1,
            s2.table() == s1.table(),
            s2.handles() == s1.handles(),
            s2.issued() == s1.issued(),
    {
        if has_location(s0.table(), location) {
            let i = choose|i: int| 0 <= i < s0.table().len() && s0.table()[i].0 == location;
            assert(s1.table()[i].0 == location);
            assert(r1 == s0.handles()[i]);
            assert(r2 == s1.handles()[i]);
        } else {
            let i = s0.table().len() as int;
            assert(s1.table()[i].0 == location);
            assert(s1.handles()[i] == r1);
            assert(r2 == s1.handles()[i]);
        }
    }

    /// Distinct rows never share a location, nor an issue number.
    pub proof fn lemma_isolation(s: Self, i: int, j: int)
        requires
            s.wf(),
            0 <= i < s.table().len(),
            0 <= j < s.table().len(),
            i != j,
        ensures
            s.table()[i].0 != s.table()[j].0,
            s.table()[i].1 != s.table()[j].1,
    {
    }

    /// Once the table holds the last pointer to row `i`'s handle, a sweep
    /// removes the row, and acquiring its location again makes a new row whose
    /// issue number that no earlier row had.
    pub proof fn lemma_released_row_is_renewed(
        s0: Self,
        counts: Seq<usize>,
        i: int,
        s1: Self,
        s2: Self,
        r: Handle<R>,
    )
        requires
            s0.wf(),
            0 <= i < s0.table().len(),
            Self::swept(s0, counts, s1),
            counts[i] <= 1,
            Self::acquired(s1, s0.table()[i].0, s2, r),
        ensures
            !has_location(s1.table(), s0.table()[i].0),
            s2.table() == s1.table().push((s0.table()[i].0, s0.issued())),
            s2.handles() == s1.handles().push(r),
            forall|j: int| 0 <= j < s0.table().len() ==> s0.table()[j].1 != s0.issued(),
    {
        let t = s0.table();
        lemma_kept_from(t, counts);
        if has_location(s1.table(), t[i].0) {
            let j = choose|j: int| 0 <= j < s1.table().len() && s1.table()[j].0 == t[i].0;
            let k = choose|k: int| 0 <= k < t.len() && counts[k] > 1 && kept(t, counts)[j] == t[k];
            assert(t[k].0 == t[i].0);
        }
    }

    /// A sweep keeps the store well formed.
    pub proof fn lemma_sweep_keeps_wf(s0: Self, counts: Seq<usize>, s1: Self)
        requires
            s0.wf(),
            Self::swept(s0, counts, s1),
        ensures
            s1.wf(),
    {
        lemma_kept_preserves(s0.table(), counts, s0.issued());
        lemma_kept_len(s0.table(), s0.handles(), counts);
    }

    /// Over a run of sweeps in which the row for `location` is held by someone
    /// besides the table at every sweep, the row survives with its handle `h`,
    /// and acquiring `location` afterwards returns `h`.
    pub proof fn lemma_held_handle_survives_sweeps(
        states: Seq<Self>,
        counts: Seq<Seq<usize>>,
        location: Seq<char>,
        h: Handle<R>,
        s: Self,
        r: Handle<R>,
    )
        requires
            states.len() == counts.len() + 1,
            states[0].wf(),
            forall|k: int|
                0 <= k < counts.len() ==> Self::swept(states[k], #[trigger] counts[k], states[k + 1]),
            exists|i: int|
                0 <= i < states[0].table().len() && states[0].table()[i].0 == location
                    && states[0].handles()[i] == h,
            forall|k: int, i: int|
                0 <= k < counts.len() && 0 <= i < states[k].table().len() && #[trigger] states[k].table()[i].0
                    == location ==> counts[k][i] > 1,
            Self::acquired(states.last(), location, s, r),
        ensures
            states.last().wf(),
            exists|i: int|
                0 <= i < states.last().table().len() && states.last().table()[i].0 == location
                    && states.last().handles()[i] == h,
            r == h,
            s.table() == states.last().table(),
        decreases counts.len(),
    {
        let last = states.last();
        Self::lemma_held_row_kept_through(states, counts, location, h);
        let i = choose|i: int|
            0 <= i < last.table().len() && last.table()[i].0 == location && last.handles()[i] == h;
        assert(has_location(last.table(), location));
        assert(r == last.handles()[i]);
    }

    /// The row for `location`, held at every sweep, is still there with `h`
    /// after the run.
    proof fn lemma_held_row_kept_through(
        states: Seq<Self>,
        counts: Seq<Seq<usize>>,
        location: Seq<char>,
        h: Handle<R>,
    )
        requires
            states.len() == counts.len() + 1,
            states[0].wf(),
            forall|k: int|
                0 <= k < counts.len() ==> Self::swept(states[k], #[trigger] counts[k], states[k + 1]),
            exists|i: int|
                0 <= i < states[0].table().len() && states[0].table()[i].0 == location
                    && states[0].handles()[i] == h,
            forall|k: int, i: int|
                0 <= k < counts.len() && 0 <= i < states[k].table().len() && #[trigger] states[k].table()[i].0
                    == location ==> counts[k][i] > 1,
        ensures
            states.last().wf(),
            exists|i: int|
                0 <= i < states.last().table().len() && states.last().table()[i].0 == location
                    && states.last().handles()[i] == h,
        decreases counts.len(),
    {
        if counts.len() > 0 {
            let k = counts.len() - 1;
            let prev = states[k];
            let (ps, pc) = (states.drop_last(), counts.drop_last());
            assert forall|kk: int| 0 <= kk < pc.len() implies Self::swept(ps[kk], #[trigger] pc[kk], ps[kk + 1]) by {
                assert(Self::swept(states[kk], counts[kk], states[kk + 1]));
            }
            assert forall|kk: int, i: int|
                0 <= kk < pc.len() && 0 <= i < ps[kk].table().len() && #[trigger] ps[kk].table()[i].0
                    == location implies pc[kk][i] > 1 by {
                assert(states[kk].table()[i].0 == location);
            }
            Self::lemma_held_row_kept_through(ps, pc, location, h);
            assert(ps.last() == prev);
            let i = choose|i: int|
                0 <= i < prev.table().len() && prev.table()[i].0 == location && prev.handles()[i] == h;
            assert(Self::swept(prev, counts[k], states[k + 1]));
            assert(prev.table()[i].0 == location);
            assert(counts[k][i] > 1);
            Self::lemma_held_row_survives(prev, counts[k], i, states.last());
            Self::lemma_sweep_keeps_wf(prev, counts[k], states.last());
            let last = states.last();
            let j = choose|j: int|
                0 <= j < last.table().len() && last.table()[j] == prev.table()[i]
                    && last.handles()[j] == prev.handles()[i];
            assert(last.table()[j].0 == location && last.handles()[j] == h);
        } else {
            assert(states.last() == states[0]);
        }
    }

    /// A row whose handle someone besides the table still holds survives a
    /// sweep, with its location, issue number and handle.
    pub proof fn lemma_held_row_survives(s0: Self, counts: Seq<usize>, i: int, s1: Self)
        requires
            s0.wf(),
            0 <= i < s0.table().len(),
            Self::swept(s0, counts, s1),
            counts[i] > 1,
        ensures
            exists|j: int|
                0 <= j < s1.table().len() && s1.table()[j] == s0.table()[i] && s1.handles()[j]
                    == s0.handles()[i],
    {
        lemma_kept_keeps(s0.table(), counts, i);
        lemma_kept_keeps(s0.handles(), counts, i);
        lemma_kept_len(s0.table().take(i), s0.handles().take(i), counts.take(i));
        let j = kept(s0.table().take(i), counts.take(i)).len() as int;
        assert(s1.table()[j] == s0.table()[i]);
    }
}

/// Every element of `kept(s, counts)` is an element of `s` whose count is
/// above one.
proof fn lemma_kept_from<A>(s: Seq<A>, counts: Seq<usize>)
    requires
        counts.len() == s.len(),
    ensures
        kept(s, counts).len() <= s.len(),
        forall|j: int|
            0 <= j < kept(s, counts).len() ==> exists|i: int|
                0 <= i < s.len() && counts[i] > 1 && #[trigger] kept(s, counts)[j] == s[i],
    decreases s.len(),
{
    if s.len() > 0 {
        let (init, cinit) = (s.drop_last(), counts.drop_last());
        lemma_kept_from(init, cinit);
        let rest = kept(init, cinit);
        assert forall|j: int| 0 <= j < kept(s, counts).len() implies exists|i: int|
            0 <= i < s.len() && counts[i] > 1 && #[trigger] kept(s, counts)[j] == s[i] by {
            if j < rest.len() {
                let i = choose|i: int|
                    0 <= i < init.len() && cinit[i] > 1 && #[trigger] rest[j] == init[i];
                assert(kept(s, counts)[j] == s[i] && counts[i] > 1);
            } else {
                assert(kept(s, counts)[j] == s[s.len() - 1]);
            }
        }
    }
}

/// An element whose count is above one stays, at the position given by how
/// many elements before it stay.
proof fn lemma_kept_keeps<A>(s: Seq<A>, counts: Seq<usize>, i: int)
    requires
        counts.len() == s.len(),
        0 <= i < s.len(),
        counts[i] > 1,
    ensures
        kept(s.take(i), counts.take(i)).len() < kept(s, counts).len(),
        kept(s, counts)[kept(s.take(i), counts.take(i)).len() as int] == s[i],
    decreases s.len(),
{
    let (init, cinit) = (s.drop_last(), counts.drop_last());
    if i == s.len() - 1 {
        assert(s.take(i) =~= init);
        assert(counts.take(i) =~= cinit);
    } else {
        lemma_kept_keeps(init, cinit, i);
        assert(init.take(i) =~= s.take(i));
        assert(cinit.take(i) =~= counts.take(i));
    }
}

/// Sequences of one length, filtered by the same counts, stay of one length.
proof fn lemma_kept_len<A, B>(s: Seq<A>, t: Seq<B>, counts: Seq<usize>)
    requires
        s.len() == t.len(),
    ensures
        kept(s, counts).len() == kept(t, counts).len(),
    decreases s.len(),
{
    if s.len() > 0 && counts.len() > 0 {
        lemma_kept_len(s.drop_last(), t.drop_last(), counts.drop_last());
    }
}

/// Filtering a table keeps its locations and issue numbers unique and below
/// the bound.
proof fn lemma_kept_preserves(t: Seq<Row>, counts: Seq<usize>, n: nat)
    requires
        counts.len() == t.len(),
        unique_locations(t),
        unique_ids(t),
        ids_below(t, n),
    ensures
        unique_locations(kept(t, counts)),
        unique_ids(kept(t, counts)),
        ids_below(kept(t, counts), n),
    decreases t.len(),
{
    lemma_kept_from(t, counts);
    if t.len() > 0 {
        let init = t.drop_last();
        lemma_kept_preserves(init, counts.drop_last(), n);
        lemma_kept_from(init, counts.drop_last());
        let rest = kept(init, counts.drop_last());
        let k = kept(t, counts);
        if counts.last() > 1 {
            assert forall|j: int| 0 <= j < rest.len() implies rest[j].0 != t.last().0 && rest[j].1
                != t.last().1 by {
                let i = choose|i: int|
                    0 <= i < init.len() && counts.drop_last()[i] > 1 && #[trigger] rest[j] == init[i];
                assert(t[i] == init[i]);
            }
            assert(k == rest.push(t.last()));
        }
    }
}

} // verus!
