//! Worker registry: health tracking and identity allocation for backends.

use std::collections::HashMap;

use vstd::prelude::*;

use crate::collections::keys_of;
use crate::config::{Pool, WorkerConfig};

verus! {

broadcast use vstd::std_specs::hash::group_hash_axioms;

/// Stable identifier for a worker, assigned in configuration order.
pub type WorkerId = u64;

/// Static description of a backend worker.
#[derive(Debug, PartialEq, Eq)]
pub struct Worker {
    /// Identity; never reused for another worker.
    pub id: WorkerId,
    /// Base URL.
    pub url: String,
    /// The phase it is provisioned for.
    pub pool: Pool,
}

impl Clone for Worker {
    fn clone(&self) -> (r: Worker)
        ensures
            r == *self,
    {
        Worker { id: self.id, url: self.url.clone(), pool: self.pool }
    }
}

/// A worker plus its runtime health state.
#[derive(Debug)]
pub struct WorkerState {
    /// The worker.
    pub worker: Worker,
    /// Whether the last probe succeeded.
    pub healthy: bool,
}

impl Clone for WorkerState {
    fn clone(&self) -> (r: WorkerState)
        ensures
            r == *self,
    {
        WorkerState { worker: self.worker.clone(), healthy: self.healthy }
    }
}

/// What a registry holds.
#[verifier::ext_equal]
pub struct RegistryView {
    /// Registered workers by id.
    pub workers: Map<WorkerId, WorkerState>,
    /// The id the next registered worker gets.
    pub next_id: WorkerId,
}

/// The id after `id`. Ids are machine words and wrap.
pub open spec fn id_after(id: WorkerId) -> WorkerId {
    if id == u64::MAX {
        0
    } else {
        (id + 1) as u64
    }
}

impl RegistryView {
    /// Every worker is filed under its own id.
    pub open spec fn well_filed(self) -> bool {
        &&& self.workers.dom().finite()
        &&& forall|id: WorkerId| #[trigger]
            self.workers.contains_key(id) ==> self.workers[id].worker.id == id
    }

    /// No registered worker has an id that is still to be given out.
    pub open spec fn ids_are_fresh(self) -> bool {
        forall|id: WorkerId| #[trigger] self.workers.contains_key(id) ==> id < self.next_id
    }

    /// The registry with one more worker, unhealthy at first.
    pub open spec fn registered(self, url: String, pool: Pool) -> RegistryView {
        RegistryView {
            workers: self.workers.insert(
                self.next_id,
                WorkerState { worker: Worker { id: self.next_id, url, pool }, healthy: false },
            ),
            next_id: id_after(self.next_id),
        }
    }

    /// The registry without a worker. The id stays spent.
    pub open spec fn removed(self, id: WorkerId) -> RegistryView {
        RegistryView { workers: self.workers.remove(id), next_id: self.next_id }
    }

    /// The registry with a worker's health set; unknown ids are ignored.
    pub open spec fn with_health(self, id: WorkerId, healthy: bool) -> RegistryView {
        if self.workers.contains_key(id) {
            RegistryView {
                workers: self.workers.insert(id, WorkerState { healthy, ..self.workers[id] }),
                next_id: self.next_id,
            }
        } else {
            self
        }
    }

    /// Whether a worker is registered and healthy.
    pub open spec fn is_healthy(self, id: WorkerId) -> bool {
        self.workers.contains_key(id) && self.workers[id].healthy
    }

    /// Ids of the healthy workers.
    pub open spec fn healthy_ids(self) -> Set<WorkerId> {
        self.workers.dom().filter(|id: WorkerId| self.workers[id].healthy)
    }

    /// `listed` is the workers with the given ids, ordered by id.
    pub open spec fn lists(self, ids: Set<WorkerId>, listed: Seq<Worker>) -> bool {
        &&& forall|i: int, j: int| 0 <= i < j < listed.len() ==> listed[i].id < listed[j].id
        &&& forall|i: int|
            0 <= i < listed.len() ==> ids.contains((#[trigger] listed[i]).id) && listed[i]
                == self.workers[listed[i].id].worker
        &&& forall|id: WorkerId| #[trigger]
            ids.contains(id) ==> exists|i: int| 0 <= i < listed.len() && listed[i].id == id
    }

    /// The workers with the given ids, ordered by id.
    pub open spec fn listing(self, ids: Set<WorkerId>) -> Seq<Worker> {
        choose|listed: Seq<Worker>| self.lists(ids, listed)
    }

    /// The healthy workers, ordered by id.
    pub open spec fn healthy_workers(self) -> Seq<Worker> {
        self.listing(self.healthy_ids())
    }

    /// All workers, ordered by id.
    pub open spec fn all_workers(self) -> Seq<Worker> {
        self.listing(self.workers.dom())
    }
}

/// Two listings of the same ids are the same listing.
proof fn lemma_listing_unique(
    registry: RegistryView,
    ids: Set<WorkerId>,
    a: Seq<Worker>,
    b: Seq<Worker>,
)
    requires
        registry.lists(ids, a),
        registry.lists(ids, b),
    ensures
        a == b,
    decreases a.len() + b.len(),
{
    if a.len() == 0 {
        if b.len() > 0 {
            assert(ids.contains(b[0].id));
        }
        assert(a =~= b);
    } else if b.len() == 0 {
        assert(ids.contains(a[0].id));
    } else {
        let last_a = a.last();
        let last_b = b.last();
        assert(ids.contains(a[a.len() - 1].id));
        assert(ids.contains(b[b.len() - 1].id));
        let i = choose|i: int| 0 <= i < a.len() && a[i].id == last_b.id;
        let j = choose|j: int| 0 <= j < b.len() && b[j].id == last_a.id;
        assert(last_a.id == last_b.id) by {
            if i < a.len() - 1 {
                assert(a[i].id < a[a.len() - 1].id);
            }
            if j < b.len() - 1 {
                assert(b[j].id < b[b.len() - 1].id);
            }
        }
        assert(last_a == last_b);
        let rest = ids.remove(last_a.id);
        lemma_listing_without_last(registry, ids, a);
        lemma_listing_without_last(registry, ids, b);
        lemma_listing_unique(registry, rest, a.drop_last(), b.drop_last());
        assert(a =~= a.drop_last().push(last_a));
        assert(b =~= b.drop_last().push(last_b));
    }
}

proof fn lemma_listing_without_last(registry: RegistryView, ids: Set<WorkerId>, a: Seq<Worker>)
    requires
        registry.lists(ids, a),
        a.len() > 0,
    ensures
        registry.lists(ids.remove(a.last().id), a.drop_last()),
{
    let rest = ids.remove(a.last().id);
    let short = a.drop_last();
    assert forall|i: int| 0 <= i < short.len() implies rest.contains((#[trigger] short[i]).id)
        && short[i] == registry.workers[short[i].id].worker by {
        assert(a[i].id < a[a.len() - 1].id);
        assert(ids.contains(a[i].id));
    }
    assert forall|id: WorkerId| #[trigger] rest.contains(id) implies exists|i: int|
        0 <= i < short.len() && short[i].id == id by {
        let i = choose|i: int| 0 <= i < a.len() && a[i].id == id;
        assert(short[i].id == id);
    }
}

proof fn lemma_listing_with_one_more(
    registry: RegistryView,
    ids: Set<WorkerId>,
    a: Seq<Worker>,
    id: WorkerId,
    at: int,
)
    requires
        registry.lists(ids, a),
        registry.workers[id].worker.id == id,
        0 <= at <= a.len(),
        ({
            let b = a.insert(at, registry.workers[id].worker);
            forall|i: int, j: int| 0 <= i < j < b.len() ==> b[i].id < b[j].id
        }),
    ensures
        registry.lists(ids.insert(id), a.insert(at, registry.workers[id].worker)),
{
    let more = ids.insert(id);
    let b = a.insert(at, registry.workers[id].worker);
    assert forall|i: int| 0 <= i < b.len() implies more.contains((#[trigger] b[i]).id) && b[i]
        == registry.workers[b[i].id].worker by {
        if i < at {
            assert(b[i] == a[i]);
        } else if i > at {
            assert(b[i] == a[i - 1]);
        }
    }
    assert forall|k: WorkerId| #[trigger] more.contains(k) implies exists|i: int|
        0 <= i < b.len() && b[i].id == k by {
        if k == id {
            assert(b[at].id == k);
        } else {
            assert(ids.contains(k));
            let i = choose|i: int| 0 <= i < a.len() && a[i].id == k;
            if i < at {
                assert(b[i].id == k);
            } else {
                assert(b[i + 1].id == k);
            }
        }
    }
}

/// Health registry for all configured and discovered workers.
#[derive(Debug)]
pub struct WorkerRegistry {
    workers: HashMap<WorkerId, WorkerState>,
    next_id: WorkerId,
}

impl View for WorkerRegistry {
    type V = RegistryView;

    closed spec fn view(&self) -> RegistryView {
        RegistryView { workers: self.workers@, next_id: self.next_id }
    }
}

impl Default for WorkerRegistry {
    /// No workers; the first one registered gets id zero.
    fn default() -> (r: WorkerRegistry)
        ensures
            r.wf(),
            r@ == (RegistryView { workers: Map::empty(), next_id: 0 }),
    {
        WorkerRegistry { workers: HashMap::new(), next_id: 0 }
    }
}

impl WorkerRegistry {
    /// Validity: every worker is filed under its own id.
    pub open spec fn wf(self) -> bool {
        self@.well_filed()
    }

    /// Build a registry from configuration. Workers get their position as id,
    /// and all start unhealthy until the health poller marks them up.
    pub fn from_config(workers: &[WorkerConfig]) -> (r: WorkerRegistry)
        ensures
            r.wf(),
            r@.ids_are_fresh(),
            r@.next_id == workers@.len(),
            forall|id: WorkerId| #[trigger] r@.workers.contains_key(id) <==> id < workers@.len(),
            forall|id: WorkerId|
                id < workers@.len() ==> #[trigger] r@.workers[id] == (WorkerState {
                    worker: Worker {
                        id,
                        url: workers@[id as int].url,
                        pool: workers@[id as int].pool,
                    },
                    healthy: false,
                }),
    {
        let mut entries: HashMap<WorkerId, WorkerState> = HashMap::new();
        let mut index: usize = 0;
        while index < workers.len()
            invariant
                index <= workers@.len(),
                forall|id: WorkerId| #[trigger] entries@.contains_key(id) <==> id < index,
                forall|id: WorkerId|
                    id < index ==> #[trigger] entries@[id] == (WorkerState {
                        worker: Worker {
                            id,
                            url: workers@[id as int].url,
                            pool: workers@[id as int].pool,
                        },
                        healthy: false,
                    }),
            decreases workers@.len() - index,
        {
            let id = index as WorkerId;
            let worker = Worker { id, url: workers[index].url.clone(), pool: workers[index].pool };
            entries.insert(id, WorkerState { worker, healthy: false });
            index += 1;
        }
        WorkerRegistry { workers: entries, next_id: workers.len() as u64 }
    }

    /// Register a worker discovered at runtime and return its freshly
    /// allocated id. It starts unhealthy until the poller marks it up.
    pub fn register_worker(&mut self, url: String, pool: Pool) -> (id: WorkerId)
        requires
            old(self).wf(),
        ensures
            final(self).wf(),
            id == old(self)@.next_id,
            final(self)@ == old(self)@.registered(url, pool),
            final(self)@.workers == old(self)@.workers.insert(
                id,
                WorkerState { worker: Worker { id, url, pool }, healthy: false },
            ),
            id < u64::MAX ==> final(self)@.next_id == id + 1,
            id == u64::MAX ==> final(self)@.next_id == 0,
            old(self)@.ids_are_fresh() && old(self)@.next_id < u64::MAX ==> {
                &&& !old(self)@.workers.contains_key(id)
                &&& final(self)@.ids_are_fresh()
            },
    {
        let id = self.next_id;
        self.next_id = self.next_id.wrapping_add(1);
        self.workers.insert(id, WorkerState { worker: Worker { id, url, pool }, healthy: false });
        id
    }

    /// Remove a worker entirely. The caller purges it from the prefix index:
    /// its KV cache died with it, and a replacement must not inherit its
    /// affinity.
    pub fn remove_worker(&mut self, id: WorkerId) -> (r: Option<Worker>)
        requires
            old(self).wf(),
        ensures
            final(self).wf(),
            final(self)@ == old(self)@.removed(id),
            final(self)@.workers == old(self)@.workers.remove(id),
            final(self)@.next_id == old(self)@.next_id,
            r == if old(self)@.workers.contains_key(id) {
                Some(old(self)@.workers[id].worker)
            } else {
                None
            },
            old(self)@.ids_are_fresh() ==> final(self)@.ids_are_fresh(),
    {
        match self.workers.remove(&id) {
            Some(state) => Some(state.worker),
            None => None,
        }
    }

    /// Update a worker's health state. Returns `true` if the state actually
    /// changed; an unknown id changes nothing.
    pub fn set_healthy(&mut self, id: WorkerId, healthy: bool) -> (changed: bool)
        requires
            old(self).wf(),
        ensures
            final(self).wf(),
            final(self)@ == old(self)@.with_health(id, healthy),
            final(self)@.next_id == old(self)@.next_id,
            final(self)@.workers.dom() == old(self)@.workers.dom(),
            forall|other: WorkerId| #[trigger]
                old(self)@.workers.contains_key(other) ==> final(self)@.workers[other]
                    == (WorkerState {
                    worker: old(self)@.workers[other].worker,
                    healthy: if other == id {
                        healthy
                    } else {
                        old(self)@.workers[other].healthy
                    },
                }),
            changed == (old(self)@.workers.contains_key(id) && old(self)@.workers[id].healthy
                != healthy),
            old(self)@.ids_are_fresh() ==> final(self)@.ids_are_fresh(),
    {
        match self.workers.remove(&id) {
            Some(state) => {
                let changed = state.healthy != healthy;
                self.workers.insert(id, WorkerState { worker: state.worker, healthy });
                assert(self@.workers =~= old(self)@.with_health(id, healthy).workers);
                changed
            },
            None => {
                assert(self@.workers =~= old(self)@.workers);
                false
            },
        }
    }

    /// Look up a worker by id.
    pub fn get(&self, id: WorkerId) -> (r: Option<Worker>)
        ensures
            r == if self@.workers.contains_key(id) {
                Some(self@.workers[id].worker)
            } else {
                None
            },
    {
        match self.workers.get(&id) {
            Some(state) => Some(state.worker.clone()),
            None => None,
        }
    }

    /// Whether the worker is currently healthy.
    pub fn is_healthy(&self, id: WorkerId) -> (r: bool)
        ensures
            r == self@.is_healthy(id),
            r == (self@.workers.contains_key(id) && self@.workers[id].healthy),
    {
        match self.workers.get(&id) {
            Some(state) => state.healthy,
            None => false,
        }
    }

    /// The id the next registered worker gets.
    pub fn next_id(&self) -> (id: WorkerId)
        ensures
            id == self@.next_id,
    {
        self.next_id
    }

    fn list(&self, healthy_only: bool) -> (listed: Vec<Worker>)
        requires
            self.wf(),
        ensures
            self@.lists(
                if healthy_only {
                    self@.healthy_ids()
                } else {
                    self@.workers.dom()
                },
                listed@,
            ),
    {
        let ghost wanted = if healthy_only {
            self@.healthy_ids()
        } else {
            self@.workers.dom()
        };
        let ids = keys_of(&self.workers);
        let mut listed: Vec<Worker> = Vec::new();
        let mut next: usize = 0;
        assert(wanted.intersect(ids@.take(0).to_set()) =~= Set::empty());
        while next < ids.len()
            invariant
                self.wf(),
                wanted == (if healthy_only {
                    self@.healthy_ids()
                } else {
                    self@.workers.dom()
                }),
                next <= ids@.len(),
                ids@.no_duplicates(),
                ids@.to_set() == self@.workers.dom(),
                self@.lists(wanted.intersect(ids@.take(next as int).to_set()), listed@),
            decreases ids@.len() - next,
        {
            let id = ids[next];
            let ghost seen = ids@.take(next as int).to_set();
            proof {
                assert(ids@.to_set().contains(ids@[next as int]));
                assert(ids@.take(next + 1) =~= ids@.take(next as int).push(id));
                ids@.take(next as int).lemma_push_to_set_commute(id);
                assert(!seen.contains(id));
            }
            if let Some(state) = self.workers.get(&id) {
                if !healthy_only || state.healthy {
                    let ghost before = listed@;
                    let at = insert_by_id(&mut listed, state.worker.clone());
                    proof {
                        lemma_listing_with_one_more(
                            self@,
                            wanted.intersect(seen),
                            before,
                            id,
                            at as int,
                        );
                        assert(wanted.intersect(seen.insert(id)) =~= wanted.intersect(
                            seen,
                        ).insert(id));
                    }
                } else {
                    assert(wanted.intersect(seen.insert(id)) =~= wanted.intersect(seen));
                }
            }
            next += 1;
        }
        assert(ids@.take(next as int) =~= ids@);
        assert(wanted.intersect(ids@.to_set()) =~= wanted);
        listed
    }

    /// Snapshot of every registered worker, ordered by id. Ordering matters:
    /// round-robin selection and "first healthy worker" lookups are
    /// deterministic.
    pub fn all_workers(&self) -> (listed: Vec<Worker>)
        requires
            self.wf(),
        ensures
            listed@ == self@.all_workers(),
            self@.lists(self@.workers.dom(), listed@),
            listed@.len() == self@.workers.dom().len(),
            forall|i: int, j: int| 0 <= i < j < listed@.len() ==> listed@[i].id < listed@[j].id,
            forall|id: WorkerId| #[trigger]
                self@.workers.contains_key(id) <==> exists|i: int|
                    0 <= i < listed@.len() && #[trigger] listed@[i].id == id,
            forall|i: int|
                0 <= i < listed@.len() ==> #[trigger] listed@[i]
                    == self@.workers[listed@[i].id].worker,
    {
        let listed = self.list(false);
        proof {
            lemma_listing_len(self@, self@.workers.dom(), listed@);
            lemma_listing_unique(self@, self@.workers.dom(), listed@, self@.all_workers());
        }
        listed
    }

    /// Snapshot of the workers currently marked healthy, ordered by id.
    pub fn healthy_workers(&self) -> (listed: Vec<Worker>)
        requires
            self.wf(),
        ensures
            listed@ == self@.healthy_workers(),
            self@.lists(self@.healthy_ids(), listed@),
            listed@.len() == self@.healthy_ids().len(),
            forall|i: int, j: int| 0 <= i < j < listed@.len() ==> listed@[i].id < listed@[j].id,
            forall|id: WorkerId| #[trigger]
                self@.workers.contains_key(id) && self@.workers[id].healthy <==> exists|i: int|
                    0 <= i < listed@.len() && #[trigger] listed@[i].id == id,
            forall|i: int|
                0 <= i < listed@.len() ==> #[trigger] listed@[i]
                    == self@.workers[listed@[i].id].worker,
    {
        let listed = self.list(true);
        proof {
            lemma_listing_len(self@, self@.healthy_ids(), listed@);
            lemma_listing_unique(
                self@,
                self@.healthy_ids(),
                listed@,
                self@.healthy_workers(),
            );
            assert forall|id: WorkerId| #[trigger]
                self@.workers.contains_key(id) && self@.workers[id].healthy <==> exists|i: int|
                    0 <= i < listed@.len() && #[trigger] listed@[i].id == id by {
                if self@.workers.contains_key(id) && self@.workers[id].healthy {
                    assert(self@.healthy_ids().contains(id));
                    let i = choose|i: int| 0 <= i < listed@.len() && listed@[i].id == id;
                    assert(listed@[i].id == id);
                }
            }
        }
        listed
    }

    /// How many workers are healthy.
    pub fn healthy_count(&self) -> (count: usize)
        requires
            self.wf(),
        ensures
            count == self@.healthy_ids().len(),
            count == self@.workers.dom().filter(|id: WorkerId| self@.workers[id].healthy).len(),
    {
        self.healthy_workers().len()
    }

    /// Whether any worker is healthy.
    pub fn any_healthy(&self) -> (r: bool)
        requires
            self.wf(),
        ensures
            r == exists|id: WorkerId| self@.is_healthy(id),
            r == exists|id: WorkerId| #[trigger]
                self@.workers.contains_key(id) && self@.workers[id].healthy,
    {
        let listed = self.list(true);
        if listed.is_empty() {
            assert forall|id: WorkerId| !self@.is_healthy(id) by {
                if self@.is_healthy(id) {
                    assert(self@.healthy_ids().contains(id));
                }
            }
            assert forall|id: WorkerId| #[trigger] self@.workers.contains_key(id) implies
                !self@.workers[id].healthy by {
                assert(!self@.is_healthy(id));
            }
            false
        } else {
            assert(self@.is_healthy(listed@[0].id));
            assert(self@.workers.contains_key(listed@[0].id));
            true
        }
    }
}

proof fn lemma_listing_len(registry: RegistryView, ids: Set<WorkerId>, a: Seq<Worker>)
    requires
        registry.lists(ids, a),
        ids.finite(),
    ensures
        a.len() == ids.len(),
    decreases a.len(),
{
    if a.len() == 0 {
        assert(ids =~= Set::empty()) by {
            assert forall|id: WorkerId| !ids.contains(id) by {
                if ids.contains(id) {
                    let i = choose|i: int| 0 <= i < a.len() && a[i].id == id;
                    assert(false);
                }
            }
        }
    } else {
        assert(ids.contains(a[a.len() - 1].id));
        lemma_listing_without_last(registry, ids, a);
        lemma_listing_len(registry, ids.remove(a.last().id), a.drop_last());
    }
}

spec fn ids_below(ids: Set<WorkerId>, bound: nat) -> Set<WorkerId> {
    ids.filter(|id: WorkerId| id < bound)
}

proof fn lemma_listing_below(registry: RegistryView, ids: Set<WorkerId>, bound: nat)
    requires
        forall|id: WorkerId| #[trigger] ids.contains(id) ==> registry.workers[id].worker.id == id,
    ensures
        exists|listed: Seq<Worker>| registry.lists(ids_below(ids, bound), listed),
    decreases bound,
{
    let below = ids_below(ids, bound);
    if bound == 0 {
        assert(registry.lists(below, seq![]));
    } else {
        lemma_listing_below(registry, ids, (bound - 1) as nat);
        let fewer = ids_below(ids, (bound - 1) as nat);
        let listed = choose|listed: Seq<Worker>| registry.lists(fewer, listed);
        if bound - 1 <= u64::MAX && ids.contains((bound - 1) as u64) {
            let id = (bound - 1) as u64;
            assert(below =~= fewer.insert(id));
            let more = listed.insert(listed.len() as int, registry.workers[id].worker);
            assert forall|i: int, j: int| 0 <= i < j < more.len() implies more[i].id
                < more[j].id by {
                assert(fewer.contains(listed[i].id));
            }
            lemma_listing_with_one_more(registry, fewer, listed, id, listed.len() as int);
            assert(registry.lists(below, more));
        } else {
            assert(below =~= fewer) by {
                assert forall|id: WorkerId| below.contains(id) implies fewer.contains(id) by {
                    assert(id != bound - 1);
                }
            }
            assert(registry.lists(below, listed));
        }
    }
}

/// A registry that files every worker under its own id has a listing of its
/// healthy workers: exactly those marked healthy, ordered by id.
pub proof fn law_healthy_workers_are_listed(registry: RegistryView)
    requires
        registry.well_filed(),
    ensures
        registry.lists(registry.healthy_ids(), registry.healthy_workers()),
{
    let ids = registry.healthy_ids();
    assert forall|id: WorkerId| #[trigger] ids.contains(id) implies registry.workers[id].worker.id
        == id by {
        assert(registry.workers.contains_key(id));
    }
    lemma_listing_below(registry, ids, 0x1_0000_0000_0000_0000);
    assert(ids_below(ids, 0x1_0000_0000_0000_0000) =~= ids);
}

/// One change to a registry.
pub enum RegistryStep {
    /// A worker is registered.
    Register(String, Pool),
    /// A worker is removed.
    Remove(WorkerId),
    /// A worker's health is set.
    SetHealth(WorkerId, bool),
}

/// The registry after `steps`.
pub open spec fn after_changes(registry: RegistryView, steps: Seq<RegistryStep>) -> RegistryView
    decreases steps.len(),
{
    if steps.len() == 0 {
        registry
    } else {
        let before = after_changes(registry, steps.drop_last());
        match steps.last() {
            RegistryStep::Register(url, pool) => before.registered(url, pool),
            RegistryStep::Remove(id) => before.removed(id),
            RegistryStep::SetHealth(id, healthy) => before.with_health(id, healthy),
        }
    }
}

/// How many workers `steps` register.
pub open spec fn registrations(steps: Seq<RegistryStep>) -> nat
    decreases steps.len(),
{
    if steps.len() == 0 {
        0
    } else {
        registrations(steps.drop_last()) + (if steps.last() is Register {
            1nat
        } else {
            0
        })
    }
}

/// Until the id space is used up, each registration spends one id and nothing
/// gives an id back, so registered ids stay below the next one.
pub proof fn law_ids_are_spent_once(registry: RegistryView, steps: Seq<RegistryStep>)
    requires
        registry.ids_are_fresh(),
        registry.next_id + registrations(steps) <= u64::MAX,
    ensures
        after_changes(registry, steps).next_id == registry.next_id + registrations(steps),
        after_changes(registry, steps).ids_are_fresh(),
    decreases steps.len(),
{
    if steps.len() > 0 {
        law_ids_are_spent_once(registry, steps.drop_last());
    }
}

/// A worker registered later never gets the id of one registered earlier,
/// whatever was removed in between: a replacement cannot inherit the cache
/// affinity keyed to a removed worker.
pub proof fn law_ids_are_never_reused(
    registry: RegistryView,
    url: String,
    pool: Pool,
    between: Seq<RegistryStep>,
)
    requires
        registry.ids_are_fresh(),
        registry.next_id + 1 + registrations(between) <= u64::MAX,
    ensures
        ({
            let first = registry.next_id;
            let later = after_changes(registry.registered(url, pool), between);
            first < later.next_id && !later.workers.contains_key(later.next_id)
        }),
{
    law_ids_are_spent_once(registry.registered(url, pool), between);
}

/// Setting the health of one worker leaves every other worker as it was.
pub proof fn law_health_of_others_is_untouched(
    registry: RegistryView,
    id: WorkerId,
    healthy: bool,
    other: WorkerId,
)
    requires
        other != id,
    ensures
        registry.with_health(id, healthy).workers.contains_key(other)
            == registry.workers.contains_key(other),
        registry.workers.contains_key(other) ==> registry.with_health(id, healthy).workers[other]
            == registry.workers[other],
{
}

/// File a worker among workers that are ordered by id.
fn insert_by_id(listed: &mut Vec<Worker>, worker: Worker) -> (at: usize)
    requires
        forall|i: int, j: int| 0 <= i < j < old(listed)@.len() ==> old(listed)@[i].id < old(listed)@[j].id,
        forall|i: int| 0 <= i < old(listed)@.len() ==> (#[trigger] old(listed)@[i]).id != worker.id,
    ensures
        at <= old(listed)@.len(),
        final(listed)@ == old(listed)@.insert(at as int, worker),
        forall|i: int, j: int| 0 <= i < j < final(listed)@.len() ==> final(listed)@[i].id < final(listed)@[j].id,
{
    let mut at: usize = 0;
    while at < listed.len() && listed[at].id < worker.id
        invariant
            at <= listed@.len(),
            *listed == *old(listed),
            forall|i: int| 0 <= i < at ==> (#[trigger] listed@[i]).id < worker.id,
        decreases listed@.len() - at,
    {
        at += 1;
    }
    let ghost id = worker.id;
    let ghost before = listed@;
    listed.insert(at, worker);
    assert forall|i: int, j: int| 0 <= i < j < listed@.len() implies listed@[i].id < listed@[j].id by {
        let p: int = if i < at { i } else { i - 1 };
        let q: int = if j < at { j } else { j - 1 };
        if i != at && j != at {
            assert(before[p].id < before[q].id);
        } else if j == at {
            assert(before[i].id < id);
        } else {
            assert(before[at as int].id != id);
            if q > at {
                assert(before[at as int].id < before[q].id);
            }
        }
    }
    at
}

/// The healthy workers of a registry are exactly those marked healthy, each
/// once, as registered and ordered by id; all workers are listed the same way.
pub proof fn law_listings_are_complete(registry: RegistryView, id: WorkerId, i: int, j: int)
    requires
        registry.well_filed(),
    ensures
        ({
            let healthy = registry.healthy_workers();
            let all = registry.all_workers();
            &&& registry.workers.contains_key(id) && registry.workers[id].healthy <==> exists|k: int|
                0 <= k < healthy.len() && (#[trigger] healthy[k]).id == id
            &&& registry.workers.contains_key(id) <==> exists|k: int|
                0 <= k < all.len() && (#[trigger] all[k]).id == id
            &&& 0 <= i < healthy.len() ==> healthy[i] == registry.workers[healthy[i].id].worker
            &&& 0 <= i < all.len() ==> all[i] == registry.workers[all[i].id].worker
            &&& 0 <= i < j < healthy.len() ==> healthy[i].id < healthy[j].id
            &&& 0 <= i < j < all.len() ==> all[i].id < all[j].id
        }),
{
    let healthy = registry.healthy_workers();
    let all = registry.all_workers();
    law_healthy_workers_are_listed(registry);
    let ids = registry.workers.dom();
    assert forall|k: WorkerId| #[trigger] ids.contains(k) implies registry.workers[k].worker.id
        == k by {
        assert(registry.workers.contains_key(k));
    }
    lemma_listing_below(registry, ids, 0x1_0000_0000_0000_0000);
    assert(ids_below(ids, 0x1_0000_0000_0000_0000) =~= ids);
    assert(registry.lists(ids, all));
    if exists|k: int| 0 <= k < healthy.len() && (#[trigger] healthy[k]).id == id {
        let k = choose|k: int| 0 <= k < healthy.len() && (#[trigger] healthy[k]).id == id;
        assert(registry.healthy_ids().contains(healthy[k].id));
    }
    if registry.workers.contains_key(id) && registry.workers[id].healthy {
        assert(registry.healthy_ids().contains(id));
        let k = choose|k: int| 0 <= k < healthy.len() && healthy[k].id == id;
        assert(healthy[k].id == id);
    }
    if exists|k: int| 0 <= k < all.len() && (#[trigger] all[k]).id == id {
        let k = choose|k: int| 0 <= k < all.len() && (#[trigger] all[k]).id == id;
        assert(ids.contains(all[k].id));
    }
    if registry.workers.contains_key(id) {
        assert(ids.contains(id));
        let k = choose|k: int| 0 <= k < all.len() && all[k].id == id;
        assert(all[k].id == id);
    }
}

} // verus!
