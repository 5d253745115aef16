//! Worker discovery.
//!
//! Instead of a static worker list, the router can watch the endpoint slices
//! behind a headless service and reconcile the worker registry with the live
//! set of pod addresses:
//!
//! - new endpoints are registered as workers (unhealthy until the health poller
//!   confirms them),
//! - removed endpoints are dropped from the registry and purged from the prefix
//!   index: the dead pod's KV cache is gone, and a replacement pod (new address,
//!   new identity) must not inherit its cache affinity.

use vstd::prelude::*;

use crate::beliefs::{
    all_held, holds, law_purging_several_is_exact, law_purging_workers_is_exact,
    lemma_purge_one_more, match_len, without_workers, Belief,
};
use crate::config::Pool;
use crate::prefix::PrefixIndex;
use crate::string_map::{entry_map, lemma_entry_map, one_entry_each, StringMap};
use crate::urls::{all_distinct, lemma_text_set_push, lists_text, text_set, UrlSet};
use crate::worker::{RegistryView, Worker, WorkerId, WorkerRegistry, WorkerState};

verus! {

/// What reconciliation works on.
#[verifier::ext_equal]
pub struct DiscoveryView {
    /// The worker registry.
    pub registry: RegistryView,
    /// Beliefs about cached blocks.
    pub index: Map<u64, Belief>,
    /// Workers that discovery registered, by URL.
    pub known: Map<Seq<char>, WorkerId>,
}

/// URLs of known workers that are no longer wanted.
pub open spec fn gone_urls(known: Map<Seq<char>, WorkerId>, desired: Set<Seq<char>>) -> Set<
    Seq<char>,
> {
    known.dom().difference(desired)
}

/// Ids of known workers that are no longer wanted.
pub open spec fn gone_ids(known: Map<Seq<char>, WorkerId>, desired: Set<Seq<char>>) -> Set<
    WorkerId,
> {
    Set::new(
        |id: WorkerId|
            exists|url: Seq<char>| #[trigger]
                gone_urls(known, desired).contains(url) && known[url] == id,
    )
}

/// The wanted URLs that no known worker has, in order.
pub open spec fn missing(known: Map<Seq<char>, WorkerId>, desired: Seq<String>) -> Seq<String> {
    desired.filter(|url: String| !known.contains_key(url@))
}

impl RegistryView {
    /// The registry without some workers.
    pub open spec fn without(self, ids: Set<WorkerId>) -> RegistryView {
        RegistryView { workers: self.workers.remove_keys(ids), next_id: self.next_id }
    }
}

impl DiscoveryView {
    /// The workers that are no longer wanted are dropped and purged.
    pub open spec fn retired(self, desired: Set<Seq<char>>) -> DiscoveryView {
        DiscoveryView {
            registry: self.registry.without(gone_ids(self.known, desired)),
            index: without_workers(self.index, gone_ids(self.known, desired)),
            known: self.known.remove_keys(gone_urls(self.known, desired)),
        }
    }

    /// Each URL is registered as a worker that serves both phases.
    pub open spec fn enrolled(self, urls: Seq<String>) -> DiscoveryView
        decreases urls.len(),
    {
        if urls.len() == 0 {
            self
        } else {
            let before = self.enrolled(urls.drop_last());
            DiscoveryView {
                registry: before.registry.registered(urls.last(), Pool::Both),
                index: before.index,
                known: before.known.insert(urls.last()@, before.registry.next_id),
            }
        }
    }

    /// What reconciliation leaves: unwanted workers retired, then missing ones
    /// enrolled.
    pub open spec fn reconciled(self, desired: Seq<String>) -> DiscoveryView {
        self.retired(text_set(desired)).enrolled(missing(self.known, desired))
    }

    /// Every known worker is registered under the id and URL that discovery
    /// knows, no two share an id, and neither registry nor index speaks of an
    /// id that is still to be given out.
    pub open spec fn consistent(self) -> bool {
        &&& self.registry.well_filed()
        &&& self.registry.ids_are_fresh()
        &&& self.known.dom().finite()
        &&& forall|url: Seq<char>| #[trigger]
            self.known.contains_key(url) ==> self.registry.workers.contains_key(self.known[url])
                && self.registry.workers[self.known[url]].worker.url@ == url
        &&& forall|worker: WorkerId, hash: u64| #[trigger]
            holds(self.index, worker, hash) ==> worker < self.registry.next_id
    }
}

/// Worker registrations owned by discovery, by URL.
#[derive(Debug)]
pub struct DiscoveredWorkers {
    by_url: StringMap<WorkerId>,
}

impl View for DiscoveredWorkers {
    type V = Map<Seq<char>, WorkerId>;

    closed spec fn view(&self) -> Map<Seq<char>, WorkerId> {
        self.by_url@
    }
}

impl DiscoveredWorkers {
    /// Validity: no URL has two entries.
    pub closed spec fn wf(self) -> bool {
        self.by_url.wf()
    }

    /// Number of registrations.
    pub fn len(&self) -> (r: usize)
        requires
            self.wf(),
        ensures
            self@.dom().finite(),
            r == self@.dom().len(),
    {
        self.by_url.len()
    }

    /// The id of the worker registered for a URL.
    pub fn id_of(&self, url: &String) -> (r: Option<WorkerId>)
        requires
            self.wf(),
        ensures
            r == if self@.contains_key(url@) {
                Some(self@[url@])
            } else {
                None
            },
    {
        match self.by_url.get(url) {
            Some(id) => Some(*id),
            None => None,
        }
    }
}

impl Default for DiscoveredWorkers {
    /// No registrations yet.
    fn default() -> (r: DiscoveredWorkers)
        ensures
            r.wf(),
            r@ == Map::<Seq<char>, WorkerId>::empty(),
    {
        DiscoveredWorkers { by_url: StringMap::new() }
    }
}

/// One more entry: what is gone grows by it exactly where it is unwanted.
proof fn lemma_gone_one_more(
    known: Map<Seq<char>, WorkerId>,
    desired: Set<Seq<char>>,
    url: Seq<char>,
    id: WorkerId,
)
    requires
        !known.contains_key(url),
    ensures
        desired.contains(url) ==> {
            &&& gone_urls(known.insert(url, id), desired) == gone_urls(known, desired)
            &&& gone_ids(known.insert(url, id), desired) == gone_ids(known, desired)
        },
        !desired.contains(url) ==> {
            &&& gone_urls(known.insert(url, id), desired) == gone_urls(known, desired).insert(url)
            &&& gone_ids(known.insert(url, id), desired) == gone_ids(known, desired).insert(id)
            &&& !gone_urls(known, desired).contains(url)
        },
{
    let more = known.insert(url, id);
    let urls = gone_urls(known, desired);
    let more_urls = gone_urls(more, desired);
    if desired.contains(url) {
        assert(more_urls =~= urls);
    } else {
        assert(more_urls =~= urls.insert(url));
        assert(more_urls.contains(url) && more[url] == id);
    }
    assert forall|i: WorkerId| #[trigger] gone_ids(known, desired).contains(i) implies gone_ids(
        more,
        desired,
    ).contains(i) by {
        let u = choose|u: Seq<char>| #[trigger] urls.contains(u) && known[u] == i;
        assert(more_urls.contains(u) && more[u] == i);
    }
    assert forall|i: WorkerId| #[trigger] gone_ids(more, desired).contains(i) implies gone_ids(
        known,
        desired,
    ).contains(i) || (!desired.contains(url) && i == id) by {
        let u = choose|u: Seq<char>| #[trigger] more_urls.contains(u) && more[u] == i;
        if u != url {
            assert(urls.contains(u) && known[u] == i);
        }
    }
    if desired.contains(url) {
        assert(gone_ids(more, desired) =~= gone_ids(known, desired));
    } else {
        assert(gone_ids(more, desired) =~= gone_ids(known, desired).insert(id));
    }
}

/// Drop the workers whose URLs are no longer desired from the registry and
/// the prefix index. Returns the entries that stay and how many left.
fn retire(
    registry: &mut WorkerRegistry,
    index: &mut PrefixIndex,
    entries: &Vec<(String, WorkerId)>,
    desired: &UrlSet,
) -> (r: (Vec<(String, WorkerId)>, usize))
    requires
        old(registry).wf(),
        old(index).wf(),
        one_entry_each(entries@),
        desired.wf(),
    ensures
        final(registry).wf(),
        final(index).wf(),
        one_entry_each(r.0@),
        ({
            let before = DiscoveryView {
                registry: old(registry)@,
                index: old(index)@,
                known: entry_map(entries@),
            };
            let after = DiscoveryView {
                registry: final(registry)@,
                index: final(index)@,
                known: entry_map(r.0@),
            };
            &&& after == before.retired(text_set(desired@))
            &&& r.1 == gone_urls(before.known, text_set(desired@)).len()
        }),
{
    let ghost wanted = text_set(desired@);
    let mut kept: Vec<(String, WorkerId)> = Vec::new();
    let mut removed: usize = 0;
    let mut i: usize = 0;
    proof {
        index.law_every_entry_is_held();
        lemma_purge_one_more(index@, Set::empty(), 0);
        let none = entry_map(entries@.take(0));
        assert(gone_urls(none, wanted) =~= Set::empty());
        assert(gone_ids(none, wanted) =~= Set::empty());
        assert(registry@.workers =~= old(registry)@.without(gone_ids(none, wanted)).workers);
        assert(none.remove_keys(gone_urls(none, wanted)) =~= none);
    }
    while i < entries.len()
        invariant
            registry.wf(),
            index.wf(),
            wanted == text_set(desired@),
            i <= entries@.len(),
            removed <= i,
            one_entry_each(entries@),
            one_entry_each(kept@),
            all_held(old(index)@),
            registry@ == old(registry)@.without(
                gone_ids(entry_map(entries@.take(i as int)), wanted),
            ),
            index@ == without_workers(
                old(index)@,
                gone_ids(entry_map(entries@.take(i as int)), wanted),
            ),
            entry_map(kept@) == entry_map(entries@.take(i as int)).remove_keys(
                gone_urls(entry_map(entries@.take(i as int)), wanted),
            ),
            removed == gone_urls(entry_map(entries@.take(i as int)), wanted).len(),
        decreases entries@.len() - i,
    {
        let ghost seen = entries@.take(i as int);
        let ghost seen_map = entry_map(seen);
        let ghost kept_before = kept@;
        let id = entries[i].1;
        let ghost url = entries@[i as int].0@;
        proof {
            assert(entries@.take(i + 1).drop_last() =~= seen);
            assert(entries@.take(i + 1).last() == entries@[i as int]);
            lemma_entry_map(seen);
            assert(!seen_map.contains_key(url)) by {
                if seen_map.contains_key(url) {
                    let k = choose|k: int| 0 <= k < seen.len() && (#[trigger] seen[k]).0@ == url;
                    assert(entries@[k].0@ == entries@[i as int].0@);
                }
            }
            lemma_gone_one_more(seen_map, wanted, url, id);
            lemma_purge_one_more(old(index)@, gone_ids(seen_map, wanted), id);
            lemma_entry_map(kept@);
        }
        if desired.contains(&entries[i].0) {
            kept.push((entries[i].0.clone(), id));
            proof {
                assert(kept@.drop_last() =~= kept_before);
                let more = seen_map.insert(url, id);
                assert(more.remove_keys(gone_urls(seen_map, wanted)) =~= seen_map.remove_keys(
                    gone_urls(seen_map, wanted),
                ).insert(url, id));
                assert forall|a: int, b: int| 0 <= a < b < kept@.len() implies (#[trigger]
                kept@[a]).0@ != (#[trigger] kept@[b]).0@ by {
                    if b == kept_before.len() {
                        assert(entry_map(kept_before).contains_key(kept_before[a].0@));
                    } else {
                        assert(kept_before[a].0@ != kept_before[b].0@);
                    }
                }
            }
        } else {
            index.remove_worker(id);
            let _ = registry.remove_worker(id);
            removed += 1;
            proof {
                let more = seen_map.insert(url, id);
                assert(more.remove_keys(gone_urls(seen_map, wanted).insert(url))
                    =~= seen_map.remove_keys(gone_urls(seen_map, wanted)));
                assert(registry@.workers =~= old(registry)@.without(
                    gone_ids(seen_map, wanted).insert(id),
                ).workers);
            }
        }
        i += 1;
    }
    assert(entries@.take(i as int) =~= entries@);
    (kept, removed)
}

/// Reconcile the registry and prefix index with the desired set of workers.
/// Returns how many workers were removed and how many were added.
pub fn reconcile(
    registry: &mut WorkerRegistry,
    index: &mut PrefixIndex,
    discovered: &mut DiscoveredWorkers,
    desired_urls: &UrlSet,
) -> (r: (usize, usize))
    requires
        old(registry).wf(),
        old(index).wf(),
        old(discovered).wf(),
        desired_urls.wf(),
    ensures
        final(registry).wf(),
        final(index).wf(),
        final(discovered).wf(),
        ({
            let before = DiscoveryView {
                registry: old(registry)@,
                index: old(index)@,
                known: old(discovered)@,
            };
            let after = DiscoveryView {
                registry: final(registry)@,
                index: final(index)@,
                known: final(discovered)@,
            };
            &&& after == before.reconciled(desired_urls@)
            &&& r.0 == gone_urls(before.known, text_set(desired_urls@)).len()
            &&& r.1 == missing(before.known, desired_urls@).len()
        }),
{
    let ghost before = DiscoveryView {
        registry: registry@,
        index: index@,
        known: discovered@,
    };
    let ghost wanted = text_set(desired_urls@);
    let (kept, removed) = retire(registry, index, discovered.by_url.entries(), desired_urls);
    let mut known = StringMap::from_entries(kept);
    let ghost middle = before.retired(wanted);
    let mut added: usize = 0;
    let mut i: usize = 0;
    proof {
        reveal(Seq::filter);
        assert(desired_urls@.take(0) =~= seq![]);
        assert(missing(before.known, desired_urls@.take(0)) =~= seq![]);
        assert(text_set(desired_urls@.take(0)) =~= Set::empty());
        assert(middle.known.dom().union(text_set(desired_urls@.take(0))) =~= middle.known.dom());
    }
    while i < desired_urls.len()
        invariant
            registry.wf(),
            desired_urls.wf(),
            wanted == text_set(desired_urls@),
            middle == before.retired(wanted),
            i <= desired_urls@.len(),
            added <= i,
            known.wf(),
            (DiscoveryView { registry: registry@, index: index@, known: known@ })
                == middle.enrolled(missing(before.known, desired_urls@.take(i as int))),
            known@.dom() == middle.known.dom().union(
                text_set(desired_urls@.take(i as int)),
            ),
            added == missing(before.known, desired_urls@.take(i as int)).len(),
        decreases desired_urls@.len() - i,
    {
        let ghost done = desired_urls@.take(i as int);
        let ghost next = desired_urls@[i as int];
        let ghost known_before = known@;
        proof {
            reveal(Seq::filter);
            assert(desired_urls@.take(i + 1) =~= done.push(next));
            assert(desired_urls@.take(i + 1).drop_last() =~= done);
            lemma_text_set_push(done, next);
            assert(!lists_text(done, next@)) by {
                if lists_text(done, next@) {
                    let k = choose|k: int| 0 <= k < done.len() && (#[trigger] done[k])@ == next@;
                    assert(desired_urls@[k]@ == desired_urls@[i as int]@);
                }
            }
            assert(lists_text(desired_urls@, next@)) by {
                assert(desired_urls@[i as int]@ == next@);
            }
            assert(middle.known.contains_key(next@) <==> before.known.contains_key(next@));
            assert(middle.known.dom().union(text_set(done)).insert(next@)
                =~= middle.known.dom().union(text_set(done.push(next))));
        }
        let url = desired_urls.get(i);
        if known.get(url).is_none() {
            let id = registry.register_worker(url.clone(), Pool::Both);
            known.insert(url.clone(), id);
            added += 1;
            proof {
                let old_missing = missing(before.known, done);
                assert(missing(before.known, done.push(next)) =~= old_missing.push(next));
                assert(old_missing.push(next).drop_last() =~= old_missing);
                assert(known@.dom() =~= known_before.dom().insert(next@));
            }
        } else {
            assert(missing(before.known, done.push(next)) =~= missing(before.known, done));
            assert(known@.dom() =~= middle.known.dom().union(text_set(done.push(next))));
        }
        i += 1;
    }
    assert(desired_urls@.take(i as int) =~= desired_urls@);
    discovered.by_url = known;
    (removed, added)
}

proof fn lemma_missing(known: Map<Seq<char>, WorkerId>, desired: Seq<String>)
    ensures
        forall|k: int|
            0 <= k < missing(known, desired).len() ==> !known.contains_key(
                (#[trigger] missing(known, desired)[k])@,
            ) && lists_text(desired, missing(known, desired)[k]@),
        forall|url: Seq<char>| #[trigger]
            lists_text(desired, url) && !known.contains_key(url) ==> lists_text(
                missing(known, desired),
                url,
            ),
        all_distinct(desired) ==> all_distinct(missing(known, desired)),
    decreases desired.len(),
{
    reveal(Seq::filter);
    if desired.len() > 0 {
        let head = desired.drop_last();
        let some = missing(known, head);
        let all = missing(known, desired);
        lemma_missing(known, head);
        assert forall|k: int| 0 <= k < all.len() implies !known.contains_key((#[trigger] all[k])@)
            && lists_text(desired, all[k]@) by {
            if k < some.len() {
                assert(all[k] == some[k]);
                assert(lists_text(head, some[k]@));
                let j = choose|j: int| 0 <= j < head.len() && (#[trigger] head[j])@ == some[k]@;
                assert(desired[j]@ == all[k]@);
            } else {
                assert(desired[desired.len() - 1]@ == all[k]@);
            }
        }
        assert forall|url: Seq<char>| #[trigger]
            lists_text(desired, url) && !known.contains_key(url) implies lists_text(all, url) by {
            let j = choose|j: int| 0 <= j < desired.len() && (#[trigger] desired[j])@ == url;
            if j < head.len() {
                assert(head[j]@ == url);
                assert(lists_text(head, url));
                let k = choose|k: int| 0 <= k < some.len() && (#[trigger] some[k])@ == url;
                assert(all[k]@ == url);
            } else {
                assert(all[all.len() - 1]@ == url);
            }
        }
        if all_distinct(desired) {
            assert forall|i: int, j: int| 0 <= i < j < head.len() implies (#[trigger] head[i])@ != (
            #[trigger] head[j])@ by {
                assert(desired[i]@ != desired[j]@);
            }
            assert forall|i: int, j: int| 0 <= i < j < all.len() implies (#[trigger] all[i])@ != (
            #[trigger] all[j])@ by {
                if j < some.len() {
                    assert(some[i]@ != some[j]@);
                } else {
                    assert(lists_text(head, some[i]@));
                    let k = choose|k: int| 0 <= k < head.len() && (#[trigger] head[k])@ == some[i]@;
                    assert(desired[k]@ != desired[desired.len() - 1]@);
                }
            }
        }
    }
}

proof fn lemma_enrolled_urls(before: DiscoveryView, urls: Seq<String>)
    ensures
        before.enrolled(urls).index == before.index,
        forall|url: Seq<char>| #[trigger]
            before.enrolled(urls).known.contains_key(url) <==> before.known.contains_key(url)
                || lists_text(urls, url),
        forall|url: Seq<char>|
            before.known.contains_key(url) && !lists_text(urls, url) ==> #[trigger] before.enrolled(
                urls,
            ).known[url] == before.known[url],
    decreases urls.len(),
{
    if urls.len() > 0 {
        let head = urls.drop_last();
        lemma_enrolled_urls(before, head);
        assert(urls =~= head.push(urls.last()));
        lemma_text_set_push(head, urls.last());
        assert forall|url: Seq<char>| lists_text(urls, url) <==> lists_text(head, url) || url
            == urls.last()@ by {
            assert(text_set(urls).contains(url) <==> text_set(head).insert(
                urls.last()@,
            ).contains(url));
        }
    }
}

proof fn lemma_enrolled_ids(before: DiscoveryView, urls: Seq<String>)
    requires
        all_distinct(urls),
        before.registry.next_id + urls.len() <= u64::MAX,
    ensures
        ({
            let after = before.enrolled(urls);
            let first = before.registry.next_id as int;
            &&& after.registry.next_id == first + urls.len()
            &&& forall|i: int|
                0 <= i < urls.len() ==> after.known[(#[trigger] urls[i])@] == first + i
            &&& forall|id: WorkerId| #[trigger]
                after.registry.workers.contains_key(id) <==> (first <= id < first + urls.len()
                    || before.registry.workers.contains_key(id))
            &&& forall|id: WorkerId|
                !(first <= id < first + urls.len()) ==> #[trigger] after.registry.workers[id]
                    == before.registry.workers[id]
            &&& forall|i: int|
                0 <= i < urls.len() ==> after.registry.workers[(first + i) as u64]
                    == newcomer((first + i) as u64, #[trigger] urls[i])
        }),
    decreases urls.len(),
{
    if urls.len() > 0 {
        let head = urls.drop_last();
        assert forall|i: int, j: int| 0 <= i < j < head.len() implies (#[trigger] head[i])@ != (
        #[trigger] head[j])@ by {
            assert(urls[i]@ != urls[j]@);
        }
        lemma_enrolled_ids(before, head);
        let after = before.enrolled(urls);
        let first = before.registry.next_id as int;
        let middle = before.enrolled(head);
        assert forall|i: int| 0 <= i < urls.len() implies after.known[(#[trigger] urls[i])@]
            == first + i by {
            if i < head.len() {
                assert(head[i] == urls[i]);
                assert(urls[i]@ != urls[urls.len() - 1]@);
            }
        }
        assert forall|i: int| 0 <= i < urls.len() implies after.registry.workers[(first
            + i) as u64] == newcomer((first + i) as u64, #[trigger] urls[i]) by {
            if i < head.len() {
                assert(head[i] == urls[i]);
                assert((first + i) as u64 != middle.registry.next_id);
                assert(middle.registry.workers[(first + i) as u64] == newcomer(
                    (first + i) as u64,
                    head[i],
                ));
            }
        }
    }
}

/// The state of a worker that discovery has just registered.
pub open spec fn newcomer(id: WorkerId, url: String) -> WorkerState {
    WorkerState { worker: Worker { id, url, pool: Pool::Both }, healthy: false }
}

/// Ids are left for every worker that reconciliation would register.
pub open spec fn ids_suffice(before: DiscoveryView, desired: Seq<String>) -> bool {
    before.registry.next_id + missing(before.known, desired).len() <= u64::MAX
}

/// Reconciliation reaches the desired set: afterwards discovery knows exactly
/// the desired URLs.
pub proof fn law_discovery_reaches_the_desired_set(before: DiscoveryView, desired: Seq<String>)
    ensures
        before.reconciled(desired).known.dom() == text_set(desired),
{
    let wanted = text_set(desired);
    let middle = before.retired(wanted);
    lemma_missing(before.known, desired);
    lemma_enrolled_urls(middle, missing(before.known, desired));
    assert forall|url: Seq<char>| #[trigger]
        before.reconciled(desired).known.contains_key(url) <==> wanted.contains(url) by {
        if lists_text(missing(before.known, desired), url) {
            let k = choose|k: int|
                0 <= k < missing(before.known, desired).len() && (#[trigger] missing(
                    before.known,
                    desired,
                )[k])@ == url;
            assert(lists_text(desired, missing(before.known, desired)[k]@));
        }
    }
    assert(before.reconciled(desired).known.dom() =~= wanted);
}

/// No wanted worker shares its id with one that is gone.
proof fn lemma_kept_is_not_gone(before: DiscoveryView, desired: Seq<String>, url: Seq<char>)
    requires
        before.consistent(),
        before.known.contains_key(url),
    ensures
        gone_ids(before.known, text_set(desired)).contains(before.known[url]) <==> !lists_text(
            desired,
            url,
        ),
{
    let wanted = text_set(desired);
    let id = before.known[url];
    if gone_ids(before.known, wanted).contains(id) {
        let u = choose|u: Seq<char>| #[trigger]
            gone_urls(before.known, wanted).contains(u) && before.known[u] == id;
        assert(before.known.contains_key(u));
        assert(before.registry.workers[id].worker.url@ == u);
        assert(before.registry.workers[id].worker.url@ == url);
    }
    if !lists_text(desired, url) {
        assert(gone_urls(before.known, wanted).contains(url));
    }
}

/// A worker whose URL stays wanted keeps its id, its health and everything it
/// is believed to hold.
pub proof fn law_survivors_keep_their_identity(
    before: DiscoveryView,
    desired: Seq<String>,
    url: Seq<char>,
    probe: Seq<u64>,
)
    requires
        before.consistent(),
        all_distinct(desired),
        ids_suffice(before, desired),
        before.known.contains_key(url),
        lists_text(desired, url),
    ensures
        ({
            let after = before.reconciled(desired);
            let id = before.known[url];
            &&& after.known.contains_key(url) && after.known[url] == id
            &&& after.registry.workers.contains_key(id)
            &&& after.registry.workers[id] == before.registry.workers[id]
            &&& match_len(after.index, id, probe) == match_len(before.index, id, probe)
        }),
{
    let wanted = text_set(desired);
    let middle = before.retired(wanted);
    let fresh = missing(before.known, desired);
    let id = before.known[url];
    lemma_missing(before.known, desired);
    lemma_enrolled_urls(middle, fresh);
    lemma_enrolled_ids(middle, fresh);
    lemma_kept_is_not_gone(before, desired, url);
    law_purging_workers_is_exact(before.index, gone_ids(before.known, wanted), id, probe);
    assert(!lists_text(fresh, url)) by {
        if lists_text(fresh, url) {
            let k = choose|k: int| 0 <= k < fresh.len() && (#[trigger] fresh[k])@ == url;
            assert(!before.known.contains_key(fresh[k]@));
        }
    }
    assert(before.registry.workers.contains_key(id));
}

/// A worker whose URL is gone leaves the registry, and nothing matches
/// against it any more.
pub proof fn law_gone_workers_leave_no_trace(
    before: DiscoveryView,
    desired: Seq<String>,
    url: Seq<char>,
    probe: Seq<u64>,
)
    requires
        before.consistent(),
        all_distinct(desired),
        ids_suffice(before, desired),
        before.known.contains_key(url),
        !lists_text(desired, url),
    ensures
        ({
            let after = before.reconciled(desired);
            let id = before.known[url];
            &&& !after.known.contains_key(url)
            &&& !after.registry.workers.contains_key(id)
            &&& match_len(after.index, id, probe) == 0
        }),
{
    let wanted = text_set(desired);
    let middle = before.retired(wanted);
    let fresh = missing(before.known, desired);
    let id = before.known[url];
    lemma_missing(before.known, desired);
    lemma_enrolled_urls(middle, fresh);
    lemma_enrolled_ids(middle, fresh);
    lemma_kept_is_not_gone(before, desired, url);
    law_purging_workers_is_exact(before.index, gone_ids(before.known, wanted), id, probe);
    law_discovery_reaches_the_desired_set(before, desired);
    assert(!wanted.contains(url));
    assert(before.reconciled(desired).known.contains_key(url) ==> before.reconciled(
        desired,
    ).known.dom().contains(url));
    assert(before.registry.workers.contains_key(id));
}

/// A newly wanted URL gets a worker with an id that was never given out
/// before; it serves both phases, starts unhealthy and has no affinity.
pub proof fn law_new_workers_start_fresh(
    before: DiscoveryView,
    desired: Seq<String>,
    url: Seq<char>,
    probe: Seq<u64>,
)
    requires
        before.consistent(),
        all_distinct(desired),
        ids_suffice(before, desired),
        !before.known.contains_key(url),
        lists_text(desired, url),
    ensures
        ({
            let after = before.reconciled(desired);
            let id = after.known[url];
            &&& after.known.contains_key(url)
            &&& id >= before.registry.next_id
            &&& !before.registry.workers.contains_key(id)
            &&& after.registry.workers.contains_key(id)
            &&& after.registry.workers[id].worker.id == id
            &&& after.registry.workers[id].worker.url@ == url
            &&& after.registry.workers[id].worker.pool == Pool::Both
            &&& !after.registry.workers[id].healthy
            &&& match_len(after.index, id, probe) == 0
        }),
{
    let wanted = text_set(desired);
    let middle = before.retired(wanted);
    let fresh = missing(before.known, desired);
    lemma_missing(before.known, desired);
    lemma_enrolled_urls(middle, fresh);
    lemma_enrolled_ids(middle, fresh);
    assert(lists_text(fresh, url));
    let k = choose|k: int| 0 <= k < fresh.len() && (#[trigger] fresh[k])@ == url;
    let after = before.reconciled(desired);
    let id = after.known[url];
    assert(after.known[fresh[k]@] == before.registry.next_id + k);
    assert(id == (before.registry.next_id + k) as u64);
    assert(after.registry.workers[id] == newcomer(id, fresh[k]));
    law_purging_workers_is_exact(before.index, gone_ids(before.known, wanted), id, probe);
    if probe.len() > 0 {
        assert(!holds(before.index, id, probe[0]));
    }
}

/// Workers that discovery did not register are left alone.
pub proof fn law_other_workers_are_untouched(
    before: DiscoveryView,
    desired: Seq<String>,
    id: WorkerId,
    probe: Seq<u64>,
)
    requires
        before.consistent(),
        all_distinct(desired),
        ids_suffice(before, desired),
        before.registry.workers.contains_key(id),
        forall|url: Seq<char>| #[trigger] before.known.contains_key(url) ==> before.known[url] != id,
    ensures
        ({
            let after = before.reconciled(desired);
            &&& after.registry.workers.contains_key(id)
            &&& after.registry.workers[id] == before.registry.workers[id]
            &&& match_len(after.index, id, probe) == match_len(before.index, id, probe)
        }),
{
    let wanted = text_set(desired);
    let middle = before.retired(wanted);
    let fresh = missing(before.known, desired);
    lemma_missing(before.known, desired);
    lemma_enrolled_urls(middle, fresh);
    lemma_enrolled_ids(middle, fresh);
    assert(!gone_ids(before.known, wanted).contains(id)) by {
        if gone_ids(before.known, wanted).contains(id) {
            let u = choose|u: Seq<char>| #[trigger]
                gone_urls(before.known, wanted).contains(u) && before.known[u] == id;
            assert(before.known.contains_key(u));
        }
    }
    law_purging_workers_is_exact(before.index, gone_ids(before.known, wanted), id, probe);
}

/// Reconciliation keeps what discovery, registry and index know of each other
/// consistent.
pub proof fn law_reconciling_keeps_consistency(before: DiscoveryView, desired: Seq<String>)
    requires
        before.consistent(),
        all_distinct(desired),
        ids_suffice(before, desired),
    ensures
        before.reconciled(desired).consistent(),
{
    let wanted = text_set(desired);
    let middle = before.retired(wanted);
    let fresh = missing(before.known, desired);
    let after = before.reconciled(desired);
    let first = before.registry.next_id as int;
    lemma_missing(before.known, desired);
    lemma_enrolled_urls(middle, fresh);
    lemma_enrolled_ids(middle, fresh);
    assert(middle.registry.workers.dom() =~= before.registry.workers.dom().difference(
        gone_ids(before.known, wanted),
    ));
    assert(middle.known.dom() =~= before.known.dom().difference(
        gone_urls(before.known, wanted),
    ));
    lemma_enrolled_finite(middle, fresh);
    assert forall|id: WorkerId| #[trigger]
        after.registry.workers.contains_key(id) implies after.registry.workers[id].worker.id == id
        && id < after.registry.next_id by {
        if first <= id < first + fresh.len() {
            let i = id - first;
            assert(after.registry.workers[(first + i) as u64] == newcomer(
                (first + i) as u64,
                fresh[i],
            ));
        } else {
            assert(before.registry.workers.contains_key(id));
        }
    }
    assert forall|url: Seq<char>| #[trigger]
        after.known.contains_key(url) implies after.registry.workers.contains_key(after.known[url])
        && after.registry.workers[after.known[url]].worker.url@ == url by {
        if lists_text(fresh, url) {
            let k = choose|k: int| 0 <= k < fresh.len() && (#[trigger] fresh[k])@ == url;
            assert(after.known[fresh[k]@] == first + k);
            assert(after.registry.workers[(first + k) as u64] == newcomer(
                (first + k) as u64,
                fresh[k],
            ));
        } else {
            assert(middle.known.contains_key(url));
            assert(before.known.contains_key(url));
            assert(wanted.contains(url));
            law_survivors_keep_their_identity(before, desired, url, seq![]);
        }
    }
    assert forall|worker: WorkerId, hash: u64| #[trigger]
        holds(after.index, worker, hash) implies worker < after.registry.next_id by {
        assert(holds(before.index, worker, hash));
    }
}

proof fn lemma_enrolled_finite(before: DiscoveryView, urls: Seq<String>)
    requires
        before.registry.workers.dom().finite(),
        before.known.dom().finite(),
    ensures
        before.enrolled(urls).registry.workers.dom().finite(),
        before.enrolled(urls).known.dom().finite(),
    decreases urls.len(),
{
    if urls.len() > 0 {
        lemma_enrolled_finite(before, urls.drop_last());
    }
}

/// An empty desired set removes exactly the workers that discovery registered;
/// every other worker stays as it is.
pub proof fn law_nothing_desired_removes_exactly_the_discovered(
    before: DiscoveryView,
    id: WorkerId,
)
    ensures
        ({
            let after = before.reconciled(seq![]);
            let owned = exists|url: Seq<char>| #[trigger]
                before.known.contains_key(url) && before.known[url] == id;
            &&& after.known == Map::<Seq<char>, WorkerId>::empty()
            &&& after.registry.next_id == before.registry.next_id
            &&& after.registry.workers.contains_key(id) <==> before.registry.workers.contains_key(
                id,
            ) && !owned
            &&& after.registry.workers.contains_key(id) ==> after.registry.workers[id]
                == before.registry.workers[id]
        }),
{
    let none: Seq<String> = seq![];
    let wanted = text_set(none);
    reveal(Seq::filter);
    assert(missing(before.known, none) =~= none);
    assert(wanted =~= Set::empty());
    let gone = gone_ids(before.known, wanted);
    assert(gone_urls(before.known, wanted) =~= before.known.dom());
    if gone.contains(id) {
        let url = choose|url: Seq<char>| #[trigger]
            gone_urls(before.known, wanted).contains(url) && before.known[url] == id;
        assert(before.known.contains_key(url) && before.known[url] == id);
    }
    if exists|url: Seq<char>| #[trigger]
        before.known.contains_key(url) && before.known[url] == id {
        let url = choose|url: Seq<char>| #[trigger]
            before.known.contains_key(url) && before.known[url] == id;
        assert(gone_urls(before.known, wanted).contains(url) && before.known[url] == id);
    }
    assert(before.reconciled(none).known =~= Map::empty());
}

/// Reconciling again with the same desired set finds nothing to do.
pub proof fn law_reconciling_is_idempotent(before: DiscoveryView, desired: Seq<String>)
    ensures
        ({
            let once = before.reconciled(desired);
            &&& gone_urls(once.known, text_set(desired)) == Set::<Seq<char>>::empty()
            &&& missing(once.known, desired) == Seq::<String>::empty()
            &&& once.reconciled(desired) == once
        }),
{
    let wanted = text_set(desired);
    let once = before.reconciled(desired);
    law_discovery_reaches_the_desired_set(before, desired);
    assert(gone_urls(once.known, wanted) =~= Set::empty());
    assert(gone_ids(once.known, wanted) =~= Set::empty());
    lemma_missing(once.known, desired);
    assert(missing(once.known, desired) =~= seq![]) by {
        if missing(once.known, desired).len() > 0 {
            let url = missing(once.known, desired)[0]@;
            assert(wanted.contains(url));
            assert(once.known.dom().contains(url));
        }
    }
    assert(once.registry.without(Set::empty()).workers =~= once.registry.workers);
    assert(once.known.remove_keys(Set::empty()) =~= once.known);
    lemma_enrolled_urls(before.retired(wanted), missing(before.known, desired));
    lemma_purge_one_more(once.index, Set::empty(), 0);
}

/// What reconciliation counts: the known URLs that are not desired, and the
/// desired ones that were not known.
pub proof fn law_reconciling_counts_changes(known: Map<Seq<char>, WorkerId>, desired: Seq<String>)
    requires
        all_distinct(desired),
    ensures
        gone_urls(known, text_set(desired)) == known.dom().difference(text_set(desired)),
        missing(known, desired).len() == text_set(desired).difference(known.dom()).len(),
{
    let fresh = missing(known, desired);
    lemma_missing(known, desired);
    assert(text_set(fresh) =~= text_set(desired).difference(known.dom())) by {
        assert forall|url: Seq<char>|
            text_set(fresh).contains(url) <==> text_set(desired).difference(known.dom()).contains(
                url,
            ) by {
            if lists_text(fresh, url) {
                let k = choose|k: int| 0 <= k < fresh.len() && (#[trigger] fresh[k])@ == url;
                assert(lists_text(desired, fresh[k]@));
            }
        }
    }
    lemma_distinct_count(fresh);
}

proof fn lemma_distinct_count(strings: Seq<String>)
    requires
        all_distinct(strings),
    ensures
        text_set(strings).finite(),
        text_set(strings).len() == strings.len(),
    decreases strings.len(),
{
    if strings.len() == 0 {
        assert(text_set(strings) =~= Set::empty());
    } else {
        let head = strings.drop_last();
        assert forall|i: int, j: int| 0 <= i < j < head.len() implies (#[trigger] head[i])@ != (
        #[trigger] head[j])@ by {
            assert(strings[i]@ != strings[j]@);
        }
        lemma_distinct_count(head);
        assert(strings =~= head.push(strings.last()));
        lemma_text_set_push(head, strings.last());
        assert(!lists_text(head, strings.last()@)) by {
            if lists_text(head, strings.last()@) {
                let k = choose|k: int|
                    0 <= k < head.len() && (#[trigger] head[k])@ == strings.last()@;
                assert(strings[k]@ != strings[strings.len() - 1]@);
            }
        }
    }
}

/// Reconciliation, worker by worker. A worker stays registered, as it was,
/// unless discovery knew it under a URL that is no longer desired. A worker that
/// was not registered before is the newcomer for a desired URL that was not
/// known: unhealthy, and serving both phases.
pub proof fn law_reconciling_is_exact(before: DiscoveryView, desired: Seq<String>, id: WorkerId)
    requires
        before.consistent(),
        all_distinct(desired),
        before.registry.next_id + missing(before.known, desired).len() <= u64::MAX,
    ensures
        ({
            let after = before.reconciled(desired);
            let dropped = exists|url: Seq<char>| #[trigger]
                before.known.contains_key(url) && before.known[url] == id && !(exists|k: int|
                    0 <= k < desired.len() && (#[trigger] desired[k])@ == url);
            &&& before.registry.workers.contains_key(id) ==> {
                &&& after.registry.workers.contains_key(id) <==> !dropped
                &&& !dropped ==> after.registry.workers[id] == before.registry.workers[id]
            }
            &&& !before.registry.workers.contains_key(id) && after.registry.workers.contains_key(id)
                ==> {
                let state = after.registry.workers[id];
                &&& state.worker.id == id
                &&& state.worker.pool == Pool::Both
                &&& !state.healthy
                &&& !before.known.contains_key(state.worker.url@)
                &&& exists|k: int|
                    0 <= k < desired.len() && (#[trigger] desired[k])@ == state.worker.url@
                &&& after.known[state.worker.url@] == id
            }
        }),
{
    let wanted = text_set(desired);
    let middle = before.retired(wanted);
    let fresh = missing(before.known, desired);
    let after = before.reconciled(desired);
    let first = before.registry.next_id as int;
    lemma_missing(before.known, desired);
    lemma_enrolled_urls(middle, fresh);
    lemma_enrolled_ids(middle, fresh);
    if before.registry.workers.contains_key(id) {
        assert(id < before.registry.next_id);
        if gone_ids(before.known, wanted).contains(id) {
            let url = choose|url: Seq<char>| #[trigger]
                gone_urls(before.known, wanted).contains(url) && before.known[url] == id;
            assert(before.known.contains_key(url));
            assert(!lists_text(desired, url));
        }
        if exists|url: Seq<char>| #[trigger]
            before.known.contains_key(url) && before.known[url] == id && !(exists|k: int|
                0 <= k < desired.len() && (#[trigger] desired[k])@ == url) {
            let url = choose|url: Seq<char>| #[trigger]
                before.known.contains_key(url) && before.known[url] == id && !(exists|k: int|
                    0 <= k < desired.len() && (#[trigger] desired[k])@ == url);
            assert(!lists_text(desired, url));
            assert(gone_urls(before.known, wanted).contains(url));
            assert(gone_ids(before.known, wanted).contains(id));
        }
    } else if after.registry.workers.contains_key(id) {
        assert(!middle.registry.workers.contains_key(id));
        let i = id - first;
        assert(after.registry.workers[(first + i) as u64] == newcomer(
            (first + i) as u64,
            fresh[i],
        ));
        assert(after.known[fresh[i]@] == first + i);
        assert(lists_text(desired, fresh[i]@));
    }
}

/// Reconciliation takes the workers whose URLs are no longer desired off every
/// block of the index and changes no other belief: what others hold stays, and
/// no block is touched.
pub proof fn law_reconciling_purges_exactly_the_gone(
    before: DiscoveryView,
    desired: Seq<String>,
    worker: WorkerId,
    hash: u64,
)
    ensures
        ({
            let after = before.reconciled(desired);
            let dropped = exists|url: Seq<char>| #[trigger]
                before.known.contains_key(url) && before.known[url] == worker && !(exists|k: int|
                    0 <= k < desired.len() && (#[trigger] desired[k])@ == url);
            let held_before = before.index.contains_key(hash)
                && before.index[hash].workers.contains(worker);
            let held_after = after.index.contains_key(hash)
                && after.index[hash].workers.contains(worker);
            &&& held_after <==> held_before && !dropped
            &&& after.index.contains_key(hash) ==> before.index.contains_key(hash)
                && after.index[hash].last_touched == before.index[hash].last_touched
        }),
{
    let wanted = text_set(desired);
    let gone = gone_ids(before.known, wanted);
    lemma_enrolled_urls(before.retired(wanted), missing(before.known, desired));
    law_purging_several_is_exact(before.index, gone, hash, worker);
    if gone.contains(worker) {
        let url = choose|url: Seq<char>| #[trigger]
            gone_urls(before.known, wanted).contains(url) && before.known[url] == worker;
        assert(before.known.contains_key(url));
        assert(!lists_text(desired, url));
    }
    if exists|url: Seq<char>| #[trigger]
        before.known.contains_key(url) && before.known[url] == worker && !(exists|k: int|
            0 <= k < desired.len() && (#[trigger] desired[k])@ == url) {
        let url = choose|url: Seq<char>| #[trigger]
            before.known.contains_key(url) && before.known[url] == worker && !(exists|k: int|
                0 <= k < desired.len() && (#[trigger] desired[k])@ == url);
        assert(!lists_text(desired, url));
        assert(gone_urls(before.known, wanted).contains(url));
        assert(gone.contains(worker));
    }
}

} // verus!
