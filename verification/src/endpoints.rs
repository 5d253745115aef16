//! Endpoint slices: the live addresses of the worker service.

use vstd::prelude::*;

use crate::config::DiscoveryConfig;
use crate::discovery::{gone_urls, missing, reconcile, DiscoveredWorkers, DiscoveryView};
use crate::inflight::grown;
use crate::membership::{
    law_discovered_workers_are_counted, law_event_leaves_exactly_the_wanted,
};
use crate::router::{Router, RouterView};
use crate::score::Score;
use crate::string_map::{entry_map, lemma_entry_map, StringMap};
use crate::text::{signed_decimal, signed_decimal_text, texts};
use crate::urls::{all_distinct, lists_text, text_set, UrlSet};
use crate::worker::WorkerId;

verus! {

/// Port of a worker whose slice names none.
pub const DEFAULT_WORKER_PORT: i32 = 8001;

/// Conditions reported for an endpoint.
#[derive(Debug)]
pub struct EndpointConditions {
    /// Whether the endpoint takes traffic; unset means that it does.
    pub ready: Option<bool>,
}

/// One endpoint of a slice.
#[derive(Debug)]
pub struct Endpoint {
    /// Addresses, all of the same pod.
    pub addresses: Vec<String>,
    /// Conditions, if any were reported.
    pub conditions: Option<EndpointConditions>,
}

/// One slice of the endpoints behind a service.
#[derive(Debug)]
pub struct EndpointSlice {
    /// Name of the slice.
    pub name: String,
    /// Port numbers, in the order listed; a port may lack a number.
    pub ports: Option<Vec<Option<i32>>>,
    /// Endpoints.
    pub endpoints: Vec<Endpoint>,
}

impl Endpoint {
    /// Whether the endpoint is ready. Readiness defaults to true when unset,
    /// be it left out of the conditions or along with them.
    pub open spec fn is_ready(self) -> bool {
        match self.conditions {
            None => true,
            Some(conditions) => conditions.ready != Some(false),
        }
    }
}

impl EndpointSlice {
    /// The port of the workers: the first one listed.
    pub open spec fn port(self) -> i32 {
        match self.ports {
            Some(ports) => if ports@.len() > 0 {
                match ports@[0] {
                    Some(port) => port,
                    None => DEFAULT_WORKER_PORT,
                }
            } else {
                DEFAULT_WORKER_PORT
            },
            None => DEFAULT_WORKER_PORT,
        }
    }

    /// The URLs the slice advertises, in order.
    pub open spec fn advertised(self) -> Seq<Seq<char>> {
        ready_urls(self.endpoints@, self.port())
    }
}

/// URL of the worker at an address.
pub open spec fn worker_url(address: Seq<char>, port: int) -> Seq<char> {
    "http://"@ + address + ":"@ + signed_decimal(port)
}

/// URLs of the workers at some addresses.
pub open spec fn address_urls(addresses: Seq<String>, port: i32) -> Seq<Seq<char>> {
    addresses.map_values(|address: String| worker_url(address@, port as int))
}

/// URLs of the ready endpoints, in order.
pub open spec fn ready_urls(endpoints: Seq<Endpoint>, port: i32) -> Seq<Seq<char>>
    decreases endpoints.len(),
{
    if endpoints.len() == 0 {
        seq![]
    } else {
        ready_urls(endpoints.drop_last(), port) + (if endpoints.last().is_ready() {
            address_urls(endpoints.last().addresses@, port)
        } else {
            seq![]
        })
    }
}

/// The first occurrence of each text, in order.
pub open spec fn firsts(all: Seq<Seq<char>>) -> Seq<Seq<char>>
    decreases all.len(),
{
    if all.len() == 0 {
        seq![]
    } else {
        let before = firsts(all.drop_last());
        if before.contains(all.last()) {
            before
        } else {
            before.push(all.last())
        }
    }
}

fn endpoint_is_ready(endpoint: &Endpoint) -> (r: bool)
    ensures
        r == endpoint.is_ready(),
{
    match &endpoint.conditions {
        None => true,
        Some(conditions) => match conditions.ready {
            Some(ready) => ready,
            None => true,
        },
    }
}

proof fn lemma_texts_list(strings: Seq<String>, text: Seq<char>)
    ensures
        texts(strings).contains(text) <==> lists_text(strings, text),
{
    if texts(strings).contains(text) {
        let i = choose|i: int| 0 <= i < texts(strings).len() && texts(strings)[i] == text;
        assert(strings[i]@ == text);
    }
    if lists_text(strings, text) {
        let i = choose|i: int| 0 <= i < strings.len() && (#[trigger] strings[i])@ == text;
        assert(texts(strings)[i] == text);
    }
}

/// Worker URLs advertised by one slice (ready addresses only).
pub fn endpoint_urls(slice: &EndpointSlice) -> (urls: UrlSet)
    ensures
        urls.wf(),
        texts(urls@) == firsts(slice.advertised()),
        forall|url: Seq<char>|
            #![trigger slice.advertised().contains(url)]
            slice.advertised().contains(url) <==> exists|i: int|
                0 <= i < urls@.len() && (#[trigger] urls@[i])@ == url,
        forall|i: int, j: int| 0 <= i < j < urls@.len() ==> urls@[i]@ != urls@[j]@,
{
    let port: i32 = match &slice.ports {
        Some(ports) => if ports.len() > 0 {
            match ports[0] {
                Some(port) => port,
                None => DEFAULT_WORKER_PORT,
            }
        } else {
            DEFAULT_WORKER_PORT
        },
        None => DEFAULT_WORKER_PORT,
    };
    let mut urls = UrlSet::new();
    let mut i: usize = 0;
    assert(texts(urls@) =~= seq![]);
    assert(slice.endpoints@.take(0) =~= seq![]);
    while i < slice.endpoints.len()
        invariant
            urls.wf(),
            port == slice.port(),
            i <= slice.endpoints@.len(),
            texts(urls@) == firsts(ready_urls(slice.endpoints@.take(i as int), port)),
        decreases slice.endpoints@.len() - i,
    {
        let ghost before = ready_urls(slice.endpoints@.take(i as int), port);
        assert(slice.endpoints@.take(i + 1).drop_last() =~= slice.endpoints@.take(i as int));
        if endpoint_is_ready(&slice.endpoints[i]) {
            let addresses = &slice.endpoints[i].addresses;
            let mut k: usize = 0;
            assert(before + address_urls(addresses@.take(0), port) =~= before);
            while k < addresses.len()
                invariant
                    urls.wf(),
                    k <= addresses@.len(),
                    texts(urls@) == firsts(
                        before + address_urls(addresses@.take(k as int), port),
                    ),
                decreases addresses@.len() - k,
            {
                let mut url = String::new();
                url.append("http://");
                url.append(addresses[k].as_str());
                url.append(":");
                url.append(signed_decimal_text(port).as_str());
                let ghost added = url;
                let ghost listed = urls@;
                proof {
                    assert(url@ =~= worker_url(addresses@[k as int]@, port as int));
                    lemma_texts_list(urls@, url@);
                    let more = before + address_urls(addresses@.take(k + 1), port);
                    assert(more.drop_last() =~= before + address_urls(
                        addresses@.take(k as int),
                        port,
                    ));
                    assert(more.last() == url@);
                }
                urls.insert(url);
                assert(texts(listed.push(added)) =~= texts(listed).push(added@));
                k += 1;
            }
            assert(addresses@.take(k as int) =~= addresses@);
        } else {
            assert(before + seq![] =~= before);
        }
        i += 1;
    }
    assert(slice.endpoints@.take(i as int) =~= slice.endpoints@);
    proof {
        lemma_advertised(urls@, *slice);
        assert forall|url: Seq<char>|
            #![trigger slice.advertised().contains(url)]
            slice.advertised().contains(url) <==> exists|i: int|
                0 <= i < urls@.len() && (#[trigger] urls@[i])@ == url by {
            assert(text_set(urls@).contains(url) <==> slice.advertised().to_set().contains(url));
        }
    }
    urls
}

/// Label selector of the slices that belong to a service.
pub fn slice_selector(service: &str) -> (r: String)
    ensures
        r@ == "kubernetes.io/service-name="@ + service@,
{
    let mut r = String::new();
    r.append("kubernetes.io/service-name=");
    r.append(service);
    assert(r@ =~= "kubernetes.io/service-name="@ + service@);
    r
}

impl DiscoveryConfig {
    /// The namespace to watch: the configured one, or else the client's own.
    pub fn namespace_or(&self, own: &str) -> (r: String)
        ensures
            r@ == match self.namespace {
                Some(namespace) => namespace@,
                None => own@,
            },
    {
        match &self.namespace {
            Some(namespace) => namespace.clone(),
            None => own.to_owned(),
        }
    }
}

/// The wait after one of `secs` seconds: twice as long, but never more than
/// half a minute.
pub open spec fn longer_wait(secs: nat) -> nat {
    if secs * 2 <= 30 {
        secs * 2
    } else {
        30
    }
}

/// The wait after some failures in a row: one second at first, then ever
/// longer.
pub open spec fn wait_after(failures: nat) -> nat
    decreases failures,
{
    if failures == 0 {
        1
    } else {
        longer_wait(wait_after((failures - 1) as nat))
    }
}

/// Seconds to wait before the next attempt to watch.
#[derive(Debug, Clone, Copy, PartialEq, Eq, Structural)]
pub struct Backoff {
    /// The wait.
    pub secs: u64,
}

impl Backoff {
    /// Validity: between one second and half a minute.
    pub open spec fn wf(self) -> bool {
        1 <= self.secs <= 30
    }

    /// The first wait.
    pub fn new() -> (r: Backoff)
        ensures
            r.wf(),
            r.secs == wait_after(0),
            r.secs == 1,
    {
        Backoff { secs: 1 }
    }

    /// A watch ended normally: start over.
    pub fn reset(&mut self)
        ensures
            final(self).wf(),
            final(self).secs == wait_after(0),
            final(self).secs == 1,
    {
        self.secs = 1;
    }

    /// A watch failed: the seconds to sleep now. The wait after that is twice
    /// as long, but never more than half a minute.
    pub fn failed(&mut self) -> (sleep: u64)
        requires
            old(self).wf(),
        ensures
            final(self).wf(),
            sleep == old(self).secs,
            final(self).secs == longer_wait(old(self).secs as nat),
            old(self).secs <= 15 ==> final(self).secs == 2 * old(self).secs,
            old(self).secs > 15 ==> final(self).secs == 30,
            forall|failures: nat|
                old(self).secs == #[trigger] wait_after(failures) ==> final(self).secs
                    == wait_after(failures + 1),
    {
        let sleep = self.secs;
        self.secs = if sleep * 2 <= 30 {
            sleep * 2
        } else {
            30
        };
        sleep
    }
}

/// What a watch of the slices reports. Each watch starts with a listing of the
/// slices there are.
#[derive(Debug)]
pub enum SliceEvent {
    /// The listing begins.
    ListingStarted,
    /// A slice was listed, created or changed.
    Applied(EndpointSlice),
    /// A slice was deleted.
    Deleted(String),
    /// The listing is complete.
    ListingDone,
}

/// The slices seen so far, over all watches. A service can be backed by
/// several; each one's endpoints are tracked, so that an event for one slice
/// never removes the workers another advertises. What vanished between two
/// watches is dropped once the listing of the second is complete.
#[derive(Debug)]
pub struct SliceSet {
    slices: StringMap<UrlSet>,
    listed: Option<StringMap<()>>,
}

/// What a set of slices holds.
#[verifier::ext_equal]
pub struct SliceView {
    /// The URLs that each slice advertises.
    pub slices: Map<Seq<char>, Set<Seq<char>>>,
    /// The slices listed so far, while a listing is under way.
    pub listed: Option<Set<Seq<char>>>,
}

impl View for SliceSet {
    type V = SliceView;

    closed spec fn view(&self) -> SliceView {
        SliceView {
            slices: self.slices@.map_values(|urls: UrlSet| text_set(urls@)),
            listed: match self.listed {
                Some(names) => Some(names@.dom()),
                None => None,
            },
        }
    }
}

impl SliceView {
    /// The slices after an event.
    pub open spec fn after(self, event: SliceEvent) -> SliceView {
        match event {
            SliceEvent::ListingStarted => SliceView { listed: Some(Set::empty()), ..self },
            SliceEvent::Applied(slice) => SliceView {
                slices: self.slices.insert(slice.name@, slice.advertised().to_set()),
                listed: match self.listed {
                    Some(names) => Some(names.insert(slice.name@)),
                    None => None,
                },
            },
            SliceEvent::Deleted(name) => SliceView {
                slices: self.slices.remove(name@),
                listed: match self.listed {
                    Some(names) => Some(names.remove(name@)),
                    None => None,
                },
            },
            SliceEvent::ListingDone => SliceView {
                slices: match self.listed {
                    Some(names) => self.slices.restrict(names),
                    None => self.slices,
                },
                listed: None,
            },
        }
    }

    /// Every URL that some slice advertises.
    pub open spec fn wanted(self) -> Set<Seq<char>> {
        Set::new(
            |url: Seq<char>|
                exists|name: Seq<char>| #[trigger]
                    self.slices.contains_key(name) && self.slices[name].contains(url),
        )
    }
}

proof fn lemma_firsts(all: Seq<Seq<char>>)
    ensures
        firsts(all).to_set() == all.to_set(),
    decreases all.len(),
{
    if all.len() > 0 {
        let head = all.drop_last();
        lemma_firsts(head);
        assert forall|text: Seq<char>| firsts(all).contains(text) <==> all.contains(text) by {
            assert(firsts(head).contains(text) <==> head.contains(text)) by {
                assert(firsts(head).to_set().contains(text) <==> head.to_set().contains(text));
            }
            if head.contains(text) {
                let i = choose|i: int| 0 <= i < head.len() && head[i] == text;
                assert(all[i] == text);
            }
            if all.contains(text) && text != all.last() {
                let i = choose|i: int| 0 <= i < all.len() && all[i] == text;
                assert(head[i] == text);
            }
            let before = firsts(head);
            if before.contains(text) {
                let i = choose|i: int| 0 <= i < before.len() && before[i] == text;
                assert(firsts(all)[i] == text);
            }
            if firsts(all).contains(text) && text != all.last() {
                let i = choose|i: int| 0 <= i < firsts(all).len() && firsts(all)[i] == text;
                assert(before[i] == text);
            }
            assert(all[all.len() - 1] == all.last());
            if !before.contains(all.last()) {
                assert(firsts(all)[before.len() as int] == all.last());
            }
        }
        assert(firsts(all).to_set() =~= all.to_set());
    } else {
        assert(firsts(all) =~= all);
    }
}

proof fn lemma_advertised(urls: Seq<String>, slice: EndpointSlice)
    requires
        texts(urls) == firsts(slice.advertised()),
    ensures
        text_set(urls) == slice.advertised().to_set(),
{
    lemma_firsts(slice.advertised());
    assert forall|text: Seq<char>|
        text_set(urls).contains(text) <==> slice.advertised().to_set().contains(text) by {
        lemma_texts_list(urls, text);
        assert(firsts(slice.advertised()).to_set().contains(text) <==> firsts(
            slice.advertised(),
        ).contains(text));
    }
    assert(text_set(urls) =~= slice.advertised().to_set());
}

/// The URLs that the first `n` of some slices advertise.
spec fn union_upto(entries: Seq<(String, UrlSet)>, n: int) -> Set<Seq<char>> {
    Set::new(
        |url: Seq<char>|
            exists|k: int| 0 <= k < n && text_set((#[trigger] entries[k]).1@).contains(url),
    )
}

impl SliceSet {
    /// Validity: no slice has two entries.
    pub closed spec fn wf(self) -> bool {
        self.slices.wf() && (self.listed matches Some(names) ==> names.wf())
    }

    /// No slices yet.
    pub fn new() -> (r: SliceSet)
        ensures
            r.wf(),
            r@ == (SliceView { slices: Map::empty(), listed: None }),
    {
        let r = SliceSet { slices: StringMap::new(), listed: None };
        assert(r@ =~= (SliceView { slices: Map::empty(), listed: None }));
        r
    }

    /// Take an event into account.
    pub fn observe(&mut self, event: SliceEvent)
        requires
            old(self).wf(),
        ensures
            final(self).wf(),
            final(self)@ == old(self)@.after(event),
    {
        match event {
            SliceEvent::ListingStarted => {
                self.listed = Some(StringMap::new());
                assert(Map::<Seq<char>, ()>::empty().dom() =~= Set::empty());
            },
            SliceEvent::Applied(slice) => {
                let urls = endpoint_urls(&slice);
                proof {
                    lemma_advertised(urls@, slice);
                }
                if let Some(names) = self.listed.take() {
                    let mut names = names;
                    let ghost before = names@.dom();
                    names.insert(slice.name.clone(), ());
                    assert(names@.dom() =~= before.insert(slice.name@));
                    self.listed = Some(names);
                }
                self.slices.insert(slice.name, urls);
            },
            SliceEvent::Deleted(name) => {
                if let Some(names) = self.listed.take() {
                    let mut names = names;
                    let ghost before = names@.dom();
                    names.remove(&name);
                    assert(names@.dom() =~= before.remove(name@));
                    self.listed = Some(names);
                }
                self.slices.remove(&name);
            },
            SliceEvent::ListingDone => {
                if let Some(names) = self.listed.take() {
                    self.slices.retain_keys(&names);
                }
            },
        }
        assert(self@.slices =~= old(self)@.after(event).slices);
    }

    /// Every URL that some slice advertises.
    pub fn desired(&self) -> (urls: UrlSet)
        requires
            self.wf(),
        ensures
            urls.wf(),
            text_set(urls@) == self@.wanted(),
    {
        let entries = self.slices.entries();
        let mut urls = UrlSet::new();
        let mut i: usize = 0;
        assert(text_set(urls@) =~= union_upto(entries@, 0));
        while i < entries.len()
            invariant
                urls.wf(),
                i <= entries@.len(),
                text_set(urls@) == union_upto(entries@, i as int),
            decreases entries@.len() - i,
        {
            urls.insert_all(&entries[i].1);
            proof {
                let before = union_upto(entries@, i as int);
                let now = union_upto(entries@, i + 1);
                let added = text_set(entries@[i as int].1@);
                assert forall|url: Seq<char>|
                    now.contains(url) <==> before.contains(url) || added.contains(url) by {
                    if before.contains(url) {
                        let k = choose|k: int|
                            0 <= k < i && text_set((#[trigger] entries@[k]).1@).contains(url);
                        assert(text_set(entries@[k].1@).contains(url));
                    }
                }
                assert(now =~= before.union(added));
            }
            i += 1;
        }
        proof {
            lemma_entry_map(entries@);
            assert forall|url: Seq<char>|
                union_upto(entries@, entries@.len() as int).contains(url) <==> self@.wanted().contains(
                    url,
                ) by {
                if union_upto(entries@, entries@.len() as int).contains(url) {
                    let k = choose|k: int|
                        0 <= k < entries@.len() && text_set(
                            (#[trigger] entries@[k]).1@,
                        ).contains(url);
                    let name = entries@[k].0@;
                    assert(entry_map(entries@).contains_key(name));
                    assert(self@.slices.contains_key(name) && self@.slices[name].contains(url));
                }
                if self@.wanted().contains(url) {
                    let name = choose|name: Seq<char>| #[trigger]
                        self@.slices.contains_key(name) && self@.slices[name].contains(url);
                    assert(entry_map(entries@).contains_key(name));
                    let k = choose|k: int|
                        0 <= k < entries@.len() && (#[trigger] entries@[k]).0@ == name;
                    assert(entry_map(entries@)[entries@[k].0@] == entries@[k].1);
                    assert(text_set(entries@[k].1@).contains(url));
                }
            }
            assert(text_set(urls@) =~= self@.wanted());
        }
        urls
    }
}

/// Spare in-flight counters kept beyond the number of discovered workers.
pub const SPARE_COUNTERS: usize = 16;

/// The part of a router's state that discovery works on.
pub open spec fn discovery_view(view: RouterView, known: Map<Seq<char>, WorkerId>) -> DiscoveryView {
    DiscoveryView { registry: view.registry, index: view.index, known }
}

/// A machine word as large as `n`, or the largest there is.
pub open spec fn fitting(n: nat) -> nat {
    if n <= usize::MAX {
        n
    } else {
        usize::MAX as nat
    }
}

/// How many in-flight counters there are to be: one for every id given out so
/// far, and, where workers came or went, some to spare beyond the number
/// discovered.
pub open spec fn counters_for(changed: bool, workers: nat, next_id: WorkerId) -> nat {
    let spare = fitting(workers + SPARE_COUNTERS as nat);
    let ids = fitting(next_id as nat);
    if changed && spare > ids {
        spare
    } else {
        ids
    }
}

/// The state after discovery reconciled with `desired`.
pub open spec fn after_event(
    before: RouterView,
    known: Map<Seq<char>, WorkerId>,
    desired: Seq<String>,
    after: RouterView,
    known_after: Map<Seq<char>, WorkerId>,
    r: (usize, usize),
) -> bool {
    let reconciled = discovery_view(before, known).reconciled(desired);
    &&& r.0 == gone_urls(known, text_set(desired)).len()
    &&& r.1 == missing(known, desired).len()
    &&& known_after == reconciled.known
    &&& after == RouterView {
        registry: reconciled.registry,
        index: reconciled.index,
        counts: grown(
            before.counts,
            counters_for(
                r.0 > 0 || r.1 > 0,
                known_after.dom().len(),
                reconciled.registry.next_id,
            ),
        ),
        ..before
    }
}

/// What handling an event leaves, `wanted` being the URLs that the slices
/// advertise after it.
pub open spec fn handled(
    before: RouterView,
    known: Map<Seq<char>, WorkerId>,
    wanted: Set<Seq<char>>,
    after: RouterView,
    known_after: Map<Seq<char>, WorkerId>,
    r: (usize, usize),
) -> bool {
    exists|desired: Seq<String>|
        {
            &&& all_distinct(desired)
            &&& text_set(desired) == wanted
            &&& #[trigger] after_event(before, known, desired, after, known_after, r)
        }
}

fn as_word(n: u64) -> (r: usize)
    ensures
        r == fitting(n as nat),
{
    if n <= usize::MAX as u64 {
        n as usize
    } else {
        usize::MAX
    }
}

/// Handle one event of the watch: update the slices, reconcile with the union
/// of what they advertise, and keep the in-flight tracker large enough for the
/// workers discovered. Returns how many workers were removed and added. The
/// order in which new workers get their ids is that in which the slices were
/// first seen.
pub fn handle_event<F: Fn(usize, u64) -> Score>(
    router: &mut Router<F>,
    discovered: &mut DiscoveredWorkers,
    slices: &mut SliceSet,
    event: SliceEvent,
) -> (r: (usize, usize))
    requires
        old(router).wf(),
        old(discovered).wf(),
        old(slices).wf(),
    ensures
        final(router).wf(),
        final(discovered).wf(),
        final(slices).wf(),
        final(router).scoring() == old(router).scoring(),
        final(slices)@ == old(slices)@.after(event),
        handled(
            old(router)@,
            old(discovered)@,
            final(slices)@.wanted(),
            final(router)@,
            final(discovered)@,
            r,
        ),
        discovery_view(old(router)@, old(discovered)@).consistent()
            && old(router)@.registry.next_id + r.1 <= u64::MAX
            && final(router)@.registry.next_id <= usize::MAX ==> forall|url: Seq<char>| #[trigger]
            final(discovered)@.contains_key(url) ==> final(discovered)@[url]
                < final(router)@.counts.len(),
{
    slices.observe(event);
    let desired = slices.desired();
    let (registry, index) = router.membership();
    let (removed, added) = reconcile(registry, index, discovered, &desired);
    let workers = discovered.len();
    let ids = as_word(router.read_registry().next_id());
    let spare = workers.saturating_add(SPARE_COUNTERS);
    let changed = removed > 0 || added > 0;
    if changed && spare > ids {
        router.inflight().ensure_capacity(spare);
    } else {
        router.inflight().ensure_capacity(ids);
    }
    assert(after_event(
        old(router)@,
        old(discovered)@,
        desired@,
        router@,
        discovered@,
        (removed, added),
    ));
    proof {
        if discovery_view(old(router)@, old(discovered)@).consistent()
            && old(router)@.registry.next_id + added <= u64::MAX && router@.registry.next_id
            <= usize::MAX {
            assert forall|url: Seq<char>| #[trigger]
                discovered@.contains_key(url) implies discovered@[url] < router@.counts.len() by {
                law_discovered_workers_are_counted(
                    old(router)@,
                    old(discovered)@,
                    slices@.wanted(),
                    router@,
                    discovered@,
                    (removed, added),
                    url,
                );
            }
        }
    }
    (removed, added)
}

/// Only URLs that some slice advertises as ready are wanted.
pub proof fn law_unready_endpoints_are_not_wanted(slice: EndpointSlice, url: Seq<char>)
    requires
        slice.advertised().contains(url),
    ensures
        exists|e: int, a: int|
            0 <= e < slice.endpoints@.len() && (#[trigger] slice.endpoints@[e]).is_ready() && 0 <= a
                < slice.endpoints@[e].addresses@.len() && url == worker_url(
                (#[trigger] slice.endpoints@[e].addresses@[a])@,
                slice.port() as int,
            ),
{
    lemma_ready_urls(slice.endpoints@, slice.port(), url);
}

proof fn lemma_ready_urls(endpoints: Seq<Endpoint>, port: i32, url: Seq<char>)
    requires
        ready_urls(endpoints, port).contains(url),
    ensures
        exists|e: int, a: int|
            0 <= e < endpoints.len() && (#[trigger] endpoints[e]).is_ready() && 0 <= a
                < endpoints[e].addresses@.len() && url == worker_url(
                (#[trigger] endpoints[e].addresses@[a])@,
                port as int,
            ),
    decreases endpoints.len(),
{
    if endpoints.len() > 0 {
        let head = endpoints.drop_last();
        let before = ready_urls(head, port);
        let all = ready_urls(endpoints, port);
        let at = choose|at: int| 0 <= at < all.len() && all[at] == url;
        if at < before.len() {
            assert(before[at] == url);
            lemma_ready_urls(head, port, url);
            let (e, a) = choose|e: int, a: int|
                0 <= e < head.len() && (#[trigger] head[e]).is_ready() && 0 <= a
                    < head[e].addresses@.len() && url == worker_url(
                    (#[trigger] head[e].addresses@[a])@,
                    port as int,
                );
            assert(endpoints[e] == head[e]);
            assert(endpoints[e].addresses@[a] == head[e].addresses@[a]);
        } else {
            let e = endpoints.len() - 1;
            let a = at - before.len();
            assert(endpoints[e].is_ready());
            assert(url == worker_url(endpoints[e].addresses@[a]@, port as int));
        }
    }
}

/// Every address of every ready endpoint is advertised, under the first port
/// listed, and nothing else is: not ready is an endpoint whose conditions say
/// so, and a slice that lists no port stands for port 8001.
pub proof fn law_ready_addresses_are_advertised(slice: EndpointSlice, url: Seq<char>)
    ensures
        slice.advertised().contains(url) <==> exists|e: int, a: int|
            {
                &&& 0 <= e < slice.endpoints@.len()
                &&& 0 <= a < (#[trigger] slice.endpoints@[e]).addresses@.len()
                &&& !(slice.endpoints@[e].conditions matches Some(conditions) && conditions.ready
                    == Some(false))
                &&& url == "http://"@ + (#[trigger] slice.endpoints@[e].addresses@[a])@ + ":"@
                    + signed_decimal(
                    match slice.ports {
                        Some(ports) => if ports@.len() > 0 {
                            match ports@[0] {
                                Some(port) => port as int,
                                None => 8001,
                            }
                        } else {
                            8001
                        },
                        None => 8001,
                    },
                )
            },
{
    if slice.advertised().contains(url) {
        law_unready_endpoints_are_not_wanted(slice, url);
        let (e, a) = choose|e: int, a: int|
            0 <= e < slice.endpoints@.len() && (#[trigger] slice.endpoints@[e]).is_ready() && 0 <= a
                < slice.endpoints@[e].addresses@.len() && url == worker_url(
                (#[trigger] slice.endpoints@[e].addresses@[a])@,
                slice.port() as int,
            );
        assert(slice.endpoints@[e].addresses@[a]@ == slice.endpoints@[e].addresses@[a]@);
    }
    assert forall|e: int, a: int|
        0 <= e < slice.endpoints@.len() && 0 <= a < (
        #[trigger] slice.endpoints@[e]).addresses@.len() && slice.endpoints@[e].is_ready()
            && url == worker_url(
            (#[trigger] slice.endpoints@[e].addresses@[a])@,
            slice.port() as int,
        ) implies slice.advertised().contains(url) by {
        lemma_ready_urls_hold(slice.endpoints@, slice.port(), e, a);
    }
}

proof fn lemma_ready_urls_hold(endpoints: Seq<Endpoint>, port: i32, e: int, a: int)
    requires
        0 <= e < endpoints.len(),
        endpoints[e].is_ready(),
        0 <= a < endpoints[e].addresses@.len(),
    ensures
        ready_urls(endpoints, port).contains(
            worker_url(endpoints[e].addresses@[a]@, port as int),
        ),
    decreases endpoints.len(),
{
    let head = endpoints.drop_last();
    let before = ready_urls(head, port);
    let all = ready_urls(endpoints, port);
    let url = worker_url(endpoints[e].addresses@[a]@, port as int);
    if e < head.len() {
        assert(head[e] == endpoints[e]);
        lemma_ready_urls_hold(head, port, e, a);
        let at = choose|at: int| 0 <= at < before.len() && before[at] == url;
        assert(all[at] == url);
    } else {
        assert(all[before.len() + a] == url);
    }
}

/// No wait is longer than half a minute, and from the sixth failure in a row
/// on every wait is that long.
pub proof fn law_waits_level_off(failures: nat)
    ensures
        1 <= wait_after(failures) <= 30,
        failures >= 5 ==> wait_after(failures) == 30,
    decreases failures,
{
    if failures > 5 {
        law_waits_level_off((failures - 1) as nat);
    } else {
        assert(wait_after(0) == 1);
        assert(wait_after(1) == 2);
        assert(wait_after(2) == 4);
        assert(wait_after(3) == 8);
        assert(wait_after(4) == 16);
        assert(wait_after(5) == 30);
    }
}

/// Waits double from one second until they reach half a minute.
pub proof fn law_waits_double(failures: nat)
    ensures
        wait_after(0) == 1,
        wait_after(failures + 1) == 2 * wait_after(failures) || (wait_after(failures + 1) == 30 && 2
            * wait_after(failures) > 30),
{
}

/// A slice that is listed, created or changed replaces what it advertised
/// before; a deleted one advertises nothing any more. Other slices stay as they
/// are, and the beginning of a listing changes no slice.
pub proof fn law_slice_events_change_their_slice_only(
    slices: SliceView,
    event: SliceEvent,
    name: Seq<char>,
    url: Seq<char>,
)
    ensures
        ({
            let before = slices.slices.contains_key(name) && slices.slices[name].contains(url);
            let known = slices.after(event).slices;
            let after = known.contains_key(name) && known[name].contains(url);
            match event {
                SliceEvent::ListingStarted => after <==> before,
                SliceEvent::Applied(slice) => after <==> if slice.name@ == name {
                    slice.advertised().contains(url)
                } else {
                    before
                },
                SliceEvent::Deleted(gone) => after <==> before && gone@ != name,
                SliceEvent::ListingDone => after <==> before && (slices.listed matches Some(names)
                    ==> names.contains(name)),
            }
        }),
{
    if let SliceEvent::Applied(slice) = event {
        assert(slice.advertised().to_set().contains(url) <==> slice.advertised().contains(url));
    }
}

/// A listing knows exactly the slices that were listed or created since it
/// began and not deleted again; outside a listing nothing is noted.
pub proof fn law_listings_note_their_slices(slices: SliceView, event: SliceEvent, name: Seq<char>)
    ensures
        ({
            let noted_before = slices.listed matches Some(names) && names.contains(name);
            let noted_after = slices.after(event).listed matches Some(names) && names.contains(
                name,
            );
            match event {
                SliceEvent::ListingStarted => slices.after(event).listed is Some && !noted_after,
                SliceEvent::Applied(slice) => {
                    &&& slices.after(event).listed is Some <==> slices.listed is Some
                    &&& noted_after <==> slices.listed is Some && (noted_before || slice.name@
                        == name)
                },
                SliceEvent::Deleted(gone) => {
                    &&& slices.after(event).listed is Some <==> slices.listed is Some
                    &&& noted_after <==> noted_before && gone@ != name
                },
                SliceEvent::ListingDone => slices.after(event).listed is None,
            }
        }),
{
}

/// What is wanted is what some slice advertises.
pub proof fn law_wanted_is_what_some_slice_advertises(slices: SliceView, url: Seq<char>)
    ensures
        slices.wanted().contains(url) <==> exists|name: Seq<char>| #[trigger]
            slices.slices.contains_key(name) && slices.slices[name].contains(url),
{
}

/// After an event every ready address of a slice that was just applied is a
/// known worker, registered under the URL of that address.
pub proof fn law_applied_addresses_become_workers(
    before: RouterView,
    known: Map<Seq<char>, WorkerId>,
    slices: SliceView,
    slice: EndpointSlice,
    after: RouterView,
    known_after: Map<Seq<char>, WorkerId>,
    counted: (usize, usize),
    url: Seq<char>,
)
    requires
        discovery_view(before, known).consistent(),
        before.registry.next_id + counted.1 <= u64::MAX,
        handled(
            before,
            known,
            slices.after(SliceEvent::Applied(slice)).wanted(),
            after,
            known_after,
            counted,
        ),
        slice.advertised().contains(url),
    ensures
        known_after.contains_key(url),
        after.registry.workers.contains_key(known_after[url]),
        after.registry.workers[known_after[url]].worker.id == known_after[url],
        after.registry.workers[known_after[url]].worker.url@ == url,
{
    let now = slices.after(SliceEvent::Applied(slice));
    law_slice_events_change_their_slice_only(
        slices,
        SliceEvent::Applied(slice),
        slice.name@,
        url,
    );
    assert(now.slices.contains_key(slice.name@) && now.slices[slice.name@].contains(url));
    assert(now.wanted().contains(url));
    law_event_leaves_exactly_the_wanted(
        before,
        known,
        now.wanted(),
        after,
        known_after,
        counted,
        url,
    );
}

/// Handling an event changes neither policy, turn nor block size, keeps every
/// in-flight count, and gives counters that start at zero: where workers came
/// or went, at least a few more than there are workers.
pub proof fn law_events_keep_counts(
    before: RouterView,
    known: Map<Seq<char>, WorkerId>,
    wanted: Set<Seq<char>>,
    after: RouterView,
    known_after: Map<Seq<char>, WorkerId>,
    counted: (usize, usize),
    i: int,
)
    requires
        handled(before, known, wanted, after, known_after, counted),
    ensures
        after.policy == before.policy,
        after.next_worker == before.next_worker,
        after.block_size == before.block_size,
        after.counts.len() >= before.counts.len(),
        0 <= i < after.counts.len() ==> after.counts[i] == (if i < before.counts.len() {
            before.counts[i]
        } else {
            0
        }),
        (counted.0 > 0 || counted.1 > 0) && known_after.dom().len() + 16 <= usize::MAX
            ==> after.counts.len() >= known_after.dom().len() + 16,
        after.registry.next_id <= usize::MAX ==> after.counts.len() >= after.registry.next_id,
{
    let desired = choose|desired: Seq<String>|
        {
            &&& all_distinct(desired)
            &&& text_set(desired) == wanted
            &&& #[trigger] after_event(before, known, desired, after, known_after, counted)
        };
    assert(after_event(before, known, desired, after, known_after, counted));
}

} // verus!
