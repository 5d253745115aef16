//! The mathematical model of the prefix index: which workers are believed to
//! hold which prompt blocks, and when each belief was last touched.

use vstd::prelude::*;

use crate::worker::WorkerId;

verus! {

/// What the index believes of one block.
#[verifier::ext_equal]
pub struct Belief {
    /// The workers that hold the block.
    pub workers: Set<WorkerId>,
    /// When the entry was last touched, in nanoseconds.
    pub last_touched: u64,
}

/// Whether `worker` is believed to hold the block with this hash.
pub open spec fn holds(index: Map<u64, Belief>, worker: WorkerId, hash: u64) -> bool {
    index.contains_key(hash) && index[hash].workers.contains(worker)
}

/// The workers believed to hold a block.
pub open spec fn holders(index: Map<u64, Belief>, hash: u64) -> Set<WorkerId> {
    if index.contains_key(hash) {
        index[hash].workers
    } else {
        Set::empty()
    }
}

/// The index once `worker` is recorded for every hash of `chain`.
pub open spec fn recorded(
    index: Map<u64, Belief>,
    worker: WorkerId,
    chain: Seq<u64>,
    now: u64,
) -> Map<u64, Belief> {
    Map::new(
        |hash: u64| index.contains_key(hash) || chain.contains(hash),
        |hash: u64|
            if chain.contains(hash) {
                Belief { workers: holders(index, hash).insert(worker), last_touched: now }
            } else {
                index[hash]
            },
    )
}

/// The index once the entries of `hashes` are touched.
pub open spec fn touched(index: Map<u64, Belief>, hashes: Seq<u64>, now: u64) -> Map<u64, Belief> {
    Map::new(
        |hash: u64| index.contains_key(hash),
        |hash: u64|
            if hashes.contains(hash) {
                Belief { last_touched: now, ..index[hash] }
            } else {
                index[hash]
            },
    )
}

/// How many blocks from the start of `chain` the worker holds without a gap.
pub open spec fn match_len(index: Map<u64, Belief>, worker: WorkerId, chain: Seq<u64>) -> nat
    decreases chain.len(),
{
    if chain.len() == 0 || !holds(index, worker, chain[0]) {
        0
    } else {
        1 + match_len(index, worker, chain.drop_first())
    }
}

/// The position after the last of `hashes` that the worker holds; zero where
/// it holds none.
pub open spec fn deepest_match(index: Map<u64, Belief>, worker: WorkerId, hashes: Seq<u64>) -> nat
    decreases hashes.len(),
{
    if hashes.len() == 0 {
        0
    } else if holds(index, worker, hashes.last()) {
        hashes.len()
    } else {
        deepest_match(index, worker, hashes.drop_last())
    }
}

/// Blocks recorded against a worker at some time.
pub struct Record {
    /// The worker.
    pub worker: WorkerId,
    /// The hashes of the blocks.
    pub chain: Seq<u64>,
    /// The time.
    pub now: u64,
}

/// The index after some records, in order.
pub open spec fn after_records(index: Map<u64, Belief>, records: Seq<Record>) -> Map<u64, Belief>
    decreases records.len(),
{
    if records.len() == 0 {
        index
    } else {
        let last = records.last();
        recorded(after_records(index, records.drop_last()), last.worker, last.chain, last.now)
    }
}

/// Whether some record of a worker has a hash.
pub open spec fn has_record_of(records: Seq<Record>, worker: WorkerId, hash: u64) -> bool {
    exists|i: int|
        0 <= i < records.len() && (#[trigger] records[i]).worker == worker
            && records[i].chain.contains(hash)
}

/// The index once a worker is purged; blocks that nobody holds any more leave.
pub open spec fn without_worker(index: Map<u64, Belief>, worker: WorkerId) -> Map<u64, Belief> {
    Map::new(
        |hash: u64|
            index.contains_key(hash) && index[hash].workers.remove(worker) != Set::<
                WorkerId,
            >::empty(),
        |hash: u64| Belief { workers: index[hash].workers.remove(worker), ..index[hash] },
    )
}

/// The index once all of `workers` are purged.
pub open spec fn without_workers(index: Map<u64, Belief>, workers: Set<WorkerId>) -> Map<
    u64,
    Belief,
> {
    Map::new(
        |hash: u64|
            index.contains_key(hash) && index[hash].workers.difference(workers) != Set::<
                WorkerId,
            >::empty(),
        |hash: u64| Belief { workers: index[hash].workers.difference(workers), ..index[hash] },
    )
}

/// Whether an entry last touched at `last_touched` has gone untouched for
/// `ttl`. A clock that reads earlier than the touch counts as no time at all.
pub open spec fn expired(last_touched: u64, now: u64, ttl: u64) -> bool {
    (if now >= last_touched {
        now - last_touched
    } else {
        0
    }) >= ttl
}

/// The entries that have not outlived the TTL.
pub open spec fn unexpired(index: Map<u64, Belief>, now: u64, ttl: u64) -> Map<u64, Belief> {
    Map::new(
        |hash: u64| index.contains_key(hash) && !expired(index[hash].last_touched, now, ttl),
        |hash: u64| index[hash],
    )
}

/// Whether entry `a` leaves before entry `b`: touched earlier, or at the same
/// time under a smaller hash.
pub open spec fn leaves_before(index: Map<u64, Belief>, a: u64, b: u64) -> bool {
    index[a].last_touched < index[b].last_touched || (index[a].last_touched
        == index[b].last_touched && a < b)
}

/// `kept` is the `max_entries` most recently touched entries of `index`, or
/// all of them where there are no more.
pub open spec fn newest(
    index: Map<u64, Belief>,
    max_entries: nat,
    kept: Map<u64, Belief>,
) -> bool {
    &&& kept.dom().finite()
    &&& kept.len() == if index.len() <= max_entries {
        index.len()
    } else {
        max_entries
    }
    &&& forall|hash: u64| #[trigger]
        kept.contains_key(hash) ==> index.contains_key(hash) && kept[hash] == index[hash]
    &&& forall|gone: u64, stays: u64|
        index.contains_key(gone) && !kept.contains_key(gone) && kept.contains_key(stays)
            ==> #[trigger] leaves_before(index, gone, stays)
}

/// The entry kept under every hash is one that somebody holds.
pub open spec fn all_held(index: Map<u64, Belief>) -> bool {
    forall|hash: u64| #[trigger]
        index.contains_key(hash) ==> index[hash].workers != Set::<WorkerId>::empty()
}

proof fn lemma_match_step(index: Map<u64, Belief>, worker: WorkerId, chain: Seq<u64>, k: nat)
    requires
        k <= chain.len(),
        forall|i: int| 0 <= i < k ==> holds(index, worker, #[trigger] chain[i]),
    ensures
        match_len(index, worker, chain) == k + match_len(index, worker, chain.skip(k as int)),
    decreases k,
{
    if k == 0 {
        assert(chain.skip(0) =~= chain);
    } else {
        let rest = chain.drop_first();
        assert(holds(index, worker, chain[0]));
        assert forall|i: int| 0 <= i < k - 1 implies holds(index, worker, #[trigger] rest[i]) by {
            assert(rest[i] == chain[i + 1]);
        }
        lemma_match_step(index, worker, rest, (k - 1) as nat);
        assert(rest.skip(k - 1) =~= chain.skip(k as int));
    }
}

/// A match ends after `k` blocks where the first `k` are held and the next is
/// missing.
pub proof fn lemma_match_ends(index: Map<u64, Belief>, worker: WorkerId, chain: Seq<u64>, k: nat)
    requires
        k <= chain.len(),
        forall|i: int| 0 <= i < k ==> holds(index, worker, #[trigger] chain[i]),
        k == chain.len() || !holds(index, worker, chain[k as int]),
    ensures
        match_len(index, worker, chain) == k,
{
    lemma_match_step(index, worker, chain, k);
    let rest = chain.skip(k as int);
    if rest.len() > 0 {
        assert(rest[0] == chain[k as int]);
    }
}

/// A worker is believed to hold a prompt's first `k` blocks exactly when the
/// match along the prompt's chain is at least `k` long.
pub proof fn law_match_len_is_the_held_prefix(
    index: Map<u64, Belief>,
    worker: WorkerId,
    chain: Seq<u64>,
    k: nat,
)
    requires
        k <= chain.len(),
    ensures
        match_len(index, worker, chain) >= k <==> (forall|i: int|
            0 <= i < k ==> holds(index, worker, #[trigger] chain[i])),
        match_len(index, worker, chain) <= chain.len(),
    decreases chain.len(),
{
    if chain.len() > 0 {
        let rest = chain.drop_first();
        if holds(index, worker, chain[0]) {
            law_match_len_is_the_held_prefix(
                index,
                worker,
                rest,
                if k == 0 {
                    0
                } else {
                    (k - 1) as nat
                },
            );
            if k > 0 {
                if match_len(index, worker, rest) >= k - 1 {
                    assert forall|i: int| 0 <= i < k implies holds(
                        index,
                        worker,
                        #[trigger] chain[i],
                    ) by {
                        if i > 0 {
                            assert(rest[i - 1] == chain[i]);
                        }
                    }
                }
                if forall|i: int| 0 <= i < k ==> holds(index, worker, #[trigger] chain[i]) {
                    assert forall|i: int| 0 <= i < k - 1 implies holds(
                        index,
                        worker,
                        #[trigger] rest[i],
                    ) by {
                        assert(rest[i] == chain[i + 1]);
                    }
                }
            }
        } else if k > 0 {
            assert(!holds(index, worker, chain[0]));
        }
    }
}

/// Once a chain is recorded against a worker, the worker matches all of it.
pub proof fn law_recorded_chain_matches_in_full(
    index: Map<u64, Belief>,
    worker: WorkerId,
    chain: Seq<u64>,
    now: u64,
)
    ensures
        match_len(recorded(index, worker, chain, now), worker, chain) == chain.len(),
        deepest_match(recorded(index, worker, chain, now), worker, chain) == chain.len(),
{
    let after = recorded(index, worker, chain, now);
    assert forall|i: int| 0 <= i < chain.len() implies holds(after, worker, #[trigger] chain[i]) by {
        assert(chain.contains(chain[i]));
    }
    lemma_match_ends(after, worker, chain, chain.len());
    if chain.len() > 0 {
        assert(holds(after, worker, chain[chain.len() - 1]));
    }
}

/// Recording a chain against one worker changes no match of another worker.
pub proof fn law_recording_is_per_worker(
    index: Map<u64, Belief>,
    worker: WorkerId,
    chain: Seq<u64>,
    now: u64,
    other: WorkerId,
    probe: Seq<u64>,
)
    requires
        other != worker,
    ensures
        match_len(recorded(index, worker, chain, now), other, probe) == match_len(
            index,
            other,
            probe,
        ),
        deepest_match(recorded(index, worker, chain, now), other, probe) == deepest_match(
            index,
            other,
            probe,
        ),
    decreases probe.len(),
{
    if probe.len() > 0 {
        law_recording_is_per_worker(index, worker, chain, now, other, probe.drop_first());
        law_recording_is_per_worker(index, worker, chain, now, other, probe.drop_last());
    }
}

/// Recording never shortens a match.
pub proof fn law_recording_only_adds(
    index: Map<u64, Belief>,
    worker: WorkerId,
    chain: Seq<u64>,
    now: u64,
    any: WorkerId,
    probe: Seq<u64>,
)
    ensures
        match_len(recorded(index, worker, chain, now), any, probe) >= match_len(index, any, probe),
        deepest_match(recorded(index, worker, chain, now), any, probe) >= deepest_match(
            index,
            any,
            probe,
        ),
    decreases probe.len(),
{
    if probe.len() > 0 {
        law_recording_only_adds(index, worker, chain, now, any, probe.drop_first());
        law_recording_only_adds(index, worker, chain, now, any, probe.drop_last());
        lemma_deepest_bounded(index, any, probe);
    }
}

proof fn lemma_deepest_bounded(index: Map<u64, Belief>, worker: WorkerId, hashes: Seq<u64>)
    ensures
        deepest_match(index, worker, hashes) <= hashes.len(),
    decreases hashes.len(),
{
    if hashes.len() > 0 {
        lemma_deepest_bounded(index, worker, hashes.drop_last());
    }
}

/// Looking a chain up moves timestamps only: no match changes.
pub proof fn law_touching_changes_no_match(
    index: Map<u64, Belief>,
    hashes: Seq<u64>,
    now: u64,
    worker: WorkerId,
    probe: Seq<u64>,
)
    ensures
        match_len(touched(index, hashes, now), worker, probe) == match_len(index, worker, probe),
        deepest_match(touched(index, hashes, now), worker, probe) == deepest_match(
            index,
            worker,
            probe,
        ),
    decreases probe.len(),
{
    if probe.len() > 0 {
        law_touching_changes_no_match(index, hashes, now, worker, probe.drop_first());
        law_touching_changes_no_match(index, hashes, now, worker, probe.drop_last());
    }
}

/// Recording after a look-up of part of the same chain leaves what recording
/// alone leaves.
pub proof fn lemma_record_covers_touch(
    index: Map<u64, Belief>,
    hashes: Seq<u64>,
    worker: WorkerId,
    chain: Seq<u64>,
    now: u64,
)
    requires
        forall|i: int| 0 <= i < hashes.len() ==> chain.contains(#[trigger] hashes[i]),
    ensures
        recorded(touched(index, hashes, now), worker, chain, now) == recorded(
            index,
            worker,
            chain,
            now,
        ),
{
    let a = recorded(touched(index, hashes, now), worker, chain, now);
    let b = recorded(index, worker, chain, now);
    assert forall|hash: u64| a.contains_key(hash) implies a[hash] == b[hash] by {
        if !chain.contains(hash) {
            assert(!hashes.contains(hash)) by {
                if hashes.contains(hash) {
                    let i = choose|i: int| 0 <= i < hashes.len() && hashes[i] == hash;
                    assert(chain.contains(hashes[i]));
                }
            }
        }
    }
    assert(a =~= b);
}

/// Once a worker is purged nothing matches against it: a replacement starts
/// with empty affinity.
pub proof fn law_purged_worker_matches_nothing(
    index: Map<u64, Belief>,
    worker: WorkerId,
    probe: Seq<u64>,
)
    ensures
        match_len(without_worker(index, worker), worker, probe) == 0,
        deepest_match(without_worker(index, worker), worker, probe) == 0,
    decreases probe.len(),
{
    if probe.len() > 0 {
        law_purged_worker_matches_nothing(index, worker, probe.drop_last());
    }
}

/// Purging one worker changes no match of another.
pub proof fn law_purging_spares_other_workers(
    index: Map<u64, Belief>,
    worker: WorkerId,
    other: WorkerId,
    probe: Seq<u64>,
)
    requires
        other != worker,
    ensures
        match_len(without_worker(index, worker), other, probe) == match_len(index, other, probe),
        deepest_match(without_worker(index, worker), other, probe) == deepest_match(
            index,
            other,
            probe,
        ),
    decreases probe.len(),
{
    if probe.len() > 0 {
        lemma_purge_keeps_holding(index, worker, other, probe[0]);
        lemma_purge_keeps_holding(index, worker, other, probe.last());
        law_purging_spares_other_workers(index, worker, other, probe.drop_first());
        law_purging_spares_other_workers(index, worker, other, probe.drop_last());
    }
}

proof fn lemma_purge_keeps_holding(
    index: Map<u64, Belief>,
    worker: WorkerId,
    other: WorkerId,
    hash: u64,
)
    requires
        other != worker,
    ensures
        holds(without_worker(index, worker), other, hash) == holds(index, other, hash),
{
    if holds(index, other, hash) {
        assert(index[hash].workers.remove(worker).contains(other));
        assert(index[hash].workers.remove(worker) != Set::<WorkerId>::empty());
    }
}

/// Purging nobody changes nothing; purging one worker more purges that worker.
pub proof fn lemma_purge_one_more(
    index: Map<u64, Belief>,
    workers: Set<WorkerId>,
    worker: WorkerId,
)
    requires
        all_held(index),
    ensures
        without_workers(index, Set::empty()) == index,
        without_workers(index, workers.insert(worker)) == without_worker(
            without_workers(index, workers),
            worker,
        ),
{
    let none = without_workers(index, Set::empty());
    assert forall|hash: u64| #[trigger] index.contains_key(hash) implies index[hash].workers
        == index[hash].workers.difference(Set::empty()) by {
        assert(index[hash].workers =~= index[hash].workers.difference(Set::empty()));
    }
    assert(none =~= index);
    let both = without_workers(index, workers.insert(worker));
    let in_turn = without_worker(without_workers(index, workers), worker);
    assert forall|hash: u64| #[trigger] index.contains_key(hash) implies
        index[hash].workers.difference(workers.insert(worker)) == index[hash].workers.difference(
        workers,
    ).remove(worker) by {
        assert(index[hash].workers.difference(workers.insert(worker))
            =~= index[hash].workers.difference(workers).remove(worker));
    }
    assert forall|hash: u64| both.contains_key(hash) <==> in_turn.contains_key(hash) by {
        if index.contains_key(hash) {
            assert(Set::<WorkerId>::empty().remove(worker) =~= Set::empty());
        }
    }
    assert(both =~= in_turn);
}

/// Purging workers leaves nothing for them to match and changes no match of
/// any other worker.
pub proof fn law_purging_workers_is_exact(
    index: Map<u64, Belief>,
    workers: Set<WorkerId>,
    any: WorkerId,
    probe: Seq<u64>,
)
    ensures
        workers.contains(any) ==> match_len(without_workers(index, workers), any, probe) == 0,
        !workers.contains(any) ==> match_len(without_workers(index, workers), any, probe)
            == match_len(index, any, probe),
    decreases probe.len(),
{
    if probe.len() > 0 {
        let hash = probe[0];
        if index.contains_key(hash) && index[hash].workers.contains(any) && !workers.contains(any) {
            assert(index[hash].workers.difference(workers).contains(any));
            assert(index[hash].workers.difference(workers) != Set::<WorkerId>::empty());
        }
        law_purging_workers_is_exact(index, workers, any, probe.drop_first());
    }
}

/// Eviction keeps the index within its bound.
pub proof fn law_eviction_bounds_the_index(
    index: Map<u64, Belief>,
    now: u64,
    ttl: u64,
    max_entries: nat,
    kept: Map<u64, Belief>,
)
    requires
        newest(unexpired(index, now, ttl), max_entries, kept),
    ensures
        kept.len() <= max_entries,
        forall|hash: u64| #[trigger]
            kept.contains_key(hash) ==> !expired(kept[hash].last_touched, now, ttl),
{
}

/// Eviction only forgets: no match grows, so the worst an evicted entry costs
/// is a cold prefill.
pub proof fn law_eviction_only_forgets(
    index: Map<u64, Belief>,
    now: u64,
    ttl: u64,
    max_entries: nat,
    kept: Map<u64, Belief>,
    worker: WorkerId,
    probe: Seq<u64>,
)
    requires
        newest(unexpired(index, now, ttl), max_entries, kept),
    ensures
        match_len(kept, worker, probe) <= match_len(index, worker, probe),
        deepest_match(kept, worker, probe) <= deepest_match(index, worker, probe),
    decreases probe.len(),
{
    if probe.len() > 0 {
        law_eviction_only_forgets(index, now, ttl, max_entries, kept, worker, probe.drop_first());
        law_eviction_only_forgets(index, now, ttl, max_entries, kept, worker, probe.drop_last());
        lemma_deepest_bounded(kept, worker, probe.drop_last());
    }
}

/// What eviction keeps is determined: the bound and the order of leaving fix
/// it.
pub proof fn law_eviction_is_deterministic(
    index: Map<u64, Belief>,
    max_entries: nat,
    a: Map<u64, Belief>,
    b: Map<u64, Belief>,
)
    requires
        newest(index, max_entries, a),
        newest(index, max_entries, b),
    ensures
        a == b,
{
    if a.dom() != b.dom() {
        lemma_same_size_differ(a.dom(), b.dom());
        let x = choose|x: u64| a.dom().contains(x) && !b.dom().contains(x);
        let y = choose|y: u64| b.dom().contains(y) && !a.dom().contains(y);
        assert(a.contains_key(x) && !b.contains_key(x));
        assert(b.contains_key(y) && !a.contains_key(y));
        assert(leaves_before(index, x, y));
        assert(leaves_before(index, y, x));
    }
    assert(a =~= b);
}

proof fn lemma_same_size_differ(a: Set<u64>, b: Set<u64>)
    requires
        a.finite(),
        b.finite(),
        a.len() == b.len(),
        a != b,
    ensures
        exists|x: u64| a.contains(x) && !b.contains(x),
        exists|y: u64| b.contains(y) && !a.contains(y),
{
    if forall|x: u64| a.contains(x) ==> b.contains(x) {
        vstd::set_lib::lemma_subset_equality(a, b);
        assert(false);
    }
    if forall|y: u64| b.contains(y) ==> a.contains(y) {
        vstd::set_lib::lemma_subset_equality(b, a);
        assert(false);
    }
}

/// After some records a worker holds what it held before and every block of
/// its own records, and nothing else.
pub proof fn law_records_are_what_is_held(
    index: Map<u64, Belief>,
    records: Seq<Record>,
    worker: WorkerId,
    hash: u64,
)
    ensures
        holds(after_records(index, records), worker, hash) <==> holds(index, worker, hash)
            || has_record_of(records, worker, hash),
    decreases records.len(),
{
    if records.len() > 0 {
        let head = records.drop_last();
        let last = records.last();
        let at = records.len() - 1;
        law_records_are_what_is_held(index, head, worker, hash);
        if has_record_of(head, worker, hash) {
            let i = choose|i: int|
                0 <= i < head.len() && (#[trigger] head[i]).worker == worker
                    && head[i].chain.contains(hash);
            assert(records[i] == head[i]);
        }
        if has_record_of(records, worker, hash) && !has_record_of(head, worker, hash) {
            let i = choose|i: int|
                0 <= i < records.len() && (#[trigger] records[i]).worker == worker
                    && records[i].chain.contains(hash);
            if i < at {
                assert(head[i] == records[i]);
            }
        }
        if last.worker == worker && last.chain.contains(hash) {
            assert(records[at].worker == worker && records[at].chain.contains(hash));
        }
    }
}

/// A deepest match ends at a held hash.
pub proof fn lemma_deepest_match_is_held(index: Map<u64, Belief>, worker: WorkerId, hashes: Seq<u64>)
    ensures
        deepest_match(index, worker, hashes) <= hashes.len(),
        deepest_match(index, worker, hashes) > 0 ==> holds(
            index,
            worker,
            hashes[deepest_match(index, worker, hashes) - 1],
        ),
    decreases hashes.len(),
{
    if hashes.len() > 0 && !holds(index, worker, hashes.last()) {
        lemma_deepest_match_is_held(index, worker, hashes.drop_last());
    }
}

/// Recording a chain makes the worker a holder of every block of it, touched
/// now, and changes nothing else: no block is lost, no other worker gains or
/// loses one, and blocks outside the chain are not touched.
pub proof fn law_recording_is_exact(
    index: Map<u64, Belief>,
    worker: WorkerId,
    chain: Seq<u64>,
    now: u64,
    hash: u64,
    other: WorkerId,
)
    ensures
        ({
            let after = recorded(index, worker, chain, now);
            let told = exists|i: int| 0 <= i < chain.len() && #[trigger] chain[i] == hash;
            let held_before = index.contains_key(hash) && index[hash].workers.contains(other);
            let held_after = after.contains_key(hash) && after[hash].workers.contains(other);
            &&& held_after <==> held_before || (told && other == worker)
            &&& after.contains_key(hash) <==> index.contains_key(hash) || told
            &&& told ==> after[hash].last_touched == now
            &&& !told && index.contains_key(hash) ==> after[hash] == index[hash]
        }),
{
    if exists|i: int| 0 <= i < chain.len() && #[trigger] chain[i] == hash {
        assert(chain.contains(hash));
    }
}

/// Touching blocks moves their time and nothing else.
pub proof fn law_touching_is_exact(
    index: Map<u64, Belief>,
    hashes: Seq<u64>,
    now: u64,
    hash: u64,
)
    ensures
        ({
            let after = touched(index, hashes, now);
            let told = exists|i: int| 0 <= i < hashes.len() && #[trigger] hashes[i] == hash;
            &&& after.contains_key(hash) <==> index.contains_key(hash)
            &&& index.contains_key(hash) ==> after[hash].workers == index[hash].workers
            &&& index.contains_key(hash) ==> after[hash].last_touched == (if told {
                now
            } else {
                index[hash].last_touched
            })
        }),
{
    if exists|i: int| 0 <= i < hashes.len() && #[trigger] hashes[i] == hash {
        assert(hashes.contains(hash));
    }
}

/// Purging a worker takes it off every block, drops the blocks that it alone
/// held and changes nothing else.
pub proof fn law_purging_is_exact(
    index: Map<u64, Belief>,
    worker: WorkerId,
    hash: u64,
    other: WorkerId,
)
    ensures
        ({
            let after = without_worker(index, worker);
            let held_before = index.contains_key(hash) && index[hash].workers.contains(other);
            let held_after = after.contains_key(hash) && after[hash].workers.contains(other);
            &&& held_after <==> held_before && other != worker
            &&& after.contains_key(hash) <==> index.contains_key(hash) && exists|w: WorkerId|
                w != worker && #[trigger] index[hash].workers.contains(w)
            &&& after.contains_key(hash) ==> after[hash].last_touched == index[hash].last_touched
        }),
{
    let left = index[hash].workers.remove(worker);
    if exists|w: WorkerId| w != worker && #[trigger] index[hash].workers.contains(w) {
        let w = choose|w: WorkerId| w != worker && #[trigger] index[hash].workers.contains(w);
        assert(left.contains(w));
        assert(left != Set::<WorkerId>::empty());
    } else {
        assert(left =~= Set::<WorkerId>::empty());
    }
    if index[hash].workers.contains(other) && other != worker {
        assert(index[hash].workers.contains(other));
    }
}

/// Eviction leaves entries as they were or drops them. An entry untouched for
/// the TTL goes. Another one goes only where the bound is reached, and then
/// every entry that stays was touched later, or at the same time under a larger
/// hash.
pub proof fn law_eviction_drops_the_stale_and_the_oldest(
    index: Map<u64, Belief>,
    now: u64,
    ttl: u64,
    max_entries: nat,
    kept: Map<u64, Belief>,
    hash: u64,
    stays: u64,
)
    requires
        index.dom().finite(),
        newest(unexpired(index, now, ttl), max_entries, kept),
    ensures
        kept.len() <= max_entries,
        kept.contains_key(hash) ==> index.contains_key(hash) && kept[hash] == index[hash],
        kept.contains_key(hash) ==> (now < index[hash].last_touched && ttl > 0) || now
            - index[hash].last_touched < ttl,
        ({
            let fresh = if now < index[hash].last_touched {
                ttl > 0
            } else {
                now - index[hash].last_touched < ttl
            };
            index.contains_key(hash) && fresh && !kept.contains_key(hash) ==> {
                &&& kept.len() == max_entries
                &&& kept.contains_key(stays) ==> index[hash].last_touched
                    < index[stays].last_touched || (index[hash].last_touched
                    == index[stays].last_touched && hash < stays)
            }
        }),
{
    let live = unexpired(index, now, ttl);
    assert(live.dom().subset_of(index.dom()));
    vstd::set_lib::lemma_len_subset(live.dom(), index.dom());
    if live.contains_key(hash) && !kept.contains_key(hash) {
        if live.len() <= max_entries {
            assert(kept.dom().subset_of(live.dom())) by {
                assert forall|h: u64| kept.dom().contains(h) implies live.dom().contains(h) by {
                    assert(kept.contains_key(h));
                }
            }
            vstd::set_lib::lemma_subset_equality(kept.dom(), live.dom());
            assert(kept.dom().contains(hash));
        }
        if kept.contains_key(stays) {
            assert(leaves_before(live, hash, stays));
        }
    }
}

/// How many entries a sweep drops for their age, and how many for the bound.
pub proof fn law_eviction_counts_add_up(
    index: Map<u64, Belief>,
    now: u64,
    ttl: u64,
    max_entries: nat,
    kept: Map<u64, Belief>,
)
    requires
        index.dom().finite(),
        newest(unexpired(index, now, ttl), max_entries, kept),
    ensures
        unexpired(index, now, ttl).dom() == index.dom().filter(
            |hash: u64|
                if now < index[hash].last_touched {
                    ttl > 0
                } else {
                    now - index[hash].last_touched < ttl
                },
        ),
        kept.len() <= unexpired(index, now, ttl).len() <= index.len(),
        unexpired(index, now, ttl).len() <= max_entries ==> kept.dom() == unexpired(
            index,
            now,
            ttl,
        ).dom(),
        unexpired(index, now, ttl).len() > max_entries ==> kept.len() == max_entries,
{
    let live = unexpired(index, now, ttl);
    assert(live.dom() =~= index.dom().filter(
        |hash: u64|
            if now < index[hash].last_touched {
                ttl > 0
            } else {
                now - index[hash].last_touched < ttl
            },
    ));
    assert(live.dom().subset_of(index.dom()));
    vstd::set_lib::lemma_len_subset(live.dom(), index.dom());
    assert(kept.dom().subset_of(live.dom())) by {
        assert forall|h: u64| kept.dom().contains(h) implies live.dom().contains(h) by {
            assert(kept.contains_key(h));
        }
    }
    vstd::set_lib::lemma_len_subset(kept.dom(), live.dom());
    if live.len() <= max_entries {
        vstd::set_lib::lemma_subset_equality(kept.dom(), live.dom());
    }
}

/// The deepest match is the last held hash: it is held, and none after it is.
pub proof fn law_deepest_match_is_the_last_held(
    index: Map<u64, Belief>,
    worker: WorkerId,
    hashes: Seq<u64>,
    i: int,
)
    requires
        0 <= i < hashes.len(),
    ensures
        ({
            let depth = deepest_match(index, worker, hashes);
            let held = index.contains_key(hashes[i]) && index[hashes[i]].workers.contains(worker);
            &&& depth <= hashes.len()
            &&& i + 1 == depth ==> held
            &&& i + 1 > depth ==> !held
        }),
    decreases hashes.len(),
{
    lemma_deepest_match_is_held(index, worker, hashes);
    if !holds(index, worker, hashes.last()) && i < hashes.len() - 1 {
        law_deepest_match_is_the_last_held(index, worker, hashes.drop_last(), i);
    }
}

/// Purging some workers takes them off every block, drops the blocks that they
/// alone held and changes nothing else.
pub proof fn law_purging_several_is_exact(
    index: Map<u64, Belief>,
    workers: Set<WorkerId>,
    hash: u64,
    other: WorkerId,
)
    ensures
        ({
            let after = without_workers(index, workers);
            let held_before = index.contains_key(hash) && index[hash].workers.contains(other);
            let held_after = after.contains_key(hash) && after[hash].workers.contains(other);
            &&& held_after <==> held_before && !workers.contains(other)
            &&& after.contains_key(hash) <==> index.contains_key(hash) && exists|w: WorkerId|
                !workers.contains(w) && #[trigger] index[hash].workers.contains(w)
            &&& after.contains_key(hash) ==> after[hash].last_touched == index[hash].last_touched
        }),
{
    let left = index[hash].workers.difference(workers);
    if exists|w: WorkerId| !workers.contains(w) && #[trigger] index[hash].workers.contains(w) {
        let w = choose|w: WorkerId|
            !workers.contains(w) && #[trigger] index[hash].workers.contains(w);
        assert(left.contains(w));
        assert(left != Set::<WorkerId>::empty());
    } else {
        assert(left =~= Set::<WorkerId>::empty());
    }
    if index[hash].workers.contains(other) && !workers.contains(other) {
        assert(index[hash].workers.contains(other));
    }
}

} // verus!
