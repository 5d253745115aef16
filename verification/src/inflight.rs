//! Per-worker in-flight request accounting.

use vstd::prelude::*;

use crate::worker::WorkerId;

verus! {

/// The count one request later. Counts are machine words and wrap.
pub open spec fn one_more(count: u64) -> u64 {
    if count == u64::MAX {
        0
    } else {
        (count + 1) as u64
    }
}

/// The count one request earlier.
pub open spec fn one_less(count: u64) -> u64 {
    if count == 0 {
        u64::MAX
    } else {
        (count - 1) as u64
    }
}

/// `counts` with the entry of `worker` one higher; an unknown worker has no
/// entry.
pub open spec fn incremented(counts: Seq<u64>, worker: WorkerId) -> Seq<u64> {
    if worker < counts.len() {
        counts.update(worker as int, one_more(counts[worker as int]))
    } else {
        counts
    }
}

/// `counts` with the entry of `worker` one lower.
pub open spec fn decremented(counts: Seq<u64>, worker: WorkerId) -> Seq<u64> {
    if worker < counts.len() {
        counts.update(worker as int, one_less(counts[worker as int]))
    } else {
        counts
    }
}

/// Requests in flight at `worker`; none at a worker without an entry.
pub open spec fn count_of(counts: Seq<u64>, worker: WorkerId) -> u64 {
    if worker < counts.len() {
        counts[worker as int]
    } else {
        0
    }
}

/// The counts with room for at least `workers` workers.
pub open spec fn grown(counts: Seq<u64>, workers: nat) -> Seq<u64> {
    counts + Seq::new(
        if workers > counts.len() {
            (workers - counts.len()) as nat
        } else {
            0
        },
        |i: int| 0u64,
    )
}

/// The sum of all counts.
pub open spec fn sum_of(counts: Seq<u64>) -> nat
    decreases counts.len(),
{
    if counts.len() == 0 {
        0
    } else {
        sum_of(counts.drop_last()) + counts.last() as nat
    }
}

/// Per-worker in-flight request counts.
///
/// Worker ids are dense by construction, so a vector indexed by id is enough.
#[derive(Debug)]
pub struct InflightTracker {
    counts: Vec<u64>,
}

impl View for InflightTracker {
    type V = Seq<u64>;

    closed spec fn view(&self) -> Seq<u64> {
        self.counts@
    }
}

impl InflightTracker {
    /// A tracker for the workers `0..workers`, all idle.
    pub fn with_capacity(workers: usize) -> (r: InflightTracker)
        ensures
            r@ == Seq::new(workers as nat, |i: int| 0u64),
    {
        let mut counts: Vec<u64> = Vec::new();
        while counts.len() < workers
            invariant
                counts@.len() <= workers,
                counts@ == Seq::new(counts@.len(), |i: int| 0u64),
            decreases workers - counts@.len(),
        {
            counts.push(0);
            assert(counts@ =~= Seq::new(counts@.len(), |i: int| 0u64));
        }
        InflightTracker { counts }
    }

    /// Grow the tracker so that it covers the workers `0..workers`. Counts
    /// already kept stay; new workers are idle.
    pub fn ensure_capacity(&mut self, workers: usize)
        ensures
            final(self)@ == grown(old(self)@, workers as nat),
            final(self)@.len() == if workers > old(self)@.len() {
                workers as nat
            } else {
                old(self)@.len()
            },
            forall|i: int|
                0 <= i < final(self)@.len() ==> #[trigger] final(self)@[i] == (if i
                    < old(self)@.len() {
                    old(self)@[i]
                } else {
                    0
                }),
    {
        let ghost before = self@;
        while self.counts.len() < workers
            invariant
                before.len() <= self@.len(),
                self@.len() <= workers || self@.len() == before.len(),
                self@ == before + Seq::new((self@.len() - before.len()) as nat, |i: int| 0u64),
            decreases workers - self.counts@.len(),
        {
            self.counts.push(0);
            assert(self@ =~= before + Seq::new(
                (self@.len() - before.len()) as nat,
                |i: int| 0u64,
            ));
        }
    }

    /// In-flight requests currently being served by `worker`.
    pub fn count(&self, worker: WorkerId) -> (r: u64)
        ensures
            r == count_of(self@, worker),
            worker < self@.len() ==> r == self@[worker as int],
            worker >= self@.len() ==> r == 0,
    {
        if worker < self.counts.len() as u64 {
            self.counts[worker as usize]
        } else {
            0
        }
    }

    /// Total in-flight requests across all workers, as a machine word.
    pub fn total(&self) -> (r: u64)
        ensures
            r == sum_of(self@) % 0x1_0000_0000_0000_0000,
            sum_of(self@) <= u64::MAX ==> r == sum_of(self@),
    {
        let mut sum: u64 = 0;
        let mut i: usize = 0;
        while i < self.counts.len()
            invariant
                i <= self.counts@.len(),
                sum == sum_of(self.counts@.take(i as int)) % 0x1_0000_0000_0000_0000,
            decreases self.counts@.len() - i,
        {
            sum = sum.wrapping_add(self.counts[i]);
            i += 1;
            assert(self.counts@.take(i as int).drop_last() =~= self.counts@.take(i - 1));
        }
        assert(self.counts@.take(i as int) =~= self.counts@);
        sum
    }

    fn increment(&mut self, worker: WorkerId)
        ensures
            final(self)@ == incremented(old(self)@, worker),
    {
        if worker < self.counts.len() as u64 {
            let count = self.counts[worker as usize];
            self.counts.set(worker as usize, count.wrapping_add(1));
        }
    }

    fn decrement(&mut self, worker: WorkerId)
        ensures
            final(self)@ == decremented(old(self)@, worker),
    {
        if worker < self.counts.len() as u64 {
            let count = self.counts[worker as usize];
            self.counts.set(worker as usize, count.wrapping_sub(1));
        }
    }
}

/// Token for one in-flight request against a worker: acquiring it counts the
/// request, releasing it takes the request back out, whether the proxied call
/// went well or not. It can be neither copied nor released twice.
#[must_use]
#[derive(Debug)]
pub struct InflightGuard {
    worker: WorkerId,
}

impl View for InflightGuard {
    type V = WorkerId;

    closed spec fn view(&self) -> WorkerId {
        self.worker
    }
}

impl InflightGuard {
    /// Count one request against `worker`.
    pub fn acquire(tracker: &mut InflightTracker, worker: WorkerId) -> (guard: InflightGuard)
        ensures
            guard@ == worker,
            final(tracker)@ == incremented(old(tracker)@, worker),
            final(tracker)@.len() == old(tracker)@.len(),
            forall|i: int|
                0 <= i < old(tracker)@.len() && i != worker ==> #[trigger] final(tracker)@[i]
                    == old(tracker)@[i],
            worker < old(tracker)@.len() && old(tracker)@[worker as int] < u64::MAX
                ==> final(tracker)@[worker as int] == old(tracker)@[worker as int] + 1,
    {
        tracker.increment(worker);
        InflightGuard { worker }
    }

    /// The worker this request is counted against.
    pub fn worker(&self) -> (r: WorkerId)
        ensures
            r == self@,
    {
        self.worker
    }

    /// Take the request back out of the count.
    pub fn release(self, tracker: &mut InflightTracker)
        ensures
            final(tracker)@ == decremented(old(tracker)@, self@),
            final(tracker)@.len() == old(tracker)@.len(),
            forall|i: int|
                0 <= i < old(tracker)@.len() && i != self@ ==> #[trigger] final(tracker)@[i]
                    == old(tracker)@[i],
            self@ < old(tracker)@.len() && old(tracker)@[self@ as int] > 0
                ==> final(tracker)@[self@ as int] == old(tracker)@[self@ as int] - 1,
    {
        tracker.decrement(self.worker);
    }
}

/// One step of request accounting.
pub enum InflightStep {
    /// A guard for the worker is acquired.
    Acquire(WorkerId),
    /// A guard for the worker is released.
    Release(WorkerId),
}

/// The counts after `steps`.
pub open spec fn after_steps(counts: Seq<u64>, steps: Seq<InflightStep>) -> Seq<u64>
    decreases steps.len(),
{
    if steps.len() == 0 {
        counts
    } else {
        let before = after_steps(counts, steps.drop_last());
        match steps.last() {
            InflightStep::Acquire(worker) => incremented(before, worker),
            InflightStep::Release(worker) => decremented(before, worker),
        }
    }
}

/// Guards of `worker` acquired in `steps`, less those released.
pub open spec fn outstanding(steps: Seq<InflightStep>, worker: WorkerId) -> int
    decreases steps.len(),
{
    if steps.len() == 0 {
        0
    } else {
        outstanding(steps.drop_last(), worker) + (match steps.last() {
            InflightStep::Acquire(w) => if w == worker {
                1int
            } else {
                0
            },
            InflightStep::Release(w) => if w == worker {
                -1int
            } else {
                0
            },
        })
    }
}

/// However acquisitions and releases interleave, the count of a worker is
/// where it started plus the guards still held, as a machine word.
pub proof fn law_counts_track_outstanding_guards(
    counts: Seq<u64>,
    steps: Seq<InflightStep>,
    worker: WorkerId,
)
    requires
        worker < counts.len(),
    ensures
        after_steps(counts, steps).len() == counts.len(),
        after_steps(counts, steps)[worker as int] == (counts[worker as int] + outstanding(
            steps,
            worker,
        )) % 0x1_0000_0000_0000_0000,
    decreases steps.len(),
{
    if steps.len() > 0 {
        law_counts_track_outstanding_guards(counts, steps.drop_last(), worker);
    }
}

/// Once every guard has been released the counts are back where they started:
/// nothing leaks.
pub proof fn law_released_guards_leave_no_trace(counts: Seq<u64>, steps: Seq<InflightStep>)
    requires
        forall|worker: WorkerId| worker < counts.len() ==> #[trigger] outstanding(steps, worker) == 0,
    ensures
        after_steps(counts, steps) == counts,
{
    if counts.len() > 0 {
        law_counts_track_outstanding_guards(counts, steps, 0);
    } else {
        lemma_steps_keep_len(counts, steps);
    }
    lemma_steps_keep_len(counts, steps);
    assert forall|i: int| 0 <= i < counts.len() implies after_steps(counts, steps)[i]
        == counts[i] by {
        if i <= u64::MAX {
            law_counts_track_outstanding_guards(counts, steps, i as u64);
        } else {
            lemma_steps_spare_unnamed(counts, steps, i);
        }
    }
    assert(after_steps(counts, steps) =~= counts);
}

/// Guards of the workers `0..workers` acquired in `steps`, less those released.
pub open spec fn live_guards(steps: Seq<InflightStep>, workers: nat) -> int
    decreases steps.len(),
{
    if steps.len() == 0 {
        0
    } else {
        live_guards(steps.drop_last(), workers) + (match steps.last() {
            InflightStep::Acquire(w) => if w < workers {
                1int
            } else {
                0
            },
            InflightStep::Release(w) => if w < workers {
                -1int
            } else {
                0
            },
        })
    }
}

/// However acquisitions and releases interleave, the total is where it started
/// plus the guards still held of workers with an entry, as a machine word.
pub proof fn law_total_tracks_live_guards(counts: Seq<u64>, steps: Seq<InflightStep>)
    ensures
        sum_of(after_steps(counts, steps)) % 0x1_0000_0000_0000_0000 == (sum_of(counts)
            + live_guards(steps, counts.len())) % 0x1_0000_0000_0000_0000,
    decreases steps.len(),
{
    if steps.len() > 0 {
        let before = after_steps(counts, steps.drop_last());
        law_total_tracks_live_guards(counts, steps.drop_last());
        lemma_steps_keep_len(counts, steps.drop_last());
        match steps.last() {
            InflightStep::Acquire(w) => {
                if w < counts.len() {
                    lemma_sum_after_update(before, w as int, one_more(before[w as int]));
                }
            },
            InflightStep::Release(w) => {
                if w < counts.len() {
                    lemma_sum_after_update(before, w as int, one_less(before[w as int]));
                }
            },
        }
    }
}

/// The counts of a tracker that started idle are the guards still held, and
/// its total is the number of those of workers with an entry: none while no
/// guard was acquired, and none again once all are released.
pub proof fn law_total_is_the_number_of_live_guards(workers: usize, steps: Seq<InflightStep>)
    requires
        forall|worker: WorkerId| worker < workers ==> #[trigger] outstanding(steps, worker) >= 0,
        live_guards(steps, workers as nat) <= u64::MAX,
    ensures
        ({
            let counts = after_steps(Seq::new(workers as nat, |i: int| 0u64), steps);
            &&& forall|worker: WorkerId|
                worker < workers ==> count_of(counts, worker) == #[trigger] outstanding(
                    steps,
                    worker,
                )
            &&& sum_of(counts) == live_guards(steps, workers as nat)
            &&& (forall|worker: WorkerId|
                worker < workers ==> #[trigger] outstanding(steps, worker) == 0) ==> sum_of(counts)
                == 0
        }),
{
    let idle = Seq::new(workers as nat, |i: int| 0u64);
    let counts = after_steps(idle, steps);
    lemma_steps_keep_len(idle, steps);
    assert forall|worker: WorkerId| worker < workers implies counts[worker as int]
        == #[trigger] outstanding(steps, worker) by {
        lemma_live_guards_of_one(steps, workers as nat, worker);
        law_counts_track_outstanding_guards(idle, steps, worker);
    }
    lemma_sum_is_live_guards(counts, steps, workers as nat);
    assert(counts.take(workers as int) =~= counts);
    if forall|worker: WorkerId| worker < workers ==> #[trigger] outstanding(steps, worker) == 0 {
        law_released_guards_leave_no_trace(idle, steps);
        lemma_idle_sum(workers as nat);
    }
}

/// One worker more adds that worker's guards.
proof fn lemma_live_guards_step(steps: Seq<InflightStep>, worker: WorkerId)
    ensures
        live_guards(steps, worker as nat + 1) == live_guards(steps, worker as nat) + outstanding(
            steps,
            worker,
        ),
    decreases steps.len(),
{
    if steps.len() > 0 {
        lemma_live_guards_step(steps.drop_last(), worker);
    }
}

proof fn lemma_no_live_guards(steps: Seq<InflightStep>)
    ensures
        live_guards(steps, 0) == 0,
    decreases steps.len(),
{
    if steps.len() > 0 {
        lemma_no_live_guards(steps.drop_last());
    }
}

proof fn lemma_live_guards_of_one(steps: Seq<InflightStep>, workers: nat, worker: WorkerId)
    requires
        workers <= usize::MAX,
        worker < workers,
        forall|w: WorkerId| w < workers ==> #[trigger] outstanding(steps, w) >= 0,
    ensures
        0 <= outstanding(steps, worker) <= live_guards(steps, workers),
    decreases workers,
{
    let last = (workers - 1) as u64;
    lemma_live_guards_step(steps, last);
    assert(outstanding(steps, last) >= 0);
    if worker < last {
        lemma_live_guards_of_one(steps, last as nat, worker);
    } else if last > 0 {
        lemma_live_guards_of_one(steps, last as nat, 0);
    } else {
        lemma_no_live_guards(steps);
    }
}

proof fn lemma_sum_is_live_guards(counts: Seq<u64>, steps: Seq<InflightStep>, workers: nat)
    requires
        workers <= usize::MAX,
        workers <= counts.len(),
        forall|w: WorkerId|
            w < workers ==> counts[w as int] == #[trigger] outstanding(steps, w),
    ensures
        sum_of(counts.take(workers as int)) == live_guards(steps, workers),
    decreases workers,
{
    if workers == 0 {
        lemma_no_live_guards(steps);
    } else {
        let last = (workers - 1) as u64;
        lemma_live_guards_step(steps, last);
        lemma_sum_is_live_guards(counts, steps, last as nat);
        assert(counts[last as int] == outstanding(steps, last));
        assert(counts.take(workers as int).drop_last() =~= counts.take(last as int));
    }
}

proof fn lemma_idle_sum(workers: nat)
    ensures
        sum_of(Seq::new(workers, |i: int| 0u64)) == 0,
    decreases workers,
{
    if workers > 0 {
        let fewer = (workers - 1) as nat;
        assert(Seq::new(workers, |i: int| 0u64).drop_last() =~= Seq::new(fewer, |i: int| 0u64));
        lemma_idle_sum(fewer);
    }
}

proof fn lemma_sum_after_update(counts: Seq<u64>, i: int, count: u64)
    requires
        0 <= i < counts.len(),
    ensures
        sum_of(counts.update(i, count)) == sum_of(counts) - counts[i] + count,
    decreases counts.len(),
{
    let head = counts.drop_last();
    if i == counts.len() - 1 {
        assert(counts.update(i, count).drop_last() =~= head);
    } else {
        assert(counts.update(i, count).drop_last() =~= head.update(i, count));
        lemma_sum_after_update(head, i, count);
    }
}

proof fn lemma_steps_keep_len(counts: Seq<u64>, steps: Seq<InflightStep>)
    ensures
        after_steps(counts, steps).len() == counts.len(),
    decreases steps.len(),
{
    if steps.len() > 0 {
        lemma_steps_keep_len(counts, steps.drop_last());
    }
}

proof fn lemma_steps_spare_unnamed(counts: Seq<u64>, steps: Seq<InflightStep>, i: int)
    requires
        u64::MAX < i < counts.len(),
    ensures
        after_steps(counts, steps)[i] == counts[i],
    decreases steps.len(),
{
    if steps.len() > 0 {
        lemma_steps_spare_unnamed(counts, steps.drop_last(), i);
        lemma_steps_keep_len(counts, steps.drop_last());
    }
}

/// Growing keeps every count and starts new workers idle.
pub proof fn law_growing_keeps_counts(counts: Seq<u64>, workers: nat, i: int)
    requires
        0 <= i < grown(counts, workers).len(),
    ensures
        grown(counts, workers).len() >= counts.len(),
        grown(counts, workers).len() >= workers,
        grown(counts, workers).len() == counts.len() || grown(counts, workers).len() == workers,
        grown(counts, workers)[i] == (if i < counts.len() {
            counts[i]
        } else {
            0
        }),
{
}

} // verus!
