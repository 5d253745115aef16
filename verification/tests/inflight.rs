//! In-flight accounting.

use std::sync::{Arc, Mutex};

use kvrouters::{chain_hash, InflightGuard, InflightTracker, PrefixIndex, RouterError};

#[test]
fn guard_increments_and_decrements() {
    let mut tracker = InflightTracker::with_capacity(2);
    assert_eq!(tracker.count(0), 0);
    let guard = InflightGuard::acquire(&mut tracker, 0);
    assert_eq!(tracker.count(0), 1);
    assert_eq!(tracker.total(), 1);
    assert_eq!(guard.worker(), 0);
    guard.release(&mut tracker);
    assert_eq!(tracker.count(0), 0);
    assert_eq!(tracker.total(), 0);
}

fn fallible_upstream_call(tracker: &mut InflightTracker, worker: u64) -> Result<(), RouterError> {
    // The guard is acquired before the upstream call; when the call errors, it
    // is released and the count must return to zero.
    let guard = InflightGuard::acquire(tracker, worker);
    guard.release(tracker);
    Err(RouterError::NoHealthyWorkers {
        policy: "round_robin".to_string(),
    })
}

#[test]
fn guard_released_when_upstream_call_errors() {
    let mut tracker = InflightTracker::with_capacity(1);
    for _ in 0..5 {
        assert!(fallible_upstream_call(&mut tracker, 0).is_err());
        assert_eq!(tracker.count(0), 0);
    }
}

#[test]
fn concurrent_hammering_leaves_counts_at_zero() {
    const TASKS: usize = 64;
    let runtime = tokio::runtime::Builder::new_multi_thread()
        .worker_threads(8)
        .enable_time()
        .build()
        .unwrap();
    runtime.block_on(async {
        let tracker = Arc::new(Mutex::new(InflightTracker::with_capacity(TASKS)));
        let index = Arc::new(Mutex::new(PrefixIndex::new()));

        let mut handles = Vec::new();
        for task in 0..TASKS {
            let tracker = Arc::clone(&tracker);
            let index = Arc::clone(&index);
            handles.push(tokio::spawn(async move {
                let chain = chain_hash(&format!("concurrent prompt number {task}"), 512);
                for _ in 0..50 {
                    let guard = InflightGuard::acquire(&mut tracker.lock().unwrap(), task as u64);
                    index.lock().unwrap().record(task as u64, &chain);
                    let _ = index.lock().unwrap().longest_match(task as u64, &chain);
                    tokio::time::sleep(std::time::Duration::from_micros(100)).await;
                    guard.release(&mut tracker.lock().unwrap());
                }
            }));
        }

        // Completing without deadlocking is most of the test; the timeout
        // turns a lock-order bug into a failure instead of a hang.
        tokio::time::timeout(std::time::Duration::from_secs(30), async {
            for handle in handles {
                handle.await.unwrap();
            }
        })
        .await
        .expect("index hammering deadlocked or exceeded 30s");

        assert_eq!(tracker.lock().unwrap().total(), 0, "in-flight counts leaked");
        assert_eq!(index.lock().unwrap().len(), TASKS, "one distinct chain per task");
    });
}

#[test]
fn capacity_only_grows_and_keeps_counts() {
    let mut tracker = InflightTracker::with_capacity(1);
    let guard = InflightGuard::acquire(&mut tracker, 0);
    // A worker without an entry is not counted.
    let stray = InflightGuard::acquire(&mut tracker, 5);
    assert_eq!(tracker.count(5), 0);
    assert_eq!(tracker.total(), 1);
    stray.release(&mut tracker);
    tracker.ensure_capacity(6);
    tracker.ensure_capacity(2);
    assert_eq!(tracker.count(0), 1);
    let late = InflightGuard::acquire(&mut tracker, 5);
    assert_eq!(tracker.count(5), 1);
    assert_eq!(tracker.total(), 2);
    late.release(&mut tracker);
    guard.release(&mut tracker);
    assert_eq!(tracker.total(), 0);
}

#[test]
fn the_total_is_the_number_of_live_guards() {
    let mut tracker = InflightTracker::with_capacity(3);
    assert_eq!(tracker.total(), 0);
    let mut guards = Vec::new();
    for worker in [2, 0, 2, 9, 1, 2] {
        guards.push(InflightGuard::acquire(&mut tracker, worker));
    }
    assert_eq!(tracker.total(), 5);
    while !guards.is_empty() {
        guards.remove(guards.len() / 2).release(&mut tracker);
        let live = guards.iter().filter(|guard| guard.worker() < 3).count();
        assert_eq!(tracker.total(), live as u64);
    }
    assert_eq!(tracker.total(), 0);
}
