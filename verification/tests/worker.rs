//! The worker registry.

use kvrouters::{Pool, WorkerConfig, WorkerRegistry};

fn two_workers() -> Vec<WorkerConfig> {
    vec![
        WorkerConfig {
            url: "http://a".to_string(),
            pool: Pool::Both,
        },
        WorkerConfig {
            url: "http://b".to_string(),
            pool: Pool::Both,
        },
    ]
}

#[test]
fn starts_with_everything_down() {
    let registry = WorkerRegistry::from_config(&two_workers());
    assert!(!registry.any_healthy());
    assert_eq!(registry.healthy_count(), 0);
    assert_eq!(registry.all_workers().len(), 2);
}

#[test]
fn health_updates_report_changes_only() {
    let mut registry = WorkerRegistry::from_config(&two_workers());
    assert!(registry.set_healthy(0, true));
    assert!(!registry.set_healthy(0, true));
    assert!(registry.is_healthy(0));
    assert!(!registry.is_healthy(1));
    assert_eq!(registry.healthy_workers(), vec![registry.get(0).unwrap()]);
}

#[test]
fn unknown_worker_id_is_ignored() {
    let mut registry = WorkerRegistry::from_config(&two_workers());
    assert!(!registry.set_healthy(42, true));
    assert!(registry.get(42).is_none());
}

#[test]
fn registers_and_removes_runtime_workers() {
    let mut registry = WorkerRegistry::from_config(&two_workers());
    let id = registry.register_worker("http://discovered".to_string(), Pool::Both);
    assert_eq!(id, 2);
    assert_eq!(registry.all_workers().len(), 3);
    assert!(!registry.is_healthy(id));

    registry.set_healthy(id, true);
    assert!(registry.is_healthy(id));

    let removed = registry.remove_worker(id);
    assert_eq!(removed.unwrap().url, "http://discovered");
    assert_eq!(registry.all_workers().len(), 2);

    // Ids are not reused: a replacement worker must never inherit the
    // cache affinity keyed to the removed one.
    let next = registry.register_worker("http://replacement".to_string(), Pool::Both);
    assert_eq!(next, 3);
}

#[test]
fn listings_are_ordered_by_id() {
    let mut registry = WorkerRegistry::from_config(&two_workers());
    for n in 0..20 {
        registry.register_worker(format!("http://w{n}"), Pool::Decode);
    }
    for id in [21, 3, 17, 0, 9] {
        registry.set_healthy(id, true);
    }
    let healthy: Vec<u64> = registry.healthy_workers().iter().map(|w| w.id).collect();
    assert_eq!(healthy, vec![0, 3, 9, 17, 21]);
    let all: Vec<u64> = registry.all_workers().iter().map(|w| w.id).collect();
    assert_eq!(all, (0..22).collect::<Vec<u64>>());
    assert_eq!(registry.healthy_count(), 5);
    assert!(registry.any_healthy());
    assert_eq!(registry.next_id(), 22);
}

#[test]
fn setting_health_leaves_other_workers_alone() {
    let mut registry = WorkerRegistry::from_config(&two_workers());
    registry.set_healthy(1, true);
    registry.set_healthy(0, true);
    registry.set_healthy(0, false);
    assert!(!registry.is_healthy(0));
    assert!(registry.is_healthy(1));
    assert_eq!(registry.get(1).unwrap().url, "http://b");
    assert!(registry.remove_worker(7).is_none());
}

#[test]
fn the_default_registry_is_empty() {
    let mut registry = WorkerRegistry::default();
    assert_eq!(registry.all_workers(), vec![]);
    assert_eq!(registry.next_id(), 0);
    assert_eq!(registry.register_worker("http://a".to_string(), Pool::Both), 0);
}
