use bevy_replicon::replicon_core::replication_rules::ReplicationId;
use bevy_replicon::server::change_detection::collect_removals;
use bevy_replicon::server::removal_tracker::{Removal, RemovalTracker};
use bevy_replicon::tick::Tick;

fn removed(replication_id: usize, tick: u32) -> Removal {
    Removal { replication_id: ReplicationId(replication_id), tick: Tick::new(tick) }
}

/// The entries of a tracker, ordered by replication identifier.
fn sorted_entries(tracker: &RemovalTracker) -> Vec<Removal> {
    let mut entries = tracker.entries();
    entries.sort_by_key(|removal| removal.replication_id.0);
    entries
}

#[test]
fn tracker_records_removals() {
    let mut tracker = RemovalTracker::new();
    assert!(tracker.entries().is_empty());
    tracker.insert(ReplicationId(3), Tick::new(10));
    tracker.insert(ReplicationId(1), Tick::new(11));
    assert_eq!(sorted_entries(&tracker), vec![removed(1, 11), removed(3, 10)]);
    assert_eq!(tracker.get(ReplicationId(1)), Some(Tick::new(11)));
    assert_eq!(tracker.get(ReplicationId(3)), Some(Tick::new(10)));
    assert_eq!(tracker.get(ReplicationId(2)), None);
}

#[test]
fn removing_again_replaces_the_tick() {
    let mut tracker = RemovalTracker::new();
    tracker.insert(ReplicationId(3), Tick::new(10));
    tracker.insert(ReplicationId(1), Tick::new(11));
    tracker.insert(ReplicationId(3), Tick::new(15));
    assert_eq!(sorted_entries(&tracker), vec![removed(1, 11), removed(3, 15)]);
    assert_eq!(tracker.get(ReplicationId(3)), Some(Tick::new(15)));
}

#[test]
fn walk_lists_every_removal_once() {
    let mut tracker = RemovalTracker::new();
    for id in 0..200 {
        tracker.insert(ReplicationId(id), Tick::new(1000 + id as u32));
    }
    let expected: Vec<Removal> = (0..200).map(|id| removed(id, 1000 + id as u32)).collect();
    assert_eq!(tracker.entries().len(), 200);
    assert_eq!(sorted_entries(&tracker), expected);
}

#[test]
fn prune_forgets_what_all_clients_have_seen() {
    let mut tracker = RemovalTracker::new();
    tracker.insert(ReplicationId(0), Tick::new(4));
    tracker.insert(ReplicationId(1), Tick::new(9));
    tracker.insert(ReplicationId(2), Tick::new(6));
    tracker.insert(ReplicationId(3), Tick::new(7));
    tracker.prune(Tick::new(6), Tick::new(10));
    assert_eq!(sorted_entries(&tracker), vec![removed(1, 9), removed(3, 7)]);
    assert_eq!(tracker.get(ReplicationId(0)), None);
    assert_eq!(tracker.get(ReplicationId(2)), None);
    assert_eq!(tracker.get(ReplicationId(3)), Some(Tick::new(7)));
    // Pruning again with the same bound forgets nothing more.
    tracker.prune(Tick::new(6), Tick::new(10));
    assert_eq!(sorted_entries(&tracker), vec![removed(1, 9), removed(3, 7)]);
    tracker.prune(Tick::new(10), Tick::new(10));
    assert!(tracker.entries().is_empty());
}

#[test]
fn prune_across_wraparound() {
    let mut tracker = RemovalTracker::new();
    tracker.insert(ReplicationId(0), Tick::new(u32::MAX - 3));
    tracker.insert(ReplicationId(1), Tick::new(1));
    tracker.prune(Tick::new(u32::MAX), Tick::new(2));
    assert_eq!(tracker.entries(), vec![removed(1, 1)]);
}

#[test]
fn pruning_leaves_what_a_scan_with_the_same_bound_yields() {
    let mut tracker = RemovalTracker::new();
    for id in 0..50 {
        tracker.insert(ReplicationId(id), Tick::new(id as u32));
    }
    let mut scanned = collect_removals(&tracker.entries(), Tick::new(60), Tick::new(30));
    scanned.sort_by_key(|candidate| candidate.replication_id.0);
    tracker.prune(Tick::new(30), Tick::new(60));
    let kept = sorted_entries(&tracker);
    assert_eq!(kept.len(), 19);
    assert_eq!(scanned.len(), kept.len());
    for (candidate, removal) in scanned.iter().zip(kept.iter()) {
        assert_eq!(candidate.replication_id, removal.replication_id);
        assert_eq!(candidate.tick, removal.tick);
    }
}
