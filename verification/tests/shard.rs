//! Consistent-hash room placement.

use std::collections::BTreeMap;

use gaussmatrix::shard::hash::{hash, virtual_node_hash};
use gaussmatrix::shard::{init_local, Reassignment, RoomPlacement, ShardRing};

fn ring(shards: &[&str]) -> ShardRing {
    let mut ring = ShardRing::new();
    for shard in shards {
        ring.add_shard(shard);
    }
    ring
}

fn rooms(count: usize) -> Vec<String> {
    (0..count).map(|i| format!("!room{i}:example.org")).collect()
}

#[test]
fn tests_empty_ring_places_nothing() {
    assert!(ShardRing::new().shard_for("!r:x").is_none());
    assert!(ShardRing::new().is_empty());
}

#[test]
fn placement_is_deterministic() {
    let ring = ring(&["a", "b", "c"]);
    assert_eq!(ring.shard_for("!room:x"), ring.shard_for("!room:x"));
    assert!(ring.shard_for("!room:x").is_some());
}

#[test]
fn add_shard_is_idempotent() {
    let mut ring = ShardRing::new();
    ring.add_shard("a");
    ring.add_shard("a");
    assert_eq!(ring.len(), 1);
}

#[test]
fn every_room_maps_to_a_member_shard() {
    let ring = ring(&["a", "b", "c"]);
    for room in rooms(500) {
        let owner = ring.shard_for(&room).unwrap();
        assert!(ring.shards().iter().any(|s| *s == owner));
    }
}

#[test]
fn placement_is_reasonably_balanced() {
    let ring = ring(&["a", "b", "c", "d"]);
    let mut counts: BTreeMap<&str, usize> = BTreeMap::new();
    let all = rooms(4000);
    for room in &all {
        *counts.entry(ring.shard_for(room).unwrap()).or_default() += 1;
    }
    // With 128 vnodes/shard each of the 4 shards should hold a healthy share;
    // require every shard between 10% and 40% (ideal 25%).
    for (shard, count) in &counts {
        assert!(
            (400..=1600).contains(count),
            "shard {shard} holds {count}/4000 — outside the balanced range"
        );
    }
    assert_eq!(counts.len(), 4, "all shards should own rooms");
}

#[test]
fn adding_a_shard_reassigns_only_a_minority() {
    let all = rooms(4000);
    let before = ring(&["a", "b", "c"]);
    let placement: Vec<String> =
        all.iter().map(|r| before.shard_for(r).unwrap().to_owned()).collect();

    let mut after = before;
    after.add_shard("d");

    let moved = all
        .iter()
        .zip(&placement)
        .filter(|(room, old)| after.shard_for(room).unwrap() != old.as_str())
        .count();

    // Consistent hashing: far fewer than half move (ideal ~1/4 onto the new
    // shard); only rooms that land on the new shard's arcs are reassigned.
    assert!(moved < all.len() / 2, "{moved}/4000 rooms moved — not consistent");
}

#[test]
fn removing_a_shard_only_moves_its_rooms() {
    let all = rooms(2000);
    let before = ring(&["a", "b", "c"]);
    let placement: Vec<String> =
        all.iter().map(|r| before.shard_for(r).unwrap().to_owned()).collect();

    let mut after = before;
    after.remove_shard("b");
    assert_eq!(after.len(), 2);

    for (room, old) in all.iter().zip(&placement) {
        let new = after.shard_for(room).unwrap();
        if old == "b" {
            assert!(new == "a" || new == "c", "removed shard's rooms reassign elsewhere");
        } else {
            assert_eq!(new, old.as_str(), "rooms not on the removed shard keep their owner");
        }
    }
}

#[test]
fn reassignments_on_add_target_only_the_new_shard() {
    let all = rooms(2000);
    let before = ring(&["a", "b", "c"]);
    let after = ring(&["a", "b", "c", "d"]);

    let moves: Vec<Reassignment> = before.reassignments(&after, &all);
    assert!(!moves.is_empty());
    for mv in &moves {
        // Adding a shard only pulls rooms onto the new shard.
        assert_eq!(mv.to, "d", "rooms only move onto the added shard");
        assert!(matches!(mv.from.as_str(), "a" | "b" | "c"));
    }
}

#[test]
fn reassignments_on_drain_come_only_from_the_removed_shard() {
    let all = rooms(2000);
    let before = ring(&["a", "b", "c"]);
    let after = ring(&["a", "c"]);

    let moves = before.reassignments(&after, &all);
    assert!(!moves.is_empty());
    for mv in &moves {
        assert_eq!(mv.from, "b", "only the drained shard's rooms move");
        assert!(matches!(mv.to.as_str(), "a" | "c"));
    }
}

#[test]
fn reassignments_empty_when_ring_unchanged() {
    let all = rooms(200);
    let ring = ring(&["a", "b"]);
    assert!(ring.reassignments(&ring, &all).is_empty());
}

#[test]
fn placement_hash_known_values() {
    assert_eq!(hash(b""), 0xf52a_15e9_a9b5_e89b);
    assert_eq!(hash(b"!room:x"), 0xeb39_9647_37f1_526f);
    assert_eq!(virtual_node_hash("a", 5), 0x484e_03f8_a1de_bc10);
}

#[test]
fn shards_are_listed_in_byte_order() {
    let ring = ring(&["c", "a", "b", "a"]);
    assert_eq!(ring.shards(), vec!["a", "b", "c"]);
    assert_eq!(ring.len(), 3);
}

#[test]
fn removing_an_unknown_shard_changes_nothing() {
    let all = rooms(300);
    let before = ring(&["a", "b"]);
    let mut after = before.clone();
    after.remove_shard("zzz");
    assert_eq!(after.len(), 2);
    assert!(before.reassignments(&after, &all).is_empty());
}

#[test]
fn draining_every_shard_empties_the_ring() {
    let mut ring = ring(&["a", "b"]);
    ring.remove_shard("a");
    ring.remove_shard("b");
    assert!(ring.is_empty());
    assert_eq!(ring.shard_for("!room:x"), None);
}

#[test]
fn single_shard_owns_every_room() {
    let ring = ring(&["solo"]);
    for room in rooms(100) {
        assert_eq!(ring.shard_for(&room), Some("solo"));
    }
}

#[test]
fn reassignments_record_room_and_both_owners() {
    let all = rooms(500);
    let before = ring(&["a"]);
    let after = ring(&["b"]);
    let moves = before.reassignments(&after, &all);
    assert_eq!(moves.len(), 500);
    assert_eq!(
        moves[0],
        Reassignment { room: all[0].clone(), from: "a".to_owned(), to: "b".to_owned() }
    );
}

#[test]
fn local_placement_owns_every_room() {
    let placement = RoomPlacement::local("gauss.example.org");
    assert_eq!(placement.len(), 1);
    assert!(!placement.is_empty());

    let room = "!abcdef:gauss.example.org";
    assert_eq!(placement.shard_for(room), Some("gauss.example.org"));
    assert!(placement.is_owned_by(room, "gauss.example.org"));
    assert!(!placement.is_owned_by(room, "other.example.org"));
}

#[test]
fn shard_empty_ring_places_nothing() {
    let placement = RoomPlacement::new(&[]);
    assert!(placement.is_empty());
    assert_eq!(placement.shard_for("!x:gauss.example.org"), None);
}

#[test]
fn placement_is_deterministic_in_shard_set() {
    let forward = RoomPlacement::new(&["a".to_owned(), "b".to_owned(), "c".to_owned()]);
    let reverse = RoomPlacement::new(&["c".to_owned(), "b".to_owned(), "a".to_owned()]);

    let room = "!room:gauss.example.org";
    assert_eq!(forward.shard_for(room), reverse.shard_for(room));
}

#[test]
fn init_local_places_many_rooms_locally() {
    let placement = init_local("gauss.example.org");
    for room in rooms(200) {
        assert_eq!(placement.shard_for(&room), Some("gauss.example.org"));
    }
}

#[test]
fn placement_duplicates_collapse_to_one_shard() {
    let placement = RoomPlacement::new(&["a".to_owned(), "a".to_owned()]);
    assert_eq!(placement.len(), 1);
    assert_eq!(placement.shard_for("!room:x"), Some("a"));
}
