use resource_collection::knowledge::{Knowledge, KnownResource};
use resource_collection::message::Message;
use resource_collection::types::{Pos, ResourceKind};

fn found(x: i32, y: i32, qty: u32) -> Message {
    Message::FoundResource { pos: Pos::new(x, y), kind: ResourceKind::Energy, qty }
}

fn get(k: &Knowledge, p: Pos) -> Option<KnownResource> {
    k.resources.find(p).map(|i| *k.resources.value_at(i))
}

#[test]
fn nearest_available_picks_the_closest() {
    let mut k = Knowledge::default();
    k.apply_message(&found(10, 0, 5));
    k.apply_message(&found(3, 1, 5));
    k.apply_message(&found(-6, 0, 5));
    assert_eq!(k.nearest_available(Pos::new(0, 0), 0), Some(Pos::new(3, 1)));
    assert_eq!(k.nearest_available(Pos::new(-5, 0), 0), Some(Pos::new(-6, 0)));
}

#[test]
fn nearest_available_on_empty_knowledge() {
    let k = Knowledge::new();
    assert_eq!(k.nearest_available(Pos::new(0, 0), 3), None);
}

#[test]
fn nearest_available_skips_claimed_and_depleted() {
    let mut k = Knowledge::new();
    k.apply_message(&found(1, 0, 5));
    k.apply_message(&found(2, 0, 5));
    k.apply_message(&found(3, 0, 0));
    k.apply_message(&Message::Claim { id: 7, pos: Pos::new(1, 0) });
    k.apply_message(&Message::Deplete { pos: Pos::new(2, 0) });
    assert_eq!(k.nearest_available(Pos::new(0, 0), 1), None);
    // The claimant itself still sees its own target.
    assert_eq!(k.nearest_available(Pos::new(0, 0), 7), Some(Pos::new(1, 0)));
}

#[test]
fn found_resource_records_and_clears_obstacle() {
    let mut k = Knowledge::new();
    k.apply_message(&Message::FoundObstacle { pos: Pos::new(4, 4) });
    assert!(k.obstacles.contains(Pos::new(4, 4)));
    k.apply_message(&Message::FoundResource { pos: Pos::new(4, 4), kind: ResourceKind::Crystal, qty: 12 });
    assert!(!k.obstacles.contains(Pos::new(4, 4)));
    let r = get(&k, Pos::new(4, 4)).unwrap();
    assert_eq!(r.kind, ResourceKind::Crystal);
    assert_eq!(r.qty, 12);
    assert_eq!(r.claimed_by, None);
    assert!(!r.depleted);
}

#[test]
fn found_resource_keeps_claim_and_zero_depletes() {
    let mut k = Knowledge::new();
    k.apply_message(&found(1, 1, 5));
    k.apply_message(&Message::Claim { id: 2, pos: Pos::new(1, 1) });
    k.apply_message(&found(1, 1, 4));
    let r = get(&k, Pos::new(1, 1)).unwrap();
    assert_eq!(r.qty, 4);
    assert_eq!(r.claimed_by, Some(2));
    k.apply_message(&found(1, 1, 0));
    assert!(get(&k, Pos::new(1, 1)).unwrap().depleted);
    // Depletion is permanent.
    k.apply_message(&found(1, 1, 9));
    assert!(get(&k, Pos::new(1, 1)).unwrap().depleted);
}

#[test]
fn first_claim_wins() {
    let mut k = Knowledge::new();
    k.apply_message(&found(0, 5, 3));
    k.apply_message(&Message::Claim { id: 1, pos: Pos::new(0, 5) });
    k.apply_message(&Message::Claim { id: 2, pos: Pos::new(0, 5) });
    assert_eq!(get(&k, Pos::new(0, 5)).unwrap().claimed_by, Some(1));
    assert_eq!(k.nearest_available(Pos::new(0, 0), 2), None);
}

#[test]
fn claim_of_unknown_position_is_ignored() {
    let mut k = Knowledge::new();
    k.apply_message(&Message::Claim { id: 1, pos: Pos::new(0, 5) });
    assert_eq!(k.resources.len(), 0);
}

#[test]
fn deplete_forgets_the_resource() {
    let mut k = Knowledge::new();
    k.apply_message(&found(2, 2, 8));
    k.apply_message(&found(3, 3, 8));
    k.apply_message(&Message::Claim { id: 4, pos: Pos::new(2, 2) });
    k.apply_message(&Message::Deplete { pos: Pos::new(2, 2) });
    assert!(get(&k, Pos::new(2, 2)).is_none());
    assert_eq!(k.resources.len(), 1);
    assert_eq!(k.nearest_available(Pos::new(2, 2), 4), Some(Pos::new(3, 3)));
}

#[test]
fn collected_leaves_knowledge_unchanged() {
    let mut k = Knowledge::new();
    k.apply_message(&found(2, 2, 8));
    k.apply_message(&Message::Collected { kind: ResourceKind::Energy, amount: 1 });
    assert_eq!(k.resources.len(), 1);
    assert_eq!(k.obstacles.len(), 0);
}

#[test]
fn only_depletion_forgets_a_resource() {
    let mut k = Knowledge::new();
    k.apply_message(&found(6, 6, 2));
    let p = Pos::new(6, 6);
    k.apply_message(&Message::FoundObstacle { pos: p });
    k.apply_message(&Message::Claim { id: 0, pos: p });
    k.apply_message(&Message::Collected { kind: ResourceKind::Energy, amount: 1 });
    assert!(k.resources.contains_key(p));
    assert!(k.obstacles.contains(p));
    assert_eq!(get(&k, p).unwrap().claimed_by, Some(0));
    k.apply_message(&Message::Deplete { pos: p });
    assert!(!k.resources.contains_key(p));
    // A later sighting makes it known again.
    k.apply_message(&found(6, 6, 5));
    assert_eq!(get(&k, p).unwrap().qty, 5);
    assert!(!get(&k, p).unwrap().depleted);
}

#[test]
fn nearest_available_ties_go_to_the_first_known() {
    let mut k = Knowledge::new();
    k.apply_message(&found(0, 2, 5));
    k.apply_message(&found(2, 0, 5));
    assert_eq!(k.nearest_available(Pos::new(0, 0), 0), Some(Pos::new(0, 2)));
}
