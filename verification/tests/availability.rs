//! Availability sets: eligibility queries and the flexibility ranking.

use sch::availability::Availability;
use sch::error::Error;
use sch::ids::{EntityId, EntityKind};

fn aid(v: u128) -> EntityId {
    EntityId::new(EntityKind::Availability, v)
}

fn slot(v: u128) -> EntityId {
    EntityId::new(EntityKind::Slot, v)
}

fn sub(v: u128) -> EntityId {
    EntityId::new(EntityKind::Subject, v)
}

#[test]
fn for_slot_and_for_subject() {
    let mut av = Availability::new(aid(1), Some(String::from("week")));
    av.insert(slot(1), sub(1)).unwrap();
    av.insert(slot(1), sub(2)).unwrap();
    av.insert(slot(2), sub(1)).unwrap();

    assert_eq!(av.for_slot(slot(1)), vec![sub(1), sub(2)]);
    assert_eq!(av.for_slot(slot(2)), vec![sub(1)]);
    assert_eq!(av.for_slot(slot(3)), Vec::<EntityId>::new());
    assert_eq!(av.for_subject(sub(1)), vec![slot(1), slot(2)]);
    assert_eq!(av.for_subject(sub(3)), Vec::<EntityId>::new());
}

#[test]
fn insert_has_set_semantics() {
    let mut av = Availability::new(aid(1), None);
    av.insert(slot(1), sub(1)).unwrap();
    av.insert(slot(1), sub(1)).unwrap();
    assert_eq!(av.for_slot(slot(1)), vec![sub(1)]);
}

#[test]
fn insert_wrong_kinds_is_input_error() {
    let mut av = Availability::new(aid(1), None);
    assert_eq!(av.insert(sub(1), sub(2)), Err(Error::Input));
    assert_eq!(av.insert(slot(1), slot(2)), Err(Error::Input));
}

#[test]
fn ranking_is_ascending_by_eligible_count() {
    let mut av = Availability::new(aid(1), None);
    // slot 1: three subjects; slot 2: one; slot 3: two
    for v in [1, 2, 3] {
        av.insert(slot(1), sub(v)).unwrap();
    }
    av.insert(slot(2), sub(1)).unwrap();
    av.insert(slot(3), sub(1)).unwrap();
    av.insert(slot(3), sub(2)).unwrap();

    let ranked = av.sorted_by_flexibility();
    let order: Vec<EntityId> = ranked.iter().map(|p| p.0).collect();
    assert_eq!(order, vec![slot(2), slot(3), slot(1)]);
    assert_eq!(ranked[0].1, vec![sub(1)]);
    assert_eq!(ranked[1].1, vec![sub(1), sub(2)]);
    assert_eq!(ranked[2].1, vec![sub(1), sub(2), sub(3)]);
}

#[test]
fn ranking_breaks_ties_by_slot_id_value() {
    let mut av = Availability::new(aid(1), None);
    // insert the higher-valued slot first; both have one eligible subject
    av.insert(slot(9), sub(1)).unwrap();
    av.insert(slot(4), sub(1)).unwrap();

    let ranked = av.sorted_by_flexibility();
    let order: Vec<EntityId> = ranked.iter().map(|p| p.0).collect();
    assert_eq!(order, vec![slot(4), slot(9)]);
}
