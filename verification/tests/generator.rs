//! Generator runs: the two-per-slot invariant, determinism, atomicity.

use sch::availability::Availability;
use sch::error::Error;
use sch::generate::generate;
use sch::ids::{EntityId, EntityKind};
use sch::params::Parameters;
use sch::schedule::{Schedule, ScheduleStore};

fn aid(v: u128) -> EntityId {
    EntityId::new(EntityKind::Availability, v)
}

fn sid(v: u128) -> EntityId {
    EntityId::new(EntityKind::Schedule, v)
}

fn slot(v: u128) -> EntityId {
    EntityId::new(EntityKind::Slot, v)
}

fn sub(v: u128) -> EntityId {
    EntityId::new(EntityKind::Subject, v)
}

/// The documented scenario: S1 has eligible {A, B, C}, S2 has {A, B}, and
/// there is no history. S2 is scarcer and is decided first, taking A and B
/// (the only two, equal weight, tie broken by ascending subject id). For S1
/// the fresh subject C outweighs A and B, which both already carry one
/// assignment from this run; A beats B on the id tie-break.
#[test]
fn empty_history_scenario() {
    let a = sub(1);
    let b = sub(2);
    let c = sub(3);
    let s1 = slot(10);
    let s2 = slot(20);

    let mut av = Availability::new(aid(1), None);
    for subject in [a, b, c] {
        av.insert(s1, subject).unwrap();
    }
    av.insert(s2, a).unwrap();
    av.insert(s2, b).unwrap();

    let mut store = ScheduleStore::new();
    let mut params = Parameters::new();
    params.update(Some(aid(1)), None);

    let new = generate(&mut store, &mut params, &av, None, sid(100), None).unwrap();
    assert_eq!(new.id, sid(100));
    assert_eq!(new.parent, None);
    assert_eq!(params.schedule, Some(sid(100)));

    assert_eq!(new.get_slot(s2, &store), vec![a, b]);
    assert_eq!(new.get_slot(s1, &store), vec![c, a]);
}

#[test]
fn every_slot_gets_two_distinct_eligible_subjects() {
    let mut av = Availability::new(aid(1), None);
    for s in 1..=4u128 {
        for v in 1..=3u128 {
            av.insert(slot(s), sub(v + s)).unwrap();
        }
    }
    let mut store = ScheduleStore::new();
    let mut params = Parameters::new();
    params.update(Some(aid(1)), None);

    let new = generate(&mut store, &mut params, &av, None, sid(100), None).unwrap();
    for s in 1..=4u128 {
        let got = new.get_slot(slot(s), &store);
        assert_eq!(got.len(), 2);
        assert_ne!(got[0], got[1]);
        let eligible = av.for_slot(slot(s));
        assert!(eligible.contains(&got[0]));
        assert!(eligible.contains(&got[1]));
    }
}

#[test]
fn history_shifts_the_pick_to_rested_subjects() {
    let a = sub(1);
    let b = sub(2);
    let c = sub(3);
    let s1 = slot(10);

    let mut av = Availability::new(aid(1), None);
    for subject in [a, b, c] {
        av.insert(s1, subject).unwrap();
    }

    // subject A worked the previous run; B and C never did
    let mut store = ScheduleStore::new();
    let head = Schedule::new(sid(1), None, None);
    head.upsert(&mut store).unwrap();
    head.add(s1, a, &mut store).unwrap();

    let mut params = Parameters::new();
    params.update(Some(aid(1)), Some(sid(1)));

    let new = generate(&mut store, &mut params, &av, None, sid(2), None).unwrap();
    assert_eq!(new.parent, Some(sid(1)));
    assert_eq!(new.get_slot(s1, &store), vec![b, c]);
}

#[test]
fn under_eligible_slot_aborts_with_nothing_committed() {
    let mut av = Availability::new(aid(1), None);
    av.insert(slot(1), sub(1)).unwrap();

    let mut store = ScheduleStore::new();
    let mut params = Parameters::new();
    params.update(Some(aid(1)), None);

    let r = generate(&mut store, &mut params, &av, None, sid(100), None);
    assert_eq!(r.map(|s| s.id), Err(Error::DataIntegrity));
    assert_eq!(params.schedule, None);
    assert_eq!(Schedule::resolve(&store, sid(100)), Err(Error::NotFound));
}

#[test]
fn inactive_availability_set_is_not_found() {
    let av = Availability::new(aid(1), None);
    let mut store = ScheduleStore::new();
    let mut params = Parameters::new();
    params.update(Some(aid(2)), None);
    let r = generate(&mut store, &mut params, &av, None, sid(100), None);
    assert_eq!(r.map(|s| s.id), Err(Error::NotFound));
}

#[test]
fn colliding_new_id_is_input_error() {
    let mut av = Availability::new(aid(1), None);
    av.insert(slot(1), sub(1)).unwrap();
    av.insert(slot(1), sub(2)).unwrap();

    let mut store = ScheduleStore::new();
    Schedule::new(sid(100), None, None).upsert(&mut store).unwrap();
    let mut params = Parameters::new();
    params.update(Some(aid(1)), None);

    let r = generate(&mut store, &mut params, &av, None, sid(100), None);
    assert_eq!(r.map(|s| s.id), Err(Error::Input));
    assert_eq!(params.schedule, None);
}

#[test]
fn parent_override_is_used_and_must_resolve() {
    let a = sub(1);
    let b = sub(2);
    let mut av = Availability::new(aid(1), None);
    av.insert(slot(1), a).unwrap();
    av.insert(slot(1), b).unwrap();

    let mut store = ScheduleStore::new();
    Schedule::new(sid(1), None, None).upsert(&mut store).unwrap();
    Schedule::new(sid(2), Some(sid(1)), None).upsert(&mut store).unwrap();

    let mut params = Parameters::new();
    params.update(Some(aid(1)), Some(sid(2)));

    // explicit override picks the root instead of the current head
    let new = generate(&mut store, &mut params, &av, Some(sid(1)), sid(3), None).unwrap();
    assert_eq!(new.parent, Some(sid(1)));

    // an override that resolves nowhere aborts the run
    let r = generate(&mut store, &mut params, &av, Some(sid(99)), sid(4), None);
    assert_eq!(r.map(|s| s.id), Err(Error::NotFound));
}

#[test]
fn empty_availability_set_yields_empty_node() {
    let av = Availability::new(aid(1), None);
    let mut store = ScheduleStore::new();
    let mut params = Parameters::new();
    params.update(Some(aid(1)), None);

    let new = generate(&mut store, &mut params, &av, None, sid(100), None).unwrap();
    assert_eq!(new.get_slot(slot(1), &store), Vec::<EntityId>::new());
    assert_eq!(params.schedule, Some(sid(100)));
}

#[test]
fn successive_runs_chain_and_rotate_subjects() {
    let s1 = slot(10);
    let mut av = Availability::new(aid(1), None);
    for v in 1..=4u128 {
        av.insert(s1, sub(v)).unwrap();
    }
    let mut store = ScheduleStore::new();
    let mut params = Parameters::new();
    params.update(Some(aid(1)), None);

    let first = generate(&mut store, &mut params, &av, None, sid(100), None).unwrap();
    assert_eq!(first.get_slot(s1, &store), vec![sub(1), sub(2)]);

    let second = generate(&mut store, &mut params, &av, None, sid(101), None).unwrap();
    assert_eq!(second.parent, Some(sid(100)));
    // the two who just worked carry load and lost recency: the rested pair
    // takes the slot
    assert_eq!(second.get_slot(s1, &store), vec![sub(3), sub(4)]);
    assert_eq!(params.schedule, Some(sid(101)));
}

#[test]
fn generated_node_carries_its_name() {
    let mut av = Availability::new(aid(1), None);
    av.insert(slot(1), sub(1)).unwrap();
    av.insert(slot(1), sub(2)).unwrap();

    let mut store = ScheduleStore::new();
    let mut params = Parameters::new();
    params.update(Some(aid(1)), None);

    let new = generate(
        &mut store,
        &mut params,
        &av,
        None,
        sid(100),
        Some(String::from("week 12")),
    )
    .unwrap();
    assert_eq!(new.name, Some(String::from("week 12")));
    let resolved = Schedule::resolve(&store, sid(100)).unwrap();
    assert_eq!(resolved.name, Some(String::from("week 12")));
}
