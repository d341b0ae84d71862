//! The schedule chain: storage operations and historical aggregation.

use sch::error::Error;
use sch::ids::{EntityId, EntityKind};
use sch::params::Parameters;
use sch::schedule::{Schedule, ScheduleStore};

fn sid(v: u128) -> EntityId {
    EntityId::new(EntityKind::Schedule, v)
}

fn slot(v: u128) -> EntityId {
    EntityId::new(EntityKind::Slot, v)
}

fn sub(v: u128) -> EntityId {
    EntityId::new(EntityKind::Subject, v)
}

#[test]
fn resolve_returns_stored_head() {
    let mut store = ScheduleStore::new();
    let root = Schedule::new(sid(1), None, Some(String::from("first")));
    assert_eq!(root.upsert(&mut store), Ok(()));

    let got = Schedule::resolve(&store, sid(1)).unwrap();
    assert_eq!(got.id, sid(1));
    assert_eq!(got.parent, None);
    assert_eq!(got.name, Some(String::from("first")));
}

#[test]
fn resolve_unknown_id_is_not_found() {
    let store = ScheduleStore::new();
    assert_eq!(Schedule::resolve(&store, sid(9)), Err(Error::NotFound));
}

#[test]
fn resolve_wrong_kind_is_input_error() {
    let store = ScheduleStore::new();
    assert_eq!(Schedule::resolve(&store, sub(1)), Err(Error::Input));
}

#[test]
fn resolve_twice_is_identical() {
    let mut store = ScheduleStore::new();
    let root = Schedule::new(sid(1), None, None);
    root.upsert(&mut store).unwrap();
    let child = Schedule::new(sid(2), Some(sid(1)), None);
    child.upsert(&mut store).unwrap();

    let a = Schedule::resolve(&store, sid(2)).unwrap();
    let b = Schedule::resolve(&store, sid(2)).unwrap();
    assert_eq!(a.id, b.id);
    assert_eq!(a.parent, b.parent);
    assert_eq!(a.name, b.name);
}

#[test]
fn upsert_missing_parent_is_not_found() {
    let mut store = ScheduleStore::new();
    let orphan = Schedule::new(sid(2), Some(sid(1)), None);
    assert_eq!(orphan.upsert(&mut store), Err(Error::NotFound));
    assert_eq!(Schedule::resolve(&store, sid(2)), Err(Error::NotFound));
}

#[test]
fn upsert_overwrites_parent_link() {
    let mut store = ScheduleStore::new();
    Schedule::new(sid(1), None, None).upsert(&mut store).unwrap();
    Schedule::new(sid(2), None, None).upsert(&mut store).unwrap();
    Schedule::new(sid(3), Some(sid(1)), None).upsert(&mut store).unwrap();

    // relink node 3 under node 2
    Schedule::new(sid(3), Some(sid(2)), None).upsert(&mut store).unwrap();
    let got = Schedule::resolve(&store, sid(3)).unwrap();
    assert_eq!(got.parent, Some(sid(2)));
}

#[test]
fn upsert_forward_parent_is_data_integrity() {
    let mut store = ScheduleStore::new();
    Schedule::new(sid(1), None, None).upsert(&mut store).unwrap();
    Schedule::new(sid(2), Some(sid(1)), None).upsert(&mut store).unwrap();

    // relinking the older node under the newer one would bend the chain
    let relink = Schedule::new(sid(1), Some(sid(2)), None);
    assert_eq!(relink.upsert(&mut store), Err(Error::DataIntegrity));
}

#[test]
fn count_is_per_node_only() {
    let mut store = ScheduleStore::new();
    let root = Schedule::new(sid(1), None, None);
    root.upsert(&mut store).unwrap();
    root.add(slot(1), sub(7), &mut store).unwrap();
    root.add(slot(2), sub(7), &mut store).unwrap();
    root.add(slot(2), sub(8), &mut store).unwrap();

    let child = Schedule::new(sid(2), Some(sid(1)), None);
    child.upsert(&mut store).unwrap();
    child.add(slot(1), sub(7), &mut store).unwrap();

    assert_eq!(root.count(sub(7), &store), 2);
    assert_eq!(child.count(sub(7), &store), 1);
    assert_eq!(child.count(sub(8), &store), 0);
}

#[test]
fn add_wrong_kinds_is_input_error() {
    let mut store = ScheduleStore::new();
    let root = Schedule::new(sid(1), None, None);
    root.upsert(&mut store).unwrap();
    assert_eq!(root.add(sub(1), sub(2), &mut store), Err(Error::Input));
    assert_eq!(root.add(slot(1), slot(2), &mut store), Err(Error::Input));
}

#[test]
fn count_total_sums_the_whole_chain() {
    let mut store = ScheduleStore::new();
    let root = Schedule::new(sid(1), None, None);
    root.upsert(&mut store).unwrap();
    root.add(slot(1), sub(7), &mut store).unwrap();

    let mid = Schedule::new(sid(2), Some(sid(1)), None);
    mid.upsert(&mut store).unwrap();
    mid.add(slot(1), sub(7), &mut store).unwrap();
    mid.add(slot(2), sub(7), &mut store).unwrap();

    let head = Schedule::new(sid(3), Some(sid(2)), None);
    head.upsert(&mut store).unwrap();

    assert_eq!(head.count_total(sub(7), &store), Ok(3));
    assert_eq!(mid.count_total(sub(7), &store), Ok(3));
    assert_eq!(root.count_total(sub(7), &store), Ok(1));
    assert_eq!(head.count_total(sub(8), &store), Ok(0));
}

#[test]
fn count_total_recursive_invariant_on_synthetic_chain() {
    // countTotal(node) == count(node) + countTotal(parent), hop by hop
    let mut store = ScheduleStore::new();
    let mut parent: Option<EntityId> = None;
    let mut heads = Vec::new();
    for v in 1..=4u128 {
        let node = Schedule::new(sid(v), parent, None);
        node.upsert(&mut store).unwrap();
        for k in 0..v as usize {
            node.add(slot(k as u128 + 1), sub(7), &mut store).unwrap();
        }
        parent = Some(sid(v));
        heads.push(node);
    }
    for i in (1..heads.len()).rev() {
        let own = heads[i].count(sub(7), &store);
        let total = heads[i].count_total(sub(7), &store).unwrap();
        let parent_total = heads[i - 1].count_total(sub(7), &store).unwrap();
        assert_eq!(total, own + parent_total);
    }
}

#[test]
fn last_scheduled_counts_hops_and_short_circuits() {
    let mut store = ScheduleStore::new();
    let root = Schedule::new(sid(1), None, None);
    root.upsert(&mut store).unwrap();
    root.add(slot(1), sub(7), &mut store).unwrap();

    let mid = Schedule::new(sid(2), Some(sid(1)), None);
    mid.upsert(&mut store).unwrap();
    mid.add(slot(1), sub(7), &mut store).unwrap();

    let head = Schedule::new(sid(3), Some(sid(2)), None);
    head.upsert(&mut store).unwrap();

    assert_eq!(head.last_scheduled(sub(7), &store), Ok(Some(1)));
    assert_eq!(mid.last_scheduled(sub(7), &store), Ok(Some(0)));
    assert_eq!(head.last_scheduled(sub(8), &store), Ok(None));
}

#[test]
fn last_scheduled_walk_is_monotone_in_first_occurrence_depth() {
    // restarting the query at ever older ancestors never moves the first
    // occurrence, measured from the original node, closer
    let mut store = ScheduleStore::new();
    let root = Schedule::new(sid(1), None, None);
    root.upsert(&mut store).unwrap();
    root.add(slot(1), sub(7), &mut store).unwrap();
    let mid = Schedule::new(sid(2), Some(sid(1)), None);
    mid.upsert(&mut store).unwrap();
    let head = Schedule::new(sid(3), Some(sid(2)), None);
    head.upsert(&mut store).unwrap();

    let at_head = head.last_scheduled(sub(7), &store).unwrap().unwrap();
    let at_mid = mid.last_scheduled(sub(7), &store).unwrap().unwrap();
    let at_root = root.last_scheduled(sub(7), &store).unwrap().unwrap();
    assert_eq!(at_head, 2);
    assert_eq!(at_mid, 1);
    assert_eq!(at_root, 0);
    // absolute depth from the head is non-decreasing along the walk
    assert!(1 + at_mid >= at_head);
    assert!(2 + at_root >= 1 + at_mid);
}

#[test]
fn root_child_scenario() {
    // root holds one assignment of X; the child holds none
    let mut store = ScheduleStore::new();
    let root = Schedule::new(sid(1), None, None);
    root.upsert(&mut store).unwrap();
    root.add(slot(1), sub(10), &mut store).unwrap();

    let child = Schedule::new(sid(2), Some(sid(1)), None);
    child.upsert(&mut store).unwrap();

    assert_eq!(child.count_total(sub(10), &store), Ok(1));
    assert_eq!(child.last_scheduled(sub(10), &store), Ok(Some(1)));
}

#[test]
fn get_slot_lists_own_rows_in_order() {
    let mut store = ScheduleStore::new();
    let root = Schedule::new(sid(1), None, None);
    root.upsert(&mut store).unwrap();
    root.add(slot(1), sub(5), &mut store).unwrap();
    root.add(slot(2), sub(6), &mut store).unwrap();
    root.add(slot(1), sub(7), &mut store).unwrap();

    let child = Schedule::new(sid(2), Some(sid(1)), None);
    child.upsert(&mut store).unwrap();

    assert_eq!(root.get_slot(slot(1), &store), vec![sub(5), sub(7)]);
    assert_eq!(root.get_slot(slot(2), &store), vec![sub(6)]);
    // own rows only, never the ancestors'
    assert_eq!(child.get_slot(slot(1), &store), Vec::<EntityId>::new());
    // re-running is side-effect-free and identical
    assert_eq!(root.get_slot(slot(1), &store), vec![sub(5), sub(7)]);
}

#[test]
fn fetch_current_follows_the_pointer() {
    let mut store = ScheduleStore::new();
    Schedule::new(sid(1), None, None).upsert(&mut store).unwrap();

    let mut params = Parameters::new();
    assert_eq!(Schedule::fetch_current(&store, &params), Err(Error::NotFound));

    params.revert(Some(sid(1)));
    let got = Schedule::fetch_current(&store, &params).unwrap();
    assert_eq!(got.id, sid(1));

    params.revert(None);
    assert_eq!(Schedule::fetch_current(&store, &params), Err(Error::NotFound));
}

#[test]
fn parameters_update_touches_only_given_fields() {
    let mut params = Parameters::new();
    let av = EntityId::new(EntityKind::Availability, 4);
    params.update(Some(av), None);
    assert_eq!(params.availability, Some(av));
    assert_eq!(params.schedule, None);
    params.update(None, Some(sid(1)));
    assert_eq!(params.availability, Some(av));
    assert_eq!(params.schedule, Some(sid(1)));
}

#[test]
fn error_labels() {
    assert_eq!(Error::NotFound.label(), "not found");
    assert_eq!(Error::DataIntegrity.label(), "data integrity error");
    assert_eq!(Error::Input.label(), "malformed input");
}
