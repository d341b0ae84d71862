//! Identifier allocation and parsing against the real encoding.

use sch::error::Error;
use sch::ids::{fresh_id, parse_id, EntityKind};

// the twenty-bit prefix values of the engine's tags, letters a=1..z=26 in
// five-bit groups, left-aligned
const SCH_PREFIX: u128 = ((19 << 15) | (3 << 10) | (8 << 5)) as u128;
const SUB_PREFIX: u128 = ((19 << 15) | (21 << 10) | (2 << 5)) as u128;

#[test]
fn fresh_ids_carry_their_kind_and_tag() {
    let id = fresh_id(EntityKind::Schedule).unwrap();
    assert_eq!(id.kind, EntityKind::Schedule);
    assert_eq!(id.value >> 108, SCH_PREFIX);

    let id = fresh_id(EntityKind::Subject).unwrap();
    assert_eq!(id.kind, EntityKind::Subject);
    assert_eq!(id.value >> 108, SUB_PREFIX);
}

#[test]
fn fresh_ids_differ() {
    let a = fresh_id(EntityKind::Slot).unwrap();
    let b = fresh_id(EntityKind::Slot).unwrap();
    assert_ne!(a.value, b.value);
}

#[test]
fn parse_round_trips_a_known_string() {
    // the all-zero suffix under the schedule tag
    let id = parse_id("sch_0000000000000000000000", EntityKind::Schedule).unwrap();
    assert_eq!(id.kind, EntityKind::Schedule);
    assert_eq!(id.value, SCH_PREFIX << 108);
}

#[test]
fn parse_rejects_wrong_tag_and_malformed_strings() {
    // a subject id is not a schedule id
    assert_eq!(
        parse_id("sub_0000000000000000000000", EntityKind::Schedule),
        Err(Error::Input)
    );
    assert_eq!(parse_id("not an id", EntityKind::Schedule), Err(Error::Input));
    assert_eq!(parse_id("", EntityKind::Subject), Err(Error::Input));
}

#[test]
fn parsed_and_fresh_ids_agree_on_the_tag() {
    let fresh = fresh_id(EntityKind::Subject).unwrap();
    let parsed = parse_id("sub_0000000000000000000000", EntityKind::Subject).unwrap();
    assert_eq!(fresh.value >> 108, parsed.value >> 108);
}
