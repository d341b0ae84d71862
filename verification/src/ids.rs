//! Typed identifiers for the entities of the scheduling engine.
//!
//! Every durable record is addressed by a stable, opaque identifier: a
//! 128-bit value whose top twenty bits encode a short lowercase tag naming
//! the entity kind, over 108 random bits. The engine never inspects an
//! identifier beyond equality, its kind, and the tag bits; the numeric value
//! also serves as the documented deterministic tie-break order wherever two
//! candidates weigh the same. Allocation, parsing and tag encoding are
//! souvenir's work, relied on through the trusted items below.

use vstd::prelude::*;

use crate::error::Error;

verus! {

/// The kind of entity an identifier refers to.
#[derive(Copy, Clone, Debug, PartialEq, Eq, Hash, Structural)]
pub enum EntityKind {
    Subject,
    Slot,
    Schedule,
    Availability,
}

/// A stable identifier, discriminated by the kind of entity it names.
#[derive(Copy, Clone, Debug, PartialEq, Eq, Hash, Structural)]
pub struct EntityId {
    pub kind: EntityKind,
    pub value: u128,
}

impl EntityId {
    /// An identifier of the given kind around a caller-supplied value.
    pub fn new(kind: EntityKind, value: u128) -> (r: EntityId)
        ensures
            r == (EntityId { kind, value }),
    {
        EntityId { kind, value }
    }
}

/// What souvenir decodes a tagged identifier string to, if anything: a
/// function of the string alone.
pub uninterp spec fn decoded_id(s: Seq<char>) -> Option<u128>;

/// What souvenir encodes a tag string to, if anything: the twenty-bit
/// prefix value, a function of the tag alone.
pub uninterp spec fn tag_code(s: Seq<char>) -> Option<u32>;

/// Relies on souvenir's `Id::parse`, with `Id::to_u128` converting the
/// result: decoding an identifier string is a function of the string
/// alone, named `decoded_id`.
#[verifier::external_body]
fn parse_id_value(s: &str) -> (r: Option<u128>)
    ensures
        r == decoded_id(s@),
{
    match souvenir::Id::parse(s) {
        Ok(id) => Some(id.to_u128()),
        Err(_) => None,
    }
}

/// Relies on souvenir's `Prefix::parse`, with `Prefix::to_u32` converting
/// the result: encoding a tag is a function of the tag alone, named
/// `tag_code`.
#[verifier::external_body]
fn parse_tag_value(s: &str) -> (r: Option<u32>)
    ensures
        r == tag_code(s@),
{
    match souvenir::Prefix::parse(s) {
        Ok(p) => Some(p.to_u32()),
        Err(_) => None,
    }
}

/// Relies on souvenir's `Id::random`, with `Prefix::parse` converting the
/// tag argument and `Id::to_u128` the result. The value holds the tag's
/// prefix in its top twenty bits over 108 random bits, so only the prefix
/// bits can be promised — they agree with `tag_code`, since the same
/// `Prefix::parse` produces them — and a value comes back exactly when the
/// tag encodes.
#[verifier::external_body]
fn random_id_value(tag: &str) -> (r: Option<u128>)
    ensures
        r is Some <==> tag_code(tag@) is Some,
        r matches Option::Some(v) ==> tag_code(tag@) matches Option::Some(p) && v >> 108 == p
            as u128,
{
    match souvenir::Prefix::parse(tag) {
        Ok(p) => Some(souvenir::Id::random(p).to_u128()),
        Err(_) => None,
    }
}

/// The tag naming each entity kind.
pub open spec fn spec_kind_tag(kind: EntityKind) -> Seq<char> {
    match kind {
        EntityKind::Subject => "sub"@,
        EntityKind::Slot => "slot"@,
        EntityKind::Schedule => "sch"@,
        EntityKind::Availability => "av"@,
    }
}

/// The tag naming each entity kind.
pub fn kind_tag(kind: EntityKind) -> (r: &'static str)
    ensures
        r@ == spec_kind_tag(kind),
{
    match kind {
        EntityKind::Subject => "sub",
        EntityKind::Slot => "slot",
        EntityKind::Schedule => "sch",
        EntityKind::Availability => "av",
    }
}

/// Allocate a fresh identifier of the given kind: the kind's tag in the
/// prefix bits over a random suffix. Succeeds exactly when the kind's tag
/// encodes as a prefix, which holds for every tag the engine uses.
pub fn fresh_id(kind: EntityKind) -> (r: Result<EntityId, Error>)
    ensures
        r is Ok <==> tag_code(spec_kind_tag(kind)) is Some,
        r matches Result::Ok(id) ==> id.kind == kind && (tag_code(spec_kind_tag(kind))
            matches Option::Some(p) && id.value >> 108 == p as u128),
        r matches Result::Err(e) ==> e == Error::Input,
{
    match random_id_value(kind_tag(kind)) {
        Option::Some(v) => Ok(EntityId { kind, value: v }),
        Option::None => Err(Error::Input),
    }
}

/// Parse an identifier string as an id of the expected kind. The string
/// must decode, and its prefix bits must be the expected kind's tag;
/// anything else is a malformed identifier.
pub fn parse_id(s: &str, kind: EntityKind) -> (r: Result<EntityId, Error>)
    ensures
        match decoded_id(s@) {
            Option::Some(v) => {
                match tag_code(spec_kind_tag(kind)) {
                    Option::Some(p) => if v >> 108 == p as u128 {
                        r == Result::<EntityId, Error>::Ok(EntityId { kind, value: v })
                    } else {
                        r == Result::<EntityId, Error>::Err(Error::Input)
                    },
                    Option::None => r == Result::<EntityId, Error>::Err(Error::Input),
                }
            },
            Option::None => r == Result::<EntityId, Error>::Err(Error::Input),
        },
{
    match parse_id_value(s) {
        Option::None => Err(Error::Input),
        Option::Some(v) => {
            match parse_tag_value(kind_tag(kind)) {
                Option::None => Err(Error::Input),
                Option::Some(p) => {
                    if v >> 108 == p as u128 {
                        Ok(EntityId { kind, value: v })
                    } else {
                        Err(Error::Input)
                    }
                },
            }
        },
    }
}

} // verus!
