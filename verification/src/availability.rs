//! Immutable availability snapshots: which subjects can work which slots.
//!
//! An availability set owns (slot, subject) entries, many-to-many, with set
//! semantics: no pair occurs twice. It answers who is eligible for a slot,
//! which slots a subject can work, and ranks all slots from least flexible
//! (fewest eligible subjects) to most flexible. Ties between equally
//! flexible slots are broken by ascending slot id value, so the ranking is
//! deterministic and reproducible.

use vstd::prelude::*;

use crate::error::Error;
use crate::ids::{EntityId, EntityKind};

verus! {

/// One (slot, subject) eligibility pair owned by an availability set.
#[derive(Copy, Clone, Debug, PartialEq, Eq, Structural)]
pub struct AvailabilityEntry {
    pub slot: EntityId,
    pub subject: EntityId,
}

/// Entries carry slot-kind and subject-kind ids and no pair occurs twice.
pub open spec fn entries_wf(es: Seq<AvailabilityEntry>) -> bool {
    &&& forall|i: int|
        0 <= i < es.len() ==> (#[trigger] es[i]).slot.kind == EntityKind::Slot && es[i].subject.kind
            == EntityKind::Subject
    &&& forall|i: int, j: int| 0 <= i < es.len() && 0 <= j < es.len() && i != j ==> es[i] != es[j]
}

/// The subjects eligible for the slot, in entry order.
pub open spec fn eligible_subjects(es: Seq<AvailabilityEntry>, slot: EntityId) -> Seq<EntityId>
    decreases es.len(),
{
    if es.len() == 0 {
        Seq::empty()
    } else {
        let rest = eligible_subjects(es.drop_last(), slot);
        if es.last().slot == slot {
            rest.push(es.last().subject)
        } else {
            rest
        }
    }
}

/// The slots the subject is eligible for, in entry order.
pub open spec fn eligible_slots(es: Seq<AvailabilityEntry>, subject: EntityId) -> Seq<EntityId>
    decreases es.len(),
{
    if es.len() == 0 {
        Seq::empty()
    } else {
        let rest = eligible_slots(es.drop_last(), subject);
        if es.last().subject == subject {
            rest.push(es.last().slot)
        } else {
            rest
        }
    }
}

/// A sequence without repeated elements.
pub open spec fn distinct_seq(q: Seq<EntityId>) -> bool {
    forall|i: int, j: int| 0 <= i < q.len() && 0 <= j < q.len() && i != j ==> q[i] != q[j]
}

/// The distinct slots of the entries, in order of first appearance.
pub open spec fn slots_in_order(es: Seq<AvailabilityEntry>) -> Seq<EntityId>
    decreases es.len(),
{
    if es.len() == 0 {
        Seq::empty()
    } else {
        let rest = slots_in_order(es.drop_last());
        if rest.contains(es.last().slot) {
            rest
        } else {
            rest.push(es.last().slot)
        }
    }
}

/// The ranking order: fewer eligible subjects first, ties broken by
/// ascending slot id value.
pub open spec fn ranks_before(es: Seq<AvailabilityEntry>, a: EntityId, b: EntityId) -> bool {
    let ca = eligible_subjects(es, a).len();
    let cb = eligible_subjects(es, b).len();
    ca < cb || (ca == cb && a.value < b.value)
}

/// Strictly sorted by the ranking order.
pub open spec fn ranked_sorted(es: Seq<AvailabilityEntry>, q: Seq<EntityId>) -> bool {
    forall|i: int, j: int| 0 <= i < j < q.len() ==> ranks_before(es, q[i], q[j])
}

/// Insert one slot into a ranked list, before the first slot it outranks.
pub open spec fn insert_ranked(
    es: Seq<AvailabilityEntry>,
    x: EntityId,
    sorted: Seq<EntityId>,
) -> Seq<EntityId>
    decreases sorted.len(),
{
    if sorted.len() == 0 {
        seq![x]
    } else if ranks_before(es, x, sorted.first()) {
        seq![x] + sorted
    } else {
        seq![sorted.first()] + insert_ranked(es, x, sorted.drop_first())
    }
}

/// Insertion sort of slots by the ranking order.
pub open spec fn rank_sort(es: Seq<AvailabilityEntry>, slots: Seq<EntityId>) -> Seq<EntityId>
    decreases slots.len(),
{
    if slots.len() == 0 {
        Seq::empty()
    } else {
        insert_ranked(es, slots.last(), rank_sort(es, slots.drop_last()))
    }
}

/// The flexibility ranking of an availability set: its distinct slots,
/// least flexible first.
pub open spec fn ranked_slots(es: Seq<AvailabilityEntry>) -> Seq<EntityId> {
    rank_sort(es, slots_in_order(es))
}

/// Whether any entry names the slot.
pub open spec fn has_slot(es: Seq<AvailabilityEntry>, slot: EntityId) -> bool {
    exists|i: int| 0 <= i < es.len() && es[i].slot == slot
}

/// Membership in a sequence splits into its last element and the rest.
proof fn lemma_contains_split<T>(q: Seq<T>, x: T)
    requires
        q.len() > 0,
    ensures
        q.contains(x) <==> (q.drop_last().contains(x) || q.last() == x),
{
    if q.contains(x) {
        let i = choose|i: int| 0 <= i < q.len() && q[i] == x;
        if i < q.len() - 1 {
            assert(q.drop_last()[i] == x);
        }
    }
    if q.drop_last().contains(x) {
        let i = choose|i: int| 0 <= i < q.drop_last().len() && q.drop_last()[i] == x;
        assert(q[i] == x);
    }
    if q.last() == x {
        assert(q[q.len() - 1] == x);
    }
}

/// Dropping the last entry keeps the entries well-formed.
proof fn lemma_entries_wf_drop_last(es: Seq<AvailabilityEntry>)
    requires
        entries_wf(es),
        es.len() > 0,
    ensures
        entries_wf(es.drop_last()),
{
    let t = es.drop_last();
    assert(forall|i: int| 0 <= i < t.len() ==> t[i] == es[i]);
}

/// A subject is in a slot's eligible list exactly when the set owns the
/// (slot, subject) pair.
pub proof fn lemma_eligible_contains(es: Seq<AvailabilityEntry>, slot: EntityId, x: EntityId)
    ensures
        eligible_subjects(es, slot).contains(x) <==> es.contains(
            AvailabilityEntry { slot, subject: x },
        ),
    decreases es.len(),
{
    if es.len() > 0 {
        lemma_eligible_contains(es.drop_last(), slot, x);
        lemma_contains_split(es, AvailabilityEntry { slot, subject: x });
        let rest = eligible_subjects(es.drop_last(), slot);
        if es.last().slot == slot {
            let e = rest.push(es.last().subject);
            assert(e.drop_last() =~= rest);
            lemma_contains_split(e, x);
        }
    }
}

/// With set semantics on the entries, no subject is listed twice for one
/// slot.
pub proof fn lemma_eligible_distinct(es: Seq<AvailabilityEntry>, slot: EntityId)
    requires
        entries_wf(es),
    ensures
        distinct_seq(eligible_subjects(es, slot)),
    decreases es.len(),
{
    if es.len() > 0 {
        lemma_entries_wf_drop_last(es);
        lemma_eligible_distinct(es.drop_last(), slot);
        let rest = eligible_subjects(es.drop_last(), slot);
        if es.last().slot == slot {
            let b = es.last().subject;
            if rest.contains(b) {
                lemma_eligible_contains(es.drop_last(), slot, b);
                let i = choose|i: int|
                    0 <= i < es.drop_last().len() && es.drop_last()[i] == (AvailabilityEntry {
                        slot,
                        subject: b,
                    });
                assert(es[i] == es[es.len() - 1]);
                assert(false);
            }
            let e = rest.push(b);
            assert(forall|i: int| 0 <= i < rest.len() ==> e[i] == rest[i]);
        }
    }
}

/// The distinct-slot list contains exactly the slots the entries name, each
/// once.
pub proof fn lemma_slots_in_order(es: Seq<AvailabilityEntry>)
    ensures
        distinct_seq(slots_in_order(es)),
        forall|x: EntityId| slots_in_order(es).contains(x) <==> has_slot(es, x),
        entries_wf(es) ==> forall|i: int|
            0 <= i < slots_in_order(es).len() ==> (#[trigger] slots_in_order(es)[i]).kind
                == EntityKind::Slot,
    decreases es.len(),
{
    if es.len() > 0 {
        lemma_slots_in_order(es.drop_last());
        let rest = slots_in_order(es.drop_last());
        let r = slots_in_order(es);
        assert forall|x: EntityId| r.contains(x) implies has_slot(es, x) by {
            if rest.contains(x) {
                assert(has_slot(es.drop_last(), x));
                let i = choose|i: int| 0 <= i < es.drop_last().len() && es.drop_last()[i].slot == x;
                assert(es[i].slot == x);
            } else {
                lemma_contains_split(r, x);
                assert(x == es.last().slot);
                assert(es[es.len() - 1].slot == x);
            }
        }
        assert forall|x: EntityId| has_slot(es, x) implies r.contains(x) by {
            let i = choose|i: int| 0 <= i < es.len() && es[i].slot == x;
            if i < es.len() - 1 {
                assert(es.drop_last()[i].slot == x);
                assert(has_slot(es.drop_last(), x));
                if !rest.contains(es.last().slot) {
                    assert(r.drop_last() =~= rest);
                    lemma_contains_split(r, x);
                }
            } else {
                if !rest.contains(es.last().slot) {
                    assert(r[r.len() - 1] == x);
                }
            }
        }
        if !rest.contains(es.last().slot) {
            assert(forall|i: int| 0 <= i < rest.len() ==> r[i] == rest[i]);
            if entries_wf(es) {
                lemma_entries_wf_drop_last(es);
                assert(r[r.len() - 1] == es[es.len() - 1].slot);
            }
        } else {
            if entries_wf(es) {
                lemma_entries_wf_drop_last(es);
            }
        }
    }
}

/// The ranking order is a strict total order on distinct slot ids of one
/// kind.
proof fn lemma_ranks_total(es: Seq<AvailabilityEntry>, a: EntityId, b: EntityId)
    requires
        a != b,
        a.kind == b.kind,
    ensures
        ranks_before(es, a, b) || ranks_before(es, b, a),
{
}

/// Inserting into a ranked list keeps it ranked and adds exactly the new
/// slot.
proof fn lemma_insert_ranked(es: Seq<AvailabilityEntry>, x: EntityId, sorted: Seq<EntityId>)
    requires
        ranked_sorted(es, sorted),
        distinct_seq(sorted),
        !sorted.contains(x),
        forall|i: int| 0 <= i < sorted.len() ==> (#[trigger] sorted[i]).kind == x.kind,
    ensures
        ranked_sorted(es, insert_ranked(es, x, sorted)),
        distinct_seq(insert_ranked(es, x, sorted)),
        insert_ranked(es, x, sorted).len() == sorted.len() + 1,
        forall|y: EntityId| insert_ranked(es, x, sorted).contains(y) <==> (sorted.contains(y) || y
            == x),
    decreases sorted.len(),
{
    let r = insert_ranked(es, x, sorted);
    if sorted.len() == 0 {
        assert(r[0] == x);
        assert forall|y: EntityId| r.contains(y) implies (sorted.contains(y) || y == x) by {
            let i = choose|i: int| 0 <= i < r.len() && r[i] == y;
        }
    } else if ranks_before(es, x, sorted.first()) {
        assert(r =~= seq![x] + sorted);
        assert forall|i: int, j: int| 0 <= i < j < r.len() implies ranks_before(
            es,
            r[i],
            r[j],
        ) by {
            if i == 0 {
                assert(r[0] == x);
                assert(r[j] == sorted[j - 1]);
                if j > 1 {
                    assert(ranks_before(es, sorted.first(), sorted[j - 1]));
                }
            } else {
                assert(r[i] == sorted[i - 1] && r[j] == sorted[j - 1]);
            }
        }
        assert forall|y: EntityId| r.contains(y) implies (sorted.contains(y) || y == x) by {
            let i = choose|i: int| 0 <= i < r.len() && r[i] == y;
            if i > 0 {
                assert(sorted[i - 1] == y);
            }
        }
        assert forall|y: EntityId| sorted.contains(y) || y == x implies r.contains(y) by {
            if sorted.contains(y) {
                let i = choose|i: int| 0 <= i < sorted.len() && sorted[i] == y;
                assert(r[i + 1] == y);
            } else {
                assert(r[0] == y);
            }
        }
    } else {
        let h = sorted.first();
        let t = sorted.drop_first();
        assert(forall|i: int| 0 <= i < t.len() ==> t[i] == sorted[i + 1]);
        assert(!ranks_before(es, x, sorted.first()));
        lemma_ranks_total(es, x, h);
        assert(ranks_before(es, h, x));
        if t.contains(x) {
            let i = choose|i: int| 0 <= i < t.len() && t[i] == x;
            assert(sorted[i + 1] == x);
            assert(false);
        }
        lemma_insert_ranked(es, x, t);
        let rt = insert_ranked(es, x, t);
        assert(r =~= seq![h] + rt);
        assert forall|i: int, j: int| 0 <= i < j < r.len() implies ranks_before(
            es,
            r[i],
            r[j],
        ) by {
            if i == 0 {
                assert(r[j] == rt[j - 1]);
                assert(rt.contains(rt[j - 1]));
                if rt[j - 1] == x {
                    assert(ranks_before(es, h, x));
                } else {
                    assert(t.contains(rt[j - 1]));
                    let k = choose|k: int| 0 <= k < t.len() && t[k] == rt[j - 1];
                    assert(sorted[k + 1] == rt[j - 1]);
                    assert(ranks_before(es, sorted[0], sorted[k + 1]));
                }
            } else {
                assert(r[i] == rt[i - 1] && r[j] == rt[j - 1]);
            }
        }
        assert forall|i: int, j: int|
            0 <= i < r.len() && 0 <= j < r.len() && i != j implies r[i] != r[j] by {
            if i == 0 || j == 0 {
                let other = if i == 0 { j } else { i };
                assert(r[other] == rt[other - 1]);
                assert(rt.contains(rt[other - 1]));
                if rt[other - 1] == h {
                    if t.contains(h) {
                        let k = choose|k: int| 0 <= k < t.len() && t[k] == h;
                        assert(sorted[k + 1] == h);
                        assert(false);
                    }
                    assert(h == x);
                    assert(sorted[0] == x);
                    assert(false);
                }
            } else {
                assert(r[i] == rt[i - 1] && r[j] == rt[j - 1]);
            }
        }
        assert forall|y: EntityId| r.contains(y) implies (sorted.contains(y) || y == x) by {
            let i = choose|i: int| 0 <= i < r.len() && r[i] == y;
            if i == 0 {
                assert(sorted[0] == y);
            } else {
                assert(rt.contains(rt[i - 1]));
                if rt[i - 1] != x {
                    assert(t.contains(rt[i - 1]));
                    let k = choose|k: int| 0 <= k < t.len() && t[k] == y;
                    assert(sorted[k + 1] == y);
                }
            }
        }
        assert forall|y: EntityId| sorted.contains(y) || y == x implies r.contains(y) by {
            if y == x {
                assert(rt.contains(x));
                let k = choose|k: int| 0 <= k < rt.len() && rt[k] == x;
                assert(r[k + 1] == y);
            } else {
                let i = choose|i: int| 0 <= i < sorted.len() && sorted[i] == y;
                if i == 0 {
                    assert(r[0] == y);
                } else {
                    assert(t[i - 1] == y);
                    assert(t.contains(y));
                    assert(rt.contains(y));
                    let k = choose|k: int| 0 <= k < rt.len() && rt[k] == y;
                    assert(r[k + 1] == y);
                }
            }
        }
    }
}

/// Sorting by rank keeps exactly the given slots, each once, now in strict
/// ranking order.
pub proof fn lemma_rank_sort(es: Seq<AvailabilityEntry>, slots: Seq<EntityId>)
    requires
        distinct_seq(slots),
        forall|i: int| 0 <= i < slots.len() ==> (#[trigger] slots[i]).kind == EntityKind::Slot,
    ensures
        ranked_sorted(es, rank_sort(es, slots)),
        distinct_seq(rank_sort(es, slots)),
        rank_sort(es, slots).len() == slots.len(),
        forall|y: EntityId| rank_sort(es, slots).contains(y) <==> slots.contains(y),
    decreases slots.len(),
{
    if slots.len() > 0 {
        let t = slots.drop_last();
        let x = slots.last();
        assert(forall|i: int| 0 <= i < t.len() ==> t[i] == slots[i]);
        lemma_rank_sort(es, t);
        let rt = rank_sort(es, t);
        if rt.contains(x) {
            assert(t.contains(x));
            let i = choose|i: int| 0 <= i < t.len() && t[i] == x;
            assert(slots[i] == slots[slots.len() - 1]);
            assert(false);
        }
        assert forall|i: int| 0 <= i < rt.len() implies (#[trigger] rt[i]).kind
            == EntityKind::Slot by {
            assert(rt.contains(rt[i]));
            assert(t.contains(rt[i]));
            let k = choose|k: int| 0 <= k < t.len() && t[k] == rt[i];
        }
        lemma_insert_ranked(es, x, rt);
        assert forall|y: EntityId| rank_sort(es, slots).contains(y) implies slots.contains(y) by {
            if rt.contains(y) {
                assert(t.contains(y));
                let i = choose|i: int| 0 <= i < t.len() && t[i] == y;
                assert(slots[i] == y);
            } else {
                assert(slots[slots.len() - 1] == y);
            }
        }
        assert forall|y: EntityId| slots.contains(y) implies rank_sort(es, slots).contains(y) by {
            let i = choose|i: int| 0 <= i < slots.len() && slots[i] == y;
            if i < slots.len() - 1 {
                assert(t[i] == y);
                assert(t.contains(y));
                assert(rt.contains(y));
            }
        }
    }
}

/// Law-carrying summary of the ranking: the flexibility ranking of a
/// well-formed set lists exactly its distinct slots, in strict ascending
/// order of eligible-subject count, ties by slot id value.
pub proof fn lemma_ranking(es: Seq<AvailabilityEntry>)
    requires
        entries_wf(es),
    ensures
        ranked_sorted(es, ranked_slots(es)),
        distinct_seq(ranked_slots(es)),
        ranked_slots(es).len() == slots_in_order(es).len(),
        forall|y: EntityId| ranked_slots(es).contains(y) <==> has_slot(es, y),
{
    lemma_slots_in_order(es);
    lemma_rank_sort(es, slots_in_order(es));
}

/// Inserting before the first slot the new one outranks is exactly what
/// `insert_ranked` does.
proof fn lemma_insert_ranked_position(
    es: Seq<AvailabilityEntry>,
    x: EntityId,
    sorted: Seq<EntityId>,
    pos: int,
)
    requires
        0 <= pos <= sorted.len(),
        forall|j: int| 0 <= j < pos ==> !ranks_before(es, x, sorted[j]),
        pos < sorted.len() ==> ranks_before(es, x, sorted[pos]),
    ensures
        insert_ranked(es, x, sorted) == sorted.insert(pos, x),
    decreases sorted.len(),
{
    if sorted.len() == 0 {
        assert(insert_ranked(es, x, sorted) =~= sorted.insert(0, x));
    } else if pos == 0 {
        assert(ranks_before(es, x, sorted.first()));
        assert(insert_ranked(es, x, sorted) =~= sorted.insert(0, x));
    } else {
        assert(!ranks_before(es, x, sorted[0]));
        let t = sorted.drop_first();
        assert(forall|i: int| 0 <= i < t.len() ==> t[i] == sorted[i + 1]);
        lemma_insert_ranked_position(es, x, t, pos - 1);
        assert(insert_ranked(es, x, sorted) == seq![sorted.first()] + t.insert(pos - 1, x));
        assert(insert_ranked(es, x, sorted) =~= sorted.insert(pos, x));
    }
}

/// An availability snapshot: identity, optional label, and the (slot,
/// subject) entries it owns. Immutable once referenced by the
/// current-pointer or a generator run: new imports build a new set.
#[derive(Debug)]
pub struct Availability {
    pub id: EntityId,
    pub name: Option<String>,
    pub entries: Vec<AvailabilityEntry>,
}

impl View for Availability {
    type V = Seq<AvailabilityEntry>;

    open spec fn view(&self) -> Seq<AvailabilityEntry> {
        self.entries@
    }
}

/// What `insert` must do: append the pair unless the set already owns it
/// (set semantics), and reject ids of the wrong kinds.
pub open spec fn insert_post(
    e0: Seq<AvailabilityEntry>,
    e1: Seq<AvailabilityEntry>,
    slot: EntityId,
    subject: EntityId,
    r: Result<(), Error>,
) -> bool {
    let pair = AvailabilityEntry { slot, subject };
    if slot.kind != EntityKind::Slot || subject.kind != EntityKind::Subject {
        r == Result::<(), Error>::Err(Error::Input) && e1 == e0
    } else if e0.contains(pair) {
        r == Result::<(), Error>::Ok(()) && e1 == e0
    } else {
        r == Result::<(), Error>::Ok(()) && e1 == e0.push(pair)
    }
}

impl Availability {
    /// Shorthand for the set-semantics invariant over the entries.
    pub open spec fn wf(&self) -> bool {
        entries_wf(self@)
    }

    /// An empty availability set.
    pub fn new(id: EntityId, name: Option<String>) -> (r: Availability)
        ensures
            r.id == id,
            r.name == name,
            r@ == Seq::<AvailabilityEntry>::empty(),
            r.wf(),
    {
        Availability { id, name, entries: Vec::new() }
    }

    /// Whether the set already owns the pair.
    fn contains_entry(&self, e: AvailabilityEntry) -> (r: bool)
        ensures
            r == self@.contains(e),
    {
        let n = self.entries.len();
        let mut i: usize = 0;
        while i < n
            invariant
                n == self@.len(),
                0 <= i <= n,
                forall|j: int| 0 <= j < i ==> self@[j] != e,
            decreases n - i,
        {
            if self.entries[i] == e {
                return true;
            }
            i = i + 1;
        }
        proof {
            if self@.contains(e) {
                let j = choose|j: int| 0 <= j < self@.len() && self@[j] == e;
            }
        }
        false
    }

    /// Record that the subject can work the slot. Re-inserting a pair the
    /// set already owns leaves it unchanged.
    pub fn insert(&mut self, slot: EntityId, subject: EntityId) -> (r: Result<(), Error>)
        requires
            old(self).wf(),
        ensures
            final(self).wf(),
            final(self).id == old(self).id,
            final(self).name == old(self).name,
            insert_post(old(self)@, final(self)@, slot, subject, r),
    {
        if !matches!(slot.kind, EntityKind::Slot) || !matches!(subject.kind, EntityKind::Subject) {
            return Err(Error::Input);
        }
        let pair = AvailabilityEntry { slot, subject };
        if self.contains_entry(pair) {
            return Ok(());
        }
        let ghost e0 = self@;
        self.entries.push(pair);
        proof {
            assert(forall|i: int| 0 <= i < e0.len() ==> self@[i] == e0[i]);
            assert forall|i: int, j: int|
                0 <= i < self@.len() && 0 <= j < self@.len() && i != j implies self@[i]
                != self@[j] by {
                if i == e0.len() || j == e0.len() {
                    let other = if i == e0.len() {
                        j
                    } else {
                        i
                    };
                    if self@[other] == pair {
                        assert(e0.contains(pair));
                    }
                }
            }
        }
        Ok(())
    }

    /// The subjects eligible for the slot; empty when no entries name it.
    pub fn for_slot(&self, slot: EntityId) -> (r: Vec<EntityId>)
        ensures
            r@ == eligible_subjects(self@, slot),
    {
        let n = self.entries.len();
        let mut out: Vec<EntityId> = Vec::new();
        let mut i: usize = 0;
        while i < n
            invariant
                n == self@.len(),
                0 <= i <= n,
                out@ == eligible_subjects(self@.take(i as int), slot),
            decreases n - i,
        {
            proof {
                assert(self@.take(i as int + 1).drop_last() =~= self@.take(i as int));
                assert(self@.take(i as int + 1).last() == self@[i as int]);
            }
            if self.entries[i].slot == slot {
                out.push(self.entries[i].subject);
            }
            i = i + 1;
        }
        proof {
            assert(self@.take(n as int) =~= self@);
        }
        out
    }

    /// The slots the subject is eligible for.
    pub fn for_subject(&self, subject: EntityId) -> (r: Vec<EntityId>)
        ensures
            r@ == eligible_slots(self@, subject),
    {
        let n = self.entries.len();
        let mut out: Vec<EntityId> = Vec::new();
        let mut i: usize = 0;
        while i < n
            invariant
                n == self@.len(),
                0 <= i <= n,
                out@ == eligible_slots(self@.take(i as int), subject),
            decreases n - i,
        {
            proof {
                assert(self@.take(i as int + 1).drop_last() =~= self@.take(i as int));
                assert(self@.take(i as int + 1).last() == self@[i as int]);
            }
            if self.entries[i].subject == subject {
                out.push(self.entries[i].slot);
            }
            i = i + 1;
        }
        proof {
            assert(self@.take(n as int) =~= self@);
        }
        out
    }

    /// The distinct slots of the entries, in first-appearance order.
    fn distinct_slots(&self) -> (r: Vec<EntityId>)
        ensures
            r@ == slots_in_order(self@),
    {
        let n = self.entries.len();
        let mut out: Vec<EntityId> = Vec::new();
        let mut i: usize = 0;
        while i < n
            invariant
                n == self@.len(),
                0 <= i <= n,
                out@ == slots_in_order(self@.take(i as int)),
            decreases n - i,
        {
            proof {
                assert(self@.take(i as int + 1).drop_last() =~= self@.take(i as int));
                assert(self@.take(i as int + 1).last() == self@[i as int]);
            }
            let slot = self.entries[i].slot;
            let mut seen = false;
            let m = out.len();
            let mut j: usize = 0;
            while j < m
                invariant
                    m == out@.len(),
                    0 <= j <= m,
                    seen == exists|k: int| 0 <= k < j && out@[k] == slot,
                decreases m - j,
            {
                if out[j] == slot {
                    seen = true;
                    proof {
                        assert(out@[j as int] == slot);
                    }
                }
                j = j + 1;
            }
            proof {
                if seen {
                    let k = choose|k: int| 0 <= k < out@.len() && out@[k] == slot;
                    assert(out@.contains(slot));
                } else {
                    if out@.contains(slot) {
                        let k = choose|k: int| 0 <= k < out@.len() && out@[k] == slot;
                    }
                }
            }
            if !seen {
                out.push(slot);
            }
            i = i + 1;
        }
        proof {
            assert(self@.take(n as int) =~= self@);
        }
        out
    }

    /// All slots with their eligible subjects, ordered from least flexible
    /// (fewest eligible subjects) to most flexible; equally flexible slots
    /// come in ascending id-value order. Step three of a generator run
    /// walks this list in order, so scarce slots are decided first.
    pub fn sorted_by_flexibility(&self) -> (r: Vec<(EntityId, Vec<EntityId>)>)
        requires
            self.wf(),
        ensures
            r@.len() == ranked_slots(self@).len(),
            forall|i: int|
                0 <= i < r@.len() ==> (#[trigger] r@[i]).0 == ranked_slots(self@)[i] && r@[i].1@
                    == eligible_subjects(self@, ranked_slots(self@)[i]),
    {
        let slots = self.distinct_slots();
        proof {
            lemma_slots_in_order(self@);
        }
        let mut sorted: Vec<EntityId> = Vec::new();
        let n = slots.len();
        let mut k: usize = 0;
        while k < n
            invariant
                self.wf(),
                n == slots@.len(),
                slots@ == slots_in_order(self@),
                0 <= k <= n,
                sorted@ == rank_sort(self@, slots@.take(k as int)),
            decreases n - k,
        {
            let x = slots[k];
            let cx = self.for_slot(x).len();
            let mut pos: usize = 0;
            let m = sorted.len();
            loop
                invariant_except_break
                    m == sorted@.len(),
                    0 <= pos <= m,
                    cx == eligible_subjects(self@, x).len(),
                    forall|j: int| 0 <= j < pos ==> !ranks_before(self@, x, sorted@[j]),
                ensures
                    m == sorted@.len(),
                    0 <= pos <= m,
                    forall|j: int| 0 <= j < pos ==> !ranks_before(self@, x, sorted@[j]),
                    pos < m ==> ranks_before(self@, x, sorted@[pos as int]),
                decreases m - pos,
            {
                if pos >= m {
                    break ;
                }
                let cj = self.for_slot(sorted[pos]).len();
                let y = sorted[pos];
                if cx < cj || (cx == cj && x.value < y.value) {
                    proof {
                        assert(ranks_before(self@, x, sorted@[pos as int]));
                    }
                    break ;
                }
                proof {
                    assert(!ranks_before(self@, x, sorted@[pos as int]));
                }
                pos = pos + 1;
            }
            proof {
                lemma_insert_ranked_position(self@, x, sorted@, pos as int);
                assert(slots@.take(k as int + 1).drop_last() =~= slots@.take(k as int));
                assert(slots@.take(k as int + 1).last() == slots@[k as int]);
            }
            sorted.insert(pos, x);
            k = k + 1;
        }
        proof {
            assert(slots@.take(n as int) =~= slots@);
        }
        let mut out: Vec<(EntityId, Vec<EntityId>)> = Vec::new();
        let sn = sorted.len();
        let mut i: usize = 0;
        while i < sn
            invariant
                self.wf(),
                sn == sorted@.len(),
                sorted@ == ranked_slots(self@),
                0 <= i <= sn,
                out@.len() == i,
                forall|j: int|
                    0 <= j < i ==> (#[trigger] out@[j]).0 == sorted@[j] && out@[j].1@
                        == eligible_subjects(self@, sorted@[j]),
            decreases sn - i,
        {
            let slot = sorted[i];
            let subjects = self.for_slot(slot);
            out.push((slot, subjects));
            i = i + 1;
        }
        out
    }
}

} // verus!
