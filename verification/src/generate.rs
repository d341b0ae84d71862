//! The generator: one weighted greedy assignment run.
//!
//! Given the active availability set and the current head of the schedule
//! chain, one run produces exactly one new child snapshot, assigning exactly
//! two subjects to every slot of the availability set. Slots are processed
//! in ascending flexibility order, so scarce candidates are not already
//! consumed by the time a constrained slot is reached. Within a slot,
//! candidates are ranked by weight, computed from the old head chain and
//! from the run built so far; the top two are assigned. Equally weighted
//! candidates are ordered by ascending subject id value, so a run is
//! deterministic and reproducible.

use vstd::prelude::*;

use crate::availability::{
    distinct_seq, eligible_slots, eligible_subjects, entries_wf, lemma_eligible_distinct,
    lemma_ranking, ranked_slots, Availability, AvailabilityEntry,
};
use crate::error::Error;
use crate::ids::{EntityId, EntityKind};
use crate::params::Parameters;
use crate::schedule::{
    chain_last, chain_total, count_matching, has_node, idx_of, lemma_count_total_recursive,
    lemma_idx_of, lemma_idx_of_unique, lemma_parent_of, name_view, own_count, sat64,
    slot_subjects, Assignment, Node, Schedule, ScheduleStore,
};
use crate::weight::{opt_int, weight, weight_spec};

verus! {

/// Weight of a candidate at a point in the run: recency and total load come
/// from the old head chain (none when the run starts a new root), own
/// flexibility from the availability set, and current-run load from the
/// assignments built so far.
pub open spec fn cand_weight(
    s: Seq<Node>,
    head: Option<int>,
    es: Seq<AvailabilityEntry>,
    acc: Seq<Assignment>,
    subject: EntityId,
) -> int {
    let last = match head {
        Option::Some(h) => chain_last(s, h, subject),
        Option::None => Option::<int>::None,
    };
    let total = match head {
        Option::Some(h) => sat64(chain_total(s, h, subject)),
        Option::None => 0,
    };
    weight_spec(last, eligible_slots(es, subject).len() as int, total, count_matching(acc, subject))
}

/// Strict preference between two candidates: the higher weight wins, ties
/// fall to the lower subject id value.
pub open spec fn prefers(
    s: Seq<Node>,
    head: Option<int>,
    es: Seq<AvailabilityEntry>,
    acc: Seq<Assignment>,
    a: EntityId,
    b: EntityId,
) -> bool {
    let wa = cand_weight(s, head, es, acc, a);
    let wb = cand_weight(s, head, es, acc, b);
    wa > wb || (wa == wb && a.value < b.value)
}

/// The most preferred candidate of a non-empty list.
pub open spec fn best_of(
    s: Seq<Node>,
    head: Option<int>,
    es: Seq<AvailabilityEntry>,
    acc: Seq<Assignment>,
    cands: Seq<EntityId>,
) -> EntityId
    decreases cands.len(),
{
    if cands.len() <= 1 {
        cands[0]
    } else {
        let b = best_of(s, head, es, acc, cands.drop_last());
        if prefers(s, head, es, acc, cands.last(), b) {
            cands.last()
        } else {
            b
        }
    }
}

/// Position of the first occurrence of `x`; `q.len()` when there is none.
pub open spec fn first_index_of(q: Seq<EntityId>, x: EntityId) -> int
    decreases q.len(),
{
    if q.len() == 0 {
        0
    } else if q[0] == x {
        0
    } else {
        1 + first_index_of(q.drop_first(), x)
    }
}

/// In a duplicate-free list, the first index of a known element is its
/// position.
pub proof fn lemma_first_index_unique(q: Seq<EntityId>, j: int)
    requires
        distinct_seq(q),
        0 <= j < q.len(),
    ensures
        first_index_of(q, q[j]) == j,
    decreases q.len(),
{
    if j == 0 {
    } else {
        let t = q.drop_first();
        assert(forall|i: int| 0 <= i < t.len() ==> t[i] == q[i + 1]);
        assert(q[0] != q[j]);
        lemma_first_index_unique(t, j - 1);
    }
}

/// Both picks for one slot, given the run so far: the most preferred
/// eligible candidate, then the most preferred among the rest. The second
/// pick is scored with the same run state as the first, as the weighing of
/// one slot's candidates happens before either is assigned.
pub open spec fn slot_picks(
    s: Seq<Node>,
    head: Option<int>,
    es: Seq<AvailabilityEntry>,
    acc: Seq<Assignment>,
    cands: Seq<EntityId>,
) -> (EntityId, EntityId) {
    let a = best_of(s, head, es, acc, cands);
    let b = best_of(s, head, es, acc, cands.remove(first_index_of(cands, a)));
    (a, b)
}

/// The assignments of a run over the first `i` ranked slots.
pub open spec fn gen_assigns(
    s: Seq<Node>,
    head: Option<int>,
    es: Seq<AvailabilityEntry>,
    rs: Seq<EntityId>,
    i: int,
) -> Seq<Assignment>
    decreases i,
{
    if i <= 0 {
        Seq::empty()
    } else {
        let acc = gen_assigns(s, head, es, rs, i - 1);
        let slot = rs[i - 1];
        let picks = slot_picks(s, head, es, acc, eligible_subjects(es, slot));
        acc + seq![
            Assignment { slot, subject: picks.0 },
            Assignment { slot, subject: picks.1 },
        ]
    }
}

/// The best pick is one of the candidates.
pub proof fn lemma_best_of_contains(
    s: Seq<Node>,
    head: Option<int>,
    es: Seq<AvailabilityEntry>,
    acc: Seq<Assignment>,
    cands: Seq<EntityId>,
)
    requires
        cands.len() > 0,
    ensures
        cands.contains(best_of(s, head, es, acc, cands)),
    decreases cands.len(),
{
    if cands.len() == 1 {
        assert(cands[0] == best_of(s, head, es, acc, cands));
    } else {
        lemma_best_of_contains(s, head, es, acc, cands.drop_last());
        let b = best_of(s, head, es, acc, cands.drop_last());
        if !prefers(s, head, es, acc, cands.last(), b) {
            let i = choose|i: int| 0 <= i < cands.drop_last().len() && cands.drop_last()[i] == b;
            assert(cands[i] == b);
        } else {
            assert(cands[cands.len() - 1] == cands.last());
        }
    }
}

/// The best pick outranks every other candidate.
pub proof fn lemma_best_of_max(
    s: Seq<Node>,
    head: Option<int>,
    es: Seq<AvailabilityEntry>,
    acc: Seq<Assignment>,
    cands: Seq<EntityId>,
)
    requires
        cands.len() > 0,
        distinct_seq(cands),
        forall|i: int| 0 <= i < cands.len() ==> (#[trigger] cands[i]).kind == EntityKind::Subject,
    ensures
        forall|i: int|
            0 <= i < cands.len() && cands[i] != best_of(s, head, es, acc, cands) ==> prefers(
                s,
                head,
                es,
                acc,
                best_of(s, head, es, acc, cands),
                cands[i],
            ),
    decreases cands.len(),
{
    let best = best_of(s, head, es, acc, cands);
    if cands.len() > 1 {
        let t = cands.drop_last();
        assert(forall|i: int| 0 <= i < t.len() ==> t[i] == cands[i]);
        lemma_best_of_max(s, head, es, acc, t);
        let b = best_of(s, head, es, acc, t);
        lemma_best_of_contains(s, head, es, acc, t);
        let bj = choose|j: int| 0 <= j < t.len() && t[j] == b;
        assert forall|i: int| 0 <= i < cands.len() && cands[i] != best implies prefers(
            s,
            head,
            es,
            acc,
            best,
            cands[i],
        ) by {
            let x = cands.last();
            if prefers(s, head, es, acc, x, b) {
                if i < cands.len() - 1 {
                    if cands[i] == b {
                    } else {
                        assert(prefers(s, head, es, acc, b, t[i]));
                    }
                }
            } else {
                if i == cands.len() - 1 {
                    if x != b {
                        let wx = cand_weight(s, head, es, acc, x);
                        let wb = cand_weight(s, head, es, acc, b);
                        assert(cands[bj] == b);
                        assert(x.value != b.value);
                    }
                } else {
                    if cands[i] != b {
                        assert(prefers(s, head, es, acc, b, t[i]));
                    }
                }
            }
        }
    }
}

/// Removing one position keeps every other element.
proof fn lemma_remove_membership(q: Seq<EntityId>, i: int)
    requires
        distinct_seq(q),
        0 <= i < q.len(),
    ensures
        forall|y: EntityId| q.remove(i).contains(y) ==> q.contains(y) && y != q[i],
        distinct_seq(q.remove(i)),
        q.remove(i).len() == q.len() - 1,
{
    q.remove_ensures(i);
    let r = q.remove(i);
    assert forall|y: EntityId| r.contains(y) implies q.contains(y) && y != q[i] by {
        let k = choose|k: int| 0 <= k < r.len() && r[k] == y;
        if k < i {
            assert(q[k] == y);
        } else {
            assert(q[k + 1] == y);
        }
    }
    assert forall|a: int, b: int|
        0 <= a < r.len() && 0 <= b < r.len() && a != b implies r[a] != r[b] by {
        let qa: int = if a < i {
            a
        } else {
            a + 1
        };
        let qb: int = if b < i {
            b
        } else {
            b + 1
        };
        assert(r[a] == q[qa] && r[b] == q[qb]);
    }
}

/// Appending one assignment extends a slot's subject list exactly when the
/// row names that slot.
proof fn lemma_slot_subjects_push(a: Seq<Assignment>, e: Assignment, slot: EntityId)
    ensures
        slot_subjects(a.push(e), slot) == if e.slot == slot {
            slot_subjects(a, slot).push(e.subject)
        } else {
            slot_subjects(a, slot)
        },
{
    assert(a.push(e).drop_last() =~= a);
    assert(a.push(e).last() == e);
}

/// What one run step leaves in each slot: nothing yet for slots not reached,
/// and exactly the two picks for slots already processed.
proof fn lemma_gen_slot(
    s: Seq<Node>,
    head: Option<int>,
    es: Seq<AvailabilityEntry>,
    rs: Seq<EntityId>,
    i: int,
    k: int,
)
    requires
        distinct_seq(rs),
        0 <= k < rs.len(),
        0 <= i <= rs.len(),
    ensures
        k >= i ==> slot_subjects(gen_assigns(s, head, es, rs, i), rs[k])
            == Seq::<EntityId>::empty(),
        k < i ==> slot_subjects(gen_assigns(s, head, es, rs, i), rs[k]) == ({
            let acc = gen_assigns(s, head, es, rs, k);
            let picks = slot_picks(s, head, es, acc, eligible_subjects(es, rs[k]));
            seq![picks.0, picks.1]
        }),
    decreases i,
{
    if i == 0 {
        assert(slot_subjects(Seq::<Assignment>::empty(), rs[k]) =~= Seq::<EntityId>::empty());
    } else {
        lemma_gen_slot(s, head, es, rs, i - 1, k);
        let acc = gen_assigns(s, head, es, rs, i - 1);
        let slot = rs[i - 1];
        let picks = slot_picks(s, head, es, acc, eligible_subjects(es, slot));
        let e0 = Assignment { slot, subject: picks.0 };
        let e1 = Assignment { slot, subject: picks.1 };
        let full = gen_assigns(s, head, es, rs, i);
        assert(full =~= acc.push(e0).push(e1));
        lemma_slot_subjects_push(acc, e0, rs[k]);
        lemma_slot_subjects_push(acc.push(e0), e1, rs[k]);
        if k == i - 1 {
            assert(slot_subjects(acc, rs[k]) == Seq::<EntityId>::empty());
            assert(slot_subjects(full, rs[k]) =~= seq![picks.0, picks.1]);
        } else {
            assert(rs[i - 1] != rs[k]);
            assert(slot_subjects(full, rs[k]) == slot_subjects(acc, rs[k]));
        }
    }
}

/// Law: in a full run over slots that each have at least two eligible
/// subjects, every slot receives exactly two distinct subjects, both of
/// which hold availability entries for that slot.
pub proof fn lemma_generate_two_per_slot(
    s: Seq<Node>,
    head: Option<int>,
    es: Seq<AvailabilityEntry>,
    rs: Seq<EntityId>,
    k: int,
)
    requires
        entries_wf(es),
        distinct_seq(rs),
        forall|j: int| 0 <= j < rs.len() ==> eligible_subjects(es, #[trigger] rs[j]).len() >= 2,
        0 <= k < rs.len(),
    ensures
        ({
            let got = slot_subjects(gen_assigns(s, head, es, rs, rs.len() as int), rs[k]);
            &&& got.len() == 2
            &&& got[0] != got[1]
            &&& eligible_subjects(es, rs[k]).contains(got[0])
            &&& eligible_subjects(es, rs[k]).contains(got[1])
        }),
{
    lemma_gen_slot(s, head, es, rs, rs.len() as int, k);
    let acc = gen_assigns(s, head, es, rs, k);
    let cands = eligible_subjects(es, rs[k]);
    lemma_eligible_distinct(es, rs[k]);
    let a = best_of(s, head, es, acc, cands);
    lemma_best_of_contains(s, head, es, acc, cands);
    let ai = choose|i: int| 0 <= i < cands.len() && cands[i] == a;
    lemma_first_index_unique(cands, ai);
    let rest = cands.remove(first_index_of(cands, a));
    lemma_remove_membership(cands, ai);
    let b = best_of(s, head, es, acc, rest);
    lemma_best_of_contains(s, head, es, acc, rest);
}

/// Law, stated over the committed node: after a successful run, every slot
/// of the flexibility ranking holds exactly two distinct subjects in the
/// new node, both of them eligible for that slot. Follows from the run's
/// functional contract and the per-step lemma above.
pub proof fn lemma_committed_node_two_per_slot(
    s0: Seq<Node>,
    s1: Seq<Node>,
    p0: Parameters,
    p1: Parameters,
    es: Seq<AvailabilityEntry>,
    avail_id: EntityId,
    parent_override: Option<EntityId>,
    new_id: EntityId,
    nv: Option<Seq<char>>,
    r: Result<Schedule, Error>,
    k: int,
)
    requires
        entries_wf(es),
        generate_post(s0, s1, p0, p1, es, avail_id, parent_override, new_id, nv, r),
        r is Ok,
        0 <= k < ranked_slots(es).len(),
    ensures
        ({
            let got = slot_subjects(s1.last().assignments@, ranked_slots(es)[k]);
            &&& got.len() == 2
            &&& got[0] != got[1]
            &&& eligible_subjects(es, ranked_slots(es)[k]).contains(got[0])
            &&& eligible_subjects(es, ranked_slots(es)[k]).contains(got[1])
        }),
{
    let rs = ranked_slots(es);
    lemma_ranking(es);
    let hidx = spec_head_idx(s0, p0, parent_override);
    assert(s1.last().assignments@ == gen_assigns(s0, hidx, es, rs, rs.len() as int));
    lemma_generate_two_per_slot(s0, hidx, es, rs, k);
}

/// Correspondence between a resolved head snapshot and its position in the
/// store; a run without history carries neither.
pub open spec fn head_matches(s: Seq<Node>, head: Option<Schedule>, hidx: Option<int>) -> bool {
    match hidx {
        Option::Some(i) => head matches Option::Some(h) && 0 <= i < s.len() && s[i].id == h.id
            && s[i].parent == h.parent,
        Option::None => head is None,
    }
}

/// The head position a run starts from: the override when one is given,
/// else the current-pointer's snapshot when it resolves, else none.
pub open spec fn spec_head_idx(s0: Seq<Node>, p0: Parameters, ov: Option<EntityId>) -> Option<
    int,
> {
    match ov {
        Option::Some(p) => Option::Some(idx_of(s0, p)),
        Option::None => match p0.schedule {
            Option::Some(c) => if c.kind == EntityKind::Schedule && has_node(s0, c) {
                Option::Some(idx_of(s0, c))
            } else {
                Option::<int>::None
            },
            Option::None => Option::<int>::None,
        },
    }
}

/// What one generator run must do, from the old store and current-pointer
/// to the new ones. Every failure leaves both untouched: a run that cannot
/// finish commits nothing and does not move the pointer.
pub open spec fn generate_post(
    s0: Seq<Node>,
    s1: Seq<Node>,
    p0: Parameters,
    p1: Parameters,
    es: Seq<AvailabilityEntry>,
    avail_id: EntityId,
    parent_override: Option<EntityId>,
    new_id: EntityId,
    nv: Option<Seq<char>>,
    r: Result<Schedule, Error>,
) -> bool {
    let unchanged = s1 == s0 && p1 == p0;
    if new_id.kind != EntityKind::Schedule {
        r == Result::<Schedule, Error>::Err(Error::Input) && unchanged
    } else if p0.availability != Option::Some(avail_id) {
        r == Result::<Schedule, Error>::Err(Error::NotFound) && unchanged
    } else if parent_override matches Option::Some(p) && p.kind != EntityKind::Schedule {
        r == Result::<Schedule, Error>::Err(Error::Input) && unchanged
    } else if parent_override matches Option::Some(p) && !has_node(s0, p) {
        r == Result::<Schedule, Error>::Err(Error::NotFound) && unchanged
    } else if has_node(s0, new_id) {
        r == Result::<Schedule, Error>::Err(Error::Input) && unchanged
    } else {
        let hidx = spec_head_idx(s0, p0, parent_override);
        let rs = ranked_slots(es);
        if exists|k: int| 0 <= k < rs.len() && eligible_subjects(es, #[trigger] rs[k]).len() < 2 {
            r == Result::<Schedule, Error>::Err(Error::DataIntegrity) && unchanged
        } else {
            let parent = match hidx {
                Option::Some(h) => Option::Some(s0[h].id),
                Option::None => Option::<EntityId>::None,
            };
            &&& r matches Result::Ok(sch)
            &&& (r matches Result::Ok(sch) ==> sch.id == new_id && sch.parent == parent
                && name_view(sch.name) == nv)
            &&& s1.len() == s0.len() + 1
            &&& forall|j: int| 0 <= j < s0.len() ==> s1[j] == s0[j]
            &&& s1.last().id == new_id
            &&& s1.last().parent == parent
            &&& name_view(s1.last().name) == nv
            &&& s1.last().assignments@ == gen_assigns(s0, hidx, es, rs, rs.len() as int)
            &&& p1.availability == p0.availability
            &&& p1.schedule == Option::Some(new_id)
        }
    }
}

/// Assignment rows naming `subject` in the run built so far.
fn count_assignments(v: &Vec<Assignment>, subject: EntityId) -> (r: u64)
    ensures
        r == count_matching(v@, subject),
{
    let n = v.len();
    let mut c: u64 = 0;
    let mut k: usize = 0;
    while k < n
        invariant
            n == v@.len(),
            0 <= k <= n,
            c == count_matching(v@.take(k as int), subject),
            c <= k,
        decreases n - k,
    {
        proof {
            assert(v@.take(k as int + 1).drop_last() =~= v@.take(k as int));
            assert(v@.take(k as int + 1).last() == v@[k as int]);
        }
        if v[k].subject == subject {
            c = c + 1;
        }
        k = k + 1;
    }
    proof {
        assert(v@.take(n as int) =~= v@);
    }
    c
}

/// Score one candidate against the old head chain, the availability set and
/// the run built so far.
fn eval_weight(
    store: &ScheduleStore,
    head: &Option<Schedule>,
    avail: &Availability,
    acc: &Vec<Assignment>,
    subject: EntityId,
    Ghost(hidx): Ghost<Option<int>>,
) -> (r: i128)
    requires
        store.wf(),
        head_matches(store@, *head, hidx),
    ensures
        r == cand_weight(store@, hidx, avail@, acc@, subject),
{
    let ghost s = store@;
    let flex_slots = avail.for_subject(subject);
    let flex: u64 = flex_slots.len() as u64;
    let cur = count_assignments(acc, subject);
    match head {
        Option::None => {
            let r = weight(Option::None, flex, 0, cur);
            r
        },
        Option::Some(h) => {
            let ghost i = hidx->Some_0;
            proof {
                assert(has_node(s, h.id)) by {
                    assert(s[i].id == h.id);
                }
                lemma_idx_of_unique(s, i);
                assert(own_count(s, h.id, subject) == count_matching(s[i].assignments@, subject));
            }
            let last = match h.last_scheduled(subject, store) {
                Result::Ok(v) => v,
                Result::Err(_) => {
                    proof {
                        if let Option::Some(p) = h.parent {
                            lemma_parent_of(s, i, p);
                        }
                        assert(false);
                    }
                    Option::None
                },
            };
            proof {
                let own = own_count(s, h.id, subject);
                if own > 0 {
                    assert(chain_last(s, i, subject) == Option::<int>::Some(0));
                } else {
                    match s[i].parent {
                        Option::None => {
                            assert(chain_last(s, i, subject) is None);
                        },
                        Option::Some(p) => {
                            lemma_parent_of(s, i, p);
                        },
                    }
                }
                assert(opt_int(last) == chain_last(s, i, subject));
            }
            let total = match h.count_total(subject, store) {
                Result::Ok(v) => v,
                Result::Err(_) => {
                    proof {
                        if let Option::Some(p) = h.parent {
                            lemma_parent_of(s, i, p);
                        }
                        assert(false);
                    }
                    0
                },
            };
            proof {
                lemma_count_total_recursive(s, i, subject);
                if let Option::Some(p) = s[i].parent {
                    lemma_parent_of(s, i, p);
                }
                assert(total == sat64(chain_total(s, i, subject)));
            }
            let r = weight(last, flex, total, cur);
            r
        },
    }
}

/// Index of the most preferred candidate in a non-empty list.
fn pick_best(
    store: &ScheduleStore,
    head: &Option<Schedule>,
    avail: &Availability,
    acc: &Vec<Assignment>,
    cands: &Vec<EntityId>,
    Ghost(hidx): Ghost<Option<int>>,
) -> (r: usize)
    requires
        store.wf(),
        head_matches(store@, *head, hidx),
        cands@.len() >= 1,
    ensures
        r < cands@.len(),
        cands@[r as int] == best_of(store@, hidx, avail@, acc@, cands@),
{
    let mut best: usize = 0;
    let mut wbest: i128 = eval_weight(store, head, avail, acc, cands[0], Ghost(hidx));
    proof {
        assert(cands@.take(1).len() == 1);
        assert(cands@.take(1)[0] == cands@[0]);
    }
    let n = cands.len();
    let mut j: usize = 1;
    while j < n
        invariant
            store.wf(),
            head_matches(store@, *head, hidx),
            n == cands@.len(),
            1 <= j <= n,
            best < j,
            cands@[best as int] == best_of(store@, hidx, avail@, acc@, cands@.take(j as int)),
            wbest == cand_weight(store@, hidx, avail@, acc@, cands@[best as int]),
        decreases n - j,
    {
        let w = eval_weight(store, head, avail, acc, cands[j], Ghost(hidx));
        proof {
            assert(cands@.take(j as int + 1).drop_last() =~= cands@.take(j as int));
            assert(cands@.take(j as int + 1).last() == cands@[j as int]);
        }
        if w > wbest || (w == wbest && cands[j].value < cands[best].value) {
            best = j;
            wbest = w;
        }
        j = j + 1;
    }
    proof {
        assert(cands@.take(n as int) =~= cands@);
    }
    best
}

/// Run the generator once: produce one new schedule snapshot as a child of
/// the current head (or of the override), assign exactly two subjects to
/// every ranked slot, commit the node, and advance the current-pointer to
/// it. A slot with fewer than two eligible subjects is a data-integrity
/// error: nothing is committed and the pointer does not move.
pub fn generate(
    store: &mut ScheduleStore,
    params: &mut Parameters,
    avail: &Availability,
    parent_override: Option<EntityId>,
    new_id: EntityId,
    name: Option<String>,
) -> (r: Result<Schedule, Error>)
    requires
        old(store).wf(),
        avail.wf(),
    ensures
        final(store).wf(),
        generate_post(
            old(store)@,
            final(store)@,
            *old(params),
            *final(params),
            avail@,
            avail.id,
            parent_override,
            new_id,
            name_view(name),
            r,
        ),
{
    let ghost s0 = store@;
    let ghost es = avail@;
    let ghost p0 = *params;
    if !matches!(new_id.kind, EntityKind::Schedule) {
        return Err(Error::Input);
    }
    let avail_ok = match params.availability {
        Option::Some(aid) => aid == avail.id,
        Option::None => false,
    };
    if !avail_ok {
        return Err(Error::NotFound);
    }
    let mut head: Option<Schedule> = Option::None;
    let ghost mut hidx: Option<int> = Option::None;
    match parent_override {
        Option::Some(p) => {
            match Schedule::resolve(store, p) {
                Result::Ok(h) => {
                    proof {
                        hidx = Option::Some(idx_of(s0, p));
                    }
                    head = Option::Some(h);
                },
                Result::Err(e) => {
                    return Err(e);
                },
            }
        },
        Option::None => {
            match params.schedule {
                Option::Some(cid) => {
                    match Schedule::resolve(store, cid) {
                        Result::Ok(h) => {
                            proof {
                                hidx = Option::Some(idx_of(s0, cid));
                            }
                            head = Option::Some(h);
                        },
                        Result::Err(_) => {},
                    }
                },
                Option::None => {},
            }
        },
    }
    proof {
        assert(hidx == spec_head_idx(s0, p0, parent_override));
        if let Option::Some(i) = hidx {
            lemma_idx_of(
                s0,
                match parent_override {
                    Option::Some(p) => p,
                    Option::None => p0.schedule->Some_0,
                },
            );
        }
        assert(head_matches(s0, head, hidx));
    }
    match store.find_index(new_id) {
        Option::Some(_) => {
            return Err(Error::Input);
        },
        Option::None => {},
    }
    let ranking = avail.sorted_by_flexibility();
    let ghost rs = ranked_slots(es);
    proof {
        lemma_ranking(es);
    }
    let rn = ranking.len();
    let mut acc: Vec<Assignment> = Vec::new();
    let mut i: usize = 0;
    while i < rn
        invariant
            store.wf(),
            store@ == s0,
            s0 == old(store)@,
            avail.wf(),
            es == avail@,
            rs == ranked_slots(es),
            p0 == *old(params),
            *params == p0,
            new_id.kind == EntityKind::Schedule,
            p0.availability == Option::Some(avail.id),
            parent_override matches Option::Some(p) ==> p.kind == EntityKind::Schedule
                && has_node(s0, p),
            !has_node(s0, new_id),
            hidx == spec_head_idx(s0, p0, parent_override),
            head_matches(s0, head, hidx),
            rn == ranking@.len(),
            rn == rs.len(),
            forall|k: int|
                0 <= k < rn ==> (#[trigger] ranking@[k]).0 == rs[k] && ranking@[k].1@
                    == eligible_subjects(es, rs[k]),
            0 <= i <= rn,
            acc@ == gen_assigns(s0, hidx, es, rs, i as int),
            forall|k: int| 0 <= k < i ==> eligible_subjects(es, #[trigger] rs[k]).len() >= 2,
        decreases rn - i,
    {
        let slot = ranking[i].0;
        let cands = &ranking[i].1;
        if cands.len() < 2 {
            proof {
                assert(eligible_subjects(es, rs[i as int]).len() < 2);
            }
            return Err(Error::DataIntegrity);
        }
        proof {
            lemma_eligible_distinct(es, rs[i as int]);
        }
        let a_idx = pick_best(store, &head, avail, &acc, cands, Ghost(hidx));
        let a = cands[a_idx];
        let mut rest: Vec<EntityId> = Vec::new();
        let cn = cands.len();
        let mut t: usize = 0;
        while t < cn
            invariant
                cn == cands@.len(),
                0 <= t <= cn,
                rest@ == cands@.take(t as int),
            decreases cn - t,
        {
            proof {
                assert(cands@.take(t as int + 1).drop_last() =~= cands@.take(t as int));
                assert(cands@.take(t as int + 1).last() == cands@[t as int]);
                assert(cands@.take(t as int).push(cands@[t as int]) =~= cands@.take(t as int + 1));
            }
            rest.push(cands[t]);
            t = t + 1;
        }
        proof {
            assert(cands@.take(cn as int) =~= cands@);
        }
        rest.remove(a_idx);
        proof {
            lemma_first_index_unique(cands@, a_idx as int);
        }
        let b_idx = pick_best(store, &head, avail, &acc, &rest, Ghost(hidx));
        let b = rest[b_idx];
        let ghost acc_old = acc@;
        acc.push(Assignment { slot, subject: a });
        acc.push(Assignment { slot, subject: b });
        proof {
            let picks = slot_picks(s0, hidx, es, acc_old, eligible_subjects(es, rs[i as int]));
            assert(picks.0 == a);
            assert(picks.1 == b);
            assert(acc@ =~= acc_old + seq![
                Assignment { slot, subject: a },
                Assignment { slot, subject: b },
            ]);
            assert(acc@ == gen_assigns(s0, hidx, es, rs, i as int + 1));
        }
        i = i + 1;
    }
    let parent_id: Option<EntityId> = match &head {
        Option::Some(h) => Option::Some(h.id),
        Option::None => Option::None,
    };
    let node_name = match &name {
        Option::Some(s) => Option::Some(s.clone()),
        Option::None => Option::None,
    };
    proof {
        if let Option::Some(h) = hidx {
            assert(s0[h].id == parent_id->Some_0);
        }
        if exists|k: int| 0 <= k < rs.len() && eligible_subjects(es, #[trigger] rs[k]).len() < 2 {
            let k = choose|k: int|
                0 <= k < rs.len() && eligible_subjects(es, #[trigger] rs[k]).len() < 2;
            assert(false);
        }
    }
    store.commit_node(new_id, parent_id, node_name, acc);
    params.schedule = Some(new_id);
    Ok(Schedule { id: new_id, parent: parent_id, name })
}

} // verus!
