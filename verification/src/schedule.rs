//! The append-only schedule chain and its historical aggregation queries.
//!
//! Every schedule snapshot is a node holding only the assignments it itself
//! introduced, together with a link to its parent snapshot. Aggregate
//! questions ("how many times has this subject ever worked?") are answered by
//! walking the parent chain from a node up to the root. The store keeps the
//! nodes in commit order, and a node's parent always precedes it; that is the
//! structural invariant every chain walk relies on for termination.

use vstd::prelude::*;

use crate::error::Error;
use crate::ids::{EntityId, EntityKind};
use crate::params::Parameters;

verus! {

/// One (slot, subject) assignment row owned by a schedule node.
#[derive(Copy, Clone, Debug, PartialEq, Eq, Structural)]
pub struct Assignment {
    pub slot: EntityId,
    pub subject: EntityId,
}

/// The identity of one schedule snapshot: id, parent link, optional label.
#[derive(Clone, Debug, PartialEq, Eq)]
pub struct Schedule {
    pub id: EntityId,
    pub parent: Option<EntityId>,
    pub name: Option<String>,
}

/// One stored snapshot: its identity plus the assignment rows it introduced.
#[derive(Clone, Debug)]
pub struct Node {
    pub id: EntityId,
    pub parent: Option<EntityId>,
    pub name: Option<String>,
    pub assignments: Vec<Assignment>,
}

/// The abstract value of an optional label: its character sequence, if any.
pub open spec fn name_view(name: Option<String>) -> Option<Seq<char>> {
    match name {
        Option::Some(s) => Option::Some(s@),
        Option::None => Option::None,
    }
}

/// No two stored nodes share an id.
pub open spec fn node_ids_unique(s: Seq<Node>) -> bool {
    forall|i: int, j: int|
        0 <= i < s.len() && 0 <= j < s.len() && i != j ==> s[i].id != s[j].id
}

/// The parent of the node at `i`, if set, is the id of an earlier node.
pub open spec fn parent_precedes(s: Seq<Node>, i: int) -> bool {
    s[i].parent matches Option::Some(p) ==> exists|j: int| 0 <= j < i && s[j].id == p
}

/// Structural invariant of the store: schedule-kind ids, no duplicates, and
/// every parent link points at an earlier node, so every chain is acyclic and
/// finite.
pub open spec fn store_wf(s: Seq<Node>) -> bool {
    &&& node_ids_unique(s)
    &&& forall|i: int| 0 <= i < s.len() ==> (#[trigger] s[i].id).kind == EntityKind::Schedule
    &&& forall|i: int| 0 <= i < s.len() ==> #[trigger] parent_precedes(s, i)
}

/// Whether some stored node carries the id.
pub open spec fn has_node(s: Seq<Node>, id: EntityId) -> bool {
    exists|i: int| 0 <= i < s.len() && s[i].id == id
}

/// Index of the first node carrying the id; `s.len()` when there is none.
pub open spec fn idx_of(s: Seq<Node>, id: EntityId) -> int
    decreases s.len(),
{
    if s.len() == 0 {
        0
    } else if s[0].id == id {
        0
    } else {
        1 + idx_of(s.drop_first(), id)
    }
}

/// `idx_of` returns the first matching position: in range exactly when the id
/// occurs, pointing at a node with that id, with no earlier match.
pub proof fn lemma_idx_of(s: Seq<Node>, id: EntityId)
    ensures
        0 <= idx_of(s, id) <= s.len(),
        has_node(s, id) <==> idx_of(s, id) < s.len(),
        idx_of(s, id) < s.len() ==> s[idx_of(s, id)].id == id,
        forall|j: int| 0 <= j < idx_of(s, id) ==> s[j].id != id,
    decreases s.len(),
{
    if s.len() == 0 {
    } else if s[0].id == id {
    } else {
        let t = s.drop_first();
        lemma_idx_of(t, id);
        assert(forall|j: int| 0 <= j < t.len() ==> t[j] == s[j + 1]);
        assert forall|j: int| 0 <= j < idx_of(s, id) implies s[j].id != id by {
            if j > 0 {
                assert(s[j] == t[j - 1]);
            }
        }
        if has_node(s, id) {
            let i = choose|i: int| 0 <= i < s.len() && s[i].id == id;
            assert(t[i - 1] == s[i]);
            assert(has_node(t, id));
        }
        if has_node(t, id) {
            let i = choose|i: int| 0 <= i < t.len() && t[i].id == id;
            assert(s[i + 1] == t[i]);
            assert(has_node(s, id));
        }
    }
}

/// Under unique ids, `idx_of` finds exactly the position a matching node
/// is known to sit at.
pub proof fn lemma_idx_of_unique(s: Seq<Node>, j: int)
    requires
        node_ids_unique(s),
        0 <= j < s.len(),
    ensures
        idx_of(s, s[j].id) == j,
{
    lemma_idx_of(s, s[j].id);
    let i = idx_of(s, s[j].id);
    assert(i < s.len());
    if i != j {
        assert(s[i].id == s[j].id);
        assert(false);
    }
}

/// In a well-formed store, a stored parent link always resolves, to a node
/// strictly earlier in commit order.
pub proof fn lemma_parent_of(s: Seq<Node>, i: int, p: EntityId)
    requires
        store_wf(s),
        0 <= i < s.len(),
        s[i].parent == Option::Some(p),
    ensures
        has_node(s, p),
        0 <= idx_of(s, p) < i,
        s[idx_of(s, p)].id == p,
{
    assert(parent_precedes(s, i));
    let j = choose|j: int| 0 <= j < i && s[j].id == p;
    assert(s[j].id == p);
    assert(has_node(s, p));
    lemma_idx_of_unique(s, j);
}

/// What `resolve` must return: the stored head data for the id, `Input` for
/// an id of the wrong kind, `NotFound` for an unknown one.
pub open spec fn resolve_post(s: Seq<Node>, id: EntityId, r: Result<Schedule, Error>) -> bool {
    if id.kind != EntityKind::Schedule {
        r == Result::<Schedule, Error>::Err(Error::Input)
    } else if has_node(s, id) {
        let n = s[idx_of(s, id)];
        &&& r matches Result::Ok(sch)
        &&& (r matches Result::Ok(sch) ==> {
            &&& sch.id == n.id
            &&& sch.parent == n.parent
            &&& name_view(sch.name) == name_view(n.name)
        })
    } else {
        r == Result::<Schedule, Error>::Err(Error::NotFound)
    }
}

/// How many of the assignment rows name the subject.
pub open spec fn count_matching(a: Seq<Assignment>, subject: EntityId) -> int
    decreases a.len(),
{
    if a.len() == 0 {
        0
    } else {
        count_matching(a.drop_last(), subject) + if a.last().subject == subject {
            1int
        } else {
            0int
        }
    }
}

/// A node names a subject at most once per assignment row.
pub proof fn lemma_count_matching_bounds(a: Seq<Assignment>, subject: EntityId)
    ensures
        0 <= count_matching(a, subject) <= a.len(),
    decreases a.len(),
{
    if a.len() > 0 {
        lemma_count_matching_bounds(a.drop_last(), subject);
    }
}

/// The subjects the assignment rows give to the slot, in row order.
pub open spec fn slot_subjects(a: Seq<Assignment>, slot: EntityId) -> Seq<EntityId>
    decreases a.len(),
{
    if a.len() == 0 {
        Seq::empty()
    } else {
        let rest = slot_subjects(a.drop_last(), slot);
        if a.last().slot == slot {
            rest.push(a.last().subject)
        } else {
            rest
        }
    }
}

/// Own count of a subject within the node carrying `id`: zero when no node
/// carries it, since an unknown snapshot owns no assignment rows.
pub open spec fn own_count(s: Seq<Node>, id: EntityId, subject: EntityId) -> int {
    if has_node(s, id) {
        count_matching(s[idx_of(s, id)].assignments@, subject)
    } else {
        0
    }
}

/// Total number of assignments to the subject over the node at `i` and all
/// of its ancestors up to the root. The guard on the recursive call only
/// repeats what the store invariant guarantees: a parent sits strictly
/// earlier in commit order, which is why the walk terminates.
pub open spec fn chain_total(s: Seq<Node>, i: int, subject: EntityId) -> int
    decreases i,
{
    if 0 <= i < s.len() {
        let own = count_matching(s[i].assignments@, subject);
        match s[i].parent {
            Option::None => own,
            Option::Some(p) => {
                let j = idx_of(s, p);
                if 0 <= j < i {
                    own + chain_total(s, j, subject)
                } else {
                    own
                }
            },
        }
    } else {
        0
    }
}

/// Number of nodes back from the node at `i` (0 = the node itself) at which
/// the subject first shows up, walking toward the root; `None` when it never
/// shows up on that chain.
pub open spec fn chain_last(s: Seq<Node>, i: int, subject: EntityId) -> Option<int>
    decreases i,
{
    if 0 <= i < s.len() {
        if count_matching(s[i].assignments@, subject) > 0 {
            Option::Some(0)
        } else {
            match s[i].parent {
                Option::None => Option::None,
                Option::Some(p) => {
                    let j = idx_of(s, p);
                    if 0 <= j < i {
                        match chain_last(s, j, subject) {
                            Option::Some(k) => Option::Some(k + 1),
                            Option::None => Option::None,
                        }
                    } else {
                        Option::None
                    }
                },
            }
        }
    } else {
        Option::None
    }
}

/// Whether the subject shows up anywhere on the chain from the node at `i`
/// up to the root.
pub open spec fn chain_has(s: Seq<Node>, i: int, subject: EntityId) -> bool
    decreases i,
{
    if 0 <= i < s.len() {
        count_matching(s[i].assignments@, subject) > 0 || (match s[i].parent {
            Option::None => false,
            Option::Some(p) => {
                let j = idx_of(s, p);
                if 0 <= j < i {
                    chain_has(s, j, subject)
                } else {
                    false
                }
            },
        })
    } else {
        false
    }
}

/// Saturation of an unbounded count at the widest machine counter.
pub open spec fn sat64(x: int) -> int {
    if x > u64::MAX {
        u64::MAX as int
    } else {
        x
    }
}

/// The chain total is non-negative and the first-show-up depth, when there
/// is one, never reaches past the node's position in commit order.
pub proof fn lemma_chain_bounds(s: Seq<Node>, i: int, subject: EntityId)
    ensures
        chain_total(s, i, subject) >= 0,
        chain_last(s, i, subject) matches Option::Some(k) ==> 0 <= k <= i,
    decreases i,
{
    if 0 <= i < s.len() {
        lemma_count_matching_bounds(s[i].assignments@, subject);
        if let Option::Some(p) = s[i].parent {
            let j = idx_of(s, p);
            if 0 <= j < i {
                lemma_chain_bounds(s, j, subject);
            }
        }
    }
}

/// Law: the chain total of a node equals its own count plus the chain total
/// of its parent, or its own count alone at the root. This is the recursive
/// invariant that lets the whole history be aggregated one hop at a time.
pub proof fn lemma_count_total_recursive(s: Seq<Node>, i: int, subject: EntityId)
    requires
        store_wf(s),
        0 <= i < s.len(),
    ensures
        chain_total(s, i, subject) == count_matching(s[i].assignments@, subject) + (
        match s[i].parent {
            Option::Some(p) => chain_total(s, idx_of(s, p), subject),
            Option::None => 0,
        }),
{
    if let Option::Some(p) = s[i].parent {
        lemma_parent_of(s, i, p);
    }
}

/// Law: walking one hop from a node to its parent moves the first-show-up
/// depth down by exactly one, as long as the node itself does not name the
/// subject; and a subject absent from a node's whole chain is also absent
/// from its parent's. So the depth of the first occurrence, measured from
/// the original query node, never decreases as the query is restarted at
/// ever older ancestors.
pub proof fn lemma_last_scheduled_parent_step(s: Seq<Node>, i: int, p: EntityId, subject: EntityId)
    requires
        store_wf(s),
        0 <= i < s.len(),
        s[i].parent == Option::Some(p),
    ensures
        (chain_last(s, i, subject) is Some && chain_last(s, i, subject)->Some_0 > 0)
            ==> chain_last(s, idx_of(s, p), subject) == Option::Some(
            chain_last(s, i, subject)->Some_0 - 1,
        ),
        chain_last(s, i, subject) is None ==> chain_last(s, idx_of(s, p), subject) is None,
{
    lemma_parent_of(s, i, p);
}

/// Law: the first-show-up depth is `None` exactly when the subject appears
/// nowhere on the chain from the node to the root.
pub proof fn lemma_last_scheduled_none_iff(s: Seq<Node>, i: int, subject: EntityId)
    requires
        store_wf(s),
        0 <= i < s.len(),
    ensures
        chain_last(s, i, subject) is None <==> !chain_has(s, i, subject),
    decreases i,
{
    if let Option::Some(p) = s[i].parent {
        lemma_parent_of(s, i, p);
        lemma_last_scheduled_none_iff(s, idx_of(s, p), subject);
    }
}

/// Law: resolving the same id against the same store twice yields identical
/// head data, success or failure alike; `resolve` itself takes the store
/// immutably, so re-resolving is free of side effects.
pub proof fn lemma_resolve_idempotent(
    s: Seq<Node>,
    id: EntityId,
    r1: Result<Schedule, Error>,
    r2: Result<Schedule, Error>,
)
    requires
        resolve_post(s, id, r1),
        resolve_post(s, id, r2),
    ensures
        r1 is Ok <==> r2 is Ok,
        (r1 is Ok && r2 is Ok) ==> {
            let a = r1->Ok_0;
            let b = r2->Ok_0;
            a.id == b.id && a.parent == b.parent && name_view(a.name) == name_view(b.name)
        },
        (r1 is Err && r2 is Err) ==> r1->Err_0 == r2->Err_0,
{
}

/// The store of committed schedule snapshots, in commit order.
#[derive(Debug)]
pub struct ScheduleStore {
    nodes: Vec<Node>,
}

impl View for ScheduleStore {
    type V = Seq<Node>;

    closed spec fn view(&self) -> Seq<Node> {
        self.nodes@
    }
}

impl ScheduleStore {
    /// Shorthand for the structural invariant over the store's contents.
    pub open spec fn wf(&self) -> bool {
        store_wf(self@)
    }

    /// An empty store.
    pub fn new() -> (r: ScheduleStore)
        ensures
            r@ == Seq::<Node>::empty(),
            r.wf(),
    {
        ScheduleStore { nodes: Vec::new() }
    }

    /// Position of the node carrying `id`, if any.
    pub(crate) fn find_index(&self, id: EntityId) -> (r: Option<usize>)
        ensures
            match r {
                Option::Some(i) => {
                    &&& has_node(self@, id)
                    &&& i == idx_of(self@, id)
                    &&& i < self@.len()
                    &&& self@[i as int].id == id
                },
                Option::None => !has_node(self@, id),
            },
    {
        let n = self.nodes.len();
        let mut i: usize = 0;
        while i < n
            invariant
                n == self@.len(),
                0 <= i <= n,
                forall|j: int| 0 <= j < i ==> self@[j].id != id,
            decreases n - i,
        {
            if self.nodes[i].id == id {
                proof {
                    lemma_idx_of(self@, id);
                    if idx_of(self@, id) != i {
                        assert(self@[idx_of(self@, id)].id == id);
                    }
                }
                return Some(i);
            }
            i = i + 1;
        }
        proof {
            if has_node(self@, id) {
                let j = choose|j: int| 0 <= j < self@.len() && self@[j].id == id;
                assert(self@[j].id != id);
            }
        }
        None
    }

    /// Assignment rows naming `subject` in the node at position `i`.
    fn count_at(&self, i: usize, subject: EntityId) -> (r: u64)
        requires
            i < self@.len(),
        ensures
            r == count_matching(self@[i as int].assignments@, subject),
    {
        let a = &self.nodes[i].assignments;
        let n = a.len();
        let mut c: u64 = 0;
        let mut k: usize = 0;
        while k < n
            invariant
                n == a@.len(),
                0 <= k <= n,
                c == count_matching(a@.take(k as int), subject),
                c <= k,
            decreases n - k,
        {
            proof {
                assert(a@.take(k as int + 1).drop_last() =~= a@.take(k as int));
                assert(a@.take(k as int + 1).last() == a@[k as int]);
            }
            if a[k].subject == subject {
                c = c + 1;
            }
            k = k + 1;
        }
        proof {
            assert(a@.take(n as int) =~= a@);
        }
        c
    }

    /// Walk the chain from the node at `start` to the root, summing the
    /// subject's per-node counts; the sum is saturated at the widest machine
    /// counter.
    fn walk_total(&self, start: usize, subject: EntityId) -> (r: u64)
        requires
            self.wf(),
            start < self@.len(),
        ensures
            r == sat64(chain_total(self@, start as int, subject)),
    {
        let mut cur: usize = start;
        let mut acc: u64 = 0;
        let ghost mut exact: int = 0;
        let ghost total: int = chain_total(self@, cur as int, subject);
        proof {
            lemma_chain_bounds(self@, cur as int, subject);
        }
        loop
            invariant
                self.wf(),
                cur < self@.len(),
                0 <= exact,
                acc == sat64(exact),
                exact + chain_total(self@, cur as int, subject) == total,
                total == chain_total(self@, start as int, subject),
            decreases cur,
        {
            let cnt = self.count_at(cur, subject);
            proof {
                lemma_count_matching_bounds(self@[cur as int].assignments@, subject);
            }
            let next = acc.saturating_add(cnt);
            proof {
                assert(sat64(sat64(exact) + cnt) == sat64(exact + cnt));
            }
            acc = next;
            proof {
                exact = exact + cnt;
            }
            let parent = self.nodes[cur].parent;
            match parent {
                Option::None => {
                    proof {
                        assert(chain_total(self@, cur as int, subject) == cnt);
                    }
                    return acc;
                },
                Option::Some(p) => {
                    match self.find_index(p) {
                        Option::None => {
                            proof {
                                lemma_parent_of(self@, cur as int, p);
                                assert(false);
                            }
                            return acc;
                        },
                        Option::Some(j) => {
                            proof {
                                lemma_parent_of(self@, cur as int, p);
                                lemma_chain_bounds(self@, j as int, subject);
                                assert(chain_total(self@, cur as int, subject) == cnt
                                    + chain_total(self@, j as int, subject));
                            }
                            cur = j;
                        },
                    }
                },
            }
        }
    }

    /// Walk the chain from the node at `start` toward the root, returning
    /// how many hops in the subject first shows up.
    fn walk_last(&self, start: usize, subject: EntityId) -> (r: Option<u64>)
        requires
            self.wf(),
            start < self@.len(),
        ensures
            match chain_last(self@, start as int, subject) {
                Option::Some(k) => r matches Option::Some(h) && h == k,
                Option::None => r is None,
            },
    {
        let mut cur: usize = start;
        let mut hops: u64 = 0;
        let ghost gstart: int = start as int;
        let n_total = self.nodes.len();
        loop
            invariant
                self.wf(),
                self@.len() == n_total as int,
                cur < self@.len(),
                gstart < self@.len(),
                0 <= hops,
                hops <= gstart - cur,
                gstart == start as int,
                match chain_last(self@, cur as int, subject) {
                    Option::Some(k) => chain_last(self@, gstart, subject) == Option::Some(
                        k + hops,
                    ),
                    Option::None => chain_last(self@, gstart, subject) is None,
                },
            decreases cur,
        {
            let cnt = self.count_at(cur, subject);
            if cnt > 0 {
                proof {
                    assert(chain_last(self@, cur as int, subject) == Option::<int>::Some(0));
                }
                return Some(hops);
            }
            let parent = self.nodes[cur].parent;
            match parent {
                Option::None => {
                    proof {
                        assert(chain_last(self@, cur as int, subject) is None);
                    }
                    return None;
                },
                Option::Some(p) => {
                    match self.find_index(p) {
                        Option::None => {
                            proof {
                                lemma_parent_of(self@, cur as int, p);
                                assert(false);
                            }
                            return None;
                        },
                        Option::Some(j) => {
                            proof {
                                lemma_parent_of(self@, cur as int, p);
                            }
                            hops = hops + 1;
                            cur = j;
                        },
                    }
                },
            }
        }
    }

    /// Commit one complete new snapshot: id, parent link, label and all of
    /// its assignment rows at once. The id must be fresh and the parent, if
    /// set, already committed, so the chain stays append-only and acyclic.
    pub(crate) fn commit_node(
        &mut self,
        id: EntityId,
        parent: Option<EntityId>,
        name: Option<String>,
        assignments: Vec<Assignment>,
    )
        requires
            old(self).wf(),
            id.kind == EntityKind::Schedule,
            !has_node(old(self)@, id),
            parent matches Option::Some(p) ==> has_node(old(self)@, p),
        ensures
            final(self).wf(),
            final(self)@.len() == old(self)@.len() + 1,
            forall|j: int| 0 <= j < old(self)@.len() ==> final(self)@[j] == old(self)@[j],
            final(self)@.last().id == id,
            final(self)@.last().parent == parent,
            final(self)@.last().name == name,
            final(self)@.last().assignments == assignments,
    {
        let ghost s0 = self@;
        self.nodes.push(Node { id, parent, name, assignments });
        proof {
            let s1 = self@;
            if let Option::Some(p) = parent {
                lemma_idx_of(s0, p);
            }
            assert forall|i: int| 0 <= i < s1.len() implies #[trigger] parent_precedes(s1, i) by {
                if i < s0.len() {
                    assert(parent_precedes(s0, i));
                    if let Option::Some(p) = s0[i].parent {
                        let j = choose|j: int| 0 <= j < i && s0[j].id == p;
                        assert(s1[j].id == p);
                    }
                } else {
                    if let Option::Some(p) = parent {
                        let j = idx_of(s0, p);
                        assert(s1[j].id == p);
                    }
                }
            }
        }
    }
}

/// What `upsert` must do. A new id is appended as a node with an empty
/// assignment set; re-upserting an existing id overwrites only its parent
/// link and label. The parent, if set, must already be committed, and must
/// have been committed before the node itself: the chain stays acyclic.
pub open spec fn upsert_post(
    s0: Seq<Node>,
    s1: Seq<Node>,
    sch: Schedule,
    r: Result<(), Error>,
) -> bool {
    if sch.id.kind != EntityKind::Schedule {
        r == Result::<(), Error>::Err(Error::Input) && s1 == s0
    } else if sch.parent matches Option::Some(p) && !has_node(s0, p) {
        r == Result::<(), Error>::Err(Error::NotFound) && s1 == s0
    } else if !has_node(s0, sch.id) {
        &&& r == Result::<(), Error>::Ok(())
        &&& s1.len() == s0.len() + 1
        &&& forall|j: int| 0 <= j < s0.len() ==> s1[j] == s0[j]
        &&& s1.last().id == sch.id
        &&& s1.last().parent == sch.parent
        &&& name_view(s1.last().name) == name_view(sch.name)
        &&& s1.last().assignments@ == Seq::<Assignment>::empty()
    } else {
        let i = idx_of(s0, sch.id);
        if sch.parent matches Option::Some(p) && idx_of(s0, p) >= i {
            r == Result::<(), Error>::Err(Error::DataIntegrity) && s1 == s0
        } else {
            &&& r == Result::<(), Error>::Ok(())
            &&& s1.len() == s0.len()
            &&& forall|j: int| 0 <= j < s0.len() && j != i ==> s1[j] == s0[j]
            &&& s1[i].id == sch.id
            &&& s1[i].parent == sch.parent
            &&& name_view(s1[i].name) == name_view(sch.name)
            &&& s1[i].assignments == s0[i].assignments
        }
    }
}

/// What `add` must do: append one assignment row to the node carrying the
/// schedule's id, and touch nothing else.
pub open spec fn add_post(
    s0: Seq<Node>,
    s1: Seq<Node>,
    sch_id: EntityId,
    slot: EntityId,
    subject: EntityId,
    r: Result<(), Error>,
) -> bool {
    if slot.kind != EntityKind::Slot || subject.kind != EntityKind::Subject {
        r == Result::<(), Error>::Err(Error::Input) && s1 == s0
    } else if !has_node(s0, sch_id) {
        r == Result::<(), Error>::Err(Error::NotFound) && s1 == s0
    } else {
        let i = idx_of(s0, sch_id);
        &&& r == Result::<(), Error>::Ok(())
        &&& s1.len() == s0.len()
        &&& forall|j: int| 0 <= j < s0.len() && j != i ==> s1[j] == s0[j]
        &&& s1[i].id == s0[i].id
        &&& s1[i].parent == s0[i].parent
        &&& s1[i].name == s0[i].name
        &&& s1[i].assignments@ == s0[i].assignments@.push(Assignment { slot, subject })
    }
}

/// What `count_total` must return: the saturated sum of the head's own
/// count and the chain total of its parent. A head whose parent link names
/// no committed node is a broken chain: fatal, never silently repaired.
pub open spec fn count_total_post(
    s: Seq<Node>,
    id: EntityId,
    parent: Option<EntityId>,
    subject: EntityId,
    r: Result<u64, Error>,
) -> bool {
    match parent {
        Option::None => r matches Result::Ok(v) && v == sat64(own_count(s, id, subject)),
        Option::Some(p) => if has_node(s, p) {
            r matches Result::Ok(v) && v == sat64(
                own_count(s, id, subject) + chain_total(s, idx_of(s, p), subject),
            )
        } else {
            r == Result::<u64, Error>::Err(Error::NotFound)
        },
    }
}

/// What `last_scheduled` must return: 0 when the head's own node names the
/// subject, one more than the parent chain's first-show-up depth otherwise,
/// and `None` when the subject never shows up on the chain.
pub open spec fn last_scheduled_post(
    s: Seq<Node>,
    id: EntityId,
    parent: Option<EntityId>,
    subject: EntityId,
    r: Result<Option<u64>, Error>,
) -> bool {
    if own_count(s, id, subject) > 0 {
        r matches Result::Ok(v) && v == Option::<u64>::Some(0)
    } else {
        match parent {
            Option::None => r == Result::<Option<u64>, Error>::Ok(Option::<u64>::None),
            Option::Some(p) => if has_node(s, p) {
                match chain_last(s, idx_of(s, p), subject) {
                    Option::Some(k) => r matches Result::Ok(v) && v matches Option::Some(h) && h
                        == k + 1,
                    Option::None => r == Result::<Option<u64>, Error>::Ok(Option::<u64>::None),
                }
            } else {
                r == Result::<Option<u64>, Error>::Err(Error::NotFound)
            },
        }
    }
}

/// The subjects the node carrying `id` assigns to `slot`, in row order;
/// empty when no node carries the id.
pub open spec fn spec_get_slot(s: Seq<Node>, id: EntityId, slot: EntityId) -> Seq<EntityId> {
    if has_node(s, id) {
        slot_subjects(s[idx_of(s, id)].assignments@, slot)
    } else {
        Seq::empty()
    }
}

impl Schedule {
    /// A fresh snapshot head around a caller-allocated id.
    pub fn new(id: EntityId, parent: Option<EntityId>, name: Option<String>) -> (r: Schedule)
        ensures
            r.id == id,
            r.parent == parent,
            r.name == name,
    {
        Schedule { id, parent, name }
    }

    /// Look a snapshot up by id. Re-resolving the same id against the same
    /// store always yields the same head data, and the store is untouched.
    pub fn resolve(store: &ScheduleStore, id: EntityId) -> (r: Result<Schedule, Error>)
        ensures
            resolve_post(store@, id, r),
    {
        if !matches!(id.kind, EntityKind::Schedule) {
            return Err(Error::Input);
        }
        match store.find_index(id) {
            Option::Some(i) => {
                let n = &store.nodes[i];
                let name = match &n.name {
                    Option::Some(s) => Option::Some(s.clone()),
                    Option::None => Option::None,
                };
                Ok(Schedule { id: n.id, parent: n.parent, name })
            },
            Option::None => Err(Error::NotFound),
        }
    }

    /// Commit this head into the store, or overwrite the parent link and
    /// label of an already committed node with the same id.
    pub fn upsert(&self, store: &mut ScheduleStore) -> (r: Result<(), Error>)
        requires
            old(store).wf(),
        ensures
            final(store).wf(),
            upsert_post(old(store)@, final(store)@, *self, r),
    {
        let ghost s0 = store@;
        if !matches!(self.id.kind, EntityKind::Schedule) {
            return Err(Error::Input);
        }
        let parent_index: Option<usize> = match self.parent {
            Option::Some(p) => {
                match store.find_index(p) {
                    Option::Some(j) => Option::Some(j),
                    Option::None => {
                        return Err(Error::NotFound);
                    },
                }
            },
            Option::None => Option::None,
        };
        let name = match &self.name {
            Option::Some(s) => Option::Some(s.clone()),
            Option::None => Option::None,
        };
        match store.find_index(self.id) {
            Option::None => {
                let node = Node {
                    id: self.id,
                    parent: self.parent,
                    name,
                    assignments: Vec::new(),
                };
                store.nodes.push(node);
                proof {
                    let s1 = store@;
                    assert forall|i: int| 0 <= i < s1.len() implies #[trigger] parent_precedes(
                        s1,
                        i,
                    ) by {
                        if i < s0.len() {
                            assert(parent_precedes(s0, i));
                            if let Option::Some(p) = s0[i].parent {
                                let j = choose|j: int| 0 <= j < i && s0[j].id == p;
                                assert(s1[j].id == p);
                            }
                        } else {
                            if let Option::Some(p) = self.parent {
                                let j = idx_of(s0, p);
                                assert(s1[j].id == p);
                            }
                        }
                    }
                }
                Ok(())
            },
            Option::Some(i) => {
                if let Option::Some(j) = parent_index {
                    if j >= i {
                        return Err(Error::DataIntegrity);
                    }
                }
                store.nodes[i].parent = self.parent;
                store.nodes[i].name = name;
                proof {
                    let s1 = store@;
                    assert forall|k: int| 0 <= k < s1.len() implies #[trigger] parent_precedes(
                        s1,
                        k,
                    ) by {
                        if k != i {
                            assert(parent_precedes(s0, k));
                            if let Option::Some(p) = s0[k].parent {
                                let j = choose|j: int| 0 <= j < k && s0[j].id == p;
                                assert(s1[j].id == p);
                            }
                        } else {
                            if let Option::Some(p) = self.parent {
                                let j = idx_of(s0, p);
                                assert(s1[j].id == p);
                            }
                        }
                    }
                }
                Ok(())
            },
        }
    }

    /// Resolve whichever snapshot the current-pointer names; an unset
    /// pointer is reported as `NotFound`.
    pub fn fetch_current(store: &ScheduleStore, params: &Parameters) -> (r: Result<
        Schedule,
        Error,
    >)
        ensures
            match params.schedule {
                Option::Some(id) => resolve_post(store@, id, r),
                Option::None => r == Result::<Schedule, Error>::Err(Error::NotFound),
            },
    {
        match params.schedule {
            Option::Some(id) => Schedule::resolve(store, id),
            Option::None => Err(Error::NotFound),
        }
    }

    /// Assignments to the subject within this node only, not its ancestors;
    /// a head whose id is not committed owns no rows.
    pub fn count(&self, subject: EntityId, store: &ScheduleStore) -> (r: u64)
        ensures
            r == own_count(store@, self.id, subject),
    {
        match store.find_index(self.id) {
            Option::Some(i) => {
                proof {
                    lemma_count_matching_bounds(store@[i as int].assignments@, subject);
                }
                store.count_at(i, subject)
            },
            Option::None => 0,
        }
    }

    /// Sum of `count` over this node and every ancestor up to the root,
    /// saturated at the widest machine counter. One committed node is read
    /// per hop; the walk terminates because every parent precedes its child
    /// in commit order.
    pub fn count_total(&self, subject: EntityId, store: &ScheduleStore) -> (r: Result<u64, Error>)
        requires
            store.wf(),
        ensures
            count_total_post(store@, self.id, self.parent, subject, r),
    {
        let own = self.count(subject, store);
        match self.parent {
            Option::None => Ok(own),
            Option::Some(p) => {
                match store.find_index(p) {
                    Option::None => Err(Error::NotFound),
                    Option::Some(j) => {
                        let rest = store.walk_total(j, subject);
                        proof {
                            lemma_chain_bounds(store@, j as int, subject);
                            assert(sat64(own + sat64(chain_total(store@, j as int, subject)))
                                == sat64(own + chain_total(store@, j as int, subject)));
                        }
                        Ok(own.saturating_add(rest))
                    },
                }
            },
        }
    }

    /// Number of nodes back toward the root (0 = this node) at which the
    /// subject first shows up; `None` when it never appears on the chain.
    /// The walk short-circuits at the first node with a positive count.
    pub fn last_scheduled(&self, subject: EntityId, store: &ScheduleStore) -> (r: Result<
        Option<u64>,
        Error,
    >)
        requires
            store.wf(),
        ensures
            last_scheduled_post(store@, self.id, self.parent, subject, r),
    {
        let own = self.count(subject, store);
        if own > 0 {
            return Ok(Some(0));
        }
        match self.parent {
            Option::None => Ok(None),
            Option::Some(p) => {
                match store.find_index(p) {
                    Option::None => Err(Error::NotFound),
                    Option::Some(j) => {
                        let n_total = store.nodes.len();
                        proof {
                            assert(store@.len() == n_total as int);
                            lemma_chain_bounds(store@, j as int, subject);
                        }
                        match store.walk_last(j, subject) {
                            Option::Some(h) => Ok(Some(h + 1)),
                            Option::None => Ok(None),
                        }
                    },
                }
            },
        }
    }

    /// The subjects this node itself assigns to the slot, in row order;
    /// used for display and export, not for aggregation. Re-running it
    /// against the same store always returns the same list.
    pub fn get_slot(&self, slot: EntityId, store: &ScheduleStore) -> (r: Vec<EntityId>)
        ensures
            r@ == spec_get_slot(store@, self.id, slot),
    {
        let mut out: Vec<EntityId> = Vec::new();
        match store.find_index(self.id) {
            Option::None => out,
            Option::Some(i) => {
                let a = &store.nodes[i].assignments;
                let n = a.len();
                let mut k: usize = 0;
                while k < n
                    invariant
                        n == a@.len(),
                        0 <= k <= n,
                        out@ == slot_subjects(a@.take(k as int), slot),
                    decreases n - k,
                {
                    proof {
                        assert(a@.take(k as int + 1).drop_last() =~= a@.take(k as int));
                        assert(a@.take(k as int + 1).last() == a@[k as int]);
                    }
                    if a[k].slot == slot {
                        out.push(a[k].subject);
                    }
                    k = k + 1;
                }
                proof {
                    assert(a@.take(n as int) =~= a@);
                }
                out
            },
        }
    }

    /// Append one assignment row to this snapshot's node. The caller is
    /// responsible for not double-assigning a subject within one node; no
    /// uniqueness is enforced at this layer.
    pub fn add(&self, slot: EntityId, subject: EntityId, store: &mut ScheduleStore) -> (r: Result<
        (),
        Error,
    >)
        requires
            old(store).wf(),
        ensures
            final(store).wf(),
            add_post(old(store)@, final(store)@, self.id, slot, subject, r),
    {
        let ghost s0 = store@;
        if !matches!(slot.kind, EntityKind::Slot) || !matches!(subject.kind, EntityKind::Subject) {
            return Err(Error::Input);
        }
        match store.find_index(self.id) {
            Option::None => Err(Error::NotFound),
            Option::Some(i) => {
                store.nodes[i].assignments.push(Assignment { slot, subject });
                proof {
                    let s1 = store@;
                    assert forall|k: int| 0 <= k < s1.len() implies #[trigger] parent_precedes(
                        s1,
                        k,
                    ) by {
                        assert(parent_precedes(s0, k));
                        assert(s1[k].parent == s0[k].parent);
                        if let Option::Some(p) = s0[k].parent {
                            let j = choose|j: int| 0 <= j < k && s0[j].id == p;
                            assert(s1[j].id == p);
                        }
                    }
                }
                Ok(())
            },
        }
    }
}

} // verus!
