//! Positions in the list of children of an implicit parent element.
//!
//! A [`DomSlot`] is the place before a given node, the end of the list, or
//! the current target of a [`DynamicDomSlot`]. Dynamic slots live in a
//! [`DomSlots`] arena; reassigning one is seen by every slot chained to it.

use vstd::prelude::*;

verus! {

/// A position among the children of an implicit parent.
#[derive(Debug, Clone, Copy, PartialEq, Eq, Structural)]
pub enum DomSlot {
    /// Before the node with this host id, or at the end for `None`.
    Node(Option<i32>),
    /// Wherever the dynamic slot with this index points.
    Chained(usize),
}

/// A dynamic slot: a handle into the arena.
#[derive(Debug, Clone, Copy, PartialEq, Eq, Structural)]
pub struct DynamicDomSlot {
    index: usize,
}

impl View for DynamicDomSlot {
    type V = usize;

    closed spec fn view(&self) -> usize {
        self.index
    }
}

/// The targets of all dynamic slots.
pub struct DomSlots {
    targets: Vec<DomSlot>,
}

impl View for DomSlots {
    type V = Seq<DomSlot>;

    closed spec fn view(&self) -> Seq<DomSlot> {
        self.targets@
    }
}

/// The next sibling a slot denotes, following at most `fuel` chain links;
/// `None` when the chain is longer or leaves the arena.
pub open spec fn resolve(targets: Seq<DomSlot>, s: DomSlot, fuel: nat) -> Option<Option<i32>>
    decreases fuel,
{
    match s {
        DomSlot::Node(n) => Some(n),
        DomSlot::Chained(i) => if fuel == 0 || i >= targets.len() {
            None
        } else {
            resolve(targets, targets[i as int], (fuel - 1) as nat)
        },
    }
}

proof fn lemma_resolve_more_fuel(targets: Seq<DomSlot>, s: DomSlot, fuel: nat, more: nat)
    requires
        resolve(targets, s, fuel) is Some,
        fuel <= more,
    ensures
        resolve(targets, s, more) == resolve(targets, s, fuel),
    decreases fuel,
{
    if let DomSlot::Chained(i) = s {
        lemma_resolve_more_fuel(targets, targets[i as int], (fuel - 1) as nat, (more - 1) as nat);
    }
}

impl DomSlot {
    /// The position just before the given node.
    pub fn at(next_sibling: i32) -> (s: DomSlot)
        ensures
            s == DomSlot::Node(Some(next_sibling)),
    {
        DomSlot::create(Some(next_sibling))
    }

    /// The position at the end of the list.
    pub fn at_end() -> (s: DomSlot)
        ensures
            s == DomSlot::Node(None),
    {
        DomSlot::create(None)
    }

    /// The position before `next_sibling`, or at the end for `None`.
    pub fn create(next_sibling: Option<i32>) -> (s: DomSlot)
        ensures
            s == DomSlot::Node(next_sibling),
    {
        DomSlot::Node(next_sibling)
    }

    /// The next sibling this position denotes, following chained dynamic
    /// slots; `None` inside for the end of the list.
    pub fn next_sibling(self, slots: &DomSlots) -> (r: Option<i32>)
        requires
            resolve(slots@, self, slots@.len()) is Some,
        ensures
            Some(r) == resolve(slots@, self, slots@.len()),
    {
        let n = slots.targets.len();
        let mut cur = self;
        let mut fuel: usize = n;
        loop
            invariant
                n == slots@.len(),
                fuel <= n,
                resolve(slots@, cur, fuel as nat) == resolve(slots@, self, n as nat),
                resolve(slots@, cur, fuel as nat) is Some,
            decreases fuel,
        {
            match cur {
                DomSlot::Node(sib) => {
                    return sib;
                },
                DomSlot::Chained(i) => {
                    cur = slots.targets[i];
                    fuel = fuel - 1;
                },
            }
        }
    }

    /// The next sibling this position denotes, or `None` when its chain of
    /// dynamic slots leaves the arena or runs in a circle.
    pub fn try_next_sibling(self, slots: &DomSlots) -> (r: Option<Option<i32>>)
        ensures
            r == resolve(slots@, self, slots@.len()),
    {
        let n = slots.targets.len();
        let mut cur = self;
        let mut fuel: usize = n;
        loop
            invariant
                n == slots@.len(),
                fuel <= n,
                resolve(slots@, cur, fuel as nat) == resolve(slots@, self, n as nat),
            decreases fuel,
        {
            match cur {
                DomSlot::Node(sib) => {
                    return Some(sib);
                },
                DomSlot::Chained(i) => {
                    if fuel == 0 || i >= n {
                        return None;
                    }
                    cur = slots.targets[i];
                    fuel = fuel - 1;
                },
            }
        }
    }

    /// The `ref_child` argument of the host's `insert_before` for this
    /// position: the next sibling, or `-1` to append.
    pub fn insert_ref_child(self, slots: &DomSlots) -> (r: i32)
        requires
            resolve(slots@, self, slots@.len()) is Some,
        ensures
            r == (match resolve(slots@, self, slots@.len())->0 {
                Some(id) => id as int,
                None => -1int,
            }),
    {
        match self.next_sibling(slots) {
            Some(id) => id,
            None => -1,
        }
    }
}

impl DomSlots {
    /// An arena with no dynamic slot.
    pub fn new() -> (s: DomSlots)
        ensures
            s@ == Seq::<DomSlot>::empty(),
    {
        DomSlots { targets: Vec::new() }
    }
}

impl DynamicDomSlot {
    /// A dynamic slot that targets `initial_position`.
    pub fn new(slots: &mut DomSlots, initial_position: DomSlot) -> (d: DynamicDomSlot)
        ensures
            d@ == old(slots)@.len(),
            final(slots)@ == old(slots)@.push(initial_position),
    {
        let index = slots.targets.len();
        slots.targets.push(initial_position);
        DynamicDomSlot { index }
    }

    /// Makes this slot target `next_position`; every position chained to it
    /// follows.
    pub fn reassign(&self, slots: &mut DomSlots, next_position: DomSlot)
        requires
            self@ < old(slots)@.len(),
        ensures
            final(slots)@ == old(slots)@.update(self@ as int, next_position),
    {
        slots.targets.set(self.index, next_position);
    }

    /// A position that follows this slot's target, reassignments included.
    pub fn to_position(&self) -> (s: DomSlot)
        ensures
            s == DomSlot::Chained(self@),
    {
        DomSlot::Chained(self.index)
    }
}

/// A position taken from a dynamic slot before a reassignment denotes the
/// new target afterwards.
pub proof fn lemma_position_follows_reassign(
    targets: Seq<DomSlot>,
    d: usize,
    next: DomSlot,
    fuel: nat,
)
    requires
        d < targets.len(),
        resolve(targets.update(d as int, next), next, fuel) is Some,
    ensures
        resolve(targets.update(d as int, next), DomSlot::Chained(d), fuel + 1) == resolve(
            targets.update(d as int, next),
            next,
            fuel,
        ),
{
}


/// One link followed: a chained slot moves to its dynamic slot's target;
/// a node, or a chain leaving the arena, stays.
pub open spec fn step(targets: Seq<DomSlot>, s: DomSlot) -> DomSlot {
    match s {
        DomSlot::Chained(i) => if i < targets.len() {
            targets[i as int]
        } else {
            s
        },
        DomSlot::Node(_) => s,
    }
}

/// The slot reached after following `k` links.
pub open spec fn walk(targets: Seq<DomSlot>, s: DomSlot, k: nat) -> DomSlot
    decreases k,
{
    if k == 0 {
        s
    } else {
        walk(targets, step(targets, s), (k - 1) as nat)
    }
}

proof fn lemma_resolve_walk(targets: Seq<DomSlot>, s: DomSlot, f: nat)
    ensures
        resolve(targets, s, f) == (match walk(targets, s, f) {
            DomSlot::Node(n) => Some(n),
            DomSlot::Chained(_) => None::<Option<i32>>,
        }),
    decreases f,
{
    if f > 0 {
        lemma_resolve_walk(targets, step(targets, s), (f - 1) as nat);
        match s {
            DomSlot::Node(n) => {
                lemma_walk_node(targets, n, (f - 1) as nat);
            },
            DomSlot::Chained(i) => {
                if i >= targets.len() {
                    lemma_walk_stuck(targets, i, (f - 1) as nat);
                }
            },
        }
    }
}

proof fn lemma_walk_node(targets: Seq<DomSlot>, n: Option<i32>, k: nat)
    ensures
        walk(targets, DomSlot::Node(n), k) == DomSlot::Node(n),
    decreases k,
{
    if k > 0 {
        lemma_walk_node(targets, n, (k - 1) as nat);
    }
}

proof fn lemma_walk_stuck(targets: Seq<DomSlot>, i: usize, k: nat)
    requires
        i >= targets.len(),
    ensures
        walk(targets, DomSlot::Chained(i), k) == DomSlot::Chained(i),
    decreases k,
{
    if k > 0 {
        lemma_walk_stuck(targets, i, (k - 1) as nat);
    }
}

proof fn lemma_walk_add(targets: Seq<DomSlot>, s: DomSlot, a: nat, b: nat)
    ensures
        walk(targets, s, a + b) == walk(targets, walk(targets, s, a), b),
    decreases a,
{
    if a > 0 {
        lemma_walk_add(targets, step(targets, s), (a - 1) as nat, b);
        assert((a - 1) as nat + b == (a + b - 1) as nat);
    }
}

/// Once the walk reaches a node it stays there.
proof fn lemma_walk_node_stays(targets: Seq<DomSlot>, s: DomSlot, a: nat, b: nat)
    requires
        a <= b,
        walk(targets, s, a) is Node,
    ensures
        walk(targets, s, b) == walk(targets, s, a),
{
    lemma_walk_add(targets, s, a, (b - a) as nat);
    lemma_walk_node(targets, walk(targets, s, a)->Node_0, (b - a) as nat);
}

/// The walk that avoids slot `d` and reaches a node within `f` links
/// reaches it within as many links as the arena has other slots.
proof fn lemma_walk_short(targets: Seq<DomSlot>, s: DomSlot, f: nat, d: int)
    requires
        walk(targets, s, f) is Node,
        0 <= d < targets.len(),
        forall|j: nat| #[trigger] walk(targets, s, j) != DomSlot::Chained(d as usize),
    ensures
        walk(targets, s, (targets.len() - 1) as nat) is Node,
{
    let len = targets.len();
    // The first link count at which the walk stands on a node.
    let m = lemma_first_node(targets, s, f);
    if m > len - 1 {
        // Every slot before `m` is a chained slot inside the arena, not `d`.
        assert forall|j: nat| j < m implies #[trigger] walk(targets, s, j) matches DomSlot::Chained(i) && i
            < len && i != d by {
            match walk(targets, s, j) {
                DomSlot::Node(_) => {},
                DomSlot::Chained(i) => {
                    if i >= len {
                        lemma_walk_add(targets, s, j, (m - j) as nat);
                        lemma_walk_stuck(targets, i, (m - j) as nat);
                    }
                },
            }
        }
        let idx = Seq::new(m, |j: int| walk(targets, s, j as nat)->Chained_0 as int);
        if idx.no_duplicates() {
            idx.unique_seq_to_set();
            let r = vstd::set_lib::set_int_range(0, len as int).remove(d);
            vstd::set_lib::lemma_int_range(0, len as int);
            assert forall|x: int| idx.to_set().contains(x) implies r.contains(x) by {
                let j = choose|j: int| 0 <= j < idx.len() && idx[j] == x;
                assert(walk(targets, s, j as nat) matches DomSlot::Chained(i) && i < len && i != d);
            }
            vstd::set_lib::lemma_len_subset(idx.to_set(), r);
        } else {
            let (a, b) = choose|a: int, b: int| 0 <= a < idx.len() && 0 <= b < idx.len() && a != b && idx[a] == idx[b];
            let (a, b) = if a < b {
                (a, b)
            } else {
                (b, a)
            };
            assert(walk(targets, s, a as nat) matches DomSlot::Chained(_));
            assert(walk(targets, s, b as nat) matches DomSlot::Chained(_));
            assert(walk(targets, s, a as nat) == walk(targets, s, b as nat));
            lemma_walk_add(targets, s, a as nat, (m - b) as nat);
            lemma_walk_add(targets, s, b as nat, (m - b) as nat);
            assert(b as nat + (m - b) as nat == m);
            assert(walk(targets, s, (a + m - b) as nat) is Node);
        }
    } else {
        lemma_walk_node_stays(targets, s, m, (len - 1) as nat);
    }
}

/// The first link count at which a walk that reaches a node stands on one.
proof fn lemma_first_node(targets: Seq<DomSlot>, s: DomSlot, f: nat) -> (m: nat)
    requires
        walk(targets, s, f) is Node,
    ensures
        m <= f,
        walk(targets, s, m) is Node,
        forall|j: nat| j < m ==> !(#[trigger] walk(targets, s, j) is Node),
    decreases f,
{
    if f == 0 {
        0
    } else if walk(targets, s, (f - 1) as nat) is Node {
        lemma_first_node(targets, s, (f - 1) as nat)
    } else {
        assert forall|j: nat| j < f implies !(#[trigger] walk(targets, s, j) is Node) by {
            if walk(targets, s, j) is Node {
                lemma_walk_node_stays(targets, s, j, (f - 1) as nat);
            }
        }
        f
    }
}

/// A walk that comes back to where it started never reaches a node when it
/// does not start on one.
proof fn lemma_walk_cycle(targets: Seq<DomSlot>, s: DomSlot, q: nat, f: nat)
    requires
        q > 0,
        walk(targets, s, q) == s,
        s is Chained,
    ensures
        !(walk(targets, s, f) is Node),
    decreases f,
{
    if f >= q {
        lemma_walk_add(targets, s, q, (f - q) as nat);
        lemma_walk_cycle(targets, s, q, (f - q) as nat);
    } else if walk(targets, s, f) is Node {
        lemma_walk_node_stays(targets, s, f, q);
    }
}

/// After dynamic slot `d` is pointed at `next`, a position chained to `d`
/// denotes what `next` denotes, whenever `next` resolves in the arena.
pub proof fn lemma_reassigned_slot_follows_target(targets: Seq<DomSlot>, d: usize, next: DomSlot)
    requires
        d < targets.len(),
        resolve(targets.update(d as int, next), next, targets.len()) is Some,
    ensures
        resolve(targets.update(d as int, next), DomSlot::Chained(d), targets.len()) == resolve(
            targets.update(d as int, next),
            next,
            targets.len(),
        ),
{
    let t = targets.update(d as int, next);
    let len = targets.len();
    lemma_resolve_walk(t, next, len);
    // The walk from `next` never passes `d`, or it would come back to `next`.
    assert forall|j: nat| #[trigger] walk(t, next, j) != DomSlot::Chained(d) by {
        if walk(t, next, j) == DomSlot::Chained(d) {
            lemma_walk_add(t, next, j, 1);
            assert(walk(t, DomSlot::Chained(d), 0) == DomSlot::Chained(d));
            assert(step(t, DomSlot::Chained(d)) == next);
            assert(walk(t, DomSlot::Chained(d), 1) == walk(t, next, 0));
            if next is Chained {
                lemma_walk_cycle(t, next, j + 1, len);
            } else {
                lemma_walk_node(t, next->Node_0, j);
            }
        }
    }
    lemma_walk_short(t, next, len, d as int);
    lemma_walk_node_stays(t, next, (len - 1) as nat, len);
    lemma_resolve_walk(t, next, (len - 1) as nat);
}
} // verus!
