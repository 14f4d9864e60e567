//! Reconciliation of a child list with its mounted bundles.
//!
//! A mounted list keeps its bundles in reverse render order. Reconciling it
//! with a new list of children decides, for each new child, whether it
//! patches an existing bundle or attaches a new one, which bundles are
//! shifted, and which are detached. The decision is returned as a plan of
//! operations over indices; the embedding renderer performs them on the real
//! bundles, in order, with a writer that starts at the list's slot and moves
//! one place back with every patch or attach.

use vstd::prelude::*;
use crate::key::{Key, key_eq};
use crate::list_order::{detaches_first, lemma_plan_shows_children, perform, reuse_in_order, shown};
use crate::list_moves::{
    dom_state, lemma_dom_start, lemma_dom_detach, lemma_dom_patch, lemma_dom_attach,
    lemma_dom_shift_patch, lemma_dom_commit, lemma_dom_final, lemma_run_start, lemma_run_step,
    lemma_run_done, run_state,
};

verus! {

/// A bundle that an operation refers to: an old one, by its index in the old
/// reversed bundle list, or the one attached for a new child, by the
/// child's index.
#[derive(Debug, Clone, Copy, PartialEq, Eq)]
pub enum BundleRef {
    Old(usize),
    New(usize),
}

/// One step of a reconciliation plan.
#[derive(Debug, Clone, Copy, PartialEq, Eq)]
pub enum ChildOp {
    /// Detach the old bundle with this index.
    Detach(usize),
    /// Reconcile the new child `child` into the old bundle `bundle` at the
    /// writer's place; the writer moves on.
    Patch { child: usize, bundle: usize },
    /// Attach the new child with this index at the writer's place; the
    /// writer moves on.
    Attach(usize),
    /// Move a bundle, without patching it, to the place the writer had after
    /// `at` patches and attaches.
    Shift { target: BundleRef, at: usize },
}

/// A reconciliation plan: the operations in order, and for each new child
/// the old bundle it reuses (`None` when it is attached fresh).
pub struct ReconcilePlan {
    pub ops: Vec<ChildOp>,
    pub sources: Vec<Option<usize>>,
}

/// The patches and attaches of an operation list, in order: the child
/// written, and the old bundle it reuses.
pub open spec fn writes(ops: Seq<ChildOp>) -> Seq<(usize, Option<usize>)>
    decreases ops.len(),
{
    if ops.len() == 0 {
        Seq::empty()
    } else {
        let w = writes(ops.drop_last());
        match ops.last() {
            ChildOp::Patch { child, bundle } => w.push((child, Some(bundle))),
            ChildOp::Attach(child) => w.push((child, None)),
            _ => w,
        }
    }
}

/// How many times an operation list detaches old bundle `b`.
pub open spec fn detach_count(ops: Seq<ChildOp>, b: usize) -> nat
    decreases ops.len(),
{
    if ops.len() == 0 {
        0
    } else {
        detach_count(ops.drop_last(), b) + (if ops.last() == ChildOp::Detach(b) {
            1nat
        } else {
            0nat
        })
    }
}

/// Old bundle `b` is reused by some new child.
pub open spec fn reused(sources: Seq<Option<usize>>, b: usize) -> bool {
    exists|i: int| 0 <= i < sources.len() && sources[i] == Some(b)
}

/// A shift moves a bundle that the plan keeps (a reused old bundle or an
/// attached new one) to a writer place that exists when the shift runs.
pub open spec fn shift_ok(op: ChildOp, written: nat, sources: Seq<Option<usize>>) -> bool {
    match op {
        ChildOp::Shift { target, at } => at <= written && match target {
            BundleRef::Old(b) => reused(sources, b),
            BundleRef::New(i) => 0 <= i < sources.len() && sources[i as int] is None,
        },
        _ => true,
    }
}

/// What every plan guarantees: each new child is written exactly once, from
/// the last to the first; reused bundles are distinct old bundles; every old
/// bundle that is not reused is detached exactly once and no other bundle
/// is detached; shifts only move kept bundles.
pub open spec fn plan_sound(ops: Seq<ChildOp>, sources: Seq<Option<usize>>, n: nat, m: nat) -> bool {
    &&& sources.len() == n
    &&& writes(ops) == Seq::new(n, |k: int| ((n - 1 - k) as usize, sources[n - 1 - k]))
    &&& forall|i: int| #![trigger sources[i]] 0 <= i < n && sources[i] is Some ==> sources[i]->0 < m
    &&& forall|i: int, j: int|
        #![trigger sources[i], sources[j]]
        0 <= i < n && 0 <= j < n && i != j && sources[i] is Some ==> sources[i] != sources[j]
    &&& forall|b: usize| #![trigger detach_count(ops, b)]
        b < m ==> detach_count(ops, b) == (if reused(sources, b) {
            0nat
        } else {
            1nat
        })
    &&& forall|b: usize| #![trigger detach_count(ops, b)] b >= m ==> detach_count(ops, b) == 0
    &&& forall|k: int|
        #![trigger ops[k]]
        0 <= k < ops.len() ==> shift_ok(ops[k], writes(ops.take(k)).len(), sources)
}

/// The plan moves no bundle.
pub open spec fn no_shift(ops: Seq<ChildOp>) -> bool {
    forall|k: int| 0 <= k < ops.len() ==> !(#[trigger] ops[k] is Shift)
}

/// The reused old bundles keep their old order: a later child reuses a
/// bundle that stood later among the old children (a lower index in the
/// reversed old list).
pub open spec fn order_kept(sources: Seq<Option<usize>>) -> bool {
    forall|c1: int, c2: int|
        #![trigger sources[c1], sources[c2]]
        0 <= c1 < c2 < sources.len() && sources[c1] is Some && sources[c2] is Some ==> sources[c2]->0
            < sources[c1]->0
}

/// Either no bundle has been moved, or the reused bundles are out of their
/// old order.
pub open spec fn shifts_justified(ops: Seq<ChildOp>, sources: Seq<Option<usize>>) -> bool {
    no_shift(ops) || !order_kept(sources)
}

proof fn lemma_justified_write(ops: Seq<ChildOp>, sources: Seq<Option<usize>>, op: ChildOp, p: int, v: Option<usize>)
    requires
        shifts_justified(ops, sources),
        !(op is Shift),
        0 <= p < sources.len(),
        sources[p] is None,
    ensures
        shifts_justified(ops.push(op), sources.update(p, v)),
{
    if no_shift(ops) {
        assert forall|k: int| 0 <= k < ops.push(op).len() implies !(#[trigger] ops.push(op)[k] is Shift) by {
            if k < ops.len() {
                assert(ops.push(op)[k] == ops[k]);
            }
        }
    } else {
        let (c1, c2) = choose|c1: int, c2: int|
            0 <= c1 < c2 < sources.len() && sources[c1] is Some && sources[c2] is Some && !(
            sources[c2]->0 < sources[c1]->0);
        let t = sources.update(p, v);
        assert(t[c1] == sources[c1] && t[c2] == sources[c2]);
    }
}

/// Writing reused bundle `b` at `p` before a written child `c` that reuses
/// a bundle at least `b` puts the reused bundles out of their old order.
proof fn lemma_write_breaks_order(sources: Seq<Option<usize>>, p: int, c: int, b: usize)
    requires
        0 <= p < c < sources.len(),
        sources[c] matches Some(b2) && b2 >= b,
    ensures
        !order_kept(sources.update(p, Some(b))),
{
    let t = sources.update(p, Some(b));
    assert(t[p] is Some && t[c] is Some && t[c]->0 >= t[p]->0);
}

/// The positional pairing of an unkeyed reconciliation: counted from the
/// end of the list, the `j`-th child reuses the `j`-th bundle.
pub open spec fn unkeyed_source(n: nat, m: nat, i: int) -> Option<usize> {
    if n - 1 - i < m {
        Some((n - 1 - i) as usize)
    } else {
        None
    }
}

proof fn lemma_push_op(ops: Seq<ChildOp>, op: ChildOp)
    ensures
        writes(ops.push(op)) == (match op {
            ChildOp::Patch { child, bundle } => writes(ops).push((child, Some(bundle))),
            ChildOp::Attach(child) => writes(ops).push((child, None)),
            _ => writes(ops),
        }),
        forall|b: usize| #[trigger]
            detach_count(ops.push(op), b) == detach_count(ops, b) + (if op == ChildOp::Detach(b) {
                1nat
            } else {
                0nat
            }),
        forall|k: int| 0 <= k <= ops.len() ==> #[trigger] ops.push(op).take(k) == ops.take(k),
        ops.push(op).take(ops.len() as int) == ops,
{
    assert(ops.push(op).drop_last() =~= ops);
    assert forall|k: int| 0 <= k <= ops.len() implies #[trigger] ops.push(op).take(k) == ops.take(
        k,
    ) by {
        assert(ops.push(op).take(k) =~= ops.take(k));
    }
    assert(ops.push(op).take(ops.len() as int) =~= ops);
}

fn none_sources(n: usize) -> (s: Vec<Option<usize>>)
    ensures
        s.len() == n,
        forall|i: int| 0 <= i < n ==> #[trigger] s@[i] is None,
{
    let mut s: Vec<Option<usize>> = Vec::new();
    while s.len() < n
        invariant
            s.len() <= n,
            forall|i: int| 0 <= i < s.len() ==> #[trigger] s@[i] is None,
        decreases n - s.len(),
    {
        s.push(None);
    }
    s
}

/// Plans an unkeyed reconciliation of `n` new children with `m` mounted
/// bundles: surplus bundles are detached, then bundles and children are
/// paired from the end of the list, and the children left over are
/// attached.
pub fn plan_unkeyed(n: usize, m: usize) -> (p: ReconcilePlan)
    ensures
        plan_sound(p.ops@, p.sources@, n as nat, m as nat),
        forall|i: int| 0 <= i < n ==> #[trigger] p.sources@[i] == unkeyed_source(n as nat, m as nat, i),
        detaches_first(p.ops@),
        no_shift(p.ops@),
        perform(p.ops@, m as nat).0 == shown(p.sources@),
{
    let mut ops: Vec<ChildOp> = Vec::new();
    let sources = none_sources(n);
    let mut sources = sources;
    // Remove extra bundles.
    let mut j: usize = n;
    while j < m
        invariant
            n <= j <= m || (m < n && j == n),
            j >= n,
            sources.len() == n,
            forall|i: int| 0 <= i < n ==> #[trigger] sources@[i] is None,
            writes(ops@) == Seq::<(usize, Option<usize>)>::empty(),
            forall|b: usize| #[trigger]
                detach_count(ops@, b) == (if n <= b < j {
                    1nat
                } else {
                    0nat
                }),
            forall|k: int| 0 <= k < ops@.len() ==> #[trigger] ops@[k] is Detach,
        decreases m - j,
    {
        proof {
            lemma_push_op(ops@, ChildOp::Detach(j));
        }
        ops.push(ChildOp::Detach(j));
        j = j + 1;
    }
    let ghost detached_ops = ops@;
    let common: usize = if n < m {
        n
    } else {
        m
    };
    // Patch bundles and children from the end of the list.
    let mut w: usize = 0;
    while w < n
        invariant
            w <= n,
            common == (if n < m {
                n
            } else {
                m
            }),
            sources.len() == n,
            forall|i: int|
                0 <= i < n ==> #[trigger] sources@[i] == (if i >= n - w {
                    unkeyed_source(n as nat, m as nat, i)
                } else {
                    None
                }),
            writes(ops@) == Seq::new(
                w as nat,
                |k: int| ((n - 1 - k) as usize, sources@[n - 1 - k]),
            ),
            forall|b: usize| #[trigger]
                detach_count(ops@, b) == (if n <= b < m {
                    1nat
                } else {
                    0nat
                }),
            forall|k: int| 0 <= k < ops@.len() ==> !(#[trigger] ops@[k] is Shift),
            detached_ops.len() <= ops@.len(),
            forall|k: int| 0 <= k < ops@.len() ==> (#[trigger] ops@[k] is Detach <==> k < detached_ops.len()),
        decreases n - w,
    {
        let child: usize = n - 1 - w;
        let op = if w < common {
            ChildOp::Patch { child, bundle: w }
        } else {
            ChildOp::Attach(child)
        };
        let ghost old_sources = sources@;
        let ghost old_ops = ops@;
        if w < common {
            sources.set(child, Some(w));
        }
        proof {
            lemma_push_op(ops@, op);
        }
        ops.push(op);
        proof {
            assert forall|k: int| 0 <= k < ops@.len() implies !(#[trigger] ops@[k] is Shift) && (
            ops@[k] is Detach <==> k < detached_ops.len()) by {
                if k < old_ops.len() {
                    assert(ops@[k] == old_ops[k]);
                }
            }
            assert(writes(ops@) =~= Seq::new(
                (w + 1) as nat,
                |k: int| ((n - 1 - k) as usize, sources@[n - 1 - k]),
            ));
        }
        w = w + 1;
    }
    proof {
        let s = sources@;
        assert forall|i: int, k: int|
            0 <= i < n && 0 <= k < n && i != k && s[i] is Some implies #[trigger] s[i] != #[trigger] s[k] by {
        }
        assert forall|b: usize| b < m implies #[trigger] detach_count(ops@, b) == (if reused(s, b) {
            0nat
        } else {
            1nat
        }) by {
            if b < n {
                let i = n - 1 - b;
                assert(s[i] == Some(b));
            } else {
                if reused(s, b) {
                    let i = choose|i: int| 0 <= i < s.len() && s[i] == Some(b);
                    assert(s[i] == unkeyed_source(n as nat, m as nat, i));
                }
            }
        }
        assert(reuse_in_order(s));
        lemma_plan_shows_children(ops@, s, n as nat, m as nat);
    }
    ReconcilePlan { ops, sources }
}


/// Old bundle `b` has neither been reused nor detached yet.
pub open spec fn pending(ops: Seq<ChildOp>, owner: Seq<int>, b: int) -> bool {
    owner[b] == -1 && detach_count(ops, b as usize) == 0
}

/// Old bundle `b` has been reused or detached.
pub open spec fn settled(ops: Seq<ChildOp>, owner: Seq<int>, b: int) -> bool {
    (owner[b] >= 0 && detach_count(ops, b as usize) == 0) || (owner[b] == -1 && detach_count(
        ops,
        b as usize,
    ) == 1)
}

/// A shift recorded so far is valid in the current state: its target is
/// kept, and its writer place exists.
pub open spec fn shift_ok_now(
    op: ChildOp,
    written: nat,
    sources: Seq<Option<usize>>,
    owner: Seq<int>,
    n: nat,
    w: nat,
) -> bool {
    match op {
        ChildOp::Shift { target, at } => at <= written && match target {
            BundleRef::Old(b) => b < owner.len() && owner[b as int] >= 0,
            BundleRef::New(i) => n - w <= i < n && sources[i as int] is None,
        },
        _ => true,
    }
}

/// A bundle kept in the middle part of a keyed reconciliation.
pub open spec fn kept_ok(r: BundleRef, sources: Seq<Option<usize>>, owner: Seq<int>, n: nat, w: nat) -> bool {
    match r {
        BundleRef::Old(b) => b < owner.len() && owner[b as int] >= 0,
        BundleRef::New(i) => n - w <= i < n && sources[i as int] is None,
    }
}

/// The state of a plan under construction after `w` writes: `owner[b]` is
/// the child that reuses old bundle `b`, or -1.
pub open spec fn plan_state(
    ops: Seq<ChildOp>,
    sources: Seq<Option<usize>>,
    owner: Seq<int>,
    n: nat,
    m: nat,
    w: nat,
) -> bool {
    &&& sources.len() == n
    &&& owner.len() == m
    &&& n <= usize::MAX
    &&& m <= usize::MAX
    &&& w <= n
    &&& writes(ops) == Seq::new(w, |k: int| ((n - 1 - k) as usize, sources[n - 1 - k]))
    &&& forall|i: int| #![trigger sources[i]] 0 <= i < n - w ==> sources[i] is None
    &&& forall|i: int|
        #![trigger sources[i]]
        0 <= i < n && sources[i] is Some ==> sources[i]->0 < m && owner[sources[i]->0 as int] == i
    &&& forall|b: int|
        #![trigger owner[b]]
        0 <= b < m ==> -1 <= owner[b] < n && (owner[b] >= 0 ==> sources[owner[b]] == Some(
            b as usize,
        ))
    &&& forall|b: usize|
        #![trigger detach_count(ops, b)]
        b < m ==> detach_count(ops, b) <= 1 && (owner[b as int] >= 0 ==> detach_count(ops, b)
            == 0)
    &&& forall|b: usize| #![trigger detach_count(ops, b)] b >= m ==> detach_count(ops, b) == 0
    &&& forall|k: int|
        #![trigger ops[k]]
        0 <= k < ops.len() ==> shift_ok_now(ops[k], writes(ops.take(k)).len(), sources, owner, n, w)
}

proof fn lemma_plan_state_start(n: nat, m: nat, sources: Seq<Option<usize>>)
    requires
        sources.len() == n,
        n <= usize::MAX,
        m <= usize::MAX,
        forall|i: int| 0 <= i < n ==> #[trigger] sources[i] is None,
    ensures
        plan_state(Seq::empty(), sources, Seq::new(m, |b: int| -1int), n, m, 0),
{
    let owner = Seq::new(m, |b: int| -1int);
    assert(writes(Seq::<ChildOp>::empty()) =~= Seq::new(
        0,
        |k: int| ((n - 1 - k) as usize, sources[n - 1 - k]),
    ));
}

proof fn lemma_writes_extend(
    ops: Seq<ChildOp>,
    sources: Seq<Option<usize>>,
    n: nat,
    w: nat,
    bundle: Option<usize>,
)
    requires
        w < n,
        n <= usize::MAX,
        sources.len() == n,
        writes(ops) == Seq::new(w, |k: int| ((n - 1 - k) as usize, sources[n - 1 - k])),
    ensures
        ({
            let child = (n - 1 - w) as usize;
            let op = match bundle {
                Some(b) => ChildOp::Patch { child, bundle: b },
                None => ChildOp::Attach(child),
            };
            let sources2 = sources.update(child as int, bundle);
            writes(ops.push(op)) == Seq::new(
                w + 1,
                |k: int| ((n - 1 - k) as usize, sources2[n - 1 - k]),
            )
        }),
{
    let child = (n - 1 - w) as usize;
    let op = match bundle {
        Some(b) => ChildOp::Patch { child, bundle: b },
        None => ChildOp::Attach(child),
    };
    let sources2 = sources.update(child as int, bundle);
    lemma_push_op(ops, op);
    let lhs = writes(ops.push(op));
    let rhs = Seq::new(w + 1, |k: int| ((n - 1 - k) as usize, sources2[n - 1 - k]));
    assert(lhs.len() == rhs.len());
    assert forall|k: int| 0 <= k < w + 1 implies lhs[k] == rhs[k] by {
        if k < w {
            assert(n - 1 - k != child);
            assert(lhs[k] == writes(ops)[k]);
        }
    }
    assert(lhs =~= rhs);
}

#[verifier::rlimit(40)]
proof fn lemma_plan_state_write(
    ops: Seq<ChildOp>,
    sources: Seq<Option<usize>>,
    owner: Seq<int>,
    n: nat,
    m: nat,
    w: nat,
    bundle: Option<usize>,
)
    requires
        plan_state(ops, sources, owner, n, m, w),
        w < n,
        bundle matches Some(b) ==> b < m && pending(ops, owner, b as int),
    ensures
        ({
            let child = (n - 1 - w) as usize;
            let op = match bundle {
                Some(b) => ChildOp::Patch { child, bundle: b },
                None => ChildOp::Attach(child),
            };
            let sources2 = sources.update(child as int, bundle);
            let owner2 = match bundle {
                Some(b) => owner.update(b as int, child as int),
                None => owner,
            };
            plan_state(ops.push(op), sources2, owner2, n, m, w + 1)
        }),
{
    let child = (n - 1 - w) as usize;
    let op = match bundle {
        Some(b) => ChildOp::Patch { child, bundle: b },
        None => ChildOp::Attach(child),
    };
    let sources2 = sources.update(child as int, bundle);
    let owner2 = match bundle {
        Some(b) => owner.update(b as int, child as int),
        None => owner,
    };
    let ops2 = ops.push(op);
    lemma_push_op(ops, op);
    lemma_writes_extend(ops, sources, n, w, bundle);
    assert(sources[child as int] is None);
    assert forall|i: int| #![trigger sources2[i]] 0 <= i < n - (w + 1) implies sources2[i] is None by {
        assert(sources2[i] == sources[i]);
    }
    assert forall|i: int|
        #![trigger sources2[i]]
        0 <= i < n && sources2[i] is Some implies sources2[i]->0 < m && owner2[sources2[i]->0 as int]
        == i by {
        if i != child {
            assert(sources2[i] == sources[i]);
            let b0 = sources[i]->0;
            if let Some(b) = bundle {
                assert(owner[b as int] == -1);
                assert(owner[b0 as int] == i);
                assert(b0 != b);
            }
        }
    }
    assert forall|b: int|
        #![trigger owner2[b]]
        0 <= b < m implies -1 <= owner2[b] < n && (owner2[b] >= 0 ==> sources2[owner2[b]] == Some(
            b as usize,
        )) by {
        assert(-1 <= owner[b] < n);
        if owner2[b] >= 0 && owner2[b] != child {
            assert(owner2[b] == owner[b]);
            assert(sources[owner[b]] == Some(b as usize));
            assert(owner[b] != child);
        }
    }
    assert forall|c: usize|
        #![trigger detach_count(ops2, c)]
        c < m implies detach_count(ops2, c) <= 1 && (owner2[c as int] >= 0 ==> detach_count(ops2, c)
        == 0) by {
        assert(detach_count(ops2, c) == detach_count(ops, c));
        if owner2[c as int] >= 0 && owner[c as int] < 0 {
            assert(bundle == Some(c));
        }
    }
    assert forall|c: usize| #![trigger detach_count(ops2, c)] c >= m implies detach_count(ops2, c)
        == 0 by {
        assert(detach_count(ops2, c) == detach_count(ops, c));
    }
    assert forall|k: int|
        #![trigger ops2[k]]
        0 <= k < ops2.len() implies shift_ok_now(
        ops2[k],
        writes(ops2.take(k)).len(),
        sources2,
        owner2,
        n,
        w + 1,
    ) by {
        if k < ops.len() {
            assert(ops2[k] == ops[k]);
            assert(ops2.take(k) == ops.take(k));
            assert(shift_ok_now(ops[k], writes(ops.take(k)).len(), sources, owner, n, w));
            if let ChildOp::Shift { target, at } = ops[k] {
                match target {
                    BundleRef::New(i) => {
                        assert(i != child);
                        assert(sources2[i as int] == sources[i as int]);
                    },
                    BundleRef::Old(b) => {
                        assert(owner[b as int] >= 0);
                        if let Some(bb) = bundle {
                            assert(bb != b);
                        }
                    },
                }
            }
        }
    }
}

proof fn lemma_plan_state_detach(
    ops: Seq<ChildOp>,
    sources: Seq<Option<usize>>,
    owner: Seq<int>,
    n: nat,
    m: nat,
    w: nat,
    b: usize,
)
    requires
        plan_state(ops, sources, owner, n, m, w),
        b < m,
        pending(ops, owner, b as int),
    ensures
        plan_state(ops.push(ChildOp::Detach(b)), sources, owner, n, m, w),
        detach_count(ops.push(ChildOp::Detach(b)), b) == 1,
        forall|c: usize| c != b ==> #[trigger] detach_count(ops.push(ChildOp::Detach(b)), c) == detach_count(ops, c),
{
    let ops2 = ops.push(ChildOp::Detach(b));
    lemma_push_op(ops, ChildOp::Detach(b));
    assert forall|k: int|
        #![trigger ops2[k]]
        0 <= k < ops2.len() implies shift_ok_now(
        ops2[k],
        writes(ops2.take(k)).len(),
        sources,
        owner,
        n,
        w,
    ) by {
        if k < ops.len() {
            assert(ops2[k] == ops[k]);
            assert(ops2.take(k) == ops.take(k));
        }
    }
}

#[verifier::rlimit(30)]
proof fn lemma_plan_state_shift(
    ops: Seq<ChildOp>,
    sources: Seq<Option<usize>>,
    owner: Seq<int>,
    n: nat,
    m: nat,
    w: nat,
    target: BundleRef,
    at: usize,
)
    requires
        plan_state(ops, sources, owner, n, m, w),
        at <= w,
        kept_ok(target, sources, owner, n, w),
    ensures
        plan_state(ops.push(ChildOp::Shift { target, at }), sources, owner, n, m, w),
        forall|c: usize| #[trigger] detach_count(ops.push(ChildOp::Shift { target, at }), c) == detach_count(ops, c),
{
    let op = ChildOp::Shift { target, at };
    let ops2 = ops.push(op);
    lemma_push_op(ops, op);
    assert(writes(ops).len() == w);
    assert forall|k: int|
        #![trigger ops2[k]]
        0 <= k < ops2.len() implies shift_ok_now(
        ops2[k],
        writes(ops2.take(k)).len(),
        sources,
        owner,
        n,
        w,
    ) by {
        if k < ops.len() {
            assert(ops2[k] == ops[k]);
            assert(ops2.take(k) == ops.take(k));
        } else {
            assert(ops2.take(k) == ops);
        }
    }
}

proof fn lemma_plan_state_finish(
    ops: Seq<ChildOp>,
    sources: Seq<Option<usize>>,
    owner: Seq<int>,
    n: nat,
    m: nat,
)
    requires
        plan_state(ops, sources, owner, n, m, n),
        forall|b: int| 0 <= b < m ==> #[trigger] settled(ops, owner, b),
    ensures
        plan_sound(ops, sources, n, m),
{
    assert forall|i: int, j: int|
        #![trigger sources[i], sources[j]]
        0 <= i < n && 0 <= j < n && i != j && sources[i] is Some implies sources[i] != sources[j] by {
        let b = sources[i]->0;
        assert(owner[b as int] == i);
    }
    assert forall|b: usize| #![trigger detach_count(ops, b)] b < m implies detach_count(ops, b) == (
    if reused(sources, b) {
        0nat
    } else {
        1nat
    }) by {
        assert(settled(ops, owner, b as int));
        if owner[b as int] >= 0 {
            assert(sources[owner[b as int]] == Some(b));
        } else {
            if reused(sources, b) {
                let i = choose|i: int| 0 <= i < sources.len() && sources[i] == Some(b);
                assert(owner[b as int] == i);
            }
        }
    }
    assert forall|k: int|
        #![trigger ops[k]]
        0 <= k < ops.len() implies shift_ok(ops[k], writes(ops.take(k)).len(), sources) by {
        assert(shift_ok_now(ops[k], writes(ops.take(k)).len(), sources, owner, n, n));
        if let ChildOp::Shift { target, at } = ops[k] {
            if let BundleRef::Old(b) = target {
                assert(sources[owner[b as int]] == Some(b));
            }
        }
    }
}


proof fn lemma_plan_state_shift_patch(
    ops: Seq<ChildOp>,
    sources: Seq<Option<usize>>,
    owner: Seq<int>,
    n: nat,
    m: nat,
    w: nat,
    b: usize,
)
    requires
        plan_state(ops, sources, owner, n, m, w),
        w < n,
        b < m,
        pending(ops, owner, b as int),
    ensures
        ({
            let child = (n - 1 - w) as usize;
            let ops2 = ops.push(ChildOp::Shift { target: BundleRef::Old(b), at: w as usize }).push(
                ChildOp::Patch { child, bundle: b },
            );
            plan_state(
                ops2,
                sources.update(child as int, Some(b)),
                owner.update(b as int, child as int),
                n,
                m,
                w + 1,
            )
        }),
{
    let child = (n - 1 - w) as usize;
    let shift = ChildOp::Shift { target: BundleRef::Old(b), at: w as usize };
    let patch = ChildOp::Patch { child, bundle: b };
    let ops1 = ops.push(shift);
    let ops2 = ops1.push(patch);
    let opsp = ops.push(patch);
    let sources2 = sources.update(child as int, Some(b));
    let owner2 = owner.update(b as int, child as int);
    lemma_plan_state_write(ops, sources, owner, n, m, w, Some(b));
    lemma_push_op(ops, shift);
    lemma_push_op(ops1, patch);
    lemma_push_op(ops, patch);
    assert(writes(ops2) == writes(opsp));
    assert forall|c: usize| #[trigger] detach_count(ops2, c) == detach_count(opsp, c) by {}
    assert(writes(ops).len() == w);
    assert forall|k: int|
        #![trigger ops2[k]]
        0 <= k < ops2.len() implies shift_ok_now(
        ops2[k],
        writes(ops2.take(k)).len(),
        sources2,
        owner2,
        n,
        w + 1,
    ) by {
        if k < ops.len() {
            assert(ops2[k] == opsp[k]);
            assert(ops2.take(k) == ops1.take(k));
            assert(ops1.take(k) == ops.take(k));
            assert(opsp.take(k) == ops.take(k));
        } else if k == ops.len() {
            assert(ops2.take(k) == ops1.take(k));
            assert(ops1.take(k) == ops);
        }
    }
}

proof fn lemma_kept_write(
    r: BundleRef,
    sources: Seq<Option<usize>>,
    owner: Seq<int>,
    n: nat,
    w: nat,
    bundle: Option<usize>,
)
    requires
        kept_ok(r, sources, owner, n, w),
        w < n,
        n <= usize::MAX,
        sources.len() == n,
        bundle matches Some(b) ==> b < owner.len() && owner[b as int] == -1,
    ensures
        ({
            let child = (n - 1 - w) as usize;
            let owner2 = match bundle {
                Some(b) => owner.update(b as int, child as int),
                None => owner,
            };
            kept_ok(r, sources.update(child as int, bundle), owner2, n, w + 1)
        }),
{
}

/// The number of keys that agree when the new keys are read from the end
/// and the old (reversed) keys from the start.
fn matching_len_end(new_keys: &Vec<Key>, old_keys: &Vec<Key>) -> (r: usize)
    ensures
        r <= new_keys.len(),
        r <= old_keys.len(),
        forall|j: int| 0 <= j < r ==> #[trigger] new_keys@[new_keys.len() - 1 - j]@ == old_keys@[j]@,
        r < new_keys.len() && r < old_keys.len() ==> new_keys@[new_keys.len() - 1 - r]@
            != old_keys@[r as int]@,
{
    let n = new_keys.len();
    let m = old_keys.len();
    let mut r: usize = 0;
    while r < n && r < m
        invariant
            n == new_keys.len(),
            m == old_keys.len(),
            r <= n,
            r <= m,
            forall|j: int| 0 <= j < r ==> #[trigger] new_keys@[n - 1 - j]@ == old_keys@[j]@,
        decreases n - r,
    {
        if !key_eq(&new_keys[n - 1 - r], &old_keys[r]) {
            return r;
        }
        r = r + 1;
    }
    r
}

/// The number of keys that agree when the first `upto` new keys are read
/// from the start and the old (reversed) keys from the end.
fn matching_len_start(new_keys: &Vec<Key>, upto: usize, old_keys: &Vec<Key>) -> (r: usize)
    requires
        upto <= new_keys.len(),
    ensures
        r <= upto,
        r <= old_keys.len(),
        forall|t: int| 0 <= t < r ==> #[trigger] new_keys@[t]@ == old_keys@[old_keys.len() - 1 - t]@,
        r < upto && r < old_keys.len() ==> new_keys@[r as int]@ != old_keys@[old_keys.len() - 1 - r]@,
{
    let m = old_keys.len();
    let mut r: usize = 0;
    while r < upto && r < m
        invariant
            m == old_keys.len(),
            upto <= new_keys.len(),
            r <= upto,
            r <= m,
            forall|t: int| 0 <= t < r ==> #[trigger] new_keys@[t]@ == old_keys@[m - 1 - t]@,
        decreases upto - r,
    {
        if !key_eq(&new_keys[r], &old_keys[m - 1 - r]) {
            return r;
        }
        r = r + 1;
    }
    r
}

/// Finds a still available bundle of the middle part with the given key.
fn find_available(avail: &Vec<bool>, old_keys: &Vec<Key>, base: usize, key: &Key) -> (r: Option<
    usize,
>)
    requires
        base + avail.len() <= old_keys.len(),
    ensures
        r matches Some(j) ==> j < avail.len() && avail@[j as int] && old_keys@[base + j]@ == key@,
        r is None ==> forall|j: int|
            0 <= j < avail.len() && #[trigger] avail@[j] ==> old_keys@[base + j]@ != key@,
{
    let mut j: usize = 0;
    while j < avail.len()
        invariant
            base + avail.len() <= old_keys.len(),
            j <= avail.len(),
            forall|t: int| 0 <= t < j && #[trigger] avail@[t] ==> old_keys@[base + t]@ != key@,
        decreases avail.len() - j,
    {
        if avail[j] && key_eq(&old_keys[base + j], key) {
            return Some(j);
        }
        j = j + 1;
    }
    None
}

/// A run of in-order reused bundles in the middle part.
#[derive(Clone, Copy)]
struct RunInfo {
    start_writer: usize,
    start_idx: usize,
    end_idx: usize,
}

/// The old bundles of a keyed plan have the keys of the children that
/// reuse them.
pub open spec fn keys_agree(sources: Seq<Option<usize>>, new_keys: Seq<Key>, old_keys: Seq<Key>) -> bool {
    forall|i: int|
        #![trigger sources[i]]
        0 <= i < sources.len() && sources[i] is Some ==> old_keys[sources[i]->0 as int]@
            == new_keys[i]@
}


/// The keys agree all along the shorter list when the new keys are read
/// from the end and the old (reversed) ones from the start.
pub open spec fn agree_from_end(new_keys: Seq<Key>, old_keys: Seq<Key>) -> bool {
    forall|j: int|
        0 <= j < new_keys.len() && 0 <= j < old_keys.len() ==> #[trigger] new_keys[new_keys.len()
            - 1 - j]@ == old_keys[j]@
}

/// The keys are distinct.
pub open spec fn keys_distinct(ks: Seq<Key>) -> bool {
    forall|i: int, j: int| 0 <= i < j < ks.len() ==> (#[trigger] ks[i])@ != (#[trigger] ks[j])@
}

/// Of the last `w` children, those attached fresh have a key that no old
/// bundle has.
pub open spec fn attached_only_unmatched(
    sources: Seq<Option<usize>>,
    new_keys: Seq<Key>,
    old_keys: Seq<Key>,
    w: int,
) -> bool {
    forall|c: int|
        #![trigger sources[c]]
        new_keys.len() - w <= c < new_keys.len() && sources[c] is None ==> forall|b: int|
            0 <= b < old_keys.len() ==> (#[trigger] old_keys[b])@ != new_keys[c]@
}

/// A plan under construction, with the ghost owner of each old bundle.
struct PlanBuilder {
    ops: Vec<ChildOp>,
    sources: Vec<Option<usize>>,
    w: usize,
    owner: Ghost<Seq<int>>,
    n: Ghost<nat>,
    m: Ghost<nat>,
}

impl PlanBuilder {
    spec fn inv(&self) -> bool {
        plan_state(self.ops@, self.sources@, self.owner@, self.n@, self.m@, self.w as nat)
    }

    spec fn pending(&self, b: int) -> bool {
        0 <= b < self.m@ && pending(self.ops@, self.owner@, b)
    }

    spec fn settled(&self, b: int) -> bool {
        0 <= b < self.m@ && settled(self.ops@, self.owner@, b)
    }

    spec fn kept(&self, r: BundleRef) -> bool {
        kept_ok(r, self.sources@, self.owner@, self.n@, self.w as nat)
    }

    spec fn dom(&self, bar: nat, s: nat, bar2: nat) -> bool {
        dom_state(self.ops@, self.sources@, self.owner@, self.n@, self.m@, self.w as nat, bar, s, bar2)
    }

    /// Only `b` may have changed from `old` to `self`, and `b` is settled.
    spec fn same_but(&self, old: &PlanBuilder, b: Option<usize>) -> bool {
        &&& self.n@ == old.n@
        &&& self.m@ == old.m@
        &&& forall|c: int|
            #![trigger self.owner@[c]]
            0 <= c < self.m@ && (b is None || c != b->0) ==> (self.pending(c) == old.pending(c)
                && self.settled(c) == old.settled(c) && self.owner@[c] == old.owner@[c])
        &&& forall|r: BundleRef| old.kept(r) ==> #[trigger] self.kept(r)
    }

    fn new(n: usize, m: usize) -> (b: PlanBuilder)
        ensures
            b.inv(),
            b.w == 0,
            b.n@ == n,
            b.m@ == m,
            forall|c: int| 0 <= c < m ==> #[trigger] b.pending(c),
            b.sources@.len() == n,
            forall|i: int| 0 <= i < n ==> #[trigger] b.sources@[i] is None,
            b.dom(0, 0, 0),
    {
        let sources = none_sources(n);
        proof {
            lemma_plan_state_start(n as nat, m as nat, sources@);
            lemma_dom_start(sources@, Seq::new(m as nat, |b: int| -1int), n as nat, m as nat);
        }
        PlanBuilder {
            ops: Vec::new(),
            sources,
            w: 0,
            owner: Ghost(Seq::new(m as nat, |b: int| -1int)),
            n: Ghost(n as nat),
            m: Ghost(m as nat),
        }
    }

    /// Writes the next child (counted from the end): patches it into old
    /// bundle `bundle`, or attaches it when there is none.
    fn write(&mut self, bundle: Option<usize>)
        requires
            old(self).inv(),
            old(self).w < old(self).n@,
            bundle matches Some(b) ==> old(self).pending(b as int),
        ensures
            final(self).inv(),
            final(self).w == old(self).w + 1,
            final(self).sources@ == old(self).sources@.update(
                (old(self).n@ - 1 - old(self).w) as int,
                bundle,
            ),
            final(self).same_but(old(self), bundle),
            bundle matches Some(b) ==> final(self).settled(b as int) && final(self).owner@[b as int] >= 0
                && final(self).owner@[b as int] == old(self).n@ - 1 - old(self).w,
            final(self).ops@ == old(self).ops@.push(
                match bundle {
                    Some(b) => ChildOp::Patch { child: (old(self).n@ - 1 - old(self).w) as usize, bundle: b },
                    None => ChildOp::Attach((old(self).n@ - 1 - old(self).w) as usize),
                },
            ),
            final(self).owner@ == (match bundle {
                Some(b) => old(self).owner@.update(b as int, old(self).n@ - 1 - old(self).w),
                None => old(self).owner@,
            }),
            shifts_justified(old(self).ops@, old(self).sources@) ==> shifts_justified(
                final(self).ops@,
                final(self).sources@,
            ),
    {
        let child: usize = self.sources.len() - 1 - self.w;
        let op = match bundle {
            Some(b) => ChildOp::Patch { child, bundle: b },
            None => ChildOp::Attach(child),
        };
        proof {
            lemma_plan_state_write(
                self.ops@,
                self.sources@,
                self.owner@,
                self.n@,
                self.m@,
                self.w as nat,
                bundle,
            );
            lemma_push_op(self.ops@, op);
            let w = self.w as nat;
            let n = self.n@;
            let owner2 = match bundle {
                Some(b) => self.owner@.update(b as int, child as int),
                None => self.owner@,
            };
            let sources2 = self.sources@.update(child as int, bundle);
            assert forall|r: BundleRef| self.kept(r) implies #[trigger] kept_ok(
                r,
                sources2,
                owner2,
                n,
                w + 1,
            ) by {
                lemma_kept_write(r, self.sources@, self.owner@, n, w, bundle);
            }
        }
        proof {
            if shifts_justified(self.ops@, self.sources@) {
                lemma_justified_write(self.ops@, self.sources@, op, child as int, bundle);
            }
        }
        self.sources.set(child, bundle);
        self.ops.push(op);
        proof {
            if let Some(b) = bundle {
                self.owner@ = self.owner@.update(b as int, child as int);
            }
        }
        self.w = self.w + 1;
    }

    /// Shifts old bundle `b` to the writer's place, then writes the next
    /// child into it.
    fn shift_and_write(&mut self, b: usize)
        requires
            old(self).inv(),
            old(self).w < old(self).n@,
            old(self).pending(b as int),
        ensures
            final(self).inv(),
            final(self).w == old(self).w + 1,
            final(self).sources@ == old(self).sources@.update(
                (old(self).n@ - 1 - old(self).w) as int,
                Some(b),
            ),
            final(self).same_but(old(self), Some(b)),
            final(self).settled(b as int),
            final(self).owner@[b as int] >= 0,
            final(self).owner@[b as int] == old(self).n@ - 1 - old(self).w,
            final(self).ops@ == old(self).ops@.push(
                ChildOp::Shift { target: BundleRef::Old(b), at: old(self).w },
            ).push(ChildOp::Patch { child: (old(self).n@ - 1 - old(self).w) as usize, bundle: b }),
            final(self).owner@ == old(self).owner@.update(b as int, old(self).n@ - 1 - old(self).w),
            forall|c: int|
                old(self).n@ - 1 - old(self).w < c < old(self).n@ && (#[trigger] old(self).sources@[c] matches Some(
                    b2,
                ) && b2 >= b) ==> !order_kept(final(self).sources@),
    {
        let child: usize = self.sources.len() - 1 - self.w;
        let w = self.w;
        proof {
            assert forall|c: int|
                self.n@ - 1 - self.w < c < self.n@ && (#[trigger] self.sources@[c] matches Some(b2) && b2
                    >= b) implies !order_kept(self.sources@.update(child as int, Some(b))) by {
                lemma_write_breaks_order(self.sources@, child as int, c, b);
            }
        }
        proof {
            lemma_plan_state_shift_patch(
                self.ops@,
                self.sources@,
                self.owner@,
                self.n@,
                self.m@,
                self.w as nat,
                b,
            );
            let ops0 = self.ops@;
            let s1 = ops0.push(ChildOp::Shift { target: BundleRef::Old(b), at: w });
            lemma_push_op(ops0, ChildOp::Shift { target: BundleRef::Old(b), at: w });
            lemma_push_op(s1, ChildOp::Patch { child, bundle: b });
            assert forall|r: BundleRef| self.kept(r) implies #[trigger] kept_ok(
                r,
                self.sources@.update(child as int, Some(b)),
                self.owner@.update(b as int, child as int),
                self.n@,
                w as nat + 1,
            ) by {
                lemma_kept_write(r, self.sources@, self.owner@, self.n@, w as nat, Some(b));
            }
        }
        self.ops.push(ChildOp::Shift { target: BundleRef::Old(b), at: w });
        self.sources.set(child, Some(b));
        self.ops.push(ChildOp::Patch { child, bundle: b });
        proof {
            self.owner@ = self.owner@.update(b as int, child as int);
        }
        self.w = self.w + 1;
    }

    /// Detaches old bundle `b`.
    fn detach(&mut self, b: usize)
        requires
            old(self).inv(),
            old(self).pending(b as int),
        ensures
            final(self).inv(),
            final(self).w == old(self).w,
            final(self).sources@ == old(self).sources@,
            final(self).same_but(old(self), Some(b)),
            final(self).settled(b as int),
            final(self).ops@ == old(self).ops@.push(ChildOp::Detach(b)),
            final(self).owner@ == old(self).owner@,
            shifts_justified(old(self).ops@, old(self).sources@) ==> shifts_justified(
                final(self).ops@,
                final(self).sources@,
            ),
    {
        proof {
            lemma_plan_state_detach(
                self.ops@,
                self.sources@,
                self.owner@,
                self.n@,
                self.m@,
                self.w as nat,
                b,
            );
        }
        proof {
            if no_shift(self.ops@) {
                assert forall|k: int| 0 <= k < self.ops@.push(ChildOp::Detach(b)).len() implies !(
                #[trigger] self.ops@.push(ChildOp::Detach(b))[k] is Shift) by {
                    if k < self.ops@.len() {
                        assert(self.ops@.push(ChildOp::Detach(b))[k] == self.ops@[k]);
                    }
                }
            }
        }
        self.ops.push(ChildOp::Detach(b));
    }

    /// Shifts a kept bundle to the writer's place after `at` writes.
    fn shift(&mut self, target: BundleRef, at: usize)
        requires
            old(self).inv(),
            old(self).kept(target),
            at <= old(self).w,
        ensures
            final(self).inv(),
            final(self).w == old(self).w,
            final(self).sources@ == old(self).sources@,
            final(self).same_but(old(self), None),
            final(self).ops@ == old(self).ops@.push(ChildOp::Shift { target, at }),
            final(self).owner@ == old(self).owner@,
    {
        proof {
            lemma_plan_state_shift(
                self.ops@,
                self.sources@,
                self.owner@,
                self.n@,
                self.m@,
                self.w as nat,
                target,
                at,
            );
        }
        self.ops.push(ChildOp::Shift { target, at });
    }
}


/// Step 1 of a keyed plan: patch the children whose keys agree at the end.
fn patch_matching_end(pb: &mut PlanBuilder, new_keys: &Vec<Key>, old_keys: &Vec<Key>, mle: usize)
    requires
        shifts_justified(old(pb).ops@, old(pb).sources@),
        old(pb).inv(),
        old(pb).w == 0,
        old(pb).n@ == new_keys.len(),
        old(pb).m@ == old_keys.len(),
        mle <= new_keys.len(),
        mle <= old_keys.len(),
        forall|j: int| 0 <= j < mle ==> #[trigger] new_keys@[new_keys.len() - 1 - j]@ == old_keys@[j]@,
        forall|c: int| 0 <= c < old_keys.len() ==> #[trigger] old(pb).pending(c),
        keys_agree(old(pb).sources@, new_keys@, old_keys@),
        old(pb).dom(0, 0, 0),
    ensures
        shifts_justified(final(pb).ops@, final(pb).sources@),
        final(pb).dom(mle as nat, mle as nat, mle as nat),
        final(pb).inv(),
        final(pb).w == mle,
        final(pb).n@ == old(pb).n@,
        final(pb).m@ == old(pb).m@,
        forall|c: int| 0 <= c < mle ==> #[trigger] final(pb).settled(c),
        forall|c: int| mle <= c < old_keys.len() ==> #[trigger] final(pb).pending(c),
        keys_agree(final(pb).sources@, new_keys@, old_keys@),
        attached_only_unmatched(final(pb).sources@, new_keys@, old_keys@, mle as int),
{
    let n = new_keys.len();
    let m = old_keys.len();
    let mut j: usize = 0;
    while j < mle
        invariant
            shifts_justified(pb.ops@, pb.sources@),
            pb.inv(),
            pb.w == j,
            j <= mle,
            mle <= n,
            mle <= m,
            n == new_keys.len(),
            m == old_keys.len(),
            pb.n@ == n,
            pb.m@ == m,
            forall|t: int| 0 <= t < mle ==> #[trigger] new_keys@[n - 1 - t]@ == old_keys@[t]@,
            forall|c: int| 0 <= c < j ==> #[trigger] pb.settled(c),
            forall|c: int| j <= c < m ==> #[trigger] pb.pending(c),
            keys_agree(pb.sources@, new_keys@, old_keys@),
            forall|c: int| n - j <= c < n ==> (#[trigger] pb.sources@[c]) is Some,
            pb.dom(j as nat, j as nat, j as nat),
        decreases mle - j,
    {
        let ghost before = *pb;
        proof {
            assert(pb.pending(j as int));
            lemma_dom_patch(
                pb.ops@,
                pb.sources@,
                pb.owner@,
                n as nat,
                m as nat,
                j as nat,
                j as nat,
                j as nat,
                j as nat,
                j,
            );
        }
        pb.write(Some(j));
        proof {
            assert forall|c: int| 0 <= c < j + 1 implies #[trigger] pb.settled(c) by {
                if c < j {
                    assert(before.settled(c));
                    assert(pb.owner@[c] == pb.owner@[c]);
                }
            }
            assert forall|c: int| j + 1 <= c < m implies #[trigger] pb.pending(c) by {
                assert(before.pending(c));
                assert(pb.owner@[c] == pb.owner@[c]);
            }
            assert forall|i: int|
                #![trigger pb.sources@[i]]
                0 <= i < pb.sources@.len() && pb.sources@[i] is Some implies old_keys@[pb.sources@[i]->0 as int]@
                == new_keys@[i]@ by {
                if i != n - 1 - j {
                    assert(pb.sources@[i] == before.sources@[i]);
                }
            }
            assert forall|c: int| n - (j + 1) <= c < n implies (#[trigger] pb.sources@[c]) is Some by {
                if c != n - 1 - j {
                    assert(pb.sources@[c] == before.sources@[c]);
                }
            }
        }
        j = j + 1;
    }
}

/// Step 2.1 of a keyed plan: collect the middle bundles by key. Of bundles
/// with equal keys the last one stays available; the earlier ones are
/// detached.
fn collect_middle(pb: &mut PlanBuilder, old_keys: &Vec<Key>, mle: usize, mid_len: usize) -> (avail:
    Vec<bool>)
    requires
        shifts_justified(old(pb).ops@, old(pb).sources@),
        old(pb).inv(),
        old(pb).m@ == old_keys.len(),
        mle + mid_len <= old_keys.len(),
        forall|c: int| mle <= c < mle + mid_len ==> #[trigger] old(pb).pending(c),
        old(pb).dom(mle as nat, old(pb).w as nat, mle as nat),
    ensures
        shifts_justified(final(pb).ops@, final(pb).sources@),
        final(pb).dom(mle as nat, final(pb).w as nat, mle as nat),
        final(pb).inv(),
        final(pb).w == old(pb).w,
        final(pb).sources@ == old(pb).sources@,
        final(pb).n@ == old(pb).n@,
        final(pb).m@ == old(pb).m@,
        avail.len() == mid_len,
        forall|t: int|
            0 <= t < mid_len ==> (#[trigger] avail@[t] ==> final(pb).pending(mle + t)) && (!avail@[t]
                ==> final(pb).settled(mle + t)),
        forall|c: int|
            #![trigger final(pb).owner@[c]]
            0 <= c < old_keys.len() && !(mle <= c < mle + mid_len) ==> (final(pb).pending(c)
                == old(pb).pending(c) && final(pb).settled(c) == old(pb).settled(c)),
        forall|r: BundleRef| old(pb).kept(r) ==> #[trigger] final(pb).kept(r),
        forall|a: int, b: int|
            0 <= a < b < mid_len && #[trigger] avail@[a] && #[trigger] avail@[b] ==> old_keys@[mle
                + a]@ != old_keys@[mle + b]@,
        keys_distinct(old_keys@) ==> forall|t: int| 0 <= t < mid_len ==> #[trigger] avail@[t],
{
    let mut avail: Vec<bool> = Vec::new();
    while avail.len() < mid_len
        invariant
            shifts_justified(pb.ops@, pb.sources@),
            avail.len() <= mid_len,
            forall|t: int| 0 <= t < avail.len() ==> !#[trigger] avail@[t],
        decreases mid_len - avail.len(),
    {
        avail.push(false);
    }
    let ghost start = *pb;
    let mut idx: usize = 0;
    while idx < mid_len
        invariant
            shifts_justified(pb.ops@, pb.sources@),
            pb.inv(),
            pb.w == start.w,
            pb.sources@ == start.sources@,
            pb.n@ == start.n@,
            pb.m@ == start.m@,
            pb.m@ == old_keys.len(),
            mle + mid_len <= old_keys.len(),
            avail.len() == mid_len,
            idx <= mid_len,
            forall|t: int| idx <= t < mid_len ==> !#[trigger] avail@[t],
            forall|t: int|
                0 <= t < idx ==> (#[trigger] avail@[t] ==> pb.pending(mle + t)) && (!avail@[t]
                    ==> pb.settled(mle + t)),
            forall|c: int| mle + idx <= c < mle + mid_len ==> #[trigger] pb.pending(c),
            forall|c: int|
                #![trigger pb.owner@[c]]
                0 <= c < old_keys.len() && !(mle <= c < mle + mid_len) ==> (pb.pending(c)
                    == start.pending(c) && pb.settled(c) == start.settled(c)),
            forall|r: BundleRef| start.kept(r) ==> #[trigger] pb.kept(r),
            forall|a: int, b: int|
                0 <= a < b < idx && #[trigger] avail@[a] && #[trigger] avail@[b] ==> old_keys@[mle
                    + a]@ != old_keys@[mle + b]@,
            keys_distinct(old_keys@) ==> forall|t: int| 0 <= t < idx ==> #[trigger] avail@[t],
            pb.dom(mle as nat, pb.w as nat, mle as nat),
        decreases mid_len - idx,
    {
        let found = find_available(&avail, old_keys, mle, &old_keys[mle + idx]);
        proof {
            if keys_distinct(old_keys@) && found is Some {
                let j = found->0;
                assert(old_keys@[mle + j]@ == old_keys@[mle + idx]@);
                assert(mle + j < mle + idx);
            }
        }
        let ghost before = *pb;
        let ghost avail_before = avail@;
        if let Some(j) = found {
            let b: usize = mle + j;
            proof {
                lemma_dom_detach(
                    pb.ops@,
                    pb.sources@,
                    pb.owner@,
                    pb.n@,
                    pb.m@,
                    pb.w as nat,
                    mle as nat,
                    pb.w as nat,
                    mle as nat,
                    b,
                );
            }
            pb.detach(b);
            avail.set(j, false);
        }
        avail.set(idx, true);
        proof {
            assert forall|t: int|
                0 <= t < idx + 1 implies (#[trigger] avail@[t] ==> pb.pending(mle + t)) && (!avail@[t]
                ==> pb.settled(mle + t)) by {
                if t < idx && (found is None || t != found->0) {
                    assert(avail@[t] == avail_before[t]);
                    assert(pb.owner@[mle + t] == pb.owner@[mle + t]);
                }
                if t == idx {
                    assert(before.pending(mle + t));
                    assert(pb.owner@[mle + t] == pb.owner@[mle + t]);
                }
            }
            assert forall|c: int| mle + idx + 1 <= c < mle + mid_len implies #[trigger] pb.pending(c) by {
                assert(before.pending(c));
                assert(pb.owner@[c] == pb.owner@[c]);
            }
            assert forall|c: int|
                #![trigger pb.owner@[c]]
                0 <= c < old_keys.len() && !(mle <= c < mle + mid_len) implies (pb.pending(c)
                == start.pending(c) && pb.settled(c) == start.settled(c)) by {
                assert(before.pending(c) == start.pending(c));
                assert(before.owner@[c] == before.owner@[c]);
            }
            assert forall|a: int, b: int|
                0 <= a < b < idx + 1 && #[trigger] avail@[a] && #[trigger] avail@[b] implies old_keys@[mle
                + a]@ != old_keys@[mle + b]@ by {
                if b < idx {
                    assert(avail_before[a] && avail_before[b]);
                } else {
                    assert(avail_before[a]);
                }
            }
        }
        idx = idx + 1;
    }
    avail
}

/// Step 2.3 of a keyed plan: detach the middle bundles that stayed
/// available.
fn detach_spare(pb: &mut PlanBuilder, avail: &Vec<bool>, mle: usize, Ghost(bar): Ghost<nat>)
    requires
        shifts_justified(old(pb).ops@, old(pb).sources@),
        old(pb).inv(),
        old(pb).dom(bar, old(pb).w as nat, bar),
        mle + avail.len() <= old(pb).m@,
        forall|t: int|
            0 <= t < avail.len() ==> (#[trigger] avail@[t] ==> old(pb).pending(mle + t)) && (!avail@[t]
                ==> old(pb).settled(mle + t)),
    ensures
        shifts_justified(final(pb).ops@, final(pb).sources@),
        final(pb).inv(),
        final(pb).w == old(pb).w,
        final(pb).sources@ == old(pb).sources@,
        final(pb).n@ == old(pb).n@,
        final(pb).m@ == old(pb).m@,
        final(pb).dom(bar, final(pb).w as nat, bar),
        forall|t: int| 0 <= t < avail.len() ==> #[trigger] final(pb).settled(mle + t),
        forall|c: int|
            #![trigger final(pb).owner@[c]]
            0 <= c < old(pb).m@ && !(mle <= c < mle + avail.len()) ==> (final(pb).pending(c)
                == old(pb).pending(c) && final(pb).settled(c) == old(pb).settled(c)),
{
    let ghost start = *pb;
    let mut t: usize = 0;
    while t < avail.len()
        invariant
            shifts_justified(pb.ops@, pb.sources@),
            pb.inv(),
            pb.w == start.w,
            pb.sources@ == start.sources@,
            pb.n@ == start.n@,
            pb.m@ == start.m@,
            mle + avail.len() <= pb.m@,
            t <= avail.len(),
            forall|u: int|
                t <= u < avail.len() ==> (#[trigger] avail@[u] ==> pb.pending(mle + u)) && (!avail@[u]
                    ==> pb.settled(mle + u)),
            forall|u: int| 0 <= u < t ==> #[trigger] pb.settled(mle + u),
            forall|c: int|
                #![trigger pb.owner@[c]]
                0 <= c < pb.m@ && !(mle <= c < mle + avail.len()) ==> (pb.pending(c)
                    == start.pending(c) && pb.settled(c) == start.settled(c)),
            pb.dom(bar, pb.w as nat, bar),
        decreases avail.len() - t,
    {
        let ghost before = *pb;
        if avail[t] {
            proof {
                assert(pb.pending(mle + t));
                lemma_dom_detach(
                    pb.ops@,
                    pb.sources@,
                    pb.owner@,
                    pb.n@,
                    pb.m@,
                    pb.w as nat,
                    bar,
                    pb.w as nat,
                    bar,
                    (mle + t) as usize,
                );
            }
            pb.detach(mle + t);
        }
        proof {
            assert forall|u: int|
                t + 1 <= u < avail.len() implies (#[trigger] avail@[u] ==> pb.pending(mle + u)) && (
            !avail@[u] ==> pb.settled(mle + u)) by {
                assert(pb.owner@[mle + u] == pb.owner@[mle + u]);
            }
            assert forall|u: int| 0 <= u < t + 1 implies #[trigger] pb.settled(mle + u) by {
                assert(pb.owner@[mle + u] == pb.owner@[mle + u]);
            }
            assert forall|c: int|
                #![trigger pb.owner@[c]]
                0 <= c < pb.m@ && !(mle <= c < mle + avail.len()) implies (pb.pending(c)
                == start.pending(c) && pb.settled(c) == start.settled(c)) by {
                assert(before.owner@[c] == before.owner@[c]);
            }
        }
        t = t + 1;
    }
}

/// Step 3 of a keyed plan: patch the children whose keys agree at the
/// start.
fn patch_matching_start(
    pb: &mut PlanBuilder,
    new_keys: &Vec<Key>,
    old_keys: &Vec<Key>,
    mls: usize,
    Ghost(bar0): Ghost<nat>,
)
    requires
        shifts_justified(old(pb).ops@, old(pb).sources@),
        old(pb).inv(),
        old(pb).dom(bar0, old(pb).w as nat, bar0),
        bar0 <= old_keys.len() - mls,
        old(pb).n@ == new_keys.len(),
        old(pb).m@ == old_keys.len(),
        mls <= new_keys.len(),
        mls <= old_keys.len(),
        old(pb).w == new_keys.len() - mls,
        forall|t: int| 0 <= t < mls ==> #[trigger] new_keys@[t]@ == old_keys@[old_keys.len() - 1 - t]@,
        forall|c: int| 0 <= c < old_keys.len() - mls ==> #[trigger] old(pb).settled(c),
        forall|c: int| old_keys.len() - mls <= c < old_keys.len() ==> #[trigger] old(pb).pending(c),
        keys_agree(old(pb).sources@, new_keys@, old_keys@),
    ensures
        shifts_justified(final(pb).ops@, final(pb).sources@),
        attached_only_unmatched(old(pb).sources@, new_keys@, old_keys@, new_keys.len() - mls)
            ==> attached_only_unmatched(final(pb).sources@, new_keys@, old_keys@, new_keys.len() as int),
        final(pb).inv(),
        final(pb).w == new_keys.len(),
        final(pb).n@ == old(pb).n@,
        final(pb).m@ == old(pb).m@,
        forall|c: int| 0 <= c < old_keys.len() ==> #[trigger] final(pb).settled(c),
        keys_agree(final(pb).sources@, new_keys@, old_keys@),
        perform(final(pb).ops@, old_keys.len() as nat).0 == shown(final(pb).sources@),
{
    let n = new_keys.len();
    let m = old_keys.len();
    let mut u: usize = 0;
    let ghost mut bar: nat = bar0;
    while u < mls
        invariant
            shifts_justified(pb.ops@, pb.sources@),
            pb.inv(),
            n == new_keys.len(),
            m == old_keys.len(),
            pb.n@ == n,
            pb.m@ == m,
            mls <= n,
            mls <= m,
            u <= mls,
            pb.w == n - mls + u,
            forall|t: int| 0 <= t < mls ==> #[trigger] new_keys@[t]@ == old_keys@[m - 1 - t]@,
            forall|c: int| 0 <= c < m - mls + u ==> #[trigger] pb.settled(c),
            forall|c: int| m - mls + u <= c < m ==> #[trigger] pb.pending(c),
            keys_agree(pb.sources@, new_keys@, old_keys@),
            forall|c: int| mls - u <= c < mls ==> (#[trigger] pb.sources@[c]) is Some,
            forall|c: int| 0 <= c < mls - u || mls <= c < n ==> #[trigger] pb.sources@[c] == old(pb).sources@[c],
            bar <= m - mls + u,
            pb.dom(bar, pb.w as nat, bar),
        decreases mls - u,
    {
        let b: usize = m - mls + u;
        let ghost before = *pb;
        proof {
            assert(pb.pending(b as int));
            lemma_dom_patch(
                pb.ops@,
                pb.sources@,
                pb.owner@,
                n as nat,
                m as nat,
                pb.w as nat,
                bar,
                pb.w as nat,
                bar,
                b,
            );
        }
        pb.write(Some(b));
        proof {
            bar = (b + 1) as nat;
        }
        proof {
            assert forall|c: int| 0 <= c < m - mls + u + 1 implies #[trigger] pb.settled(c) by {
                if c != b {
                    assert(before.settled(c));
                    assert(pb.owner@[c] == pb.owner@[c]);
                }
            }
            assert forall|c: int| m - mls + u + 1 <= c < m implies #[trigger] pb.pending(c) by {
                assert(before.pending(c));
                assert(pb.owner@[c] == pb.owner@[c]);
            }
            let child = n - 1 - (n - mls + u);
            assert(child == mls - 1 - u);
            assert(new_keys@[mls - 1 - u]@ == old_keys@[m - 1 - (mls - 1 - u)]@);
            assert forall|i: int|
                #![trigger pb.sources@[i]]
                0 <= i < pb.sources@.len() && pb.sources@[i] is Some implies old_keys@[pb.sources@[i]->0 as int]@
                == new_keys@[i]@ by {
                if i != child {
                    assert(pb.sources@[i] == before.sources@[i]);
                }
            }
            assert forall|c: int| mls - (u + 1) <= c < mls implies (#[trigger] pb.sources@[c]) is Some by {
                if c != child {
                    assert(pb.sources@[c] == before.sources@[c]);
                }
            }
            assert forall|c: int| 0 <= c < mls - (u + 1) || mls <= c < n implies #[trigger] pb.sources@[c]
                == old(pb).sources@[c] by {
                assert(pb.sources@[c] == before.sources@[c]);
            }
        }
        u = u + 1;
    }
    proof {
        assert forall|c: int| 0 <= c < m implies !(#[trigger] crate::list_moves::pending_set(pb.ops@, pb.owner@)(
            BundleRef::Old(c as usize),
        )) by {
            assert(pb.settled(c));
        }
        lemma_dom_final(pb.ops@, pb.sources@, pb.owner@, n as nat, m as nat, bar, pb.w as nat, bar);
    }
}


/// Shifts the bundles of a run, last first, to the writer's place at the
/// start of the run.
fn shift_run(
    pb: &mut PlanBuilder,
    replacements: &Vec<BundleRef>,
    run: RunInfo,
    mle: usize,
    Ghost(bar): Ghost<nat>,
    Ghost(bar2): Ghost<nat>,
)
    requires
        old(pb).inv(),
        run.start_idx <= replacements.len(),
        run.start_writer <= old(pb).w,
        forall|t: int| 0 <= t < replacements.len() ==> #[trigger] old(pb).kept(replacements@[t]),
        old(pb).dom(bar, run.start_writer as nat, bar2),
        replacements.len() == old(pb).w - mle,
        run.start_writer == mle + run.start_idx,
        forall|t: int|
            0 <= t < replacements.len() ==> #[trigger] replacements@[t] == shown(old(pb).sources@)[old(
                pb,
            ).n@ - 1 - (mle + t)],
    ensures
        final(pb).inv(),
        final(pb).w == old(pb).w,
        final(pb).sources@ == old(pb).sources@,
        final(pb).same_but(old(pb), None),
        final(pb).dom(bar, final(pb).w as nat, bar),
{
    let ghost start = *pb;
    let ghost sw = run.start_writer as nat;
    let mut t: usize = replacements.len();
    proof {
        lemma_run_start(pb.ops@, pb.sources@, pb.owner@, pb.n@, pb.m@, pb.w as nat, bar, sw, bar2);
    }
    while t > run.start_idx
        invariant
            pb.inv(),
            run.start_idx <= t <= replacements.len(),
            run.start_writer <= pb.w,
            pb.w == start.w,
            pb.sources@ == start.sources@,
            pb.same_but(&start, None),
            forall|u: int| 0 <= u < replacements.len() ==> #[trigger] pb.kept(replacements@[u]),
            replacements.len() == pb.w - mle,
            run.start_writer == mle + run.start_idx,
            sw == run.start_writer,
            forall|u: int|
                0 <= u < replacements.len() ==> #[trigger] replacements@[u] == shown(pb.sources@)[pb.n@
                    - 1 - (mle + u)],
            run_state(
                pb.ops@,
                pb.sources@,
                pb.owner@,
                pb.n@,
                pb.m@,
                pb.w as nat,
                bar,
                sw,
                (replacements.len() - t) as nat,
            ),
        decreases t,
    {
        t = t - 1;
        let ghost before = *pb;
        proof {
            let j = (replacements.len() - 1 - t) as nat;
            assert(replacements@[t as int] == shown(pb.sources@)[pb.n@ - pb.w + j]);
            lemma_run_step(pb.ops@, pb.sources@, pb.owner@, pb.n@, pb.m@, pb.w as nat, bar, sw, j);
        }
        pb.shift(replacements[t], run.start_writer);
        proof {
            assert forall|c: int|
                #![trigger pb.owner@[c]]
                0 <= c < pb.m@ implies (pb.pending(c) == start.pending(c) && pb.settled(c)
                == start.settled(c)) by {
                assert(before.owner@[c] == before.owner@[c]);
                assert(start.owner@[c] == start.owner@[c]);
            }
            assert forall|u: int| 0 <= u < replacements.len() implies #[trigger] pb.kept(
                replacements@[u],
            ) by {
                assert(before.kept(replacements@[u]));
            }
        }
    }
    proof {
        lemma_run_done(pb.ops@, pb.sources@, pb.owner@, pb.n@, pb.m@, pb.w as nat, bar, sw);
    }
}

/// The host nodes while the middle is rebuilt: the pending bundles from the
/// barrier on stand before the written nodes, and with a run open, those
/// after its last bundle stand before the run.
spec fn middle_dom(pb: PlanBuilder, mle: usize, barrier_idx: usize, current_run: Option<RunInfo>) -> bool {
    match current_run {
        Some(run) => pb.dom(
            (mle + barrier_idx) as nat,
            run.start_writer as nat,
            (mle + run.end_idx + 1) as nat,
        ),
        None => pb.dom((mle + barrier_idx) as nat, pb.w as nat, (mle + barrier_idx) as nat),
    }
}

/// Step 2.2 of a keyed plan: rebuild the middle in the new key order,
/// taking old bundles by key and shifting as few of them as the runs of
/// in-order bundles allow.
#[verifier::rlimit(100)]
#[verifier::spinoff_prover]
fn rebuild_middle(
    pb: &mut PlanBuilder,
    new_keys: &Vec<Key>,
    old_keys: &Vec<Key>,
    avail: &mut Vec<bool>,
    mle: usize,
    mls: usize,
)
    requires
        shifts_justified(old(pb).ops@, old(pb).sources@),
        old(pb).inv(),
        old(pb).n@ == new_keys.len(),
        old(pb).m@ == old_keys.len(),
        old(pb).w == mle,
        mle + mls <= new_keys.len(),
        mls <= old_keys.len(),
        mle + old(avail).len() == old_keys.len() - mls,
        forall|t: int|
            0 <= t < old(avail).len() ==> (#[trigger] old(avail)@[t] ==> old(pb).pending(mle + t))
                && (!old(avail)@[t] ==> old(pb).settled(mle + t)),
        forall|c: int| 0 <= c < mle ==> #[trigger] old(pb).settled(c),
        forall|c: int| old_keys.len() - mls <= c < old_keys.len() ==> #[trigger] old(pb).pending(c),
        keys_agree(old(pb).sources@, new_keys@, old_keys@),
        forall|j: int| 0 <= j < mle ==> #[trigger] new_keys@[new_keys.len() - 1 - j]@ == old_keys@[j]@,
        forall|t: int| 0 <= t < mls ==> #[trigger] new_keys@[t]@ == old_keys@[old_keys.len() - 1 - t]@,
        attached_only_unmatched(old(pb).sources@, new_keys@, old_keys@, mle as int),
        old(pb).dom(mle as nat, mle as nat, mle as nat),
    ensures
        shifts_justified(final(pb).ops@, final(pb).sources@),
        exists|bar: nat| bar <= old_keys.len() - mls && #[trigger] final(pb).dom(bar, final(pb).w as nat, bar),
        keys_distinct(new_keys@) && keys_distinct(old_keys@) && (forall|t: int|
            0 <= t < old(avail).len() ==> #[trigger] old(avail)@[t]) ==> attached_only_unmatched(
            final(pb).sources@,
            new_keys@,
            old_keys@,
            new_keys.len() - mls,
        ),
        final(pb).inv(),
        final(pb).n@ == old(pb).n@,
        final(pb).m@ == old(pb).m@,
        final(pb).w == new_keys.len() - mls,
        final(avail).len() == old(avail).len(),
        forall|t: int|
            0 <= t < final(avail).len() ==> (#[trigger] final(avail)@[t] ==> final(pb).pending(
                mle + t,
            )) && (!final(avail)@[t] ==> final(pb).settled(mle + t)),
        forall|c: int| 0 <= c < mle ==> #[trigger] final(pb).settled(c),
        forall|c: int| old_keys.len() - mls <= c < old_keys.len() ==> #[trigger] final(pb).pending(c),
        keys_agree(final(pb).sources@, new_keys@, old_keys@),
{
    let n = new_keys.len();
    let m = old_keys.len();
    let mid_len = avail.len();
    let mut replacements: Vec<BundleRef> = Vec::new();
    let mut barrier_idx: usize = 0;
    let mut current_run: Option<RunInfo> = None;
    // Where the bundle ending the open run, and the one just before the
    // barrier, were written.
    let ghost mut run_pos: int = 0;
    let ghost mut bar_pos: int = 0;
    let ghost cond = keys_distinct(new_keys@) && keys_distinct(old_keys@) && (forall|t: int|
        0 <= t < avail@.len() ==> #[trigger] avail@[t]);
    let mut i: usize = n - mle;
    while i > mls
        invariant
            shifts_justified(pb.ops@, pb.sources@),
            cond ==> keys_distinct(new_keys@) && keys_distinct(old_keys@),
            forall|j: int| 0 <= j < mle ==> #[trigger] new_keys@[n - 1 - j]@ == old_keys@[j]@,
            forall|t: int| 0 <= t < mls ==> #[trigger] new_keys@[t]@ == old_keys@[m - 1 - t]@,
            cond ==> forall|t: int|
                0 <= t < mid_len && !(#[trigger] avail@[t]) ==> i <= pb.owner@[mle + t] < n - mle,
            cond ==> attached_only_unmatched(pb.sources@, new_keys@, old_keys@, n - i),
            pb.inv(),
            n == new_keys.len(),
            m == old_keys.len(),
            pb.n@ == n,
            pb.m@ == m,
            mle + mls <= n,
            mls <= m,
            mid_len == avail.len(),
            mle + mid_len == m - mls,
            mls <= i <= n - mle,
            pb.w == n - i,
            forall|t: int|
                0 <= t < mid_len ==> (#[trigger] avail@[t] ==> pb.pending(mle + t)) && (!avail@[t]
                    ==> pb.settled(mle + t)),
            forall|c: int| 0 <= c < mle ==> #[trigger] pb.settled(c),
            forall|c: int| m - mls <= c < m ==> #[trigger] pb.pending(c),
            keys_agree(pb.sources@, new_keys@, old_keys@),
            forall|t: int| 0 <= t < replacements.len() ==> #[trigger] pb.kept(replacements@[t]),
            barrier_idx <= mid_len,
            current_run matches Some(run) ==> run.start_writer <= pb.w && run.start_idx
                <= replacements.len() && barrier_idx < run.end_idx && run.end_idx < mid_len,
            replacements.len() == pb.w - mle,
            forall|t: int|
                0 <= t < replacements.len() ==> #[trigger] replacements@[t] == shown(pb.sources@)[n - 1 - (
                mle + t)],
            current_run matches Some(run) ==> run.start_writer == mle + run.start_idx
                && !avail@[run.end_idx as int],
            middle_dom(*pb, mle, barrier_idx, current_run),
            current_run matches Some(run) ==> i <= run_pos < n && pb.sources@[run_pos] == Some(
                (mle + run.end_idx) as usize,
            ),
            barrier_idx > 0 ==> i <= bar_pos < n && (pb.sources@[bar_pos] matches Some(b) && b + 1 >= mle
                + barrier_idx),
        decreases i - mls,
    {
        i = i - 1;
        let ancestor = find_available(avail, old_keys, mle, &new_keys[i]);
        let ghost start = *pb;
        let ghost mut did_shift = false;
        let ghost mut shift_c: int = 0;
        let ghost mut shift_b: int = 0;
        // Decide whether to shift or commit the current run.
        if let Some(run) = current_run {
            if let Some(idx) = ancestor {
                if idx < run.end_idx {
                    let run_length = replacements.len() - run.start_idx;
                    let lower = if idx > barrier_idx {
                        idx
                    } else {
                        barrier_idx
                    };
                    let estimated_skipped_nodes = run.end_idx - lower;
                    // Compares twice the run length with the estimate.
                    if run_length > estimated_skipped_nodes / 2 {
                        proof {
                            lemma_dom_commit(
                                pb.ops@,
                                pb.sources@,
                                pb.owner@,
                                pb.n@,
                                pb.m@,
                                pb.w as nat,
                                (mle + barrier_idx) as nat,
                                run.start_writer as nat,
                                (mle + run.end_idx + 1) as nat,
                            );
                        }
                        barrier_idx = 1 + run.end_idx;
                        proof {
                            bar_pos = run_pos;
                        }
                    } else {
                        shift_run(
                            pb,
                            &replacements,
                            run,
                            mle,
                            Ghost((mle + barrier_idx) as nat),
                            Ghost((mle + run.end_idx + 1) as nat),
                        );
                        proof {
                            did_shift = true;
                            shift_c = run_pos;
                            shift_b = mle + run.end_idx;
                        }
                    }
                    current_run = None;
                }
            }
        }
        let ghost mid = *pb;
        proof {
            assert forall|t: int|
                0 <= t < mid_len implies (#[trigger] avail@[t] ==> pb.pending(mle + t)) && (!avail@[t]
                ==> pb.settled(mle + t)) by {
                assert(start.owner@[mle + t] == start.owner@[mle + t]);
                assert(pb.owner@[mle + t] == pb.owner@[mle + t]);
            }
        }
        let ghost avail_before = avail@;
        let ghost barrier_m = barrier_idx;
        let ghost run_m = current_run;
        let ghost repl_before = replacements@;
        if let Some(idx) = ancestor {
            let b: usize = mle + idx;
            proof {
                assert(pb.pending(b as int));
                match run_m {
                    Some(run) => {
                        assert(idx > run.end_idx);
                        lemma_dom_patch(
                            pb.ops@,
                            pb.sources@,
                            pb.owner@,
                            n as nat,
                            m as nat,
                            pb.w as nat,
                            (mle + barrier_idx) as nat,
                            run.start_writer as nat,
                            (mle + run.end_idx + 1) as nat,
                            b,
                        );
                    },
                    None => {
                        if idx < barrier_idx {
                            lemma_dom_shift_patch(
                                pb.ops@,
                                pb.sources@,
                                pb.owner@,
                                n as nat,
                                m as nat,
                                pb.w as nat,
                                (mle + barrier_idx) as nat,
                                pb.w as nat,
                                (mle + barrier_idx) as nat,
                                b,
                            );
                        } else {
                            lemma_dom_patch(
                                pb.ops@,
                                pb.sources@,
                                pb.owner@,
                                n as nat,
                                m as nat,
                                pb.w as nat,
                                (mle + barrier_idx) as nat,
                                pb.w as nat,
                                (mle + barrier_idx) as nat,
                                b,
                            );
                        }
                    },
                }
            }
            avail.set(idx, false);
            let mut shifted = false;
            match current_run {
                Some(run) => {
                    current_run = Some(RunInfo { end_idx: idx, ..run });
                },
                None => {
                    if idx == barrier_idx {
                        barrier_idx = barrier_idx + 1;
                    } else if idx < barrier_idx {
                        shifted = true;
                    } else {
                        current_run = Some(
                            RunInfo { start_writer: pb.w, start_idx: replacements.len(), end_idx: idx },
                        );
                    }
                },
            }
            proof {
                if did_shift {
                    assert(idx < shift_b - mle);
                    assert(pb.sources@[shift_c] == Some(shift_b as usize));
                } else if shifted {
                    assert(pb.sources@[bar_pos] matches Some(b2) && b2 >= b);
                }
            }
            let ghost pre_write = pb.sources@;
            if shifted {
                pb.shift_and_write(b);
            } else {
                pb.write(Some(b));
            }
            proof {
                if did_shift {
                    lemma_write_breaks_order(pre_write, i as int, shift_c, b);
                }
                match run_m {
                    Some(run) => {
                        run_pos = i as int;
                    },
                    None => {
                        if idx == barrier_m {
                            bar_pos = i as int;
                        } else if idx > barrier_m {
                            run_pos = i as int;
                        }
                    },
                }
            }
            replacements.push(BundleRef::Old(b));
            proof {
                assert(old_keys@[b as int]@ == new_keys@[i as int]@);
            }
        } else {
            proof {
                if cond {
                    assert forall|b: int| 0 <= b < m implies (#[trigger] old_keys@[b])@ != new_keys@[i as int]@ by {
                        if b < mle {
                            assert(new_keys@[n - 1 - b]@ == old_keys@[b]@);
                            assert(i < n - 1 - b);
                        } else if b >= m - mls {
                            let t = m - 1 - b;
                            assert(new_keys@[t]@ == old_keys@[m - 1 - t]@);
                            assert(t < i);
                        } else {
                            let t = b - mle;
                            if !avail@[t] {
                                let c = pb.owner@[mle + t];
                                assert(pb.sources@[c] == Some(b as usize));
                                assert(old_keys@[b]@ == new_keys@[c]@);
                                assert(i < c);
                            }
                        }
                    }
                }
            }
            proof {
                match current_run {
                    Some(run) => {
                        lemma_dom_attach(
                            pb.ops@,
                            pb.sources@,
                            pb.owner@,
                            n as nat,
                            m as nat,
                            pb.w as nat,
                            (mle + barrier_idx) as nat,
                            run.start_writer as nat,
                            (mle + run.end_idx + 1) as nat,
                        );
                    },
                    None => {
                        lemma_dom_attach(
                            pb.ops@,
                            pb.sources@,
                            pb.owner@,
                            n as nat,
                            m as nat,
                            pb.w as nat,
                            (mle + barrier_idx) as nat,
                            pb.w as nat,
                            (mle + barrier_idx) as nat,
                        );
                    },
                }
            }
            pb.write(None);
            proof {
                assert(mid.sources@[n - 1 - mid.w] is None);
                assert(pb.sources@ =~= mid.sources@);
            }
            replacements.push(BundleRef::New(i));
        }
        proof {
            assert forall|t: int|
                0 <= t < replacements.len() implies #[trigger] replacements@[t] == shown(pb.sources@)[n
                    - 1 - (mle + t)] by {
                if t < replacements.len() - 1 {
                    assert(replacements@[t] == repl_before[t]);
                    assert(pb.sources@[n - 1 - (mle + t)] == mid.sources@[n - 1 - (mle + t)]);
                }
            }
        }
        proof {
            if cond {
                assert forall|t: int|
                    0 <= t < mid_len && !(#[trigger] avail@[t]) implies i <= pb.owner@[mle + t] < n - mle by {
                    assert(pb.owner@[mle + t] == pb.owner@[mle + t]);
                    if ancestor is None || t != ancestor->0 {
                        assert(avail@[t] == avail_before[t]);
                        assert(mid.owner@[mle + t] == start.owner@[mle + t]);
                    }
                }
                assert forall|c: int|
                    #![trigger pb.sources@[c]]
                    n - (n - i) <= c < n && pb.sources@[c] is None implies forall|b: int|
                        0 <= b < m ==> (#[trigger] old_keys@[b])@ != new_keys@[c]@ by {
                    if c != i {
                        assert(pb.sources@[c] == mid.sources@[c]);
                        assert(mid.sources@[c] == start.sources@[c]);
                    }
                }
            }
        }
        proof {
            let b_opt: Option<usize> = match ancestor {
                Some(idx) => Some((mle + idx) as usize),
                None => None,
            };
            assert(pb.same_but(&mid, b_opt));
            assert forall|t: int|
                0 <= t < mid_len implies (#[trigger] avail@[t] ==> pb.pending(mle + t)) && (!avail@[t]
                ==> pb.settled(mle + t)) by {
                assert(pb.owner@[mle + t] == pb.owner@[mle + t]);
                if ancestor is None || t != ancestor->0 {
                    assert(avail@[t] == avail_before[t]);
                }
            }
            assert forall|c: int| 0 <= c < mle implies #[trigger] pb.settled(c) by {
                assert(pb.owner@[c] == pb.owner@[c]);
                assert(start.owner@[c] == start.owner@[c]);
            }
            assert forall|c: int| m - mls <= c < m implies #[trigger] pb.pending(c) by {
                assert(pb.owner@[c] == pb.owner@[c]);
                assert(start.owner@[c] == start.owner@[c]);
            }
            assert forall|t: int| 0 <= t < replacements.len() implies #[trigger] pb.kept(
                replacements@[t],
            ) by {
                if t < replacements.len() - 1 {
                    assert(mid.kept(replacements@[t]));
                }
            }
            assert forall|k: int|
                #![trigger pb.sources@[k]]
                0 <= k < pb.sources@.len() && pb.sources@[k] is Some implies old_keys@[pb.sources@[k]->0 as int]@
                == new_keys@[k]@ by {
                if k != i {
                    assert(pb.sources@[k] == start.sources@[k]);
                }
            }
        }
    }
    proof {
        match current_run {
            Some(run) => {
                lemma_dom_commit(
                    pb.ops@,
                    pb.sources@,
                    pb.owner@,
                    pb.n@,
                    pb.m@,
                    pb.w as nat,
                    (mle + barrier_idx) as nat,
                    run.start_writer as nat,
                    (mle + run.end_idx + 1) as nat,
                );
                assert(pb.dom((mle + run.end_idx + 1) as nat, pb.w as nat, (mle + run.end_idx + 1) as nat));
            },
            None => {
                assert(pb.dom((mle + barrier_idx) as nat, pb.w as nat, (mle + barrier_idx) as nat));
            },
        }
    }
}


/// A keyed plan for lists whose keys differ somewhere along the shorter
/// list; `mle` keys agree from the end.
#[verifier::rlimit(80)]
fn plan_keyed_changed(new_keys: &Vec<Key>, old_keys: &Vec<Key>, mle: usize) -> (p: ReconcilePlan)
    requires
        mle < new_keys.len() || mle < old_keys.len(),
        mle <= new_keys.len(),
        mle <= old_keys.len(),
        forall|j: int| 0 <= j < mle ==> #[trigger] new_keys@[new_keys.len() - 1 - j]@ == old_keys@[j]@,
    ensures
        plan_sound(p.ops@, p.sources@, new_keys.len() as nat, old_keys.len() as nat),
        keys_agree(p.sources@, new_keys@, old_keys@),
        keys_distinct(new_keys@) && keys_distinct(old_keys@) ==> attached_only_unmatched(
            p.sources@,
            new_keys@,
            old_keys@,
            new_keys.len() as int,
        ),
        perform(p.ops@, old_keys.len() as nat).0 == shown(p.sources@),
        shifts_justified(p.ops@, p.sources@),
{
    let n = new_keys.len();
    let m = old_keys.len();
    let mut pb = PlanBuilder::new(n, m);
    proof {
        assert forall|i: int|
            #![trigger pb.sources@[i]]
            0 <= i < pb.sources@.len() && pb.sources@[i] is Some implies old_keys@[pb.sources@[i]->0 as int]@
            == new_keys@[i]@ by {
            assert(pb.sources@[i] is None);
        }
    }
    patch_matching_end(&mut pb, new_keys, old_keys, mle);
    let lefts_to: usize = n - mle;
    let mut mls = matching_len_start(new_keys, lefts_to, old_keys);
    let mut mid_end: usize = m - mls;
    if mle > mid_end {
        // Only possible with duplicate keys: rebuild all the rest.
        mls = 0;
        mid_end = m;
    }
    let ghost after_end = pb;
    let ghost end_sources = pb.sources@;
    let mut avail = collect_middle(&mut pb, old_keys, mle, mid_end - mle);
    let ghost avail0 = avail@;
    proof {
        assert forall|c: int| 0 <= c < mle implies #[trigger] pb.settled(c) by {
            assert(pb.owner@[c] == pb.owner@[c]);
            assert(after_end.settled(c));
        }
        assert forall|c: int| m - mls <= c < m implies #[trigger] pb.pending(c) by {
            assert(pb.owner@[c] == pb.owner@[c]);
            assert(after_end.pending(c));
        }
    }
    rebuild_middle(&mut pb, new_keys, old_keys, &mut avail, mle, mls);
    let ghost after_middle = pb;
    let ghost middle_sources = pb.sources@;
    let ghost bar = choose|bar: nat| bar <= m - mls && #[trigger] pb.dom(bar, pb.w as nat, bar);
    detach_spare(&mut pb, &avail, mle, Ghost(bar));
    proof {
        assert forall|c: int| 0 <= c < m - mls implies #[trigger] pb.settled(c) by {
            assert(pb.owner@[c] == pb.owner@[c]);
            if c < mle {
                assert(after_middle.settled(c));
            } else {
                assert(pb.settled(mle + (c - mle)));
            }
        }
        assert forall|c: int| m - mls <= c < m implies #[trigger] pb.pending(c) by {
            assert(pb.owner@[c] == pb.owner@[c]);
            assert(after_middle.pending(c));
        }
    }
    let ghost before_start = pb.sources@;
    patch_matching_start(&mut pb, new_keys, old_keys, mls, Ghost(bar));
    proof {
        if keys_distinct(new_keys@) && keys_distinct(old_keys@) {
            assert(forall|t: int| 0 <= t < avail0.len() ==> #[trigger] avail0[t]);
            assert(attached_only_unmatched(middle_sources, new_keys@, old_keys@, n - mls));
            assert(before_start == middle_sources);
        }
        assert forall|b: int| 0 <= b < m implies #[trigger] settled(pb.ops@, pb.owner@, b) by {
            assert(pb.settled(b));
        }
        lemma_plan_state_finish(pb.ops@, pb.sources@, pb.owner@, n as nat, m as nat);
    }
    ReconcilePlan { ops: pb.ops, sources: pb.sources }
}

/// Plans a keyed reconciliation. The new keys are in render order, the old
/// keys in the reversed order of the mounted bundles.
///
/// Children whose keys agree at the end of the list are patched in place,
/// then the middle is rebuilt from the old bundles by key, shifting as few
/// bundles as the runs of in-order keys allow, and the children whose keys
/// agree at the start are patched. Old bundles that no child reuses are
/// detached. When the keys agree all along the shorter list, the plan is
/// the unkeyed one. When the reused bundles keep their old order, no bundle
/// is shifted.
pub fn plan_keyed(new_keys: &Vec<Key>, old_keys: &Vec<Key>) -> (p: ReconcilePlan)
    ensures
        plan_sound(p.ops@, p.sources@, new_keys.len() as nat, old_keys.len() as nat),
        keys_agree(p.sources@, new_keys@, old_keys@),
        agree_from_end(new_keys@, old_keys@) ==> forall|i: int|
            0 <= i < new_keys.len() ==> #[trigger] p.sources@[i] == unkeyed_source(
                new_keys.len() as nat,
                old_keys.len() as nat,
                i,
            ),
        keys_distinct(new_keys@) && keys_distinct(old_keys@) ==> attached_only_unmatched(
            p.sources@,
            new_keys@,
            old_keys@,
            new_keys.len() as int,
        ),
        perform(p.ops@, old_keys.len() as nat).0 == shown(p.sources@),
        order_kept(p.sources@) ==> no_shift(p.ops@),
{
    let n = new_keys.len();
    let m = old_keys.len();
    let mle = matching_len_end(new_keys, old_keys);
    let common: usize = if n < m {
        n
    } else {
        m
    };
    if mle == common {
        // No key changes: the keys agree from the end of the list.
        let p = plan_unkeyed(n, m);
        proof {
            assert forall|i: int|
                #![trigger p.sources@[i]]
                0 <= i < p.sources@.len() && p.sources@[i] is Some implies old_keys@[p.sources@[i]->0 as int]@
                == new_keys@[i]@ by {
                assert(p.sources@[i] == unkeyed_source(n as nat, m as nat, i));
                let j = n - 1 - i;
                assert(new_keys@[n - 1 - j]@ == old_keys@[j]@);
            }
            if keys_distinct(new_keys@) && keys_distinct(old_keys@) {
                assert forall|c: int|
                    #![trigger p.sources@[c]]
                    n - n <= c < n && p.sources@[c] is None implies forall|b: int|
                        0 <= b < m ==> (#[trigger] old_keys@[b])@ != new_keys@[c]@ by {
                    assert(p.sources@[c] == unkeyed_source(n as nat, m as nat, c));
                    assert forall|b: int| 0 <= b < m implies (#[trigger] old_keys@[b])@ != new_keys@[c]@ by {
                        assert(new_keys@[n - 1 - b]@ == old_keys@[b]@);
                        assert(c < n - 1 - b);
                    }
                }
            }
        }
        return p;
    }
    plan_keyed_changed(new_keys, old_keys, mle)
}


/// The keys of a fully keyed list are distinct.
pub open spec fn option_keys_distinct(keys: Seq<Option<Key>>) -> bool {
    forall|i: int, j: int| 0 <= i < j < keys.len() ==> (#[trigger] keys[i])->0@ != (#[trigger] keys[j])->0@
}

/// Every child of a list has a key.
pub open spec fn all_keyed(keys: Seq<Option<Key>>) -> bool {
    forall|i: int| 0 <= i < keys.len() ==> #[trigger] keys[i] is Some
}

fn collect_keys(keys: &Vec<Option<Key>>) -> (r: Vec<Key>)
    requires
        all_keyed(keys@),
    ensures
        r.len() == keys.len(),
        forall|i: int| 0 <= i < keys.len() ==> #[trigger] r@[i]@ == keys@[i]->0@,
{
    let mut r: Vec<Key> = Vec::new();
    let mut i: usize = 0;
    while i < keys.len()
        invariant
            i <= keys.len(),
            r.len() == i,
            all_keyed(keys@),
            forall|t: int| 0 <= t < i ==> #[trigger] r@[t]@ == keys@[t]->0@,
        decreases keys.len() - i,
    {
        let k = match &keys[i] {
            Some(k) => k.clone(),
            None => {
                proof {
                    assert(keys@[i as int] is Some);
                }
                return r;
            },
        };
        r.push(k);
        i = i + 1;
    }
    r
}

/// Plans the reconciliation of a child list with its mounted bundles: by
/// key when both the new list and the mounted one are fully keyed, by
/// position otherwise. The new keys are in render order, the old keys in
/// the reversed order of the mounted bundles.
pub fn plan_children(
    new_keys: &Vec<Option<Key>>,
    new_fully_keyed: bool,
    old_keys: &Vec<Option<Key>>,
    old_fully_keyed: bool,
) -> (p: ReconcilePlan)
    requires
        new_fully_keyed ==> all_keyed(new_keys@),
        old_fully_keyed ==> all_keyed(old_keys@),
    ensures
        plan_sound(p.ops@, p.sources@, new_keys.len() as nat, old_keys.len() as nat),
        new_fully_keyed && old_fully_keyed ==> forall|i: int|
            #![trigger p.sources@[i]]
            0 <= i < new_keys.len() && p.sources@[i] is Some ==> old_keys@[p.sources@[i]->0 as int]->0@
                == new_keys@[i]->0@,
        !(new_fully_keyed && old_fully_keyed) ==> forall|i: int|
            0 <= i < new_keys.len() ==> #[trigger] p.sources@[i] == unkeyed_source(
                new_keys.len() as nat,
                old_keys.len() as nat,
                i,
            ),
        new_fully_keyed && old_fully_keyed && option_keys_distinct(new_keys@)
            && option_keys_distinct(old_keys@) ==> forall|i: int|
            #![trigger p.sources@[i]]
            0 <= i < new_keys.len() && p.sources@[i] is None ==> forall|b: int|
                0 <= b < old_keys.len() ==> (#[trigger] old_keys@[b])->0@ != new_keys@[i]->0@,
        perform(p.ops@, old_keys.len() as nat).0 == shown(p.sources@),
        order_kept(p.sources@) ==> no_shift(p.ops@),
{
    if new_fully_keyed && old_fully_keyed {
        let lefts = collect_keys(new_keys);
        let rights = collect_keys(old_keys);
        let p = plan_keyed(&lefts, &rights);
        proof {
            if option_keys_distinct(new_keys@) && option_keys_distinct(old_keys@) {
                assert(keys_distinct(lefts@)) by {
                    assert forall|i: int, j: int| 0 <= i < j < lefts@.len() implies (#[trigger] lefts@[i])@
                        != (#[trigger] lefts@[j])@ by {
                        assert(new_keys@[i]->0@ != new_keys@[j]->0@);
                    }
                }
                assert(keys_distinct(rights@)) by {
                    assert forall|i: int, j: int| 0 <= i < j < rights@.len() implies (#[trigger] rights@[i])@
                        != (#[trigger] rights@[j])@ by {
                        assert(old_keys@[i]->0@ != old_keys@[j]->0@);
                    }
                }
                assert forall|i: int|
                    #![trigger p.sources@[i]]
                    0 <= i < new_keys.len() && p.sources@[i] is None implies forall|b: int|
                        0 <= b < old_keys.len() ==> (#[trigger] old_keys@[b])->0@ != new_keys@[i]->0@ by {
                    assert forall|b: int| 0 <= b < old_keys.len() implies (#[trigger] old_keys@[b])->0@
                        != new_keys@[i]->0@ by {
                        assert(rights@[b]@ != lefts@[i]@);
                    }
                }
            }
            assert forall|i: int|
                #![trigger p.sources@[i]]
                0 <= i < new_keys.len() && p.sources@[i] is Some implies old_keys@[p.sources@[i]->0 as int]->0@
                == new_keys@[i]->0@ by {
                assert(rights@[p.sources@[i]->0 as int]@ == lefts@[i]@);
            }
        }
        p
    } else {
        plan_unkeyed(new_keys.len(), old_keys.len())
    }
}


/// A list reconciled with as many children as it has bundles, by position,
/// keeps every bundle: the child at each place patches the bundle at that
/// place, nothing is attached and nothing is detached.
pub proof fn lemma_positional_plan_keeps_every_bundle(
    ops: Seq<ChildOp>,
    sources: Seq<Option<usize>>,
    n: nat,
)
    requires
        plan_sound(ops, sources, n, n),
        forall|i: int| 0 <= i < n ==> #[trigger] sources[i] == unkeyed_source(n, n, i),
    ensures
        forall|i: int| 0 <= i < n ==> #[trigger] sources[i] == Some((n - 1 - i) as usize),
        forall|b: usize| #[trigger] detach_count(ops, b) == 0,
{
    assert forall|b: usize| #[trigger] detach_count(ops, b) == 0 by {
        if b < n {
            let i = n - 1 - b;
            assert(sources[i] == unkeyed_source(n, n, i));
            assert(reused(sources, b));
        }
    }
}

} // verus!
