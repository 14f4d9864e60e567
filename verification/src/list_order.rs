//! What a reconciliation plan does to the host's children of the list.
//!
//! The list's host nodes are modelled as the bundles that own them, one
//! node per bundle, in document order; the list's own position is after the
//! last one. Performing a plan detaches, attaches and moves nodes as its
//! operations say, with the writer standing before the node written last.

use vstd::prelude::*;
use crate::reconcile::{BundleRef, ChildOp, detach_count, plan_sound, reused, writes};

verus! {

/// The host nodes of a mounted list of `m` bundles: the bundles are kept in
/// reverse order, so the last bundle comes first.
pub open spec fn mounted(m: nat) -> Seq<BundleRef> {
    Seq::new(m, |p: int| BundleRef::Old((m - 1 - p) as usize))
}

/// The host nodes a list should show after a plan with these sources: each
/// child's reused bundle, or the bundle attached for it.
pub open spec fn shown(sources: Seq<Option<usize>>) -> Seq<BundleRef> {
    Seq::new(
        sources.len(),
        |i: int|
            match sources[i] {
                Some(b) => BundleRef::Old(b),
                None => BundleRef::New(i as usize),
            },
    )
}

/// The nodes without `x`.
pub open spec fn remove_node(d: Seq<BundleRef>, x: BundleRef) -> Seq<BundleRef>
    decreases d.len(),
{
    if d.len() == 0 {
        d
    } else {
        (if d[0] == x {
            Seq::empty()
        } else {
            seq![d[0]]
        }) + remove_node(d.drop_first(), x)
    }
}

/// The nodes with `x` inserted before the first `y`, or at the end when
/// there is no place given or `y` is not there.
pub open spec fn insert_node(d: Seq<BundleRef>, at: Option<BundleRef>, x: BundleRef) -> Seq<BundleRef>
    decreases d.len(),
{
    match at {
        None => d.push(x),
        Some(y) => if d.len() == 0 {
            seq![x]
        } else if d[0] == y {
            seq![x] + d
        } else {
            seq![d[0]] + insert_node(d.drop_first(), at, x)
        },
    }
}

/// The host nodes and the nodes written so far after performing `ops` on a
/// mounted list of `m` bundles. A patch leaves its bundle where it is; an
/// attach inserts the new node before the node written last; a shift moves
/// a node before the node written at the given count of writes.
pub open spec fn perform(ops: Seq<ChildOp>, m: nat) -> (Seq<BundleRef>, Seq<BundleRef>)
    decreases ops.len(),
{
    if ops.len() == 0 {
        (mounted(m), Seq::empty())
    } else {
        let prev = perform(ops.drop_last(), m);
        let d = prev.0;
        let w = prev.1;
        match ops.last() {
            ChildOp::Detach(b) => (remove_node(d, BundleRef::Old(b)), w),
            ChildOp::Patch { child, bundle } => (d, w.push(BundleRef::Old(bundle))),
            ChildOp::Attach(child) => (
                insert_node(
                    d,
                    if w.len() == 0 {
                        None
                    } else {
                        Some(w.last())
                    },
                    BundleRef::New(child),
                ),
                w.push(BundleRef::New(child)),
            ),
            ChildOp::Shift { target, at } => (
                insert_node(
                    remove_node(d, target),
                    if at == 0 || at > w.len() {
                        None
                    } else {
                        Some(w[at - 1])
                    },
                    target,
                ),
                w,
            ),
        }
    }
}

/// All detaches come before the first write, and nothing is moved.
pub open spec fn detaches_first(ops: Seq<ChildOp>) -> bool {
    &&& forall|i: int, j: int|
        #![trigger ops[i], ops[j]]
        0 <= i < j < ops.len() && ops[j] is Detach ==> ops[i] is Detach
    &&& forall|k: int| 0 <= k < ops.len() ==> !(#[trigger] ops[k] is Shift)
}

/// Reused bundles keep their order: a later child reuses an earlier bundle
/// in the document.
pub open spec fn reuse_in_order(sources: Seq<Option<usize>>) -> bool {
    forall|i: int, j: int|
        #![trigger sources[i], sources[j]]
        0 <= i < j < sources.len() && sources[i] is Some && sources[j] is Some ==> sources[i]->0
            > sources[j]->0
}

/// The nodes for which `p` holds, in order.
pub open spec fn keep(d: Seq<BundleRef>, p: spec_fn(BundleRef) -> bool) -> Seq<BundleRef>
    decreases d.len(),
{
    if d.len() == 0 {
        d
    } else {
        (if p(d[0]) {
            seq![d[0]]
        } else {
            Seq::empty()
        }) + keep(d.drop_first(), p)
    }
}

pub(crate) proof fn lemma_keep_ext(d: Seq<BundleRef>, p: spec_fn(BundleRef) -> bool, q: spec_fn(BundleRef) -> bool)
    requires
        forall|i: int| 0 <= i < d.len() ==> p(#[trigger] d[i]) == q(d[i]),
    ensures
        keep(d, p) == keep(d, q),
    decreases d.len(),
{
    if d.len() > 0 {
        assert forall|i: int| 0 <= i < d.drop_first().len() implies p(#[trigger] d.drop_first()[i]) == q(
            d.drop_first()[i],
        ) by {
            assert(d.drop_first()[i] == d[i + 1]);
        }
        lemma_keep_ext(d.drop_first(), p, q);
        assert(p(d[0]) == q(d[0]));
    }
}

pub(crate) proof fn lemma_keep_none(d: Seq<BundleRef>, p: spec_fn(BundleRef) -> bool)
    requires
        forall|i: int| 0 <= i < d.len() ==> !p(#[trigger] d[i]),
    ensures
        keep(d, p) == Seq::<BundleRef>::empty(),
    decreases d.len(),
{
    if d.len() > 0 {
        assert forall|i: int| 0 <= i < d.drop_first().len() implies !p(#[trigger] d.drop_first()[i]) by {
            assert(d.drop_first()[i] == d[i + 1]);
        }
        lemma_keep_none(d.drop_first(), p);
        assert(!p(d[0]));
        assert(keep(d, p) =~= Seq::<BundleRef>::empty());
    }
}

pub(crate) proof fn lemma_remove_keep(d: Seq<BundleRef>, p: spec_fn(BundleRef) -> bool, x: BundleRef)
    ensures
        remove_node(keep(d, p), x) == keep(d, |y: BundleRef| p(y) && y != x),
    decreases d.len(),
{
    let q = |y: BundleRef| p(y) && y != x;
    if d.len() == 0 {
        assert(remove_node(keep(d, p), x) =~= keep(d, q));
    } else {
        lemma_remove_keep(d.drop_first(), p, x);
        let rest = keep(d.drop_first(), p);
        if p(d[0]) {
            let k = seq![d[0]] + rest;
            assert(k[0] == d[0]);
            assert(k.drop_first() =~= rest);
            if d[0] == x {
                assert(remove_node(k, x) =~= Seq::<BundleRef>::empty() + remove_node(rest, x));
                assert(keep(d, q) =~= Seq::<BundleRef>::empty() + keep(d.drop_first(), q));
            } else {
                assert(remove_node(k, x) =~= seq![d[0]] + remove_node(rest, x));
            }
        } else {
            assert(keep(d, p) =~= rest);
            assert(keep(d, q) =~= Seq::<BundleRef>::empty() + keep(d.drop_first(), q));
        }
    }
}

proof fn lemma_mounted_first(m: nat)
    requires
        m > 0,
    ensures
        mounted(m)[0] == BundleRef::Old((m - 1) as usize),
        mounted(m).drop_first() == mounted((m - 1) as nat),
{
    assert(mounted(m).drop_first() =~= mounted((m - 1) as nat));
}

/// In the mounted nodes, the kept bundle with the lowest index comes last.
proof fn lemma_keep_lowest_last(m: nat, p: spec_fn(BundleRef) -> bool, b: usize)
    requires
        b < m <= usize::MAX,
        p(BundleRef::Old(b)),
        forall|c: usize| c < m && c != b && #[trigger] p(BundleRef::Old(c)) ==> c > b,
    ensures
        keep(mounted(m), p) == keep(mounted(m), |y: BundleRef| p(y) && y != BundleRef::Old(b)).push(
            BundleRef::Old(b),
        ),
    decreases m,
{
    let q = |y: BundleRef| p(y) && y != BundleRef::Old(b);
    lemma_mounted_first(m);
    let d = mounted(m);
    let rest = mounted((m - 1) as nat);
    if m - 1 == b {
        assert forall|i: int| 0 <= i < rest.len() implies !p(#[trigger] rest[i]) by {
            let c = (m - 2 - i) as usize;
            assert(rest[i] == BundleRef::Old(c));
        }
        lemma_keep_none(rest, p);
        assert forall|i: int| 0 <= i < rest.len() implies !q(#[trigger] rest[i]) by {
            let c = (m - 2 - i) as usize;
            assert(rest[i] == BundleRef::Old(c));
        }
        lemma_keep_none(rest, q);
        assert(keep(d, p) =~= seq![d[0]] + keep(rest, p));
        assert(keep(d, q) =~= Seq::<BundleRef>::empty() + keep(rest, q));
        assert(keep(d, p) =~= keep(d, q).push(BundleRef::Old(b)));
    } else {
        lemma_keep_lowest_last((m - 1) as nat, p, b);
        let head = if p(d[0]) {
            seq![d[0]]
        } else {
            Seq::<BundleRef>::empty()
        };
        assert(keep(d, p) == head + keep(rest, p));
        assert(d[0] == BundleRef::Old((m - 1) as usize));
        assert((m - 1) as usize != b);
        assert(q(d[0]) == p(d[0]));
        assert(keep(d, q) == head + keep(rest, q));
        assert(keep(rest, q) =~= keep(rest, |y: BundleRef| p(y) && y != BundleRef::Old(b)));
        assert(keep(d, p) =~= keep(d, q).push(BundleRef::Old(b)));
    }
}

pub(crate) proof fn lemma_insert_after_prefix(a: Seq<BundleRef>, e: Seq<BundleRef>, x: BundleRef)
    requires
        e.len() > 0,
        !a.contains(e[0]),
    ensures
        insert_node(a + e, Some(e[0]), x) == a + seq![x] + e,
    decreases a.len(),
{
    if a.len() == 0 {
        assert(a + e =~= e);
        assert(a + seq![x] + e =~= seq![x] + e);
    } else {
        assert((a + e)[0] == a[0]);
        assert(a[0] != e[0]);
        assert((a + e).drop_first() =~= a.drop_first() + e);
        assert(!a.drop_first().contains(e[0])) by {
            if a.drop_first().contains(e[0]) {
                let i = choose|i: int| 0 <= i < a.drop_first().len() && a.drop_first()[i] == e[0];
                assert(a[i + 1] == e[0]);
            }
        }
        lemma_insert_after_prefix(a.drop_first(), e, x);
        assert(a + seq![x] + e =~= seq![a[0]] + (a.drop_first() + seq![x] + e));
    }
}

/// The writes an operation makes, as `writes` counts them.
spec fn write_of(op: ChildOp) -> (usize, Option<usize>) {
    match op {
        ChildOp::Patch { child, bundle } => (child, Some(bundle)),
        ChildOp::Attach(child) => (child, None),
        _ => (0, None),
    }
}

proof fn lemma_take_last(ops: Seq<ChildOp>, t: int)
    requires
        0 <= t < ops.len(),
    ensures
        ops.take(t + 1).drop_last() == ops.take(t),
        ops.take(t + 1).last() == ops[t],
{
    assert(ops.take(t + 1).drop_last() =~= ops.take(t));
}

pub(crate) proof fn lemma_detach_count_push(ops: Seq<ChildOp>, op: ChildOp, b: usize)
    ensures
        detach_count(ops.push(op), b) == detach_count(ops, b) + (if op == ChildOp::Detach(b) {
            1nat
        } else {
            0nat
        }),
{
    assert(ops.push(op).drop_last() =~= ops);
}

proof fn lemma_writes_push(ops: Seq<ChildOp>, op: ChildOp)
    ensures
        writes(ops.push(op)) == (match op {
            ChildOp::Patch { .. } | ChildOp::Attach(_) => writes(ops).push(write_of(op)),
            _ => writes(ops),
        }),
{
    assert(ops.push(op).drop_last() =~= ops);
}

proof fn lemma_writes_concat(a: Seq<ChildOp>, b: Seq<ChildOp>)
    ensures
        writes(a + b) == writes(a) + writes(b),
    decreases b.len(),
{
    if b.len() == 0 {
        assert(a + b =~= a);
        assert(writes(b) =~= Seq::<(usize, Option<usize>)>::empty());
        assert(writes(a) + writes(b) =~= writes(a));
    } else {
        lemma_writes_concat(a, b.drop_last());
        assert((a + b).drop_last() =~= a + b.drop_last());
        assert((a + b).last() == b.last());
        let wa = writes(a);
        let wb = writes(b.drop_last());
        match b.last() {
            ChildOp::Patch { child, bundle } => {
                assert(wa + wb.push((child, Some(bundle))) =~= (wa + wb).push((child, Some(bundle))));
            },
            ChildOp::Attach(child) => {
                assert(wa + wb.push((child, None)) =~= (wa + wb).push((child, None)));
            },
            _ => {},
        }
    }
}

pub(crate) proof fn lemma_keep_contains(d: Seq<BundleRef>, p: spec_fn(BundleRef) -> bool, x: BundleRef)
    requires
        keep(d, p).contains(x),
    ensures
        d.contains(x),
        p(x),
    decreases d.len(),
{
    if d.len() > 0 {
        let rest = keep(d.drop_first(), p);
        let i = choose|i: int| 0 <= i < keep(d, p).len() && keep(d, p)[i] == x;
        if p(d[0]) {
            assert(keep(d, p) == seq![d[0]] + rest);
            if i == 0 {
                assert(d[0] == x);
            } else {
                assert(rest[i - 1] == x);
                lemma_keep_contains(d.drop_first(), p, x);
                let j = choose|j: int| 0 <= j < d.drop_first().len() && d.drop_first()[j] == x;
                assert(d[j + 1] == x);
            }
        } else {
            assert(keep(d, p) =~= rest);
            lemma_keep_contains(d.drop_first(), p, x);
            let j = choose|j: int| 0 <= j < d.drop_first().len() && d.drop_first()[j] == x;
            assert(d[j + 1] == x);
        }
    }
}

/// Bundles still standing in the list before a write: not detached, and not
/// reused by a child written already (the last `k` children).
spec fn standing(ops: Seq<ChildOp>, sources: Seq<Option<usize>>, n: nat, k: nat, x: BundleRef) -> bool {
    match x {
        BundleRef::Old(b) => detach_count(ops, b) == 0 && !(exists|i: int|
            n - k <= i < n && sources[i] == Some(b)),
        BundleRef::New(_) => true,
    }
}

/// The state after the first `t` operations: standing old nodes, then the
/// written children in order; the writer's record holds them last first.
spec fn state_at(ops: Seq<ChildOp>, sources: Seq<Option<usize>>, n: nat, m: nat, t: int) -> bool {
    let k = writes(ops.take(t)).len();
    let st = perform(ops.take(t), m);
    &&& k <= n
    &&& st.0 == keep(
        mounted(m),
        |x: BundleRef| standing(ops.take(t), sources, n, k, x),
    ) + shown(sources).subrange(n - k, n as int)
    &&& st.1 == Seq::new(k, |j: int| shown(sources)[n - 1 - j])
    &&& writes(ops.take(t)) == writes(ops).take(k as int)
}

proof fn lemma_state_step(ops: Seq<ChildOp>, sources: Seq<Option<usize>>, n: nat, m: nat, t: int)
    requires
        plan_sound(ops, sources, n, m),
        m <= usize::MAX,
        n <= usize::MAX,
        detaches_first(ops),
        reuse_in_order(sources),
        0 <= t < ops.len(),
        state_at(ops, sources, n, m, t),
    ensures
        state_at(ops, sources, n, m, t + 1),
{
    match ops[t] {
        ChildOp::Detach(b) => lemma_step_detach(ops, sources, n, m, t, b),
        ChildOp::Patch { child, bundle } => lemma_step_patch(ops, sources, n, m, t, child, bundle),
        ChildOp::Attach(child) => lemma_step_attach(ops, sources, n, m, t, child),
        ChildOp::Shift { .. } => {},
    }
}

proof fn lemma_step_detach(ops: Seq<ChildOp>, sources: Seq<Option<usize>>, n: nat, m: nat, t: int, b: usize)
    requires
        plan_sound(ops, sources, n, m),
        m <= usize::MAX,
        n <= usize::MAX,
        detaches_first(ops),
        reuse_in_order(sources),
        0 <= t < ops.len(),
        state_at(ops, sources, n, m, t),
        ops[t] == ChildOp::Detach(b),
    ensures
        state_at(ops, sources, n, m, t + 1),
{
    let pre = ops.take(t);
    let post = ops.take(t + 1);
    let op = ops[t];
    lemma_take_last(ops, t);
    assert(post =~= pre.push(op));
    lemma_writes_push(pre, op);
    let k = writes(pre).len();
    let sh = shown(sources);
    let p0 = |x: BundleRef| standing(pre, sources, n, k, x);
    assert(ops =~= post + ops.skip(t + 1));
    lemma_writes_concat(post, ops.skip(t + 1));
    assert(writes(ops) == writes(post) + writes(ops.skip(t + 1)));
    assert(writes(ops).len() == n);
    assert(writes(post).len() <= n);
    assert(writes(post) =~= writes(ops).take(writes(post).len() as int));

    // No write came before a detach.
    assert(k == 0) by {
        if k > 0 {
            assert(writes(pre).len() > 0);
            assert forall|j: int| 0 <= j < pre.len() implies #[trigger] pre[j] is Detach by {
                assert(pre[j] == ops[j]);
                assert(ops[t] is Detach);
            }
            lemma_no_writes(pre);
        }
    }
    let p1 = |x: BundleRef| standing(post, sources, n, k, x);
    lemma_remove_keep(mounted(m), p0, BundleRef::Old(b));
    assert forall|i: int| 0 <= i < mounted(m).len() implies (|y: BundleRef| p0(y) && y
        != BundleRef::Old(b))(#[trigger] mounted(m)[i]) == p1(mounted(m)[i]) by {
        let x = mounted(m)[i];
        if let BundleRef::Old(c) = x {
            lemma_detach_count_push(pre, op, c);
        }
    }
    lemma_keep_ext(mounted(m), |y: BundleRef| p0(y) && y != BundleRef::Old(b), p1);
    assert(sh.subrange(n - k, n as int) =~= Seq::<BundleRef>::empty());
    assert(perform(post, m).0 =~= keep(mounted(m), p1) + sh.subrange(n - k, n as int));
    assert(perform(post, m).1 == perform(pre, m).1);

}

/// The write an operation at `t` makes is the next child's, counted from
/// the end.
proof fn lemma_write_at(ops: Seq<ChildOp>, sources: Seq<Option<usize>>, n: nat, m: nat, t: int)
    requires
        plan_sound(ops, sources, n, m),
        n <= usize::MAX,
        0 <= t < ops.len(),
        ops[t] is Patch || ops[t] is Attach,
    ensures
        writes(ops.take(t)).len() < n,
        write_of(ops[t]) == ((n - 1 - writes(ops.take(t)).len()) as usize, sources[n - 1 - writes(ops.take(t)).len()]),
        writes(ops.take(t + 1)) == writes(ops.take(t)).push(write_of(ops[t])),
{
    let pre = ops.take(t);
    let post = ops.take(t + 1);
    let op = ops[t];
    lemma_take_last(ops, t);
    assert(post =~= pre.push(op));
    lemma_writes_push(pre, op);
    let k = writes(pre).len();
    assert(ops =~= post + ops.skip(t + 1));
    lemma_writes_concat(post, ops.skip(t + 1));
    assert(writes(ops) == writes(post) + writes(ops.skip(t + 1)));
    assert(writes(post).len() == k + 1);
    assert(writes(ops)[k as int] == writes(post)[k as int]);
    assert(writes(ops)[k as int] == ((n - 1 - k) as usize, sources[n - 1 - k]));
}

/// Patching the next child's bundle takes it out of the standing bundles,
/// where it stood last.
#[verifier::rlimit(40)]
proof fn lemma_patch_standing(
    ops: Seq<ChildOp>,
    sources: Seq<Option<usize>>,
    n: nat,
    m: nat,
    t: int,
    k: nat,
    b: usize,
)
    requires
        plan_sound(ops, sources, n, m),
        m <= usize::MAX,
        n <= usize::MAX,
        detaches_first(ops),
        reuse_in_order(sources),
        0 <= t < ops.len(),
        !(ops[t] is Detach),
        k < n,
        sources[n - 1 - k] == Some(b),
    ensures
        keep(mounted(m), |x: BundleRef| standing(ops.take(t), sources, n, k, x)) == keep(
            mounted(m),
            |x: BundleRef| standing(ops.take(t + 1), sources, n, k + 1, x),
        ).push(BundleRef::Old(b)),
{
    let pre = ops.take(t);
    let post = ops.take(t + 1);
    let op = ops[t];
    lemma_take_last(ops, t);
    assert(post =~= pre.push(op));
    let c = n - 1 - k;
    let p0 = |x: BundleRef| standing(pre, sources, n, k, x);
    let p1 = |x: BundleRef| standing(post, sources, n, k + 1, x);
    assert(b < m);
    assert(pre + ops.skip(t) =~= ops);
    assert forall|y: usize| #[trigger] detach_count(pre, y) == detach_count(ops, y) by {
        lemma_detach_prefix(pre, ops.skip(t), y);
        lemma_no_detach_after(ops, t, y);
    }
    assert(p0(BundleRef::Old(b))) by {
        assert(reused(sources, b)) by {
            assert(sources[c] == Some(b));
        }
        assert(detach_count(pre, b) == detach_count(ops, b));
        if exists|i: int| n - k <= i < n && sources[i] == Some(b) {
            let i = choose|i: int| n - k <= i < n && sources[i] == Some(b);
            assert(sources[i] != sources[c as int]);
        }
    }
    assert forall|cc: usize| cc < m && cc != b && #[trigger] p0(BundleRef::Old(cc)) implies cc > b by {
        assert(detach_count(pre, cc) == detach_count(ops, cc));
        assert(reused(sources, cc));
        let i = choose|i: int| 0 <= i < sources.len() && sources[i] == Some(cc);
        assert(i < c) by {
            if i == c {
                assert(cc == b);
            }
        }
        assert(sources[i]->0 > sources[c as int]->0);
    }
    lemma_keep_lowest_last(m, p0, b);
    assert forall|ii: int| 0 <= ii < mounted(m).len() implies (|y: BundleRef| p0(y) && y
        != BundleRef::Old(b))(#[trigger] mounted(m)[ii]) == p1(mounted(m)[ii]) by {
        let x = mounted(m)[ii];
        if let BundleRef::Old(cc) = x {
            lemma_detach_count_push(pre, op, cc);
            if cc != b {
                if exists|i: int| n - (k + 1) <= i < n && sources[i] == Some(cc) {
                    let i = choose|i: int| n - (k + 1) <= i < n && sources[i] == Some(cc);
                    assert(i != c);
                }
            } else {
                assert(sources[c as int] == Some(cc));
            }
        }
    }
    lemma_keep_ext(mounted(m), |y: BundleRef| p0(y) && y != BundleRef::Old(b), p1);
}

/// Attaching the next child leaves the standing bundles as they are.
proof fn lemma_attach_standing(ops: Seq<ChildOp>, sources: Seq<Option<usize>>, n: nat, m: nat, t: int, k: nat)
    requires
        0 <= t < ops.len(),
        ops[t] is Attach,
        k < n,
        sources[n - 1 - k] is None,
    ensures
        keep(mounted(m), |x: BundleRef| standing(ops.take(t), sources, n, k, x)) == keep(
            mounted(m),
            |x: BundleRef| standing(ops.take(t + 1), sources, n, k + 1, x),
        ),
{
    let pre = ops.take(t);
    let post = ops.take(t + 1);
    let op = ops[t];
    lemma_take_last(ops, t);
    assert(post =~= pre.push(op));
    let c = n - 1 - k;
    let p0 = |x: BundleRef| standing(pre, sources, n, k, x);
    let p1 = |x: BundleRef| standing(post, sources, n, k + 1, x);
    assert forall|ii: int| 0 <= ii < mounted(m).len() implies p0(#[trigger] mounted(m)[ii]) == p1(
        mounted(m)[ii],
    ) by {
        let x = mounted(m)[ii];
        if let BundleRef::Old(cc) = x {
            lemma_detach_count_push(pre, op, cc);
            if exists|i: int| n - (k + 1) <= i < n && sources[i] == Some(cc) {
                let i = choose|i: int| n - (k + 1) <= i < n && sources[i] == Some(cc);
                assert(i != c);
            }
        }
    }
    lemma_keep_ext(mounted(m), p0, p1);
}

proof fn lemma_step_patch(
    ops: Seq<ChildOp>,
    sources: Seq<Option<usize>>,
    n: nat,
    m: nat,
    t: int,
    child: usize,
    bundle: usize,
)
    requires
        plan_sound(ops, sources, n, m),
        m <= usize::MAX,
        n <= usize::MAX,
        detaches_first(ops),
        reuse_in_order(sources),
        0 <= t < ops.len(),
        state_at(ops, sources, n, m, t),
        ops[t] == (ChildOp::Patch { child, bundle }),
    ensures
        state_at(ops, sources, n, m, t + 1),
{
    let pre = ops.take(t);
    let post = ops.take(t + 1);
    lemma_take_last(ops, t);
    lemma_write_at(ops, sources, n, m, t);
    let k = writes(pre).len();
    let c = n - 1 - k;
    assert(child == c && sources[c] == Some(bundle));
    lemma_patch_standing(ops, sources, n, m, t, k, bundle);
    let sh = shown(sources);
    let p1 = |x: BundleRef| standing(post, sources, n, k + 1, x);
    assert(sh[c as int] == BundleRef::Old(bundle));
    assert(sh.subrange(n - (k + 1), n as int) =~= seq![BundleRef::Old(bundle)] + sh.subrange(
        n - k,
        n as int,
    ));
    assert(perform(post, m).0 =~= keep(mounted(m), p1) + sh.subrange(n - (k + 1), n as int));
    assert(perform(post, m).1 =~= Seq::new(k + 1, |j: int| sh[n - 1 - j]));
    assert(writes(post) =~= writes(ops).take((k + 1) as int));
}

#[verifier::spinoff_prover]
#[verifier::rlimit(40)]
proof fn lemma_step_attach(ops: Seq<ChildOp>, sources: Seq<Option<usize>>, n: nat, m: nat, t: int, child: usize)
    requires
        plan_sound(ops, sources, n, m),
        m <= usize::MAX,
        n <= usize::MAX,
        detaches_first(ops),
        reuse_in_order(sources),
        0 <= t < ops.len(),
        state_at(ops, sources, n, m, t),
        ops[t] == ChildOp::Attach(child),
    ensures
        state_at(ops, sources, n, m, t + 1),
{
    let pre = ops.take(t);
    let post = ops.take(t + 1);
    lemma_take_last(ops, t);
    lemma_write_at(ops, sources, n, m, t);
    let k = writes(pre).len();
    let c = n - 1 - k;
    assert(child == c && sources[c] is None);
    lemma_attach_standing(ops, sources, n, m, t, k);
    let sh = shown(sources);
    let p0 = |x: BundleRef| standing(pre, sources, n, k, x);
    let p1 = |x: BundleRef| standing(post, sources, n, k + 1, x);
    let kept = keep(mounted(m), p0);
    let e = sh.subrange(n - k, n as int);
    assert(sh[c as int] == BundleRef::New(child));
    assert(sh.subrange(n - (k + 1), n as int) =~= seq![BundleRef::New(child)] + e);
    if k == 0 {
        assert(e =~= Seq::<BundleRef>::empty());
        assert(perform(post, m).0 =~= kept + sh.subrange(n - (k + 1), n as int));
    } else {
        let w = perform(pre, m).1;
        assert(w.last() == e[0]);
        assert(!kept.contains(e[0])) by {
            if kept.contains(e[0]) {
                lemma_keep_contains(mounted(m), p0, e[0]);
                match sources[n - k] {
                    Some(bb) => {
                        assert(e[0] == BundleRef::Old(bb));
                        assert(!p0(BundleRef::Old(bb)));
                    },
                    None => {
                        let j = choose|j: int| 0 <= j < mounted(m).len() && mounted(m)[j] == e[0];
                        assert(e[0] == BundleRef::New((n - k) as usize));
                    },
                }
            }
        }
        lemma_insert_after_prefix(kept, e, BundleRef::New(child));
        assert(perform(post, m).0 =~= kept + sh.subrange(n - (k + 1), n as int));
    }
    assert(perform(post, m).1 =~= Seq::new(k + 1, |j: int| sh[n - 1 - j]));
    assert(writes(post) =~= writes(ops).take((k + 1) as int));
}

proof fn lemma_no_writes(ops: Seq<ChildOp>)
    requires
        forall|j: int| 0 <= j < ops.len() ==> #[trigger] ops[j] is Detach,
    ensures
        writes(ops).len() == 0,
    decreases ops.len(),
{
    if ops.len() > 0 {
        assert forall|j: int| 0 <= j < ops.drop_last().len() implies #[trigger] ops.drop_last()[j] is Detach by {
            assert(ops.drop_last()[j] == ops[j]);
        }
        lemma_no_writes(ops.drop_last());
        assert(ops.last() == ops[ops.len() - 1]);
    }
}

proof fn lemma_detach_prefix(a: Seq<ChildOp>, b: Seq<ChildOp>, x: usize)
    ensures
        detach_count(a + b, x) == detach_count(a, x) + detach_count(b, x),
    decreases b.len(),
{
    if b.len() == 0 {
        assert(a + b =~= a);
    } else {
        lemma_detach_prefix(a, b.drop_last(), x);
        assert((a + b).drop_last() =~= a + b.drop_last());
        assert((a + b).last() == b.last());
    }
}

/// After a write, nothing is detached any more.
proof fn lemma_no_detach_after(ops: Seq<ChildOp>, t: int, x: usize)
    requires
        detaches_first(ops),
        0 <= t < ops.len(),
        !(ops[t] is Detach),
    ensures
        detach_count(ops.skip(t), x) == 0,
{
    let rest = ops.skip(t);
    assert forall|j: int| 0 <= j < rest.len() implies !(#[trigger] rest[j] is Detach) by {
        assert(rest[j] == ops[t + j]);
        if j > 0 && ops[t + j] is Detach {
            assert(ops[t] is Detach);
        }
    }
    lemma_no_detach(rest, x);
}

proof fn lemma_no_detach(ops: Seq<ChildOp>, x: usize)
    requires
        forall|j: int| 0 <= j < ops.len() ==> !(#[trigger] ops[j] is Detach),
    ensures
        detach_count(ops, x) == 0,
    decreases ops.len(),
{
    if ops.len() > 0 {
        assert forall|j: int| 0 <= j < ops.drop_last().len() implies !(#[trigger] ops.drop_last()[j] is Detach) by {
            assert(ops.drop_last()[j] == ops[j]);
        }
        lemma_no_detach(ops.drop_last(), x);
        assert(ops.last() == ops[ops.len() - 1]);
    }
}

proof fn lemma_state_all(ops: Seq<ChildOp>, sources: Seq<Option<usize>>, n: nat, m: nat, t: int)
    requires
        plan_sound(ops, sources, n, m),
        m <= usize::MAX,
        n <= usize::MAX,
        detaches_first(ops),
        reuse_in_order(sources),
        0 <= t <= ops.len(),
    ensures
        state_at(ops, sources, n, m, t),
    decreases t,
{
    if t == 0 {
        let pre = ops.take(0);
        assert(pre =~= Seq::<ChildOp>::empty());
        let p0 = |x: BundleRef| standing(pre, sources, n, 0, x);
        assert forall|i: int| 0 <= i < mounted(m).len() implies p0(#[trigger] mounted(m)[i]) by {
        }
        lemma_keep_all(mounted(m), p0);
        assert(shown(sources).subrange(n - 0, n as int) =~= Seq::<BundleRef>::empty());
        assert(perform(pre, m).0 =~= keep(mounted(m), p0) + shown(sources).subrange(n - 0, n as int));
        assert(perform(pre, m).1 =~= Seq::new(0, |j: int| shown(sources)[n - 1 - j]));
        assert(writes(pre) =~= writes(ops).take(0));
    } else {
        lemma_state_all(ops, sources, n, m, t - 1);
        lemma_state_step(ops, sources, n, m, t - 1);
    }
}

pub(crate) proof fn lemma_keep_all(d: Seq<BundleRef>, p: spec_fn(BundleRef) -> bool)
    requires
        forall|i: int| 0 <= i < d.len() ==> p(#[trigger] d[i]),
    ensures
        keep(d, p) == d,
    decreases d.len(),
{
    if d.len() > 0 {
        assert forall|i: int| 0 <= i < d.drop_first().len() implies p(#[trigger] d.drop_first()[i]) by {
            assert(d.drop_first()[i] == d[i + 1]);
        }
        lemma_keep_all(d.drop_first(), p);
        assert(p(d[0]));
        assert(keep(d, p) =~= d);
    }
}

/// A plan that detaches first and moves nothing, and whose reused bundles
/// keep their order, leaves the list showing the new children in order:
/// each reused bundle, or the bundle attached for the child.
pub proof fn lemma_plan_shows_children(ops: Seq<ChildOp>, sources: Seq<Option<usize>>, n: nat, m: nat)
    requires
        plan_sound(ops, sources, n, m),
        m <= usize::MAX,
        n <= usize::MAX,
        detaches_first(ops),
        reuse_in_order(sources),
    ensures
        perform(ops, m).0 == shown(sources),
{
    lemma_state_all(ops, sources, n, m, ops.len() as int);
    let t = ops.len() as int;
    assert(ops.take(t) =~= ops);
    let k = writes(ops).len();
    assert(k == n);
    let p = |x: BundleRef| standing(ops, sources, n, k, x);
    assert forall|i: int| 0 <= i < mounted(m).len() implies !p(#[trigger] mounted(m)[i]) by {
        let x = mounted(m)[i];
        let b = (m - 1 - i) as usize;
        assert(x == BundleRef::Old(b));
        if reused(sources, b) {
            let j = choose|j: int| 0 <= j < sources.len() && sources[j] == Some(b);
            assert(n - k <= j < n);
        } else {
            assert(detach_count(ops, b) == 1);
        }
    }
    lemma_keep_none(mounted(m), p);
    assert(shown(sources).subrange(n - k, n as int) =~= shown(sources));
    assert(perform(ops, m).0 =~= shown(sources));
}

} // verus!
