//! What a keyed reconciliation plan does to the host's children of the list.
//!
//! A keyed plan may patch bundles where they stand, attach new ones at the
//! writer's place and move bundles there. While it runs, the host nodes of
//! the list are the written bundles, in the order of the new children, and
//! the bundles still pending, in their old order; the written ones stand
//! after the pending ones that the plan may still patch in place.

use vstd::prelude::*;
use crate::list_order::{
    keep, insert_node, remove_node, mounted, perform, shown, lemma_keep_ext, lemma_keep_contains,
    lemma_insert_after_prefix, lemma_remove_keep, lemma_keep_all, lemma_detach_count_push,
};
use crate::reconcile::{BundleRef, ChildOp, detach_count, plan_state};

verus! {

/// No node occurs twice.
pub open spec fn distinct(d: Seq<BundleRef>) -> bool {
    forall|i: int, j: int| #![trigger d[i], d[j]] 0 <= i < j < d.len() ==> d[i] != d[j]
}

/// Node `y` stands before node `z`.
pub open spec fn before(d: Seq<BundleRef>, y: BundleRef, z: BundleRef) -> bool {
    exists|i: int, j: int| #![trigger d[i], d[j]] 0 <= i < j < d.len() && d[i] == y && d[j] == z
}

pub(crate) proof fn lemma_keep_concat(a: Seq<BundleRef>, b: Seq<BundleRef>, p: spec_fn(BundleRef) -> bool)
    ensures
        keep(a + b, p) == keep(a, p) + keep(b, p),
    decreases a.len(),
{
    if a.len() == 0 {
        assert(a + b =~= b);
        assert(keep(a, p) =~= Seq::<BundleRef>::empty());
        assert(keep(a, p) + keep(b, p) =~= keep(b, p));
    } else {
        assert((a + b)[0] == a[0]);
        assert((a + b).drop_first() =~= a.drop_first() + b);
        lemma_keep_concat(a.drop_first(), b, p);
        let h = if p(a[0]) {
            seq![a[0]]
        } else {
            Seq::<BundleRef>::empty()
        };
        assert(keep(a + b, p) == h + keep((a + b).drop_first(), p));
        assert(keep(a, p) == h + keep(a.drop_first(), p));
        assert(h + (keep(a.drop_first(), p) + keep(b, p)) =~= (h + keep(a.drop_first(), p)) + keep(
            b,
            p,
        ));
    }
}

pub(crate) proof fn lemma_keep_single(x: BundleRef, p: spec_fn(BundleRef) -> bool)
    ensures
        keep(seq![x], p) == (if p(x) {
            seq![x]
        } else {
            Seq::<BundleRef>::empty()
        }),
{
    let d = seq![x];
    assert(d.drop_first() =~= Seq::<BundleRef>::empty());
    assert(keep(d.drop_first(), p) =~= Seq::<BundleRef>::empty());
    if p(x) {
        assert(keep(d, p) =~= seq![x]);
    } else {
        assert(keep(d, p) =~= Seq::<BundleRef>::empty());
    }
}

pub(crate) proof fn lemma_contains_keep(d: Seq<BundleRef>, p: spec_fn(BundleRef) -> bool, x: BundleRef)
    requires
        d.contains(x),
        p(x),
    ensures
        keep(d, p).contains(x),
    decreases d.len(),
{
    let i = choose|i: int| 0 <= i < d.len() && d[i] == x;
    let rest = d.drop_first();
    if i == 0 {
        assert(keep(d, p) == seq![x] + keep(rest, p));
        assert(keep(d, p)[0] == x);
    } else {
        assert(rest[i - 1] == x);
        lemma_contains_keep(rest, p, x);
        let h = if p(d[0]) {
            seq![d[0]]
        } else {
            Seq::<BundleRef>::empty()
        };
        assert(keep(d, p) == h + keep(rest, p));
        let j = choose|j: int| 0 <= j < keep(rest, p).len() && keep(rest, p)[j] == x;
        assert(keep(d, p)[h.len() + j] == x);
    }
}

pub(crate) proof fn lemma_keep_distinct(d: Seq<BundleRef>, p: spec_fn(BundleRef) -> bool)
    requires
        distinct(d),
    ensures
        distinct(keep(d, p)),
    decreases d.len(),
{
    if d.len() > 0 {
        let rest = d.drop_first();
        assert(distinct(rest)) by {
            assert forall|i: int, j: int| 0 <= i < j < rest.len() implies #[trigger] rest[i]
                != #[trigger] rest[j] by {
                assert(rest[i] == d[i + 1] && rest[j] == d[j + 1]);
            }
        }
        lemma_keep_distinct(rest, p);
        let k = keep(rest, p);
        if p(d[0]) {
            assert(!k.contains(d[0])) by {
                if k.contains(d[0]) {
                    lemma_keep_contains(rest, p, d[0]);
                    let j = choose|j: int| 0 <= j < rest.len() && rest[j] == d[0];
                    assert(d[j + 1] == d[0]);
                }
            }
            let kd = keep(d, p);
            assert(kd == seq![d[0]] + k);
            assert forall|i: int, j: int| 0 <= i < j < kd.len() implies #[trigger] kd[i] != #[trigger] kd[j] by {
                if i == 0 {
                    assert(kd[j] == k[j - 1]);
                } else {
                    assert(kd[i] == k[i - 1] && kd[j] == k[j - 1]);
                }
            }
        } else {
            assert(keep(d, p) =~= k);
        }
    }
}

pub(crate) proof fn lemma_remove_absent(d: Seq<BundleRef>, x: BundleRef)
    requires
        !d.contains(x),
    ensures
        remove_node(d, x) == d,
    decreases d.len(),
{
    if d.len() > 0 {
        let rest = d.drop_first();
        assert(!rest.contains(x)) by {
            if rest.contains(x) {
                let j = choose|j: int| 0 <= j < rest.len() && rest[j] == x;
                assert(d[j + 1] == x);
            }
        }
        lemma_remove_absent(rest, x);
        assert(d[0] != x);
        assert(remove_node(d, x) =~= seq![d[0]] + rest);
        assert(seq![d[0]] + rest =~= d);
    }
}

/// Removing a node that stands at `i`.
pub(crate) proof fn lemma_remove_at(d: Seq<BundleRef>, x: BundleRef, i: int)
    requires
        distinct(d),
        0 <= i < d.len(),
        d[i] == x,
    ensures
        remove_node(d, x) == d.subrange(0, i) + d.subrange(i + 1, d.len() as int),
    decreases d.len(),
{
    let rest = d.drop_first();
    assert(distinct(rest)) by {
        assert forall|a: int, b: int| 0 <= a < b < rest.len() implies #[trigger] rest[a]
            != #[trigger] rest[b] by {
            assert(rest[a] == d[a + 1] && rest[b] == d[b + 1]);
        }
    }
    if i == 0 {
        assert(!rest.contains(x)) by {
            if rest.contains(x) {
                let j = choose|j: int| 0 <= j < rest.len() && rest[j] == x;
                assert(d[j + 1] == x);
            }
        }
        lemma_remove_absent(rest, x);
        assert(remove_node(d, x) =~= Seq::<BundleRef>::empty() + rest);
        assert(d.subrange(0, 0) + d.subrange(1, d.len() as int) =~= rest);
    } else {
        assert(d[0] != x) by {
            assert(d[0] != d[i]);
        }
        assert(rest[i - 1] == x);
        lemma_remove_at(rest, x, i - 1);
        assert(remove_node(d, x) =~= seq![d[0]] + remove_node(rest, x));
        assert(seq![d[0]] + (rest.subrange(0, i - 1) + rest.subrange(i, rest.len() as int))
            =~= d.subrange(0, i) + d.subrange(i + 1, d.len() as int));
    }
}

/// Inserting before a node that stands at `i`.
pub(crate) proof fn lemma_insert_at(d: Seq<BundleRef>, a: BundleRef, x: BundleRef, i: int)
    requires
        distinct(d),
        0 <= i < d.len(),
        d[i] == a,
    ensures
        insert_node(d, Some(a), x) == d.subrange(0, i) + seq![x] + d.subrange(i, d.len() as int),
{
    let pre = d.subrange(0, i);
    let e = d.subrange(i, d.len() as int);
    assert(pre + e =~= d);
    assert(e[0] == a);
    assert(!pre.contains(a)) by {
        if pre.contains(a) {
            let j = choose|j: int| 0 <= j < pre.len() && pre[j] == a;
            assert(d[j] == d[i]);
        }
    }
    lemma_insert_after_prefix(pre, e, x);
}

pub(crate) proof fn lemma_distinct_sub(d: Seq<BundleRef>, x: BundleRef, i: int)
    requires
        distinct(d),
        0 <= i < d.len(),
        d[i] == x,
    ensures
        forall|j: int| 0 <= j < d.len() && #[trigger] d[j] == x ==> j == i,
{
}

/// Before, in a list without repeats, is an order of the positions.
pub(crate) proof fn lemma_before_at(d: Seq<BundleRef>, y: BundleRef, z: BundleRef, i: int, j: int)
    requires
        distinct(d),
        before(d, y, z),
        0 <= i < d.len(),
        0 <= j < d.len(),
        d[i] == y,
        d[j] == z,
    ensures
        i < j,
{
    let (a, b) = choose|a: int, b: int| 0 <= a < b < d.len() && d[a] == y && d[b] == z;
    lemma_distinct_sub(d, y, i);
    lemma_distinct_sub(d, z, j);
    assert(a == i && b == j);
}

/// Removing a node keeps the order of the others.
pub(crate) proof fn lemma_before_remove(d: Seq<BundleRef>, x: BundleRef, i: int, y: BundleRef, z: BundleRef)
    requires
        distinct(d),
        0 <= i < d.len(),
        d[i] == x,
        y != x,
        z != x,
    ensures
        before(d.subrange(0, i) + d.subrange(i + 1, d.len() as int), y, z) == before(d, y, z),
{
    let r = d.subrange(0, i) + d.subrange(i + 1, d.len() as int);
    assert(r.len() == d.len() - 1);
    assert forall|k: int| 0 <= k < r.len() implies #[trigger] r[k] == (if k < i {
        d[k]
    } else {
        d[k + 1]
    }) by {}
    if before(r, y, z) {
        let (a, b) = choose|a: int, b: int| 0 <= a < b < r.len() && r[a] == y && r[b] == z;
        let fa = if a < i {
            a
        } else {
            a + 1
        };
        let fb = if b < i {
            b
        } else {
            b + 1
        };
        assert(d[fa] == y && d[fb] == z);
    }
    if before(d, y, z) {
        let (a, b) = choose|a: int, b: int| 0 <= a < b < d.len() && d[a] == y && d[b] == z;
        assert(a != i && b != i);
        let ga = if a < i {
            a
        } else {
            a - 1
        };
        let gb = if b < i {
            b
        } else {
            b - 1
        };
        assert(r[ga] == y && r[gb] == z);
    }
}

/// Inserting a node keeps the order of the others.
pub(crate) proof fn lemma_before_insert(d: Seq<BundleRef>, x: BundleRef, i: int, y: BundleRef, z: BundleRef)
    requires
        0 <= i <= d.len(),
        y != x,
        z != x,
    ensures
        before(d.subrange(0, i) + seq![x] + d.subrange(i, d.len() as int), y, z) == before(d, y, z),
{
    let r = d.subrange(0, i) + seq![x] + d.subrange(i, d.len() as int);
    assert(r.len() == d.len() + 1);
    assert forall|k: int| 0 <= k < r.len() implies #[trigger] r[k] == (if k < i {
        d[k]
    } else if k == i {
        x
    } else {
        d[k - 1]
    }) by {}
    if before(r, y, z) {
        let (a, b) = choose|a: int, b: int| 0 <= a < b < r.len() && r[a] == y && r[b] == z;
        assert(a != i && b != i);
        let fa = if a < i {
            a
        } else {
            a - 1
        };
        let fb = if b < i {
            b
        } else {
            b - 1
        };
        assert(d[fa] == y && d[fb] == z);
    }
    if before(d, y, z) {
        let (a, b) = choose|a: int, b: int| 0 <= a < b < d.len() && d[a] == y && d[b] == z;
        let ga = if a < i {
            a
        } else {
            a + 1
        };
        let gb = if b < i {
            b
        } else {
            b + 1
        };
        assert(r[ga] == y && r[gb] == z);
    }
}

/// A node inserted at `i` stands after the nodes before `i`.
pub(crate) proof fn lemma_before_inserted(d: Seq<BundleRef>, x: BundleRef, i: int, k: int)
    requires
        0 <= k < i <= d.len(),
    ensures
        before(d.subrange(0, i) + seq![x] + d.subrange(i, d.len() as int), d[k], x),
{
    let r = d.subrange(0, i) + seq![x] + d.subrange(i, d.len() as int);
    assert(r[k] == d[k] && r[i] == x);
}

pub(crate) proof fn lemma_before_keep_from(d: Seq<BundleRef>, p: spec_fn(BundleRef) -> bool, y: BundleRef, z: BundleRef)
    requires
        before(keep(d, p), y, z),
    ensures
        before(d, y, z),
    decreases d.len(),
{
    let k = keep(d, p);
    let (a, b) = choose|a: int, b: int| 0 <= a < b < k.len() && k[a] == y && k[b] == z;
    let rest = d.drop_first();
    let kr = keep(rest, p);
    if p(d[0]) {
        assert(k == seq![d[0]] + kr);
        if a == 0 {
            assert(kr[b - 1] == z);
            assert(kr.contains(z));
            lemma_keep_contains(rest, p, z);
            let t = choose|t: int| 0 <= t < rest.len() && rest[t] == z;
            assert(d[0] == y && d[t + 1] == z);
        } else {
            assert(kr[a - 1] == y && kr[b - 1] == z);
            lemma_before_keep_from(rest, p, y, z);
            let (c, e) = choose|c: int, e: int| 0 <= c < e < rest.len() && rest[c] == y && rest[e] == z;
            assert(d[c + 1] == y && d[e + 1] == z);
        }
    } else {
        assert(k == kr);
        assert(kr[a] == y && kr[b] == z);
        lemma_before_keep_from(rest, p, y, z);
        let (c, e) = choose|c: int, e: int| 0 <= c < e < rest.len() && rest[c] == y && rest[e] == z;
        assert(d[c + 1] == y && d[e + 1] == z);
    }
}

pub(crate) proof fn lemma_before_keep_to(d: Seq<BundleRef>, p: spec_fn(BundleRef) -> bool, y: BundleRef, z: BundleRef)
    requires
        before(d, y, z),
        p(y),
        p(z),
    ensures
        before(keep(d, p), y, z),
    decreases d.len(),
{
    let (a, b) = choose|a: int, b: int| 0 <= a < b < d.len() && d[a] == y && d[b] == z;
    let rest = d.drop_first();
    let kr = keep(rest, p);
    let h = if p(d[0]) {
        seq![d[0]]
    } else {
        Seq::<BundleRef>::empty()
    };
    let k = keep(d, p);
    assert(k == h + kr);
    if a == 0 {
        assert(rest[b - 1] == z);
        lemma_contains_keep(rest, p, z);
        let t = choose|t: int| 0 <= t < kr.len() && kr[t] == z;
        assert(k[0] == y && k[t + 1] == z);
    } else {
        assert(rest[a - 1] == y && rest[b - 1] == z);
        lemma_before_keep_to(rest, p, y, z);
        let (c, e) = choose|c: int, e: int| 0 <= c < e < kr.len() && kr[c] == y && kr[e] == z;
        assert(k[h.len() + c] == y && k[h.len() + e] == z);
    }
}

/// In the mounted list, a bundle with a higher index stands first.
pub(crate) proof fn lemma_mounted_before(m: nat, b1: usize, b2: usize)
    requires
        b2 < b1 < m,
    ensures
        before(mounted(m), BundleRef::Old(b1), BundleRef::Old(b2)),
{
    let d = mounted(m);
    assert(d[m - 1 - b1] == BundleRef::Old(b1));
    assert(d[m - 1 - b2] == BundleRef::Old(b2));
}

pub(crate) proof fn lemma_mounted_distinct(m: nat)
    requires
        m <= usize::MAX + 1,
    ensures
        distinct(mounted(m)),
{
    let d = mounted(m);
    assert forall|i: int, j: int| 0 <= i < j < d.len() implies #[trigger] d[i] != #[trigger] d[j] by {
        assert(d[i] == BundleRef::Old((m - 1 - i) as usize));
        assert(d[j] == BundleRef::Old((m - 1 - j) as usize));
    }
}

/// Splitting a list at `i` around node `x`.
pub(crate) proof fn lemma_keep_around(d: Seq<BundleRef>, p: spec_fn(BundleRef) -> bool, i: int)
    requires
        0 <= i < d.len(),
    ensures
        keep(d, p) == keep(d.subrange(0, i), p) + keep(seq![d[i]], p) + keep(
            d.subrange(i + 1, d.len() as int),
            p,
        ),
{
    let pre = d.subrange(0, i);
    let post = d.subrange(i + 1, d.len() as int);
    assert(d =~= pre + seq![d[i]] + post);
    lemma_keep_concat(pre + seq![d[i]], post, p);
    lemma_keep_concat(pre, seq![d[i]], p);
}

/// A node that stands before every node kept by `p` comes first when it is
/// kept too.
pub(crate) proof fn lemma_keep_add_first(
    d: Seq<BundleRef>,
    p: spec_fn(BundleRef) -> bool,
    q: spec_fn(BundleRef) -> bool,
    x: BundleRef,
    i: int,
)
    requires
        distinct(d),
        0 <= i < d.len(),
        d[i] == x,
        !p(x),
        forall|y: BundleRef| #[trigger] q(y) == (p(y) || y == x),
        keep(d, p).len() > 0 ==> before(d, x, keep(d, p)[0]),
    ensures
        keep(d, q) == seq![x] + keep(d, p),
{
    let pre = d.subrange(0, i);
    let post = d.subrange(i + 1, d.len() as int);
    lemma_keep_around(d, p, i);
    lemma_keep_around(d, q, i);
    lemma_keep_single(x, p);
    lemma_keep_single(x, q);
    assert forall|k: int| 0 <= k < pre.len() implies p(#[trigger] pre[k]) == q(pre[k]) by {
        assert(pre[k] == d[k]);
        assert(d[k] != d[i]);
    }
    lemma_keep_ext(pre, p, q);
    assert forall|k: int| 0 <= k < post.len() implies p(#[trigger] post[k]) == q(post[k]) by {
        assert(post[k] == d[i + 1 + k]);
        assert(d[i] != d[i + 1 + k]);
    }
    lemma_keep_ext(post, p, q);
    if keep(pre, p).len() > 0 {
        let e0 = keep(pre, p)[0];
        assert(keep(d, p)[0] == e0);
        assert(keep(pre, p).contains(e0));
        lemma_keep_contains(pre, p, e0);
        let t = choose|t: int| 0 <= t < pre.len() && pre[t] == e0;
        assert(d[t] == e0);
        lemma_before_at(d, x, e0, i, t);
    }
    assert(keep(pre, p) =~= Seq::<BundleRef>::empty());
    assert(keep(d, q) =~= seq![x] + keep(d, p));
}

/// The nodes kept by `p` split at a kept node that stands at `i`.
pub(crate) proof fn lemma_keep_split(
    d: Seq<BundleRef>,
    p: spec_fn(BundleRef) -> bool,
    u: Seq<BundleRef>,
    v: Seq<BundleRef>,
    i: int,
)
    requires
        distinct(d),
        keep(d, p) == u + v,
        v.len() > 0,
        0 <= i < d.len(),
        d[i] == v[0],
    ensures
        keep(d.subrange(0, i), p) == u,
        keep(d.subrange(i, d.len() as int), p) == v,
{
    let pre = d.subrange(0, i);
    let post = d.subrange(i, d.len() as int);
    assert(d =~= pre + post);
    lemma_keep_concat(pre, post, p);
    lemma_keep_distinct(d, p);
    let k = keep(d, p);
    assert(k[u.len() as int] == v[0]);
    assert(v.contains(v[0]));
    lemma_keep_contains(d, p, v[0]);
    assert(p(v[0]));
    assert(post[0] == v[0]);
    assert(post =~= seq![post[0]] + post.drop_first());
    assert(keep(post, p) == seq![v[0]] + keep(post.drop_first(), p));
    let kp = keep(pre, p);
    assert(k[kp.len() as int] == v[0]);
    assert(kp.len() == u.len()) by {
        if kp.len() < u.len() {
            assert(k[kp.len() as int] == k[u.len() as int]);
        } else if kp.len() > u.len() {
            assert(k[kp.len() as int] == k[u.len() as int]);
        }
    }
    assert(kp =~= k.subrange(0, kp.len() as int));
    assert(u =~= k.subrange(0, u.len() as int));
    assert(keep(post, p) =~= k.subrange(kp.len() as int, k.len() as int));
    assert(v =~= k.subrange(u.len() as int, k.len() as int));
}

/// The nodes of the last `w` children, which the plan has written.
pub open spec fn written_set(sources: Seq<Option<usize>>, n: nat, w: nat) -> spec_fn(BundleRef) -> bool {
    |x: BundleRef| shown(sources).subrange(n - w, n as int).contains(x)
}

/// The old bundles that are neither reused nor detached yet.
pub open spec fn pending_set(ops: Seq<ChildOp>, owner: Seq<int>) -> spec_fn(BundleRef) -> bool {
    |x: BundleRef|
        match x {
            BundleRef::Old(b) => b < owner.len() && owner[b as int] == -1 && detach_count(ops, b) == 0,
            BundleRef::New(_) => false,
        }
}

/// The host nodes of the list while a plan is built: the written nodes in
/// the order of their children, the pending ones in their old order, and
/// the pending bundles from `bar` on before the node of the child written
/// `s`-th, those from `bar2` on before the node written last.
pub(crate) closed spec fn dom_state(
    ops: Seq<ChildOp>,
    sources: Seq<Option<usize>>,
    owner: Seq<int>,
    n: nat,
    m: nat,
    w: nat,
    bar: nat,
    s: nat,
    bar2: nat,
) -> bool {
    let d = perform(ops, m).0;
    let sh = shown(sources);
    let wr = written_set(sources, n, w);
    let pd = pending_set(ops, owner);
    &&& perform(ops, m).1 == Seq::new(w, |j: int| sh[n - 1 - j])
    &&& distinct(d)
    &&& forall|i: int| 0 <= i < d.len() ==> wr(#[trigger] d[i]) || pd(d[i])
    &&& keep(d, wr) == sh.subrange(n - w, n as int)
    &&& keep(d, pd) == keep(mounted(m), pd)
    &&& s <= w
    &&& forall|b: usize|
        #![trigger pd(BundleRef::Old(b))]
        bar <= b && pd(BundleRef::Old(b)) && s > 0 ==> before(d, BundleRef::Old(b), sh[n - s])
    &&& forall|b: usize|
        #![trigger pd(BundleRef::Old(b))]
        bar2 <= b && pd(BundleRef::Old(b)) && w > 0 ==> before(d, BundleRef::Old(b), sh[n - w])
}

/// A pending bundle is not written.
pub(crate) proof fn lemma_pending_not_written(
    ops: Seq<ChildOp>,
    sources: Seq<Option<usize>>,
    owner: Seq<int>,
    n: nat,
    m: nat,
    w: nat,
    x: BundleRef,
)
    requires
        plan_state(ops, sources, owner, n, m, w),
        pending_set(ops, owner)(x),
    ensures
        !written_set(sources, n, w)(x),
{
    let sh = shown(sources);
    let e = sh.subrange(n - w, n as int);
    if e.contains(x) {
        let k = choose|k: int| 0 <= k < e.len() && e[k] == x;
        let i = n - w + k;
        assert(sh[i] == x);
        if let BundleRef::Old(b) = x {
            assert(sources[i] == Some(b));
        }
    }
}

/// Pending bundles keep their old order.
pub(crate) proof fn lemma_pending_order(
    d: Seq<BundleRef>,
    pd: spec_fn(BundleRef) -> bool,
    m: nat,
    b1: usize,
    b2: usize,
)
    requires
        keep(d, pd) == keep(mounted(m), pd),
        pd(BundleRef::Old(b1)),
        pd(BundleRef::Old(b2)),
        b2 < b1 < m,
    ensures
        before(d, BundleRef::Old(b1), BundleRef::Old(b2)),
{
    lemma_mounted_before(m, b1, b2);
    lemma_before_keep_to(mounted(m), pd, BundleRef::Old(b1), BundleRef::Old(b2));
    lemma_before_keep_from(d, pd, BundleRef::Old(b1), BundleRef::Old(b2));
}

/// A pending bundle is a host node of the list.
pub(crate) proof fn lemma_pending_in(d: Seq<BundleRef>, pd: spec_fn(BundleRef) -> bool, m: nat, b: usize)
    requires
        keep(d, pd) == keep(mounted(m), pd),
        pd(BundleRef::Old(b)),
        b < m,
    ensures
        d.contains(BundleRef::Old(b)),
{
    assert(mounted(m)[m - 1 - b] == BundleRef::Old(b));
    lemma_contains_keep(mounted(m), pd, BundleRef::Old(b));
    lemma_keep_contains(d, pd, BundleRef::Old(b));
}

/// Taking a pending node out of the list, or out of the pending ones.
pub(crate) proof fn lemma_pending_remove(d: Seq<BundleRef>, pd: spec_fn(BundleRef) -> bool, m: nat, x: BundleRef, i: int)
    requires
        distinct(d),
        0 <= i < d.len(),
        d[i] == x,
        pd(x),
        keep(d, pd) == keep(mounted(m), pd),
    ensures
        keep(d.subrange(0, i) + d.subrange(i + 1, d.len() as int), pd) == keep(
            mounted(m),
            |y: BundleRef| pd(y) && y != x,
        ),
        keep(d.subrange(0, i) + d.subrange(i + 1, d.len() as int), |y: BundleRef| pd(y) && y != x)
            == keep(mounted(m), |y: BundleRef| pd(y) && y != x),
{
    let pre = d.subrange(0, i);
    let post = d.subrange(i + 1, d.len() as int);
    let q = |y: BundleRef| pd(y) && y != x;
    lemma_keep_around(d, pd, i);
    lemma_keep_single(x, pd);
    lemma_keep_concat(pre, post, pd);
    lemma_keep_concat(pre, post, q);
    let kp = keep(pre, pd);
    let kq = keep(post, pd);
    lemma_keep_distinct(d, pd);
    assert(keep(d, pd) == kp + seq![x] + kq);
    assert((kp + seq![x] + kq)[kp.len() as int] == x);
    lemma_remove_at(kp + seq![x] + kq, x, kp.len() as int);
    assert((kp + seq![x] + kq).subrange(0, kp.len() as int) =~= kp);
    assert((kp + seq![x] + kq).subrange(kp.len() as int + 1, (kp + seq![x] + kq).len() as int) =~= kq);
    lemma_remove_keep(mounted(m), pd, x);
    lemma_remove_keep(d, pd, x);
    assert forall|k: int| 0 <= k < pre.len() implies pd(#[trigger] pre[k]) == q(pre[k]) by {
        assert(pre[k] == d[k]);
        assert(d[k] != d[i]);
    }
    lemma_keep_ext(pre, pd, q);
    assert forall|k: int| 0 <= k < post.len() implies pd(#[trigger] post[k]) == q(post[k]) by {
        assert(post[k] == d[i + 1 + k]);
        assert(d[i] != d[i + 1 + k]);
    }
    lemma_keep_ext(post, pd, q);
}

proof fn lemma_perform_push(ops: Seq<ChildOp>, op: ChildOp, m: nat)
    ensures
        ops.push(op).drop_last() == ops,
        ops.push(op).last() == op,
        ops.push(op).len() > 0,
{
    assert(ops.push(op).drop_last() =~= ops);
}

/// The state before any operation.
pub(crate) proof fn lemma_dom_start(sources: Seq<Option<usize>>, owner: Seq<int>, n: nat, m: nat)
    requires
        plan_state(Seq::<ChildOp>::empty(), sources, owner, n, m, 0),
        forall|b: int| 0 <= b < m ==> #[trigger] owner[b] == -1,
    ensures
        dom_state(Seq::<ChildOp>::empty(), sources, owner, n, m, 0, 0, 0, 0),
{
    let ops = Seq::<ChildOp>::empty();
    let d = perform(ops, m).0;
    let sh = shown(sources);
    let wr = written_set(sources, n, 0);
    let pd = pending_set(ops, owner);
    assert(d == mounted(m));
    lemma_mounted_distinct(m);
    assert(sh.subrange(n - 0, n as int) =~= Seq::<BundleRef>::empty());
    assert forall|i: int| 0 <= i < d.len() implies wr(#[trigger] d[i]) || pd(d[i]) by {
        assert(d[i] == BundleRef::Old((m - 1 - i) as usize));
    }
    assert forall|i: int| 0 <= i < d.len() implies !wr(#[trigger] d[i]) by {}
    crate::list_order::lemma_keep_none(d, wr);
    assert(perform(ops, m).1 =~= Seq::new(0, |j: int| sh[n - 1 - j]));
}

/// Detaching a pending bundle.
pub(crate) proof fn lemma_dom_detach(
    ops: Seq<ChildOp>,
    sources: Seq<Option<usize>>,
    owner: Seq<int>,
    n: nat,
    m: nat,
    w: nat,
    bar: nat,
    s: nat,
    bar2: nat,
    b: usize,
)
    requires
        plan_state(ops, sources, owner, n, m, w),
        dom_state(ops, sources, owner, n, m, w, bar, s, bar2),
        pending_set(ops, owner)(BundleRef::Old(b)),
    ensures
        dom_state(ops.push(ChildOp::Detach(b)), sources, owner, n, m, w, bar, s, bar2),
{
    let x = BundleRef::Old(b);
    let op = ChildOp::Detach(b);
    let ops2 = ops.push(op);
    lemma_perform_push(ops, op, m);
    let d = perform(ops, m).0;
    let d2 = perform(ops2, m).0;
    let sh = shown(sources);
    let wr = written_set(sources, n, w);
    let pd = pending_set(ops, owner);
    let pd2 = pending_set(ops2, owner);
    assert(d2 == remove_node(d, x));
    assert(perform(ops2, m).1 == perform(ops, m).1);
    lemma_pending_in(d, pd, m, b);
    let i = choose|i: int| 0 <= i < d.len() && d[i] == x;
    lemma_remove_at(d, x, i);
    let pre = d.subrange(0, i);
    let post = d.subrange(i + 1, d.len() as int);
    assert(d2 == pre + post);
    assert forall|y: BundleRef| #[trigger] pd2(y) == (pd(y) && y != x) by {
        if let BundleRef::Old(c) = y {
            lemma_detach_count_push(ops, op, c);
        }
    }
    lemma_pending_not_written(ops, sources, owner, n, m, w, x);
    // The written nodes.
    lemma_keep_around(d, wr, i);
    lemma_keep_single(x, wr);
    lemma_keep_concat(pre, post, wr);
    assert(keep(d2, wr) =~= keep(d, wr));
    // The pending nodes.
    lemma_pending_remove(d, pd, m, x, i);
    assert(pd2 =~= |y: BundleRef| pd(y) && y != x);
    // The others keep their places.
    assert forall|k: int| 0 <= k < d2.len() implies wr(#[trigger] d2[k]) || pd2(d2[k]) by {
        let kk = if k < i {
            k
        } else {
            k + 1
        };
        assert(d2[k] == d[kk]);
        assert(d[kk] != d[i]);
    }
    assert(distinct(d2)) by {
        assert forall|a: int, c: int| 0 <= a < c < d2.len() implies #[trigger] d2[a] != #[trigger] d2[c] by {
            let aa = if a < i {
                a
            } else {
                a + 1
            };
            let cc = if c < i {
                c
            } else {
                c + 1
            };
            assert(d2[a] == d[aa] && d2[c] == d[cc]);
        }
    }
    assert forall|c: usize|
        bar <= c && #[trigger] pd2(BundleRef::Old(c)) && s > 0 implies before(d2, BundleRef::Old(c), sh[n - s]) by {
        assert(pd(BundleRef::Old(c)));
        assert(sh.subrange(n - w, n as int)[w - s] == sh[n - s]);
        assert(wr(sh[n - s]));
        lemma_before_remove(d, x, i, BundleRef::Old(c), sh[n - s]);
    }
    assert forall|c: usize|
        bar2 <= c && #[trigger] pd2(BundleRef::Old(c)) && w > 0 implies before(d2, BundleRef::Old(c), sh[n - w]) by {
        assert(pd(BundleRef::Old(c)));
        assert(sh.subrange(n - w, n as int)[0] == sh[n - w]);
        assert(wr(sh[n - w]));
        lemma_before_remove(d, x, i, BundleRef::Old(c), sh[n - w]);
    }
}

/// When every child is written and no bundle is pending, the list shows
/// the new children.
pub(crate) proof fn lemma_dom_final(
    ops: Seq<ChildOp>,
    sources: Seq<Option<usize>>,
    owner: Seq<int>,
    n: nat,
    m: nat,
    bar: nat,
    s: nat,
    bar2: nat,
)
    requires
        plan_state(ops, sources, owner, n, m, n),
        dom_state(ops, sources, owner, n, m, n, bar, s, bar2),
        forall|b: int| 0 <= b < m ==> !(#[trigger] pending_set(ops, owner)(BundleRef::Old(b as usize))),
    ensures
        perform(ops, m).0 == shown(sources),
{
    let d = perform(ops, m).0;
    let sh = shown(sources);
    let wr = written_set(sources, n, n);
    let pd = pending_set(ops, owner);
    assert forall|i: int| 0 <= i < d.len() implies wr(#[trigger] d[i]) by {
        if let BundleRef::Old(b) = d[i] {
            if pd(d[i]) {
                assert(!pd(BundleRef::Old(b as int as usize)));
            }
        }
    }
    lemma_keep_all(d, wr);
    assert(sh.subrange(n - n, n as int) =~= sh);
}

/// The node of the child written next, and the written nodes after it.
proof fn lemma_written_next(sources: Seq<Option<usize>>, sources2: Seq<Option<usize>>, n: nat, w: nat, x: BundleRef)
    requires
        w < n,
        sources.len() == n,
        sources2.len() == n,
        forall|k: int| 0 <= k < n && k != n - 1 - w ==> #[trigger] sources2[k] == sources[k],
        shown(sources2)[n - 1 - w] == x,
    ensures
        shown(sources2).subrange(n - (w + 1), n as int) == seq![x] + shown(sources).subrange(
            n - w,
            n as int,
        ),
        forall|y: BundleRef| #[trigger] written_set(sources2, n, w + 1)(y) == (written_set(sources, n, w)(
            y,
        ) || y == x),
        forall|k: int| n - w <= k < n ==> #[trigger] shown(sources2)[k] == shown(sources)[k],
{
    let sh = shown(sources);
    let sh2 = shown(sources2);
    let e = sh.subrange(n - w, n as int);
    let e2 = sh2.subrange(n - (w + 1), n as int);
    assert forall|k: int| n - w <= k < n implies #[trigger] sh2[k] == sh[k] by {
        assert(sources2[k] == sources[k]);
    }
    assert(e2 =~= seq![x] + e);
    assert forall|y: BundleRef| #[trigger] written_set(sources2, n, w + 1)(y) == (written_set(sources, n, w)(
        y,
    ) || y == x) by {
        if e2.contains(y) {
            let k = choose|k: int| 0 <= k < e2.len() && e2[k] == y;
            if k > 0 {
                assert(e[k - 1] == y);
            }
        }
        if e.contains(y) {
            let k = choose|k: int| 0 <= k < e.len() && e[k] == y;
            assert(e2[k + 1] == y);
        }
        if y == x {
            assert(e2[0] == y);
        }
    }
}

/// The first written node, and the one written `s`-th.
proof fn lemma_written_at(sources: Seq<Option<usize>>, n: nat, w: nat, s: nat)
    requires
        0 < s <= w <= n,
        sources.len() == n,
    ensures
        written_set(sources, n, w)(shown(sources)[n - s]),
        shown(sources).subrange(n - w, n as int)[w - s] == shown(sources)[n - s],
{
    assert(shown(sources).subrange(n - w, n as int)[w - s] == shown(sources)[n - s]);
}

/// Patching the next child into a pending bundle that stands before the
/// written ones.
#[verifier::rlimit(60)]
pub(crate) proof fn lemma_dom_patch(
    ops: Seq<ChildOp>,
    sources: Seq<Option<usize>>,
    owner: Seq<int>,
    n: nat,
    m: nat,
    w: nat,
    bar: nat,
    s: nat,
    bar2: nat,
    b: usize,
)
    requires
        plan_state(ops, sources, owner, n, m, w),
        dom_state(ops, sources, owner, n, m, w, bar, s, bar2),
        w < n,
        pending_set(ops, owner)(BundleRef::Old(b)),
        bar2 <= b,
    ensures
        dom_state(
            ops.push(ChildOp::Patch { child: (n - 1 - w) as usize, bundle: b }),
            sources.update(n - 1 - w, Some(b)),
            owner.update(b as int, n - 1 - w),
            n,
            m,
            w + 1,
            bar,
            s,
            (b + 1) as nat,
        ),
        dom_state(
            ops.push(ChildOp::Patch { child: (n - 1 - w) as usize, bundle: b }),
            sources.update(n - 1 - w, Some(b)),
            owner.update(b as int, n - 1 - w),
            n,
            m,
            w + 1,
            (b + 1) as nat,
            w + 1,
            (b + 1) as nat,
        ),
{
    let c = n - 1 - w;
    let x = BundleRef::Old(b);
    let op = ChildOp::Patch { child: c as usize, bundle: b };
    let ops2 = ops.push(op);
    let sources2 = sources.update(c, Some(b));
    let owner2 = owner.update(b as int, c);
    lemma_perform_push(ops, op, m);
    let d = perform(ops, m).0;
    assert(perform(ops2, m).0 == d);
    let sh = shown(sources);
    let sh2 = shown(sources2);
    assert(sh2[c] == x);
    lemma_written_next(sources, sources2, n, w, x);
    let wr = written_set(sources, n, w);
    let wr2 = written_set(sources2, n, w + 1);
    let pd = pending_set(ops, owner);
    let pd2 = pending_set(ops2, owner2);
    assert(b < m);
    assert forall|y: BundleRef| #[trigger] pd2(y) == (pd(y) && y != x) by {
        if let BundleRef::Old(cc) = y {
            lemma_detach_count_push(ops, op, cc);
        }
    }
    assert(perform(ops2, m).1 =~= Seq::new(w + 1, |j: int| sh2[n - 1 - j]));
    lemma_pending_not_written(ops, sources, owner, n, m, w, x);
    lemma_pending_in(d, pd, m, b);
    let i = choose|i: int| 0 <= i < d.len() && d[i] == x;
    // The written nodes.
    if w > 0 {
        assert(keep(d, wr)[0] == sh[n - w]);
    }
    lemma_keep_add_first(d, wr, wr2, x, i);
    // The pending nodes.
    lemma_remove_keep(d, pd, x);
    lemma_remove_keep(mounted(m), pd, x);
    assert(pd2 =~= |y: BundleRef| pd(y) && y != x);
    assert forall|k: int| 0 <= k < d.len() implies wr2(#[trigger] d[k]) || pd2(d[k]) by {}
    assert forall|cc: usize|
        bar <= cc && #[trigger] pd2(BundleRef::Old(cc)) && s > 0 implies before(d, BundleRef::Old(cc), sh2[n - s]) by {
        assert(pd(BundleRef::Old(cc)));
    }
    assert forall|cc: usize|
        b + 1 <= cc && #[trigger] pd2(BundleRef::Old(cc)) && w + 1 > 0 implies before(
        d,
        BundleRef::Old(cc),
        sh2[n - (w + 1)],
    ) by {
        assert(pd(BundleRef::Old(cc)));
        lemma_pending_order(d, pd, m, cc, b);
    }
}

/// Attaching the next child before the written ones.
#[verifier::rlimit(60)]
pub(crate) proof fn lemma_dom_attach(
    ops: Seq<ChildOp>,
    sources: Seq<Option<usize>>,
    owner: Seq<int>,
    n: nat,
    m: nat,
    w: nat,
    bar: nat,
    s: nat,
    bar2: nat,
)
    requires
        plan_state(ops, sources, owner, n, m, w),
        dom_state(ops, sources, owner, n, m, w, bar, s, bar2),
        w < n,
    ensures
        dom_state(
            ops.push(ChildOp::Attach((n - 1 - w) as usize)),
            sources,
            owner,
            n,
            m,
            w + 1,
            bar,
            s,
            bar2,
        ),
        dom_state(
            ops.push(ChildOp::Attach((n - 1 - w) as usize)),
            sources,
            owner,
            n,
            m,
            w + 1,
            bar2,
            w + 1,
            bar2,
        ),
{
    let c = n - 1 - w;
    let x = BundleRef::New(c as usize);
    let op = ChildOp::Attach(c as usize);
    let ops2 = ops.push(op);
    lemma_perform_push(ops, op, m);
    let d = perform(ops, m).0;
    let wl = perform(ops, m).1;
    let d2 = perform(ops2, m).0;
    let sh = shown(sources);
    assert(sources[c] is None);
    assert(sh[c] == x);
    lemma_written_next(sources, sources, n, w, x);
    let wr = written_set(sources, n, w);
    let wr2 = written_set(sources, n, w + 1);
    let pd = pending_set(ops, owner);
    let pd2 = pending_set(ops2, owner);
    assert forall|y: BundleRef| #[trigger] pd2(y) == pd(y) by {
        if let BundleRef::Old(cc) = y {
            lemma_detach_count_push(ops, op, cc);
        }
    }
    assert(pd2 =~= pd);
    assert(perform(ops2, m).1 =~= Seq::new(w + 1, |j: int| sh[n - 1 - j]));
    // The new node is not there yet.
    assert(!wr(x)) by {
        let e = sh.subrange(n - w, n as int);
        if e.contains(x) {
            let k = choose|k: int| 0 <= k < e.len() && e[k] == x;
            assert(sh[n - w + k] == x);
        }
    }
    assert(!d.contains(x)) by {
        if d.contains(x) {
            let k = choose|k: int| 0 <= k < d.len() && d[k] == x;
            assert(wr(d[k]) || pd(d[k]));
        }
    }
    let i: int = if w > 0 {
        assert(keep(d, wr)[0] == sh[n - w]);
        assert(keep(d, wr).contains(sh[n - w]));
        lemma_keep_contains(d, wr, sh[n - w]);
        choose|i: int| 0 <= i < d.len() && d[i] == sh[n - w]
    } else {
        d.len() as int
    };
    if w > 0 {
        assert(wl.last() == sh[n - w]);
        lemma_insert_at(d, sh[n - w], x, i);
    } else {
        assert(d2 == d.push(x));
    }
    assert(d2 =~= d.subrange(0, i) + seq![x] + d.subrange(i, d.len() as int));
    let pre = d.subrange(0, i);
    let post = d.subrange(i, d.len() as int);
    assert(d =~= pre + post);
    assert(d2 =~= pre + (seq![x] + post));
    assert(distinct(d2)) by {
        assert forall|a: int, e: int| 0 <= a < e < d2.len() implies #[trigger] d2[a] != #[trigger] d2[e] by {
            if a != i && e != i {
                let aa = if a < i {
                    a
                } else {
                    a - 1
                };
                let ee = if e < i {
                    e
                } else {
                    e - 1
                };
                assert(d2[a] == d[aa] && d2[e] == d[ee]);
            } else if a == i {
                assert(d2[e] == d[e - 1]);
            } else {
                assert(d2[a] == d[a]);
            }
        }
    }
    lemma_keep_concat(pre, post, wr);
    lemma_keep_concat(pre, seq![x] + post, wr);
    lemma_keep_concat(seq![x], post, wr);
    lemma_keep_single(x, wr);
    assert(keep(d2, wr) =~= keep(d, wr));
    if w > 0 {
        assert(d2[i] == x && d2[i + 1] == sh[n - w]);
        assert(keep(d2, wr)[0] == sh[n - w]);
    }
    assert(d2[i] == x);
    lemma_keep_add_first(d2, wr, wr2, x, i);
    lemma_keep_concat(pre, post, pd);
    lemma_keep_concat(pre, seq![x] + post, pd);
    lemma_keep_concat(seq![x], post, pd);
    lemma_keep_single(x, pd);
    assert(keep(d2, pd) =~= keep(d, pd));
    assert forall|k: int| 0 <= k < d2.len() implies wr2(#[trigger] d2[k]) || pd2(d2[k]) by {
        if k < i {
            assert(d2[k] == d[k]);
        } else if k > i {
            assert(d2[k] == d[k - 1]);
        }
    }
    assert forall|cc: usize|
        bar <= cc && #[trigger] pd2(BundleRef::Old(cc)) && s > 0 implies before(d2, BundleRef::Old(cc), sh[n - s]) by {
        lemma_written_at(sources, n, w, s);
        lemma_before_insert(d, x, i, BundleRef::Old(cc), sh[n - s]);
    }
    assert forall|cc: usize|
        bar2 <= cc && #[trigger] pd2(BundleRef::Old(cc)) && w + 1 > 0 implies before(
        d2,
        BundleRef::Old(cc),
        sh[n - (w + 1)],
    ) by {
        let y = BundleRef::Old(cc);
        assert(cc < m);
        lemma_pending_in(d, pd, m, cc);
        let k = choose|k: int| 0 <= k < d.len() && d[k] == y;
        if w > 0 {
            lemma_before_at(d, y, sh[n - w], k, i);
        }
        lemma_before_inserted(d, x, i, k);
    }
}

/// Moving a pending bundle before the written ones and patching the next
/// child into it.
#[verifier::rlimit(60)]
pub(crate) proof fn lemma_dom_shift_patch(
    ops: Seq<ChildOp>,
    sources: Seq<Option<usize>>,
    owner: Seq<int>,
    n: nat,
    m: nat,
    w: nat,
    bar: nat,
    s: nat,
    bar2: nat,
    b: usize,
)
    requires
        plan_state(ops, sources, owner, n, m, w),
        dom_state(ops, sources, owner, n, m, w, bar, s, bar2),
        w < n,
        pending_set(ops, owner)(BundleRef::Old(b)),
    ensures
        dom_state(
            ops.push(ChildOp::Shift { target: BundleRef::Old(b), at: w as usize }).push(
                ChildOp::Patch { child: (n - 1 - w) as usize, bundle: b },
            ),
            sources.update(n - 1 - w, Some(b)),
            owner.update(b as int, n - 1 - w),
            n,
            m,
            w + 1,
            bar2,
            w + 1,
            bar2,
        ),
{
    let c = n - 1 - w;
    let x = BundleRef::Old(b);
    let op1 = ChildOp::Shift { target: x, at: w as usize };
    let op2 = ChildOp::Patch { child: c as usize, bundle: b };
    let ops1 = ops.push(op1);
    let ops2 = ops1.push(op2);
    let sources2 = sources.update(c, Some(b));
    let owner2 = owner.update(b as int, c);
    lemma_perform_push(ops, op1, m);
    lemma_perform_push(ops1, op2, m);
    let d = perform(ops, m).0;
    let wl = perform(ops, m).1;
    let d1 = perform(ops1, m).0;
    assert(perform(ops2, m).0 == d1);
    let sh = shown(sources);
    let sh2 = shown(sources2);
    assert(sh2[c] == x);
    lemma_written_next(sources, sources2, n, w, x);
    let wr = written_set(sources, n, w);
    let wr2 = written_set(sources2, n, w + 1);
    let pd = pending_set(ops, owner);
    let pd2 = pending_set(ops2, owner2);
    assert(b < m);
    assert forall|y: BundleRef| #[trigger] pd2(y) == (pd(y) && y != x) by {
        if let BundleRef::Old(cc) = y {
            lemma_detach_count_push(ops, op1, cc);
            lemma_detach_count_push(ops1, op2, cc);
        }
    }
    assert(perform(ops1, m).1 == wl);
    assert(perform(ops2, m).1 =~= Seq::new(w + 1, |j: int| sh2[n - 1 - j]));
    lemma_pending_not_written(ops, sources, owner, n, m, w, x);
    lemma_pending_in(d, pd, m, b);
    let i = choose|i: int| 0 <= i < d.len() && d[i] == x;
    lemma_remove_at(d, x, i);
    let r = d.subrange(0, i) + d.subrange(i + 1, d.len() as int);
    assert(r.len() == d.len() - 1);
    assert forall|k: int| 0 <= k < r.len() implies #[trigger] r[k] == (if k < i {
        d[k]
    } else {
        d[k + 1]
    }) by {}
    assert(distinct(r)) by {
        assert forall|a: int, e: int| 0 <= a < e < r.len() implies #[trigger] r[a] != #[trigger] r[e] by {
            let aa = if a < i {
                a
            } else {
                a + 1
            };
            let ee = if e < i {
                e
            } else {
                e + 1
            };
            assert(r[a] == d[aa] && r[e] == d[ee]);
        }
    }
    assert(!r.contains(x)) by {
        if r.contains(x) {
            let k = choose|k: int| 0 <= k < r.len() && r[k] == x;
            let kk = if k < i {
                k
            } else {
                k + 1
            };
            assert(d[kk] == d[i]);
        }
    }
    // The written nodes, and the pending ones, of the list without `x`.
    lemma_keep_around(d, wr, i);
    lemma_keep_single(x, wr);
    lemma_keep_concat(d.subrange(0, i), d.subrange(i + 1, d.len() as int), wr);
    assert(keep(r, wr) =~= keep(d, wr));
    lemma_pending_remove(d, pd, m, x, i);
    let t: int = if w > 0 {
        let a = sh[n - w];
        assert(keep(r, wr)[0] == a);
        assert(keep(r, wr).contains(a));
        lemma_keep_contains(r, wr, a);
        choose|t: int| 0 <= t < r.len() && r[t] == a
    } else {
        r.len() as int
    };
    if w > 0 {
        assert(wl[w - 1] == sh[n - w]);
        lemma_insert_at(r, sh[n - w], x, t);
    } else {
        assert(d1 == r.push(x));
    }
    assert(d1 =~= r.subrange(0, t) + seq![x] + r.subrange(t, r.len() as int));
    let pre = r.subrange(0, t);
    let post = r.subrange(t, r.len() as int);
    assert(r =~= pre + post);
    assert(d1 =~= pre + (seq![x] + post));
    assert(distinct(d1)) by {
        assert forall|a: int, e: int| 0 <= a < e < d1.len() implies #[trigger] d1[a] != #[trigger] d1[e] by {
            if a != t && e != t {
                let aa = if a < t {
                    a
                } else {
                    a - 1
                };
                let ee = if e < t {
                    e
                } else {
                    e - 1
                };
                assert(d1[a] == r[aa] && d1[e] == r[ee]);
            } else if a == t {
                assert(d1[e] == r[e - 1]);
            } else {
                assert(d1[a] == r[a]);
            }
        }
    }
    let q = |y: BundleRef| pd(y) && y != x;
    lemma_keep_concat(pre, post, wr);
    lemma_keep_concat(pre, seq![x] + post, wr);
    lemma_keep_concat(seq![x], post, wr);
    lemma_keep_single(x, wr);
    assert(keep(d1, wr) =~= keep(d, wr));
    if w > 0 {
        assert(d1[t] == x && d1[t + 1] == sh[n - w]);
        assert(keep(d1, wr)[0] == sh[n - w]);
    }
    assert(d1[t] == x);
    lemma_keep_add_first(d1, wr, wr2, x, t);
    lemma_keep_concat(pre, post, q);
    lemma_keep_concat(pre, seq![x] + post, q);
    lemma_keep_concat(seq![x], post, q);
    lemma_keep_single(x, q);
    assert(keep(d1, q) =~= keep(r, q));
    assert(pd2 =~= q);
    assert forall|k: int| 0 <= k < d1.len() implies wr2(#[trigger] d1[k]) || pd2(d1[k]) by {
        if k < t {
            assert(d1[k] == r[k]);
        } else if k > t {
            assert(d1[k] == r[k - 1]);
        }
    }
    assert forall|cc: usize|
        bar2 <= cc && #[trigger] pd2(BundleRef::Old(cc)) && w + 1 > 0 implies before(
        d1,
        BundleRef::Old(cc),
        sh2[n - (w + 1)],
    ) by {
        let y = BundleRef::Old(cc);
        assert(cc < m);
        lemma_pending_in(d, pd, m, cc);
        let k = choose|k: int| 0 <= k < d.len() && d[k] == y;
        let kr = if k < i {
            k
        } else {
            k - 1
        };
        assert(k != i);
        assert(r[kr] == y);
        if w > 0 {
            lemma_written_at(sources, n, w, w);
            lemma_before_remove(d, x, i, y, sh[n - w]);
            lemma_before_at(r, y, sh[n - w], kr, t);
        }
        lemma_before_inserted(r, x, t, kr);
    }
}

/// While the nodes written after the `s`-th are moved, first written last,
/// before the node written `s`-th: the first `j` of them have moved.
pub(crate) closed spec fn run_state(
    ops: Seq<ChildOp>,
    sources: Seq<Option<usize>>,
    owner: Seq<int>,
    n: nat,
    m: nat,
    w: nat,
    bar: nat,
    s: nat,
    j: nat,
) -> bool {
    let d = perform(ops, m).0;
    let sh = shown(sources);
    let wr = written_set(sources, n, w);
    let pd = pending_set(ops, owner);
    let rr = sh.subrange(n - w, n - s);
    let rest = sh.subrange(n - s, n as int);
    &&& perform(ops, m).1 == Seq::new(w, |k: int| sh[n - 1 - k])
    &&& distinct(d)
    &&& forall|i: int| 0 <= i < d.len() ==> wr(#[trigger] d[i]) || pd(d[i])
    &&& keep(d, wr) == rr.skip(j as int) + rr.take(j as int) + rest
    &&& keep(d, pd) == keep(mounted(m), pd)
    &&& s <= w
    &&& j <= w - s
    &&& forall|b: usize|
        #![trigger pd(BundleRef::Old(b))]
        bar <= b && pd(BundleRef::Old(b)) && s > 0 ==> before(d, BundleRef::Old(b), sh[n - s])
    &&& forall|b: usize, k: int|
        #![trigger pd(BundleRef::Old(b)), rr[k]]
        bar <= b && pd(BundleRef::Old(b)) && 0 <= k < j ==> before(d, BundleRef::Old(b), rr[k])
}

/// Starting to move the nodes written after the `s`-th.
pub(crate) proof fn lemma_run_start(
    ops: Seq<ChildOp>,
    sources: Seq<Option<usize>>,
    owner: Seq<int>,
    n: nat,
    m: nat,
    w: nat,
    bar: nat,
    s: nat,
    bar2: nat,
)
    requires
        plan_state(ops, sources, owner, n, m, w),
        dom_state(ops, sources, owner, n, m, w, bar, s, bar2),
    ensures
        run_state(ops, sources, owner, n, m, w, bar, s, 0),
{
    let sh = shown(sources);
    let rr = sh.subrange(n - w, n - s);
    let rest = sh.subrange(n - s, n as int);
    assert(rr.skip(0) + rr.take(0) + rest =~= sh.subrange(n - w, n as int));
}

/// Moving the next node of the run.
#[verifier::rlimit(100)]
#[verifier::spinoff_prover]
pub(crate) proof fn lemma_run_step(
    ops: Seq<ChildOp>,
    sources: Seq<Option<usize>>,
    owner: Seq<int>,
    n: nat,
    m: nat,
    w: nat,
    bar: nat,
    s: nat,
    j: nat,
)
    requires
        plan_state(ops, sources, owner, n, m, w),
        run_state(ops, sources, owner, n, m, w, bar, s, j),
        j < w - s,
    ensures
        run_state(
            ops.push(ChildOp::Shift { target: shown(sources)[n - w + j], at: s as usize }),
            sources,
            owner,
            n,
            m,
            w,
            bar,
            s,
            j + 1,
        ),
{
    let sh = shown(sources);
    let rr = sh.subrange(n - w, n - s);
    let rest = sh.subrange(n - s, n as int);
    let big_l = w - s;
    let x = rr[j as int];
    assert(x == sh[n - w + j]);
    let op = ChildOp::Shift { target: x, at: s as usize };
    let ops1 = ops.push(op);
    lemma_perform_push(ops, op, m);
    let d = perform(ops, m).0;
    let wl = perform(ops, m).1;
    let d1 = perform(ops1, m).0;
    assert(perform(ops1, m).1 == wl);
    let wr = written_set(sources, n, w);
    let pd = pending_set(ops, owner);
    let pd1 = pending_set(ops1, owner);
    assert forall|y: BundleRef| #[trigger] pd1(y) == pd(y) by {
        if let BundleRef::Old(cc) = y {
            lemma_detach_count_push(ops, op, cc);
        }
    }
    assert(pd1 =~= pd);
    let kk = keep(d, wr);
    let u1 = rr.skip((j + 1) as int) + rr.take(j as int);
    assert(kk == rr.skip(j as int) + rr.take(j as int) + rest);
    assert(kk =~= seq![x] + (u1 + rest));
    assert(kk[0] == x);
    lemma_keep_distinct(d, wr);
    assert(kk.contains(x));
    lemma_keep_contains(d, wr, x);
    assert(wr(x));
    let i = choose|i: int| 0 <= i < d.len() && d[i] == x;
    // The written nodes after `x` is taken out.
    lemma_keep_split(d, wr, Seq::<BundleRef>::empty(), kk, i);
    let dpost = d.subrange(i + 1, d.len() as int);
    assert(d.subrange(i, d.len() as int) =~= seq![x] + dpost);
    lemma_keep_concat(seq![x], dpost, wr);
    lemma_keep_single(x, wr);
    assert(keep(dpost, wr) =~= kk.drop_first());
    assert(kk.drop_first() =~= u1 + rest);
    lemma_remove_at(d, x, i);
    let r = d.subrange(0, i) + dpost;
    lemma_keep_concat(d.subrange(0, i), dpost, wr);
    assert(keep(r, wr) =~= u1 + rest);
    assert(r.len() == d.len() - 1);
    assert forall|k: int| 0 <= k < r.len() implies #[trigger] r[k] == (if k < i {
        d[k]
    } else {
        d[k + 1]
    }) by {}
    assert(distinct(r)) by {
        assert forall|a: int, e: int| 0 <= a < e < r.len() implies #[trigger] r[a] != #[trigger] r[e] by {
            let aa = if a < i {
                a
            } else {
                a + 1
            };
            let ee = if e < i {
                e
            } else {
                e + 1
            };
            assert(r[a] == d[aa] && r[e] == d[ee]);
        }
    }
    assert(!r.contains(x)) by {
        if r.contains(x) {
            let k = choose|k: int| 0 <= k < r.len() && r[k] == x;
            let k2 = if k < i {
                k
            } else {
                k + 1
            };
            assert(d[k2] == d[i]);
        }
    }
    // Where `x` goes.
    let t: int = if s > 0 {
        assert(rest[0] == sh[n - s]);
        assert((u1 + rest)[u1.len() as int] == sh[n - s]);
        assert(keep(r, wr).contains(sh[n - s]));
        lemma_keep_contains(r, wr, sh[n - s]);
        choose|t: int| 0 <= t < r.len() && r[t] == sh[n - s]
    } else {
        r.len() as int
    };
    if s > 0 {
        assert(wl[s - 1] == sh[n - s]);
        lemma_insert_at(r, sh[n - s], x, t);
        lemma_keep_split(r, wr, u1, rest, t);
    } else {
        assert(d1 == r.push(x));
        assert(rest =~= Seq::<BundleRef>::empty());
        assert(r.subrange(0, t) =~= r);
        assert(r.subrange(t, r.len() as int) =~= Seq::<BundleRef>::empty());
        assert(keep(r.subrange(t, r.len() as int), wr) =~= Seq::<BundleRef>::empty());
        assert(u1 + rest =~= u1);
    }
    let pre = r.subrange(0, t);
    let post = r.subrange(t, r.len() as int);
    assert(keep(pre, wr) == u1);
    assert(keep(post, wr) == rest);
    assert(d1 =~= pre + (seq![x] + post));
    assert(r =~= pre + post);
    lemma_keep_concat(pre, seq![x] + post, wr);
    lemma_keep_concat(seq![x], post, wr);
    assert(rr.take(j as int).push(x) =~= rr.take((j + 1) as int));
    assert(keep(d1, wr) =~= rr.skip((j + 1) as int) + rr.take((j + 1) as int) + rest);
    // The pending nodes.
    lemma_keep_around(d, pd, i);
    lemma_keep_single(x, pd);
    lemma_keep_concat(d.subrange(0, i), dpost, pd);
    lemma_keep_concat(pre, post, pd);
    lemma_keep_concat(pre, seq![x] + post, pd);
    lemma_keep_concat(seq![x], post, pd);
    assert(keep(d1, pd) =~= keep(d, pd));
    assert(distinct(d1)) by {
        assert forall|a: int, e: int| 0 <= a < e < d1.len() implies #[trigger] d1[a] != #[trigger] d1[e] by {
            if a != t && e != t {
                let aa = if a < t {
                    a
                } else {
                    a - 1
                };
                let ee = if e < t {
                    e
                } else {
                    e - 1
                };
                assert(d1[a] == r[aa] && d1[e] == r[ee]);
            } else if a == t {
                assert(d1[e] == r[e - 1]);
            } else {
                assert(d1[a] == r[a]);
            }
        }
    }
    assert forall|k: int| 0 <= k < d1.len() implies wr(#[trigger] d1[k]) || pd1(d1[k]) by {
        if k < t {
            assert(d1[k] == r[k]);
        } else if k > t {
            assert(d1[k] == r[k - 1]);
        }
    }
    // The pending nodes stay before the run.
    assert forall|b: usize|
        bar <= b && #[trigger] pd1(BundleRef::Old(b)) && s > 0 implies before(d1, BundleRef::Old(b), sh[n - s]) by {
        let y = BundleRef::Old(b);
        assert(kk[big_l as int] == sh[n - s]);
        assert(kk[0] != kk[big_l as int]);
        lemma_pending_not_written(ops, sources, owner, n, m, w, y);
        lemma_before_remove(d, x, i, y, sh[n - s]);
        lemma_before_insert(r, x, t, y, sh[n - s]);
    }
    assert forall|b: usize, k: int|
        bar <= b && #[trigger] pd1(BundleRef::Old(b)) && 0 <= k < j + 1 implies before(
        d1,
        BundleRef::Old(b),
        #[trigger] rr[k],
    ) by {
        let y = BundleRef::Old(b);
        lemma_pending_not_written(ops, sources, owner, n, m, w, y);
        if k < j {
            assert(kk[big_l - j + k] == rr[k]);
            assert(kk[0] != kk[big_l - j + k]);
            lemma_before_remove(d, x, i, y, rr[k]);
            lemma_before_insert(r, x, t, y, rr[k]);
        } else {
            assert(b < m);
            lemma_pending_in(d, pd, m, b);
            let ky = choose|ky: int| 0 <= ky < d.len() && d[ky] == y;
            assert(ky != i);
            let kr = if ky < i {
                ky
            } else {
                ky - 1
            };
            assert(r[kr] == y);
            if s > 0 {
                assert(kk[big_l as int] == sh[n - s]);
                assert(kk[0] != kk[big_l as int]);
                lemma_before_remove(d, x, i, y, sh[n - s]);
                lemma_before_at(r, y, sh[n - s], kr, t);
            }
            lemma_before_inserted(r, x, t, kr);
        }
    }
}

/// When the whole run has moved, it stands in order before the node
/// written `s`-th.
pub(crate) proof fn lemma_run_done(
    ops: Seq<ChildOp>,
    sources: Seq<Option<usize>>,
    owner: Seq<int>,
    n: nat,
    m: nat,
    w: nat,
    bar: nat,
    s: nat,
)
    requires
        plan_state(ops, sources, owner, n, m, w),
        run_state(ops, sources, owner, n, m, w, bar, s, (w - s) as nat),
    ensures
        dom_state(ops, sources, owner, n, m, w, bar, w, bar),
{
    let d = perform(ops, m).0;
    let sh = shown(sources);
    let pd = pending_set(ops, owner);
    let rr = sh.subrange(n - w, n - s);
    let rest = sh.subrange(n - s, n as int);
    assert(rr.skip((w - s) as int) + rr.take((w - s) as int) + rest =~= sh.subrange(n - w, n as int));
    assert forall|b: usize|
        bar <= b && #[trigger] pd(BundleRef::Old(b)) && w > 0 implies before(d, BundleRef::Old(b), sh[n - w]) by {
        if w > s {
            assert(rr[0] == sh[n - w]);
        }
    }
}

/// Ending a run where it stands: the pending bundles after it stand before
/// every written node.
pub(crate) proof fn lemma_dom_commit(
    ops: Seq<ChildOp>,
    sources: Seq<Option<usize>>,
    owner: Seq<int>,
    n: nat,
    m: nat,
    w: nat,
    bar: nat,
    s: nat,
    bar2: nat,
)
    requires
        dom_state(ops, sources, owner, n, m, w, bar, s, bar2),
    ensures
        dom_state(ops, sources, owner, n, m, w, bar2, w, bar2),
{
}

} // verus!
