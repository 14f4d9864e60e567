use lynx_yew::key::Key;
use lynx_yew::reconcile::{plan_keyed, plan_unkeyed, BundleRef, ChildOp, ReconcilePlan};

/// Performs a plan on the host nodes of a mounted list of `m` bundles and
/// returns the host nodes in document order afterwards.
fn perform(plan: &ReconcilePlan, m: usize) -> Vec<BundleRef> {
    let mut dom: Vec<BundleRef> = (0..m).rev().map(BundleRef::Old).collect();
    let mut written: Vec<BundleRef> = Vec::new();
    let insert_before = |dom: &mut Vec<BundleRef>, anchor: Option<BundleRef>, x: BundleRef| {
        match anchor.and_then(|a| dom.iter().position(|y| *y == a)) {
            Some(i) => dom.insert(i, x),
            None => dom.push(x),
        }
    };
    for op in &plan.ops {
        match *op {
            ChildOp::Detach(b) => dom.retain(|y| *y != BundleRef::Old(b)),
            ChildOp::Patch { bundle, .. } => written.push(BundleRef::Old(bundle)),
            ChildOp::Attach(child) => {
                let anchor = written.last().copied();
                insert_before(&mut dom, anchor, BundleRef::New(child));
                written.push(BundleRef::New(child));
            }
            ChildOp::Shift { target, at } => {
                dom.retain(|y| *y != target);
                let anchor = if at == 0 { None } else { written.get(at - 1).copied() };
                insert_before(&mut dom, anchor, target);
            }
        }
    }
    dom
}

fn shown(plan: &ReconcilePlan) -> Vec<BundleRef> {
    plan.sources
        .iter()
        .enumerate()
        .map(|(i, s)| match s {
            Some(b) => BundleRef::Old(*b),
            None => BundleRef::New(i),
        })
        .collect()
}

fn keys(names: &[u32]) -> Vec<Key> {
    names.iter().map(|k| Key::from(*k)).collect()
}

/// Every arrangement of `k` of the keys `0..pool`.
fn arrangements(pool: u32, k: usize) -> Vec<Vec<u32>> {
    if k == 0 {
        return vec![vec![]];
    }
    let mut out = Vec::new();
    for rest in arrangements(pool, k - 1) {
        for x in 0..pool {
            if !rest.contains(&x) {
                let mut v = rest.clone();
                v.push(x);
                out.push(v);
            }
        }
    }
    out
}

#[test]
fn unkeyed_plans_show_the_new_children() {
    for n in 0..6 {
        for m in 0..6 {
            let p = plan_unkeyed(n, m);
            assert_eq!(perform(&p, m), shown(&p), "n = {}, m = {}", n, m);
        }
    }
}

#[test]
fn unkeyed_plan_of_two_over_three_keeps_the_last_bundles() {
    let p = plan_unkeyed(2, 3);
    assert_eq!(perform(&p, 3), vec![BundleRef::Old(1), BundleRef::Old(0)]);
}

#[test]
fn keyed_plans_show_the_new_children_in_order() {
    let mut lists: Vec<(Vec<u32>, Vec<Key>)> = Vec::new();
    for k in 0..5 {
        for a in arrangements(5, k) {
            let ks = keys(&a);
            lists.push((a, ks));
        }
    }
    for (new, new_keys) in &lists {
        for (old, old_keys) in &lists {
            let old_rev: Vec<Key> = old_keys.iter().rev().cloned().collect();
            let p = plan_keyed(new_keys, &old_rev);
            assert_eq!(perform(&p, old.len()), shown(&p), "new {:?}, old {:?}", new, old);
        }
    }
}

/// Every sequence of `k` keys from `0..pool`, repetitions allowed.
fn sequences(pool: u32, k: usize) -> Vec<Vec<u32>> {
    if k == 0 {
        return vec![vec![]];
    }
    let mut out = Vec::new();
    for rest in sequences(pool, k - 1) {
        for x in 0..pool {
            let mut v = rest.clone();
            v.push(x);
            out.push(v);
        }
    }
    out
}

#[test]
fn keyed_plans_with_repeated_keys_show_the_new_children_in_order() {
    let mut lists: Vec<(Vec<u32>, Vec<Key>)> = Vec::new();
    for k in 0..5 {
        for a in sequences(3, k) {
            let ks = keys(&a);
            lists.push((a, ks));
        }
    }
    for (new, new_keys) in &lists {
        for (old, old_keys) in &lists {
            let old_rev: Vec<Key> = old_keys.iter().rev().cloned().collect();
            let p = plan_keyed(new_keys, &old_rev);
            assert_eq!(perform(&p, old.len()), shown(&p), "new {:?}, old {:?}", new, old);
        }
    }
}

#[test]
fn keyed_plan_moving_the_first_child_last() {
    // Mounted a, b, c, d; new b, c, d, a.
    let new_keys = keys(&[1, 2, 3, 0]);
    let old_rev = keys(&[3, 2, 1, 0]);
    let p = plan_keyed(&new_keys, &old_rev);
    assert_eq!(p.sources, vec![Some(2), Some(1), Some(0), Some(3)]);
    assert_eq!(
        perform(&p, 4),
        vec![BundleRef::Old(2), BundleRef::Old(1), BundleRef::Old(0), BundleRef::Old(3)]
    );
}

#[test]
fn keyed_plans_that_keep_the_old_order_shift_nothing() {
    let mut lists: Vec<(Vec<u32>, Vec<Key>)> = Vec::new();
    for k in 0..5 {
        for a in arrangements(5, k) {
            let ks = keys(&a);
            lists.push((a, ks));
        }
    }
    for (new, new_keys) in &lists {
        for (old, old_keys) in &lists {
            let old_rev: Vec<Key> = old_keys.iter().rev().cloned().collect();
            let p = plan_keyed(new_keys, &old_rev);
            let reused: Vec<usize> = p.sources.iter().filter_map(|s| *s).collect();
            let kept = reused.windows(2).all(|w| w[1] < w[0]);
            let shifts = p.ops.iter().filter(|op| matches!(op, ChildOp::Shift { .. })).count();
            if kept {
                assert_eq!(shifts, 0, "new {:?}, old {:?}", new, old);
            }
        }
    }
    // Mounted a, b, c, d; new a, x, c, d, y: nothing moves.
    let p = plan_keyed(&keys(&[0, 9, 2, 3, 8]), &keys(&[3, 2, 1, 0]));
    assert!(p.ops.iter().all(|op| !matches!(op, ChildOp::Shift { .. })));
}
