use lynx_yew::blist::BListKeys;
use lynx_yew::key::Key;
use lynx_yew::reconcile::{plan_children, plan_keyed, plan_unkeyed, BundleRef, ChildOp};
use lynx_yew::vdom::{FullyKeyedState, VList, VNode, VTag, VText};

#[test]
fn mutably_change_children() {
    let mut vlist = VList::new();
    assert_eq!(
        vlist.fully_keyed_state(),
        FullyKeyedState::KnownFullyKeyed,
        "should start fully keyed"
    );
    // add a child that is keyed
    vlist.add_child(VNode::VTag({
        let mut tag = VTag::new("a");
        tag.key = Some(42u32.into());
        Box::new(tag)
    }));
    assert_eq!(
        vlist.fully_keyed_state(),
        FullyKeyedState::KnownFullyKeyed,
        "should still be fully keyed"
    );
    assert_eq!(vlist.len(), 1, "should contain 1 child");
    // now add a child that is not keyed
    vlist.add_child(VNode::VText(VText::new("lorem ipsum".to_string())));
    assert_eq!(
        vlist.fully_keyed_state(),
        FullyKeyedState::KnownMissingKeys,
        "should not be fully keyed, text tags have no key"
    );
    let _: &mut Vec<VNode> = vlist.children_mut(); // Use deref mut
    assert_eq!(
        vlist.fully_keyed_state(),
        FullyKeyedState::Unknown,
        "key state should be unknown, since it was potentially modified through children"
    );
}

fn keyed(k: &str) -> VNode {
    let mut tag = VTag::new("view");
    tag.key = Some(Key::from_str(k));
    VNode::VTag(Box::new(tag))
}

fn keys(ks: &[&str]) -> Vec<Key> {
    ks.iter().map(|k| Key::from_str(k)).collect()
}

#[test]
fn integer_keys_use_decimal_text() {
    assert_eq!(Key::from(42u32).as_str(), "42");
    assert_eq!(Key::from(0u8).as_str(), "0");
    assert_eq!(Key::from(-17i64).as_str(), "-17");
    assert_eq!(Key::from(i128::MIN).as_str(), "-170141183460469231731687303715884105728");
    assert_eq!(Key::from(u128::MAX).as_str(), "340282366920938463463374607431768211455");
    assert_eq!(Key::from("test".to_string()), Key::from("test"));
}

#[test]
fn vnode_keys() {
    assert_eq!(keyed("a").key().map(|k| k.as_str()), Some("a"));
    assert!(keyed("a").has_key());
    assert!(!VNode::VText(VText::from_str("t")).has_key());
    let list = VList::with_children(vec![keyed("a")], Some(Key::from_str("l")));
    assert_eq!(VNode::VList(Box::new(list)).key().map(|k| k.as_str()), Some("l"));
}

#[test]
fn to_vlist_mut_wraps_a_single_node() {
    let mut node = keyed("x");
    let list = node.to_vlist_mut();
    assert_eq!(list.len(), 1);
    assert_eq!(list.children()[0].key().map(|k| k.as_str()), Some("x"));
    assert!(list.fully_keyed());
}

#[test]
fn recheck_and_add_children() {
    let mut list = VList::new();
    list.add_children(vec![keyed("a"), keyed("b")]);
    assert_eq!(list.len(), 2);
    assert_eq!(list.fully_keyed_state(), FullyKeyedState::KnownFullyKeyed);
    list.children_mut().push(VNode::VText(VText::from_str("t")));
    list.recheck_fully_keyed();
    assert_eq!(list.fully_keyed_state(), FullyKeyedState::KnownMissingKeys);
    let from = VList::from_children(vec![keyed("a")]);
    assert_eq!(from.fully_keyed_state(), FullyKeyedState::KnownFullyKeyed);
}

#[test]
fn unkeyed_plan_pairs_from_the_end() {
    let p = plan_unkeyed(2, 4);
    assert_eq!(
        p.ops,
        vec![
            ChildOp::Detach(2),
            ChildOp::Detach(3),
            ChildOp::Patch { child: 1, bundle: 0 },
            ChildOp::Patch { child: 0, bundle: 1 },
        ]
    );
    assert_eq!(p.sources, vec![Some(1), Some(0)]);
    let p = plan_unkeyed(3, 1);
    assert_eq!(
        p.ops,
        vec![ChildOp::Patch { child: 2, bundle: 0 }, ChildOp::Attach(1), ChildOp::Attach(0)]
    );
    assert_eq!(p.sources, vec![None, None, Some(0)]);
}

#[test]
fn keyed_plan_reuses_bundles_by_key() {
    // Mounted a, b, c (reversed: c, b, a); new order c, a, b.
    let new_keys = keys(&["c", "a", "b"]);
    let old_rev = keys(&["c", "b", "a"]);
    let p = plan_keyed(&new_keys, &old_rev);
    // Every child reuses the bundle with its key; nothing is attached or detached.
    assert_eq!(p.sources, vec![Some(0), Some(2), Some(1)]);
    assert!(!p.ops.iter().any(|op| matches!(op, ChildOp::Detach(_) | ChildOp::Attach(_))));
    let written: Vec<usize> = p
        .ops
        .iter()
        .filter_map(|op| match op {
            ChildOp::Patch { child, .. } => Some(*child),
            ChildOp::Attach(child) => Some(*child),
            _ => None,
        })
        .collect();
    assert_eq!(written, vec![2, 1, 0]);
}

#[test]
fn keyed_plan_detaches_removed_and_attaches_new() {
    // Mounted a, b, c; new a, x, c.
    let new_keys = keys(&["a", "x", "c"]);
    let old_rev = keys(&["c", "b", "a"]);
    let p = plan_keyed(&new_keys, &old_rev);
    assert_eq!(p.sources, vec![Some(2), None, Some(0)]);
    assert_eq!(p.ops.iter().filter(|op| **op == ChildOp::Detach(1)).count(), 1);
    assert_eq!(p.ops.iter().filter(|op| matches!(op, ChildOp::Attach(1))).count(), 1);
}

#[test]
fn keyed_plan_shifts_moved_bundles() {
    // Mounted a, b, c, d; new d, a, b, c: one bundle moves.
    let new_keys = keys(&["d", "a", "b", "c"]);
    let old_rev = keys(&["d", "c", "b", "a"]);
    let p = plan_keyed(&new_keys, &old_rev);
    assert_eq!(p.sources, vec![Some(0), Some(3), Some(2), Some(1)]);
    let shifts: Vec<BundleRef> = p
        .ops
        .iter()
        .filter_map(|op| match op {
            ChildOp::Shift { target, .. } => Some(*target),
            _ => None,
        })
        .collect();
    assert!(!shifts.is_empty());
    assert!(shifts.iter().all(|t| matches!(t, BundleRef::Old(_))));
}

#[test]
fn keyed_plan_with_same_keys_keeps_every_bundle_in_place() {
    let new_keys = keys(&["a", "b", "c"]);
    let old_rev = keys(&["c", "b", "a"]);
    let p = plan_keyed(&new_keys, &old_rev);
    assert_eq!(p.sources, vec![Some(2), Some(1), Some(0)]);
    assert_eq!(
        p.ops,
        vec![
            ChildOp::Patch { child: 2, bundle: 0 },
            ChildOp::Patch { child: 1, bundle: 1 },
            ChildOp::Patch { child: 0, bundle: 2 },
        ]
    );
}

#[test]
fn plan_children_falls_back_to_positions_without_keys() {
    let new_keys = vec![Some(Key::from_str("a")), None];
    let old_keys = vec![Some(Key::from_str("a")), Some(Key::from_str("b"))];
    let p = plan_children(&new_keys, false, &old_keys, true);
    assert_eq!(p.sources, vec![Some(1), Some(0)]);
}

#[test]
fn blist_records_reversed_keys() {
    let mut b = BListKeys::new();
    let list = VList::with_children(vec![keyed("a"), keyed("b")], None);
    let (plan, children) = b.reconcile(list);
    assert_eq!(children.len(), 2);
    assert_eq!(plan.sources, vec![None, None]);
    assert_eq!(b.len(), 2);
    let list = VList::with_children(vec![keyed("b"), keyed("a"), keyed("c")], None);
    let (plan, _) = b.reconcile(list);
    // Mounted reversed keys are b, a: "b" is bundle 0, "a" is bundle 1.
    assert_eq!(plan.sources, vec![Some(0), Some(1), None]);
    let single = BListKeys::single(Some(Key::from_str("k")));
    assert_eq!(single.key().map(|k| k.as_str()), Some("k"));
}

#[test]
fn create_portal_renders_the_child_under_the_host() {
    let host = std::rc::Rc::new(lynx_yew::binding::Element::from_raw_unchecked(7));
    let node = lynx_yew::vdom::create_portal(VNode::VText(VText::new("x".to_string())), host);
    match node {
        VNode::VPortal(p) => {
            assert_eq!(p.host.id(), 7);
            assert!(p.inner_sibling.is_none());
            assert!(matches!(p.node, VNode::VText(_)));
        }
        _ => panic!("not a portal"),
    }
}

#[test]
fn a_default_list_is_an_empty_fully_keyed_list() {
    let l = VList::default();
    let n = VList::new();
    assert_eq!(l.len(), 0);
    assert_eq!(l.len(), n.len());
    assert_eq!(l.fully_keyed_state(), FullyKeyedState::KnownFullyKeyed);
    assert_eq!(l.fully_keyed_state(), n.fully_keyed_state());
    assert!(l.key.is_none());
}
