use indexmap::IndexMap;
use lynx_yew::attributes::{input_apply_diff, value_apply_diff, AttrOp, Attributes};
use lynx_yew::key::Key;
use lynx_yew::listeners::{EventDescriptor, Registry};
use lynx_yew::node_match::{attach_action, AttachAction, portal_moves, reconcile_choice, text_changes, NodeSummary, ReconcileChoice, TagKind};
use lynx_yew::position::{DomSlot, DomSlots, DynamicDomSlot};
use lynx_yew::subtree::{listeners_for_event, BSubtree, ListenerIds, ListenerRegistration, Subtrees};
use lynx_yew::suspense::{BaseSuspense, BaseSuspenseMsg};
use lynx_yew::tag_bundle::{attach_steps, detach_steps, node_ref_update, reconcile_steps, NodeRefUpdate, TagStep};

fn op(o: &AttrOp) -> (bool, String, String) {
    match o {
        AttrOp::Assign { key, value } => (true, key.clone(), value.clone()),
        AttrOp::Remove { key } => (false, key.clone(), String::new()),
    }
}

fn ops(v: &[AttrOp]) -> Vec<(bool, String, String)> {
    v.iter().map(op).collect()
}

fn pairs(v: &[(&str, &str)]) -> Vec<(String, String)> {
    v.iter().map(|(k, x)| (k.to_string(), x.to_string())).collect()
}

fn index_map(v: &[(&str, &str)]) -> IndexMap<String, String> {
    v.iter().map(|(k, x)| (k.to_string(), x.to_string())).collect()
}

fn set(k: &str, v: &str) -> (bool, String, String) {
    (true, k.to_string(), v.to_string())
}

fn remove(k: &str) -> (bool, String, String) {
    (false, k.to_string(), String::new())
}

#[test]
fn static_attributes_are_all_set_in_order() {
    let a = Attributes::Static(pairs(&[("class", "foo"), ("id", "bar")]));
    assert_eq!(ops(&a.apply()), vec![set("class", "foo"), set("id", "bar")]);
}

#[test]
fn dynamic_attributes_skip_absent_values() {
    let a = Attributes::Dynamic {
        keys: vec!["class".to_string(), "id".to_string()],
        values: vec![None, Some("x".to_string())],
    };
    assert_eq!(ops(&a.apply()), vec![set("id", "x")]);
}

#[test]
fn dynamic_diff_compares_slot_by_slot() {
    let keys = vec!["a".to_string(), "b".to_string(), "c".to_string()];
    let prev = Attributes::Dynamic {
        keys: keys.clone(),
        values: vec![Some("1".to_string()), Some("2".to_string()), None],
    };
    let next = Attributes::Dynamic {
        keys,
        values: vec![Some("1".to_string()), None, Some("3".to_string())],
    };
    assert_eq!(ops(&next.apply_diff(&prev)), vec![remove("b"), set("c", "3")]);
}

#[test]
fn repeated_dynamic_names_are_written_slot_by_slot() {
    let keys = vec!["a".to_string(), "a".to_string()];
    let prev = Attributes::Dynamic {
        keys: keys.clone(),
        values: vec![None, Some("2".to_string())],
    };
    let next = Attributes::Dynamic {
        keys,
        values: vec![Some("1".to_string()), None],
    };
    assert_eq!(ops(&next.apply_diff(&prev)), vec![set("a", "1"), remove("a")]);
}

#[test]
fn index_map_diff_sets_changes_then_removes() {
    let prev = Attributes::IndexMap(index_map(&[("a", "1"), ("b", "2"), ("c", "3")]));
    let next = Attributes::IndexMap(index_map(&[("c", "3"), ("a", "9"), ("d", "4")]));
    assert_eq!(
        ops(&next.apply_diff(&prev)),
        vec![set("a", "9"), set("d", "4"), remove("b")]
    );
}

#[test]
fn mixed_kinds_are_compared_as_maps() {
    let prev = Attributes::Static(pairs(&[("a", "1"), ("b", "2")]));
    let next = Attributes::IndexMap(index_map(&[("b", "2")]));
    assert_eq!(ops(&next.apply_diff(&prev)), vec![remove("a")]);
}

#[test]
fn input_value_diff() {
    let foo = Some("foo".to_string());
    let bar = Some("bar".to_string());
    assert_eq!(value_apply_diff(&foo, &bar), Some("foo".to_string()));
    assert_eq!(value_apply_diff(&foo, &foo), None);
    assert_eq!(value_apply_diff(&None, &foo), Some(String::new()));
    assert_eq!(value_apply_diff(&foo, &None), Some("foo".to_string()));
    assert_eq!(value_apply_diff(&None, &None), None);
    assert_eq!(
        ops(&input_apply_diff(Some(true), &foo, &bar)),
        vec![set("checked", "true"), set("value", "foo")]
    );
    assert_eq!(ops(&input_apply_diff(Some(false), &foo, &foo)), vec![set("checked", "false")]);
    assert_eq!(ops(&input_apply_diff(None, &None, &None)), vec![]);
}

fn descs(v: &[EventDescriptor]) -> Vec<(String, bool)> {
    v.iter().map(|d| (d.event_type().to_string(), d.passive())).collect()
}

#[test]
fn registry_groups_listeners_by_descriptor() {
    let mut reg: Registry<u32> = Registry::new();
    let id = reg.set_listener_id();
    assert_eq!(id, 0);
    assert_eq!(reg.set_listener_id(), 1);
    let pending = vec![
        Some((EventDescriptor::new("tap", false), 1)),
        None,
        Some((EventDescriptor::new("scroll", true), 2)),
        Some((EventDescriptor::new("tap", false), 3)),
    ];
    let attach = reg.register(id, pending);
    assert_eq!(descs(&attach), vec![("tap".to_string(), false), ("scroll".to_string(), true)]);
    assert!(reg.is_registered(id));
    assert_eq!(reg.listeners_for(id, "tap"), Some(&vec![1, 3]));
    assert_eq!(reg.listeners_for(id, "scroll"), Some(&vec![2]));
    assert_eq!(reg.listeners_for(id, "touchend"), None);
    assert_eq!(reg.listeners_for(9, "tap"), None);

    let (detach, attach) = reg.patch(
        id,
        vec![
            Some((EventDescriptor::new("scroll", true), 4)),
            Some((EventDescriptor::new("touchstart", false), 5)),
        ],
    );
    assert_eq!(descs(&detach), vec![("tap".to_string(), false)]);
    assert_eq!(descs(&attach), vec![("touchstart".to_string(), false)]);

    let (detach, attach) = reg.patch(7, vec![Some((EventDescriptor::new("tap", false), 6))]);
    assert!(detach.is_empty() && attach.is_empty());
    assert!(!reg.is_registered(7));

    let detach = reg.unregister(id);
    assert_eq!(
        descs(&detach),
        vec![("scroll".to_string(), true), ("touchstart".to_string(), false)]
    );
    assert!(!reg.is_registered(id));
    assert!(reg.unregister(id).is_empty());
}

#[test]
fn listener_ids_count_up() {
    let mut reg: Registry<u32> = Registry::new();
    for _ in 0..3 {
        reg.set_listener_id();
    }
    assert_eq!(reg.set_listener_id(), 3);
}

#[test]
fn passive_descriptors_differ_from_active_ones() {
    let a = EventDescriptor::new("scroll", true);
    let b = EventDescriptor::new("scroll", false);
    assert!(!a.same(&b));
    assert!(a.same(&a.clone()));
    assert!(a.listener_options().passive);
    assert!(!b.listener_options().passive);
}

#[test]
fn suspense_waits_for_each_suspension_once() {
    let mut s = BaseSuspense::create();
    assert!(!s.is_suspended());
    assert!(s.update(BaseSuspenseMsg::Suspend { suspension: 1, resumed: false }));
    assert!(!s.update(BaseSuspenseMsg::Suspend { suspension: 1, resumed: false }));
    assert!(!s.update(BaseSuspenseMsg::Suspend { suspension: 2, resumed: true }));
    assert!(s.holds(1) && !s.holds(2));
    assert!(s.is_suspended());
    assert!(!s.update(BaseSuspenseMsg::Resume { suspension: 3 }));
    assert!(s.update(BaseSuspenseMsg::Resume { suspension: 1 }));
    assert!(!s.is_suspended());
}

#[test]
fn subtrees_of_an_app_listen_together() {
    let mut world: Subtrees<u32> = Subtrees::new();
    let root = BSubtree::create_root(&mut world, 10);
    assert_eq!(world.subtree_id_of(10), Some(1));
    root.ensure_handled(&mut world, &EventDescriptor::new("tap", false));
    let sub = root.create_subroot(&mut world, 20);
    assert_eq!(world.subtree_id_of(20), Some(2));
    assert_eq!(world.len(), 2);
    sub.ensure_handled(&mut world, &EventDescriptor::new("scroll", true));
    root.unbrand_element(&mut world, 20);
    assert_eq!(world.subtree_id_of(20), None);
}

#[test]
fn listener_registration_follows_the_listeners() {
    let mut world: Subtrees<u32> = Subtrees::new();
    let root = BSubtree::create_root(&mut world, 1);
    let mut ids = ListenerIds::new();
    let mut reg = ListenerRegistration::NoReg;

    let (detach, attach) = reg.apply_diff(
        Some(vec![Some((EventDescriptor::new("tap", false), 7))]),
        &root,
        &mut world,
        &mut ids,
        5,
        500,
    );
    assert!(detach.is_empty());
    assert_eq!(descs(&attach), vec![("tap".to_string(), false)]);
    assert_eq!(reg, ListenerRegistration::Registered { id: 0, el: 5 });
    assert_eq!(ids.get(500), Some(0));
    assert_eq!(world.subtree_id_of(5), Some(1));

    let (detach, attach) = reg.apply_diff(
        Some(vec![Some((EventDescriptor::new("scroll", false), 8))]),
        &root,
        &mut world,
        &mut ids,
        5,
        500,
    );
    assert_eq!(descs(&detach), vec![("tap".to_string(), false)]);
    assert_eq!(descs(&attach), vec![("scroll".to_string(), false)]);

    let (detach, attach) = reg.apply_diff(None, &root, &mut world, &mut ids, 5, 500);
    assert_eq!(descs(&detach), vec![("scroll".to_string(), false)]);
    assert!(attach.is_empty());
    assert_eq!(reg, ListenerRegistration::NoReg);
    assert_eq!(ids.get(500), None);
}

#[test]
fn dynamic_slot_positions_follow_reassignment() {
    let mut slots = DomSlots::new();
    let d = DynamicDomSlot::new(&mut slots, DomSlot::at(5));
    let pos = d.to_position();
    assert_eq!(pos.next_sibling(&slots), Some(5));
    let e = DynamicDomSlot::new(&mut slots, pos);
    let chained = e.to_position();
    assert_eq!(chained.insert_ref_child(&slots), 5);
    d.reassign(&mut slots, DomSlot::at_end());
    assert_eq!(pos.next_sibling(&slots), None);
    assert_eq!(chained.insert_ref_child(&slots), -1);
    assert_eq!(DomSlot::create(Some(3)), DomSlot::at(3));
}

#[test]
fn new_nodes_update_matching_bundles() {
    let div = |key: Option<&str>| NodeSummary::Tag {
        key: key.map(Key::from),
        kind: TagKind::Other("div".to_string()),
    };
    assert_eq!(reconcile_choice(&div(None), &div(None)), ReconcileChoice::Reconcile);
    assert_eq!(reconcile_choice(&div(Some("a")), &div(None)), ReconcileChoice::Replace);
    let span = NodeSummary::Tag { key: None, kind: TagKind::Other("span".to_string()) };
    assert_eq!(reconcile_choice(&div(None), &span), ReconcileChoice::Replace);
    let input = NodeSummary::Tag { key: None, kind: TagKind::Input };
    assert_eq!(reconcile_choice(&input, &NodeSummary::Tag { key: None, kind: TagKind::Input }), ReconcileChoice::Reconcile);
    assert_eq!(reconcile_choice(&NodeSummary::List, &NodeSummary::Text), ReconcileChoice::ReconcileAsList);
    assert_eq!(reconcile_choice(&NodeSummary::Ref(3), &NodeSummary::Ref(3)), ReconcileChoice::Keep);
    assert_eq!(reconcile_choice(&NodeSummary::Ref(3), &NodeSummary::Ref(4)), ReconcileChoice::Replace);
    assert_eq!(reconcile_choice(&NodeSummary::Text, &NodeSummary::Portal), ReconcileChoice::Replace);
    assert_eq!(
        reconcile_choice(
            &NodeSummary::Comp { type_id: 1, key: None },
            &NodeSummary::Comp { type_id: 2, key: None }
        ),
        ReconcileChoice::Replace
    );
    assert_eq!(
        reconcile_choice(
            &NodeSummary::Suspense { key: Some(Key::from("s")) },
            &NodeSummary::Suspense { key: Some(Key::from("s")) }
        ),
        ReconcileChoice::Reconcile
    );
}

#[test]
fn a_reassigned_slot_denotes_what_its_new_target_denotes() {
    let mut slots = DomSlots::new();
    let w = DynamicDomSlot::new(&mut slots, DomSlot::at_end());
    let v = DynamicDomSlot::new(&mut slots, DomSlot::at(9));
    let y = DynamicDomSlot::new(&mut slots, v.to_position());
    let z = DynamicDomSlot::new(&mut slots, y.to_position());
    assert_eq!(w.to_position().try_next_sibling(&slots), Some(None));
    w.reassign(&mut slots, z.to_position());
    assert_eq!(z.to_position().try_next_sibling(&slots), Some(Some(9)));
    assert_eq!(w.to_position().try_next_sibling(&slots), Some(Some(9)));
    assert_eq!(w.to_position().insert_ref_child(&slots), 9);
}

#[test]
fn circular_slots_do_not_resolve() {
    let mut slots = DomSlots::new();
    let a = DynamicDomSlot::new(&mut slots, DomSlot::at_end());
    let b = DynamicDomSlot::new(&mut slots, a.to_position());
    assert_eq!(b.to_position().try_next_sibling(&slots), Some(None));
    a.reassign(&mut slots, b.to_position());
    assert_eq!(b.to_position().try_next_sibling(&slots), None);
    assert_eq!(DomSlot::Chained(9).try_next_sibling(&slots), None);
}

#[test]
fn elements_take_the_namespace_of_their_context() {
    let svg = lynx_yew::namespaces::SVG_NAMESPACE;
    let math = lynx_yew::namespaces::MATHML_NAMESPACE;
    let ns = lynx_yew::namespaces::element_namespace;
    assert_eq!(ns(Some("urn:x"), "svg", None), Some("urn:x".to_string()));
    assert_eq!(ns(None, "svg", None), Some(svg.to_string()));
    assert_eq!(ns(None, "circle", Some(svg)), Some(svg.to_string()));
    assert_eq!(ns(None, "math", None), Some(math.to_string()));
    assert_eq!(ns(None, "mi", Some(math)), Some(math.to_string()));
    assert_eq!(ns(None, "div", None), None);
    assert_eq!(ns(None, "div", Some("urn:other")), None);
}

#[test]
fn portals_move_when_their_target_changes() {

    assert!(!portal_moves(1, 1, Some(4), Some(4)));
    assert!(portal_moves(1, 2, None, None));
    assert!(portal_moves(1, 1, Some(4), None));
    assert!(text_changes("a", "b"));
    assert!(!text_changes("a", "a"));
}

#[test]
fn events_reach_the_listeners_of_their_current_target() {
    let mut reg: Registry<u32> = Registry::new();
    let id = reg.set_listener_id();
    reg.register(
        id,
        vec![
            Some((EventDescriptor::new("tap", false), 1)),
            Some((EventDescriptor::new("scroll", true), 2)),
            Some((EventDescriptor::new("tap", false), 3)),
        ],
    );
    let mut ids = ListenerIds::new();
    ids.store(42, id);
    assert_eq!(listeners_for_event(&ids, &reg, 42, "tap"), Some(&vec![1, 3]));
    assert_eq!(listeners_for_event(&ids, &reg, 42, "scroll"), Some(&vec![2]));
    assert_eq!(listeners_for_event(&ids, &reg, 42, "click"), None);
    assert_eq!(listeners_for_event(&ids, &reg, 43, "tap"), None);
    ids.forget(42);
    assert_eq!(listeners_for_event(&ids, &reg, 42, "tap"), None);
}

#[test]
fn elements_get_attributes_and_listeners_before_insertion() {
    let steps = attach_steps(&TagKind::Other("view".to_string()));
    assert_eq!(
        steps,
        vec![
            TagStep::Create,
            TagStep::ApplyAttributes,
            TagStep::ApplyListeners,
            TagStep::Insert,
            TagStep::AttachChildren,
            TagStep::SetNodeRef,
        ]
    );
    let at = |s: TagStep| steps.iter().position(|x| *x == s).unwrap();
    assert!(at(TagStep::ApplyAttributes) < at(TagStep::Insert));
    assert!(at(TagStep::ApplyListeners) < at(TagStep::Insert));
    assert_eq!(attach_steps(&TagKind::Input)[4], TagStep::ApplyInputFields);
    assert_eq!(attach_steps(&TagKind::Textarea)[4], TagStep::ApplyTextareaValue);
}

#[test]
fn elements_update_attributes_listeners_then_their_state() {
    assert_eq!(
        reconcile_steps(&TagKind::Input),
        vec![TagStep::DiffAttributes, TagStep::DiffListeners, TagStep::DiffInputFields]
    );
    assert_eq!(
        reconcile_steps(&TagKind::Textarea),
        vec![TagStep::DiffAttributes, TagStep::DiffListeners, TagStep::DiffTextareaValue]
    );
    assert_eq!(
        reconcile_steps(&TagKind::Other("text".to_string())),
        vec![TagStep::DiffAttributes, TagStep::DiffListeners, TagStep::ReconcileChildren]
    );
}

#[test]
fn node_references_follow_the_element() {
    assert_eq!(node_ref_update(true, true), NodeRefUpdate { clear_old: false, set_new: false });
    assert_eq!(node_ref_update(true, false), NodeRefUpdate { clear_old: false, set_new: false });
    assert_eq!(node_ref_update(false, true), NodeRefUpdate { clear_old: true, set_new: true });
    assert_eq!(node_ref_update(false, false), NodeRefUpdate { clear_old: false, set_new: true });
}

#[test]
fn elements_detach_their_children_before_leaving_the_parent() {
    assert_eq!(
        detach_steps(&TagKind::Other("view".to_string()), false, true),
        vec![
            TagStep::UnregisterListeners,
            TagStep::DetachChildren,
            TagStep::RemoveFromParent,
            TagStep::ClearNodeRef,
        ]
    );
    assert_eq!(
        detach_steps(&TagKind::Other("view".to_string()), true, false),
        vec![TagStep::UnregisterListeners, TagStep::DetachChildren]
    );
    assert_eq!(
        detach_steps(&TagKind::Input, false, false),
        vec![TagStep::UnregisterListeners, TagStep::RemoveFromParent]
    );
}

#[test]
fn registry_of_a_subtree_is_lent_and_kept() {
    let mut world: Subtrees<u32> = Subtrees::new();
    let root = BSubtree::create_root(&mut world, 1);
    let id = root.with_listener_registry(&mut world, |reg: &mut Registry<u32>| {
        let id = reg.set_listener_id();
        reg.register(id, vec![Some((EventDescriptor::new("tap", false), 9))]);
        id
    });
    assert_eq!(id, 0);
    let found = root.with_listener_registry(&mut world, |reg: &mut Registry<u32>| {
        reg.listeners_for(0, "tap").cloned()
    });
    assert_eq!(found, Some(vec![9]));
    let next = root.with_listener_registry(&mut world, |reg: &mut Registry<u32>| reg.set_listener_id());
    assert_eq!(next, 1);
}

#[test]
fn nodes_attach_by_kind_and_user_nodes_are_inserted() {
    assert_eq!(attach_action(&NodeSummary::Ref(5)), AttachAction::InsertRef(5));
    assert_eq!(attach_action(&NodeSummary::Text), AttachAction::AttachText);
    assert_eq!(attach_action(&NodeSummary::List), AttachAction::AttachList);
    assert_eq!(attach_action(&NodeSummary::Portal), AttachAction::AttachPortal);
    assert_eq!(
        attach_action(&NodeSummary::Tag { key: None, kind: TagKind::Input }),
        AttachAction::AttachTag
    );
    assert_eq!(
        attach_action(&NodeSummary::Comp { type_id: 1, key: None }),
        AttachAction::AttachComp
    );
    assert_eq!(attach_action(&NodeSummary::Suspense { key: None }), AttachAction::AttachSuspense);
}

#[test]
fn index_map_attributes_are_set_in_map_order() {
    let a = Attributes::IndexMap(index_map(&[("b", "2"), ("a", "1"), ("b", "3")]));
    assert_eq!(ops(&a.apply()), vec![set("b", "3"), set("a", "1")]);
}
