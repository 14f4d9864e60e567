use lynx_yew::key::Key;
use lynx_yew::lifecycle::{
    run_event, ComponentState, LifecycleAction, LifecycleEvent, RenderOutcome,
};
use lynx_yew::suspense_bundle::{
    attach_steps, detach_plan, keeps_bundle, reconcile_steps, shift_moves_fallback,
    SuspenseDetach, SuspenseStep,
};

fn run(slot: &mut Option<ComponentState>, e: LifecycleEvent) -> Vec<LifecycleAction> {
    let mut actions = Vec::new();
    run_event(slot, e, &mut actions);
    actions
}

#[test]
fn first_commit_is_the_first_render() {
    let mut slot = None;
    assert!(run(&mut slot, LifecycleEvent::Created { comp_id: 7 }).is_empty());
    assert_eq!(slot.map(|s| s.comp_id), Some(7));
    assert_eq!(
        run(&mut slot, LifecycleEvent::Viewed(RenderOutcome::Rendered)),
        vec![
            LifecycleAction::Reconcile,
            LifecycleAction::ScheduleRendered { first_render: true }
        ]
    );
    assert_eq!(
        run(&mut slot, LifecycleEvent::Viewed(RenderOutcome::Rendered)),
        vec![
            LifecycleAction::Reconcile,
            LifecycleAction::ScheduleRendered { first_render: false }
        ]
    );
    assert_eq!(
        run(&mut slot, LifecycleEvent::RenderedRun { first_render: false }),
        vec![LifecycleAction::CallRendered { first_render: false }]
    );
}

#[test]
fn suspension_is_held_once_and_released() {
    let mut slot = Some(ComponentState::new(1));
    let suspend = |s: u64| LifecycleEvent::Viewed(RenderOutcome::Suspended { suspension: s, resumed: false });
    assert_eq!(
        run(&mut slot, suspend(10)),
        vec![LifecycleAction::ListenForResume(10), LifecycleAction::SuspendOn(10)]
    );
    assert_eq!(
        run(&mut slot, suspend(11)),
        vec![
            LifecycleAction::ListenForResume(11),
            LifecycleAction::ResumeSuspension(10),
            LifecycleAction::SuspendOn(11)
        ]
    );
    assert_eq!(
        run(&mut slot, suspend(11)),
        vec![LifecycleAction::ListenForResume(11), LifecycleAction::SuspendOn(11)]
    );
    assert!(run(&mut slot, LifecycleEvent::RenderedRun { first_render: true }).is_empty());
    assert_eq!(
        run(
            &mut slot,
            LifecycleEvent::Viewed(RenderOutcome::Suspended { suspension: 12, resumed: true })
        ),
        vec![LifecycleAction::ScheduleRender]
    );
    assert_eq!(
        run(&mut slot, LifecycleEvent::Viewed(RenderOutcome::Rendered)),
        vec![
            LifecycleAction::ResumeSuspension(11),
            LifecycleAction::Reconcile,
            LifecycleAction::ScheduleRendered { first_render: true }
        ]
    );
    assert_eq!(slot.unwrap().suspension, None);
}

#[test]
fn destroy_releases_and_detaches() {
    let mut slot = Some(ComponentState::new(2));
    run(
        &mut slot,
        LifecycleEvent::Viewed(RenderOutcome::Suspended { suspension: 5, resumed: false }),
    );
    assert_eq!(
        run(&mut slot, LifecycleEvent::Destroyed { parent_to_detach: true }),
        vec![
            LifecycleAction::CallDestroy,
            LifecycleAction::ResumeSuspension(5),
            LifecycleAction::Detach { parent_to_detach: true }
        ]
    );
    assert!(slot.is_none());
    assert!(run(&mut slot, LifecycleEvent::Viewed(RenderOutcome::Rendered)).is_empty());
}

#[test]
fn messages_and_props_schedule_renders() {
    let mut slot = Some(ComponentState::new(3));
    assert_eq!(
        run(&mut slot, LifecycleEvent::MessagesHandled { changed: true }),
        vec![LifecycleAction::ScheduleRender]
    );
    assert!(run(&mut slot, LifecycleEvent::MessagesHandled { changed: false }).is_empty());
    assert_eq!(
        run(
            &mut slot,
            LifecycleEvent::PropsUpdated { props_changed: Some(true), sibling_moved: true }
        ),
        vec![LifecycleAction::ReassignSibling, LifecycleAction::ScheduleRender]
    );
    assert!(run(
        &mut slot,
        LifecycleEvent::PropsUpdated { props_changed: None, sibling_moved: false }
    )
    .is_empty());
    let mut state = ComponentState::new(4);
    let mut actions = Vec::new();
    assert!(!state.changed(Some(false), false, &mut actions));
    assert!(!state.rendered(true, &mut actions));
    assert_eq!(actions, vec![LifecycleAction::CallRendered { first_render: true }]);
}

#[test]
fn suspense_bundle_steps() {
    assert_eq!(
        attach_steps(true),
        vec![SuspenseStep::AttachChildrenDetached, SuspenseStep::AttachFallback]
    );
    assert_eq!(attach_steps(false), vec![SuspenseStep::AttachChildrenInPlace]);
    assert_eq!(
        reconcile_steps(true, false),
        vec![
            SuspenseStep::ShiftChildrenToDetached,
            SuspenseStep::ReconcileChildrenDetached,
            SuspenseStep::AttachFallback
        ]
    );
    assert_eq!(
        reconcile_steps(false, true),
        vec![
            SuspenseStep::DetachFallback,
            SuspenseStep::ShiftChildrenInPlace,
            SuspenseStep::ReconcileChildrenInPlace
        ]
    );
    assert_eq!(
        reconcile_steps(true, true),
        vec![SuspenseStep::ReconcileChildrenDetached, SuspenseStep::ReconcileFallback]
    );
    assert_eq!(reconcile_steps(false, false), vec![SuspenseStep::ReconcileChildrenInPlace]);
    assert_eq!(detach_plan(true), SuspenseDetach::FallbackThenDetachedChildren);
    assert_eq!(detach_plan(false), SuspenseDetach::Children);
    assert!(shift_moves_fallback(true) && !shift_moves_fallback(false));
    assert!(keeps_bundle(&None, &None));
    assert!(keeps_bundle(&Some(Key::from("a")), &Some(Key::from("a"))));
    assert!(!keeps_bundle(&Some(Key::from("a")), &Some(Key::from("b"))));
    assert!(!keeps_bundle(&None, &Some(Key::from("a"))));
}
