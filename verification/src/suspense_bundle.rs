//! How a suspense boundary is laid out in the host tree, and the steps that
//! bring it in line with a new suspense node.
//!
//! While suspended, the children live in a detached parent element and the
//! fallback stands where the children would be; otherwise the children
//! stand there and no fallback exists.

use vstd::prelude::*;
use crate::key::{key_eq, Key};

verus! {

/// One step on the bundle of a suspense boundary, in order.
#[derive(Debug, Clone, Copy, PartialEq, Eq, Structural)]
pub enum SuspenseStep {
    /// Attach the children at the end of the detached parent.
    AttachChildrenDetached,
    /// Attach the children at the boundary's position.
    AttachChildrenInPlace,
    /// Reconcile the children at the end of the detached parent.
    ReconcileChildrenDetached,
    /// Reconcile the children at the boundary's position.
    ReconcileChildrenInPlace,
    /// Move the children to the end of the detached parent.
    ShiftChildrenToDetached,
    /// Move the children to the boundary's position.
    ShiftChildrenInPlace,
    /// Attach the fallback at the boundary's position.
    AttachFallback,
    /// Reconcile the fallback at the boundary's position.
    ReconcileFallback,
    /// Detach the fallback from the parent.
    DetachFallback,
}

/// Where the parts of a suspense bundle are.
#[derive(Debug, Clone, Copy, PartialEq, Eq, Structural)]
pub struct SuspenseLayout {
    /// The children have been attached.
    pub children_attached: bool,
    /// The children are in the detached parent.
    pub children_detached: bool,
    /// A fallback is attached at the boundary's position.
    pub fallback_shown: bool,
}

/// The layout of a suspense bundle that is suspended exactly when it shows
/// its fallback.
pub open spec fn layout_ok(l: SuspenseLayout, suspended: bool) -> bool {
    &&& l.children_attached
    &&& l.children_detached == suspended
    &&& l.fallback_shown == suspended
}

/// A step can be taken in a layout: children and fallback are reconciled,
/// moved or detached only once attached, and attached only once.
pub open spec fn step_allowed(l: SuspenseLayout, s: SuspenseStep) -> bool {
    match s {
        SuspenseStep::AttachChildrenDetached | SuspenseStep::AttachChildrenInPlace => !l.children_attached,
        SuspenseStep::ReconcileChildrenDetached => l.children_attached && l.children_detached,
        SuspenseStep::ReconcileChildrenInPlace => l.children_attached && !l.children_detached,
        SuspenseStep::ShiftChildrenToDetached | SuspenseStep::ShiftChildrenInPlace => l.children_attached,
        SuspenseStep::AttachFallback => !l.fallback_shown,
        SuspenseStep::ReconcileFallback | SuspenseStep::DetachFallback => l.fallback_shown,
    }
}

/// The layout after a step.
pub open spec fn apply_step(l: SuspenseLayout, s: SuspenseStep) -> SuspenseLayout {
    match s {
        SuspenseStep::AttachChildrenDetached => SuspenseLayout { children_attached: true, children_detached: true, ..l },
        SuspenseStep::AttachChildrenInPlace => SuspenseLayout { children_attached: true, children_detached: false, ..l },
        SuspenseStep::ShiftChildrenToDetached => SuspenseLayout { children_detached: true, ..l },
        SuspenseStep::ShiftChildrenInPlace => SuspenseLayout { children_detached: false, ..l },
        SuspenseStep::AttachFallback => SuspenseLayout { fallback_shown: true, ..l },
        SuspenseStep::DetachFallback => SuspenseLayout { fallback_shown: false, ..l },
        _ => l,
    }
}

/// Every step is allowed in the layout it meets; the layout after them all.
pub open spec fn run_steps(l: SuspenseLayout, steps: Seq<SuspenseStep>) -> Option<SuspenseLayout>
    decreases steps.len(),
{
    if steps.len() == 0 {
        Some(l)
    } else {
        match run_steps(l, steps.drop_last()) {
            Some(m) => if step_allowed(m, steps.last()) {
                Some(apply_step(m, steps.last()))
            } else {
                None
            },
            None => None,
        }
    }
}

/// The steps that attach a new suspense bundle: the children go to the
/// detached parent and the fallback in place when suspended, else the
/// children go in place. The last step gives the boundary's position.
pub fn attach_steps(suspended: bool) -> (steps: Vec<SuspenseStep>)
    ensures
        steps@ == (if suspended {
            seq![SuspenseStep::AttachChildrenDetached, SuspenseStep::AttachFallback]
        } else {
            seq![SuspenseStep::AttachChildrenInPlace]
        }),
{
    if suspended {
        vec![SuspenseStep::AttachChildrenDetached, SuspenseStep::AttachFallback]
    } else {
        vec![SuspenseStep::AttachChildrenInPlace]
    }
}

/// The steps that bring a suspense bundle showing its fallback or not to a
/// node that is suspended or not:
/// - still suspended: reconcile the children in the detached parent, then
///   the fallback in place;
/// - still not suspended: reconcile the children in place;
/// - newly suspended: move the children to the detached parent, reconcile
///   them there, and attach the fallback in place;
/// - newly resumed: detach the fallback, move the children in place, and
///   reconcile them there.
/// The last step gives the boundary's position.
pub fn reconcile_steps(suspended: bool, fallback_shown: bool) -> (steps: Vec<SuspenseStep>)
    ensures
        steps@ == (match (suspended, fallback_shown) {
            (true, true) => seq![SuspenseStep::ReconcileChildrenDetached, SuspenseStep::ReconcileFallback],
            (false, false) => seq![SuspenseStep::ReconcileChildrenInPlace],
            (true, false) => seq![
                SuspenseStep::ShiftChildrenToDetached,
                SuspenseStep::ReconcileChildrenDetached,
                SuspenseStep::AttachFallback,
            ],
            (false, true) => seq![
                SuspenseStep::DetachFallback,
                SuspenseStep::ShiftChildrenInPlace,
                SuspenseStep::ReconcileChildrenInPlace,
            ],
        }),
{
    match (suspended, fallback_shown) {
        (true, true) => vec![SuspenseStep::ReconcileChildrenDetached, SuspenseStep::ReconcileFallback],
        (false, false) => vec![SuspenseStep::ReconcileChildrenInPlace],
        (true, false) => vec![
            SuspenseStep::ShiftChildrenToDetached,
            SuspenseStep::ReconcileChildrenDetached,
            SuspenseStep::AttachFallback,
        ],
        (false, true) => vec![
            SuspenseStep::DetachFallback,
            SuspenseStep::ShiftChildrenInPlace,
            SuspenseStep::ReconcileChildrenInPlace,
        ],
    }
}

/// What a removed suspense bundle detaches: when the fallback is shown,
/// the fallback from the parent (as asked) and then the children from the
/// detached parent, which itself stays; else the children from the parent.
#[derive(Debug, Clone, Copy, PartialEq, Eq, Structural)]
pub enum SuspenseDetach {
    /// Detach the fallback from the parent, then the children from the
    /// detached parent.
    FallbackThenDetachedChildren,
    /// Detach the children from the parent.
    Children,
}

/// What detaching the bundle detaches.
pub fn detach_plan(fallback_shown: bool) -> (d: SuspenseDetach)
    ensures
        d == (if fallback_shown {
            SuspenseDetach::FallbackThenDetachedChildren
        } else {
            SuspenseDetach::Children
        }),
{
    if fallback_shown {
        SuspenseDetach::FallbackThenDetachedChildren
    } else {
        SuspenseDetach::Children
    }
}

/// Which part a move of the bundle moves: the fallback when it is shown,
/// else the children. Returns true for the fallback.
pub fn shift_moves_fallback(fallback_shown: bool) -> (r: bool)
    ensures
        r == fallback_shown,
{
    fallback_shown
}

/// A suspense node keeps an existing suspense bundle only when their keys
/// agree; otherwise the bundle is replaced.
pub fn keeps_bundle(bundle_key: &Option<Key>, key: &Option<Key>) -> (r: bool)
    ensures
        r == (match (*bundle_key, *key) {
            (Some(a), Some(b)) => a@ == b@,
            (None, None) => true,
            _ => false,
        }),
{
    match (bundle_key, key) {
        (Some(a), Some(b)) => key_eq(a, b),
        (None, None) => true,
        _ => false,
    }
}

/// Attaching lays a suspense bundle out for its node: every step is allowed,
/// and the fallback is shown, with the children detached, exactly when the
/// node is suspended.
pub proof fn lemma_attach_layout(suspended: bool)
    ensures
        ({
            let fresh = SuspenseLayout { children_attached: false, children_detached: false, fallback_shown: false };
            let steps = if suspended {
                seq![SuspenseStep::AttachChildrenDetached, SuspenseStep::AttachFallback]
            } else {
                seq![SuspenseStep::AttachChildrenInPlace]
            };
            run_steps(fresh, steps) matches Some(l) && layout_ok(l, suspended)
        }),
{
    reveal_with_fuel(run_steps, 3);
    let fresh = SuspenseLayout { children_attached: false, children_detached: false, fallback_shown: false };
    if suspended {
        let steps = seq![SuspenseStep::AttachChildrenDetached, SuspenseStep::AttachFallback];
        assert(steps.drop_last() =~= seq![SuspenseStep::AttachChildrenDetached]);
        assert(steps.drop_last().drop_last() =~= Seq::<SuspenseStep>::empty());
    } else {
        let steps = seq![SuspenseStep::AttachChildrenInPlace];
        assert(steps.drop_last() =~= Seq::<SuspenseStep>::empty());
    }
}

/// Reconciling keeps the layout right: from a bundle laid out for its last
/// node, the steps are all allowed and lay it out for the new node, whether
/// or not either node is suspended.
pub proof fn lemma_reconcile_layout(l: SuspenseLayout, was_suspended: bool, suspended: bool)
    requires
        layout_ok(l, was_suspended),
    ensures
        ({
            let steps = match (suspended, l.fallback_shown) {
                (true, true) => seq![SuspenseStep::ReconcileChildrenDetached, SuspenseStep::ReconcileFallback],
                (false, false) => seq![SuspenseStep::ReconcileChildrenInPlace],
                (true, false) => seq![
                    SuspenseStep::ShiftChildrenToDetached,
                    SuspenseStep::ReconcileChildrenDetached,
                    SuspenseStep::AttachFallback,
                ],
                (false, true) => seq![
                    SuspenseStep::DetachFallback,
                    SuspenseStep::ShiftChildrenInPlace,
                    SuspenseStep::ReconcileChildrenInPlace,
                ],
            };
            run_steps(l, steps) matches Some(m) && layout_ok(m, suspended)
        }),
{
    reveal_with_fuel(run_steps, 4);
    match (suspended, l.fallback_shown) {
        (true, true) => {
            let steps = seq![SuspenseStep::ReconcileChildrenDetached, SuspenseStep::ReconcileFallback];
            assert(steps.drop_last() =~= seq![SuspenseStep::ReconcileChildrenDetached]);
            assert(steps.drop_last().drop_last() =~= Seq::<SuspenseStep>::empty());
        },
        (false, false) => {
            let steps = seq![SuspenseStep::ReconcileChildrenInPlace];
            assert(steps.drop_last() =~= Seq::<SuspenseStep>::empty());
        },
        (true, false) => {
            let steps = seq![
                SuspenseStep::ShiftChildrenToDetached,
                SuspenseStep::ReconcileChildrenDetached,
                SuspenseStep::AttachFallback,
            ];
            assert(steps.drop_last() =~= seq![
                SuspenseStep::ShiftChildrenToDetached,
                SuspenseStep::ReconcileChildrenDetached,
            ]);
            assert(steps.drop_last().drop_last() =~= seq![SuspenseStep::ShiftChildrenToDetached]);
            assert(steps.drop_last().drop_last().drop_last() =~= Seq::<SuspenseStep>::empty());
        },
        (false, true) => {
            let steps = seq![
                SuspenseStep::DetachFallback,
                SuspenseStep::ShiftChildrenInPlace,
                SuspenseStep::ReconcileChildrenInPlace,
            ];
            assert(steps.drop_last() =~= seq![
                SuspenseStep::DetachFallback,
                SuspenseStep::ShiftChildrenInPlace,
            ]);
            assert(steps.drop_last().drop_last() =~= seq![SuspenseStep::DetachFallback]);
            assert(steps.drop_last().drop_last().drop_last() =~= Seq::<SuspenseStep>::empty());
        },
    }
}

} // verus!
