//! The steps that attach an element to the host tree, bring it in line
//! with a new element node, or detach it.
//!
//! An element is created, gets its attributes and listeners, and only then
//! is inserted: animation elements start when they are inserted, so they
//! must be complete by then. Its own state follows: the value and checked
//! flag of an input, the value of a text area, or the children of any
//! other element, attached at its end. Detaching cleans up in the other
//! direction: listeners and children go before the element leaves.

use vstd::prelude::*;
use crate::node_match::TagKind;

verus! {

/// One step on an element's bundle, in order.
#[derive(Debug, Clone, Copy, PartialEq, Eq, Structural)]
pub enum TagStep {
    /// Create the host element, in the namespace its tag and parent call for.
    Create,
    /// Apply the attributes to the element.
    ApplyAttributes,
    /// Register the listeners of the element.
    ApplyListeners,
    /// Insert the element at the position it is attached to.
    Insert,
    /// Apply the value and the checked flag of an input.
    ApplyInputFields,
    /// Apply the value of a text area.
    ApplyTextareaValue,
    /// Attach the children at the end of the element.
    AttachChildren,
    /// Point the node reference at the element.
    SetNodeRef,
    /// Apply the difference between the old and the new attributes.
    DiffAttributes,
    /// Apply the difference between the old and the new listeners.
    DiffListeners,
    /// Apply the difference between the old and the new input fields.
    DiffInputFields,
    /// Apply the difference between the old and the new text area value.
    DiffTextareaValue,
    /// Reconcile the children at the end of the element.
    ReconcileChildren,
    /// Unregister the listeners of the element.
    UnregisterListeners,
    /// Detach the children, whose parent goes with them.
    DetachChildren,
    /// Remove the element from its parent.
    RemoveFromParent,
    /// Clear the node reference.
    ClearNodeRef,
}

/// The step that gives an element of this kind its own state.
pub open spec fn inner_attach_step(kind: TagKind) -> TagStep {
    match kind {
        TagKind::Input => TagStep::ApplyInputFields,
        TagKind::Textarea => TagStep::ApplyTextareaValue,
        TagKind::Other(_) => TagStep::AttachChildren,
    }
}

/// The step that updates the state of an element of this kind.
pub open spec fn inner_reconcile_step(kind: TagKind) -> TagStep {
    match kind {
        TagKind::Input => TagStep::DiffInputFields,
        TagKind::Textarea => TagStep::DiffTextareaValue,
        TagKind::Other(_) => TagStep::ReconcileChildren,
    }
}

/// The steps that attach an element of this kind.
pub open spec fn attach_steps_spec(kind: TagKind) -> Seq<TagStep> {
    seq![
        TagStep::Create,
        TagStep::ApplyAttributes,
        TagStep::ApplyListeners,
        TagStep::Insert,
        inner_attach_step(kind),
        TagStep::SetNodeRef,
    ]
}

/// The steps that bring an element of this kind in line with a new element
/// node of the same kind.
pub open spec fn reconcile_steps_spec(kind: TagKind) -> Seq<TagStep> {
    seq![TagStep::DiffAttributes, TagStep::DiffListeners, inner_reconcile_step(kind)]
}

fn inner_attach(kind: &TagKind) -> (s: TagStep)
    ensures
        s == inner_attach_step(*kind),
{
    match kind {
        TagKind::Input => TagStep::ApplyInputFields,
        TagKind::Textarea => TagStep::ApplyTextareaValue,
        TagKind::Other(_) => TagStep::AttachChildren,
    }
}

/// The steps that attach an element of kind `kind`, in order.
pub fn attach_steps(kind: &TagKind) -> (steps: Vec<TagStep>)
    ensures
        steps@ == attach_steps_spec(*kind),
{
    let inner = inner_attach(kind);
    let steps = vec![
        TagStep::Create,
        TagStep::ApplyAttributes,
        TagStep::ApplyListeners,
        TagStep::Insert,
        inner,
        TagStep::SetNodeRef,
    ];
    proof {
        assert(steps@ =~= attach_steps_spec(*kind));
    }
    steps
}

/// The steps that update an element of kind `kind` with a new element node
/// of the same kind, in order.
pub fn reconcile_steps(kind: &TagKind) -> (steps: Vec<TagStep>)
    ensures
        steps@ == reconcile_steps_spec(*kind),
{
    let inner = match kind {
        TagKind::Input => TagStep::DiffInputFields,
        TagKind::Textarea => TagStep::DiffTextareaValue,
        TagKind::Other(_) => TagStep::ReconcileChildren,
    };
    let steps = vec![TagStep::DiffAttributes, TagStep::DiffListeners, inner];
    proof {
        assert(steps@ =~= reconcile_steps_spec(*kind));
    }
    steps
}

/// An element is complete before it is inserted: it is created first, its
/// attributes and listeners are applied before the insertion, and its own
/// state and node reference come after it.
pub proof fn lemma_element_complete_before_insert(kind: TagKind)
    ensures
        attach_steps_spec(kind)[0] == TagStep::Create,
        attach_steps_spec(kind).last() == TagStep::SetNodeRef,
        forall|i: int, j: int|
            #![trigger attach_steps_spec(kind)[i], attach_steps_spec(kind)[j]]
            0 <= i < attach_steps_spec(kind).len() && 0 <= j < attach_steps_spec(kind).len() && (
            attach_steps_spec(kind)[i] == TagStep::ApplyAttributes || attach_steps_spec(kind)[i]
                == TagStep::ApplyListeners) && attach_steps_spec(kind)[j] == TagStep::Insert ==> i < j,
        forall|i: int, j: int|
            #![trigger attach_steps_spec(kind)[i], attach_steps_spec(kind)[j]]
            0 <= i < attach_steps_spec(kind).len() && 0 <= j < attach_steps_spec(kind).len()
                && attach_steps_spec(kind)[i] == TagStep::Insert && attach_steps_spec(kind)[j]
                == inner_attach_step(kind) ==> i < j,
{
    let s = attach_steps_spec(kind);
    assert(s.len() == 6);
    assert forall|i: int| 0 <= i < 6 implies #[trigger] s[i] == (if i == 0 {
        TagStep::Create
    } else if i == 1 {
        TagStep::ApplyAttributes
    } else if i == 2 {
        TagStep::ApplyListeners
    } else if i == 3 {
        TagStep::Insert
    } else if i == 4 {
        inner_attach_step(kind)
    } else {
        TagStep::SetNodeRef
    }) by {}
}

/// The steps that detach an element of this kind: its listeners go, then
/// its children (an element other than an input or a text area has them),
/// then the element leaves its parent unless the parent is detached too,
/// and the node reference is cleared when it still points at the element.
pub open spec fn detach_steps_spec(kind: TagKind, parent_to_detach: bool, ref_points_here: bool) -> Seq<
    TagStep,
> {
    seq![TagStep::UnregisterListeners] + (if kind is Other {
        seq![TagStep::DetachChildren]
    } else {
        Seq::empty()
    }) + (if !parent_to_detach {
        seq![TagStep::RemoveFromParent]
    } else {
        Seq::empty()
    }) + (if ref_points_here {
        seq![TagStep::ClearNodeRef]
    } else {
        Seq::empty()
    })
}

/// The steps that detach an element of kind `kind`, in order, given whether
/// its parent is being detached and whether its node reference still points
/// at it.
pub fn detach_steps(kind: &TagKind, parent_to_detach: bool, ref_points_here: bool) -> (steps: Vec<
    TagStep,
>)
    ensures
        steps@ == detach_steps_spec(*kind, parent_to_detach, ref_points_here),
{
    let mut steps = vec![TagStep::UnregisterListeners];
    if let TagKind::Other(_) = kind {
        steps.push(TagStep::DetachChildren);
    }
    if !parent_to_detach {
        steps.push(TagStep::RemoveFromParent);
    }
    if ref_points_here {
        steps.push(TagStep::ClearNodeRef);
    }
    proof {
        assert(steps@ =~= detach_steps_spec(*kind, parent_to_detach, ref_points_here));
    }
    steps
}

/// Detaching cleans up before the element goes: its listeners are
/// unregistered first, its children are detached before it leaves its
/// parent, and it leaves its parent exactly when the parent stays.
pub proof fn lemma_children_detached_first(kind: TagKind, parent_to_detach: bool, ref_points_here: bool)
    ensures
        detach_steps_spec(kind, parent_to_detach, ref_points_here)[0] == TagStep::UnregisterListeners,
        forall|i: int, j: int|
            #![trigger detach_steps_spec(kind, parent_to_detach, ref_points_here)[i], detach_steps_spec(kind, parent_to_detach, ref_points_here)[j]]
            0 <= i < detach_steps_spec(kind, parent_to_detach, ref_points_here).len() && 0 <= j
                < detach_steps_spec(kind, parent_to_detach, ref_points_here).len()
                && detach_steps_spec(kind, parent_to_detach, ref_points_here)[i]
                == TagStep::DetachChildren && detach_steps_spec(kind, parent_to_detach, ref_points_here)[j]
                == TagStep::RemoveFromParent ==> i < j,
        detach_steps_spec(kind, parent_to_detach, ref_points_here).contains(TagStep::RemoveFromParent)
            == !parent_to_detach,
{
    let s = detach_steps_spec(kind, parent_to_detach, ref_points_here);
    let c: int = if kind is Other {
        1
    } else {
        0
    };
    let r: int = if !parent_to_detach {
        1
    } else {
        0
    };
    assert(s.len() == 1 + c + r + (if ref_points_here {
        1int
    } else {
        0int
    }));
    assert(s[0] == TagStep::UnregisterListeners);
    assert forall|i: int| 0 < i < s.len() implies #[trigger] s[i] == (if i <= c {
        TagStep::DetachChildren
    } else if i <= c + r {
        TagStep::RemoveFromParent
    } else {
        TagStep::ClearNodeRef
    }) by {}
    if !parent_to_detach {
        assert(s[1 + c] == TagStep::RemoveFromParent);
    }
}

/// What happens to the node references when an element is updated: the
/// old reference lets go of the element when it is replaced by another
/// reference and still points at this element; the new one, when it is
/// another reference, is pointed at the element.
#[derive(Debug, Clone, Copy, PartialEq, Eq, Structural)]
pub struct NodeRefUpdate {
    /// Clear the old reference.
    pub clear_old: bool,
    /// Point the new reference at the element.
    pub set_new: bool,
}

/// Decides the node reference updates from whether the new reference is the
/// old one and whether the old one points at this element.
pub fn node_ref_update(same_ref: bool, old_points_here: bool) -> (u: NodeRefUpdate)
    ensures
        u.clear_old == (!same_ref && old_points_here),
        u.set_new == !same_ref,
{
    NodeRefUpdate { clear_old: !same_ref && old_points_here, set_new: !same_ref }
}

} // verus!
