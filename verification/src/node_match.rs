//! Whether a new virtual node can update the bundle already in its place,
//! or replaces it.

use vstd::prelude::*;
use crate::binding::str_eq;
use crate::key::{key_eq, Key};

verus! {

/// The element kind of a tag: inputs and text areas keep extra state.
pub enum TagKind {
    Input,
    Textarea,
    Other(String),
}

/// What deciding a match needs to know of a virtual node or of a bundle.
pub enum NodeSummary {
    /// An element with its key and kind.
    Tag { key: Option<Key>, kind: TagKind },
    /// A text node.
    Text,
    /// A component with its type and key.
    Comp { type_id: u64, key: Option<Key> },
    /// A list of nodes.
    List,
    /// A host node supplied by the user, by its host id.
    Ref(i32),
    /// A portal.
    Portal,
    /// A suspense boundary with its key.
    Suspense { key: Option<Key> },
}

/// How a new node meets the bundle in its place.
#[derive(Debug, Clone, Copy, PartialEq, Eq, Structural)]
pub enum ReconcileChoice {
    /// Update the bundle in place.
    Reconcile,
    /// The bundle already shows the node: keep it as it is.
    Keep,
    /// Make the bundle a list (wrapping it when it is not one) and update
    /// that list.
    ReconcileAsList,
    /// Detach the bundle and attach the node in its place.
    Replace,
}

/// Two optional keys agree.
pub open spec fn keys_match(a: Option<Key>, b: Option<Key>) -> bool {
    match (a, b) {
        (Some(x), Some(y)) => x@ == y@,
        (None, None) => true,
        _ => false,
    }
}

/// Two tag kinds agree: both inputs, both text areas, or the same other tag.
pub open spec fn kinds_match(a: TagKind, b: TagKind) -> bool {
    match (a, b) {
        (TagKind::Input, TagKind::Input) => true,
        (TagKind::Textarea, TagKind::Textarea) => true,
        (TagKind::Other(x), TagKind::Other(y)) => x@ == y@,
        _ => false,
    }
}

/// The choice for a node meeting a bundle: a list always updates as a list;
/// a user node is kept when it is the same host node; a tag, component or
/// suspense updates a bundle of its kind with an agreeing key (and the same
/// element kind or component type); text and portals update any bundle of
/// their kind; anything else is replaced.
pub open spec fn choice_spec(node: NodeSummary, bundle: NodeSummary) -> ReconcileChoice {
    match (node, bundle) {
        (NodeSummary::List, _) => ReconcileChoice::ReconcileAsList,
        (NodeSummary::Ref(a), NodeSummary::Ref(b)) => if a == b {
            ReconcileChoice::Keep
        } else {
            ReconcileChoice::Replace
        },
        (NodeSummary::Tag { key: k1, kind: t1 }, NodeSummary::Tag { key: k2, kind: t2 }) => if keys_match(k1, k2) && kinds_match(t1, t2) {
            ReconcileChoice::Reconcile
        } else {
            ReconcileChoice::Replace
        },
        (NodeSummary::Comp { type_id: a, key: k1 }, NodeSummary::Comp { type_id: b, key: k2 }) => if a == b && keys_match(k1, k2) {
            ReconcileChoice::Reconcile
        } else {
            ReconcileChoice::Replace
        },
        (NodeSummary::Suspense { key: k1 }, NodeSummary::Suspense { key: k2 }) => if keys_match(k1, k2) {
            ReconcileChoice::Reconcile
        } else {
            ReconcileChoice::Replace
        },
        (NodeSummary::Text, NodeSummary::Text) => ReconcileChoice::Reconcile,
        (NodeSummary::Portal, NodeSummary::Portal) => ReconcileChoice::Reconcile,
        _ => ReconcileChoice::Replace,
    }
}

fn keys_agree(a: &Option<Key>, b: &Option<Key>) -> (r: bool)
    ensures
        r == keys_match(*a, *b),
{
    match (a, b) {
        (Some(x), Some(y)) => key_eq(x, y),
        (None, None) => true,
        _ => false,
    }
}

fn kinds_agree(a: &TagKind, b: &TagKind) -> (r: bool)
    ensures
        r == kinds_match(*a, *b),
{
    match (a, b) {
        (TagKind::Input, TagKind::Input) => true,
        (TagKind::Textarea, TagKind::Textarea) => true,
        (TagKind::Other(x), TagKind::Other(y)) => str_eq(x.as_str(), y.as_str()),
        _ => false,
    }
}

/// Decides how a new node meets the bundle in its place (see
/// [`choice_spec`]).
pub fn reconcile_choice(node: &NodeSummary, bundle: &NodeSummary) -> (c: ReconcileChoice)
    ensures
        c == choice_spec(*node, *bundle),
{
    match (node, bundle) {
        (NodeSummary::List, _) => ReconcileChoice::ReconcileAsList,
        (NodeSummary::Ref(a), NodeSummary::Ref(b)) => if *a == *b {
            ReconcileChoice::Keep
        } else {
            ReconcileChoice::Replace
        },
        (NodeSummary::Tag { key: k1, kind: t1 }, NodeSummary::Tag { key: k2, kind: t2 }) => {
            if keys_agree(k1, k2) && kinds_agree(t1, t2) {
                ReconcileChoice::Reconcile
            } else {
                ReconcileChoice::Replace
            }
        },
        (NodeSummary::Comp { type_id: a, key: k1 }, NodeSummary::Comp { type_id: b, key: k2 }) => {
            if *a == *b && keys_agree(k1, k2) {
                ReconcileChoice::Reconcile
            } else {
                ReconcileChoice::Replace
            }
        },
        (NodeSummary::Suspense { key: k1 }, NodeSummary::Suspense { key: k2 }) => {
            if keys_agree(k1, k2) {
                ReconcileChoice::Reconcile
            } else {
                ReconcileChoice::Replace
            }
        },
        (NodeSummary::Text, NodeSummary::Text) => ReconcileChoice::Reconcile,
        (NodeSummary::Portal, NodeSummary::Portal) => ReconcileChoice::Reconcile,
        _ => ReconcileChoice::Replace,
    }
}

/// Two optional keys are the same: both absent, or both present with the
/// same text.
pub open spec fn same_key(a: Option<Key>, b: Option<Key>) -> bool {
    (a is None && b is None) || (a is Some && b is Some && a->0@ == b->0@)
}

/// Two element kinds are the same: both inputs, both text areas, or other
/// elements with the same tag name.
pub open spec fn same_kind(a: TagKind, b: TagKind) -> bool {
    ||| a is Input && b is Input
    ||| a is Textarea && b is Textarea
    ||| a matches TagKind::Other(x) && b matches TagKind::Other(y) && x@ == y@
}

/// A new node updates the bundle in its place only when the bundle is of the
/// same kind: an element with the same key and element kind, a component of
/// the same type with the same key, a suspense with the same key, or text or
/// a portal. A list always updates as a list, and a user's host node is kept
/// exactly when it is the same host node. Whatever else meets replaces the
/// bundle.
pub proof fn lemma_reconcile_only_alike(node: NodeSummary, bundle: NodeSummary)
    ensures
        node is List <==> choice_spec(node, bundle) == ReconcileChoice::ReconcileAsList,
        choice_spec(node, bundle) == ReconcileChoice::Keep <==> (node is Ref && bundle is Ref && node->Ref_0
            == bundle->Ref_0),
        choice_spec(node, bundle) == ReconcileChoice::Reconcile <==> ({
            ||| node matches NodeSummary::Tag { key: k1, kind: t1 } && bundle matches NodeSummary::Tag {
                key: k2,
                kind: t2,
            } && same_key(k1, k2) && same_kind(t1, t2)
            ||| node matches NodeSummary::Comp { type_id: a, key: k1 } && bundle matches NodeSummary::Comp {
                type_id: b,
                key: k2,
            } && a == b && same_key(k1, k2)
            ||| node matches NodeSummary::Suspense { key: k1 } && bundle matches NodeSummary::Suspense {
                key: k2,
            } && same_key(k1, k2)
            ||| node is Text && bundle is Text
            ||| node is Portal && bundle is Portal
        }),
        choice_spec(node, bundle) == ReconcileChoice::Replace <==> !(node is List
            || choice_spec(node, bundle) == ReconcileChoice::Keep || choice_spec(node, bundle)
            == ReconcileChoice::Reconcile),
{
}

/// How a node is attached at a position.
#[derive(Debug, Clone, Copy, PartialEq, Eq, Structural)]
pub enum AttachAction {
    /// Attach an element (see the element steps).
    AttachTag,
    /// Create a text node and insert it at the position.
    AttachText,
    /// Mount a component at the position.
    AttachComp,
    /// Attach the children of a list, last first, at the position.
    AttachList,
    /// Insert the user's host node at the position; the position before it
    /// is where the next node goes.
    InsertRef(i32),
    /// Attach a portal's content under its host element.
    AttachPortal,
    /// Attach a suspense boundary at the position.
    AttachSuspense,
}

/// The action that attaches a node of this kind.
pub open spec fn attach_action_spec(node: NodeSummary) -> AttachAction {
    match node {
        NodeSummary::Tag { .. } => AttachAction::AttachTag,
        NodeSummary::Text => AttachAction::AttachText,
        NodeSummary::Comp { .. } => AttachAction::AttachComp,
        NodeSummary::List => AttachAction::AttachList,
        NodeSummary::Ref(id) => AttachAction::InsertRef(id),
        NodeSummary::Portal => AttachAction::AttachPortal,
        NodeSummary::Suspense { .. } => AttachAction::AttachSuspense,
    }
}

/// Decides how a node is attached: each kind of node attaches as its own
/// bundle, and a user's host node is inserted as it is.
pub fn attach_action(node: &NodeSummary) -> (a: AttachAction)
    ensures
        a == attach_action_spec(*node),
{
    match node {
        NodeSummary::Tag { .. } => AttachAction::AttachTag,
        NodeSummary::Text => AttachAction::AttachText,
        NodeSummary::Comp { .. } => AttachAction::AttachComp,
        NodeSummary::List => AttachAction::AttachList,
        NodeSummary::Ref(id) => AttachAction::InsertRef(*id),
        NodeSummary::Portal => AttachAction::AttachPortal,
        NodeSummary::Suspense { .. } => AttachAction::AttachSuspense,
    }
}

/// A node never replaces a bundle that it summarises identically: what was
/// rendered from a node is updated, not rebuilt, when the node comes again.
pub proof fn lemma_same_node_is_not_replaced(n: NodeSummary)
    ensures
        choice_spec(n, n) != ReconcileChoice::Replace,
{
}

/// A portal's content moves (keeping its state) before it is updated when
/// the portal now targets another host element or another next sibling
/// inside it.
pub fn portal_moves(old_host: i32, new_host: i32, old_sibling: Option<i32>, new_sibling: Option<i32>) -> (r: bool)
    ensures
        r == (old_host != new_host || old_sibling != new_sibling),
{
    old_host != new_host || match (old_sibling, new_sibling) {
        (Some(a), Some(b)) => a != b,
        (None, None) => false,
        _ => true,
    }
}

/// A text node is replaced by a new host text node exactly when its text
/// changed.
pub fn text_changes(old_text: &str, new_text: &str) -> (r: bool)
    ensures
        r == (old_text@ != new_text@),
{
    !str_eq(old_text, new_text)
}

} // verus!
