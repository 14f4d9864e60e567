//! Virtual nodes: the tree a render produces, with the keys that child-list
//! reconciliation goes by.

use std::rc::Rc;
use vstd::prelude::*;
use crate::binding::Element;
use crate::extern_ref::ExternRef;
use crate::key::Key;

verus! {

/// A text node.
#[derive(Debug)]
pub struct VText {
    /// The text.
    pub text: String,
}

impl VText {
    /// A text node with the given text.
    pub fn new(text: String) -> (t: VText)
        ensures
            t.text@ == text@,
    {
        VText { text }
    }

    /// A text node with a copy of the given text.
    pub fn from_str(text: &str) -> (t: VText)
        ensures
            t.text@ == text@,
    {
        VText { text: text.to_owned() }
    }
}

/// An element node, by its tag name, with its optional key.
#[derive(Debug)]
pub struct VTag {
    /// The tag name.
    pub tag: String,
    /// The key of the element.
    pub key: Option<Key>,
}

impl VTag {
    /// An element with the given tag name and no key.
    pub fn new(tag: &str) -> (t: VTag)
        ensures
            t.tag_view() == tag@,
            t.key is None,
    {
        VTag { tag: tag.to_owned(), key: None }
    }

    /// The tag name.
    pub open spec fn tag_view(&self) -> Seq<char> {
        self.tag@
    }

    /// The tag name.
    pub fn tag(&self) -> (s: &str)
        ensures
            s@ == self.tag_view(),
    {
        self.tag.as_str()
    }
}

/// What is known of whether every child of a list has a key.
#[derive(Clone, Copy, Debug, PartialEq, Eq, Structural)]
pub enum FullyKeyedState {
    KnownFullyKeyed,
    KnownMissingKeys,
    Unknown,
}

/// A fragment of the virtual tree: a list of child nodes.
#[derive(Debug)]
pub struct VList {
    children: Vec<VNode>,
    fully_keyed: FullyKeyedState,
    /// The key of the fragment.
    pub key: Option<Key>,
}

/// A portal: content rendered under another host element.
#[derive(Debug)]
pub struct VPortal {
    /// The element under which the content is inserted.
    pub host: Rc<Element>,
    /// The next sibling after the inserted content, a child of `host`.
    pub inner_sibling: Option<ExternRef>,
    /// The inserted node.
    pub node: VNode,
}

impl VPortal {
    /// A portal rendering `content` under `host`.
    pub fn new(content: VNode, host: Rc<Element>) -> (p: VPortal)
        ensures
            p.node == content,
            p.host == host,
            p.inner_sibling is None,
    {
        VPortal { host, inner_sibling: None, node: content }
    }

    /// A portal rendering `content` under `host`, before `inner_sibling`
    /// when it is given.
    pub fn new_before(content: VNode, host: Rc<Element>, inner_sibling: Option<ExternRef>) -> (p:
        VPortal)
        ensures
            p.node == content,
            p.host == host,
            p.inner_sibling == inner_sibling,
    {
        VPortal { host, inner_sibling, node: content }
    }
}

/// Renders `child` into `host`, outside the hierarchy of the parent
/// component.
pub fn create_portal(child: VNode, host: Rc<Element>) -> (r: VNode)
    ensures
        r matches VNode::VPortal(p) && p.node == child && p.host == host && p.inner_sibling is None,
{
    VNode::VPortal(Box::new(VPortal::new(child, host)))
}

/// A suspendible fragment: its children, and the fallback shown while it
/// is suspended.
#[derive(Debug)]
pub struct VSuspense {
    pub children: VNode,
    pub fallback: VNode,
    pub suspended: bool,
    pub key: Option<Key>,
}

impl VSuspense {
    /// A suspendible fragment.
    pub fn new(children: VNode, fallback: VNode, suspended: bool, key: Option<Key>) -> (s:
        VSuspense)
        ensures
            s.children == children,
            s.fallback == fallback,
            s.suspended == suspended,
            s.key == key,
    {
        VSuspense { children, fallback, suspended, key }
    }
}

/// A virtual node.
#[derive(Debug)]
pub enum VNode {
    /// An element.
    VTag(Box<VTag>),
    /// A text node.
    VText(VText),
    /// A list of nodes.
    VList(Box<VList>),
    /// A portal to another part of the document.
    VPortal(Box<VPortal>),
    /// A raw host element supplied by the user.
    VRef(Rc<Element>),
    /// A suspendible fragment.
    VSuspense(Box<VSuspense>),
}

/// The key text of a node: elements, lists and suspendible fragments have
/// their own, a portal has the key of its content, text and raw elements
/// have none.
pub open spec fn node_key(n: VNode) -> Option<Seq<char>>
    decreases n,
{
    match n {
        VNode::VTag(t) => match t.key {
            Some(k) => Some(k@),
            None => None,
        },
        VNode::VText(_) => None,
        VNode::VList(l) => match l.list_key() {
            Some(k) => Some(k@),
            None => None,
        },
        VNode::VPortal(p) => node_key(p.node),
        VNode::VRef(_) => None,
        VNode::VSuspense(s) => match s.key {
            Some(k) => Some(k@),
            None => None,
        },
    }
}

/// Every node of the sequence has a key.
pub open spec fn all_nodes_keyed(nodes: Seq<VNode>) -> bool {
    forall|i: int| 0 <= i < nodes.len() ==> (#[trigger] node_key(nodes[i])) is Some
}

/// The known key state of a list with these children.
pub open spec fn known_state(nodes: Seq<VNode>) -> FullyKeyedState {
    if all_nodes_keyed(nodes) {
        FullyKeyedState::KnownFullyKeyed
    } else {
        FullyKeyedState::KnownMissingKeys
    }
}

/// The key state after adding these nodes one by one: a list known to be
/// fully keyed becomes one known to miss keys when one of them has none.
pub open spec fn added_state(s: FullyKeyedState, nodes: Seq<VNode>) -> FullyKeyedState {
    if s == FullyKeyedState::KnownFullyKeyed && !all_nodes_keyed(nodes) {
        FullyKeyedState::KnownMissingKeys
    } else {
        s
    }
}

proof fn lemma_added_state_push(s: FullyKeyedState, nodes: Seq<VNode>, x: VNode)
    ensures
        added_state(s, nodes.push(x)) == (if added_state(s, nodes) == FullyKeyedState::KnownFullyKeyed
            && node_key(x) is None {
            FullyKeyedState::KnownMissingKeys
        } else {
            added_state(s, nodes)
        }),
{
    let p = nodes.push(x);
    if all_nodes_keyed(nodes) && node_key(x) is Some {
        assert forall|i: int| 0 <= i < p.len() implies (#[trigger] node_key(p[i])) is Some by {
            if i < nodes.len() {
                assert(p[i] == nodes[i]);
            }
        }
    }
    if !all_nodes_keyed(nodes) {
        let i = choose|i: int| 0 <= i < nodes.len() && !(node_key(nodes[i]) is Some);
        assert(p[i] == nodes[i]);
    }
    if node_key(x) is None {
        assert(node_key(p[nodes.len() as int]) is None);
    }
}

impl VNode {
    /// The key of this node (see [`node_key`]).
    pub fn key(&self) -> (r: Option<&Key>)
        ensures
            match r {
                Some(k) => node_key(*self) == Some(k@),
                None => node_key(*self) is None,
            },
        decreases self,
    {
        match self {
            VNode::VTag(t) => t.key.as_ref(),
            VNode::VText(_) => None,
            VNode::VList(l) => l.key.as_ref(),
            VNode::VPortal(p) => p.node.key(),
            VNode::VRef(_) => None,
            VNode::VSuspense(s) => s.key.as_ref(),
        }
    }

    /// True when this node has a key.
    pub fn has_key(&self) -> (r: bool)
        ensures
            r == (node_key(*self) is Some),
    {
        self.key().is_some()
    }

    /// An empty list, the default node.
    pub fn empty() -> (n: VNode)
        ensures
            n matches VNode::VList(l) && l.children_view().len() == 0 && l.wf() && l.list_key() is None,
    {
        VNode::VList(Box::new(VList::new()))
    }

    /// The list this node is, after turning any other node into a list
    /// holding it as its only child.
    pub fn to_vlist_mut(&mut self) -> (r: &mut VList)
        ensures
            *old(self) matches VNode::VList(l) ==> *r == *l,
            !(*old(self) is VList) ==> r.children_view() == seq![*old(self)] && r.list_key() is None
                && r.wf() && r.keyed_state() == (if node_key(*old(self)) is Some {
                FullyKeyedState::KnownFullyKeyed
            } else {
                FullyKeyedState::KnownMissingKeys
            }),
            *final(self) == VNode::VList(Box::new(*final(r))),
    {
        if !(matches!(self, VNode::VList(_))) {
            let mut node = VNode::empty();
            std::mem::swap(self, &mut node);
            proof {
                assert(seq![node][0] == node);
                assert(all_nodes_keyed(seq![node]) == (node_key(node) is Some));
            }
            *self = VNode::VList(Box::new(VList::from_node(node)));
        }
        match self {
            VNode::VList(l) => &mut **l,
            _ => vstd::pervasive::unreached(),
        }
    }
}

impl Default for VList {
    /// An empty list, as [`VList::new`].
    fn default() -> (l: VList)
        ensures
            l.children_view().len() == 0,
            l.keyed_state() == FullyKeyedState::KnownFullyKeyed,
            l.list_key() is None,
            l.wf(),
    {
        VList::new()
    }
}

impl VList {
    /// The key of the list.
    pub closed spec fn list_key(&self) -> Option<Key> {
        self.key
    }

    /// The children of the list.
    pub closed spec fn children_view(&self) -> Seq<VNode> {
        self.children@
    }

    /// What is known of the keys of the children.
    pub closed spec fn keyed_state(&self) -> FullyKeyedState {
        self.fully_keyed
    }

    /// The known key state is true of the children.
    pub open spec fn wf(&self) -> bool {
        match self.keyed_state() {
            FullyKeyedState::KnownFullyKeyed => all_nodes_keyed(self.children_view()),
            FullyKeyedState::KnownMissingKeys => !all_nodes_keyed(self.children_view()),
            FullyKeyedState::Unknown => true,
        }
    }

    /// Whether every child has a key, as the list answers it: from the
    /// known state when there is one, else from the children.
    pub open spec fn fully_keyed_spec(&self) -> bool {
        match self.keyed_state() {
            FullyKeyedState::KnownFullyKeyed => true,
            FullyKeyedState::KnownMissingKeys => false,
            FullyKeyedState::Unknown => all_nodes_keyed(self.children_view()),
        }
    }

    /// An empty list.
    pub fn new() -> (l: VList)
        ensures
            l.children_view().len() == 0,
            l.keyed_state() == FullyKeyedState::KnownFullyKeyed,
            l.list_key() is None,
            l.wf(),
    {
        VList { children: Vec::new(), fully_keyed: FullyKeyedState::KnownFullyKeyed, key: None }
    }

    /// A list of the given children, with its key state computed.
    pub fn from_children(children: Vec<VNode>) -> (l: VList)
        ensures
            l.children_view() == children@,
            l.list_key() is None,
            l.wf(),
            l.keyed_state() == known_state(children@),
    {
        if children.len() == 0 {
            VList::new()
        } else {
            let mut l = VList { children, fully_keyed: FullyKeyedState::Unknown, key: None };
            l.recheck_fully_keyed();
            l
        }
    }

    /// A list holding one node.
    pub fn from_node(child: VNode) -> (l: VList)
        ensures
            l.children_view() == seq![child],
            l.list_key() is None,
            l.wf(),
            l.keyed_state() == known_state(seq![child]),
    {
        let mut children = Vec::new();
        children.push(child);
        VList::from_children(children)
    }

    /// A list with children and a key.
    pub fn with_children(children: Vec<VNode>, key: Option<Key>) -> (l: VList)
        ensures
            l.children_view() == children@,
            l.list_key() == key,
            l.wf(),
            l.keyed_state() == known_state(children@),
    {
        let mut l = VList::from_children(children);
        l.key = key;
        l
    }

    /// A list whose key state is given by the caller.
    pub fn with_key_state(children: Vec<VNode>, key: Option<Key>, fully_keyed: FullyKeyedState) -> (l: VList)
        ensures
            l.children_view() == children@,
            l.list_key() == key,
            l.keyed_state() == fully_keyed,
    {
        VList { children, fully_keyed, key }
    }

    /// Adds a child at the end. A list known to be fully keyed becomes one
    /// known to miss keys when the child has none.
    pub fn add_child(&mut self, child: VNode)
        ensures
            old(self).wf() ==> final(self).wf(),
            final(self).children_view() == old(self).children_view().push(child),
            final(self).list_key() == old(self).list_key(),
            final(self).keyed_state() == (if old(self).keyed_state()
                == FullyKeyedState::KnownFullyKeyed && node_key(child) is None {
                FullyKeyedState::KnownMissingKeys
            } else {
                old(self).keyed_state()
            }),
    {
        let ghost before = self.children@;
        if self.fully_keyed == FullyKeyedState::KnownFullyKeyed && !child.has_key() {
            self.fully_keyed = FullyKeyedState::KnownMissingKeys;
        }
        self.children.push(child);
        proof {
            let after = self.children@;
            if self.fully_keyed == FullyKeyedState::KnownFullyKeyed && old(self).wf() {
                assert forall|i: int| 0 <= i < after.len() implies (#[trigger] node_key(
                    after[i],
                )) is Some by {
                    if i < before.len() {
                        assert(after[i] == before[i]);
                    }
                }
            }
            if self.fully_keyed == FullyKeyedState::KnownMissingKeys && old(self).wf() {
                if node_key(child) is None {
                    assert(node_key(after[after.len() - 1]) is None);
                } else {
                    let i = choose|i: int| 0 <= i < before.len() && !(node_key(before[i]) is Some);
                    assert(after[i] == before[i]);
                }
            }
        }
    }

    /// Adds children at the end, one after another.
    pub fn add_children(&mut self, children: Vec<VNode>)
        ensures
            old(self).wf() ==> final(self).wf(),
            final(self).children_view() == old(self).children_view() + children@,
            final(self).list_key() == old(self).list_key(),
            final(self).keyed_state() == added_state(old(self).keyed_state(), children@),
    {
        let ghost start = self.children@;
        let ghost orig = children@;
        let mut rest = children;
        while rest.len() > 0
            invariant
                old(self).wf() ==> self.wf(),
                self.list_key() == old(self).list_key(),
                self.keyed_state() == added_state(old(self).keyed_state(), orig.take(orig.len() - rest@.len())),
                rest@.len() <= orig.len(),
                rest@ == orig.skip(orig.len() - rest@.len()),
                self.children_view() == start + orig.take(orig.len() - rest@.len()),
            decreases rest.len(),
        {
            let ghost done = orig.len() - rest@.len();
            let child = rest.remove(0);
            proof {
                assert(child == orig[done]);
            }
            self.add_child(child);
            proof {
                assert(rest@ =~= orig.skip(done + 1));
                assert(orig.take(done + 1) =~= orig.take(done).push(orig[done]));
                lemma_added_state_push(old(self).keyed_state(), orig.take(done), orig[done]);
            }
        }
        proof {
            assert(orig.take(orig.len() as int) =~= orig);
            assert(orig.take(0) =~= Seq::<VNode>::empty());
        }
    }

    /// Whether every child has a key, from the known state when there is
    /// one.
    pub fn fully_keyed(&self) -> (r: bool)
        ensures
            r == self.fully_keyed_spec(),
            self.wf() ==> r == all_nodes_keyed(self.children_view()),
    {
        match self.fully_keyed {
            FullyKeyedState::KnownFullyKeyed => true,
            FullyKeyedState::KnownMissingKeys => false,
            FullyKeyedState::Unknown => {
                let mut i: usize = 0;
                while i < self.children.len()
                    invariant
                        i <= self.children@.len(),
                        self.fully_keyed == FullyKeyedState::Unknown,
                        forall|t: int| 0 <= t < i ==> (#[trigger] node_key(self.children@[t])) is Some,
                    decreases self.children.len() - i,
                {
                    if !self.children[i].has_key() {
                        return false;
                    }
                    i = i + 1;
                }
                true
            },
        }
    }

    /// Settles the key state: a known state stays, an unknown one is computed
    /// from the children.
    pub fn recheck_fully_keyed(&mut self)
        ensures
            old(self).wf() ==> final(self).wf(),
            final(self).children_view() == old(self).children_view(),
            final(self).list_key() == old(self).list_key(),
            final(self).keyed_state() == (if old(self).fully_keyed_spec() {
                FullyKeyedState::KnownFullyKeyed
            } else {
                FullyKeyedState::KnownMissingKeys
            }),
    {
        self.fully_keyed = if self.fully_keyed() {
            FullyKeyedState::KnownFullyKeyed
        } else {
            FullyKeyedState::KnownMissingKeys
        };
    }

    /// The known key state.
    pub fn fully_keyed_state(&self) -> (s: FullyKeyedState)
        ensures
            s == self.keyed_state(),
    {
        self.fully_keyed
    }

    /// The children.
    pub fn children(&self) -> (c: &Vec<VNode>)
        ensures
            c@ == self.children_view(),
    {
        &self.children
    }

    /// The number of children.
    pub fn len(&self) -> (n: usize)
        ensures
            n == self.children_view().len(),
    {
        self.children.len()
    }

    /// The children, to be changed in place; the key state becomes unknown.
    pub fn children_mut(&mut self) -> (c: &mut Vec<VNode>)
        ensures
            c@ == old(self).children_view(),
            final(self).children_view() == final(c)@,
            final(self).keyed_state() == FullyKeyedState::Unknown,
            final(self).list_key() == old(self).list_key(),
            final(self).wf(),
    {
        self.fully_keyed = FullyKeyedState::Unknown;
        &mut self.children
    }

    /// Splits the list for mounting: its key, whether it is fully keyed, and
    /// its children.
    pub fn split_for_blist(self) -> (r: (Option<Key>, bool, Vec<VNode>))
        requires
            self.wf(),
        ensures
            r.0 == self.list_key(),
            r.1 == all_nodes_keyed(self.children_view()),
            r.2@ == self.children_view(),
    {
        let fully_keyed = self.fully_keyed();
        (self.key, fully_keyed, self.children)
    }
}

} // verus!
