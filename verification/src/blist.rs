//! The key bookkeeping of a mounted child list.
//!
//! A mounted list keeps its bundles in reverse render order. This module
//! keeps, beside them, what reconciliation reads of them: each bundle's
//! key, whether all of them have one, and the list's own key.

use vstd::prelude::*;
use crate::key::Key;
use crate::reconcile::{
    ReconcilePlan, plan_children, plan_sound, unkeyed_source, all_keyed, ChildOp, detach_count,
    writes,
};
use crate::vdom::{VList, VNode, node_key, all_nodes_keyed};
use crate::list_order::{perform, shown};

verus! {

/// The key view of an optional key.
pub open spec fn key_view(k: Option<Key>) -> Option<Seq<char>> {
    match k {
        Some(k) => Some(k@),
        None => None,
    }
}

/// The key views of a sequence of optional keys.
pub open spec fn keys_view(keys: Seq<Option<Key>>) -> Seq<Option<Seq<char>>> {
    keys.map_values(|k: Option<Key>| key_view(k))
}

/// The keys of the children of a mounted list, in reverse render order.
pub struct BListKeys {
    rev_keys: Vec<Option<Key>>,
    fully_keyed: bool,
    key: Option<Key>,
}

impl BListKeys {
    /// The bundle keys, in reverse render order.
    pub closed spec fn rev_keys_view(&self) -> Seq<Option<Key>> {
        self.rev_keys@
    }

    /// Whether every bundle has a key.
    pub closed spec fn fully_keyed_view(&self) -> bool {
        self.fully_keyed
    }

    /// The key of the list.
    pub closed spec fn key_spec(&self) -> Option<Key> {
        self.key
    }

    /// A list said to be fully keyed has a key on every bundle.
    pub open spec fn wf(&self) -> bool {
        self.fully_keyed_view() ==> all_keyed(self.rev_keys_view())
    }

    /// An empty mounted list.
    pub fn new() -> (b: BListKeys)
        ensures
            b.wf(),
            b.rev_keys_view().len() == 0,
            b.fully_keyed_view(),
            b.key_spec() is None,
    {
        BListKeys { rev_keys: Vec::new(), fully_keyed: true, key: None }
    }

    /// A list made of one mounted bundle with the given key: fully keyed
    /// when the bundle has a key, and keyed as the bundle.
    pub fn single(key: Option<Key>) -> (b: BListKeys)
        ensures
            b.wf(),
            keys_view(b.rev_keys_view()) == seq![key_view(key)],
            b.fully_keyed_view() == (key is Some),
            key_view(b.key_spec()) == key_view(key),
    {
        let mut rev_keys = Vec::new();
        let list_key = clone_key(&key);
        let fully_keyed = key.is_some();
        rev_keys.push(key);
        proof {
            assert(keys_view(rev_keys@) =~= seq![key_view(key)]);
        }
        BListKeys { rev_keys, fully_keyed, key: list_key }
    }

    /// The key of the list.
    pub fn key(&self) -> (r: Option<&Key>)
        ensures
            match r {
                Some(k) => self.key_spec() == Some(*k),
                None => self.key_spec() is None,
            },
    {
        self.key.as_ref()
    }

    /// The number of mounted bundles.
    pub fn len(&self) -> (n: usize)
        ensures
            n == self.rev_keys_view().len(),
    {
        self.rev_keys.len()
    }

    /// Reconciles the mounted list with a new list: plans the operations on
    /// the bundles (by key when both lists are fully keyed, by position
    /// otherwise), then records the new children's keys, whether they are
    /// all keyed, and the new list's key. Returns the plan and the new
    /// children, in render order.
    pub fn reconcile(&mut self, vlist: VList) -> (r: (ReconcilePlan, Vec<VNode>))
        requires
            old(self).wf(),
            vlist.wf(),
        ensures
            final(self).wf(),
            r.1@ == vlist.children_view(),
            plan_sound(
                r.0.ops@,
                r.0.sources@,
                vlist.children_view().len() as nat,
                old(self).rev_keys_view().len() as nat,
            ),
            keys_view(final(self).rev_keys_view()) == node_keys(vlist.children_view()).reverse(),
            final(self).fully_keyed_view() == all_nodes_keyed(vlist.children_view()),
            key_view(final(self).key_spec()) == key_view(vlist.list_key()),
            perform(r.0.ops@, old(self).rev_keys_view().len() as nat).0 == shown(r.0.sources@),
            all_nodes_keyed(vlist.children_view()) && old(self).fully_keyed_view() ==> forall|i: int|
                #![trigger r.0.sources@[i]]
                0 <= i < vlist.children_view().len() && r.0.sources@[i] is Some ==> key_view(
                    old(self).rev_keys_view()[r.0.sources@[i]->0 as int],
                ) == node_key(vlist.children_view()[i]),
            !(all_nodes_keyed(vlist.children_view()) && old(self).fully_keyed_view()) ==> forall|
                i: int,
            |
                0 <= i < vlist.children_view().len() ==> #[trigger] r.0.sources@[i]
                    == unkeyed_source(
                    vlist.children_view().len() as nat,
                    old(self).rev_keys_view().len() as nat,
                    i,
                ),
    {
        let (key, fully_keyed, lefts) = vlist.split_for_blist();
        let new_keys = child_keys(&lefts);
        let plan = plan_children(&new_keys, fully_keyed, &self.rev_keys, self.fully_keyed);
        proof {
            let nk = new_keys@;
            let ok = self.rev_keys@;
            if fully_keyed && self.fully_keyed {
                assert forall|i: int|
                    #![trigger plan.sources@[i]]
                    0 <= i < lefts@.len() && plan.sources@[i] is Some implies key_view(
                        ok[plan.sources@[i]->0 as int],
                    ) == node_key(lefts@[i]) by {
                    let b = plan.sources@[i]->0 as int;
                    assert(ok[b] is Some);
                    assert(key_view(nk[i]) == node_key(lefts@[i]));
                }
            }
        }
        self.rev_keys = reversed_keys(new_keys);
        self.fully_keyed = fully_keyed;
        self.key = key;
        (plan, lefts)
    }
}

/// The key views of a sequence of nodes.
pub open spec fn node_keys(nodes: Seq<VNode>) -> Seq<Option<Seq<char>>> {
    nodes.map_values(|n: VNode| node_key(n))
}

fn clone_key(key: &Option<Key>) -> (r: Option<Key>)
    ensures
        key_view(r) == key_view(*key),
{
    match key {
        Some(k) => Some(k.clone()),
        None => None,
    }
}

fn child_keys(nodes: &Vec<VNode>) -> (r: Vec<Option<Key>>)
    ensures
        r.len() == nodes.len(),
        forall|i: int| 0 <= i < nodes.len() ==> #[trigger] key_view(r@[i]) == node_key(nodes@[i]),
        all_nodes_keyed(nodes@) ==> all_keyed(r@),
{
    let mut r: Vec<Option<Key>> = Vec::new();
    let mut i: usize = 0;
    while i < nodes.len()
        invariant
            i <= nodes.len(),
            r.len() == i,
            forall|t: int| 0 <= t < i ==> #[trigger] key_view(r@[t]) == node_key(nodes@[t]),
        decreases nodes.len() - i,
    {
        let k = match nodes[i].key() {
            Some(k) => Some(k.clone()),
            None => None,
        };
        r.push(k);
        i = i + 1;
    }
    proof {
        if all_nodes_keyed(nodes@) {
            assert forall|t: int| 0 <= t < r@.len() implies #[trigger] r@[t] is Some by {
                assert(node_key(nodes@[t]) is Some);
                assert(key_view(r@[t]) == node_key(nodes@[t]));
            }
        }
    }
    r
}

fn reversed_keys(keys: Vec<Option<Key>>) -> (r: Vec<Option<Key>>)
    ensures
        r@ == keys@.reverse(),
{
    let ghost orig = keys@;
    let mut keys = keys;
    let mut r: Vec<Option<Key>> = Vec::new();
    while keys.len() > 0
        invariant
            keys@ == orig.take(keys@.len() as int),
            keys@.len() <= orig.len(),
            r@ == orig.reverse().take(orig.len() - keys@.len()),
        decreases keys.len(),
    {
        let ghost len = keys@.len();
        let k = keys.pop().unwrap();
        r.push(k);
        proof {
            assert(keys@ =~= orig.take(len - 1));
            assert(orig.reverse().take(orig.len() - len + 1) =~= orig.reverse().take(
                orig.len() - len,
            ).push(orig[len - 1]));
        }
    }
    proof {
        assert(orig.reverse().take(orig.len() as int) =~= orig.reverse());
    }
    r
}

} // verus!
