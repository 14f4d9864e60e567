//! The registry of element event listeners.
//!
//! Every element with listeners gets a listener id; under it the registry
//! keeps the element's listeners grouped by event descriptor. Registering,
//! patching and unregistering return the descriptors whose host listeners
//! the caller must attach or detach.

use std::collections::HashMap;
use vstd::prelude::*;
use crate::binding::{EventListenerOptions, str_eq};

verus! {

broadcast use vstd::std_specs::hash::group_hash_axioms;

/// What a host listener is registered for: an event type, and whether the
/// listener is passive.
#[derive(Debug)]
pub struct EventDescriptor {
    event_type: String,
    passive: bool,
}

impl View for EventDescriptor {
    type V = (Seq<char>, bool);

    closed spec fn view(&self) -> (Seq<char>, bool) {
        (self.event_type@, self.passive)
    }
}

impl Clone for EventDescriptor {
    fn clone(&self) -> (r: Self)
        ensures
            r@ == self@,
    {
        EventDescriptor { event_type: self.event_type.clone(), passive: self.passive }
    }
}

impl PartialEq for EventDescriptor {
    fn eq(&self, other: &Self) -> (r: bool) {
        self.passive == other.passive && self.event_type == other.event_type
    }
}

impl vstd::std_specs::cmp::PartialEqSpecImpl for EventDescriptor {
    open spec fn obeys_eq_spec() -> bool {
        true
    }

    open spec fn eq_spec(&self, other: &Self) -> bool {
        self@ == other@
    }
}

impl EventDescriptor {
    /// A descriptor for listeners of an event type.
    pub fn new(event_type: &str, passive: bool) -> (d: EventDescriptor)
        ensures
            d@ == (event_type@, passive),
    {
        EventDescriptor { event_type: event_type.to_owned(), passive }
    }

    /// The event type.
    pub fn event_type(&self) -> (s: &str)
        ensures
            s@ == self@.0,
    {
        self.event_type.as_str()
    }

    /// Whether the listeners are passive.
    pub fn passive(&self) -> (p: bool)
        ensures
            p == self@.1,
    {
        self.passive
    }

    /// The host listener options: passive for passive listeners, none
    /// otherwise.
    pub fn listener_options(&self) -> (o: EventListenerOptions)
        ensures
            o == (EventListenerOptions { capture: false, passive: self@.1, once: false }),
    {
        let options = EventListenerOptions::new();
        if self.passive {
            options.passive()
        } else {
            options
        }
    }

    /// Compares two descriptors.
    pub fn same(&self, other: &EventDescriptor) -> (r: bool)
        ensures
            r == (self@ == other@),
    {
        self.passive == other.passive && str_eq(self.event_type.as_str(), other.event_type.as_str())
    }
}

/// Listeners grouped by descriptor, in the order the descriptors first
/// appear; every group is non-empty.
pub type ListenerGroups<L> = Vec<(EventDescriptor, Vec<L>)>;

/// The view of groups of listeners.
pub open spec fn groups_view<L>(g: Seq<(EventDescriptor, Vec<L>)>) -> Seq<((Seq<char>, bool), Seq<L>)> {
    g.map_values(|e: (EventDescriptor, Vec<L>)| (e.0@, e.1@))
}

/// The descriptors of groups, in order.
pub open spec fn group_descs<L>(g: Seq<((Seq<char>, bool), Seq<L>)>) -> Seq<(Seq<char>, bool)> {
    g.map_values(|e: ((Seq<char>, bool), Seq<L>)| e.0)
}

/// The groups have distinct descriptors.
pub open spec fn descs_distinct<L>(g: Seq<((Seq<char>, bool), Seq<L>)>) -> bool {
    forall|i: int, j: int| 0 <= i < j < g.len() ==> (#[trigger] g[i]).0 != (#[trigger] g[j]).0
}

/// One listener added to groups: into the group of its descriptor, or as a
/// new group at the end.
pub open spec fn add_to_groups<L>(g: Seq<((Seq<char>, bool), Seq<L>)>, d: (Seq<char>, bool), l: L) -> Seq<
    ((Seq<char>, bool), Seq<L>),
> {
    if exists|i: int| 0 <= i < g.len() && g[i].0 == d {
        let i = choose|i: int| 0 <= i < g.len() && g[i].0 == d;
        g.update(i, (d, g[i].1.push(l)))
    } else {
        g.push((d, seq![l]))
    }
}

/// Pending listeners grouped by descriptor; absent listeners are skipped.
pub open spec fn groups_of<L>(pending: Seq<Option<((Seq<char>, bool), L)>>) -> Seq<
    ((Seq<char>, bool), Seq<L>),
>
    decreases pending.len(),
{
    if pending.len() == 0 {
        Seq::empty()
    } else {
        let g = groups_of(pending.drop_last());
        match pending.last() {
            Some((d, l)) => add_to_groups(g, d, l),
            None => g,
        }
    }
}

/// The view of a pending listener.
pub open spec fn pending_view<L>(p: Option<(EventDescriptor, L)>) -> Option<((Seq<char>, bool), L)> {
    match p {
        Some((d, l)) => Some((d@, l)),
        None => None,
    }
}

fn find_group<L>(g: &ListenerGroups<L>, d: &EventDescriptor) -> (r: Option<usize>)
    ensures
        r matches Some(i) ==> i < g@.len() && g@[i as int].0@ == d@,
        r is None ==> forall|i: int| 0 <= i < g@.len() ==> (#[trigger] g@[i]).0@ != d@,
{
    let mut i: usize = 0;
    while i < g.len()
        invariant
            i <= g@.len(),
            forall|t: int| 0 <= t < i ==> (#[trigger] g@[t]).0@ != d@,
        decreases g.len() - i,
    {
        if g[i].0.same(d) {
            return Some(i);
        }
        i = i + 1;
    }
    None
}

/// Groups pending listeners by descriptor, skipping absent ones.
pub fn group_by_descriptor<L>(pending: Vec<Option<(EventDescriptor, L)>>) -> (g: ListenerGroups<L>)
    ensures
        groups_view(g@) == groups_of(pending@.map_values(|p: Option<(EventDescriptor, L)>| pending_view(p))),
        descs_distinct(groups_view(g@)),
{
    let ghost pv = pending@.map_values(|p: Option<(EventDescriptor, L)>| pending_view(p));
    let mut g: ListenerGroups<L> = Vec::new();
    let mut rest = pending;
    let total = rest.len();
    let mut done: usize = 0;
    proof {
        assert(pv.take(0) =~= Seq::<Option<((Seq<char>, bool), L)>>::empty());
        assert(groups_view(g@) =~= Seq::<((Seq<char>, bool), Seq<L>)>::empty());
    }
    while rest.len() > 0
        invariant
            done + rest@.len() == total,
            total == pv.len(),
            total <= usize::MAX,
            forall|t: int| 0 <= t < rest@.len() ==> #[trigger] pending_view(rest@[t]) == pv[done + t],
            groups_view(g@) == groups_of(pv.take(done as int)),
            descs_distinct(groups_view(g@)),
        decreases rest.len(),
    {
        let item = rest.remove(0);
        let ghost gv = groups_view(g@);
        proof {
            assert(pending_view(item) == pv[done as int]);
            assert(pv.take(done + 1).drop_last() =~= pv.take(done as int));
            assert(pv.take(done + 1).last() == pv[done as int]);
        }
        match item {
            Some((d, l)) => {
                match find_group(&g, &d) {
                    Some(i) => {
                        let (gd, mut ls) = g.remove(i);
                        ls.push(l);
                        g.insert(i, (gd, ls));
                        proof {
                            assert(gv[i as int].0 == d@);
                            let c = choose|c: int| 0 <= c < gv.len() && gv[c].0 == d@;
                            assert(c == i);
                            assert(groups_view(g@) =~= gv.update(i as int, (d@, gv[i as int].1.push(l))));
                        }
                    },
                    None => {
                        let ghost dv = d@;
                        let mut ls: Vec<L> = Vec::new();
                        ls.push(l);
                        g.push((d, ls));
                        proof {
                            assert forall|c: int| 0 <= c < gv.len() implies gv[c].0 != dv by {
                                assert(gv[c].0 == g@[c].0@);
                            }
                            assert(groups_view(g@) =~= gv.push((dv, seq![l])));
                        }
                    },
                }
            },
            None => {},
        }
        proof {
            let ng = groups_view(g@);
            assert forall|i: int, j: int| 0 <= i < j < ng.len() implies (#[trigger] ng[i]).0 != (
            #[trigger] ng[j]).0 by {
                if j < gv.len() {
                    assert(ng[i].0 == gv[i].0 && ng[j].0 == gv[j].0);
                } else if i < gv.len() {
                    assert(ng[i].0 == gv[i].0);
                }
            }
            assert forall|t: int| 0 <= t < rest@.len() implies #[trigger] pending_view(rest@[t]) == pv[done
                + 1 + t] by {
            }
        }
        done = done + 1;
    }
    proof {
        assert(pv.take(total as int) =~= pv);
    }
    g
}


/// The descriptors of `a` that `b` does not hold, in the order of `a`.
pub open spec fn descs_without(a: Seq<(Seq<char>, bool)>, b: Seq<(Seq<char>, bool)>) -> Seq<
    (Seq<char>, bool),
>
    decreases a.len(),
{
    if a.len() == 0 {
        a
    } else {
        let r = descs_without(a.drop_last(), b);
        if b.contains(a.last()) {
            r
        } else {
            r.push(a.last())
        }
    }
}

/// The views of a list of descriptors.
pub open spec fn descs_view(v: Seq<EventDescriptor>) -> Seq<(Seq<char>, bool)> {
    v.map_values(|d: EventDescriptor| d@)
}

/// The descriptors of `a` that `b` does not hold, as copies.
fn descriptors_without<L, M>(a: &ListenerGroups<L>, b: &ListenerGroups<M>) -> (r: Vec<EventDescriptor>)
    ensures
        descs_view(r@) == descs_without(group_descs(groups_view(a@)), group_descs(groups_view(b@))),
{
    let ghost ad = group_descs(groups_view(a@));
    let ghost bd = group_descs(groups_view(b@));
    let mut r: Vec<EventDescriptor> = Vec::new();
    let mut i: usize = 0;
    while i < a.len()
        invariant
            i <= a@.len(),
            ad == group_descs(groups_view(a@)),
            bd == group_descs(groups_view(b@)),
            descs_view(r@) == descs_without(ad.take(i as int), bd),
        decreases a.len() - i,
    {
        let d = &a[i].0;
        let found = find_group(b, d);
        proof {
            assert(ad.take(i + 1).drop_last() =~= ad.take(i as int));
            assert(ad.take(i + 1).last() == d@);
            if found is None {
                assert(!bd.contains(d@)) by {
                    if bd.contains(d@) {
                        let j = choose|j: int| 0 <= j < bd.len() && bd[j] == d@;
                        assert(b@[j].0@ == bd[j]);
                    }
                }
            } else {
                let j = found->0;
                assert(bd[j as int] == d@);
            }
        }
        let ghost r0 = r@;
        if found.is_none() {
            let c = d.clone();
            r.push(c);
            proof {
                assert(descs_view(r@) =~= descs_view(r0).push(d@));
            }
        }
        i = i + 1;
    }
    proof {
        assert(ad.take(a@.len() as int) =~= ad);
    }
    r
}


/// The contents of a registry: the next listener id, and the listener
/// groups under each id.
pub struct RegistryView<L> {
    pub id_counter: u32,
    pub by_id: Map<u32, Seq<((Seq<char>, bool), Seq<L>)>>,
}

/// Multiplexing registry of element event listeners.
pub struct Registry<L> {
    id_counter: u32,
    by_id: HashMap<u32, ListenerGroups<L>>,
}

impl<L> View for Registry<L> {
    type V = RegistryView<L>;

    closed spec fn view(&self) -> RegistryView<L> {
        RegistryView {
            id_counter: self.id_counter,
            by_id: self.by_id@.map_values(|g: ListenerGroups<L>| groups_view(g@)),
        }
    }
}

impl<L> Registry<L> {
    /// An empty registry.
    pub fn new() -> (r: Registry<L>)
        ensures
            r@.id_counter == 0,
            r@.by_id == Map::<u32, Seq<((Seq<char>, bool), Seq<L>)>>::empty(),
    {
        let r = Registry { id_counter: 0, by_id: HashMap::new() };
        proof {
            assert(r@.by_id =~= Map::<u32, Seq<((Seq<char>, bool), Seq<L>)>>::empty());
        }
        r
    }

    /// Hands out the next listener id; the counter wraps at the end of
    /// `u32`.
    pub fn set_listener_id(&mut self) -> (id: u32)
        ensures
            id == old(self)@.id_counter,
            final(self)@.id_counter == (if id == u32::MAX {
                0
            } else {
                id + 1
            }),
            final(self)@.by_id == old(self)@.by_id,
    {
        let id = self.id_counter;
        self.id_counter = if id == u32::MAX {
            0
        } else {
            id + 1
        };
        id
    }

    /// Registers the pending listeners of an element under `id`, grouped by
    /// descriptor. Returns the descriptors to attach host listeners for.
    pub fn register(&mut self, id: u32, pending: Vec<Option<(EventDescriptor, L)>>) -> (attach: Vec<
        EventDescriptor,
    >)
        ensures
            final(self)@.id_counter == old(self)@.id_counter,
            final(self)@.by_id == old(self)@.by_id.insert(
                id,
                groups_of(pending@.map_values(|p: Option<(EventDescriptor, L)>| pending_view(p))),
            ),
            descs_view(attach@) == group_descs(
                groups_of(pending@.map_values(|p: Option<(EventDescriptor, L)>| pending_view(p))),
            ),
    {
        let groups = group_by_descriptor(pending);
        let empty: ListenerGroups<L> = Vec::new();
        let attach = descriptors_without(&groups, &empty);
        proof {
            lemma_without_nothing(group_descs(groups_view(groups@)));
            assert(group_descs(groups_view(empty@)) =~= Seq::<(Seq<char>, bool)>::empty());
        }
        self.by_id.insert(id, groups);
        proof {
            assert(self@.by_id =~= old(self)@.by_id.insert(id, groups_view(groups@)));
        }
        attach
    }

    /// Replaces the listeners registered under `id`, when there are any.
    /// Returns the descriptors whose host listeners go (those only the old
    /// listeners had) and those to attach (those only the new ones have).
    pub fn patch(&mut self, id: u32, pending: Vec<Option<(EventDescriptor, L)>>) -> (r: (
        Vec<EventDescriptor>,
        Vec<EventDescriptor>,
    ))
        ensures
            final(self)@.id_counter == old(self)@.id_counter,
            !old(self)@.by_id.contains_key(id) ==> final(self)@ == old(self)@ && r.0@.len() == 0
                && r.1@.len() == 0,
            old(self)@.by_id.contains_key(id) ==> ({
                let next = groups_of(
                    pending@.map_values(|p: Option<(EventDescriptor, L)>| pending_view(p)),
                );
                let prev = old(self)@.by_id[id];
                &&& final(self)@.by_id == old(self)@.by_id.insert(id, next)
                &&& descs_view(r.0@) == descs_without(group_descs(prev), group_descs(next))
                &&& descs_view(r.1@) == descs_without(group_descs(next), group_descs(prev))
            }),
    {
        match self.by_id.remove(&id) {
            Some(prev) => {
                let next = group_by_descriptor(pending);
                let detach = descriptors_without(&prev, &next);
                let attach = descriptors_without(&next, &prev);
                proof {
                    assert(old(self).by_id@.contains_key(id));
                }
                self.by_id.insert(id, next);
                proof {
                    assert(self@.by_id =~= old(self)@.by_id.insert(id, groups_view(next@)));
                }
                (detach, attach)
            },
            None => {
                proof {
                    assert(self@.by_id =~= old(self)@.by_id);
                }
                (Vec::new(), Vec::new())
            },
        }
    }

    /// Forgets the listeners registered under `id`. Returns the descriptors
    /// whose host listeners go.
    pub fn unregister(&mut self, id: u32) -> (detach: Vec<EventDescriptor>)
        ensures
            final(self)@.id_counter == old(self)@.id_counter,
            final(self)@.by_id == old(self)@.by_id.remove(id),
            old(self)@.by_id.contains_key(id) ==> descs_view(detach@) == group_descs(
                old(self)@.by_id[id],
            ),
            !old(self)@.by_id.contains_key(id) ==> detach@.len() == 0,
    {
        match self.by_id.remove(&id) {
            Some(prev) => {
                let empty: ListenerGroups<L> = Vec::new();
                let detach = descriptors_without(&prev, &empty);
                proof {
                    lemma_without_nothing(group_descs(groups_view(prev@)));
                    assert(group_descs(groups_view(empty@)) =~= Seq::<(Seq<char>, bool)>::empty());
                    assert(self@.by_id =~= old(self)@.by_id.remove(id));
                }
                detach
            },
            None => {
                proof {
                    assert(self@.by_id =~= old(self)@.by_id.remove(id));
                }
                Vec::new()
            },
        }
    }

    /// True when listeners are registered under `id`.
    pub fn is_registered(&self, id: u32) -> (r: bool)
        ensures
            r == self@.by_id.contains_key(id),
    {
        self.by_id.contains_key(&id)
    }

    /// The listeners an event of type `event_type` reaches on the element
    /// registered under `id`: those of the first group whose descriptor has
    /// that type, passive or not; `None` when there is no such group.
    pub fn listeners_for(&self, id: u32, event_type: &str) -> (r: Option<&Vec<L>>)
        ensures
            match r {
                Some(ls) => self@.by_id.contains_key(id) && (first_group_of_type(self@.by_id[id], event_type@)
                    matches Some(k) && ls@ == self@.by_id[id][k].1),
                None => !self@.by_id.contains_key(id) || first_group_of_type(self@.by_id[id], event_type@)
                    is None,
            },
    {
        match self.by_id.get(&id) {
            None => None,
            Some(groups) => {
                let mut k: usize = 0;
                while k < groups.len()
                    invariant
                        self.by_id@.contains_key(id),
                        *groups == self.by_id@[id],
                        k <= groups@.len(),
                        forall|t: int| 0 <= t < k ==> (#[trigger] groups@[t]).0@.0 != event_type@,
                    decreases groups.len() - k,
                {
                    if str_eq(groups[k].0.event_type(), event_type) {
                        proof {
                            let g = groups_view(groups@);
                            assert(g[k as int].0.0 == event_type@);
                            assert forall|t: int| 0 <= t < k implies (#[trigger] g[t]).0.0 != event_type@ by {
                                assert(groups@[t].0@.0 != event_type@);
                            }
                            lemma_first_group_found(g, event_type@, k as int);
                        }
                        return Some(&groups[k].1);
                    }
                    k = k + 1;
                }
                proof {
                    let g = groups_view(groups@);
                    assert forall|t: int| 0 <= t < g.len() implies (#[trigger] g[t]).0.0 != event_type@ by {
                        assert(groups@[t].0@.0 != event_type@);
                    }
                    lemma_first_group_absent(g, event_type@);
                }
                None
            },
        }
    }
}

/// The index of the first group whose descriptor has this event type.
pub open spec fn first_group_of_type<L>(g: Seq<((Seq<char>, bool), Seq<L>)>, event_type: Seq<char>) -> Option<
    int,
>
    decreases g.len(),
{
    if g.len() == 0 {
        None
    } else {
        match first_group_of_type(g.drop_last(), event_type) {
            Some(k) => Some(k),
            None => if g.last().0.0 == event_type {
                Some(g.len() - 1)
            } else {
                None
            },
        }
    }
}

proof fn lemma_first_group_found<L>(g: Seq<((Seq<char>, bool), Seq<L>)>, event_type: Seq<char>, k: int)
    requires
        0 <= k < g.len(),
        g[k].0.0 == event_type,
        forall|t: int| 0 <= t < k ==> (#[trigger] g[t]).0.0 != event_type,
    ensures
        first_group_of_type(g, event_type) == Some(k),
    decreases g.len(),
{
    if k < g.len() - 1 {
        lemma_first_group_found(g.drop_last(), event_type, k);
    } else {
        lemma_first_group_absent(g.drop_last(), event_type);
    }
}

proof fn lemma_first_group_absent<L>(g: Seq<((Seq<char>, bool), Seq<L>)>, event_type: Seq<char>)
    requires
        forall|t: int| 0 <= t < g.len() ==> (#[trigger] g[t]).0.0 != event_type,
    ensures
        first_group_of_type(g, event_type) is None,
    decreases g.len(),
{
    if g.len() > 0 {
        lemma_first_group_absent(g.drop_last(), event_type);
    }
}

proof fn lemma_without_nothing(a: Seq<(Seq<char>, bool)>)
    ensures
        descs_without(a, Seq::empty()) == a,
    decreases a.len(),
{
    if a.len() > 0 {
        lemma_without_nothing(a.drop_last());
        assert(a.drop_last().push(a.last()) =~= a);
    }
}

/// The host listeners of an element after a patch are those of its new
/// listeners: every old descriptor is kept or detached, every new one is
/// kept or attached, and only those.
pub proof fn lemma_patch_keeps_host_listeners_in_step(
    prev: Seq<(Seq<char>, bool)>,
    next: Seq<(Seq<char>, bool)>,
    d: (Seq<char>, bool),
)
    ensures
        descs_without(prev, next).contains(d) <==> prev.contains(d) && !next.contains(d),
        descs_without(next, prev).contains(d) <==> next.contains(d) && !prev.contains(d),
        (prev.contains(d) && !descs_without(prev, next).contains(d)) || descs_without(
            next,
            prev,
        ).contains(d) <==> next.contains(d),
{
    lemma_without_contains(prev, next, d);
    lemma_without_contains(next, prev, d);
}

proof fn lemma_without_contains(a: Seq<(Seq<char>, bool)>, b: Seq<(Seq<char>, bool)>, d: (Seq<char>, bool))
    ensures
        descs_without(a, b).contains(d) <==> a.contains(d) && !b.contains(d),
    decreases a.len(),
{
    if a.len() > 0 {
        let a0 = a.drop_last();
        lemma_without_contains(a0, b, d);
        let r0 = descs_without(a0, b);
        assert(a =~= a0.push(a.last()));
        if a.contains(d) && !a0.contains(d) {
            assert(a.last() == d) by {
                let i = choose|i: int| 0 <= i < a.len() && a[i] == d;
                if i < a.len() - 1 {
                    assert(a0[i] == d);
                }
            }
        }
        if a0.contains(d) {
            let i = choose|i: int| 0 <= i < a0.len() && a0[i] == d;
            assert(a[i] == d);
        }
        if !b.contains(a.last()) {
            let r = r0.push(a.last());
            if r.contains(d) && !r0.contains(d) {
                let i = choose|i: int| 0 <= i < r.len() && r[i] == d;
                if i < r0.len() {
                    assert(r0[i] == d);
                }
            }
            if r0.contains(d) {
                let i = choose|i: int| 0 <= i < r0.len() && r0[i] == d;
                assert(r[i] == d);
            }
            if a.last() == d {
                assert(r[r.len() - 1] == d);
            }
        }
    }
}

} // verus!
