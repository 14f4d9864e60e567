//! Controlled subtrees of an app and the event types their hosts listen
//! for.
//!
//! An app's root and each portal mount a controlled subtree at a host
//! element. The subtrees of one app share the set of event descriptors the
//! app listens for; every subtree's host registers a listener for every
//! event type in that set. Subtrees live in an arena: a [`BSubtree`] is a
//! handle into [`Subtrees`].

use std::collections::HashMap;
use vstd::prelude::*;
use crate::binding::str_eq;
use crate::listeners::{EventDescriptor, Registry, RegistryView, groups_of, pending_view, descs_view, group_descs, descs_without, first_group_of_type};

verus! {

broadcast use vstd::std_specs::hash::group_hash_axioms;

/// A handle to a controlled subtree.
#[derive(Debug, Clone, Copy, PartialEq, Eq, Structural)]
pub struct BSubtree {
    index: usize,
}

impl View for BSubtree {
    type V = usize;

    closed spec fn view(&self) -> usize {
        self.index
    }
}

/// All controlled subtrees, the apps they belong to, and element branding.
pub struct Subtrees<L> {
    next_root_id: u32,
    subtree_app: Vec<usize>,
    subtree_id: Vec<u32>,
    subtree_host: Vec<i32>,
    registered: Vec<Vec<String>>,
    registries: Vec<Registry<L>>,
    app_subtrees: Vec<Vec<usize>>,
    app_listening: Vec<Vec<EventDescriptor>>,
    branded: HashMap<i32, u32>,
}

/// The contents of the arena.
pub struct SubtreesView {
    pub next_root_id: u32,
    pub subtree_app: Seq<usize>,
    pub subtree_id: Seq<u32>,
    pub subtree_host: Seq<i32>,
    pub registered: Seq<Seq<Seq<char>>>,
    pub app_subtrees: Seq<Seq<usize>>,
    pub app_listening: Seq<Seq<(Seq<char>, bool)>>,
    pub branded: Map<i32, u32>,
}

/// The views of a list of strings.
pub open spec fn strings_view(v: Seq<String>) -> Seq<Seq<char>> {
    v.map_values(|s: String| s@)
}

impl<L> View for Subtrees<L> {
    type V = SubtreesView;

    closed spec fn view(&self) -> SubtreesView {
        SubtreesView {
            next_root_id: self.next_root_id,
            subtree_app: self.subtree_app@,
            subtree_id: self.subtree_id@,
            subtree_host: self.subtree_host@,
            registered: self.registered@.map_values(|v: Vec<String>| strings_view(v@)),
            app_subtrees: self.app_subtrees@.map_values(|v: Vec<usize>| v@),
            app_listening: self.app_listening@.map_values(
                |v: Vec<EventDescriptor>| v@.map_values(|d: EventDescriptor| d@),
            ),
            branded: self.branded@,
        }
    }
}

/// The arena is consistent, and every subtree of an app has its host
/// listening for every event type the app listens for.
pub open spec fn subtrees_wf(v: SubtreesView) -> bool {
    &&& v.subtree_id.len() == v.subtree_app.len()
    &&& forall|s: int| 0 <= s < v.subtree_id.len() ==> #[trigger] v.subtree_id[s] < v.next_root_id
    &&& v.subtree_host.len() == v.subtree_app.len()
    &&& v.registered.len() == v.subtree_app.len()
    &&& v.app_listening.len() == v.app_subtrees.len()
    &&& forall|s: int| 0 <= s < v.subtree_app.len() ==> #[trigger] v.subtree_app[s] < v.app_subtrees.len()
    &&& forall|a: int, k: int|
        0 <= a < v.app_subtrees.len() && 0 <= k < v.app_subtrees[a].len() ==> {
            let s = #[trigger] v.app_subtrees[a][k];
            &&& s < v.subtree_app.len()
            &&& v.subtree_app[s as int] == a
        }
    &&& forall|a: int, k: int, j: int|
        0 <= a < v.app_subtrees.len() && 0 <= k < v.app_subtrees[a].len() && 0 <= j
            < v.app_listening[a].len() ==> v.registered[#[trigger] v.app_subtrees[a][k] as int].contains(
            (#[trigger] v.app_listening[a][j]).0,
        )
}

/// Every event type registered for a subtree stays registered.
pub open spec fn registered_grows(old: SubtreesView, new: SubtreesView) -> bool {
    forall|s: int, t: Seq<char>|
        0 <= s < old.registered.len() && #[trigger] old.registered[s].contains(t) ==> #[trigger] new.registered[s].contains(t)
}

fn contains_str(v: &Vec<String>, s: &str) -> (r: bool)
    ensures
        r == strings_view(v@).contains(s@),
{
    let mut i: usize = 0;
    while i < v.len()
        invariant
            i <= v@.len(),
            forall|t: int| 0 <= t < i ==> (#[trigger] v@[t])@ != s@,
        decreases v.len() - i,
    {
        if str_eq(v[i].as_str(), s) {
            proof {
                assert(strings_view(v@)[i as int] == s@);
            }
            return true;
        }
        i = i + 1;
    }
    proof {
        if strings_view(v@).contains(s@) {
            let t = choose|t: int| 0 <= t < strings_view(v@).len() && strings_view(v@)[t] == s@;
            assert(v@[t]@ == s@);
        }
    }
    false
}

fn contains_desc(v: &Vec<EventDescriptor>, d: &EventDescriptor) -> (r: bool)
    ensures
        r == v@.map_values(|e: EventDescriptor| e@).contains(d@),
{
    let ghost dv = v@.map_values(|e: EventDescriptor| e@);
    let mut i: usize = 0;
    while i < v.len()
        invariant
            i <= v@.len(),
            dv == v@.map_values(|e: EventDescriptor| e@),
            forall|t: int| 0 <= t < i ==> (#[trigger] v@[t])@ != d@,
        decreases v.len() - i,
    {
        if v[i].same(d) {
            proof {
                assert(dv[i as int] == d@);
            }
            return true;
        }
        i = i + 1;
    }
    proof {
        if dv.contains(d@) {
            let t = choose|t: int| 0 <= t < dv.len() && dv[t] == d@;
            assert(v@[t]@ == d@);
        }
    }
    false
}

impl<L> Subtrees<L> {
    /// An arena with no subtree; root ids start at 1.
    pub fn new() -> (w: Subtrees<L>)
        ensures
            subtrees_wf(w@),
            w@.next_root_id == 1,
            w@.subtree_app.len() == 0,
            w@.app_subtrees.len() == 0,
            w@.branded == Map::<i32, u32>::empty(),
    {
        let w = Subtrees {
            next_root_id: 1,
            subtree_app: Vec::new(),
            subtree_id: Vec::new(),
            subtree_host: Vec::new(),
            registered: Vec::new(),
            registries: Vec::new(),
            app_subtrees: Vec::new(),
            app_listening: Vec::new(),
            branded: HashMap::new(),
        };
        proof {
            assert(w@.registered =~= Seq::<Seq<Seq<char>>>::empty());
            assert(w@.app_subtrees =~= Seq::<Seq<usize>>::empty());
            assert(w@.app_listening =~= Seq::<Seq<(Seq<char>, bool)>>::empty());
        }
        w
    }

    /// Registers a host listener for an event type on a subtree's host,
    /// unless one is registered already. Returns whether one was added.
    fn add_listener(&mut self, subtree: usize, event_type: &str) -> (added: bool)
        requires
            subtree < old(self)@.registered.len(),
            old(self).registered@.len() == old(self)@.registered.len(),
        ensures
            final(self)@.registered == old(self)@.registered.update(
                subtree as int,
                if old(self)@.registered[subtree as int].contains(event_type@) {
                    old(self)@.registered[subtree as int]
                } else {
                    old(self)@.registered[subtree as int].push(event_type@)
                },
            ),
            added == !old(self)@.registered[subtree as int].contains(event_type@),
            final(self)@.next_root_id == old(self)@.next_root_id,
            final(self)@.subtree_app == old(self)@.subtree_app,
            final(self)@.subtree_id == old(self)@.subtree_id,
            final(self)@.subtree_host == old(self)@.subtree_host,
            final(self)@.app_subtrees == old(self)@.app_subtrees,
            final(self)@.app_listening == old(self)@.app_listening,
            final(self)@.branded == old(self)@.branded,
            final(self).registries@ == old(self).registries@,
    {
        let ghost before = self.registered@;
        let mut kinds = self.registered.remove(subtree);
        let present = contains_str(&kinds, event_type);
        if !present {
            kinds.push(event_type.to_owned());
        }
        let ghost kvec = kinds;
        self.registered.insert(subtree, kinds);
        proof {
            let want = self@.registered;
            assert(self.registered@ =~= before.update(subtree as int, kvec));
            if !present {
                assert(strings_view(kvec@) =~= strings_view(before[subtree as int]@).push(event_type@));
            }
            assert(want =~= old(self)@.registered.update(
                subtree as int,
                if old(self)@.registered[subtree as int].contains(event_type@) {
                    old(self)@.registered[subtree as int]
                } else {
                    old(self)@.registered[subtree as int].push(event_type@)
                },
            ));
        }
        !present
    }
}


impl<L> Subtrees<L> {
    /// The arena is consistent (see [`subtrees_wf`]) and holds a listener
    /// registry per subtree.
    pub closed spec fn well_formed(&self) -> bool {
        subtrees_wf(self@) && self.registries@.len() == self.subtree_app@.len()
    }

    /// A well-formed world has a consistent view: every subtree's app is in
    /// range, every app's subtrees belong to it and listen for its events.
    pub proof fn lemma_well_formed_view(&self)
        requires
            self.well_formed(),
        ensures
            subtrees_wf(self@),
    {
    }

    /// The id of the subtree an element was branded with, if any.
    pub fn subtree_id_of(&self, el: i32) -> (r: Option<u32>)
        ensures
            r == (if self@.branded.contains_key(el) {
                Some(self@.branded[el])
            } else {
                None::<u32>
            }),
    {
        match self.branded.get(&el) {
            Some(id) => Some(*id),
            None => None,
        }
    }

    /// The number of subtrees.
    pub fn len(&self) -> (n: usize)
        ensures
            n == self@.subtree_app.len(),
    {
        self.subtree_app.len()
    }

    /// Adds a subtree for `host` to app `app` (a new app when `app` is the
    /// number of apps), registering a host listener for every event type the
    /// app listens for. Returns the new subtree.
    fn add_subtree(&mut self, app: usize, host: i32) -> (s: usize)
        requires
            old(self).well_formed(),
            app <= old(self)@.app_subtrees.len(),
            old(self)@.next_root_id < u32::MAX,
            old(self)@.subtree_app.len() < usize::MAX,
            old(self)@.app_subtrees.len() < usize::MAX,
        ensures
            final(self).well_formed(),
            s == old(self)@.subtree_app.len(),
            final(self)@.subtree_app == old(self)@.subtree_app.push(app),
            final(self)@.subtree_id == old(self)@.subtree_id.push(old(self)@.next_root_id),
            final(self)@.next_root_id == old(self)@.next_root_id + 1,
            final(self)@.branded == old(self)@.branded,
            app == old(self)@.app_subtrees.len() ==> final(self)@.app_subtrees
                == old(self)@.app_subtrees.push(seq![s]) && final(self)@.app_listening
                == old(self)@.app_listening.push(Seq::empty()),
            app < old(self)@.app_subtrees.len() ==> final(self)@.app_subtrees
                == old(self)@.app_subtrees.update(
                app as int,
                old(self)@.app_subtrees[app as int].push(s),
            ) && final(self)@.app_listening == old(self)@.app_listening,
            registered_grows(old(self)@, final(self)@),
    {
        let s = self.subtree_app.len();
        let id = self.next_root_id;
        self.subtree_app.push(app);
        self.subtree_id.push(id);
        self.subtree_host.push(host);
        let kinds: Vec<String> = Vec::new();
        proof {
            assert(strings_view(kinds@) =~= Seq::<Seq<char>>::empty());
        }
        self.registered.push(kinds);
        self.registries.push(Registry::new());
        self.next_root_id = id + 1;
        let ghost v1 = self@;
        proof {
            assert(v1.registered =~= old(self)@.registered.push(Seq::empty()));
            assert(v1.app_subtrees == old(self)@.app_subtrees);
        }
        if app == self.app_subtrees.len() {
            let mut members: Vec<usize> = Vec::new();
            members.push(s);
            self.app_subtrees.push(members);
            let listening: Vec<EventDescriptor> = Vec::new();
            proof {
                assert(listening@.map_values(|d: EventDescriptor| d@) =~= Seq::<(Seq<char>, bool)>::empty());
            }
            self.app_listening.push(listening);
            proof {
                let v = self@;
                assert(v.app_subtrees =~= old(self)@.app_subtrees.push(seq![s]));
                assert(v.app_listening =~= old(self)@.app_listening.push(Seq::empty()));
                assert(v.registered =~= v1.registered);
                assert forall|a: int, k: int|
                    0 <= a < v.app_subtrees.len() && 0 <= k < v.app_subtrees[a].len() implies {
                    let t = #[trigger] v.app_subtrees[a][k];
                    &&& t < v.subtree_app.len()
                    &&& v.subtree_app[t as int] == a
                } by {
                    if a < old(self)@.app_subtrees.len() {
                        assert(v.app_subtrees[a] == old(self)@.app_subtrees[a]);
                    }
                }
                assert forall|a: int, k: int, j: int|
                    0 <= a < v.app_subtrees.len() && 0 <= k < v.app_subtrees[a].len() && 0 <= j
                        < v.app_listening[a].len() implies v.registered[#[trigger] v.app_subtrees[a][k] as int].contains(
                    (#[trigger] v.app_listening[a][j]).0,
                ) by {
                    assert(a < old(self)@.app_subtrees.len());
                    assert(v.app_subtrees[a] == old(self)@.app_subtrees[a]);
                    assert(v.app_listening[a] == old(self)@.app_listening[a]);
                    let t = old(self)@.app_subtrees[a][k] as int;
                    assert(old(self)@.registered[t].contains(old(self)@.app_listening[a][j].0));
                    assert(v.registered[t] == old(self)@.registered[t]);
                }
                assert forall|t: int, x: Seq<char>|
                    0 <= t < old(self)@.registered.len() && #[trigger] old(self)@.registered[t].contains(x)
                    implies #[trigger] v.registered[t].contains(x) by {
                    assert(v.registered[t] == old(self)@.registered[t]);
                }
            }
        } else {
            let mut members = self.app_subtrees.remove(app);
            members.push(s);
            self.app_subtrees.insert(app, members);
            let ghost v2 = self@;
            proof {
                assert(v2.app_subtrees =~= old(self)@.app_subtrees.update(
                    app as int,
                    old(self)@.app_subtrees[app as int].push(s),
                ));
                assert(v2.registered == v1.registered);
            }
            let n = self.app_listening[app].len();
            let mut j: usize = 0;
            while j < n
                invariant
                    j <= n,
                    app < self@.app_listening.len(),
                    n == self@.app_listening[app as int].len(),
                    s < self@.registered.len(),
                    self.registered@.len() == self@.registered.len(),
                    self.registries@.len() == self@.subtree_app.len(),
                    self@.subtree_app == v2.subtree_app,
                    self@.subtree_id == v2.subtree_id,
                    self@.subtree_host == v2.subtree_host,
                    self@.app_subtrees == v2.app_subtrees,
                    self@.app_listening == v2.app_listening,
                    self@.branded == v2.branded,
                    self@.next_root_id == v2.next_root_id,
                    self@.registered.len() == v2.registered.len(),
                    registered_grows(v2, self@),
                    forall|t: int| 0 <= t < j ==> #[trigger] self@.registered[s as int].contains(
                        self@.app_listening[app as int][t].0,
                    ),
                decreases n - j,
            {
                let ghost before = self@;
                let ty = self.app_listening[app][j].event_type().to_owned();
                self.add_listener(s, ty.as_str());
                proof {
                    let v = self@;
                    assert(v.registered[s as int].contains(ty@)) by {
                        if !before.registered[s as int].contains(ty@) {
                            let r = before.registered[s as int].push(ty@);
                            assert(r[r.len() - 1] == ty@);
                        }
                    }
                    assert forall|t: int, x: Seq<char>|
                        0 <= t < before.registered.len() && #[trigger] before.registered[t].contains(x)
                        implies #[trigger] v.registered[t].contains(x) by {
                        if t == s && !before.registered[s as int].contains(ty@) {
                            let q = choose|q: int| 0 <= q < before.registered[t].len() && before.registered[t][q] == x;
                            assert(v.registered[t][q] == x);
                        }
                    }
                    assert forall|t: int, x: Seq<char>|
                        0 <= t < v2.registered.len() && #[trigger] v2.registered[t].contains(x)
                        implies #[trigger] v.registered[t].contains(x) by {
                        assert(before.registered[t].contains(x));
                    }
                    assert forall|t: int| 0 <= t < j + 1 implies #[trigger] v.registered[s as int].contains(
                        v.app_listening[app as int][t].0,
                    ) by {
                        if t < j {
                            assert(before.registered[s as int].contains(before.app_listening[app as int][t].0));
                        }
                    }
                }
                j = j + 1;
            }
            proof {
                let v = self@;
                assert forall|t: int, x: Seq<char>|
                    0 <= t < old(self)@.registered.len() && #[trigger] old(self)@.registered[t].contains(x)
                    implies #[trigger] v.registered[t].contains(x) by {
                    assert(v2.registered[t] == old(self)@.registered[t]);
                }
                assert forall|a: int, k: int|
                    0 <= a < v.app_subtrees.len() && 0 <= k < v.app_subtrees[a].len() implies {
                    let t = #[trigger] v.app_subtrees[a][k];
                    &&& t < v.subtree_app.len()
                    &&& v.subtree_app[t as int] == a
                } by {
                    if a != app || k < old(self)@.app_subtrees[app as int].len() {
                        assert(v.app_subtrees[a][k] == old(self)@.app_subtrees[a][k]);
                    }
                }
                assert forall|a: int, k: int, jj: int|
                    0 <= a < v.app_subtrees.len() && 0 <= k < v.app_subtrees[a].len() && 0 <= jj
                        < v.app_listening[a].len() implies v.registered[#[trigger] v.app_subtrees[a][k] as int].contains(
                    (#[trigger] v.app_listening[a][jj]).0,
                ) by {
                    if a == app && k == old(self)@.app_subtrees[app as int].len() {
                        assert(v.app_subtrees[a][k] == s);
                    } else {
                        assert(v.app_subtrees[a][k] == old(self)@.app_subtrees[a][k]);
                        let t = old(self)@.app_subtrees[a][k] as int;
                        assert(old(self)@.registered[t].contains(old(self)@.app_listening[a][jj].0));
                    }
                }
            }
        }
        s
    }
}


impl BSubtree {
    /// Creates the root subtree of a new app at `host`, and brands the host
    /// with the subtree's id.
    pub fn create_root<L>(world: &mut Subtrees<L>, host: i32) -> (root: BSubtree)
        requires
            old(world).well_formed(),
            old(world)@.next_root_id < u32::MAX,
            old(world)@.subtree_app.len() < usize::MAX,
            old(world)@.app_subtrees.len() < usize::MAX,
        ensures
            final(world).well_formed(),
            root@ == old(world)@.subtree_app.len(),
            final(world)@.subtree_app == old(world)@.subtree_app.push(
                old(world)@.app_subtrees.len() as usize,
            ),
            final(world)@.subtree_id[root@ as int] == old(world)@.next_root_id,
            final(world)@.app_listening[old(world)@.app_subtrees.len() as int].len() == 0,
            final(world)@.branded == old(world)@.branded.insert(host, old(world)@.next_root_id),
    {
        let app = world.app_subtrees.len();
        let s = world.add_subtree(app, host);
        let root = BSubtree { index: s };
        root.brand_element(world, host);
        root
    }

    /// Creates a subtree at `host` that belongs to the app of this subtree,
    /// so it listens for the event types the app listens for; brands the
    /// host.
    pub fn create_subroot<L>(&self, world: &mut Subtrees<L>, host: i32) -> (sub: BSubtree)
        requires
            old(world).well_formed(),
            self@ < old(world)@.subtree_app.len(),
            old(world)@.next_root_id < u32::MAX,
            old(world)@.subtree_app.len() < usize::MAX,
            old(world)@.app_subtrees.len() < usize::MAX,
        ensures
            final(world).well_formed(),
            sub@ == old(world)@.subtree_app.len(),
            final(world)@.subtree_app[sub@ as int] == old(world)@.subtree_app[self@ as int],
            final(world)@.subtree_id[sub@ as int] == old(world)@.next_root_id,
            final(world)@.app_listening == old(world)@.app_listening,
            final(world)@.branded == old(world)@.branded.insert(host, old(world)@.next_root_id),
            forall|t: int| 0 <= t < old(world)@.subtree_id.len() ==> #[trigger] old(world)@.subtree_id[t]
                != final(world)@.subtree_id[sub@ as int],
            ({
                let app = old(world)@.subtree_app[self@ as int] as int;
                &&& 0 <= app < old(world)@.app_subtrees.len()
                &&& final(world)@.app_subtrees[app] == old(world)@.app_subtrees[app].push(sub@)
                &&& final(world)@.app_subtrees == old(world)@.app_subtrees.update(
                    app,
                    old(world)@.app_subtrees[app].push(sub@),
                )
                &&& forall|j: int|
                    0 <= j < final(world)@.app_listening[app].len() ==> final(world)@.registered[sub@ as int].contains(
                        (#[trigger] final(world)@.app_listening[app][j]).0,
                    )
            }),
    {
        let app = world.subtree_app[self.index];
        let s = world.add_subtree(app, host);
        let sub = BSubtree { index: s };
        sub.brand_element(world, host);
        proof {
            let v = world@;
            let a = app as int;
            let k = v.app_subtrees[a].len() - 1;
            assert(v.app_subtrees[a][k] == s);
            assert forall|j: int| 0 <= j < v.app_listening[a].len() implies v.registered[s as int].contains(
                (#[trigger] v.app_listening[a][j]).0,
            ) by {
                assert(v.registered[v.app_subtrees[a][k] as int].contains(v.app_listening[a][j].0));
            }
        }
        sub
    }

    /// Makes the app of this subtree listen for an event descriptor: every
    /// subtree of the app gets a host listener for its event type.
    pub fn ensure_handled<L>(&self, world: &mut Subtrees<L>, desc: &EventDescriptor)
        requires
            old(world).well_formed(),
            self@ < old(world)@.subtree_app.len(),
        ensures
            final(world).well_formed(),
            ({
                let app = old(world)@.subtree_app[self@ as int] as int;
                &&& final(world)@.app_listening[app].contains(desc@)
                &&& forall|k: int|
                    0 <= k < final(world)@.app_subtrees[app].len() ==> final(world)@.registered[
                        #[trigger] final(world)@.app_subtrees[app][k] as int].contains(desc@.0)
            }),
            final(world)@.subtree_app == old(world)@.subtree_app,
            final(world)@.app_subtrees == old(world)@.app_subtrees,
            final(world)@.branded == old(world)@.branded,
    {
        let app = world.subtree_app[self.index];
        if contains_desc(&world.app_listening[app], desc) {
            proof {
                let v = world@;
                assert forall|k: int| 0 <= k < v.app_subtrees[app as int].len() implies v.registered[
                    #[trigger] v.app_subtrees[app as int][k] as int].contains(desc@.0) by {
                    let j = choose|j: int| 0 <= j < v.app_listening[app as int].len() && v.app_listening[app as int][j] == desc@;
                    assert(v.registered[v.app_subtrees[app as int][k] as int].contains(v.app_listening[app as int][j].0));
                }
            }
            return;
        }
        let ghost v0 = world@;
        let ghost raw0 = world.app_listening@;
        let mut listening = world.app_listening.remove(app);
        let ghost l0 = listening@;
        listening.push(desc.clone());
        let ghost lvec = listening;
        world.app_listening.insert(app, listening);
        let ghost v1 = world@;
        proof {
            assert(world.app_listening@ =~= raw0.update(app as int, lvec));
            assert(lvec@.map_values(|d: EventDescriptor| d@) =~= l0.map_values(|d: EventDescriptor| d@).push(desc@));
            assert(v1.app_listening =~= v0.app_listening.update(app as int, v0.app_listening[app as int].push(desc@)));
            assert(v1.app_listening[app as int].contains(desc@)) by {
                let l = v1.app_listening[app as int];
                assert(l[l.len() - 1] == desc@);
            }
        }
        let members = world.app_subtrees[app].clone();
        let ty = desc.event_type();
        let mut k: usize = 0;
        while k < members.len()
            invariant
                k <= members@.len(),
                members@ == v1.app_subtrees[app as int],
                app < v1.app_subtrees.len(),
                ty@ == desc@.0,
                subtrees_wf(v0),
                world.registries@.len() == world@.subtree_app.len(),
                world.registered@.len() == world@.registered.len(),
                world@.subtree_app == v1.subtree_app,
                world@.subtree_id == v1.subtree_id,
                world@.subtree_host == v1.subtree_host,
                world@.app_subtrees == v1.app_subtrees,
                world@.app_listening == v1.app_listening,
                world@.branded == v1.branded,
                world@.next_root_id == v1.next_root_id,
                world@.registered.len() == v1.registered.len(),
                v1.registered == v0.registered,
                v1.app_subtrees == v0.app_subtrees,
                v1.subtree_app == v0.subtree_app,
                registered_grows(v1, world@),
                forall|t: int| 0 <= t < k ==> world@.registered[#[trigger] members@[t] as int].contains(ty@),
            decreases members.len() - k,
        {
            let s = members[k];
            let ghost before = world@;
            proof {
                assert(s < v0.subtree_app.len());
            }
            world.add_listener(s, ty);
            proof {
                let v = world@;
                assert(v.registered[s as int].contains(ty@)) by {
                    if !before.registered[s as int].contains(ty@) {
                        let r = before.registered[s as int].push(ty@);
                        assert(r[r.len() - 1] == ty@);
                    }
                }
                assert forall|t: int, x: Seq<char>|
                    0 <= t < before.registered.len() && #[trigger] before.registered[t].contains(x)
                    implies #[trigger] v.registered[t].contains(x) by {
                    if t == s && !before.registered[s as int].contains(ty@) {
                        let q = choose|q: int| 0 <= q < before.registered[t].len() && before.registered[t][q] == x;
                        assert(v.registered[t][q] == x);
                    }
                }
                assert forall|t: int, x: Seq<char>|
                    0 <= t < v1.registered.len() && #[trigger] v1.registered[t].contains(x)
                    implies #[trigger] v.registered[t].contains(x) by {
                    assert(before.registered[t].contains(x));
                }
                assert forall|t: int| 0 <= t < k + 1 implies v.registered[#[trigger] members@[t] as int].contains(ty@) by {
                    if t < k {
                        assert(before.registered[members@[t] as int].contains(ty@));
                    }
                }
            }
            k = k + 1;
        }
        proof {
            let v = world@;
            assert forall|a: int, kk: int, j: int|
                0 <= a < v.app_subtrees.len() && 0 <= kk < v.app_subtrees[a].len() && 0 <= j
                    < v.app_listening[a].len() implies v.registered[#[trigger] v.app_subtrees[a][kk] as int].contains(
                (#[trigger] v.app_listening[a][j]).0,
            ) by {
                let t = v.app_subtrees[a][kk] as int;
                if a == app && j == v0.app_listening[app as int].len() {
                    assert(members@[kk] == t);
                } else {
                    assert(v.app_listening[a][j] == v0.app_listening[a][j]);
                    assert(v0.registered[t].contains(v0.app_listening[a][j].0));
                }
            }
            assert forall|kk: int| 0 <= kk < v.app_subtrees[app as int].len() implies v.registered[
                #[trigger] v.app_subtrees[app as int][kk] as int].contains(desc@.0) by {
                assert(members@[kk] == v.app_subtrees[app as int][kk]);
            }
        }
    }

    /// Brands an element with this subtree's id.
    pub fn brand_element<L>(&self, world: &mut Subtrees<L>, el: i32)
        requires
            old(world).well_formed(),
            self@ < old(world)@.subtree_app.len(),
        ensures
            final(world).well_formed(),
            final(world)@ == (SubtreesView {
                branded: old(world)@.branded.insert(el, old(world)@.subtree_id[self@ as int]),
                ..old(world)@
            }),
            forall|t: int| #[trigger] final(world).registry_at(t) == old(world).registry_at(t),
    {
        let id = world.subtree_id[self.index];
        world.branded.insert(el, id);
    }

    /// Removes the branding of an element that is being detached.
    pub fn unbrand_element<L>(&self, world: &mut Subtrees<L>, el: i32)
        requires
            old(world).well_formed(),
        ensures
            final(world).well_formed(),
            final(world)@ == (SubtreesView { branded: old(world)@.branded.remove(el), ..old(world)@ }),
            forall|t: int| #[trigger] final(world).registry_at(t) == old(world).registry_at(t),
    {
        world.branded.remove(&el);
    }

    /// Runs `f` with the listener registry of this subtree.
    pub fn with_listener_registry<L, R, F: FnOnce(&mut Registry<L>) -> R>(
        &self,
        world: &mut Subtrees<L>,
        f: F,
    ) -> (r: R)
        requires
            old(world).well_formed(),
            self@ < old(world)@.subtree_app.len(),
            forall|reg: &mut Registry<L>| f.requires((reg,)),
        ensures
            final(world).well_formed(),
            final(world)@ == old(world)@,
            exists|m: &mut Registry<L>|
                (*m)@ == old(world).registry_at(self@ as int) && f.ensures((m,), r)
                    && final(world).registry_at(self@ as int) == (*final(m))@,
            forall|t: int|
                0 <= t < old(world)@.subtree_app.len() && t != self@ ==> #[trigger] final(world).registry_at(t)
                    == old(world).registry_at(t),
    {
        let mut reg = world.registries.remove(self.index);
        let ghost pre = reg;
        let r = f(&mut reg);
        proof {
            assert(pre == old(world).registries@[self.index as int]);
        }
        let ghost post = reg;
        proof {
            assert(exists|m: &mut Registry<L>| #[trigger] f.ensures((m,), r) && *m == pre && *final(m) == post);
        }
        world.registries.insert(self.index, reg);
        proof {
            assert(world.registries@[self.index as int] == post);
            assert(world.registry_at(self@ as int) == post@);
            assert(old(world).registry_at(self@ as int) == pre@);
            assert forall|t: int|
                0 <= t < old(world)@.subtree_app.len() && t != self@ implies #[trigger] world.registry_at(t)
                == old(world).registry_at(t) by {
                assert(world.registries@[t] == old(world).registries@[t]);
            }
        }
        r
    }
}

/// Every subtree of an app, the new ones too, has its host listening for
/// every event type the app listens for.
pub proof fn lemma_app_subtrees_listen(v: SubtreesView, a: int, k: int, j: int)
    requires
        subtrees_wf(v),
        0 <= a < v.app_subtrees.len(),
        0 <= k < v.app_subtrees[a].len(),
        0 <= j < v.app_listening[a].len(),
    ensures
        v.registered[v.app_subtrees[a][k] as int].contains(v.app_listening[a][j].0),
{
}


impl<L> Subtrees<L> {
    /// The listener registry of subtree `i`.
    pub closed spec fn registry_at(&self, i: int) -> RegistryView<L> {
        self.registries@[i]@
    }

    /// Hands out the next listener id of subtree `s`'s registry.
    pub fn set_listener_id(&mut self, s: usize) -> (id: u32)
        requires
            old(self).well_formed(),
            s < old(self)@.subtree_app.len(),
        ensures
            final(self).well_formed(),
            final(self)@ == old(self)@,
            id == old(self).registry_at(s as int).id_counter,
            final(self).registry_at(s as int).id_counter == (if id == u32::MAX {
                0
            } else {
                id + 1
            }),
            final(self).registry_at(s as int).by_id == old(self).registry_at(s as int).by_id,
            forall|t: int|
                0 <= t < old(self)@.subtree_app.len() && t != s ==> #[trigger] final(self).registry_at(t)
                    == old(self).registry_at(t),
    {
        let mut reg = self.registries.remove(s);
        let id = reg.set_listener_id();
        self.registries.insert(s, reg);
        proof {
            assert forall|t: int|
                0 <= t < old(self)@.subtree_app.len() && t != s implies #[trigger] self.registry_at(t)
                == old(self).registry_at(t) by {
                assert(self.registries@[t] == old(self).registries@[t]);
            }
        }
        id
    }

    /// Registers listeners under `id` in subtree `s`'s registry.
    pub fn register_listeners(&mut self, s: usize, id: u32, pending: Vec<Option<(EventDescriptor, L)>>) -> (attach: Vec<EventDescriptor>)
        requires
            old(self).well_formed(),
            s < old(self)@.subtree_app.len(),
        ensures
            final(self).well_formed(),
            final(self)@ == old(self)@,
            final(self).registry_at(s as int).id_counter == old(self).registry_at(s as int).id_counter,
            final(self).registry_at(s as int).by_id == old(self).registry_at(s as int).by_id.insert(
                id,
                groups_of(pending@.map_values(|p: Option<(EventDescriptor, L)>| pending_view(p))),
            ),
            descs_view(attach@) == group_descs(
                groups_of(pending@.map_values(|p: Option<(EventDescriptor, L)>| pending_view(p))),
            ),
            forall|t: int|
                0 <= t < old(self)@.subtree_app.len() && t != s ==> #[trigger] final(self).registry_at(t)
                    == old(self).registry_at(t),
    {
        let mut reg = self.registries.remove(s);
        let attach = reg.register(id, pending);
        self.registries.insert(s, reg);
        proof {
            assert forall|t: int|
                0 <= t < old(self)@.subtree_app.len() && t != s implies #[trigger] self.registry_at(t)
                == old(self).registry_at(t) by {
                assert(self.registries@[t] == old(self).registries@[t]);
            }
        }
        attach
    }

    /// Replaces the listeners under `id` in subtree `s`'s registry (see
    /// [`Registry::patch`]).
    pub fn patch_listeners(&mut self, s: usize, id: u32, pending: Vec<Option<(EventDescriptor, L)>>) -> (r: (Vec<EventDescriptor>, Vec<EventDescriptor>))
        requires
            old(self).well_formed(),
            s < old(self)@.subtree_app.len(),
        ensures
            final(self).well_formed(),
            final(self)@ == old(self)@,
            final(self).registry_at(s as int).id_counter == old(self).registry_at(s as int).id_counter,
            !old(self).registry_at(s as int).by_id.contains_key(id) ==> final(self).registry_at(s as int)
                == old(self).registry_at(s as int) && r.0@.len() == 0 && r.1@.len() == 0,
            old(self).registry_at(s as int).by_id.contains_key(id) ==> ({
                let next = groups_of(
                    pending@.map_values(|p: Option<(EventDescriptor, L)>| pending_view(p)),
                );
                let prev = old(self).registry_at(s as int).by_id[id];
                &&& final(self).registry_at(s as int).by_id == old(self).registry_at(s as int).by_id.insert(id, next)
                &&& descs_view(r.0@) == descs_without(group_descs(prev), group_descs(next))
                &&& descs_view(r.1@) == descs_without(group_descs(next), group_descs(prev))
            }),
            forall|t: int|
                0 <= t < old(self)@.subtree_app.len() && t != s ==> #[trigger] final(self).registry_at(t)
                    == old(self).registry_at(t),
    {
        let mut reg = self.registries.remove(s);
        let r = reg.patch(id, pending);
        self.registries.insert(s, reg);
        proof {
            assert forall|t: int|
                0 <= t < old(self)@.subtree_app.len() && t != s implies #[trigger] self.registry_at(t)
                == old(self).registry_at(t) by {
                assert(self.registries@[t] == old(self).registries@[t]);
            }
        }
        r
    }

    /// Forgets the listeners under `id` in subtree `s`'s registry; returns
    /// the descriptors whose host listeners go.
    pub fn unregister_listeners(&mut self, s: usize, id: u32) -> (detach: Vec<EventDescriptor>)
        requires
            old(self).well_formed(),
            s < old(self)@.subtree_app.len(),
        ensures
            final(self).well_formed(),
            final(self)@ == old(self)@,
            final(self).registry_at(s as int).id_counter == old(self).registry_at(s as int).id_counter,
            final(self).registry_at(s as int).by_id == old(self).registry_at(s as int).by_id.remove(id),
            old(self).registry_at(s as int).by_id.contains_key(id) ==> descs_view(detach@) == group_descs(
                old(self).registry_at(s as int).by_id[id],
            ),
            !old(self).registry_at(s as int).by_id.contains_key(id) ==> detach@.len() == 0,
            forall|t: int|
                0 <= t < old(self)@.subtree_app.len() && t != s ==> #[trigger] final(self).registry_at(t)
                    == old(self).registry_at(t),
    {
        let mut reg = self.registries.remove(s);
        let detach = reg.unregister(id);
        self.registries.insert(s, reg);
        proof {
            assert forall|t: int|
                0 <= t < old(self)@.subtree_app.len() && t != s implies #[trigger] self.registry_at(t)
                == old(self).registry_at(t) by {
                assert(self.registries@[t] == old(self).registries@[t]);
            }
        }
        detach
    }
}

/// The listener id of each element with listeners, by the element's
/// unique id.
pub struct ListenerIds {
    ids: HashMap<i64, u32>,
}

impl View for ListenerIds {
    type V = Map<i64, u32>;

    closed spec fn view(&self) -> Map<i64, u32> {
        self.ids@
    }
}

impl ListenerIds {
    /// No element has listeners.
    pub fn new() -> (r: ListenerIds)
        ensures
            r@ == Map::<i64, u32>::empty(),
    {
        ListenerIds { ids: HashMap::new() }
    }

    /// Records the listener id of an element.
    pub fn store(&mut self, unique_id: i64, id: u32)
        ensures
            final(self)@ == old(self)@.insert(unique_id, id),
    {
        self.ids.insert(unique_id, id);
    }

    /// Forgets the listener id of an element.
    pub fn forget(&mut self, unique_id: i64)
        ensures
            final(self)@ == old(self)@.remove(unique_id),
    {
        self.ids.remove(&unique_id);
    }

    /// The listener id of an element, if it has listeners.
    pub fn get(&self, unique_id: i64) -> (r: Option<u32>)
        ensures
            r == (if self@.contains_key(unique_id) {
                Some(self@[unique_id])
            } else {
                None::<u32>
            }),
    {
        match self.ids.get(&unique_id) {
            Some(id) => Some(*id),
            None => None,
        }
    }
}

/// The listeners an event reaches: those of the group for the event's type
/// registered under the listener id of the element whose unique id is the
/// event's current target; `None` when that element has no listener id, or
/// nothing is registered for it or for that type.
pub fn listeners_for_event<'a, L>(
    ids: &ListenerIds,
    registry: &'a Registry<L>,
    current_target: i64,
    event_type: &str,
) -> (r: Option<&'a Vec<L>>)
    ensures
        match r {
            Some(ls) => ids@.contains_key(current_target) && registry@.by_id.contains_key(
                ids@[current_target],
            ) && (first_group_of_type(registry@.by_id[ids@[current_target]], event_type@) matches Some(
                k,
            ) && ls@ == registry@.by_id[ids@[current_target]][k].1),
            None => !ids@.contains_key(current_target) || !registry@.by_id.contains_key(
                ids@[current_target],
            ) || first_group_of_type(registry@.by_id[ids@[current_target]], event_type@) is None,
        },
{
    match ids.get(current_target) {
        None => None,
        Some(id) => registry.listeners_for(id, event_type),
    }
}

/// The listeners of an element as registered.
#[derive(Debug, Clone, Copy, PartialEq, Eq, Structural)]
pub enum ListenerRegistration {
    /// No listeners registered.
    NoReg,
    /// Registered under a listener id, for the element with this host id.
    Registered { id: u32, el: i32 },
}

impl ListenerRegistration {
    /// Registers the pending listeners of element `el`: hands out a listener
    /// id, brands the element with the subtree, records the id under the
    /// element's unique id, and registers the listeners under it. Returns the
    /// registration and the descriptors to attach host listeners for.
    pub fn register<L>(
        root: &BSubtree,
        world: &mut Subtrees<L>,
        ids: &mut ListenerIds,
        el: i32,
        unique_id: i64,
        pending: Vec<Option<(EventDescriptor, L)>>,
    ) -> (r: (ListenerRegistration, Vec<EventDescriptor>))
        requires
            old(world).well_formed(),
            root@ < old(world)@.subtree_app.len(),
        ensures
            final(world).well_formed(),
            ({
                let id = old(world).registry_at(root@ as int).id_counter;
                &&& r.0 == ListenerRegistration::Registered { id, el }
                &&& final(ids)@ == old(ids)@.insert(unique_id, id)
                &&& final(world)@.branded == old(world)@.branded.insert(el, old(world)@.subtree_id[root@ as int])
                &&& final(world).registry_at(root@ as int).by_id == old(world).registry_at(root@ as int).by_id.insert(
                    id,
                    groups_of(pending@.map_values(|p: Option<(EventDescriptor, L)>| pending_view(p))),
                )
                &&& descs_view(r.1@) == group_descs(
                    groups_of(pending@.map_values(|p: Option<(EventDescriptor, L)>| pending_view(p))),
                )
            }),
    {
        let s = root.index;
        let id = world.set_listener_id(s);
        root.brand_element(world, el);
        ids.store(unique_id, id);
        let attach = world.register_listeners(s, id, pending);
        (ListenerRegistration::Registered { id, el }, attach)
    }

    /// Removes the registered listeners of the element and its recorded
    /// listener id. Returns the descriptors whose host listeners go.
    pub fn unregister<L>(&self, root: &BSubtree, world: &mut Subtrees<L>, ids: &mut ListenerIds, unique_id: i64) -> (detach: Vec<EventDescriptor>)
        requires
            old(world).well_formed(),
            root@ < old(world)@.subtree_app.len(),
        ensures
            final(world).well_formed(),
            final(world)@ == old(world)@,
            match *self {
                ListenerRegistration::NoReg => final(ids)@ == old(ids)@ && detach@.len() == 0
                    && final(world).registry_at(root@ as int) == old(world).registry_at(root@ as int),
                ListenerRegistration::Registered { id, el } => final(ids)@ == old(ids)@.remove(unique_id)
                    && final(world).registry_at(root@ as int).by_id == old(world).registry_at(root@ as int).by_id.remove(id)
                    && (if old(world).registry_at(root@ as int).by_id.contains_key(id) {
                        descs_view(detach@) == group_descs(old(world).registry_at(root@ as int).by_id[id])
                    } else {
                        detach@.len() == 0
                    }),
            },
    {
        match *self {
            ListenerRegistration::Registered { id, el } => {
                let detach = world.unregister_listeners(root.index, id);
                ids.forget(unique_id);
                detach
            },
            ListenerRegistration::NoReg => Vec::new(),
        }
    }

    /// Brings the registration of element `el` in line with its new
    /// listeners (`None` when it has none). Returns the descriptors to detach
    /// and to attach host listeners for.
    pub fn apply_diff<L>(
        &mut self,
        listeners: Option<Vec<Option<(EventDescriptor, L)>>>,
        root: &BSubtree,
        world: &mut Subtrees<L>,
        ids: &mut ListenerIds,
        el: i32,
        unique_id: i64,
    ) -> (r: (Vec<EventDescriptor>, Vec<EventDescriptor>))
        requires
            old(world).well_formed(),
            root@ < old(world)@.subtree_app.len(),
        ensures
            final(world).well_formed(),
            match (listeners, *old(self)) {
                (Some(_), ListenerRegistration::Registered { id, el: e }) => *final(self) == *old(self)
                    && final(ids)@ == old(ids)@ && final(world)@ == old(world)@,
                (Some(_), ListenerRegistration::NoReg) => *final(self) == (ListenerRegistration::Registered {
                    id: old(world).registry_at(root@ as int).id_counter,
                    el,
                }) && r.0@.len() == 0 && final(ids)@ == old(ids)@.insert(
                    unique_id,
                    old(world).registry_at(root@ as int).id_counter,
                ),
                (None, ListenerRegistration::Registered { id, el: e }) => *final(self)
                    == ListenerRegistration::NoReg && final(ids)@ == old(ids)@.remove(unique_id)
                    && r.1@.len() == 0 && final(world)@ == old(world)@
                    && final(world).registry_at(root@ as int).by_id == old(world).registry_at(root@ as int).by_id.remove(id),
                (None, ListenerRegistration::NoReg) => *final(self) == ListenerRegistration::NoReg
                    && r.0@.len() == 0 && r.1@.len() == 0 && final(ids)@ == old(ids)@ && final(world)@
                    == old(world)@,
            },
            listeners matches Some(pending) ==> ({
                let next = groups_of(pending@.map_values(|p: Option<(EventDescriptor, L)>| pending_view(p)));
                let before = old(world).registry_at(root@ as int).by_id;
                let after = final(world).registry_at(root@ as int).by_id;
                match *old(self) {
                    ListenerRegistration::Registered { id, el: e } => if before.contains_key(id) {
                        &&& after == before.insert(id, next)
                        &&& descs_view(r.0@) == descs_without(group_descs(before[id]), group_descs(next))
                        &&& descs_view(r.1@) == descs_without(group_descs(next), group_descs(before[id]))
                    } else {
                        after == before && r.0@.len() == 0 && r.1@.len() == 0
                    },
                    ListenerRegistration::NoReg => after == before.insert(
                        old(world).registry_at(root@ as int).id_counter,
                        next,
                    ) && descs_view(r.1@) == group_descs(next),
                }
            }),
    {
        match (listeners, *self) {
            (Some(pending), ListenerRegistration::Registered { id, el: _ }) => {
                world.patch_listeners(root.index, id, pending)
            },
            (Some(pending), ListenerRegistration::NoReg) => {
                let (reg, attach) = ListenerRegistration::register(root, world, ids, el, unique_id, pending);
                *self = reg;
                (Vec::new(), attach)
            },
            (None, ListenerRegistration::Registered { id, el: _ }) => {
                let detach = world.unregister_listeners(root.index, id);
                ids.forget(unique_id);
                *self = ListenerRegistration::NoReg;
                (detach, Vec::new())
            },
            (None, ListenerRegistration::NoReg) => (Vec::new(), Vec::new()),
        }
    }
}

} // verus!
