//! The lifecycle scheduler's queues and the order in which they are run.
//!
//! Tasks are held in first-in first-out queues and in topological queues
//! keyed by component id, where a parent always has a lower id than its
//! children. `fill_queue` decides which tasks run next; the embedding
//! application owns the scheduler, runs the tasks it hands out and calls it
//! again until nothing is left.

use vstd::prelude::*;

verus! {

/// A first-in first-out queue of tasks.
pub struct FifoQueue<T> {
    inner: Vec<T>,
}

impl<T> View for FifoQueue<T> {
    type V = Seq<T>;

    closed spec fn view(&self) -> Seq<T> {
        self.inner@
    }
}

impl<T> FifoQueue<T> {
    /// An empty queue.
    pub fn new() -> (q: FifoQueue<T>)
        ensures
            q@ == Seq::<T>::empty(),
    {
        FifoQueue { inner: Vec::new() }
    }

    /// Appends a task.
    pub fn push(&mut self, task: T)
        ensures
            final(self)@ == old(self)@.push(task),
    {
        self.inner.push(task);
    }

    /// Moves all tasks, in order, to the end of `queue`.
    pub fn drain_into(&mut self, queue: &mut Vec<T>)
        ensures
            final(queue)@ == old(queue)@ + old(self)@,
            final(self)@ == Seq::<T>::empty(),
    {
        queue.append(&mut self.inner);
    }

    /// True when the queue holds no task.
    pub fn is_empty(&self) -> (r: bool)
        ensures
            r == (self@.len() == 0),
    {
        self.inner.len() == 0
    }
}

/// The entries are ordered by strictly increasing id.
pub open spec fn ids_increasing<T>(s: Seq<(usize, T)>) -> bool {
    forall|i: int, j: int| 0 <= i < j < s.len() ==> (#[trigger] s[i]).0 < (#[trigger] s[j]).0
}

/// The entries with `(id, task)` put in their place: replacing the entry
/// with the same id, or inserted before the first larger id.
pub open spec fn sorted_insert<T>(s: Seq<(usize, T)>, id: usize, task: T) -> Seq<(usize, T)>
    decreases s.len(),
{
    if s.len() == 0 {
        seq![(id, task)]
    } else if s[0].0 < id {
        seq![s[0]] + sorted_insert(s.skip(1), id, task)
    } else if s[0].0 == id {
        seq![(id, task)] + s.skip(1)
    } else {
        seq![(id, task)] + s
    }
}

/// The tasks of the entries, in entry order.
pub open spec fn entry_tasks<T>(s: Seq<(usize, T)>) -> Seq<T> {
    s.map_values(|e: (usize, T)| e.1)
}

proof fn lemma_sorted_insert<T>(s: Seq<(usize, T)>, id: usize, task: T, k: int)
    requires
        ids_increasing(s),
        0 <= k <= s.len(),
        forall|i: int| 0 <= i < k ==> (#[trigger] s[i]).0 < id,
        k < s.len() ==> s[k].0 >= id,
    ensures
        sorted_insert(s, id, task) == (if k < s.len() && s[k].0 == id {
            s.take(k) + seq![(id, task)] + s.skip(k + 1)
        } else {
            s.take(k) + seq![(id, task)] + s.skip(k)
        }),
        ids_increasing(sorted_insert(s, id, task)),
    decreases s.len(),
{
    if s.len() == 0 {
        assert(s.take(k) + seq![(id, task)] + s.skip(k) =~= seq![(id, task)]);
    } else if s[0].0 < id {
        let t = s.skip(1);
        assert forall|i: int| 0 <= i < k - 1 implies (#[trigger] t[i]).0 < id by {
            assert(t[i] == s[i + 1]);
        }
        lemma_sorted_insert(t, id, task, k - 1);
        if k < s.len() && s[k].0 == id {
            assert(seq![s[0]] + (t.take(k - 1) + seq![(id, task)] + t.skip(k)) =~= s.take(k)
                + seq![(id, task)] + s.skip(k + 1));
        } else {
            assert(seq![s[0]] + (t.take(k - 1) + seq![(id, task)] + t.skip(k - 1)) =~= s.take(k)
                + seq![(id, task)] + s.skip(k));
        }
        let r = sorted_insert(s, id, task);
        let rt = sorted_insert(t, id, task);
        assert(r =~= seq![s[0]] + rt);
        assert forall|i: int, j: int| 0 <= i < j < r.len() implies (#[trigger] r[i]).0 < (
        #[trigger] r[j]).0 by {
            if i == 0 {
                assert(r[j] == rt[j - 1]);
                if k < s.len() && s[k].0 == id {
                    let whole = t.take(k - 1) + seq![(id, task)] + t.skip(k);
                    assert(rt == whole);
                    if j - 1 < k - 1 {
                        assert(rt[j - 1] == t[j - 1]);
                        assert(t[j - 1] == s[j]);
                    } else if j - 1 == k - 1 {
                    } else {
                        assert(rt[j - 1] == t[j - 1]);
                        assert(t[j - 1] == s[j]);
                    }
                } else {
                    let whole = t.take(k - 1) + seq![(id, task)] + t.skip(k - 1);
                    assert(rt == whole);
                    if j - 1 < k - 1 {
                        assert(rt[j - 1] == t[j - 1]);
                        assert(t[j - 1] == s[j]);
                    } else if j - 1 == k - 1 {
                    } else {
                        assert(rt[j - 1] == t[j - 2]);
                        assert(t[j - 2] == s[j - 1]);
                    }
                }
            } else {
                assert(r[i] == rt[i - 1]);
                assert(r[j] == rt[j - 1]);
            }
        }
    } else {
        assert(k == 0);
        let r = sorted_insert(s, id, task);
        if s[0].0 == id {
            assert(r =~= s.take(k) + seq![(id, task)] + s.skip(k + 1));
            assert forall|i: int, j: int| 0 <= i < j < r.len() implies (#[trigger] r[i]).0 < (
            #[trigger] r[j]).0 by {
                if i == 0 {
                    assert(r[j] == s[j]);
                } else {
                    assert(r[i] == s[i]);
                    assert(r[j] == s[j]);
                }
            }
        } else {
            assert(r =~= s.take(k) + seq![(id, task)] + s.skip(k));
            assert forall|i: int, j: int| 0 <= i < j < r.len() implies (#[trigger] r[i]).0 < (
            #[trigger] r[j]).0 by {
                if i == 0 {
                    assert(r[j] == s[j - 1]);
                } else {
                    assert(r[i] == s[i - 1]);
                    assert(r[j] == s[j - 1]);
                }
            }
        }
    }
}

/// Tasks keyed by component id. Parents have lower ids than their
/// children, so taking the lowest id first runs parents first.
pub struct TopologicalQueue<T> {
    inner: Vec<(usize, T)>,
}

impl<T> View for TopologicalQueue<T> {
    type V = Seq<(usize, T)>;

    closed spec fn view(&self) -> Seq<(usize, T)> {
        self.inner@
    }
}

impl<T> TopologicalQueue<T> {
    /// The entries are ordered by strictly increasing id.
    pub open spec fn wf(&self) -> bool {
        ids_increasing(self@)
    }

    /// An empty queue.
    pub fn new() -> (q: TopologicalQueue<T>)
        ensures
            q@ == Seq::<(usize, T)>::empty(),
            q.wf(),
    {
        TopologicalQueue { inner: Vec::new() }
    }

    /// Queues the task of a component, replacing a task already queued for
    /// the same component.
    pub fn push(&mut self, component_id: usize, task: T)
        requires
            old(self).wf(),
        ensures
            final(self).wf(),
            final(self)@ == sorted_insert(old(self)@, component_id, task),
    {
        let mut k: usize = 0;
        while k < self.inner.len() && self.inner[k].0 < component_id
            invariant
                k <= self.inner.len(),
                forall|i: int| 0 <= i < k ==> (#[trigger] self.inner@[i]).0 < component_id,
            decreases self.inner.len() - k,
        {
            k = k + 1;
        }
        proof {
            lemma_sorted_insert(self.inner@, component_id, task, k as int);
        }
        let ghost before = self.inner@;
        if k < self.inner.len() && self.inner[k].0 == component_id {
            self.inner.remove(k);
            self.inner.insert(k, (component_id, task));
            proof {
                assert(self.inner@ =~= before.take(k as int) + seq![(component_id, task)]
                    + before.skip(k + 1));
            }
        } else {
            self.inner.insert(k, (component_id, task));
            proof {
                assert(self.inner@ =~= before.take(k as int) + seq![(component_id, task)]
                    + before.skip(k as int));
            }
        }
    }

    /// Takes the task with the lowest id, so parents before children.
    pub fn pop_topmost(&mut self) -> (r: Option<T>)
        requires
            old(self).wf(),
        ensures
            final(self).wf(),
            old(self)@.len() == 0 ==> r is None && final(self)@ == old(self)@,
            old(self)@.len() > 0 ==> r == Some(old(self)@[0].1) && final(self)@ == old(self)@.skip(
                1,
            ),
    {
        if self.inner.len() == 0 {
            None
        } else {
            let ghost before = self.inner@;
            let (_, task) = self.inner.remove(0);
            proof {
                assert(self.inner@ =~= before.skip(1));
            }
            Some(task)
        }
    }

    /// Moves all tasks to the end of `queue`, highest id first, so children
    /// before their parents.
    pub fn drain_post_order_into(&mut self, queue: &mut Vec<T>)
        requires
            old(self).wf(),
        ensures
            final(self).wf(),
            final(queue)@ == old(queue)@ + entry_tasks(old(self)@).reverse(),
            final(self)@ == Seq::<(usize, T)>::empty(),
    {
        let ghost start = self.inner@;
        let ghost queue_start = queue@;
        while self.inner.len() > 0
            invariant
                self.inner@ == start.take(self.inner@.len() as int),
                self.inner@.len() <= start.len(),
                queue@ == queue_start + entry_tasks(start).reverse().take(
                    start.len() - self.inner@.len(),
                ),
            decreases self.inner.len(),
        {
            let ghost len = self.inner@.len();
            let (_, task) = self.inner.pop().unwrap();
            queue.push(task);
            proof {
                assert(self.inner@ =~= start.take(len - 1));
                let rev = entry_tasks(start).reverse();
                assert(rev[start.len() - len] == start[len - 1].1);
                assert(rev.take(start.len() - len + 1) =~= rev.take(start.len() - len).push(
                    start[len - 1].1,
                ));
            }
        }
        proof {
            assert(entry_tasks(start).reverse().take(start.len() as int) =~= entry_tasks(
                start,
            ).reverse());
        }
    }

    /// True when the queue holds no task.
    pub fn is_empty(&self) -> (r: bool)
        ensures
            r == (self@.len() == 0),
    {
        self.inner.len() == 0
    }
}


/// The contents of every queue of a scheduler.
pub struct SchedulerView<T> {
    pub main: Seq<T>,
    pub destroy: Seq<T>,
    pub create: Seq<T>,
    pub props_update: Seq<T>,
    pub update: Seq<T>,
    pub render: Seq<(usize, T)>,
    pub render_first: Seq<(usize, T)>,
    pub render_priority: Seq<(usize, T)>,
    pub rendered_first: Seq<(usize, T)>,
    pub rendered: Seq<(usize, T)>,
}

/// Every task a scheduler holds, queue after queue.
pub open spec fn all_tasks<T>(s: SchedulerView<T>) -> Seq<T> {
    s.main + s.destroy + s.create + s.props_update + s.update + entry_tasks(s.render)
        + entry_tasks(s.render_first) + entry_tasks(s.render_priority) + entry_tasks(
        s.rendered_first,
    ) + entry_tasks(s.rendered)
}

/// The scheduler holds no task.
pub open spec fn all_empty<T>(s: SchedulerView<T>) -> bool {
    &&& s.main.len() == 0
    &&& s.destroy.len() == 0
    &&& s.create.len() == 0
    &&& s.props_update.len() == 0
    &&& s.update.len() == 0
    &&& s.render.len() == 0
    &&& s.render_first.len() == 0
    &&& s.render_priority.len() == 0
    &&& s.rendered_first.len() == 0
    &&& s.rendered.len() == 0
}

/// Which tasks run next, and what stays queued, by priority:
/// destroys, then creates, all of them; if that gave anything, stop.
/// Otherwise one first render (lowest id) and stop; otherwise all props
/// updates, then one priority render and stop; otherwise the first-render
/// lifecycle callbacks (highest id first), all updates and all main tasks,
/// and stop if that gave anything. Otherwise one render (lowest id), or
/// else all rendered callbacks, highest id first.
pub open spec fn fill_spec<T>(s: SchedulerView<T>, q: Seq<T>) -> (SchedulerView<T>, Seq<T>) {
    let q1 = q + s.destroy + s.create;
    let s1 = SchedulerView { destroy: Seq::empty(), create: Seq::empty(), ..s };
    if q1.len() > 0 {
        (s1, q1)
    } else if s.render_first.len() > 0 {
        (
            SchedulerView { render_first: s.render_first.skip(1), ..s1 },
            q1.push(s.render_first[0].1),
        )
    } else {
        let q2 = q1 + s.props_update;
        let s2 = SchedulerView { props_update: Seq::empty(), ..s1 };
        if s.render_priority.len() > 0 {
            (
                SchedulerView { render_priority: s.render_priority.skip(1), ..s2 },
                q2.push(s.render_priority[0].1),
            )
        } else {
            let q3 = q2 + entry_tasks(s.rendered_first).reverse() + s.update + s.main;
            let s3 = SchedulerView {
                rendered_first: Seq::empty(),
                update: Seq::empty(),
                main: Seq::empty(),
                ..s2
            };
            if q3.len() > 0 {
                (s3, q3)
            } else if s.render.len() > 0 {
                (SchedulerView { render: s.render.skip(1), ..s3 }, q3.push(s.render[0].1))
            } else {
                (SchedulerView { rendered: Seq::empty(), ..s3 }, q3 + entry_tasks(s.rendered).reverse())
            }
        }
    }
}

/// The lifecycle scheduler: its queues of pending tasks.
pub struct Scheduler<T> {
    main: FifoQueue<T>,
    destroy: FifoQueue<T>,
    create: FifoQueue<T>,
    props_update: FifoQueue<T>,
    update: FifoQueue<T>,
    render: TopologicalQueue<T>,
    render_first: TopologicalQueue<T>,
    render_priority: TopologicalQueue<T>,
    rendered_first: TopologicalQueue<T>,
    rendered: TopologicalQueue<T>,
}

impl<T> View for Scheduler<T> {
    type V = SchedulerView<T>;

    closed spec fn view(&self) -> SchedulerView<T> {
        SchedulerView {
            main: self.main@,
            destroy: self.destroy@,
            create: self.create@,
            props_update: self.props_update@,
            update: self.update@,
            render: self.render@,
            render_first: self.render_first@,
            render_priority: self.render_priority@,
            rendered_first: self.rendered_first@,
            rendered: self.rendered@,
        }
    }
}

/// The topological queues are ordered by id.
pub open spec fn view_wf<T>(s: SchedulerView<T>) -> bool {
    &&& ids_increasing(s.render)
    &&& ids_increasing(s.render_first)
    &&& ids_increasing(s.render_priority)
    &&& ids_increasing(s.rendered_first)
    &&& ids_increasing(s.rendered)
}

impl<T> Scheduler<T> {
    /// The topological queues are ordered by id.
    pub open spec fn wf(&self) -> bool {
        view_wf(self@)
    }

    /// A scheduler with empty queues.
    pub fn new() -> (s: Scheduler<T>)
        ensures
            s.wf(),
            all_empty(s@),
    {
        Scheduler {
            main: FifoQueue::new(),
            destroy: FifoQueue::new(),
            create: FifoQueue::new(),
            props_update: FifoQueue::new(),
            update: FifoQueue::new(),
            render: TopologicalQueue::new(),
            render_first: TopologicalQueue::new(),
            render_priority: TopologicalQueue::new(),
            rendered_first: TopologicalQueue::new(),
            rendered: TopologicalQueue::new(),
        }
    }

    /// Queues a generic task on the main queue.
    pub fn push_main(&mut self, task: T)
        requires
            old(self).wf(),
        ensures
            final(self).wf(),
            final(self)@ == (SchedulerView { main: old(self)@.main.push(task), ..old(self)@ }),
    {
        self.main.push(task);
    }

    /// Queues the creation of a component and its first render.
    pub fn push_component_create(&mut self, component_id: usize, create: T, first_render: T)
        requires
            old(self).wf(),
        ensures
            final(self).wf(),
            final(self)@ == (SchedulerView {
                create: old(self)@.create.push(create),
                render_first: sorted_insert(old(self)@.render_first, component_id, first_render),
                ..old(self)@
            }),
    {
        self.create.push(create);
        self.render_first.push(component_id, first_render);
    }

    /// Queues the destruction of a component.
    pub fn push_component_destroy(&mut self, task: T)
        requires
            old(self).wf(),
        ensures
            final(self).wf(),
            final(self)@ == (SchedulerView { destroy: old(self)@.destroy.push(task), ..old(self)@ }),
    {
        self.destroy.push(task);
    }

    /// Queues a render of a component, replacing one already queued.
    pub fn push_component_render(&mut self, component_id: usize, task: T)
        requires
            old(self).wf(),
        ensures
            final(self).wf(),
            final(self)@ == (SchedulerView {
                render: sorted_insert(old(self)@.render, component_id, task),
                ..old(self)@
            }),
    {
        self.render.push(component_id, task);
    }

    /// Queues a priority render of a component, replacing one already
    /// queued.
    pub fn push_component_priority_render(&mut self, component_id: usize, task: T)
        requires
            old(self).wf(),
        ensures
            final(self).wf(),
            final(self)@ == (SchedulerView {
                render_priority: sorted_insert(old(self)@.render_priority, component_id, task),
                ..old(self)@
            }),
    {
        self.render_priority.push(component_id, task);
    }

    /// Queues a component update.
    pub fn push_component_update(&mut self, task: T)
        requires
            old(self).wf(),
        ensures
            final(self).wf(),
            final(self)@ == (SchedulerView { update: old(self)@.update.push(task), ..old(self)@ }),
    {
        self.update.push(task);
    }

    /// Queues the rendered lifecycle callback of a component: the first one
    /// after the first render, or a later one.
    pub fn push_component_rendered(&mut self, component_id: usize, task: T, first_render: bool)
        requires
            old(self).wf(),
        ensures
            final(self).wf(),
            first_render ==> final(self)@ == (SchedulerView {
                rendered_first: sorted_insert(old(self)@.rendered_first, component_id, task),
                ..old(self)@
            }),
            !first_render ==> final(self)@ == (SchedulerView {
                rendered: sorted_insert(old(self)@.rendered, component_id, task),
                ..old(self)@
            }),
    {
        if first_render {
            self.rendered_first.push(component_id, task);
        } else {
            self.rendered.push(component_id, task);
        }
    }

    /// Queues a properties update of a component.
    pub fn push_component_props_update(&mut self, task: T)
        requires
            old(self).wf(),
        ensures
            final(self).wf(),
            final(self)@ == (SchedulerView {
                props_update: old(self)@.props_update.push(task),
                ..old(self)@
            }),
    {
        self.props_update.push(task);
    }

    /// Moves to `to_run` the tasks that run next, by priority (see
    /// [`fill_spec`]).
    pub fn fill_queue(&mut self, to_run: &mut Vec<T>)
        requires
            old(self).wf(),
        ensures
            final(self).wf(),
            (final(self)@, final(to_run)@) == fill_spec(old(self)@, old(to_run)@),
    {
        self.destroy.drain_into(to_run);
        self.create.drain_into(to_run);
        if to_run.len() > 0 {
            return;
        }
        if let Some(r) = self.render_first.pop_topmost() {
            to_run.push(r);
            return;
        }
        self.props_update.drain_into(to_run);
        if let Some(r) = self.render_priority.pop_topmost() {
            to_run.push(r);
            return;
        }
        self.rendered_first.drain_post_order_into(to_run);
        self.update.drain_into(to_run);
        self.main.drain_into(to_run);
        if to_run.len() > 0 {
            return;
        }
        if let Some(r) = self.render.pop_topmost() {
            to_run.push(r);
            return;
        }
        self.rendered.drain_post_order_into(to_run);
    }
}


proof fn lemma_entry_tasks_skip<T>(s: Seq<(usize, T)>)
    requires
        s.len() > 0,
    ensures
        entry_tasks(s) == seq![s[0].1] + entry_tasks(s.skip(1)),
{
    assert(entry_tasks(s) =~= seq![s[0].1] + entry_tasks(s.skip(1)));
}

/// Filling the run queue loses no task and invents none: the tasks handed
/// out together with those still queued are, as a multiset, those queued
/// before together with those already in the run queue.
pub proof fn lemma_fill_queue_keeps_tasks<T>(s: SchedulerView<T>, q: Seq<T>)
    ensures
        ({
            let (s2, q2) = fill_spec(s, q);
            (q2 + all_tasks(s2)).to_multiset() == (q + all_tasks(s)).to_multiset()
        }),
{
    broadcast use vstd::seq_lib::lemma_multiset_commutative;
    broadcast use vstd::multiset::group_multiset_axioms;
    broadcast use vstd::seq_lib::to_multiset_len;
    broadcast use vstd::multiset::lemma_multiset_empty_len;

    let (s2, q2) = fill_spec(s, q);
    let e = Seq::<T>::empty();
    assert(entry_tasks(Seq::<(usize, T)>::empty()) =~= e);
    assert(e.to_multiset().len() == 0);
    assert(e.to_multiset() =~= vstd::multiset::Multiset::empty());
    if s.render_first.len() > 0 {
        lemma_entry_tasks_skip(s.render_first);
    }
    if s.render_priority.len() > 0 {
        lemma_entry_tasks_skip(s.render_priority);
    }
    if s.render.len() > 0 {
        lemma_entry_tasks_skip(s.render);
    }
    entry_tasks(s.rendered_first).lemma_reverse_to_multiset();
    entry_tasks(s.rendered).lemma_reverse_to_multiset();
    let before = (q + all_tasks(s)).to_multiset();
    let after = (q2 + all_tasks(s2)).to_multiset();
    assert(before =~= q.to_multiset().add(view_multiset(s)));
    assert(after =~= q2.to_multiset().add(view_multiset(s2)));
    let q1 = q + s.destroy + s.create;
    assert(q1.to_multiset() =~= q.to_multiset().add(s.destroy.to_multiset()).add(
        s.create.to_multiset(),
    ));
    if q1.len() > 0 {
    } else if s.render_first.len() > 0 {
        assert(q2 =~= q1 + seq![s.render_first[0].1]);
    } else {
        let q2b = q1 + s.props_update;
        if s.render_priority.len() > 0 {
            assert(q2 =~= q2b + seq![s.render_priority[0].1]);
        } else {
            let q3 = q2b + entry_tasks(s.rendered_first).reverse() + s.update + s.main;
            if q3.len() > 0 {
            } else if s.render.len() > 0 {
                assert(q2 =~= q3 + seq![s.render[0].1]);
            } else {
            }
        }
    }
    assert(after =~= before);
}

/// The multiset of every task a scheduler holds.
pub open spec fn view_multiset<T>(s: SchedulerView<T>) -> vstd::multiset::Multiset<T> {
    s.main.to_multiset().add(s.destroy.to_multiset()).add(s.create.to_multiset()).add(
        s.props_update.to_multiset(),
    ).add(s.update.to_multiset()).add(entry_tasks(s.render).to_multiset()).add(
        entry_tasks(s.render_first).to_multiset(),
    ).add(entry_tasks(s.render_priority).to_multiset()).add(
        entry_tasks(s.rendered_first).to_multiset(),
    ).add(entry_tasks(s.rendered).to_multiset())
}

/// With an empty run queue, filling it hands out at least one task exactly
/// when the scheduler holds one: the run loop stops only when every queue
/// is empty.
pub proof fn lemma_fill_queue_progress<T>(s: SchedulerView<T>)
    ensures
        ({
            let (s2, q2) = fill_spec(s, Seq::empty());
            (q2.len() == 0 <==> all_empty(s)) && (q2.len() == 0 ==> all_empty(s2))
        }),
{
    let e = Seq::<T>::empty();
    assert(entry_tasks(s.rendered_first).reverse().len() == s.rendered_first.len());
    assert(entry_tasks(s.rendered).reverse().len() == s.rendered.len());
}

/// Destroys always run first: the run queue starts with what it held, then
/// every queued destroy task in order.
pub proof fn lemma_fill_queue_destroys_first<T>(s: SchedulerView<T>, q: Seq<T>)
    ensures
        ({
            let (s2, q2) = fill_spec(s, q);
            &&& (q + s.destroy).is_prefix_of(q2)
            &&& s2.destroy.len() == 0
        }),
{
    let (s2, q2) = fill_spec(s, q);
    let p = q + s.destroy;
    assert(p.is_prefix_of(q + s.destroy + s.create)) by {
        assert((q + s.destroy + s.create).take(p.len() as int) =~= p);
    }
    assert(p.is_prefix_of(q2)) by {
        assert(q2.take(p.len() as int) =~= p);
    }
}

/// Children's first rendered callbacks run before their parents': when a
/// fill reaches the first-render rendered callbacks, it hands them out right
/// after the props updates, from the highest component id down, so that
/// every one comes after all those of larger id.
pub proof fn lemma_first_rendered_children_first<T>(s: SchedulerView<T>)
    requires
        view_wf(s),
        s.destroy.len() == 0,
        s.create.len() == 0,
        s.render_first.len() == 0,
        s.render_priority.len() == 0,
    ensures
        ({
            let q2 = fill_spec(s, Seq::empty()).1;
            let a = s.props_update.len();
            let n = s.rendered_first.len();
            &&& q2.len() >= a + n
            &&& forall|k: int| 0 <= k < n ==> #[trigger] q2[a + k] == s.rendered_first[n - 1 - k].1
            &&& forall|k1: int, k2: int|
                0 <= k1 < k2 < n ==> #[trigger] s.rendered_first[n - 1 - k1].0
                    > #[trigger] s.rendered_first[n - 1 - k2].0
        }),
{
    let q2 = fill_spec(s, Seq::empty()).1;
    let a = s.props_update.len();
    let n = s.rendered_first.len();
    let e = Seq::<T>::empty();
    assert(e + s.destroy + s.create =~= e);
    let r = entry_tasks(s.rendered_first).reverse();
    assert forall|k: int| 0 <= k < n implies #[trigger] q2[a + k] == s.rendered_first[n - 1 - k].1 by {
        assert(r[k] == s.rendered_first[n - 1 - k].1);
    }
}

/// Later rendered callbacks run children first too: when a fill reaches
/// them, it hands out all of them, from the highest component id down.
pub proof fn lemma_rendered_children_first<T>(s: SchedulerView<T>)
    requires
        view_wf(s),
        s.destroy.len() == 0,
        s.create.len() == 0,
        s.render_first.len() == 0,
        s.render_priority.len() == 0,
        s.props_update.len() == 0,
        s.rendered_first.len() == 0,
        s.update.len() == 0,
        s.main.len() == 0,
        s.render.len() == 0,
    ensures
        ({
            let q2 = fill_spec(s, Seq::empty()).1;
            let n = s.rendered.len();
            &&& q2.len() == n
            &&& forall|k: int| 0 <= k < n ==> #[trigger] q2[k] == s.rendered[n - 1 - k].1
            &&& forall|k1: int, k2: int|
                0 <= k1 < k2 < n ==> #[trigger] s.rendered[n - 1 - k1].0 > #[trigger] s.rendered[n - 1 - k2].0
        }),
{
    let q2 = fill_spec(s, Seq::empty()).1;
    let n = s.rendered.len();
    let e = Seq::<T>::empty();
    assert(e + s.destroy + s.create =~= e);
    assert(entry_tasks(s.rendered_first) =~= e);
    let r = entry_tasks(s.rendered).reverse();
    assert forall|k: int| 0 <= k < n implies #[trigger] q2[k] == s.rendered[n - 1 - k].1 by {
        assert(r[k] == s.rendered[n - 1 - k].1);
    }
}

/// What the scheduler loop does after filling its run queue.
#[derive(Debug, Clone, Copy, PartialEq, Eq, Structural)]
pub enum LoopStep {
    /// Run the tasks of the queue, then fill it again.
    RunQueue,
    /// The queues are drained: advance the spawned futures, which may queue
    /// fresh work, then fill the queue again.
    DriveSpawned,
    /// Nothing is left to run, even after the spawned futures moved: stop.
    Stop,
}

/// Decides the loop's next step from whether the filled queue is empty and
/// whether the spawned futures were advanced since the last run.
pub fn loop_step(queue_empty: bool, drove_spawned: bool) -> (step: LoopStep)
    ensures
        !queue_empty ==> step == LoopStep::RunQueue,
        queue_empty && !drove_spawned ==> step == LoopStep::DriveSpawned,
        queue_empty && drove_spawned ==> step == LoopStep::Stop,
{
    if !queue_empty {
        LoopStep::RunQueue
    } else if !drove_spawned {
        LoopStep::DriveSpawned
    } else {
        LoopStep::Stop
    }
}

} // verus!
