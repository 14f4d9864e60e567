//! The lifecycle of a mounted component as a state machine.
//!
//! The scheduler runs one runner at a time for a component: create, update
//! (after messages), props update, render, rendered and destroy. Each runner
//! hands this module what happened (an event) and gets back the next state
//! and the actions to perform, in order: scheduling further runners,
//! talking to the enclosing suspense, reconciling the view, calling the
//! component's hooks.
//!
//! A suspension is identified by a number.

use vstd::prelude::*;

verus! {

/// What a component's view returned.
#[derive(Debug, Clone, Copy, PartialEq, Eq, Structural)]
pub enum RenderOutcome {
    /// A node tree to show.
    Rendered,
    /// The view suspended on a suspension; `resumed` when it already resumed.
    Suspended { suspension: u64, resumed: bool },
}

/// Something that happened to a component.
#[derive(Debug, Clone, Copy, PartialEq, Eq, Structural)]
pub enum LifecycleEvent {
    /// The create runner ran for a component with this id.
    Created { comp_id: usize },
    /// Pending messages were handled; `changed` when one asked for a render.
    MessagesHandled { changed: bool },
    /// New props or a new sibling position arrived: `props_changed` is `None`
    /// when no props came and tells otherwise whether the component asked for
    /// a render; `sibling_moved` when a new sibling position came.
    PropsUpdated { props_changed: Option<bool>, sibling_moved: bool },
    /// The render runner ran and the view returned this.
    Viewed(RenderOutcome),
    /// The rendered runner ran.
    RenderedRun { first_render: bool },
    /// The destroy runner ran.
    Destroyed { parent_to_detach: bool },
}

/// One thing to do, in the order given.
#[derive(Debug, Clone, Copy, PartialEq, Eq, Structural)]
pub enum LifecycleAction {
    /// Queue a render runner for the component.
    ScheduleRender,
    /// Tell the enclosing suspense that this suspension no longer holds.
    ResumeSuspension(u64),
    /// Queue a render runner (and start the scheduler) once this suspension
    /// resumes.
    ListenForResume(u64),
    /// Tell the enclosing suspense to wait for this suspension.
    SuspendOn(u64),
    /// Move the position after the component to the newly given sibling.
    ReassignSibling,
    /// Reconcile the new view into the bundle and move the component's own
    /// position to the result.
    Reconcile,
    /// Queue the rendered runner.
    ScheduleRendered { first_render: bool },
    /// Call the component's rendered hook.
    CallRendered { first_render: bool },
    /// Call the component's destroy hook.
    CallDestroy,
    /// Detach the component's bundle from its parent.
    Detach { parent_to_detach: bool },
}

/// The lifecycle state of a mounted component.
#[derive(Debug, Clone, Copy, PartialEq, Eq, Structural)]
pub struct ComponentState {
    pub comp_id: usize,
    /// A render has been committed.
    pub has_rendered: bool,
    /// The suspension the component last suspended on, until it renders,
    /// is destroyed or suspends on another one.
    pub suspension: Option<u64>,
}

/// A suspension that was handed to the suspense is released.
pub open spec fn release(s: ComponentState) -> Seq<LifecycleAction> {
    match s.suspension {
        Some(x) => seq![LifecycleAction::ResumeSuspension(x)],
        None => Seq::empty(),
    }
}

/// The next state and the actions of a component for an event.
pub open spec fn step_spec(s: ComponentState, e: LifecycleEvent) -> (ComponentState, Seq<LifecycleAction>) {
    match e {
        LifecycleEvent::Created { .. } => (s, Seq::empty()),
        LifecycleEvent::MessagesHandled { changed } => (
            s,
            if changed {
                seq![LifecycleAction::ScheduleRender]
            } else {
                Seq::empty()
            },
        ),
        LifecycleEvent::PropsUpdated { props_changed, sibling_moved } => (
            s,
            (if sibling_moved {
                seq![LifecycleAction::ReassignSibling]
            } else {
                Seq::empty()
            }) + (if props_changed == Some(true) {
                seq![LifecycleAction::ScheduleRender]
            } else {
                Seq::empty()
            }),
        ),
        LifecycleEvent::Viewed(RenderOutcome::Rendered) => (
            ComponentState { has_rendered: true, suspension: None, ..s },
            release(s) + seq![
                LifecycleAction::Reconcile,
                LifecycleAction::ScheduleRendered { first_render: !s.has_rendered },
            ],
        ),
        LifecycleEvent::Viewed(RenderOutcome::Suspended { suspension, resumed }) => if resumed {
            (s, seq![LifecycleAction::ScheduleRender])
        } else {
            (
                ComponentState { suspension: Some(suspension), ..s },
                seq![LifecycleAction::ListenForResume(suspension)] + (match s.suspension {
                    Some(last) => if last != suspension {
                        seq![LifecycleAction::ResumeSuspension(last)]
                    } else {
                        Seq::empty()
                    },
                    None => Seq::empty(),
                }) + seq![LifecycleAction::SuspendOn(suspension)],
            )
        },
        LifecycleEvent::RenderedRun { first_render } => (
            s,
            if s.suspension is None {
                seq![LifecycleAction::CallRendered { first_render }]
            } else {
                Seq::empty()
            },
        ),
        LifecycleEvent::Destroyed { parent_to_detach } => (
            ComponentState { suspension: None, ..s },
            seq![LifecycleAction::CallDestroy] + release(s) + seq![
                LifecycleAction::Detach { parent_to_detach },
            ],
        ),
    }
}

/// The state of a component slot and the actions after an event: a created
/// component starts unrendered with no suspension, a destroyed one is gone,
/// and events for a missing component are ignored.
pub open spec fn run_spec(slot: Option<ComponentState>, e: LifecycleEvent) -> (
    Option<ComponentState>,
    Seq<LifecycleAction>,
) {
    match slot {
        None => match e {
            LifecycleEvent::Created { comp_id } => (
                Some(ComponentState { comp_id, has_rendered: false, suspension: None }),
                Seq::empty(),
            ),
            _ => (None, Seq::empty()),
        },
        Some(s) => match e {
            LifecycleEvent::Destroyed { .. } => (None, step_spec(s, e).1),
            _ => (Some(step_spec(s, e).0), step_spec(s, e).1),
        },
    }
}

impl ComponentState {
    /// A freshly created component: not rendered, not suspended.
    pub fn new(comp_id: usize) -> (s: ComponentState)
        ensures
            s == (ComponentState { comp_id, has_rendered: false, suspension: None }),
    {
        ComponentState { comp_id, has_rendered: false, suspension: None }
    }

    /// Releases the suspension the component holds, if any.
    pub fn resume_existing_suspension(&mut self, actions: &mut Vec<LifecycleAction>)
        ensures
            *final(self) == (ComponentState { suspension: None, ..*old(self) }),
            final(actions)@ == old(actions)@ + release(*old(self)),
    {
        if let Some(m) = self.suspension {
            self.suspension = None;
            actions.push(LifecycleAction::ResumeSuspension(m));
        } else {
            assert(actions@ =~= old(actions)@ + release(*old(self)));
        }
    }

    /// The view suspended: render again at once when the suspension already
    /// resumed; otherwise wait for it, releasing a different suspension held
    /// before, and hand it to the suspense.
    pub fn suspend(&mut self, suspension: u64, resumed: bool, actions: &mut Vec<LifecycleAction>)
        ensures
            *final(self) == step_spec(*old(self), LifecycleEvent::Viewed(RenderOutcome::Suspended { suspension, resumed })).0,
            final(actions)@ == old(actions)@ + step_spec(*old(self), LifecycleEvent::Viewed(RenderOutcome::Suspended { suspension, resumed })).1,
    {
        let ghost start = actions@;
        if resumed {
            actions.push(LifecycleAction::ScheduleRender);
        } else {
            actions.push(LifecycleAction::ListenForResume(suspension));
            if let Some(last) = self.suspension {
                if last != suspension {
                    actions.push(LifecycleAction::ResumeSuspension(last));
                }
            }
            self.suspension = Some(suspension);
            actions.push(LifecycleAction::SuspendOn(suspension));
        }
        proof {
            let want = step_spec(
                *old(self),
                LifecycleEvent::Viewed(RenderOutcome::Suspended { suspension, resumed }),
            ).1;
            assert(actions@ =~= start + want);
        }
    }

    /// The view returned a node tree: release any suspension, reconcile,
    /// and queue the rendered runner, telling it whether this is the first
    /// render.
    pub fn commit_render(&mut self, actions: &mut Vec<LifecycleAction>)
        ensures
            *final(self) == step_spec(*old(self), LifecycleEvent::Viewed(RenderOutcome::Rendered)).0,
            final(actions)@ == old(actions)@ + step_spec(*old(self), LifecycleEvent::Viewed(RenderOutcome::Rendered)).1,
    {
        let ghost start = actions@;
        self.resume_existing_suspension(actions);
        actions.push(LifecycleAction::Reconcile);
        let first_render = !self.has_rendered;
        self.has_rendered = true;
        actions.push(LifecycleAction::ScheduleRendered { first_render });
        proof {
            let want = step_spec(*old(self), LifecycleEvent::Viewed(RenderOutcome::Rendered)).1;
            assert(actions@ =~= start + want);
        }
    }

    /// Handles what the view returned.
    pub fn render(&mut self, view: RenderOutcome, actions: &mut Vec<LifecycleAction>)
        ensures
            *final(self) == step_spec(*old(self), LifecycleEvent::Viewed(view)).0,
            final(actions)@ == old(actions)@ + step_spec(*old(self), LifecycleEvent::Viewed(view)).1,
    {
        match view {
            RenderOutcome::Rendered => self.commit_render(actions),
            RenderOutcome::Suspended { suspension, resumed } => self.suspend(
                suspension,
                resumed,
                actions,
            ),
        }
    }

    /// New props or a new sibling position: move the sibling position when
    /// one came, and render again when the component asked for it.
    pub fn changed(
        &mut self,
        props_changed: Option<bool>,
        sibling_moved: bool,
        actions: &mut Vec<LifecycleAction>,
    ) -> (schedule_render: bool)
        ensures
            *final(self) == *old(self),
            schedule_render == (props_changed == Some(true)),
            final(actions)@ == old(actions)@ + (if sibling_moved {
                seq![LifecycleAction::ReassignSibling]
            } else {
                Seq::empty()
            }),
    {
        if sibling_moved {
            actions.push(LifecycleAction::ReassignSibling);
        } else {
            assert(actions@ =~= old(actions)@ + Seq::<LifecycleAction>::empty());
        }
        match props_changed {
            Some(c) => c,
            None => false,
        }
    }

    /// The rendered runner: calls the rendered hook unless the component is
    /// suspended. Reports whether props are pending, which they never are.
    pub fn rendered(&self, first_render: bool, actions: &mut Vec<LifecycleAction>) -> (has_pending_props: bool)
        ensures
            !has_pending_props,
            final(actions)@ == old(actions)@ + step_spec(
                *self,
                LifecycleEvent::RenderedRun { first_render },
            ).1,
    {
        if self.suspension.is_none() {
            actions.push(LifecycleAction::CallRendered { first_render });
        } else {
            assert(actions@ =~= old(actions)@ + Seq::<LifecycleAction>::empty());
        }
        false
    }

    /// Destroys the component: calls the destroy hook, releases any
    /// suspension, and detaches the bundle.
    pub fn destroy(self, parent_to_detach: bool, actions: &mut Vec<LifecycleAction>)
        ensures
            final(actions)@ == old(actions)@ + step_spec(
                self,
                LifecycleEvent::Destroyed { parent_to_detach },
            ).1,
    {
        let mut this = self;
        actions.push(LifecycleAction::CallDestroy);
        this.resume_existing_suspension(actions);
        actions.push(LifecycleAction::Detach { parent_to_detach });
        assert(actions@ =~= old(actions)@ + step_spec(self, LifecycleEvent::Destroyed { parent_to_detach }).1);
    }
}

/// Runs one runner's event on a component slot: creates the component when
/// there is none, ignores other events for a missing component, drops a
/// destroyed one, and otherwise steps it. Appends the actions to `actions`.
pub fn run_event(slot: &mut Option<ComponentState>, e: LifecycleEvent, actions: &mut Vec<LifecycleAction>)
    ensures
        *final(slot) == run_spec(*old(slot), e).0,
        final(actions)@ == old(actions)@ + run_spec(*old(slot), e).1,
{
    let ghost start = actions@;
    match *slot {
        None => {
            if let LifecycleEvent::Created { comp_id } = e {
                *slot = Some(ComponentState::new(comp_id));
            }
            assert(actions@ =~= start + run_spec(*old(slot), e).1);
        },
        Some(mut s) => {
            match e {
                LifecycleEvent::Created { .. } => {
                    assert(actions@ =~= start + run_spec(*old(slot), e).1);
                },
                LifecycleEvent::MessagesHandled { changed } => {
                    if changed {
                        actions.push(LifecycleAction::ScheduleRender);
                    }
                    assert(actions@ =~= start + run_spec(*old(slot), e).1);
                },
                LifecycleEvent::PropsUpdated { props_changed, sibling_moved } => {
                    let schedule = s.changed(props_changed, sibling_moved, actions);
                    if schedule {
                        actions.push(LifecycleAction::ScheduleRender);
                    }
                    assert(actions@ =~= start + run_spec(*old(slot), e).1);
                },
                LifecycleEvent::Viewed(view) => {
                    s.render(view, actions);
                    *slot = Some(s);
                },
                LifecycleEvent::RenderedRun { first_render } => {
                    let _ = s.rendered(first_render, actions);
                },
                LifecycleEvent::Destroyed { parent_to_detach } => {
                    *slot = None;
                    s.destroy(parent_to_detach, actions);
                },
            }
        },
    }
}

/// Destroying a mounted component calls its destroy hook first and detaches
/// its bundle last, exactly once, with the `parent_to_detach` flag of the
/// event; in between at most its suspension is released. The slot is left
/// empty. A missing component is not destroyed again.
pub proof fn lemma_destroy_detaches_once(slot: Option<ComponentState>, parent_to_detach: bool)
    ensures
        ({
            let (next, acts) = run_spec(slot, LifecycleEvent::Destroyed { parent_to_detach });
            &&& next is None
            &&& slot is None ==> acts.len() == 0
            &&& slot is Some ==> {
                &&& acts.len() >= 2
                &&& acts[0] == LifecycleAction::CallDestroy
                &&& acts.last() == LifecycleAction::Detach { parent_to_detach }
                &&& forall|i: int| 0 <= i < acts.len() - 1 ==> !(#[trigger] acts[i] is Detach)
                &&& forall|i: int| 1 <= i < acts.len() - 1 ==> #[trigger] acts[i] is ResumeSuspension
            }
        }),
{
}

/// The suspensions a sequence of actions leaves handed to the suspense.
pub open spec fn outstanding(acts: Seq<LifecycleAction>) -> Set<u64>
    decreases acts.len(),
{
    if acts.len() == 0 {
        Set::empty()
    } else {
        let s = outstanding(acts.drop_last());
        match acts.last() {
            LifecycleAction::SuspendOn(x) => s.insert(x),
            LifecycleAction::ResumeSuspension(x) => s.remove(x),
            _ => s,
        }
    }
}

/// The suspensions a component slot holds.
pub open spec fn held(slot: Option<ComponentState>) -> Set<u64> {
    match slot {
        Some(s) => match s.suspension {
            Some(x) => set![x],
            None => Set::empty(),
        },
        None => Set::empty(),
    }
}

/// The actions and final slot of a sequence of events.
pub open spec fn run_all(slot: Option<ComponentState>, es: Seq<LifecycleEvent>) -> (
    Option<ComponentState>,
    Seq<LifecycleAction>,
)
    decreases es.len(),
{
    if es.len() == 0 {
        (slot, Seq::empty())
    } else {
        let prev = run_all(slot, es.drop_last());
        let next = run_spec(prev.0, es.last());
        (next.0, prev.1 + next.1)
    }
}

proof fn lemma_outstanding_concat(a: Seq<LifecycleAction>, b: Seq<LifecycleAction>)
    ensures
        outstanding(a + b) == outstanding_from(outstanding(a), b),
    decreases b.len(),
{
    if b.len() == 0 {
        assert(a + b =~= a);
    } else {
        lemma_outstanding_concat(a, b.drop_last());
        assert((a + b).drop_last() =~= a + b.drop_last());
        assert((a + b).last() == b.last());
    }
}

/// The suspensions left handed out after `acts`, starting from `start`.
pub open spec fn outstanding_from(start: Set<u64>, acts: Seq<LifecycleAction>) -> Set<u64>
    decreases acts.len(),
{
    if acts.len() == 0 {
        start
    } else {
        let s = outstanding_from(start, acts.drop_last());
        match acts.last() {
            LifecycleAction::SuspendOn(x) => s.insert(x),
            LifecycleAction::ResumeSuspension(x) => s.remove(x),
            _ => s,
        }
    }
}

/// One event keeps the suspensions handed to the suspense equal to those
/// the component holds.
proof fn lemma_step_keeps_outstanding(slot: Option<ComponentState>, e: LifecycleEvent)
    ensures
        outstanding_from(held(slot), run_spec(slot, e).1) == held(run_spec(slot, e).0),
{
    let acts = run_spec(slot, e).1;
    reveal_with_fuel(outstanding_from, 4);
    if let Some(s) = slot {
        match e {
            LifecycleEvent::Viewed(RenderOutcome::Rendered) => {
                match s.suspension {
                    Some(x) => {
                        assert(acts.drop_last().drop_last().drop_last() =~= Seq::<LifecycleAction>::empty());
                        assert(set![x].remove(x) =~= Set::<u64>::empty());
                    },
                    None => {},
                }
            },
            LifecycleEvent::Viewed(RenderOutcome::Suspended { suspension, resumed }) => {
                if !resumed {
                    match s.suspension {
                        Some(last) => {
                            if last != suspension {
                                assert(acts.drop_last().drop_last().drop_last() =~= Seq::<LifecycleAction>::empty());
                                assert(set![last].remove(last).insert(suspension) =~= set![suspension]);
                            } else {
                                assert(acts.drop_last().drop_last() =~= Seq::<LifecycleAction>::empty());
                                assert(set![last].insert(suspension) =~= set![suspension]);
                            }
                        },
                        None => {
                            assert(acts.drop_last().drop_last() =~= Seq::<LifecycleAction>::empty());
                            assert(Set::<u64>::empty().insert(suspension) =~= set![suspension]);
                        },
                    }
                }
            },
            LifecycleEvent::Destroyed { parent_to_detach } => {
                match s.suspension {
                    Some(x) => {
                        assert(acts.drop_last().drop_last().drop_last() =~= Seq::<LifecycleAction>::empty());
                        assert(set![x].remove(x) =~= Set::<u64>::empty());
                    },
                    None => {},
                }
            },
            LifecycleEvent::PropsUpdated { props_changed, sibling_moved } => {},
            _ => {},
        }
    }
}

/// From a missing component, any sequence of events leaves exactly the
/// suspension the component holds handed to its suspense: at most one, and
/// none once it has rendered without suspending or has been destroyed.
pub proof fn lemma_suspensions_released(es: Seq<LifecycleEvent>)
    ensures
        outstanding(run_all(None, es).1) == held(run_all(None, es).0),
        held(run_all(None, es).0).len() <= 1,
    decreases es.len(),
{
    if es.len() == 0 {
        assert(outstanding(Seq::<LifecycleAction>::empty()) =~= Set::<u64>::empty());
    } else {
        lemma_suspensions_released(es.drop_last());
        let prev = run_all(None, es.drop_last());
        let next = run_spec(prev.0, es.last());
        lemma_outstanding_concat(prev.1, next.1);
        lemma_step_keeps_outstanding(prev.0, es.last());
    }
    let fin = run_all(None, es).0;
    match fin {
        Some(s) => match s.suspension {
            Some(x) => {
                assert(set![x].len() == 1) by {
                    assert(set![x] =~= Set::<u64>::empty().insert(x));
                }
            },
            None => {},
        },
        None => {},
    }
}

/// The number of rendered runners queued as a first render.
pub open spec fn first_renders(acts: Seq<LifecycleAction>) -> nat
    decreases acts.len(),
{
    if acts.len() == 0 {
        0
    } else {
        first_renders(acts.drop_last()) + if acts.last() == (LifecycleAction::ScheduleRendered {
            first_render: true,
        }) {
            1nat
        } else {
            0nat
        }
    }
}

proof fn lemma_first_renders_concat(a: Seq<LifecycleAction>, b: Seq<LifecycleAction>)
    ensures
        first_renders(a + b) == first_renders(a) + first_renders(b),
    decreases b.len(),
{
    if b.len() == 0 {
        assert(a + b =~= a);
    } else {
        lemma_first_renders_concat(a, b.drop_last());
        assert((a + b).drop_last() =~= a + b.drop_last());
    }
}

/// No event of the sequence creates a component.
pub open spec fn creates_none(es: Seq<LifecycleEvent>) -> bool {
    forall|i: int| 0 <= i < es.len() ==> !(#[trigger] es[i] is Created)
}

proof fn lemma_first_renders_step(s: ComponentState, e: LifecycleEvent)
    ensures
        first_renders(step_spec(s, e).1) == (if !s.has_rendered && step_spec(s, e).0.has_rendered {
            1nat
        } else {
            0nat
        }),
        s.has_rendered ==> step_spec(s, e).0.has_rendered,
{
    reveal_with_fuel(first_renders, 4);
    match e {
        LifecycleEvent::Viewed(RenderOutcome::Rendered) => {
            let r = release(s);
            lemma_first_renders_concat(r, seq![
                LifecycleAction::Reconcile,
                LifecycleAction::ScheduleRendered { first_render: !s.has_rendered },
            ]);
        },
        LifecycleEvent::Viewed(RenderOutcome::Suspended { suspension, resumed }) => {
            if !resumed {
                let a = seq![LifecycleAction::ListenForResume(suspension)];
                let b = match s.suspension {
                    Some(last) => if last != suspension {
                        seq![LifecycleAction::ResumeSuspension(last)]
                    } else {
                        Seq::empty()
                    },
                    None => Seq::empty(),
                };
                lemma_first_renders_concat(a, b);
                lemma_first_renders_concat(a + b, seq![LifecycleAction::SuspendOn(suspension)]);
            }
        },
        LifecycleEvent::PropsUpdated { props_changed, sibling_moved } => {
            let a = if sibling_moved {
                seq![LifecycleAction::ReassignSibling]
            } else {
                Seq::empty()
            };
            let b = if props_changed == Some(true) {
                seq![LifecycleAction::ScheduleRender]
            } else {
                Seq::empty()
            };
            lemma_first_renders_concat(a, b);
        },
        LifecycleEvent::Destroyed { parent_to_detach } => {
            let r = release(s);
            lemma_first_renders_concat(seq![LifecycleAction::CallDestroy], r);
            lemma_first_renders_concat(
                seq![LifecycleAction::CallDestroy] + r,
                seq![LifecycleAction::Detach { parent_to_detach }],
            );
        },
        _ => {},
    }
}

/// Over the life of a created component, the rendered runner is told
/// "first render" at most once: exactly when the first render is committed.
pub proof fn lemma_first_render_once(comp_id: usize, es: Seq<LifecycleEvent>)
    requires
        creates_none(es),
    ensures
        first_renders(run_all(Some(ComponentState { comp_id, has_rendered: false, suspension: None }), es).1) <= 1,
        run_all(Some(ComponentState { comp_id, has_rendered: false, suspension: None }), es).0 matches Some(s)
            ==> first_renders(run_all(Some(ComponentState { comp_id, has_rendered: false, suspension: None }), es).1)
            == (if s.has_rendered { 1nat } else { 0nat }),
    decreases es.len(),
{
    let start = Some(ComponentState { comp_id, has_rendered: false, suspension: None });
    if es.len() > 0 {
        let init = es.drop_last();
        assert(creates_none(init)) by {
            assert forall|i: int| 0 <= i < init.len() implies !(#[trigger] init[i] is Created) by {
                assert(init[i] == es[i]);
            }
        }
        lemma_first_render_once(comp_id, init);
        let prev = run_all(start, init);
        let next = run_spec(prev.0, es.last());
        lemma_first_renders_concat(prev.1, next.1);
        assert(!(es[es.len() - 1] is Created));
        match prev.0 {
            Some(s) => {
                lemma_first_renders_step(s, es.last());
            },
            None => {
                assert(next.1 =~= Seq::<LifecycleAction>::empty());
            },
        }
    }
}

} // verus!
