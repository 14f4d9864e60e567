use lynx_yew::scheduler::{loop_step, LoopStep, Scheduler, TopologicalQueue};
use lynx_yew::timers::{TimerEntry, TimerRegistry};
use std::cell::Cell;
use std::rc::Rc;

trait Runnable {
    fn run(self: Box<Self>);
}

fn run_all(s: &mut Scheduler<Box<dyn Runnable>>) {
    let mut queue: Vec<Box<dyn Runnable>> = Vec::new();
    loop {
        s.fill_queue(&mut queue);
        if queue.is_empty() {
            break;
        }
        for r in queue.drain(..) {
            r.run();
        }
    }
}

#[test]
fn push_executes_runnables_immediately() {
    struct Test(Rc<Cell<bool>>);
    impl Runnable for Test {
        fn run(self: Box<Self>) {
            self.0.set(true);
        }
    }

    let flag = Rc::new(Cell::new(false));
    let mut s: Scheduler<Box<dyn Runnable>> = Scheduler::new();
    s.push_main(Box::new(Test(flag.clone())));
    run_all(&mut s);
    assert!(flag.get());
}

#[test]
fn fill_queue_runs_by_priority() {
    let mut s: Scheduler<&'static str> = Scheduler::new();
    s.push_main("main");
    s.push_component_update("update");
    s.push_component_render(2, "render 2");
    s.push_component_render(1, "render 1");
    s.push_component_rendered(1, "rendered 1", false);
    s.push_component_rendered(3, "rendered 3", false);
    s.push_component_create(5, "create 5", "first render 5");
    s.push_component_destroy("destroy");
    let mut out = Vec::new();
    let mut batches = Vec::new();
    loop {
        s.fill_queue(&mut out);
        if out.is_empty() {
            break;
        }
        batches.push(std::mem::take(&mut out));
    }
    assert_eq!(
        batches,
        vec![
            vec!["destroy", "create 5"],
            vec!["first render 5"],
            vec!["update", "main"],
            vec!["render 1"],
            vec!["render 2"],
            vec!["rendered 3", "rendered 1"],
        ]
    );
}

#[test]
fn topological_queue_orders_and_replaces() {
    let mut q: TopologicalQueue<&'static str> = TopologicalQueue::new();
    q.push(3, "c");
    q.push(1, "a");
    q.push(2, "b");
    q.push(3, "c2");
    assert_eq!(q.pop_topmost(), Some("a"));
    let mut out = Vec::new();
    q.drain_post_order_into(&mut out);
    assert_eq!(out, vec!["c2", "b"]);
    assert!(q.is_empty());
    assert_eq!(q.pop_topmost(), None);
}

#[test]
fn timers_dispatch_and_clear() {
    let mut reg: TimerRegistry<u32> = TimerRegistry::new();
    assert_eq!(reg.set_timeout(7, 1), 7);
    assert_eq!(reg.set_interval(8, 2), 8);
    reg.set_timeout(0, 3);
    assert!(!reg.is_registered(0));
    // A timeout fires once.
    let e = reg.begin_dispatch(7).unwrap();
    assert_eq!(e.callback, 1);
    reg.finish_dispatch(7, e);
    assert!(!reg.is_registered(7));
    // An interval repeats.
    let e = reg.begin_dispatch(8).unwrap();
    reg.finish_dispatch(8, e);
    assert!(reg.is_registered(8));
    // An interval cleared from its own callback stops.
    let e = reg.begin_dispatch(8).unwrap();
    reg.clear_interval(8);
    reg.finish_dispatch(8, e);
    assert!(!reg.is_registered(8));
    assert!(reg.begin_dispatch(8).is_none());
    reg.store(9, TimerEntry { repeating: true, callback: 4 });
    reg.clear_timeout(9);
    assert!(!reg.is_registered(9));
}

#[test]
fn an_uncleared_interval_runs_at_every_firing() {
    let mut timers: TimerRegistry<u32> = TimerRegistry::new();
    assert_eq!(timers.set_interval(5, 7), 5);
    let mut runs = 0;
    for _ in 0..4 {
        if let Some(entry) = timers.begin_dispatch(5) {
            assert_eq!(entry.callback, 7);
            runs += 1;
            timers.finish_dispatch(5, entry);
        }
    }
    assert_eq!(runs, 4);
    assert!(timers.is_registered(5));
}

#[test]
fn the_scheduler_loop_drives_futures_once_before_stopping() {
    assert_eq!(loop_step(false, false), LoopStep::RunQueue);
    assert_eq!(loop_step(false, true), LoopStep::RunQueue);
    assert_eq!(loop_step(true, false), LoopStep::DriveSpawned);
    assert_eq!(loop_step(true, true), LoopStep::Stop);
}
