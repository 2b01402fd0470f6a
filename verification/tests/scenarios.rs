use std::cell::RefCell;
use std::rc::Rc;
use std::sync::mpsc::SyncSender;

use task_tree::{Executor, Halt, Program, Signal, Step, TaskNode};

/// What a scripted computation was seen doing.
#[derive(Clone, Debug, PartialEq)]
enum Seen {
    Began { name: &'static str, this_node: usize, parent: usize },
    Polled { name: &'static str, children: usize, ready: bool },
}

type Log = Rc<RefCell<Vec<Seen>>>;

/// A scripted computation: at its first poll it asks for its children, then
/// it answers "not yet" `waits` times, then it completes.
struct Job {
    name: &'static str,
    spawns: Vec<Job>,
    waits: usize,
    log: Log,
}

struct Started {
    name: &'static str,
    spawns: Vec<Job>,
    waits: usize,
    this_node: usize,
    sender: SyncSender<Signal<Job>>,
    log: Log,
}

impl Program for Job {
    type Future = Started;
    type Output = ();

    fn future(self, node: &TaskNode<Self>) -> Started {
        self.log.borrow_mut().push(Seen::Began {
            name: self.name,
            this_node: node.this_node,
            parent: node.parent,
        });
        Started {
            name: self.name,
            spawns: self.spawns,
            waits: self.waits,
            this_node: node.this_node,
            sender: node.sender.clone(),
            log: self.log,
        }
    }

    fn poll(future: &mut Started, node: &TaskNode<Self>) -> bool {
        let ready = if !future.spawns.is_empty() {
            for job in future.spawns.drain(..) {
                let asked = Signal::Branch { token: job, parent: future.this_node, output: None };
                assert!(future.sender.send(asked).is_ok());
            }
            false
        } else if future.waits > 0 {
            future.waits -= 1;
            false
        } else {
            true
        };
        future.log.borrow_mut().push(Seen::Polled {
            name: future.name,
            children: node.children,
            ready,
        });
        ready
    }
}

fn job(name: &'static str, waits: usize, spawns: Vec<Job>, log: &Log) -> Job {
    Job { name, spawns, waits, log: log.clone() }
}

fn began(log: &Log) -> Vec<&'static str> {
    let mut names = Vec::new();
    for seen in log.borrow().iter() {
        if let Seen::Began { name, .. } = seen {
            names.push(*name);
        }
    }
    names
}

fn polls_of(log: &Log, who: &'static str) -> usize {
    let mut count: usize = 0;
    for seen in log.borrow().iter() {
        if let Seen::Polled { name, .. } = seen {
            if *name == who {
                count += 1;
            }
        }
    }
    count
}

fn children_at(executor: &Executor<Job>, n: usize) -> usize {
    match executor.node(n) {
        Some(node) => node.children,
        None => panic!("no node at {}", n),
    }
}

fn every_poll_was_unblocked(log: &Log) -> bool {
    log.borrow().iter().all(|seen| match seen {
        Seen::Polled { children, .. } => *children == 0,
        Seen::Began { .. } => true,
    })
}

#[test]
fn root_without_children_completes_at_once() {
    let log: Log = Log::default();
    let mut executor: Executor<Job> = Executor::new();
    assert_eq!(executor.len(), 0);
    assert_eq!(executor.run(job("root", 0, vec![], &log), 1), Ok(()));
    assert_eq!(executor.len(), 0);
    assert_eq!(executor.cursor(), 0);
    assert_eq!(
        *log.borrow(),
        vec![
            Seen::Began { name: "root", this_node: 0, parent: 0 },
            Seen::Polled { name: "root", children: 0, ready: true },
        ]
    );
}

#[test]
fn root_without_children_takes_one_step_and_no_eviction() {
    let log: Log = Log::default();
    let mut executor: Executor<Job> = Executor::new();
    executor.branch(Signal::Branch { token: job("root", 0, vec![], &log), parent: 0, output: None });
    assert_eq!(executor.len(), 1);
    assert_eq!(children_at(&executor, 0), 0);
    assert_eq!(executor.step(), Step::Finished);
    assert_eq!(executor.len(), 0);
    assert_eq!(began(&log), vec!["root"]);
}

#[test]
fn table_is_empty_before_and_after_each_successful_run() {
    let log: Log = Log::default();
    let mut executor: Executor<Job> = Executor::new();
    for _ in 0..3 {
        assert_eq!(executor.len(), 0);
        let main = job("root", 2, vec![job("a", 1, vec![], &log), job("b", 0, vec![], &log)], &log);
        assert_eq!(executor.run(main, 100), Ok(()));
        assert_eq!(executor.len(), 0);
    }
    assert!(every_poll_was_unblocked(&log));
}

#[test]
fn two_children_second_completes_first() {
    let log: Log = Log::default();
    let mut executor: Executor<Job> = Executor::new();
    let main = job("root", 0, vec![job("a", 1, vec![], &log), job("b", 0, vec![], &log)], &log);
    assert_eq!(executor.run(main, 0), Err(Halt::Stalled));
    assert_eq!(executor.len(), 1);

    // The root asks for its children; they are not admitted inside the sweep.
    assert_eq!(executor.step(), Step::Pending);
    assert_eq!(executor.len(), 1);
    assert_eq!(children_at(&executor, 0), 0);
    assert_eq!(executor.cursor(), 1);

    // Sweep boundary: both are admitted, and the root is blocked from then on.
    assert_eq!(executor.step(), Step::Blocked);
    assert_eq!(executor.len(), 3);
    assert_eq!(children_at(&executor, 0), 2);
    assert_eq!(polls_of(&log, "root"), 1);

    assert_eq!(executor.step(), Step::Pending);
    assert_eq!(executor.cursor(), 2);

    // "b" completes first: one eviction, one decrement, cursor at the root.
    assert_eq!(executor.step(), Step::Evicted);
    assert_eq!(executor.len(), 2);
    assert_eq!(children_at(&executor, 0), 1);
    assert_eq!(executor.cursor(), 0);

    // One child is still out: the root is passed over, not polled.
    assert_eq!(executor.step(), Step::Blocked);
    assert_eq!(polls_of(&log, "root"), 1);

    assert_eq!(executor.step(), Step::Evicted);
    assert_eq!(executor.len(), 1);
    assert_eq!(children_at(&executor, 0), 0);
    assert_eq!(executor.cursor(), 0);

    // The very next step resumes the root.
    assert_eq!(executor.step(), Step::Finished);
    assert_eq!(polls_of(&log, "root"), 2);
    assert_eq!(executor.len(), 0);
    assert!(every_poll_was_unblocked(&log));
}

#[test]
fn two_children_first_completes_first() {
    let log: Log = Log::default();
    let mut executor: Executor<Job> = Executor::new();
    let main = job("root", 0, vec![job("a", 0, vec![], &log), job("b", 2, vec![], &log)], &log);
    assert_eq!(executor.run(main, 2), Err(Halt::Stalled));
    assert_eq!(executor.len(), 3);
    assert_eq!(children_at(&executor, 0), 2);

    // "a" completes first; "b" moves up to its position.
    assert_eq!(executor.step(), Step::Evicted);
    assert_eq!(executor.len(), 2);
    assert_eq!(children_at(&executor, 0), 1);
    assert_eq!(executor.cursor(), 0);
    assert_eq!(executor.step(), Step::Blocked);
    assert_eq!(executor.step(), Step::Pending);
    assert_eq!(executor.step(), Step::Blocked);
    assert_eq!(executor.step(), Step::Pending);
    assert_eq!(executor.step(), Step::Blocked);
    assert_eq!(children_at(&executor, 0), 1);
    assert_eq!(polls_of(&log, "root"), 1);
    assert_eq!(executor.step(), Step::Evicted);
    assert_eq!(children_at(&executor, 0), 0);
    assert_eq!(executor.cursor(), 0);
    assert_eq!(executor.step(), Step::Finished);
    assert_eq!(polls_of(&log, "root"), 2);
    assert!(every_poll_was_unblocked(&log));
}

#[test]
fn two_children_run_to_the_end_in_either_order() {
    for (first, second) in [(0, 3), (3, 0), (1, 1)] {
        let log: Log = Log::default();
        let mut executor: Executor<Job> = Executor::new();
        let main = job(
            "root",
            0,
            vec![job("a", first, vec![], &log), job("b", second, vec![], &log)],
            &log,
        );
        assert_eq!(executor.run(main, 1000), Ok(()));
        assert_eq!(executor.len(), 0);
        assert_eq!(began(&log), vec!["root", "a", "b"]);
        assert_eq!(polls_of(&log, "root"), 2);
        assert!(every_poll_was_unblocked(&log));
    }
}

#[test]
fn grandchild_leaves_before_child_is_resumed() {
    let log: Log = Log::default();
    let mut executor: Executor<Job> = Executor::new();
    let child = job("child", 0, vec![job("grandchild", 1, vec![], &log)], &log);
    let main = job("root", 0, vec![child], &log);
    assert_eq!(executor.run(main, 0), Err(Halt::Stalled));

    assert_eq!(executor.step(), Step::Pending);
    // Boundary: the child is admitted.
    assert_eq!(executor.step(), Step::Blocked);
    assert_eq!(executor.len(), 2);
    // The child asks for the grandchild in the middle of a sweep.
    assert_eq!(executor.step(), Step::Pending);
    assert_eq!(executor.len(), 2);
    assert_eq!(polls_of(&log, "child"), 1);
    // Boundary: the grandchild is admitted under the child.
    assert_eq!(executor.step(), Step::Blocked);
    assert_eq!(executor.len(), 3);
    assert_eq!(children_at(&executor, 0), 1);
    assert_eq!(children_at(&executor, 1), 1);
    assert_eq!(children_at(&executor, 2), 0);
    // The child is blocked until the grandchild is gone.
    assert_eq!(executor.step(), Step::Blocked);
    assert_eq!(executor.step(), Step::Pending);
    assert_eq!(executor.step(), Step::Blocked);
    assert_eq!(executor.step(), Step::Blocked);
    assert_eq!(polls_of(&log, "child"), 1);
    assert_eq!(executor.step(), Step::Evicted);
    assert_eq!(executor.len(), 2);
    assert_eq!(children_at(&executor, 1), 0);
    assert_eq!(executor.cursor(), 1);
    // Now, and only now, the child is resumed again.
    assert_eq!(executor.step(), Step::Evicted);
    assert_eq!(polls_of(&log, "child"), 2);
    assert_eq!(executor.len(), 1);
    assert_eq!(children_at(&executor, 0), 0);
    assert_eq!(executor.cursor(), 0);
    assert_eq!(executor.step(), Step::Finished);
    assert!(every_poll_was_unblocked(&log));

    let order: Vec<Seen> = log
        .borrow()
        .iter()
        .filter(|seen| matches!(seen, Seen::Polled { ready: true, .. }))
        .cloned()
        .collect();
    assert_eq!(
        order,
        vec![
            Seen::Polled { name: "grandchild", children: 0, ready: true },
            Seen::Polled { name: "child", children: 0, ready: true },
            Seen::Polled { name: "root", children: 0, ready: true },
        ]
    );
}

#[test]
fn signals_of_two_producers_are_each_admitted_once() {
    let log: Log = Log::default();
    let mut executor: Executor<Job> = Executor::new();
    assert_eq!(executor.run(job("root", 1000, vec![], &log), 0), Err(Halt::Stalled));
    let left = executor.sender();
    let right = executor.sender();
    let names_left = ["l0", "l1", "l2"];
    let names_right = ["r0", "r1", "r2", "r3"];
    let order = [true, false, false, true, true, false, false];
    let mut l = 0;
    let mut r = 0;
    for from_left in order {
        if from_left {
            let token = job(names_left[l], 0, vec![], &log);
            assert!(left.send(Signal::Branch { token, parent: 0, output: None }).is_ok());
            l += 1;
        } else {
            let token = job(names_right[r], 0, vec![], &log);
            assert!(right.send(Signal::Branch { token, parent: 0, output: None }).is_ok());
            r += 1;
        }
    }
    assert_eq!(executor.drain(), 7);
    assert_eq!(executor.drain(), 0);
    assert_eq!(executor.len(), 8);
    assert_eq!(children_at(&executor, 0), 7);

    let mut names = began(&log);
    names.sort();
    assert_eq!(names, vec!["l0", "l1", "l2", "r0", "r1", "r2", "r3", "root"]);
    for n in 1..8 {
        match executor.node(n) {
            Some(node) => {
                assert_eq!(node.this_node, n);
                assert_eq!(node.parent, 0);
                assert_eq!(node.children, 0);
            },
            None => panic!("no node at {}", n),
        }
    }
}

#[test]
fn signals_of_one_producer_are_admitted_in_the_order_sent() {
    let log: Log = Log::default();
    let mut executor: Executor<Job> = Executor::new();
    let sender = executor.sender();
    for name in ["root", "x", "y", "z"] {
        let token = job(name, 0, vec![], &log);
        assert!(sender.send(Signal::Branch { token, parent: 0, output: None }).is_ok());
    }
    assert_eq!(executor.drain(), 4);
    assert_eq!(began(&log), vec!["root", "x", "y", "z"]);
    assert_eq!(children_at(&executor, 0), 3);
}

#[test]
fn root_that_never_completes_uses_up_any_budget() {
    let log: Log = Log::default();
    let mut executor: Executor<Job> = Executor::new();
    assert_eq!(executor.run(job("root", usize::MAX, vec![], &log), 500), Err(Halt::Stalled));
    assert_eq!(executor.len(), 1);
    assert_eq!(polls_of(&log, "root"), 500);
    assert_eq!(executor.resume(250), Err(Halt::Stalled));
    assert_eq!(polls_of(&log, "root"), 750);
    assert_eq!(executor.len(), 1);
}

#[test]
fn run_ends_with_the_step_that_sees_the_root_complete() {
    let log: Log = Log::default();
    let mut executor: Executor<Job> = Executor::new();
    // Four polls answer "not yet", the fifth completes.
    assert_eq!(executor.run(job("root", 4, vec![], &log), 4), Err(Halt::Stalled));
    assert_eq!(executor.len(), 1);
    assert_eq!(executor.resume(1), Ok(()));
    assert_eq!(executor.len(), 0);
    assert_eq!(polls_of(&log, "root"), 5);
}
