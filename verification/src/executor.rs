//! The executor: the only owner of the task node table, of the receiving end
//! of the spawn channel and of the sender that every node gets a copy of.

use crate::channel::QUEUE_BOUND;
use crate::program::{OptHint, Program, Signal, TaskNode};
use crate::table::{
    admissible, admitted, admitted_all, evicted, fresh_link, lemma_counter_within_total,
    lemma_total_push, lemma_total_remove, lemma_total_update, ran, resumes, settled,
    stepped, wrapped, Halt, Input, Link, State, Step,
};
use crate::theorems::seeded_run_keeps_its_root;
use std::sync::mpsc::{Receiver, SyncSender, TryRecvError};
use vstd::prelude::*;

verus! {

/// One row of the table: a node and, beside it, the computation that runs on
/// it.
#[verifier::reject_recursive_types(T)]
pub struct Entry<T: Program> {
    pub node: TaskNode<T>,
    pub future: T::Future,
}

/// The bookkeeping of every row, by position.
pub open spec fn links<T: Program>(rows: Seq<Entry<T>>) -> Seq<Link> {
    Seq::new(rows.len(), |i: int| rows[i].node@)
}

/// The row with another counter. Nothing else of it differs.
pub open spec fn with_counter<T: Program>(row: Entry<T>, children: usize) -> Entry<T> {
    Entry {
        node: TaskNode {
            output: row.node.output,
            parent: row.node.parent,
            this_node: row.node.this_node,
            children,
            sender: row.node.sender,
            opt_hint: row.node.opt_hint,
        },
        future: row.future,
    }
}

/// The rows with the counter at `at` raised by one, if there is such a
/// position.
pub open spec fn raised_rows<T: Program>(rows: Seq<Entry<T>>, at: nat) -> Seq<Entry<T>> {
    if at < rows.len() {
        rows.update(
            at as int,
            with_counter(rows[at as int], (rows[at as int].node.children + 1) as usize),
        )
    } else {
        rows
    }
}

/// The rows after the one at `n` has left: the rows behind it move up by one
/// position, and the counter at the position that it names as its parent is
/// lowered by one.
pub open spec fn evicted_rows<T: Program>(rows: Seq<Entry<T>>, n: nat) -> Seq<Entry<T>> {
    let parent = rows[n as int].node.parent as int;
    let rest = rows.remove(n as int);
    rest.update(parent, with_counter(rest[parent], (rest[parent].node.children - 1) as usize))
}

/// Whether `after` is `before` with nothing but the computation at `n`
/// resumed: every node, and every other computation, is as it was.
pub open spec fn resumed_only<T: Program>(
    before: Seq<Entry<T>>,
    after: Seq<Entry<T>>,
    n: nat,
) -> bool {
    &&& after.len() == before.len()
    &&& forall|i: int|
        0 <= i < before.len() ==> (#[trigger] after[i]).node == before[i].node && (i != n
            ==> after[i].future == before[i].future)
}

/// The parents that the signals name, in the order of the signals.
pub open spec fn parents_of<T: Program>(signals: Seq<Signal<T>>) -> Seq<nat> {
    Seq::new(signals.len(), |k: int| signals[k]->parent as nat)
}

/// Whether each of `signals` is a message that a receive on `queue` handed
/// out.
pub open spec fn received<T: Program>(queue: Receiver<Signal<T>>, signals: Seq<Signal<T>>) -> bool {
    forall|k: int|
        0 <= k < signals.len() ==> call_ensures(
            Receiver::<Signal<T>>::try_recv,
            (&queue,),
            Ok::<Signal<T>, TryRecvError>(#[trigger] signals[k]),
        )
}

/// Whether `ready` is what the computation of `row` answered when it was
/// resumed on its node.
pub open spec fn answered<T: Program>(row: Entry<T>, ready: bool) -> bool {
    exists|resumed: &mut T::Future|
        mut_ref_current(resumed) == row.future && #[trigger] call_ensures(
            T::poll,
            (resumed, &row.node),
            ready,
        )
}

/// Whether one step takes the scheduler from `before`, with the rows `rows`,
/// to `after`, and ends as `step`, where `signals` are the requests that the
/// step received from `queue`, `swept` are the rows after the sweep boundary,
/// and `ready` is the answer on which the step decided.
///
/// Inside a sweep nothing is received and the rows stay as they are. The
/// answer is that of the computation at the cursor, where the node there may
/// be resumed.
pub open spec fn takes_step<T: Program>(
    before: State,
    rows: Seq<Entry<T>>,
    queue: Receiver<Signal<T>>,
    signals: Seq<Signal<T>>,
    swept: Seq<Entry<T>>,
    ready: bool,
    after: State,
    step: Step,
) -> bool {
    let start = wrapped(before, parents_of(signals));
    &&& signals.len() <= QUEUE_BOUND
    &&& received(queue, signals)
    &&& before.cursor < before.table.len() ==> signals.len() == 0 && swept == rows
    &&& links(swept) == start.table
    &&& start.cursor < start.table.len() && !start.table[start.cursor as int].blocked()
        ==> answered(swept[start.cursor as int], ready)
    &&& settled(start, ready).0 == after
    &&& settled(start, ready).1 == step
}

/// Whether `input` is what the outside answered to a step from `before`: the
/// parents are those of requests received from `queue`, and the answer is
/// that of the computation at the cursor, in rows whose bookkeeping is that of
/// `before`.
pub open spec fn witnessed<T: Program>(
    before: State,
    queue: Receiver<Signal<T>>,
    input: Input,
) -> bool {
    exists|rows: Seq<Entry<T>>, signals: Seq<Signal<T>>, swept: Seq<Entry<T>>|
        {
            &&& #[trigger] takes_step(
                before,
                rows,
                queue,
                signals,
                swept,
                input.ready,
                stepped(before, input).0,
                stepped(before, input).1,
            )
            &&& links(rows) == before.table
            &&& parents_of(signals) == input.parents
        }
}

/// Whether every step of the run from `before` on `inputs` was answered by
/// the outside: no request was made up, and no answer.
pub open spec fn all_witnessed<T: Program>(
    before: State,
    queue: Receiver<Signal<T>>,
    inputs: Seq<Input>,
) -> bool {
    forall|k: int|
        0 <= k < inputs.len() ==> witnessed(
            (#[trigger] ran(before, inputs.take(k))).0,
            queue,
            inputs[k],
        )
}

/// The executor of one task tree.
///
/// Its view is the bookkeeping of the table and the cursor of the sweep. The
/// computations are seen only through [`Executor::rows`].
#[verifier::reject_recursive_types(T)]
pub struct Executor<T: Program> {
    queue: Receiver<Signal<T>>,
    self_sender: SyncSender<Signal<T>>,
    task_graph: Vec<Entry<T>>,
    cursor: usize,
}

impl<T: Program> View for Executor<T> {
    type V = State;

    closed spec fn view(&self) -> State {
        State { table: links(self.task_graph@), cursor: self.cursor as nat }
    }
}

impl<T: Program> Executor<T> {
    /// The rows of the table, computations included.
    pub closed spec fn rows(&self) -> Seq<Entry<T>> {
        self.task_graph@
    }

    /// The two halves of the spawn channel: the sender that every node gets a
    /// copy of, and the receiver that only the executor reads.
    pub closed spec fn channel(&self) -> (SyncSender<Signal<T>>, Receiver<Signal<T>>) {
        (self.self_sender, self.queue)
    }

    /// The invariant of the executor: its view shows the bookkeeping of its
    /// rows, and is sound.
    pub open spec fn wf(&self) -> bool {
        &&& self@.table == links(self.rows())
        &&& self@.sound()
    }

    /// An executor with an empty table and a channel of its own, which holds
    /// up to `QUEUE_BOUND` spawn requests.
    pub fn new() -> (fresh: Self)
        ensures
            fresh.wf(),
            fresh@ == State::idle(),
            call_ensures(
                std::sync::mpsc::sync_channel::<Signal<T>>,
                (QUEUE_BOUND,),
                fresh.channel(),
            ),
    {
        let (self_sender, queue) = std::sync::mpsc::sync_channel(QUEUE_BOUND);
        let fresh = Executor { queue, self_sender, task_graph: Vec::new(), cursor: 0 };
        assert(fresh@.table =~= Seq::<Link>::empty());
        fresh
    }

    /// Admits the node that a signal asks for.
    ///
    /// The new node is appended at the end of the table, with no children of
    /// its own, the signal's output slot, the default hints and a handle to
    /// the spawn channel. The descriptor begins on that node, and the
    /// computation it returns is kept beside the node. Where the signal names
    /// a position of the table as parent, the counter there is raised by one;
    /// where it names none, no counter is.
    pub fn branch(&mut self, branch: Signal<T>)
        requires
            old(self).wf(),
        ensures
            final(self).wf(),
            final(self)@.table == admitted(old(self)@.table, branch->parent as nat),
            final(self)@.cursor == old(self)@.cursor,
            final(self).rows().len() == old(self).rows().len() + 1,
            final(self).rows().drop_last() == raised_rows(old(self).rows(), branch->parent as nat),
            final(self).rows().last().node.output == branch->output,
            !final(self).rows().last().node.opt_hint.always_serialize,
            call_ensures(
                T::future,
                (branch->token, &final(self).rows().last().node),
                final(self).rows().last().future,
            ),
            call_ensures(
                <SyncSender<Signal<T>> as Clone>::clone,
                (&old(self).channel().0,),
                final(self).rows().last().node.sender,
            ),
            final(self).channel() == old(self).channel(),
    {
        let Signal::Branch { token, parent, output } = branch;
        let ghost before = self.task_graph@;
        let node = TaskNode {
            output,
            parent,
            this_node: self.task_graph.len(),
            children: 0,
            sender: self.self_sender.clone(),
            opt_hint: OptHint { always_serialize: false },
        };
        let future = token.future(&node);
        self.task_graph.push(Entry { node, future });
        let ghost fresh = fresh_link(before.len(), parent as nat);
        proof {
            assert(links(self.task_graph@) =~= links(before).push(fresh));
            lemma_total_push(links(before), fresh);
        }
        if parent < self.task_graph.len() - 1 {
            proof {
                // The counters together stay within the number of nodes, so
                // none of them is at the limit of its type.
                lemma_counter_within_total(links(before), parent as int);
            }
            let ghost pushed = self.task_graph@;
            self.task_graph[parent].node.children += 1;
            proof {
                let raised = links(self.task_graph@)[parent as int];
                assert(links(self.task_graph@) =~= links(pushed).update(parent as int, raised));
                lemma_total_update(links(pushed), parent as int, raised);
            }
        }
    }

    /// Admits the spawn requests that are pending, oldest first, without
    /// waiting for more, and at most as many as the channel holds. Returns
    /// how many were admitted.
    ///
    /// Where fewer were admitted than the channel holds, the last receive
    /// found the channel without a pending request.
    pub fn drain(&mut self) -> (count: usize)
        requires
            old(self).wf(),
        ensures
            final(self).wf(),
            count <= QUEUE_BOUND,
            final(self)@.cursor == old(self)@.cursor,
            final(self).channel() == old(self).channel(),
            exists|signals: Seq<Signal<T>>|
                {
                    &&& #[trigger] received(old(self).channel().1, signals)
                    &&& signals.len() == count
                    &&& final(self)@.table == admitted_all(old(self)@.table, parents_of(signals))
                },
            count < QUEUE_BOUND ==> exists|empty: TryRecvError| #[trigger]
                call_ensures(
                    Receiver::<Signal<T>>::try_recv,
                    (&old(self).channel().1,),
                    Err::<Signal<T>, TryRecvError>(empty),
                ),
    {
        let mut count: usize = 0;
        let mut more: bool = true;
        let ghost mut signals: Seq<Signal<T>> = Seq::empty();
        while more && count < QUEUE_BOUND
            invariant
                self.wf(),
                count <= QUEUE_BOUND,
                self@.cursor == old(self)@.cursor,
                self.channel() == old(self).channel(),
                received(self.channel().1, signals),
                signals.len() == count,
                self@.table == admitted_all(old(self)@.table, parents_of(signals)),
                !more ==> exists|empty: TryRecvError| #[trigger]
                    call_ensures(
                        Receiver::<Signal<T>>::try_recv,
                        (&self.channel().1,),
                        Err::<Signal<T>, TryRecvError>(empty),
                    ),
            decreases QUEUE_BOUND - count + (if more {
                1int
            } else {
                0int
            }),
        {
            let taken = self.queue.try_recv();
            match taken {
                Ok(signal) => {
                    let ghost earlier = signals;
                    proof {
                        signals = earlier.push(signal);
                        assert(parents_of(signals).drop_last() =~= parents_of(earlier));
                    }
                    self.branch(signal);
                    count += 1;
                },
                Err(_) => {
                    more = false;
                },
            }
        }
        count
    }

    /// Resumes the computation at the cursor once, if there is a node at the
    /// cursor and it has no outstanding children, and returns its answer.
    /// The bookkeeping and every other computation stay as they are.
    pub fn poll(&mut self) -> (answer: Option<bool>)
        requires
            old(self).wf(),
        ensures
            final(self).wf(),
            final(self)@ == old(self)@,
            final(self).channel() == old(self).channel(),
            answer is Some <==> old(self)@.cursor < old(self)@.table.len() && !old(
                self,
            )@.table[old(self)@.cursor as int].blocked(),
            answer is None ==> final(self).rows() == old(self).rows(),
            answer is Some ==> resumed_only(
                old(self).rows(),
                final(self).rows(),
                old(self)@.cursor,
            ),
            answer is Some ==> exists|resumed: &mut T::Future, ready: bool|
                {
                    &&& answer == Some(ready)
                    &&& mut_ref_current(resumed) == old(self).rows()[old(
                        self,
                    )@.cursor as int].future
                    &&& mut_ref_future(resumed) == final(self).rows()[old(
                        self,
                    )@.cursor as int].future
                    &&& #[trigger] call_ensures(
                        T::poll,
                        (resumed, &old(self).rows()[old(self)@.cursor as int].node),
                        ready,
                    )
                },
    {
        let n: usize = self.cursor;
        if n < self.task_graph.len() && self.task_graph[n].node.children == 0 {
            let ghost before = self.task_graph@;
            let row = &mut self.task_graph[n];
            let ready = T::poll(&mut row.future, &row.node);
            assert(links(self.task_graph@) =~= links(before));
            Some(ready)
        } else {
            None
        }
    }

    /// The decision at the cursor, given what the node there answered when it
    /// was resumed. `ready` is looked at only where the node has no
    /// outstanding children.
    pub fn settle(&mut self, ready: bool) -> (step: Step)
        requires
            old(self).wf(),
        ensures
            final(self).wf(),
            final(self)@ == settled(old(self)@, ready).0,
            step == settled(old(self)@, ready).1,
            final(self).channel() == old(self).channel(),
            !(step is Evicted || step is Finished) ==> final(self).rows() == old(self).rows(),
            step is Evicted ==> final(self).rows() == evicted_rows(
                old(self).rows(),
                old(self)@.cursor,
            ),
    {
        let n: usize = self.cursor;
        let len: usize = self.task_graph.len();
        let ghost before = self.task_graph@;
        if n >= len {
            return Step::Idle;
        }
        if self.task_graph[n].node.children != 0 {
            self.cursor = n + 1;
            return Step::Blocked;
        }
        if !ready {
            self.cursor = n + 1;
            return Step::Pending;
        }
        let parent: usize = self.task_graph[n].node.parent;
        if self.task_graph[n].node.this_node == parent {
            self.task_graph.clear();
            self.cursor = 0;
            assert(self@.table =~= Seq::<Link>::empty());
            return Step::Finished;
        }
        if parent >= len - 1 {
            return Step::Orphaned;
        }
        let at: usize = if parent < n {
            parent
        } else {
            parent + 1
        };
        if self.task_graph[at].node.children == 0 {
            return Step::Orphaned;
        }
        self.task_graph[at].node.children -= 1;
        let ghost lowered = self.task_graph@;
        let _ = self.task_graph.remove(n);
        self.cursor = parent;
        proof {
            assert(links(lowered) =~= links(before).update(at as int, links(lowered)[at as int]));
            lemma_total_update(links(before), at as int, links(lowered)[at as int]);
            assert(links(self.task_graph@) =~= links(lowered).remove(n as int));
            lemma_total_remove(links(lowered), n as int);
            assert(links(self.task_graph@) =~= evicted(links(before), n as nat));
        }
        Step::Evicted
    }

    /// One step of the scheduler. At the end of a sweep the cursor goes back
    /// to the start and the pending spawn requests are admitted. Then the
    /// node at the cursor is resumed once, unless it has outstanding
    /// children, and the decision is taken on its answer.
    pub fn step(&mut self) -> (step: Step)
        requires
            old(self).wf(),
        ensures
            final(self).wf(),
            final(self).channel() == old(self).channel(),
            exists|signals: Seq<Signal<T>>, swept: Seq<Entry<T>>, ready: bool| #[trigger]
                takes_step(
                    old(self)@,
                    old(self).rows(),
                    old(self).channel().1,
                    signals,
                    swept,
                    ready,
                    final(self)@,
                    step,
                ),
            old(self)@.cursor < old(self)@.table.len() && old(self)@.table[old(
                self,
            )@.cursor as int].blocked() ==> {
                &&& step is Blocked
                &&& final(self).rows() == old(self).rows()
                &&& final(self)@.cursor == old(self)@.cursor + 1
            },
            old(self)@.cursor < old(self)@.table.len() && step is Pending ==> exists|
                resumed: &mut T::Future,
            |
                {
                    &&& mut_ref_current(resumed) == old(self).rows()[old(
                        self,
                    )@.cursor as int].future
                    &&& mut_ref_future(resumed) == final(self).rows()[old(
                        self,
                    )@.cursor as int].future
                    &&& #[trigger] call_ensures(
                        T::poll,
                        (resumed, &old(self).rows()[old(self)@.cursor as int].node),
                        false,
                    )
                },
            old(self)@.cursor < old(self)@.table.len() && step is Pending ==> resumed_only(
                old(self).rows(),
                final(self).rows(),
                old(self)@.cursor,
            ),
            old(self)@.cursor < old(self)@.table.len() && step is Evicted ==> final(self).rows()
                == evicted_rows(old(self).rows(), old(self)@.cursor),
    {
        let ghost mut signals: Seq<Signal<T>> = Seq::empty();
        if self.cursor >= self.task_graph.len() {
            self.cursor = 0;
            let count: usize = self.drain();
            proof {
                signals =
                choose|signals: Seq<Signal<T>>|
                    {
                        &&& #[trigger] received(old(self).channel().1, signals)
                        &&& signals.len() == count
                        &&& self@.table == admitted_all(old(self)@.table, parents_of(signals))
                    };
            }
        }
        let ghost n: usize = self.cursor;
        let ghost wrapped_rows = self.task_graph@;
        let ready: bool = match self.poll() {
            Some(ready) => ready,
            None => false,
        };
        let ghost polled_rows = self.task_graph@;
        let step = self.settle(ready);
        proof {
            if step is Evicted {
                assert(evicted_rows(polled_rows, n as nat) =~= evicted_rows(
                    wrapped_rows,
                    n as nat,
                ));
            }
        }
        assert(takes_step(
            old(self)@,
            old(self).rows(),
            old(self).channel().1,
            signals,
            wrapped_rows,
            ready,
            self@,
            step,
        ));
        step
    }

    /// Takes up to `budget` steps, and stops early when a step halts.
    ///
    /// `Ok` means that the root completed: the table is empty again. After
    /// `Halt::Orphan` the table is corrupt, and nothing more may be scheduled
    /// on it.
    pub fn resume(&mut self, budget: usize) -> (res: Result<(), Halt>)
        requires
            old(self).wf(),
        ensures
            final(self).wf(),
            final(self).channel() == old(self).channel(),
            exists|inputs: Seq<Input>|
                {
                    &&& #[trigger] resumes(old(self)@, inputs, budget as nat, final(self)@, res)
                    &&& all_witnessed(old(self)@, old(self).channel().1, inputs)
                },
            res is Ok ==> final(self)@ == State::idle(),
            res != Err::<(), Halt>(Halt::Busy),
    {
        let mut left: usize = budget;
        let ghost mut inputs: Seq<Input> = Seq::empty();
        while left > 0
            invariant
                self.wf(),
                self.channel() == old(self).channel(),
                left <= budget,
                inputs.len() == budget - left,
                admissible(inputs),
                all_witnessed(old(self)@, self.channel().1, inputs),
                ran(old(self)@, inputs).0 == self@,
                ran(old(self)@, inputs).1 matches Some(last) ==> !last.halts(),
            decreases left,
        {
            let ghost earlier = inputs;
            let ghost here = self@;
            let ghost rows = self.task_graph@;
            let step = self.step();
            proof {
                let (signals, swept, ready) = choose|
                    signals: Seq<Signal<T>>,
                    swept: Seq<Entry<T>>,
                    ready: bool,
                | #[trigger]
                    takes_step(
                        here,
                        rows,
                        self.channel().1,
                        signals,
                        swept,
                        ready,
                        self@,
                        step,
                    );
                let input = Input { parents: parents_of(signals), ready };
                inputs = earlier.push(input);
                assert(inputs.drop_last() =~= earlier);
                assert(witnessed(here, self.channel().1, input));
                assert forall|k: int| 0 <= k < inputs.len() implies witnessed(
                    (#[trigger] ran(old(self)@, inputs.take(k))).0,
                    self.channel().1,
                    inputs[k],
                ) by {
                    if k < earlier.len() {
                        assert(inputs.take(k) =~= earlier.take(k));
                    } else {
                        assert(inputs.take(k) =~= earlier);
                    }
                }
            }
            left -= 1;
            match step {
                Step::Finished => {
                    assert(resumes(old(self)@, inputs, budget as nat, self@, Ok(())));
                    return Ok(());
                },
                Step::Orphaned => {
                    assert(resumes(old(self)@, inputs, budget as nat, self@, Err(Halt::Orphan)));
                    return Err(Halt::Orphan);
                },
                Step::Idle => {
                    assert(resumes(old(self)@, inputs, budget as nat, self@, Err(Halt::Idle)));
                    return Err(Halt::Idle);
                },
                _ => {},
            }
        }
        assert(resumes(old(self)@, inputs, budget as nat, self@, Err(Halt::Stalled)));
        Err(Halt::Stalled)
    }

    /// Runs `main` as the root of a new tree, for up to `budget` steps.
    ///
    /// The root is seeded into the empty table as its own parent, with the
    /// slot of a result that nobody reads. Where the table already holds nodes
    /// nothing is seeded and `main` is dropped. A run that stalls can be taken
    /// up again with [`Executor::resume`].
    pub fn run(&mut self, main: T, budget: usize) -> (res: Result<(), Halt>)
        requires
            old(self).wf(),
        ensures
            final(self).wf(),
            final(self).channel() == old(self).channel(),
            old(self)@.table.len() != 0 ==> res == Err::<(), Halt>(Halt::Busy) && final(self)@
                == old(self)@ && final(self).rows() == old(self).rows(),
            old(self)@.table.len() == 0 ==> exists|inputs: Seq<Input>|
                {
                    &&& #[trigger] resumes(State::seeded(), inputs, budget as nat, final(self)@, res)
                    &&& all_witnessed(State::seeded(), old(self).channel().1, inputs)
                },
            res is Ok ==> old(self)@.table.len() == 0 && final(self)@ == State::idle(),
            res != Err::<(), Halt>(Halt::Idle),
    {
        if self.task_graph.len() != 0 {
            return Err(Halt::Busy);
        }
        self.branch(Signal::Branch { token: main, parent: 0, output: None });
        assert(self@.table =~= State::seeded().table);
        let res = self.resume(budget);
        proof {
            let inputs = choose|inputs: Seq<Input>|
                {
                    &&& #[trigger] resumes(State::seeded(), inputs, budget as nat, self@, res)
                    &&& all_witnessed(State::seeded(), self.channel().1, inputs)
                };
            seeded_run_keeps_its_root(inputs);
        }
        res
    }

    /// How many nodes are live.
    pub fn len(&self) -> (len: usize)
        ensures
            len == self@.table.len(),
            len == self.rows().len(),
    {
        self.task_graph.len()
    }

    /// The position that the sweep looks at next.
    pub fn cursor(&self) -> (cursor: usize)
        ensures
            cursor == self@.cursor,
    {
        self.cursor
    }

    /// The node at position `n`, if there is one.
    pub fn node(&self, n: usize) -> (found: Option<&TaskNode<T>>)
        ensures
            n < self.rows().len() ==> found == Some(&self.rows()[n as int].node),
            n >= self.rows().len() ==> found is None,
    {
        if n < self.task_graph.len() {
            Some(&self.task_graph[n].node)
        } else {
            None
        }
    }

    /// A new handle to the spawn channel, for a producer outside the table.
    pub fn sender(&self) -> (handle: SyncSender<Signal<T>>)
        ensures
            call_ensures(<SyncSender<Signal<T>> as Clone>::clone, (&self.channel().0,), handle),
    {
        self.self_sender.clone()
    }
}

} // verus!
