//! The mathematical model of the task node table: what admission and eviction
//! do to the dependency counters, and what one scheduling decision is.
//!
//! Nodes are known by their position in the table, and every position is
//! taken as it was written down. A node keeps the position that it named as
//! its parent when it was admitted, also after an eviction has moved nodes
//! up; the model says what happens then, and the theorems say when the
//! counters still count.

use crate::channel::QUEUE_BOUND;
use vstd::prelude::*;

verus! {

/// The bookkeeping of one node, as the contracts see it.
pub struct Link {
    /// Position of the node that asked for this one.
    pub parent: nat,
    /// Position at which this node was admitted.
    pub this_node: nat,
    /// Children of this node that have not completed yet.
    pub children: nat,
}

impl Link {
    /// A node is the root where the position it was admitted at is the
    /// position it names as its parent.
    pub open spec fn is_root(self) -> bool {
        self.this_node == self.parent
    }

    /// A node with outstanding children may not be resumed.
    pub open spec fn blocked(self) -> bool {
        self.children != 0
    }

    /// The same node with another counter.
    pub open spec fn with_children(self, children: nat) -> Link {
        Link { parent: self.parent, this_node: self.this_node, children }
    }
}

/// The node that an admission appends to a table of `len` nodes.
pub open spec fn fresh_link(len: nat, parent: nat) -> Link {
    Link { parent, this_node: len, children: 0 }
}

/// The table with the counter at `at` raised by one, if there is such a
/// position.
pub open spec fn raised(table: Seq<Link>, at: nat) -> Seq<Link> {
    if at < table.len() {
        table.update(at as int, table[at as int].with_children(table[at as int].children + 1))
    } else {
        table
    }
}

/// The table after a spawn request naming `parent` has been admitted: the
/// parent's counter is raised if the parent is in the table, and the new node
/// is appended with no children of its own.
pub open spec fn admitted(table: Seq<Link>, parent: nat) -> Seq<Link> {
    raised(table, parent).push(fresh_link(table.len(), parent))
}

/// The table after the requests naming `parents` have been admitted in order.
pub open spec fn admitted_all(table: Seq<Link>, parents: Seq<nat>) -> Seq<Link>
    decreases parents.len(),
{
    if parents.len() == 0 {
        table
    } else {
        admitted(admitted_all(table, parents.drop_last()), parents.last())
    }
}

/// Whether the completed node at `n` can leave the table: it is not the root,
/// and in the table without it, the position that it names as its parent
/// holds a node whose counter is not zero.
pub open spec fn can_evict(table: Seq<Link>, n: nat) -> bool {
    &&& n < table.len()
    &&& !table[n as int].is_root()
    &&& table[n as int].parent + 1 < table.len()
    &&& table.remove(n as int)[table[n as int].parent as int].children > 0
}

/// The table after the node at `n` has left: the nodes behind it move up by
/// one position, and then the counter at the position that the node named as
/// its parent is lowered by one.
pub open spec fn evicted(table: Seq<Link>, n: nat) -> Seq<Link> {
    let parent = table[n as int].parent as int;
    let rest = table.remove(n as int);
    rest.update(parent, rest[parent].with_children((rest[parent].children - 1) as nat))
}

/// The sum of all counters of a table.
pub open spec fn total_children(table: Seq<Link>) -> nat
    decreases table.len(),
{
    if table.len() == 0 {
        0
    } else {
        total_children(table.drop_last()) + table.last().children
    }
}

/// What the scheduler keeps between two decisions.
pub struct State {
    /// The live nodes, by position.
    pub table: Seq<Link>,
    /// The position that the sweep looks at next.
    pub cursor: nat,
}

impl State {
    /// The cursor is within the table or just past its end, and the counters
    /// together do not exceed the number of live nodes.
    pub open spec fn sound(self) -> bool {
        &&& self.cursor <= self.table.len()
        &&& total_children(self.table) <= self.table.len()
    }

    /// The state of an executor that holds nothing.
    pub open spec fn idle() -> State {
        State { table: Seq::empty(), cursor: 0 }
    }

    /// The state right after the root has been seeded into an empty table.
    pub open spec fn seeded() -> State {
        State { table: admitted(Seq::empty(), 0), cursor: 0 }
    }
}

/// Why a run stopped without the root having completed.
#[derive(Clone, Copy, Debug, PartialEq, Eq, Structural)]
pub enum Halt {
    /// The table already held nodes, so no root was seeded.
    Busy,
    /// The table is empty: there is nothing to resume.
    Idle,
    /// The step budget was used up first.
    Stalled,
    /// A completed node names no parent whose counter could be lowered: the
    /// table is corrupt, and scheduling must not go on.
    Orphan,
}

/// How one scheduling decision ended.
#[derive(Clone, Copy, Debug, PartialEq, Eq, Structural)]
pub enum Step {
    /// The table is empty: there was nothing to look at.
    Idle,
    /// The node has outstanding children and was passed over without being
    /// resumed.
    Blocked,
    /// The node was resumed and has not completed.
    Pending,
    /// The node completed and left the table; the cursor is at its parent.
    Evicted,
    /// The root completed: the table was cleared and the run is over.
    Finished,
    /// The node completed but names no parent whose counter could be lowered.
    /// The table is corrupt and was left as it was.
    Orphaned,
}

impl Step {
    /// Whether scheduling stops after this decision.
    pub open spec fn halts(self) -> bool {
        self is Idle || self is Finished || self is Orphaned
    }
}

/// The decision at the cursor, given whether the node there reported
/// completion: `ready` is looked at only for a node without outstanding
/// children.
pub open spec fn settled(s: State, ready: bool) -> (State, Step) {
    if s.cursor >= s.table.len() {
        (s, Step::Idle)
    } else if s.table[s.cursor as int].blocked() {
        (State { table: s.table, cursor: s.cursor + 1 }, Step::Blocked)
    } else if !ready {
        (State { table: s.table, cursor: s.cursor + 1 }, Step::Pending)
    } else if s.table[s.cursor as int].is_root() {
        (State::idle(), Step::Finished)
    } else if can_evict(s.table, s.cursor) {
        (
            State { table: evicted(s.table, s.cursor), cursor: s.table[s.cursor as int].parent },
            Step::Evicted,
        )
    } else {
        (s, Step::Orphaned)
    }
}

/// What the outside answered during one step: the parents named by the spawn
/// requests that were pending at a sweep boundary, and whether the resumed
/// node reported completion.
pub struct Input {
    pub parents: Seq<nat>,
    pub ready: bool,
}

/// The state at the start of a step's decision: when the cursor has reached
/// the end of the table, it goes back to the start and the pending requests
/// are admitted. Inside a sweep nothing is admitted.
pub open spec fn wrapped(s: State, parents: Seq<nat>) -> State {
    if s.cursor >= s.table.len() {
        State { table: admitted_all(s.table, parents), cursor: 0 }
    } else {
        s
    }
}

/// One step of the scheduler: the sweep boundary, if the cursor is at one,
/// then the decision at the cursor.
pub open spec fn stepped(s: State, input: Input) -> (State, Step) {
    settled(wrapped(s, input.parents), input.ready)
}

/// The steps taken on the given inputs, one after the other, until one of them
/// halts: the state reached, and how the last step that was taken ended
/// (`None` where no step was taken).
pub open spec fn ran(s: State, inputs: Seq<Input>) -> (State, Option<Step>)
    decreases inputs.len(),
{
    if inputs.len() == 0 {
        (s, None)
    } else {
        let before = ran(s, inputs.drop_last());
        match before.1 {
            Some(last) if last.halts() => before,
            _ => {
                let next = stepped(before.0, inputs.last());
                (next.0, Some(next.1))
            },
        }
    }
}

/// Whether every sweep boundary among the inputs admits no more requests than
/// the channel holds.
pub open spec fn admissible(inputs: Seq<Input>) -> bool {
    forall|k: int| 0 <= k < inputs.len() ==> (#[trigger] inputs[k]).parents.len() <= QUEUE_BOUND
}

/// What a run reports, given how its last step ended.
pub open spec fn verdict(last: Option<Step>) -> Result<(), Halt> {
    match last {
        Some(Step::Finished) => Ok(()),
        Some(Step::Orphaned) => Err(Halt::Orphan),
        Some(Step::Idle) => Err(Halt::Idle),
        _ => Err(Halt::Stalled),
    }
}

/// Whether at most `budget` steps on `inputs` take the scheduler from
/// `before` to `after` and make the run report `res`. The budget counts as
/// used up only when every one of its steps was taken.
pub open spec fn resumes(
    before: State,
    inputs: Seq<Input>,
    budget: nat,
    after: State,
    res: Result<(), Halt>,
) -> bool {
    &&& inputs.len() <= budget
    &&& admissible(inputs)
    &&& ran(before, inputs).0 == after
    &&& verdict(ran(before, inputs).1) == res
    &&& (res == Err::<(), Halt>(Halt::Stalled) ==> inputs.len() == budget)
}

/// Appending a node adds its counter to the sum.
pub proof fn lemma_total_push(table: Seq<Link>, link: Link)
    ensures
        total_children(table.push(link)) == total_children(table) + link.children,
{
    assert(table.push(link).drop_last() =~= table);
}

/// Replacing a node changes the sum by the difference of the two counters.
pub proof fn lemma_total_update(table: Seq<Link>, at: int, link: Link)
    requires
        0 <= at < table.len(),
    ensures
        total_children(table.update(at, link)) + table[at].children == total_children(table)
            + link.children,
    decreases table.len(),
{
    let after = table.update(at, link);
    if at == table.len() - 1 {
        assert(after.drop_last() =~= table.drop_last());
    } else {
        assert(after.drop_last() =~= table.drop_last().update(at, link));
        lemma_total_update(table.drop_last(), at, link);
    }
}

/// Removing a node takes its counter from the sum.
pub proof fn lemma_total_remove(table: Seq<Link>, at: int)
    requires
        0 <= at < table.len(),
    ensures
        total_children(table.remove(at)) + table[at].children == total_children(table),
    decreases table.len(),
{
    if at < table.len() - 1 {
        assert(table.remove(at).drop_last() =~= table.drop_last().remove(at));
        lemma_total_remove(table.drop_last(), at);
    }
}

/// No counter exceeds the sum of all.
pub proof fn lemma_counter_within_total(table: Seq<Link>, at: int)
    requires
        0 <= at < table.len(),
    ensures
        table[at].children <= total_children(table),
    decreases table.len(),
{
    if at < table.len() - 1 {
        lemma_counter_within_total(table.drop_last(), at);
    }
}

} // verus!
