//! What holds of the table model whatever the nodes and the producers do.

use crate::table::{
    admitted, admitted_all, can_evict, evicted, fresh_link, lemma_total_push, lemma_total_remove,
    lemma_total_update, raised, ran, settled, stepped, total_children, verdict, wrapped, Halt,
    Input, Link, State, Step,
};
use vstd::prelude::*;

verus! {

/// An admission appends one node without children, raises the counter of the
/// named parent by exactly one if the parent is in the table, and leaves
/// every other node as it was.
pub proof fn admission_raises_one_counter(table: Seq<Link>, parent: nat)
    ensures
        admitted(table, parent).len() == table.len() + 1,
        admitted(table, parent).last() == fresh_link(table.len(), parent),
        forall|i: int|
            0 <= i < table.len() ==> #[trigger] admitted(table, parent)[i] == (if i == parent {
                table[i].with_children(table[i].children + 1)
            } else {
                table[i]
            }),
        total_children(admitted(table, parent)) == total_children(table) + (if parent
            < table.len() {
            1nat
        } else {
            0nat
        }),
{
    let bumped = raised(table, parent);
    if parent < table.len() {
        lemma_total_update(table, parent as int, bumped[parent as int]);
    }
    lemma_total_push(bumped, fresh_link(table.len(), parent));
}

/// An eviction removes one node, lowers the counter at the position that the
/// node names as its parent by exactly one, and leaves every other node as it
/// was, one position up where it stood behind the evicted node.
pub proof fn eviction_lowers_one_counter(table: Seq<Link>, n: nat)
    requires
        can_evict(table, n),
    ensures
        evicted(table, n).len() == table.len() - 1,
        forall|i: int|
            0 <= i < table.len() - 1 ==> #[trigger] evicted(table, n)[i] == ({
                let was = table[if i < n {
                    i
                } else {
                    i + 1
                }];
                if i == table[n as int].parent {
                    was.with_children((was.children - 1) as nat)
                } else {
                    was
                }
            }),
        total_children(evicted(table, n)) + table[n as int].children + 1 == total_children(table),
{
    let rest = table.remove(n as int);
    let parent = table[n as int].parent as int;
    lemma_total_remove(table, n as int);
    lemma_total_update(rest, parent, evicted(table, n)[parent]);
}

/// A child that is admitted and then evicted leaves the table as it was
/// before the child came: its parent's counter goes up once and down once.
pub proof fn child_admitted_then_evicted(table: Seq<Link>, parent: nat)
    requires
        parent < table.len(),
    ensures
        can_evict(admitted(table, parent), table.len()),
        evicted(admitted(table, parent), table.len()) == table,
{
}

/// Every request that is admitted adds exactly one node, in the order of
/// admission: none is lost and none is admitted twice. The nodes that were
/// there keep their places and what they name.
pub proof fn admissions_add_one_node_each(table: Seq<Link>, parents: Seq<nat>)
    ensures
        admitted_all(table, parents).len() == table.len() + parents.len(),
        forall|k: int|
            0 <= k < parents.len() ==> {
                let node = #[trigger] admitted_all(table, parents)[table.len() + k];
                node.parent == parents[k] && node.this_node == table.len() + k
            },
        forall|i: int|
            0 <= i < table.len() ==> {
                let node = #[trigger] admitted_all(table, parents)[i];
                node.parent == table[i].parent && node.this_node == table[i].this_node
            },
    decreases parents.len(),
{
    if parents.len() > 0 {
        let earlier = parents.drop_last();
        admissions_add_one_node_each(table, earlier);
        let after = admitted_all(table, parents);
        assert forall|k: int| 0 <= k < parents.len() implies {
            let node = #[trigger] after[table.len() + k];
            node.parent == parents[k] && node.this_node == table.len() + k
        } by {}
        assert forall|i: int| 0 <= i < table.len() implies {
            let node = #[trigger] after[i];
            node.parent == table[i].parent && node.this_node == table[i].this_node
        } by {}
    }
}

/// Admissions keep the counters together within the number of live nodes.
pub proof fn admissions_keep_sound(table: Seq<Link>, parents: Seq<nat>)
    requires
        total_children(table) <= table.len(),
    ensures
        total_children(admitted_all(table, parents)) <= admitted_all(table, parents).len(),
    decreases parents.len(),
{
    if parents.len() > 0 {
        admissions_keep_sound(table, parents.drop_last());
        admission_raises_one_counter(admitted_all(table, parents.drop_last()), parents.last());
    }
}

/// Every step takes a sound state to a sound state.
pub proof fn step_keeps_sound(s: State, input: Input)
    requires
        s.sound(),
    ensures
        stepped(s, input).0.sound(),
{
    let w = wrapped(s, input.parents);
    if s.cursor >= s.table.len() {
        admissions_keep_sound(s.table, input.parents);
    }
    if stepped(s, input).1 is Evicted {
        eviction_lowers_one_counter(w.table, w.cursor);
    }
}

/// Every run takes a sound state to a sound state.
pub proof fn run_keeps_sound(s: State, inputs: Seq<Input>)
    requires
        s.sound(),
    ensures
        ran(s, inputs).0.sound(),
    decreases inputs.len(),
{
    if inputs.len() > 0 {
        run_keeps_sound(s, inputs.drop_last());
        step_keeps_sound(ran(s, inputs.drop_last()).0, inputs.last());
    }
}

/// A node with outstanding children is passed over: the decision does not
/// depend on any answer, the table stays as it is, and the cursor moves on.
pub proof fn blocked_node_is_passed_over(s: State, ready: bool)
    requires
        s.cursor < s.table.len(),
        s.table[s.cursor as int].blocked(),
    ensures
        settled(s, ready) == (State { table: s.table, cursor: s.cursor + 1 }, Step::Blocked),
{
}

/// A step ends the run exactly when the node at the cursor is the root, has
/// no outstanding children, and reports completion. The table is then empty.
pub proof fn finishes_exactly_on_root_completion(s: State, input: Input)
    ensures
        stepped(s, input).1 is Finished <==> ({
            let w = wrapped(s, input.parents);
            &&& w.cursor < w.table.len()
            &&& !w.table[w.cursor as int].blocked()
            &&& w.table[w.cursor as int].is_root()
            &&& input.ready
        }),
        stepped(s, input).1 is Finished ==> stepped(s, input).0 == State::idle(),
{
}

/// A run reports success exactly when its last step saw the root complete.
pub proof fn success_exactly_when_finished(last: Option<Step>)
    ensures
        verdict(last) is Ok <==> last == Some(Step::Finished),
        verdict(last) != Err::<(), Halt>(Halt::Busy),
{
}

/// As long as no resumed node reports completion, no run succeeds and no node
/// leaves the table, however many steps are taken.
pub proof fn no_completion_no_success(s: State, inputs: Seq<Input>)
    requires
        forall|k: int| 0 <= k < inputs.len() ==> !(#[trigger] inputs[k]).ready,
    ensures
        !(verdict(ran(s, inputs).1) is Ok),
        ran(s, inputs).0.table.len() >= s.table.len(),
    decreases inputs.len(),
{
    if inputs.len() > 0 {
        let earlier = inputs.drop_last();
        assert forall|k: int| 0 <= k < earlier.len() implies !(#[trigger] earlier[k]).ready by {}
        no_completion_no_success(s, earlier);
        let before = ran(s, earlier);
        if !halted(before.1) && before.0.cursor >= before.0.table.len() {
            admissions_add_one_node_each(before.0.table, inputs.last().parents);
        }
    }
}

spec fn halted(last: Option<Step>) -> bool {
    match last {
        Some(step) => step.halts(),
        None => false,
    }
}

/// Once the root stands first in the table it stays there until the run is
/// over: no step removes or moves the node at position zero.
pub proof fn root_stays_first(s: State, input: Input)
    requires
        s.table.len() > 0,
        s.table[0].is_root(),
        s.table[0].this_node == 0,
    ensures
        stepped(s, input).1 is Finished || ({
            let next = stepped(s, input).0;
            &&& next.table.len() > 0
            &&& next.table[0].is_root()
            &&& next.table[0].this_node == 0
        }),
{
    if s.cursor >= s.table.len() {
        admissions_add_one_node_each(s.table, input.parents);
    }
}

/// A run that starts from the freshly seeded root never finds the table
/// empty: until it is over, the root stands first in the table.
pub proof fn seeded_run_keeps_its_root(inputs: Seq<Input>)
    ensures
        ran(State::seeded(), inputs).1 != Some(Step::Idle),
        ran(State::seeded(), inputs).1 == Some(Step::Finished) || ({
            let end = ran(State::seeded(), inputs).0;
            &&& end.table.len() > 0
            &&& end.table[0].is_root()
            &&& end.table[0].this_node == 0
        }),
    decreases inputs.len(),
{
    if inputs.len() > 0 {
        seeded_run_keeps_its_root(inputs.drop_last());
        let before = ran(State::seeded(), inputs.drop_last());
        if !halted(before.1) {
            root_stays_first(before.0, inputs.last());
            if before.0.cursor >= before.0.table.len() {
                admissions_add_one_node_each(before.0.table, inputs.last().parents);
            }
        }
    }
}

/// Whether the node `link` counts as a child of position `p`: it names `p`
/// as its parent and is not a root.
pub open spec fn names(link: Link, p: nat) -> bool {
    link.parent == p && !link.is_root()
}

/// How many nodes of the table count as children of position `p`.
pub open spec fn children_of(table: Seq<Link>, p: nat) -> nat
    decreases table.len(),
{
    if table.len() == 0 {
        0
    } else {
        children_of(table.drop_last(), p) + (if names(table.last(), p) {
            1nat
        } else {
            0nat
        })
    }
}

/// Every counter says how many live nodes count as children of its position,
/// and every node but a root names a position of the table.
pub open spec fn counted(table: Seq<Link>) -> bool {
    &&& forall|p: int|
        0 <= p < table.len() ==> (#[trigger] table[p]).children == children_of(table, p as nat)
    &&& forall|j: int|
        0 <= j < table.len() && !(#[trigger] table[j]).is_root() ==> table[j].parent < table.len()
}

/// The same nodes with other counters: `other` names the same parents from
/// the same positions as `table`.
spec fn same_names(table: Seq<Link>, other: Seq<Link>) -> bool {
    &&& other.len() == table.len()
    &&& forall|j: int|
        0 <= j < table.len() ==> (#[trigger] other[j]).parent == table[j].parent
            && other[j].this_node == table[j].this_node
}

proof fn lemma_children_of_ignores_counters(table: Seq<Link>, other: Seq<Link>, p: nat)
    requires
        same_names(table, other),
    ensures
        children_of(other, p) == children_of(table, p),
    decreases table.len(),
{
    if table.len() > 0 {
        assert(same_names(table.drop_last(), other.drop_last())) by {
            assert forall|j: int| 0 <= j < table.len() - 1 implies (#[trigger] other.drop_last()[
                j
            ]).parent == table.drop_last()[j].parent && other.drop_last()[j].this_node
                == table.drop_last()[j].this_node by {}
        }
        lemma_children_of_ignores_counters(table.drop_last(), other.drop_last(), p);
    }
}

proof fn lemma_children_of_remove(table: Seq<Link>, n: int, p: nat)
    requires
        0 <= n < table.len(),
    ensures
        children_of(table.remove(n), p) + (if names(table[n], p) {
            1nat
        } else {
            0nat
        }) == children_of(table, p),
    decreases table.len(),
{
    if n < table.len() - 1 {
        assert(table.remove(n).drop_last() =~= table.drop_last().remove(n));
        lemma_children_of_remove(table.drop_last(), n, p);
    }
}

proof fn lemma_children_of_none(table: Seq<Link>, p: nat)
    requires
        forall|j: int| 0 <= j < table.len() ==> !names(#[trigger] table[j], p),
    ensures
        children_of(table, p) == 0,
    decreases table.len(),
{
    if table.len() > 0 {
        assert forall|j: int| 0 <= j < table.len() - 1 implies !names(
            #[trigger] table.drop_last()[j],
            p,
        ) by {}
        lemma_children_of_none(table.drop_last(), p);
    }
}

proof fn lemma_children_of_some(table: Seq<Link>, j: int, p: nat)
    requires
        0 <= j < table.len(),
        names(table[j], p),
    ensures
        children_of(table, p) > 0,
    decreases table.len(),
{
    if j < table.len() - 1 {
        lemma_children_of_some(table.drop_last(), j, p);
    }
}

/// In a counted table a node may be resumed exactly when no live node counts
/// as its child.
pub proof fn unblocked_exactly_without_children(table: Seq<Link>, p: nat)
    requires
        counted(table),
        p < table.len(),
    ensures
        !table[p as int].blocked() <==> (forall|j: int|
            0 <= j < table.len() ==> !names(#[trigger] table[j], p)),
{
    if forall|j: int| 0 <= j < table.len() ==> !names(#[trigger] table[j], p) {
        lemma_children_of_none(table, p);
    } else {
        let j = choose|j: int| 0 <= j < table.len() && names(#[trigger] table[j], p);
        lemma_children_of_some(table, j, p);
    }
}

/// Admission keeps a table counted, where the request names a node of the
/// table, or the position that the new node itself takes (which makes the new
/// node a root).
pub proof fn admission_keeps_counted(table: Seq<Link>, parent: nat)
    requires
        counted(table),
        parent <= table.len(),
    ensures
        counted(admitted(table, parent)),
{
    let bumped = raised(table, parent);
    let grown = admitted(table, parent);
    assert(grown.drop_last() =~= bumped);
    assert forall|p: int| 0 <= p < grown.len() implies (#[trigger] grown[p]).children
        == children_of(grown, p as nat) by {
        lemma_children_of_ignores_counters(table, bumped, p as nat);
        if p == table.len() {
            // No node of a counted table names a position past its end.
            lemma_children_of_none(table, p as nat);
        }
    }
}

/// Eviction keeps a table counted, where the node at `n` has no outstanding
/// children and no node but a root names a position at or behind `n`. In such
/// a table the eviction is always possible, and the counter that it lowers is
/// that of the evicted node's parent.
pub proof fn eviction_keeps_counted(table: Seq<Link>, n: nat)
    requires
        counted(table),
        n < table.len(),
        !table[n as int].is_root(),
        !table[n as int].blocked(),
        forall|j: int|
            0 <= j < table.len() && !(#[trigger] table[j]).is_root() ==> table[j].parent < n,
    ensures
        can_evict(table, n),
        counted(evicted(table, n)),
{
    let parent = table[n as int].parent;
    let rest = table.remove(n as int);
    let after = evicted(table, n);
    lemma_children_of_some(table, n as int, parent);
    assert forall|p: int| 0 <= p < after.len() implies (#[trigger] after[p]).children
        == children_of(after, p as nat) by {
        lemma_children_of_ignores_counters(rest, after, p as nat);
        lemma_children_of_remove(table, n as int, p as nat);
        if p >= n {
            // No node names a position at or behind the evicted one.
            lemma_children_of_none(table, p as nat);
            lemma_children_of_none(table, (p + 1) as nat);
        }
    }
}

} // verus!
