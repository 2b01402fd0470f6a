//! What the executor schedules: programs, the nodes they run on, and the
//! signals that ask for new nodes.

use crate::table::Link;
use std::sync::mpsc::SyncSender;
use vstd::prelude::*;

verus! {

/// Scheduling hints of one node.
#[derive(Clone, Copy, Debug, PartialEq, Eq, Structural)]
pub struct OptHint {
    /// Whether the node's output must always be brought into a form that can
    /// be sent to another machine.
    pub always_serialize: bool,
}

/// A message to the executor.
pub enum Signal<T: Program> {
    /// Asks for a new node that runs `token` as a child of the node at
    /// `parent` and writes its result to `output`. `None` is the slot of a
    /// result that nobody reads.
    Branch { token: T, parent: usize, output: Option<T::Output> },
}

/// One schedulable unit, as its computation sees it.
#[verifier::reject_recursive_types(T)]
pub struct TaskNode<T: Program> {
    /// Where the node writes its result. The storage belongs to whoever asked
    /// for the node.
    pub output: Option<T::Output>,
    /// Position of the node that asked for this one.
    pub parent: usize,
    /// Position at which this node was admitted.
    pub this_node: usize,
    /// Children of this node that have not completed yet.
    pub children: usize,
    /// A handle to the spawn channel, with which the computation asks for
    /// children of its own.
    pub sender: SyncSender<Signal<T>>,
    /// Hints for whoever carries the node's result elsewhere.
    pub opt_hint: OptHint,
}

impl<T: Program> View for TaskNode<T> {
    type V = Link;

    open spec fn view(&self) -> Link {
        Link {
            parent: self.parent as nat,
            this_node: self.this_node as nat,
            children: self.children as nat,
        }
    }
}

/// A computation descriptor: what a node is to run.
///
/// The executor never resumes a computation whose node has outstanding
/// children: both methods are only ever called on a node whose counter is
/// zero.
pub trait Program: Sized {
    /// The resumable computation that a descriptor turns into.
    type Future;

    /// The location that a computation writes its result to.
    type Output;

    /// Begins the computation on its freshly admitted node. The descriptor is
    /// used up.
    fn future(self, node: &TaskNode<Self>) -> (begun: Self::Future)
        requires
            node.children == 0,
    ;

    /// Resumes the computation once and says whether it has completed.
    fn poll(future: &mut Self::Future, node: &TaskNode<Self>) -> (ready: bool)
        requires
            node.children == 0,
    ;
}

} // verus!
