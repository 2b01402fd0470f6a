//! A cooperative, single-threaded executor for a task tree that grows and
//! shrinks while it runs.
//!
//! A computation is a tree of nodes. While it runs, a node may ask for
//! children over a bounded channel, and it is resumed again only once all of
//! its children have completed. The executor sweeps over a dense table of live
//! nodes, admits the requested children at the end of each sweep, and ends the
//! run when the root completes.

pub mod channel;
pub mod executor;
pub mod program;
pub mod table;
pub mod theorems;

pub use channel::QUEUE_BOUND;
pub use executor::{Entry, Executor};
pub use program::{OptHint, Program, Signal, TaskNode};
pub use table::{Halt, Step};
