//! One line of the log: the moment a task ended, and the task.

use crate::time::Stamp;
use vstd::prelude::*;

verus! {

/// As of `stop`, the task described by `task` has just ended.
#[derive(Clone, Debug, PartialEq, Eq)]
pub struct Entry {
    pub stop: Stamp,
    pub task: String,
}

impl View for Entry {
    type V = (Stamp, Seq<char>);

    open spec fn view(&self) -> (Stamp, Seq<char>) {
        (self.stop, self.task@)
    }
}

/// The entries' values, in order.
pub open spec fn entries_view(s: Seq<Entry>) -> Seq<(Stamp, Seq<char>)> {
    s.map_values(|e: Entry| e@)
}

} // verus!
