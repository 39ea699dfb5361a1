//! Per-directory file size statistics: grouping keys, running accumulators,
//! glob filtering and sorted reports.
use vstd::prelude::*;

pub mod entry;
pub mod glob;
pub mod key;
pub mod order;
pub mod processor;

pub use entry::ChildSizeEntry;
pub use glob::{FilterError, GlobFilter};
pub use order::SortMode;
pub use processor::{Opts, Processor, Report};

verus! {

} // verus!
