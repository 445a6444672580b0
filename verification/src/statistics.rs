//! The records that the experiments write.
use vstd::prelude::*;

use crate::helpers::MyVec;

verus! {

/// The non-optimal windows found on one trajectory, and how long the
/// search took.
pub struct NonOptSubPathsResult {
    pub non_opt_subpaths: MyVec<(u32, u32)>,
    pub runtime: usize,
}

/// The results of one experiment run, with what it ran on.
pub struct ExperimentResults<T> {
    pub graph_file: String,
    pub trajectory_file: String,
    pub metrics: Vec<String>,
    pub start_time: String,
    pub results: Vec<T>,
}

} // verus!
