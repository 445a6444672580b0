//! Segmentation of road-network trajectories into pieces that are optimal
//! for a single linear preference over several edge cost metrics.
//!
//! The crate holds the combinatorial core: graph construction in
//! contraction-hierarchy order, route assembly, the search procedures that
//! split a trajectory into optimal segments, and the file formats.
use vstd::prelude::*;

pub mod graph;
pub mod graphml;
pub mod helpers;
pub mod names;
pub mod statistics;
pub mod text;
pub mod trajectories;

verus! {

/// Number of cost metrics carried by each edge.
pub const EDGE_COST_DIMENSION: usize = 4;

/// Errors that the experiment drivers report.
pub enum MyError {
    InvalidTrajectories,
    WrongArgumentNumber,
}

impl MyError {
    /// The human readable text of the error.
    pub fn message(&self) -> (text: String)
        ensures
            text@ == (match self {
                MyError::InvalidTrajectories => "Invalid Trajectories"@,
                MyError::WrongArgumentNumber => "Too few arguments"@,
            }),
    {
        match self {
            MyError::InvalidTrajectories => "Invalid Trajectories".to_owned(),
            MyError::WrongArgumentNumber => "Too few arguments".to_owned(),
        }
    }
}

} // verus!
