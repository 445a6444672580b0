//! What the searches over the graph share.
use vstd::prelude::*;

verus! {

/// The direction in which a search follows the edges.
#[allow(non_camel_case_types)]
#[derive(PartialEq, Eq, Structural, Copy, Clone, Debug)]
pub enum Direction {
    FORWARD,
    BACKWARD,
}

} // verus!
