//! The errors of building a chain of cells in the matrix.

use vstd::prelude::*;
use crate::dsp::NodeId;

verus! {

/// An output or input that a node of a chain does not have.
#[derive(Debug, Clone)]
pub enum ChainError {
    UnknownOutput(NodeId, String),
    UnknownInput(NodeId, String),
}

} // verus!
