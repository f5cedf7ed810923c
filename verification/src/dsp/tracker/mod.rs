//! Pattern columns of the tracker.
use vstd::prelude::*;

verus! {

/// The kind of data a pattern column holds.
#[derive(Debug, Clone, Copy, PartialEq, Eq, Structural, PartialOrd, Ord)]
pub enum PatternColType {
    Note,
    Step,
    Value,
    Gate,
}

} // verus!
