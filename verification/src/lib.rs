//! Verified core of a DSP graph and block-code editor library.
//!
//! The crate holds the hexagonal cell geometry, the block language editor
//! (areas, blocks, chains, language definitions and the AST generator),
//! the block-to-JIT compiler front end, the integer random number
//! generators and trigger counters of the DSP helpers.
use vstd::prelude::*;

pub mod block_compiler;
pub mod blocklang;
pub mod chain_builder;
pub mod cell_dir;
pub mod dsp;
pub mod json;
pub mod log;
pub mod text;

pub use cell_dir::CellDir;

verus! {

/// Always `true`: a probe that the library is linked.
pub fn test() -> (r: bool)
    ensures
        r,
{
    true
}

} // verus!
