//! The data types shared by the cache and its collaborators: the outcome of a
//! single cache access, the instructions found in a trace, and a parsed trace
//! command.

use vstd::prelude::*;

verus! {

/// The outcome of one step of a cache access: a resident tag was found, a tag
/// was absent, or a resident tag had to be removed to make room.
#[derive(Clone, Copy, Debug, PartialEq, Eq, Structural)]
pub enum CacheResult {
    Hit,
    Miss,
    Eviction,
}

/// One operation of a memory trace. `Instruction` (an instruction fetch) is
/// recognized by the parser but never dispatched to the cache.
#[derive(Clone, Copy, Debug, PartialEq, Eq, Structural)]
pub enum CacheInstruction {
    Load,
    Store,
    Modify,
    Instruction,
}

/// A parsed trace line: an operation together with the address it touches.
#[derive(Clone, Copy, Debug)]
pub struct Cmd {
    pub inst: CacheInstruction,
    pub address: u64,
}

} // verus!
