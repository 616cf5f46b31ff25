//! The static module image: a point-in-time capture of a module's linear
//! memories and global values, produced by the module-loading collaborator.
//! It seeds the flow-sensitive state at function entry and serves as
//! ground truth for constant folding of loads.

use crate::assoc::AssocMap;
use crate::ir::GlobalId;
use crate::lattice::WasmVal;
use vstd::prelude::*;

verus! {

/// The initial contents of one linear memory.
#[derive(Clone, Debug, PartialEq, Eq)]
pub struct MemImage {
    pub image: Vec<u8>,
    pub len: usize,
}

/// The static image of a module: per-memory initial bytes (indexed by
/// memory id, `None` where no static image could be built), the globals
/// whose initial value is a known constant, and the conventional stack
/// pointer and main heap, if identified.
#[derive(Clone, Debug, PartialEq, Eq)]
pub struct Image {
    pub memories: Vec<Option<MemImage>>,
    pub globals: AssocMap<GlobalId, WasmVal>,
    pub stack_pointer: Option<GlobalId>,
    pub main_heap: Option<usize>,
}

impl Image {
    /// Well-formed: the globals table has distinct keys, and each memory
    /// image length matches its byte vector.
    pub open spec fn wf(&self) -> bool {
        &&& self.globals.wf()
        &&& forall|i: int|
            0 <= i < self.memories@.len() ==> match #[trigger] self.memories@[i] {
                Some(m) => m.image@.len() == m.len,
                None => true,
            }
    }
}

} // verus!
