//! DataChunk: the handle of a chunk of column vectors of DuckDB's C API.
use vstd::prelude::*;

verus! {

/// The handle of a chunk of column vectors, held by its address.
pub struct DataChunk(usize);

impl DataChunk {
    /// The address that this handle holds.
    pub closed spec fn addr(&self) -> usize {
        self.0
    }

    /// The handle at address `ptr`.
    pub fn from_ptr(ptr: usize) -> (h: DataChunk)
        ensures
            h.addr() == ptr,
    {
        DataChunk(ptr)
    }

    /// The address of the handle.
    pub fn ptr(&self) -> (p: usize)
        ensures
            p == self.addr(),
    {
        self.0
    }
}

} // verus!
