//! UnifiedVector: the handle of a vector in unified format of DuckDB's C API.
use vstd::prelude::*;

verus! {

/// The handle of a vector in unified format, held by its address.
pub struct UnifiedVector(usize);

impl UnifiedVector {
    /// The address that this handle holds.
    pub closed spec fn addr(&self) -> usize {
        self.0
    }

    /// The handle at address `ptr`.
    pub fn from_ptr(ptr: usize) -> (h: UnifiedVector)
        ensures
            h.addr() == ptr,
    {
        UnifiedVector(ptr)
    }

    /// The address of the handle.
    pub fn ptr(&self) -> (p: usize)
        ensures
            p == self.addr(),
    {
        self.0
    }
}

} // verus!
