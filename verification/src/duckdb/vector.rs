//! Vector: the handle of a column vector of DuckDB's C API.
use vstd::prelude::*;

verus! {

/// The handle of a column vector, held by its address.
pub struct Vector(usize);

impl Vector {
    /// The address that this handle holds.
    pub closed spec fn addr(&self) -> usize {
        self.0
    }

    /// The handle at address `ptr`.
    pub fn from_ptr(ptr: usize) -> (h: Vector)
        ensures
            h.addr() == ptr,
    {
        Vector(ptr)
    }

    /// The address of the handle.
    pub fn ptr(&self) -> (p: usize)
        ensures
            p == self.addr(),
    {
        self.0
    }
}

} // verus!
