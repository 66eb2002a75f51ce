//! Value: the handle of a value of DuckDB's C API.
use vstd::prelude::*;

verus! {

/// The handle of a value, held by its address.
pub struct Value(usize);

impl Value {
    /// The address that this handle holds.
    pub closed spec fn addr(&self) -> usize {
        self.0
    }

    /// The handle at address `ptr`.
    pub fn from_ptr(ptr: usize) -> (h: Value)
        ensures
            h.addr() == ptr,
    {
        Value(ptr)
    }

    /// The address of the handle.
    pub fn ptr(&self) -> (p: usize)
        ensures
            p == self.addr(),
    {
        self.0
    }
}

} // verus!
