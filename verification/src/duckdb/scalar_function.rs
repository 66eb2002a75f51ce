//! ScalarFunction: the handle of a scalar function under construction of DuckDB's C API.
use vstd::prelude::*;

verus! {

/// The handle of a scalar function under construction, held by its address.
pub struct ScalarFunction(usize);

impl ScalarFunction {
    /// The address that this handle holds.
    pub closed spec fn addr(&self) -> usize {
        self.0
    }

    /// The handle at address `ptr`.
    pub fn from_ptr(ptr: usize) -> (h: ScalarFunction)
        ensures
            h.addr() == ptr,
    {
        ScalarFunction(ptr)
    }

    /// The address of the handle.
    pub fn ptr(&self) -> (p: usize)
        ensures
            p == self.addr(),
    {
        self.0
    }
}

} // verus!
