//! FunctionInfo: the handle of a call of a table function's scan of DuckDB's C API.
use vstd::prelude::*;

verus! {

/// The handle of a call of a table function's scan, held by its address.
pub struct FunctionInfo(usize);

impl FunctionInfo {
    /// The address that this handle holds.
    pub closed spec fn addr(&self) -> usize {
        self.0
    }

    /// The handle at address `ptr`.
    pub fn from_ptr(ptr: usize) -> (h: FunctionInfo)
        ensures
            h.addr() == ptr,
    {
        FunctionInfo(ptr)
    }

    /// The address of the handle.
    pub fn ptr(&self) -> (p: usize)
        ensures
            p == self.addr(),
    {
        self.0
    }
}

} // verus!
