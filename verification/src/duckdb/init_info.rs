//! InitInfo: the handle of the init call of a table function of DuckDB's C API.
use vstd::prelude::*;

verus! {

/// The handle of the init call of a table function, held by its address.
pub struct InitInfo(usize);

impl InitInfo {
    /// The address that this handle holds.
    pub closed spec fn addr(&self) -> usize {
        self.0
    }

    /// The handle at address `ptr`.
    pub fn from_ptr(ptr: usize) -> (h: InitInfo)
        ensures
            h.addr() == ptr,
    {
        InitInfo(ptr)
    }

    /// The address of the handle.
    pub fn ptr(&self) -> (p: usize)
        ensures
            p == self.addr(),
    {
        self.0
    }
}

} // verus!
