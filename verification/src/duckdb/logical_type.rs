//! LogicalType: the handle of a logical type of DuckDB's C API.
use vstd::prelude::*;

verus! {

/// The handle of a logical type, held by its address.
pub struct LogicalType(usize);

impl LogicalType {
    /// The address that this handle holds.
    pub closed spec fn addr(&self) -> usize {
        self.0
    }

    /// The handle at address `ptr`.
    pub fn from_ptr(ptr: usize) -> (h: LogicalType)
        ensures
            h.addr() == ptr,
    {
        LogicalType(ptr)
    }

    /// The address of the handle.
    pub fn ptr(&self) -> (p: usize)
        ensures
            p == self.addr(),
    {
        self.0
    }
}

} // verus!
