//! Databases and connections of DuckDB's C API.
use vstd::prelude::*;

verus! {

/// Whether a database handle is owned, and so closed with the `Database`,
/// or borrowed from DuckDB.
#[derive(Debug, Clone, Copy, PartialEq, Eq, Structural)]
pub enum Ownership {
    Owned(usize),
    Borrowed(usize),
}

impl Ownership {
    pub open spec fn addr(&self) -> usize {
        match self {
            Ownership::Owned(p) => *p,
            Ownership::Borrowed(p) => *p,
        }
    }

    /// The address of the database.
    pub fn ptr(&self) -> (p: usize)
        ensures
            p == self.addr(),
    {
        match self {
            Ownership::Owned(ptr) => *ptr,
            Ownership::Borrowed(ptr) => *ptr,
        }
    }
}

/// A DuckDB database.
pub struct Database(pub Ownership);

impl Database {
    /// A database that this value owns: the one opened at `ptr`.
    pub fn owned(ptr: usize) -> (d: Database)
        ensures
            d.0 == Ownership::Owned(ptr),
    {
        Database(Ownership::Owned(ptr))
    }

    /// A database that DuckDB lends, at `ptr`.
    pub fn from_ptr(ptr: usize) -> (d: Database)
        ensures
            d.0 == Ownership::Borrowed(ptr),
    {
        Database(Ownership::Borrowed(ptr))
    }

    /// The address of the database.
    pub fn ptr(&self) -> (p: usize)
        ensures
            p == self.0.addr(),
    {
        self.0.ptr()
    }

    /// Whether dropping this value must close the database: it owns one,
    /// at a non-null address.
    pub fn closes_on_drop(&self) -> (r: bool)
        ensures
            r == (self.0 is Owned && self.0.addr() != 0),
    {
        match self.0 {
            Ownership::Owned(ptr) => ptr != 0,
            Ownership::Borrowed(_) => false,
        }
    }
}

/// A connection to a DuckDB database.
pub struct Connection(usize);

impl Connection {
    pub closed spec fn addr(&self) -> usize {
        self.0
    }

    /// The connection at `ptr`.
    pub fn from_ptr(ptr: usize) -> (c: Connection)
        ensures
            c.addr() == ptr,
    {
        Connection(ptr)
    }

    /// The address of the connection.
    pub fn ptr(&self) -> (p: usize)
        ensures
            p == self.addr(),
    {
        self.0
    }

    /// Whether dropping this value must disconnect: its address is not null.
    pub fn disconnects_on_drop(&self) -> (r: bool)
        ensures
            r == (self.addr() != 0),
    {
        self.0 != 0
    }
}

} // verus!
