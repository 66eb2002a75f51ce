//! Identifiers of DuckDB's logical types.
use vstd::prelude::*;

verus! {

/// A DuckDB logical type, as the C API names it.
#[derive(Debug, Clone, Copy, PartialEq, Eq, Structural)]
pub enum LogicalTypeId {
    Boolean,
    Tinyint,
    Smallint,
    Integer,
    Bigint,
    Utinyint,
    Usmallint,
    Uinteger,
    Ubigint,
    Float,
    Double,
    Timestamp,
    Date,
    Time,
    Interval,
    Hugeint,
    Varchar,
    Blob,
    Decimal,
    TimestampS,
    TimestampMs,
    TimestampNs,
    Enum,
    List,
    Struct,
    MapType,
    Uuid,
    Union,
}

} // verus!
