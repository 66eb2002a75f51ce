//! Reading Java Flight Recorder files as DuckDB tables: the schema of an
//! event type, the column types and values it maps to, and the decisions
//! of the table functions that scan and attach a recording.
pub mod type_pool;
pub mod jfr_schema;
pub mod duckdb;
pub mod text;
pub mod jfr_scan;
pub mod jfr_access;
pub mod reader;
pub mod jfr_attach;
