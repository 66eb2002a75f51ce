//! The DuckDB side: handles to the objects of its C API, held by their
//! addresses, the logical types that columns take, and the bookkeeping of
//! databases and files.
pub mod bindings;
pub mod database;
pub mod file;
pub mod bind_info;
pub mod data_chunk;
pub mod function_info;
pub mod init_info;
pub mod logical_type;
pub mod scalar_function;
pub mod table_function;
pub mod unified_vector;
pub mod value;
pub mod vector;
pub mod view;
