//! A read-only query executor over database files laid out in the SQLite
//! file format. The library works on the file's bytes alone: callers read
//! the file, hand the bytes in, and print what comes back.

pub mod btree;
pub mod ddl;
pub mod error;
pub mod index;
pub mod page;
pub mod parse;
pub mod query;
pub mod record;
pub mod schema;
pub mod text;
pub mod value;
pub mod varint;
