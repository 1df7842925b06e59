//! A minimal embedded record store.
//!
//! The store keeps named collections of rows, persists the whole database as a
//! single human-readable document, and accepts a tiny subset of a declarative
//! query language: `CREATE TABLE`, `INSERT INTO` (with a tolerated common
//! misspelling `INSET INTO`), and `SELECT * FROM`.

mod values;
mod text;
mod db;
mod errors;
mod codec;
mod parse;
mod roundtrip;
mod interp;

pub use errors::LocalDBError;
pub use errors::ErrModel;
pub use interp::LocalDB;
pub use values::LocalDBValue;
pub use values::ValueModel;
pub use db::Col;
pub use db::Row;
pub use db::Table;
pub use db::Database;
pub use db::ColModel;
pub use db::TableModel;
