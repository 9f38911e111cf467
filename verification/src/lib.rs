//! A small flat-file table store driven by a postfix query language.
//!
//! Queries are compiled into a sequence of operations and run on an operand
//! stack against an in-memory catalog of tables. Tables are kept on disk as a
//! line-oriented schema text and a file of fixed-width binary rows; this
//! library computes and checks those contents, and leaves the reading and
//! writing of files to its caller.

pub mod model;
pub mod text;
pub mod conditions;
pub mod query;
pub mod schema;
pub mod codec;
pub mod storage;
pub mod render;
pub mod shell;
pub mod semantics;
pub mod executor;
