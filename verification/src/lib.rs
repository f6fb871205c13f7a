//! Table storage: byte-level page layouts, value encoding, and the lexer,
//! operators, built-ins and expressions of a small SQL-like language.

pub mod bytes;
pub mod vbucket;
pub mod vpage;
pub mod vbuckmap;
pub mod varint;
pub mod value;
pub mod datatype;
pub mod indirect;
pub mod token;
pub mod operator;
pub mod bucket;
pub mod buckmap;
pub mod pagetree;
pub mod builtin;
pub mod store;
pub mod table;
pub mod transaction;
pub mod database;
pub mod exp;
pub mod pageset;
