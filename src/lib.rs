//! A single-table embedded database: rows keyed by id, stored in a paged B+-tree.
pub mod layout;
pub mod node;
pub mod codec;
pub mod pager;
pub mod tree;
pub mod table;
pub mod statement;
pub mod laws;
