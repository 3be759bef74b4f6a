//! The structure of a directory tree: its entries, the decisions of a
//! depth-first scan that builds it, and what is proved of them.

pub mod entry;
pub mod laws;
pub mod walk;
