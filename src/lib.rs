//! An encrypted, hierarchical secret store: a tree of named entries addressed by
//! paths of key segments, with create/read/update/delete operations and an
//! encryption layer that turns the whole tree into bytes and back.

pub mod codec;
pub mod crypter;
pub mod entry;
pub mod nested_map;
pub mod path;
pub mod source;
pub mod store;
