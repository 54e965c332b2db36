//! A small configuration library: a JSON document tree, a canonical
//! byte-level codec for it, a store that owns one document together with
//! the path it was loaded from, and the decision rules of the tray shell
//! that hosts the store.

pub mod json;
pub mod codec;
pub mod store;
pub mod shell;
