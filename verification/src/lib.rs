//! Persistent B+ tree library: verified node and tree logic.

pub mod error;
pub mod key;
pub mod node;
pub mod ser;
pub mod storage;
pub mod model;
pub mod model_update;
pub mod model_delete;
pub mod model_check;
pub mod model_fill;
pub mod range;
pub mod touch;
pub mod tree;
pub mod laws;
