//! A self-describing binary document format: a tree-shaped value model and
//! the codec that frames it into length-prefixed data lines.

pub mod bytes;
pub mod doc;
pub mod error;
pub mod laws;
pub mod reader;
pub mod tree;
pub mod wire;
pub mod writer;

pub use doc::{DocValue, ToDocValue};
pub use error::DecodeError;
pub use tree::DocTree;
