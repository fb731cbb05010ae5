pub mod btree;
pub mod freelist;
pub mod laws;
pub mod slots;

pub use btree::{BTree, InternalNode, Key, LeafNode, Node, Value};
pub use freelist::{Freelist, Handle};
