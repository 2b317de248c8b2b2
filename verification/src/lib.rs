//! A fixed-arity prefix tree that maps sequences of symbols to values,
//! with cursors for stepwise traversal and growth.

pub mod laws;
pub mod model;
pub mod trie;

pub use trie::Cursor;
pub use trie::CursorMut;
pub use trie::Node;
pub use trie::TrieMap;
