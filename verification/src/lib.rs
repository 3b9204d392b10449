//! A compressed prefix tree from string keys to values.
//!
//! [`RadixNode`] is the tree and each of its nodes. Its view is the map from
//! the keys that a search finds to their values; `insert` and `get` are
//! stated over that map.
pub mod laws;
pub mod node;
pub mod prefix;
pub mod radyx;

pub use crate::node::RadixNode;
pub use crate::prefix::longest_common_prefix;
pub use crate::radyx::Radyx;
