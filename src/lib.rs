//! An embedded key-value store: an ordered map from string keys to JSON
//! documents, with a line-based text encoding for persistence.

pub mod codec;
pub mod external;
pub mod keys;
pub mod store;
