//! Storage addressing and packed encoding for contract storage.
//!
//! `key` derives storage keys from manual, automatic and resolving hints,
//! `layout` assigns each field of a structure its key, and `codec` holds the
//! byte encoding of values that live inside a single storage cell.
pub mod codec;
pub mod key;
pub mod layout;
