//! A packed, allocation-frugal representation of an ordered list of strings.
//!
//! The list is stored in one contiguous byte buffer: each element's UTF-8
//! bytes are followed by a single reserved separator byte that can never
//! occur in valid UTF-8, so no escaping is needed and the separator is
//! always unambiguous.

pub mod encoding;
pub mod list;
pub mod order;
pub mod render;
