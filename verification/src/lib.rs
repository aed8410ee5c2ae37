//! Decoding of the values of an embedded script engine's heap into native values.
//!
//! A [`heap::Heap`] holds the values as one decode call sees them. A
//! [`de::Deserializer`] decodes one of them a step at a time, into scalars and into
//! the cursors of [`access`] that hand out the parts of a container. The walks of
//! [`walk`] decode a value all the way down into a flat run of tokens, and under a
//! graph session capture object identity, cycles and prototype chains.

pub mod access;
pub mod bigint;
pub mod de;
pub mod double;
pub mod error;
pub mod heap;
pub mod keys;
pub mod magic;
pub mod number;
pub mod payload;
pub mod text;
pub mod walk;

pub use access::MapObjectAccess;
pub use access::SeqAccess;
pub use de::Deserializer;
pub use error::DecodeError;
pub use text::to_utf8;
pub use text::truncate;
pub use walk::from_v8;
pub use walk::from_v8_cached;
pub use walk::ramson_from_v8;
