//! A compact, deterministic binary encoding: each value has exactly one
//! encoding, and decoding is strict about tags, lengths, UTF-8, set order
//! and trailing bytes.
//!
//! [`serialize`] and [`deserialize`] walk a [`Value`] of the data model, or
//! a [`Shape`] that says what to expect. [`CordSerializer`] and
//! [`CordDeserializer`] write and read one shape at a time, for callers that
//! walk their own types. [`CordSet`] keeps a set in canonical order, [`Bytes`]
//! and [`DateTime`] are the domain types with their own encodings, and
//! [`laws`] states what holds of them all.
pub mod de;
pub mod error;
pub mod laws;
pub mod ser;
pub mod set;
pub mod types;
pub mod value;
pub mod varint;

pub use de::CordDeserializer;
pub use error::{CordError, CordResult};
pub use ser::CordSerializer;
pub use set::{collect_set, CordSet, SetVisitor};
pub use types::{Bytes, DateTime};
pub use value::{deserialize, serialize, Shape, Value};
