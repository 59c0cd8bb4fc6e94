//! A JSON value model with pluggable typed keys and leaves, and a pointer
//! language for reading and patching trees of it.
//!
//! - `key`, `number`, `value`, `object`: the value tree and its view.
//! - `decode`: the contextual decoder over a stream of decoding events.
//! - `pointer`, `parser`: pointers, their text form and its parser.
//! - `eval`, `keyed`: evaluating and patching through pointers, on values,
//!   sequences and string-keyed mappings.
pub mod decode;
pub mod eval;
pub mod key;
pub mod keyed;
pub mod number;
pub mod object;
pub mod parser;
pub mod pointer;
pub mod text;
pub mod value;

pub use decode::{decode_events, decode_key, decode_string, DecodeError, DecodeEvent};
pub use eval::{JsonPointerHandler, Snapshot};
pub use key::{Key, KeyView, Property};
pub use keyed::StringMap;
pub use number::{Number, N};
pub use object::ObjectAsVec;
pub use pointer::{ItemView, JsonPointer, JsonPointerItem, JsonPointerIter};
pub use value::{Element, Index, Null, Text, Value, ValueView};
