//! A codec for the rencode wire format: a compact, self-describing binary
//! encoding of nulls, booleans, sized integers, floats, byte strings, lists
//! and dictionaries, in which single-byte tags inline small integers and small
//! collection sizes.

pub mod types;
pub mod bytes;
pub mod value;
pub mod ser;
pub mod de;
pub mod laws;

pub use ser::{to_writer, to_bytes};
pub use de::from_bytes;

pub use types::{Error, ErrorKind};
pub use value::Value;


