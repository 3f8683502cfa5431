//! Zero-copy decoding of flattened device tree blobs.
//!
//! [`header`] validates the fixed header, [`tags`] reads the structure block as a stream of
//! tokens, and [`de`] pulls typed values (flags, integers, text, bytes, maps) out of that
//! stream one token of lookahead at a time.

pub mod de;
pub mod error;
pub mod header;
pub mod tags;

pub use de::{Deserializer, Kind};
pub use error::{Error, ErrorType, Result};
pub use header::{DeviceTree, Header};
pub use tags::{align_up_u32, Tag, Tags};
