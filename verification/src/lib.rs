//! Runtime support for declarative binary-format parsers: a positioned byte
//! stream with whole-byte and sub-byte reads, byte-run transforms, text
//! helpers and the scaffolding that wires parse-tree nodes to their ancestors.

pub mod arith;
pub mod bitfield;
pub mod bitops;
pub mod bytes;
pub mod decoder;
pub mod endian;
pub mod error;
pub mod inflate;
pub mod model;
pub mod node;
pub mod pt;
pub mod reader;
pub mod shared;
pub mod stream;
pub mod text;

pub use crate::arith::modulo;
pub use crate::decoder::CustomDecoder;
pub use crate::error::{KError, KResult, Needed};
pub use crate::node::{downcast, read_into, read_root, KStruct, KStructUnit};
pub use crate::reader::BytesReader;
pub use crate::shared::SharedType;
pub use crate::stream::KStream;
pub use crate::text::{decode_string, reverse_string};
