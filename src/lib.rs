//! A codec for the classic FIX tag-value encoding: `tag=value` fields, each
//! ended by a separator byte, with a rolling checksum.

pub mod checksum;
pub mod dictionary;
pub mod fields;
pub mod message;
pub mod tagvalue;
pub mod round_trip;
pub mod text;

pub use dictionary::{Dictionary, StandardTagLookup};
pub use message::{BaseType, Error, Field, FieldValue, InvalidChecksum, Message, TypeInfo};
pub use tagvalue::{decode_message, encode_message, TagValue, Transmuter};
