//! Codec for two binary containers that ship game configuration and
//! localized text: the "Coalesced" configuration overlay and the "TLK"
//! string table with male and female variants. Both keep their texts in one
//! Huffman-coded bit stream and name each text by the bit at which it starts.
//!
//! What a file holds is written down once, as mathematics over byte
//! strings, and every function is verified against it:
//!
//! - [`coalesced`] and [`tlk`] give the bytes of the file of a document;
//!   [`coalesced_parse`] and [`tlk`] give what a reader finds in any byte
//!   string, or the error that it meets first.
//! - [`ser`] and [`de`] hold the writers and readers, with the seekable
//!   buffers that they work on.
//! - [`huffman`], [`tree`] and [`pairs`] hold the Huffman engine: the tree of
//!   a table of frequencies, the codes, and the flattened pair table that a
//!   decoder walks.
//! - [`coalesced_laws`] and [`tlk`] state what holds of writing and reading
//!   together: a document that can be written is read back from its file, a
//!   file cut short is refused, and the string table stores the checksum of
//!   each key.
//!
//! The only code taken on trust is the thin layer around the bit vector in
//! [`bits`].

pub mod bits;
pub mod coalesced;
pub mod coalesced_index;
pub mod coalesced_laws;
pub mod coalesced_parse;
pub mod coalesced_tags;
pub mod coalesced_values;
pub mod coalesced_write;
pub mod collect;
pub mod crc32;
pub mod de;
pub mod error;
pub mod flat;
pub mod huffman;
pub mod huffman_utf16;
pub mod keys;
pub mod pairs;
pub mod ser;
pub mod shared;
pub mod tlk;
pub mod tree;
pub mod wire;

pub use de::{deserialize_coalesced, deserialize_tlk};
pub use ser::{serialize_coalesced, serialize_tlk, try_serialize_coalesced, try_serialize_tlk};
pub use shared::{
    invert_huffman_tree, CoalFile, Coalesced, Property, Section, Tlk, TlkString, UnknownValueType,
    Value, ValueType, WChar, WString, ME3_MAGIC, TLK_MAGIC,
};
