//! HPACK header compression (draft 07): integer and string codecs, the
//! header tables and reference set, and the decoding and encoding contexts.

pub mod integer;

pub mod header_field;
pub mod static_table;
pub mod header_table;
pub mod reference_set;
pub mod huffman_code;
pub mod huffman;
pub mod representation;
pub mod context;
pub mod header_set;
pub mod decoder;
pub mod encoder;
pub mod header_collection;
