//! An HPACK (RFC 7541) header compression codec, verified with Verus.
//!
//! The crate provides an [`encoder::Encoder`] and a [`decoder::Decoder`]
//! that translate between header lists and RFC 7541 header blocks, each
//! around a combined static + dynamic [`header_table::HeaderTable`].
//! The wire format itself — prefix integers, raw strings, the five
//! representation framings — lives in [`wire`] as specification
//! functions, and [`round_trip`] proves that decoding inverts encoding
//! while the two dynamic tables move in lockstep.
//!
//! Huffman string compression is not implemented: strings are always
//! emitted as raw octets, and Huffman-flagged strings are rejected on
//! decode.

pub mod decoder;
pub mod encoder;
pub mod error;
pub mod header;
pub mod header_table;
pub mod round_trip;
pub mod static_table;
pub mod wire;
