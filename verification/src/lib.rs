//! Codec for the "rules" response of the Source-engine server query protocol.
//!
//! A rules response is a flat list of name/value configuration variables, but
//! servers running a multiplayer modification smuggle a table of installed
//! mods through it: the table is byte-stuffed, split across several disguised
//! rule entries, and reassembled by a naming heuristic. This crate decodes
//! such responses into structured rule values and encodes regular rule lists
//! back into wire bytes.
//!
//! The transport concerns (UDP exchange, challenge handshake, multi-packet
//! reassembly, decompression) are upstream of this crate: the decoder takes
//! one contiguous byte buffer that holds a whole logical response.

pub mod codec;
pub mod escape;
pub mod laws;
pub mod text;
pub mod wire;

pub use codec::Error;
pub use codec::Rule;
pub use codec::RuleView;
