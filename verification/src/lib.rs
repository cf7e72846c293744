//! Decoder for a binary telemetry frame format used by GPS/AVL tracking
//! devices. A frame holds a fixed preamble, a declared payload length, a
//! codec id, a count of records, the records themselves (timestamp, GPS fix,
//! and a variable-width IO element block), and a trailing echo of the record
//! count. Every record's length is determined by counts embedded inside the
//! record, so decoding is a cursor-based traversal with continuous bounds
//! checking; the decoder returns either the structured records or a precise,
//! offset-annotated error, and never panics.

pub mod cursor;
pub mod decode;
pub mod error;
pub mod hex;
pub mod laws;
pub mod model;
pub mod wire;
