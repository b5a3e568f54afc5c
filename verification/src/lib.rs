//! A compact binary encoding for short text fields over a restricted
//! character set, and the telemetry message that is built from them.
//!
//! A character is one byte out of 65: hyphen, full stop, low line, the
//! ASCII digits and the ASCII letters. A string is a one-byte length prefix
//! and then its characters; its class bounds the length, and the prefix
//! keeps the count in as few low bits as the bound needs, under zero
//! padding. A tracking part is a string and two counters. A message is one
//! byte that tells its kind, and then its body: five strings, a duration,
//! a one-byte count of parts, and the parts. Integers of more than one byte
//! stand most significant byte first.
//!
//! Every type of the wire offers `read` and `write` for use inside a larger
//! record, and `from_bytes` and `to_bytes` for use on its own. What they do
//! is stated over `spec_read` and `spec_write`, the format as mathematics;
//! the proof functions whose names end in `round_trip` and `decode_encode`
//! show that reading undoes writing.

pub mod error;
pub mod messages;
pub mod parts;
pub mod primitives;
