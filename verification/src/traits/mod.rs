//! Traits that the parsed records share.

pub mod from_bencode;
