//! Decoding of bencoded data and the typed records read out of it.

pub mod bencode;
pub mod bencode_laws;
pub mod decimal;
pub mod key_order;
pub mod lexical;
pub mod peers;
pub mod render;
pub mod text;
pub mod torrent_file;
pub mod tracker_url;
