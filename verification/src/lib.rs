//! The core of a BitTorrent downloader for single-file torrents: the bencode
//! codec, the metainfo and tracker records, the peer wire codec, and the
//! decisions of peer workers, download coordinator and sink. Every function
//! carries a contract that Verus proves; sockets, files and HTTP are left to
//! the program around the library.

pub mod digest;
pub mod parser;
pub mod request;
pub mod traits;
