//! The messages of the peer protocol and their encoding on the wire.

use vstd::prelude::*;
use vstd::slice::{slice_subrange, slice_to_vec};
use crate::parser::bencode::append_bytes;
use crate::request::message::{bit_set, bitfield_has, has_piece};
use crate::request::wire::{
    be_bytes, be_value, lemma_be_bytes_of_value, lemma_be_value_of_bytes, push_be_u32,
    read_be_u32,
};

verus! {

pub const ID_CHOKE: u8 = 0;

pub const ID_UNCHOKE: u8 = 1;

pub const ID_INTERESTED: u8 = 2;

pub const ID_NOT_INTERESTED: u8 = 3;

pub const ID_HAVE: u8 = 4;

pub const ID_BITFIELD: u8 = 5;

pub const ID_REQUEST: u8 = 6;

pub const ID_PIECE: u8 = 7;

pub const ID_CANCEL: u8 = 8;

/// What a message says, apart from how it is stored. `Unknown` is a message
/// of a kind that this client does not know, `Malformed` one of a known kind
/// whose payload has the wrong length.
pub enum PeerMessage {
    KeepAlive,
    Choke,
    Unchoke,
    Interested,
    NotInterested,
    Have { index: u32 },
    Bitfield { bitfield: Seq<u8> },
    Request { index: u32, begin: u32, length: u32 },
    Piece { index: u32, begin: u32, block: Seq<u8> },
    Cancel { index: u32, begin: u32, length: u32 },
    Unknown { id: u8 },
    Malformed { id: u8 },
}

/// A message of the peer protocol.
#[derive(Debug, Clone, PartialEq, Eq)]
pub enum TorrentMessage {
    KeepAlive,
    Choke,
    Unchoke,
    Interested,
    NotInterested,
    Have { index: u32 },
    Bitfield { bitfield: Vec<u8> },
    Piece { index: u32, begin: u32, block: Vec<u8> },
    Request { index: u32, begin: u32, length: u32 },
    Cancel { index: u32, begin: u32, length: u32 },
    Unknown { id: u8 },
    Malformed { id: u8 },
}

impl View for TorrentMessage {
    type V = PeerMessage;

    open spec fn view(&self) -> PeerMessage {
        match self {
            TorrentMessage::KeepAlive => PeerMessage::KeepAlive,
            TorrentMessage::Choke => PeerMessage::Choke,
            TorrentMessage::Unchoke => PeerMessage::Unchoke,
            TorrentMessage::Interested => PeerMessage::Interested,
            TorrentMessage::NotInterested => PeerMessage::NotInterested,
            TorrentMessage::Have { index } => PeerMessage::Have { index: *index },
            TorrentMessage::Bitfield { bitfield } => PeerMessage::Bitfield { bitfield: bitfield@ },
            TorrentMessage::Piece { index, begin, block } => PeerMessage::Piece {
                index: *index,
                begin: *begin,
                block: block@,
            },
            TorrentMessage::Request { index, begin, length } => PeerMessage::Request {
                index: *index,
                begin: *begin,
                length: *length,
            },
            TorrentMessage::Cancel { index, begin, length } => PeerMessage::Cancel {
                index: *index,
                begin: *begin,
                length: *length,
            },
            TorrentMessage::Unknown { id } => PeerMessage::Unknown { id: *id },
            TorrentMessage::Malformed { id } => PeerMessage::Malformed { id: *id },
        }
    }
}

/// The three big-endian numbers of a request or a cancel.
pub open spec fn triple(index: u32, begin: u32, length: u32) -> Seq<u8> {
    be_bytes(index) + be_bytes(begin) + be_bytes(length)
}

/// What follows the length prefix when `m` is sent: nothing for a
/// keep-alive, otherwise the kind byte and the payload.
pub open spec fn body(m: PeerMessage) -> Seq<u8> {
    match m {
        PeerMessage::KeepAlive => Seq::empty(),
        PeerMessage::Choke => seq![ID_CHOKE],
        PeerMessage::Unchoke => seq![ID_UNCHOKE],
        PeerMessage::Interested => seq![ID_INTERESTED],
        PeerMessage::NotInterested => seq![ID_NOT_INTERESTED],
        PeerMessage::Have { index } => seq![ID_HAVE] + be_bytes(index),
        PeerMessage::Bitfield { bitfield } => seq![ID_BITFIELD] + bitfield,
        PeerMessage::Request { index, begin, length } => seq![ID_REQUEST] + triple(
            index,
            begin,
            length,
        ),
        PeerMessage::Piece { index, begin, block } => seq![ID_PIECE] + be_bytes(index) + be_bytes(
            begin,
        ) + block,
        PeerMessage::Cancel { index, begin, length } => seq![ID_CANCEL] + triple(
            index,
            begin,
            length,
        ),
        PeerMessage::Unknown { id } => Seq::empty(),
        PeerMessage::Malformed { id } => Seq::empty(),
    }
}

/// `m` is a message of the protocol, which can be sent.
pub open spec fn sendable(m: PeerMessage) -> bool {
    !(m is Unknown) && !(m is Malformed)
}

/// The bytes that carry `m` on the wire: the length of its body as a
/// big-endian number, then the body. What is no message of the protocol has
/// no bytes.
pub open spec fn wire_bytes(m: PeerMessage) -> Seq<u8> {
    if sendable(m) {
        be_bytes(body(m).len() as u32) + body(m)
    } else {
        Seq::empty()
    }
}

/// The message that the frame body `s` carries, `s` being what follows the
/// length prefix.
pub open spec fn decode_message(s: Seq<u8>) -> PeerMessage {
    if s.len() == 0 {
        PeerMessage::KeepAlive
    } else if s[0] > ID_CANCEL {
        PeerMessage::Unknown { id: s[0] }
    } else if s[0] == ID_BITFIELD {
        PeerMessage::Bitfield { bitfield: s.skip(1) }
    } else if s[0] == ID_PIECE {
        if s.len() >= 9 {
            PeerMessage::Piece {
                index: be_value(s.subrange(1, 5)) as u32,
                begin: be_value(s.subrange(5, 9)) as u32,
                block: s.skip(9),
            }
        } else {
            PeerMessage::Malformed { id: s[0] }
        }
    } else if s[0] == ID_HAVE {
        if s.len() == 5 {
            PeerMessage::Have { index: be_value(s.subrange(1, 5)) as u32 }
        } else {
            PeerMessage::Malformed { id: s[0] }
        }
    } else if s[0] == ID_REQUEST || s[0] == ID_CANCEL {
        if s.len() == 13 {
            let index = be_value(s.subrange(1, 5)) as u32;
            let begin = be_value(s.subrange(5, 9)) as u32;
            let length = be_value(s.subrange(9, 13)) as u32;
            if s[0] == ID_REQUEST {
                PeerMessage::Request { index, begin, length }
            } else {
                PeerMessage::Cancel { index, begin, length }
            }
        } else {
            PeerMessage::Malformed { id: s[0] }
        }
    } else if s.len() != 1 {
        PeerMessage::Malformed { id: s[0] }
    } else if s[0] == ID_CHOKE {
        PeerMessage::Choke
    } else if s[0] == ID_UNCHOKE {
        PeerMessage::Unchoke
    } else if s[0] == ID_INTERESTED {
        PeerMessage::Interested
    } else {
        PeerMessage::NotInterested
    }
}

/// Round trip: reading the body written for a message of the protocol gives
/// the message.
pub proof fn lemma_decode_of_body(m: PeerMessage)
    requires
        sendable(m),
    ensures
        decode_message(body(m)) == m,
{
    let s = body(m);
    match m {
        PeerMessage::Have { index } => {
            lemma_be_value_of_bytes(index);
            assert(s.subrange(1, 5) =~= be_bytes(index));
        },
        PeerMessage::Bitfield { bitfield } => {
            assert(s.skip(1) =~= bitfield);
        },
        PeerMessage::Request { index, begin, length } => {
            lemma_be_value_of_bytes(index);
            lemma_be_value_of_bytes(begin);
            lemma_be_value_of_bytes(length);
            assert(s.subrange(1, 5) =~= be_bytes(index));
            assert(s.subrange(5, 9) =~= be_bytes(begin));
            assert(s.subrange(9, 13) =~= be_bytes(length));
        },
        PeerMessage::Cancel { index, begin, length } => {
            lemma_be_value_of_bytes(index);
            lemma_be_value_of_bytes(begin);
            lemma_be_value_of_bytes(length);
            assert(s.subrange(1, 5) =~= be_bytes(index));
            assert(s.subrange(5, 9) =~= be_bytes(begin));
            assert(s.subrange(9, 13) =~= be_bytes(length));
        },
        PeerMessage::Piece { index, begin, block } => {
            lemma_be_value_of_bytes(index);
            lemma_be_value_of_bytes(begin);
            assert(s.subrange(1, 5) =~= be_bytes(index));
            assert(s.subrange(5, 9) =~= be_bytes(begin));
            assert(s.skip(9) =~= block);
        },
        _ => {},
    }
}

/// Round trip on bytes: a body that reads as a message of the protocol is
/// the body written for that message.
pub proof fn lemma_body_of_decoded(s: Seq<u8>)
    requires
        sendable(decode_message(s)),
    ensures
        body(decode_message(s)) == s,
{
    let m = decode_message(s);
    if s.len() > 0 {
        if s.len() >= 5 {
            lemma_be_bytes_of_value(s.subrange(1, 5));
        }
        if s.len() >= 9 {
            lemma_be_bytes_of_value(s.subrange(5, 9));
        }
        if s.len() >= 13 {
            lemma_be_bytes_of_value(s.subrange(9, 13));
        }
    }
    assert(body(m) =~= s);
}

impl TorrentMessage {
    /// Reads the message that a frame body carries, `input_stream` being
    /// what follows the length prefix. A body of an unknown kind or of a
    /// wrong length is returned as such, to be dropped.
    pub fn read(input_stream: &[u8]) -> (r: TorrentMessage)
        ensures
            r@ == decode_message(input_stream@),
    {
        let n: usize = input_stream.len();
        if n == 0 {
            return TorrentMessage::KeepAlive;
        }
        let id: u8 = input_stream[0];
        if id > ID_CANCEL {
            TorrentMessage::Unknown { id }
        } else if id == ID_BITFIELD {
            let bitfield: Vec<u8> = slice_to_vec(slice_subrange(input_stream, 1, n));
            TorrentMessage::Bitfield { bitfield }
        } else if id == ID_PIECE {
            if n >= 9 {
                let block: Vec<u8> = slice_to_vec(slice_subrange(input_stream, 9, n));
                TorrentMessage::Piece {
                    index: read_be_u32(input_stream, 1),
                    begin: read_be_u32(input_stream, 5),
                    block,
                }
            } else {
                TorrentMessage::Malformed { id }
            }
        } else if id == ID_HAVE {
            if n == 5 {
                TorrentMessage::Have { index: read_be_u32(input_stream, 1) }
            } else {
                TorrentMessage::Malformed { id }
            }
        } else if id == ID_REQUEST || id == ID_CANCEL {
            if n == 13 {
                let index: u32 = read_be_u32(input_stream, 1);
                let begin: u32 = read_be_u32(input_stream, 5);
                let length: u32 = read_be_u32(input_stream, 9);
                if id == ID_REQUEST {
                    TorrentMessage::Request { index, begin, length }
                } else {
                    TorrentMessage::Cancel { index, begin, length }
                }
            } else {
                TorrentMessage::Malformed { id }
            }
        } else if n != 1 {
            TorrentMessage::Malformed { id }
        } else if id == ID_CHOKE {
            TorrentMessage::Choke
        } else if id == ID_UNCHOKE {
            TorrentMessage::Unchoke
        } else if id == ID_INTERESTED {
            TorrentMessage::Interested
        } else {
            TorrentMessage::NotInterested
        }
    }

    /// The bytes that carry this message on the wire, length prefix
    /// included; none for what is no message of the protocol. The body must
    /// fit the 32-bit length prefix.
    pub fn to_bytes(&self) -> (out: Vec<u8>)
        requires
            body(self@).len() <= u32::MAX,
        ensures
            out@ == wire_bytes(self@),
    {
        let mut out: Vec<u8> = Vec::new();
        match self {
            TorrentMessage::KeepAlive => {
                push_be_u32(&mut out, 0);
            },
            TorrentMessage::Choke => {
                push_be_u32(&mut out, 1);
                out.push(ID_CHOKE);
            },
            TorrentMessage::Unchoke => {
                push_be_u32(&mut out, 1);
                out.push(ID_UNCHOKE);
            },
            TorrentMessage::Interested => {
                push_be_u32(&mut out, 1);
                out.push(ID_INTERESTED);
            },
            TorrentMessage::NotInterested => {
                push_be_u32(&mut out, 1);
                out.push(ID_NOT_INTERESTED);
            },
            TorrentMessage::Have { index } => {
                push_be_u32(&mut out, 5);
                out.push(ID_HAVE);
                push_be_u32(&mut out, *index);
            },
            TorrentMessage::Bitfield { bitfield } => {
                push_be_u32(&mut out, (bitfield.len() + 1) as u32);
                out.push(ID_BITFIELD);
                append_bytes(&mut out, bitfield.as_slice());
            },
            TorrentMessage::Request { index, begin, length } => {
                push_be_u32(&mut out, 13);
                out.push(ID_REQUEST);
                push_be_u32(&mut out, *index);
                push_be_u32(&mut out, *begin);
                push_be_u32(&mut out, *length);
            },
            TorrentMessage::Piece { index, begin, block } => {
                push_be_u32(&mut out, (block.len() + 9) as u32);
                out.push(ID_PIECE);
                push_be_u32(&mut out, *index);
                push_be_u32(&mut out, *begin);
                append_bytes(&mut out, block.as_slice());
            },
            TorrentMessage::Cancel { index, begin, length } => {
                push_be_u32(&mut out, 13);
                out.push(ID_CANCEL);
                push_be_u32(&mut out, *index);
                push_be_u32(&mut out, *begin);
                push_be_u32(&mut out, *length);
            },
            TorrentMessage::Unknown { id } => {},
            TorrentMessage::Malformed { id } => {},
        }
        assert(out@ =~= wire_bytes(self@));
        out
    }

    /// Whether this message is a bitfield that marks piece `index` as
    /// present. For a bitfield the index must lie within it.
    pub fn source_has_piece(&self, index: u32) -> (r: bool)
        requires
            self@ matches PeerMessage::Bitfield { bitfield } ==> index < 8 * bitfield.len(),
        ensures
            r == (self@ matches PeerMessage::Bitfield { bitfield } && bit_set(bitfield, index as int)),
    {
        match self {
            TorrentMessage::Bitfield { bitfield } => bitfield_has(bitfield.as_slice(), index as usize),
            _ => false,
        }
    }

    /// Whether this message is a bitfield that marks piece `index` as
    /// present; a piece beyond the bitfield is not present.
    pub fn has_piece(&self, index: usize) -> (r: bool)
        ensures
            r == (self@ matches PeerMessage::Bitfield { bitfield } && has_piece(bitfield, index as int)),
    {
        match self {
            TorrentMessage::Bitfield { bitfield } => bitfield_has(bitfield.as_slice(), index),
            _ => false,
        }
    }
}

} // verus!
