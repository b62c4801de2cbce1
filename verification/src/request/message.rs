//! A length-prefixed frame of the peer protocol, and the bitfield that a
//! peer announces.

use vstd::prelude::*;
use vstd::slice::{slice_subrange, slice_to_vec};
use crate::request::wire::{be_value, read_be_u32};

verus! {

/// The kind of a message, as its identifying byte tells it.
#[derive(Debug, PartialEq, Eq, Clone, Copy, Structural)]
pub enum MessageID {
    Choke,
    Unchoke,
    Interested,
    NotInterested,
    Have,
    Bitfield,
    Request,
    Piece,
    Cancel,
    Port,
}

impl MessageID {
    /// The byte that identifies this kind on the wire.
    pub open spec fn code(self) -> u8 {
        match self {
            MessageID::Choke => 0,
            MessageID::Unchoke => 1,
            MessageID::Interested => 2,
            MessageID::NotInterested => 3,
            MessageID::Have => 4,
            MessageID::Bitfield => 5,
            MessageID::Request => 6,
            MessageID::Piece => 7,
            MessageID::Cancel => 8,
            MessageID::Port => 9,
        }
    }

    /// The kind that `value` identifies, if it identifies one.
    pub open spec fn of_code(value: u8) -> Option<MessageID> {
        if value == 0 {
            Some(MessageID::Choke)
        } else if value == 1 {
            Some(MessageID::Unchoke)
        } else if value == 2 {
            Some(MessageID::Interested)
        } else if value == 3 {
            Some(MessageID::NotInterested)
        } else if value == 4 {
            Some(MessageID::Have)
        } else if value == 5 {
            Some(MessageID::Bitfield)
        } else if value == 6 {
            Some(MessageID::Request)
        } else if value == 7 {
            Some(MessageID::Piece)
        } else if value == 8 {
            Some(MessageID::Cancel)
        } else if value == 9 {
            Some(MessageID::Port)
        } else {
            None
        }
    }

    /// The kind that the byte `value` identifies, or `None` for a byte that
    /// identifies none.
    pub fn try_from(value: u8) -> (r: Option<MessageID>)
        ensures
            r == Self::of_code(value),
            r matches Some(id) ==> id.code() == value,
            r is None <==> value > 9,
    {
        match value {
            0 => Some(MessageID::Choke),
            1 => Some(MessageID::Unchoke),
            2 => Some(MessageID::Interested),
            3 => Some(MessageID::NotInterested),
            4 => Some(MessageID::Have),
            5 => Some(MessageID::Bitfield),
            6 => Some(MessageID::Request),
            7 => Some(MessageID::Piece),
            8 => Some(MessageID::Cancel),
            9 => Some(MessageID::Port),
            _ => None,
        }
    }

    /// The byte that identifies this kind on the wire.
    pub fn to_u8(self) -> (r: u8)
        ensures
            r == self.code(),
            Self::of_code(r) == Some(self),
    {
        match self {
            MessageID::Choke => 0,
            MessageID::Unchoke => 1,
            MessageID::Interested => 2,
            MessageID::NotInterested => 3,
            MessageID::Have => 4,
            MessageID::Bitfield => 5,
            MessageID::Request => 6,
            MessageID::Piece => 7,
            MessageID::Cancel => 8,
            MessageID::Port => 9,
        }
    }
}

/// One frame: the length that its prefix announced, the kind of message
/// (none for a keep-alive) and what follows the kind byte, if anything.
pub struct Message {
    pub length: u32,
    pub message_id: Option<MessageID>,
    pub payload: Option<Vec<u8>>,
}

/// Why a frame could not be read as what was asked of it.
#[derive(Debug, PartialEq, Eq, Clone, Copy, Structural)]
pub enum ParseError {
    MissingPayload,
    InvalidLength(usize),
    EmptyBitfield,
}

/// Which pieces a peer has: bit `i`, counted from the most significant bit of
/// the first byte, is set when the peer has piece `i`.
pub struct Bitfield {
    pub piece_index: Vec<u8>,
}

/// Bit `index` of `bytes`, counted from the most significant bit of the
/// first byte, is set.
pub open spec fn bit_set(bytes: Seq<u8>, index: int) -> bool {
    (bytes[index / 8] >> ((7 - index % 8) as u8)) & 1u8 == 1u8
}

/// `bytes` marks piece `index` as present: the bit exists and is set.
pub open spec fn has_piece(bytes: Seq<u8>, index: int) -> bool {
    0 <= index < 8 * bytes.len() && bit_set(bytes, index)
}

/// `bytes` is a bitfield for `pieces` pieces: one bit for each piece in as
/// few bytes as hold them, and the bits left over in the last byte zero.
pub open spec fn bitfield_for(bytes: Seq<u8>, pieces: nat) -> bool {
    &&& bytes.len() == (pieces + 7) / 8
    &&& forall|index: int| pieces <= index < 8 * bytes.len() ==> !#[trigger] bit_set(bytes, index)
}

/// Decides whether `bytes` marks piece `index` as present. An index beyond
/// the last bit is a piece that the peer does not have.
pub fn bitfield_has(bytes: &[u8], index: usize) -> (r: bool)
    ensures
        r == has_piece(bytes@, index as int),
{
    let byte_num: usize = index / 8;
    if byte_num >= bytes.len() {
        return false;
    }
    let shift: u8 = (7 - index % 8) as u8;
    (bytes[byte_num] >> shift) & 1u8 == 1u8
}

impl Bitfield {
    /// The view of a bitfield is its bytes.
    pub open spec fn bytes(&self) -> Seq<u8> {
        self.piece_index@
    }

    pub fn new(piece_index: Vec<u8>) -> (r: Self)
        ensures
            r.piece_index == piece_index,
    {
        Self { piece_index }
    }

    /// Whether the peer has piece `index`. The index must lie within the
    /// bitfield.
    pub fn contains(&self, index: i32) -> (r: bool)
        requires
            0 <= index < 8 * self.bytes().len(),
        ensures
            r == bit_set(self.bytes(), index as int),
    {
        bitfield_has(self.piece_index.as_slice(), index as usize)
    }

    /// Whether the peer has piece `index`; an index beyond the bitfield is a
    /// piece that it does not have.
    pub fn has(&self, index: usize) -> (r: bool)
        ensures
            r == has_piece(self.bytes(), index as int),
    {
        bitfield_has(self.piece_index.as_slice(), index)
    }

    /// Whether this is a bitfield for `pieces` pieces: of the right length
    /// and with its padding bits zero.
    pub fn is_for(&self, pieces: usize) -> (r: bool)
        ensures
            r == bitfield_for(self.bytes(), pieces as nat),
    {
        let bytes: &Vec<u8> = &self.piece_index;
        let needed: usize = pieces / 8 + if pieces % 8 == 0 {
            0
        } else {
            1
        };
        if bytes.len() != needed {
            return false;
        }
        let used: usize = pieces % 8;
        if used == 0 {
            return true;
        }
        let last: u8 = bytes[needed - 1];
        let ghost base: int = 8 * (needed - 1);
        let mut position: usize = used;
        while position < 8
            invariant
                bytes == &self.piece_index,
                bytes@.len() == (pieces + 7) / 8,
                needed == bytes@.len(),
                needed >= 1,
                last == bytes@[needed - 1],
                base == 8 * (needed - 1),
                base + used == pieces,
                used <= position <= 8,
                forall|k: int| pieces <= k < base + position ==> !#[trigger] bit_set(bytes@, k),
            decreases 8 - position,
        {
            if (last >> ((7 - position) as u8)) & 1u8 == 1u8 {
                assert(bit_set(bytes@, base + position));
                return false;
            }
            assert(!bit_set(bytes@, base + position));
            position = position + 1;
        }
        true
    }

    /// The number of pieces that the bitfield can speak of.
    pub fn capacity(&self) -> (r: Option<usize>)
        ensures
            match r {
                Some(n) => n == 8 * self.bytes().len(),
                None => 8 * self.bytes().len() > usize::MAX,
            },
    {
        self.piece_index.len().checked_mul(8)
    }
}

/// `s` holds one whole frame that `Message::read` accepts: a length prefix,
/// and for a length above zero a known kind byte and the rest of the frame.
pub open spec fn readable(s: Seq<u8>) -> bool {
    &&& s.len() >= 4
    &&& be_value(s.subrange(0, 4)) > 0 ==> {
        &&& s.len() >= 4 + be_value(s.subrange(0, 4))
        &&& MessageID::of_code(s[4]) is Some
    }
}

impl Message {
    pub fn new(length: u32, message_id: Option<MessageID>, payload: Option<Vec<u8>>) -> (r: Self)
        ensures
            r.length == length,
            r.message_id == message_id,
            r.payload == payload,
    {
        Self { length, message_id, payload }
    }

    /// Reads a bitfield out of the payload of a bitfield message.
    pub fn parse_bitfield(payload: Vec<u8>) -> (r: Bitfield)
        ensures
            r.piece_index == payload,
    {
        Bitfield { piece_index: payload }
    }

    /// The bitfield that this frame carries, or `MissingPayload` when it
    /// carries no payload.
    pub fn get_bitfield(self) -> (r: Result<Bitfield, ParseError>)
        ensures
            match self.payload {
                Some(p) => r matches Ok(b) && b.piece_index == p,
                None => r == Err::<Bitfield, ParseError>(ParseError::MissingPayload),
            },
    {
        match self.payload {
            Some(p) => Ok(Self::parse_bitfield(p)),
            _ => Err(ParseError::MissingPayload),
        }
    }

    /// What `read` makes of a readable frame: its length, its kind, and its
    /// payload where the length is above one.
    pub open spec fn framed(r: Message, s: Seq<u8>) -> bool {
        let length = be_value(s.subrange(0, 4));
        &&& r.length == length
        &&& if length == 0 {
            r.message_id is None && r.payload is None
        } else if length == 1 {
            r.message_id == MessageID::of_code(s[4]) && r.payload is None
        } else {
            &&& r.message_id == MessageID::of_code(s[4])
            &&& r.payload matches Some(p)
            &&& p@ == s.subrange(5, 4 + length)
        }
    }

    /// Reads the frame at the start of `input_stream`, which must hold it
    /// whole and be of a known kind.
    pub fn read(input_stream: &[u8]) -> (r: Message)
        requires
            readable(input_stream@),
        ensures
            Self::framed(r, input_stream@),
    {
        let message_length: u32 = read_be_u32(input_stream, 0);
        if message_length == 0 {
            Message::new(message_length, None, None)
        } else if message_length == 1 {
            let message_id: Option<MessageID> = MessageID::try_from(input_stream[4]);
            Message::new(message_length, message_id, None)
        } else {
            let message_id: Option<MessageID> = MessageID::try_from(input_stream[4]);
            let total_len: usize = 4 + message_length as usize;
            let payload: Vec<u8> = slice_to_vec(slice_subrange(input_stream, 5, total_len));
            Message::new(message_length, message_id, Some(payload))
        }
    }

    /// Reads the frame at the start of `input_stream` if it is there whole
    /// and of a known kind, and returns `None` otherwise.
    pub fn try_read(input_stream: &[u8]) -> (r: Option<Message>)
        ensures
            r is Some <==> readable(input_stream@),
            r matches Some(m) ==> Self::framed(m, input_stream@),
    {
        if input_stream.len() < 4 {
            return None;
        }
        let message_length: u32 = read_be_u32(input_stream, 0);
        if message_length > 0 {
            if input_stream.len() - 4 < message_length as usize {
                return None;
            }
            if MessageID::try_from(input_stream[4]).is_none() {
                return None;
            }
        }
        Some(Self::read(input_stream))
    }
}

} // verus!
