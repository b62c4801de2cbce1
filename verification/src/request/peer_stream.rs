//! The state of one peer connection and the decisions of the worker that
//! owns it. The worker performs the reads and writes; what to make of each
//! thing read, and what to write next, is decided here.

use vstd::prelude::*;
use vstd::slice::{slice_subrange, slice_to_vec};
use crate::digest::sha1_of;
use crate::parser::torrent_file::{lemma_last_piece, pieces_needed, TorrentFile};
use crate::request::client::ClientError;
use crate::request::handshake::{protocol_name, Handshake, PSTRLEN};
use crate::request::message::{bitfield_has, has_piece};
use crate::request::piece_assembly::{missing, PieceAssembly, MAX_REQUEST_FOR_PIECE};
use crate::request::torrent_message::{decode_message, PeerMessage, TorrentMessage};
use crate::request::wire::{be_value, read_be_u32};

verus! {

/// Where a connection stands.
#[derive(Debug, PartialEq, Eq, Clone, Copy, Structural)]
pub enum PeerPhase {
    /// Connected; the handshake has not been answered yet.
    Handshaking,
    /// Greeted; waiting for the peer's bitfield and for its unchoke.
    Discovering,
    /// The bitfield is known and the peer serves requests.
    Ready,
    /// The peer has choked this client after having served it.
    Throttled,
    /// The connection has failed; the worker returns.
    Dead,
}

/// What a `PeerStream` holds.
pub struct PeerStreamView {
    pub id: nat,
    pub piece_length: nat,
    pub total_length: nat,
    pub info_hash: Seq<u8>,
    pub peer_id: Seq<u8>,
    pub bitfield: Option<Seq<u8>>,
    pub unchoked: bool,
    pub phase: PeerPhase,
}

/// One connection to one peer, without its socket: the torrent's sizes and
/// identifiers, the peer's bitfield once it has sent one, whether the peer
/// has unchoked this client, and the phase of the connection.
#[derive(Debug)]
pub struct PeerStream {
    pub id: usize,
    pub piece_length: usize,
    pub total_length: usize,
    pub info_hash: [u8; 20],
    pub peer_id: [u8; 20],
    pub bitfield: Option<Vec<u8>>,
    pub unchoked: bool,
    pub phase: PeerPhase,
}

impl View for PeerStream {
    type V = PeerStreamView;

    open spec fn view(&self) -> PeerStreamView {
        PeerStreamView {
            id: self.id as nat,
            piece_length: self.piece_length as nat,
            total_length: self.total_length as nat,
            info_hash: self.info_hash@,
            peer_id: self.peer_id@,
            bitfield: match self.bitfield {
                Some(bytes) => Some(bytes@),
                None => None,
            },
            unchoked: self.unchoked,
            phase: self.phase,
        }
    }
}

/// The bitfield `bytes` with the bit of piece `index` set.
pub open spec fn set_bit(bytes: Seq<u8>, index: int) -> Seq<u8> {
    bytes.update(index / 8, bytes[index / 8] | (0x80u8 >> ((index % 8) as u8)))
}

/// Setting the bit of a piece marks that piece as present and changes no
/// other piece.
pub proof fn lemma_set_bit(bytes: Seq<u8>, index: int, other: int)
    requires
        0 <= index < 8 * bytes.len(),
    ensures
        has_piece(set_bit(bytes, index), other) == (other == index || has_piece(bytes, other)),
{
    if 0 <= other < 8 * bytes.len() {
        let x: u8 = bytes[index / 8];
        let s: u8 = (index % 8) as u8;
        let t: u8 = (other % 8) as u8;
        if other / 8 == index / 8 {
            assert((((x | (0x80u8 >> s)) >> ((7 - t) as u8)) & 1u8 == 1u8) == (s == t || ((x >> ((7
                - t) as u8)) & 1u8 == 1u8))) by (bit_vector)
                requires
                    s < 8,
                    t < 8,
            ;
            assert(s == t <==> other == index);
        }
    }
}

impl PeerStreamView {
    /// The number of pieces of the torrent.
    pub open spec fn piece_count(self) -> nat {
        pieces_needed(self.total_length, self.piece_length)
    }

    /// The size of piece `index`.
    pub open spec fn piece_size(self, index: int) -> int {
        if index == self.piece_count() - 1 {
            self.total_length - index * self.piece_length
        } else {
            self.piece_length as int
        }
    }

    /// The sizes fit what the protocol can name, and the phase agrees with
    /// what is known of the peer: ready means bitfield known and unchoked.
    pub open spec fn wf(self) -> bool {
        &&& self.piece_length >= 1
        &&& self.total_length >= 1
        &&& self.piece_length <= u32::MAX
        &&& self.piece_count() <= u32::MAX
        &&& self.info_hash.len() == 20
        &&& match self.phase {
            PeerPhase::Handshaking => self.bitfield is None && !self.unchoked,
            PeerPhase::Discovering => !(self.bitfield is Some && self.unchoked),
            PeerPhase::Ready => self.bitfield is Some && self.unchoked,
            PeerPhase::Throttled => self.bitfield is Some && !self.unchoked,
            PeerPhase::Dead => true,
        }
    }

    /// The peer has announced piece `index`.
    pub open spec fn peer_has(self, index: int) -> bool {
        self.bitfield matches Some(bytes) && has_piece(bytes, index)
    }

    /// The state after the peer's message `m`. Before the handshake and
    /// after the connection has died a message changes nothing. Otherwise a
    /// bitfield replaces the one known, a have marks its piece in a known
    /// bitfield, choke and unchoke set the flag; and the connection is ready
    /// as soon as the bitfield is known and the peer has unchoked, throttled
    /// when a ready connection is choked.
    pub open spec fn after_message(self, m: PeerMessage) -> PeerStreamView {
        if self.phase is Handshaking || self.phase is Dead {
            self
        } else {
            let bitfield = match m {
                PeerMessage::Bitfield { bitfield } => Some(bitfield),
                PeerMessage::Have { index } => match self.bitfield {
                    Some(bytes) => if index < 8 * bytes.len() {
                        Some(set_bit(bytes, index as int))
                    } else {
                        Some(bytes)
                    },
                    None => None,
                },
                _ => self.bitfield,
            };
            let unchoked = match m {
                PeerMessage::Unchoke => true,
                PeerMessage::Choke => false,
                _ => self.unchoked,
            };
            let phase = if bitfield is Some && unchoked {
                PeerPhase::Ready
            } else if self.phase is Discovering {
                PeerPhase::Discovering
            } else {
                PeerPhase::Throttled
            };
            PeerStreamView { bitfield, unchoked, phase, ..self }
        }
    }

    /// The state after the connection has failed.
    pub open spec fn dead(self) -> PeerStreamView {
        PeerStreamView { phase: PeerPhase::Dead, ..self }
    }

    /// Piece `index` can be asked of the peer: it is a piece of the torrent
    /// and the peer has announced it.
    pub open spec fn can_download(self, index: int) -> bool {
        0 <= index < self.piece_count() && self.peer_has(index)
    }
}

/// A message keeps the state well-formed.
pub proof fn lemma_after_message_wf(s: PeerStreamView, m: PeerMessage)
    requires
        s.wf(),
    ensures
        s.after_message(m).wf(),
{
}

/// What a worker does after a piece download has failed with `error`: the
/// piece always goes back to the work queue; the worker goes on where the
/// peer merely lacks the piece and returns after any other failure.
#[derive(Debug, PartialEq, Eq, Clone, Copy, Structural)]
pub enum WorkerAction {
    RequeueAndContinue,
    RequeueAndExit,
}

/// The worker's reaction to a failed piece download.
pub fn after_failure(error: ClientError) -> (r: WorkerAction)
    ensures
        r == if error is PieceNotPresent {
            WorkerAction::RequeueAndContinue
        } else {
            WorkerAction::RequeueAndExit
        },
{
    match error {
        ClientError::PieceNotPresent(_) => WorkerAction::RequeueAndContinue,
        _ => WorkerAction::RequeueAndExit,
    }
}

fn set_piece(bytes: &mut Vec<u8>, index: usize)
    requires
        index < 8 * old(bytes)@.len(),
    ensures
        final(bytes)@ == set_bit(old(bytes)@, index as int),
{
    let at: usize = index / 8;
    let mask: u8 = 0x80u8 >> ((index % 8) as u8);
    let byte: u8 = bytes[at];
    bytes.set(at, byte | mask);
}

/// The first message of `buffer`, if the buffer holds it whole: the length
/// prefix and as many bytes as it announces.
pub open spec fn first_message(buffer: Seq<u8>) -> Option<(PeerMessage, nat)> {
    if buffer.len() >= 4 && buffer.len() >= 4 + be_value(buffer.subrange(0, 4)) {
        let length = be_value(buffer.subrange(0, 4));
        Some((decode_message(buffer.subrange(4, 4 + length)), (4 + length) as nat))
    } else {
        None
    }
}

impl PeerStream {
    /// The state of a fresh connection for worker `id`: nothing known of the
    /// peer, the handshake still to be sent. `InvalidMetainfo` where the
    /// torrent's pieces are more or longer than the protocol can name.
    pub fn new(id: usize, torrent_file: &TorrentFile, client_peer_id: &[u8; 20]) -> (r: Result<
        Self,
        ClientError,
    >)
        requires
            torrent_file@.info.wf(),
        ensures
            match r {
                Ok(stream) => {
                    &&& stream@.wf()
                    &&& stream@.phase == PeerPhase::Handshaking
                    &&& stream@.id == id
                    &&& stream@.piece_length == torrent_file@.info.piece_length
                    &&& stream@.total_length == torrent_file@.info.length
                    &&& stream@.info_hash == sha1_of(torrent_file@.info_encoded)
                    &&& stream@.peer_id == client_peer_id@
                },
                Err(e) => {
                    &&& e == ClientError::InvalidMetainfo
                    &&& (torrent_file@.info.piece_length > u32::MAX
                        || torrent_file@.info.piece_count() > u32::MAX)
                },
            },
            r is Ok <==> torrent_file@.info.piece_length <= u32::MAX
                && torrent_file@.info.piece_count() <= u32::MAX,
    {
        let piece_length: usize = torrent_file.info.piece_length;
        let count: usize = torrent_file.info.piece_count();
        if piece_length > u32::MAX as usize || count > u32::MAX as usize {
            return Err(ClientError::InvalidMetainfo);
        }
        Ok(
            Self {
                id,
                piece_length,
                total_length: torrent_file.info.length,
                info_hash: torrent_file.compute_info_hash(),
                peer_id: *client_peer_id,
                bitfield: None,
                unchoked: false,
                phase: PeerPhase::Handshaking,
            },
        )
    }

    /// The handshake that opens the connection.
    pub fn handshake(&self) -> (r: Handshake)
        ensures
            r.info_hash == self.info_hash,
            r.peer_id == self.peer_id,
            r.pstrlen == PSTRLEN,
            r.pstr@ == protocol_name(),
    {
        Handshake::new(self.info_hash, self.peer_id)
    }

    /// Takes the peer's answer to the handshake. A whole handshake for this
    /// torrent moves the connection on to discovery and has the worker send
    /// `Interested`; a short answer (`HandshakeFailed`) or one for another
    /// torrent (`ServerDoesNotHaveFile`) kills the connection.
    pub fn make_handshake(&mut self, reply: &[u8]) -> (r: Result<TorrentMessage, ClientError>)
        requires
            old(self)@.wf(),
            old(self)@.phase == PeerPhase::Handshaking,
        ensures
            final(self)@.wf(),
            match r {
                Ok(next) => {
                    &&& reply@.len() >= 68
                    &&& reply@.subrange(28, 48) == old(self)@.info_hash
                    &&& next@ == PeerMessage::Interested
                    &&& final(self)@ == (PeerStreamView {
                        phase: PeerPhase::Discovering,
                        ..old(self)@
                    })
                },
                Err(e) => {
                    &&& final(self)@ == old(self)@.dead()
                    &&& if reply@.len() < 68 {
                        e == ClientError::HandshakeFailed
                    } else {
                        &&& e == ClientError::ServerDoesNotHaveFile
                        &&& reply@.subrange(28, 48) != old(self)@.info_hash
                    }
                },
            },
    {
        let ours: Handshake = self.handshake();
        match ours.check_reply(reply) {
            Ok(theirs) => {
                proof {
                    assert(theirs.wire().subrange(28, 48) =~= theirs.info_hash@);
                    assert(reply@.subrange(0, 68).subrange(28, 48) =~= reply@.subrange(28, 48));
                }
                self.phase = PeerPhase::Discovering;
                Ok(TorrentMessage::Interested)
            },
            Err(e) => {
                self.phase = PeerPhase::Dead;
                Err(e)
            },
        }
    }

    /// Takes a message of the peer and moves to the state after it.
    pub fn on_message(&mut self, message: &TorrentMessage)
        requires
            old(self)@.wf(),
        ensures
            final(self)@ == old(self)@.after_message(message@),
            final(self)@.wf(),
    {
        if self.phase == PeerPhase::Handshaking || self.phase == PeerPhase::Dead {
            return ;
        }
        match message {
            TorrentMessage::Bitfield { bitfield } => {
                self.bitfield = Some(slice_to_vec(bitfield.as_slice()));
            },
            TorrentMessage::Have { index } => {
                let index: usize = *index as usize;
                let mut known: Option<Vec<u8>> = None;
                core::mem::swap(&mut known, &mut self.bitfield);
                match known {
                    Some(mut bytes) => {
                        if index / 8 < bytes.len() {
                            set_piece(&mut bytes, index);
                        }
                        self.bitfield = Some(bytes);
                    },
                    None => {},
                }
            },
            TorrentMessage::Unchoke => {
                self.unchoked = true;
            },
            TorrentMessage::Choke => {
                self.unchoked = false;
            },
            _ => {},
        }
        if self.bitfield.is_some() && self.unchoked {
            self.phase = PeerPhase::Ready;
        } else if self.phase != PeerPhase::Discovering {
            self.phase = PeerPhase::Throttled;
        }
    }

    /// Takes note that reading from or writing to the peer has failed.
    pub fn on_io_error(&mut self) -> (e: ClientError)
        ensures
            final(self)@ == old(self)@.dead(),
            e == ClientError::PeerIo,
    {
        self.phase = PeerPhase::Dead;
        ClientError::PeerIo
    }

    /// Whether the peer has announced piece `index`.
    pub fn peer_has(&self, index: usize) -> (r: bool)
        ensures
            r == self@.peer_has(index as int),
    {
        match &self.bitfield {
            Some(bytes) => bitfield_has(bytes.as_slice(), index),
            None => false,
        }
    }

    /// The size of piece `index`.
    pub fn piece_size(&self, index: usize) -> (r: usize)
        requires
            self@.wf(),
            index < self@.piece_count(),
        ensures
            r == self@.piece_size(index as int),
            1 <= r <= self.piece_length,
    {
        let count: usize = self.piece_count();
        proof {
            lemma_last_piece(
                self.total_length as int,
                self.piece_length as int,
            );
        }
        if index == count - 1 {
            assert(index * self.piece_length == (count - 1) * self.piece_length) by (nonlinear_arith)
                requires
                    index == count - 1,
            ;
            self.total_length - index * self.piece_length
        } else {
            self.piece_length
        }
    }

    /// The number of pieces of the torrent.
    pub fn piece_count(&self) -> (r: usize)
        requires
            self@.wf(),
        ensures
            r == self@.piece_count(),
    {
        let whole: usize = self.total_length / self.piece_length;
        if self.total_length % self.piece_length == 0 {
            whole
        } else {
            whole + 1
        }
    }

    /// Opens the download of piece `piece_id` on a ready connection: an
    /// assembly with every block missing. `PieceNotPresent` where the piece
    /// is none of the torrent or the peer has not announced it; the
    /// connection stays as it is.
    pub fn download_piece(&self, piece_id: usize) -> (r: Result<PieceAssembly, ClientError>)
        requires
            self@.wf(),
            self@.phase == PeerPhase::Ready,
        ensures
            match r {
                Ok(assembly) => {
                    &&& self@.can_download(piece_id as int)
                    &&& assembly@.wf()
                    &&& assembly@.piece_index == piece_id
                    &&& assembly@.piece_size == self@.piece_size(piece_id as int)
                    &&& forall|i: int|
                        0 <= i < assembly@.blocks.len() ==> #[trigger] assembly@.blocks[i] is None
                },
                Err(e) => !self@.can_download(piece_id as int) && e == ClientError::PieceNotPresent(
                    piece_id,
                ),
            },
    {
        if piece_id >= self.piece_count() || !self.peer_has(piece_id) {
            return Err(ClientError::PieceNotPresent(piece_id));
        }
        let piece_size: usize = self.piece_size(piece_id);
        Ok(PieceAssembly::new(piece_id, piece_size))
    }

    /// The requests to send next for the piece being assembled: those of
    /// `PieceAssembly::next_requests` on a ready connection, none while the
    /// peer chokes this client.
    pub fn make_request_for_block(&self, assembly: &PieceAssembly) -> (r: Vec<TorrentMessage>)
        requires
            assembly@.wf(),
        ensures
            self@.phase != PeerPhase::Ready ==> r@.len() == 0,
            self@.phase == PeerPhase::Ready ==> r@.len() == if missing(assembly@.blocks).len()
                < MAX_REQUEST_FOR_PIECE {
                missing(assembly@.blocks).len()
            } else {
                MAX_REQUEST_FOR_PIECE as nat
            },
            forall|k: int|
                0 <= k < r@.len() ==> (#[trigger] r@[k])@ == assembly@.request_for(
                    missing(assembly@.blocks)[k],
                ),
    {
        if self.phase == PeerPhase::Ready {
            assembly.next_requests()
        } else {
            Vec::new()
        }
    }

    /// Takes a message of the peer while a piece is being assembled: a
    /// block goes to the assembly, which stores or drops it; any other
    /// message moves the connection to the state after it. Returns whether a
    /// block was stored.
    pub fn on_download_message(
        &mut self,
        assembly: &mut PieceAssembly,
        message: TorrentMessage,
    ) -> (stored: bool)
        requires
            old(self)@.wf(),
            old(assembly)@.wf(),
        ensures
            final(self)@.wf(),
            final(assembly)@.wf(),
            final(self)@ == old(self)@.after_message(message@),
            final(assembly)@.piece_index == old(assembly)@.piece_index,
            final(assembly)@.piece_size == old(assembly)@.piece_size,
            match message@ {
                PeerMessage::Piece { index, begin, block } => {
                    &&& stored == old(assembly)@.accepts(index, begin, block)
                    &&& final(assembly)@.blocks == if stored {
                        old(assembly)@.blocks.update(begin as int / 16384, Some(block))
                    } else {
                        old(assembly)@.blocks
                    }
                },
                _ => !stored && final(assembly)@.blocks == old(assembly)@.blocks,
            },
    {
        self.on_message(&message);
        match message {
            TorrentMessage::Piece { index, begin, block } => assembly.on_block(index, begin, block),
            _ => false,
        }
    }

    /// Splits the first message off the bytes read so far: the message and
    /// the number of bytes it took, or `None` while the buffer does not hold
    /// a whole frame.
    pub fn read_message(buffer: &[u8]) -> (r: Option<(TorrentMessage, usize)>)
        ensures
            match first_message(buffer@) {
                Some((m, n)) => r matches Some((message, used)) && message@ == m && used == n,
                None => r is None,
            },
    {
        if buffer.len() < 4 {
            return None;
        }
        let length: usize = read_be_u32(buffer, 0) as usize;
        if buffer.len() - 4 < length {
            return None;
        }
        let message: TorrentMessage = TorrentMessage::read(slice_subrange(buffer, 4, 4 + length));
        Some((message, 4 + length))
    }
}

} // verus!
