//! The 68-byte greeting that opens a connection to a peer.

use vstd::prelude::*;
use vstd::array::array_fill_for_copy_types;
use crate::request::client::ClientError;

verus! {

/// The size of a handshake in bytes.
pub const HANDSHAKE_LENGTH: usize = 68;

/// The length of the protocol name, which is the first byte of a handshake.
pub const PSTRLEN: u8 = 19;

/// The name of the protocol: the ASCII bytes of `BitTorrent protocol`.
pub open spec fn protocol_name() -> Seq<u8> {
    seq![
        0x42u8, 0x69, 0x74, 0x54, 0x6f, 0x72, 0x72, 0x65, 0x6e, 0x74, 0x20, 0x70, 0x72, 0x6f, 0x74,
        0x6f, 0x63, 0x6f, 0x6c,
    ]
}

/// A handshake: the length of the protocol name, the name, eight reserved
/// bytes, the info-hash of the torrent and the id of the sending peer.
#[derive(Debug, PartialEq, Eq, Clone, Copy)]
pub struct Handshake {
    pub pstrlen: u8,
    pub pstr: [u8; 19],
    pub reserved: [u8; 8],
    pub info_hash: [u8; 20],
    pub peer_id: [u8; 20],
}

fn protocol_name_bytes() -> (r: [u8; 19])
    ensures
        r@ == protocol_name(),
{
    let r: [u8; 19] = [
        0x42u8, 0x69, 0x74, 0x54, 0x6f, 0x72, 0x72, 0x65, 0x6e, 0x74, 0x20, 0x70, 0x72, 0x6f, 0x74,
        0x6f, 0x63, 0x6f, 0x6c,
    ];
    assert(r@ =~= protocol_name());
    r
}

fn take<const N: usize>(input: &[u8; 68], at: usize) -> (r: [u8; N])
    requires
        at + N <= 68,
    ensures
        r@ == input@.subrange(at as int, at + N),
{
    let mut r: [u8; N] = array_fill_for_copy_types(0u8);
    let mut i: usize = 0;
    while i < N
        invariant
            i <= N,
            at + N <= 68,
            forall|j: int| 0 <= j < i ==> r@[j] == input@[at + j],
        decreases N - i,
    {
        r[i] = input[at + i];
        i = i + 1;
    }
    assert(r@ =~= input@.subrange(at as int, at + N));
    r
}

impl Handshake {
    /// The 68 bytes of the handshake, in the order of the fields.
    pub open spec fn wire(self) -> Seq<u8> {
        seq![self.pstrlen] + self.pstr@ + self.reserved@ + self.info_hash@ + self.peer_id@
    }

    /// The handshake that this client sends: the protocol name, reserved
    /// bytes all zero, and the two identifiers given.
    pub fn new(info_hash: [u8; 20], peer_id: [u8; 20]) -> (r: Self)
        ensures
            r.pstrlen == PSTRLEN,
            r.pstr@ == protocol_name(),
            r.reserved@ == Seq::new(8, |i: int| 0u8),
            r.info_hash == info_hash,
            r.peer_id == peer_id,
    {
        let reserved: [u8; 8] = [0u8, 0, 0, 0, 0, 0, 0, 0];
        assert(reserved@ =~= Seq::new(8, |i: int| 0u8));
        Self { pstrlen: PSTRLEN, pstr: protocol_name_bytes(), reserved, info_hash, peer_id }
    }

    /// The handshake that the 68 bytes carry.
    pub fn parse(input_bytes: [u8; 68]) -> (r: Self)
        ensures
            r.wire() == input_bytes@,
    {
        let r = Self {
            pstrlen: input_bytes[0],
            pstr: take(&input_bytes, 1),
            reserved: take(&input_bytes, 20),
            info_hash: take(&input_bytes, 28),
            peer_id: take(&input_bytes, 48),
        };
        assert(r.wire() =~= input_bytes@);
        r
    }

    fn wire_byte(&self, j: usize) -> (r: u8)
        requires
            j < 68,
        ensures
            r == self.wire()[j as int],
    {
        if j == 0 {
            self.pstrlen
        } else if j < 20 {
            self.pstr[j - 1]
        } else if j < 28 {
            self.reserved[j - 20]
        } else if j < 48 {
            self.info_hash[j - 28]
        } else {
            self.peer_id[j - 48]
        }
    }

    /// The 68 bytes that carry this handshake.
    pub fn to_bytes(self) -> (out: [u8; 68])
        ensures
            out@ == self.wire(),
    {
        let mut out: [u8; 68] = [0u8; 68];
        let mut j: usize = 0;
        while j < 68
            invariant
                j <= 68,
                forall|k: int| 0 <= k < j ==> out@[k] == self.wire()[k],
            decreases 68 - j,
        {
            let b: u8 = self.wire_byte(j);
            out[j] = b;
            j = j + 1;
        }
        assert(out@ =~= self.wire());
        out
    }

    /// Checks the bytes that a peer sent in answer to this handshake. Fewer
    /// than 68 bytes are a failed handshake; a handshake for another
    /// info-hash means that the peer does not serve this torrent.
    pub fn check_reply(&self, reply: &[u8]) -> (r: Result<Handshake, ClientError>)
        ensures
            match r {
                Ok(theirs) => {
                    &&& reply@.len() >= 68
                    &&& theirs.wire() == reply@.subrange(0, 68)
                    &&& theirs.info_hash == self.info_hash
                },
                Err(e) => if reply@.len() < 68 {
                    e == ClientError::HandshakeFailed
                } else {
                    &&& e == ClientError::ServerDoesNotHaveFile
                    &&& reply@.subrange(28, 48) != self.info_hash@
                },
            },
    {
        if reply.len() < HANDSHAKE_LENGTH {
            return Err(ClientError::HandshakeFailed);
        }
        let mut bytes: [u8; 68] = [0u8; 68];
        let mut j: usize = 0;
        while j < 68
            invariant
                j <= 68,
                reply@.len() >= 68,
                forall|k: int| 0 <= k < j ==> bytes@[k] == reply@[k],
            decreases 68 - j,
        {
            bytes[j] = reply[j];
            j = j + 1;
        }
        assert(bytes@ =~= reply@.subrange(0, 68));
        let theirs: Handshake = Handshake::parse(bytes);
        assert(theirs.info_hash@ =~= theirs.wire().subrange(28, 48));
        assert(theirs.wire().subrange(28, 48) =~= reply@.subrange(28, 48));
        if same_hash(&theirs.info_hash, &self.info_hash) {
            Ok(theirs)
        } else {
            Err(ClientError::ServerDoesNotHaveFile)
        }
    }
}

/// Decides whether two 20-byte hashes are the same.
pub fn same_hash(a: &[u8; 20], b: &[u8; 20]) -> (r: bool)
    ensures
        r == (a@ == b@),
        r == (*a == *b),
{
    let mut i: usize = 0;
    while i < 20
        invariant
            i <= 20,
            forall|j: int| 0 <= j < i ==> a@[j] == b@[j],
        decreases 20 - i,
    {
        if a[i] != b[i] {
            return false;
        }
        i = i + 1;
    }
    assert(a@ =~= b@);
    assert(*a =~= *b);
    true
}

/// A handshake is determined by its bytes.
pub proof fn lemma_wire_injective(a: Handshake, b: Handshake)
    requires
        a.wire() == b.wire(),
    ensures
        a == b,
{
    let w = a.wire();
    assert(a.pstrlen == w[0]);
    assert(b.pstrlen == b.wire()[0]);
    assert(a.pstr@ =~= w.subrange(1, 20));
    assert(b.pstr@ =~= b.wire().subrange(1, 20));
    assert(a.reserved@ =~= w.subrange(20, 28));
    assert(b.reserved@ =~= b.wire().subrange(20, 28));
    assert(a.info_hash@ =~= w.subrange(28, 48));
    assert(b.info_hash@ =~= b.wire().subrange(28, 48));
    assert(a.peer_id@ =~= w.subrange(48, 68));
    assert(b.peer_id@ =~= b.wire().subrange(48, 68));
    assert(a.pstr == b.pstr);
    assert(a.reserved == b.reserved);
    assert(a.info_hash == b.info_hash);
    assert(a.peer_id == b.peer_id);
}

/// Round trip: the handshake read from the bytes written for `h` is `h`.
pub proof fn lemma_parse_of_bytes(h: Handshake, bytes: [u8; 68], parsed: Handshake)
    requires
        bytes@ == h.wire(),
        parsed.wire() == bytes@,
    ensures
        parsed == h,
{
    lemma_wire_injective(parsed, h);
}

/// The handshake that this client sends takes 68 bytes and starts with the
/// byte 19 and the protocol name.
pub proof fn lemma_wire_of_new(h: Handshake)
    requires
        h.pstrlen == PSTRLEN,
        h.pstr@ == protocol_name(),
    ensures
        h.wire().len() == 68,
        h.wire().subrange(0, 20) == seq![19u8] + protocol_name(),
{
    assert(h.wire().subrange(0, 20) =~= seq![19u8] + protocol_name());
}

} // verus!
