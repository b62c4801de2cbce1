//! The download coordinator and the errors of the client.

use vstd::prelude::*;
use crate::digest::{sha1_digest, sha1_of};
use crate::parser::bencode::{decode, parse_bencode, BencodeValue};
use crate::parser::bencode_laws::lemma_valid_encodable;
use crate::parser::peers::{
    distinct, peers_view, read_announce_response, response_of_body, AnnounceResponse, Peer,
};
use crate::parser::torrent_file::{client_peer_id, metainfo_of, peer_id_bytes, TorrentFile};
use crate::request::handshake::same_hash;
use crate::traits::from_bencode::CreateFromBencode;

verus! {

/// What can go wrong between reading a metainfo file and holding the
/// finished download.
#[derive(Debug, PartialEq, Eq, Clone, Copy, Structural)]
pub enum ClientError {
    /// The input is not bencode.
    ParseBencode,
    /// The bencoded value does not describe a single-file torrent.
    InvalidMetainfo,
    /// An announce URL is not a URL.
    InvalidTrackerUrl,
    /// No tracker of the list gave an answer with peers in it.
    TrackerUnreachable,
    /// The tracker answered with an empty list of peers.
    NoPeers,
    /// The peer did not accept the connection in time.
    ConnectTimeout,
    /// The peer closed the connection before its handshake was complete.
    HandshakeFailed,
    /// The peer answered for another torrent.
    ServerDoesNotHaveFile,
    /// The peer does not have the piece asked of it.
    PieceNotPresent(usize),
    /// The bytes received for the piece do not have the published hash.
    CorruptedPiece(usize),
    /// Reading from or writing to the peer failed.
    PeerIo,
    /// Reading or writing the output or its checkpoint failed.
    SinkIo,
    /// A queue between coordinator and workers was closed.
    ChannelClosed,
}

/// After how many completed pieces the sink is flushed.
pub const CHECKPOINT_EVERY: usize = 100;

/// The client for one torrent: its metainfo and the peer id under which it
/// announces and greets.
#[derive(Debug)]
pub struct Client {
    pub torrent_file: TorrentFile,
    pub client_peer_id: [u8; 20],
}

/// What to do next in the search for peers.
#[derive(Debug)]
pub enum TrackerStep {
    /// Ask the tracker URL of this index.
    Ask(usize),
    /// The search is over: these are the peers, without repetitions.
    Found(Vec<Peer>),
    /// The search has failed.
    Failed(ClientError),
}

impl Client {
    /// The client for the torrent that the bytes of a metainfo file
    /// describe. `ParseBencode` where the bytes do not start with a
    /// canonical bencoded value, `InvalidMetainfo` where that value does not
    /// describe a single-file torrent.
    pub fn new(bencode_byte: &[u8]) -> (r: Result<Client, ClientError>)
        ensures
            match decode(bencode_byte@) {
                Some((v, n)) => match metainfo_of(v) {
                    Some(file) => r matches Ok(client) && client.torrent_file@ == file
                        && client.client_peer_id@ == peer_id_bytes() && file.info.wf(),
                    None => r matches Err(e) && e == ClientError::InvalidMetainfo,
                },
                None => r matches Err(e) && e == ClientError::ParseBencode,
            },
    {
        let (value, _used) = parse_bencode(bencode_byte);
        match value {
            BencodeValue::Error(_) => Err(ClientError::ParseBencode),
            value => {
                proof {
                    lemma_valid_encodable(value@);
                }
                match TorrentFile::parse(&value) {
                    Some(torrent_file) => Ok(
                        Client { torrent_file, client_peer_id: client_peer_id() },
                    ),
                    None => Err(ClientError::InvalidMetainfo),
                }
            },
        }
    }

    /// Whether `digest` is the digest `checksum` published for a piece.
    pub fn digest_is_correct(digest: &[u8; 20], checksum: &[u8; 20]) -> (r: bool)
        ensures
            r == (digest@ == checksum@),
    {
        same_hash(digest, checksum)
    }

    /// Whether the bytes received for a piece have the published digest.
    pub fn piece_hash_is_correct(piece: &Vec<u8>, checksum: [u8; 20]) -> (r: bool)
        ensures
            r == (sha1_of(piece@) == checksum@),
    {
        let hash_value: [u8; 20] = sha1_digest(piece.as_slice());
        Self::digest_is_correct(&hash_value, &checksum)
    }

    /// The first step of the search for peers among `url_count` tracker
    /// URLs: ask the first, or fail where there is none.
    pub fn first_tracker(url_count: usize) -> (r: TrackerStep)
        ensures
            match r {
                TrackerStep::Ask(i) => url_count > 0 && i == 0,
                TrackerStep::Failed(e) => url_count == 0 && e == ClientError::TrackerUnreachable,
                TrackerStep::Found(_) => false,
            },
    {
        if url_count > 0 {
            TrackerStep::Ask(0)
        } else {
            TrackerStep::Failed(ClientError::TrackerUnreachable)
        }
    }

    /// The step after tracker `asked` of `url_count` has been asked, `body`
    /// being the body of its response or `None` where the request failed. A
    /// body that holds peers ends the search: with its peers, repetitions
    /// removed, or with `NoPeers` where it lists none. Otherwise the next
    /// tracker is asked, and after the last the search fails with
    /// `TrackerUnreachable`.
    pub fn after_announce(url_count: usize, asked: usize, body: Option<&[u8]>) -> (r: TrackerStep)
        ensures
            match body {
                Some(bytes) if response_of_body(bytes@) is Some => {
                    let peers = distinct(response_of_body(bytes@)->Some_0.peers);
                    if peers.len() > 0 {
                        r matches TrackerStep::Found(found) && peers_view(found@) == peers
                    } else {
                        r matches TrackerStep::Failed(e) && e == ClientError::NoPeers
                    }
                },
                _ => if asked + 1 < url_count {
                    r matches TrackerStep::Ask(i) && i == asked + 1
                } else {
                    r matches TrackerStep::Failed(e) && e == ClientError::TrackerUnreachable
                },
            },
    {
        let response: Option<AnnounceResponse> = match body {
            Some(bytes) => read_announce_response(bytes),
            None => None,
        };
        match response {
            Some(response) => {
                let peers: Vec<Peer> = response.get_peers();
                if peers.len() > 0 {
                    TrackerStep::Found(peers)
                } else {
                    TrackerStep::Failed(ClientError::NoPeers)
                }
            },
            None => {
                if asked < usize::MAX && asked + 1 < url_count {
                    TrackerStep::Ask(asked + 1)
                } else {
                    TrackerStep::Failed(ClientError::TrackerUnreachable)
                }
            },
        }
    }
}

/// How many of `flags` are set.
pub open spec fn count_true(flags: Seq<bool>) -> nat
    decreases flags.len(),
{
    if flags.len() == 0 {
        0
    } else {
        count_true(flags.drop_last()) + if flags.last() {
            1nat
        } else {
            0nat
        }
    }
}

/// The indices of the flags that are not set, in ascending order.
pub open spec fn pending(flags: Seq<bool>) -> Seq<int>
    decreases flags.len(),
{
    if flags.len() == 0 {
        Seq::empty()
    } else if flags.last() {
        pending(flags.drop_last())
    } else {
        pending(flags.drop_last()).push(flags.len() - 1)
    }
}

/// No more flags are set than there are, and all are set exactly when
/// their number is.
pub proof fn lemma_count_true(flags: Seq<bool>)
    ensures
        count_true(flags) <= flags.len(),
        count_true(flags) == flags.len() <==> forall|i: int|
            0 <= i < flags.len() ==> #[trigger] flags[i],
        count_true(flags) + pending(flags).len() == flags.len(),
    decreases flags.len(),
{
    if flags.len() > 0 {
        lemma_count_true(flags.drop_last());
        if count_true(flags) == flags.len() {
            assert forall|i: int| 0 <= i < flags.len() implies #[trigger] flags[i] by {
                if i < flags.len() - 1 {
                    assert(flags.drop_last()[i]);
                }
            }
        } else if forall|i: int| 0 <= i < flags.len() ==> #[trigger] flags[i] {
            assert(flags.last());
            assert forall|i: int| 0 <= i < flags.drop_last().len() implies #[trigger] flags.drop_last()[i] by {
                assert(flags[i]);
            }
        }
    }
}

/// Setting a flag that was not set raises the count by one.
pub proof fn lemma_count_true_update(flags: Seq<bool>, index: int)
    requires
        0 <= index < flags.len(),
        !flags[index],
    ensures
        count_true(flags.update(index, true)) == count_true(flags) + 1,
    decreases flags.len(),
{
    let next = flags.update(index, true);
    if index == flags.len() - 1 {
        assert(next.drop_last() =~= flags.drop_last());
    } else {
        assert(next.drop_last() =~= flags.drop_last().update(index, true));
        lemma_count_true_update(flags.drop_last(), index);
    }
}

/// What the coordinator holds of the download.
pub struct DownloadStateView {
    pub hashes: Seq<Seq<u8>>,
    pub completed: Seq<bool>,
    pub completed_count: nat,
}

impl DownloadStateView {
    /// One flag for each piece, and the count is the number of flags set.
    pub open spec fn wf(self) -> bool {
        &&& self.completed.len() == self.hashes.len()
        &&& self.completed_count == count_true(self.completed)
    }

    /// Every piece is complete.
    pub open spec fn finished(self) -> bool {
        self.completed_count == self.hashes.len()
    }

    /// The state after piece `index` has been verified and staged.
    pub open spec fn with_completed(self, index: int) -> DownloadStateView {
        DownloadStateView {
            completed: self.completed.update(index, true),
            completed_count: self.completed_count + 1,
            ..self
        }
    }
}

/// The coordinator's record of the download: the published digest of each
/// piece, which pieces are complete, and how many.
#[derive(Debug)]
pub struct DownloadState {
    pub hashes: Vec<[u8; 20]>,
    pub completed: Vec<bool>,
    pub completed_count: usize,
}

/// The digests as byte sequences.
pub open spec fn hashes_view(hashes: Seq<[u8; 20]>) -> Seq<Seq<u8>> {
    Seq::new(hashes.len(), |i: int| hashes[i]@)
}

impl View for DownloadState {
    type V = DownloadStateView;

    open spec fn view(&self) -> DownloadStateView {
        DownloadStateView {
            hashes: hashes_view(self.hashes@),
            completed: self.completed@,
            completed_count: self.completed_count as nat,
        }
    }
}

/// What the coordinator does with a piece that a worker has delivered.
#[derive(Debug, PartialEq, Eq, Clone, Copy, Structural)]
pub enum CoordinatorAction {
    /// The piece is good: stage it in the sink. `flush` says that the sink
    /// is to be flushed now, `finished` that this was the last piece.
    Stage { flush: bool, finished: bool },
    /// The piece is corrupted: put its index back on the work queue.
    Requeue,
    /// The piece is none of the torrent or is complete already: drop it.
    Discard,
}

/// What the coordinator makes of piece `index` delivered with the digest
/// `digest`, and the state after it.
pub open spec fn verdict(state: DownloadStateView, index: int, digest: Seq<u8>) -> (
    CoordinatorAction,
    DownloadStateView,
) {
    if !(0 <= index < state.hashes.len()) || state.completed[index] {
        (CoordinatorAction::Discard, state)
    } else if digest == state.hashes[index] {
        (
            CoordinatorAction::Stage {
                flush: (state.completed_count + 1) % (CHECKPOINT_EVERY as nat) == 0,
                finished: state.completed_count + 1 == state.hashes.len(),
            },
            state.with_completed(index),
        )
    } else {
        (CoordinatorAction::Requeue, state)
    }
}

/// A verdict keeps the record consistent, marks no piece complete whose
/// digest did not match, and never unmarks one.
pub proof fn lemma_verdict(state: DownloadStateView, index: int, digest: Seq<u8>)
    requires
        state.wf(),
    ensures
        verdict(state, index, digest).1.wf(),
        verdict(state, index, digest).1.hashes == state.hashes,
        forall|i: int|
            0 <= i < state.completed.len() && state.completed[i] ==> #[trigger] verdict(
                state,
                index,
                digest,
            ).1.completed[i],
        forall|i: int|
            0 <= i < state.completed.len() && !state.completed[i] && #[trigger] verdict(
                state,
                index,
                digest,
            ).1.completed[i] ==> i == index && digest == state.hashes[index],
        verdict(state, index, digest).0 matches CoordinatorAction::Stage { flush, finished }
            ==> finished == verdict(state, index, digest).1.finished(),
{
    if 0 <= index < state.hashes.len() && !state.completed[index] {
        lemma_count_true_update(state.completed, index);
    }
}

impl DownloadState {
    /// The record at the start of a download of the pieces with the digests
    /// `hashes`, where the checkpoint lists the pieces that are on disk
    /// already; and the work to seed the queue with: every other piece, in
    /// ascending order.
    pub fn new(hashes: Vec<[u8; 20]>, checkpoint: &Vec<usize>) -> (r: (DownloadState, Vec<usize>))
        ensures
            r.0@.wf(),
            r.0.hashes == hashes,
            forall|i: int|
                0 <= i < hashes@.len() ==> (#[trigger] r.0@.completed[i] <==> checkpoint@.contains(
                    i as usize,
                )),
            r.1@.len() == pending(r.0@.completed).len(),
            forall|k: int| 0 <= k < r.1@.len() ==> #[trigger] r.1@[k] == pending(r.0@.completed)[k],
    {
        let count: usize = hashes.len();
        let mut completed: Vec<bool> = Vec::new();
        let mut work: Vec<usize> = Vec::new();
        let mut completed_count: usize = 0;
        let mut i: usize = 0;
        while i < count
            invariant
                i <= count,
                completed@.len() == i,
                completed_count == count_true(completed@),
                completed_count <= i,
                forall|k: int|
                    0 <= k < i ==> (#[trigger] completed@[k] <==> checkpoint@.contains(k as usize)),
                work@.len() == pending(completed@).len(),
                forall|k: int| 0 <= k < work@.len() ==> #[trigger] work@[k] == pending(completed@)[k],
            decreases count - i,
        {
            let done: bool = listed(checkpoint, i);
            proof {
                assert(completed@.push(done).drop_last() =~= completed@);
            }
            completed.push(done);
            if done {
                completed_count = completed_count + 1;
            } else {
                work.push(i);
            }
            i = i + 1;
        }
        (DownloadState { hashes, completed, completed_count }, work)
    }

    /// Whether every piece is complete.
    pub fn is_finished(&self) -> (r: bool)
        ensures
            r == self@.finished(),
    {
        self.completed_count == self.hashes.len()
    }

    /// Takes a piece that a worker has delivered, `digest` being the SHA-1
    /// digest of its bytes. A piece with the published digest is marked
    /// complete and is to be staged; one with another digest is to be put
    /// back on the work queue; one that is none of the torrent or complete
    /// already is dropped.
    pub fn on_piece_digest(&mut self, index: usize, digest: &[u8; 20]) -> (r: CoordinatorAction)
        requires
            old(self)@.wf(),
        ensures
            final(self)@.wf(),
            (r, final(self)@) == verdict(old(self)@, index as int, digest@),
    {
        if index >= self.hashes.len() || self.completed[index] {
            return CoordinatorAction::Discard;
        }
        if !same_hash(digest, &self.hashes[index]) {
            return CoordinatorAction::Requeue;
        }
        proof {
            lemma_verdict(self@, index as int, digest@);
            lemma_count_true(self@.completed);
            lemma_count_true_update(self@.completed, index as int);
            lemma_count_true(self@.completed.update(index as int, true));
        }
        self.completed.set(index, true);
        self.completed_count = self.completed_count + 1;
        let flush: bool = self.completed_count % CHECKPOINT_EVERY == 0;
        let finished: bool = self.completed_count == self.hashes.len();
        CoordinatorAction::Stage { flush, finished }
    }

    /// Takes a piece that a worker has delivered: computes the digest of its
    /// bytes and decides as `on_piece_digest` does.
    pub fn on_piece(&mut self, index: usize, bytes: &[u8]) -> (r: CoordinatorAction)
        requires
            old(self)@.wf(),
        ensures
            final(self)@.wf(),
            (r, final(self)@) == verdict(old(self)@, index as int, sha1_of(bytes@)),
    {
        let digest: [u8; 20] = sha1_digest(bytes);
        self.on_piece_digest(index, &digest)
    }
}

/// Whether the checkpoint lists piece `index`.
pub fn listed(checkpoint: &Vec<usize>, index: usize) -> (r: bool)
    ensures
        r == checkpoint@.contains(index),
{
    let mut i: usize = 0;
    while i < checkpoint.len()
        invariant
            i <= checkpoint.len(),
            forall|k: int| 0 <= k < i ==> checkpoint@[k] != index,
        decreases checkpoint.len() - i,
    {
        if checkpoint[i] == index {
            return true;
        }
        i = i + 1;
    }
    false
}

} // verus!
