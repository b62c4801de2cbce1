use sha1::{Digest, Sha1};
use torrent_client::parser::bencode::{encode_bencode, BencodeValue};
use torrent_client::request::client::{
    Client, ClientError, CoordinatorAction, DownloadState, TrackerStep,
};
use torrent_client::request::handshake::Handshake;
use torrent_client::request::peer_stream::{after_failure, PeerPhase, PeerStream, WorkerAction};
use torrent_client::request::storage::{read_checkpoint, TorrentPersisted};
use torrent_client::request::torrent_message::TorrentMessage;

fn digest(bytes: &[u8]) -> [u8; 20] {
    Sha1::digest(bytes).into()
}

fn entry(key: &str, value: BencodeValue) -> (Vec<u8>, BencodeValue) {
    (key.as_bytes().to_vec(), value)
}

fn metainfo(piece_length: usize, pieces: &[Vec<u8>]) -> Vec<u8> {
    let length: usize = pieces.iter().map(|p| p.len()).sum();
    let hashes: Vec<u8> = pieces.iter().flat_map(|p| digest(p).to_vec()).collect();
    let info = BencodeValue::Dictionary(vec![
        entry("length", BencodeValue::Integer(length.to_string().into_bytes())),
        entry("name", BencodeValue::String(b"out.bin".to_vec())),
        entry(
            "piece length",
            BencodeValue::Integer(piece_length.to_string().into_bytes()),
        ),
        entry("pieces", BencodeValue::String(hashes)),
    ]);
    encode_bencode(&BencodeValue::Dictionary(vec![
        entry(
            "announce",
            BencodeValue::String(b"http://tracker.example/announce".to_vec()),
        ),
        entry("info", info),
    ]))
}

/// A peer that holds some pieces and answers what a client writes to it.
struct MockPeer {
    info_hash: [u8; 20],
    bitfield: Vec<u8>,
    pieces: Vec<Option<Vec<u8>>>,
    corrupt_first: bool,
    served: usize,
}

impl MockPeer {
    fn new(info_hash: [u8; 20], all: &[Vec<u8>], has: &[usize]) -> Self {
        let mut bitfield = vec![0u8; (all.len() + 7) / 8];
        let mut pieces = vec![None; all.len()];
        for &index in has {
            bitfield[index / 8] |= 0x80 >> (index % 8);
            pieces[index] = Some(all[index].clone());
        }
        MockPeer { info_hash, bitfield, pieces, corrupt_first: false, served: 0 }
    }

    fn greeting(&self) -> Vec<u8> {
        let mut out = Handshake::new(self.info_hash, [b'm'; 20]).to_bytes().to_vec();
        out.extend(TorrentMessage::Bitfield { bitfield: self.bitfield.clone() }.to_bytes());
        out.extend(TorrentMessage::Unchoke.to_bytes());
        out
    }

    fn answer(&mut self, written: &[u8]) -> Vec<u8> {
        let mut out = Vec::new();
        let mut rest = written;
        while let Some((message, used)) = PeerStream::read_message(rest) {
            rest = &rest[used..];
            if let TorrentMessage::Request { index, begin, length } = message {
                if let Some(Some(piece)) = self.pieces.get(index as usize) {
                    let from = begin as usize;
                    let to = from + length as usize;
                    let mut block = piece[from..to].to_vec();
                    if self.corrupt_first && self.served == 0 {
                        block[0] ^= 0x01;
                    }
                    self.served += 1;
                    out.extend(TorrentMessage::Piece { index, begin, block }.to_bytes());
                }
            }
        }
        assert!(rest.is_empty());
        out
    }
}

/// One worker: a connection state and the bytes it has read but not used.
struct Worker {
    stream: PeerStream,
    peer: MockPeer,
    inbox: Vec<u8>,
}

impl Worker {
    fn connect(id: usize, client: &Client, peer: MockPeer) -> Worker {
        let mut stream = PeerStream::new(id, &client.torrent_file, &client.client_peer_id)
            .ok()
            .unwrap();
        let sent = stream.handshake().to_bytes();
        assert_eq!(sent.len(), 68);
        let mut inbox = peer.greeting();
        let next = stream.make_handshake(&inbox).ok().unwrap();
        assert_eq!(next, TorrentMessage::Interested);
        inbox.drain(..68);
        let mut worker = Worker { stream, peer, inbox };
        worker.read_all(None);
        assert_eq!(worker.stream.phase, PeerPhase::Ready);
        worker
    }

    fn read_all(
        &mut self,
        mut assembly: Option<&mut torrent_client::request::piece_assembly::PieceAssembly>,
    ) {
        while let Some((message, used)) = PeerStream::read_message(&self.inbox) {
            self.inbox.drain(..used);
            match assembly.as_deref_mut() {
                Some(a) => {
                    self.stream.on_download_message(a, message);
                }
                None => self.stream.on_message(&message),
            }
        }
    }

    fn download(&mut self, index: usize) -> Result<(usize, Vec<u8>), ClientError> {
        let mut assembly = self.stream.download_piece(index)?;
        let mut rounds = 0;
        while !assembly.is_complete() {
            rounds += 1;
            assert!(rounds < 100, "the worker stalls");
            let mut written = Vec::new();
            for request in self.stream.make_request_for_block(&assembly) {
                written.extend(request.to_bytes());
            }
            let answer = self.peer.answer(&written);
            self.inbox.extend(answer);
            self.read_all(Some(&mut assembly));
        }
        Ok((index, assembly.build_piece_from_blocks()))
    }
}

struct Outcome {
    file: Vec<u8>,
    checkpoint: Vec<u8>,
    requeued: Vec<usize>,
    asked: Vec<(usize, usize)>,
}

/// Runs coordinator and workers in turn over in-memory queues and an
/// in-memory disk, until the download is complete or `stop_after` pieces
/// have been flushed.
fn run(
    client: &Client,
    workers: &mut [Worker],
    disk: Vec<u8>,
    checkpoint: Vec<u8>,
    stop_after: Option<usize>,
) -> Outcome {
    let info = &client.torrent_file.info;
    let mut file = disk;
    file.resize(info.length, 0);
    let mut checkpoint_file = checkpoint;
    let listed = read_checkpoint(&checkpoint_file).unwrap();
    let mut sink = TorrentPersisted::new(info.piece_length, info.length, listed.clone()).unwrap();
    let (mut state, work) = DownloadState::new(info.get_divided_pieces(), &listed);
    let mut queue: std::collections::VecDeque<usize> = work.into_iter().collect();
    let mut requeued = Vec::new();
    let mut asked = Vec::new();
    let mut turn = 0;
    let mut idle = 0;
    let mut flush = |sink: &mut TorrentPersisted, file: &mut Vec<u8>, checkpoint_file: &mut Vec<u8>| {
        let plan = sink.write_pieces();
        for (k, (_, bytes)) in plan.pieces.iter().enumerate() {
            let offset = plan.offsets[k] as usize;
            file[offset..offset + bytes.len()].copy_from_slice(bytes);
        }
        *checkpoint_file = plan.checkpoint;
    };
    while !state.is_finished() {
        let index = queue.pop_front().expect("work is left while pieces are missing");
        let worker = &mut workers[turn % workers.len()];
        turn += 1;
        asked.push((worker.stream.id, index));
        match worker.download(index) {
            Ok((index, bytes)) => {
                idle = 0;
                match state.on_piece(index, &bytes) {
                    CoordinatorAction::Stage { flush: now, finished } => {
                        assert!(sink.stage(index, bytes));
                        if now || finished || stop_after.is_some() {
                            flush(&mut sink, &mut file, &mut checkpoint_file);
                        }
                        if let Some(limit) = stop_after {
                            if state.completed_count >= limit {
                                break;
                            }
                        }
                    }
                    CoordinatorAction::Requeue => {
                        requeued.push(index);
                        queue.push_back(index);
                    }
                    CoordinatorAction::Discard => {}
                }
            }
            Err(error) => {
                assert_eq!(after_failure(error), WorkerAction::RequeueAndContinue);
                queue.push_front(index);
                idle += 1;
                assert!(idle <= workers.len(), "no worker can serve the piece");
            }
        }
    }
    if state.is_finished() {
        flush(&mut sink, &mut file, &mut checkpoint_file);
    }
    Outcome { file, checkpoint: checkpoint_file, requeued, asked }
}

#[test]
fn single_piece_single_peer() {
    let pieces = vec![vec![b'A'; 16384]];
    let client = Client::new(&metainfo(16384, &pieces)).ok().unwrap();
    assert_eq!(client.torrent_file.info.piece_length, 16384);
    assert_eq!(client.torrent_file.info.length, 16384);
    assert_eq!(
        client.torrent_file.info.get_divided_pieces(),
        vec![digest(&vec![b'A'; 16384])]
    );
    let hash = client.torrent_file.compute_info_hash();
    let mut workers = vec![Worker::connect(1, &client, MockPeer::new(hash, &pieces, &[0]))];
    let outcome = run(&client, &mut workers, vec![], vec![], None);
    assert_eq!(outcome.file, vec![b'A'; 16384]);
    assert_eq!(workers[0].peer.served, 1);
    assert_eq!(read_checkpoint(&outcome.checkpoint), Some(vec![0]));
    assert!(outcome.requeued.is_empty());
}

fn two_pieces() -> Vec<Vec<u8>> {
    let first: Vec<u8> = (0..16384).map(|i| (i % 251) as u8).collect();
    let second: Vec<u8> = (0..3616).map(|i| (i % 13 + 100) as u8).collect();
    vec![first, second]
}

#[test]
fn two_pieces_last_short() {
    let pieces = two_pieces();
    assert_eq!(pieces[1].len(), 3616);
    let client = Client::new(&metainfo(16384, &pieces)).ok().unwrap();
    assert_eq!(client.torrent_file.info.length, 20000);
    let hash = client.torrent_file.compute_info_hash();
    let mut workers = vec![
        Worker::connect(1, &client, MockPeer::new(hash, &pieces, &[0, 1])),
        Worker::connect(2, &client, MockPeer::new(hash, &pieces, &[0, 1])),
    ];
    let outcome = run(&client, &mut workers, vec![], vec![], None);
    assert_eq!(outcome.file, [pieces[0].clone(), pieces[1].clone()].concat());
    assert_eq!(outcome.asked, vec![(1, 0), (2, 1)]);
    assert_eq!(workers[0].peer.served, 1);
    assert_eq!(workers[1].peer.served, 1);
}

#[test]
fn peer_without_the_piece() {
    let pieces = two_pieces();
    let client = Client::new(&metainfo(16384, &pieces)).ok().unwrap();
    let hash = client.torrent_file.compute_info_hash();
    let peer_a = MockPeer::new(hash, &pieces, &[0]);
    let peer_b = MockPeer::new(hash, &pieces, &[1]);
    assert_eq!(peer_a.bitfield, vec![0b1000_0000]);
    assert_eq!(peer_b.bitfield, vec![0b0100_0000]);
    let mut crossed = vec![
        Worker::connect(1, &client, peer_b),
        Worker::connect(2, &client, peer_a),
    ];
    assert_eq!(
        crossed[0].download(0).err(),
        Some(ClientError::PieceNotPresent(0))
    );
    assert_eq!(crossed[0].stream.phase, PeerPhase::Ready);
    let outcome = run(&client, &mut crossed, vec![], vec![], None);
    assert_eq!(outcome.file, [pieces[0].clone(), pieces[1].clone()].concat());
    assert_eq!(crossed[0].peer.served, 1);
    assert_eq!(crossed[1].peer.served, 1);
    assert!(outcome.requeued.is_empty());
}

#[test]
fn corrupted_block() {
    let pieces = vec![vec![b'A'; 16384]];
    let client = Client::new(&metainfo(16384, &pieces)).ok().unwrap();
    let hash = client.torrent_file.compute_info_hash();
    let mut peer = MockPeer::new(hash, &pieces, &[0]);
    peer.corrupt_first = true;
    let mut workers = vec![Worker::connect(1, &client, peer)];
    let outcome = run(&client, &mut workers, vec![], vec![], None);
    assert_eq!(outcome.file, vec![b'A'; 16384]);
    assert_eq!(outcome.requeued, vec![0]);
    assert_eq!(outcome.asked, vec![(1, 0), (1, 0)]);
    assert_eq!(workers[0].peer.served, 2);
}

#[test]
fn resume() {
    let pieces = two_pieces();
    let client = Client::new(&metainfo(16384, &pieces)).ok().unwrap();
    let hash = client.torrent_file.compute_info_hash();
    let mut workers = vec![Worker::connect(1, &client, MockPeer::new(hash, &pieces, &[0, 1]))];
    let interrupted = run(&client, &mut workers, vec![], vec![], Some(1));
    assert_eq!(read_checkpoint(&interrupted.checkpoint), Some(vec![0]));
    assert_eq!(&interrupted.file[..16384], &pieces[0][..]);
    assert_eq!(&interrupted.file[16384..], &vec![0u8; 3616][..]);

    let listed = read_checkpoint(&interrupted.checkpoint).unwrap();
    let (_, work) = DownloadState::new(client.torrent_file.info.get_divided_pieces(), &listed);
    assert_eq!(work, vec![1]);

    let mut workers = vec![Worker::connect(1, &client, MockPeer::new(hash, &pieces, &[0, 1]))];
    let resumed = run(
        &client,
        &mut workers,
        interrupted.file,
        interrupted.checkpoint,
        None,
    );
    assert_eq!(resumed.asked, vec![(1, 1)]);
    assert_eq!(workers[0].peer.served, 1);
    assert_eq!(resumed.file, [pieces[0].clone(), pieces[1].clone()].concat());
    assert_eq!(read_checkpoint(&resumed.checkpoint), Some(vec![0, 1]));
}

#[test]
fn compact_peer_list() {
    let groups: Vec<[u8; 6]> = vec![
        [127, 0, 0, 1, 0x1a, 0xe1],
        [203, 0, 113, 7, 0xc8, 0xd5],
        [10, 20, 30, 40, 0x00, 0x50],
        [8, 8, 8, 8, 0x01, 0x00],
    ];
    let compact: Vec<u8> = groups.iter().flat_map(|g| g.to_vec()).collect();
    let body = encode_bencode(&BencodeValue::Dictionary(vec![
        entry("interval", BencodeValue::Integer(b"1800".to_vec())),
        entry("peers", BencodeValue::String(compact)),
    ]));
    match Client::after_announce(1, 0, Some(&body)) {
        TrackerStep::Found(peers) => {
            let found: Vec<(String, usize)> =
                peers.iter().map(|p| (p.ip.clone(), p.port)).collect();
            assert_eq!(
                found,
                vec![
                    ("127.0.0.1".to_string(), 6881),
                    ("203.0.113.7".to_string(), 51413),
                    ("10.20.30.40".to_string(), 80),
                    ("8.8.8.8".to_string(), 256),
                ]
            );
            assert_eq!(peers.len(), groups.len());
        }
        other => panic!("unexpected step {:?}", other),
    }
}
