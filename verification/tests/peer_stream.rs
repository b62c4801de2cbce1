use torrent_client::parser::bencode::{encode_bencode, BencodeValue};
use torrent_client::request::client::{Client, ClientError};
use torrent_client::request::handshake::Handshake;
use torrent_client::request::peer_stream::{after_failure, PeerPhase, PeerStream, WorkerAction};
use torrent_client::request::piece_assembly::{count_blocks, PieceAssembly};
use torrent_client::request::torrent_message::TorrentMessage;

fn entry(key: &str, value: BencodeValue) -> (Vec<u8>, BencodeValue) {
    (key.as_bytes().to_vec(), value)
}

fn client(length: usize, piece_length: usize) -> Client {
    let count = (length + piece_length - 1) / piece_length;
    let info = BencodeValue::Dictionary(vec![
        entry("length", BencodeValue::Integer(length.to_string().into_bytes())),
        entry("name", BencodeValue::String(b"out.bin".to_vec())),
        entry(
            "piece length",
            BencodeValue::Integer(piece_length.to_string().into_bytes()),
        ),
        entry("pieces", BencodeValue::String(vec![0x5a; 20 * count])),
    ]);
    let bytes = encode_bencode(&BencodeValue::Dictionary(vec![entry("info", info)]));
    Client::new(&bytes).ok().unwrap()
}

fn fresh(length: usize, piece_length: usize) -> PeerStream {
    let client = client(length, piece_length);
    PeerStream::new(3, &client.torrent_file, &client.client_peer_id)
        .ok()
        .unwrap()
}

fn greeted(length: usize, piece_length: usize) -> PeerStream {
    let mut stream = fresh(length, piece_length);
    let reply = Handshake::new(stream.info_hash, [b'p'; 20]).to_bytes();
    assert_eq!(stream.make_handshake(&reply), Ok(TorrentMessage::Interested));
    stream
}

fn ready(length: usize, piece_length: usize, bitfield: Vec<u8>) -> PeerStream {
    let mut stream = greeted(length, piece_length);
    stream.on_message(&TorrentMessage::Bitfield { bitfield });
    stream.on_message(&TorrentMessage::Unchoke);
    assert_eq!(stream.phase, PeerPhase::Ready);
    stream
}

#[test]
fn new_stream_waits_for_the_handshake() {
    let client = client(20000, 16384);
    let stream = PeerStream::new(3, &client.torrent_file, &client.client_peer_id)
        .ok()
        .unwrap();
    assert_eq!(stream.id, 3);
    assert_eq!(stream.phase, PeerPhase::Handshaking);
    assert_eq!(stream.piece_length, 16384);
    assert_eq!(stream.total_length, 20000);
    assert_eq!(stream.info_hash, client.torrent_file.compute_info_hash());
    assert_eq!(stream.peer_id, *b"01234567890123456789");
    assert_eq!(stream.bitfield, None);
    assert!(!stream.unchoked);
    let handshake = stream.handshake();
    assert_eq!(handshake, Handshake::new(stream.info_hash, stream.peer_id));
    assert_eq!(handshake.to_bytes()[0], 19);
}

#[test]
fn pieces_beyond_the_protocol_are_refused() {
    let huge = client(4_294_967_296, 4_294_967_296);
    assert_eq!(
        PeerStream::new(1, &huge.torrent_file, &huge.client_peer_id).err(),
        Some(ClientError::InvalidMetainfo)
    );
    let largest = client(4_294_967_295, 4_294_967_295);
    assert!(PeerStream::new(1, &largest.torrent_file, &largest.client_peer_id).is_ok());
}

#[test]
fn handshake_moves_on_to_discovery() {
    let stream = greeted(20000, 16384);
    assert_eq!(stream.phase, PeerPhase::Discovering);
}

#[test]
fn short_handshake_kills_the_connection() {
    let mut stream = fresh(20000, 16384);
    let reply = Handshake::new(stream.info_hash, [b'p'; 20]).to_bytes();
    assert_eq!(
        stream.make_handshake(&reply[..40]),
        Err(ClientError::HandshakeFailed)
    );
    assert_eq!(stream.phase, PeerPhase::Dead);
}

#[test]
fn handshake_for_another_torrent_kills_the_connection() {
    let mut stream = fresh(20000, 16384);
    let mut other = stream.info_hash;
    other[0] ^= 0x80;
    let reply = Handshake::new(other, [b'p'; 20]).to_bytes();
    assert_eq!(
        stream.make_handshake(&reply),
        Err(ClientError::ServerDoesNotHaveFile)
    );
    assert_eq!(stream.phase, PeerPhase::Dead);
}

#[test]
fn ready_needs_bitfield_and_unchoke() {
    let mut stream = greeted(20000, 16384);
    stream.on_message(&TorrentMessage::Unchoke);
    assert_eq!(stream.phase, PeerPhase::Discovering);
    stream.on_message(&TorrentMessage::KeepAlive);
    stream.on_message(&TorrentMessage::Have { index: 0 });
    assert_eq!(stream.bitfield, None);
    assert_eq!(stream.phase, PeerPhase::Discovering);
    stream.on_message(&TorrentMessage::Bitfield { bitfield: vec![0b1000_0000] });
    assert_eq!(stream.phase, PeerPhase::Ready);

    let mut stream = greeted(20000, 16384);
    stream.on_message(&TorrentMessage::Bitfield { bitfield: vec![0b1000_0000] });
    assert_eq!(stream.phase, PeerPhase::Discovering);
    stream.on_message(&TorrentMessage::Unknown { id: 20 });
    stream.on_message(&TorrentMessage::Interested);
    assert_eq!(stream.phase, PeerPhase::Discovering);
    stream.on_message(&TorrentMessage::Unchoke);
    assert_eq!(stream.phase, PeerPhase::Ready);
}

#[test]
fn choke_during_discovery_resets_the_unchoke() {
    let mut stream = greeted(20000, 16384);
    stream.on_message(&TorrentMessage::Unchoke);
    stream.on_message(&TorrentMessage::Choke);
    stream.on_message(&TorrentMessage::Bitfield { bitfield: vec![0xc0] });
    assert_eq!(stream.phase, PeerPhase::Discovering);
    stream.on_message(&TorrentMessage::Unchoke);
    assert_eq!(stream.phase, PeerPhase::Ready);
}

#[test]
fn choke_and_unchoke_cycle() {
    let mut stream = ready(20000, 16384, vec![0xc0]);
    stream.on_message(&TorrentMessage::Choke);
    assert_eq!(stream.phase, PeerPhase::Throttled);
    let assembly = PieceAssembly::new(0, 16384);
    assert!(stream.make_request_for_block(&assembly).is_empty());
    stream.on_message(&TorrentMessage::KeepAlive);
    assert_eq!(stream.phase, PeerPhase::Throttled);
    stream.on_message(&TorrentMessage::Unchoke);
    assert_eq!(stream.phase, PeerPhase::Ready);
    assert_eq!(stream.make_request_for_block(&assembly).len(), 1);
}

#[test]
fn have_marks_a_piece_in_a_known_bitfield() {
    let mut stream = ready(16384 * 12, 16384, vec![0b1000_0000, 0]);
    assert!(stream.peer_has(0));
    assert!(!stream.peer_has(9));
    stream.on_message(&TorrentMessage::Have { index: 9 });
    assert_eq!(stream.bitfield, Some(vec![0b1000_0000, 0b0100_0000]));
    assert!(stream.peer_has(9));
    stream.on_message(&TorrentMessage::Have { index: 9 });
    stream.on_message(&TorrentMessage::Have { index: 15 });
    stream.on_message(&TorrentMessage::Have { index: 16 });
    stream.on_message(&TorrentMessage::Have { index: u32::MAX });
    assert_eq!(stream.bitfield, Some(vec![0b1000_0000, 0b0100_0001]));
    assert_eq!(stream.phase, PeerPhase::Ready);
}

#[test]
fn dead_connection_ignores_messages() {
    let mut stream = ready(20000, 16384, vec![0xc0]);
    assert_eq!(stream.on_io_error(), ClientError::PeerIo);
    assert_eq!(stream.phase, PeerPhase::Dead);
    stream.on_message(&TorrentMessage::Unchoke);
    stream.on_message(&TorrentMessage::Bitfield { bitfield: vec![0xff] });
    assert_eq!(stream.phase, PeerPhase::Dead);
    assert_eq!(stream.bitfield, Some(vec![0xc0]));
}

#[test]
fn messages_before_the_handshake_change_nothing() {
    let mut stream = fresh(20000, 16384);
    stream.on_message(&TorrentMessage::Bitfield { bitfield: vec![0xff] });
    stream.on_message(&TorrentMessage::Unchoke);
    assert_eq!(stream.phase, PeerPhase::Handshaking);
    assert_eq!(stream.bitfield, None);
    assert!(!stream.unchoked);
}

#[test]
fn piece_that_the_peer_lacks_is_not_present() {
    let stream = ready(20000, 16384, vec![0b1000_0000]);
    assert_eq!(
        stream.download_piece(1).err(),
        Some(ClientError::PieceNotPresent(1))
    );
    assert_eq!(stream.phase, PeerPhase::Ready);
    let assembly = stream.download_piece(0).ok().unwrap();
    assert_eq!(assembly.piece_index, 0);
    assert_eq!(assembly.piece_size, 16384);
}

#[test]
fn piece_beyond_the_torrent_is_not_present() {
    let stream = ready(20000, 16384, vec![0xff]);
    assert!(stream.download_piece(1).is_ok());
    assert_eq!(
        stream.download_piece(2).err(),
        Some(ClientError::PieceNotPresent(2))
    );
    assert_eq!(
        stream.download_piece(usize::MAX).err(),
        Some(ClientError::PieceNotPresent(usize::MAX))
    );
}

#[test]
fn last_piece_is_truncated() {
    let stream = ready(20000, 16384, vec![0xc0]);
    assert_eq!(stream.piece_count(), 2);
    assert_eq!(stream.piece_size(0), 16384);
    assert_eq!(stream.piece_size(1), 3616);
    let assembly = stream.download_piece(1).ok().unwrap();
    assert_eq!(assembly.piece_size, 3616);
    assert_eq!(assembly.blocks.len(), 1);
    assert_eq!(
        stream.make_request_for_block(&assembly),
        vec![TorrentMessage::Request { index: 1, begin: 0, length: 3616 }]
    );
}

#[test]
fn block_counts() {
    assert_eq!(count_blocks(1), 1);
    assert_eq!(count_blocks(16384), 1);
    assert_eq!(count_blocks(16385), 2);
    assert_eq!(count_blocks(3616), 1);
    assert_eq!(count_blocks(16384 * 25), 25);
    assert_eq!(count_blocks(16384 * 25 + 1), 26);
}

#[test]
fn at_most_twenty_requests_are_pipelined() {
    let piece_size = 16384 * 24 + 100;
    let mut assembly = PieceAssembly::new(5, piece_size);
    assert_eq!(assembly.blocks.len(), 25);
    let requests = assembly.next_requests();
    assert_eq!(requests.len(), 20);
    for (k, request) in requests.iter().enumerate() {
        assert_eq!(
            *request,
            TorrentMessage::Request { index: 5, begin: (k * 16384) as u32, length: 16384 }
        );
    }
    for k in [0usize, 1, 2, 4, 19, 21] {
        assert!(assembly.on_block(5, (k * 16384) as u32, vec![k as u8; 16384]));
    }
    let requests = assembly.next_requests();
    let begins: Vec<u32> = requests
        .iter()
        .map(|r| match r {
            TorrentMessage::Request { begin, .. } => *begin / 16384,
            _ => panic!("only requests are expected"),
        })
        .collect();
    let mut expected: Vec<u32> = (0..25u32)
        .filter(|k| ![0, 1, 2, 4, 19, 21].contains(k))
        .collect();
    assert_eq!(expected.len(), 19);
    assert_eq!(begins, expected);
    assert_eq!(
        requests[18],
        TorrentMessage::Request { index: 5, begin: 24 * 16384, length: 100 }
    );
    expected.clear();
}

#[test]
fn blocks_are_stored_once_and_only_if_they_fit() {
    let mut assembly = PieceAssembly::new(2, 16384 + 10);
    assert!(!assembly.is_complete());
    assert!(!assembly.on_block(3, 0, vec![1; 16384]));
    assert!(!assembly.on_block(2, 0, vec![1; 16383]));
    assert!(!assembly.on_block(2, 0, vec![1; 10]));
    assert!(!assembly.on_block(2, 16384, vec![1; 16384]));
    assert!(!assembly.on_block(2, 32768, vec![1; 10]));
    assert!(!assembly.on_block(2, u32::MAX, vec![]));
    assert_eq!(assembly.build_piece_from_blocks(), Vec::<u8>::new());
    assert!(assembly.on_block(2, 16384, vec![7; 10]));
    assert!(!assembly.on_block(2, 16384, vec![8; 10]));
    assert!(!assembly.is_complete());
    assert_eq!(assembly.build_piece_from_blocks(), vec![7; 10]);
    assert!(assembly.on_block(2, 0, vec![6; 16384]));
    assert!(assembly.is_complete());
    assert!(assembly.next_requests().is_empty());
    let mut expected = vec![6u8; 16384];
    expected.extend_from_slice(&[7; 10]);
    assert_eq!(assembly.build_piece_from_blocks(), expected);
}

#[test]
fn download_messages_are_dispatched() {
    let mut stream = ready(16384 * 3, 16384 * 3, vec![0x80]);
    let mut assembly = stream.download_piece(0).ok().unwrap();
    assert_eq!(stream.make_request_for_block(&assembly).len(), 3);
    assert!(!stream.on_download_message(&mut assembly, TorrentMessage::KeepAlive));
    assert!(stream.on_download_message(
        &mut assembly,
        TorrentMessage::Piece { index: 0, begin: 16384, block: vec![2; 16384] }
    ));
    assert!(!stream.on_download_message(&mut assembly, TorrentMessage::Choke));
    assert_eq!(stream.phase, PeerPhase::Throttled);
    assert!(stream.make_request_for_block(&assembly).is_empty());
    assert!(stream.on_download_message(
        &mut assembly,
        TorrentMessage::Piece { index: 0, begin: 0, block: vec![1; 16384] }
    ));
    assert!(!stream.on_download_message(&mut assembly, TorrentMessage::Unchoke));
    assert_eq!(stream.phase, PeerPhase::Ready);
    assert_eq!(
        stream.make_request_for_block(&assembly),
        vec![TorrentMessage::Request { index: 0, begin: 32768, length: 16384 }]
    );
    assert!(!stream.on_download_message(
        &mut assembly,
        TorrentMessage::Piece { index: 1, begin: 32768, block: vec![3; 16384] }
    ));
    assert!(stream.on_download_message(
        &mut assembly,
        TorrentMessage::Piece { index: 0, begin: 32768, block: vec![3; 16384] }
    ));
    assert!(assembly.is_complete());
    let piece = assembly.build_piece_from_blocks();
    assert_eq!(piece.len(), 16384 * 3);
    assert_eq!(piece[0], 1);
    assert_eq!(piece[16384], 2);
    assert_eq!(piece[32768], 3);
}

#[test]
fn frames_are_split_off_the_buffer() {
    assert_eq!(PeerStream::read_message(&[]), None);
    assert_eq!(PeerStream::read_message(&[0, 0, 0]), None);
    assert_eq!(PeerStream::read_message(&[0, 0, 0, 1]), None);
    assert_eq!(
        PeerStream::read_message(&[0, 0, 0, 0]),
        Some((TorrentMessage::KeepAlive, 4))
    );
    assert_eq!(
        PeerStream::read_message(&[0, 0, 0, 1, 1, 0, 0, 0, 5, 4]),
        Some((TorrentMessage::Unchoke, 5))
    );
    assert_eq!(PeerStream::read_message(&[0, 0, 0, 5, 4, 0, 0]), None);
    assert_eq!(
        PeerStream::read_message(&[0, 0, 0, 5, 4, 0, 0, 0, 8]),
        Some((TorrentMessage::Have { index: 8 }, 9))
    );
    assert_eq!(
        PeerStream::read_message(&[0, 0, 0, 2, 77, 1, 0]),
        Some((TorrentMessage::Unknown { id: 77 }, 6))
    );
    assert_eq!(PeerStream::read_message(&[0xff, 0xff, 0xff, 0xff, 7]), None);
}

#[test]
fn worker_goes_on_only_when_the_piece_is_lacking() {
    assert_eq!(
        after_failure(ClientError::PieceNotPresent(4)),
        WorkerAction::RequeueAndContinue
    );
    for error in [
        ClientError::PeerIo,
        ClientError::HandshakeFailed,
        ClientError::ConnectTimeout,
        ClientError::ServerDoesNotHaveFile,
        ClientError::ChannelClosed,
        ClientError::CorruptedPiece(1),
    ] {
        assert_eq!(after_failure(error), WorkerAction::RequeueAndExit);
    }
}
