use sha1::{Digest, Sha1};
use torrent_client::request::client::{
    Client, ClientError, CoordinatorAction, DownloadState, TrackerStep, CHECKPOINT_EVERY,
};

fn digest(bytes: &[u8]) -> [u8; 20] {
    Sha1::digest(bytes).into()
}

fn piece(index: usize) -> Vec<u8> {
    (0..64).map(|i| (index * 31 + i) as u8).collect()
}

fn state(count: usize, checkpoint: &[usize]) -> (DownloadState, Vec<usize>) {
    let hashes: Vec<[u8; 20]> = (0..count).map(|i| digest(&piece(i))).collect();
    DownloadState::new(hashes, &checkpoint.to_vec())
}

#[test]
fn piece_hash_check() {
    let bytes = b"The quick brown fox jumps over the lazy dog".to_vec();
    let expected: [u8; 20] = [
        0x2f, 0xd4, 0xe1, 0xc6, 0x7a, 0x2d, 0x28, 0xfc, 0xed, 0x84, 0x9e, 0xe1, 0xbb, 0x76, 0xe7,
        0x39, 0x1b, 0x93, 0xeb, 0x12,
    ];
    assert!(Client::piece_hash_is_correct(&bytes, expected));
    let mut tampered = bytes.clone();
    tampered[3] ^= 1;
    assert!(!Client::piece_hash_is_correct(&tampered, expected));
    let mut other = expected;
    other[19] ^= 1;
    assert!(!Client::piece_hash_is_correct(&bytes, other));
    let empty: [u8; 20] = [
        0xda, 0x39, 0xa3, 0xee, 0x5e, 0x6b, 0x4b, 0x0d, 0x32, 0x55, 0xbf, 0xef, 0x95, 0x60, 0x18,
        0x90, 0xaf, 0xd8, 0x07, 0x09,
    ];
    assert!(Client::piece_hash_is_correct(&vec![], empty));
    assert!(Client::digest_is_correct(&empty, &empty));
    assert!(!Client::digest_is_correct(&empty, &expected));
}

#[test]
fn work_is_every_piece_at_a_fresh_start() {
    let (state, work) = state(5, &[]);
    assert_eq!(work, vec![0, 1, 2, 3, 4]);
    assert_eq!(state.completed, vec![false; 5]);
    assert_eq!(state.completed_count, 0);
    assert!(!state.is_finished());
}

#[test]
fn work_skips_what_the_checkpoint_lists() {
    let (state, work) = state(6, &[4, 0, 4, 17]);
    assert_eq!(work, vec![1, 2, 3, 5]);
    assert_eq!(state.completed, vec![true, false, false, false, true, false]);
    assert_eq!(state.completed_count, 2);
    let (state, work) = self::state(3, &[2, 1, 0]);
    assert_eq!(work, Vec::<usize>::new());
    assert!(state.is_finished());
    let (state, work) = self::state(0, &[]);
    assert_eq!(work, Vec::<usize>::new());
    assert!(state.is_finished());
}

#[test]
fn good_piece_is_staged() {
    let (mut state, _) = state(3, &[]);
    assert_eq!(
        state.on_piece(1, &piece(1)),
        CoordinatorAction::Stage { flush: false, finished: false }
    );
    assert_eq!(state.completed, vec![false, true, false]);
    assert_eq!(state.completed_count, 1);
    assert_eq!(
        state.on_piece(0, &piece(0)),
        CoordinatorAction::Stage { flush: false, finished: false }
    );
    assert_eq!(
        state.on_piece(2, &piece(2)),
        CoordinatorAction::Stage { flush: false, finished: true }
    );
    assert!(state.is_finished());
}

#[test]
fn tampered_piece_is_requeued() {
    let (mut state, _) = state(2, &[]);
    for position in [0usize, 17, 63] {
        let mut bytes = piece(0);
        bytes[position] ^= 0x01;
        assert_eq!(state.on_piece(0, &bytes), CoordinatorAction::Requeue);
        assert_eq!(state.completed, vec![false, false]);
        assert_eq!(state.completed_count, 0);
    }
    assert_eq!(state.on_piece(0, &piece(1)), CoordinatorAction::Requeue);
    assert_eq!(state.on_piece(0, &[]), CoordinatorAction::Requeue);
    assert_eq!(
        state.on_piece(0, &piece(0)),
        CoordinatorAction::Stage { flush: false, finished: false }
    );
}

#[test]
fn repeated_or_foreign_piece_is_dropped() {
    let (mut state, _) = state(2, &[1]);
    assert_eq!(state.on_piece(1, &piece(1)), CoordinatorAction::Discard);
    assert_eq!(state.on_piece(1, &piece(0)), CoordinatorAction::Discard);
    assert_eq!(state.on_piece(2, &piece(0)), CoordinatorAction::Discard);
    assert_eq!(state.on_piece(usize::MAX, &piece(0)), CoordinatorAction::Discard);
    assert_eq!(state.completed_count, 1);
    assert_eq!(
        state.on_piece(0, &piece(0)),
        CoordinatorAction::Stage { flush: false, finished: true }
    );
    assert_eq!(state.on_piece(0, &piece(0)), CoordinatorAction::Discard);
    assert_eq!(state.completed_count, 2);
}

#[test]
fn digest_decides_not_the_bytes() {
    let (mut state, _) = state(2, &[]);
    assert_eq!(
        state.on_piece_digest(1, &digest(&piece(0))),
        CoordinatorAction::Requeue
    );
    assert_eq!(
        state.on_piece_digest(1, &digest(&piece(1))),
        CoordinatorAction::Stage { flush: false, finished: false }
    );
}

#[test]
fn sink_is_flushed_every_hundred_pieces() {
    assert_eq!(CHECKPOINT_EVERY, 100);
    let (mut state, work) = state(250, &[]);
    assert_eq!(work.len(), 250);
    let mut flushed_at = Vec::new();
    for index in (0..250).rev() {
        match state.on_piece(index, &piece(index)) {
            CoordinatorAction::Stage { flush, finished } => {
                if flush {
                    flushed_at.push(state.completed_count);
                }
                assert_eq!(finished, index == 0);
            }
            other => panic!("unexpected action {:?}", other),
        }
    }
    assert_eq!(flushed_at, vec![100, 200]);
    assert!(state.is_finished());
}

#[test]
fn flush_counts_pieces_of_the_checkpoint() {
    let checkpoint: Vec<usize> = (0..99).collect();
    let (mut state, work) = state(120, &checkpoint);
    assert_eq!(work, (99..120).collect::<Vec<usize>>());
    assert_eq!(
        state.on_piece(110, &piece(110)),
        CoordinatorAction::Stage { flush: true, finished: false }
    );
    assert_eq!(
        state.on_piece(111, &piece(111)),
        CoordinatorAction::Stage { flush: false, finished: false }
    );
}

#[test]
fn tracker_search_starts_with_the_first_url() {
    assert!(matches!(Client::first_tracker(3), TrackerStep::Ask(0)));
    assert!(matches!(Client::first_tracker(1), TrackerStep::Ask(0)));
    assert!(matches!(
        Client::first_tracker(0),
        TrackerStep::Failed(ClientError::TrackerUnreachable)
    ));
}

#[test]
fn tracker_search_falls_back_to_the_next_url() {
    assert!(matches!(Client::after_announce(3, 0, None), TrackerStep::Ask(1)));
    assert!(matches!(
        Client::after_announce(3, 1, Some(b"<html>busy</html>")),
        TrackerStep::Ask(2)
    ));
    assert!(matches!(
        Client::after_announce(3, 1, Some(b"d14:failure reason4:nopee")),
        TrackerStep::Ask(2)
    ));
    assert!(matches!(
        Client::after_announce(3, 2, None),
        TrackerStep::Failed(ClientError::TrackerUnreachable)
    ));
    assert!(matches!(
        Client::after_announce(3, usize::MAX, None),
        TrackerStep::Failed(ClientError::TrackerUnreachable)
    ));
    assert!(matches!(
        Client::after_announce(0, 0, Some(b"garbage")),
        TrackerStep::Failed(ClientError::TrackerUnreachable)
    ));
}

#[test]
fn tracker_search_ends_with_the_first_answer() {
    let body = [
        b"d8:intervali60e5:peers12:".to_vec(),
        vec![10, 0, 0, 1, 0x1a, 0xe1, 10, 0, 0, 1, 0x1a, 0xe1],
        b"e".to_vec(),
    ]
    .concat();
    match Client::after_announce(3, 0, Some(&body)) {
        TrackerStep::Found(peers) => {
            assert_eq!(peers.len(), 1);
            assert_eq!(peers[0].ip, "10.0.0.1");
            assert_eq!(peers[0].port, 6881);
        }
        other => panic!("unexpected step {:?}", other),
    }
    assert!(matches!(
        Client::after_announce(3, 0, Some(b"d5:peers0:e")),
        TrackerStep::Failed(ClientError::NoPeers)
    ));
    assert!(matches!(
        Client::after_announce(3, 2, Some(b"d5:peerslee")),
        TrackerStep::Failed(ClientError::NoPeers)
    ));
}
