use torrent_client::request::torrent_message::TorrentMessage;

fn every_message() -> Vec<TorrentMessage> {
    vec![
        TorrentMessage::KeepAlive,
        TorrentMessage::Choke,
        TorrentMessage::Unchoke,
        TorrentMessage::Interested,
        TorrentMessage::NotInterested,
        TorrentMessage::Have { index: 0x0102_0304 },
        TorrentMessage::Bitfield { bitfield: vec![0b1010_0000, 0xff] },
        TorrentMessage::Bitfield { bitfield: vec![] },
        TorrentMessage::Request { index: 7, begin: 16384, length: 3616 },
        TorrentMessage::Piece { index: 1, begin: 32768, block: vec![9, 8, 7, 6] },
        TorrentMessage::Piece { index: u32::MAX, begin: 0, block: vec![] },
        TorrentMessage::Cancel { index: 2, begin: 0, length: 16384 },
    ]
}

#[test]
fn request_bytes_are_exact() {
    let request = TorrentMessage::Request { index: 1, begin: 16384, length: 16384 };
    assert_eq!(
        request.to_bytes(),
        vec![0, 0, 0, 13, 6, 0, 0, 0, 1, 0, 0, 0x40, 0, 0, 0, 0x40, 0]
    );
}

#[test]
fn simple_message_bytes_are_exact() {
    assert_eq!(TorrentMessage::KeepAlive.to_bytes(), vec![0, 0, 0, 0]);
    assert_eq!(TorrentMessage::Choke.to_bytes(), vec![0, 0, 0, 1, 0]);
    assert_eq!(TorrentMessage::Unchoke.to_bytes(), vec![0, 0, 0, 1, 1]);
    assert_eq!(TorrentMessage::Interested.to_bytes(), vec![0, 0, 0, 1, 2]);
    assert_eq!(TorrentMessage::NotInterested.to_bytes(), vec![0, 0, 0, 1, 3]);
    assert_eq!(
        TorrentMessage::Have { index: 258 }.to_bytes(),
        vec![0, 0, 0, 5, 4, 0, 0, 1, 2]
    );
    assert_eq!(
        TorrentMessage::Bitfield { bitfield: vec![0x80, 0x01] }.to_bytes(),
        vec![0, 0, 0, 3, 5, 0x80, 0x01]
    );
    assert_eq!(
        TorrentMessage::Piece { index: 3, begin: 5, block: vec![0xaa, 0xbb] }.to_bytes(),
        vec![0, 0, 0, 11, 7, 0, 0, 0, 3, 0, 0, 0, 5, 0xaa, 0xbb]
    );
    assert_eq!(
        TorrentMessage::Cancel { index: 1, begin: 2, length: 3 }.to_bytes(),
        vec![0, 0, 0, 13, 8, 0, 0, 0, 1, 0, 0, 0, 2, 0, 0, 0, 3]
    );
}

#[test]
fn what_is_no_message_has_no_bytes() {
    assert_eq!(TorrentMessage::Unknown { id: 20 }.to_bytes(), Vec::<u8>::new());
    assert_eq!(TorrentMessage::Malformed { id: 4 }.to_bytes(), Vec::<u8>::new());
}

#[test]
fn read_gives_back_what_was_written() {
    for message in every_message() {
        let bytes = message.to_bytes();
        let length = u32::from_be_bytes([bytes[0], bytes[1], bytes[2], bytes[3]]) as usize;
        assert_eq!(length, bytes.len() - 4);
        assert_eq!(TorrentMessage::read(&bytes[4..]), message);
    }
}

#[test]
fn read_each_kind() {
    assert_eq!(TorrentMessage::read(&[]), TorrentMessage::KeepAlive);
    assert_eq!(TorrentMessage::read(&[0]), TorrentMessage::Choke);
    assert_eq!(TorrentMessage::read(&[1]), TorrentMessage::Unchoke);
    assert_eq!(TorrentMessage::read(&[2]), TorrentMessage::Interested);
    assert_eq!(TorrentMessage::read(&[3]), TorrentMessage::NotInterested);
    assert_eq!(
        TorrentMessage::read(&[4, 0, 0, 0, 9]),
        TorrentMessage::Have { index: 9 }
    );
    assert_eq!(
        TorrentMessage::read(&[5, 0xc0, 0x81]),
        TorrentMessage::Bitfield { bitfield: vec![0xc0, 0x81] }
    );
    assert_eq!(
        TorrentMessage::read(&[7, 0, 0, 0, 1, 0, 0, 0x40, 0, 1, 2, 3]),
        TorrentMessage::Piece { index: 1, begin: 16384, block: vec![1, 2, 3] }
    );
    assert_eq!(
        TorrentMessage::read(&[6, 0, 0, 0, 1, 0, 0, 0, 2, 0, 0, 0, 3]),
        TorrentMessage::Request { index: 1, begin: 2, length: 3 }
    );
    assert_eq!(
        TorrentMessage::read(&[8, 0xff, 0xff, 0xff, 0xff, 0, 0, 0, 2, 0, 0, 0, 3]),
        TorrentMessage::Cancel { index: u32::MAX, begin: 2, length: 3 }
    );
}

#[test]
fn unknown_kinds_are_not_fatal() {
    assert_eq!(TorrentMessage::read(&[9, 0x1a, 0xe1]), TorrentMessage::Unknown { id: 9 });
    assert_eq!(TorrentMessage::read(&[20, 1, 2, 3]), TorrentMessage::Unknown { id: 20 });
    assert_eq!(TorrentMessage::read(&[255]), TorrentMessage::Unknown { id: 255 });
}

#[test]
fn wrong_lengths_are_malformed() {
    assert_eq!(TorrentMessage::read(&[0, 1]), TorrentMessage::Malformed { id: 0 });
    assert_eq!(TorrentMessage::read(&[1, 0]), TorrentMessage::Malformed { id: 1 });
    assert_eq!(TorrentMessage::read(&[4, 0, 0, 1]), TorrentMessage::Malformed { id: 4 });
    assert_eq!(TorrentMessage::read(&[4, 0, 0, 0, 1, 0]), TorrentMessage::Malformed { id: 4 });
    assert_eq!(TorrentMessage::read(&[6, 0, 0, 0, 1]), TorrentMessage::Malformed { id: 6 });
    assert_eq!(TorrentMessage::read(&[7, 0, 0, 0, 1, 0, 0, 0]), TorrentMessage::Malformed { id: 7 });
    assert_eq!(TorrentMessage::read(&[8]), TorrentMessage::Malformed { id: 8 });
}

#[test]
fn source_has_piece_reads_the_bitfield() {
    let bitfield = TorrentMessage::Bitfield { bitfield: vec![0b1100_0000, 0b1000_0001] };
    assert!(bitfield.source_has_piece(0));
    assert!(bitfield.source_has_piece(1));
    assert!(!bitfield.source_has_piece(2));
    assert!(bitfield.source_has_piece(8));
    assert!(!bitfield.source_has_piece(14));
    assert!(bitfield.source_has_piece(15));
    assert!(!TorrentMessage::Unchoke.source_has_piece(0));
    assert!(!TorrentMessage::Have { index: 3 }.source_has_piece(3));
}

#[test]
fn has_piece_is_false_beyond_the_bitfield() {
    let bitfield = TorrentMessage::Bitfield { bitfield: vec![0b1100_0000, 0b1000_0001] };
    assert!(bitfield.has_piece(15));
    assert!(!bitfield.has_piece(16));
    assert!(!bitfield.has_piece(1000));
    assert!(!TorrentMessage::Bitfield { bitfield: vec![] }.has_piece(0));
    assert!(!TorrentMessage::KeepAlive.has_piece(0));
}
