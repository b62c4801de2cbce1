use sha1::{Digest, Sha1};
use torrent_client::parser::bencode::{encode_bencode, parse_bencode, BencodeValue};
use torrent_client::parser::torrent_file::{client_peer_id, TorrentFile, TorrentInfo};
use torrent_client::request::client::{Client, ClientError};
use torrent_client::traits::from_bencode::CreateFromBencode;

fn text(s: &str) -> BencodeValue {
    BencodeValue::String(s.as_bytes().to_vec())
}

fn number(n: usize) -> BencodeValue {
    BencodeValue::Integer(n.to_string().into_bytes())
}

fn entry(key: &str, value: BencodeValue) -> (Vec<u8>, BencodeValue) {
    (key.as_bytes().to_vec(), value)
}

fn info(name: &str, length: usize, piece_length: usize, pieces: Vec<u8>) -> BencodeValue {
    BencodeValue::Dictionary(vec![
        entry("length", number(length)),
        entry("name", text(name)),
        entry("piece length", number(piece_length)),
        entry("pieces", BencodeValue::String(pieces)),
    ])
}

fn tiers(list: &[&[&str]]) -> BencodeValue {
    BencodeValue::List(
        list.iter()
            .map(|tier| BencodeValue::List(tier.iter().map(|url| text(url)).collect()))
            .collect(),
    )
}

fn metainfo(announce: Option<&str>, announce_list: Option<&[&[&str]]>, info: BencodeValue) -> BencodeValue {
    let mut entries = Vec::new();
    if let Some(url) = announce {
        entries.push(entry("announce", text(url)));
    }
    if let Some(list) = announce_list {
        entries.push(entry("announce-list", tiers(list)));
    }
    entries.push(entry("info", info));
    BencodeValue::Dictionary(entries)
}

fn hashes(count: usize) -> Vec<u8> {
    (0..count * 20).map(|i| (i * 13 % 256) as u8).collect()
}

fn escaped(bytes: &[u8]) -> String {
    let mut out = String::new();
    for &b in bytes {
        if b.is_ascii_alphanumeric() {
            out.push(b as char);
        } else {
            out.push_str(&format!("%{:02X}", b));
        }
    }
    out
}

#[test]
fn metainfo_fields_are_read() {
    let value = metainfo(
        Some("http://tracker.example/announce"),
        None,
        info("file.bin", 20000, 16384, hashes(2)),
    );
    let file = TorrentFile::parse(&value).unwrap();
    assert_eq!(file.announce, Some("http://tracker.example/announce".to_string()));
    assert_eq!(file.announce_list, None);
    assert_eq!(file.comment, None);
    assert_eq!(file.info.name, "file.bin");
    assert_eq!(file.info.length, 20000);
    assert_eq!(file.info.piece_length, 16384);
    assert_eq!(file.info.pieces, hashes(2));
    assert_eq!(
        file.info_encoded,
        encode_bencode(&info("file.bin", 20000, 16384, hashes(2)))
    );
}

#[test]
fn metainfo_from_bytes() {
    let bytes = encode_bencode(&metainfo(
        Some("http://t/a"),
        Some(&[&["http://one/a", "http://two/a"], &["http://three/a"]]),
        info("n", 1, 1, hashes(1)),
    ));
    let client = Client::new(&bytes).ok().unwrap();
    assert_eq!(client.client_peer_id, *b"01234567890123456789");
    assert_eq!(client.client_peer_id, client_peer_id());
    assert_eq!(
        client.torrent_file.announce_list,
        Some(vec![
            vec!["http://one/a".to_string(), "http://two/a".to_string()],
            vec!["http://three/a".to_string()],
        ])
    );
    assert_eq!(client.torrent_file.info.length, 1);
}

#[test]
fn client_rejects_what_is_not_bencode() {
    assert_eq!(Client::new(b"").err(), Some(ClientError::ParseBencode));
    assert_eq!(Client::new(b"d4:info").err(), Some(ClientError::ParseBencode));
    assert_eq!(Client::new(b"i03e").err(), Some(ClientError::ParseBencode));
}

#[test]
fn client_rejects_what_is_no_metainfo() {
    assert_eq!(Client::new(b"i3e").err(), Some(ClientError::InvalidMetainfo));
    assert_eq!(Client::new(b"de").err(), Some(ClientError::InvalidMetainfo));
    assert_eq!(Client::new(b"d4:infodee").err(), Some(ClientError::InvalidMetainfo));
}

#[test]
fn metainfo_needs_consistent_piece_count() {
    let parse = |length, piece_length, count| {
        TorrentFile::parse(&metainfo(None, None, info("n", length, piece_length, hashes(count))))
            .is_some()
    };
    assert!(parse(20000, 16384, 2));
    assert!(!parse(20000, 16384, 1));
    assert!(!parse(20000, 16384, 3));
    assert!(parse(16384, 16384, 1));
    assert!(!parse(16384, 16384, 2));
    assert!(parse(16385, 16384, 2));
    assert!(parse(5, 1, 5));
    assert!(!parse(0, 16384, 0));
    assert!(!parse(16384, 0, 1));
    let mut ragged = hashes(2);
    ragged.pop();
    assert!(TorrentFile::parse(&metainfo(None, None, info("n", 20000, 16384, ragged))).is_none());
}

#[test]
fn metainfo_needs_every_info_field() {
    let whole = info("n", 5, 5, hashes(1));
    assert!(TorrentFile::parse(&metainfo(None, None, whole)).is_some());
    for missing in 0..4 {
        let mut entries = vec![
            entry("length", number(5)),
            entry("name", text("n")),
            entry("piece length", number(5)),
            entry("pieces", BencodeValue::String(hashes(1))),
        ];
        entries.remove(missing);
        let value = metainfo(None, None, BencodeValue::Dictionary(entries));
        assert!(TorrentFile::parse(&value).is_none());
    }
    let wrong_kind = BencodeValue::Dictionary(vec![
        entry("length", text("5")),
        entry("name", text("n")),
        entry("piece length", number(5)),
        entry("pieces", BencodeValue::String(hashes(1))),
    ]);
    assert!(TorrentFile::parse(&metainfo(None, None, wrong_kind)).is_none());
    let bad_name = BencodeValue::Dictionary(vec![
        entry("length", number(5)),
        entry("name", BencodeValue::String(vec![0xff])),
        entry("piece length", number(5)),
        entry("pieces", BencodeValue::String(hashes(1))),
    ]);
    assert!(TorrentFile::parse(&metainfo(None, None, bad_name)).is_none());
    assert!(TorrentFile::parse(&text("info")).is_none());
}

#[test]
fn metainfo_rejects_malformed_announce() {
    let good = info("n", 5, 5, hashes(1));
    let value = BencodeValue::Dictionary(vec![
        entry("announce", number(3)),
        entry("info", good),
    ]);
    assert!(TorrentFile::parse(&value).is_none());
    let value = BencodeValue::Dictionary(vec![
        entry("announce-list", BencodeValue::List(vec![text("http://t/a")])),
        entry("info", info("n", 5, 5, hashes(1))),
    ]);
    assert!(TorrentFile::parse(&value).is_none());
    let value = BencodeValue::Dictionary(vec![
        entry("comment", text("made by hand")),
        entry("info", info("n", 5, 5, hashes(1))),
    ]);
    assert_eq!(
        TorrentFile::parse(&value).unwrap().comment,
        Some("made by hand".to_string())
    );
}

#[test]
fn info_hash_is_sha1_of_the_info_dictionary() {
    let dictionary = info("file.bin", 20000, 16384, hashes(2));
    let expected: [u8; 20] = Sha1::digest(encode_bencode(&dictionary)).into();
    let file = TorrentFile::parse(&metainfo(Some("http://t/a"), None, dictionary)).unwrap();
    assert_eq!(file.compute_info_hash(), expected);
    let other = TorrentFile::parse(&metainfo(
        Some("http://t/a"),
        None,
        info("file.bin", 20001, 16384, hashes(2)),
    ))
    .unwrap();
    assert_ne!(other.compute_info_hash(), expected);
}

#[test]
fn info_hash_covers_keys_that_the_client_does_not_read() {
    let dictionary = BencodeValue::Dictionary(vec![
        entry("length", number(5)),
        entry("name", text("n")),
        entry("piece length", number(5)),
        entry("pieces", BencodeValue::String(hashes(1))),
        entry("private", number(1)),
    ]);
    let bytes = encode_bencode(&dictionary);
    let expected: [u8; 20] = Sha1::digest(&bytes).into();
    let whole = encode_bencode(&metainfo(None, None, dictionary));
    let (value, used) = parse_bencode(&whole);
    assert_eq!(used, whole.len());
    let file = TorrentFile::parse(&value).unwrap();
    assert_eq!(file.info_encoded, bytes);
    assert_eq!(file.compute_info_hash(), expected);
}

#[test]
fn tracker_url_of_single_announce() {
    let file = TorrentFile::parse(&metainfo(
        Some("http://tracker.example:6969/announce"),
        None,
        info("n", 5, 5, hashes(1)),
    ))
    .unwrap();
    let hash = file.compute_info_hash();
    let expected = format!(
        "http://tracker.example:6969/announce?info_hash={}&peer_id=01234567890123456789",
        escaped(&hash)
    );
    assert_eq!(file.build_tracker_url(), Ok(vec![expected]));
}

#[test]
fn tracker_url_for_a_given_hash() {
    let file = TorrentFile::parse(&metainfo(
        Some("http://t.example/a?old=1"),
        None,
        info("n", 5, 5, hashes(1)),
    ))
    .unwrap();
    let hash: [u8; 20] = [
        0, 1, b'a', b'Z', b'5', 0xff, b' ', b'-', b'_', b'.', b'~', 0x7f, 0x80, b'%', b'&', b'=',
        b'0', b'z', b'A', 0x1f,
    ];
    assert_eq!(
        file.build_tracker_url_for(&hash),
        Ok(vec![
            "http://t.example/a?info_hash=%00%01aZ5%FF%20%2D%5F%2E%7E%7F%80%25%26%3D0zA%1F&peer_id=01234567890123456789"
                .to_string()
        ])
    );
}

#[test]
fn tracker_urls_follow_the_announce_list() {
    let file = TorrentFile::parse(&metainfo(
        Some("http://single.example/a"),
        Some(&[&["http://one.example/a", "http://two.example/a"], &[], &["udp://three.example:80"]]),
        info("n", 5, 5, hashes(1)),
    ))
    .unwrap();
    assert_eq!(
        file.candidate_urls(),
        vec![
            "http://one.example/a".to_string(),
            "http://two.example/a".to_string(),
            "udp://three.example:80".to_string(),
        ]
    );
    let query = format!(
        "?info_hash={}&peer_id=01234567890123456789",
        escaped(&file.compute_info_hash())
    );
    assert_eq!(
        file.build_tracker_url(),
        Ok(vec![
            format!("http://one.example/a{}", query),
            format!("http://two.example/a{}", query),
            format!("udp://three.example:80{}", query),
        ])
    );
}

#[test]
fn tracker_urls_without_announce() {
    let file = TorrentFile::parse(&metainfo(None, None, info("n", 5, 5, hashes(1)))).unwrap();
    assert_eq!(file.candidate_urls(), Vec::<String>::new());
    assert_eq!(file.build_tracker_url(), Ok(vec![]));
}

#[test]
fn announce_that_is_no_url_is_refused() {
    let file = TorrentFile::parse(&metainfo(
        Some("not a url"),
        None,
        info("n", 5, 5, hashes(1)),
    ))
    .unwrap();
    assert_eq!(file.build_tracker_url(), Err(ClientError::InvalidTrackerUrl));
    let file = TorrentFile::parse(&metainfo(
        None,
        Some(&[&["http://fine.example/a", "/relative"]]),
        info("n", 5, 5, hashes(1)),
    ))
    .unwrap();
    assert_eq!(file.build_tracker_url(), Err(ClientError::InvalidTrackerUrl));
}

#[test]
fn divided_pieces_are_groups_of_twenty() {
    let info = TorrentInfo {
        name: "n".to_string(),
        length: 40000,
        piece_length: 16384,
        pieces: hashes(3),
    };
    let divided = info.get_divided_pieces();
    assert_eq!(divided.len(), 3);
    assert_eq!(info.piece_count(), 3);
    for (i, hash) in divided.iter().enumerate() {
        assert_eq!(&hash[..], &hashes(3)[20 * i..20 * i + 20]);
        assert_eq!(info.piece_hash(i), *hash);
    }
    let ragged = TorrentInfo {
        name: "n".to_string(),
        length: 1,
        piece_length: 1,
        pieces: vec![7; 39],
    };
    assert_eq!(ragged.get_divided_pieces(), vec![[7u8; 20]]);
    let empty = TorrentInfo { name: "n".to_string(), length: 1, piece_length: 1, pieces: vec![] };
    assert_eq!(empty.get_divided_pieces(), Vec::<[u8; 20]>::new());
}

#[test]
fn last_piece_may_be_short() {
    let info = TorrentInfo {
        name: "n".to_string(),
        length: 20000,
        piece_length: 16384,
        pieces: hashes(2),
    };
    assert_eq!(info.piece_size(0), 16384);
    assert_eq!(info.piece_size(1), 3616);
    let even = TorrentInfo {
        name: "n".to_string(),
        length: 32768,
        piece_length: 16384,
        pieces: hashes(2),
    };
    assert_eq!(even.piece_size(0), 16384);
    assert_eq!(even.piece_size(1), 16384);
    let single = TorrentInfo { name: "n".to_string(), length: 7, piece_length: 16384, pieces: hashes(1) };
    assert_eq!(single.piece_size(0), 7);
}

#[test]
fn metainfo_with_entries_in_any_order() {
    let in_order = info("file.bin", 20000, 16384, hashes(2));
    let canonical = encode_bencode(&in_order);
    let shuffled = BencodeValue::Dictionary(vec![
        entry("pieces", BencodeValue::String(hashes(2))),
        entry("name", text("file.bin")),
        entry("piece length", number(16384)),
        entry("length", number(20000)),
    ]);
    let value = BencodeValue::Dictionary(vec![
        entry("info", shuffled),
        entry("announce", text("http://t/a")),
    ]);
    let file = TorrentFile::parse(&value).unwrap();
    assert_eq!(file.announce, Some("http://t/a".to_string()));
    assert_eq!(file.info.length, 20000);
    assert_eq!(file.info.name, "file.bin");
    assert_eq!(file.info_encoded, canonical);
    let expected: [u8; 20] = Sha1::digest(&canonical).into();
    assert_eq!(file.compute_info_hash(), expected);
}
