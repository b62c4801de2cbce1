use torrent_client::parser::bencode::{encode_bencode, BencodeValue};
use torrent_client::parser::peers::{read_announce_response, AnnounceResponse, Peer};
use torrent_client::traits::from_bencode::CreateFromBencode;

fn text(s: &str) -> BencodeValue {
    BencodeValue::String(s.as_bytes().to_vec())
}

fn number(n: i64) -> BencodeValue {
    BencodeValue::Integer(n.to_string().into_bytes())
}

fn entry(key: &str, value: BencodeValue) -> (Vec<u8>, BencodeValue) {
    (key.as_bytes().to_vec(), value)
}

fn listed(ip: &str, port: i64) -> BencodeValue {
    BencodeValue::Dictionary(vec![entry("ip", text(ip)), entry("port", number(port))])
}

fn endpoints(peers: &[Peer]) -> Vec<(String, usize)> {
    peers.iter().map(|p| (p.ip.clone(), p.port)).collect()
}

#[test]
fn compact_peer_list_is_decoded() {
    let compact = vec![
        192, 168, 1, 10, 0x1a, 0xe1, 10, 0, 0, 1, 0, 80, 255, 255, 255, 255, 0xff, 0xff, 0, 0, 0,
        0, 0, 0,
    ];
    let value = BencodeValue::Dictionary(vec![
        entry("interval", number(1800)),
        entry("peers", BencodeValue::String(compact)),
    ]);
    let response = AnnounceResponse::parse(&value).unwrap();
    assert_eq!(response.interval, 1800);
    assert_eq!(response.get_peers_number(), 4);
    assert_eq!(
        endpoints(&response.peers),
        vec![
            ("192.168.1.10".to_string(), 6881),
            ("10.0.0.1".to_string(), 80),
            ("255.255.255.255".to_string(), 65535),
            ("0.0.0.0".to_string(), 0),
        ]
    );
}

#[test]
fn compact_peer_list_of_wrong_length_is_refused() {
    for length in [1usize, 5, 7, 11] {
        let value = BencodeValue::Dictionary(vec![entry(
            "peers",
            BencodeValue::String(vec![1; length]),
        )]);
        assert!(AnnounceResponse::parse(&value).is_none());
    }
    let empty = BencodeValue::Dictionary(vec![entry("peers", BencodeValue::String(vec![]))]);
    assert_eq!(AnnounceResponse::parse(&empty).unwrap().get_peers_number(), 0);
}

#[test]
fn listed_peers_are_decoded() {
    let body = b"d8:intervali900e5:peersld2:ip11:46.5.64.2544:porti6881eed2:ip9:127.0.0.14:porti51413eeee";
    let response = read_announce_response(body).unwrap();
    assert_eq!(response.interval, 900);
    assert_eq!(
        endpoints(&response.peers),
        vec![
            ("46.5.64.254".to_string(), 6881),
            ("127.0.0.1".to_string(), 51413),
        ]
    );
}

#[test]
fn listed_peer_needs_address_and_port() {
    let parse = |peer: BencodeValue| {
        AnnounceResponse::parse(&BencodeValue::Dictionary(vec![entry(
            "peers",
            BencodeValue::List(vec![peer]),
        )]))
        .is_some()
    };
    assert!(parse(listed("1.2.3.4", 0)));
    assert!(parse(listed("1.2.3.4", 65535)));
    assert!(!parse(listed("1.2.3.4", 65536)));
    assert!(!parse(listed("1.2.3.4", -1)));
    assert!(!parse(BencodeValue::Dictionary(vec![entry("ip", text("1.2.3.4"))])));
    assert!(!parse(BencodeValue::Dictionary(vec![entry("port", number(1))])));
    assert!(!parse(BencodeValue::Dictionary(vec![
        entry("ip", number(1)),
        entry("port", number(1)),
    ])));
    assert!(!parse(BencodeValue::Dictionary(vec![
        entry("ip", text("1.2.3.4")),
        entry("port", text("80")),
    ])));
    assert!(!parse(text("1.2.3.4:80")));
}

#[test]
fn response_needs_peers() {
    assert!(read_announce_response(b"").is_none());
    assert!(read_announce_response(b"not bencode").is_none());
    assert!(read_announce_response(b"de").is_none());
    assert!(read_announce_response(b"d8:intervali900ee").is_none());
    assert!(read_announce_response(b"d14:failure reason4:nopee").is_none());
    assert!(read_announce_response(b"d5:peersi3ee").is_none());
    assert!(read_announce_response(b"le").is_none());
    let without_interval = read_announce_response(b"d5:peerslee").unwrap();
    assert_eq!(without_interval.interval, 0);
    assert_eq!(without_interval.get_peers_number(), 0);
}

#[test]
fn peers_are_deduplicated() {
    let value = BencodeValue::Dictionary(vec![entry(
        "peers",
        BencodeValue::List(vec![
            listed("1.1.1.1", 80),
            listed("2.2.2.2", 80),
            listed("1.1.1.1", 80),
            listed("1.1.1.1", 81),
            listed("2.2.2.2", 80),
            listed("3.3.3.3", 1),
            listed("1.1.1.1", 80),
        ]),
    )]);
    let response = AnnounceResponse::parse(&value).unwrap();
    assert_eq!(response.get_peers_number(), 7);
    assert_eq!(
        endpoints(&response.get_peers()),
        vec![
            ("1.1.1.1".to_string(), 80),
            ("2.2.2.2".to_string(), 80),
            ("1.1.1.1".to_string(), 81),
            ("3.3.3.3".to_string(), 1),
        ]
    );
}

#[test]
fn compact_and_listed_forms_agree() {
    let compact = BencodeValue::Dictionary(vec![entry(
        "peers",
        BencodeValue::String(vec![8, 8, 4, 4, 0x00, 0x35, 8, 8, 4, 4, 0x00, 0x35]),
    )]);
    let body = encode_bencode(&compact);
    let from_compact = read_announce_response(&body).unwrap();
    let from_list = AnnounceResponse::parse(&BencodeValue::Dictionary(vec![entry(
        "peers",
        BencodeValue::List(vec![listed("8.8.4.4", 53), listed("8.8.4.4", 53)]),
    )]))
    .unwrap();
    assert_eq!(endpoints(&from_compact.peers), endpoints(&from_list.peers));
    assert_eq!(
        endpoints(&from_compact.get_peers()),
        vec![("8.8.4.4".to_string(), 53)]
    );
}
