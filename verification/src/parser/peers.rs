//! The answer of a tracker: the peers that serve a torrent.

use vstd::prelude::*;
use vstd::string::StringSliceAdditionalSpecFns;
use crate::parser::bencode::{
    decode, encodable, field, item_at, items_view, lemma_find_byte_first, lemma_list_view,
    parse_bencode, Bencode, BencodeValue,
};
use crate::parser::bencode_laws::lemma_valid_encodable;
use crate::parser::decimal::{
    digits_value, is_digit, lemma_nat_text_value, nat_text, push_decimal,
};
use crate::parser::text::{ascii_chars, ascii_string};
use crate::parser::torrent_file::{text_at, text_field};
use crate::traits::from_bencode::CreateFromBencode;

verus! {

/// The byte `.`, which separates the numbers of a dotted address.
pub const DOT: u8 = 0x2e;

/// The size of one peer in a compact peer list: four bytes of address and
/// two of port.
pub const COMPACT_PEER_LENGTH: usize = 6;

/// The largest port number.
pub const MAX_PORT: i64 = 65535;

/// What a `Peer` holds: the text of an address and a port.
pub struct PeerView {
    pub ip: Seq<char>,
    pub port: nat,
}

/// What an `AnnounceResponse` holds.
pub struct AnnounceResponseView {
    pub interval: nat,
    pub peers: Seq<PeerView>,
}

/// The endpoint of a peer.
#[derive(Debug, Clone)]
pub struct Peer {
    pub ip: String,
    pub port: usize,
}

/// The answer of a tracker: after how many seconds to ask again, and the
/// peers.
#[derive(Debug)]
pub struct AnnounceResponse {
    pub interval: usize,
    pub peers: Vec<Peer>,
}

impl View for Peer {
    type V = PeerView;

    open spec fn view(&self) -> PeerView {
        PeerView { ip: self.ip@, port: self.port as nat }
    }
}

/// The endpoints that the elements of `peers` hold.
pub open spec fn peers_view(peers: Seq<Peer>) -> Seq<PeerView> {
    Seq::new(peers.len(), |i: int| peers[i]@)
}

impl View for AnnounceResponse {
    type V = AnnounceResponseView;

    open spec fn view(&self) -> AnnounceResponseView {
        AnnounceResponseView { interval: self.interval as nat, peers: peers_view(self.peers@) }
    }
}

/// The four bytes of an IPv4 address in dotted decimal, as ASCII bytes.
pub open spec fn dotted(ip: Seq<u8>) -> Seq<u8> {
    nat_text(ip[0] as nat) + seq![DOT] + nat_text(ip[1] as nat) + seq![DOT] + nat_text(
        ip[2] as nat,
    ) + seq![DOT] + nat_text(ip[3] as nat)
}

/// The endpoint that six bytes of a compact peer list give: four bytes of
/// address, then the port with its high byte first.
pub open spec fn compact_peer(group: Seq<u8>) -> PeerView {
    PeerView {
        ip: ascii_chars(dotted(group.subrange(0, 4))),
        port: (group[4] as nat) * 256 + group[5] as nat,
    }
}

/// The group of six bytes at place `k` of a compact peer list.
pub open spec fn compact_group(bytes: Seq<u8>, k: int) -> Seq<u8> {
    bytes.subrange(6 * k, 6 * k + 6)
}

/// The endpoints of a compact peer list, one for each group of six bytes.
pub open spec fn compact_peers(bytes: Seq<u8>) -> Seq<PeerView> {
    Seq::new(bytes.len() / 6, |i: int| compact_peer(compact_group(bytes, i)))
}

/// The dictionary key `ip`.
pub open spec fn key_ip() -> Seq<u8> {
    "ip".spec_bytes()
}

/// The dictionary key `port`.
pub open spec fn key_port() -> Seq<u8> {
    "port".spec_bytes()
}

/// The dictionary key `peers`.
pub open spec fn key_peers() -> Seq<u8> {
    "peers".spec_bytes()
}

/// The dictionary key `interval`.
pub open spec fn key_interval() -> Seq<u8> {
    "interval".spec_bytes()
}

/// The endpoint that a dictionary of a peer list gives: a text under `ip`
/// and a port number under `port`.
pub open spec fn listed_peer(item: Bencode) -> Option<PeerView> {
    match (text_field(item, key_ip()), field(item, key_port())) {
        (Some(ip), Some(Bencode::Integer(port))) => if 0 <= port <= MAX_PORT {
            Some(PeerView { ip, port: port as nat })
        } else {
            None
        },
        _ => None,
    }
}

/// The endpoints of a peer list whose items all give one.
pub open spec fn listed_peers(items: Seq<Bencode>) -> Option<Seq<PeerView>>
    decreases items.len(),
{
    if items.len() == 0 {
        Some(Seq::empty())
    } else {
        match (listed_peers(items.drop_last()), listed_peer(items.last())) {
            (Some(before), Some(peer)) => Some(before.push(peer)),
            _ => None,
        }
    }
}

/// The peers of a tracker's answer: a list of dictionaries, or a byte string
/// of groups of six bytes.
pub open spec fn peers_field(v: Bencode) -> Option<Seq<PeerView>> {
    match field(v, key_peers()) {
        Some(Bencode::List(items)) => listed_peers(items),
        Some(Bencode::String(bytes)) => if bytes.len() % 6 == 0 {
            Some(compact_peers(bytes))
        } else {
            None
        },
        _ => None,
    }
}

/// The interval of a tracker's answer, zero where it gives none that a
/// `usize` and a 64-bit signed integer can both hold.
pub open spec fn interval_field(v: Bencode) -> nat {
    match field(v, key_interval()) {
        Some(Bencode::Integer(n)) => if 0 <= n <= usize::MAX && n <= i64::MAX {
            n as nat
        } else {
            0
        },
        _ => 0,
    }
}

/// The answer that the value `v` gives: a dictionary with peers in it.
pub open spec fn response_of(v: Bencode) -> Option<AnnounceResponseView> {
    match peers_field(v) {
        Some(peers) => Some(AnnounceResponseView { interval: interval_field(v), peers }),
        None => None,
    }
}

/// The endpoints of `peers` without repetitions, each where it first occurs.
pub open spec fn distinct(peers: Seq<PeerView>) -> Seq<PeerView>
    decreases peers.len(),
{
    if peers.len() == 0 {
        Seq::empty()
    } else {
        let before = distinct(peers.drop_last());
        if before.contains(peers.last()) {
            before
        } else {
            before.push(peers.last())
        }
    }
}

/// Where a prefix of a peer list has an item that gives no endpoint, the
/// list has one too.
proof fn lemma_listed_peers_prefix(items: Seq<Bencode>, k: int)
    requires
        0 <= k <= items.len(),
        listed_peers(items.subrange(0, k)) is None,
    ensures
        listed_peers(items) is None,
    decreases items.len() - k,
{
    if k == items.len() {
        assert(items.subrange(0, k) =~= items);
    } else {
        assert(items.subrange(0, k + 1).drop_last() =~= items.subrange(0, k));
        lemma_listed_peers_prefix(items, k + 1);
    }
}

fn dotted_text(ip: &[u8], at: usize) -> (r: String)
    requires
        at + 4 <= ip.len(),
    ensures
        r@ == ascii_chars(dotted(ip@.subrange(at as int, at + 4))),
{
    let ghost group = ip@.subrange(at as int, at + 4);
    let mut out: Vec<u8> = Vec::new();
    proof {
        lemma_nat_text_value(group[0] as nat);
        lemma_nat_text_value(group[1] as nat);
        lemma_nat_text_value(group[2] as nat);
        lemma_nat_text_value(group[3] as nat);
    }
    push_decimal(&mut out, ip[at] as usize);
    out.push(DOT);
    push_decimal(&mut out, ip[at + 1] as usize);
    out.push(DOT);
    push_decimal(&mut out, ip[at + 2] as usize);
    out.push(DOT);
    push_decimal(&mut out, ip[at + 3] as usize);
    proof {
        assert(out@ =~= dotted(group));
        assert forall|i: int| 0 <= i < out@.len() implies #[trigger] out@[i] < 128 by {
            let a = nat_text(group[0] as nat);
            let b = nat_text(group[1] as nat);
            let c = nat_text(group[2] as nat);
            let d = nat_text(group[3] as nat);
            if i < a.len() {
                assert(is_digit(a[i]));
            } else if i == a.len() {
            } else if i < a.len() + 1 + b.len() {
                assert(is_digit(b[i - a.len() - 1]));
            } else if i == a.len() + 1 + b.len() {
            } else if i < a.len() + 1 + b.len() + 1 + c.len() {
                assert(is_digit(c[i - a.len() - b.len() - 2]));
            } else if i == a.len() + 1 + b.len() + 1 + c.len() {
            } else {
                assert(is_digit(d[i - a.len() - b.len() - c.len() - 3]));
            }
        }
    }
    ascii_string(out)
}

fn compact_peers_at(bytes: &[u8]) -> (r: Vec<Peer>)
    requires
        bytes@.len() % 6 == 0,
    ensures
        peers_view(r@) == compact_peers(bytes@),
{
    let total: usize = bytes.len();
    let count: usize = total / COMPACT_PEER_LENGTH;
    let mut peers: Vec<Peer> = Vec::new();
    let mut i: usize = 0;
    while i < count
        invariant
            i <= count,
            total == bytes@.len(),
            count == total / 6,
            count * 6 == total,
            peers@.len() == i,
            forall|k: int| 0 <= k < i ==> (#[trigger] peers@[k])@ == compact_peers(bytes@)[k],
        decreases count - i,
    {
        let at: usize = i * COMPACT_PEER_LENGTH;
        let ghost group = bytes@.subrange(6 * i, 6 * i + 6);
        let ip: String = dotted_text(bytes, at);
        let port: usize = (bytes[at + 4] as usize) * 256 + bytes[at + 5] as usize;
        proof {
            assert(group.subrange(0, 4) =~= bytes@.subrange(at as int, at + 4));
            assert(group[4] == bytes@[at + 4]);
            assert(group[5] == bytes@[at + 5]);
        }
        peers.push(Peer { ip, port });
        i = i + 1;
    }
    assert(peers_view(peers@) =~= compact_peers(bytes@));
    peers
}

fn listed_peer_at(item: &BencodeValue) -> (r: Option<Peer>)
    requires
        item.encodable(),
    ensures
        match listed_peer(item@) {
            Some(peer) => r matches Some(p) && p@ == peer,
            None => r is None,
        },
{
    let ip: String = match text_at(item, "ip") {
        Some(ip) => ip,
        None => {
            return None;
        },
    };
    match item.get("port".as_bytes()) {
        Some(found) => match found.as_int() {
            Some(port) => {
                if 0 <= port && port <= MAX_PORT {
                    Some(Peer { ip, port: port as usize })
                } else {
                    None
                }
            },
            None => None,
        },
        None => None,
    }
}

fn listed_peers_at(items: &Vec<BencodeValue>) -> (r: Option<Vec<Peer>>)
    requires
        forall|i: int| 0 <= i < items@.len() ==> (#[trigger] items@[i]).encodable(),
    ensures
        match listed_peers(items_view(items@)) {
            Some(peers) => r matches Some(found) && peers_view(found@) == peers,
            None => r is None,
        },
{
    let ghost view = items_view(items@);
    let mut peers: Vec<Peer> = Vec::new();
    let mut i: usize = 0;
    assert(peers_view(peers@) =~= Seq::<PeerView>::empty());
    assert(view.subrange(0, 0) =~= Seq::<Bencode>::empty());
    while i < items.len()
        invariant
            i <= items.len(),
            view == items_view(items@),
            forall|i: int| 0 <= i < items@.len() ==> (#[trigger] items@[i]).encodable(),
            listed_peers(view.subrange(0, i as int)) == Some(peers_view(peers@)),
        decreases items.len() - i,
    {
        proof {
            assert(view.subrange(0, i + 1).drop_last() =~= view.subrange(0, i as int));
            assert(view.subrange(0, i + 1).last() == items@[i as int]@);
        }
        match listed_peer_at(&items[i]) {
            Some(peer) => {
                assert(peers_view(peers@.push(peer)) =~= peers_view(peers@).push(peer@));
                peers.push(peer);
            },
            None => {
                proof {
                    lemma_listed_peers_prefix(view, i + 1);
                }
                return None;
            },
        }
        i = i + 1;
    }
    assert(view.subrange(0, i as int) =~= view);
    Some(peers)
}

impl CreateFromBencode for AnnounceResponse {
    open spec fn described_by(input: Bencode) -> Option<AnnounceResponseView> {
        response_of(input)
    }

    /// Reads a tracker's answer out of the decoded response body.
    fn parse(input_bencode: &BencodeValue) -> (r: Option<AnnounceResponse>) {
        let peers: Vec<Peer> = match input_bencode.get("peers".as_bytes()) {
            Some(found) => match found {
                BencodeValue::List(items) => {
                    proof {
                        lemma_list_view(*items);
                        assert forall|i: int|
                            0 <= i < items@.len() implies (#[trigger] items@[i]).encodable() by {
                            assert(items@[i].numerals_canonical());
                            assert(encodable(item_at(items_view(items@), i)));
                        }
                    }
                    match listed_peers_at(items) {
                        Some(peers) => peers,
                        None => {
                            return None;
                        },
                    }
                },
                BencodeValue::String(bytes) => {
                    if bytes.len() % COMPACT_PEER_LENGTH != 0 {
                        return None;
                    }
                    compact_peers_at(bytes.as_slice())
                },
                _ => {
                    return None;
                },
            },
            None => {
                return None;
            },
        };
        let interval: usize = match input_bencode.get("interval".as_bytes()) {
            Some(found) => match found.as_int() {
                Some(n) => if n >= 0 && n as u64 <= usize::MAX as u64 {
                    n as usize
                } else {
                    0
                },
                None => 0,
            },
            None => 0,
        };
        Some(AnnounceResponse { interval, peers })
    }
}

fn same_peer(a: &Peer, b: &Peer) -> (r: bool)
    ensures
        r == (a@ == b@),
{
    a.port == b.port && a.ip == b.ip
}

fn holds(list: &Vec<Peer>, peer: &Peer) -> (r: bool)
    ensures
        r == peers_view(list@).contains(peer@),
{
    let mut i: usize = 0;
    while i < list.len()
        invariant
            i <= list.len(),
            forall|k: int| 0 <= k < i ==> (#[trigger] list@[k])@ != peer@,
        decreases list.len() - i,
    {
        if same_peer(&list[i], peer) {
            assert(peers_view(list@)[i as int] == peer@);
            return true;
        }
        i = i + 1;
    }
    assert forall|k: int| 0 <= k < peers_view(list@).len() implies peers_view(list@)[k]
        != peer@ by {
        assert(list@[k]@ != peer@);
    }
    false
}

impl AnnounceResponse {
    /// The number of peers in the answer, repetitions counted.
    pub fn get_peers_number(&self) -> (r: usize)
        ensures
            r == self@.peers.len(),
    {
        self.peers.len()
    }

    /// The endpoints of the answer without repetitions, each where it first
    /// occurs.
    pub fn get_peers(&self) -> (r: Vec<Peer>)
        ensures
            peers_view(r@) == distinct(self@.peers),
    {
        let ghost all = peers_view(self.peers@);
        let mut out: Vec<Peer> = Vec::new();
        let mut i: usize = 0;
        assert(all.subrange(0, 0) =~= Seq::<PeerView>::empty());
        assert(peers_view(out@) =~= Seq::<PeerView>::empty());
        while i < self.peers.len()
            invariant
                i <= self.peers.len(),
                all == peers_view(self.peers@),
                peers_view(out@) == distinct(all.subrange(0, i as int)),
            decreases self.peers.len() - i,
        {
            proof {
                assert(all.subrange(0, i + 1).drop_last() =~= all.subrange(0, i as int));
                assert(all.subrange(0, i + 1).last() == self.peers@[i as int]@);
            }
            if !holds(&out, &self.peers[i]) {
                let peer: Peer = Peer { ip: self.peers[i].ip.clone(), port: self.peers[i].port };
                assert(peers_view(out@.push(peer)) =~= peers_view(out@).push(peer@));
                out.push(peer);
            }
            i = i + 1;
        }
        assert(all.subrange(0, i as int) =~= all);
        out
    }
}

/// The answer that the body of a tracker's response gives: the body must
/// start with a bencoded dictionary that holds peers.
pub open spec fn response_of_body(body: Seq<u8>) -> Option<AnnounceResponseView> {
    match decode(body) {
        Some((v, n)) => response_of(v),
        None => None,
    }
}

/// Reads a tracker's answer out of the body of its response, or returns
/// `None` where the body is not bencode or holds no peers.
pub fn read_announce_response(body: &[u8]) -> (r: Option<AnnounceResponse>)
    ensures
        match response_of_body(body@) {
            Some(view) => r matches Some(response) && response@ == view,
            None => r is None,
        },
{
    let (value, _used) = parse_bencode(body);
    match value {
        BencodeValue::Error(_) => None,
        value => {
            proof {
                lemma_valid_encodable(value@);
            }
            AnnounceResponse::parse(&value)
        },
    }
}

/// A numeral before a dot can be read off in one way only: where two texts
/// that each start with a numeral and a dot are the same, the numbers are
/// the same and so is what follows the dot.
proof fn lemma_numeral_before_dot(n: nat, rest_n: Seq<u8>, m: nat, rest_m: Seq<u8>)
    requires
        nat_text(n) + seq![DOT] + rest_n == nat_text(m) + seq![DOT] + rest_m,
    ensures
        n == m,
        rest_n == rest_m,
{
    let a = nat_text(n);
    let b = nat_text(m);
    let s = a + seq![DOT] + rest_n;
    let t = b + seq![DOT] + rest_m;
    lemma_nat_text_value(n);
    lemma_nat_text_value(m);
    assert forall|j: int| 0 <= j < a.len() implies s[j] != DOT by {
        assert(s[j] == a[j]);
        assert(is_digit(a[j]));
    }
    assert(s[a.len() as int] == DOT);
    lemma_find_byte_first(s, DOT, a.len() as int);
    assert forall|j: int| 0 <= j < b.len() implies t[j] != DOT by {
        assert(t[j] == b[j]);
        assert(is_digit(b[j]));
    }
    assert(t[b.len() as int] == DOT);
    lemma_find_byte_first(t, DOT, b.len() as int);
    assert(a.len() == b.len());
    assert(a =~= s.subrange(0, a.len() as int));
    assert(b =~= t.subrange(0, b.len() as int));
    assert(rest_n =~= s.skip(a.len() as int + 1));
    assert(rest_m =~= t.skip(b.len() as int + 1));
}

/// A dotted address stands for one address only.
pub proof fn lemma_dotted_injective(x: Seq<u8>, y: Seq<u8>)
    requires
        x.len() == 4,
        y.len() == 4,
        dotted(x) == dotted(y),
    ensures
        x == y,
{
    let x3 = nat_text(x[3] as nat);
    let y3 = nat_text(y[3] as nat);
    let x2 = nat_text(x[2] as nat) + seq![DOT] + x3;
    let y2 = nat_text(y[2] as nat) + seq![DOT] + y3;
    let x1 = nat_text(x[1] as nat) + seq![DOT] + x2;
    let y1 = nat_text(y[1] as nat) + seq![DOT] + y2;
    assert(dotted(x) =~= nat_text(x[0] as nat) + seq![DOT] + x1);
    assert(dotted(y) =~= nat_text(y[0] as nat) + seq![DOT] + y1);
    lemma_numeral_before_dot(x[0] as nat, x1, y[0] as nat, y1);
    lemma_numeral_before_dot(x[1] as nat, x2, y[1] as nat, y2);
    lemma_numeral_before_dot(x[2] as nat, x3, y[2] as nat, y3);
    lemma_nat_text_value(x[3] as nat);
    lemma_nat_text_value(y[3] as nat);
    assert(digits_value(x3) == digits_value(y3));
    assert(x =~= y);
}

/// Six bytes of a compact peer list stand for one endpoint only: different
/// groups give different endpoints.
pub proof fn lemma_compact_peer_injective(g: Seq<u8>, h: Seq<u8>)
    requires
        g.len() == 6,
        h.len() == 6,
        compact_peer(g) == compact_peer(h),
    ensures
        g == h,
{
    let x = dotted(g.subrange(0, 4));
    let y = dotted(h.subrange(0, 4));
    assert(ascii_chars(x).len() == ascii_chars(y).len());
    assert forall|i: int| 0 <= i < x.len() implies x[i] == y[i] by {
        assert(ascii_chars(x)[i] == ascii_chars(y)[i]);
        assert(x[i] as char == y[i] as char);
    }
    assert(x =~= y);
    lemma_dotted_injective(g.subrange(0, 4), h.subrange(0, 4));
    assert forall|i: int| 0 <= i < 4 implies g[i] == h[i] by {
        assert(g.subrange(0, 4)[i] == h.subrange(0, 4)[i]);
    }
    assert(g =~= h);
}

/// Endpoints that are all different are kept as they are.
pub proof fn lemma_distinct_of_different(peers: Seq<PeerView>)
    requires
        forall|i: int, j: int| 0 <= i < j < peers.len() ==> peers[i] != peers[j],
    ensures
        distinct(peers) == peers,
    decreases peers.len(),
{
    if peers.len() > 0 {
        let before = peers.drop_last();
        assert forall|i: int, j: int| 0 <= i < j < before.len() implies before[i] != before[j] by {
            assert(before[i] == peers[i] && before[j] == peers[j]);
        }
        lemma_distinct_of_different(before);
        if before.contains(peers.last()) {
            let i = choose|i: int| 0 <= i < before.len() && before[i] == peers.last();
            assert(peers[i] == peers[peers.len() - 1]);
        }
        assert(before.push(peers.last()) =~= peers);
    } else {
        assert(distinct(peers) =~= peers);
    }
}

/// A compact peer list of `n` groups that are all different gives `n`
/// endpoints, one for each group in the order of the groups, and removing
/// repetitions leaves them all.
pub proof fn lemma_compact_peers_all_kept(bytes: Seq<u8>)
    requires
        bytes.len() % 6 == 0,
        forall|i: int, j: int|
            0 <= i < j < bytes.len() / 6 ==> #[trigger] compact_group(bytes, i)
                != #[trigger] compact_group(bytes, j),
    ensures
        compact_peers(bytes).len() == bytes.len() / 6,
        forall|k: int|
            0 <= k < bytes.len() / 6 ==> #[trigger] compact_peers(bytes)[k] == compact_peer(
                compact_group(bytes, k),
            ),
        distinct(compact_peers(bytes)) == compact_peers(bytes),
{
    let peers = compact_peers(bytes);
    assert forall|i: int, j: int| 0 <= i < j < peers.len() implies peers[i] != peers[j] by {
        let g = compact_group(bytes, i);
        let h = compact_group(bytes, j);
        if peers[i] == peers[j] {
            lemma_compact_peer_injective(g, h);
        }
    }
    lemma_distinct_of_different(peers);
}

} // verus!
