//! The metainfo of a single-file torrent, read out of its bencoded form.

use vstd::prelude::*;
use vstd::string::StringSliceAdditionalSpecFns;
use vstd::slice::slice_to_vec;
use vstd::utf8::{decode_utf8, encode_utf8, valid_utf8};
use crate::digest::{sha1_digest, sha1_of};
use crate::parser::bencode::{
    encode, encode_bencode, field, items_view, lemma_list_view, ordered, Bencode, BencodeValue,
};
use crate::parser::tracker_url::{
    percent_encode_bytes, percent_encoded, set_url_query, url_with_query, MAX_URL_BYTES,
};
use crate::request::client::ClientError;
use crate::traits::from_bencode::CreateFromBencode;

verus! {

/// The size of a SHA-1 digest in bytes.
pub const HASH_LENGTH: usize = 20;

/// What a `TorrentInfo` holds.
pub struct TorrentInfoView {
    pub name: Seq<char>,
    pub length: nat,
    pub piece_length: nat,
    pub pieces: Seq<u8>,
}

/// What a `TorrentFile` holds.
pub struct TorrentFileView {
    pub announce: Option<Seq<char>>,
    pub announce_list: Option<Seq<Seq<Seq<char>>>>,
    pub comment: Option<Seq<char>>,
    pub info: TorrentInfoView,
    pub info_encoded: Seq<u8>,
}

/// The file that a torrent describes: its name, its length in bytes, the
/// length of a piece, and the SHA-1 digests of the pieces one after the
/// other.
#[derive(Debug, Clone)]
pub struct TorrentInfo {
    pub name: String,
    pub length: usize,
    pub piece_length: usize,
    pub pieces: Vec<u8>,
}

/// A metainfo file: where to announce, and the description of the file.
/// `info_encoded` is the canonical encoding of the `info` dictionary, whose
/// SHA-1 digest identifies the torrent.
#[derive(Debug, Clone)]
pub struct TorrentFile {
    pub announce: Option<String>,
    pub announce_list: Option<Vec<Vec<String>>>,
    pub comment: Option<String>,
    pub info: TorrentInfo,
    pub info_encoded: Vec<u8>,
}

/// The texts of a list of strings.
pub open spec fn texts(v: Seq<String>) -> Seq<Seq<char>> {
    Seq::new(v.len(), |i: int| v[i]@)
}

/// The texts of a list of lists of strings.
pub open spec fn tiers(v: Seq<Vec<String>>) -> Seq<Seq<Seq<char>>> {
    Seq::new(v.len(), |i: int| texts(v[i]@))
}

/// The text of an optional string.
pub open spec fn optional(o: Option<String>) -> Option<Seq<char>> {
    match o {
        Some(s) => Some(s@),
        None => None,
    }
}

impl View for TorrentInfo {
    type V = TorrentInfoView;

    open spec fn view(&self) -> TorrentInfoView {
        TorrentInfoView {
            name: self.name@,
            length: self.length as nat,
            piece_length: self.piece_length as nat,
            pieces: self.pieces@,
        }
    }
}

impl View for TorrentFile {
    type V = TorrentFileView;

    open spec fn view(&self) -> TorrentFileView {
        TorrentFileView {
            announce: optional(self.announce),
            announce_list: match self.announce_list {
                Some(list) => Some(tiers(list@)),
                None => None,
            },
            comment: optional(self.comment),
            info: self.info@,
            info_encoded: self.info_encoded@,
        }
    }
}

/// The number of pieces of a file of `length` bytes cut into pieces of
/// `piece_length` bytes, the last of which may be shorter.
pub open spec fn pieces_needed(length: nat, piece_length: nat) -> nat {
    if piece_length == 0 {
        0
    } else {
        length / piece_length + if length % piece_length == 0 {
            0nat
        } else {
            1nat
        }
    }
}

impl TorrentInfoView {
    /// The description is consistent: a file that is not empty, pieces that
    /// are not empty, and one digest for each piece that the file needs.
    pub open spec fn wf(self) -> bool {
        &&& self.length >= 1
        &&& self.piece_length >= 1
        &&& self.pieces.len() == HASH_LENGTH * pieces_needed(self.length, self.piece_length)
    }

    /// The number of pieces.
    pub open spec fn piece_count(self) -> nat {
        self.pieces.len() / (HASH_LENGTH as nat)
    }

    /// The digest published for piece `index`.
    pub open spec fn piece_hash(self, index: int) -> Seq<u8> {
        self.pieces.subrange(HASH_LENGTH * index, HASH_LENGTH * index + HASH_LENGTH)
    }

    /// The size of piece `index`: the piece length, but for the last piece
    /// what is left of the file.
    pub open spec fn piece_size(self, index: int) -> int {
        if index == self.piece_count() - 1 {
            self.length - index * self.piece_length
        } else {
            self.piece_length as int
        }
    }
}

/// The text stored under `key`: present, a byte string, and valid UTF-8.
pub open spec fn text_field(v: Bencode, key: Seq<u8>) -> Option<Seq<char>> {
    match field(v, key) {
        Some(Bencode::String(bytes)) => if valid_utf8(bytes) {
            Some(decode_utf8(bytes))
        } else {
            None
        },
        _ => None,
    }
}

/// The text stored under a key that may be absent: `Some(None)` where it is
/// absent, `None` where something else than a text is stored.
pub open spec fn optional_text_field(v: Bencode, key: Seq<u8>) -> Option<Option<Seq<char>>> {
    match field(v, key) {
        None => Some(None),
        Some(Bencode::String(bytes)) => if valid_utf8(bytes) {
            Some(Some(decode_utf8(bytes)))
        } else {
            None
        },
        Some(_) => None,
    }
}

/// The size stored under `key`: an integer that is at least one and that a
/// `usize` and a 64-bit signed integer can both hold.
pub open spec fn size_field(v: Bencode, key: Seq<u8>) -> Option<nat> {
    match field(v, key) {
        Some(Bencode::Integer(n)) => if 1 <= n <= usize::MAX && n <= i64::MAX {
            Some(n as nat)
        } else {
            None
        },
        _ => None,
    }
}

/// The bytes stored under `key`.
pub open spec fn bytes_field(v: Bencode, key: Seq<u8>) -> Option<Seq<u8>> {
    match field(v, key) {
        Some(Bencode::String(bytes)) => Some(bytes),
        _ => None,
    }
}

/// The texts of a list whose items are all byte strings of valid UTF-8.
pub open spec fn texts_of(items: Seq<Bencode>) -> Option<Seq<Seq<char>>>
    decreases items.len(),
{
    if items.len() == 0 {
        Some(Seq::empty())
    } else {
        match (texts_of(items.drop_last()), items.last()) {
            (Some(before), Bencode::String(bytes)) => if valid_utf8(bytes) {
                Some(before.push(decode_utf8(bytes)))
            } else {
                None
            },
            _ => None,
        }
    }
}

/// The tiers of an announce list: a list whose items are all lists of texts.
pub open spec fn tiers_of(items: Seq<Bencode>) -> Option<Seq<Seq<Seq<char>>>>
    decreases items.len(),
{
    if items.len() == 0 {
        Some(Seq::empty())
    } else {
        match (tiers_of(items.drop_last()), items.last()) {
            (Some(before), Bencode::List(tier)) => match texts_of(tier) {
                Some(urls) => Some(before.push(urls)),
                None => None,
            },
            _ => None,
        }
    }
}

/// The announce list stored under `key`: `Some(None)` where it is absent,
/// `None` where something else than a list of lists of texts is stored.
pub open spec fn announce_list_field(v: Bencode, key: Seq<u8>) -> Option<
    Option<Seq<Seq<Seq<char>>>>,
> {
    match field(v, key) {
        None => Some(None),
        Some(Bencode::List(items)) => match tiers_of(items) {
            Some(found) => Some(Some(found)),
            None => None,
        },
        Some(_) => None,
    }
}

/// The dictionary key `name`.
pub open spec fn key_name() -> Seq<u8> {
    "name".spec_bytes()
}

/// The dictionary key `length`.
pub open spec fn key_length() -> Seq<u8> {
    "length".spec_bytes()
}

/// The dictionary key `piece length`.
pub open spec fn key_piece_length() -> Seq<u8> {
    "piece length".spec_bytes()
}

/// The dictionary key `pieces`.
pub open spec fn key_pieces() -> Seq<u8> {
    "pieces".spec_bytes()
}

/// The dictionary key `info`.
pub open spec fn key_info() -> Seq<u8> {
    "info".spec_bytes()
}

/// The dictionary key `announce`.
pub open spec fn key_announce() -> Seq<u8> {
    "announce".spec_bytes()
}

/// The dictionary key `announce-list`.
pub open spec fn key_announce_list() -> Seq<u8> {
    "announce-list".spec_bytes()
}

/// The dictionary key `comment`.
pub open spec fn key_comment() -> Seq<u8> {
    "comment".spec_bytes()
}

/// The file description that the `info` dictionary `d` gives: a name, a
/// length, a piece length and the piece digests, consistent with each other.
pub open spec fn info_of(d: Bencode) -> Option<TorrentInfoView> {
    match (
        text_field(d, key_name()),
        size_field(d, key_length()),
        size_field(d, key_piece_length()),
        bytes_field(d, key_pieces()),
    ) {
        (Some(name), Some(length), Some(piece_length), Some(pieces)) => {
            let info = TorrentInfoView { name, length, piece_length, pieces };
            if info.wf() {
                Some(info)
            } else {
                None
            }
        },
        _ => None,
    }
}

/// The metainfo that the value `v` gives: an `info` dictionary that
/// describes a file, kept also as its canonical encoding, and where present
/// an announce URL, an announce list and a comment.
pub open spec fn metainfo_of(v: Bencode) -> Option<TorrentFileView> {
    match field(v, key_info()) {
        Some(d) => match (
            info_of(d),
            optional_text_field(v, key_announce()),
            announce_list_field(v, key_announce_list()),
            optional_text_field(v, key_comment()),
        ) {
            (Some(info), Some(announce), Some(announce_list), Some(comment)) => Some(
                TorrentFileView {
                    announce,
                    announce_list,
                    comment,
                    info,
                    info_encoded: encode(ordered(d)),
                },
            ),
            _ => None,
        },
        None => None,
    }
}

/// Where the texts of a prefix of a list are not all there, those of the
/// list are not either.
proof fn lemma_texts_of_prefix(items: Seq<Bencode>, k: int)
    requires
        0 <= k <= items.len(),
        texts_of(items.subrange(0, k)) is None,
    ensures
        texts_of(items) is None,
    decreases items.len() - k,
{
    if k == items.len() {
        assert(items.subrange(0, k) =~= items);
    } else {
        assert(items.subrange(0, k + 1).drop_last() =~= items.subrange(0, k));
        lemma_texts_of_prefix(items, k + 1);
    }
}

/// Where the tiers of a prefix of a list are not all there, those of the
/// list are not either.
proof fn lemma_tiers_of_prefix(items: Seq<Bencode>, k: int)
    requires
        0 <= k <= items.len(),
        tiers_of(items.subrange(0, k)) is None,
    ensures
        tiers_of(items) is None,
    decreases items.len() - k,
{
    if k == items.len() {
        assert(items.subrange(0, k) =~= items);
    } else {
        assert(items.subrange(0, k + 1).drop_last() =~= items.subrange(0, k));
        lemma_tiers_of_prefix(items, k + 1);
    }
}

pub(crate) fn text_at(v: &BencodeValue, key: &str) -> (r: Option<String>)
    ensures
        match text_field(v@, key.spec_bytes()) {
            Some(text) => r matches Some(s) && s@ == text,
            None => r is None,
        },
{
    match v.get(key.as_bytes()) {
        Some(found) => found.as_string(),
        None => None,
    }
}

fn optional_text_at(v: &BencodeValue, key: &str) -> (r: Option<Option<String>>)
    ensures
        match optional_text_field(v@, key.spec_bytes()) {
            Some(text) => r matches Some(s) && optional(s) == text,
            None => r is None,
        },
{
    match v.get(key.as_bytes()) {
        Some(found) => match found.as_string() {
            Some(text) => Some(Some(text)),
            None => None,
        },
        None => Some(None),
    }
}

pub(crate) fn size_at(v: &BencodeValue, key: &str) -> (r: Option<usize>)
    requires
        v.encodable(),
    ensures
        match size_field(v@, key.spec_bytes()) {
            Some(n) => r == Some(n as usize),
            None => r is None,
        },
{
    match v.get(key.as_bytes()) {
        Some(found) => match found.as_int() {
            Some(n) => {
                if n >= 1 && n as u64 <= usize::MAX as u64 {
                    Some(n as usize)
                } else {
                    None
                }
            },
            None => None,
        },
        None => None,
    }
}

fn bytes_at(v: &BencodeValue, key: &str) -> (r: Option<Vec<u8>>)
    ensures
        match bytes_field(v@, key.spec_bytes()) {
            Some(bytes) => r matches Some(b) && b@ == bytes,
            None => r is None,
        },
{
    match v.get(key.as_bytes()) {
        Some(found) => match found.as_bytes() {
            Some(bytes) => Some(slice_to_vec(bytes.as_slice())),
            None => None,
        },
        None => None,
    }
}

fn texts_at(items: &Vec<BencodeValue>) -> (r: Option<Vec<String>>)
    ensures
        match texts_of(items_view(items@)) {
            Some(found) => r matches Some(v) && texts(v@) == found,
            None => r is None,
        },
{
    let ghost view = items_view(items@);
    let mut out: Vec<String> = Vec::new();
    let mut i: usize = 0;
    assert(texts(out@) =~= Seq::<Seq<char>>::empty());
    assert(view.subrange(0, 0) =~= Seq::<Bencode>::empty());
    while i < items.len()
        invariant
            i <= items.len(),
            view == items_view(items@),
            texts_of(view.subrange(0, i as int)) == Some(texts(out@)),
        decreases items.len() - i,
    {
        proof {
            assert(view.subrange(0, i + 1).drop_last() =~= view.subrange(0, i as int));
            assert(view.subrange(0, i + 1).last() == items@[i as int]@);
        }
        match items[i].as_string() {
            Some(text) => {
                proof {
                    assert(texts(out@.push(text)) =~= texts(out@).push(text@));
                }
                out.push(text);
            },
            None => {
                proof {
                    lemma_texts_of_prefix(view, i + 1);
                }
                return None;
            },
        }
        i = i + 1;
    }
    assert(view.subrange(0, i as int) =~= view);
    Some(out)
}

fn tiers_at(items: &Vec<BencodeValue>) -> (r: Option<Vec<Vec<String>>>)
    ensures
        match tiers_of(items_view(items@)) {
            Some(found) => r matches Some(v) && tiers(v@) == found,
            None => r is None,
        },
{
    let ghost view = items_view(items@);
    let mut out: Vec<Vec<String>> = Vec::new();
    let mut i: usize = 0;
    assert(tiers(out@) =~= Seq::<Seq<Seq<char>>>::empty());
    assert(view.subrange(0, 0) =~= Seq::<Bencode>::empty());
    while i < items.len()
        invariant
            i <= items.len(),
            view == items_view(items@),
            tiers_of(view.subrange(0, i as int)) == Some(tiers(out@)),
        decreases items.len() - i,
    {
        proof {
            assert(view.subrange(0, i + 1).drop_last() =~= view.subrange(0, i as int));
            assert(view.subrange(0, i + 1).last() == items@[i as int]@);
        }
        let tier: Option<Vec<String>> = match items[i].as_list() {
            Some(inner) => {
                proof {
                    lemma_list_view(*inner);
                }
                texts_at(inner)
            },
            None => None,
        };
        match tier {
            Some(urls) => {
                proof {
                    assert(tiers(out@.push(urls)) =~= tiers(out@).push(texts(urls@)));
                }
                out.push(urls);
            },
            None => {
                proof {
                    lemma_tiers_of_prefix(view, i + 1);
                }
                return None;
            },
        }
        i = i + 1;
    }
    assert(view.subrange(0, i as int) =~= view);
    Some(out)
}

fn announce_list_at(v: &BencodeValue, key: &str) -> (r: Option<Option<Vec<Vec<String>>>>)
    ensures
        match announce_list_field(v@, key.spec_bytes()) {
            Some(Some(found)) => r matches Some(Some(list)) && tiers(list@) == found,
            Some(None) => r matches Some(None),
            None => r is None,
        },
{
    match v.get(key.as_bytes()) {
        Some(found) => match found.as_list() {
            Some(items) => {
                proof {
                    lemma_list_view(*items);
                }
                match tiers_at(items) {
                    Some(list) => Some(Some(list)),
                    None => None,
                }
            },
            None => None,
        },
        None => Some(None),
    }
}

/// The number of pieces that a file of `length` bytes needs.
fn count_pieces(length: usize, piece_length: usize) -> (r: usize)
    requires
        piece_length >= 1,
    ensures
        r == pieces_needed(length as nat, piece_length as nat),
{
    let whole: usize = length / piece_length;
    if length % piece_length == 0 {
        whole
    } else {
        assert(whole < length) by (nonlinear_arith)
            requires
                whole == length / piece_length,
                length % piece_length != 0,
                piece_length >= 1,
                length >= 0,
        ;
        whole + 1
    }
}

impl TorrentInfo {
    /// Reads the file description out of an `info` dictionary.
    pub fn from_dictionary(d: &BencodeValue) -> (r: Option<TorrentInfo>)
        requires
            d.encodable(),
        ensures
            match info_of(d@) {
                Some(view) => r matches Some(info) && info@ == view,
                None => r is None,
            },
    {
        let name: String = match text_at(d, "name") {
            Some(name) => name,
            None => {
                return None;
            },
        };
        let length: usize = match size_at(d, "length") {
            Some(length) => length,
            None => {
                return None;
            },
        };
        let piece_length: usize = match size_at(d, "piece length") {
            Some(piece_length) => piece_length,
            None => {
                return None;
            },
        };
        let pieces: Vec<u8> = match bytes_at(d, "pieces") {
            Some(pieces) => pieces,
            None => {
                return None;
            },
        };
        let needed: usize = count_pieces(length, piece_length);
        if pieces.len() % HASH_LENGTH != 0 || pieces.len() / HASH_LENGTH != needed {
            return None;
        }
        Some(TorrentInfo { name, length, piece_length, pieces })
    }

    /// Whether the description is consistent: sizes of at least one byte,
    /// and one digest for each piece that the file needs.
    pub fn is_consistent(&self) -> (r: bool)
        ensures
            r == self@.wf(),
    {
        if self.length == 0 || self.piece_length == 0 {
            return false;
        }
        let needed: usize = count_pieces(self.length, self.piece_length);
        self.pieces.len() % HASH_LENGTH == 0 && self.pieces.len() / HASH_LENGTH == needed
    }

    /// The digests of the pieces, one for each whole group of twenty bytes.
    pub fn get_divided_pieces(&self) -> (divided: Vec<[u8; 20]>)
        ensures
            divided@.len() == self@.piece_count(),
            forall|i: int| 0 <= i < divided@.len() ==> (#[trigger] divided@[i])@ == self@.piece_hash(i),
    {
        let mut divided: Vec<[u8; 20]> = Vec::new();
        let count: usize = self.pieces.len() / HASH_LENGTH;
        let mut i: usize = 0;
        while i < count
            invariant
                i <= count,
                count == self.pieces@.len() / (HASH_LENGTH as nat),
                divided@.len() == i,
                forall|k: int| 0 <= k < i ==> (#[trigger] divided@[k])@ == self@.piece_hash(k),
            decreases count - i,
        {
            let hash: [u8; 20] = self.piece_hash(i);
            divided.push(hash);
            i = i + 1;
        }
        divided
    }

    /// The number of pieces.
    pub fn piece_count(&self) -> (r: usize)
        ensures
            r == self@.piece_count(),
    {
        self.pieces.len() / HASH_LENGTH
    }

    /// The digest published for piece `index`.
    pub fn piece_hash(&self, index: usize) -> (hash: [u8; 20])
        requires
            index < self@.piece_count(),
        ensures
            hash@ == self@.piece_hash(index as int),
    {
        let mut hash: [u8; 20] = [0u8; 20];
        assert(index * 20 + 20 <= self.pieces@.len()) by {
            let total = self.pieces@.len() as int;
            assert(index + 1 <= total / 20);
            assert((total / 20) * 20 <= total);
        }
        let total: usize = self.pieces.len();
        let start: usize = index * HASH_LENGTH;
        let mut j: usize = 0;
        while j < HASH_LENGTH
            invariant
                j <= HASH_LENGTH,
                start == index * HASH_LENGTH,
                total == self.pieces@.len(),
                start + HASH_LENGTH <= total,
                forall|k: int| 0 <= k < j ==> hash@[k] == self.pieces@[start + k],
            decreases HASH_LENGTH - j,
        {
            hash[j] = self.pieces[start + j];
            j = j + 1;
        }
        assert(hash@ =~= self@.piece_hash(index as int));
        hash
    }

    /// The size in bytes of piece `index`: the piece length, but for the
    /// last piece what is left of the file.
    pub fn piece_size(&self, index: usize) -> (r: usize)
        requires
            self@.wf(),
            index < self@.piece_count(),
        ensures
            r == self@.piece_size(index as int),
            1 <= r <= self.piece_length,
    {
        let count: usize = self.pieces.len() / HASH_LENGTH;
        proof {
            lemma_last_piece(self.length as int, self.piece_length as int);
            assert(count == pieces_needed(self.length as nat, self.piece_length as nat));
        }
        if index == count - 1 {
            assert(index * self.piece_length == (count - 1) * self.piece_length) by (nonlinear_arith)
                requires
                    index == count - 1,
            ;
            self.length - index * self.piece_length
        } else {
            self.piece_length
        }
    }
}

/// The pieces before the last fill their length, and what is left for the
/// last piece is at least one byte and at most a piece length.
pub proof fn lemma_last_piece(length: int, piece_length: int)
    requires
        length >= 1,
        piece_length >= 1,
    ensures
        pieces_needed(length as nat, piece_length as nat) >= 1,
        1 <= length - (pieces_needed(length as nat, piece_length as nat) - 1) * piece_length
            <= piece_length,
{
    vstd::arithmetic::div_mod::lemma_fundamental_div_mod(length, piece_length);
    let q = length / piece_length;
    let r = length % piece_length;
    assert(0 <= r < piece_length);
    assert(q >= 0) by (nonlinear_arith)
        requires
            length == piece_length * q + r,
            0 <= r < piece_length,
            length >= 1,
    ;
    if r == 0 {
        assert(q >= 1) by (nonlinear_arith)
            requires
                length == piece_length * q,
                length >= 1,
                piece_length >= 1,
        ;
        assert((q - 1) * piece_length == piece_length * q - piece_length) by (nonlinear_arith);
    } else {
        assert(q * piece_length == piece_length * q) by (nonlinear_arith);
    }
}

impl CreateFromBencode for TorrentFile {
    open spec fn described_by(input: Bencode) -> Option<TorrentFileView> {
        metainfo_of(input)
    }

    /// Reads the metainfo out of the decoded metainfo file.
    fn parse(input_bencode: &BencodeValue) -> (r: Option<TorrentFile>) {
        let d: &BencodeValue = match input_bencode.get("info".as_bytes()) {
            Some(d) => d,
            None => {
                return None;
            },
        };
        let info: TorrentInfo = match TorrentInfo::from_dictionary(d) {
            Some(info) => info,
            None => {
                return None;
            },
        };
        let announce: Option<String> = match optional_text_at(input_bencode, "announce") {
            Some(announce) => announce,
            None => {
                return None;
            },
        };
        let announce_list: Option<Vec<Vec<String>>> = match announce_list_at(
            input_bencode,
            "announce-list",
        ) {
            Some(announce_list) => announce_list,
            None => {
                return None;
            },
        };
        let comment: Option<String> = match optional_text_at(input_bencode, "comment") {
            Some(comment) => comment,
            None => {
                return None;
            },
        };
        let info_encoded: Vec<u8> = encode_bencode(d);
        Some(TorrentFile { announce, announce_list, comment, info, info_encoded })
    }
}

/// The peer id under which this client announces and greets: the twenty
/// ASCII digits `01234567890123456789`.
pub open spec fn peer_id_bytes() -> Seq<u8> {
    seq![
        0x30u8, 0x31, 0x32, 0x33, 0x34, 0x35, 0x36, 0x37, 0x38, 0x39, 0x30, 0x31, 0x32, 0x33, 0x34,
        0x35, 0x36, 0x37, 0x38, 0x39,
    ]
}

/// The peer id under which this client announces and greets.
pub fn client_peer_id() -> (r: [u8; 20])
    ensures
        r@ == peer_id_bytes(),
{
    let r: [u8; 20] = [
        0x30u8, 0x31, 0x32, 0x33, 0x34, 0x35, 0x36, 0x37, 0x38, 0x39, 0x30, 0x31, 0x32, 0x33, 0x34,
        0x35, 0x36, 0x37, 0x38, 0x39,
    ];
    assert(r@ =~= peer_id_bytes());
    r
}

/// The query of an announce: the info-hash and the peer id, both
/// percent-encoded.
pub open spec fn tracker_query(info_hash: Seq<u8>, peer_id: Seq<u8>) -> Seq<char> {
    "info_hash="@ + percent_encoded(info_hash) + "&peer_id="@ + percent_encoded(peer_id)
}

/// The announce URLs of a metainfo, in the order in which they are tried:
/// those of the announce list, tier after tier, or where there is no list
/// the single announce URL.
pub open spec fn candidates(file: TorrentFileView) -> Seq<Seq<char>> {
    match file.announce_list {
        Some(list) => list.flatten(),
        None => match file.announce {
            Some(url) => seq![url],
            None => Seq::empty(),
        },
    }
}

/// The announce URL `base` with the query `query`: nothing where the two are
/// longer than the URL parser is given, or where `base` is no URL.
pub open spec fn tracker_url(base: Seq<char>, query: Seq<char>) -> Option<Seq<char>> {
    if encode_utf8(base).len() + encode_utf8(query).len() <= MAX_URL_BYTES {
        url_with_query(base, query)
    } else {
        None
    }
}

/// The tracker URLs for the announce URLs `bases`, if each of them gives
/// one.
pub open spec fn tracker_urls(bases: Seq<Seq<char>>, query: Seq<char>) -> Option<Seq<Seq<char>>>
    decreases bases.len(),
{
    if bases.len() == 0 {
        Some(Seq::empty())
    } else {
        match (tracker_urls(bases.drop_last(), query), tracker_url(bases.last(), query)) {
            (Some(before), Some(url)) => Some(before.push(url)),
            _ => None,
        }
    }
}

/// Where a prefix of the announce URLs does not give tracker URLs, the whole
/// does not either.
proof fn lemma_tracker_urls_prefix(bases: Seq<Seq<char>>, query: Seq<char>, k: int)
    requires
        0 <= k <= bases.len(),
        tracker_urls(bases.subrange(0, k), query) is None,
    ensures
        tracker_urls(bases, query) is None,
    decreases bases.len() - k,
{
    if k == bases.len() {
        assert(bases.subrange(0, k) =~= bases);
    } else {
        assert(bases.subrange(0, k + 1).drop_last() =~= bases.subrange(0, k));
        lemma_tracker_urls_prefix(bases, query, k + 1);
    }
}

impl TorrentFile {
    /// The SHA-1 digest of the canonical encoding of the `info` dictionary,
    /// which identifies the torrent.
    pub fn compute_info_hash(&self) -> (hash: [u8; 20])
        ensures
            hash@ == sha1_of(self@.info_encoded),
    {
        sha1_digest(self.info_encoded.as_slice())
    }

    /// The announce URLs in the order in which they are tried.
    pub fn candidate_urls(&self) -> (urls: Vec<String>)
        ensures
            texts(urls@) == candidates(self@),
    {
        let mut urls: Vec<String> = Vec::new();
        match &self.announce_list {
            Some(list) => {
                let ghost all = tiers(list@);
                let mut i: usize = 0;
                assert(all.subrange(0, 0) =~= Seq::<Seq<Seq<char>>>::empty());
                assert(texts(urls@) =~= all.subrange(0, 0).flatten());
                while i < list.len()
                    invariant
                        i <= list.len(),
                        all == tiers(list@),
                        texts(urls@) == all.subrange(0, i as int).flatten(),
                    decreases list.len() - i,
                {
                    let tier: &Vec<String> = &list[i];
                    let ghost before = texts(urls@);
                    let mut j: usize = 0;
                    assert(texts(tier@).subrange(0, 0) =~= Seq::<Seq<char>>::empty());
                    assert(before + texts(tier@).subrange(0, 0) =~= before);
                    while j < tier.len()
                        invariant
                            j <= tier.len(),
                            texts(urls@) == before + texts(tier@).subrange(0, j as int),
                        decreases tier.len() - j,
                    {
                        let url: String = tier[j].clone();
                        proof {
                            let part = texts(tier@);
                            assert(texts(urls@.push(url)) =~= texts(urls@).push(url@));
                            assert(part.subrange(0, j + 1) =~= part.subrange(0, j as int).push(
                                part[j as int],
                            ));
                            assert((before + part.subrange(0, j as int)).push(part[j as int])
                                =~= before + part.subrange(0, j + 1));
                        }
                        urls.push(url);
                        j = j + 1;
                    }
                    proof {
                        assert(texts(tier@).subrange(0, tier@.len() as int) =~= texts(tier@));
                        assert(all.subrange(0, i as int).push(all[i as int]) =~= all.subrange(
                            0,
                            i + 1,
                        ));
                        all.subrange(0, i as int).lemma_flatten_push(all[i as int]);
                    }
                    i = i + 1;
                }
                assert(all.subrange(0, list@.len() as int) =~= all);
            },
            None => {
                match &self.announce {
                    Some(url) => {
                        let url: String = url.clone();
                        assert(texts(urls@.push(url)) =~= seq![url@]);
                        urls.push(url);
                    },
                    None => {
                        assert(texts(urls@) =~= Seq::<Seq<char>>::empty());
                    },
                }
            },
        }
        urls
    }

    /// The tracker URLs for a torrent with the info-hash `info_hash`: each
    /// announce URL with the query that names the hash and this client's
    /// peer id. `InvalidTrackerUrl` where one of the announce URLs is no
    /// URL.
    pub fn build_tracker_url_for(&self, info_hash: &[u8; 20]) -> (r: Result<
        Vec<String>,
        ClientError,
    >)
        ensures
            match tracker_urls(candidates(self@), tracker_query(info_hash@, peer_id_bytes())) {
                Some(urls) => r matches Ok(found) && texts(found@) == urls,
                None => r == Err::<Vec<String>, ClientError>(ClientError::InvalidTrackerUrl),
            },
    {
        let peer_id: [u8; 20] = client_peer_id();
        let mut query: String = String::from_str("info_hash=");
        query.append(percent_encode_bytes(info_hash.as_slice()).as_str());
        query.append("&peer_id=");
        query.append(percent_encode_bytes(peer_id.as_slice()).as_str());
        assert(query@ =~= tracker_query(info_hash@, peer_id_bytes()));
        let bases: Vec<String> = self.candidate_urls();
        let ghost all = candidates(self@);
        let mut all_tracker_urls: Vec<String> = Vec::new();
        let mut i: usize = 0;
        assert(all.subrange(0, 0) =~= Seq::<Seq<char>>::empty());
        assert(texts(all_tracker_urls@) =~= Seq::<Seq<char>>::empty());
        while i < bases.len()
            invariant
                i <= bases.len(),
                all == texts(bases@),
                all == candidates(self@),
                query@ == tracker_query(info_hash@, peer_id_bytes()),
                tracker_urls(all.subrange(0, i as int), query@) == Some(texts(all_tracker_urls@)),
            decreases bases.len() - i,
        {
            proof {
                assert(all.subrange(0, i + 1).drop_last() =~= all.subrange(0, i as int));
                assert(all.subrange(0, i + 1).last() == bases@[i as int]@);
            }
            let base: &str = bases[i].as_str();
            let base_length: usize = base.as_bytes().len();
            let room: bool = base_length <= MAX_URL_BYTES && query.as_str().as_bytes().len()
                <= MAX_URL_BYTES - base_length;
            let url: Option<String> = if room {
                set_url_query(base, query.as_str())
            } else {
                None
            };
            match url {
                Some(url) => {
                    assert(texts(all_tracker_urls@.push(url)) =~= texts(all_tracker_urls@).push(url@));
                    all_tracker_urls.push(url);
                },
                None => {
                    proof {
                        lemma_tracker_urls_prefix(all, query@, i + 1);
                    }
                    return Err(ClientError::InvalidTrackerUrl);
                },
            }
            i = i + 1;
        }
        assert(all.subrange(0, i as int) =~= all);
        Ok(all_tracker_urls)
    }

    /// The tracker URLs of this torrent: each announce URL with the query
    /// that names the torrent's info-hash and this client's peer id.
    /// `InvalidTrackerUrl` where one of the announce URLs is no URL.
    pub fn build_tracker_url(&self) -> (r: Result<Vec<String>, ClientError>)
        ensures
            match tracker_urls(
                candidates(self@),
                tracker_query(sha1_of(self@.info_encoded), peer_id_bytes()),
            ) {
                Some(urls) => r matches Ok(found) && texts(found@) == urls,
                None => r == Err::<Vec<String>, ClientError>(ClientError::InvalidTrackerUrl),
            },
    {
        let info_hash: [u8; 20] = self.compute_info_hash();
        self.build_tracker_url_for(&info_hash)
    }
}

} // verus!
