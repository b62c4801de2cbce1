//! The bencode codec: a decoder from bytes to a tagged value and a canonical
//! encoder back to bytes, which writes the entries of a dictionary in key
//! order whatever the order in which the value holds them.

use vstd::prelude::*;
use vstd::slice::{slice_subrange, slice_to_vec};
use vstd::utf8::{decode_utf8, valid_utf8};
use crate::parser::decimal::{
    canonical_int, canonical_nat, decimal_to_i64, digits_value, int_text, int_value, is_digit,
    lemma_canonical_int_text, nat_text, push_decimal, read_decimal, INTEGER_MINUS_SIGN, NINE,
    ZERO,
};
use crate::parser::bencode_laws::lemma_ordered_of_valid;
use crate::parser::key_order::{
    entry_keys, indices, key_order, keys_distinct, lemma_order_of, order_of,
};
use crate::parser::lexical::{bytes_equal, bytes_less, lex_less};
use crate::parser::text::string_from_utf8;

verus! {

/// The byte `i`, which opens an integer.
pub const START_INTEGER: u8 = 0x69;

/// The byte `l`, which opens a list.
pub const START_LIST: u8 = 0x6c;

/// The byte `d`, which opens a dictionary.
pub const START_DICTIONARY: u8 = 0x64;

/// The byte `e`, which closes an integer, a list or a dictionary.
pub const END_INTEGER_LIST_DICTIONARY: u8 = 0x65;

/// The byte `:`, which stands between the length of a byte string and its
/// bytes.
pub const END_SIZE_OF_STRING: u8 = 0x3a;

/// What a bencoded value is, apart from how it is stored: an integer, a byte
/// string, a list of values, or a dictionary given as its entries in key
/// order. `Error` stands for the result of a failed decoding.
pub enum Bencode {
    Integer(int),
    String(Seq<u8>),
    List(Seq<Bencode>),
    Dictionary(Seq<(Seq<u8>, Bencode)>),
    Error,
}

/// The keys of `entries` are strictly ascending, so no key occurs twice.
pub open spec fn keys_ascending(entries: Seq<(Seq<u8>, Bencode)>) -> bool {
    forall|i: int| 0 <= i < entries.len() - 1 ==> lex_less(#[trigger] entries[i].0, entries[i + 1].0)
}

/// The item of `items` at index `i`.
pub open spec fn item_at(items: Seq<Bencode>, i: int) -> Bencode {
    items[i]
}

/// `v` can be encoded: it holds no `Error`, and the keys of every dictionary
/// in it are strictly ascending.
pub open spec fn valid(v: Bencode) -> bool
    decreases v,
{
    match v {
        Bencode::Integer(_) => true,
        Bencode::String(_) => true,
        Bencode::List(items) => forall|i: int|
            0 <= i < items.len() ==> valid(#[trigger] item_at(items, i)),
        Bencode::Dictionary(entries) => {
            &&& keys_ascending(entries)
            &&& forall|i: int| 0 <= i < entries.len() ==> valid((#[trigger] entries[i]).1)
        },
        Bencode::Error => false,
    }
}

/// The keys of `entries`, in the order in which the entries are held.
pub open spec fn keys_of(entries: Seq<(Seq<u8>, Bencode)>) -> Seq<Seq<u8>> {
    Seq::new(entries.len(), |i: int| entries[i].0)
}

/// `v` can be handed to the encoder: it holds no `Error`, and no dictionary
/// in it holds a key twice. The entries of a dictionary may be held in any
/// order.
pub open spec fn encodable(v: Bencode) -> bool
    decreases v,
{
    match v {
        Bencode::Integer(_) => true,
        Bencode::String(_) => true,
        Bencode::List(items) => forall|i: int|
            0 <= i < items.len() ==> encodable(#[trigger] item_at(items, i)),
        Bencode::Dictionary(entries) => {
            &&& keys_distinct(keys_of(entries))
            &&& forall|i: int| 0 <= i < entries.len() ==> encodable((#[trigger] entries[i]).1)
        },
        Bencode::Error => false,
    }
}

/// `v` with the entries of every dictionary in it arranged in ascending key
/// order: the value that the encoder writes.
pub open spec fn ordered(v: Bencode) -> Bencode
    decreases v,
{
    match v {
        Bencode::List(items) => Bencode::List(
            Seq::new(
                items.len(),
                |i: int|
                    if 0 <= i < items.len() {
                        ordered(items[i])
                    } else {
                        Bencode::Error
                    },
            ),
        ),
        Bencode::Dictionary(entries) => Bencode::Dictionary(
            Seq::new(
                entries.len(),
                |k: int|
                    if 0 <= k < order_of(keys_of(entries), entries.len()).len() && 0 <= order_of(
                        keys_of(entries),
                        entries.len(),
                    )[k] < entries.len() {
                        (
                            entries[order_of(keys_of(entries), entries.len())[k]].0,
                            ordered(entries[order_of(keys_of(entries), entries.len())[k]].1),
                        )
                    } else {
                        (Seq::empty(), Bencode::Error)
                    },
            ),
        ),
        other => other,
    }
}

/// The canonical encoding of a byte string: its length in decimal, a colon,
/// and the bytes.
pub open spec fn encode_string(s: Seq<u8>) -> Seq<u8> {
    nat_text(s.len()) + seq![END_SIZE_OF_STRING] + s
}

/// The canonical encoding of `v`. Integers are written in their shortest
/// form, dictionaries entry by entry in the order of their keys.
pub open spec fn encode(v: Bencode) -> Seq<u8>
    decreases v, 0int,
{
    match v {
        Bencode::Integer(n) => seq![START_INTEGER] + int_text(n) + seq![END_INTEGER_LIST_DICTIONARY],
        Bencode::String(s) => encode_string(s),
        Bencode::List(items) => seq![START_LIST] + encode_items(items) + seq![
            END_INTEGER_LIST_DICTIONARY,
        ],
        Bencode::Dictionary(entries) => seq![START_DICTIONARY] + encode_entries(entries) + seq![
            END_INTEGER_LIST_DICTIONARY,
        ],
        Bencode::Error => Seq::empty(),
    }
}

/// The encodings of `items`, one after the other.
pub open spec fn encode_items(items: Seq<Bencode>) -> Seq<u8>
    decreases items, 1int,
{
    if items.len() == 0 {
        Seq::empty()
    } else {
        encode(items[0]) + encode_items(items.skip(1))
    }
}

/// The encodings of `entries`, one after the other, each as its key and then
/// its value.
pub open spec fn encode_entries(entries: Seq<(Seq<u8>, Bencode)>) -> Seq<u8>
    decreases entries, 1int,
{
    if entries.len() == 0 {
        Seq::empty()
    } else {
        encode_string(entries[0].0) + encode(entries[0].1) + encode_entries(entries.skip(1))
    }
}

/// The index of the first `b` in `s`, or the length of `s` if it holds none.
pub open spec fn find_byte(s: Seq<u8>, b: u8) -> int
    decreases s.len(),
{
    if s.len() == 0 {
        0
    } else if s[0] == b {
        0
    } else {
        1 + find_byte(s.skip(1), b)
    }
}

/// Decoding of an integer at the start of `s`: `i`, a canonical signed
/// numeral, `e`. The result is the value and the number of bytes it took.
pub open spec fn decode_integer(s: Seq<u8>) -> Option<(Bencode, nat)> {
    let end = find_byte(s, END_INTEGER_LIST_DICTIONARY);
    if s.len() >= 1 && s[0] == START_INTEGER && end < s.len() && canonical_int(s.subrange(1, end)) {
        Some((Bencode::Integer(int_value(s.subrange(1, end))), (end + 1) as nat))
    } else {
        None
    }
}

/// Decoding of a byte string at the start of `s`: a canonical length, a
/// colon, and exactly that many bytes.
pub open spec fn decode_string(s: Seq<u8>) -> Option<(Seq<u8>, nat)> {
    let colon = find_byte(s, END_SIZE_OF_STRING);
    if colon < s.len() && canonical_nat(s.subrange(0, colon)) && colon + 1 + digits_value(
        s.subrange(0, colon),
    ) <= s.len() {
        let size = digits_value(s.subrange(0, colon));
        Some((s.subrange(colon + 1, colon + 1 + size), (colon + 1 + size) as nat))
    } else {
        None
    }
}

/// Decoding of one value at the start of `s`, by its first byte.
pub open spec fn decode(s: Seq<u8>) -> Option<(Bencode, nat)>
    decreases s.len(), 0int,
{
    if s.len() == 0 {
        None
    } else if s[0] == START_INTEGER {
        decode_integer(s)
    } else if s[0] == START_LIST {
        match decode_items(s.skip(1)) {
            Some((items, n)) => Some((Bencode::List(items), n + 1)),
            None => None,
        }
    } else if s[0] == START_DICTIONARY {
        match decode_entries(s.skip(1), None) {
            Some((entries, n)) => Some((Bencode::Dictionary(entries), n + 1)),
            None => None,
        }
    } else {
        match decode_string(s) {
            Some((bytes, n)) => Some((Bencode::String(bytes), n)),
            None => None,
        }
    }
}

/// Decoding of the rest of a list: values up to the closing `e`. The count
/// includes the `e`.
pub open spec fn decode_items(s: Seq<u8>) -> Option<(Seq<Bencode>, nat)>
    decreases s.len(), 1int,
{
    if s.len() == 0 {
        None
    } else if s[0] == END_INTEGER_LIST_DICTIONARY {
        Some((Seq::empty(), 1))
    } else {
        match decode(s) {
            Some((v, n)) => if 0 < n <= s.len() {
                match decode_items(s.skip(n as int)) {
                    Some((rest, m)) => Some((seq![v] + rest, n + m)),
                    None => None,
                }
            } else {
                None
            },
            None => None,
        }
    }
}

/// Decoding of the rest of a dictionary: entries up to the closing `e`, each
/// a string key and a value, every key after `previous` and after the key
/// before it. The count includes the `e`.
pub open spec fn decode_entries(s: Seq<u8>, previous: Option<Seq<u8>>) -> Option<
    (Seq<(Seq<u8>, Bencode)>, nat),
>
    decreases s.len(), 1int,
{
    if s.len() == 0 {
        None
    } else if s[0] == END_INTEGER_LIST_DICTIONARY {
        Some((Seq::empty(), 1))
    } else {
        match decode_string(s) {
            Some((key, k)) => if 0 < k <= s.len() && (previous matches Some(p) ==> lex_less(p, key)) {
                match decode(s.skip(k as int)) {
                    Some((v, n)) => if 0 < n <= s.len() - k {
                        match decode_entries(s.skip((k + n) as int), Some(key)) {
                            Some((rest, m)) => Some((seq![(key, v)] + rest, k + n + m)),
                            None => None,
                        }
                    } else {
                        None
                    },
                    None => None,
                }
            } else {
                None
            },
            None => None,
        }
    }
}

/// A bencoded value as it is held in memory. An integer is kept as its
/// decimal numeral, a dictionary as its entries: the decoder hands them out
/// in ascending key order, and the encoder takes them in any order.
/// `Error` is what the decoder hands back for input that is not bencode.
#[derive(Debug, PartialEq, Eq)]
pub enum BencodeValue {
    Integer(Vec<u8>),
    String(Vec<u8>),
    List(Vec<BencodeValue>),
    Dictionary(Vec<(Vec<u8>, BencodeValue)>),
    Error(String),
}

/// The values that the elements of `items` stand for.
pub open spec fn items_view(items: Seq<BencodeValue>) -> Seq<Bencode> {
    Seq::new(items.len(), |i: int| items[i]@)
}

/// The entries that the elements of `entries` stand for.
pub open spec fn entries_view(entries: Seq<(Vec<u8>, BencodeValue)>) -> Seq<(Seq<u8>, Bencode)> {
    Seq::new(entries.len(), |i: int| (entries[i].0@, entries[i].1@))
}

impl View for BencodeValue {
    type V = Bencode;

    open spec fn view(&self) -> Bencode {
        self.model()
    }
}

impl BencodeValue {
    /// The value that `self` stands for.
    pub open spec fn model(&self) -> Bencode
        decreases self,
    {
        match self {
            BencodeValue::Integer(text) => Bencode::Integer(int_value(text@)),
            BencodeValue::String(bytes) => Bencode::String(bytes@),
            BencodeValue::List(items) => Bencode::List(
                Seq::new(
                    items@.len(),
                    |i: int|
                        if 0 <= i < items@.len() {
                            items@[i].model()
                        } else {
                            Bencode::Error
                        },
                ),
            ),
            BencodeValue::Dictionary(entries) => Bencode::Dictionary(
                Seq::new(
                    entries@.len(),
                    |i: int|
                        if 0 <= i < entries@.len() {
                            (entries@[i].0@, entries@[i].1.model())
                        } else {
                            (Seq::empty(), Bencode::Error)
                        },
                ),
            ),
            BencodeValue::Error(_) => Bencode::Error,
        }
    }

    /// Every integer held in `self` is written as a canonical numeral.
    pub open spec fn numerals_canonical(&self) -> bool
        decreases self,
    {
        match self {
            BencodeValue::Integer(text) => canonical_int(text@),
            BencodeValue::String(_) => true,
            BencodeValue::List(items) => forall|i: int|
                0 <= i < items@.len() ==> (#[trigger] items@[i]).numerals_canonical(),
            BencodeValue::Dictionary(entries) => forall|i: int|
                0 <= i < entries@.len() ==> (#[trigger] entries@[i]).1.numerals_canonical(),
            BencodeValue::Error(_) => true,
        }
    }

    /// `self` is a value that the decoder produces: no `Error` inside,
    /// canonical numerals, dictionary keys strictly ascending.
    pub open spec fn wf(&self) -> bool {
        self.numerals_canonical() && valid(self@)
    }

    /// `self` is a value that the encoder accepts: no `Error` inside,
    /// canonical numerals, and no key twice in one dictionary, in whatever
    /// order the entries are held.
    pub open spec fn encodable(&self) -> bool {
        self.numerals_canonical() && encodable(self@)
    }
}

/// The view of a list is the list of its elements' views.
pub proof fn lemma_list_view(items: Vec<BencodeValue>)
    ensures
        BencodeValue::List(items)@ == Bencode::List(items_view(items@)),
{
    assert(BencodeValue::List(items)@->List_0 =~= items_view(items@));
}

/// The view of a dictionary is the sequence of its entries' views.
pub proof fn lemma_dictionary_view(entries: Vec<(Vec<u8>, BencodeValue)>)
    ensures
        BencodeValue::Dictionary(entries)@ == Bencode::Dictionary(entries_view(entries@)),
{
    let a = BencodeValue::Dictionary(entries)@->Dictionary_0;
    let b = entries_view(entries@);
    assert(a.len() == entries@.len()) by {
        reveal_with_fuel(BencodeValue::model, 2);
    }
    assert forall|i: int| 0 <= i < a.len() implies a[i] == b[i] by {
        assert(a[i].0 == entries@[i].0@);
        assert(a[i].1 == entries@[i].1@);
    }
    assert(a =~= b);
}

/// Decoding of a byte string at the start of `s`, as a value.
pub open spec fn decode_string_value(s: Seq<u8>) -> Option<(Bencode, nat)> {
    match decode_string(s) {
        Some((bytes, n)) => Some((Bencode::String(bytes), n)),
        None => None,
    }
}

/// Decoding of a list at the start of `s`: `l`, values, `e`.
pub open spec fn decode_list(s: Seq<u8>) -> Option<(Bencode, nat)> {
    if s.len() >= 1 && s[0] == START_LIST {
        match decode_items(s.skip(1)) {
            Some((items, n)) => Some((Bencode::List(items), n + 1)),
            None => None,
        }
    } else {
        None
    }
}

/// Decoding of a dictionary at the start of `s`: `d`, entries with strictly
/// ascending string keys, `e`.
pub open spec fn decode_dictionary(s: Seq<u8>) -> Option<(Bencode, nat)> {
    if s.len() >= 1 && s[0] == START_DICTIONARY {
        match decode_entries(s.skip(1), None) {
            Some((entries, n)) => Some((Bencode::Dictionary(entries), n + 1)),
            None => None,
        }
    } else {
        None
    }
}

/// What a decoding function returns for an expected outcome: on success the
/// well-formed value and the number of bytes it took, on failure an `Error`
/// and zero.
pub open spec fn decoded_as(r: (BencodeValue, usize), expected: Option<(Bencode, nat)>) -> bool {
    match expected {
        Some((v, n)) => r.0.wf() && r.0@ == v && r.1 == n,
        None => r.0 is Error && r.1 == 0,
    }
}

/// `k` is where `find_byte` stops if no earlier byte is `b` and either `s`
/// ends at `k` or holds `b` there.
pub proof fn lemma_find_byte_first(s: Seq<u8>, b: u8, k: int)
    requires
        0 <= k <= s.len(),
        forall|j: int| 0 <= j < k ==> s[j] != b,
        k < s.len() ==> s[k] == b,
    ensures
        find_byte(s, b) == k,
    decreases k,
{
    if k > 0 {
        let t = s.skip(1);
        assert forall|j: int| 0 <= j < k - 1 implies t[j] != b by {
            assert(t[j] == s[j + 1]);
        }
        lemma_find_byte_first(t, b, k - 1);
    }
}

fn failure(message: &str) -> (r: (BencodeValue, usize))
    ensures
        r.0 is Error,
        r.1 == 0,
{
    (BencodeValue::Error(message.to_string()), 0)
}

fn find_byte_from(input: &[u8], pos: usize, b: u8) -> (r: usize)
    requires
        pos <= input.len(),
    ensures
        pos <= r <= input.len(),
        r - pos == find_byte(input@.skip(pos as int), b),
        r < input.len() ==> input@[r as int] == b,
{
    let mut i: usize = pos;
    while i < input.len() && input[i] != b
        invariant
            pos <= i <= input.len(),
            forall|j: int| pos <= j < i ==> input@[j] != b,
        decreases input.len() - i,
    {
        i = i + 1;
    }
    proof {
        let t = input@.skip(pos as int);
        assert forall|j: int| 0 <= j < i - pos implies t[j] != b by {
            assert(t[j] == input@[pos + j]);
        }
        lemma_find_byte_first(t, b, i - pos);
    }
    i
}

fn is_canonical_nat_range(input: &[u8], start: usize, end: usize) -> (r: bool)
    requires
        start <= end <= input.len(),
    ensures
        r == canonical_nat(input@.subrange(start as int, end as int)),
{
    let ghost text = input@.subrange(start as int, end as int);
    if end == start {
        return false;
    }
    if end - start > 1 && input[start] == ZERO {
        assert(text[0] == ZERO);
        return false;
    }
    let mut i: usize = start;
    while i < end
        invariant
            start <= i <= end <= input.len(),
            text == input@.subrange(start as int, end as int),
            forall|j: int| 0 <= j < i - start ==> is_digit(#[trigger] text[j]),
        decreases end - i,
    {
        let b: u8 = input[i];
        if b < ZERO || b > NINE {
            assert(text[i - start] == b);
            return false;
        }
        assert(text[i - start] == b);
        i = i + 1;
    }
    assert(text[0] == input@[start as int]);
    true
}

fn is_canonical_int_range(input: &[u8], start: usize, end: usize) -> (r: bool)
    requires
        start <= end <= input.len(),
    ensures
        r == canonical_int(input@.subrange(start as int, end as int)),
{
    let ghost text = input@.subrange(start as int, end as int);
    if end > start && input[start] == INTEGER_MINUS_SIGN {
        assert(text[0] == INTEGER_MINUS_SIGN);
        assert(text.skip(1) =~= input@.subrange(start + 1, end as int));
        if !is_canonical_nat_range(input, start + 1, end) {
            return false;
        }
        assert(text[1] == input@[start + 1]);
        input[start + 1] != ZERO
    } else {
        proof {
            if end > start {
                assert(text[0] == input@[start as int]);
            }
        }
        is_canonical_nat_range(input, start, end)
    }
}

fn copy_range(input: &[u8], start: usize, end: usize) -> (r: Vec<u8>)
    requires
        start <= end <= input.len(),
    ensures
        r@ == input@.subrange(start as int, end as int),
{
    slice_to_vec(slice_subrange(input, start, end))
}

fn read_string_at(input: &[u8], pos: usize) -> (r: Option<(Vec<u8>, usize)>)
    requires
        pos <= input.len(),
    ensures
        match decode_string(input@.skip(pos as int)) {
            Some((bytes, n)) => r matches Some((b, m)) && b@ == bytes && m == n,
            None => r is None,
        },
        r matches Some((b, m)) ==> 0 < m <= input.len() - pos,
{
    let ghost s = input@.skip(pos as int);
    let colon: usize = find_byte_from(input, pos, END_SIZE_OF_STRING);
    if colon >= input.len() {
        return None;
    }
    assert(s.subrange(0, colon - pos) =~= input@.subrange(pos as int, colon as int));
    if !is_canonical_nat_range(input, pos, colon) {
        return None;
    }
    match read_decimal(input, pos, colon) {
        None => None,
        Some(size) => {
            if size > (input.len() - colon - 1) as u64 {
                return None;
            }
            let size: usize = size as usize;
            let bytes: Vec<u8> = copy_range(input, colon + 1, colon + 1 + size);
            assert(s.subrange(colon - pos + 1, colon - pos + 1 + size) =~= input@.subrange(
                colon + 1,
                colon + 1 + size,
            ));
            Some((bytes, colon + 1 + size - pos))
        },
    }
}

fn parse_string_at(input: &[u8], pos: usize) -> (r: (BencodeValue, usize))
    requires
        pos <= input.len(),
    ensures
        decoded_as(r, decode_string_value(input@.skip(pos as int))),
        r.1 <= input.len() - pos,
        !(r.0 is Error) ==> r.1 > 0,
{
    match read_string_at(input, pos) {
        Some((bytes, n)) => (BencodeValue::String(bytes), n),
        None => failure("malformed byte string"),
    }
}

fn parse_integer_at(input: &[u8], pos: usize) -> (r: (BencodeValue, usize))
    requires
        pos <= input.len(),
    ensures
        decoded_as(r, decode_integer(input@.skip(pos as int))),
        r.1 <= input.len() - pos,
        !(r.0 is Error) ==> r.1 > 0,
{
    let ghost s = input@.skip(pos as int);
    if pos >= input.len() || input[pos] != START_INTEGER {
        return failure("an integer starts with i");
    }
    let end: usize = find_byte_from(input, pos, END_INTEGER_LIST_DICTIONARY);
    if end >= input.len() {
        return failure("unterminated integer");
    }
    assert(s.subrange(1, end - pos) =~= input@.subrange(pos + 1, end as int));
    if !is_canonical_int_range(input, pos + 1, end) {
        return failure("malformed integer");
    }
    let text: Vec<u8> = copy_range(input, pos + 1, end);
    (BencodeValue::Integer(text), end + 1 - pos)
}

/// The outcome `r` of decoding what follows `prefix`, seen from where
/// `prefix` began: `used` bytes earlier.
pub open spec fn after_items(prefix: Seq<Bencode>, used: nat, r: Option<(Seq<Bencode>, nat)>) -> Option<
    (Seq<Bencode>, nat),
> {
    match r {
        Some((rest, m)) => Some((prefix + rest, used + m)),
        None => None,
    }
}

/// The outcome `r` of decoding the entries that follow `prefix`, seen from
/// where `prefix` began: `used` bytes earlier.
pub open spec fn after_entries(
    prefix: Seq<(Seq<u8>, Bencode)>,
    used: nat,
    r: Option<(Seq<(Seq<u8>, Bencode)>, nat)>,
) -> Option<(Seq<(Seq<u8>, Bencode)>, nat)> {
    match r {
        Some((rest, m)) => Some((prefix + rest, used + m)),
        None => None,
    }
}

/// The key of the last entry, if there is one.
pub open spec fn last_key(entries: Seq<(Seq<u8>, Bencode)>) -> Option<Seq<u8>> {
    if entries.len() == 0 {
        None
    } else {
        Some(entries.last().0)
    }
}

proof fn lemma_items_step(prefix: Seq<Bencode>, used: nat, s: Seq<u8>, v: Bencode, n: nat)
    requires
        s.len() > 0,
        s[0] != END_INTEGER_LIST_DICTIONARY,
        decode(s) == Some((v, n)),
        0 < n <= s.len(),
    ensures
        after_items(prefix, used, decode_items(s)) == after_items(
            prefix.push(v),
            used + n,
            decode_items(s.skip(n as int)),
        ),
{
    match decode_items(s.skip(n as int)) {
        Some((rest, m)) => {
            assert(prefix + (seq![v] + rest) =~= prefix.push(v) + rest);
        },
        None => {},
    }
}

proof fn lemma_entries_step(
    prefix: Seq<(Seq<u8>, Bencode)>,
    used: nat,
    s: Seq<u8>,
    key: Seq<u8>,
    k: nat,
    v: Bencode,
    n: nat,
)
    requires
        s.len() > 0,
        s[0] != END_INTEGER_LIST_DICTIONARY,
        decode_string(s) == Some((key, k)),
        0 < k <= s.len(),
        last_key(prefix) matches Some(p) ==> lex_less(p, key),
        decode(s.skip(k as int)) == Some((v, n)),
        0 < n <= s.len() - k,
    ensures
        after_entries(prefix, used, decode_entries(s, last_key(prefix))) == after_entries(
            prefix.push((key, v)),
            used + k + n,
            decode_entries(s.skip((k + n) as int), last_key(prefix.push((key, v)))),
        ),
{
    match decode_entries(s.skip((k + n) as int), Some(key)) {
        Some((rest, m)) => {
            assert(prefix + (seq![(key, v)] + rest) =~= prefix.push((key, v)) + rest);
        },
        None => {},
    }
}

fn parse_value_at(input: &[u8], pos: usize) -> (r: (BencodeValue, usize))
    requires
        pos <= input.len(),
    ensures
        decoded_as(r, decode(input@.skip(pos as int))),
        r.1 <= input.len() - pos,
        !(r.0 is Error) ==> r.1 > 0,
    decreases input.len() - pos, 1int,
{
    if pos >= input.len() {
        return failure("unexpected end of input");
    }
    let first: u8 = input[pos];
    if first == START_INTEGER {
        parse_integer_at(input, pos)
    } else if first == START_LIST {
        parse_list_at(input, pos)
    } else if first == START_DICTIONARY {
        parse_dictionary_at(input, pos)
    } else {
        parse_string_at(input, pos)
    }
}

fn parse_list_at(input: &[u8], pos: usize) -> (r: (BencodeValue, usize))
    requires
        pos <= input.len(),
    ensures
        decoded_as(r, decode_list(input@.skip(pos as int))),
        r.1 <= input.len() - pos,
        !(r.0 is Error) ==> r.1 > 0,
    decreases input.len() - pos, 0int,
{
    let ghost s = input@.skip(pos as int);
    if pos >= input.len() || input[pos] != START_LIST {
        return failure("a list starts with l");
    }
    let mut values: Vec<BencodeValue> = Vec::new();
    let mut p: usize = pos + 1;
    proof {
        assert(s.skip(1) =~= input@.skip(p as int));
        assert(items_view(values@) + Seq::<Bencode>::empty() =~= Seq::<Bencode>::empty());
        match decode_items(input@.skip(p as int)) {
            Some((rest, m)) => {
                assert(items_view(values@) + rest =~= rest);
            },
            None => {},
        }
    }
    loop
        invariant
            pos < p <= input.len(),
            s == input@.skip(pos as int),
            input@[pos as int] == START_LIST,
            forall|i: int| 0 <= i < values@.len() ==> (#[trigger] values@[i]).wf(),
            decode_items(s.skip(1)) == after_items(
                items_view(values@),
                (p - pos - 1) as nat,
                decode_items(input@.skip(p as int)),
            ),
        decreases input.len() - p,
    {
        if p >= input.len() {
            return failure("unterminated list");
        }
        if input[p] == END_INTEGER_LIST_DICTIONARY {
            proof {
                assert(s[0] == input@[pos as int]);
                assert(input@.skip(p as int)[0] == input@[p as int]);
                lemma_list_view(values);
                assert(items_view(values@) + Seq::<Bencode>::empty() =~= items_view(values@));
                assert forall|i: int| 0 <= i < items_view(values@).len() implies valid(
                    #[trigger] item_at(items_view(values@), i),
                ) by {
                    assert(values@[i].wf());
                }
            }
            return (BencodeValue::List(values), p + 1 - pos);
        }
        let (value, n) = parse_value_at(input, p);
        match value {
            BencodeValue::Error(message) => {
                return (BencodeValue::Error(message), 0);
            },
            value => {
                proof {
                    let t = input@.skip(p as int);
                    lemma_items_step(
                        items_view(values@),
                        (p - pos - 1) as nat,
                        t,
                        value@,
                        n as nat,
                    );
                    assert(t.skip(n as int) =~= input@.skip(p + n));
                    assert(items_view(values@.push(value)) =~= items_view(values@).push(value@));
                }
                values.push(value);
                p = p + n;
            },
        }
    }
}

fn parse_dictionary_at(input: &[u8], pos: usize) -> (r: (BencodeValue, usize))
    requires
        pos <= input.len(),
    ensures
        decoded_as(r, decode_dictionary(input@.skip(pos as int))),
        r.1 <= input.len() - pos,
        !(r.0 is Error) ==> r.1 > 0,
    decreases input.len() - pos, 0int,
{
    let ghost s = input@.skip(pos as int);
    if pos >= input.len() || input[pos] != START_DICTIONARY {
        return failure("a dictionary starts with d");
    }
    let mut entries: Vec<(Vec<u8>, BencodeValue)> = Vec::new();
    let mut p: usize = pos + 1;
    proof {
        assert(s.skip(1) =~= input@.skip(p as int));
        match decode_entries(input@.skip(p as int), None) {
            Some((rest, m)) => {
                assert(entries_view(entries@) + rest =~= rest);
            },
            None => {},
        }
    }
    loop
        invariant
            pos < p <= input.len(),
            s == input@.skip(pos as int),
            input@[pos as int] == START_DICTIONARY,
            forall|i: int| 0 <= i < entries@.len() ==> (#[trigger] entries@[i]).1.wf(),
            keys_ascending(entries_view(entries@)),
            decode_entries(s.skip(1), None) == after_entries(
                entries_view(entries@),
                (p - pos - 1) as nat,
                decode_entries(input@.skip(p as int), last_key(entries_view(entries@))),
            ),
        decreases input.len() - p,
    {
        if p >= input.len() {
            return failure("unterminated dictionary");
        }
        if input[p] == END_INTEGER_LIST_DICTIONARY {
            proof {
                assert(s[0] == input@[pos as int]);
                assert(input@.skip(p as int)[0] == input@[p as int]);
                lemma_dictionary_view(entries);
                let view = entries_view(entries@);
                assert(view + Seq::<(Seq<u8>, Bencode)>::empty() =~= view);
                assert forall|i: int| 0 <= i < view.len() implies valid((#[trigger] view[i]).1) by {
                    assert(entries@[i].1.wf());
                }
            }
            return (BencodeValue::Dictionary(entries), p + 1 - pos);
        }
        let ghost t = input@.skip(p as int);
        let (key, k) = match read_string_at(input, p) {
            Some(found) => found,
            None => {
                return failure("a dictionary key is a byte string");
            },
        };
        if entries.len() > 0 {
            let ghost view = entries_view(entries@);
            assert(view.last().0 == entries@[entries@.len() - 1].0@);
            if !bytes_less(entries[entries.len() - 1].0.as_slice(), key.as_slice()) {
                return failure("dictionary keys must ascend");
            }
        }
        let (value, n) = parse_value_at(input, p + k);
        proof {
            assert(t.skip(k as int) =~= input@.skip(p + k));
        }
        match value {
            BencodeValue::Error(message) => {
                return (BencodeValue::Error(message), 0);
            },
            value => {
                proof {
                    let view = entries_view(entries@);
                    lemma_entries_step(view, (p - pos - 1) as nat, t, key@, k as nat, value@, n as nat);
                    assert(t.skip((k + n) as int) =~= input@.skip(p + k + n));
                    assert(entries_view(entries@.push((key, value))) =~= view.push((key@, value@)));
                    assert(keys_ascending(view.push((key@, value@)))) by {
                        let next = view.push((key@, value@));
                        assert forall|i: int| 0 <= i < next.len() - 1 implies lex_less(
                            #[trigger] next[i].0,
                            next[i + 1].0,
                        ) by {
                            if i < view.len() - 1 {
                                assert(lex_less(view[i].0, view[i + 1].0));
                            }
                        }
                    }
                }
                entries.push((key, value));
                p = p + k + n;
            },
        }
    }
}

/// Decodes a byte string (`<length>:<bytes>`) at the start of `input_slice`.
pub fn parse_string(input_slice: &[u8]) -> (r: (BencodeValue, usize))
    ensures
        decoded_as(r, decode_string_value(input_slice@)),
        r.1 <= input_slice.len(),
{
    assert(input_slice@.skip(0) =~= input_slice@);
    parse_string_at(input_slice, 0)
}

/// Decodes an integer (`i<numeral>e`) at the start of `input_slice`.
pub fn parse_integer(input_slice: &[u8]) -> (r: (BencodeValue, usize))
    ensures
        decoded_as(r, decode_integer(input_slice@)),
        r.1 <= input_slice.len(),
{
    assert(input_slice@.skip(0) =~= input_slice@);
    parse_integer_at(input_slice, 0)
}

/// Decodes a dictionary (`d<entries>e`) at the start of `input_slice`.
pub fn parse_dictionary(input_slice: &[u8]) -> (r: (BencodeValue, usize))
    ensures
        decoded_as(r, decode_dictionary(input_slice@)),
        r.1 <= input_slice.len(),
{
    assert(input_slice@.skip(0) =~= input_slice@);
    parse_dictionary_at(input_slice, 0)
}

/// Decodes a list (`l<values>e`) at the start of `input_slice`.
pub fn parse_list(input_slice: &[u8]) -> (r: (BencodeValue, usize))
    ensures
        decoded_as(r, decode_list(input_slice@)),
        r.1 <= input_slice.len(),
{
    assert(input_slice@.skip(0) =~= input_slice@);
    parse_list_at(input_slice, 0)
}

/// Decodes one value at the start of `input_slice`. Returns the value and
/// the number of bytes it took, or an `Error` and zero when the input does
/// not start with a canonical encoding.
pub fn parse_bencode(input_slice: &[u8]) -> (r: (BencodeValue, usize))
    ensures
        decoded_as(r, decode(input_slice@)),
        r.1 <= input_slice.len(),
{
    assert(input_slice@.skip(0) =~= input_slice@);
    parse_value_at(input_slice, 0)
}

/// Encoding a list with one more item appends that item's encoding.
pub proof fn lemma_encode_items_push(items: Seq<Bencode>, v: Bencode)
    ensures
        encode_items(items.push(v)) == encode_items(items) + encode(v),
    decreases items.len(),
{
    let next = items.push(v);
    if items.len() == 0 {
        assert(next.skip(1) =~= Seq::<Bencode>::empty());
        assert(encode_items(next) =~= encode(v) + encode_items(next.skip(1)));
        assert(encode_items(next.skip(1)) =~= Seq::<u8>::empty());
        assert(encode_items(items) =~= Seq::<u8>::empty());
        assert(encode(v) + Seq::<u8>::empty() =~= Seq::<u8>::empty() + encode(v));
    } else {
        assert(next.skip(1) =~= items.skip(1).push(v));
        lemma_encode_items_push(items.skip(1), v);
        assert(encode(items[0]) + (encode_items(items.skip(1)) + encode(v)) =~= (encode(items[0])
            + encode_items(items.skip(1))) + encode(v));
    }
}

/// Encoding a dictionary with one more entry appends that entry's encoding.
pub proof fn lemma_encode_entries_push(entries: Seq<(Seq<u8>, Bencode)>, key: Seq<u8>, v: Bencode)
    ensures
        encode_entries(entries.push((key, v))) == encode_entries(entries) + encode_string(key)
            + encode(v),
    decreases entries.len(),
{
    let next = entries.push((key, v));
    if entries.len() == 0 {
        assert(next.skip(1) =~= Seq::<(Seq<u8>, Bencode)>::empty());
        assert(encode_entries(next.skip(1)) =~= Seq::<u8>::empty());
        assert(encode_entries(entries) =~= Seq::<u8>::empty());
        assert(encode_entries(next) =~= encode_string(key) + encode(v) + encode_entries(
            next.skip(1),
        ));
        assert(encode_entries(next) =~= encode_entries(entries) + encode_string(key) + encode(v));
    } else {
        assert(next.skip(1) =~= entries.skip(1).push((key, v)));
        lemma_encode_entries_push(entries.skip(1), key, v);
        let head = encode_string(entries[0].0) + encode(entries[0].1);
        assert(head + (encode_entries(entries.skip(1)) + encode_string(key) + encode(v)) =~= (head
            + encode_entries(entries.skip(1))) + encode_string(key) + encode(v));
    }
}

/// Appends `bytes` to `out`.
pub fn append_bytes(out: &mut Vec<u8>, bytes: &[u8])
    ensures
        final(out)@ == old(out)@ + bytes@,
{
    let mut i: usize = 0;
    while i < bytes.len()
        invariant
            i <= bytes.len(),
            out@ == old(out)@ + bytes@.subrange(0, i as int),
        decreases bytes.len() - i,
    {
        out.push(bytes[i]);
        assert(old(out)@ + bytes@.subrange(0, i + 1) =~= (old(out)@ + bytes@.subrange(0, i as int)).push(
            bytes@[i as int],
        ));
        i = i + 1;
    }
    assert(bytes@.subrange(0, bytes@.len() as int) =~= bytes@);
}

fn encode_string_into(bytes: &[u8], out: &mut Vec<u8>)
    ensures
        final(out)@ == old(out)@ + encode_string(bytes@),
{
    push_decimal(out, bytes.len());
    out.push(END_SIZE_OF_STRING);
    append_bytes(out, bytes);
    assert(final(out)@ =~= old(out)@ + encode_string(bytes@));
}

fn encode_into(value: &BencodeValue, out: &mut Vec<u8>)
    requires
        value.encodable(),
    ensures
        final(out)@ == old(out)@ + encode(ordered(value@)),
    decreases value,
{
    match value {
        BencodeValue::Integer(text) => {
            out.push(START_INTEGER);
            append_bytes(out, text.as_slice());
            out.push(END_INTEGER_LIST_DICTIONARY);
            proof {
                lemma_canonical_int_text(text@);
                assert(final(out)@ =~= old(out)@ + encode(value@));
            }
        },
        BencodeValue::String(bytes) => {
            encode_string_into(bytes.as_slice(), out);
        },
        BencodeValue::List(items) => {
            out.push(START_LIST);
            let ghost view = items_view(items@);
            let ghost target = ordered(value@)->List_0;
            proof {
                lemma_list_view(*items);
                assert(target.subrange(0, 0) =~= Seq::<Bencode>::empty());
                assert(out@ =~= old(out)@ + seq![START_LIST] + encode_items(target.subrange(0, 0)));
            }
            let mut i: usize = 0;
            while i < items.len()
                invariant
                    i <= items.len(),
                    value.encodable(),
                    *value == BencodeValue::List(*items),
                    view == items_view(items@),
                    value@ == Bencode::List(view),
                    ordered(value@) == Bencode::List(target),
                    target.len() == view.len(),
                    out@ == old(out)@ + seq![START_LIST] + encode_items(target.subrange(0, i as int)),
                decreases items.len() - i,
            {
                proof {
                    assert(items@[i as int].numerals_canonical());
                    assert(encodable(item_at(view, i as int)));
                    assert(target[i as int] == ordered(view[i as int]));
                    lemma_encode_items_push(target.subrange(0, i as int), target[i as int]);
                    assert(target.subrange(0, i as int).push(target[i as int])
                        =~= target.subrange(0, i + 1));
                }
                encode_into(&items[i], out);
                assert(out@ =~= old(out)@ + seq![START_LIST] + encode_items(
                    target.subrange(0, i + 1),
                ));
                i = i + 1;
            }
            out.push(END_INTEGER_LIST_DICTIONARY);
            proof {
                assert(target.subrange(0, items@.len() as int) =~= target);
                assert(final(out)@ =~= old(out)@ + encode(ordered(value@)));
            }
        },
        BencodeValue::Dictionary(entries) => {
            out.push(START_DICTIONARY);
            let order: Vec<usize> = key_order(entries);
            let ghost view = entries_view(entries@);
            let ghost target = ordered(value@)->Dictionary_0;
            proof {
                lemma_dictionary_view(*entries);
                assert(keys_of(view) =~= entry_keys(entries@));
                lemma_order_of(keys_of(view), view.len());
                assert forall|j: int| 0 <= j < order@.len() implies #[trigger] order@[j]
                    < entries@.len() by {
                    assert(indices(order@)[j] == order@[j]);
                }
                assert(target.subrange(0, 0) =~= Seq::<(Seq<u8>, Bencode)>::empty());
                assert(out@ =~= old(out)@ + seq![START_DICTIONARY] + encode_entries(
                    target.subrange(0, 0),
                ));
            }
            let mut k: usize = 0;
            while k < order.len()
                invariant
                    k <= order@.len(),
                    order@.len() == entries@.len(),
                    value.encodable(),
                    *value == BencodeValue::Dictionary(*entries),
                    view == entries_view(entries@),
                    value@ == Bencode::Dictionary(view),
                    indices(order@) == order_of(keys_of(view), view.len()),
                    forall|j: int| 0 <= j < order@.len() ==> #[trigger] order@[j] < entries@.len(),
                    ordered(value@) == Bencode::Dictionary(target),
                    target.len() == view.len(),
                    out@ == old(out)@ + seq![START_DICTIONARY] + encode_entries(
                        target.subrange(0, k as int),
                    ),
                decreases order@.len() - k,
            {
                let i: usize = order[k];
                proof {
                    assert(indices(order@)[k as int] == i);
                    assert(entries@[i as int].1.numerals_canonical());
                    assert(encodable(view[i as int].1));
                    assert(target[k as int] == (view[i as int].0, ordered(view[i as int].1)));
                    lemma_encode_entries_push(
                        target.subrange(0, k as int),
                        target[k as int].0,
                        target[k as int].1,
                    );
                    assert(target.subrange(0, k as int).push(target[k as int])
                        =~= target.subrange(0, k + 1));
                }
                encode_string_into(entries[i].0.as_slice(), out);
                encode_into(&entries[i].1, out);
                assert(out@ =~= old(out)@ + seq![START_DICTIONARY] + encode_entries(
                    target.subrange(0, k + 1),
                ));
                k = k + 1;
            }
            out.push(END_INTEGER_LIST_DICTIONARY);
            proof {
                assert(target.subrange(0, entries@.len() as int) =~= target);
                assert(final(out)@ =~= old(out)@ + encode(ordered(value@)));
            }
        },
        BencodeValue::Error(_) => {},
    }
}

/// The canonical encoding of `value`: integers in their shortest form, and
/// the entries of every dictionary in ascending key order, in whatever order
/// the value holds them. For a value that holds them in that order already,
/// as every decoded value does, this is the encoding of the value as it is.
pub fn encode_bencode(value: &BencodeValue) -> (out: Vec<u8>)
    requires
        value.encodable(),
    ensures
        out@ == encode(ordered(value@)),
        value.wf() ==> out@ == encode(value@),
{
    let mut out: Vec<u8> = Vec::new();
    encode_into(value, &mut out);
    proof {
        assert(Seq::<u8>::empty() + encode(ordered(value@)) =~= encode(ordered(value@)));
        if value.wf() {
            lemma_ordered_of_valid(value@);
        }
    }
    out
}

/// The value stored under `key` in `entries`, if there is one.
pub open spec fn lookup(entries: Seq<(Seq<u8>, Bencode)>, key: Seq<u8>) -> Option<Bencode>
    decreases entries.len(),
{
    if entries.len() == 0 {
        None
    } else if entries[0].0 == key {
        Some(entries[0].1)
    } else {
        lookup(entries.skip(1), key)
    }
}

/// The value stored under `key` if `v` is a dictionary that has the key.
pub open spec fn field(v: Bencode, key: Seq<u8>) -> Option<Bencode> {
    match v {
        Bencode::Dictionary(entries) => lookup(entries, key),
        _ => None,
    }
}

impl BencodeValue {
    /// The text of a byte string. The value must be a byte string that holds
    /// valid UTF-8.
    pub fn as_string_or_panic(&self) -> (r: String)
        requires
            self matches BencodeValue::String(bytes) && valid_utf8(bytes@),
        ensures
            self matches BencodeValue::String(bytes) && r@ == decode_utf8(bytes@),
    {
        match self.as_string() {
            Some(text) => text,
            None => String::new(),
        }
    }

    /// The text of a byte string, or `None` when the value is no byte string
    /// or its bytes are not valid UTF-8.
    pub fn as_string(&self) -> (r: Option<String>)
        ensures
            match self {
                BencodeValue::String(bytes) => {
                    &&& r is Some <==> valid_utf8(bytes@)
                    &&& r matches Some(text) ==> text@ == decode_utf8(bytes@)
                },
                _ => r is None,
            },
    {
        match self {
            BencodeValue::String(bytes) => {
                let copy: Vec<u8> = slice_to_vec(bytes.as_slice());
                string_from_utf8(copy)
            },
            _ => None,
        }
    }

    /// The number of an integer. The value must be an integer with a
    /// canonical numeral that fits in 64 bits.
    pub fn as_int_or_panic(&self) -> (r: i64)
        requires
            self matches BencodeValue::Integer(text) && canonical_int(text@) && i64::MIN
                <= int_value(text@) <= i64::MAX,
        ensures
            self@ == Bencode::Integer(r as int),
    {
        match self.as_int() {
            Some(n) => n,
            None => 0,
        }
    }

    /// The number of an integer, or `None` when the value is no integer, its
    /// numeral is not canonical, or the number does not fit in 64 bits.
    pub fn as_int(&self) -> (r: Option<i64>)
        ensures
            match self {
                BencodeValue::Integer(text) => {
                    &&& r is Some <==> canonical_int(text@) && i64::MIN <= int_value(text@)
                        <= i64::MAX
                    &&& r matches Some(n) ==> self@ == Bencode::Integer(n as int)
                },
                _ => r is None,
            },
    {
        match self {
            BencodeValue::Integer(text) => {
                assert(text@.subrange(0, text@.len() as int) =~= text@);
                if is_canonical_int_range(text.as_slice(), 0, text.len()) {
                    decimal_to_i64(text.as_slice())
                } else {
                    None
                }
            },
            _ => None,
        }
    }

    /// The bytes of a byte string, or `None` when the value is none.
    pub fn as_bytes(&self) -> (r: Option<&Vec<u8>>)
        ensures
            match self {
                BencodeValue::String(bytes) => r == Some(bytes),
                _ => r is None,
            },
    {
        match self {
            BencodeValue::String(bytes) => Some(bytes),
            _ => None,
        }
    }

    /// The items of a list, or `None` when the value is none.
    pub fn as_list(&self) -> (r: Option<&Vec<BencodeValue>>)
        ensures
            match self {
                BencodeValue::List(items) => r == Some(items),
                _ => r is None,
            },
    {
        match self {
            BencodeValue::List(items) => Some(items),
            _ => None,
        }
    }

    /// The value that a dictionary holds under `key`, or `None` when `self`
    /// is no dictionary or lacks the key.
    pub fn get(&self, key: &[u8]) -> (r: Option<&BencodeValue>)
        ensures
            match r {
                Some(found) => {
                    &&& field(self@, key@) == Some(found@)
                    &&& self.wf() ==> found.wf()
                    &&& self.encodable() ==> found.encodable()
                },
                None => field(self@, key@) is None,
            },
    {
        match self {
            BencodeValue::Dictionary(entries) => {
                let ghost view = entries_view(entries@);
                proof {
                    lemma_dictionary_view(*entries);
                    assert(view.skip(0) =~= view);
                }
                let mut i: usize = 0;
                while i < entries.len()
                    invariant
                        i <= entries.len(),
                        view == entries_view(entries@),
                        *self == BencodeValue::Dictionary(*entries),
                        self@ == Bencode::Dictionary(view),
                        lookup(view, key@) == lookup(view.skip(i as int), key@),
                    decreases entries.len() - i,
                {
                    proof {
                        assert(view.skip(i as int)[0] == view[i as int]);
                        assert(view.skip(i as int).skip(1) =~= view.skip(i + 1));
                    }
                    if bytes_equal(entries[i].0.as_slice(), key) {
                        proof {
                            if self.wf() {
                                assert(entries@[i as int].1.numerals_canonical());
                                assert(valid(view[i as int].1));
                            }
                            if self.encodable() {
                                assert(entries@[i as int].1.numerals_canonical());
                                assert(encodable(view[i as int].1));
                            }
                        }
                        return Some(&entries[i].1);
                    }
                    i = i + 1;
                }
                None
            },
            _ => None,
        }
    }
}

/// Decides whether `value` is well-formed: whether the encoder accepts it.
pub fn is_well_formed(value: &BencodeValue) -> (r: bool)
    ensures
        r == value.wf(),
    decreases value,
{
    match value {
        BencodeValue::Integer(text) => {
            assert(text@.subrange(0, text@.len() as int) =~= text@);
            is_canonical_int_range(text.as_slice(), 0, text.len())
        },
        BencodeValue::String(_) => true,
        BencodeValue::List(items) => {
            let ghost view = items_view(items@);
            proof {
                lemma_list_view(*items);
            }
            let mut i: usize = 0;
            while i < items.len()
                invariant
                    i <= items.len(),
                    *value == BencodeValue::List(*items),
                    view == items_view(items@),
                    value@ == Bencode::List(view),
                    forall|k: int| 0 <= k < i ==> (#[trigger] items@[k]).wf(),
                decreases items.len() - i,
            {
                assert(value->List_0 == *items);
                if !is_well_formed(&items[i]) {
                    proof {
                        if value.wf() {
                            assert(items@[i as int].numerals_canonical());
                            assert(valid(item_at(view, i as int)));
                        }
                    }
                    return false;
                }
                i = i + 1;
            }
            proof {
                assert forall|k: int| 0 <= k < view.len() implies valid(
                    #[trigger] item_at(view, k),
                ) by {
                    assert(items@[k].wf());
                }
                assert forall|k: int|
                    0 <= k < items@.len() implies (#[trigger] items@[k]).numerals_canonical() by {
                    assert(items@[k].wf());
                }
            }
            true
        },
        BencodeValue::Dictionary(entries) => {
            let ghost view = entries_view(entries@);
            proof {
                lemma_dictionary_view(*entries);
            }
            let mut i: usize = 0;
            while i < entries.len()
                invariant
                    i <= entries.len(),
                    *value == BencodeValue::Dictionary(*entries),
                    view == entries_view(entries@),
                    value@ == Bencode::Dictionary(view),
                    forall|k: int| 0 <= k < i ==> (#[trigger] entries@[k]).1.wf(),
                    forall|k: int| 0 <= k < i - 1 ==> lex_less(#[trigger] view[k].0, view[k + 1].0),
                decreases entries.len() - i,
            {
                assert(value->Dictionary_0 == *entries);
                if !is_well_formed(&entries[i].1) {
                    proof {
                        if value.wf() {
                            assert(entries@[i as int].1.numerals_canonical());
                            assert(valid(view[i as int].1));
                        }
                    }
                    return false;
                }
                if i > 0 {
                    assert(view[i - 1].0 == entries@[i - 1].0@);
                    assert(view[i as int].0 == entries@[i as int].0@);
                    if !bytes_less(entries[i - 1].0.as_slice(), entries[i].0.as_slice()) {
                        proof {
                            if value.wf() {
                                assert(lex_less(view[i - 1].0, view[i - 1 + 1].0));
                            }
                        }
                        return false;
                    }
                }
                i = i + 1;
            }
            proof {
                assert forall|k: int| 0 <= k < view.len() implies valid((#[trigger] view[k]).1) by {
                    assert(entries@[k].1.wf());
                }
                assert forall|k: int|
                    0 <= k < entries@.len() implies (#[trigger] entries@[k]).1.numerals_canonical() by {
                    assert(entries@[k].1.wf());
                }
                assert(keys_ascending(view));
            }
            true
        },
        BencodeValue::Error(_) => false,
    }
}

/// Decides whether the encoder accepts `value`: no `Error` inside, canonical
/// numerals, and no key twice in one dictionary.
pub fn is_encodable(value: &BencodeValue) -> (r: bool)
    ensures
        r == value.encodable(),
    decreases value,
{
    match value {
        BencodeValue::Integer(text) => {
            assert(text@.subrange(0, text@.len() as int) =~= text@);
            is_canonical_int_range(text.as_slice(), 0, text.len())
        },
        BencodeValue::String(_) => true,
        BencodeValue::List(items) => {
            let ghost view = items_view(items@);
            proof {
                lemma_list_view(*items);
            }
            let mut i: usize = 0;
            while i < items.len()
                invariant
                    i <= items.len(),
                    *value == BencodeValue::List(*items),
                    view == items_view(items@),
                    value@ == Bencode::List(view),
                    forall|k: int| 0 <= k < i ==> (#[trigger] items@[k]).encodable(),
                decreases items.len() - i,
            {
                assert(value->List_0 == *items);
                if !is_encodable(&items[i]) {
                    proof {
                        if value.encodable() {
                            assert(items@[i as int].numerals_canonical());
                            assert(encodable(item_at(view, i as int)));
                        }
                    }
                    return false;
                }
                i = i + 1;
            }
            proof {
                assert forall|k: int| 0 <= k < view.len() implies encodable(
                    #[trigger] item_at(view, k),
                ) by {
                    assert(items@[k].encodable());
                }
                assert forall|k: int|
                    0 <= k < items@.len() implies (#[trigger] items@[k]).numerals_canonical() by {
                    assert(items@[k].encodable());
                }
            }
            true
        },
        BencodeValue::Dictionary(entries) => {
            let ghost view = entries_view(entries@);
            let ghost keys = keys_of(view);
            proof {
                lemma_dictionary_view(*entries);
            }
            let mut i: usize = 0;
            while i < entries.len()
                invariant
                    i <= entries.len(),
                    *value == BencodeValue::Dictionary(*entries),
                    view == entries_view(entries@),
                    keys == keys_of(view),
                    value@ == Bencode::Dictionary(view),
                    forall|k: int| 0 <= k < i ==> (#[trigger] entries@[k]).1.encodable(),
                    forall|a: int, b: int| 0 <= a < b < i ==> keys[a] != keys[b],
                decreases entries.len() - i,
            {
                assert(value->Dictionary_0 == *entries);
                if !is_encodable(&entries[i].1) {
                    proof {
                        if value.encodable() {
                            assert(entries@[i as int].1.numerals_canonical());
                            assert(encodable(view[i as int].1));
                        }
                    }
                    return false;
                }
                let mut j: usize = 0;
                while j < i
                    invariant
                        j <= i,
                        i < entries.len(),
                        view == entries_view(entries@),
                        keys == keys_of(view),
                        value@ == Bencode::Dictionary(view),
                        forall|a: int| 0 <= a < j ==> keys[a] != keys[i as int],
                    decreases i - j,
                {
                    assert(keys[j as int] == entries@[j as int].0@);
                    assert(keys[i as int] == entries@[i as int].0@);
                    if bytes_equal(entries[j].0.as_slice(), entries[i].0.as_slice()) {
                        return false;
                    }
                    j = j + 1;
                }
                i = i + 1;
            }
            proof {
                assert forall|k: int| 0 <= k < view.len() implies encodable(
                    (#[trigger] view[k]).1,
                ) by {
                    assert(entries@[k].1.encodable());
                }
                assert forall|k: int|
                    0 <= k < entries@.len() implies (#[trigger] entries@[k]).1.numerals_canonical() by {
                    assert(entries@[k].1.encodable());
                }
                assert(keys_distinct(keys));
            }
            true
        },
        BencodeValue::Error(_) => false,
    }
}

} // verus!
