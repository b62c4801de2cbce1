//! What holds between the bencode encoder and decoder.

use vstd::prelude::*;
use crate::parser::bencode::{
    decode, decode_entries, decode_integer, decode_items, decode_string, encodable, encode,
    encode_entries, encode_items, encode_string, find_byte, item_at, keys_ascending, keys_of,
    lemma_find_byte_first, ordered, valid, Bencode, END_INTEGER_LIST_DICTIONARY,
    END_SIZE_OF_STRING, START_DICTIONARY, START_INTEGER, START_LIST,
};
use crate::parser::key_order::{
    keys_rising, lemma_order_of, lemma_order_of_rising, lemma_order_rises, lemma_rising_pairwise,
    order_of,
};
use crate::parser::decimal::{
    digits_value, int_text, is_digit, lemma_canonical_int_text, lemma_canonical_nat_text,
    lemma_int_text_value, lemma_nat_text_value, nat_text, INTEGER_MINUS_SIGN,
};
use crate::parser::lexical::{lemma_lex_less_irreflexive, lemma_lex_less_transitive, lex_less};

verus! {

/// A canonical natural numeral holds no colon.
proof fn lemma_nat_text_no_colon(n: nat)
    ensures
        forall|j: int| 0 <= j < nat_text(n).len() ==> nat_text(n)[j] != END_SIZE_OF_STRING,
{
    lemma_nat_text_value(n);
    let t = nat_text(n);
    assert forall|j: int| 0 <= j < t.len() implies t[j] != END_SIZE_OF_STRING by {
        assert(is_digit(t[j]));
    }
}

/// A canonical signed numeral holds no `e`.
proof fn lemma_int_text_no_end(n: int)
    ensures
        forall|j: int| 0 <= j < int_text(n).len() ==> int_text(n)[j] != END_INTEGER_LIST_DICTIONARY,
{
    lemma_int_text_value(n);
    let t = int_text(n);
    assert forall|j: int| 0 <= j < t.len() implies t[j] != END_INTEGER_LIST_DICTIONARY by {
        if t[0] == INTEGER_MINUS_SIGN {
            if j > 0 {
                assert(t.skip(1)[j - 1] == t[j]);
                assert(is_digit(t.skip(1)[j - 1]));
            }
        } else {
            assert(is_digit(t[j]));
        }
    }
}

/// Decoding the encoding of a byte string, whatever follows it, gives the
/// byte string back and takes exactly the encoding.
pub proof fn lemma_decode_string_of_encoding(bytes: Seq<u8>, tail: Seq<u8>)
    ensures
        decode_string(encode_string(bytes) + tail) == Some((bytes, encode_string(bytes).len())),
        encode_string(bytes).len() > 0,
        is_digit(encode_string(bytes)[0]),
{
    let size = nat_text(bytes.len());
    let s = encode_string(bytes) + tail;
    lemma_nat_text_value(bytes.len());
    lemma_nat_text_no_colon(bytes.len());
    assert forall|j: int| 0 <= j < size.len() implies s[j] != END_SIZE_OF_STRING by {
        assert(s[j] == size[j]);
    }
    assert(s[size.len() as int] == END_SIZE_OF_STRING);
    lemma_find_byte_first(s, END_SIZE_OF_STRING, size.len() as int);
    assert(s.subrange(0, size.len() as int) =~= size);
    assert(s.subrange(size.len() as int + 1, size.len() as int + 1 + bytes.len() as int) =~= bytes);
    assert(encode_string(bytes)[0] == size[0]);
}

/// The encoding of a valid value is not empty, and its first byte tells its
/// kind: `i`, `l`, `d` or a digit, never `e`.
pub proof fn lemma_encoding_first_byte(v: Bencode)
    requires
        valid(v),
    ensures
        encode(v).len() > 0,
        encode(v)[0] != END_INTEGER_LIST_DICTIONARY,
        v is Integer ==> encode(v)[0] == START_INTEGER,
        v is List ==> encode(v)[0] == START_LIST,
        v is Dictionary ==> encode(v)[0] == START_DICTIONARY,
        v is String ==> is_digit(encode(v)[0]),
{
    match v {
        Bencode::String(bytes) => {
            lemma_decode_string_of_encoding(bytes, Seq::empty());
        },
        _ => {},
    }
}

/// Round trip: decoding the encoding of a valid value, whatever follows it,
/// gives the value back and takes exactly the encoding.
pub proof fn lemma_decode_of_encoding(v: Bencode, tail: Seq<u8>)
    requires
        valid(v),
    ensures
        decode(encode(v) + tail) == Some((v, encode(v).len())),
    decreases v, 0int,
{
    let s = encode(v) + tail;
    lemma_encoding_first_byte(v);
    assert(s[0] == encode(v)[0]);
    match v {
        Bencode::Integer(n) => {
            let text = int_text(n);
            lemma_int_text_value(n);
            lemma_int_text_no_end(n);
            assert forall|j: int| 0 <= j < text.len() + 1 implies s[j]
                != END_INTEGER_LIST_DICTIONARY by {
                if j > 0 {
                    assert(s[j] == text[j - 1]);
                }
            }
            let end: int = text.len() as int + 1;
            assert(s[end] == END_INTEGER_LIST_DICTIONARY);
            lemma_find_byte_first(s, END_INTEGER_LIST_DICTIONARY, end);
            assert(s.subrange(1, end) =~= text);
        },
        Bencode::String(bytes) => {
            lemma_decode_string_of_encoding(bytes, tail);
        },
        Bencode::List(items) => {
            let rest = seq![END_INTEGER_LIST_DICTIONARY] + tail;
            assert(s.skip(1) =~= encode_items(items) + rest);
            assert forall|i: int| 0 <= i < items.len() implies valid(#[trigger] items[i]) by {
                assert(valid(item_at(items, i)));
            }
            lemma_decode_items_of_encoding(items, tail);
        },
        Bencode::Dictionary(entries) => {
            let rest = seq![END_INTEGER_LIST_DICTIONARY] + tail;
            assert(s.skip(1) =~= encode_entries(entries) + rest);
            lemma_decode_entries_of_encoding(entries, None, tail);
        },
        Bencode::Error => {},
    }
}

/// Round trip for the items of a list up to its closing `e`.
pub proof fn lemma_decode_items_of_encoding(items: Seq<Bencode>, tail: Seq<u8>)
    requires
        forall|i: int| 0 <= i < items.len() ==> valid(#[trigger] items[i]),
    ensures
        decode_items(encode_items(items) + (seq![END_INTEGER_LIST_DICTIONARY] + tail)) == Some(
            (items, (encode_items(items).len() + 1) as nat),
        ),
    decreases items, 1int,
{
    let rest = seq![END_INTEGER_LIST_DICTIONARY] + tail;
    let s = encode_items(items) + rest;
    if items.len() == 0 {
        assert(s[0] == END_INTEGER_LIST_DICTIONARY);
        assert(encode_items(items).len() == 0);
    } else {
        let head = items[0];
        let others = items.skip(1);
        assert(valid(head));
        lemma_encoding_first_byte(head);
        let after = encode_items(others) + rest;
        assert(s =~= encode(head) + after);
        assert(s[0] == encode(head)[0]);
        lemma_decode_of_encoding(head, after);
        let n = encode(head).len();
        assert(s.skip(n as int) =~= after);
        assert forall|i: int| 0 <= i < others.len() implies valid(#[trigger] others[i]) by {
            assert(others[i] == items[i + 1]);
        }
        lemma_decode_items_of_encoding(others, tail);
        assert(seq![head] + others =~= items);
    }
}

/// Round trip for the entries of a dictionary up to its closing `e`, where
/// the first key comes after `previous`.
pub proof fn lemma_decode_entries_of_encoding(
    entries: Seq<(Seq<u8>, Bencode)>,
    previous: Option<Seq<u8>>,
    tail: Seq<u8>,
)
    requires
        keys_ascending(entries),
        forall|i: int| 0 <= i < entries.len() ==> valid((#[trigger] entries[i]).1),
        previous matches Some(p) ==> entries.len() > 0 ==> lex_less(p, entries[0].0),
    ensures
        decode_entries(
            encode_entries(entries) + (seq![END_INTEGER_LIST_DICTIONARY] + tail),
            previous,
        ) == Some((entries, (encode_entries(entries).len() + 1) as nat)),
    decreases entries, 1int,
{
    let rest = seq![END_INTEGER_LIST_DICTIONARY] + tail;
    let s = encode_entries(entries) + rest;
    if entries.len() == 0 {
        assert(s[0] == END_INTEGER_LIST_DICTIONARY);
        assert(encode_entries(entries).len() == 0);
    } else {
        let key = entries[0].0;
        let value = entries[0].1;
        let others = entries.skip(1);
        assert(valid(value));
        let after = encode_entries(others) + rest;
        let after_key = encode(value) + after;
        assert(s =~= encode_string(key) + after_key);
        lemma_decode_string_of_encoding(key, after_key);
        assert(s[0] == encode_string(key)[0]);
        let k = encode_string(key).len();
        assert(s.skip(k as int) =~= after_key);
        lemma_encoding_first_byte(value);
        lemma_decode_of_encoding(value, after);
        let n = encode(value).len();
        assert(s.skip((k + n) as int) =~= after);
        assert forall|i: int| 0 <= i < others.len() implies valid((#[trigger] others[i]).1) by {
            assert(others[i] == entries[i + 1]);
        }
        assert(keys_ascending(others)) by {
            assert forall|i: int| 0 <= i < others.len() - 1 implies lex_less(
                #[trigger] others[i].0,
                others[i + 1].0,
            ) by {
                assert(lex_less(entries[i + 1].0, entries[i + 2].0));
            }
        }
        if others.len() > 0 {
            assert(lex_less(entries[0].0, entries[1].0));
            assert(others[0] == entries[1]);
        }
        lemma_decode_entries_of_encoding(others, Some(key), tail);
        assert(seq![(key, value)] + others =~= entries);
    }
}

/// `find_byte` stays within the sequence, and where it stops short of the
/// end it has found the byte.
pub proof fn lemma_find_byte_bounds(s: Seq<u8>, b: u8)
    ensures
        0 <= find_byte(s, b) <= s.len(),
        find_byte(s, b) < s.len() ==> s[find_byte(s, b)] == b,
    decreases s.len(),
{
    if s.len() > 0 && s[0] != b {
        lemma_find_byte_bounds(s.skip(1), b);
        let k = find_byte(s.skip(1), b);
        if k < s.skip(1).len() {
            assert(s.skip(1)[k] == s[k + 1]);
        }
    }
}

/// What the decoder accepts as an integer is the canonical encoding of the
/// value it returns.
pub proof fn lemma_decode_integer_sound(s: Seq<u8>)
    requires
        decode_integer(s) is Some,
    ensures
        ({
            let (v, n) = decode_integer(s)->Some_0;
            &&& valid(v)
            &&& 0 < n <= s.len()
            &&& s.subrange(0, n as int) == encode(v)
        }),
{
    let end = find_byte(s, END_INTEGER_LIST_DICTIONARY);
    lemma_find_byte_bounds(s, END_INTEGER_LIST_DICTIONARY);
    let text = s.subrange(1, end);
    lemma_canonical_int_text(text);
    assert(s.subrange(0, end + 1) =~= seq![START_INTEGER] + text + seq![
        END_INTEGER_LIST_DICTIONARY,
    ]);
}

/// What the decoder accepts as a byte string is the canonical encoding of
/// the bytes it returns.
pub proof fn lemma_decode_string_sound(s: Seq<u8>)
    requires
        decode_string(s) is Some,
    ensures
        ({
            let (bytes, n) = decode_string(s)->Some_0;
            &&& 0 < n <= s.len()
            &&& s.subrange(0, n as int) == encode_string(bytes)
        }),
{
    let colon = find_byte(s, END_SIZE_OF_STRING);
    lemma_find_byte_bounds(s, END_SIZE_OF_STRING);
    let text = s.subrange(0, colon);
    lemma_canonical_nat_text(text);
    let size = digits_value(text) as int;
    let bytes = s.subrange(colon + 1, colon + 1 + size);
    assert(s.subrange(0, colon + 1 + size) =~= text + seq![END_SIZE_OF_STRING] + bytes);
}

/// Canonical decoding: what the decoder accepts is a valid value, and the
/// bytes it took are exactly the canonical encoding of that value.
pub proof fn lemma_decode_sound(s: Seq<u8>)
    requires
        decode(s) is Some,
    ensures
        ({
            let (v, n) = decode(s)->Some_0;
            &&& valid(v)
            &&& 0 < n <= s.len()
            &&& s.subrange(0, n as int) == encode(v)
        }),
    decreases s.len(), 0int,
{
    if s[0] == START_INTEGER {
        lemma_decode_integer_sound(s);
    } else if s[0] == START_LIST {
        let t = s.skip(1);
        lemma_decode_items_sound(t);
        let (items, m) = decode_items(t)->Some_0;
        assert(s.subrange(0, m as int + 1) =~= seq![START_LIST] + t.subrange(0, m as int));
        assert(seq![START_LIST] + (encode_items(items) + seq![END_INTEGER_LIST_DICTIONARY])
            =~= seq![START_LIST] + encode_items(items) + seq![END_INTEGER_LIST_DICTIONARY]);
        assert forall|i: int| 0 <= i < items.len() implies valid(#[trigger] item_at(items, i)) by {
            assert(valid(items[i]));
        }
    } else if s[0] == START_DICTIONARY {
        let t = s.skip(1);
        lemma_decode_entries_sound(t, None);
        let (entries, m) = decode_entries(t, None)->Some_0;
        assert(s.subrange(0, m as int + 1) =~= seq![START_DICTIONARY] + t.subrange(0, m as int));
        assert(seq![START_DICTIONARY] + (encode_entries(entries) + seq![
            END_INTEGER_LIST_DICTIONARY,
        ]) =~= seq![START_DICTIONARY] + encode_entries(entries) + seq![END_INTEGER_LIST_DICTIONARY]);
    } else {
        lemma_decode_string_sound(s);
    }
}

/// Canonical decoding of the items of a list up to its closing `e`.
pub proof fn lemma_decode_items_sound(s: Seq<u8>)
    requires
        decode_items(s) is Some,
    ensures
        ({
            let (items, m) = decode_items(s)->Some_0;
            &&& forall|i: int| 0 <= i < items.len() ==> valid(#[trigger] items[i])
            &&& 0 < m <= s.len()
            &&& s.subrange(0, m as int) == encode_items(items) + seq![END_INTEGER_LIST_DICTIONARY]
        }),
    decreases s.len(), 1int,
{
    if s[0] == END_INTEGER_LIST_DICTIONARY {
        assert(s.subrange(0, 1) =~= Seq::<u8>::empty() + seq![END_INTEGER_LIST_DICTIONARY]);
        assert(encode_items(Seq::<Bencode>::empty()) =~= Seq::<u8>::empty());
    } else {
        lemma_decode_sound(s);
        let (v, n) = decode(s)->Some_0;
        let t = s.skip(n as int);
        lemma_decode_items_sound(t);
        let (rest, m) = decode_items(t)->Some_0;
        let items = seq![v] + rest;
        assert(items.skip(1) =~= rest);
        assert(items[0] == v);
        assert(s.subrange(0, (n + m) as int) =~= s.subrange(0, n as int) + t.subrange(0, m as int));
        assert(encode(v) + (encode_items(rest) + seq![END_INTEGER_LIST_DICTIONARY]) =~= (encode(v)
            + encode_items(rest)) + seq![END_INTEGER_LIST_DICTIONARY]);
        assert forall|i: int| 0 <= i < items.len() implies valid(#[trigger] items[i]) by {
            if i > 0 {
                assert(items[i] == rest[i - 1]);
            }
        }
    }
}

/// Canonical decoding of the entries of a dictionary up to its closing `e`:
/// the keys ascend strictly, and the first comes after `previous`.
pub proof fn lemma_decode_entries_sound(s: Seq<u8>, previous: Option<Seq<u8>>)
    requires
        decode_entries(s, previous) is Some,
    ensures
        ({
            let (entries, m) = decode_entries(s, previous)->Some_0;
            &&& keys_ascending(entries)
            &&& forall|i: int| 0 <= i < entries.len() ==> valid((#[trigger] entries[i]).1)
            &&& (previous matches Some(p) ==> entries.len() > 0 ==> lex_less(p, entries[0].0))
            &&& 0 < m <= s.len()
            &&& s.subrange(0, m as int) == encode_entries(entries) + seq![
                END_INTEGER_LIST_DICTIONARY,
            ]
        }),
    decreases s.len(), 1int,
{
    if s[0] == END_INTEGER_LIST_DICTIONARY {
        assert(s.subrange(0, 1) =~= Seq::<u8>::empty() + seq![END_INTEGER_LIST_DICTIONARY]);
        assert(encode_entries(Seq::<(Seq<u8>, Bencode)>::empty()) =~= Seq::<u8>::empty());
    } else {
        lemma_decode_string_sound(s);
        let (key, k) = decode_string(s)->Some_0;
        let after_key = s.skip(k as int);
        lemma_decode_sound(after_key);
        let (v, n) = decode(after_key)->Some_0;
        let t = s.skip((k + n) as int);
        lemma_decode_entries_sound(t, Some(key));
        let (rest, m) = decode_entries(t, Some(key))->Some_0;
        let entries = seq![(key, v)] + rest;
        assert(entries.skip(1) =~= rest);
        assert(entries[0] == (key, v));
        assert(s.subrange(0, (k + n + m) as int) =~= s.subrange(0, k as int) + after_key.subrange(
            0,
            n as int,
        ) + t.subrange(0, m as int));
        assert(encode_string(key) + encode(v) + (encode_entries(rest) + seq![
            END_INTEGER_LIST_DICTIONARY,
        ]) =~= (encode_string(key) + encode(v) + encode_entries(rest)) + seq![
            END_INTEGER_LIST_DICTIONARY,
        ]);
        assert forall|i: int| 0 <= i < entries.len() implies valid((#[trigger] entries[i]).1) by {
            if i > 0 {
                assert(entries[i] == rest[i - 1]);
            }
        }
        assert(keys_ascending(entries)) by {
            assert forall|i: int| 0 <= i < entries.len() - 1 implies lex_less(
                #[trigger] entries[i].0,
                entries[i + 1].0,
            ) by {
                if i == 0 {
                    assert(entries[1] == rest[0]);
                } else {
                    assert(entries[i] == rest[i - 1]);
                    assert(entries[i + 1] == rest[i]);
                    assert(lex_less(rest[i - 1].0, rest[i].0));
                }
            }
        }
    }
}

/// Canonical round trip on bytes: whatever the decoder accepts, encoding the
/// result gives back the bytes it took, and decoding those again gives the
/// same value.
pub proof fn lemma_encode_of_decoding(s: Seq<u8>)
    requires
        decode(s) is Some,
    ensures
        ({
            let (v, n) = decode(s)->Some_0;
            &&& encode(v) == s.subrange(0, n as int)
            &&& decode(encode(v)) == Some((v, n))
        }),
{
    lemma_decode_sound(s);
    let (v, n) = decode(s)->Some_0;
    lemma_decode_of_encoding(v, Seq::empty());
    assert(encode(v) + Seq::<u8>::empty() =~= encode(v));
}

/// The decoder accepts exactly the inputs that start with the canonical
/// encoding of a valid value.
pub proof fn lemma_decode_accepts(s: Seq<u8>)
    ensures
        decode(s) is Some <==> exists|v: Bencode, tail: Seq<u8>|
            valid(v) && s == #[trigger] (encode(v) + tail),
{
    if decode(s) is Some {
        lemma_decode_sound(s);
        let (v, n) = decode(s)->Some_0;
        let tail = s.skip(n as int);
        assert(s =~= encode(v) + tail);
    }
    if exists|v: Bencode, tail: Seq<u8>| valid(v) && s == #[trigger] (encode(v) + tail) {
        let (v, tail) = choose|v: Bencode, tail: Seq<u8>|
            valid(v) && s == #[trigger] (encode(v) + tail);
        lemma_decode_of_encoding(v, tail);
    }
}

/// In a dictionary whose keys ascend, every key comes before every later
/// key: so no key occurs twice.
pub proof fn lemma_keys_distinct(entries: Seq<(Seq<u8>, Bencode)>, i: int, j: int)
    requires
        keys_ascending(entries),
        0 <= i < j < entries.len(),
    ensures
        lex_less(entries[i].0, entries[j].0),
        entries[i].0 != entries[j].0,
    decreases j - i,
{
    if j > i + 1 {
        lemma_keys_distinct(entries, i, j - 1);
        assert(lex_less(entries[j - 1].0, entries[j].0));
        lemma_lex_less_transitive(entries[i].0, entries[j - 1].0, entries[j].0);
    } else {
        assert(lex_less(entries[i].0, entries[i + 1].0));
    }
    lemma_lex_less_irreflexive(entries[i].0);
}

/// A valid value can be handed to the encoder: keys that ascend do not
/// repeat.
pub proof fn lemma_valid_encodable(v: Bencode)
    requires
        valid(v),
    ensures
        encodable(v),
    decreases v,
{
    match v {
        Bencode::List(items) => {
            assert forall|i: int| 0 <= i < items.len() implies encodable(
                #[trigger] item_at(items, i),
            ) by {
                assert(valid(item_at(items, i)));
                lemma_valid_encodable(items[i]);
            }
        },
        Bencode::Dictionary(entries) => {
            let keys = keys_of(entries);
            assert(keys_rising(keys)) by {
                assert forall|i: int| 0 <= i < keys.len() - 1 implies lex_less(
                    #[trigger] keys[i],
                    keys[i + 1],
                ) by {
                    assert(lex_less(entries[i].0, entries[i + 1].0));
                }
            }
            assert forall|i: int, j: int| 0 <= i < j < keys.len() implies keys[i] != keys[j] by {
                lemma_rising_pairwise(keys, i, j);
            }
            assert forall|i: int| 0 <= i < entries.len() implies encodable(
                (#[trigger] entries[i]).1,
            ) by {
                assert(valid(entries[i].1));
                lemma_valid_encodable(entries[i].1);
            }
        },
        _ => {},
    }
}

/// What the encoder writes is valid: arranging the entries of every
/// dictionary by key gives keys that ascend strictly, where no key occurs
/// twice.
pub proof fn lemma_ordered_valid(v: Bencode)
    requires
        encodable(v),
    ensures
        valid(ordered(v)),
    decreases v,
{
    match v {
        Bencode::List(items) => {
            let target = ordered(v)->List_0;
            assert forall|i: int| 0 <= i < target.len() implies valid(
                #[trigger] item_at(target, i),
            ) by {
                assert(encodable(item_at(items, i)));
                lemma_ordered_valid(items[i]);
            }
        },
        Bencode::Dictionary(entries) => {
            let keys = keys_of(entries);
            let order = order_of(keys, entries.len());
            let target = ordered(v)->Dictionary_0;
            lemma_order_of(keys, entries.len());
            lemma_order_rises(keys, entries.len());
            assert forall|k: int| 0 <= k < target.len() implies valid((#[trigger] target[k]).1) by {
                let i = order[k];
                assert(encodable(entries[i].1));
                lemma_ordered_valid(entries[i].1);
            }
            assert(keys_ascending(target)) by {
                assert forall|k: int| 0 <= k < target.len() - 1 implies lex_less(
                    #[trigger] target[k].0,
                    target[k + 1].0,
                ) by {
                    let next = k + 1;
                    assert(lex_less(keys[order[k]], keys[order[next]]));
                }
            }
        },
        _ => {},
    }
}

/// A valid value is written as it is: its dictionaries hold their entries
/// in key order already.
pub proof fn lemma_ordered_of_valid(v: Bencode)
    requires
        valid(v),
    ensures
        ordered(v) == v,
    decreases v,
{
    match v {
        Bencode::List(items) => {
            let target = ordered(v)->List_0;
            assert forall|i: int| 0 <= i < items.len() implies target[i] == items[i] by {
                assert(valid(item_at(items, i)));
                lemma_ordered_of_valid(items[i]);
            }
            assert(target =~= items);
        },
        Bencode::Dictionary(entries) => {
            let keys = keys_of(entries);
            let target = ordered(v)->Dictionary_0;
            assert(keys_rising(keys)) by {
                assert forall|i: int| 0 <= i < keys.len() - 1 implies lex_less(
                    #[trigger] keys[i],
                    keys[i + 1],
                ) by {
                    assert(lex_less(entries[i].0, entries[i + 1].0));
                }
            }
            lemma_order_of_rising(keys, entries.len());
            assert forall|k: int| 0 <= k < entries.len() implies target[k] == entries[k] by {
                assert(valid(entries[k].1));
                lemma_ordered_of_valid(entries[k].1);
            }
            assert(target =~= entries);
        },
        _ => {},
    }
}

/// Round trip of what the encoder writes: decoding the encoding of a value
/// gives the value with the entries of its dictionaries in key order.
pub proof fn lemma_decode_of_ordered_encoding(v: Bencode, tail: Seq<u8>)
    requires
        encodable(v),
    ensures
        decode(encode(ordered(v)) + tail) == Some((ordered(v), encode(ordered(v)).len())),
        ordered(ordered(v)) == ordered(v),
{
    lemma_ordered_valid(v);
    lemma_decode_of_encoding(ordered(v), tail);
    lemma_ordered_of_valid(ordered(v));
}

} // verus!
