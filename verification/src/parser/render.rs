//! A bencoded value written out for a reader.

use vstd::prelude::*;
use vstd::slice::slice_to_vec;
use vstd::utf8::{decode_utf8, valid_utf8};
use crate::parser::bencode::BencodeValue;
use crate::parser::text::string_from_utf8;

verus! {

/// Bytes as text: the text that they encode, or a placeholder where they
/// are not valid UTF-8.
pub open spec fn shown(bytes: Seq<u8>) -> Seq<char> {
    if valid_utf8(bytes) {
        decode_utf8(bytes)
    } else {
        "<invalid utf8>"@
    }
}

/// The first `n` of `items` written out, with a comma and a space between
/// them.
pub open spec fn items_rendering(items: Seq<BencodeValue>, n: nat) -> Seq<char>
    decreases items, n,
{
    if n == 0 || n > items.len() {
        Seq::empty()
    } else if n == 1 {
        items[0].rendering()
    } else {
        items_rendering(items, (n - 1) as nat) + ", "@ + items[n - 1].rendering()
    }
}

/// The first `n` of `entries` written out, each as its key in quotes, a
/// colon and its value, with a comma and a space between them.
pub open spec fn entries_rendering(entries: Seq<(Vec<u8>, BencodeValue)>, n: nat) -> Seq<char>
    decreases entries, n,
{
    if n == 0 || n > entries.len() {
        Seq::empty()
    } else if n == 1 {
        "\""@ + shown(entries[0].0@) + "\": "@ + entries[0].1.rendering()
    } else {
        entries_rendering(entries, (n - 1) as nat) + ", "@ + "\""@ + shown(entries[n - 1].0@)
            + "\": "@ + entries[n - 1].1.rendering()
    }
}

fn show(bytes: &Vec<u8>) -> (r: String)
    ensures
        r@ == shown(bytes@),
{
    match string_from_utf8(slice_to_vec(bytes.as_slice())) {
        Some(text) => text,
        None => String::from_str("<invalid utf8>"),
    }
}

impl BencodeValue {
    /// The value written out for a reader: an integer as its numeral, a
    /// byte string in quotes, a list in square brackets, a dictionary in
    /// braces, an error as its message.
    pub open spec fn rendering(&self) -> Seq<char>
        decreases self,
    {
        match self {
            BencodeValue::Integer(text) => shown(text@),
            BencodeValue::String(bytes) => "\""@ + shown(bytes@) + "\""@,
            BencodeValue::List(items) => "["@ + items_rendering(items@, items@.len()) + "]"@,
            BencodeValue::Dictionary(entries) => "{"@ + entries_rendering(
                entries@,
                entries@.len(),
            ) + "}"@,
            BencodeValue::Error(message) => "Error: "@ + message@,
        }
    }

    /// Writes the value out for a reader.
    pub fn to_text(&self) -> (r: String)
        ensures
            r@ == self.rendering(),
    {
        render(self)
    }
}

fn render(value: &BencodeValue) -> (r: String)
    ensures
        r@ == value.rendering(),
    decreases value,
{
    match value {
        BencodeValue::Integer(text) => show(text),
        BencodeValue::String(bytes) => {
            let mut out: String = String::from_str("\"");
            out.append(show(bytes).as_str());
            out.append("\"");
            out
        },
        BencodeValue::List(items) => {
            let mut out: String = String::from_str("[");
            let mut i: usize = 0;
            assert(out@ =~= "["@ + items_rendering(items@, 0));
            while i < items.len()
                invariant
                    i <= items.len(),
                    *value == BencodeValue::List(*items),
                    out@ == "["@ + items_rendering(items@, i as nat),
                decreases items.len() - i,
            {
                if i > 0 {
                    out.append(", ");
                }
                assert(value->List_0 == *items);
                let item: String = render(&items[i]);
                out.append(item.as_str());
                assert(out@ =~= "["@ + items_rendering(items@, (i + 1) as nat));
                i = i + 1;
            }
            out.append("]");
            out
        },
        BencodeValue::Dictionary(entries) => {
            let mut out: String = String::from_str("{");
            let mut i: usize = 0;
            assert(out@ =~= "{"@ + entries_rendering(entries@, 0));
            while i < entries.len()
                invariant
                    i <= entries.len(),
                    *value == BencodeValue::Dictionary(*entries),
                    out@ == "{"@ + entries_rendering(entries@, i as nat),
                decreases entries.len() - i,
            {
                if i > 0 {
                    out.append(", ");
                }
                out.append("\"");
                out.append(show(&entries[i].0).as_str());
                out.append("\": ");
                assert(value->Dictionary_0 == *entries);
                let inner: String = render(&entries[i].1);
                out.append(inner.as_str());
                assert(out@ =~= "{"@ + entries_rendering(entries@, (i + 1) as nat));
                i = i + 1;
            }
            out.append("}");
            out
        },
        BencodeValue::Error(message) => {
            let mut out: String = String::from_str("Error: ");
            out.append(message.as_str());
            out
        },
    }
}

} // verus!
