//! Reading a typed record out of a decoded bencode value.

use vstd::prelude::*;
use crate::parser::bencode::{Bencode, BencodeValue};

verus! {

/// A record that can be read out of a bencoded value.
pub trait CreateFromBencode: Sized + View {
    /// The record that `input` describes, if it describes one.
    spec fn described_by(input: Bencode) -> Option<Self::V>;

    /// Reads the record out of a value that holds no `Error`, no numeral
    /// that is not canonical and no key twice in one dictionary: the record
    /// that the value describes, or `None` where it describes none.
    fn parse(input_bencode: &BencodeValue) -> (r: Option<Self>)
        requires
            input_bencode.encodable(),
        ensures
            match Self::described_by(input_bencode@) {
                Some(view) => r matches Some(record) && record@ == view,
                None => r is None,
            },
    ;
}

} // verus!
