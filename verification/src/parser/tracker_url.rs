//! The two steps of building an announce URL that are left to the
//! percent-encoding and url crates.

use vstd::prelude::*;
use vstd::string::StringSliceAdditionalSpecFns;

verus! {

/// The longest announce URL and query, in bytes together, that are handed to
/// the URL parser.
pub const MAX_URL_BYTES: usize = 0x1000_0000;

/// `b` is an ASCII letter or digit.
pub open spec fn is_alphanumeric(b: u8) -> bool {
    (0x30 <= b <= 0x39) || (0x41 <= b <= 0x5a) || (0x61 <= b <= 0x7a)
}

/// The sixteen hexadecimal digits, letters in upper case.
pub open spec fn hex_digits() -> Seq<char> {
    seq!['0', '1', '2', '3', '4', '5', '6', '7', '8', '9', 'A', 'B', 'C', 'D', 'E', 'F']
}

/// A letter or digit stands for itself; any other byte is written as a
/// percent sign and its two hexadecimal digits.
pub open spec fn percent_encoded_byte(b: u8) -> Seq<char> {
    if is_alphanumeric(b) {
        seq![b as char]
    } else {
        seq!['%', hex_digits()[b as int / 16], hex_digits()[b as int % 16]]
    }
}

/// The percent-encoding of `bytes` in which everything but ASCII letters and
/// digits is escaped.
pub open spec fn percent_encoded(bytes: Seq<u8>) -> Seq<char>
    decreases bytes.len(),
{
    if bytes.len() == 0 {
        Seq::empty()
    } else {
        percent_encoded_byte(bytes[0]) + percent_encoded(bytes.skip(1))
    }
}

/// `percent_encode` of the percent-encoding crate with its set
/// `NON_ALPHANUMERIC`, collected into a string. It is taken on trust that
/// ASCII letters and digits are copied and every other byte is written as
/// `%` and two upper-case hexadecimal digits, as that crate documents.
#[verifier::external_body]
pub(crate) fn percent_encode_bytes(bytes: &[u8]) -> (r: String)
    ensures
        r@ == percent_encoded(bytes@),
{
    percent_encoding::percent_encode(bytes, percent_encoding::NON_ALPHANUMERIC).to_string()
}

/// The text of the URL `base` after its query has been replaced by `query`,
/// as the url crate parses and writes URLs; `None` where it does not accept
/// `base` as an absolute URL.
pub uninterp spec fn url_with_query(base: Seq<char>, query: Seq<char>) -> Option<Seq<char>>;

/// `Url::parse`, `Url::set_query` and the URL's text, of the url crate. It
/// is taken on trust that the outcome depends on the two texts alone:
/// nothing where the crate rejects `base`, otherwise the text of the parsed
/// URL with `query` as its query. The bound keeps the URL within the 4 GiB
/// that the crate can hold.
#[verifier::external_body]
pub(crate) fn set_url_query(base: &str, query: &str) -> (r: Option<String>)
    requires
        base.spec_bytes().len() + query.spec_bytes().len() <= MAX_URL_BYTES,
    ensures
        url_with_query(base@, query@) == match r {
            Some(text) => Some(text@),
            None => None,
        },
{
    let mut url = url::Url::parse(base).ok()?;
    url.set_query(Some(query));
    Some(url.to_string())
}

} // verus!
