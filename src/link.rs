//! Search links for a record: a configured base URL followed by the
//! percent-encoded query.
use crate::db::Book;
use vstd::prelude::*;
use vstd::string::*;
use vstd::utf8::encode_utf8;

verus! {

/// An upper-case hexadecimal digit.
pub open spec fn hex_digit(n: nat) -> char {
    if n < 10 {
        ((n + '0' as u32) as u32) as char
    } else {
        ((n - 10 + 'A' as u32) as u32) as char
    }
}

pub open spec fn is_ascii_alnum(b: u8) -> bool {
    (48 <= b <= 57) || (65 <= b <= 90) || (97 <= b <= 122)
}

/// One byte as it stands in a query: ASCII letters and digits as they are,
/// any other byte as `%` and two upper-case hexadecimal digits.
pub open spec fn encode_byte(b: u8) -> Seq<char> {
    if is_ascii_alnum(b) {
        seq![b as char]
    } else {
        seq!['%', hex_digit((b / 16) as nat), hex_digit((b % 16) as nat)]
    }
}

/// The bytes of a query, each encoded.
pub open spec fn percent_encoded(bytes: Seq<u8>) -> Seq<char>
    decreases bytes.len(),
{
    if bytes.len() == 0 {
        Seq::empty()
    } else {
        percent_encoded(bytes.drop_last()) + encode_byte(bytes.last())
    }
}

/// Relies on `percent_encoding::utf8_percent_encode` with `NON_ALPHANUMERIC`:
/// it encodes every byte of the UTF-8 form of `s` but the ASCII letters and
/// digits as `%XX`, with upper-case hexadecimal digits.
#[verifier::external_body]
fn encode_query(s: &str) -> (r: String)
    ensures
        r@ == percent_encoded(encode_utf8(s@)),
{
    percent_encoding::utf8_percent_encode(s, percent_encoding::NON_ALPHANUMERIC).to_string()
}

/// The query that searches for a record by title: `"<title> by <authors>"`.
pub fn title_query(book: &Book) -> (r: String)
    ensures
        r@ == book.title@ + " by "@ + book.authors@,
{
    let mut q = book.title.clone();
    q.append(" by ");
    q.append(book.authors.as_str());
    q
}

/// The search link for `query` under `link_base`, or none where no base is
/// configured (the text then stands without a link).
pub fn search_link(link_base: &str, query: &str) -> (r: Option<String>)
    ensures
        link_base@.len() == 0 ==> r is None,
        link_base@.len() > 0 ==> r is Some && r->0@ == link_base@ + percent_encoded(
            encode_utf8(query@),
        ),
{
    if link_base.unicode_len() == 0 {
        return None;
    }
    let encoded = encode_query(query);
    Some(String::from_str(link_base).concat(encoded.as_str()))
}

} // verus!
