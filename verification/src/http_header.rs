use vstd::prelude::*;
use vstd::utf8::encode_utf8;

use crate::text::digit_char;

verus! {

/// A byte that an HTTP header value may hold: visible ASCII, any byte above
/// it, or a tab.
pub open spec fn header_value_byte_ok(b: u8) -> bool {
    (b >= 32 && b != 127) || b == 9
}

/// Whether every UTF-8 byte of `s` may stand in an HTTP header value.
pub open spec fn header_value_ok(s: Seq<char>) -> bool {
    forall|i: int| 0 <= i < encode_utf8(s).len() ==> header_value_byte_ok(#[trigger] encode_utf8(s)[i])
}

/// Calls `reqwest::header::HeaderValue::from_str` (that is, `http`'s), which
/// refuses a string holding a byte outside `header_value_byte_ok`, and gives
/// the refusal's message, whose `Display` is a fixed text.
#[verifier::external_body]
pub(crate) fn header_value_error(s: &str) -> (r: Option<String>)
    ensures
        r is None <==> header_value_ok(s@),
        r matches Some(m) ==> m@ == "failed to parse header value"@,
{
    reqwest::header::HeaderValue::from_str(s).err().map(|e| e.to_string())
}

/// The three decimal digits of a status code from 100 to 999.
pub open spec fn status_digits(code: u16) -> Seq<char> {
    seq![digit_char((code / 100) as int), digit_char(((code / 10) % 10) as int), digit_char((code % 10) as int)]
}

/// The text `reqwest::StatusCode`'s `Display` gives for a status code.
pub uninterp spec fn status_code_text(code: u16) -> Seq<char>;

/// Calls `reqwest::StatusCode::from_u16`, which accepts 100 to 999, and formats
/// the status with its `Display`, which writes the code's three digits, a space
/// and the canonical reason phrase (or a fixed placeholder for an unknown
/// code). The whole text is named `status_code_text`; of the reason phrase
/// nothing more is stated.
#[verifier::external_body]
pub(crate) fn status_text(code: u16) -> (s: String)
    requires
        100 <= code <= 999,
    ensures
        s@ == status_code_text(code),
        s@.len() >= 4,
        s@.subrange(0, 4) == status_digits(code).push(' '),
{
    match reqwest::StatusCode::from_u16(code) {
        Ok(status) => status.to_string(),
        Err(_) => code.to_string(),
    }
}

/// The views of a list of header name/value pairs.
pub open spec fn header_views(h: Seq<(String, String)>) -> Seq<(Seq<char>, Seq<char>)> {
    h.map_values(|p: (String, String)| (p.0@, p.1@))
}

/// A header name/value pair from two literals.
pub fn header(name: &str, value: &str) -> (h: (String, String))
    ensures
        h.0@ == name@,
        h.1@ == value@,
{
    (String::from_str(name), String::from_str(value))
}

} // verus!
