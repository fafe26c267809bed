use vstd::prelude::*;

verus! {

/// Whether serde_json accepts a text as JSON. Payloads are stored in their
/// encoded form and must decode again on read; this names the decode test.
pub uninterp spec fn json_wf(s: Seq<char>) -> bool;

/// Relies on serde_json::from_str::<Value>: whether a text parses as JSON
/// is a function of its characters alone.
#[verifier::external_body]
pub(crate) fn json_is_valid(s: &String) -> (r: bool)
    ensures
        r == json_wf(s@),
{
    serde_json::from_str::<serde_json::Value>(s).is_ok()
}

/// Relies on chrono's Utc::now and DateTime::timestamp: the current Unix
/// time in seconds. Nothing can be promised of a clock reading.
#[verifier::external_body]
pub(crate) fn now_timestamp() -> i64 {
    chrono::Utc::now().timestamp()
}

/// Relies on chrono's Utc::now and DateTime::to_rfc3339: an RFC 3339
/// rendering of the current time. Nothing can be promised of the instant,
/// but the rendering always writes out a full date and time, so it is
/// never empty.
#[verifier::external_body]
pub(crate) fn now_rfc3339() -> (r: String)
    ensures
        r@.len() > 0,
{
    chrono::Utc::now().to_rfc3339()
}

/// Relies on String's FromIterator over characters: collecting characters
/// in order builds the string with exactly those characters.
#[verifier::external_body]
pub(crate) fn chars_to_string(v: &Vec<char>) -> (r: String)
    ensures
        r@ == v@,
{
    v.iter().collect()
}

/// Relies on char::from_u32: every value below the surrogate range or
/// between 0xE000 and 0x10FFFF is a Unicode scalar value, and the char made
/// from it carries that code.
#[verifier::external_body]
pub(crate) fn char_from_u32(n: u32) -> (r: char)
    requires
        n < 0xD800 || (0xE000 <= n && n <= 0x10FFFF),
    ensures
        r as u32 == n,
{
    match char::from_u32(n) {
        Some(c) => c,
        None => ' ',
    }
}

} // verus!
