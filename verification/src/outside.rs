use vstd::prelude::*;

verus! {

/// Relies on chrono::Local::now and chrono::DateTime::to_rfc3339: the
/// current local time rendered as an RFC 3339 string. Nothing is promised
/// of the clock's reading.
#[verifier::external_body]
pub(crate) fn now_timestamp() -> String {
    chrono::Local::now().to_rfc3339()
}

/// Relies on String::from_iter (via Iterator::collect): the returned
/// string holds exactly the given characters, in order.
#[verifier::external_body]
pub(crate) fn string_from_chars(chars: &Vec<char>) -> (r: String)
    ensures
        r@ == chars@,
{
    chars.iter().collect()
}

} // verus!
