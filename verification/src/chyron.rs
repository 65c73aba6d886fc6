//! Chyron messages arriving over MQTT: which published payloads carry text to decode.

use vstd::prelude::*;
use vstd::utf8::{decode_utf8, valid_utf8};
use crate::control::{str_equals, trim_chars, trim_str};

verus! {

/// Calls `std::str::from_utf8`: the bytes read as a string when they are valid UTF-8.
#[verifier::external_body]
fn str_from_utf8(b: &[u8]) -> (r: Option<&str>)
    ensures
        (r is Some) <==> valid_utf8(b@),
        r matches Some(s) ==> s@ == decode_utf8(b@),
{
    std::str::from_utf8(b).ok()
}

/// The text of a message published on `topic` for a client subscribed to `subscribed`:
/// the payload read as UTF-8 with surrounding white space removed. Messages on other
/// topics, payloads that are not UTF-8 and blank payloads give `None`.
pub fn chyron_text<'a>(topic: &str, subscribed: &str, payload: &'a [u8]) -> (r: Option<&'a str>)
    ensures
        (r is Some) <==> (topic@ == subscribed@ && valid_utf8(payload@) && trim_chars(
            decode_utf8(payload@),
        ).len() > 0),
        r matches Some(t) ==> t@ == trim_chars(decode_utf8(payload@)),
{
    if !str_equals(topic, subscribed) {
        return None;
    }
    match str_from_utf8(payload) {
        Some(s) => {
            let t = trim_str(s);
            if t.is_empty() {
                None
            } else {
                Some(t)
            }
        },
        None => None,
    }
}

} // verus!
