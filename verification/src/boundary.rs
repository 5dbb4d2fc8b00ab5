//! What surrounds a parse where statements arrive from foreign code and the
//! answer leaves as one text: the statement is read out of bytes that may be
//! missing or may not be text, and an answer that could not be rendered is
//! replaced by a fixed payload.

use vstd::prelude::*;
use vstd::utf8::*;

verus! {

/// The statement that foreign bytes hold: their text where they are valid
/// UTF-8, and the empty statement where they are not or where there are
/// none.
pub open spec fn foreign_text(bytes: Option<Seq<u8>>) -> Seq<char> {
    match bytes {
        Some(b) => if valid_utf8(b) {
            decode_utf8(b)
        } else {
            Seq::empty()
        },
        None => Seq::empty(),
    }
}

/// The payload that is answered where an envelope could not be rendered.
pub const FALLBACK_PAYLOAD: &'static str = "{ \"error\": \"bad program design\"}";

/// Calls `std::str::from_utf8`. Believed of it, as its documentation says:
/// it returns the bytes as text exactly when they are valid UTF-8, and the
/// text is made of those very bytes.
#[verifier::external_body]
fn text_of<'a>(bytes: &'a [u8]) -> (text: Option<&'a str>)
    ensures
        text is Some <==> valid_utf8(bytes@),
        text matches Some(t) ==> encode_utf8(t@) == bytes@,
{
    std::str::from_utf8(bytes).ok()
}

/// Reads a statement out of foreign bytes. Missing bytes and bytes that are
/// not valid text give the empty statement.
pub fn foreign_statement<'a>(bytes: Option<&'a [u8]>) -> (stmt: &'a str)
    ensures
        stmt@ == foreign_text(
            match bytes {
                Some(b) => Some(b@),
                None => None,
            },
        ),
{
    proof {
        reveal_strlit("");
    }
    match bytes {
        Some(b) => match text_of(b) {
            Some(text) => {
                proof {
                    encode_utf8_decode_utf8(text@);
                }
                text
            },
            None => "",
        },
        None => "",
    }
}

/// Returns the rendered envelope, or the fallback payload where rendering
/// failed.
pub fn payload_or_fallback(rendered: Option<String>) -> (payload: String)
    ensures
        payload@ == match rendered {
            Some(text) => text@,
            None => FALLBACK_PAYLOAD@,
        },
{
    match rendered {
        Some(text) => text,
        None => FALLBACK_PAYLOAD.to_owned(),
    }
}

} // verus!
