//! The error a request handler answers with, and its JSON body.
use vstd::prelude::*;

use crate::decimal::{decimal, push_decimal};

verus! {

/// HTTP status code of an internal server error.
pub const INTERNAL_SERVER_ERROR: u16 = 500;

/// An error answered to an HTTP client: a status code and a message.
pub struct ApiError {
    pub status: u16,
    pub message: String,
}

/// The JSON string literal that serde_json writes for `s`: quoted, with the
/// characters that JSON requires escaped.
pub uninterp spec fn json_string_of(s: Seq<char>) -> Seq<char>;

/// Relies on serde_json's `Display` for `Value::String`, which writes the
/// string as a JSON string literal and depends on the string alone.
#[verifier::external_body]
fn json_string(s: &str) -> (r: String)
    ensures
        r@ == json_string_of(s@),
{
    serde_json::Value::String(s.to_string()).to_string()
}

/// The response body for `status` and an already quoted message: a JSON
/// object with the keys in serde_json's default (sorted) order.
pub open spec fn body_text(quoted_message: Seq<char>, status: u16) -> Seq<char> {
    "{\"message\":"@ + quoted_message + ",\"status\":"@ + decimal(status as nat) + "}"@
}

/// Writes the response body from a message already written as a JSON string
/// literal.
pub fn error_body(quoted_message: &str, status: u16) -> (r: String)
    ensures
        r@ == body_text(quoted_message@, status),
{
    let mut out = String::new();
    out.append("{\"message\":");
    out.append(quoted_message);
    out.append(",\"status\":");
    push_decimal(&mut out, status as u32);
    out.append("}");
    assert(out@ =~= body_text(quoted_message@, status));
    out
}

impl ApiError {
    pub fn new(status: u16, message: String) -> (r: ApiError)
        ensures
            r.status == status,
            r.message@ == message@,
    {
        ApiError { status, message }
    }

    /// An internal server error that carries the message of the error that
    /// caused it.
    pub fn internal(message: String) -> (r: ApiError)
        ensures
            r.status == INTERNAL_SERVER_ERROR,
            r.message@ == message@,
    {
        ApiError { status: INTERNAL_SERVER_ERROR, message }
    }

    /// The JSON body of the response: `{"message":<message>,"status":<code>}`.
    pub fn body(&self) -> (r: String)
        ensures
            r@ == body_text(json_string_of(self.message@), self.status),
    {
        let quoted = json_string(self.message.as_str());
        error_body(quoted.as_str(), self.status)
    }
}

} // verus!
