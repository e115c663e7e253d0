//! The answers that the server gives in place of a client.
use crate::text::decimal_text;
use vstd::prelude::*;

verus! {

/// An HTTP response without a body.
#[derive(Debug)]
pub struct Response {
    pub code: u16,
    pub reason_phrase: &'static str,
}

/// No client takes the request.
pub fn bad_gateway() -> (r: Response)
    ensures
        r.code == 502,
        r.reason_phrase@ == "Bad Gateway"@,
{
    Response { code: 502, reason_phrase: "Bad Gateway" }
}

/// The client did not take the request in time.
pub fn gateway_timeout() -> (r: Response)
    ensures
        r.code == 504,
        r.reason_phrase@ == "Gateway Timeout"@,
{
    Response { code: 504, reason_phrase: "Gateway Timeout" }
}

/// The text of a response.
pub open spec fn response_text(r: Response) -> Seq<char> {
    "HTTP/1.1 "@ + crate::text::decimal(r.code as nat) + " "@ + r.reason_phrase@
        + "\r\ncontent-length: 0\r\n\r\n"@
}

impl Response {
    /// The text to send.
    pub fn write(self) -> (r: String)
        ensures
            r@ == response_text(self),
            is_empty_response(r@, self.code as int, self.reason_phrase@),
    {
        proof {
            law_response_has_no_body(self);
        }
        let mut s = "HTTP/1.1 ".to_owned();
        s.append(decimal_text(self.code as u64).as_str());
        s.append(" ");
        s.append(self.reason_phrase);
        s.append("\r\ncontent-length: 0\r\n\r\n");
        s
    }
}

/// Whether `text` is a whole HTTP response without a body that says `code` and `phrase`.
pub open spec fn is_empty_response(text: Seq<char>, code: int, phrase: Seq<char>) -> bool {
    exists|digits: Seq<char>|
        {
            &&& text == #[trigger] ("HTTP/1.1 "@ + digits) + " "@ + phrase
                + "\r\ncontent-length: 0\r\n\r\n"@
            &&& digits.len() > 0
            &&& crate::text::number_of(digits) == code
            &&& forall|i: int| 0 <= i < digits.len() ==> '0' <= #[trigger] digits[i] <= '9'
        }
}

/// A response says its code and its phrase, announces that no body follows, and ends there.
pub proof fn law_response_has_no_body(r: Response)
    ensures
        is_empty_response(response_text(r), r.code as int, r.reason_phrase@),
{
    let digits = crate::text::decimal(r.code as nat);
    crate::text::law_decimal_stands_for_the_number(r.code as nat);
    assert(response_text(r) == ("HTTP/1.1 "@ + digits) + " "@ + r.reason_phrase@
        + "\r\ncontent-length: 0\r\n\r\n"@);
}

} // verus!
