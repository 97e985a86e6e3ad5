//! Replies of a mail server.

use crate::text;
use vstd::prelude::*;

verus! {

/// A reply: a code and a text.
#[derive(Debug, PartialEq, Eq)]
pub struct SmtpReply {
    pub code: u16,
    pub text: String,
}

/// [`SmtpReply`] with its text as a sequence.
pub struct ReplyModel {
    pub code: u16,
    pub text: Seq<char>,
}

impl View for SmtpReply {
    type V = ReplyModel;

    open spec fn view(&self) -> ReplyModel {
        ReplyModel { code: self.code, text: self.text@ }
    }
}

impl Clone for SmtpReply {
    fn clone(&self) -> (r: Self)
        ensures
            r@ == self@,
    {
        SmtpReply { code: self.code, text: self.text.clone() }
    }
}

/// The reply with the given code and text.
pub open spec fn reply(code: u16, t: Seq<char>) -> ReplyModel {
    ReplyModel { code, text: t }
}

impl SmtpReply {
    /// The reply with the given code and text.
    pub fn new(code: u16, t: &str) -> (r: Self)
        ensures
            r@ == reply(code, t@),
    {
        SmtpReply { code, text: text::string_from(t) }
    }

    /// Whether the reply reports success.
    pub fn is_ok(&self) -> (r: bool)
        ensures
            r == (200 <= self.code < 300),
    {
        200 <= self.code && self.code < 300
    }

    /// The line that is sent: the code, a space, the text and a line end.
    pub fn wire(&self) -> (r: String)
        ensures
            r@ == text::dec(self.code as nat) + " "@ + self.text@ + "\r\n"@,
    {
        let code = text::dec_string(self.code as u64);
        let mut out = text::concat3(code.as_str(), " ", self.text.as_str());
        out.append("\r\n");
        out
    }
}

} // verus!
