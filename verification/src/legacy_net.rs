//! Access for legacy mail programs, line by line: how TLS is offered, and what is done after each
//! line.

use crate::http;
use crate::text;
use vstd::prelude::*;
use vstd::slice::slice_subrange;

verus! {

/// The octets that may be read of a line without its end.
pub const MAX_LINE: usize = 67_108_864;

/// How TLS is offered.
#[derive(Debug, Clone, Copy, PartialEq, Eq, Structural)]
pub enum LegacyTls {
    /// In the clear at first; the peer asks for TLS.
    StartTls,
    /// From the first octet on.
    Implicit,
}

/// Whether a text is one of the spellings of an offer on request.
pub open spec fn spells_starttls(s: Seq<char>) -> bool {
    s == "starttls"@ || s == "start-tls"@ || s == "start_tls"@
}

/// Whether a text is one of the spellings of an offer from the start.
pub open spec fn spells_implicit(s: Seq<char>) -> bool {
    s == "implicit"@ || s == "implicit-tls"@ || s == "tls"@ || s == "993"@
}

/// How a text says that TLS is offered, in any case.
pub open spec fn tls_named(v: Seq<char>) -> Option<LegacyTls> {
    let s = text::lower(text::trim(v));
    if spells_starttls(s) {
        Some(LegacyTls::StartTls)
    } else if spells_implicit(s) || s == "995"@ || s == "465"@ {
        Some(LegacyTls::Implicit)
    } else {
        None
    }
}

pub(crate) fn is_starttls_word(s: &[char]) -> (r: bool)
    ensures
        r == spells_starttls(s@),
{
    text::is_text(s, "starttls") || text::is_text(s, "start-tls") || text::is_text(s, "start_tls")
}

pub(crate) fn is_implicit_word(s: &[char]) -> (r: bool)
    ensures
        r == spells_implicit(s@),
{
    text::is_text(s, "implicit") || text::is_text(s, "implicit-tls") || text::is_text(s, "tls")
        || text::is_text(s, "993")
}

impl LegacyTls {
    /// Reads how TLS is offered.
    pub fn parse(v: &str) -> (r: Option<LegacyTls>)
        ensures
            r == tls_named(v@),
    {
        let c = text::chars_of(v);
        let l = text::to_lower(text::trimmed(c.as_slice()));
        let s = l.as_slice();
        if is_starttls_word(s) {
            Some(LegacyTls::StartTls)
        } else if is_implicit_word(s) || text::is_text(s, "995") || text::is_text(s, "465") {
            Some(LegacyTls::Implicit)
        } else {
            None
        }
    }

    /// Whether TLS stands before the first line.
    pub fn is_implicit(&self) -> (r: bool)
        ensures
            r == (*self == LegacyTls::Implicit),
    {
        matches!(self, LegacyTls::Implicit)
    }
}

/// A protocol that is spoken line by line.
pub trait LineProtocol: Sized {
    /// Whether a line asks for TLS. Unless a protocol says otherwise, its first word does.
    open spec fn asks_for_tls(&self, line: Seq<char>) -> bool {
        first_verb(line) == "STARTTLS"@ || first_verb(line) == "STLS"@
    }

    /// Whether a reply agrees to TLS. Unless a protocol says otherwise, its beginning does: `+OK`, or
    /// a code of success.
    open spec fn agrees_to_tls(&self, reply: Seq<char>) -> bool {
        "+OK"@.is_prefix_of(reply) || reply.len() >= 3 && http::is_success_code(reply.take(3))
    }

    /// Whether a line ends the session. Unless a protocol says otherwise, its first word does.
    open spec fn ends_session(&self, line: Seq<char>) -> bool {
        first_verb(line) == "QUIT"@
    }

    /// Whether taking one line may give the given reply and leave the session as given.
    open spec fn may_step(before: Self, line: Seq<u8>, reply: Seq<char>, after: Self) -> bool {
        true
    }

    /// What the peer is told first.
    fn greeting(&mut self) -> (r: String);

    /// Takes one line, without its line end. An empty reply is not sent.
    fn feed_line_bytes(&mut self, line: &[u8]) -> (r: String)
        ensures
            Self::may_step(*old(self), line@, r@, *final(self)),
    ;

    /// Whether a line asks for TLS.
    fn is_starttls(&self, line: &str) -> (r: bool)
        ensures
            r == self.asks_for_tls(line@),
    ;

    /// Whether a reply agrees to TLS.
    fn accepts_upgrade(&self, reply: &str) -> (r: bool)
        ensures
            r == self.agrees_to_tls(reply@),
    ;

    /// Whether a line ends the session.
    fn is_quit(&self, line: &str) -> (r: bool)
        ensures
            r == self.ends_session(line@),
    ;
}

/// What is done once the reply to a line has been sent.
#[derive(Debug, Clone, Copy, PartialEq, Eq, Structural)]
pub enum AfterReply {
    /// The next line is read.
    GoOn,
    /// TLS is started, and the next line is read.
    StartTls,
    /// TLS is started, and the session ends.
    StartTlsAndEnd,
    /// The session ends.
    End,
    /// The connection is dropped: something was sent behind the request for TLS, in the clear.
    Refuse,
}

/// What is done once the reply to a line has been sent.
pub open spec fn decision(upgrade: bool, pipelined: bool, quit: bool) -> AfterReply {
    if upgrade && pipelined {
        AfterReply::Refuse
    } else if upgrade && quit {
        AfterReply::StartTlsAndEnd
    } else if upgrade {
        AfterReply::StartTls
    } else if quit {
        AfterReply::End
    } else {
        AfterReply::GoOn
    }
}

/// What is done once the reply to a line has been sent.
pub fn decide(upgrade: bool, pipelined: bool, quit: bool) -> (r: AfterReply)
    ensures
        r == decision(upgrade, pipelined, quit),
{
    if upgrade && pipelined {
        AfterReply::Refuse
    } else if upgrade && quit {
        AfterReply::StartTlsAndEnd
    } else if upgrade {
        AfterReply::StartTls
    } else if quit {
        AfterReply::End
    } else {
        AfterReply::GoOn
    }
}

/// A line without the CR and LF at its end.
pub open spec fn bare_line(line: Seq<u8>) -> Seq<u8>
    decreases line.len(),
{
    if line.len() > 0 && (line.last() == 13 || line.last() == 10) {
        bare_line(line.drop_last())
    } else {
        line
    }
}

/// A line without the CR and LF at its end.
pub fn strip_line_end(line: &[u8]) -> (r: &[u8])
    ensures
        r@ == bare_line(line@),
{
    let mut n: usize = line.len();
    assert(line@.take(n as int) =~= line@);
    while n > 0 && (line[n - 1] == 13 || line[n - 1] == 10)
        invariant
            n <= line@.len(),
            bare_line(line@) == bare_line(line@.take(n as int)),
        decreases n,
    {
        assert(line@.take(n as int).last() == line@[n - 1]);
        assert(line@.take(n as int).drop_last() =~= line@.take(n - 1));
        n -= 1;
    }
    proof {
        if n > 0 {
            assert(line@.take(n as int).last() == line@[n - 1]);
        }
    }
    let r = slice_subrange(line, 0, n);
    assert(r@ =~= line@.take(n as int));
    r
}

/// Takes one line as it came in, once, and says what is sent and what is done then. `pipelined` is whether
/// something has been read behind the line already.
pub fn line_step<P: LineProtocol>(proto: &mut P, secured: bool, line: &[u8], pipelined: bool) -> (r:
    (String, AfterReply))
    ensures
        ({
            let cmd = bare_line(line@);
            let t = text::lossy(cmd);
            &&& P::may_step(*old(proto), cmd, r.0@, *final(proto))
            &&& r.1 == decision(
                !secured && old(proto).asks_for_tls(t) && final(proto).agrees_to_tls(r.0@),
                pipelined,
                old(proto).ends_session(t),
            )
        }),
{
    let cmd = strip_line_end(line);
    let t = text::from_utf8_lossy(cmd);
    let wants = !secured && proto.is_starttls(t.as_str());
    let quit = proto.is_quit(t.as_str());
    let reply = proto.feed_line_bytes(cmd);
    let upgrade = wants && proto.accepts_upgrade(reply.as_str());
    let after = decide(upgrade, pipelined, quit);
    (reply, after)
}

/// The first word of a line in upper case.
pub open spec fn first_verb(line: Seq<char>) -> Seq<char> {
    if text::words(line).len() > 0 {
        text::upper(text::words(line)[0])
    } else {
        Seq::empty()
    }
}

/// The first word of a line in upper case.
pub fn verb_of(line: &str) -> (r: String)
    ensures
        r@ == first_verb(line@),
{
    let c = text::chars_of(line);
    let w = text::split_words(c.as_slice());
    let ghost ws = text::words(line@);
    if w.len() > 0 {
        assert(ws[0] == w@[0]@);
        let u = text::to_upper(w[0].as_slice());
        text::string_of(u.as_slice())
    } else {
        let e = String::new();
        assert(e@ =~= Seq::<char>::empty());
        e
    }
}

// ---- laws --------------------------------------------------------------------------------------

/// Nothing that was sent in the clear behind a request for TLS is taken for something that was sent
/// under TLS: where something was, TLS is not started and the connection is dropped.
pub proof fn law_nothing_slips_into_tls(upgrade: bool, quit: bool)
    ensures
        decision(upgrade, true, quit) != AfterReply::StartTls,
        decision(upgrade, true, quit) != AfterReply::StartTlsAndEnd,
        upgrade ==> decision(upgrade, true, quit) == AfterReply::Refuse,
{
}

/// How the ways into TLS are spelled, in any case and with white space around them.
pub proof fn law_spellings_of_tls(v: Seq<char>)
    ensures
        ({
            let s = text::lower(text::trim(v));
            &&& tls_named(v) == Some(LegacyTls::StartTls) <==> s == "starttls"@ || s == "start-tls"@
                || s == "start_tls"@
            &&& tls_named(v) == Some(LegacyTls::Implicit) <==> s == "implicit"@ || s
                == "implicit-tls"@ || s == "tls"@ || s == "993"@ || s == "995"@ || s == "465"@
        }),
{
    reveal_strlit("starttls");
    reveal_strlit("start-tls");
    reveal_strlit("start_tls");
    reveal_strlit("implicit");
    reveal_strlit("implicit-tls");
    reveal_strlit("tls");
    reveal_strlit("993");
    reveal_strlit("995");
    reveal_strlit("465");
    assert("starttls"@[0] == 's' && "start-tls"@[0] == 's' && "start_tls"@[0] == 's');
    assert("implicit"@[0] == 'i' && "implicit-tls"@[0] == 'i' && "tls"@[0] == 't' && "993"@[0] == '9'
        && "995"@[0] == '9' && "465"@[0] == '4');
}

/// What comes after a reply: TLS where it was agreed on and nothing was sent ahead, the end where the
/// peer asked for it, both where both hold, a refusal where something was sent ahead of TLS, and else
/// the next line.
pub proof fn law_what_comes_after_a_reply(upgrade: bool, pipelined: bool, quit: bool)
    ensures
        ({
            let d = decision(upgrade, pipelined, quit);
            &&& d == AfterReply::Refuse <==> upgrade && pipelined
            &&& d == AfterReply::StartTlsAndEnd <==> upgrade && !pipelined && quit
            &&& d == AfterReply::StartTls <==> upgrade && !pipelined && !quit
            &&& d == AfterReply::End <==> !upgrade && quit
            &&& d == AfterReply::GoOn <==> !upgrade && !quit
        }),
{
}

/// A line is taken without the line end behind it, whatever that is made of, and nothing else of it is
/// lost.
pub proof fn law_line_end_comes_off(line: Seq<u8>, ends: Seq<u8>)
    requires
        line.len() > 0 ==> line.last() != 13 && line.last() != 10,
        forall|i: int| 0 <= i < ends.len() ==> #[trigger] ends[i] == 13 || ends[i] == 10,
    ensures
        bare_line(line + ends) == line,
    decreases ends.len(),
{
    if ends.len() == 0 {
        assert(line + ends =~= line);
    } else {
        assert((line + ends).last() == ends[ends.len() - 1]);
        assert((line + ends).drop_last() =~= line + ends.drop_last());
        law_line_end_comes_off(line, ends.drop_last());
    }
}

/// The verb of a line is its first word, in upper case; a line without a word has none.
pub proof fn law_first_word_is_the_verb(before: Seq<char>, word: Seq<char>, rest: Seq<char>)
    requires
        text::all_white(before),
        word.len() > 0,
        forall|i: int| 0 <= i < word.len() ==> !text::is_white(#[trigger] word[i]),
        rest.len() > 0 ==> text::is_white(rest[0]),
    ensures
        first_verb(before + word + rest) == text::upper(word),
        first_verb(before).len() == 0,
{
    text::law_words_are_the_runs(before, word, rest);
}

} // verus!
