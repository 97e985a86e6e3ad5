//! One connection of the mail server: what is done about each line that comes in.
//!
//! The connection itself answers greetings, offers and starts TLS and closes. Everything else is for
//! the conversation, which hears of greetings too, and gets the lines of a message as they came. What
//! was said before TLS is forgotten when it starts.

use crate::abuse::AntiAbuse;
use crate::directory::KeyDirectory;
use crate::dkim::DkimKeyResolver;
use crate::inbound::{DmarcEvaluator, InboundGateway, MeshDelivery, SpfEvaluator, SpfPolicy};
use crate::mx_session;
use crate::mx_session::MxSession;
use crate::smtp;
use crate::smtp::SmtpReply;
use crate::text;
use vstd::prelude::*;

verus! {

/// What is to be done about a line.
#[derive(Debug, Clone, PartialEq, Eq)]
pub enum ConnAction {
    /// Nothing is sent.
    Wait,
    /// The text is sent.
    Send(String),
    /// The text is sent, and TLS is started.
    StartTls(String),
    /// The text is sent, and the connection is closed.
    Close(String),
}

/// [`ConnAction`] with its text as a sequence.
pub enum ConnActionModel {
    Wait,
    Send(Seq<char>),
    StartTls(Seq<char>),
    Close(Seq<char>),
}

impl View for ConnAction {
    type V = ConnActionModel;

    open spec fn view(&self) -> ConnActionModel {
        match *self {
            ConnAction::Wait => ConnActionModel::Wait,
            ConnAction::Send(t) => ConnActionModel::Send(t@),
            ConnAction::StartTls(t) => ConnActionModel::StartTls(t@),
            ConnAction::Close(t) => ConnActionModel::Close(t@),
        }
    }
}

/// A connection as a value.
pub struct ConnModel {
    pub session: mx_session::SessionModel,
    /// Whether TLS has been started.
    pub secured: bool,
    /// Whether TLS can be started.
    pub tls: bool,
}

/// A connection.
pub struct MxConnection {
    session: MxSession,
    secured: bool,
    tls: bool,
}

impl View for MxConnection {
    type V = ConnModel;

    closed spec fn view(&self) -> ConnModel {
        ConnModel {
            session: self.session@,
            secured: self.secured,
            tls: self.tls,
        }
    }
}

/// A reply as it is sent.
pub open spec fn wire(r: smtp::ReplyModel) -> Seq<char> {
    text::dec(r.code as nat) + " "@ + r.text + "\r\n"@
}

/// The verb of a line: what stands before the first space, in upper case.
pub open spec fn verb(line: Seq<char>) -> Seq<char> {
    match text::split_once(line, ' ') {
        Some((v, _)) => text::upper(v),
        None => text::upper(line),
    }
}

/// A conversation that begins.
pub open spec fn fresh_session(peer_ip: Seq<char>, now: u64) -> mx_session::SessionModel {
    mx_session::SessionModel {
        peer_ip,
        now,
        in_data: false,
        helo: None,
        mail_from: None,
        rcpt_to: None,
        data: Seq::empty(),
        size_exceeded: false,
        spf: None,
    }
}

/// What is said to a greeting.
pub open spec fn greeting_text(c: ConnModel) -> Seq<char> {
    if c.tls && !c.secured {
        "250-envoir-gateway at your service\r\n250 STARTTLS\r\n"@
    } else {
        "250 envoir-gateway at your service\r\n"@
    }
}

/// After a request to start TLS.
pub open spec fn after_starttls(c: ConnModel) -> (ConnModel, ConnActionModel) {
    if !c.tls {
        (c, ConnActionModel::Send(wire(smtp::reply(502, "5.5.1 STARTTLS not available"@))))
    } else if c.secured {
        (c, ConnActionModel::Send(wire(smtp::reply(503, "5.5.1 already secured"@))))
    } else {
        (
            ConnModel {
                session: fresh_session(c.session.peer_ip, c.session.now),
                secured: true,
                ..c
            },
            ConnActionModel::StartTls(wire(smtp::reply(220, "2.0.0 ready to start TLS"@))),
        )
    }
}

/// What the conversation is told of a line: of a message every octet. None where the connection deals
/// with the line itself.
pub open spec fn told(c: ConnModel, line: Seq<u8>) -> Option<Seq<u8>> {
    if c.session.in_data {
        Some(line)
    } else {
        let t = text::lossy(line);
        let v = verb(t);
        if v == "STARTTLS"@ {
            None
        } else if v == "QUIT"@ {
            Some(vstd::utf8::encode_utf8("QUIT"@))
        } else if v == "DATA"@ {
            Some(vstd::utf8::encode_utf8("DATA"@))
        } else {
            Some(vstd::utf8::encode_utf8(t))
        }
    }
}

/// What a line does to a connection, given what the conversation makes of what it is told.
pub open spec fn conn_step(
    c: ConnModel,
    line: Seq<u8>,
    said: (mx_session::SessionModel, smtp::ReplyModel),
) -> (ConnModel, ConnActionModel) {
    let (s, r) = said;
    if c.session.in_data {
        if r.code != 0 {
            (ConnModel { session: s, ..c }, ConnActionModel::Send(wire(r)))
        } else {
            (ConnModel { session: s, ..c }, ConnActionModel::Wait)
        }
    } else {
        let v = verb(text::lossy(line));
        if v == "EHLO"@ || v == "HELO"@ {
            (ConnModel { session: s, ..c }, ConnActionModel::Send(greeting_text(c)))
        } else if v == "STARTTLS"@ {
            after_starttls(c)
        } else if v == "QUIT"@ {
            (ConnModel { session: s, ..c }, ConnActionModel::Close(wire(r)))
        } else {
            (ConnModel { session: s, ..c }, ConnActionModel::Send(wire(r)))
        }
    }
}

/// Whether a line may turn a connection into another one, be met with the given action and leave the
/// gateway as given: what the conversation makes of what it is told depends on what the gateway and
/// what is behind it answer. What the conversation is not told leaves the gateway as it was.
pub open spec fn may_act<
    D: KeyDirectory,
    M: MeshDelivery,
    A: AntiAbuse,
    K: DkimKeyResolver,
    S: SpfEvaluator,
    R: DmarcEvaluator,
>(
    gw: InboundGateway<D, M, A, K, S, R>,
    c: ConnModel,
    line: Seq<u8>,
    d: ConnModel,
    action: ConnActionModel,
    after: InboundGateway<D, M, A, K, S, R>,
) -> bool {
    match told(c, line) {
        Some(l) => exists|a: mx_session::LineAnswers|
            {
                &&& #[trigger] mx_session::may_answer_line(gw, c.session, l, a, after)
                &&& (d, action) == conn_step(
                    c,
                    line,
                    mx_session::session_step(
                        c.session,
                        gw.keys(),
                        gw.spf_policy,
                        gw.max_message_bytes as nat,
                        l,
                        a,
                    ),
                )
            },
        None => after == gw && (d, action) == conn_step(
            c,
            line,
            (c.session, smtp::reply(0, ""@)),
        ),
    }
}

proof fn lemma_may_act<
    D: KeyDirectory,
    M: MeshDelivery,
    A: AntiAbuse,
    K: DkimKeyResolver,
    S: SpfEvaluator,
    R: DmarcEvaluator,
>(
    gw: InboundGateway<D, M, A, K, S, R>,
    c: ConnModel,
    line: Seq<u8>,
    l: Seq<u8>,
    a: mx_session::LineAnswers,
    d: ConnModel,
    action: ConnActionModel,
    after: InboundGateway<D, M, A, K, S, R>,
)
    requires
        told(c, line) == Some(l),
        mx_session::may_answer_line(gw, c.session, l, a, after),
        (d, action) == conn_step(c, line, step_with(gw, c.session, l, a)),
    ensures
        may_act(gw, c, line, d, action, after),
{
    let told_line = told(c, line)->0;
    assert(mx_session::may_answer_line(gw, c.session, told_line, a, after));
}

/// Answers that explain what the conversation made of a line.
spec fn answers_to<
    D: KeyDirectory,
    M: MeshDelivery,
    A: AntiAbuse,
    K: DkimKeyResolver,
    S: SpfEvaluator,
    R: DmarcEvaluator,
>(
    gw: InboundGateway<D, M, A, K, S, R>,
    s: mx_session::SessionModel,
    line: Seq<u8>,
    t: mx_session::SessionModel,
    r: smtp::ReplyModel,
    after: InboundGateway<D, M, A, K, S, R>,
) -> mx_session::LineAnswers {
    choose|a: mx_session::LineAnswers| #[trigger]
        mx_session::may_answer_line(gw, s, line, a, after) && (t, r) == mx_session::session_step(
            s,
            gw.keys(),
            gw.spf_policy,
            gw.max_message_bytes as nat,
            line,
            a,
        )
}

/// What the conversation makes of a line under the given answers.
spec fn step_with<
    D: KeyDirectory,
    M: MeshDelivery,
    A: AntiAbuse,
    K: DkimKeyResolver,
    S: SpfEvaluator,
    R: DmarcEvaluator,
>(
    gw: InboundGateway<D, M, A, K, S, R>,
    s: mx_session::SessionModel,
    line: Seq<u8>,
    a: mx_session::LineAnswers,
) -> (mx_session::SessionModel, smtp::ReplyModel) {
    mx_session::session_step(
        s,
        gw.keys(),
        gw.spf_policy,
        gw.max_message_bytes as nat,
        line,
        a,
    )
}

impl MxConnection {
    /// A connection with a peer that begins at the given time, with or without TLS to offer.
    pub fn new(peer_ip: &str, now: u64, tls: bool) -> (r: Self)
        ensures
            r@ == (ConnModel {
                session: fresh_session(peer_ip@, now),
                secured: false,
                tls,
            }),
    {
        MxConnection {
            session: MxSession::new(peer_ip, now),
            secured: false,
            tls,
        }
    }

    /// What the peer is told first.
    pub fn greeting(&self) -> (r: String)
        ensures
            r@ == wire(smtp::reply(220, "envoir-gateway DMTAP MX ready"@)),
    {
        self.session.greeting().wire()
    }

    /// What the peer is told when its time is up.
    pub fn timed_out(&self) -> (r: String)
        ensures
            r@ == wire(smtp::reply(421, "4.4.2 transaction timed out, closing connection"@)),
    {
        SmtpReply::new(421, "4.4.2 transaction timed out, closing connection").wire()
    }

    /// Says what is to be done about a line, without its line end.
    pub fn on_line<
        D: KeyDirectory,
        M: MeshDelivery,
        A: AntiAbuse,
        K: DkimKeyResolver,
        S: SpfEvaluator,
        R: DmarcEvaluator,
    >(&mut self, gw: &mut InboundGateway<D, M, A, K, S, R>, line: &[u8]) -> (r: ConnAction)
        ensures
            may_act(*old(gw), old(self)@, line@, final(self)@, r@, *final(gw)),
    {
        let ghost c0 = self@;
        let ghost g = *gw;
        if self.session.in_data() {
            let reply = self.session.feed_line_bytes(gw, line);
            let ghost a = answers_to(g, c0.session, line@, self.session@, reply@, *gw);
            let ghost st = step_with(g, c0.session, line@, a);
            assert(told(c0, line@) == Some(line@));
            assert(mx_session::may_answer_line(g, c0.session, line@, a, *gw));
            assert((self.session@, reply@) == st);
            if reply.code != 0 {
                let w = reply.wire();
                assert((self@, ConnActionModel::Send(w@)) == conn_step(c0, line@, st));
                proof {
                    lemma_may_act(g, c0, line@, line@, a, self@, ConnActionModel::Send(w@), *gw);
                }
                return ConnAction::Send(w);
            }
            assert((self@, ConnActionModel::Wait) == conn_step(c0, line@, st));
            proof {
                lemma_may_act(g, c0, line@, line@, a, self@, ConnActionModel::Wait, *gw);
            }
            return ConnAction::Wait;
        }
        let t = text::from_utf8_lossy(line);
        let c = text::chars_of(t.as_str());
        let v = match text::cut_first(c.as_slice(), ' ') {
            Some((v, _)) => text::to_upper(v),
            None => text::to_upper(c.as_slice()),
        };
        let v = v.as_slice();
        proof {
            reveal_strlit("EHLO");
            reveal_strlit("HELO");
            reveal_strlit("STARTTLS");
            reveal_strlit("QUIT");
            reveal_strlit("DATA");
            assert("EHLO"@[0] == 'E' && "HELO"@[0] == 'H' && "STARTTLS"@[0] == 'S' && "QUIT"@[0]
                == 'Q' && "DATA"@[0] == 'D');
        }
        if text::is_text(v, "EHLO") || text::is_text(v, "HELO") {
            let reply = self.session.feed_line_bytes(gw, t.as_str().as_bytes());
            let ghost l = vstd::utf8::encode_utf8(t@);
            let ghost a = answers_to(g, c0.session, l, self.session@, reply@, *gw);
            let ghost st = step_with(g, c0.session, l, a);
            assert(told(c0, line@) == Some(l));
            assert(mx_session::may_answer_line(g, c0.session, l, a, *gw));
            assert((self.session@, reply@) == st);
            let w = if self.tls && !self.secured {
                text::string_from("250-envoir-gateway at your service\r\n250 STARTTLS\r\n")
            } else {
                text::string_from("250 envoir-gateway at your service\r\n")
            };
            assert((self@, ConnActionModel::Send(w@)) == conn_step(c0, line@, st));
            proof {
                lemma_may_act(g, c0, line@, l, a, self@, ConnActionModel::Send(w@), *gw);
            }
            return ConnAction::Send(w);
        }
        if text::is_text(v, "STARTTLS") {
            if !self.tls {
                return ConnAction::Send(
                    SmtpReply::new(502, "5.5.1 STARTTLS not available").wire(),
                );
            }
            if self.secured {
                return ConnAction::Send(SmtpReply::new(503, "5.5.1 already secured").wire());
            }
            self.secured = true;
            self.session = MxSession::new(self.session.peer_ip(), self.session.now());
            return ConnAction::StartTls(SmtpReply::new(220, "2.0.0 ready to start TLS").wire());
        }
        if text::is_text(v, "QUIT") {
            let reply = self.session.feed_line_bytes(gw, "QUIT".as_bytes());
            let ghost l = vstd::utf8::encode_utf8("QUIT"@);
            let ghost a = answers_to(g, c0.session, l, self.session@, reply@, *gw);
            let ghost st = step_with(g, c0.session, l, a);
            assert(told(c0, line@) == Some(l));
            assert(mx_session::may_answer_line(g, c0.session, l, a, *gw));
            assert((self.session@, reply@) == st);
            let w = reply.wire();
            assert((self@, ConnActionModel::Close(w@)) == conn_step(c0, line@, st));
            proof {
                lemma_may_act(g, c0, line@, l, a, self@, ConnActionModel::Close(w@), *gw);
            }
            return ConnAction::Close(w);
        }
        if text::is_text(v, "DATA") {
            let reply = self.session.feed_line_bytes(gw, "DATA".as_bytes());
            let ghost l = vstd::utf8::encode_utf8("DATA"@);
            let ghost a = answers_to(g, c0.session, l, self.session@, reply@, *gw);
            let ghost st = step_with(g, c0.session, l, a);
            assert(told(c0, line@) == Some(l));
            assert(mx_session::may_answer_line(g, c0.session, l, a, *gw));
            assert((self.session@, reply@) == st);
            let w = reply.wire();
            assert((self@, ConnActionModel::Send(w@)) == conn_step(c0, line@, st));
            proof {
                lemma_may_act(g, c0, line@, l, a, self@, ConnActionModel::Send(w@), *gw);
            }
            return ConnAction::Send(w);
        }
        let reply = self.session.feed_line_bytes(gw, t.as_str().as_bytes());
        let ghost l = vstd::utf8::encode_utf8(t@);
        let ghost a = answers_to(g, c0.session, l, self.session@, reply@, *gw);
        let ghost st = step_with(g, c0.session, l, a);
        assert(told(c0, line@) == Some(l));
        assert(mx_session::may_answer_line(g, c0.session, l, a, *gw));
        assert((self.session@, reply@) == st);
        let w = reply.wire();
        assert((self@, ConnActionModel::Send(w@)) == conn_step(c0, line@, st));
        proof {
            lemma_may_act(g, c0, line@, l, a, self@, ConnActionModel::Send(w@), *gw);
        }
        ConnAction::Send(w)
    }
}

// ---- laws --------------------------------------------------------------------------------------

/// Once TLS has been started it stays, and it is started only where it can be.
pub proof fn law_security_is_never_lost(
    c: ConnModel,
    line: Seq<u8>,
    said: (mx_session::SessionModel, smtp::ReplyModel),
)
    ensures
        c.secured ==> conn_step(c, line, said).0.secured,
        conn_step(c, line, said).1 is StartTls ==> c.tls && !c.secured && conn_step(
            c,
            line,
            said,
        ).0.secured,
{
}

/// What was said before TLS is forgotten when it starts: no sender, no recipient and no greeting
/// survives.
pub proof fn law_tls_starts_afresh(
    c: ConnModel,
    line: Seq<u8>,
    said: (mx_session::SessionModel, smtp::ReplyModel),
)
    requires
        conn_step(c, line, said).1 is StartTls,
    ensures
        conn_step(c, line, said).0.session == fresh_session(c.session.peer_ip, c.session.now),
{
}

/// While a message comes in, every line of it is for the conversation as it came, and the connection
/// neither starts TLS nor closes, whatever the line says.
pub proof fn law_message_lines_are_handed_on(
    c: ConnModel,
    line: Seq<u8>,
    said: (mx_session::SessionModel, smtp::ReplyModel),
)
    requires
        c.session.in_data,
    ensures
        told(c, line) == Some(line),
        !(conn_step(c, line, said).1 is StartTls),
        !(conn_step(c, line, said).1 is Close),
        conn_step(c, line, said).0 == (ConnModel { session: said.0, ..c }),
{
}

/// What the peer calls itself is kept for the conversation: after a greeting with a name that name is
/// the one that a sender without a domain is judged by.
pub proof fn law_greeting_is_kept(
    c: ConnModel,
    name: Seq<char>,
    keys: Seq<crate::attestation::AttestationKeyModel>,
    policy: SpfPolicy,
    max: nat,
    a: mx_session::LineAnswers,
)
    requires
        !c.session.in_data,
        name.len() > 0,
        text::trim(name) == name,
    ensures
        ({
            let line = vstd::utf8::encode_utf8("EHLO "@ + name);
            &&& told(c, line) == Some(line)
            &&& conn_step(
                c,
                line,
                mx_session::session_step(c.session, keys, policy, max, line, a),
            ).0.session == (mx_session::SessionModel { helo: Some(name), ..c.session })
        }),
{
    let t = "EHLO "@ + name;
    reveal_strlit("EHLO ");
    reveal_strlit("EHLO");
    reveal_strlit("HELO");
    reveal_strlit("STARTTLS");
    reveal_strlit("QUIT");
    reveal_strlit("DATA");
    text::lemma_lossy_of_text(t);
    t.index_of_first_ensures(' ');
    assert(t[4] == ' ');
    assert(t.index_of_first(' ') == Some(4int));
    assert(t.take(4) =~= "EHLO"@);
    assert(t.skip(5) =~= name);
    assert(text::upper("EHLO"@) =~= "EHLO"@);
    assert("EHLO"@[0] == 'E' && "STARTTLS"@[0] == 'S' && "QUIT"@[0] == 'Q' && "DATA"@[0] == 'D');
}

/// A reply is sent as its code, a space, its text and a line end.
pub proof fn law_how_replies_are_sent(r: smtp::ReplyModel)
    ensures
        wire(r) == text::dec(r.code as nat) + seq![' '] + r.text + seq!['\r', '\n'],
{
    reveal_strlit(" ");
    reveal_strlit("\r\n");
    assert(" "@ =~= seq![' ']);
    assert("\r\n"@ =~= seq!['\r', '\n']);
}

/// What a connection does with a command: it goes over to TLS exactly if that is asked for, can be had
/// and has not been done; it ends with the reply to `QUIT`, and with no other; and every other command
/// is answered with what the conversation says, but for the greeting, which offers TLS exactly while
/// it can still be had.
pub proof fn law_what_a_connection_does(
    c: ConnModel,
    line: Seq<u8>,
    said: (mx_session::SessionModel, smtp::ReplyModel),
)
    requires
        !c.session.in_data,
    ensures
        ({
            let t = text::lossy(line);
            let v = verb(t);
            let (d, action) = conn_step(c, line, said);
            let hello = v == "EHLO"@ || v == "HELO"@;
            let tls = v == "STARTTLS"@;
            &&& action is StartTls <==> tls && c.tls && !c.secured
            &&& tls && (!c.tls || c.secured) ==> d == c && action is Send
            &&& action is Close <==> v == "QUIT"@
            &&& v == "QUIT"@ ==> action == ConnActionModel::Close(wire(said.1))
            &&& !hello && !tls && v != "QUIT"@ ==> action == ConnActionModel::Send(wire(said.1))
            &&& !tls ==> d == (ConnModel { session: said.0, ..c })
            &&& hello && c.tls && !c.secured ==> action == ConnActionModel::Send(
                "250-envoir-gateway at your service\r\n250 STARTTLS\r\n"@,
            )
            &&& hello && (!c.tls || c.secured) ==> action == ConnActionModel::Send(
                "250 envoir-gateway at your service\r\n"@,
            )
            &&& told(c, line) is None <==> tls
        }),
{
    reveal_strlit("EHLO");
    reveal_strlit("HELO");
    reveal_strlit("STARTTLS");
    reveal_strlit("QUIT");
    reveal_strlit("DATA");
    assert("EHLO"@[0] == 'E' && "HELO"@[0] == 'H' && "STARTTLS"@[0] == 'S' && "QUIT"@[0] == 'Q');
}

/// The lines of a message are answered only where the conversation has something to say.
pub proof fn law_message_lines_are_answered_once(
    c: ConnModel,
    line: Seq<u8>,
    said: (mx_session::SessionModel, smtp::ReplyModel),
)
    requires
        c.session.in_data,
    ensures
        said.1.code == 0 ==> conn_step(c, line, said).1 is Wait,
        said.1.code != 0 ==> conn_step(c, line, said).1 == ConnActionModel::Send(wire(said.1)),
{
}

/// What a connection tells the conversation: the lines of a message as they are, `QUIT` and `DATA`
/// without what stands behind them, every other command as it is, and nothing of TLS.
pub proof fn law_what_the_conversation_is_told(c: ConnModel, word: Seq<char>, rest: Seq<char>)
    requires
        !c.session.in_data,
        !word.contains(' '),
    ensures
        ({
            let line = vstd::utf8::encode_utf8(word + seq![' '] + rest);
            let v = text::upper(word);
            &&& v == "QUIT"@ ==> told(c, line) == Some(vstd::utf8::encode_utf8("QUIT"@))
            &&& v == "DATA"@ ==> told(c, line) == Some(vstd::utf8::encode_utf8("DATA"@))
            &&& v == "STARTTLS"@ ==> told(c, line) is None
            &&& v != "QUIT"@ && v != "DATA"@ && v != "STARTTLS"@ ==> told(c, line) == Some(line)
        }),
{
    reveal_strlit("STARTTLS");
    reveal_strlit("QUIT");
    reveal_strlit("DATA");
    assert("STARTTLS"@[0] == 'S' && "QUIT"@[0] == 'Q' && "DATA"@[0] == 'D');
    text::lemma_lossy_of_text(word + seq![' '] + rest);
    text::law_cut_at_the_first(word, ' ', rest);
}

/// Once it has gone over to TLS, a conversation begins anew: nothing that was said before counts, but
/// for who the peer is and when it came.
pub proof fn law_conversation_begins_anew(c: ConnModel)
    requires
        c.tls,
        !c.secured,
    ensures
        ({
            let (d, action) = after_starttls(c);
            let s = d.session;
            &&& d.secured && d.tls
            &&& s.peer_ip == c.session.peer_ip && s.now == c.session.now
            &&& !s.in_data && !s.size_exceeded && s.data.len() == 0
            &&& s.helo is None && s.mail_from is None && s.rcpt_to is None && s.spf is None
            &&& action == ConnActionModel::StartTls(
                wire(smtp::ReplyModel { code: 220, text: "2.0.0 ready to start TLS"@ }),
            )
        }),
{
}

/// Where TLS cannot be had, or has been gone over to, asking for it changes nothing.
pub proof fn law_tls_is_had_once(c: ConnModel)
    requires
        !c.tls || c.secured,
    ensures
        after_starttls(c).0 == c,
        !c.tls ==> after_starttls(c).1 == ConnActionModel::Send(
            wire(smtp::ReplyModel { code: 502, text: "5.5.1 STARTTLS not available"@ }),
        ),
        c.tls ==> after_starttls(c).1 == ConnActionModel::Send(
            wire(smtp::ReplyModel { code: 503, text: "5.5.1 already secured"@ }),
        ),
{
}

/// A conversation that has just begun has said nothing yet.
pub proof fn law_new_conversation(peer_ip: Seq<char>, now: u64)
    ensures
        ({
            let s = fresh_session(peer_ip, now);
            &&& s.peer_ip == peer_ip && s.now == now
            &&& !s.in_data && !s.size_exceeded && s.data.len() == 0
            &&& s.helo is None && s.mail_from is None && s.rcpt_to is None && s.spf is None
        }),
{
}

/// What the connection does with a line that the conversation is not told of, it does without it, and
/// the gateway stays as it is.
pub proof fn law_what_is_not_told_changes_no_gateway<
    D: KeyDirectory,
    M: MeshDelivery,
    A: AntiAbuse,
    K: DkimKeyResolver,
    S: SpfEvaluator,
    R: DmarcEvaluator,
>(
    gw: InboundGateway<D, M, A, K, S, R>,
    c: ConnModel,
    line: Seq<u8>,
    d: ConnModel,
    action: ConnActionModel,
    after: InboundGateway<D, M, A, K, S, R>,
)
    requires
        told(c, line) is None,
        may_act(gw, c, line, d, action, after),
    ensures
        after == gw,
        d == conn_step(c, line, (c.session, smtp::ReplyModel { code: 0, text: ""@ })).0,
        action == conn_step(c, line, (c.session, smtp::ReplyModel { code: 0, text: ""@ })).1,
{
}

} // verus!
