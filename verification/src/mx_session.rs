//! One conversation with a mail server that wants to hand over messages, line by line.
//!
//! The sender is checked when it is named, and the recipient when it is named: both before the
//! message itself. The lines of a message are kept octet for octet, and no more of them than a
//! message may have.

use crate::abuse;
use crate::abuse::{AbuseDecision, AntiAbuse};
use crate::bytes;
use crate::directory;
use crate::directory::KeyDirectory;
use crate::dkim::DkimKeyResolver;
use crate::inbound;
use crate::inbound::{
    DmarcEvaluator,
    InboundGateway,
    MeshDelivery,
    SpfEvaluator,
    SpfOutcome,
    SpfPolicy,
};
use crate::model;
use crate::smtp;
use crate::smtp::SmtpReply;
use crate::text;
use vstd::prelude::*;
use vstd::slice::slice_subrange;

verus! {

/// A conversation as a value.
#[verifier::ext_equal]
pub struct SessionModel {
    pub peer_ip: Seq<char>,
    pub now: u64,
    /// Whether the lines are those of a message.
    pub in_data: bool,
    /// The name that the peer has greeted with.
    pub helo: Option<Seq<char>>,
    pub mail_from: Option<Seq<char>>,
    pub rcpt_to: Option<Seq<char>>,
    /// The message so far.
    pub data: Seq<u8>,
    /// Whether the message has become too large.
    pub size_exceeded: bool,
    pub spf: Option<SpfOutcome>,
}

/// A conversation.
pub struct MxSession {
    peer_ip: String,
    now: u64,
    in_data: bool,
    helo: Option<String>,
    mail_from: Option<String>,
    rcpt_to: Option<String>,
    data: Vec<u8>,
    size_exceeded: bool,
    spf_outcome: Option<SpfOutcome>,
}

impl View for MxSession {
    type V = SessionModel;

    closed spec fn view(&self) -> SessionModel {
        SessionModel {
            peer_ip: self.peer_ip@,
            now: self.now,
            in_data: self.in_data,
            helo: model::opt_view(self.helo),
            mail_from: model::opt_view(self.mail_from),
            rcpt_to: model::opt_view(self.rcpt_to),
            data: self.data@,
            size_exceeded: self.size_exceeded,
            spf: self.spf_outcome,
        }
    }
}

// ---- what a line means -------------------------------------------------------------------------

/// A command line as a verb in upper case and what follows it.
pub open spec fn command(line: Seq<char>) -> (Seq<char>, Seq<char>) {
    match text::split_once(line, ' ') {
        Some((v, r)) => (text::upper(v), text::trim(r)),
        None => (text::upper(text::trim(line)), Seq::empty()),
    }
}

/// What follows a keyword that is written in either of two ways.
pub open spec fn after_either(s: Seq<char>, a: Seq<char>, b: Seq<char>) -> Option<Seq<char>> {
    match text::strip_prefix(s, a) {
        Some(t) => Some(t),
        None => text::strip_prefix(s, b),
    }
}

/// The sender that a `MAIL` command names.
pub open spec fn from_argument(rest: Seq<char>) -> Option<Seq<char>> {
    match after_either(rest, "FROM:"@, "from:"@) {
        Some(a) => Some(text::trim(a)),
        None => None,
    }
}

/// The recipient that a `RCPT` command names.
pub open spec fn to_argument(rest: Seq<char>) -> Option<Seq<char>> {
    match after_either(rest, "TO:"@, "to:"@) {
        Some(a) => Some(inbound::bare_address(a)),
        None => None,
    }
}

/// The conversation with its transaction forgotten.
pub open spec fn reset(s: SessionModel) -> SessionModel {
    SessionModel {
        mail_from: None,
        rcpt_to: None,
        data: Seq::empty(),
        size_exceeded: false,
        spf: None,
        ..s
    }
}

/// What the gateway and what is behind it came back with for one line.
pub struct LineAnswers {
    pub abuse: abuse::AbuseModel,
    pub spf: SpfOutcome,
    pub recipient: Option<directory::RecipientModel>,
    /// The reply to a whole message.
    pub message: smtp::ReplyModel,
}

/// After a greeting.
pub open spec fn greeted(s: SessionModel, rest: Seq<char>) -> (SessionModel, smtp::ReplyModel) {
    let arg = text::trim(rest);
    (
        SessionModel {
            helo: if arg.len() == 0 {
                None
            } else {
                Some(arg)
            },
            ..s
        },
        smtp::reply(250, "envoir-gateway at your service"@),
    )
}

/// After a `MAIL` command.
pub open spec fn after_mail(
    s: SessionModel,
    policy: SpfPolicy,
    rest: Seq<char>,
    decision: abuse::AbuseModel,
    spf: SpfOutcome,
) -> (SessionModel, smtp::ReplyModel) {
    match from_argument(rest) {
        None => (s, smtp::reply(501, "5.5.4 syntax: MAIL FROM:<address>"@)),
        Some(addr) => match decision {
            abuse::AbuseModel::Reject { code, reason } => (s, smtp::reply(code, reason)),
            abuse::AbuseModel::Accept => match inbound::spf_refusal(policy, spf.result) {
                Some(r) => (s, r),
                None => (
                    SessionModel { mail_from: Some(addr), spf: Some(spf), ..s },
                    smtp::reply(250, "2.1.0 sender ok"@),
                ),
            },
        },
    }
}

/// After a `RCPT` command.
pub open spec fn after_rcpt(
    s: SessionModel,
    keys: Seq<crate::attestation::AttestationKeyModel>,
    rest: Seq<char>,
    recipient: Option<directory::RecipientModel>,
) -> (SessionModel, smtp::ReplyModel) {
    if s.mail_from is None {
        (s, smtp::reply(503, "5.5.1 need MAIL before RCPT"@))
    } else {
        match to_argument(rest) {
            None => (s, smtp::reply(501, "5.5.4 syntax: RCPT TO:<address>"@)),
            Some(addr) => match inbound::rcpt_refusal(keys, addr, recipient) {
                Some(r) => (s, r),
                None => (
                    SessionModel { rcpt_to: Some(addr), ..s },
                    smtp::reply(250, "2.1.5 recipient ok"@),
                ),
            },
        }
    }
}

/// After a `DATA` command.
pub open spec fn after_data(s: SessionModel) -> (SessionModel, smtp::ReplyModel) {
    if s.mail_from is None || s.rcpt_to is None {
        (s, smtp::reply(503, "5.5.1 need MAIL and RCPT before DATA"@))
    } else {
        (
            SessionModel { in_data: true, ..s },
            smtp::reply(354, "start mail input; end with <CRLF>.<CRLF>"@),
        )
    }
}

/// Whether a line ends a message.
pub open spec fn ends_message(line: Seq<u8>) -> bool {
    line == seq![46u8]
}

/// A line of a message as it was before it was sent: without the dot that was put in front of it.
pub open spec fn unstuffed(line: Seq<u8>) -> Seq<u8> {
    if line.len() > 0 && line[0] == 46 {
        line.skip(1)
    } else {
        line
    }
}

/// After a line of a message, given the reply to the whole message.
pub open spec fn after_data_line(
    s: SessionModel,
    max: nat,
    line: Seq<u8>,
    message: smtp::ReplyModel,
) -> (SessionModel, smtp::ReplyModel) {
    if ends_message(line) {
        (
            reset(SessionModel { in_data: false, ..s }),
            if s.size_exceeded {
                smtp::reply(552, "5.3.4 message size exceeds fixed maximum message size"@)
            } else {
                message
            },
        )
    } else {
        let l = unstuffed(line);
        (
            if s.size_exceeded {
                s
            } else if s.data.len() + l.len() + 2 > max {
                SessionModel { size_exceeded: true, data: Seq::empty(), ..s }
            } else {
                SessionModel { data: s.data + l + seq![13u8, 10u8], ..s }
            },
            smtp::reply(0, ""@),
        )
    }
}

/// After a command line.
pub open spec fn after_command(
    s: SessionModel,
    keys: Seq<crate::attestation::AttestationKeyModel>,
    policy: SpfPolicy,
    line: Seq<char>,
    a: LineAnswers,
) -> (SessionModel, smtp::ReplyModel) {
    let (verb, rest) = command(line);
    if verb == "HELO"@ || verb == "EHLO"@ {
        greeted(s, rest)
    } else if verb == "MAIL"@ {
        after_mail(s, policy, rest, a.abuse, a.spf)
    } else if verb == "RCPT"@ {
        after_rcpt(s, keys, rest, a.recipient)
    } else if verb == "DATA"@ {
        after_data(s)
    } else if verb == "RSET"@ {
        (reset(s), smtp::reply(250, "2.0.0 flushed"@))
    } else if verb == "NOOP"@ {
        (s, smtp::reply(250, "2.0.0 ok"@))
    } else if verb == "QUIT"@ {
        (s, smtp::reply(221, "2.0.0 bye"@))
    } else {
        (s, smtp::reply(502, "5.5.1 command not implemented"@))
    }
}

/// What a line does to a conversation, and what it is answered.
pub open spec fn session_step(
    s: SessionModel,
    keys: Seq<crate::attestation::AttestationKeyModel>,
    policy: SpfPolicy,
    max: nat,
    line: Seq<u8>,
    a: LineAnswers,
) -> (SessionModel, smtp::ReplyModel) {
    if s.in_data {
        after_data_line(s, max, line, a.message)
    } else {
        after_command(s, keys, policy, text::lossy(line), a)
    }
}

/// The text, or the empty text.
pub open spec fn text_or_empty(t: Option<Seq<char>>) -> Seq<char> {
    match t {
        Some(x) => x,
        None => Seq::empty(),
    }
}

/// The result of the SPF evaluation of a transaction.
pub open spec fn spf_of(s: SessionModel) -> Option<inbound::SpfResult> {
    match s.spf {
        Some(o) => Some(o.result),
        None => None,
    }
}

/// Whether a line ends a message that is handed on: one that has not become too large.
pub open spec fn delivers_message(s: SessionModel, line: Seq<u8>) -> bool {
    s.in_data && ends_message(line) && !s.size_exceeded
}

/// The sender that a line names, where it is a command that does.
pub open spec fn named_sender(s: SessionModel, line: Seq<u8>) -> Option<Seq<char>> {
    let (verb, rest) = command(text::lossy(line));
    if !s.in_data && verb == "MAIL"@ {
        from_argument(rest)
    } else {
        None
    }
}

/// Whether everything outside may answer a line as given and the gateway be left as given. Only a
/// command that names a sender is checked for abuse, and only the end of a message that is not too
/// large delivers one; every other line leaves the gateway as it was. What is not asked for may be
/// anything.
pub open spec fn may_answer_line<
    D: KeyDirectory,
    M: MeshDelivery,
    A: AntiAbuse,
    K: DkimKeyResolver,
    S: SpfEvaluator,
    R: DmarcEvaluator,
>(
    gw: InboundGateway<D, M, A, K, S, R>,
    s: SessionModel,
    line: Seq<u8>,
    a: LineAnswers,
    after: InboundGateway<D, M, A, K, S, R>,
) -> bool {
    if s.in_data {
        if delivers_message(s, line) {
            &&& gw.may_reply(
                text_or_empty(s.mail_from),
                text_or_empty(s.rcpt_to),
                s.data,
                s.now,
                spf_of(s),
                a.message,
                after.delivery,
            )
            &&& after == (InboundGateway { delivery: after.delivery, ..gw })
        } else {
            after == gw
        }
    } else {
        let (verb, rest) = command(text::lossy(line));
        &&& match named_sender(s, line) {
            Some(addr) => {
                &&& A::decides(gw.abuse, s.peer_ip, addr, a.abuse, after.abuse)
                &&& after == (InboundGateway { abuse: after.abuse, ..gw })
                &&& a.abuse is Accept ==> gw.may_evaluate_spf(s.peer_ip, addr, s.helo, a.spf)
            },
            None => after == gw,
        }
        &&& verb == "RCPT"@ && s.mail_from is Some && to_argument(rest) is Some
            && inbound::domain_part(to_argument(rest)->0) is Some ==> gw.directory.may_resolve(
            to_argument(rest)->0,
            a.recipient,
        )
    }
}

// ---- the conversation --------------------------------------------------------------------------

struct Command {
    verb: Vec<char>,
    rest: Vec<char>,
}

fn read_command(line: &[char]) -> (r: Command)
    ensures
        (r.verb@, r.rest@) == command(line@),
{
    match text::cut_first(line, ' ') {
        Some((v, t)) => Command {
            verb: text::to_upper(v),
            rest: vstd::slice::slice_to_vec(text::trimmed(t)),
        },
        None => {
            let r = Command { verb: text::to_upper(text::trimmed(line)), rest: Vec::new() };
            assert(r.rest@ =~= Seq::<char>::empty());
            r
        },
    }
}

fn argument_after<'a>(s: &'a [char], a: &str, b: &str) -> (r: Option<&'a [char]>)
    ensures
        text::slice_view(r) == after_either(s@, a@, b@),
{
    match text::after_prefix(s, a) {
        Some(t) => Some(t),
        None => text::after_prefix(s, b),
    }
}

impl MxSession {
    /// A conversation with a peer that begins at the given time.
    pub fn new(peer_ip: &str, now: u64) -> (r: Self)
        ensures
            r@ == (SessionModel {
                peer_ip: peer_ip@,
                now,
                in_data: false,
                helo: None,
                mail_from: None,
                rcpt_to: None,
                data: Seq::empty(),
                size_exceeded: false,
                spf: None,
            }),
    {
        let r = MxSession {
            peer_ip: text::string_from(peer_ip),
            now,
            in_data: false,
            helo: None,
            mail_from: None,
            rcpt_to: None,
            data: Vec::new(),
            size_exceeded: false,
            spf_outcome: None,
        };
        assert(r@.data =~= Seq::<u8>::empty());
        r
    }

    /// What the peer is told first.
    pub fn greeting(&self) -> (r: SmtpReply)
        ensures
            r@ == smtp::reply(220, "envoir-gateway DMTAP MX ready"@),
    {
        SmtpReply::new(220, "envoir-gateway DMTAP MX ready")
    }

    /// The address of the peer.
    pub fn peer_ip(&self) -> (r: &str)
        ensures
            r@ == self@.peer_ip,
    {
        self.peer_ip.as_str()
    }

    /// When the conversation began.
    pub fn now(&self) -> (r: u64)
        ensures
            r == self@.now,
    {
        self.now
    }

    /// Whether the lines are those of a message.
    pub fn in_data(&self) -> (r: bool)
        ensures
            r == self@.in_data,
    {
        self.in_data
    }

    /// Forgets the transaction. The greeting is remembered.
    fn reset_transaction(&mut self)
        ensures
            final(self)@ == reset(old(self)@),
    {
        self.mail_from = None;
        self.rcpt_to = None;
        self.data = Vec::new();
        self.size_exceeded = false;
        self.spf_outcome = None;
        assert(self@ =~= reset(old(self)@));
    }

    /// A greeting.
    fn cmd_helo(&mut self, rest: &[char]) -> (r: SmtpReply)
        ensures
            (final(self)@, r@) == greeted(old(self)@, rest@),
    {
        let arg = text::trimmed(rest);
        self.helo = if arg.len() == 0 {
            None
        } else {
            Some(text::string_of(arg))
        };
        SmtpReply::new(250, "envoir-gateway at your service")
    }

    /// Takes the sender of a transaction, given what was decided about it.
    pub fn take_sender(
        &mut self,
        policy: SpfPolicy,
        rest: &[char],
        decision: AbuseDecision,
        spf: SpfOutcome,
    ) -> (r: SmtpReply)
        ensures
            (final(self)@, r@) == after_mail(old(self)@, policy, rest@, decision@, spf),
    {
        let addr = match argument_after(rest, "FROM:", "from:") {
            Some(a) => text::trimmed(a),
            None => {
                return SmtpReply::new(501, "5.5.4 syntax: MAIL FROM:<address>");
            },
        };
        match decision {
            AbuseDecision::Reject { code, reason } => {
                return SmtpReply { code, text: reason };
            },
            AbuseDecision::Accept => {},
        }
        if policy == SpfPolicy::Enforce {
            match spf.result {
                inbound::SpfResult::Fail => {
                    return SmtpReply::new(
                        550,
                        "5.7.23 SPF hard fail (RFC 7208): sender IP not authorized for this domain",
                    );
                },
                inbound::SpfResult::TempError => {
                    return SmtpReply::new(
                        451,
                        "4.4.3 SPF temporary DNS error evaluating sender policy, please retry",
                    );
                },
                _ => {},
            }
        }
        self.mail_from = Some(text::string_of(addr));
        self.spf_outcome = Some(spf);
        SmtpReply::new(250, "2.1.0 sender ok")
    }

    /// A `MAIL` command: the sender is checked before it is taken.
    fn cmd_mail<
        D: KeyDirectory,
        M: MeshDelivery,
        A: AntiAbuse,
        K: DkimKeyResolver,
        S: SpfEvaluator,
        R: DmarcEvaluator,
    >(&mut self, gw: &mut InboundGateway<D, M, A, K, S, R>, rest: &[char]) -> (r: SmtpReply)
        ensures
            exists|d: abuse::AbuseModel, o: SpfOutcome|
                {
                    &&& (final(self)@, r@) == #[trigger] after_mail(
                        old(self)@,
                        old(gw).spf_policy,
                        rest@,
                        d,
                        o,
                    )
                    &&& match from_argument(rest@) {
                        Some(addr) => {
                            &&& A::decides(
                                old(gw).abuse,
                                old(self)@.peer_ip,
                                addr,
                                d,
                                final(gw).abuse,
                            )
                            &&& d is Accept ==> old(gw).may_evaluate_spf(
                                old(self)@.peer_ip,
                                addr,
                                old(self)@.helo,
                                o,
                            )
                        },
                        None => final(gw).abuse == old(gw).abuse,
                    }
                },
            *final(gw) == (InboundGateway { abuse: final(gw).abuse, ..*old(gw) }),
    {
        let unevaluated = SpfOutcome::unevaluated();
        let ghost s = self@;
        let addr = match argument_after(rest, "FROM:", "from:") {
            Some(a) => text::string_of(text::trimmed(a)),
            None => {
                let r = self.take_sender(gw.spf_policy, rest, AbuseDecision::Accept, unevaluated);
                assert((self@, r@) == after_mail(
                    s,
                    old(gw).spf_policy,
                    rest@,
                    abuse::AbuseModel::Accept,
                    unevaluated,
                ));
                return r;
            },
        };
        let decision = gw.abuse.check(self.peer_ip.as_str(), addr.as_str());
        let ghost dv = decision@;
        let spf = match &decision {
            AbuseDecision::Reject { .. } => unevaluated,
            AbuseDecision::Accept => {
                let helo: Option<&str> = match &self.helo {
                    Some(h) => Some(h.as_str()),
                    None => None,
                };
                gw.evaluate_spf(self.peer_ip.as_str(), addr.as_str(), helo)
            },
        };
        assert(dv is Accept ==> old(gw).may_evaluate_spf(s.peer_ip, addr@, s.helo, spf));
        let r = self.take_sender(gw.spf_policy, rest, decision, spf);
        assert((self@, r@) == after_mail(s, old(gw).spf_policy, rest@, dv, spf));
        r
    }

    /// A `RCPT` command: the recipient is looked up before it is taken.
    fn cmd_rcpt<
        D: KeyDirectory,
        M: MeshDelivery,
        A: AntiAbuse,
        K: DkimKeyResolver,
        S: SpfEvaluator,
        R: DmarcEvaluator,
    >(&mut self, gw: &InboundGateway<D, M, A, K, S, R>, rest: &[char]) -> (r: SmtpReply)
        ensures
            exists|k: Option<directory::RecipientModel>|
                {
                    &&& (final(self)@, r@) == #[trigger] after_rcpt(
                        old(self)@,
                        gw.keys(),
                        rest@,
                        k,
                    )
                    &&& old(self)@.mail_from is Some && to_argument(rest@) is Some
                        && inbound::domain_part(to_argument(rest@)->0) is Some
                        ==> gw.directory.may_resolve(to_argument(rest@)->0, k)
                },
    {
        let ghost s = self@;
        if self.mail_from.is_none() {
            assert(after_rcpt(s, gw.keys(), rest@, None).0 == s);
            return SmtpReply::new(503, "5.5.1 need MAIL before RCPT");
        }
        let addr = match argument_after(rest, "TO:", "to:") {
            Some(a) => text::string_of(
                text::drop_char(text::skip_char(text::trimmed(a), '<'), '>'),
            ),
            None => {
                assert(after_rcpt(s, gw.keys(), rest@, None).0 == s);
                return SmtpReply::new(501, "5.5.4 syntax: RCPT TO:<address>");
            },
        };
        let refusal = gw.rcpt_acceptable(addr.as_str());
        let ghost k = choose|k: Option<directory::RecipientModel>|
            {
                &&& inbound::domain_part(addr@) is Some ==> gw.directory.may_resolve(addr@, k)
                &&& model::opt_view(refusal) == #[trigger] inbound::rcpt_refusal(
                    gw.keys(),
                    addr@,
                    k,
                )
            };
        assert(to_argument(rest@) == Some(addr@));
        match refusal {
            Some(r) => {
                assert((s, r@) == after_rcpt(s, gw.keys(), rest@, k));
                r
            },
            None => {
                let ghost av = addr@;
                self.rcpt_to = Some(addr);
                assert(self@ =~= SessionModel { rcpt_to: Some(av), ..s });
                let r = SmtpReply::new(250, "2.1.5 recipient ok");
                assert((self@, r@) == after_rcpt(s, gw.keys(), rest@, k));
                r
            },
        }
    }

    /// A `DATA` command.
    fn cmd_data(&mut self) -> (r: SmtpReply)
        ensures
            (final(self)@, r@) == after_data(old(self)@),
    {
        if self.mail_from.is_none() || self.rcpt_to.is_none() {
            return SmtpReply::new(503, "5.5.1 need MAIL and RCPT before DATA");
        }
        self.in_data = true;
        SmtpReply::new(354, "start mail input; end with <CRLF>.<CRLF>")
    }

    /// Takes one line of a message that does not end it.
    fn take_data_line(&mut self, max: usize, line: &[u8])
        requires
            !ends_message(line@),
        ensures
            forall|m: smtp::ReplyModel|
                (#[trigger] after_data_line(old(self)@, max as nat, line@, m)).0 == final(self)@,
    {
        let n: usize = line.len();
        let l: &[u8] = if n > 0 && line[0] == 46 {
            let t = slice_subrange(line, 1, n);
            assert(t@ =~= line@.skip(1));
            t
        } else {
            line
        };
        assert(l@ == unstuffed(line@));
        if !self.size_exceeded {
            let have: usize = self.data.len();
            let k: usize = l.len();
            if have > max || max - have < 2 || k > max - have - 2 {
                self.size_exceeded = true;
                self.data = Vec::new();
                assert(self.data@ =~= Seq::<u8>::empty());
            } else {
                bytes::push_all(&mut self.data, l);
                self.data.push(13);
                self.data.push(10);
                assert(self.data@ =~= old(self)@.data + l@ + seq![13u8, 10u8]);
            }
        }
    }

    /// One line of a message.
    fn feed_data<
        D: KeyDirectory,
        M: MeshDelivery,
        A: AntiAbuse,
        K: DkimKeyResolver,
        S: SpfEvaluator,
        R: DmarcEvaluator,
    >(&mut self, gw: &mut InboundGateway<D, M, A, K, S, R>, line: &[u8]) -> (r: SmtpReply)
        requires
            old(self)@.in_data,
        ensures
            exists|m: smtp::ReplyModel|
                {
                    &&& (final(self)@, r@) == #[trigger] after_data_line(
                        old(self)@,
                        old(gw).max_message_bytes as nat,
                        line@,
                        m,
                    )
                    &&& delivers_message(old(self)@, line@) ==> old(gw).may_reply(
                        text_or_empty(old(self)@.mail_from),
                        text_or_empty(old(self)@.rcpt_to),
                        old(self)@.data,
                        old(self)@.now,
                        spf_of(old(self)@),
                        m,
                        final(gw).delivery,
                    )
                },
            *final(gw) == (InboundGateway { delivery: final(gw).delivery, ..*old(gw) }),
            !delivers_message(old(self)@, line@) ==> *final(gw) == *old(gw),
    {
        let ghost s = self@;
        let ghost max = gw.max_message_bytes as nat;
        if line.len() == 1 && line[0] == 46 {
            assert(line@ =~= seq![46u8]);
            if self.size_exceeded {
                self.in_data = false;
                self.reset_transaction();
                let r = SmtpReply::new(
                    552,
                    "5.3.4 message size exceeds fixed maximum message size",
                );
                assert((self@, r@) == after_data_line(s, max, line@, r@));
                return r;
            }
            let mut mail_from = String::new();
            let mut rcpt_to = String::new();
            assert(mail_from@ =~= Seq::<char>::empty());
            assert(rcpt_to@ =~= Seq::<char>::empty());
            if let Some(a) = &self.mail_from {
                mail_from = a.clone();
            }
            if let Some(a) = &self.rcpt_to {
                rcpt_to = a.clone();
            }
            let spf: Option<SpfOutcome> = self.spf_outcome;
            let reply = match &spf {
                Some(o) => gw.accept_message_with_spf(
                    mail_from.as_str(),
                    rcpt_to.as_str(),
                    self.data.as_slice(),
                    self.now,
                    Some(o),
                ),
                None => gw.accept_message_with_spf(
                    mail_from.as_str(),
                    rcpt_to.as_str(),
                    self.data.as_slice(),
                    self.now,
                    None,
                ),
            };
            self.in_data = false;
            self.reset_transaction();
            assert((self@, reply@) == after_data_line(s, max, line@, reply@));
            return reply;
        }
        assert(!ends_message(line@)) by {
            if ends_message(line@) {
                assert(line@.len() == 1 && line@[0] == 46);
            }
        }
        self.take_data_line(gw.max_message_bytes, line);
        let r = SmtpReply::new(0, "");
        assert((self@, r@) == after_data_line(s, max, line@, r@));
        r
    }

    /// Takes one line, without its line end, and answers it. During a message every line but the
    /// last is answered with the code 0, which is not sent.
    pub fn feed_line_bytes<
        D: KeyDirectory,
        M: MeshDelivery,
        A: AntiAbuse,
        K: DkimKeyResolver,
        S: SpfEvaluator,
        R: DmarcEvaluator,
    >(&mut self, gw: &mut InboundGateway<D, M, A, K, S, R>, line: &[u8]) -> (r: SmtpReply)
        ensures
            exists|a: LineAnswers| #[trigger]
                may_answer_line(*old(gw), old(self)@, line@, a, *final(gw)) && (final(self)@, r@)
                    == session_step(
                    old(self)@,
                    old(gw).keys(),
                    old(gw).spf_policy,
                    old(gw).max_message_bytes as nat,
                    line@,
                    a,
                ),
    {
        let ghost s = self@;
        let ghost g = *gw;
        let ghost mut a = LineAnswers {
            abuse: abuse::AbuseModel::Accept,
            spf: SpfOutcome { result: inbound::SpfResult::NoPolicy },
            recipient: None,
            message: smtp::reply(0, ""@),
        };
        if self.in_data {
            let r = self.feed_data(gw, line);
            proof {
                let m = choose|m: smtp::ReplyModel|
                    {
                        &&& (self@, r@) == #[trigger] after_data_line(
                            s,
                            g.max_message_bytes as nat,
                            line@,
                            m,
                        )
                        &&& delivers_message(s, line@) ==> g.may_reply(
                            text_or_empty(s.mail_from),
                            text_or_empty(s.rcpt_to),
                            s.data,
                            s.now,
                            spf_of(s),
                            m,
                            gw.delivery,
                        )
                    };
                a = LineAnswers { message: m, ..a };
                assert(may_answer_line(g, s, line@, a, *gw));
            }
            return r;
        }
        let t = text::from_utf8_lossy(line);
        let c = text::chars_of(t.as_str());
        let cmd = read_command(c.as_slice());
        let verb = cmd.verb.as_slice();
        let rest = cmd.rest.as_slice();
        let mail = text::is_text(verb, "MAIL");
        let rcpt = text::is_text(verb, "RCPT");
        if !mail && !rcpt {
            assert(may_answer_line(g, s, line@, a, *gw));
        }
        if text::is_text(verb, "HELO") || text::is_text(verb, "EHLO") {
            proof {
                reveal_strlit("HELO");
                reveal_strlit("EHLO");
                reveal_strlit("MAIL");
                reveal_strlit("RCPT");
                assert("HELO"@[0] != "MAIL"@[0] && "HELO"@[0] != "RCPT"@[0]);
                assert("EHLO"@[0] != "MAIL"@[0] && "EHLO"@[0] != "RCPT"@[0]);
            }
            self.cmd_helo(rest)
        } else if mail {
            let r = self.cmd_mail(gw, rest);
            proof {
                let (d, o) = choose|d: abuse::AbuseModel, o: SpfOutcome|
                    {
                        &&& (self@, r@) == #[trigger] after_mail(s, g.spf_policy, rest@, d, o)
                        &&& match from_argument(rest@) {
                            Some(addr) => {
                                &&& A::decides(g.abuse, s.peer_ip, addr, d, gw.abuse)
                                &&& d is Accept ==> g.may_evaluate_spf(s.peer_ip, addr, s.helo, o)
                            },
                            None => gw.abuse == g.abuse,
                        }
                    };
                a = LineAnswers { abuse: d, spf: o, ..a };
                reveal_strlit("MAIL");
                reveal_strlit("RCPT");
                assert("MAIL"@[0] != "RCPT"@[0]);
                assert(may_answer_line(g, s, line@, a, *gw));
            }
            r
        } else if rcpt {
            let r = self.cmd_rcpt(gw, rest);
            proof {
                let k = choose|k: Option<directory::RecipientModel>|
                    {
                        &&& (self@, r@) == #[trigger] after_rcpt(s, g.keys(), rest@, k)
                        &&& s.mail_from is Some && to_argument(rest@) is Some
                            && inbound::domain_part(to_argument(rest@)->0) is Some
                            ==> g.directory.may_resolve(to_argument(rest@)->0, k)
                    };
                a = LineAnswers { recipient: k, ..a };
                assert(may_answer_line(g, s, line@, a, *gw));
            }
            r
        } else if text::is_text(verb, "DATA") {
            self.cmd_data()
        } else if text::is_text(verb, "RSET") {
            self.reset_transaction();
            SmtpReply::new(250, "2.0.0 flushed")
        } else if text::is_text(verb, "NOOP") {
            SmtpReply::new(250, "2.0.0 ok")
        } else if text::is_text(verb, "QUIT") {
            SmtpReply::new(221, "2.0.0 bye")
        } else {
            SmtpReply::new(502, "5.5.1 command not implemented")
        }
    }

    /// Takes one line of text.
    pub fn feed_line<
        D: KeyDirectory,
        M: MeshDelivery,
        A: AntiAbuse,
        K: DkimKeyResolver,
        S: SpfEvaluator,
        R: DmarcEvaluator,
    >(&mut self, gw: &mut InboundGateway<D, M, A, K, S, R>, line: &str) -> (r: SmtpReply)
        ensures
            exists|a: LineAnswers| #[trigger]
                may_answer_line(
                    *old(gw),
                    old(self)@,
                    vstd::utf8::encode_utf8(line@),
                    a,
                    *final(gw),
                ) && (final(self)@, r@) == session_step(
                    old(self)@,
                    old(gw).keys(),
                    old(gw).spf_policy,
                    old(gw).max_message_bytes as nat,
                    vstd::utf8::encode_utf8(line@),
                    a,
                ),
    {
        self.feed_line_bytes(gw, line.as_bytes())
    }
}

// ---- laws --------------------------------------------------------------------------------------

/// A line delivers at most one message, and only the end of a message that is not too large does; a
/// line is checked for abuse at most once, and only one that names a sender is. Whatever else a line
/// says, it leaves the gateway as it was.
pub proof fn law_a_line_makes_at_most_one_step<
    D: KeyDirectory,
    M: MeshDelivery,
    A: AntiAbuse,
    K: DkimKeyResolver,
    S: SpfEvaluator,
    R: DmarcEvaluator,
>(
    gw: InboundGateway<D, M, A, K, S, R>,
    s: SessionModel,
    line: Seq<u8>,
    a: LineAnswers,
    after: InboundGateway<D, M, A, K, S, R>,
)
    requires
        may_answer_line(gw, s, line, a, after),
    ensures
        after.delivery != gw.delivery ==> delivers_message(s, line) && after.abuse == gw.abuse,
        after.abuse != gw.abuse ==> named_sender(s, line) is Some && after.delivery == gw.delivery,
        named_sender(s, line) matches Some(addr) ==> A::decides(
            gw.abuse,
            s.peer_ip,
            addr,
            a.abuse,
            after.abuse,
        ),
        !delivers_message(s, line) && named_sender(s, line) is None ==> after == gw,
        s.size_exceeded && s.in_data ==> after == gw,
{
}

/// What a sender puts in front of a line of a message that begins with a dot: another dot.
pub open spec fn stuffed(line: Seq<u8>) -> Seq<u8> {
    if line.len() > 0 && line[0] == 46 {
        seq![46u8] + line
    } else {
        line
    }
}

/// A line that was stuffed is unstuffed to what it was, and never ends the message.
pub proof fn law_stuffing_is_undone(line: Seq<u8>)
    ensures
        unstuffed(stuffed(line)) == line,
        !ends_message(stuffed(line)),
{
    if line.len() > 0 && line[0] == 46 {
        assert((seq![46u8] + line).skip(1) =~= line);
        assert(stuffed(line).len() >= 2);
    } else if line.len() == 1 {
        assert(line[0] != 46);
    }
}

/// The octets of a message with the given lines.
pub open spec fn message_of(lines: Seq<Seq<u8>>) -> Seq<u8>
    decreases lines.len(),
{
    if lines.len() == 0 {
        Seq::empty()
    } else {
        message_of(lines.drop_last()) + lines.last() + seq![13u8, 10u8]
    }
}

/// The conversation after the stuffed lines of a message.
pub open spec fn fed(s: SessionModel, max: nat, lines: Seq<Seq<u8>>) -> SessionModel
    decreases lines.len(),
{
    if lines.len() == 0 {
        s
    } else {
        after_data_line(
            fed(s, max, lines.drop_last()),
            max,
            stuffed(lines.last()),
            smtp::reply(0, ""@),
        ).0
    }
}

/// What a peer sends as a message is what is wrapped: the stuffed lines of a message that is not
/// too large are put together octet for octet, and one that is too large is not kept at all.
pub proof fn law_message_is_kept_exactly(s: SessionModel, max: nat, lines: Seq<Seq<u8>>)
    requires
        s.in_data,
        s.data.len() == 0,
        !s.size_exceeded,
    ensures
        fed(s, max, lines) == (if message_of(lines).len() <= max {
            SessionModel { data: message_of(lines), ..s }
        } else {
            SessionModel { size_exceeded: true, data: Seq::empty(), ..s }
        }),
    decreases lines.len(),
{
    if lines.len() == 0 {
        assert(s.data =~= Seq::<u8>::empty());
        assert(s =~= SessionModel { data: message_of(lines), ..s });
    } else {
        law_message_is_kept_exactly(s, max, lines.drop_last());
        law_stuffing_is_undone(lines.last());
    }
}

/// A conversation never holds more of a message than a message may have.
pub proof fn law_data_is_bounded(
    s: SessionModel,
    keys: Seq<crate::attestation::AttestationKeyModel>,
    policy: SpfPolicy,
    max: nat,
    line: Seq<u8>,
    a: LineAnswers,
)
    requires
        s.data.len() <= max,
    ensures
        session_step(s, keys, policy, max, line, a).0.data.len() <= max,
{
}

/// A message is read only after a sender and a recipient have been taken.
pub proof fn law_envelope_before_data(
    s: SessionModel,
    keys: Seq<crate::attestation::AttestationKeyModel>,
    policy: SpfPolicy,
    max: nat,
    line: Seq<u8>,
    a: LineAnswers,
)
    requires
        s.in_data ==> s.mail_from is Some && s.rcpt_to is Some,
    ensures
        ({
            let t = session_step(s, keys, policy, max, line, a).0;
            t.in_data ==> t.mail_from is Some && t.rcpt_to is Some
        }),
{
}

/// Nothing of a transaction is left after its message.
pub proof fn law_nothing_survives_a_message(
    s: SessionModel,
    keys: Seq<crate::attestation::AttestationKeyModel>,
    policy: SpfPolicy,
    max: nat,
    a: LineAnswers,
)
    requires
        s.in_data,
    ensures
        session_step(s, keys, policy, max, seq![46u8], a).0 == (SessionModel {
            peer_ip: s.peer_ip,
            now: s.now,
            in_data: false,
            helo: s.helo,
            mail_from: None,
            rcpt_to: None,
            data: Seq::empty(),
            size_exceeded: false,
            spf: None,
        }),
{
}

/// A message that has become too large is refused, whatever the gateway would have said.
pub proof fn law_too_large_is_refused(
    s: SessionModel,
    keys: Seq<crate::attestation::AttestationKeyModel>,
    policy: SpfPolicy,
    max: nat,
    a: LineAnswers,
)
    requires
        s.in_data,
        s.size_exceeded,
    ensures
        session_step(s, keys, policy, max, seq![46u8], a).1.code == 552,
{
}

/// What a `MAIL` command comes to: a sender that the gateway takes, and whose SPF result is no failure
/// and no temporary error where that is enforced, is taken and told so with 250; every other one is
/// refused and leaves the conversation as it was.
pub proof fn law_sender_is_taken_or_refused(
    s: SessionModel,
    policy: SpfPolicy,
    rest: Seq<char>,
    addr: Seq<char>,
    decision: abuse::AbuseModel,
    spf: SpfOutcome,
)
    requires
        rest == "FROM:"@ + addr || rest == "from:"@ + addr,
    ensures
        ({
            let (t, r) = after_mail(s, policy, rest, decision, spf);
            let failed = spf.result == inbound::SpfResult::Fail;
            let unsure = spf.result == inbound::SpfResult::TempError;
            &&& decision is Accept && (policy == SpfPolicy::Annotate || !failed && !unsure) ==> r.code
                == 250 && t == (SessionModel {
                mail_from: Some(text::trim(addr)),
                spf: Some(spf),
                ..s
            })
            &&& decision is Accept && policy == SpfPolicy::Enforce && failed ==> r.code == 550 && t
                == s
            &&& decision is Accept && policy == SpfPolicy::Enforce && unsure ==> r.code == 451 && t
                == s
            &&& decision matches abuse::AbuseModel::Reject { code, reason } ==> r.code == code
                && r.text == reason && t == s
        }),
{
    reveal_strlit("FROM:");
    reveal_strlit("from:");
    if rest == "FROM:"@ + addr {
        assert(rest.skip(5) =~= addr);
        assert("FROM:"@.is_prefix_of(rest));
    } else {
        assert(rest.skip(5) =~= addr);
        assert(rest[0] == 'f');
        assert(!"FROM:"@.is_prefix_of(rest));
        assert("from:"@.is_prefix_of(rest));
    }
}

proof fn lemma_command(verb: Seq<char>, rest: Seq<char>)
    requires
        !verb.contains(' '),
        rest.len() > 0 ==> !text::is_white(rest[0]) && !text::is_white(rest.last()),
        verb.len() > 0 ==> !text::is_white(verb[0]) && !text::is_white(verb.last()),
    ensures
        command(verb + seq![' '] + rest) == (text::upper(verb), rest),
        command(verb) == (text::upper(verb), Seq::<char>::empty()),
{
    text::law_cut_at_the_first(verb, ' ', rest);
    text::lemma_nothing_to_trim(rest);
    text::lemma_nothing_to_trim(verb);
}

/// A line that begins with `MAIL FROM:` names the sender behind it; with any other case of `MAIL` too.
/// What comes of it depends on the sender alone: one that is taken is remembered with its SPF result
/// and answered 250, one that is refused is not.
pub proof fn law_mail_line(
    s: SessionModel,
    keys: Seq<crate::attestation::AttestationKeyModel>,
    policy: SpfPolicy,
    max: nat,
    verb: Seq<char>,
    addr: Seq<char>,
    a: LineAnswers,
)
    requires
        !s.in_data,
        text::upper(verb) == "MAIL"@,
        addr.len() > 0 && !text::is_white(addr[0]) && !text::is_white(addr.last()),
    ensures
        ({
            let line = vstd::utf8::encode_utf8(verb + seq![' '] + ("FROM:"@ + addr));
            let (t, r) = session_step(s, keys, policy, max, line, a);
            let bad = policy == SpfPolicy::Enforce && a.spf.result == inbound::SpfResult::Fail;
            let unsure = policy == SpfPolicy::Enforce && a.spf.result
                == inbound::SpfResult::TempError;
            &&& named_sender(s, line) == Some(addr)
            &&& a.abuse is Accept && !bad && !unsure ==> r.code == 250 && t == (SessionModel {
                mail_from: Some(addr),
                spf: Some(a.spf),
                ..s
            })
            &&& a.abuse is Accept && bad ==> r.code == 550 && t == s
            &&& a.abuse is Accept && unsure ==> r.code == 451 && t == s
            &&& a.abuse matches abuse::AbuseModel::Reject { code, reason } ==> r.code == code
                && r.text == reason && t == s
        }),
{
    let rest = "FROM:"@ + addr;
    reveal_strlit("FROM:");
    reveal_strlit("MAIL");
    lemma_verbs();
    lemma_letters_of(verb, "MAIL"@);
    assert(rest[0] == 'F');
    assert(rest.last() == addr.last());
    lemma_command(verb, rest);
    text::lemma_lossy_of_text(verb + seq![' '] + rest);
    law_sender_is_taken_or_refused(s, policy, rest, addr, a.abuse, a.spf);
    text::lemma_nothing_to_trim(addr);
    assert(rest.skip(5) =~= addr);
    assert("FROM:"@.is_prefix_of(rest));
}

/// A word is made of letters where it is one in capitals.
proof fn lemma_letters_of(verb: Seq<char>, word: Seq<char>)
    requires
        text::upper(verb) == word,
        word.len() > 0,
        forall|i: int| 0 <= i < word.len() ==> 'A' <= #[trigger] word[i] && word[i] <= 'Z',
    ensures
        !verb.contains(' '),
        verb.len() == word.len(),
        !text::is_white(verb[0]),
        !text::is_white(verb.last()),
{
    assert(verb.len() == text::upper(verb).len());
    assert forall|i: int| 0 <= i < verb.len() implies !text::is_white(#[trigger] verb[i]) && verb[i]
        != ' ' by {
        assert(text::upper(verb)[i] == word[i]);
        assert('A' <= word[i] && word[i] <= 'Z');
        assert(text::upper_char(verb[i]) == word[i]);
    }
    assert(!text::is_white(verb[verb.len() - 1]));
}

proof fn lemma_verbs()
    ensures
        "MAIL"@ != "HELO"@ && "MAIL"@ != "EHLO"@,
        "RCPT"@ != "HELO"@ && "RCPT"@ != "EHLO"@ && "RCPT"@ != "MAIL"@,
        "DATA"@ != "HELO"@ && "DATA"@ != "EHLO"@ && "DATA"@ != "MAIL"@ && "DATA"@ != "RCPT"@,
        "RSET"@ != "HELO"@ && "RSET"@ != "EHLO"@ && "RSET"@ != "MAIL"@ && "RSET"@ != "RCPT"@ && "RSET"@
            != "DATA"@,
        "NOOP"@ != "HELO"@ && "NOOP"@ != "EHLO"@ && "NOOP"@ != "MAIL"@ && "NOOP"@ != "RCPT"@ && "NOOP"@
            != "DATA"@ && "NOOP"@ != "RSET"@,
        "QUIT"@ != "HELO"@ && "QUIT"@ != "EHLO"@ && "QUIT"@ != "MAIL"@ && "QUIT"@ != "RCPT"@ && "QUIT"@
            != "DATA"@ && "QUIT"@ != "RSET"@ && "QUIT"@ != "NOOP"@,
{
    reveal_strlit("HELO");
    reveal_strlit("EHLO");
    reveal_strlit("MAIL");
    reveal_strlit("RCPT");
    reveal_strlit("DATA");
    reveal_strlit("RSET");
    reveal_strlit("NOOP");
    reveal_strlit("QUIT");
    assert("HELO"@[0] == 'H' && "EHLO"@[0] == 'E' && "MAIL"@[0] == 'M' && "DATA"@[0] == 'D' && "NOOP"@[0]
        == 'N' && "QUIT"@[0] == 'Q');
    assert("RCPT"@[0] == 'R' && "RCPT"@[1] == 'C' && "RSET"@[0] == 'R' && "RSET"@[1] == 'S');
}

/// A line that begins with `RCPT TO:` names the recipient behind it. It is taken exactly if a sender
/// was, the address has a domain that the gateway has a key for, and the address is somebody's; what
/// is remembered is the address without its angle brackets.
pub proof fn law_rcpt_line(
    s: SessionModel,
    keys: Seq<crate::attestation::AttestationKeyModel>,
    policy: SpfPolicy,
    max: nat,
    verb: Seq<char>,
    addr: Seq<char>,
    a: LineAnswers,
)
    requires
        !s.in_data,
        text::upper(verb) == "RCPT"@,
        addr.len() > 0 && !text::is_white(addr[0]) && !text::is_white(addr.last()),
    ensures
        ({
            let line = vstd::utf8::encode_utf8(verb + seq![' '] + ("TO:"@ + addr));
            let (t, r) = session_step(s, keys, policy, max, line, a);
            let bare = inbound::bare_address(addr);
            let d = inbound::domain_part(bare);
            let known = a.recipient is Some;
            let keyed = inbound::key_for(keys, d->0) is Some;
            &&& s.mail_from is None ==> r.code == 503 && t == s
            &&& s.mail_from is Some && d is None ==> r.code == 501 && t == s
            &&& s.mail_from is Some && d is Some && !known ==> r.code == 550 && t == s
            &&& s.mail_from is Some && d is Some && known && !keyed ==> r.code == 451 && t == s
            &&& s.mail_from is Some && d is Some && known && keyed ==> r.code == 250 && t == (
            SessionModel { rcpt_to: Some(bare), ..s })
        }),
{
    let rest = "TO:"@ + addr;
    reveal_strlit("TO:");
    reveal_strlit("to:");
    reveal_strlit("RCPT");
    lemma_verbs();
    lemma_letters_of(verb, "RCPT"@);
    assert(rest[0] == 'T');
    assert(rest.last() == addr.last());
    lemma_command(verb, rest);
    text::lemma_lossy_of_text(verb + seq![' '] + rest);
    assert(rest.skip(3) =~= addr);
    assert("TO:"@.is_prefix_of(rest));
}

/// What the other commands do: a message may begin once there is a sender and a recipient; the
/// transaction may be given up; and the rest leaves everything as it is.
pub proof fn law_other_command_lines(
    s: SessionModel,
    keys: Seq<crate::attestation::AttestationKeyModel>,
    policy: SpfPolicy,
    max: nat,
    verb: Seq<char>,
    a: LineAnswers,
)
    requires
        !s.in_data,
        verb.len() > 0 && !verb.contains(' '),
        !text::is_white(verb[0]) && !text::is_white(verb.last()),
    ensures
        ({
            let v = text::upper(verb);
            let (t, r) = session_step(s, keys, policy, max, vstd::utf8::encode_utf8(verb), a);
            let ready = s.mail_from is Some && s.rcpt_to is Some;
            &&& v == "DATA"@ && ready ==> r.code == 354 && t == (SessionModel { in_data: true, ..s })
            &&& v == "DATA"@ && !ready ==> r.code == 503 && t == s
            &&& v == "RSET"@ ==> r.code == 250 && t == (SessionModel {
                mail_from: None,
                rcpt_to: None,
                data: Seq::empty(),
                size_exceeded: false,
                spf: None,
                ..s
            })
            &&& v == "NOOP"@ ==> r.code == 250 && t == s
            &&& v == "QUIT"@ ==> r.code == 221 && t == s
            &&& v == "MAIL"@ ==> r.code == 501 && t == s
            &&& v != "HELO"@ && v != "EHLO"@ && v != "MAIL"@ && v != "RCPT"@ && v != "DATA"@ && v
                != "RSET"@ && v != "NOOP"@ && v != "QUIT"@ ==> r.code == 502 && t == s
        }),
{
    reveal_strlit("FROM:");
    reveal_strlit("from:");
    lemma_verbs();
    lemma_command(verb, Seq::<char>::empty());
    text::lemma_lossy_of_text(verb);
}

/// A greeting is answered 250, and the name in it is remembered; the transaction stays as it is.
pub proof fn law_greeting_line(
    s: SessionModel,
    keys: Seq<crate::attestation::AttestationKeyModel>,
    policy: SpfPolicy,
    max: nat,
    verb: Seq<char>,
    name: Seq<char>,
    a: LineAnswers,
)
    requires
        !s.in_data,
        text::upper(verb) == "HELO"@ || text::upper(verb) == "EHLO"@,
        name.len() > 0 && !text::is_white(name[0]) && !text::is_white(name.last()),
    ensures
        ({
            let line = vstd::utf8::encode_utf8(verb + seq![' '] + name);
            let (t, r) = session_step(s, keys, policy, max, line, a);
            r.code == 250 && t == (SessionModel { helo: Some(name), ..s })
        }),
{
    reveal_strlit("HELO");
    reveal_strlit("EHLO");
    lemma_letters_of(verb, text::upper(verb));
    lemma_command(verb, name);
    text::lemma_lossy_of_text(verb + seq![' '] + name);
    text::lemma_nothing_to_trim(name);
}

/// The end of a message is a line with a single dot, and nothing else is; it is answered with what the
/// gateway says of the message, or with 552 where the message was too large. Every other line of a
/// message is not answered.
pub proof fn law_message_lines(
    s: SessionModel,
    keys: Seq<crate::attestation::AttestationKeyModel>,
    policy: SpfPolicy,
    max: nat,
    line: Seq<u8>,
    a: LineAnswers,
)
    requires
        s.in_data,
    ensures
        ({
            let (t, r) = session_step(s, keys, policy, max, line, a);
            let ends = line.len() == 1 && line[0] == 46;
            &&& ends ==> !t.in_data && t.mail_from is None && t.rcpt_to is None && t.data.len() == 0
                && !t.size_exceeded && t.spf is None && t.helo == s.helo
            &&& ends && !s.size_exceeded ==> r == a.message
            &&& ends && s.size_exceeded ==> r.code == 552
            &&& !ends ==> r.code == 0 && t.in_data && t.mail_from == s.mail_from && t.rcpt_to
                == s.rcpt_to && t.spf == s.spf && t.helo == s.helo
            &&& !ends && !s.size_exceeded && line.len() > 0 && line[0] == 46 && s.data.len()
                + line.len() + 1 <= max ==> t.data == s.data + line.skip(1) + seq![13u8, 10u8]
            &&& !ends && !s.size_exceeded && (line.len() == 0 || line[0] != 46) && s.data.len()
                + line.len() + 2 <= max ==> t.data == s.data + line + seq![13u8, 10u8]
            &&& !ends && s.size_exceeded ==> t == s
            &&& !ends && !s.size_exceeded && line.len() > 0 && line[0] == 46 && s.data.len()
                + line.len() + 1 > max ==> t.size_exceeded && t.data.len() == 0
            &&& !ends && !s.size_exceeded && (line.len() == 0 || line[0] != 46) && s.data.len()
                + line.len() + 2 > max ==> t.size_exceeded && t.data.len() == 0
            &&& delivers_message(s, line) <==> ends && !s.size_exceeded
        }),
{
    if line.len() == 1 && line[0] == 46 {
        assert(line =~= seq![46u8]);
    }
}

/// The words of the replies to commands, each with the status that goes with its code.
pub proof fn law_words_of_the_replies(
    s: SessionModel,
    keys: Seq<crate::attestation::AttestationKeyModel>,
    policy: SpfPolicy,
    max: nat,
    line: Seq<u8>,
    a: LineAnswers,
    verb: Seq<char>,
    r: smtp::ReplyModel,
)
    requires
        !s.in_data,
        verb == command(text::lossy(line)).0,
        r == session_step(s, keys, policy, max, line, a).1,
    ensures
        verb == "HELO"@ || verb == "EHLO"@ ==> r.text == "envoir-gateway at your service"@,
        verb == "MAIL"@ && r.code == 250 && a.abuse is Accept ==> r.text == "2.1.0 sender ok"@,
        verb == "MAIL"@ && r.code == 501 && a.abuse is Accept ==> r.text
            == "5.5.4 syntax: MAIL FROM:<address>"@,
        verb == "RCPT"@ && r.code == 250 ==> r.text == "2.1.5 recipient ok"@,
        verb == "RCPT"@ && r.code == 503 ==> r.text == "5.5.1 need MAIL before RCPT"@,
        verb == "DATA"@ && r.code == 354 ==> r.text == "start mail input; end with <CRLF>.<CRLF>"@,
        verb == "DATA"@ && r.code == 503 ==> r.text == "5.5.1 need MAIL and RCPT before DATA"@,
        verb == "RSET"@ ==> r.code == 250 && r.text == "2.0.0 flushed"@,
        verb == "NOOP"@ ==> r.code == 250 && r.text == "2.0.0 ok"@,
        verb == "QUIT"@ ==> r.code == 221 && r.text == "2.0.0 bye"@,
        r.code == 502 && !(a.abuse is Reject) ==> r.text == "5.5.1 command not implemented"@,
{
    reveal_strlit("HELO");
    reveal_strlit("EHLO");
    reveal_strlit("MAIL");
    reveal_strlit("RCPT");
    reveal_strlit("DATA");
    reveal_strlit("RSET");
    reveal_strlit("NOOP");
    reveal_strlit("QUIT");
    assert("HELO"@[0] == 'H' && "EHLO"@[0] == 'E' && "MAIL"@[0] == 'M' && "DATA"@[0] == 'D'
        && "NOOP"@[0] == 'N' && "QUIT"@[0] == 'Q');
    assert("RCPT"@[0] == 'R' && "RSET"@[0] == 'R' && "RCPT"@[1] == 'C' && "RSET"@[1] == 'S');
}

/// A message that is too long is refused for good, in these words.
pub proof fn law_words_for_a_long_message(
    s: SessionModel,
    keys: Seq<crate::attestation::AttestationKeyModel>,
    policy: SpfPolicy,
    max: nat,
    a: LineAnswers,
)
    requires
        s.in_data,
        s.size_exceeded,
    ensures
        session_step(s, keys, policy, max, seq![46u8], a).1.code == 552,
        session_step(s, keys, policy, max, seq![46u8], a).1.text
            == "5.3.4 message size exceeds fixed maximum message size"@,
{
}

} // verus!
