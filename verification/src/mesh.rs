//! Delivery to the mesh over HTTP: the endpoint, the request, and what counts as an
//! acknowledgement.

use crate::attestation;
use crate::attestation::Attestation;
use crate::b64;
use crate::http;
use crate::inbound::{DeliveryOutcome, MeshDelivery};
use crate::model;
use crate::mote;
use crate::mote::SealedMote;
use crate::text;
use std::time::Duration;
use vstd::prelude::*;
use vstd::slice::slice_subrange;

verus! {

/// A mesh that takes nothing: every message stays with its sender.
#[derive(Debug, Clone, Copy)]
pub struct NullMesh;

impl MeshDelivery for NullMesh {
    open spec fn delivers(
        before: Self,
        mote: mote::MoteModel,
        att: attestation::AttestationModel,
        outcome: DeliveryOutcome,
        after: Self,
    ) -> bool {
        outcome == DeliveryOutcome::NoAck && after == before
    }

    fn deliver(&mut self, mote: &SealedMote, att: &Attestation) -> (r: DeliveryOutcome) {
        DeliveryOutcome::NoAck
    }
}

/// Why an endpoint cannot be used.
#[derive(Debug, Clone, PartialEq, Eq)]
pub enum MeshConfigError {
    UnsupportedScheme(String),
    MissingHost(String),
    BadPort(String),
}

/// [`MeshConfigError`] with its text as a sequence.
pub enum MeshConfigErrorModel {
    UnsupportedScheme(Seq<char>),
    MissingHost(Seq<char>),
    BadPort(Seq<char>),
}

impl View for MeshConfigError {
    type V = MeshConfigErrorModel;

    open spec fn view(&self) -> MeshConfigErrorModel {
        match *self {
            MeshConfigError::UnsupportedScheme(s) => MeshConfigErrorModel::UnsupportedScheme(s@),
            MeshConfigError::MissingHost(s) => MeshConfigErrorModel::MissingHost(s@),
            MeshConfigError::BadPort(s) => MeshConfigErrorModel::BadPort(s@),
        }
    }
}

/// The seconds that a connection and each read and write may take unless it is said otherwise.
pub const DEFAULT_TIMEOUT_SECS: u64 = 10;

/// The place that messages are posted to.
#[derive(Debug, Clone)]
pub struct HttpMeshDelivery {
    pub host: String,
    pub port: u16,
    pub path: String,
    /// How long connecting may take; [`DEFAULT_TIMEOUT_SECS`] if it is not said.
    pub connect_timeout: Option<Duration>,
    /// How long each read and write may take; [`DEFAULT_TIMEOUT_SECS`] if it is not said.
    pub io_timeout: Option<Duration>,
}

/// An endpoint as sequences.
pub struct EndpointModel {
    pub host: Seq<char>,
    pub port: u16,
    pub path: Seq<char>,
}

impl View for HttpMeshDelivery {
    type V = EndpointModel;

    open spec fn view(&self) -> EndpointModel {
        EndpointModel { host: self.host@, port: self.port, path: self.path@ }
    }
}

/// What stands before the first slash, and the rest from there on; `/` where there is none.
pub open spec fn split_path(rest: Seq<char>) -> (Seq<char>, Seq<char>) {
    match rest.index_of_first('/') {
        Some(i) => (rest.take(i), rest.skip(i)),
        None => (rest, "/"@),
    }
}

/// The host and the port of an authority; port 80 where there is none.
pub open spec fn split_authority(authority: Seq<char>) -> Result<
    (Seq<char>, u16),
    MeshConfigErrorModel,
> {
    match text::rsplit_once(authority, ':') {
        Some((h, p)) => match text::parse_dec(p, 65535) {
            Some(n) => Ok((h, n as u16)),
            None => Err(MeshConfigErrorModel::BadPort(p)),
        },
        None => Ok((authority, 80)),
    }
}

/// The endpoint that a URL names.
pub open spec fn endpoint_of(url: Seq<char>) -> Result<EndpointModel, MeshConfigErrorModel> {
    match text::strip_prefix(url, "http://"@) {
        None => Err(MeshConfigErrorModel::UnsupportedScheme(url)),
        Some(rest) => {
            let (authority, path) = split_path(rest);
            if authority.len() == 0 {
                Err(MeshConfigErrorModel::MissingHost(url))
            } else {
                match split_authority(authority) {
                    Err(e) => Err(e),
                    Ok((host, port)) => if host.len() == 0 {
                        Err(MeshConfigErrorModel::MissingHost(url))
                    } else {
                        Ok(EndpointModel { host, port, path })
                    },
                }
            }
        },
    }
}

/// A value that can stand in a header: without line ends.
pub open spec fn safe(v: Seq<char>) -> Seq<char> {
    v.filter(|c: char| c != '\r' && c != '\n')
}

/// A value that can stand in a header: nothing that a peer has chosen can begin another one.
pub fn header_safe(v: &str) -> (r: String)
    ensures
        r@ == safe(v@),
{
    reveal(Seq::filter);
    let c = text::chars_of(v);
    let ghost p = |c: char| c != '\r' && c != '\n';
    let mut out: Vec<char> = Vec::new();
    let mut i: usize = 0;
    assert(v@.take(0).filter(p) =~= out@);
    while i < c.len()
        invariant
            i <= c@.len(),
            c@ == v@,
            p == (|c: char| c != '\r' && c != '\n'),
            out@ == v@.take(i as int).filter(p),
        decreases c@.len() - i,
    {
        reveal(Seq::filter);
        assert(v@.take(i + 1).drop_last() =~= v@.take(i as int));
        assert(v@.take(i + 1).last() == c@[i as int]);
        if c[i] != '\r' && c[i] != '\n' {
            out.push(c[i]);
        }
        i += 1;
    }
    assert(v@.take(i as int) =~= v@);
    text::string_of(out.as_slice())
}

/// The head of the request that posts a message.
pub open spec fn head_text(
    e: EndpointModel,
    m: mote::MoteModel,
    a: attestation::AttestationModel,
) -> Seq<char> {
    "POST "@ + e.path + " HTTP/1.1\r\nHost: "@ + e.host
        + "\r\nUser-Agent: envoir-gateway\r\nContent-Type: application/dmtap-mote\r\nContent-Length: "@
        + text::dec(m.wire.len()) + "\r\nX-Dmtap-Mote-Id: "@ + b64::encoding(m.id)
        + "\r\nX-Dmtap-Gateway-Domain: "@ + a.domain + "\r\nX-Dmtap-Gateway-Selector: "@
        + a.selector + "\r\nX-Dmtap-Attestation-Sig: "@ + b64::encoding(a.sig)
        + "\r\nX-Dmtap-Smtp-From: "@ + safe(a.smtp_mail_from) + "\r\nX-Dmtap-Smtp-Rcpt: "@ + safe(
        a.smtp_rcpt_to,
    ) + "\r\nConnection: close\r\n\r\n"@
}

impl HttpMeshDelivery {
    /// The endpoint `http://host[:port]/path`.
    pub fn new(endpoint: &str) -> (r: Result<Self, MeshConfigError>)
        ensures
            model::res_view(r) == endpoint_of(endpoint@),
            r matches Ok(d) ==> d.connect_timeout is None && d.io_timeout is None,
    {
        let c = text::chars_of(endpoint);
        let rest = match text::after_prefix(c.as_slice(), "http://") {
            Some(t) => t,
            None => {
                return Err(MeshConfigError::UnsupportedScheme(text::string_from(endpoint)));
            },
        };
        let slash = text::chars_of("/");
        let n: usize = rest.len();
        let authority: &[char];
        let path: &[char];
        match text::find(rest, '/') {
            Some(i) => {
                authority = slice_subrange(rest, 0, i);
                path = slice_subrange(rest, i, n);
                assert(authority@ =~= rest@.take(i as int));
                assert(path@ =~= rest@.skip(i as int));
            },
            None => {
                authority = rest;
                path = slash.as_slice();
            },
        }
        assert((authority@, path@) == split_path(rest@));
        if authority.len() == 0 {
            return Err(MeshConfigError::MissingHost(text::string_from(endpoint)));
        }
        let mut host = authority;
        let mut port: u16 = 80;
        if let Some((h, p)) = text::cut_last(authority, ':') {
            match text::parse_number(p, 65535) {
                Some(k) => {
                    host = h;
                    port = k as u16;
                },
                None => {
                    return Err(MeshConfigError::BadPort(text::string_of(p)));
                },
            }
        }
        if host.len() == 0 {
            return Err(MeshConfigError::MissingHost(text::string_from(endpoint)));
        }
        Ok(
            HttpMeshDelivery {
                host: text::string_of(host),
                port,
                path: text::string_of(path),
                connect_timeout: None,
                io_timeout: None,
            },
        )
    }

    /// The endpoint with other timeouts.
    pub fn with_timeouts(self, connect: Duration, io: Duration) -> (r: Self)
        ensures
            r == (HttpMeshDelivery {
                connect_timeout: Some(connect),
                io_timeout: Some(io),
                ..self
            }),
    {
        HttpMeshDelivery {
            host: self.host,
            port: self.port,
            path: self.path,
            connect_timeout: Some(connect),
            io_timeout: Some(io),
        }
    }

    /// The host and the port with a colon between them.
    pub fn authority(&self) -> (r: String)
        ensures
            r@ == self.host@ + ":"@ + text::dec(self.port as nat),
    {
        let port = text::dec_string(self.port as u64);
        text::concat3(self.host.as_str(), ":", port.as_str())
    }

    /// The head of the request that posts a message. The message itself follows it.
    pub fn request_head(&self, m: &SealedMote, att: &Attestation) -> (r: String)
        ensures
            r@ == head_text(self@, m@, att@),
    {
        let n: usize = m.wire.len();
        let mut out = text::concat3("POST ", self.path.as_str(), " HTTP/1.1\r\nHost: ");
        out.append(self.host.as_str());
        out.append(
            "\r\nUser-Agent: envoir-gateway\r\nContent-Type: application/dmtap-mote\r\nContent-Length: ",
        );
        out.append(text::dec_string(n as u64).as_str());
        out.append("\r\nX-Dmtap-Mote-Id: ");
        out.append(b64::encode(m.id.0.as_slice()).as_str());
        out.append("\r\nX-Dmtap-Gateway-Domain: ");
        out.append(att.domain.as_str());
        out.append("\r\nX-Dmtap-Gateway-Selector: ");
        out.append(att.selector.as_str());
        out.append("\r\nX-Dmtap-Attestation-Sig: ");
        out.append(b64::encode(att.sig.as_slice()).as_str());
        out.append("\r\nX-Dmtap-Smtp-From: ");
        out.append(header_safe(att.smtp_mail_from.as_str()).as_str());
        out.append("\r\nX-Dmtap-Smtp-Rcpt: ");
        out.append(header_safe(att.smtp_rcpt_to.as_str()).as_str());
        out.append("\r\nConnection: close\r\n\r\n");
        out
    }
}

/// What a status line, or the lack of one, says about a message.
pub open spec fn outcome_for(status: Option<Seq<u8>>) -> DeliveryOutcome {
    match status {
        Some(line) => if http::is_success(text::lossy(line)) {
            DeliveryOutcome::Acked
        } else {
            DeliveryOutcome::NoAck
        },
        None => DeliveryOutcome::NoAck,
    }
}

/// What a status line, or the lack of one, says about a message. Only success is an
/// acknowledgement.
pub fn outcome_of(status: Option<&[u8]>) -> (r: DeliveryOutcome)
    ensures
        r == outcome_for(
            match status {
                Some(s) => Some(s@),
                None => None,
            },
        ),
{
    match status {
        Some(line) => {
            let t = text::from_utf8_lossy(line);
            let c = text::chars_of(t.as_str());
            if http::reports_success(c.as_slice()) {
                DeliveryOutcome::Acked
            } else {
                DeliveryOutcome::NoAck
            }
        },
        None => DeliveryOutcome::NoAck,
    }
}

// ---- laws --------------------------------------------------------------------------------------

/// A header value has no line end in it, and one that had none is left as it is.
pub proof fn law_header_value_is_one_line(v: Seq<char>)
    ensures
        !safe(v).contains('\r'),
        !safe(v).contains('\n'),
        !v.contains('\r') && !v.contains('\n') ==> safe(v) == v,
    decreases v.len(),
{
    reveal(Seq::filter);
    if v.len() > 0 {
        let d = v.drop_last();
        law_header_value_is_one_line(d);
        assert(v =~= d.push(v.last()));
        if !v.contains('\r') && !v.contains('\n') {
            assert(!d.contains('\r')) by {
                if d.contains('\r') {
                    let i = choose|i: int| 0 <= i < d.len() && d[i] == '\r';
                    assert(v[i] == '\r');
                }
            }
            assert(!d.contains('\n')) by {
                if d.contains('\n') {
                    let i = choose|i: int| 0 <= i < d.len() && d[i] == '\n';
                    assert(v[i] == '\n');
                }
            }
            assert(v[v.len() - 1] != '\r' && v[v.len() - 1] != '\n');
        }
    } else {
        assert(safe(v) =~= v);
    }
}

/// An endpoint has a host, a path that begins with a slash, and the URL's own text in them.
pub proof fn law_endpoint_is_complete(url: Seq<char>)
    ensures
        endpoint_of(url) matches Ok(e) ==> e.host.len() > 0 && e.path.len() > 0 && e.path[0] == '/',
{
    reveal_strlit("/");
    match text::strip_prefix(url, "http://"@) {
        Some(rest) => {
            rest.index_of_first_ensures('/');
        },
        None => {},
    }
}

/// An address of a node comes apart into its host, its port and its path; without a port it is 80,
/// without a path it is `/`. Nothing but `http` is spoken.
pub proof fn law_address_of_a_node(host: Seq<char>, port: u16, path: Seq<char>, url: Seq<char>)
    requires
        host.len() > 0,
        !host.contains('/'),
        !host.contains(':'),
        path.len() > 0 && path[0] == '/',
    ensures
        endpoint_of("http://"@ + host + seq![':'] + text::dec(port as nat) + path) == Ok::<
            EndpointModel,
            MeshConfigErrorModel,
        >(EndpointModel { host, port, path }),
        endpoint_of("http://"@ + host + path) == Ok::<EndpointModel, MeshConfigErrorModel>(
            EndpointModel { host, port: 80, path },
        ),
        endpoint_of("http://"@ + host) == Ok::<EndpointModel, MeshConfigErrorModel>(
            EndpointModel { host, port: 80, path: "/"@ },
        ),
        !"http://"@.is_prefix_of(url) ==> endpoint_of(url) == Err::<
            EndpointModel,
            MeshConfigErrorModel,
        >(MeshConfigErrorModel::UnsupportedScheme(url)),
{
    let d = text::dec(port as nat);
    let auth = host + seq![':'] + d;
    lemma_decimal_is_plain(port as nat);
    text::law_number_round_trip(port as nat, 65535);
    lemma_path(auth, path);
    lemma_path(host, path);
    assert("http://"@ + host + seq![':'] + d + path =~= "http://"@ + (auth + path));
    assert("http://"@ + host + path =~= "http://"@ + (host + path));
    text::law_prefix_comes_off("http://"@, auth + path, url);
    text::law_prefix_comes_off("http://"@, host + path, url);
    text::law_prefix_comes_off("http://"@, host, url);
    text::lemma_rsplit_of_joined(host, ':', d);
    text::law_cut_at_the_first(host, ':', host);
    host.index_of_first_ensures('/');
}

proof fn lemma_decimal_is_plain(n: nat)
    ensures
        !text::dec(n).contains(':'),
        !text::dec(n).contains('/'),
{
    text::lemma_dec_round_trip(n);
    let d = text::dec(n);
    assert forall|i: int| 0 <= i < d.len() implies d[i] != ':' && d[i] != '/' by {
        assert(text::is_digit(d[i]));
    }
}

proof fn lemma_path(authority: Seq<char>, path: Seq<char>)
    requires
        path.len() > 0 && path[0] == '/',
        !authority.contains('/'),
    ensures
        split_path(authority + path) == (authority, path),
{
    let s = authority + path;
    let n = authority.len() as int;
    s.index_of_first_ensures('/');
    assert(s[n] == '/');
    let i = s.index_of_first('/')->0;
    assert(i == n) by {
        if i < n {
            assert(authority[i] == '/');
        }
    }
    assert(s.take(n) =~= authority);
    assert(s.skip(n) =~= path);
}

/// A delivery counts as durably taken exactly if there is a status line whose second word is a code of
/// three digits that begins with a two.
pub proof fn law_only_success_is_custody(status: Option<Seq<u8>>)
    ensures
        outcome_for(status) == DeliveryOutcome::Acked <==> {
            let w = text::words(text::lossy(status->0));
            &&& status is Some
            &&& w.len() > 1 && w[1].len() == 3
            &&& w[1][0] == '2' && '0' <= w[1][1] && w[1][1] <= '9' && '0' <= w[1][2] && w[1][2]
                <= '9'
        },
{
}

/// A header value that is sent holds what the value holds, but for line ends.
pub proof fn law_header_value_keeps_the_rest(a: Seq<char>, c: char, b: Seq<char>)
    ensures
        safe(a + b) == safe(a) + safe(b),
        c != '\r' && c != '\n' ==> safe(seq![c]) == seq![c],
        c == '\r' || c == '\n' ==> safe(seq![c]).len() == 0,
{
    let f = |c: char| c != '\r' && c != '\n';
    Seq::filter_distributes_over_add(a, b, f);
    reveal(Seq::filter);
    let one = seq![c];
    assert(one.drop_last() =~= Seq::<char>::empty());
    assert(one.drop_last().filter(f) =~= Seq::<char>::empty());
    if f(c) {
        assert(one.filter(f) =~= one);
    }
}

proof fn lemma_words_of_the_head()
    ensures
        " HTTP/1.1\r\nHost: "@ == " HTTP/1.1\r\n"@ + "Host: "@,
        "\r\nX-Dmtap-Mote-Id: "@ == "\r\n"@ + "X-Dmtap-Mote-Id: "@,
        "\r\nX-Dmtap-Gateway-Domain: "@ == "\r\n"@ + "X-Dmtap-Gateway-Domain: "@,
        "\r\nX-Dmtap-Gateway-Selector: "@ == "\r\n"@ + "X-Dmtap-Gateway-Selector: "@,
        "\r\nX-Dmtap-Attestation-Sig: "@ == "\r\n"@ + "X-Dmtap-Attestation-Sig: "@,
        "\r\nX-Dmtap-Smtp-From: "@ == "\r\n"@ + "X-Dmtap-Smtp-From: "@,
        "\r\nX-Dmtap-Smtp-Rcpt: "@ == "\r\n"@ + "X-Dmtap-Smtp-Rcpt: "@,
{
    reveal_strlit(" HTTP/1.1\r\nHost: ");
    reveal_strlit(" HTTP/1.1\r\n");
    reveal_strlit("Host: ");
    reveal_strlit("\r\nX-Dmtap-Mote-Id: ");
    reveal_strlit("\r\n");
    reveal_strlit("X-Dmtap-Mote-Id: ");
    reveal_strlit("\r\nX-Dmtap-Gateway-Domain: ");
    reveal_strlit("X-Dmtap-Gateway-Domain: ");
    reveal_strlit("\r\nX-Dmtap-Gateway-Selector: ");
    reveal_strlit("X-Dmtap-Gateway-Selector: ");
    reveal_strlit("\r\nX-Dmtap-Attestation-Sig: ");
    reveal_strlit("X-Dmtap-Attestation-Sig: ");
    reveal_strlit("\r\nX-Dmtap-Smtp-From: ");
    reveal_strlit("X-Dmtap-Smtp-From: ");
    reveal_strlit("\r\nX-Dmtap-Smtp-Rcpt: ");
    reveal_strlit("X-Dmtap-Smtp-Rcpt: ");
    assert(" HTTP/1.1\r\nHost: "@ =~= " HTTP/1.1\r\n"@ + "Host: "@);
    assert("\r\nX-Dmtap-Mote-Id: "@ =~= "\r\n"@ + "X-Dmtap-Mote-Id: "@);
    assert("\r\nX-Dmtap-Gateway-Domain: "@ =~= "\r\n"@ + "X-Dmtap-Gateway-Domain: "@);
    assert("\r\nX-Dmtap-Gateway-Selector: "@ =~= "\r\n"@ + "X-Dmtap-Gateway-Selector: "@);
    assert("\r\nX-Dmtap-Attestation-Sig: "@ =~= "\r\n"@ + "X-Dmtap-Attestation-Sig: "@);
    assert("\r\nX-Dmtap-Smtp-From: "@ =~= "\r\n"@ + "X-Dmtap-Smtp-From: "@);
    assert("\r\nX-Dmtap-Smtp-Rcpt: "@ =~= "\r\n"@ + "X-Dmtap-Smtp-Rcpt: "@);
}

proof fn lemma_words_in_the_middle()
    ensures
        "\r\nUser-Agent: envoir-gateway\r\nContent-Type: application/dmtap-mote\r\nContent-Length: "@
            == "\r\n"@ + ("User-Agent: envoir-gateway\r\n"@ + (
        "Content-Type: application/dmtap-mote\r\n"@ + "Content-Length: "@)),
        "\r\nConnection: close\r\n\r\n"@ == "\r\n"@ + ("Connection: close\r\n"@ + "\r\n"@),
{
    reveal_strlit(
        "\r\nUser-Agent: envoir-gateway\r\nContent-Type: application/dmtap-mote\r\nContent-Length: ",
    );
    reveal_strlit("User-Agent: envoir-gateway\r\n");
    reveal_strlit("Content-Type: application/dmtap-mote\r\n");
    reveal_strlit("Content-Length: ");
    reveal_strlit("\r\nConnection: close\r\n\r\n");
    reveal_strlit("Connection: close\r\n");
    reveal_strlit("\r\n");
    assert("\r\nUser-Agent: envoir-gateway\r\nContent-Type: application/dmtap-mote\r\nContent-Length: "@
        =~= "\r\n"@ + ("User-Agent: envoir-gateway\r\n"@ + (
    "Content-Type: application/dmtap-mote\r\n"@ + "Content-Length: "@)));
    assert("\r\nConnection: close\r\n\r\n"@ =~= "\r\n"@ + ("Connection: close\r\n"@ + "\r\n"@));
}

/// A field that is written to its end, with the beginning of the next one behind it.
proof fn lemma_next_field(
    before: Seq<char>,
    name: Seq<char>,
    value: Seq<char>,
    end: Seq<char>,
    next: Seq<char>,
)
    ensures
        (before + name) + value + (end + next) == before + (name + value + end) + next,
{
    assert((before + name) + value + (end + next) =~= before + (name + value + end) + next);
}

/// The head of a delivery: a line for the request and, under it, a line for each of the fields, with an
/// empty line at the end.
pub proof fn law_head_of_a_delivery(
    e: EndpointModel,
    m: mote::MoteModel,
    a: attestation::AttestationModel,
    h: Seq<char>,
)
    requires
        h == head_text(e, m, a),
    ensures
        h == ("POST "@ + e.path + " HTTP/1.1\r\n"@) + ("Host: "@ + e.host + "\r\n"@)
            + "User-Agent: envoir-gateway\r\n"@ + "Content-Type: application/dmtap-mote\r\n"@ + (
        "Content-Length: "@ + text::dec(m.wire.len()) + "\r\n"@) + ("X-Dmtap-Mote-Id: "@ + b64::encoding(
            m.id,
        ) + "\r\n"@) + ("X-Dmtap-Gateway-Domain: "@ + a.domain + "\r\n"@) + (
        "X-Dmtap-Gateway-Selector: "@ + a.selector + "\r\n"@) + ("X-Dmtap-Attestation-Sig: "@
            + b64::encoding(a.sig) + "\r\n"@) + ("X-Dmtap-Smtp-From: "@ + safe(a.smtp_mail_from)
            + "\r\n"@) + ("X-Dmtap-Smtp-Rcpt: "@ + safe(a.smtp_rcpt_to) + "\r\n"@)
            + "Connection: close\r\n"@ + "\r\n"@,
{
    lemma_words_of_the_head();
    lemma_words_in_the_middle();
    let crlf = "\r\n"@;
    let none = Seq::<char>::empty();
    let first = "POST "@ + e.path + " HTTP/1.1\r\n"@;
    assert("POST "@ =~= none + "POST "@);
    lemma_next_field(none, "POST "@, e.path, " HTTP/1.1\r\n"@, "Host: "@);
    assert(none + first =~= first);
    let b1 = first + ("Host: "@ + e.host + crlf);
    let agent = "User-Agent: envoir-gateway\r\n"@;
    let kind = "Content-Type: application/dmtap-mote\r\n"@;
    lemma_next_field(first, "Host: "@, e.host, crlf, agent + (kind + "Content-Length: "@));
    let b2 = b1 + agent + kind;
    assert(b1 + (agent + (kind + "Content-Length: "@)) =~= b2 + "Content-Length: "@);
    let length = text::dec(m.wire.len());
    lemma_next_field(b2, "Content-Length: "@, length, crlf, "X-Dmtap-Mote-Id: "@);
    let b3 = b2 + ("Content-Length: "@ + length + crlf);
    let id = b64::encoding(m.id);
    lemma_next_field(b3, "X-Dmtap-Mote-Id: "@, id, crlf, "X-Dmtap-Gateway-Domain: "@);
    let b4 = b3 + ("X-Dmtap-Mote-Id: "@ + id + crlf);
    lemma_next_field(b4, "X-Dmtap-Gateway-Domain: "@, a.domain, crlf, "X-Dmtap-Gateway-Selector: "@);
    let b5 = b4 + ("X-Dmtap-Gateway-Domain: "@ + a.domain + crlf);
    lemma_next_field(
        b5,
        "X-Dmtap-Gateway-Selector: "@,
        a.selector,
        crlf,
        "X-Dmtap-Attestation-Sig: "@,
    );
    let b6 = b5 + ("X-Dmtap-Gateway-Selector: "@ + a.selector + crlf);
    let sig = b64::encoding(a.sig);
    lemma_next_field(b6, "X-Dmtap-Attestation-Sig: "@, sig, crlf, "X-Dmtap-Smtp-From: "@);
    let b7 = b6 + ("X-Dmtap-Attestation-Sig: "@ + sig + crlf);
    let from = safe(a.smtp_mail_from);
    lemma_next_field(b7, "X-Dmtap-Smtp-From: "@, from, crlf, "X-Dmtap-Smtp-Rcpt: "@);
    let b8 = b7 + ("X-Dmtap-Smtp-From: "@ + from + crlf);
    let rcpt = safe(a.smtp_rcpt_to);
    let close = "Connection: close\r\n"@;
    lemma_next_field(b8, "X-Dmtap-Smtp-Rcpt: "@, rcpt, crlf, close + crlf);
    let b9 = b8 + ("X-Dmtap-Smtp-Rcpt: "@ + rcpt + crlf);
    assert(b9 + (close + crlf) =~= b9 + close + crlf);
    assert(h == b9 + close + crlf);
}

/// A port is a number up to 65535; anything else behind the last colon is refused.
pub proof fn law_which_ports_there_are(host: Seq<char>, p: Seq<char>)
    requires
        host.len() > 0 && !host.contains('/'),
        !p.contains(':') && !p.contains('/'),
    ensures
        text::parse_dec(p, 65_535) is None ==> endpoint_of("http://"@ + (host + seq![':'] + p)) == Err::<
            EndpointModel,
            MeshConfigErrorModel,
        >(MeshConfigErrorModel::BadPort(p)),
        text::parse_dec(p, 65_535) is Some ==> endpoint_of("http://"@ + (host + seq![':'] + p)) == Ok::<
            EndpointModel,
            MeshConfigErrorModel,
        >(EndpointModel { host, port: (text::parse_dec(p, 65_535)->0) as u16, path: "/"@ }),
{
    let auth = host + seq![':'] + p;
    assert(!auth.contains('/')) by {
        if auth.contains('/') {
            let i = auth.index_of('/');
            if i < host.len() {
                assert(host[i] == '/');
            } else if i > host.len() {
                assert(p[i - host.len() - 1] == '/');
            }
        }
    }
    text::law_prefix_comes_off("http://"@, auth, auth);
    text::lemma_rsplit_of_joined(host, ':', p);
    auth.index_of_first_ensures('/');
}

/// A mesh that is none never takes anything over.
pub proof fn law_no_mesh_takes_nothing(
    before: NullMesh,
    m: mote::MoteModel,
    a: attestation::AttestationModel,
    outcome: DeliveryOutcome,
    after: NullMesh,
)
    requires
        NullMesh::delivers(before, m, a, outcome, after),
    ensures
        outcome == DeliveryOutcome::NoAck,
        after == before,
{
}

} // verus!
