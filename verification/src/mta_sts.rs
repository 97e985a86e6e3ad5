//! MTA-STS: a domain says that mail for it must travel over TLS, and to which hosts.
//!
//! A domain takes part if a TXT record under `_mta-sts.` says so. Its policy is then fetched from a
//! fixed place on its web server. Only a policy in the mode `enforce` constrains delivery; a domain
//! that does not take part, a policy that cannot be had and one that cannot be read constrain
//! nothing.

use crate::http;
use crate::model;
use crate::seqmap::SeqMap;
use crate::text;
use vstd::prelude::*;

verus! {

/// What a policy asks for.
#[derive(Debug, Clone, Copy, PartialEq, Eq, Structural)]
pub enum PolicyMode {
    /// TLS and a listed host, or no delivery.
    Enforce,
    /// Failures are reported; delivery goes on.
    Testing,
    /// The domain has opted out.
    OptOut,
}

/// A policy.
#[derive(Debug, PartialEq, Eq)]
pub struct StsPolicy {
    pub mode: PolicyMode,
    /// Host names, or `*.` and a suffix that one label may stand in front of.
    pub mx_patterns: Vec<String>,
    pub max_age: u64,
}

/// [`StsPolicy`] with its contents as sequences.
#[verifier::ext_equal]
pub struct PolicyModel {
    pub mode: PolicyMode,
    pub mx_patterns: Seq<Seq<char>>,
    pub max_age: u64,
}

impl View for StsPolicy {
    type V = PolicyModel;

    open spec fn view(&self) -> PolicyModel {
        PolicyModel {
            mode: self.mode,
            mx_patterns: text::string_views(self.mx_patterns@),
            max_age: self.max_age,
        }
    }
}

/// Why a policy cannot be read.
#[derive(Debug, Clone, PartialEq, Eq)]
pub enum StsParseError {
    /// A line without a colon.
    MalformedLine,
    MissingVersion,
    UnsupportedVersion(String),
    MissingMode,
    UnknownMode(String),
    /// A mode that constrains hosts, and no hosts.
    NoMxPatterns,
}

/// [`StsParseError`] with its contents as sequences.
pub enum StsParseErrorModel {
    MalformedLine,
    MissingVersion,
    UnsupportedVersion(Seq<char>),
    MissingMode,
    UnknownMode(Seq<char>),
    NoMxPatterns,
}

impl View for StsParseError {
    type V = StsParseErrorModel;

    open spec fn view(&self) -> StsParseErrorModel {
        match self {
            StsParseError::MalformedLine => StsParseErrorModel::MalformedLine,
            StsParseError::MissingVersion => StsParseErrorModel::MissingVersion,
            StsParseError::UnsupportedVersion(v) => StsParseErrorModel::UnsupportedVersion(v@),
            StsParseError::MissingMode => StsParseErrorModel::MissingMode,
            StsParseError::UnknownMode(v) => StsParseErrorModel::UnknownMode(v@),
            StsParseError::NoMxPatterns => StsParseErrorModel::NoMxPatterns,
        }
    }
}

/// How long a policy holds that does not say, in seconds.
pub const DEFAULT_MAX_AGE: u64 = 86_400;

/// The fields of a policy as far as its lines have been read.
#[verifier::ext_equal]
pub struct DraftModel {
    pub version: Option<Seq<char>>,
    pub mode: Option<PolicyMode>,
    pub mx: Seq<Seq<char>>,
    pub max_age: Option<u64>,
}

/// The mode with the given name.
pub open spec fn mode_named(s: Seq<char>) -> Option<PolicyMode> {
    if s == "enforce"@ {
        Some(PolicyMode::Enforce)
    } else if s == "testing"@ {
        Some(PolicyMode::Testing)
    } else if s == "none"@ {
        Some(PolicyMode::OptOut)
    } else {
        None
    }
}

/// The draft after one field. A field that stands twice counts as it stands last, but hosts add up;
/// a field with an unknown name counts nothing.
pub open spec fn with_field(d: DraftModel, key: Seq<char>, value: Seq<char>) -> Result<
    DraftModel,
    StsParseErrorModel,
> {
    if key == "version"@ {
        Ok(DraftModel { version: Some(value), ..d })
    } else if key == "mode"@ {
        match mode_named(value) {
            Some(m) => Ok(DraftModel { mode: Some(m), ..d }),
            None => Err(StsParseErrorModel::UnknownMode(value)),
        }
    } else if key == "mx"@ {
        Ok(DraftModel { mx: d.mx.push(value), ..d })
    } else if key == "max_age"@ {
        Ok(
            DraftModel {
                max_age: match text::parse_dec(value, u64::MAX as nat) {
                    Some(n) => Some(n as u64),
                    None => None,
                },
                ..d
            },
        )
    } else {
        Ok(d)
    }
}

/// The draft after one line.
pub open spec fn with_line(d: DraftModel, line: Seq<char>) -> Result<
    DraftModel,
    StsParseErrorModel,
> {
    let l = text::trim(line);
    if l.len() == 0 {
        Ok(d)
    } else {
        match text::split_once(l, ':') {
            None => Err(StsParseErrorModel::MalformedLine),
            Some((k, v)) => with_field(d, text::trim(k), text::trim(v)),
        }
    }
}

/// The draft before the first line.
pub open spec fn empty_draft() -> DraftModel {
    DraftModel { version: None, mode: None, mx: Seq::empty(), max_age: None }
}

/// The draft after the given lines; the first bad line decides.
pub open spec fn draft(lines: Seq<Seq<char>>) -> Result<DraftModel, StsParseErrorModel>
    decreases lines.len(),
{
    if lines.len() == 0 {
        Ok(empty_draft())
    } else {
        match draft(lines.drop_last()) {
            Err(e) => Err(e),
            Ok(d) => with_line(d, lines.last()),
        }
    }
}

/// The policy that a draft amounts to.
pub open spec fn finished(d: DraftModel) -> Result<PolicyModel, StsParseErrorModel> {
    match d.version {
        None => Err(StsParseErrorModel::MissingVersion),
        Some(v) => if v != "STSv1"@ {
            Err(StsParseErrorModel::UnsupportedVersion(v))
        } else {
            match d.mode {
                None => Err(StsParseErrorModel::MissingMode),
                Some(mode) => if mode != PolicyMode::OptOut && d.mx.len() == 0 {
                    Err(StsParseErrorModel::NoMxPatterns)
                } else {
                    Ok(
                        PolicyModel {
                            mode,
                            mx_patterns: d.mx,
                            max_age: match d.max_age {
                                Some(n) => n,
                                None => DEFAULT_MAX_AGE,
                            },
                        },
                    )
                },
            }
        },
    }
}

/// The policy that a text states.
pub open spec fn policy(body: Seq<char>) -> Result<PolicyModel, StsParseErrorModel> {
    match draft(text::lines(body)) {
        Err(e) => Err(e),
        Ok(d) => finished(d),
    }
}

struct Draft {
    version: Option<String>,
    mode: Option<PolicyMode>,
    mx: Vec<String>,
    max_age: Option<u64>,
}

impl View for Draft {
    type V = DraftModel;

    closed spec fn view(&self) -> DraftModel {
        DraftModel {
            version: model::opt_view(self.version),
            mode: self.mode,
            mx: text::string_views(self.mx@),
            max_age: self.max_age,
        }
    }
}

fn find_mode(s: &[char]) -> (r: Option<PolicyMode>)
    ensures
        r == mode_named(s@),
{
    if text::is_text(s, "enforce") {
        Some(PolicyMode::Enforce)
    } else if text::is_text(s, "testing") {
        Some(PolicyMode::Testing)
    } else if text::is_text(s, "none") {
        Some(PolicyMode::OptOut)
    } else {
        None
    }
}

fn read_line(d: &mut Draft, line: &[char]) -> (r: Result<(), StsParseError>)
    ensures
        match r {
            Ok(_) => with_line(old(d)@, line@) == Ok::<DraftModel, StsParseErrorModel>(final(d)@),
            Err(e) => with_line(old(d)@, line@) == Err::<DraftModel, StsParseErrorModel>(e@),
        },
{
    let l = text::trimmed(line);
    if l.len() == 0 {
        return Ok(());
    }
    match text::cut_first(l, ':') {
        None => Err(StsParseError::MalformedLine),
        Some((k, v)) => {
            let key = text::trimmed(k);
            let value = text::trimmed(v);
            if text::is_text(key, "version") {
                d.version = Some(text::string_of(value));
            } else if text::is_text(key, "mode") {
                match find_mode(value) {
                    Some(m) => {
                        d.mode = Some(m);
                    },
                    None => {
                        return Err(StsParseError::UnknownMode(text::string_of(value)));
                    },
                }
            } else if text::is_text(key, "mx") {
                let ghost before = d@.mx;
                d.mx.push(text::string_of(value));
                assert(text::string_views(d.mx@) =~= before.push(value@));
            } else if text::is_text(key, "max_age") {
                d.max_age = text::parse_number(value, u64::MAX);
            }
            Ok(())
        },
    }
}

/// Reads a policy.
pub fn parse_policy(body: &str) -> (r: Result<StsPolicy, StsParseError>)
    ensures
        model::res_view(r) == policy(body@),
{
    let c = text::chars_of(body);
    let lines = text::split_lines(c.as_slice());
    let ghost all = text::lines(body@);
    let mut d = Draft { version: None, mode: None, mx: Vec::new(), max_age: None };
    assert(d@ =~= empty_draft());
    let mut i: usize = 0;
    while i < lines.len()
        invariant
            i <= lines@.len(),
            all == text::views(lines@),
            all == text::lines(body@),
            draft(all.take(i as int)) == Ok::<DraftModel, StsParseErrorModel>(d@),
        decreases lines@.len() - i,
    {
        assert(all.take(i + 1).drop_last() =~= all.take(i as int));
        assert(all.take(i + 1).last() == lines@[i as int]@);
        match read_line(&mut d, lines[i].as_slice()) {
            Ok(_) => {},
            Err(e) => {
                proof {
                    lemma_first_error(all, i + 1);
                }
                return Err(e);
            },
        }
        i += 1;
    }
    assert(all.take(i as int) =~= all);
    let version = match d.version {
        None => {
            return Err(StsParseError::MissingVersion);
        },
        Some(v) => v,
    };
    if !text::same_str(version.as_str(), "STSv1") {
        return Err(StsParseError::UnsupportedVersion(version));
    }
    let mode = match d.mode {
        None => {
            return Err(StsParseError::MissingMode);
        },
        Some(m) => m,
    };
    if mode != PolicyMode::OptOut && d.mx.len() == 0 {
        return Err(StsParseError::NoMxPatterns);
    }
    let max_age: u64 = match d.max_age {
        Some(n) => n,
        None => DEFAULT_MAX_AGE,
    };
    Ok(StsPolicy { mode, mx_patterns: d.mx, max_age })
}

proof fn lemma_first_error(lines: Seq<Seq<char>>, n: int)
    requires
        0 <= n <= lines.len(),
        draft(lines.take(n)) is Err,
    ensures
        draft(lines) == draft(lines.take(n)),
    decreases lines.len() - n,
{
    if n < lines.len() {
        assert(lines.take(n + 1).drop_last() =~= lines.take(n));
        lemma_first_error(lines, n + 1);
    } else {
        assert(lines.take(n) =~= lines);
    }
}

// ---- hosts -------------------------------------------------------------------------------------

/// A host name or a pattern without white space at its ends and without dots at its end.
pub open spec fn bare(s: Seq<char>) -> Seq<char> {
    text::strip_back(text::trim(s), |c: char| c == '.')
}

/// Whether a host name is a single label in front of a suffix.
pub open spec fn one_label_before(host: Seq<char>, suffix: Seq<char>) -> bool {
    exists|label: Seq<char>|
        label.len() > 0 && !label.contains('.') && host == #[trigger] (label + suffix)
}

/// Whether a pattern covers a host, in any case: `*.` stands for exactly one label, and a pattern
/// without it for itself.
pub open spec fn covers(pattern: Seq<char>, host: Seq<char>) -> bool {
    let p = text::lower(bare(pattern));
    let h = text::lower(bare(host));
    if "*."@.is_prefix_of(bare(pattern)) {
        one_label_before(h, p.skip(1))
    } else {
        p == h
    }
}

/// Whether a pattern covers a host.
pub fn mx_pattern_matches(pattern: &str, host: &str) -> (r: bool)
    ensures
        r == covers(pattern@, host@),
{
    let pc = text::chars_of(pattern);
    let hc = text::chars_of(host);
    let p = text::drop_char(text::trimmed(pc.as_slice()), '.');
    let h = text::drop_char(text::trimmed(hc.as_slice()), '.');
    let star = text::chars_of("*.");
    let pl = text::to_lower(p);
    let hl = text::to_lower(h);
    if !text::has_prefix(p, star.as_slice()) {
        return text::same(pl.as_slice(), hl.as_slice());
    }
    proof {
        reveal_strlit("*.");
    }
    let n: usize = hl.len();
    let m: usize = pl.len();
    let suffix = vstd::slice::slice_subrange(pl.as_slice(), 1, m);
    let ghost sfx = text::lower(bare(pattern@)).skip(1);
    assert(suffix@ =~= sfx);
    if !text::has_suffix(hl.as_slice(), suffix) {
        assert(!one_label_before(hl@, sfx)) by {
            if one_label_before(hl@, sfx) {
                let label = choose|label: Seq<char>|
                    label.len() > 0 && !label.contains('.') && hl@ == #[trigger] (label + sfx);
                assert(hl@.subrange(hl@.len() - sfx.len(), hl@.len() as int) =~= sfx);
            }
        }
        return false;
    }
    let k: usize = n - (m - 1);
    let label = vstd::slice::slice_subrange(hl.as_slice(), 0, k);
    let ok = k > 0 && !text::has_char(label, '.');
    proof {
        assert(hl@ =~= label@ + sfx);
        if one_label_before(hl@, sfx) {
            let other = choose|other: Seq<char>|
                other.len() > 0 && !other.contains('.') && hl@ == #[trigger] (other + sfx);
            assert((other + sfx).take(other.len() as int) =~= other);
            assert((label@ + sfx).take(label@.len() as int) =~= label@);
            assert(other == label@);
        }
    }
    ok
}

/// Whether one of the patterns covers a host.
pub fn any_pattern_matches(patterns: &[String], host: &str) -> (r: bool)
    ensures
        r == exists|i: int| 0 <= i < patterns@.len() && covers(#[trigger] patterns@[i]@, host@),
{
    let n: usize = patterns.len();
    let mut i: usize = 0;
    while i < n
        invariant
            i <= n,
            n == patterns@.len(),
            forall|j: int| 0 <= j < i ==> !covers(#[trigger] patterns@[j]@, host@),
        decreases n - i,
    {
        if mx_pattern_matches(patterns[i].as_str(), host) {
            return true;
        }
        i += 1;
    }
    false
}

// ---- lookups -----------------------------------------------------------------------------------

/// Looks up the TXT records of a name.
pub trait TxtResolver {
    /// Whether a lookup may come back with the given records.
    open spec fn may_answer(&self, name: Seq<char>, records: Seq<Seq<char>>) -> bool {
        true
    }

    /// The TXT records of a name; none where there are none or the lookup failed.
    fn lookup_txt(&self, name: &str) -> (r: Vec<String>)
        ensures
            self.may_answer(name@, text::string_views(r@)),
    ;
}

/// Fetches the text of a domain's policy.
pub trait PolicyFetcher {
    /// Whether a fetch may come back with the given text, or with none.
    open spec fn may_serve(&self, domain: Seq<char>, body: Option<Seq<char>>) -> bool {
        true
    }

    /// The text of a domain's policy, if it could be had.
    fn fetch_policy(&self, domain: &str) -> (r: Option<String>)
        ensures
            self.may_serve(domain@, model::opt_view(r)),
    ;
}

/// The records of one name.
pub struct TxtRecords {
    values: Vec<String>,
}

impl View for TxtRecords {
    type V = Seq<Seq<char>>;

    closed spec fn view(&self) -> Seq<Seq<char>> {
        text::string_views(self.values@)
    }
}

/// A table of TXT records.
pub struct InMemoryTxtResolver {
    records: SeqMap<char, TxtRecords>,
}

impl View for InMemoryTxtResolver {
    type V = Map<Seq<char>, Seq<Seq<char>>>;

    closed spec fn view(&self) -> Map<Seq<char>, Seq<Seq<char>>> {
        self.records@
    }
}

/// The views of a sequence of string slices.
pub open spec fn str_views(v: Seq<&str>) -> Seq<Seq<char>> {
    Seq::new(v.len(), |i: int| v[i]@)
}

/// The records that a table holds for a name, in any case.
pub open spec fn table_records(t: Map<Seq<char>, Seq<Seq<char>>>, name: Seq<char>) -> Seq<
    Seq<char>,
> {
    if t.contains_key(text::lower(name)) {
        t[text::lower(name)]
    } else {
        Seq::empty()
    }
}

fn copy_strings(v: &Vec<String>) -> (r: Vec<String>)
    ensures
        text::string_views(r@) == text::string_views(v@),
{
    let mut out: Vec<String> = Vec::new();
    let mut i: usize = 0;
    while i < v.len()
        invariant
            i <= v@.len(),
            out@.len() == i,
            forall|j: int| 0 <= j < i ==> (#[trigger] out@[j])@ == v@[j]@,
        decreases v@.len() - i,
    {
        out.push(v[i].clone());
        i += 1;
    }
    assert(text::string_views(out@) =~= text::string_views(v@));
    out
}

impl InMemoryTxtResolver {
    /// An empty table.
    pub fn new() -> (r: Self)
        ensures
            r@ == Map::<Seq<char>, Seq<Seq<char>>>::empty(),
    {
        InMemoryTxtResolver { records: SeqMap::new() }
    }

    /// The table with the records of a name set.
    pub fn with_txt(self, name: &str, values: &[&str]) -> (r: Self)
        ensures
            r@ == self@.insert(text::lower(name@), str_views(values@)),
    {
        let mut records = self.records;
        let n: usize = values.len();
        let mut list: Vec<String> = Vec::new();
        let mut i: usize = 0;
        while i < n
            invariant
                n == values@.len(),
                i <= n,
                list@.len() == i,
                forall|j: int| 0 <= j < i ==> (#[trigger] list@[j])@ == values@[j]@,
            decreases n - i,
        {
            list.push(text::string_from(values[i]));
            i += 1;
        }
        assert(text::string_views(list@) =~= str_views(values@));
        let c = text::chars_of(name);
        let key = text::to_lower(c.as_slice());
        let _ = records.insert(key.as_slice(), TxtRecords { values: list });
        InMemoryTxtResolver { records }
    }
}

impl TxtResolver for InMemoryTxtResolver {
    open spec fn may_answer(&self, name: Seq<char>, records: Seq<Seq<char>>) -> bool {
        records == table_records(self@, name)
    }

    fn lookup_txt(&self, name: &str) -> (r: Vec<String>) {
        let c = text::chars_of(name);
        let key = text::to_lower(c.as_slice());
        match self.records.get(key.as_slice()) {
            Some(list) => copy_strings(&list.values),
            None => {
                let none: Vec<String> = Vec::new();
                assert(text::string_views(none@) =~= Seq::<Seq<char>>::empty());
                none
            },
        }
    }
}

/// A table of policies.
pub struct InMemoryPolicyFetcher {
    bodies: SeqMap<char, String>,
}

impl View for InMemoryPolicyFetcher {
    type V = Map<Seq<char>, Seq<char>>;

    closed spec fn view(&self) -> Map<Seq<char>, Seq<char>> {
        self.bodies@
    }
}

/// The text that a table holds for a domain, in any case.
pub open spec fn table_body(t: Map<Seq<char>, Seq<char>>, domain: Seq<char>) -> Option<Seq<char>> {
    if t.contains_key(text::lower(domain)) {
        Some(t[text::lower(domain)])
    } else {
        None
    }
}

impl InMemoryPolicyFetcher {
    /// An empty table.
    pub fn new() -> (r: Self)
        ensures
            r@ == Map::<Seq<char>, Seq<char>>::empty(),
    {
        InMemoryPolicyFetcher { bodies: SeqMap::new() }
    }

    /// The table with the policy of a domain set.
    pub fn with_policy(self, domain: &str, body: &str) -> (r: Self)
        ensures
            r@ == self@.insert(text::lower(domain@), body@),
    {
        let mut bodies = self.bodies;
        let c = text::chars_of(domain);
        let key = text::to_lower(c.as_slice());
        let _ = bodies.insert(key.as_slice(), text::string_from(body));
        InMemoryPolicyFetcher { bodies }
    }
}

impl PolicyFetcher for InMemoryPolicyFetcher {
    open spec fn may_serve(&self, domain: Seq<char>, body: Option<Seq<char>>) -> bool {
        body == table_body(self@, domain)
    }

    fn fetch_policy(&self, domain: &str) -> (r: Option<String>) {
        let c = text::chars_of(domain);
        let key = text::to_lower(c.as_slice());
        match self.bodies.get(key.as_slice()) {
            Some(b) => Some(b.clone()),
            None => None,
        }
    }
}

// ---- fetching over HTTPS -----------------------------------------------------------------------

/// The name of the web server that holds a domain's policy.
pub fn policy_host(domain: &str) -> (r: String)
    ensures
        r@ == "mta-sts."@ + domain@,
{
    text::concat2("mta-sts.", domain)
}

/// Whether `rustls::pki_types::ServerName::try_from` takes a text for the name of a server: a DNS
/// name or an IP address.
pub uninterp spec fn is_server_name(host: Seq<char>) -> bool;

/// `rustls::pki_types::ServerName::try_from`, as to whether it succeeds. That is a function of the
/// text alone and is given the name [`is_server_name`]; of which texts it holds is not stated.
#[verifier::external_body]
fn names_server(host: &str) -> (r: bool)
    ensures
        r == is_server_name(host@),
{
    rustls::pki_types::ServerName::try_from(host).is_ok()
}

/// A host, if it is the name of a server.
pub open spec fn named(host: Seq<char>, is_name: bool) -> Option<Seq<char>> {
    if is_name {
        Some(host)
    } else {
        None
    }
}

/// A host, if it is the name of a server.
pub fn named_host(host: String, is_name: bool) -> (r: Option<String>)
    ensures
        model::opt_view(r) == named(host@, is_name),
{
    if is_name {
        Some(host)
    } else {
        None
    }
}

/// The name under which the web server that holds a domain's policy must prove itself, if it is one
/// under which a server can.
pub fn policy_server(domain: &str) -> (r: Option<String>)
    ensures
        model::opt_view(r) == named(
            "mta-sts."@ + domain@,
            is_server_name("mta-sts."@ + domain@),
        ),
{
    let host = policy_host(domain);
    let is_name = names_server(host.as_str());
    named_host(host, is_name)
}

/// The request for the policy on a host.
pub open spec fn request_text(host: Seq<char>) -> Seq<char> {
    "GET /.well-known/mta-sts.txt HTTP/1.1\r\nHost: "@ + host
        + "\r\nConnection: close\r\nUser-Agent: envoir-gateway\r\n\r\n"@
}

/// The request for the policy on a host.
pub fn policy_request(host: &str) -> (r: String)
    ensures
        r@ == request_text(host@),
{
    text::concat3(
        "GET /.well-known/mta-sts.txt HTTP/1.1\r\nHost: ",
        host,
        "\r\nConnection: close\r\nUser-Agent: envoir-gateway\r\n\r\n",
    )
}

/// Why a response holds no policy.
#[derive(Debug, Clone, PartialEq, Eq)]
pub enum ResponseError {
    /// No empty line behind the header.
    NoSplit,
    /// The status line, which does not report success.
    NotSuccess(String),
}

/// [`ResponseError`] with its contents as a sequence.
pub enum ResponseErrorModel {
    NoSplit,
    NotSuccess(Seq<char>),
}

impl View for ResponseError {
    type V = ResponseErrorModel;

    open spec fn view(&self) -> ResponseErrorModel {
        match self {
            ResponseError::NoSplit => ResponseErrorModel::NoSplit,
            ResponseError::NotSuccess(l) => ResponseErrorModel::NotSuccess(l@),
        }
    }
}

/// What a response holds as its body.
pub open spec fn response_body(response: Seq<char>) -> Result<Seq<char>, ResponseErrorModel> {
    match text::split_once_text(response, "\r\n\r\n"@) {
        None => Err(ResponseErrorModel::NoSplit),
        Some((head, body)) => if http::is_success(http::status_line(head)) {
            Ok(body)
        } else {
            Err(ResponseErrorModel::NotSuccess(http::status_line(head)))
        },
    }
}

/// The body of the response to a request for a policy.
pub fn body_of_response(response: &[u8]) -> (r: Result<String, ResponseError>)
    ensures
        model::res_view(r) == response_body(text::lossy(response@)),
{
    let t = text::from_utf8_lossy(response);
    let c = text::chars_of(t.as_str());
    match text::cut_at_text(c.as_slice(), "\r\n\r\n") {
        None => Err(ResponseError::NoSplit),
        Some((head, body)) => {
            let status = http::first_line(head);
            if http::reports_success(status.as_slice()) {
                return Ok(text::string_of(body));
            }
            Err(ResponseError::NotSuccess(text::string_of(status.as_slice())))
        },
    }
}

// ---- the policy that is in force ---------------------------------------------------------------

/// Whether delivery must be over TLS.
#[derive(Debug, Clone, Copy, PartialEq, Eq, Structural)]
pub enum TlsRequirement {
    /// TLS or no delivery.
    Required,
    /// TLS where it is offered.
    Opportunistic,
}

/// Says how mail for a domain must travel.
pub trait TlsPolicy {
    /// Whether the given requirement may be reported for a domain.
    open spec fn may_require(&self, domain: Seq<char>, r: TlsRequirement) -> bool {
        true
    }

    /// Whether the given patterns may be reported for a domain.
    open spec fn may_allow(&self, domain: Seq<char>, patterns: Seq<Seq<char>>) -> bool {
        true
    }

    /// Whether mail for a domain must travel over TLS.
    fn requirement_for(&self, dest_domain: &str) -> (r: TlsRequirement)
        ensures
            self.may_require(dest_domain@, r),
    ;

    /// The patterns of the hosts that mail for a domain may go to; none where any host will do.
    fn allowed_mx_patterns(&self, dest_domain: &str) -> (r: Vec<String>)
        ensures
            self.may_allow(dest_domain@, text::string_views(r@)),
    ;
}

/// Whether the records of a domain say that it takes part.
pub open spec fn signals(records: Seq<Seq<char>>) -> bool {
    exists|i: int|
        0 <= i < records.len() && "v=STSv1"@.is_prefix_of(
            text::strip_front(#[trigger] records[i], |c: char| text::is_white(c)),
        )
}

/// The policy in force, given the records of a domain and the text that its server holds.
pub open spec fn in_force(records: Seq<Seq<char>>, body: Option<Seq<char>>) -> Option<PolicyModel> {
    if !signals(records) {
        None
    } else {
        match body {
            None => None,
            Some(b) => match policy(b) {
                Ok(p) => Some(p),
                Err(_) => None,
            },
        }
    }
}

/// What a policy, or the lack of one, requires.
pub open spec fn requirement(p: Option<PolicyModel>) -> TlsRequirement {
    match p {
        Some(q) => if q.mode == PolicyMode::Enforce {
            TlsRequirement::Required
        } else {
            TlsRequirement::Opportunistic
        },
        None => TlsRequirement::Opportunistic,
    }
}

/// The hosts that a policy, or the lack of one, confines delivery to.
pub open spec fn allowed(p: Option<PolicyModel>) -> Seq<Seq<char>> {
    match p {
        Some(q) => if q.mode == PolicyMode::Enforce {
            q.mx_patterns
        } else {
            Seq::empty()
        },
        None => Seq::empty(),
    }
}

/// Whether the records of a domain say that it takes part.
pub fn is_signaled(records: &Vec<String>) -> (r: bool)
    ensures
        r == signals(text::string_views(records@)),
{
    let ghost all = text::string_views(records@);
    let tag = text::chars_of("v=STSv1");
    let mut i: usize = 0;
    while i < records.len()
        invariant
            i <= records@.len(),
            all == text::string_views(records@),
            tag@ == "v=STSv1"@,
            forall|j: int|
                0 <= j < i ==> !"v=STSv1"@.is_prefix_of(
                    text::strip_front(#[trigger] all[j], |c: char| text::is_white(c)),
                ),
        decreases records@.len() - i,
    {
        let c = text::chars_of(records[i].as_str());
        assert(c@ == all[i as int]);
        if text::has_prefix(text::skip_white(c.as_slice()), tag.as_slice()) {
            return true;
        }
        i += 1;
    }
    false
}

/// The policy in force, given the records of a domain and the text that its server holds.
pub fn policy_in_force(records: &Vec<String>, body: Option<&str>) -> (r: Option<StsPolicy>)
    ensures
        model::opt_view(r) == in_force(
            text::string_views(records@),
            match body {
                Some(b) => Some(b@),
                None => None,
            },
        ),
{
    if !is_signaled(records) {
        return None;
    }
    match body {
        None => None,
        Some(b) => match parse_policy(b) {
            Ok(p) => Some(p),
            Err(_) => None,
        },
    }
}

/// MTA-STS as a policy: what a domain's records and its web server say.
pub struct MtaStsTlsPolicy<T: TxtResolver, F: PolicyFetcher> {
    pub txt: T,
    pub fetcher: F,
}

impl<T: TxtResolver, F: PolicyFetcher> MtaStsTlsPolicy<T, F> {
    /// A policy over the two lookups.
    pub fn new(txt: T, fetcher: F) -> (r: Self)
        ensures
            r.txt == txt,
            r.fetcher == fetcher,
    {
        MtaStsTlsPolicy { txt, fetcher }
    }

    /// Whether the two lookups may lead to the given policy being in force.
    pub open spec fn may_resolve(&self, domain: Seq<char>, p: Option<PolicyModel>) -> bool {
        exists|records: Seq<Seq<char>>, body: Option<Seq<char>>|
            #![trigger in_force(records, body)]
            {
                &&& self.txt.may_answer("_mta-sts."@ + domain, records)
                &&& signals(records) ==> self.fetcher.may_serve(domain, body)
                &&& p == in_force(records, body)
            }
    }

    /// The policy in force for a domain. The server is asked only if the domain takes part.
    pub fn resolve(&self, domain: &str) -> (r: Option<StsPolicy>)
        ensures
            self.may_resolve(domain@, model::opt_view(r)),
    {
        let name = text::concat2("_mta-sts.", domain);
        let records = self.txt.lookup_txt(name.as_str());
        if !is_signaled(&records) {
            assert(in_force(text::string_views(records@), None) is None);
            return None;
        }
        let body = self.fetcher.fetch_policy(domain);
        assert(signals(text::string_views(records@)));
        let ghost bv = model::opt_view(body);
        match body {
            None => {
                assert(in_force(text::string_views(records@), bv) is None);
                None
            },
            Some(b) => policy_in_force(&records, Some(b.as_str())),
        }
    }
}

impl<T: TxtResolver, F: PolicyFetcher> TlsPolicy for MtaStsTlsPolicy<T, F> {
    open spec fn may_require(&self, domain: Seq<char>, r: TlsRequirement) -> bool {
        exists|p: Option<PolicyModel>| #[trigger] self.may_resolve(domain, p) && r == requirement(p)
    }

    open spec fn may_allow(&self, domain: Seq<char>, patterns: Seq<Seq<char>>) -> bool {
        exists|p: Option<PolicyModel>|
            #[trigger] self.may_resolve(domain, p) && patterns == allowed(p)
    }

    fn requirement_for(&self, dest_domain: &str) -> (r: TlsRequirement) {
        let p = self.resolve(dest_domain);
        assert(self.may_resolve(dest_domain@, model::opt_view(p)));
        match p {
            Some(q) => if q.mode == PolicyMode::Enforce {
                TlsRequirement::Required
            } else {
                TlsRequirement::Opportunistic
            },
            None => TlsRequirement::Opportunistic,
        }
    }

    fn allowed_mx_patterns(&self, dest_domain: &str) -> (r: Vec<String>) {
        let p = self.resolve(dest_domain);
        let ghost pv = model::opt_view(p);
        assert(self.may_resolve(dest_domain@, pv));
        let none: Vec<String> = Vec::new();
        assert(text::string_views(none@) =~= Seq::<Seq<char>>::empty());
        let out = match p {
            Some(q) => if q.mode == PolicyMode::Enforce {
                q.mx_patterns
            } else {
                none
            },
            None => none,
        };
        assert(text::string_views(out@) == allowed(pv));
        out
    }
}

// ---- laws --------------------------------------------------------------------------------------

/// A policy in force that requires TLS confines delivery to at least one pattern: there is no
/// policy that requires TLS and lets mail go to any host.
pub proof fn law_required_means_confined(records: Seq<Seq<char>>, body: Option<Seq<char>>)
    ensures
        requirement(in_force(records, body)) == TlsRequirement::Required <==> allowed(
            in_force(records, body),
        ).len() > 0,
{
}

/// Where the domain does not take part, where its text cannot be had and where it cannot be read,
/// nothing is required and no host is ruled out.
pub proof fn law_no_policy_is_opportunistic(records: Seq<Seq<char>>, body: Option<Seq<char>>)
    requires
        !signals(records) || body is None || policy(body->0) is Err,
    ensures
        requirement(in_force(records, body)) == TlsRequirement::Opportunistic,
        allowed(in_force(records, body)) == Seq::<Seq<char>>::empty(),
{
}

/// A wildcard covers neither its own suffix nor a name with two labels in front of it.
pub proof fn law_wildcard_is_one_label(label: Seq<char>, suffix: Seq<char>)
    requires
        suffix.len() > 0,
        suffix[0] == '.',
    ensures
        one_label_before(label + suffix, suffix) <==> label.len() > 0 && !label.contains('.'),
{
    if one_label_before(label + suffix, suffix) {
        let other = choose|other: Seq<char>|
            other.len() > 0 && !other.contains('.') && label + suffix == #[trigger] (other
                + suffix);
        assert((label + suffix).len() == label.len() + suffix.len());
        assert((other + suffix).len() == other.len() + suffix.len());
        assert((label + suffix).take(label.len() as int) =~= label);
        assert((other + suffix).take(other.len() as int) =~= other);
    }
}

/// Whether a pattern covers a host does not depend on the case of either.
pub proof fn law_covers_in_any_case(pattern: Seq<char>, host: Seq<char>)
    ensures
        covers(pattern, host) == covers(text::lower(pattern), text::lower(host)),
{
    lemma_bare_lower(pattern);
    lemma_bare_lower(host);
    text::lemma_lower_idempotent(bare(pattern));
    text::lemma_lower_idempotent(bare(host));
    reveal_strlit("*.");
    let p = bare(pattern);
    assert("*."@.is_prefix_of(p) <==> "*."@.is_prefix_of(text::lower(p))) by {
        let l = text::lower(p);
        if p.len() >= 2 {
            assert(l[0] == text::lower_char(p[0]) && l[1] == text::lower_char(p[1]));
            if "*."@.is_prefix_of(l) {
                assert("*."@ =~= p.take(2));
            }
            if "*."@.is_prefix_of(p) {
                assert("*."@ =~= l.take(2));
            }
        }
    }
}

proof fn lemma_bare_lower(s: Seq<char>)
    ensures
        bare(text::lower(s)) == text::lower(bare(s)),
{
    let w = |c: char| text::is_white(c);
    let dot = |c: char| c == '.';
    text::lemma_strip_lower(s, w);
    let a = text::strip_front(s, w);
    text::lemma_strip_lower(a, w);
    let b = text::strip_back(a, w);
    text::lemma_strip_lower(b, dot);
}

/// What one more line does to a policy that is being read: a line with the key `version`, `mode`, `mx`
/// or `max_age` sets that field, or adds a pattern, and leaves the others; a line with another key and
/// one without any text leave all of them.
pub proof fn law_each_line_sets_its_field(
    lines: Seq<Seq<char>>,
    d: DraftModel,
    key: Seq<char>,
    value: Seq<char>,
)
    requires
        draft(lines) == Ok::<DraftModel, StsParseErrorModel>(d),
        key.len() > 0,
        !text::is_white(key[0]),
        !text::is_white(key.last()),
        !key.contains(':'),
        value.len() > 0,
        !text::is_white(value[0]),
        !text::is_white(value.last()),
    ensures
        ({
            let r = draft(lines.push(key + seq![':', ' '] + value));
            &&& key == "version"@ ==> r == Ok::<DraftModel, StsParseErrorModel>(
                DraftModel { version: Some(value), mode: d.mode, mx: d.mx, max_age: d.max_age },
            )
            &&& key == "mx"@ ==> r == Ok::<DraftModel, StsParseErrorModel>(
                DraftModel {
                    version: d.version,
                    mode: d.mode,
                    mx: d.mx.push(value),
                    max_age: d.max_age,
                },
            )
            &&& key == "mode"@ && value == "enforce"@ ==> r == Ok::<DraftModel, StsParseErrorModel>(
                DraftModel {
                    version: d.version,
                    mode: Some(PolicyMode::Enforce),
                    mx: d.mx,
                    max_age: d.max_age,
                },
            )
            &&& key == "mode"@ && value == "testing"@ ==> r == Ok::<DraftModel, StsParseErrorModel>(
                DraftModel {
                    version: d.version,
                    mode: Some(PolicyMode::Testing),
                    mx: d.mx,
                    max_age: d.max_age,
                },
            )
            &&& key == "mode"@ && value == "none"@ ==> r == Ok::<DraftModel, StsParseErrorModel>(
                DraftModel {
                    version: d.version,
                    mode: Some(PolicyMode::OptOut),
                    mx: d.mx,
                    max_age: d.max_age,
                },
            )
            &&& key == "mode"@ && value != "enforce"@ && value != "testing"@ && value != "none"@
                ==> r == Err::<DraftModel, StsParseErrorModel>(
                StsParseErrorModel::UnknownMode(value),
            )
            &&& key == "max_age"@ ==> r == Ok::<DraftModel, StsParseErrorModel>(
                DraftModel {
                    version: d.version,
                    mode: d.mode,
                    mx: d.mx,
                    max_age: match text::parse_dec(value, u64::MAX as nat) {
                        Some(n) => Some(n as u64),
                        None => None,
                    },
                },
            )
            &&& key != "version"@ && key != "mx"@ && key != "mode"@ && key != "max_age"@ ==> r == Ok::<
                DraftModel,
                StsParseErrorModel,
            >(d)
        }),
        draft(lines.push(Seq::<char>::empty())) == Ok::<DraftModel, StsParseErrorModel>(d),
        draft(lines.push(key)) == Err::<DraftModel, StsParseErrorModel>(
            StsParseErrorModel::MalformedLine,
        ),
{
    let none = Seq::<char>::empty();
    let line = key + seq![':', ' '] + value;
    assert(lines.push(line).drop_last() =~= lines);
    assert(lines.push(none).drop_last() =~= lines);
    assert(lines.push(key).drop_last() =~= lines);
    assert(line[0] == key[0]);
    assert(line.last() == value.last());
    text::lemma_nothing_to_trim(line);
    text::lemma_nothing_to_trim(key);
    text::lemma_nothing_to_trim(none);
    let v = seq![' '] + value;
    assert(line =~= key + seq![':'] + v);
    text::law_cut_at_the_first(key, ':', v);
    text::law_trim_takes_the_ends(seq![' '], value, none);
    assert(seq![' '] + value + none =~= v);
    reveal_strlit("version");
    reveal_strlit("mode");
    reveal_strlit("mx");
    reveal_strlit("max_age");
    reveal_strlit("enforce");
    reveal_strlit("testing");
    reveal_strlit("none");
    assert("mx"@.len() == 2 && "mode"@.len() == 4);
    assert("version"@[0] != "max_age"@[0]);
    assert("enforce"@[0] != "testing"@[0]);
    assert("none"@.len() == 4 && "enforce"@.len() == 7 && "testing"@.len() == 7);
}

/// What has been read is a policy exactly if its version is `STSv1`, it has a mode, and it lists a
/// pattern unless it opts out. Without an age it is good for a day. Else the first thing that is
/// missing is named.
pub proof fn law_what_makes_a_policy(d: DraftModel)
    ensures
        match finished(d) {
            Ok(p) => d.version == Some("STSv1"@) && d.mode == Some(p.mode) && p.mx_patterns == d.mx
                && (p.mode == PolicyMode::OptOut || d.mx.len() > 0) && (d.max_age is Some
                ==> p.max_age == d.max_age->0) && (d.max_age is None ==> p.max_age == 86_400),
            Err(StsParseErrorModel::MissingVersion) => d.version is None,
            Err(StsParseErrorModel::UnsupportedVersion(v)) => d.version == Some(v) && v != "STSv1"@,
            Err(StsParseErrorModel::MissingMode) => d.version == Some("STSv1"@) && d.mode is None,
            Err(StsParseErrorModel::NoMxPatterns) => d.version == Some("STSv1"@) && d.mode is Some
                && d.mode != Some(PolicyMode::OptOut) && d.mx.len() == 0,
            Err(_) => false,
        },
        draft(Seq::<Seq<char>>::empty()) == Ok::<DraftModel, StsParseErrorModel>(
            DraftModel { version: None, mode: None, mx: Seq::empty(), max_age: None },
        ),
{
}

/// TLS and a listed host are asked for exactly where the domain says that it takes part, its policy
/// can be had and read, and the policy enforces; the hosts are then those of the policy.
pub proof fn law_only_enforced_policies_bind(records: Seq<Seq<char>>, body: Option<Seq<char>>)
    ensures
        requirement(in_force(records, body)) == TlsRequirement::Required <==> {
            &&& exists|i: int|
                0 <= i < records.len() && "v=STSv1"@.is_prefix_of(
                    text::strip_front(#[trigger] records[i], |c: char| text::is_white(c)),
                )
            &&& body is Some
            &&& policy(body->0) matches Ok(p) && p.mode == PolicyMode::Enforce
        },
        requirement(in_force(records, body)) == TlsRequirement::Required ==> allowed(
            in_force(records, body),
        ) == policy(body->0)->Ok_0.mx_patterns,
        requirement(in_force(records, body)) != TlsRequirement::Required ==> allowed(
            in_force(records, body),
        ).len() == 0,
        forall|b: Seq<char>| #[trigger]
            policy(b) == (match draft(text::lines(b)) {
                Err(e) => Err(e),
                Ok(d) => finished(d),
            }),
{
}

/// A pattern that begins with `*.` covers the hosts with one label more in front of the rest of it,
/// in any case; any other covers the host of that name alone.
pub proof fn law_what_a_pattern_covers(name: Seq<char>, label: Seq<char>, host: Seq<char>)
    requires
        name.len() > 0,
        !text::is_white(name[0]) && !text::is_white(name.last()) && name.last() != '.',
        name[0] != '*',
        host.len() > 0,
        !text::is_white(host[0]) && !text::is_white(host.last()) && host.last() != '.',
        label.len() > 0 ==> !text::is_white(label[0]),
    ensures
        covers(name, host) <==> text::lower(name) == text::lower(host),
        covers(seq!['*', '.'] + name, label + seq!['.'] + name) <==> label.len() > 0
            && !label.contains('.'),
        !covers(seq!['*', '.'] + name, name),
{
    reveal_strlit("*.");
    let dot = |c: char| c == '.';
    assert("*."@ =~= seq!['*', '.']);
    lemma_bare(name);
    lemma_bare(host);
    assert(!"*."@.is_prefix_of(name));
    let w = seq!['*', '.'] + name;
    assert(w[0] == '*' && w.last() == name.last());
    lemma_bare(w);
    assert("*."@.is_prefix_of(w));
    let l = text::lower(label);
    let n = text::lower(name);
    let suffix = seq!['.'] + n;
    assert(text::lower(w).skip(1) =~= suffix);
    let h = label + seq!['.'] + name;
    assert(h.last() == name.last());
    if label.len() > 0 {
        assert(h[0] == label[0]);
    } else {
        assert(h[0] == '.');
    }
    lemma_bare(h);
    assert(text::lower(h) =~= l + suffix);
    law_wildcard_is_one_label(l, suffix);
    assert(l.contains('.') <==> label.contains('.')) by {
        if l.contains('.') {
            let i = choose|i: int| 0 <= i < l.len() && l[i] == '.';
            assert(label[i] == '.');
        }
        if label.contains('.') {
            let i = choose|i: int| 0 <= i < label.len() && label[i] == '.';
            assert(l[i] == '.');
        }
    }
    if one_label_before(n, suffix) {
        let x = choose|x: Seq<char>|
            x.len() > 0 && !x.contains('.') && n == #[trigger] (x + suffix);
        assert((x + suffix).len() > n.len());
    }
}

proof fn lemma_bare(s: Seq<char>)
    requires
        s.len() > 0,
        !text::is_white(s[0]) && !text::is_white(s.last()) && s.last() != '.',
    ensures
        bare(s) == s,
{
    text::lemma_nothing_to_trim(s);
}

proof fn lemma_index_of_text(s: Seq<char>, sep: Seq<char>, from: int, k: int)
    requires
        0 <= from <= k,
        k + sep.len() <= s.len(),
        s.subrange(k, k + sep.len()) == sep,
        forall|j: int| from <= j < k ==> #[trigger] s.subrange(j, j + sep.len()) != sep,
    ensures
        text::index_of_text(s, sep, from) == Some(k),
    decreases k - from,
{
    if from < k {
        assert(s.subrange(from, from + sep.len()) != sep);
        lemma_index_of_text(s, sep, from + 1, k);
    }
}

/// The policy in a response is what stands behind the first empty line, if the first line reports
/// success with a code of three digits that begins with a two.
pub proof fn law_policy_is_the_body_of_a_success(
    first: Seq<char>,
    more: Seq<char>,
    body: Seq<char>,
    head: Seq<char>,
    response: Seq<char>,
)
    requires
        !first.contains('\n'),
        first.len() > 0 && first.last() != '\r',
        head == first + seq!['\r', '\n'] + more,
        response == head + seq!['\r', '\n', '\r', '\n'] + body,
        forall|j: int|
            0 <= j < head.len() ==> #[trigger] response.subrange(j, j + 4) != seq![
                '\r',
                '\n',
                '\r',
                '\n',
            ],
    ensures
        ({
            let w = text::words(first);
            let success = w.len() > 1 && w[1].len() == 3 && w[1][0] == '2' && '0' <= w[1][1]
                && w[1][1] <= '9' && '0' <= w[1][2] && w[1][2] <= '9';
            &&& success ==> response_body(response) == Ok::<Seq<char>, ResponseErrorModel>(body)
            &&& !success ==> response_body(response) == Err::<Seq<char>, ResponseErrorModel>(
                ResponseErrorModel::NotSuccess(first),
            )
        }),
{
    reveal_strlit("\r\n\r\n");
    let sep = "\r\n\r\n"@;
    assert(sep =~= seq!['\r', '\n', '\r', '\n']);
    let n = head.len() as int;
    assert(response.subrange(n, n + 4) =~= sep);
    lemma_index_of_text(response, sep, 0, n);
    assert(response.take(n) =~= head);
    assert(response.skip(n + 4) =~= body);
    text::law_lines_end_with_line_feeds(first, more);
}

/// What asks for a policy, and a table answers for a name in whatever case.
pub proof fn law_how_policies_are_asked_for(
    host: Seq<char>,
    t: Map<Seq<char>, Seq<Seq<char>>>,
    b: Map<Seq<char>, Seq<char>>,
    name: Seq<char>,
    other: Seq<char>,
    records: Seq<Seq<char>>,
    body: Seq<char>,
)
    requires
        text::lower(other) == text::lower(name),
    ensures
        request_text(host) == "GET /.well-known/mta-sts.txt HTTP/1.1\r\n"@ + "Host: "@ + host
            + "\r\n"@ + "Connection: close\r\n"@ + "User-Agent: envoir-gateway\r\n"@ + "\r\n"@,
        table_records(t.insert(text::lower(name), records), other) == records,
        !t.contains_key(text::lower(name)) ==> table_records(t, other).len() == 0,
        table_body(b.insert(text::lower(name), body), other) == Some(body),
        !b.contains_key(text::lower(name)) ==> table_body(b, other) is None,
        named(host, true) == Some(host),
        named(host, false) is None,
{
    reveal_strlit("GET /.well-known/mta-sts.txt HTTP/1.1\r\nHost: ");
    reveal_strlit("\r\nConnection: close\r\nUser-Agent: envoir-gateway\r\n\r\n");
    reveal_strlit("GET /.well-known/mta-sts.txt HTTP/1.1\r\n");
    reveal_strlit("Host: ");
    reveal_strlit("Connection: close\r\n");
    reveal_strlit("User-Agent: envoir-gateway\r\n");
    reveal_strlit("\r\n");
    let first = "GET /.well-known/mta-sts.txt HTTP/1.1\r\n"@ + "Host: "@;
    assert(first =~= "GET /.well-known/mta-sts.txt HTTP/1.1\r\nHost: "@);
    let last = "\r\n"@ + "Connection: close\r\n"@ + "User-Agent: envoir-gateway\r\n"@ + "\r\n"@;
    assert(last =~= "\r\nConnection: close\r\nUser-Agent: envoir-gateway\r\n\r\n"@);
    assert(first + host + "\r\n"@ + "Connection: close\r\n"@ + "User-Agent: envoir-gateway\r\n"@
        + "\r\n"@ =~= first + host + last);
}

/// A table serves for a domain, in whatever case, the text that was set for it, and else none.
pub proof fn law_table_serves_its_texts(
    t: InMemoryPolicyFetcher,
    r: InMemoryTxtResolver,
    domain: Seq<char>,
    body: Option<Seq<char>>,
    records: Seq<Seq<char>>,
)
    ensures
        t@.contains_key(text::lower(domain)) ==> (t.may_serve(domain, body) <==> body == Some(
            t@[text::lower(domain)],
        )),
        !t@.contains_key(text::lower(domain)) ==> (t.may_serve(domain, body) <==> body is None),
        r@.contains_key(text::lower(domain)) ==> (r.may_answer(domain, records) <==> records
            == r@[text::lower(domain)]),
        !r@.contains_key(text::lower(domain)) ==> (r.may_answer(domain, records) <==> records
            == Seq::<Seq<char>>::empty()),
{
}

} // verus!
