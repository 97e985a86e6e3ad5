//! The control surface of a gateway for many domains.
//!
//! Every request must carry the operator's token; without a token set, every request is refused.
//! What a request asks for is found from its method and its path, and its parameters are in a form.

use crate::alias_map;
use crate::alias_map::AliasTarget;
use crate::b64;
use crate::directory;
use crate::directory::RecipientKey;
use crate::dkim;
use crate::json;
use crate::model;
use crate::multidomain;
use crate::multidomain::{DomainUsage, MultiDomainError, MultiDomainGateway, UsageMeter};
use crate::names;
use crate::quota;
use crate::quota::Quota;
use crate::seqmap::SeqMap;
use crate::sorting;
use crate::text;
use crate::vanity;
use vstd::prelude::*;
use vstd::slice::slice_to_vec;

verus! {

// ---- who may ask -------------------------------------------------------------------------------

/// The operator's token, if one is set.
#[derive(Debug, Clone)]
pub struct AdminAuth {
    token: Option<String>,
}

impl View for AdminAuth {
    type V = Option<Seq<char>>;

    closed spec fn view(&self) -> Option<Seq<char>> {
        model::opt_view(self.token)
    }
}

/// Whether a presented token is the one that is set.
pub open spec fn authorized(token: Option<Seq<char>>, presented: Option<Seq<char>>) -> bool {
    token is Some && presented == token
}

impl AdminAuth {
    /// No token: every request is refused.
    pub fn disabled() -> (r: Self)
        ensures
            r@ is None,
    {
        AdminAuth { token: None }
    }

    /// The given token. A blank one is none.
    pub fn with_token(token: &str) -> (r: Self)
        ensures
            r@ == (if text::trim(token@).len() == 0 {
                None
            } else {
                Some(token@)
            }),
    {
        let c = text::chars_of(token);
        if text::trimmed(c.as_slice()).len() == 0 {
            AdminAuth { token: None }
        } else {
            AdminAuth { token: Some(text::string_from(token)) }
        }
    }

    /// Whether a token is set.
    pub fn is_enabled(&self) -> (r: bool)
        ensures
            r == (self@ is Some),
    {
        self.token.is_some()
    }

    /// Whether a presented token is the one that is set. How long this takes does not depend on
    /// where two tokens of the same length differ.
    pub fn authorize(&self, presented: Option<&str>) -> (r: bool)
        ensures
            r == authorized(
                self@,
                match presented {
                    Some(p) => Some(p@),
                    None => None,
                },
            ),
    {
        match &self.token {
            None => false,
            Some(expected) => match presented {
                None => false,
                Some(p) => {
                    proof {
                        vstd::utf8::encode_utf8_decode_utf8(expected@);
                        vstd::utf8::encode_utf8_decode_utf8(p@);
                    }
                    ct_eq(expected.as_str().as_bytes(), p.as_bytes())
                },
            },
        }
    }
}

/// Whether octets are the same, found without stopping at the first difference.
pub fn ct_eq(a: &[u8], b: &[u8]) -> (r: bool)
    ensures
        r == (a@ == b@),
{
    let n: usize = a.len();
    if n != b.len() {
        return false;
    }
    let mut diff: u8 = 0;
    let mut i: usize = 0;
    while i < n
        invariant
            i <= n,
            n == a@.len(),
            n == b@.len(),
            diff == 0 <==> forall|j: int| 0 <= j < i ==> a@[j] == b@[j],
        decreases n - i,
    {
        let x: u8 = a[i];
        let y: u8 = b[i];
        let before: u8 = diff;
        diff = before | (x ^ y);
        assert((before | (x ^ y)) == 0 <==> before == 0 && x == y) by (bit_vector);
        i += 1;
    }
    proof {
        if diff == 0 {
            assert(a@ =~= b@);
        }
    }
    diff == 0
}

// ---- requests and responses --------------------------------------------------------------------

/// A request.
#[derive(Debug, Clone)]
pub struct AdminRequest {
    /// In upper case.
    pub method: String,
    pub path: String,
    pub token: Option<String>,
    pub body: Vec<u8>,
    pub now_ms: u64,
}

/// [`AdminRequest`] with its contents as sequences.
pub struct RequestModel {
    pub method: Seq<char>,
    pub path: Seq<char>,
    pub token: Option<Seq<char>>,
    pub body: Seq<u8>,
    pub now_ms: u64,
}

impl View for AdminRequest {
    type V = RequestModel;

    open spec fn view(&self) -> RequestModel {
        RequestModel {
            method: self.method@,
            path: self.path@,
            token: model::opt_view(self.token),
            body: self.body@,
            now_ms: self.now_ms,
        }
    }
}

impl AdminRequest {
    /// A request with its method in upper case.
    pub fn new(method: &str, path: &str, token: Option<String>, body: Vec<u8>, now_ms: u64) -> (r:
        Self)
        ensures
            r@ == (RequestModel {
                method: text::upper(method@),
                path: path@,
                token: model::opt_view(token),
                body: body@,
                now_ms,
            }),
    {
        AdminRequest {
            method: text::upper_str(method),
            path: text::string_from(path),
            token,
            body,
            now_ms,
        }
    }
}

/// A response: a status and a JSON text.
#[derive(Debug, Clone, PartialEq, Eq)]
pub struct AdminResponse {
    pub status: u16,
    pub body: String,
}

/// [`AdminResponse`] with its text as a sequence.
pub struct ResponseModel {
    pub status: u16,
    pub body: Seq<char>,
}

impl View for AdminResponse {
    type V = ResponseModel;

    open spec fn view(&self) -> ResponseModel {
        ResponseModel { status: self.status, body: self.body@ }
    }
}

/// The response to a request that was carried out.
pub open spec fn ok(body: Seq<char>) -> ResponseModel {
    ResponseModel { status: 200, body }
}

/// The response to a request that made something.
pub open spec fn created(body: Seq<char>) -> ResponseModel {
    ResponseModel { status: 201, body }
}

/// The response to a request that was refused.
pub open spec fn refused(status: u16, message: Seq<char>) -> ResponseModel {
    ResponseModel { status, body: "{\"ok\":false,\"error\":"@ + json::json(message) + "}"@ }
}

/// The phrase for a status.
pub open spec fn phrase(status: u16) -> Seq<char> {
    if status == 200 {
        "OK"@
    } else if status == 201 {
        "Created"@
    } else if status == 400 {
        "Bad Request"@
    } else if status == 401 {
        "Unauthorized"@
    } else if status == 404 {
        "Not Found"@
    } else if status == 405 {
        "Method Not Allowed"@
    } else if status == 409 {
        "Conflict"@
    } else {
        "Internal Server Error"@
    }
}

impl AdminResponse {
    fn ok(body: String) -> (r: Self)
        ensures
            r@ == ok(body@),
    {
        AdminResponse { status: 200, body }
    }

    fn created(body: String) -> (r: Self)
        ensures
            r@ == created(body@),
    {
        AdminResponse { status: 201, body }
    }

    /// The response to a request that was refused.
    pub fn err(status: u16, message: &str) -> (r: Self)
        ensures
            r@ == refused(status, message@),
    {
        AdminResponse {
            status,
            body: text::concat3(
                "{\"ok\":false,\"error\":",
                json::json_str(message).as_str(),
                "}",
            ),
        }
    }

    /// The phrase for the status.
    pub fn reason(&self) -> (r: &'static str)
        ensures
            r@ == phrase(self.status),
    {
        match self.status {
            200 => "OK",
            201 => "Created",
            400 => "Bad Request",
            401 => "Unauthorized",
            404 => "Not Found",
            405 => "Method Not Allowed",
            409 => "Conflict",
            _ => "Internal Server Error",
        }
    }

    /// The head of the response. The text follows it.
    pub fn head(&self) -> (r: String)
        ensures
            r@ == "HTTP/1.1 "@ + text::dec(self.status as nat) + " "@ + phrase(self.status)
                + "\r\nContent-Type: application/json\r\nContent-Length: "@ + text::dec(
                vstd::utf8::encode_utf8(self.body@).len(),
            ) + "\r\nConnection: close\r\n\r\n"@,
    {
        let n: usize = self.body.as_str().as_bytes().len();
        let mut out = text::concat3(
            "HTTP/1.1 ",
            text::dec_string(self.status as u64).as_str(),
            " ",
        );
        out.append(self.reason());
        out.append("\r\nContent-Type: application/json\r\nContent-Length: ");
        out.append(text::dec_string(n as u64).as_str());
        out.append("\r\nConnection: close\r\n\r\n");
        out
    }
}

// ---- forms -------------------------------------------------------------------------------------

/// A form: the value of each name.
pub type FormModel = Map<Seq<char>, Seq<char>>;

/// A text with a `&` in place of each line end.
pub open spec fn one_line(s: Seq<char>) -> Seq<char> {
    Seq::new(
        s.len(),
        |i: int|
            if s[i] == '\n' {
                '&'
            } else {
                s[i]
            },
    )
}

/// The form with one more pair. What has no `=` is no pair.
pub open spec fn with_pair(f: FormModel, pair: Seq<char>) -> FormModel {
    match text::split_once(text::trim(pair), '=') {
        Some((k, v)) => f.insert(text::trim(k), text::trim(v)),
        None => f,
    }
}

/// The form with the given pairs. A name that stands twice has its last value.
pub open spec fn form_of(pairs: Seq<Seq<char>>) -> FormModel
    decreases pairs.len(),
{
    if pairs.len() == 0 {
        Map::empty()
    } else {
        with_pair(form_of(pairs.drop_last()), pairs.last())
    }
}

/// The form that a body spells: pairs with `&` or line ends between them.
pub open spec fn form_in(body: Seq<u8>) -> FormModel {
    form_of(text::split(one_line(text::lossy(body)), '&'))
}

/// The value of a name. An empty one is none.
pub open spec fn field(f: FormModel, key: Seq<char>) -> Option<Seq<char>> {
    if f.contains_key(key) && f[key].len() > 0 {
        Some(f[key])
    } else {
        None
    }
}

/// A form.
pub struct Form {
    fields: SeqMap<char, String>,
}

impl View for Form {
    type V = FormModel;

    closed spec fn view(&self) -> FormModel {
        self.fields@
    }
}

impl Form {
    /// The value of a name. An empty one is none.
    pub fn field(&self, key: &str) -> (r: Option<&str>)
        ensures
            model::opt_view(r) == field(self@, key@),
    {
        let k = text::chars_of(key);
        match self.fields.get(k.as_slice()) {
            Some(v) => {
                let c = text::chars_of(v.as_str());
                if c.len() > 0 {
                    Some(v.as_str())
                } else {
                    None
                }
            },
            None => None,
        }
    }
}

/// Reads a form. Values are taken as they are, so that base64 survives.
pub fn parse_form(body: &[u8]) -> (r: Form)
    ensures
        r@ == form_in(body@),
{
    let t = text::from_utf8_lossy(body);
    let c = text::chars_of(t.as_str());
    let mut flat: Vec<char> = Vec::new();
    let mut i: usize = 0;
    while i < c.len()
        invariant
            i <= c@.len(),
            flat@.len() == i,
            forall|j: int| 0 <= j < i ==> flat@[j] == one_line(c@)[j],
        decreases c@.len() - i,
    {
        flat.push(
            if c[i] == '\n' {
                '&'
            } else {
                c[i]
            },
        );
        i += 1;
    }
    assert(flat@ =~= one_line(c@));
    let pairs = text::split_at_each(flat.as_slice(), '&');
    let ghost all = text::views(pairs@);
    let mut form = Form { fields: SeqMap::new() };
    let mut k: usize = 0;
    assert(form@ == form_of(all.take(0)));
    while k < pairs.len()
        invariant
            k <= pairs@.len(),
            all == text::views(pairs@),
            form@ == form_of(all.take(k as int)),
        decreases pairs@.len() - k,
    {
        assert(all.take(k + 1).drop_last() =~= all.take(k as int));
        assert(all.take(k + 1).last() == pairs@[k as int]@);
        let pair = text::trimmed(pairs[k].as_slice());
        if let Some((name, value)) = text::cut_first(pair, '=') {
            let _ = form.fields.insert(
                text::trimmed(name),
                text::string_of(text::trimmed(value)),
            );
        }
        k += 1;
    }
    assert(all.take(k as int) =~= all);
    form
}

// ---- parameters --------------------------------------------------------------------------------

/// A number, or what is wrong with it.
pub open spec fn number_in(f: FormModel, key: Seq<char>, complaint: Seq<char>) -> Result<
    u64,
    Seq<char>,
> {
    match field(f, key) {
        None => Ok(0),
        Some(v) => match text::parse_dec(v, u64::MAX as nat) {
            Some(n) => Ok(n as u64),
            None => Err(complaint),
        },
    }
}

/// The quota that a form asks for, if it asks for one: what may be used up is free.
pub open spec fn quota_in(f: FormModel) -> Result<Option<Quota>, Seq<char>> {
    if field(f, "quota_messages"@) is None && field(f, "quota_bytes"@) is None {
        Ok(None)
    } else {
        match number_in(
            f,
            "quota_messages"@,
            "quota_messages must be a non-negative integer"@,
        ) {
            Err(e) => Err(e),
            Ok(m) => match number_in(
                f,
                "quota_bytes"@,
                "quota_bytes must be a non-negative integer"@,
            ) {
                Err(e) => Err(e),
                Ok(b) => Ok(
                    Some(
                        Quota {
                            free_messages: m,
                            hard_cap_messages: m,
                            free_bytes: b,
                            hard_cap_bytes: b,
                        },
                    ),
                ),
            },
        }
    }
}

/// The destination of an alias: `native:` and an address, or `identity:` and a key in base64.
pub open spec fn target_in(raw: Seq<char>) -> Result<alias_map::TargetModel, Seq<char>> {
    match text::strip_prefix(raw, "native:"@) {
        Some(rest) => match text::rsplit_once(rest, '@') {
            None => Err("native target must be native:<local>@<domain>"@),
            Some((local, domain)) => if local.len() == 0 || domain.len() == 0 {
                Err("native target local-part and domain must be non-empty"@)
            } else {
                Ok(alias_map::TargetModel::Native { local, domain })
            },
        },
        None => match text::strip_prefix(raw, "identity:"@) {
            Some(b) => match b64::decoding(b) {
                None => Err("bad identity base64: invalid base64 character"@),
                Some(key) => if key.len() == 0 {
                    Err("identity target key is empty"@)
                } else {
                    Ok(alias_map::TargetModel::Identity(key))
                },
            },
            None => Err("target must be native:<local>@<domain> or identity:<b64>"@),
        },
    }
}

/// The seed that base64 spells: exactly 32 octets.
pub open spec fn seed_in(b: Seq<char>) -> Result<Seq<u8>, Seq<char>> {
    match b64::decoding(b) {
        None => Err("bad dkim_seed_b64: invalid base64 character"@),
        Some(s) => if s.len() == 32 {
            Ok(s)
        } else {
            Err("dkim_seed_b64 must decode to exactly 32 bytes"@)
        },
    }
}

/// Whether a value says yes.
pub open spec fn says_yes(v: Seq<char>) -> bool {
    let l = text::lower(text::trim(v));
    l == "true"@ || l == "1"@ || l == "yes"@ || l == "on"@
}

/// A result with the views of a value that is plain and of a text.
pub open spec fn text_err<T>(r: Result<T, String>) -> Result<T, Seq<char>> {
    match r {
        Ok(v) => Ok(v),
        Err(e) => Err(e@),
    }
}

fn read_number(f: &Form, key: &str, complaint: &str) -> (r: Result<u64, String>)
    ensures
        text_err(r) == number_in(f@, key@, complaint@),
{
    match f.field(key) {
        None => Ok(0),
        Some(v) => {
            let c = text::chars_of(v);
            match text::parse_number(c.as_slice(), u64::MAX) {
                Some(n) => Ok(n),
                None => Err(text::string_from(complaint)),
            }
        },
    }
}

/// Reads the quota that a form asks for.
pub fn parse_quota(f: &Form) -> (r: Result<Option<Quota>, String>)
    ensures
        text_err(r) == quota_in(f@),
{
    if f.field("quota_messages").is_none() && f.field("quota_bytes").is_none() {
        return Ok(None);
    }
    let m: u64 = match read_number(
        f,
        "quota_messages",
        "quota_messages must be a non-negative integer",
    ) {
        Ok(n) => n,
        Err(e) => {
            return Err(e);
        },
    };
    let b: u64 = match read_number(f, "quota_bytes", "quota_bytes must be a non-negative integer") {
        Ok(n) => n,
        Err(e) => {
            return Err(e);
        },
    };
    Ok(Some(Quota::new(m, m, b, b)))
}

/// Reads the destination of an alias.
pub fn parse_target(raw: &str) -> (r: Result<AliasTarget, String>)
    ensures
        model::res_view(r) == target_in(raw@),
{
    let c = text::chars_of(raw);
    if let Some(rest) = text::after_prefix(c.as_slice(), "native:") {
        return match text::cut_last(rest, '@') {
            None => Err(text::string_from("native target must be native:<local>@<domain>")),
            Some((local, domain)) => {
                if local.len() == 0 || domain.len() == 0 {
                    Err(
                        text::string_from(
                            "native target local-part and domain must be non-empty",
                        ),
                    )
                } else {
                    Ok(
                        AliasTarget::Native {
                            local: text::string_of(local),
                            domain: text::string_of(domain),
                        },
                    )
                }
            },
        };
    }
    if let Some(b) = text::after_prefix(c.as_slice(), "identity:") {
        let bs = text::string_of(b);
        return match b64::decode(bs.as_str()) {
            Err(_) => Err(text::string_from("bad identity base64: invalid base64 character")),
            Ok(key) => {
                if key.len() == 0 {
                    Err(text::string_from("identity target key is empty"))
                } else {
                    Ok(AliasTarget::Identity(key))
                }
            },
        };
    }
    Err(text::string_from("target must be native:<local>@<domain> or identity:<b64>"))
}

/// Reads a seed in base64.
pub fn decode_seed(b: &str) -> (r: Result<[u8; 32], String>)
    ensures
        match seed_in(b@) {
            Ok(s) => r matches Ok(a) && a@ == s,
            Err(m) => r matches Err(e) && e@ == m,
        },
{
    match b64::decode(b) {
        Err(_) => Err(text::string_from("bad dkim_seed_b64: invalid base64 character")),
        Ok(bytes) => {
            if bytes.len() == 32 {
                Ok(crate::identity::array32(bytes.as_slice()))
            } else {
                Err(text::string_from("dkim_seed_b64 must decode to exactly 32 bytes"))
            }
        },
    }
}

/// Whether a value says yes.
pub fn is_true(v: &str) -> (r: bool)
    ensures
        r == says_yes(v@),
{
    let c = text::chars_of(v);
    let l = text::to_lower(text::trimmed(c.as_slice()));
    let s = l.as_slice();
    text::is_text(s, "true") || text::is_text(s, "1") || text::is_text(s, "yes") || text::is_text(
        s,
        "on",
    )
}

// ---- what a request asks for -------------------------------------------------------------------

/// What a request asks for.
pub enum Action {
    Health,
    ListDomains,
    AddDomain,
    GetDomain(String),
    RemoveDomain(String),
    AddRecipient(String),
    RemoveRecipient,
    AllocateVanity(String),
    RevokeVanity(String),
    MintRandom(String),
    BurnRandom(String, String),
    Block(String),
    Unblock(String),
    Suspend(String),
    Unsuspend(String),
    SetQuota(String),
    ShowUsage,
    /// The path is known, but not with the method.
    MethodNotAllowed,
    UnknownPath,
}

/// [`Action`] with its texts as sequences.
pub enum ActionModel {
    Health,
    ListDomains,
    AddDomain,
    GetDomain(Seq<char>),
    RemoveDomain(Seq<char>),
    AddRecipient(Seq<char>),
    RemoveRecipient,
    AllocateVanity(Seq<char>),
    RevokeVanity(Seq<char>),
    MintRandom(Seq<char>),
    BurnRandom(Seq<char>, Seq<char>),
    Block(Seq<char>),
    Unblock(Seq<char>),
    Suspend(Seq<char>),
    Unsuspend(Seq<char>),
    SetQuota(Seq<char>),
    ShowUsage,
    MethodNotAllowed,
    UnknownPath,
}

impl View for Action {
    type V = ActionModel;

    open spec fn view(&self) -> ActionModel {
        match *self {
            Action::Health => ActionModel::Health,
            Action::ListDomains => ActionModel::ListDomains,
            Action::AddDomain => ActionModel::AddDomain,
            Action::GetDomain(d) => ActionModel::GetDomain(d@),
            Action::RemoveDomain(d) => ActionModel::RemoveDomain(d@),
            Action::AddRecipient(d) => ActionModel::AddRecipient(d@),
            Action::RemoveRecipient => ActionModel::RemoveRecipient,
            Action::AllocateVanity(d) => ActionModel::AllocateVanity(d@),
            Action::RevokeVanity(d) => ActionModel::RevokeVanity(d@),
            Action::MintRandom(d) => ActionModel::MintRandom(d@),
            Action::BurnRandom(d, t) => ActionModel::BurnRandom(d@, t@),
            Action::Block(d) => ActionModel::Block(d@),
            Action::Unblock(d) => ActionModel::Unblock(d@),
            Action::Suspend(d) => ActionModel::Suspend(d@),
            Action::Unsuspend(d) => ActionModel::Unsuspend(d@),
            Action::SetQuota(d) => ActionModel::SetQuota(d@),
            Action::ShowUsage => ActionModel::ShowUsage,
            Action::MethodNotAllowed => ActionModel::MethodNotAllowed,
            Action::UnknownPath => ActionModel::UnknownPath,
        }
    }
}

/// One action for one method, and none for others.
pub open spec fn only(m: Seq<char>, a: Seq<char>, x: ActionModel) -> ActionModel {
    if m == a {
        x
    } else {
        ActionModel::MethodNotAllowed
    }
}

/// Two actions for two methods, and none for others.
pub open spec fn either(
    m: Seq<char>,
    a: Seq<char>,
    x: ActionModel,
    b: Seq<char>,
    y: ActionModel,
) -> ActionModel {
    if m == a {
        x
    } else {
        only(m, b, y)
    }
}

/// What is asked for under a domain.
pub open spec fn domain_action(m: Seq<char>, d: Seq<char>, more: Seq<Seq<char>>) -> ActionModel {
    if more.len() == 0 {
        either(m, "GET"@, ActionModel::GetDomain(d), "DELETE"@, ActionModel::RemoveDomain(d))
    } else if more.len() == 1 && more[0] == "recipients"@ {
        either(
            m,
            "POST"@,
            ActionModel::AddRecipient(d),
            "DELETE"@,
            ActionModel::RemoveRecipient,
        )
    } else if more.len() == 1 && more[0] == "blocklist"@ {
        either(m, "POST"@, ActionModel::Block(d), "DELETE"@, ActionModel::Unblock(d))
    } else if more.len() == 1 && more[0] == "suspend"@ {
        either(m, "POST"@, ActionModel::Suspend(d), "DELETE"@, ActionModel::Unsuspend(d))
    } else if more.len() == 1 && more[0] == "quota"@ {
        only(m, "PUT"@, ActionModel::SetQuota(d))
    } else if more.len() == 2 && more[0] == "aliases"@ && more[1] == "vanity"@ {
        either(
            m,
            "POST"@,
            ActionModel::AllocateVanity(d),
            "DELETE"@,
            ActionModel::RevokeVanity(d),
        )
    } else if more.len() == 2 && more[0] == "aliases"@ && more[1] == "random"@ {
        only(m, "POST"@, ActionModel::MintRandom(d))
    } else if more.len() == 3 && more[0] == "aliases"@ && more[1] == "random"@ {
        only(m, "DELETE"@, ActionModel::BurnRandom(d, more[2]))
    } else {
        ActionModel::UnknownPath
    }
}

/// The segments of a path.
pub open spec fn segments(path: Seq<char>) -> Seq<Seq<char>> {
    text::split(path, '/').filter(|s: Seq<char>| s.len() > 0)
}

/// What a request asks for.
pub open spec fn action_for(m: Seq<char>, path: Seq<char>) -> ActionModel {
    let s = segments(path);
    if s.len() == 0 || s[0] != "v1"@ {
        ActionModel::UnknownPath
    } else if s.len() == 2 && s[1] == "health"@ {
        only(m, "GET"@, ActionModel::Health)
    } else if s.len() == 2 && s[1] == "domains"@ {
        either(m, "GET"@, ActionModel::ListDomains, "POST"@, ActionModel::AddDomain)
    } else if s.len() == 2 && s[1] == "usage"@ {
        only(m, "GET"@, ActionModel::ShowUsage)
    } else if s.len() >= 3 && s[1] == "domains"@ {
        domain_action(m, s[2], s.skip(3))
    } else {
        ActionModel::UnknownPath
    }
}

fn pick_only(m: &str, a: &str, x: Action) -> (r: Action)
    ensures
        r@ == only(m@, a@, x@),
{
    if text::same_str(m, a) {
        x
    } else {
        Action::MethodNotAllowed
    }
}

fn pick_either(m: &str, a: &str, x: Action, b: &str, y: Action) -> (r: Action)
    ensures
        r@ == either(m@, a@, x@, b@, y@),
{
    if text::same_str(m, a) {
        x
    } else {
        pick_only(m, b, y)
    }
}

fn split_segments(path: &str) -> (r: Vec<Vec<char>>)
    ensures
        text::views(r@) == segments(path@),
{
    reveal(Seq::filter);
    let c = text::chars_of(path);
    let parts = text::split_at_each(c.as_slice(), '/');
    let ghost all = text::views(parts@);
    let ghost p = |s: Seq<char>| s.len() > 0;
    let mut out: Vec<Vec<char>> = Vec::new();
    let mut i: usize = 0;
    assert(text::views(out@) =~= all.take(0).filter(p));
    while i < parts.len()
        invariant
            i <= parts@.len(),
            all == text::views(parts@),
            p == (|s: Seq<char>| s.len() > 0),
            text::views(out@) == all.take(i as int).filter(p),
        decreases parts@.len() - i,
    {
        reveal(Seq::filter);
        assert(all.take(i + 1).drop_last() =~= all.take(i as int));
        assert(all.take(i + 1).last() == parts@[i as int]@);
        if parts[i].len() > 0 {
            let ghost before = text::views(out@);
            out.push(slice_to_vec(parts[i].as_slice()));
            assert(text::views(out@) =~= before.push(parts@[i as int]@));
        }
        i += 1;
    }
    assert(all.take(i as int) =~= all);
    out
}

fn find_domain_action(m: &str, d: &[char], s: &Vec<Vec<char>>) -> (r: Action)
    requires
        s@.len() >= 3,
    ensures
        r@ == domain_action(m@, d@, text::views(s@).skip(3)),
{
    let ghost more = text::views(s@).skip(3);
    let n: usize = s.len() - 3;
    if n == 0 {
        return pick_either(
            m,
            "GET",
            Action::GetDomain(text::string_of(d)),
            "DELETE",
            Action::RemoveDomain(text::string_of(d)),
        );
    }
    assert(more[0] == s@[3]@);
    let first = s[3].as_slice();
    if n == 1 {
        if text::is_text(first, "recipients") {
            return pick_either(
                m,
                "POST",
                Action::AddRecipient(text::string_of(d)),
                "DELETE",
                Action::RemoveRecipient,
            );
        }
        if text::is_text(first, "blocklist") {
            return pick_either(
                m,
                "POST",
                Action::Block(text::string_of(d)),
                "DELETE",
                Action::Unblock(text::string_of(d)),
            );
        }
        if text::is_text(first, "suspend") {
            return pick_either(
                m,
                "POST",
                Action::Suspend(text::string_of(d)),
                "DELETE",
                Action::Unsuspend(text::string_of(d)),
            );
        }
        if text::is_text(first, "quota") {
            return pick_only(m, "PUT", Action::SetQuota(text::string_of(d)));
        }
        return Action::UnknownPath;
    }
    assert(more[1] == s@[4]@);
    let second = s[4].as_slice();
    if n == 2 && text::is_text(first, "aliases") {
        if text::is_text(second, "vanity") {
            return pick_either(
                m,
                "POST",
                Action::AllocateVanity(text::string_of(d)),
                "DELETE",
                Action::RevokeVanity(text::string_of(d)),
            );
        }
        if text::is_text(second, "random") {
            return pick_only(m, "POST", Action::MintRandom(text::string_of(d)));
        }
        return Action::UnknownPath;
    }
    if n == 3 && text::is_text(first, "aliases") && text::is_text(second, "random") {
        assert(more[2] == s@[5]@);
        return pick_only(
            m,
            "DELETE",
            Action::BurnRandom(text::string_of(d), text::string_of(s[5].as_slice())),
        );
    }
    Action::UnknownPath
}

/// Finds what a request asks for.
pub fn find_action(m: &str, path: &str) -> (r: Action)
    ensures
        r@ == action_for(m@, path@),
{
    let s = split_segments(path);
    let ghost all = segments(path@);
    if s.len() == 0 {
        return Action::UnknownPath;
    }
    assert(all[0] == s@[0]@);
    if !text::is_text(s[0].as_slice(), "v1") {
        return Action::UnknownPath;
    }
    if s.len() == 1 {
        return Action::UnknownPath;
    }
    assert(all[1] == s@[1]@);
    let first = s[1].as_slice();
    if s.len() == 2 {
        if text::is_text(first, "health") {
            return pick_only(m, "GET", Action::Health);
        }
        if text::is_text(first, "domains") {
            return pick_either(m, "GET", Action::ListDomains, "POST", Action::AddDomain);
        }
        if text::is_text(first, "usage") {
            return pick_only(m, "GET", Action::ShowUsage);
        }
        return Action::UnknownPath;
    }
    if !text::is_text(first, "domains") {
        return Action::UnknownPath;
    }
    assert(all[2] == s@[2]@);
    find_domain_action(m, s[2].as_slice(), &s)
}

// ---- what is done ------------------------------------------------------------------------------

/// The status for an operation that the gateway refused.
pub open spec fn status_of(e: multidomain::MultiDomainErrorModel) -> u16 {
    match e {
        multidomain::MultiDomainErrorModel::InvalidDomain(_) => 400,
        multidomain::MultiDomainErrorModel::DomainExists(_) => 409,
        multidomain::MultiDomainErrorModel::NoSuchDomain(_) => 404,
        multidomain::MultiDomainErrorModel::Alias(_) => 409,
        multidomain::MultiDomainErrorModel::BadKey(_) => 400,
        multidomain::MultiDomainErrorModel::NoRandomness => 500,
    }
}

/// The response for an operation that the gateway refused.
pub open spec fn gateway_refusal(e: multidomain::MultiDomainErrorModel) -> ResponseModel {
    refused(status_of(e), multidomain::refusal_text(e))
}

/// The response for an operation that the gateway refused.
pub fn map_md_err(e: &MultiDomainError) -> (r: AdminResponse)
    ensures
        r@ == gateway_refusal(e@),
{
    let status: u16 = match e {
        MultiDomainError::InvalidDomain(_) => 400,
        MultiDomainError::DomainExists(_) => 409,
        MultiDomainError::NoSuchDomain(_) => 404,
        MultiDomainError::Alias(_) => 409,
        MultiDomainError::BadKey(_) => 400,
        MultiDomainError::NoRandomness => 500,
    };
    AdminResponse::err(status, e.message().as_str())
}

/// A JSON object that says that something went well, with one more field.
pub open spec fn done_with(name: Seq<char>, value: Seq<char>) -> Seq<char> {
    "{\"ok\":true,\""@ + name + "\":"@ + value + "}"@
}

fn done(name: &str, value: &str) -> (r: String)
    ensures
        r@ == done_with(name@, value@),
{
    let mut out = text::concat3("{\"ok\":true,\"", name, "\":");
    out.append(value);
    out.append("}");
    out
}

/// A truth value as JSON.
pub open spec fn json_bool(b: bool) -> Seq<char> {
    if b {
        "true"@
    } else {
        "false"@
    }
}

fn bool_str(b: bool) -> (r: &'static str)
    ensures
        r@ == json_bool(b),
{
    if b {
        "true"
    } else {
        "false"
    }
}

type Gateway = multidomain::GatewayModel;

/// The texts of domains as JSON.
pub open spec fn json_items(ds: Seq<Seq<char>>) -> Seq<Seq<char>> {
    Seq::new(ds.len(), |i: int| json::json(ds[i]))
}

/// The list of the domains.
pub open spec fn domain_list(ds: Seq<Seq<char>>) -> ResponseModel {
    ok("{\"ok\":true,\"domains\":["@ + json::listed(json_items(ds)) + "]}"@)
}

/// The seed that a form gives, if it gives one.
pub open spec fn seed_field(f: FormModel) -> Result<Option<Seq<u8>>, Seq<char>> {
    match field(f, "dkim_seed_b64"@) {
        None => Ok(None),
        Some(b) => match seed_in(b) {
            Ok(s) => Ok(Some(s)),
            Err(e) => Err(e),
        },
    }
}

/// The selector that a form gives.
pub open spec fn selector_field(f: FormModel) -> Seq<char> {
    match field(f, "selector"@) {
        Some(s) => s,
        None => "gw1"@,
    }
}

/// The gateway with a domain added, and its quota set where one is asked for.
pub open spec fn with_domain(
    g: Gateway,
    domain: Seq<char>,
    seed: Seq<u8>,
    selector: Seq<char>,
    q: Option<Quota>,
) -> Gateway {
    let d = multidomain::domain_key(domain);
    let h = multidomain::with_tenant(
        g,
        d,
        multidomain::fresh_tenant(d, seed, selector, g.default_quota),
    );
    match q {
        Some(x) => multidomain::updated(
            h,
            domain,
            |t: multidomain::TenantModel| multidomain::with_quota(t, x),
        ),
        None => h,
    }
}

/// What is said of a domain that was added.
pub open spec fn added_body(t: multidomain::TenantModel, seed: Seq<u8>) -> Seq<char> {
    "{\"ok\":true,\"domain\":"@ + json::json(t.domain) + ",\"selector\":"@ + json::json(
        t.dkim.selector,
    ) + ",\"dkim_public\":"@ + json::json(b64::encoding(dkim::dalek_public(t.dkim.seed)))
        + ",\"dkim_seed_b64\":"@ + json::json(b64::encoding(seed)) + "}"@
}

/// Adding a domain; `fresh` is the seed that is drawn where the form gives none.
pub open spec fn adding_domain(g: Gateway, f: FormModel, fresh: Option<Seq<u8>>) -> (
    Gateway,
    ResponseModel,
) {
    match field(f, "domain"@) {
        None => (g, refused(400, "missing domain"@)),
        Some(domain) => match seed_field(f) {
            Err(e) => (g, refused(400, e)),
            Ok(given) => match quota_in(f) {
                Err(e) => (g, refused(400, e)),
                Ok(q) => match multidomain::add_refusal(g, domain) {
                    Some(e) => (g, gateway_refusal(e)),
                    None => match (if given is Some {
                        given
                    } else {
                        fresh
                    }) {
                        None => (
                            g,
                            gateway_refusal(multidomain::MultiDomainErrorModel::NoRandomness),
                        ),
                        Some(seed) => {
                            let h = with_domain(g, domain, seed, selector_field(f), q);
                            (
                                h,
                                created(
                                    added_body(h.tenants[multidomain::domain_key(domain)], seed),
                                ),
                            )
                        },
                    },
                },
            },
        },
    }
}

/// What is said of a domain.
pub open spec fn domain_body(t: multidomain::TenantModel) -> Seq<char> {
    let u = quota::usage_in(t.ledger, t.domain);
    "{\"ok\":true,\"domain\":"@ + json::json(t.domain) + ",\"selector\":"@ + json::json(
        t.dkim.selector,
    ) + ",\"dkim_public\":"@ + json::json(b64::encoding(dkim::dalek_public(t.dkim.seed)))
        + ",\"recipients\":"@ + text::dec(t.directory.dom().len()) + ",\"quota_messages\":"@
        + text::dec(t.quota.hard_cap_messages as nat) + ",\"quota_bytes\":"@ + text::dec(
        t.quota.hard_cap_bytes as nat,
    ) + ",\"used_messages\":"@ + text::dec(u.messages as nat) + ",\"used_bytes\":"@ + text::dec(
        u.bytes as nat,
    ) + "}"@
}

/// Showing a domain.
pub open spec fn showing_domain(g: Gateway, d: Seq<char>) -> ResponseModel {
    let k = multidomain::domain_key(d);
    if g.tenants.contains_key(k) {
        ok(domain_body(g.tenants[k]))
    } else {
        refused(404, "domain not served"@)
    }
}

/// Removing a domain.
pub open spec fn removing_domain(g: Gateway, d: Seq<char>) -> (Gateway, ResponseModel) {
    let k = multidomain::domain_key(d);
    (
        multidomain::GatewayModel { tenants: g.tenants.remove(k), ..g },
        if g.tenants.contains_key(k) {
            ok(done_with("removed"@, json::json(d)))
        } else {
            refused(404, "domain not served"@)
        },
    )
}

/// Whether an address is on a domain, in any case.
pub open spec fn is_on(email: Seq<char>, d: Seq<char>) -> bool {
    match text::rsplit_once(email, '@') {
        Some((_, dom)) => text::lower(dom) == text::lower(d),
        None => false,
    }
}

/// What an operation on a tenant gives: a response, or the gateway's refusal.
pub open spec fn on_domain(g: Gateway, d: Seq<char>, r: ResponseModel) -> ResponseModel {
    match multidomain::on_tenant(g, d, r) {
        Ok(x) => x,
        Err(e) => gateway_refusal(e),
    }
}

/// Adding a recipient.
pub open spec fn adding_recipient(g: Gateway, d: Seq<char>, f: FormModel) -> (
    Gateway,
    ResponseModel,
) {
    match (field(f, "email"@), field(f, "ik_b64"@), field(f, "seal_b64"@)) {
        (Some(email), Some(ik), Some(seal)) => if !is_on(email, d) {
            (g, refused(400, "email domain does not match path domain"@))
        } else {
            match b64::decoding(ik) {
                None => (g, refused(400, "bad ik_b64: invalid base64 character"@)),
                Some(k) => match b64::decoding(seal) {
                    None => (g, refused(400, "bad seal_b64: invalid base64 character"@)),
                    Some(s) => {
                        let key = directory::RecipientModel { ik: k, seal_pub: s };
                        match multidomain::split_parts(email) {
                            None => (
                                g,
                                gateway_refusal(
                                    multidomain::MultiDomainErrorModel::InvalidDomain(email),
                                ),
                            ),
                            Some((l, dom)) => (
                                multidomain::updated(
                                    g,
                                    dom,
                                    |t: multidomain::TenantModel|
                                        multidomain::with_recipient(t, l, dom, key),
                                ),
                                on_domain(
                                    g,
                                    dom,
                                    created(done_with("recipient"@, json::json(email))),
                                ),
                            ),
                        }
                    },
                },
            }
        },
        _ => (g, refused(400, "missing email/ik_b64/seal_b64"@)),
    }
}

/// Removing a recipient.
pub open spec fn removing_recipient(g: Gateway, f: FormModel) -> (Gateway, ResponseModel) {
    match field(f, "email"@) {
        None => (g, refused(400, "missing email"@)),
        Some(email) => match multidomain::split_parts(email) {
            None => (
                g,
                gateway_refusal(multidomain::MultiDomainErrorModel::InvalidDomain(email)),
            ),
            Some((l, dom)) => {
                let a = multidomain::recipient_address(l, dom);
                (
                    multidomain::updated(
                        g,
                        dom,
                        |t: multidomain::TenantModel| multidomain::without_recipient(t, l, dom),
                    ),
                    on_domain(
                        g,
                        dom,
                        if g.tenants[multidomain::domain_key(dom)].directory.contains_key(a) {
                            ok(done_with("removed"@, json::json(email)))
                        } else {
                            refused(404, "recipient not found"@)
                        },
                    ),
                )
            },
        },
    }
}

/// Allocating a chosen name.
pub open spec fn allocating(g: Gateway, d: Seq<char>, f: FormModel) -> (Gateway, ResponseModel) {
    match (field(f, "key_b64"@), field(f, "local_part"@)) {
        (Some(b), Some(local)) => match b64::decoding(b) {
            None => (g, refused(400, "bad key_b64: invalid base64 character"@)),
            Some(key) => (
                multidomain::updated(
                    g,
                    d,
                    |t: multidomain::TenantModel|
                        multidomain::TenantModel {
                            aliases: vanity::after_allocation(t.aliases, key, local),
                            ..t
                        },
                ),
                on_domain(
                    g,
                    d,
                    match vanity::allocation(
                        g.tenants[multidomain::domain_key(d)].aliases,
                        key,
                        local,
                    ) {
                        Ok(full) => created(done_with("alias"@, json::json(full))),
                        Err(e) => gateway_refusal(multidomain::MultiDomainErrorModel::Alias(e)),
                    },
                ),
            ),
        },
        _ => (g, refused(400, "missing key_b64/local_part"@)),
    }
}

/// Freeing a chosen name.
pub open spec fn revoking(g: Gateway, d: Seq<char>, f: FormModel) -> (Gateway, ResponseModel) {
    match field(f, "key_b64"@) {
        None => (g, refused(400, "missing key_b64"@)),
        Some(b) => match b64::decoding(b) {
            None => (g, refused(400, "bad key_b64: invalid base64 character"@)),
            Some(key) => {
                let a = g.tenants[multidomain::domain_key(d)].aliases;
                (
                    multidomain::updated(
                        g,
                        d,
                        |t: multidomain::TenantModel|
                            multidomain::TenantModel {
                                aliases: vanity::after_release(t.aliases, key),
                                ..t
                            },
                    ),
                    on_domain(
                        g,
                        d,
                        if a.name.contains_key(key) {
                            ok(
                                done_with(
                                    "revoked"@,
                                    json::json(vanity::qualified(a, a.name[key])),
                                ),
                            )
                        } else {
                            refused(404, "key holds no vanity on this domain"@)
                        },
                    ),
                )
            },
        },
    }
}

/// The time to live that a form gives, if it gives one.
pub open spec fn ttl_field(f: FormModel) -> Result<Option<u64>, Seq<char>> {
    match field(f, "ttl_ms"@) {
        None => Ok(None),
        Some(v) => match text::parse_dec(v, u64::MAX as nat) {
            Some(n) => Ok(Some(n as u64)),
            None => Err("ttl_ms must be a non-negative integer"@),
        },
    }
}

/// Whether a form asks for an alias that can be used once.
pub open spec fn once_field(f: FormModel) -> bool {
    match field(f, "one_time"@) {
        Some(v) => says_yes(v),
        None => false,
    }
}

/// Minting a random alias; `token` is the one that is drawn.
pub open spec fn minting(
    g: Gateway,
    d: Seq<char>,
    f: FormModel,
    now_ms: u64,
    token: Option<Seq<char>>,
) -> (Gateway, ResponseModel) {
    match field(f, "target"@) {
        None => (g, refused(400, "missing target"@)),
        Some(raw) => match target_in(raw) {
            Err(e) => (g, refused(400, e)),
            Ok(target) => match ttl_field(f) {
                Err(e) => (g, refused(400, e)),
                Ok(ttl) => {
                    let k = multidomain::domain_key(d);
                    if !g.tenants.contains_key(k) {
                        (
                            g,
                            gateway_refusal(
                                multidomain::MultiDomainErrorModel::NoSuchDomain(k),
                            ),
                        )
                    } else {
                        match token {
                            None => (
                                g,
                                gateway_refusal(
                                    multidomain::MultiDomainErrorModel::NoRandomness,
                                ),
                            ),
                            Some(tok) => {
                                let t = g.tenants[k];
                                let row = alias_map::minted_row(
                                    target,
                                    field(f, "correspondent"@),
                                    ttl,
                                    once_field(f),
                                    now_ms,
                                );
                                (
                                    multidomain::with_tenant(
                                        g,
                                        k,
                                        multidomain::TenantModel {
                                            random: t.random.insert(tok, row),
                                            ..t
                                        },
                                    ),
                                    created(
                                        done_with(
                                            "alias"@,
                                            json::json(tok + "@"@ + t.domain),
                                        ),
                                    ),
                                )
                            },
                        }
                    }
                },
            },
        },
    }
}

/// Burning a random alias.
pub open spec fn burning(g: Gateway, d: Seq<char>, token: Seq<char>) -> (Gateway, ResponseModel) {
    let b = multidomain::bare_token(token);
    (
        multidomain::updated(
            g,
            d,
            |t: multidomain::TenantModel|
                multidomain::TenantModel { random: alias_map::rows_after_burn(t.random, b), ..t },
        ),
        on_domain(
            g,
            d,
            if g.tenants[multidomain::domain_key(d)].random.contains_key(b) {
                ok(done_with("burned"@, json::json(token)))
            } else {
                refused(404, "alias token not found"@)
            },
        ),
    )
}

/// Whether a form asks for something on every domain.
pub open spec fn everywhere(f: FormModel) -> bool {
    match field(f, "scope"@) {
        Some(s) => text::lower(s) == text::lower("global"@),
        None => false,
    }
}

/// Blocking a sender.
pub open spec fn blocking(g: Gateway, d: Seq<char>, f: FormModel) -> (Gateway, ResponseModel) {
    match field(f, "sender"@) {
        None => (g, refused(400, "missing sender"@)),
        Some(sender) => {
            let s = multidomain::domain_key(sender);
            if everywhere(f) {
                (
                    multidomain::GatewayModel { global_blocked: g.global_blocked.insert(s), ..g },
                    ok(
                        "{\"ok\":true,\"blocked\":"@ + json::json(sender)
                            + ",\"scope\":\"global\"}"@,
                    ),
                )
            } else {
                (
                    multidomain::updated(
                        g,
                        d,
                        |t: multidomain::TenantModel|
                            multidomain::TenantModel {
                                blocked_senders: t.blocked_senders.insert(s),
                                ..t
                            },
                    ),
                    on_domain(g, d, ok(done_with("blocked"@, json::json(sender)))),
                )
            }
        },
    }
}

/// Unblocking a sender.
pub open spec fn unblocking(g: Gateway, d: Seq<char>, f: FormModel) -> (Gateway, ResponseModel) {
    match field(f, "sender"@) {
        None => (g, refused(400, "missing sender"@)),
        Some(sender) => {
            let s = multidomain::domain_key(sender);
            if everywhere(f) {
                (
                    multidomain::GatewayModel { global_blocked: g.global_blocked.remove(s), ..g },
                    ok(done_with("unblocked"@, json_bool(g.global_blocked.contains(s)))),
                )
            } else {
                (
                    multidomain::updated(
                        g,
                        d,
                        |t: multidomain::TenantModel|
                            multidomain::TenantModel {
                                blocked_senders: t.blocked_senders.remove(s),
                                ..t
                            },
                    ),
                    on_domain(
                        g,
                        d,
                        ok(
                            done_with(
                                "unblocked"@,
                                json_bool(
                                    g.tenants[multidomain::domain_key(
                                        d,
                                    )].blocked_senders.contains(s),
                                ),
                            ),
                        ),
                    ),
                )
            }
        },
    }
}

/// Suspending a user.
pub open spec fn suspending(g: Gateway, d: Seq<char>, f: FormModel) -> (Gateway, ResponseModel) {
    match field(f, "user"@) {
        None => (g, refused(400, "missing user"@)),
        Some(user) => {
            let u = text::lower(multidomain::local_part(user));
            (
                multidomain::updated(
                    g,
                    d,
                    |t: multidomain::TenantModel|
                        multidomain::TenantModel {
                            suspended_users: t.suspended_users.insert(u),
                            ..t
                        },
                ),
                on_domain(g, d, ok(done_with("suspended"@, json::json(user)))),
            )
        },
    }
}

/// Reinstating a user.
pub open spec fn reinstating(g: Gateway, d: Seq<char>, f: FormModel) -> (Gateway, ResponseModel) {
    match field(f, "user"@) {
        None => (g, refused(400, "missing user"@)),
        Some(user) => {
            let u = text::lower(multidomain::local_part(user));
            (
                multidomain::updated(
                    g,
                    d,
                    |t: multidomain::TenantModel|
                        multidomain::TenantModel {
                            suspended_users: t.suspended_users.remove(u),
                            ..t
                        },
                ),
                on_domain(
                    g,
                    d,
                    ok(
                        done_with(
                            "reinstated"@,
                            json_bool(
                                g.tenants[multidomain::domain_key(d)].suspended_users.contains(u),
                            ),
                        ),
                    ),
                ),
            )
        },
    }
}

/// Setting the quota of a domain. A form that asks for none lifts it.
pub open spec fn setting_quota(g: Gateway, d: Seq<char>, f: FormModel) -> (
    Gateway,
    ResponseModel,
) {
    match quota_in(f) {
        Err(e) => (g, refused(400, e)),
        Ok(asked) => {
            let q = match asked {
                Some(x) => x,
                None => Quota {
                    free_messages: 0,
                    hard_cap_messages: 0,
                    free_bytes: 0,
                    hard_cap_bytes: 0,
                },
            };
            (
                multidomain::updated(
                    g,
                    d,
                    |t: multidomain::TenantModel| multidomain::with_quota(t, q),
                ),
                on_domain(
                    g,
                    d,
                    ok(
                        "{\"ok\":true,\"domain\":"@ + json::json(d) + ",\"quota_messages\":"@
                            + text::dec(q.hard_cap_messages as nat) + ",\"quota_bytes\":"@
                            + text::dec(q.hard_cap_bytes as nat) + "}"@,
                    ),
                ),
            )
        },
    }
}

/// What is said of the usage of a domain.
pub open spec fn usage_item(d: Seq<char>, u: DomainUsage) -> Seq<char> {
    "{\"domain\":"@ + json::json(d) + ",\"inbound\":"@ + text::dec(u.inbound as nat)
        + ",\"outbound\":"@ + text::dec(u.outbound as nat) + ",\"messages\":"@ + text::dec(
        u.messages as nat,
    ) + "}"@
}

/// What is said of the usage of each of the given domains.
pub open spec fn usage_items(ds: Seq<Seq<char>>, m: Map<Seq<char>, DomainUsage>) -> Seq<Seq<char>> {
    Seq::new(ds.len(), |i: int| usage_item(ds[i], m[ds[i]]))
}

/// The usage of the domains.
pub open spec fn usage_list(ds: Seq<Seq<char>>, m: Map<Seq<char>, DomainUsage>) -> ResponseModel {
    ok("{\"ok\":true,\"usage\":["@ + json::listed(usage_items(ds, m)) + "]}"@)
}

/// What is drawn by chance, and the listings in order.
pub struct GivenModel {
    /// A fresh seed, if randomness is to be had.
    pub seed: Option<Seq<u8>>,
    /// A fresh token, if randomness is to be had.
    pub token: Option<Seq<char>>,
    /// The domains that are served, in order.
    pub domains: Seq<Seq<char>>,
    /// The domains with usage, in order.
    pub metered: Seq<Seq<char>>,
}

/// Whether what is given is possible: the token has no row, and the listings are those of the
/// gateway and the meter.
pub open spec fn possible(
    g: Gateway,
    m: Map<Seq<char>, DomainUsage>,
    action: ActionModel,
    given: GivenModel,
) -> bool {
    &&& action matches ActionModel::MintRandom(d) ==> given.token matches Some(tok) ==> {
        &&& alias_map::is_token(tok)
        &&& g.tenants.contains_key(multidomain::domain_key(d))
            ==> !g.tenants[multidomain::domain_key(d)].random.contains_key(tok)
    }
    &&& action is ListDomains ==> sorting::lists_in_order(given.domains, g.tenants.dom())
    &&& action is ShowUsage ==> sorting::lists_in_order(given.metered, m.dom())
}

/// What comes of an action.
pub open spec fn performed(
    g: Gateway,
    m: Map<Seq<char>, DomainUsage>,
    action: ActionModel,
    f: FormModel,
    now_ms: u64,
    given: GivenModel,
) -> (Gateway, ResponseModel) {
    match action {
        ActionModel::Health => (g, ok("{\"ok\":true,\"status\":\"live\"}"@)),
        ActionModel::ListDomains => (g, domain_list(given.domains)),
        ActionModel::AddDomain => adding_domain(g, f, given.seed),
        ActionModel::GetDomain(d) => (g, showing_domain(g, d)),
        ActionModel::RemoveDomain(d) => removing_domain(g, d),
        ActionModel::AddRecipient(d) => adding_recipient(g, d, f),
        ActionModel::RemoveRecipient => removing_recipient(g, f),
        ActionModel::AllocateVanity(d) => allocating(g, d, f),
        ActionModel::RevokeVanity(d) => revoking(g, d, f),
        ActionModel::MintRandom(d) => minting(g, d, f, now_ms, given.token),
        ActionModel::BurnRandom(d, t) => burning(g, d, t),
        ActionModel::Block(d) => blocking(g, d, f),
        ActionModel::Unblock(d) => unblocking(g, d, f),
        ActionModel::Suspend(d) => suspending(g, d, f),
        ActionModel::Unsuspend(d) => reinstating(g, d, f),
        ActionModel::SetQuota(d) => setting_quota(g, d, f),
        ActionModel::ShowUsage => (g, usage_list(given.metered, m)),
        ActionModel::MethodNotAllowed => (g, refused(405, "method not allowed"@)),
        ActionModel::UnknownPath => (g, refused(404, "unknown path"@)),
    }
}

/// What comes of a request: without the token nothing but a refusal.
pub open spec fn handled(
    g: Gateway,
    m: Map<Seq<char>, DomainUsage>,
    token: Option<Seq<char>>,
    req: RequestModel,
    given: GivenModel,
) -> (Gateway, ResponseModel) {
    if !authorized(token, req.token) {
        (g, refused(401, "unauthorized"@))
    } else {
        performed(
            g,
            m,
            action_for(req.method, req.path),
            form_in(req.body),
            req.now_ms,
            given,
        )
    }
}

/// The control surface of a gateway and its meter.
pub struct AdminApi {
    pub gateway: MultiDomainGateway,
    pub meter: UsageMeter,
    pub auth: AdminAuth,
}

impl AdminApi {
    /// The control surface of a gateway and its meter.
    pub fn new(gateway: MultiDomainGateway, meter: UsageMeter, auth: AdminAuth) -> (r: Self)
        ensures
            r == (AdminApi { gateway, meter, auth }),
    {
        AdminApi { gateway, meter, auth }
    }

    fn list_domains(&self) -> (r: AdminResponse)
        ensures
            exists|ds: Seq<Seq<char>>|
                sorting::lists_in_order(ds, self.gateway@.tenants.dom()) && r@
                    == #[trigger] domain_list(ds),
    {
        let names = self.gateway.domains();
        let ghost ds = text::string_views(names@);
        let mut items: Vec<String> = Vec::new();
        let mut i: usize = 0;
        while i < names.len()
            invariant
                i <= names@.len(),
                ds == text::string_views(names@),
                items@.len() == i,
                forall|j: int| 0 <= j < i ==> (#[trigger] items@[j])@ == json_items(ds)[j],
            decreases names@.len() - i,
        {
            items.push(json::json_str(names[i].as_str()));
            i += 1;
        }
        assert(text::string_views(items@) =~= json_items(ds));
        let r = AdminResponse::ok(
            text::concat3("{\"ok\":true,\"domains\":[", json::json_list(&items).as_str(), "]}"),
        );
        assert(r@ == domain_list(ds));
        r
    }

    fn add_domain(&mut self, form: &Form) -> (r: AdminResponse)
        ensures
            exists|fresh: Option<Seq<u8>>|
                (final(self).gateway@, r@) == #[trigger] adding_domain(
                    old(self).gateway@,
                    form@,
                    fresh,
                ),
            final(self).meter == old(self).meter,
            final(self).auth == old(self).auth,
    {
        let ghost g = self.gateway@;
        let domain = match form.field("domain") {
            Some(d) => d,
            None => {
                let r = AdminResponse::err(400, "missing domain");
                assert((g, r@) == adding_domain(g, form@, None));
                return r;
            },
        };
        let selector = match form.field("selector") {
            Some(s) => s,
            None => "gw1",
        };
        let mut seed: Option<[u8; 32]> = None;
        if let Some(b) = form.field("dkim_seed_b64") {
            match decode_seed(b) {
                Ok(s) => {
                    seed = Some(s);
                },
                Err(e) => {
                    let r = AdminResponse::err(400, e.as_str());
                    assert((g, r@) == adding_domain(g, form@, None));
                    return r;
                },
            }
        }
        let ghost given = seed_field(form@)->Ok_0;
        let quota = match parse_quota(form) {
            Ok(q) => q,
            Err(e) => {
                let r = AdminResponse::err(400, e.as_str());
                assert((g, r@) == adding_domain(g, form@, None));
                return r;
            },
        };
        let used: [u8; 32] = match self.gateway.add_domain(domain, seed, selector) {
            Ok(s) => s,
            Err(e) => {
                let r = map_md_err(&e);
                assert((self.gateway@, r@) == adding_domain(g, form@, None));
                return r;
            },
        };
        let ghost h = self.gateway@;
        let ghost k = multidomain::domain_key(domain@);
        if let Some(q) = quota {
            let _ = self.gateway.set_domain_quota(domain, q);
        }
        assert(self.gateway@ == with_domain(g, domain@, used@, selector@, quota));
        let r = match self.gateway.tenant(domain) {
            Some(t) => {
                let mut out = text::concat3(
                    "{\"ok\":true,\"domain\":",
                    json::json_str(t.domain()).as_str(),
                    ",\"selector\":",
                );
                out.append(json::json_str(t.dkim_selector()).as_str());
                out.append(",\"dkim_public\":");
                out.append(json::json_str(t.dkim_public_p_tag().as_str()).as_str());
                out.append(",\"dkim_seed_b64\":");
                out.append(json::json_str(b64::encode(used.as_slice()).as_str()).as_str());
                out.append("}");
                AdminResponse::created(out)
            },
            None => {
                assert(false);
                AdminResponse::err(404, "domain not served")
            },
        };
        assert((self.gateway@, r@) == adding_domain(g, form@, Some(used@)));
        r
    }

    fn get_domain(&self, d: &str) -> (r: AdminResponse)
        ensures
            r@ == showing_domain(self.gateway@, d@),
    {
        let t = match self.gateway.tenant(d) {
            Some(t) => t,
            None => {
                return AdminResponse::err(404, "domain not served");
            },
        };
        let q = t.quota();
        let u = t.usage();
        let n: usize = t.recipient_count();
        let mut out = text::concat3(
            "{\"ok\":true,\"domain\":",
            json::json_str(t.domain()).as_str(),
            ",\"selector\":",
        );
        out.append(json::json_str(t.dkim_selector()).as_str());
        out.append(",\"dkim_public\":");
        out.append(json::json_str(t.dkim_public_p_tag().as_str()).as_str());
        out.append(",\"recipients\":");
        out.append(text::dec_string(n as u64).as_str());
        out.append(",\"quota_messages\":");
        out.append(text::dec_string(q.hard_cap_messages).as_str());
        out.append(",\"quota_bytes\":");
        out.append(text::dec_string(q.hard_cap_bytes).as_str());
        out.append(",\"used_messages\":");
        out.append(text::dec_string(u.messages).as_str());
        out.append(",\"used_bytes\":");
        out.append(text::dec_string(u.bytes).as_str());
        out.append("}");
        AdminResponse::ok(out)
    }

    fn remove_domain(&mut self, d: &str) -> (r: AdminResponse)
        ensures
            (final(self).gateway@, r@) == removing_domain(old(self).gateway@, d@),
            final(self).meter == old(self).meter,
            final(self).auth == old(self).auth,
    {
        if self.gateway.remove_domain(d) {
            AdminResponse::ok(done("removed", json::json_str(d).as_str()))
        } else {
            AdminResponse::err(404, "domain not served")
        }
    }

    fn add_recipient(&mut self, d: &str, form: &Form) -> (r: AdminResponse)
        ensures
            (final(self).gateway@, r@) == adding_recipient(old(self).gateway@, d@, form@),
            final(self).meter == old(self).meter,
            final(self).auth == old(self).auth,
    {
        let (email, ik, seal) = match (
            form.field("email"),
            form.field("ik_b64"),
            form.field("seal_b64"),
        ) {
            (Some(e), Some(i), Some(s)) => (e, i, s),
            _ => {
                return AdminResponse::err(400, "missing email/ik_b64/seal_b64");
            },
        };
        let ec = text::chars_of(email);
        let dc = text::chars_of(d);
        let matches_domain = match text::cut_last(ec.as_slice(), '@') {
            Some((_, dom)) => text::same_ignoring_case(dom, dc.as_slice()),
            None => false,
        };
        if !matches_domain {
            return AdminResponse::err(400, "email domain does not match path domain");
        }
        let ik = match b64::decode(ik) {
            Ok(b) => b,
            Err(_) => {
                return AdminResponse::err(400, "bad ik_b64: invalid base64 character");
            },
        };
        let seal_pub = match b64::decode(seal) {
            Ok(b) => b,
            Err(_) => {
                return AdminResponse::err(400, "bad seal_b64: invalid base64 character");
            },
        };
        match self.gateway.add_recipient(email, RecipientKey { ik, seal_pub }) {
            Ok(_) => AdminResponse::created(done("recipient", json::json_str(email).as_str())),
            Err(e) => map_md_err(&e),
        }
    }

    fn remove_recipient(&mut self, form: &Form) -> (r: AdminResponse)
        ensures
            (final(self).gateway@, r@) == removing_recipient(old(self).gateway@, form@),
            final(self).meter == old(self).meter,
            final(self).auth == old(self).auth,
    {
        let email = match form.field("email") {
            Some(e) => e,
            None => {
                return AdminResponse::err(400, "missing email");
            },
        };
        match self.gateway.remove_recipient(email) {
            Ok(true) => AdminResponse::ok(done("removed", json::json_str(email).as_str())),
            Ok(false) => AdminResponse::err(404, "recipient not found"),
            Err(e) => map_md_err(&e),
        }
    }

    fn allocate_vanity(&mut self, d: &str, form: &Form) -> (r: AdminResponse)
        ensures
            (final(self).gateway@, r@) == allocating(old(self).gateway@, d@, form@),
            final(self).meter == old(self).meter,
            final(self).auth == old(self).auth,
    {
        let (b, local) = match (form.field("key_b64"), form.field("local_part")) {
            (Some(b), Some(l)) => (b, l),
            _ => {
                return AdminResponse::err(400, "missing key_b64/local_part");
            },
        };
        let key = match b64::decode(b) {
            Ok(k) => k,
            Err(_) => {
                return AdminResponse::err(400, "bad key_b64: invalid base64 character");
            },
        };
        match self.gateway.allocate_vanity(d, key.as_slice(), local) {
            Ok(addr) => AdminResponse::created(
                done("alias", json::json_str(addr.as_str()).as_str()),
            ),
            Err(e) => map_md_err(&e),
        }
    }

    fn revoke_vanity(&mut self, d: &str, form: &Form) -> (r: AdminResponse)
        ensures
            (final(self).gateway@, r@) == revoking(old(self).gateway@, d@, form@),
            final(self).meter == old(self).meter,
            final(self).auth == old(self).auth,
    {
        let b = match form.field("key_b64") {
            Some(b) => b,
            None => {
                return AdminResponse::err(400, "missing key_b64");
            },
        };
        let key = match b64::decode(b) {
            Ok(k) => k,
            Err(_) => {
                return AdminResponse::err(400, "bad key_b64: invalid base64 character");
            },
        };
        match self.gateway.revoke_vanity(d, key.as_slice()) {
            Ok(Some(addr)) => AdminResponse::ok(
                done("revoked", json::json_str(addr.as_str()).as_str()),
            ),
            Ok(None) => AdminResponse::err(404, "key holds no vanity on this domain"),
            Err(e) => map_md_err(&e),
        }
    }

    fn mint_random(&mut self, d: &str, form: &Form, now_ms: u64) -> (r: AdminResponse)
        ensures
            exists|token: Option<Seq<char>>|
                {
                    &&& (final(self).gateway@, r@) == #[trigger] minting(
                        old(self).gateway@,
                        d@,
                        form@,
                        now_ms,
                        token,
                    )
                    &&& token matches Some(tok) ==> {
                        let k = multidomain::domain_key(d@);
                        &&& alias_map::is_token(tok)
                        &&& old(self).gateway@.tenants.contains_key(k) ==> !old(
                            self,
                        ).gateway@.tenants[k].random.contains_key(tok)
                    }
                },
            final(self).meter == old(self).meter,
            final(self).auth == old(self).auth,
    {
        let ghost g = self.gateway@;
        let raw = match form.field("target") {
            Some(t) => t,
            None => {
                let r = AdminResponse::err(400, "missing target");
                assert((g, r@) == minting(g, d@, form@, now_ms, None));
                return r;
            },
        };
        let target = match parse_target(raw) {
            Ok(t) => t,
            Err(e) => {
                let r = AdminResponse::err(400, e.as_str());
                assert((g, r@) == minting(g, d@, form@, now_ms, None));
                return r;
            },
        };
        let correspondent = match form.field("correspondent") {
            Some(c) => Some(text::string_from(c)),
            None => None,
        };
        let mut ttl_ms: Option<u64> = None;
        if let Some(v) = form.field("ttl_ms") {
            let c = text::chars_of(v);
            match text::parse_number(c.as_slice(), u64::MAX) {
                Some(n) => {
                    ttl_ms = Some(n);
                },
                None => {
                    let r = AdminResponse::err(400, "ttl_ms must be a non-negative integer");
                    assert((g, r@) == minting(g, d@, form@, now_ms, None));
                    return r;
                },
            }
        }
        assert(ttl_field(form@) == Ok::<Option<u64>, Seq<char>>(ttl_ms));
        let one_time = match form.field("one_time") {
            Some(v) => is_true(v),
            None => false,
        };
        let ghost tv = target@;
        let ghost cv = model::opt_view(correspondent);
        let ghost k = multidomain::domain_key(d@);
        match self.gateway.mint_random_alias(
            d,
            target,
            correspondent,
            ttl_ms,
            one_time,
            now_ms,
        ) {
            Ok(addr) => {
                let r = AdminResponse::created(
                    done("alias", json::json_str(addr.as_str()).as_str()),
                );
                proof {
                    let t = g.tenants[k];
                    let row = alias_map::minted_row(tv, cv, ttl_ms, one_time, now_ms);
                    let token = choose|token: Seq<char>|
                        {
                            &&& #[trigger] alias_map::is_token(token)
                            &&& !t.random.contains_key(token)
                            &&& addr@ == token + "@"@ + t.domain
                            &&& self.gateway@ == multidomain::with_tenant(
                                g,
                                k,
                                multidomain::TenantModel {
                                    random: t.random.insert(token, row),
                                    ..t
                                },
                            )
                        };
                    assert((self.gateway@, r@) == minting(g, d@, form@, now_ms, Some(token)));
                }
                r
            },
            Err(e) => {
                let r = map_md_err(&e);
                assert((self.gateway@, r@) == minting(g, d@, form@, now_ms, None));
                r
            },
        }
    }

    fn burn_random(&mut self, d: &str, token: &str) -> (r: AdminResponse)
        ensures
            (final(self).gateway@, r@) == burning(old(self).gateway@, d@, token@),
            final(self).meter == old(self).meter,
            final(self).auth == old(self).auth,
    {
        match self.gateway.burn_random_alias(d, token) {
            Ok(true) => AdminResponse::ok(done("burned", json::json_str(token).as_str())),
            Ok(false) => AdminResponse::err(404, "alias token not found"),
            Err(e) => map_md_err(&e),
        }
    }

    fn is_everywhere(form: &Form) -> (r: bool)
        ensures
            r == everywhere(form@),
    {
        match form.field("scope") {
            Some(s) => text::same_str_ignoring_case(s, "global"),
            None => false,
        }
    }

    fn block(&mut self, d: &str, form: &Form) -> (r: AdminResponse)
        ensures
            (final(self).gateway@, r@) == blocking(old(self).gateway@, d@, form@),
            final(self).meter == old(self).meter,
            final(self).auth == old(self).auth,
    {
        let sender = match form.field("sender") {
            Some(s) => s,
            None => {
                return AdminResponse::err(400, "missing sender");
            },
        };
        if AdminApi::is_everywhere(form) {
            self.gateway.block_sender_global(sender);
            return AdminResponse::ok(
                text::concat3(
                    "{\"ok\":true,\"blocked\":",
                    json::json_str(sender).as_str(),
                    ",\"scope\":\"global\"}",
                ),
            );
        }
        match self.gateway.block_sender(d, sender) {
            Ok(_) => AdminResponse::ok(done("blocked", json::json_str(sender).as_str())),
            Err(e) => map_md_err(&e),
        }
    }

    fn unblock(&mut self, d: &str, form: &Form) -> (r: AdminResponse)
        ensures
            (final(self).gateway@, r@) == unblocking(old(self).gateway@, d@, form@),
            final(self).meter == old(self).meter,
            final(self).auth == old(self).auth,
    {
        let sender = match form.field("sender") {
            Some(s) => s,
            None => {
                return AdminResponse::err(400, "missing sender");
            },
        };
        if AdminApi::is_everywhere(form) {
            let was = self.gateway.unblock_sender_global(sender);
            return AdminResponse::ok(done("unblocked", bool_str(was)));
        }
        match self.gateway.unblock_sender(d, sender) {
            Ok(was) => AdminResponse::ok(done("unblocked", bool_str(was))),
            Err(e) => map_md_err(&e),
        }
    }

    fn suspend(&mut self, d: &str, form: &Form) -> (r: AdminResponse)
        ensures
            (final(self).gateway@, r@) == suspending(old(self).gateway@, d@, form@),
            final(self).meter == old(self).meter,
            final(self).auth == old(self).auth,
    {
        let user = match form.field("user") {
            Some(u) => u,
            None => {
                return AdminResponse::err(400, "missing user");
            },
        };
        match self.gateway.suspend_user(d, user) {
            Ok(_) => AdminResponse::ok(done("suspended", json::json_str(user).as_str())),
            Err(e) => map_md_err(&e),
        }
    }

    fn unsuspend(&mut self, d: &str, form: &Form) -> (r: AdminResponse)
        ensures
            (final(self).gateway@, r@) == reinstating(old(self).gateway@, d@, form@),
            final(self).meter == old(self).meter,
            final(self).auth == old(self).auth,
    {
        let user = match form.field("user") {
            Some(u) => u,
            None => {
                return AdminResponse::err(400, "missing user");
            },
        };
        match self.gateway.unsuspend_user(d, user) {
            Ok(was) => AdminResponse::ok(done("reinstated", bool_str(was))),
            Err(e) => map_md_err(&e),
        }
    }

    fn set_quota(&mut self, d: &str, form: &Form) -> (r: AdminResponse)
        ensures
            (final(self).gateway@, r@) == setting_quota(old(self).gateway@, d@, form@),
            final(self).meter == old(self).meter,
            final(self).auth == old(self).auth,
    {
        let quota = match parse_quota(form) {
            Ok(Some(q)) => q,
            Ok(None) => Quota::messages(0, 0),
            Err(e) => {
                return AdminResponse::err(400, e.as_str());
            },
        };
        match self.gateway.set_domain_quota(d, quota) {
            Ok(_) => {
                let mut out = text::concat3(
                    "{\"ok\":true,\"domain\":",
                    json::json_str(d).as_str(),
                    ",\"quota_messages\":",
                );
                out.append(text::dec_string(quota.hard_cap_messages).as_str());
                out.append(",\"quota_bytes\":");
                out.append(text::dec_string(quota.hard_cap_bytes).as_str());
                out.append("}");
                AdminResponse::ok(out)
            },
            Err(e) => map_md_err(&e),
        }
    }

    fn usage(&self) -> (r: AdminResponse)
        ensures
            exists|ds: Seq<Seq<char>>|
                sorting::lists_in_order(ds, self.meter@.dom()) && r@ == #[trigger] usage_list(
                    ds,
                    self.meter@,
                ),
    {
        let snap = self.meter.snapshot();
        let ghost m = self.meter@;
        let ghost ds = Seq::new(snap@.len(), |i: int| snap@[i].0@);
        let mut items: Vec<String> = Vec::new();
        let mut i: usize = 0;
        while i < snap.len()
            invariant
                i <= snap@.len(),
                m == self.meter@,
                ds == Seq::new(snap@.len(), |i: int| snap@[i].0@),
                multidomain::is_snapshot(snap@, m),
                items@.len() == i,
                forall|j: int| 0 <= j < i ==> (#[trigger] items@[j])@ == usage_items(ds, m)[j],
            decreases snap@.len() - i,
        {
            let e = &snap[i];
            assert(snap@[i as int].1 == m[ds[i as int]]);
            let mut out = text::concat3(
                "{\"domain\":",
                json::json_str(e.0.as_str()).as_str(),
                ",\"inbound\":",
            );
            out.append(text::dec_string(e.1.inbound).as_str());
            out.append(",\"outbound\":");
            out.append(text::dec_string(e.1.outbound).as_str());
            out.append(",\"messages\":");
            out.append(text::dec_string(e.1.messages).as_str());
            out.append("}");
            items.push(out);
            i += 1;
        }
        assert(text::string_views(items@) =~= usage_items(ds, m));
        let r = AdminResponse::ok(
            text::concat3("{\"ok\":true,\"usage\":[", json::json_list(&items).as_str(), "]}"),
        );
        assert(r@ == usage_list(ds, m));
        r
    }

    /// Carries out an action.
    fn perform(&mut self, action: &Action, form: &Form, now_ms: u64) -> (r: AdminResponse)
        ensures
            exists|given: GivenModel|
                {
                    &&& #[trigger] possible(
                        old(self).gateway@,
                        old(self).meter@,
                        action@,
                        given,
                    )
                    &&& (final(self).gateway@, r@) == performed(
                        old(self).gateway@,
                        old(self).meter@,
                        action@,
                        form@,
                        now_ms,
                        given,
                    )
                },
            final(self).meter == old(self).meter,
            final(self).auth == old(self).auth,
    {
        let ghost g = self.gateway@;
        let ghost m = self.meter@;
        let ghost mut given = GivenModel {
            seed: None,
            token: None,
            domains: Seq::empty(),
            metered: Seq::empty(),
        };
        if let Action::ListDomains = action {
            let r = self.list_domains();
            proof {
                let ds = choose|ds: Seq<Seq<char>>|
                    sorting::lists_in_order(ds, g.tenants.dom()) && r@ == #[trigger] domain_list(
                        ds,
                    );
                given = GivenModel { domains: ds, ..given };
                assert(possible(g, m, action@, given));
            }
            return r;
        }
        if let Action::ShowUsage = action {
            let r = self.usage();
            proof {
                let ds = choose|ds: Seq<Seq<char>>|
                    sorting::lists_in_order(ds, m.dom()) && r@ == #[trigger] usage_list(ds, m);
                given = GivenModel { metered: ds, ..given };
                assert(possible(g, m, action@, given));
            }
            return r;
        }
        if let Action::AddDomain = action {
            let r = self.add_domain(form);
            proof {
                let fresh = choose|fresh: Option<Seq<u8>>|
                    (self.gateway@, r@) == #[trigger] adding_domain(g, form@, fresh);
                given = GivenModel { seed: fresh, ..given };
                assert(possible(g, m, action@, given));
            }
            return r;
        }
        if let Action::MintRandom(d) = action {
            let r = self.mint_random(d.as_str(), form, now_ms);
            proof {
                let token = choose|token: Option<Seq<char>>|
                    {
                        &&& (self.gateway@, r@) == #[trigger] minting(
                            g,
                            d@,
                            form@,
                            now_ms,
                            token,
                        )
                        &&& token matches Some(tok) ==> {
                            let k = multidomain::domain_key(d@);
                            &&& alias_map::is_token(tok)
                            &&& g.tenants.contains_key(k) ==> !g.tenants[k].random.contains_key(
                                tok,
                            )
                        }
                    };
                given = GivenModel { token, ..given };
                assert(possible(g, m, action@, given));
            }
            return r;
        }
        assert(possible(g, m, action@, given));
        match action {
            Action::Health => AdminResponse::ok(
                text::string_from("{\"ok\":true,\"status\":\"live\"}"),
            ),
            Action::GetDomain(d) => self.get_domain(d.as_str()),
            Action::RemoveDomain(d) => self.remove_domain(d.as_str()),
            Action::AddRecipient(d) => self.add_recipient(d.as_str(), form),
            Action::RemoveRecipient => self.remove_recipient(form),
            Action::AllocateVanity(d) => self.allocate_vanity(d.as_str(), form),
            Action::RevokeVanity(d) => self.revoke_vanity(d.as_str(), form),
            Action::BurnRandom(d, t) => self.burn_random(d.as_str(), t.as_str()),
            Action::Block(d) => self.block(d.as_str(), form),
            Action::Unblock(d) => self.unblock(d.as_str(), form),
            Action::Suspend(d) => self.suspend(d.as_str(), form),
            Action::Unsuspend(d) => self.unsuspend(d.as_str(), form),
            Action::SetQuota(d) => self.set_quota(d.as_str(), form),
            Action::MethodNotAllowed => AdminResponse::err(405, "method not allowed"),
            _ => AdminResponse::err(404, "unknown path"),
        }
    }

    /// Answers a request: first whether it may be made, then what it asks for.
    pub fn handle(&mut self, req: &AdminRequest) -> (r: AdminResponse)
        ensures
            authorized(old(self).auth@, req@.token) ==> exists|given: GivenModel|
                {
                    &&& #[trigger] possible(
                        old(self).gateway@,
                        old(self).meter@,
                        action_for(req@.method, req@.path),
                        given,
                    )
                    &&& (final(self).gateway@, r@) == handled(
                        old(self).gateway@,
                        old(self).meter@,
                        old(self).auth@,
                        req@,
                        given,
                    )
                },
            !authorized(old(self).auth@, req@.token) ==> r@ == refused(401, "unauthorized"@)
                && final(self).gateway@ == old(self).gateway@,
            final(self).meter == old(self).meter,
            final(self).auth == old(self).auth,
    {
        let token: Option<&str> = match &req.token {
            Some(t) => Some(t.as_str()),
            None => None,
        };
        if !self.auth.authorize(token) {
            return AdminResponse::err(401, "unauthorized");
        }
        let action = find_action(req.method.as_str(), req.path.as_str());
        let form = parse_form(req.body.as_slice());
        self.perform(&action, &form, req.now_ms)
    }
}

// ---- reading a request -------------------------------------------------------------------------

/// The octets that the lines before the body may have together.
pub const MAX_HEAD_BYTES: usize = 65_536;

/// The octets that a body may have.
pub const MAX_BODY_BYTES: usize = 262_144;

/// The head of a request as far as it has been read.
#[verifier::ext_equal]
pub struct HeadModel {
    /// The method and the path, once the first line has been read.
    pub line: Option<(Seq<char>, Seq<char>)>,
    pub token: Option<Seq<char>>,
    pub content_length: nat,
    /// The octets that the lines to come may have together.
    pub budget: nat,
}

/// What came of one more line.
pub enum HeadEventModel {
    More,
    /// The head is complete, and the body follows it.
    Complete,
    /// There is no request.
    Closed,
    /// The request is refused.
    Malformed(Seq<char>),
}

/// What came of one more line.
#[derive(Debug, Clone, PartialEq, Eq)]
pub enum HeadEvent {
    More,
    Complete,
    Closed,
    Malformed(String),
}

impl View for HeadEvent {
    type V = HeadEventModel;

    open spec fn view(&self) -> HeadEventModel {
        match *self {
            HeadEvent::More => HeadEventModel::More,
            HeadEvent::Complete => HeadEventModel::Complete,
            HeadEvent::Closed => HeadEventModel::Closed,
            HeadEvent::Malformed(m) => HeadEventModel::Malformed(m@),
        }
    }
}

/// What stands before the first `?`.
pub open spec fn without_query(target: Seq<char>) -> Seq<char> {
    match text::split_once(target, '?') {
        Some((p, _)) => p,
        None => target,
    }
}

/// The token that an `Authorization` field carries.
pub open spec fn bearer(value: Seq<char>) -> Option<Seq<char>> {
    match crate::mx_session::after_either(value, "Bearer "@, "bearer "@) {
        Some(t) => Some(text::trim(t)),
        None => None,
    }
}

/// A line without the line end at its end.
pub open spec fn without_end(line: Seq<char>) -> Seq<char> {
    text::strip_back(line, |c: char| c == '\r' || c == '\n')
}

/// After the first line.
pub open spec fn after_request_line(h: HeadModel, line: Seq<u8>) -> (HeadModel, HeadEventModel) {
    if line.len() == 0 {
        (h, HeadEventModel::Closed)
    } else if line.len() > h.budget {
        (h, HeadEventModel::Malformed("request line/header too long"@))
    } else {
        let w = text::words(text::lossy(line));
        if w.len() == 0 {
            (h, HeadEventModel::Malformed("empty request line"@))
        } else if w.len() == 1 {
            (h, HeadEventModel::Malformed("missing request target"@))
        } else {
            (
                HeadModel {
                    line: Some((text::upper(w[0]), without_query(w[1]))),
                    budget: (h.budget - line.len()) as nat,
                    ..h
                },
                HeadEventModel::More,
            )
        }
    }
}

/// After a field.
pub open spec fn after_field(h: HeadModel, name: Seq<char>, value: Seq<char>) -> (
    HeadModel,
    HeadEventModel,
) {
    if name == "authorization"@ {
        (HeadModel { token: bearer(value), ..h }, HeadEventModel::More)
    } else if name == "content-length"@ {
        match text::parse_dec(value, u64::MAX as nat) {
            None => (h, HeadEventModel::Malformed("bad Content-Length"@)),
            Some(n) => if n > MAX_BODY_BYTES {
                (h, HeadEventModel::Malformed("request body too large"@))
            } else {
                (HeadModel { content_length: n, ..h }, HeadEventModel::More)
            },
        }
    } else {
        (h, HeadEventModel::More)
    }
}

/// After a line behind the first.
pub open spec fn after_header_line(h: HeadModel, line: Seq<u8>) -> (HeadModel, HeadEventModel) {
    if line.len() == 0 {
        (h, HeadEventModel::Malformed("headers truncated (no blank line)"@))
    } else if line.len() > h.budget {
        (h, HeadEventModel::Malformed("request line/header too long"@))
    } else {
        let t = without_end(text::lossy(line));
        let rest = HeadModel { budget: (h.budget - line.len()) as nat, ..h };
        if t.len() == 0 {
            (rest, HeadEventModel::Complete)
        } else {
            match text::split_once(t, ':') {
                None => (rest, HeadEventModel::More),
                Some((k, v)) => after_field(rest, text::lower(text::trim(k)), text::trim(v)),
            }
        }
    }
}

/// After a line of the head, with its line end; an empty one stands for the end of the input.
pub open spec fn head_step(h: HeadModel, line: Seq<u8>) -> (HeadModel, HeadEventModel) {
    if h.line is None {
        after_request_line(h, line)
    } else {
        after_header_line(h, line)
    }
}

/// Reads the head of a request line by line.
pub struct HeadReader {
    method: Option<String>,
    path: String,
    token: Option<String>,
    content_length: usize,
    budget: usize,
}

impl View for HeadReader {
    type V = HeadModel;

    closed spec fn view(&self) -> HeadModel {
        HeadModel {
            line: match self.method {
                Some(m) => Some((m@, self.path@)),
                None => None,
            },
            token: model::opt_view(self.token),
            content_length: self.content_length as nat,
            budget: self.budget as nat,
        }
    }
}

fn drop_line_end(s: &[char]) -> (r: &[char])
    ensures
        r@ == without_end(s@),
{
    let ghost p = |c: char| c == '\r' || c == '\n';
    let mut n: usize = s.len();
    assert(s@.take(n as int) =~= s@);
    while n > 0 && (s[n - 1] == '\r' || s[n - 1] == '\n')
        invariant
            n <= s@.len(),
            p == (|c: char| c == '\r' || c == '\n'),
            text::strip_back(s@, p) == text::strip_back(s@.take(n as int), p),
        decreases n,
    {
        assert(s@.take(n as int).last() == s@[n - 1]);
        assert(s@.take(n as int).drop_last() =~= s@.take(n - 1));
        n -= 1;
    }
    proof {
        if n > 0 {
            assert(s@.take(n as int).last() == s@[n - 1]);
        }
    }
    let r = vstd::slice::slice_subrange(s, 0, n);
    assert(r@ =~= s@.take(n as int));
    r
}

impl HeadReader {
    /// A reader before the first line.
    pub fn new() -> (r: Self)
        ensures
            r@ == (HeadModel {
                line: None,
                token: None,
                content_length: 0,
                budget: MAX_HEAD_BYTES as nat,
            }),
    {
        HeadReader {
            method: None,
            path: String::new(),
            token: None,
            content_length: 0,
            budget: MAX_HEAD_BYTES,
        }
    }

    /// The octets that the lines to come may have together.
    pub fn budget(&self) -> (r: usize)
        ensures
            r == self@.budget,
    {
        self.budget
    }

    /// The octets that the body has.
    pub fn content_length(&self) -> (r: usize)
        ensures
            r == self@.content_length,
    {
        self.content_length
    }

    fn take_request_line(&mut self, line: &[u8]) -> (r: HeadEvent)
        requires
            old(self)@.line is None,
        ensures
            (final(self)@, r@) == after_request_line(old(self)@, line@),
    {
        if line.len() == 0 {
            return HeadEvent::Closed;
        }
        if line.len() > self.budget {
            return HeadEvent::Malformed(text::string_from("request line/header too long"));
        }
        let t = text::from_utf8_lossy(line);
        let c = text::chars_of(t.as_str());
        let w = text::split_words(c.as_slice());
        let ghost ws = text::words(c@);
        if w.len() == 0 {
            return HeadEvent::Malformed(text::string_from("empty request line"));
        }
        if w.len() == 1 {
            return HeadEvent::Malformed(text::string_from("missing request target"));
        }
        assert(ws[0] == w@[0]@);
        assert(ws[1] == w@[1]@);
        let method = text::to_upper(w[0].as_slice());
        let path = match text::cut_first(w[1].as_slice(), '?') {
            Some((p, _)) => text::string_of(p),
            None => text::string_of(w[1].as_slice()),
        };
        self.method = Some(text::string_of(method.as_slice()));
        self.path = path;
        self.budget -= line.len();
        HeadEvent::More
    }

    fn take_header_line(&mut self, line: &[u8]) -> (r: HeadEvent)
        ensures
            (final(self)@, r@) == after_header_line(old(self)@, line@),
    {
        if line.len() == 0 {
            return HeadEvent::Malformed(text::string_from("headers truncated (no blank line)"));
        }
        if line.len() > self.budget {
            return HeadEvent::Malformed(text::string_from("request line/header too long"));
        }
        self.budget -= line.len();
        let t = text::from_utf8_lossy(line);
        let c = text::chars_of(t.as_str());
        let l = drop_line_end(c.as_slice());
        if l.len() == 0 {
            return HeadEvent::Complete;
        }
        let (k, v) = match text::cut_first(l, ':') {
            Some(p) => p,
            None => {
                return HeadEvent::More;
            },
        };
        let name = text::to_lower(text::trimmed(k));
        let value = text::trimmed(v);
        if text::is_text(name.as_slice(), "authorization") {
            self.token = match text::after_prefix(value, "Bearer ") {
                Some(t) => Some(text::string_of(text::trimmed(t))),
                None => match text::after_prefix(value, "bearer ") {
                    Some(t) => Some(text::string_of(text::trimmed(t))),
                    None => None,
                },
            };
        } else if text::is_text(name.as_slice(), "content-length") {
            match text::parse_number(value, u64::MAX) {
                None => {
                    return HeadEvent::Malformed(text::string_from("bad Content-Length"));
                },
                Some(n) => {
                    if n > MAX_BODY_BYTES as u64 {
                        return HeadEvent::Malformed(text::string_from("request body too large"));
                    }
                    self.content_length = n as usize;
                },
            }
        }
        HeadEvent::More
    }

    /// Takes one line, with its line end; an empty one stands for the end of the input.
    pub fn feed(&mut self, line: &[u8]) -> (r: HeadEvent)
        ensures
            (final(self)@, r@) == head_step(old(self)@, line@),
    {
        if self.method.is_none() {
            self.take_request_line(line)
        } else {
            self.take_header_line(line)
        }
    }

    /// The request with the given body; none where no first line has been read.
    pub fn request(self, body: Vec<u8>, now_ms: u64) -> (r: Option<AdminRequest>)
        ensures
            model::opt_view(r) == (match self@.line {
                Some((method, path)) => Some(
                    RequestModel { method, path, token: self@.token, body: body@, now_ms },
                ),
                None => None,
            }),
    {
        match self.method {
            Some(method) => Some(
                AdminRequest { method, path: self.path, token: self.token, body, now_ms },
            ),
            None => None,
        }
    }
}

// ---- laws --------------------------------------------------------------------------------------

/// Reading a request is bounded: no line makes the head or the body larger than they may be, and
/// what has been read counts against the bound.
pub proof fn law_requests_are_bounded(h: HeadModel, line: Seq<u8>)
    requires
        h.content_length <= MAX_BODY_BYTES,
        h.budget <= MAX_HEAD_BYTES,
    ensures
        ({
            let (next, event) = head_step(h, line);
            &&& next.content_length <= MAX_BODY_BYTES
            &&& next.budget <= h.budget
            &&& event is More || event is Complete ==> line.len() > 0 && next.budget == h.budget
                - line.len()
        }),
{
}

/// Without the token a request changes nothing and learns nothing; where no token is set, no request
/// has it.
pub proof fn law_no_token_no_access(
    g: Gateway,
    m: Map<Seq<char>, DomainUsage>,
    token: Option<Seq<char>>,
    req: RequestModel,
    given: GivenModel,
)
    requires
        token is None || req.token != token,
    ensures
        handled(g, m, token, req, given) == (g, refused(401, "unauthorized"@)),
{
}

/// A request to read changes nothing.
pub proof fn law_reading_changes_nothing(
    g: Gateway,
    m: Map<Seq<char>, DomainUsage>,
    token: Option<Seq<char>>,
    req: RequestModel,
    given: GivenModel,
)
    requires
        req.method == "GET"@,
    ensures
        handled(g, m, token, req, given).0 == g,
{
    reveal_strlit("GET");
    reveal_strlit("POST");
    reveal_strlit("PUT");
    reveal_strlit("DELETE");
    assert("GET"@[0] != "POST"@[0] && "GET"@[0] != "PUT"@[0] && "GET"@[0] != "DELETE"@[0]);
}

proof fn lemma_strip_front_of(x: Seq<char>, y: Seq<char>, p: spec_fn(char) -> bool)
    requires
        y.len() > 0,
        !p(y[0]),
    ensures
        text::strip_front(x + y, p) == text::strip_front(x, p) + y,
    decreases x.len(),
{
    if x.len() == 0 {
        assert(x + y =~= y);
        assert(text::strip_front(x, p) + y =~= y);
    } else {
        assert((x + y)[0] == x[0]);
        if p(x[0]) {
            assert((x + y).skip(1) =~= x.skip(1) + y);
            lemma_strip_front_of(x.skip(1), y, p);
        }
    }
}

/// The domain that an address on a valid domain is looked up under is that domain.
pub proof fn law_address_is_on_its_domain(email: Seq<char>, d: Seq<char>)
    requires
        is_on(email, d),
        names::valid_domain(text::lower(d)),
    ensures
        multidomain::split_parts(email) matches Some((_, dom)) ==> dom == text::lower(d),
{
    let white = |c: char| text::is_white(c);
    let lt = |c: char| c == '<';
    let gt = |c: char| c == '>';
    let (l, dom) = text::rsplit_once(email, '@')->0;
    let y = seq!['@'] + dom;
    email.index_of_last_ensures('@');
    assert(email =~= l + y);
    names::lemma_ends_in_alnum(text::lower(d));
    assert(text::lower(dom).len() == dom.len());
    assert(text::lower(dom).last() == text::lower_char(dom.last()));
    assert(y.last() == dom.last());
    assert(!white(dom.last()) && !gt(dom.last()));
    let l1 = text::strip_front(l, white);
    lemma_strip_front_of(l, y, white);
    assert((l1 + y).last() == dom.last());
    assert(text::trim(email) == l1 + y);
    let l2 = text::strip_front(l1, lt);
    lemma_strip_front_of(l1, y, lt);
    assert((l2 + y).last() == dom.last());
    assert(crate::inbound::bare_address(email) == l2 + y);
    let l3 = text::strip_front(l2, white);
    lemma_strip_front_of(l2, y, white);
    assert((l3 + y).last() == dom.last());
    let a = l3 + y;
    assert(text::trim(l2 + y) == a);
    a.index_of_last_ensures('@');
    let n = l3.len() as int;
    assert(a[n] == '@');
    assert forall|j: int| n < j < a.len() implies a[j] != '@' by {
        assert(a[j] == dom[j - n - 1]);
        assert(dom[j - n - 1] == email[l.len() + (j - n)]);
    }
    assert(a.index_of_last('@') == Some(n));
    assert(a.skip(n + 1) =~= dom);
}

/// A recipient is added only to the domain that the path names: every other domain is left as it is.
pub proof fn law_recipients_stay_in_their_domain(
    g: Gateway,
    d: Seq<char>,
    f: FormModel,
    other: Seq<char>,
)
    requires
        names::valid_domain(text::lower(d)),
        other != multidomain::domain_key(text::lower(d)),
        g.tenants.contains_key(other),
    ensures
        adding_recipient(g, d, f).0.tenants.contains_key(other),
        adding_recipient(g, d, f).0.tenants[other] == g.tenants[other],
{
    if field(f, "email"@) is Some && is_on(field(f, "email"@)->0, d) {
        law_address_is_on_its_domain(field(f, "email"@)->0, d);
    }
}

// ---- laws: what a request asks for -------------------------------------------------------------

/// A path is cut at its slashes, and what is empty between two of them does not count.
pub proof fn law_path_is_cut_at_slashes(a: Seq<char>, b: Seq<char>)
    requires
        !a.contains('/'),
    ensures
        a.len() > 0 ==> segments(a + seq!['/'] + b) == seq![a] + segments(b),
        a.len() > 0 ==> segments(a) == seq![a],
        a.len() == 0 ==> segments(a + seq!['/'] + b) == segments(b),
        a.len() == 0 ==> segments(a) == Seq::<Seq<char>>::empty(),
{
    let keep = |s: Seq<char>| s.len() > 0;
    text::law_cut_at_the_first(a, '/', b);
    Seq::filter_distributes_over_add(seq![a], text::split(b, '/'), keep);
    let none = Seq::<Seq<char>>::empty();
    assert(seq![a].drop_last() =~= none);
    reveal_with_fuel(Seq::filter, 2);
    assert(none.filter(keep) =~= none);
    if a.len() > 0 {
        assert(seq![a].filter(keep) =~= seq![a]);
    } else {
        assert(seq![a].filter(keep) =~= none);
        assert(none + text::split(b, '/').filter(keep) =~= text::split(b, '/').filter(keep));
    }
}

/// Each request for what concerns the gateway as a whole, or a domain as a whole, has one method and
/// one path.
pub proof fn law_requests_for_domains(m: Seq<char>, path: Seq<char>, s: Seq<Seq<char>>, d: Seq<char>)
    requires
        s == segments(path),
    ensures
        action_for(m, path) == ActionModel::Health <==> m == "GET"@ && s =~= seq!["v1"@, "health"@],
        action_for(m, path) == ActionModel::ShowUsage <==> m == "GET"@ && s =~= seq!["v1"@, "usage"@],
        action_for(m, path) == ActionModel::ListDomains <==> m == "GET"@ && s =~= seq![
            "v1"@,
            "domains"@,
        ],
        action_for(m, path) == ActionModel::AddDomain <==> m == "POST"@ && s =~= seq![
            "v1"@,
            "domains"@,
        ],
        action_for(m, path) == ActionModel::GetDomain(d) <==> m == "GET"@ && s =~= seq![
            "v1"@,
            "domains"@,
            d,
        ],
        action_for(m, path) == ActionModel::RemoveDomain(d) <==> m == "DELETE"@ && s =~= seq![
            "v1"@,
            "domains"@,
            d,
        ],
{
    lemma_words_differ();
    if s.len() >= 3 {
        assert(s.skip(3).len() == s.len() - 3);
        if s.len() >= 4 {
            assert(s.skip(3)[0] == s[3]);
        }
    }
}

/// Each request for what belongs to one domain has one method and one path under that domain.
pub proof fn law_requests_within_a_domain(
    m: Seq<char>,
    path: Seq<char>,
    s: Seq<Seq<char>>,
    d: Seq<char>,
)
    requires
        s == segments(path),
    ensures
        action_for(m, path) == ActionModel::AddRecipient(d) <==> m == "POST"@ && s =~= seq![
            "v1"@,
            "domains"@,
            d,
            "recipients"@,
        ],
        action_for(m, path) == ActionModel::RemoveRecipient <==> m == "DELETE"@ && s.len() == 4
            && s[0] == "v1"@ && s[1] == "domains"@ && s[3] == "recipients"@,
        action_for(m, path) == ActionModel::Block(d) <==> m == "POST"@ && s =~= seq![
            "v1"@,
            "domains"@,
            d,
            "blocklist"@,
        ],
        action_for(m, path) == ActionModel::Unblock(d) <==> m == "DELETE"@ && s =~= seq![
            "v1"@,
            "domains"@,
            d,
            "blocklist"@,
        ],
        action_for(m, path) == ActionModel::Suspend(d) <==> m == "POST"@ && s =~= seq![
            "v1"@,
            "domains"@,
            d,
            "suspend"@,
        ],
        action_for(m, path) == ActionModel::Unsuspend(d) <==> m == "DELETE"@ && s =~= seq![
            "v1"@,
            "domains"@,
            d,
            "suspend"@,
        ],
        action_for(m, path) == ActionModel::SetQuota(d) <==> m == "PUT"@ && s =~= seq![
            "v1"@,
            "domains"@,
            d,
            "quota"@,
        ],
{
    lemma_words_differ();
    if s.len() >= 3 {
        let more = s.skip(3);
        assert(more.len() == s.len() - 3);
        if s.len() >= 4 {
            assert(more[0] == s[3]);
        }
        if s.len() >= 5 {
            assert(more[1] == s[4]);
        }
    }
}

/// Each request for the aliases of a domain has one method and one path under that domain.
pub proof fn law_requests_for_aliases(
    m: Seq<char>,
    path: Seq<char>,
    s: Seq<Seq<char>>,
    d: Seq<char>,
    t: Seq<char>,
)
    requires
        s == segments(path),
    ensures
        action_for(m, path) == ActionModel::AllocateVanity(d) <==> m == "POST"@ && s =~= seq![
            "v1"@,
            "domains"@,
            d,
            "aliases"@,
            "vanity"@,
        ],
        action_for(m, path) == ActionModel::RevokeVanity(d) <==> m == "DELETE"@ && s =~= seq![
            "v1"@,
            "domains"@,
            d,
            "aliases"@,
            "vanity"@,
        ],
        action_for(m, path) == ActionModel::MintRandom(d) <==> m == "POST"@ && s =~= seq![
            "v1"@,
            "domains"@,
            d,
            "aliases"@,
            "random"@,
        ],
        action_for(m, path) == ActionModel::BurnRandom(d, t) <==> m == "DELETE"@ && s =~= seq![
            "v1"@,
            "domains"@,
            d,
            "aliases"@,
            "random"@,
            t,
        ],
{
    lemma_words_differ();
    if s.len() >= 3 {
        let more = s.skip(3);
        assert(more.len() == s.len() - 3);
        if s.len() >= 4 {
            assert(more[0] == s[3]);
        }
        if s.len() >= 5 {
            assert(more[1] == s[4]);
        }
        if s.len() >= 6 {
            assert(more[2] == s[5]);
        }
    }
}

/// A path is known or not whatever the method is; with a method that it does not have, a known path is
/// answered differently from an unknown one.
pub proof fn law_which_paths_are_known(m: Seq<char>, path: Seq<char>, s: Seq<Seq<char>>)
    requires
        s == segments(path),
    ensures
        action_for(m, path) !is UnknownPath <==> s.len() >= 2 && s[0] == "v1"@ && {
            ||| s.len() == 2 && (s[1] == "health"@ || s[1] == "domains"@ || s[1] == "usage"@)
            ||| s.len() == 3 && s[1] == "domains"@
            ||| s.len() == 4 && s[1] == "domains"@ && (s[3] == "recipients"@ || s[3] == "blocklist"@
                || s[3] == "suspend"@ || s[3] == "quota"@)
            ||| s.len() == 5 && s[1] == "domains"@ && s[3] == "aliases"@ && (s[4] == "vanity"@
                || s[4] == "random"@)
            ||| s.len() == 6 && s[1] == "domains"@ && s[3] == "aliases"@ && s[4] == "random"@
        },
        m != "GET"@ && m != "POST"@ && m != "PUT"@ && m != "DELETE"@ ==> action_for(m, path)
            is MethodNotAllowed || action_for(m, path) is UnknownPath,
{
    if s.len() >= 3 {
        let more = s.skip(3);
        assert(more.len() == s.len() - 3);
        if s.len() >= 4 {
            assert(more[0] == s[3]);
        }
        if s.len() >= 5 {
            assert(more[1] == s[4]);
        }
    }
}

proof fn lemma_words_differ()
    ensures
        "GET"@ != "POST"@,
        "GET"@ != "PUT"@,
        "GET"@ != "DELETE"@,
        "POST"@ != "PUT"@,
        "POST"@ != "DELETE"@,
        "PUT"@ != "DELETE"@,
        "health"@ != "domains"@,
        "health"@ != "usage"@,
        "domains"@ != "usage"@,
        "recipients"@ != "blocklist"@,
        "recipients"@ != "suspend"@,
        "recipients"@ != "quota"@,
        "blocklist"@ != "suspend"@,
        "blocklist"@ != "quota"@,
        "suspend"@ != "quota"@,
        "vanity"@ != "random"@,
{
    reveal_strlit("GET");
    reveal_strlit("POST");
    reveal_strlit("PUT");
    reveal_strlit("DELETE");
    reveal_strlit("health");
    reveal_strlit("domains");
    reveal_strlit("usage");
    reveal_strlit("recipients");
    reveal_strlit("blocklist");
    reveal_strlit("suspend");
    reveal_strlit("quota");
    reveal_strlit("vanity");
    reveal_strlit("random");
    assert("GET"@.len() == 3 && "POST"@.len() == 4 && "PUT"@.len() == 3 && "DELETE"@.len() == 6);
    assert("GET"@[0] == 'G' && "PUT"@[0] == 'P');
    assert("health"@.len() == 6 && "domains"@.len() == 7 && "usage"@.len() == 5);
    assert("recipients"@.len() == 10 && "blocklist"@.len() == 9 && "suspend"@.len() == 7);
    assert("quota"@.len() == 5);
    assert("vanity"@[0] == 'v' && "random"@[0] == 'r');
}

// ---- laws: the form ----------------------------------------------------------------------------

proof fn lemma_strip_back_of(x: Seq<char>, y: Seq<char>, p: spec_fn(char) -> bool)
    requires
        x.len() > 0,
        !p(x.last()),
    ensures
        text::strip_back(x + y, p) == x + text::strip_back(y, p),
    decreases y.len(),
{
    if y.len() == 0 {
        assert(x + y =~= x);
        assert(x + text::strip_back(y, p) =~= x);
    } else {
        assert((x + y).last() == y.last());
        if p(y.last()) {
            assert((x + y).drop_last() =~= x + y.drop_last());
            lemma_strip_back_of(x, y.drop_last(), p);
        }
    }
}

proof fn lemma_strip_front_twice(s: Seq<char>, p: spec_fn(char) -> bool)
    ensures
        text::strip_front(text::strip_front(s, p), p) == text::strip_front(s, p),
    decreases s.len(),
{
    if s.len() > 0 && p(s[0]) {
        lemma_strip_front_twice(s.skip(1), p);
    }
}

proof fn lemma_strip_front_keeps(s: Seq<char>, c: char, p: spec_fn(char) -> bool)
    requires
        !s.contains(c),
    ensures
        !text::strip_front(s, p).contains(c),
        text::strip_front(s, p).len() <= s.len(),
    decreases s.len(),
{
    if s.len() > 0 && p(s[0]) {
        assert(!s.skip(1).contains(c)) by {
            if s.skip(1).contains(c) {
                let i = s.skip(1).index_of(c);
                assert(s[i + 1] == c);
            }
        }
        lemma_strip_front_keeps(s.skip(1), c, p);
    }
}

proof fn lemma_trim_of_stripped_back(s: Seq<char>)
    ensures
        text::trim(text::strip_back(s, |c: char| text::is_white(c))) == text::trim(s),
    decreases s.len(),
{
    let p = |c: char| text::is_white(c);
    if s.len() > 0 && p(s.last()) {
        lemma_trim_of_stripped_back(s.drop_last());
        let d = s.drop_last();
        assert(d.push(s.last()) =~= s);
        assert(d + seq![s.last()] =~= s);
        if forall|i: int| 0 <= i < d.len() ==> p(#[trigger] d[i]) {
            text::law_trim_takes_the_ends(d, Seq::empty(), seq![s.last()]);
            text::law_trim_takes_the_ends(d, Seq::empty(), Seq::empty());
            assert(d + Seq::<char>::empty() + seq![s.last()] =~= s);
            assert(d + Seq::<char>::empty() + Seq::<char>::empty() =~= d);
        } else {
            let i = choose|i: int| 0 <= i < d.len() && !p(#[trigger] d[i]);
            lemma_front_of_more(d, seq![s.last()], i);
            let f = text::strip_front(d, p);
            assert((f + seq![s.last()]).drop_last() =~= f);
        }
    }
}

proof fn lemma_front_of_more(d: Seq<char>, e: Seq<char>, i: int)
    requires
        0 <= i < d.len(),
        !text::is_white(d[i]),
    ensures
        text::strip_front(d + e, |c: char| text::is_white(c)) == text::strip_front(
            d,
            |c: char| text::is_white(c),
        ) + e,
    decreases d.len(),
{
    let p = |c: char| text::is_white(c);
    assert((d + e)[0] == d[0]);
    if p(d[0]) {
        assert((d + e).skip(1) =~= d.skip(1) + e);
        assert(d.skip(1)[i - 1] == d[i]);
        lemma_front_of_more(d.skip(1), e, i - 1);
    }
}

proof fn lemma_pair_is_read(f: FormModel, k: Seq<char>, v: Seq<char>)
    requires
        !k.contains('='),
    ensures
        with_pair(f, k + seq!['='] + v) == f.insert(text::trim(k), text::trim(v)),
{
    let p = |c: char| text::is_white(c);
    let pair = k + seq!['='] + v;
    let y = seq!['='] + v;
    assert(pair =~= k + y);
    assert(y[0] == '=');
    lemma_strip_front_of(k, y, p);
    let k1 = text::strip_front(k, p);
    let v1 = text::strip_back(v, p);
    assert(k1 + y =~= (k1 + seq!['=']) + v);
    assert((k1 + seq!['=']).last() == '=');
    lemma_strip_back_of(k1 + seq!['='], v, p);
    assert(text::trim(pair) == k1 + seq!['='] + v1);
    lemma_strip_front_keeps(k, '=', p);
    text::law_cut_at_the_first(k1, '=', v1);
    lemma_strip_front_twice(k, p);
    lemma_trim_of_stripped_back(v);
    assert(text::trim(k1) == text::trim(k));
}

proof fn lemma_no_pair_is_read(f: FormModel, pair: Seq<char>)
    requires
        !pair.contains('='),
    ensures
        with_pair(f, pair) == f,
{
    let p = |c: char| text::is_white(c);
    lemma_strip_front_keeps(pair, '=', p);
    let a = text::strip_front(pair, p);
    lemma_strip_back_keeps(a, '=', p);
    text::law_cut_at_the_first(text::trim(pair), '=', Seq::empty());
}

proof fn lemma_strip_back_keeps(s: Seq<char>, c: char, p: spec_fn(char) -> bool)
    requires
        !s.contains(c),
    ensures
        !text::strip_back(s, p).contains(c),
    decreases s.len(),
{
    if s.len() > 0 && p(s.last()) {
        assert(!s.drop_last().contains(c)) by {
            if s.drop_last().contains(c) {
                let i = s.drop_last().index_of(c);
                assert(s[i] == c);
            }
        }
        lemma_strip_back_keeps(s.drop_last(), c, p);
    }
}

proof fn lemma_split_at_the_back(a: Seq<char>, c: char, b: Seq<char>)
    requires
        !b.contains(c),
    ensures
        text::split(a + seq![c] + b, c) == text::split(a, c).push(b),
    decreases a.len(),
{
    a.index_of_first_ensures(c);
    match a.index_of_first(c) {
        Some(i) => {
            let h = a.take(i);
            let r = a.skip(i + 1);
            assert(a =~= h + seq![c] + r);
            assert(!h.contains(c)) by {
                if h.contains(c) {
                    let j = h.index_of(c);
                    assert(a[j] == c);
                }
            }
            lemma_split_at_the_back(r, c, b);
            text::law_cut_at_the_first(h, c, r);
            text::law_cut_at_the_first(h, c, r + seq![c] + b);
            assert(a + seq![c] + b =~= h + seq![c] + (r + seq![c] + b));
            assert(seq![h] + text::split(r, c).push(b) =~= (seq![h] + text::split(r, c)).push(b));
        },
        None => {
            text::law_cut_at_the_first(a, c, b);
            text::law_cut_at_the_first(b, c, Seq::empty());
            assert(seq![a] + seq![b] =~= seq![a].push(b));
        },
    }
}

proof fn lemma_form_takes_one_more(a: Seq<char>, sep: char, p: Seq<char>)
    requires
        sep == '&' || sep == '\n',
        !p.contains('&') && !p.contains('\n'),
    ensures
        form_of(text::split(one_line(a + seq![sep] + p), '&')) == with_pair(
            form_of(text::split(one_line(a), '&')),
            p,
        ),
        form_of(text::split(one_line(p), '&')) == with_pair(Map::empty(), p),
{
    assert forall|i: int| 0 <= i < p.len() implies p[i] != '&' && p[i] != '\n' by {
        assert(p.contains(p[i]));
    }
    assert(one_line(p) =~= p);
    assert(one_line(a + seq![sep] + p) =~= one_line(a) + seq!['&'] + p);
    lemma_split_at_the_back(one_line(a), '&', p);
    let ps = text::split(one_line(a), '&');
    assert(ps.push(p).drop_last() =~= ps);
    text::law_cut_at_the_first(p, '&', Seq::empty());
    assert(seq![p].drop_last() =~= Seq::<Seq<char>>::empty());
    reveal_with_fuel(form_of, 2);
}

/// A form is read pair by pair: behind an ampersand or a line feed, a name and a value with `=` between
/// them set the field of that name, over what it was before. The white space round either is not
/// part of it.
pub proof fn law_form_is_read_pair_by_pair(
    before: Seq<u8>,
    body: Seq<u8>,
    sep: char,
    k: Seq<char>,
    v: Seq<char>,
)
    requires
        sep == '&' || sep == '\n',
        !k.contains('=') && !k.contains('&') && !k.contains('\n'),
        !v.contains('&') && !v.contains('\n'),
    ensures
        text::lossy(body) == text::lossy(before) + seq![sep] + (k + seq!['='] + v) ==> form_in(body)
            == form_in(before).insert(text::trim(k), text::trim(v)),
        text::lossy(body) == k + seq!['='] + v ==> form_in(body) == Map::<
            Seq<char>,
            Seq<char>,
        >::empty().insert(text::trim(k), text::trim(v)),
{
    let p = k + seq!['='] + v;
    assert forall|c: char| c == '&' || c == '\n' implies !p.contains(c) by {
        if p.contains(c) {
            let i = p.index_of(c);
            if i < k.len() {
                assert(k[i] == c);
            } else if i > k.len() {
                assert(v[i - k.len() - 1] == c);
            }
        }
    }
    lemma_form_takes_one_more(text::lossy(before), sep, p);
    lemma_pair_is_read(form_in(before), k, v);
    lemma_pair_is_read(Map::empty(), k, v);
}

/// What has no `=` sets no field.
pub proof fn law_what_is_no_pair_is_passed_over(
    before: Seq<u8>,
    body: Seq<u8>,
    sep: char,
    p: Seq<char>,
)
    requires
        sep == '&' || sep == '\n',
        !p.contains('=') && !p.contains('&') && !p.contains('\n'),
    ensures
        text::lossy(body) == text::lossy(before) + seq![sep] + p ==> form_in(body) == form_in(before),
        text::lossy(body) == p ==> form_in(body) == Map::<Seq<char>, Seq<char>>::empty(),
{
    lemma_form_takes_one_more(text::lossy(before), sep, p);
    lemma_no_pair_is_read(form_in(before), p);
    lemma_no_pair_is_read(Map::empty(), p);
}

// ---- laws: the fields of the form --------------------------------------------------------------

/// The caps that a form asks for are those of its two fields, as the free allowance and as the cap
/// alike; a field that is missing or empty stands for none, and with neither field no caps are asked
/// for. What is no number is refused.
pub proof fn law_caps_that_are_asked_for(f: FormModel, m: Option<nat>, b: Option<nat>)
    requires
        f.contains_key("quota_messages"@) && f["quota_messages"@].len() > 0 ==> m
            == text::parse_dec(f["quota_messages"@], u64::MAX as nat),
        !(f.contains_key("quota_messages"@) && f["quota_messages"@].len() > 0) ==> m == Some(0nat),
        f.contains_key("quota_bytes"@) && f["quota_bytes"@].len() > 0 ==> b == text::parse_dec(
            f["quota_bytes"@],
            u64::MAX as nat,
        ),
        !(f.contains_key("quota_bytes"@) && f["quota_bytes"@].len() > 0) ==> b == Some(0nat),
    ensures
        (!f.contains_key("quota_messages"@) || f["quota_messages"@].len() == 0) && (!f.contains_key(
            "quota_bytes"@,
        ) || f["quota_bytes"@].len() == 0) <==> quota_in(f) == Ok::<Option<Quota>, Seq<char>>(None),
        quota_in(f) is Ok <==> m is Some && b is Some,
        quota_in(f) is Ok && quota_in(f)->Ok_0 is Some ==> {
            let q = quota_in(f)->Ok_0->0;
            q.free_messages == m->0 && q.hard_cap_messages == m->0 && q.free_bytes == b->0
                && q.hard_cap_bytes == b->0
        },
        m is None ==> quota_in(f) == Err::<Option<Quota>, Seq<char>>(
            "quota_messages must be a non-negative integer"@,
        ),
        m is Some && b is None ==> quota_in(f) == Err::<Option<Quota>, Seq<char>>(
            "quota_bytes must be a non-negative integer"@,
        ),
{
}

/// What an alias is to stand for is an address of this network or a key; anything else is refused.
pub proof fn law_what_an_alias_can_stand_for(
    local: Seq<char>,
    domain: Seq<char>,
    b: Seq<char>,
    raw: Seq<char>,
)
    requires
        !domain.contains('@'),
    ensures
        local.len() > 0 && domain.len() > 0 ==> target_in(
            "native:"@ + (local + seq!['@'] + domain),
        ) == Ok::<_, Seq<char>>(alias_map::TargetModel::Native { local, domain }),
        local.len() == 0 || domain.len() == 0 ==> target_in(
            "native:"@ + (local + seq!['@'] + domain),
        ) is Err,
        target_in("native:"@ + domain) is Err,
        b64::decoding(b) is Some && b64::decoding(b)->0.len() > 0 ==> target_in("identity:"@ + b)
            == Ok::<_, Seq<char>>(alias_map::TargetModel::Identity(b64::decoding(b)->0)),
        b64::decoding(b) is None || b64::decoding(b)->0.len() == 0 ==> target_in("identity:"@ + b)
            is Err,
        target_in(raw) is Ok ==> "native:"@.is_prefix_of(raw) || "identity:"@.is_prefix_of(raw),
{
    reveal_strlit("native:");
    reveal_strlit("identity:");
    let t = local + seq!['@'] + domain;
    text::law_prefix_comes_off("native:"@, t, raw);
    text::law_prefix_comes_off("native:"@, domain, raw);
    text::law_prefix_comes_off("native:"@, domain, "identity:"@ + b);
    text::law_prefix_comes_off("identity:"@, b, raw);
    text::lemma_rsplit_of_joined(local, '@', domain);
    text::law_cut_at_the_first(domain, '@', domain);
    assert(("identity:"@ + b)[0] == 'i');
    assert("native:"@[0] == 'n');
    if text::strip_prefix("identity:"@ + b, "native:"@) is Some {
        let u = text::strip_prefix("identity:"@ + b, "native:"@)->0;
        assert(("native:"@ + u)[0] == 'n');
    }
}

/// A signing seed is given as thirty-two octets in base64, and nothing else is one.
pub proof fn law_what_a_seed_is(b: Seq<char>)
    ensures
        b64::decoding(b) is Some && b64::decoding(b)->0.len() == 32 <==> seed_in(b) is Ok,
        seed_in(b) is Ok ==> Some(seed_in(b)->Ok_0) == b64::decoding(b),
{
}

/// What says yes, and nothing else does: four words, in any case and with white space round them.
pub proof fn law_what_says_yes(a: Seq<char>, v: Seq<char>, b: Seq<char>)
    requires
        text::all_white(a) && text::all_white(b),
        v.len() > 0 ==> !text::is_white(v[0]) && !text::is_white(v.last()),
    ensures
        says_yes(a + v + b) <==> text::lower(v) == "true"@ || text::lower(v) == "1"@ || text::lower(v)
            == "yes"@ || text::lower(v) == "on"@,
{
    text::law_trim_takes_the_ends(a, v, b);
}

// ---- laws: what is answered --------------------------------------------------------------------

/// Only the token that is set gives access, and with it a request is what its method and path ask for,
/// with the form in its body. Paths and methods that are not known are refused and change nothing.
pub proof fn law_what_is_refused_outright(
    g: Gateway,
    m: Map<Seq<char>, DomainUsage>,
    token: Option<Seq<char>>,
    req: RequestModel,
    given: GivenModel,
    r: (Gateway, ResponseModel),
)
    requires
        r == handled(g, m, token, req, given),
    ensures
        token is None || req.token != token ==> r.0 == g && r.1.status == 401 && r.1.body
            == "{\"ok\":false,\"error\":"@ + json::json("unauthorized"@) + "}"@,
        token is Some && req.token == token && action_for(req.method, req.path) is UnknownPath ==> r.0
            == g && r.1.status == 404 && r.1.body == "{\"ok\":false,\"error\":"@ + json::json(
            "unknown path"@,
        ) + "}"@,
        token is Some && req.token == token && action_for(req.method, req.path) is MethodNotAllowed
            ==> r.0 == g && r.1.status == 405 && r.1.body == "{\"ok\":false,\"error\":"@ + json::json(
            "method not allowed"@,
        ) + "}"@,
        token is Some && req.token == token && action_for(req.method, req.path) is Health ==> r.0 == g
            && r.1.status == 200 && r.1.body == "{\"ok\":true,\"status\":\"live\"}"@,
        token is Some && req.token == token ==> r == performed(
            g,
            m,
            action_for(req.method, req.path),
            form_in(req.body),
            req.now_ms,
            given,
        ),
{
}

/// The words that go with each status.
pub proof fn law_phrases()
    ensures
        phrase(200) == "OK"@,
        phrase(201) == "Created"@,
        phrase(400) == "Bad Request"@,
        phrase(401) == "Unauthorized"@,
        phrase(404) == "Not Found"@,
        phrase(405) == "Method Not Allowed"@,
        phrase(409) == "Conflict"@,
        phrase(500) == "Internal Server Error"@,
{
}

/// What is listed is listed item by item, as JSON texts between brackets with commas between them.
pub proof fn law_what_is_listed(
    g: Gateway,
    m: Map<Seq<char>, DomainUsage>,
    f: FormModel,
    now_ms: u64,
    given: GivenModel,
    ds: Seq<Seq<char>>,
    us: Seq<Seq<char>>,
)
    requires
        ds.len() == given.domains.len(),
        forall|i: int| 0 <= i < ds.len() ==> #[trigger] ds[i] == json::json(given.domains[i]),
        us.len() == given.metered.len(),
        forall|i: int|
            0 <= i < us.len() ==> #[trigger] us[i] == "{\"domain\":"@ + json::json(given.metered[i])
                + ",\"inbound\":"@ + text::dec(m[given.metered[i]].inbound as nat) + ",\"outbound\":"@
                + text::dec(m[given.metered[i]].outbound as nat) + ",\"messages\":"@ + text::dec(
                m[given.metered[i]].messages as nat,
            ) + "}"@,
    ensures
        performed(g, m, ActionModel::ListDomains, f, now_ms, given).0 == g,
        performed(g, m, ActionModel::ListDomains, f, now_ms, given).1.status == 200,
        performed(g, m, ActionModel::ListDomains, f, now_ms, given).1.body
            == "{\"ok\":true,\"domains\":["@ + json::listed(ds) + "]}"@,
        performed(g, m, ActionModel::ShowUsage, f, now_ms, given).0 == g,
        performed(g, m, ActionModel::ShowUsage, f, now_ms, given).1.status == 200,
        performed(g, m, ActionModel::ShowUsage, f, now_ms, given).1.body
            == "{\"ok\":true,\"usage\":["@ + json::listed(us) + "]}"@,
{
    assert(json_items(given.domains) =~= ds);
    assert(usage_items(given.metered, m) =~= us);
}

/// What is possible to be handed to a request: listings that are those of the gateway and the meter,
/// and a token that no row has yet.
pub proof fn law_what_can_be_given(
    g: Gateway,
    m: Map<Seq<char>, DomainUsage>,
    action: ActionModel,
    given: GivenModel,
)
    requires
        possible(g, m, action, given),
    ensures
        action is ListDomains ==> sorting::lists_in_order(given.domains, g.tenants.dom()),
        action is ShowUsage ==> sorting::lists_in_order(given.metered, m.dom()),
        action is MintRandom && given.token is Some && g.tenants.contains_key(
            text::lower(text::trim(action->MintRandom_0)),
        ) ==> !g.tenants[text::lower(text::trim(action->MintRandom_0))].random.contains_key(
            given.token->0,
        ),
{
}

/// A domain is removed whole, and only that domain; one that is not served cannot be removed.
pub proof fn law_domain_is_removed_or_shown(
    g: Gateway,
    m: Map<Seq<char>, DomainUsage>,
    d: Seq<char>,
    f: FormModel,
    now_ms: u64,
    given: GivenModel,
    k: Seq<char>,
)
    requires
        k == text::lower(text::trim(d)),
    ensures
        ({
            let r = performed(g, m, ActionModel::RemoveDomain(d), f, now_ms, given);
            let s = performed(g, m, ActionModel::GetDomain(d), f, now_ms, given);
            &&& r.0.tenants == g.tenants.remove(k)
            &&& r.0.global_blocked == g.global_blocked
            &&& r.0.default_quota == g.default_quota
            &&& g.tenants.contains_key(k) ==> r.1.status == 200 && r.1.body == "{\"ok\":true,\""@
                + "removed"@ + "\":"@ + json::json(d) + "}"@
            &&& !g.tenants.contains_key(k) ==> r.1.status == 404
            &&& s.0 == g
            &&& g.tenants.contains_key(k) ==> s.1.status == 200
            &&& !g.tenants.contains_key(k) ==> s.1.status == 404
        }),
{
}

/// What is shown of a domain: its name, its selector and its public key, how many recipients it has,
/// its caps, and what it has used of them.
pub proof fn law_what_is_shown_of_a_domain(t: multidomain::TenantModel)
    ensures
        domain_body(t) == "{\"ok\":true,\"domain\":"@ + json::json(t.domain) + ",\"selector\":"@
            + json::json(t.dkim.selector) + ",\"dkim_public\":"@ + json::json(
            b64::encoding(dkim::dalek_public(t.dkim.seed)),
        ) + ",\"recipients\":"@ + text::dec(t.directory.dom().len()) + ",\"quota_messages\":"@
            + text::dec(t.quota.hard_cap_messages as nat) + ",\"quota_bytes\":"@ + text::dec(
            t.quota.hard_cap_bytes as nat,
        ) + ",\"used_messages\":"@ + text::dec(
            (if t.ledger.usage.contains_key(t.domain) {
                t.ledger.usage[t.domain].messages
            } else {
                0
            }) as nat,
        ) + ",\"used_bytes\":"@ + text::dec(
            (if t.ledger.usage.contains_key(t.domain) {
                t.ledger.usage[t.domain].bytes
            } else {
                0
            }) as nat,
        ) + "}"@,
{
}

/// A domain is added where its name is valid and not yet served, with the seed of the form or else a
/// fresh one, the selector of the form or else the usual one, and the caps of the form or else those of
/// new domains. Otherwise nothing changes.
pub proof fn law_domain_is_added(
    g: Gateway,
    m: Map<Seq<char>, DomainUsage>,
    f: FormModel,
    now_ms: u64,
    given: GivenModel,
    seed: Option<Seq<u8>>,
    other: Seq<char>,
)
    requires
        f.contains_key("dkim_seed_b64"@) && f["dkim_seed_b64"@].len() > 0 ==> seed == b64::decoding(
            f["dkim_seed_b64"@],
        ),
        !(f.contains_key("dkim_seed_b64"@) && f["dkim_seed_b64"@].len() > 0) ==> seed == given.seed
            && (seed is Some ==> seed->0.len() == 32),
    ensures
        ({
            let r = performed(g, m, ActionModel::AddDomain, f, now_ms, given);
            let named = f.contains_key("domain"@) && f["domain"@].len() > 0;
            let d = text::lower(text::trim(f["domain"@]));
            let q = quota_in(f);
            let t = r.0.tenants[d];
            &&& !named ==> r.0 == g && r.1.status == 400
            &&& named && q is Err ==> r.0 == g && r.1.status == 400
            &&& named && !names::valid_domain(d) ==> r.0 == g && r.1.status == 400
            &&& r.1.status == 201 <==> named && seed is Some && seed->0.len() == 32 && q is Ok
                && names::valid_domain(d) && !g.tenants.contains_key(d)
            &&& r.1.status != 201 ==> r.0 == g
            &&& r.1.status == 409 ==> g.tenants.contains_key(d)
            &&& r.1.status == 201 ==> {
                &&& r.0.tenants.contains_key(d) && t.domain == d && t.dkim.seed == seed->0
                &&& !(f.contains_key("selector"@) && f["selector"@].len() > 0) ==> t.dkim.selector
                    == "gw1"@
                &&& f.contains_key("selector"@) && text::trim(f["selector"@]).len() > 0
                    && f["selector"@].len() > 0 ==> t.dkim.selector == text::trim(f["selector"@])
                &&& t.quota == (if q->Ok_0 is Some {
                    q->Ok_0->0
                } else {
                    g.default_quota
                })
                &&& t.ledger.limits.contains_key(d) && t.ledger.limits[d] == t.quota
                &&& r.1.body == "{\"ok\":true,\"domain\":"@ + json::json(d) + ",\"selector\":"@
                    + json::json(t.dkim.selector) + ",\"dkim_public\":"@ + json::json(
                    b64::encoding(dkim::dalek_public(seed->0)),
                ) + ",\"dkim_seed_b64\":"@ + json::json(b64::encoding(seed->0)) + "}"@
                &&& other != d ==> r.0.tenants.contains_key(other) == g.tenants.contains_key(other)
                &&& other != d && g.tenants.contains_key(other) ==> r.0.tenants[other]
                    == g.tenants[other]
                &&& r.0.global_blocked == g.global_blocked
            }
        }),
{
    reveal_strlit("gw1");
    text::lemma_nothing_to_trim("gw1"@);
    text::lemma_lower_trim_idempotent(f["domain"@]);
}

// ---- laws: what is done to a domain ------------------------------------------------------------

/// A recipient is added where the form has an address and two keys, the address is on the domain that
/// the path names, and that domain is served. Otherwise nothing changes.
pub proof fn law_recipient_is_added(
    g: Gateway,
    m: Map<Seq<char>, DomainUsage>,
    d: Seq<char>,
    f: FormModel,
    now_ms: u64,
    given: GivenModel,
    l: Seq<char>,
    dom: Seq<char>,
)
    requires
        f.contains_key("email"@) ==> multidomain::split_parts(f["email"@]) == Some((l, dom)),
    ensures
        ({
            let r = performed(g, m, ActionModel::AddRecipient(d), f, now_ms, given);
            let all = f.contains_key("email"@) && f["email"@].len() > 0 && f.contains_key("ik_b64"@)
                && f["ik_b64"@].len() > 0 && f.contains_key("seal_b64"@) && f["seal_b64"@].len() > 0;
            let email = f["email"@];
            let on = text::rsplit_once(email, '@') is Some && text::lower(
                (text::rsplit_once(email, '@')->0).1,
            ) == text::lower(d);
            let ik = b64::decoding(f["ik_b64"@]);
            let seal = b64::decoding(f["seal_b64"@]);
            let k = text::lower(text::trim(dom));
            &&& r.1.status == 201 <==> all && on && ik is Some && seal is Some
                && g.tenants.contains_key(k)
            &&& all && on && ik is Some && seal is Some && !g.tenants.contains_key(k) ==> r.1.status
                == 404
            &&& !(all && on && ik is Some && seal is Some) ==> r.1.status == 400
            &&& r.1.status != 201 ==> r.0 == g
            &&& r.1.status == 201 ==> {
                &&& r.1.body == "{\"ok\":true,\""@ + "recipient"@ + "\":"@ + json::json(email) + "}"@
                &&& r.0.tenants.contains_key(k)
                &&& r.0.tenants[k].directory == g.tenants[k].directory.insert(
                    multidomain::recipient_address(l, dom),
                    directory::RecipientModel { ik: ik->0, seal_pub: seal->0 },
                )
                &&& r.0.tenants[k].aliases == vanity::after_reserve(g.tenants[k].aliases, l)
                &&& r.0.tenants[k].random == g.tenants[k].random
                &&& r.0.tenants[k].quota == g.tenants[k].quota
                &&& r.0.global_blocked == g.global_blocked
            }
        }),
{
}

/// A recipient is removed from the domain of its address, and nothing else is.
pub proof fn law_recipient_is_removed(
    g: Gateway,
    m: Map<Seq<char>, DomainUsage>,
    f: FormModel,
    now_ms: u64,
    given: GivenModel,
    l: Seq<char>,
    dom: Seq<char>,
)
    requires
        f.contains_key("email"@) ==> multidomain::split_parts(f["email"@]) == Some((l, dom)),
    ensures
        ({
            let r = performed(g, m, ActionModel::RemoveRecipient, f, now_ms, given);
            let named = f.contains_key("email"@) && f["email"@].len() > 0;
            let k = text::lower(text::trim(dom));
            let a = multidomain::recipient_address(l, dom);
            &&& !named ==> r.0 == g && r.1.status == 400
            &&& r.1.status == 200 <==> named && g.tenants.contains_key(k)
                && g.tenants[k].directory.contains_key(a)
            &&& named && !(g.tenants.contains_key(k) && g.tenants[k].directory.contains_key(a))
                ==> r.1.status == 404
            &&& r.1.status == 200 ==> r.0.tenants[k].directory == g.tenants[k].directory.remove(a)
                && r.0.tenants[k].aliases == g.tenants[k].aliases && r.1.body == "{\"ok\":true,\""@
                + "removed"@ + "\":"@ + json::json(f["email"@]) + "}"@
        }),
{
}

/// A key gets the name that it asks for where the name can be had on that domain, and gives its name
/// back when the name is revoked.
pub proof fn law_names_are_given_and_taken_back(
    g: Gateway,
    m: Map<Seq<char>, DomainUsage>,
    d: Seq<char>,
    f: FormModel,
    now_ms: u64,
    given: GivenModel,
)
    ensures
        ({
            let r = performed(g, m, ActionModel::AllocateVanity(d), f, now_ms, given);
            let s = performed(g, m, ActionModel::RevokeVanity(d), f, now_ms, given);
            let has_key = f.contains_key("key_b64"@) && f["key_b64"@].len() > 0;
            let has_name = f.contains_key("local_part"@) && f["local_part"@].len() > 0;
            let key = b64::decoding(f["key_b64"@]);
            let name = f["local_part"@];
            let k = text::lower(text::trim(d));
            let a = g.tenants[k].aliases;
            &&& !(has_key && has_name && key is Some) ==> r.0 == g && r.1.status == 400
            &&& !(has_key && key is Some) ==> s.0 == g && s.1.status == 400
            &&& has_key && has_name && key is Some ==> {
                &&& r.1.status == 201 <==> g.tenants.contains_key(k) && vanity::allocation(
                    a,
                    key->0,
                    name,
                ) is Ok
                &&& !g.tenants.contains_key(k) ==> r.0 == g && r.1.status == 404
                &&& g.tenants.contains_key(k) && vanity::allocation(a, key->0, name) is Err
                    ==> r.1.status == 409
                &&& r.1.status == 201 ==> r.1.body == "{\"ok\":true,\""@ + "alias"@ + "\":"@ + json::json(
                    vanity::allocation(a, key->0, name)->Ok_0,
                ) + "}"@
                &&& g.tenants.contains_key(k) ==> r.0.tenants[k].aliases == vanity::after_allocation(
                    a,
                    key->0,
                    name,
                ) && r.0.tenants[k].directory == g.tenants[k].directory
            }
            &&& has_key && key is Some ==> {
                &&& s.1.status == 200 <==> g.tenants.contains_key(k) && a.name.contains_key(key->0)
                &&& s.1.status != 200 ==> s.1.status == 404
                &&& s.1.status == 200 ==> s.1.body == "{\"ok\":true,\""@ + "revoked"@ + "\":"@
                    + json::json(a.name[key->0] + "@"@ + a.domain) + "}"@ && !s.0.tenants[k].aliases.name.contains_key(
                    key->0,
                )
                &&& g.tenants.contains_key(k) ==> s.0.tenants[k].aliases == vanity::after_release(
                    a,
                    key->0,
                )
                &&& !g.tenants.contains_key(k) ==> s.0 == g
            }
        }),
{
}

/// A token is minted for the target of the form, for as long as the form says; it is burned by its name,
/// with or without the domain.
pub proof fn law_tokens_are_minted_and_burned(
    g: Gateway,
    m: Map<Seq<char>, DomainUsage>,
    d: Seq<char>,
    t: Seq<char>,
    f: FormModel,
    now_ms: u64,
    given: GivenModel,
    ttl: Option<nat>,
)
    requires
        f.contains_key("ttl_ms"@) && f["ttl_ms"@].len() > 0 ==> ttl == text::parse_dec(
            f["ttl_ms"@],
            u64::MAX as nat,
        ),
    ensures
        ({
            let r = performed(g, m, ActionModel::MintRandom(d), f, now_ms, given);
            let s = performed(g, m, ActionModel::BurnRandom(d, t), f, now_ms, given);
            let lasting = !(f.contains_key("ttl_ms"@) && f["ttl_ms"@].len() > 0);
            let target = target_in(f["target"@]);
            let k = text::lower(text::trim(d));
            let sound = f.contains_key("target"@) && f["target"@].len() > 0 && target is Ok && (lasting
                || ttl is Some);
            let row = r.0.tenants[k].random[given.token->0];
            let b = multidomain::bare_token(t);
            &&& !sound ==> r.0 == g && r.1.status == 400
            &&& r.1.status == 201 <==> sound && g.tenants.contains_key(k) && given.token is Some
            &&& sound && !g.tenants.contains_key(k) ==> r.1.status == 404
            &&& sound && g.tenants.contains_key(k) && given.token is None ==> r.1.status == 500
            &&& r.1.status != 201 ==> r.0 == g
            &&& r.1.status == 201 ==> {
                &&& r.0.tenants[k].random == g.tenants[k].random.insert(given.token->0, row)
                &&& r.0.tenants[k].directory == g.tenants[k].directory
                &&& row.target == target->Ok_0 && !row.burned
                &&& lasting ==> row.expires_at_ms is None
                &&& !lasting ==> row.expires_at_ms is Some && (row.expires_at_ms->0 == now_ms + ttl->0
                    || (row.expires_at_ms->0 == u64::MAX && now_ms + ttl->0 > u64::MAX))
                &&& row.one_time <==> f.contains_key("one_time"@) && f["one_time"@].len() > 0
                    && says_yes(f["one_time"@])
                &&& f.contains_key("correspondent"@) && f["correspondent"@].len() > 0
                    ==> row.correspondent == Some(f["correspondent"@])
                &&& !(f.contains_key("correspondent"@) && f["correspondent"@].len() > 0)
                    ==> row.correspondent is None
                &&& r.1.body == "{\"ok\":true,\""@ + "alias"@ + "\":"@ + json::json(
                    given.token->0 + "@"@ + g.tenants[k].domain,
                ) + "}"@
            }
            &&& s.1.status == 200 <==> g.tenants.contains_key(k) && g.tenants[k].random.contains_key(b)
            &&& s.1.status != 200 ==> s.1.status == 404
            &&& s.1.status == 200 ==> s.0.tenants[k].random.dom() == g.tenants[k].random.dom()
                && s.0.tenants[k].random[b].burned && s.1.body == "{\"ok\":true,\""@ + "burned"@ + "\":"@
                + json::json(t) + "}"@
        }),
{
    let s = performed(g, m, ActionModel::BurnRandom(d, t), f, now_ms, given);
    let k = text::lower(text::trim(d));
    if s.1.status == 200 {
        assert(s.0.tenants[k].random.dom() =~= g.tenants[k].random.dom());
    }
}

/// A sender is blocked for one domain, or for all of them where the form says so; in lower case, and
/// without the white space round it. Unblocking says whether the sender had been blocked.
pub proof fn law_senders_are_blocked_and_unblocked(
    g: Gateway,
    m: Map<Seq<char>, DomainUsage>,
    d: Seq<char>,
    f: FormModel,
    now_ms: u64,
    given: GivenModel,
)
    ensures
        ({
            let r = performed(g, m, ActionModel::Block(d), f, now_ms, given);
            let s = performed(g, m, ActionModel::Unblock(d), f, now_ms, given);
            let named = f.contains_key("sender"@) && f["sender"@].len() > 0;
            let all = f.contains_key("scope"@) && f["scope"@].len() > 0 && text::lower(f["scope"@])
                == "global"@;
            let who = text::lower(text::trim(f["sender"@]));
            let k = text::lower(text::trim(d));
            &&& !named ==> r.0 == g && s.0 == g && r.1.status == 400 && s.1.status == 400
            &&& named && all ==> {
                &&& r.1.status == 200 && s.1.status == 200
                &&& r.0.tenants == g.tenants && s.0.tenants == g.tenants
                &&& r.0.global_blocked == g.global_blocked.insert(who)
                &&& s.0.global_blocked == g.global_blocked.remove(who)
                &&& r.1.body == "{\"ok\":true,\"blocked\":"@ + json::json(f["sender"@])
                    + ",\"scope\":\"global\"}"@
                &&& g.global_blocked.contains(who) ==> s.1.body == "{\"ok\":true,\""@ + "unblocked"@
                    + "\":"@ + "true"@ + "}"@
                &&& !g.global_blocked.contains(who) ==> s.1.body == "{\"ok\":true,\""@ + "unblocked"@
                    + "\":"@ + "false"@ + "}"@
            }
            &&& named && !all && !g.tenants.contains_key(k) ==> r.0 == g && s.0 == g && r.1.status == 404
                && s.1.status == 404
            &&& named && !all && g.tenants.contains_key(k) ==> {
                &&& r.1.status == 200 && s.1.status == 200
                &&& r.0.global_blocked == g.global_blocked && s.0.global_blocked == g.global_blocked
                &&& r.0.tenants[k].blocked_senders == g.tenants[k].blocked_senders.insert(who)
                &&& s.0.tenants[k].blocked_senders == g.tenants[k].blocked_senders.remove(who)
                &&& r.0.tenants[k].suspended_users == g.tenants[k].suspended_users
                &&& s.0.tenants[k].suspended_users == g.tenants[k].suspended_users
                &&& r.0.tenants.dom() == g.tenants.dom() && s.0.tenants.dom() == g.tenants.dom()
                &&& r.1.body == "{\"ok\":true,\""@ + "blocked"@ + "\":"@ + json::json(f["sender"@]) + "}"@
                &&& g.tenants[k].blocked_senders.contains(who) ==> s.1.body == "{\"ok\":true,\""@
                    + "unblocked"@ + "\":"@ + "true"@ + "}"@
                &&& !g.tenants[k].blocked_senders.contains(who) ==> s.1.body == "{\"ok\":true,\""@
                    + "unblocked"@ + "\":"@ + "false"@ + "}"@
            }
        }),
{
    reveal_strlit("global");
    assert(text::lower("global"@) =~= "global"@);
    let k = text::lower(text::trim(d));
    if g.tenants.contains_key(k) {
        assert(performed(g, m, ActionModel::Block(d), f, now_ms, given).0.tenants.dom()
            =~= g.tenants.dom());
        assert(performed(g, m, ActionModel::Unblock(d), f, now_ms, given).0.tenants.dom()
            =~= g.tenants.dom());
    }
}

/// A user is suspended on one domain, by the local part in lower case, and reinstated in the same way.
pub proof fn law_users_are_suspended_and_reinstated(
    g: Gateway,
    m: Map<Seq<char>, DomainUsage>,
    d: Seq<char>,
    f: FormModel,
    now_ms: u64,
    given: GivenModel,
)
    ensures
        ({
            let r = performed(g, m, ActionModel::Suspend(d), f, now_ms, given);
            let s = performed(g, m, ActionModel::Unsuspend(d), f, now_ms, given);
            let named = f.contains_key("user"@) && f["user"@].len() > 0;
            let who = text::lower(multidomain::local_part(f["user"@]));
            let k = text::lower(text::trim(d));
            &&& !named ==> r.0 == g && s.0 == g && r.1.status == 400 && s.1.status == 400
            &&& named && !g.tenants.contains_key(k) ==> r.0 == g && s.0 == g && r.1.status == 404
                && s.1.status == 404
            &&& named && g.tenants.contains_key(k) ==> {
                &&& r.1.status == 200 && s.1.status == 200
                &&& r.0.global_blocked == g.global_blocked && s.0.global_blocked == g.global_blocked
                &&& r.0.tenants[k].suspended_users == g.tenants[k].suspended_users.insert(who)
                &&& s.0.tenants[k].suspended_users == g.tenants[k].suspended_users.remove(who)
                &&& r.0.tenants[k].blocked_senders == g.tenants[k].blocked_senders
                &&& r.0.tenants[k].directory == g.tenants[k].directory
                &&& r.1.body == "{\"ok\":true,\""@ + "suspended"@ + "\":"@ + json::json(f["user"@]) + "}"@
                &&& g.tenants[k].suspended_users.contains(who) ==> s.1.body == "{\"ok\":true,\""@
                    + "reinstated"@ + "\":"@ + "true"@ + "}"@
                &&& !g.tenants[k].suspended_users.contains(who) ==> s.1.body == "{\"ok\":true,\""@
                    + "reinstated"@ + "\":"@ + "false"@ + "}"@
            }
        }),
{
}

/// The caps of a domain become those that the form asks for, or none where it asks for none; what the
/// domain has used stays.
pub proof fn law_caps_are_set(
    g: Gateway,
    m: Map<Seq<char>, DomainUsage>,
    d: Seq<char>,
    f: FormModel,
    now_ms: u64,
    given: GivenModel,
)
    ensures
        ({
            let r = performed(g, m, ActionModel::SetQuota(d), f, now_ms, given);
            let q = quota_in(f);
            let k = text::lower(text::trim(d));
            let t = r.0.tenants[k];
            &&& q is Err ==> r.0 == g && r.1.status == 400
            &&& q is Ok && !g.tenants.contains_key(k) ==> r.0 == g && r.1.status == 404
            &&& q is Ok && g.tenants.contains_key(k) ==> {
                &&& r.1.status == 200
                &&& q->Ok_0 is Some ==> t.quota == q->Ok_0->0
                &&& q->Ok_0 is None ==> t.quota.free_messages == 0 && t.quota.hard_cap_messages == 0
                    && t.quota.free_bytes == 0 && t.quota.hard_cap_bytes == 0
                &&& t.ledger.usage == g.tenants[k].ledger.usage
                &&& t.ledger.limits == g.tenants[k].ledger.limits.insert(g.tenants[k].domain, t.quota)
                &&& r.1.body == "{\"ok\":true,\"domain\":"@ + json::json(d) + ",\"quota_messages\":"@
                    + text::dec(t.quota.hard_cap_messages as nat) + ",\"quota_bytes\":"@ + text::dec(
                    t.quota.hard_cap_bytes as nat,
                ) + "}"@
            }
        }),
{
}

/// Whatever is asked for within a domain, no other domain changes.
pub proof fn law_other_domains_stay(
    g: Gateway,
    m: Map<Seq<char>, DomainUsage>,
    d: Seq<char>,
    t: Seq<char>,
    f: FormModel,
    now_ms: u64,
    given: GivenModel,
    other: Seq<char>,
    action: ActionModel,
)
    requires
        other != text::lower(text::trim(d)),
        g.tenants.contains_key(other),
        action == ActionModel::RemoveDomain(d) || action == ActionModel::AllocateVanity(d) || action
            == ActionModel::RevokeVanity(d) || action == ActionModel::MintRandom(d) || action
            == ActionModel::BurnRandom(d, t) || action == ActionModel::Block(d) || action
            == ActionModel::Unblock(d) || action == ActionModel::Suspend(d) || action
            == ActionModel::Unsuspend(d) || action == ActionModel::SetQuota(d),
    ensures
        performed(g, m, action, f, now_ms, given).0.tenants.contains_key(other),
        performed(g, m, action, f, now_ms, given).0.tenants[other] == g.tenants[other],
{
}

/// Each refusal of the gateway has its status.
pub proof fn law_status_of_each_refusal(s: Seq<char>, e: crate::vanity::AliasErrorModel)
    ensures
        status_of(multidomain::MultiDomainErrorModel::InvalidDomain(s)) == 400,
        status_of(multidomain::MultiDomainErrorModel::BadKey(s)) == 400,
        status_of(multidomain::MultiDomainErrorModel::NoSuchDomain(s)) == 404,
        status_of(multidomain::MultiDomainErrorModel::DomainExists(s)) == 409,
        status_of(multidomain::MultiDomainErrorModel::Alias(e)) == 409,
        status_of(multidomain::MultiDomainErrorModel::NoRandomness) == 500,
{
}

// ---- laws: the head of a request ---------------------------------------------------------------

/// The first line gives the method, in capital letters, and the path, without what follows a question
/// mark.
pub proof fn law_first_line_of_a_request(h: HeadModel, line: Seq<u8>, w: Seq<Seq<char>>, r: (HeadModel, HeadEventModel))
    requires
        h.line is None,
        w == text::words(text::lossy(line)),
        r == head_step(h, line),
    ensures
        line.len() == 0 ==> r.1 is Closed,
        line.len() > h.budget ==> r.1 is Malformed,
        line.len() > 0 && w.len() < 2 ==> r.1 is Malformed,
        0 < line.len() <= h.budget && w.len() >= 2 ==> {
            &&& r.1 is More
            &&& r.0.line is Some && (r.0.line->0).0 == text::upper(w[0])
            &&& !w[1].contains('?') ==> (r.0.line->0).1 == w[1]
            &&& r.0.token == h.token && r.0.content_length == h.content_length
            &&& r.0.budget == h.budget - line.len()
        },
        forall|p: Seq<char>, q: Seq<char>|
            0 < line.len() <= h.budget && w.len() >= 2 && !p.contains('?') && w[1] == #[trigger] (p
                + seq!['?'] + q) ==> (r.0.line->0).1 == p,
{
    if w.len() >= 2 && !w[1].contains('?') {
        text::law_cut_at_the_first(w[1], '?', Seq::empty());
    }
    assert forall|p: Seq<char>, q: Seq<char>|
        0 < line.len() <= h.budget && w.len() >= 2 && !p.contains('?') && w[1] == #[trigger] (p
            + seq!['?'] + q) implies (r.0.line->0).1 == p by {
        text::law_cut_at_the_first(p, '?', q);
    }
}

/// A line of the head after the first: an empty one ends the head, and one without a colon says
/// nothing. The end of a line is not part of it.
pub proof fn law_lines_of_the_head(
    h: HeadModel,
    line: Seq<u8>,
    t: Seq<char>,
    e: Seq<char>,
    r: (HeadModel, HeadEventModel),
)
    requires
        h.line is Some,
        text::lossy(line) == t + e,
        e == Seq::<char>::empty() || e == seq!['\n'] || e == seq!['\r', '\n'],
        t.len() > 0 ==> t.last() != '\r' && t.last() != '\n',
        r == head_step(h, line),
    ensures
        line.len() == 0 ==> r.1 is Malformed,
        line.len() > h.budget ==> r.1 is Malformed,
        0 < line.len() <= h.budget ==> {
            &&& t.len() == 0 <==> r.1 is Complete
            &&& t.len() == 0 || !t.contains(':') ==> r.0 == (HeadModel {
                budget: (h.budget - line.len()) as nat,
                ..h
            })
            &&& t.len() > 0 && !t.contains(':') ==> r.1 is More
        },
{
    let p = |c: char| c == '\r' || c == '\n';
    reveal_with_fuel(text::strip_back, 4);
    if e == seq!['\n'] {
        assert((t + e).drop_last() =~= t);
    } else if e == seq!['\r', '\n'] {
        assert((t + e).drop_last() =~= t + seq!['\r']);
        assert((t + seq!['\r']).drop_last() =~= t);
    } else {
        assert(t + e =~= t);
    }
    assert(without_end(t + e) == t);
    if !t.contains(':') {
        text::law_cut_at_the_first(t, ':', Seq::empty());
    }
}

/// The two fields of the head that count, in any case: the token behind `Bearer`, and the length of the
/// body, which has a bound. Others are passed over.
pub proof fn law_fields_of_the_head(
    h: HeadModel,
    line: Seq<u8>,
    k: Seq<char>,
    v: Seq<char>,
    r: (HeadModel, HeadEventModel),
)
    requires
        h.line is Some,
        0 < line.len() <= h.budget,
        !k.contains(':'),
        text::lossy(line) == k + seq![':'] + v,
        v.len() > 0 && v.last() != '\r' && v.last() != '\n',
        r == head_step(h, line),
    ensures
        ({
            let name = text::lower(text::trim(k));
            let value = text::trim(v);
            let n = text::parse_dec(value, u64::MAX as nat);
            let rest = HeadModel { budget: (h.budget - line.len()) as nat, ..h };
            &&& name != "authorization"@ && name != "content-length"@ ==> r == (rest, HeadEventModel::More)
            &&& name == "authorization"@ ==> r.1 is More && r.0.line == h.line && r.0.content_length
                == h.content_length && r.0.budget == rest.budget
            &&& name == "authorization"@ ==> (r.0.token is Some <==> (
            "Bearer "@.is_prefix_of(value) || "bearer "@.is_prefix_of(value)))
            &&& name == "authorization"@ && ("Bearer "@.is_prefix_of(value) || "bearer "@.is_prefix_of(
                value,
            )) ==> r.0.token == Some(text::trim(value.skip(7)))
            &&& name == "content-length"@ && n is Some && n->0 <= 262_144 ==> r == (
                HeadModel { content_length: n->0, ..rest },
                HeadEventModel::More,
            )
            &&& name == "content-length"@ && (n is None || n->0 > 262_144) ==> r.1 is Malformed
        }),
{
    let t = k + seq![':'] + v;
    assert(t.last() == v.last());
    assert(without_end(t) == t);
    text::law_cut_at_the_first(k, ':', v);
    reveal_strlit("authorization");
    reveal_strlit("content-length");
    reveal_strlit("Bearer ");
    reveal_strlit("bearer ");
    assert("authorization"@.len() != "content-length"@.len());
}

} // verus!
