//! Who may relay through the gateway: the modes of service, and the admission of senders that prove
//! control of a key.
//!
//! A sender answers a challenge by signing it. The gateway remembers the challenges that it issued
//! and admits each of them at most once, and only an admission uses a challenge up.

use crate::base32;
use crate::identity;
use crate::model;
use crate::provenance;
use crate::provenance::{AuthzDecision, BridgeDirection, DecisionModel, GatewayAuthz};
use crate::quota::Quota;
use crate::random;
use crate::seqmap;
use crate::seqmap::SeqMap;
use crate::text;
use vstd::prelude::*;
use vstd::slice::{slice_subrange, slice_to_vec};

verus! {

// ---- modes -------------------------------------------------------------------------------------

/// How senders are admitted.
#[derive(Debug, Clone, Copy, PartialEq, Eq, Structural)]
pub enum AuthzMode {
    /// Whoever proves control of any key.
    OpenPublic,
    /// Whoever proves control of a registered key.
    KeyRegistered,
}

impl Default for AuthzMode {
    fn default() -> (r: Self)
        ensures
            r == AuthzMode::KeyRegistered,
    {
        AuthzMode::KeyRegistered
    }
}

/// Whose mailboxes the legacy access surfaces serve.
#[derive(Debug, Clone, Copy, PartialEq, Eq, Structural)]
pub enum GatewayMode {
    /// The operator's alone.
    Private,
    /// Those of the operator's registered identities.
    RegisteredClientsOnly,
    /// Anyone's.
    Public,
}

impl Default for GatewayMode {
    fn default() -> (r: Self)
        ensures
            r == GatewayMode::Private,
    {
        GatewayMode::Private
    }
}

/// A configuration word: trimmed, in lower case, with hyphens for underscores.
pub open spec fn config_word(s: Seq<char>) -> Seq<char> {
    let l = text::lower(text::trim(s));
    Seq::new(
        l.len(),
        |i: int|
            if l[i] == '_' {
                '-'
            } else {
                l[i]
            },
    )
}

/// The mode that a configuration word names.
pub open spec fn mode_named(s: Seq<char>) -> Option<GatewayMode> {
    let w = config_word(s);
    if w == "private"@ || w == "single"@ || w == "operator"@ {
        Some(GatewayMode::Private)
    } else if w == "registered-clients-only"@ || w == "registered-clients"@ || w == "registered"@
        || w == "clients"@ {
        Some(GatewayMode::RegisteredClientsOnly)
    } else if w == "public"@ || w == "open"@ || w == "open-registration"@ {
        Some(GatewayMode::Public)
    } else {
        None
    }
}

fn to_config_word(s: &str) -> (r: String)
    ensures
        r@ == config_word(s@),
{
    let c = text::chars_of(s);
    let l = text::to_lower(text::trimmed(c.as_slice()));
    let mut out: Vec<char> = Vec::new();
    let mut i: usize = 0;
    while i < l.len()
        invariant
            l@ == text::lower(text::trim(s@)),
            i <= l@.len(),
            out@.len() == i,
            forall|j: int|
                0 <= j < i ==> out@[j] == (if l@[j] == '_' {
                    '-'
                } else {
                    l@[j]
                }),
        decreases l@.len() - i,
    {
        out.push(
            if l[i] == '_' {
                '-'
            } else {
                l[i]
            },
        );
        i += 1;
    }
    assert(out@ =~= config_word(s@));
    text::string_of(out.as_slice())
}

impl GatewayMode {
    /// The mode that a configuration word names.
    pub fn parse(v: &str) -> (r: Option<GatewayMode>)
        ensures
            r == mode_named(v@),
    {
        let word = to_config_word(v);
        let w = word.as_str();
        if text::same_str(w, "private") || text::same_str(w, "single") || text::same_str(
            w,
            "operator",
        ) {
            Some(GatewayMode::Private)
        } else if text::same_str(w, "registered-clients-only") || text::same_str(
            w,
            "registered-clients",
        ) || text::same_str(w, "registered") || text::same_str(w, "clients") {
            Some(GatewayMode::RegisteredClientsOnly)
        } else if text::same_str(w, "public") || text::same_str(w, "open") || text::same_str(
            w,
            "open-registration",
        ) {
            Some(GatewayMode::Public)
        } else {
            None
        }
    }

    /// The name of the mode.
    pub open spec fn name(self) -> Seq<char> {
        match self {
            GatewayMode::Private => "private"@,
            GatewayMode::RegisteredClientsOnly => "registered-clients-only"@,
            GatewayMode::Public => "public"@,
        }
    }

    /// The name of the mode.
    pub fn label(&self) -> (r: &'static str)
        ensures
            r@ == self.name(),
    {
        match self {
            GatewayMode::Private => "private",
            GatewayMode::RegisteredClientsOnly => "registered-clients-only",
            GatewayMode::Public => "public",
        }
    }

    /// Whether nobody but the user can read the mail that is served.
    pub fn is_zero_third_party(&self) -> (r: bool)
        ensures
            r == (*self == GatewayMode::Private),
    {
        matches!(self, GatewayMode::Private)
    }
}

/// The name of a mode names that mode.
pub proof fn law_mode_names_round_trip(mode: GatewayMode)
    ensures
        mode_named(mode.name()) == Some(mode),
{
    reveal_strlit("private");
    reveal_strlit("registered-clients-only");
    reveal_strlit("public");
    reveal_strlit("single");
    reveal_strlit("operator");
    reveal_strlit("registered-clients");
    reveal_strlit("registered");
    reveal_strlit("clients");
    reveal_strlit("open");
    reveal_strlit("open-registration");
    let n = mode.name();
    assert(text::strip_front(n, |c: char| text::is_white(c)) == n);
    assert(text::trim(n) == n);
    assert(config_word(n) =~= n);
    if mode == GatewayMode::RegisteredClientsOnly {
        assert("registered-clients-only"@.len() != "private"@.len());
        assert("registered-clients-only"@.len() != "single"@.len());
        assert("registered-clients-only"@.len() != "operator"@.len());
    }
    if mode == GatewayMode::Public {
        assert("public"@[0] != "single"@[0]);
        assert("public"@.len() != "private"@.len());
        assert("public"@.len() != "operator"@.len());
        assert("public"@.len() != "registered-clients-only"@.len());
        assert("public"@.len() != "registered-clients"@.len());
        assert("public"@.len() != "registered"@.len());
        assert("public"@.len() != "clients"@.len());
    }
}

// ---- challenges --------------------------------------------------------------------------------

/// The domain-separation label of admission signatures.
pub const ADMISSION_DS: &'static str = "DMTAP-v0/gateway-admission\0";

/// The octets of [`ADMISSION_DS`].
pub open spec fn admission_label() -> Seq<u8> {
    vstd::utf8::encode_utf8(ADMISSION_DS@)
}

/// A challenge: a nonce and the time at which it was issued.
#[derive(Debug, Clone, Copy, PartialEq, Eq)]
pub struct Challenge {
    pub nonce: [u8; 32],
    pub issued_at: u64,
}

/// What a sender signs to answer a challenge.
pub open spec fn challenge_body(nonce: Seq<u8>, issued_at: u64) -> Seq<u8> {
    nonce + identity::be64(issued_at)
}

impl Challenge {
    /// The challenge with a nonce and a time of issue.
    pub fn new(nonce: [u8; 32], issued_at: u64) -> (r: Self)
        ensures
            r.nonce == nonce,
            r.issued_at == issued_at,
    {
        Challenge { nonce, issued_at }
    }

    /// The octets that a sender signs: the nonce, then the time in network byte order.
    pub fn signing_body(&self) -> (r: Vec<u8>)
        ensures
            r@ == challenge_body(self.nonce@, self.issued_at),
    {
        let mut b = slice_to_vec(self.nonce.as_slice());
        identity::push_be64(&mut b, self.issued_at);
        b
    }
}

/// The octets signed for one challenge are signed for no other.
pub proof fn law_challenges_are_bound(n1: Seq<u8>, t1: u64, n2: Seq<u8>, t2: u64)
    requires
        n1.len() == 32,
        n2.len() == 32,
        challenge_body(n1, t1) == challenge_body(n2, t2),
    ensures
        n1 == n2,
        t1 == t2,
{
    let a = challenge_body(n1, t1);
    let b = challenge_body(n2, t2);
    assert(a.take(32) =~= n1);
    assert(b.take(32) =~= n2);
    assert(a.skip(32) =~= identity::be64(t1));
    assert(b.skip(32) =~= identity::be64(t2));
    identity::lemma_be64_injective(t1, t2);
}

/// A fresh nonce. Every nonce is possible.
pub fn random_nonce() -> (r: Result<[u8; 32], random::RandomUnavailable>)
{
    identity::random_seed()
}

// ---- the registry ------------------------------------------------------------------------------

/// A registered sender: its key, the account it is charged to, its domain and its quota.
#[derive(Debug, PartialEq, Eq)]
pub struct RegisteredIdentity {
    pub public_key: Vec<u8>,
    pub account: String,
    pub domain: String,
    pub quota: Quota,
}

/// [`RegisteredIdentity`] with its contents as sequences.
pub struct IdentityModel {
    pub public_key: Seq<u8>,
    pub account: Seq<char>,
    pub domain: Seq<char>,
    pub quota: Quota,
}

impl View for RegisteredIdentity {
    type V = IdentityModel;

    open spec fn view(&self) -> IdentityModel {
        IdentityModel {
            public_key: self.public_key@,
            account: self.account@,
            domain: self.domain@,
            quota: self.quota,
        }
    }
}

impl Clone for RegisteredIdentity {
    fn clone(&self) -> (r: Self)
        ensures
            r@ == self@,
    {
        RegisteredIdentity {
            public_key: slice_to_vec(self.public_key.as_slice()),
            account: self.account.clone(),
            domain: self.domain.clone(),
            quota: self.quota,
        }
    }
}

/// An admitted sender: the account it is charged to, its domain and its proven key.
#[derive(Debug, Clone, PartialEq, Eq)]
pub struct Admission {
    pub account: String,
    pub domain: String,
    pub public_key: Vec<u8>,
}

/// [`Admission`] with its contents as sequences.
pub struct AdmissionModel {
    pub account: Seq<char>,
    pub domain: Seq<char>,
    pub public_key: Seq<u8>,
}

impl View for Admission {
    type V = AdmissionModel;

    open spec fn view(&self) -> AdmissionModel {
        AdmissionModel {
            account: self.account@,
            domain: self.domain@,
            public_key: self.public_key@,
        }
    }
}

/// Why a sender was not admitted.
#[derive(Debug, Clone, Copy, PartialEq, Eq, Structural)]
pub enum AdmissionError {
    /// The challenge is too old, or from the future.
    ChallengeExpired,
    /// The signature does not prove control of the key.
    BadSignature,
    /// The key is not registered.
    UnknownKey,
    /// The challenge was not issued, was issued at another time, or has been used.
    UnknownOrConsumedChallenge,
}

/// The state of a registry.
pub struct RegistryModel {
    pub mode: AuthzMode,
    pub challenge_ttl_ms: u64,
    pub entries: Seq<IdentityModel>,
    pub issued: Map<Seq<u8>, u64>,
}

/// The first entry with the given key.
pub open spec fn entry_for_key(entries: Seq<IdentityModel>, key: Seq<u8>) -> Option<IdentityModel>
    decreases entries.len(),
{
    if entries.len() == 0 {
        None
    } else if entries[0].public_key == key {
        Some(entries[0])
    } else {
        entry_for_key(entries.skip(1), key)
    }
}

/// The first entry with the given domain, in any case.
pub open spec fn entry_for_domain(entries: Seq<IdentityModel>, domain: Seq<char>) -> Option<
    IdentityModel,
>
    decreases entries.len(),
{
    if entries.len() == 0 {
        None
    } else if text::lower(entries[0].domain) == text::lower(domain) {
        Some(entries[0])
    } else {
        entry_for_domain(entries.skip(1), domain)
    }
}

/// The entries after registering an identity: the one with the same key is replaced.
pub open spec fn registered(entries: Seq<IdentityModel>, id: IdentityModel) -> Seq<IdentityModel> {
    entries.filter(|e: IdentityModel| e.public_key != id.public_key).push(id)
}

/// The issued challenges that are not older than `cutoff`.
pub open spec fn pruned(issued: Map<Seq<u8>, u64>, cutoff: u64) -> Map<Seq<u8>, u64> {
    Map::new(
        |n: Seq<u8>| issued.contains_key(n) && issued[n] >= cutoff,
        |n: Seq<u8>| issued[n],
    )
}

/// The registry after issuing a challenge.
pub open spec fn after_issue(m: RegistryModel, nonce: Seq<u8>, issued_at: u64) -> RegistryModel {
    let cutoff = if issued_at >= m.challenge_ttl_ms {
        (issued_at - m.challenge_ttl_ms) as u64
    } else {
        0
    };
    RegistryModel { issued: pruned(m.issued, cutoff).insert(nonce, issued_at), ..m }
}

/// Whom a proven key is admitted as.
pub open spec fn admitted_as(m: RegistryModel, key: Seq<u8>, fingerprint: Seq<char>) -> Option<
    AdmissionModel,
> {
    match entry_for_key(m.entries, key) {
        Some(id) => Some(
            AdmissionModel { account: id.account, domain: id.domain, public_key: key },
        ),
        None => match m.mode {
            AuthzMode::KeyRegistered => None,
            AuthzMode::OpenPublic => Some(
                AdmissionModel {
                    account: "anon:"@ + fingerprint,
                    domain: Seq::empty(),
                    public_key: key,
                },
            ),
        },
    }
}

/// Whether a challenge with the given nonce is fresh: by the gateway's own record of its issue, or
/// by the time that the sender presents where there is none.
pub open spec fn is_fresh(m: RegistryModel, nonce: Seq<u8>, presented: u64, now: u64) -> bool {
    let at = if m.issued.contains_key(nonce) {
        m.issued[nonce]
    } else {
        presented
    };
    at <= now && now - at <= m.challenge_ttl_ms
}

/// The outcome of an admission, given whether the signature proves control of the key.
pub open spec fn admission(
    m: RegistryModel,
    nonce: Seq<u8>,
    issued_at: u64,
    key: Seq<u8>,
    proven: bool,
    fingerprint: Seq<char>,
    now: u64,
) -> Result<AdmissionModel, AdmissionError> {
    if !is_fresh(m, nonce, issued_at, now) {
        Err(AdmissionError::ChallengeExpired)
    } else if !proven {
        Err(AdmissionError::BadSignature)
    } else {
        match admitted_as(m, key, fingerprint) {
            None => Err(AdmissionError::UnknownKey),
            Some(a) => if m.issued.contains_key(nonce) && m.issued[nonce] == issued_at {
                Ok(a)
            } else {
                Err(AdmissionError::UnknownOrConsumedChallenge)
            },
        }
    }
}

/// The registry after an admission: a challenge that admitted is used up.
pub open spec fn after_admission(
    m: RegistryModel,
    nonce: Seq<u8>,
    outcome: Result<AdmissionModel, AdmissionError>,
) -> RegistryModel {
    match outcome {
        Ok(_) => RegistryModel { issued: m.issued.remove(nonce), ..m },
        Err(_) => m,
    }
}

/// The fingerprint of a key: the first ten octets of its content digest, in base32.
pub open spec fn fingerprint_of(public_key: Seq<u8>) -> Seq<char> {
    base32::base32(identity::content_digest(public_key).take(10))
}

/// The fingerprint of a key.
pub fn key_fingerprint(public_key: &[u8]) -> (r: String)
    ensures
        r@ == fingerprint_of(public_key@),
        r@.len() == 16,
        forall|i: int| 0 <= i < 16 ==> base32::is_base32(#[trigger] r@[i]),
{
    let id = identity::ContentId::of(public_key);
    let d = id.digest();
    let head = slice_subrange(d, 0, 10);
    assert(d@ =~= identity::content_digest(public_key@));
    assert(head@ =~= identity::content_digest(public_key@).take(10));
    proof {
        base32::law_alphabet_and_length(head@);
    }
    base32::base32_lower(head)
}

/// The registered identities and the challenges that are outstanding.
pub struct IdentityRegistry {
    mode: AuthzMode,
    challenge_ttl_ms: u64,
    entries: Vec<RegisteredIdentity>,
    issued: SeqMap<u8, u64>,
}

spec fn entry_views(v: Seq<RegisteredIdentity>) -> Seq<IdentityModel> {
    Seq::new(v.len(), |i: int| v[i]@)
}

impl View for IdentityRegistry {
    type V = RegistryModel;

    closed spec fn view(&self) -> RegistryModel {
        RegistryModel {
            mode: self.mode,
            challenge_ttl_ms: self.challenge_ttl_ms,
            entries: entry_views(self.entries@),
            issued: self.issued@,
        }
    }
}

/// A registry in the given mode with nobody in it; challenges are valid for five minutes.
pub open spec fn fresh_registry(mode: AuthzMode) -> RegistryModel {
    RegistryModel {
        mode,
        challenge_ttl_ms: 300_000,
        entries: Seq::empty(),
        issued: Map::empty(),
    }
}

fn prune(issued: &SeqMap<u8, u64>, cutoff: u64) -> (r: SeqMap<u8, u64>)
    ensures
        r@ == pruned(issued@, cutoff),
{
    let mut out: SeqMap<u8, u64> = SeqMap::new();
    let n: usize = issued.len();
    let ghost keys = issued.keys();
    let mut i: usize = 0;
    while i < n
        invariant
            i <= n,
            n == keys.len(),
            keys == issued.keys(),
            keys.no_duplicates(),
            forall|k: Seq<u8>| issued@.contains_key(k) <==> keys.contains(k),
            forall|k: Seq<u8>| #[trigger]
                out@.contains_key(k) <==> keys.take(i as int).contains(k) && issued@[k] >= cutoff,
            forall|k: Seq<u8>| #[trigger] out@.contains_key(k) ==> out@[k] == issued@[k],
        decreases n - i,
    {
        let (k, t) = issued.entry(i);
        let ghost before = out@;
        proof {
            assert(keys.take(i + 1) =~= keys.take(i as int).push(k@));
            assert forall|x: Seq<u8>| keys.take(i + 1).contains(x) <==> keys.take(
                i as int,
            ).contains(x) || x == k@ by {
                let a = keys.take(i as int);
                if a.contains(x) {
                    let j = choose|j: int| 0 <= j < a.len() && a[j] == x;
                    assert(a.push(k@)[j] == x);
                }
                if x == k@ {
                    assert(a.push(k@)[a.len() as int] == x);
                }
            }
        }
        if *t >= cutoff {
            let _ = out.insert(k, *t);
        }
        i += 1;
    }
    assert(keys.take(n as int) =~= keys);
    assert(out@ =~= pruned(issued@, cutoff));
    out
}

impl IdentityRegistry {
    /// A registry that admits registered keys.
    pub fn key_registered() -> (r: Self)
        ensures
            r@ == fresh_registry(AuthzMode::KeyRegistered),
    {
        let r = IdentityRegistry {
            mode: AuthzMode::KeyRegistered,
            challenge_ttl_ms: 300_000,
            entries: Vec::new(),
            issued: SeqMap::new(),
        };
        assert(r@.entries =~= Seq::empty());
        r
    }

    /// A registry that admits any key.
    pub fn open_public() -> (r: Self)
        ensures
            r@ == fresh_registry(AuthzMode::OpenPublic),
    {
        let r = IdentityRegistry {
            mode: AuthzMode::OpenPublic,
            challenge_ttl_ms: 300_000,
            entries: Vec::new(),
            issued: SeqMap::new(),
        };
        assert(r@.entries =~= Seq::empty());
        r
    }

    /// The mode of admission.
    pub fn mode(&self) -> (r: AuthzMode)
        ensures
            r == self@.mode,
    {
        self.mode
    }

    /// The registry with another validity of challenges, in milliseconds.
    pub fn with_challenge_ttl(self, ttl_ms: u64) -> (r: Self)
        ensures
            r@ == (RegistryModel { challenge_ttl_ms: ttl_ms, ..self@ }),
    {
        IdentityRegistry { challenge_ttl_ms: ttl_ms, ..self }
    }

    /// The registry with an identity registered; it replaces one with the same key.
    pub fn register(self, id: RegisteredIdentity) -> (r: Self)
        ensures
            r@ == (RegistryModel { entries: registered(self@.entries, id@), ..self@ }),
    {
        let ghost all = entry_views(self.entries@);
        let ghost keep = |e: IdentityModel| e.public_key != id@.public_key;
        let mut out: Vec<RegisteredIdentity> = Vec::new();
        let mut i: usize = 0;
        assert(entry_views(out@) =~= all.take(0).filter(keep)) by {
            reveal(Seq::filter);
        }
        while i < self.entries.len()
            invariant
                i <= self.entries@.len(),
                all == entry_views(self.entries@),
                keep == (|e: IdentityModel| e.public_key != id@.public_key),
                entry_views(out@) == all.take(i as int).filter(keep),
            decreases self.entries@.len() - i,
        {
            let e = &self.entries[i];
            proof {
                reveal(Seq::filter);
                assert(all.take(i + 1).drop_last() =~= all.take(i as int));
                assert(all.take(i + 1).last() == e@);
            }
            let ghost before = entry_views(out@);
            if !seqmap::same_bytes(e.public_key.as_slice(), id.public_key.as_slice()) {
                out.push(e.clone());
                assert(entry_views(out@) =~= before.push(e@));
            }
            i += 1;
        }
        assert(all.take(all.len() as int) =~= all);
        let ghost before = entry_views(out@);
        let ghost model = id@;
        out.push(id);
        assert(entry_views(out@) =~= before.push(model));
        IdentityRegistry { entries: out, ..self }
    }

    /// The registered identity with the given key.
    pub fn identity_for_key(&self, public_key: &[u8]) -> (r: Option<&RegisteredIdentity>)
        ensures
            model::opt_view(r) == entry_for_key(self@.entries, public_key@),
    {
        let ghost all = entry_views(self.entries@);
        let mut i: usize = 0;
        assert(all.skip(0) =~= all);
        while i < self.entries.len()
            invariant
                i <= self.entries@.len(),
                all == entry_views(self.entries@),
                entry_for_key(all, public_key@) == entry_for_key(all.skip(i as int), public_key@),
            decreases self.entries@.len() - i,
        {
            assert(all.skip(i as int)[0] == self.entries@[i as int]@);
            assert(all.skip(i as int).skip(1) =~= all.skip(i + 1));
            if seqmap::same_bytes(self.entries[i].public_key.as_slice(), public_key) {
                return Some(&self.entries[i]);
            }
            i += 1;
        }
        None
    }

    /// The registered identity with the given domain, in any case.
    pub fn identity_for_domain(&self, domain: &str) -> (r: Option<&RegisteredIdentity>)
        ensures
            model::opt_view(r) == entry_for_domain(self@.entries, domain@),
    {
        let ghost all = entry_views(self.entries@);
        let mut i: usize = 0;
        assert(all.skip(0) =~= all);
        while i < self.entries.len()
            invariant
                i <= self.entries@.len(),
                all == entry_views(self.entries@),
                entry_for_domain(all, domain@) == entry_for_domain(all.skip(i as int), domain@),
            decreases self.entries@.len() - i,
        {
            assert(all.skip(i as int)[0] == self.entries@[i as int]@);
            assert(all.skip(i as int).skip(1) =~= all.skip(i + 1));
            if text::same_str_ignoring_case(self.entries[i].domain.as_str(), domain) {
                return Some(&self.entries[i]);
            }
            i += 1;
        }
        None
    }

    /// Issues a challenge and remembers it. Challenges that are no longer valid are forgotten.
    pub fn issue_challenge(&mut self, nonce: [u8; 32], issued_at: u64) -> (r: Challenge)
        ensures
            r.nonce == nonce,
            r.issued_at == issued_at,
            final(self)@ == after_issue(old(self)@, nonce@, issued_at),
    {
        let cutoff: u64 = issued_at.saturating_sub(self.challenge_ttl_ms);
        let mut issued = prune(&self.issued, cutoff);
        let _ = issued.insert(nonce.as_slice(), issued_at);
        self.issued = issued;
        Challenge::new(nonce, issued_at)
    }

    fn peek_issued_at(&self, nonce: &[u8; 32]) -> (r: Option<u64>)
        ensures
            r == (if self@.issued.contains_key(nonce@) {
                Some(self@.issued[nonce@])
            } else {
                None
            }),
    {
        match self.issued.get(nonce.as_slice()) {
            Some(t) => Some(*t),
            None => None,
        }
    }

    /// Uses a challenge up, if it was issued at the given time and is outstanding.
    fn consume_nonce(&mut self, nonce: &[u8; 32], presented_issued_at: u64) -> (r: Result<
        u64,
        AdmissionError,
    >)
        ensures
            match r {
                Ok(t) => t == presented_issued_at && old(self)@.issued.contains_key(nonce@)
                    && old(self)@.issued[nonce@] == t && final(self)@ == (RegistryModel {
                    issued: old(self)@.issued.remove(nonce@),
                    ..old(self)@
                }),
                Err(e) => e == AdmissionError::UnknownOrConsumedChallenge && !(old(
                    self,
                )@.issued.contains_key(nonce@) && old(self)@.issued[nonce@] == presented_issued_at)
                    && final(self)@ == old(self)@,
            },
    {
        match self.peek_issued_at(nonce) {
            Some(stored) => {
                if stored == presented_issued_at {
                    let _ = self.issued.remove(nonce.as_slice());
                    Ok(stored)
                } else {
                    Err(AdmissionError::UnknownOrConsumedChallenge)
                }
            },
            None => Err(AdmissionError::UnknownOrConsumedChallenge),
        }
    }

    /// Decides an admission, given whether the signature proves control of the key and the
    /// fingerprint of the key.
    pub fn admit_proven(
        &mut self,
        challenge: &Challenge,
        presented_key: &[u8],
        proven: bool,
        fingerprint: &str,
        now: u64,
    ) -> (r: Result<Admission, AdmissionError>)
        ensures
            model::ok_view(r) == admission(
                old(self)@,
                challenge.nonce@,
                challenge.issued_at,
                presented_key@,
                proven,
                fingerprint@,
                now,
            ),
            final(self)@ == after_admission(old(self)@, challenge.nonce@, model::ok_view(r)),
    {
        let effective: u64 = match self.peek_issued_at(&challenge.nonce) {
            Some(t) => t,
            None => challenge.issued_at,
        };
        if now < effective || now - effective > self.challenge_ttl_ms {
            return Err(AdmissionError::ChallengeExpired);
        }
        if !proven {
            return Err(AdmissionError::BadSignature);
        }
        let admission = match self.identity_for_key(presented_key) {
            Some(id) => Admission {
                account: id.account.clone(),
                domain: id.domain.clone(),
                public_key: slice_to_vec(presented_key),
            },
            None => match self.mode {
                AuthzMode::KeyRegistered => {
                    return Err(AdmissionError::UnknownKey);
                },
                AuthzMode::OpenPublic => Admission {
                    account: text::concat2("anon:", fingerprint),
                    domain: String::new(),
                    public_key: slice_to_vec(presented_key),
                },
            },
        };
        match self.consume_nonce(&challenge.nonce, challenge.issued_at) {
            Ok(_) => Ok(admission),
            Err(e) => Err(e),
        }
    }

    /// Admits a sender that answered a challenge by signing it. The challenge is used up by an
    /// admission and by nothing else.
    pub fn admit_sender(
        &mut self,
        challenge: &Challenge,
        presented_key: &[u8],
        sig: &[u8],
        now: u64,
    ) -> (r: Result<Admission, AdmissionError>)
        ensures
            model::ok_view(r) == admission(
                old(self)@,
                challenge.nonce@,
                challenge.issued_at,
                presented_key@,
                identity::ed25519_accepts(
                    presented_key@,
                    admission_label(),
                    challenge_body(challenge.nonce@, challenge.issued_at),
                    sig@,
                ),
                fingerprint_of(presented_key@),
                now,
            ),
            final(self)@ == after_admission(old(self)@, challenge.nonce@, model::ok_view(r)),
    {
        let body = challenge.signing_body();
        let proven = identity::verify_domain(
            presented_key,
            ADMISSION_DS.as_bytes(),
            body.as_slice(),
            sig,
        ).is_ok();
        let fingerprint = key_fingerprint(presented_key);
        self.admit_proven(challenge, presented_key, proven, fingerprint.as_str(), now)
    }
}

impl GatewayAuthz for IdentityRegistry {
    open spec fn decision(&self, direction: BridgeDirection, domain: Seq<char>) -> DecisionModel {
        match self@.mode {
            AuthzMode::OpenPublic => DecisionModel::Allowed { account: "public:"@ + domain },
            AuthzMode::KeyRegistered => match entry_for_domain(self@.entries, domain) {
                Some(id) => DecisionModel::Allowed { account: id.account },
                None => DecisionModel::Denied { reason: provenance::unregistered_reason(domain) },
            },
        }
    }

    fn authorize(&self, direction: BridgeDirection, domain: &str) -> (r: AuthzDecision) {
        match self.mode {
            AuthzMode::OpenPublic => AuthzDecision::Allowed {
                account: text::concat2("public:", domain),
            },
            AuthzMode::KeyRegistered => match self.identity_for_domain(domain) {
                Some(id) => AuthzDecision::Allowed { account: id.account.clone() },
                None => AuthzDecision::Denied {
                    reason: text::concat3(
                        "domain ",
                        domain,
                        " is not registered with this gateway",
                    ),
                },
            },
        }
    }
}

// ---- laws --------------------------------------------------------------------------------------

/// A challenge that has admitted a sender admits nobody again, unless it is issued again.
pub proof fn law_challenge_is_single_use(
    m: RegistryModel,
    nonce: Seq<u8>,
    issued_at: u64,
    key: Seq<u8>,
    fingerprint: Seq<char>,
    now: u64,
    issued_at2: u64,
    key2: Seq<u8>,
    proven2: bool,
    fingerprint2: Seq<char>,
    now2: u64,
)
    requires
        admission(m, nonce, issued_at, key, true, fingerprint, now) is Ok,
    ensures
        ({
            let next = after_admission(
                m,
                nonce,
                admission(m, nonce, issued_at, key, true, fingerprint, now),
            );
            admission(next, nonce, issued_at2, key2, proven2, fingerprint2, now2) is Err
        }),
{
}

/// A refused admission leaves the registry as it was, the challenge included.
pub proof fn law_refusal_keeps_the_challenge(
    m: RegistryModel,
    nonce: Seq<u8>,
    issued_at: u64,
    key: Seq<u8>,
    proven: bool,
    fingerprint: Seq<char>,
    now: u64,
)
    requires
        admission(m, nonce, issued_at, key, proven, fingerprint, now) is Err,
    ensures
        after_admission(
            m,
            nonce,
            admission(m, nonce, issued_at, key, proven, fingerprint, now),
        ) == m,
{
}

/// Nobody is admitted on a challenge that was not issued, or not at the time presented, or without
/// proof of the key, or too late; and only registered keys are in the mode that asks for them.
pub proof fn law_admission_needs_everything(
    m: RegistryModel,
    nonce: Seq<u8>,
    issued_at: u64,
    key: Seq<u8>,
    proven: bool,
    fingerprint: Seq<char>,
    now: u64,
)
    requires
        admission(m, nonce, issued_at, key, proven, fingerprint, now) is Ok,
    ensures
        proven,
        m.issued.contains_key(nonce) && m.issued[nonce] == issued_at,
        issued_at <= now && now - issued_at <= m.challenge_ttl_ms,
        m.mode == AuthzMode::KeyRegistered ==> entry_for_key(m.entries, key) is Some,
{
}

/// A challenge that was just issued admits a registered key that answers it in time.
pub proof fn law_issued_challenge_admits(
    m: RegistryModel,
    nonce: Seq<u8>,
    issued_at: u64,
    key: Seq<u8>,
    fingerprint: Seq<char>,
    now: u64,
)
    requires
        entry_for_key(m.entries, key) is Some,
        issued_at <= now,
        now - issued_at <= m.challenge_ttl_ms,
    ensures
        admission(
            after_issue(m, nonce, issued_at),
            nonce,
            issued_at,
            key,
            true,
            fingerprint,
            now,
        ) is Ok,
{
}

proof fn lemma_filtered_has_no_key(entries: Seq<IdentityModel>, key: Seq<u8>, id: IdentityModel)
    requires
        id.public_key == key,
    ensures
        entry_for_key(
            entries.filter(|e: IdentityModel| e.public_key != key).push(id),
            key,
        ) == Some(id),
    decreases entries.len(),
{
    let keep = |e: IdentityModel| e.public_key != key;
    let f = entries.filter(keep);
    lemma_filter_all(entries, keep);
    lemma_first_behind(f, key, id);
}

proof fn lemma_filter_all(entries: Seq<IdentityModel>, keep: spec_fn(IdentityModel) -> bool)
    ensures
        forall|i: int| 0 <= i < entries.filter(keep).len() ==> keep(#[trigger] entries.filter(keep)[i]),
    decreases entries.len(),
{
    reveal(Seq::filter);
    if entries.len() > 0 {
        lemma_filter_all(entries.drop_last(), keep);
    }
}

proof fn lemma_first_behind(f: Seq<IdentityModel>, key: Seq<u8>, id: IdentityModel)
    requires
        id.public_key == key,
        forall|i: int| 0 <= i < f.len() ==> (#[trigger] f[i]).public_key != key,
    ensures
        entry_for_key(f.push(id), key) == Some(id),
    decreases f.len(),
{
    if f.len() > 0 {
        assert(f.push(id)[0] == f[0]);
        assert(f.push(id).skip(1) =~= f.skip(1).push(id));
        assert forall|i: int| 0 <= i < f.skip(1).len() implies (#[trigger] f.skip(1)[i]).public_key
            != key by {
            assert(f.skip(1)[i] == f[i + 1]);
        }
        lemma_first_behind(f.skip(1), key, id);
    }
}

/// A key that is registered is found with what it was registered with last.
pub proof fn law_registration_is_found(entries: Seq<IdentityModel>, id: IdentityModel)
    ensures
        entry_for_key(registered(entries, id), id.public_key) == Some(id),
{
    lemma_filtered_has_no_key(entries, id.public_key, id);
}

proof fn lemma_found_behind_filter(entries: Seq<IdentityModel>, id: IdentityModel, key: Seq<u8>)
    requires
        key != id.public_key,
    ensures
        entry_for_key(registered(entries, id), key) == entry_for_key(entries, key),
    decreases entries.len(),
{
    let keep = |e: IdentityModel| e.public_key != id.public_key;
    if entries.len() == 0 {
        reveal(Seq::filter);
        reveal_with_fuel(entry_for_key, 2);
        assert(registered(entries, id) =~= seq![id]);
        assert(seq![id].skip(1) =~= Seq::<IdentityModel>::empty());
    } else {
        let first = seq![entries[0]];
        let rest = entries.skip(1);
        assert(entries =~= first + rest);
        Seq::filter_distributes_over_add(first, rest, keep);
        lemma_filter_single(entries[0], keep);
        lemma_found_behind_filter(rest, id, key);
        if keep(entries[0]) {
            let all = registered(entries, id);
            assert(all =~= first + registered(rest, id));
            assert(all.skip(1) =~= registered(rest, id));
        } else {
            assert(registered(entries, id) =~= registered(rest, id));
        }
    }
}

proof fn lemma_filter_single(e: IdentityModel, keep: spec_fn(IdentityModel) -> bool)
    ensures
        seq![e].filter(keep) == (if keep(e) {
            seq![e]
        } else {
            Seq::empty()
        }),
{
    reveal(Seq::filter);
    let s = seq![e];
    assert(s.drop_last() =~= Seq::<IdentityModel>::empty());
    assert(s.drop_last().filter(keep) =~= Seq::<IdentityModel>::empty());
    if keep(e) {
        assert(s.filter(keep) =~= seq![e]);
    }
}

/// Registering an identity changes nothing for any other key.
pub proof fn law_registration_leaves_other_keys(
    entries: Seq<IdentityModel>,
    id: IdentityModel,
    key: Seq<u8>,
)
    requires
        key != id.public_key,
    ensures
        entry_for_key(registered(entries, id), key) == entry_for_key(entries, key),
{
    lemma_found_behind_filter(entries, id, key);
}

proof fn lemma_filter_twice(s: Seq<IdentityModel>, keep: spec_fn(IdentityModel) -> bool)
    ensures
        s.filter(keep).filter(keep) == s.filter(keep),
    decreases s.len(),
{
    reveal(Seq::filter);
    if s.len() > 0 {
        lemma_filter_twice(s.drop_last(), keep);
        let f = s.drop_last().filter(keep);
        if keep(s.last()) {
            assert(f.push(s.last()).drop_last() =~= f);
        }
    }
}

/// Registering an identity keeps every entry with another key, in its place among the others, and
/// puts the identity behind them; an earlier entry with its key is gone.
pub proof fn law_registration_keeps_the_others(entries: Seq<IdentityModel>, id: IdentityModel)
    ensures
        ({
            let other = |e: IdentityModel| e.public_key != id.public_key;
            let after = registered(entries, id);
            &&& after.len() > 0 && after.last() == id
            &&& after.drop_last() == entries.filter(other)
            &&& after.filter(other) == entries.filter(other)
            &&& forall|i: int|
                0 <= i < entries.len() && entries[i].public_key != id.public_key
                    ==> after.contains(#[trigger] entries[i])
            &&& forall|i: int|
                0 <= i < after.len() - 1 ==> (#[trigger] after[i]).public_key != id.public_key
        }),
{
    let other = |e: IdentityModel| e.public_key != id.public_key;
    let after = registered(entries, id);
    let kept = entries.filter(other);
    assert(after.drop_last() =~= kept);
    lemma_filter_twice(entries, other);
    assert(after.filter(other) == kept) by {
        reveal(Seq::filter);
    }
    lemma_filter_all(entries, other);
    assert forall|i: int|
        0 <= i < entries.len() && entries[i].public_key != id.public_key implies after.contains(
        #[trigger] entries[i],
    ) by {
        entries.lemma_filter_contains(other, i);
        let j = choose|j: int| 0 <= j < kept.len() && kept[j] == entries[i];
        assert(after[j] == entries[i]);
    }
    assert forall|i: int| 0 <= i < after.len() - 1 implies (#[trigger] after[i]).public_key
        != id.public_key by {
        assert(after[i] == kept[i]);
    }
}

/// The entry for a key is the first that has it; there is none only where no entry has it.
pub proof fn law_key_is_looked_up(entries: Seq<IdentityModel>, key: Seq<u8>)
    ensures
        match entry_for_key(entries, key) {
            Some(e) => exists|i: int|
                0 <= i < entries.len() && #[trigger] entries[i] == e && e.public_key == key && (
                forall|j: int| 0 <= j < i ==> (#[trigger] entries[j]).public_key != key),
            None => forall|i: int| 0 <= i < entries.len() ==> (#[trigger] entries[i]).public_key != key,
        },
    decreases entries.len(),
{
    if entries.len() > 0 {
        let rest = entries.skip(1);
        if entries[0].public_key != key {
            law_key_is_looked_up(rest, key);
            match entry_for_key(rest, key) {
                Some(e) => {
                    let i = choose|i: int|
                        0 <= i < rest.len() && #[trigger] rest[i] == e && e.public_key == key && (
                        forall|j: int| 0 <= j < i ==> (#[trigger] rest[j]).public_key != key);
                    assert(entries[i + 1] == e);
                    assert forall|j: int| 0 <= j < i + 1 implies (#[trigger] entries[j]).public_key
                        != key by {
                        if j > 0 {
                            assert(rest[j - 1] == entries[j]);
                        }
                    }
                },
                None => {
                    assert forall|j: int| 0 <= j < entries.len() implies (
                    #[trigger] entries[j]).public_key != key by {
                        if j > 0 {
                            assert(rest[j - 1] == entries[j]);
                        }
                    }
                },
            }
        } else {
            assert(entries[0] == entry_for_key(entries, key)->0);
        }
    }
}

/// Whether two names of domains are the same up to the case of their ASCII letters.
pub open spec fn same_domain(a: Seq<char>, b: Seq<char>) -> bool {
    a.len() == b.len() && forall|i: int|
        0 <= i < a.len() ==> #[trigger] a[i] == b[i] || (is_letter_pair(a[i], b[i]))
}

/// Whether two characters are one ASCII letter, once as a capital and once not.
pub open spec fn is_letter_pair(x: char, y: char) -> bool {
    ||| 'A' <= x && x <= 'Z' && y as int == x as int + 32
    ||| 'A' <= y && y <= 'Z' && x as int == y as int + 32
}

proof fn lemma_same_domain(a: Seq<char>, b: Seq<char>)
    ensures
        same_domain(a, b) <==> text::lower(a) == text::lower(b),
{
    if same_domain(a, b) {
        assert(text::lower(a) =~= text::lower(b));
    }
    if text::lower(a) == text::lower(b) {
        assert(a.len() == text::lower(a).len());
        assert(b.len() == text::lower(b).len());
        assert forall|i: int| 0 <= i < a.len() implies #[trigger] a[i] == b[i] || is_letter_pair(
            a[i],
            b[i],
        ) by {
            assert(text::lower(a)[i] == text::lower(b)[i]);
        }
    }
}

/// The entry for a domain is the first that has it, in any case; there is none only where no entry
/// has it.
pub proof fn law_domain_is_looked_up(entries: Seq<IdentityModel>, domain: Seq<char>)
    ensures
        match entry_for_domain(entries, domain) {
            Some(e) => exists|i: int|
                0 <= i < entries.len() && #[trigger] entries[i] == e && same_domain(e.domain, domain)
                    && (forall|j: int|
                    0 <= j < i ==> !same_domain((#[trigger] entries[j]).domain, domain)),
            None => forall|i: int|
                0 <= i < entries.len() ==> !same_domain((#[trigger] entries[i]).domain, domain),
        },
    decreases entries.len(),
{
    if entries.len() > 0 {
        let rest = entries.skip(1);
        lemma_same_domain(entries[0].domain, domain);
        if same_domain(entries[0].domain, domain) {
            assert(entries[0] == entry_for_domain(entries, domain)->0);
        } else {
            law_domain_is_looked_up(rest, domain);
            match entry_for_domain(rest, domain) {
                Some(e) => {
                    let i = choose|i: int|
                        0 <= i < rest.len() && #[trigger] rest[i] == e && same_domain(
                            e.domain,
                            domain,
                        ) && (forall|j: int|
                            0 <= j < i ==> !same_domain((#[trigger] rest[j]).domain, domain));
                    assert(entries[i + 1] == e);
                    assert forall|j: int| 0 <= j < i + 1 implies !same_domain(
                        (#[trigger] entries[j]).domain,
                        domain,
                    ) by {
                        if j > 0 {
                            assert(rest[j - 1] == entries[j]);
                        }
                    }
                },
                None => {
                    assert forall|j: int| 0 <= j < entries.len() implies !same_domain(
                        (#[trigger] entries[j]).domain,
                        domain,
                    ) by {
                        if j > 0 {
                            assert(rest[j - 1] == entries[j]);
                        }
                    }
                },
            }
        }
    }
}

/// A registry that asks for registration lets mail of a domain through exactly if an identity is
/// registered for the domain, in any case, and charges the first such; an open one lets all mail
/// through. The direction makes no difference.
pub proof fn law_registered_domains_are_served(
    r: IdentityRegistry,
    direction: BridgeDirection,
    domain: Seq<char>,
)
    ensures
        r@.mode == AuthzMode::KeyRegistered ==> (r.decision(direction, domain) is Allowed <==> exists|
            i: int,
        |
            0 <= i < r@.entries.len() && same_domain((#[trigger] r@.entries[i]).domain, domain)),
        r@.mode == AuthzMode::KeyRegistered ==> (r.decision(direction, domain) matches DecisionModel::Allowed {
            account,
        } ==> exists|i: int|
            0 <= i < r@.entries.len() && same_domain((#[trigger] r@.entries[i]).domain, domain)
                && account == r@.entries[i].account && forall|j: int|
                0 <= j < i ==> !same_domain((#[trigger] r@.entries[j]).domain, domain)),
        r@.mode == AuthzMode::OpenPublic ==> r.decision(direction, domain) == (DecisionModel::Allowed {
            account: "public:"@ + domain,
        }),
{
    law_domain_is_looked_up(r@.entries, domain);
}

/// Registering an identity for a domain has the domain served, and leaves the domain of every
/// identity with another key served.
pub proof fn law_registration_serves_the_domain(
    entries: Seq<IdentityModel>,
    id: IdentityModel,
    i: int,
)
    ensures
        entry_for_domain(registered(entries, id), id.domain) is Some,
        0 <= i < entries.len() && entries[i].public_key != id.public_key ==> entry_for_domain(
            registered(entries, id),
            entries[i].domain,
        ) is Some,
{
    let after = registered(entries, id);
    law_registration_keeps_the_others(entries, id);
    law_domain_is_looked_up(after, id.domain);
    assert(same_domain(after[after.len() - 1].domain, id.domain));
    if 0 <= i < entries.len() && entries[i].public_key != id.public_key {
        law_domain_is_looked_up(after, entries[i].domain);
        let j = choose|j: int| 0 <= j < after.len() && after[j] == entries[i];
        assert(same_domain(after[j].domain, entries[i].domain));
    }
}

/// Who is admitted is the holder of the key that was shown: under the account and the domain that
/// are registered for the key, or, where any key will do, under an account made of the key's
/// fingerprint and no domain.
pub proof fn law_admission_is_for_the_key(
    m: RegistryModel,
    nonce: Seq<u8>,
    issued_at: u64,
    key: Seq<u8>,
    proven: bool,
    fingerprint: Seq<char>,
    now: u64,
)
    requires
        admission(m, nonce, issued_at, key, proven, fingerprint, now) is Ok,
    ensures
        ({
            let a = admission(m, nonce, issued_at, key, proven, fingerprint, now)->Ok_0;
            &&& a.public_key == key
            &&& (forall|i: int| 0 <= i < m.entries.len() ==> (#[trigger] m.entries[i]).public_key != key)
                ==> m.mode == AuthzMode::OpenPublic && a.account == "anon:"@ + fingerprint
                && a.domain.len() == 0
            &&& forall|i: int|
                0 <= i < m.entries.len() && (#[trigger] m.entries[i]).public_key == key && (forall|
                    j: int,
                |
                    0 <= j < i ==> (#[trigger] m.entries[j]).public_key != key) ==> a.account
                    == m.entries[i].account && a.domain == m.entries[i].domain
        }),
{
    law_key_is_looked_up(m.entries, key);
}

/// Why an answer is refused: a challenge that is out of time, else a signature that is not good, else
/// a key that nobody registered where that is asked for, else a challenge that is not waiting for an
/// answer. Whoever is wrong in none of these ways is admitted.
pub proof fn law_refusals_have_their_reasons(
    m: RegistryModel,
    nonce: Seq<u8>,
    issued_at: u64,
    key: Seq<u8>,
    proven: bool,
    fingerprint: Seq<char>,
    now: u64,
)
    ensures
        ({
            let r = admission(m, nonce, issued_at, key, proven, fingerprint, now);
            let at = if m.issued.contains_key(nonce) {
                m.issued[nonce]
            } else {
                issued_at
            };
            let timely = at <= now && now <= at + m.challenge_ttl_ms;
            let welcome = m.mode == AuthzMode::OpenPublic || exists|i: int|
                0 <= i < m.entries.len() && (#[trigger] m.entries[i]).public_key == key;
            let waiting = m.issued.contains_key(nonce) && m.issued[nonce] == issued_at;
            &&& r == Err::<AdmissionModel, AdmissionError>(AdmissionError::ChallengeExpired)
                <==> !timely
            &&& r == Err::<AdmissionModel, AdmissionError>(AdmissionError::BadSignature) <==> timely
                && !proven
            &&& r == Err::<AdmissionModel, AdmissionError>(AdmissionError::UnknownKey) <==> timely
                && proven && !welcome
            &&& r == Err::<AdmissionModel, AdmissionError>(
                AdmissionError::UnknownOrConsumedChallenge,
            ) <==> timely && proven && welcome && !waiting
            &&& r is Ok <==> timely && proven && welcome && waiting
        }),
{
    law_key_is_looked_up(m.entries, key);
}

/// A challenge that is issued waits for its answer, and every other one that was still in time goes
/// on waiting; no challenge comes up that was not issued.
pub proof fn law_issuing_keeps_challenges(
    m: RegistryModel,
    nonce: Seq<u8>,
    issued_at: u64,
    other: Seq<u8>,
)
    ensures
        ({
            let after = after_issue(m, nonce, issued_at);
            &&& after.issued.contains_key(nonce) && after.issued[nonce] == issued_at
            &&& other != nonce && m.issued.contains_key(other) && issued_at <= m.issued[other]
                + m.challenge_ttl_ms ==> after.issued.contains_key(other) && after.issued[other]
                == m.issued[other]
            &&& other != nonce && m.issued.contains_key(other) && issued_at > m.issued[other]
                + m.challenge_ttl_ms ==> !after.issued.contains_key(other)
            &&& other != nonce && !m.issued.contains_key(other) ==> !after.issued.contains_key(other)
            &&& after.entries == m.entries && after.mode == m.mode && after.challenge_ttl_ms
                == m.challenge_ttl_ms
        }),
{
}

/// An admission uses up its own challenge and nothing else.
pub proof fn law_admission_uses_up_one_challenge(
    m: RegistryModel,
    nonce: Seq<u8>,
    issued_at: u64,
    key: Seq<u8>,
    fingerprint: Seq<char>,
    now: u64,
    other: Seq<u8>,
)
    requires
        admission(m, nonce, issued_at, key, true, fingerprint, now) is Ok,
        other != nonce,
    ensures
        ({
            let after = after_admission(
                m,
                nonce,
                admission(m, nonce, issued_at, key, true, fingerprint, now),
            );
            &&& !after.issued.contains_key(nonce)
            &&& after.issued.contains_key(other) == m.issued.contains_key(other)
            &&& m.issued.contains_key(other) ==> after.issued[other] == m.issued[other]
            &&& after.entries == m.entries && after.mode == m.mode && after.challenge_ttl_ms
                == m.challenge_ttl_ms
        }),
{
}

/// A new registry knows nobody and has issued nothing; its challenges hold for five minutes.
pub proof fn law_what_a_new_registry_holds(mode: AuthzMode)
    ensures
        fresh_registry(mode).mode == mode,
        fresh_registry(mode).challenge_ttl_ms == 5 * 60 * 1000,
        fresh_registry(mode).entries.len() == 0,
        fresh_registry(mode).issued == Map::<Seq<u8>, u64>::empty(),
        admission_label() == vstd::utf8::encode_utf8("DMTAP-v0/gateway-admission\0"@),
{
}

/// The fingerprint of a key is the first ten octets of its digest, in base32.
pub proof fn law_fingerprint_is_ten_octets(public_key: Seq<u8>, head: Seq<u8>, rest: Seq<u8>)
    requires
        identity::content_digest(public_key) == head + rest,
        head.len() == 10,
    ensures
        fingerprint_of(public_key) == base32::base32(head),
{
    assert((head + rest).take(10) =~= head);
}

} // verus!
