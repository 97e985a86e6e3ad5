//! A gateway for many domains, each a tenant with its own keys, recipients, aliases, blocks and
//! quota.
//!
//! A gateway to which no domain was added serves nobody: it routes nothing, signs nothing and
//! charges nothing.

use crate::alias_map;
use crate::alias_map::{AliasTarget, GatewayAliasMap};
use crate::directory;
use crate::directory::{InMemoryDirectory, KeyDirectory, RecipientKey};
use crate::dkim;
use crate::dkim::DkimKey;
use crate::identity;
use crate::inbound;
use crate::model;
use crate::names;
use crate::provenance;
use crate::provenance::{BridgeDirection, GatewayMeter, MeterEvent};
use crate::quota;
use crate::quota::{Quota, QuotaError, QuotaLedger, Usage};
use crate::seqmap::{SeqMap, SeqSet};
use crate::sorting;
use crate::text;
use crate::vanity;
use crate::vanity::{AliasAllocator, AliasError};
use vstd::prelude::*;
use vstd::slice::slice_to_vec;

verus! {

/// Why an operation on the gateway was refused.
#[derive(Debug, Clone, PartialEq, Eq)]
pub enum MultiDomainError {
    InvalidDomain(String),
    DomainExists(String),
    NoSuchDomain(String),
    /// A rule on chosen names was broken.
    Alias(AliasError),
    /// A key was not of the expected form.
    BadKey(String),
    /// There was no randomness for a fresh key.
    NoRandomness,
}

/// [`MultiDomainError`] with its contents as sequences.
pub enum MultiDomainErrorModel {
    InvalidDomain(Seq<char>),
    DomainExists(Seq<char>),
    NoSuchDomain(Seq<char>),
    Alias(vanity::AliasErrorModel),
    BadKey(Seq<char>),
    NoRandomness,
}

impl View for MultiDomainError {
    type V = MultiDomainErrorModel;

    open spec fn view(&self) -> MultiDomainErrorModel {
        match *self {
            MultiDomainError::InvalidDomain(s) => MultiDomainErrorModel::InvalidDomain(s@),
            MultiDomainError::DomainExists(s) => MultiDomainErrorModel::DomainExists(s@),
            MultiDomainError::NoSuchDomain(s) => MultiDomainErrorModel::NoSuchDomain(s@),
            MultiDomainError::Alias(e) => MultiDomainErrorModel::Alias(e@),
            MultiDomainError::BadKey(s) => MultiDomainErrorModel::BadKey(s@),
            MultiDomainError::NoRandomness => MultiDomainErrorModel::NoRandomness,
        }
    }
}

/// What is said of a refused operation.
pub open spec fn refusal_text(e: MultiDomainErrorModel) -> Seq<char> {
    match e {
        MultiDomainErrorModel::InvalidDomain(s) => text::quoted(s)
            + " is not a valid DNS domain"@,
        MultiDomainErrorModel::DomainExists(s) => "domain "@ + text::quoted(s)
            + " is already served by this gateway"@,
        MultiDomainErrorModel::NoSuchDomain(s) => "domain "@ + text::quoted(s)
            + " is not served by this gateway"@,
        MultiDomainErrorModel::Alias(e) => vanity::refusal_text(e),
        MultiDomainErrorModel::BadKey(s) => "invalid key material: "@ + s,
        MultiDomainErrorModel::NoRandomness => "OS CSPRNG unavailable"@,
    }
}

impl MultiDomainError {
    /// What is said of the refusal.
    pub fn message(&self) -> (r: String)
        ensures
            r@ == refusal_text(self@),
    {
        match self {
            MultiDomainError::InvalidDomain(s) => text::concat2(
                text::quote(s.as_str()).as_str(),
                " is not a valid DNS domain",
            ),
            MultiDomainError::DomainExists(s) => text::concat3(
                "domain ",
                text::quote(s.as_str()).as_str(),
                " is already served by this gateway",
            ),
            MultiDomainError::NoSuchDomain(s) => text::concat3(
                "domain ",
                text::quote(s.as_str()).as_str(),
                " is not served by this gateway",
            ),
            MultiDomainError::Alias(e) => e.message(),
            MultiDomainError::BadKey(s) => text::concat2("invalid key material: ", s.as_str()),
            MultiDomainError::NoRandomness => text::string_from("OS CSPRNG unavailable"),
        }
    }
}

/// Where a message for a recipient goes.
#[derive(Debug, PartialEq, Eq)]
pub enum Recipient {
    /// To the keys of a recipient in the directory.
    Directory(RecipientKey),
    /// To what an alias stands for.
    Alias(AliasTarget),
}

/// [`Recipient`] with its contents as sequences.
pub enum DestinationModel {
    Directory(directory::RecipientModel),
    Alias(alias_map::TargetModel),
}

impl View for Recipient {
    type V = DestinationModel;

    open spec fn view(&self) -> DestinationModel {
        match *self {
            Recipient::Directory(k) => DestinationModel::Directory(k@),
            Recipient::Alias(t) => DestinationModel::Alias(t@),
        }
    }
}

/// Why a message for a recipient goes nowhere.
#[derive(Debug, Clone, Copy, PartialEq, Eq, Structural)]
pub enum RouteError {
    /// The domain is not served.
    NoSuchDomain,
    /// The sender is blocked.
    SenderBlocked,
    /// The user is suspended.
    UserSuspended,
    /// Nobody is there.
    Unmapped,
}

impl RouteError {
    /// The code of the reply that refuses the recipient.
    pub fn smtp_code(&self) -> (r: u16)
        ensures
            r == (if *self == RouteError::SenderBlocked {
                554
            } else {
                550u16
            }),
    {
        match self {
            RouteError::SenderBlocked => 554,
            _ => 550,
        }
    }
}

// ---- addresses ---------------------------------------------------------------------------------

/// A domain as it is looked up.
pub open spec fn domain_key(s: Seq<char>) -> Seq<char> {
    text::lower(text::trim(s))
}

/// The local part and the domain of an address in lower case, if neither is empty.
pub open spec fn split_parts(addr: Seq<char>) -> Option<(Seq<char>, Seq<char>)> {
    match text::rsplit_once(text::trim(inbound::bare_address(addr)), '@') {
        Some((l, d)) => if l.len() == 0 || d.len() == 0 {
            None
        } else {
            Some((text::lower(l), text::lower(d)))
        },
        None => None,
    }
}

/// What stands before the last `@` of an address, or all of it.
pub open spec fn local_part(user: Seq<char>) -> Seq<char> {
    match text::rsplit_once(text::trim(user), '@') {
        Some((l, _)) => l,
        None => text::trim(user),
    }
}

/// What stands before the last `@` of a token, or all of it.
pub open spec fn bare_token(token: Seq<char>) -> Seq<char> {
    match text::rsplit_once(token, '@') {
        Some((l, _)) => l,
        None => token,
    }
}

fn to_key(s: &str) -> (r: Vec<char>)
    ensures
        r@ == domain_key(s@),
{
    let c = text::chars_of(s);
    text::to_lower(text::trimmed(c.as_slice()))
}

struct Address {
    local: Vec<char>,
    domain: Vec<char>,
}

fn split_address(addr: &str) -> (r: Option<Address>)
    ensures
        match r {
            Some(a) => split_parts(addr@) == Some((a.local@, a.domain@)),
            None => split_parts(addr@) is None,
        },
{
    let c = text::chars_of(addr);
    let a = text::trimmed(
        text::drop_char(text::skip_char(text::trimmed(c.as_slice()), '<'), '>'),
    );
    match text::cut_last(a, '@') {
        Some((l, d)) => {
            if l.len() == 0 || d.len() == 0 {
                None
            } else {
                Some(Address { local: text::to_lower(l), domain: text::to_lower(d) })
            }
        },
        None => None,
    }
}

fn local_part_of(user: &str) -> (r: Vec<char>)
    ensures
        r@ == text::lower(local_part(user@)),
{
    let c = text::chars_of(user);
    let u = text::trimmed(c.as_slice());
    match text::cut_last(u, '@') {
        Some((l, _)) => text::to_lower(l),
        None => text::to_lower(u),
    }
}

// ---- tenants -----------------------------------------------------------------------------------

/// A tenant as a value.
pub struct TenantModel {
    pub domain: Seq<char>,
    pub dkim: dkim::DkimKeyModel,
    pub directory: directory::DirectoryModel,
    pub aliases: vanity::AllocatorModel,
    pub random: Map<Seq<char>, alias_map::RowModel>,
    pub blocked_senders: Set<Seq<char>>,
    pub suspended_users: Set<Seq<char>>,
    pub quota: Quota,
    pub ledger: quota::LedgerModel,
}

/// One domain that is served.
pub struct DomainTenant {
    domain: String,
    dkim: DkimKey,
    directory: InMemoryDirectory,
    aliases: AliasAllocator,
    random: GatewayAliasMap,
    blocked_senders: SeqSet<char>,
    suspended_users: SeqSet<char>,
    quota: Quota,
    ledger: QuotaLedger,
}

impl View for DomainTenant {
    type V = TenantModel;

    closed spec fn view(&self) -> TenantModel {
        TenantModel {
            domain: self.domain@,
            dkim: self.dkim@,
            directory: self.directory@,
            aliases: self.aliases@,
            random: self.random@,
            blocked_senders: self.blocked_senders@,
            suspended_users: self.suspended_users@,
            quota: self.quota,
            ledger: self.ledger@,
        }
    }
}

impl DomainTenant {
    /// The public key to publish for the tenant's signatures.
    pub fn dkim_public_p_tag(&self) -> (r: String)
        ensures
            r@ == crate::b64::encoding(dkim::dalek_public(self@.dkim.seed)),
    {
        self.dkim.public_p_tag()
    }

    /// The selector that the tenant signs with.
    pub fn dkim_selector(&self) -> (r: &str)
        ensures
            r@ == self@.dkim.selector,
    {
        self.dkim.selector()
    }

    /// The tenant's domain.
    pub fn domain(&self) -> (r: &str)
        ensures
            r@ == self@.domain,
    {
        self.domain.as_str()
    }

    /// The number of recipients in the tenant's directory.
    pub fn recipient_count(&self) -> (r: usize)
        ensures
            self@.directory.dom().finite(),
            r == self@.directory.dom().len(),
    {
        self.directory.len()
    }

    /// The quota in force.
    pub fn quota(&self) -> (r: Quota)
        ensures
            r == self@.quota,
    {
        self.quota
    }

    /// What the tenant has relayed so far.
    pub fn usage(&self) -> (r: Usage)
        ensures
            r == quota::usage_in(self@.ledger, self@.domain),
    {
        self.ledger.usage(self.domain.as_str())
    }
}

/// A tenant to which nothing was added yet.
pub open spec fn fresh_tenant(d: Seq<char>, seed: Seq<u8>, selector: Seq<char>, q: Quota) ->
    TenantModel {
    TenantModel {
        domain: d,
        dkim: dkim::DkimKeyModel {
            domain: d,
            selector: if text::trim(selector).len() == 0 {
                "gw1"@
            } else {
                text::trim(selector)
            },
            seed,
        },
        directory: Map::empty(),
        aliases: vanity::AllocatorModel {
            domain: d,
            holder: Map::empty(),
            name: Map::empty(),
            reserved: Set::empty(),
        },
        random: Map::empty(),
        blocked_senders: Set::empty(),
        suspended_users: Set::empty(),
        quota: q,
        ledger: quota::LedgerModel { limits: Map::empty().insert(d, q), usage: Map::empty() },
    }
}

// ---- the gateway as a value --------------------------------------------------------------------

/// A gateway as a value.
pub struct GatewayModel {
    pub tenants: Map<Seq<char>, TenantModel>,
    pub global_blocked: Set<Seq<char>>,
    pub default_quota: Quota,
}

/// The gateway with a tenant in its place.
pub open spec fn with_tenant(g: GatewayModel, d: Seq<char>, t: TenantModel) -> GatewayModel {
    GatewayModel { tenants: g.tenants.insert(d, t), ..g }
}

/// What holds of every gateway: each tenant stands under its own domain, signs and names aliases
/// under it, and its quota is the one that its ledger goes by.
pub open spec fn sound(g: GatewayModel) -> bool {
    forall|d: Seq<char>| #[trigger] g.tenants.contains_key(d) ==> sound_tenant(d, g.tenants[d])
}

/// What holds of every tenant.
pub open spec fn sound_tenant(d: Seq<char>, t: TenantModel) -> bool {
    &&& names::valid_domain(d)
    &&& t.domain == d
    &&& t.dkim.domain == d
    &&& t.aliases.domain == d
    &&& t.ledger.limits.contains_key(d)
    &&& t.ledger.limits[d] == t.quota
}

/// Why a domain cannot be added.
pub open spec fn add_refusal(g: GatewayModel, domain: Seq<char>) -> Option<MultiDomainErrorModel> {
    let d = domain_key(domain);
    if !names::valid_domain(d) {
        Some(MultiDomainErrorModel::InvalidDomain(domain))
    } else if g.tenants.contains_key(d) {
        Some(MultiDomainErrorModel::DomainExists(d))
    } else {
        None
    }
}

/// The gateway after a domain was added to it.
pub open spec fn with_domain(
    g: GatewayModel,
    domain: Seq<char>,
    seed: Seq<u8>,
    selector: Seq<char>,
) -> GatewayModel {
    let d = domain_key(domain);
    with_tenant(g, d, fresh_tenant(d, seed, selector, g.default_quota))
}

/// The gateway after a domain was taken out of it.
pub open spec fn without_domain(g: GatewayModel, domain: Seq<char>) -> GatewayModel {
    GatewayModel { tenants: g.tenants.remove(domain_key(domain)), ..g }
}

/// The address of a local part on a domain, as the directory looks it up.
pub open spec fn recipient_address(local: Seq<char>, domain: Seq<char>) -> Seq<char> {
    directory::address_key(local + "@"@ + domain_key(domain))
}

/// The tenant after the recipient with a local part was added to it.
pub open spec fn with_recipient(
    t: TenantModel,
    local: Seq<char>,
    domain: Seq<char>,
    key: directory::RecipientModel,
) -> TenantModel {
    TenantModel {
        directory: t.directory.insert(recipient_address(local, domain), key),
        aliases: vanity::after_reserve(t.aliases, local),
        ..t
    }
}

/// The tenant after the recipient with a local part was taken out of it.
pub open spec fn without_recipient(t: TenantModel, local: Seq<char>, domain: Seq<char>) -> TenantModel {
    TenantModel { directory: t.directory.remove(recipient_address(local, domain)), ..t }
}

/// Whether the keys are those of a directory's recipients, in some order.
pub open spec fn enumerates(keys: Seq<Seq<u8>>, d: directory::DirectoryModel) -> bool {
    exists|order: Seq<Seq<char>>|
        {
            &&& order.no_duplicates()
            &&& forall|k: Seq<char>| d.contains_key(k) <==> #[trigger] order.contains(k)
            &&& keys == #[trigger] keys_in_order(d, order)
        }
}

/// The identity keys of the recipients with the given addresses.
pub open spec fn keys_in_order(d: directory::DirectoryModel, order: Seq<Seq<char>>) -> Seq<
    Seq<u8>,
> {
    Seq::new(order.len(), |i: int| d[order[i]].ik)
}

/// Where a message for a local part goes on a tenant's domain, given the keys of its recipients.
pub open spec fn destination(
    t: TenantModel,
    local: Seq<char>,
    domain: Seq<char>,
    now_ms: u64,
    keys: Seq<Seq<u8>>,
) -> Result<DestinationModel, RouteError> {
    let clean = local + "@"@ + domain;
    match directory::lookup(t.directory, clean) {
        Some(k) => Ok(DestinationModel::Directory(k)),
        None => if alias_map::live(t.random, local, now_ms) {
            Ok(DestinationModel::Alias(t.random[local].target))
        } else {
            match vanity::resolution(t.aliases, clean, keys) {
                Some(k) => Ok(DestinationModel::Alias(alias_map::TargetModel::Identity(k))),
                None => Err(RouteError::Unmapped),
            }
        },
    }
}

/// Where a message goes, or why it goes nowhere, given the keys of the tenant's recipients.
pub open spec fn routed(
    g: GatewayModel,
    sender: Seq<char>,
    rcpt: Seq<char>,
    now_ms: u64,
    keys: Seq<Seq<u8>>,
) -> Result<DestinationModel, RouteError> {
    match split_parts(rcpt) {
        None => Err(RouteError::NoSuchDomain),
        Some((local, domain)) => if !g.tenants.contains_key(domain) {
            Err(RouteError::NoSuchDomain)
        } else {
            let t = g.tenants[domain];
            if g.global_blocked.contains(domain_key(sender)) || t.blocked_senders.contains(
                domain_key(sender),
            ) {
                Err(RouteError::SenderBlocked)
            } else if t.suspended_users.contains(local) {
                Err(RouteError::UserSuspended)
            } else {
                destination(t, local, domain, now_ms, keys)
            }
        },
    }
}

/// The gateway after a message was routed: an alias that may be used once is used up by it.
pub open spec fn after_route(g: GatewayModel, sender: Seq<char>, rcpt: Seq<char>, now_ms: u64) ->
    GatewayModel {
    match split_parts(rcpt) {
        None => g,
        Some((local, domain)) => if g.global_blocked.contains(domain_key(sender))
            || !g.tenants.contains_key(domain) {
            g
        } else {
            let t = g.tenants[domain];
            if t.blocked_senders.contains(domain_key(sender)) || t.suspended_users.contains(local)
                || directory::lookup(t.directory, local + "@"@ + domain) is Some {
                g
            } else {
                with_tenant(
                    g,
                    domain,
                    TenantModel {
                        random: alias_map::rows_after_resolve(t.random, local, now_ms),
                        ..t
                    },
                )
            }
        },
    }
}

// ---- the gateway -------------------------------------------------------------------------------

/// The gateway.
pub struct MultiDomainGateway {
    tenants: SeqMap<char, DomainTenant>,
    global_blocked: SeqSet<char>,
    default_quota: Quota,
}

impl View for MultiDomainGateway {
    type V = GatewayModel;

    closed spec fn view(&self) -> GatewayModel {
        GatewayModel {
            tenants: self.tenants@,
            global_blocked: self.global_blocked@,
            default_quota: self.default_quota,
        }
    }
}

struct Found {
    key: Vec<char>,
    tenant: DomainTenant,
}

fn no_such_domain(key: &[char]) -> (r: MultiDomainError)
    ensures
        r@ == MultiDomainErrorModel::NoSuchDomain(key@),
{
    MultiDomainError::NoSuchDomain(text::string_of(key))
}

fn invalid_domain(s: &str) -> (r: MultiDomainError)
    ensures
        r@ == MultiDomainErrorModel::InvalidDomain(s@),
{
    MultiDomainError::InvalidDomain(text::string_from(s))
}

/// What an operation on the tenant of a domain gives where there is one, and what else.
pub open spec fn on_tenant<T>(g: GatewayModel, domain: Seq<char>, ok: T) -> Result<
    T,
    MultiDomainErrorModel,
> {
    if g.tenants.contains_key(domain_key(domain)) {
        Ok(ok)
    } else {
        Err(MultiDomainErrorModel::NoSuchDomain(domain_key(domain)))
    }
}

/// The gateway after an operation on the tenant of a domain, where there is one.
pub open spec fn updated(
    g: GatewayModel,
    domain: Seq<char>,
    f: spec_fn(TenantModel) -> TenantModel,
) -> GatewayModel {
    let d = domain_key(domain);
    if g.tenants.contains_key(d) {
        with_tenant(g, d, f(g.tenants[d]))
    } else {
        g
    }
}

/// A result with the view of its error alone.
pub open spec fn err_view<T, E: View>(r: Result<T, E>) -> Result<T, E::V> {
    match r {
        Ok(v) => Ok(v),
        Err(e) => Err(e@),
    }
}

impl MultiDomainGateway {
    /// A gateway that serves nobody.
    pub fn new() -> (r: Self)
        ensures
            r@ == (GatewayModel {
                tenants: Map::empty(),
                global_blocked: Set::empty(),
                default_quota: Quota {
                    free_messages: 0,
                    hard_cap_messages: 0,
                    free_bytes: 0,
                    hard_cap_bytes: 0,
                },
            }),
    {
        MultiDomainGateway {
            tenants: SeqMap::new(),
            global_blocked: SeqSet::new(),
            default_quota: Quota::messages(0, 0),
        }
    }

    /// The gateway with another quota for domains that are added from now on.
    pub fn with_default_quota(self, quota: Quota) -> (r: Self)
        ensures
            r@ == (GatewayModel { default_quota: quota, ..self@ }),
    {
        let mut g = self;
        g.default_quota = quota;
        g
    }

    /// Adds a domain. Without a seed it gets a fresh key, whose seed comes back.
    pub fn add_domain(&mut self, domain: &str, dkim_seed: Option<[u8; 32]>, selector: &str) -> (r:
        Result<[u8; 32], MultiDomainError>)
        ensures
            match add_refusal(old(self)@, domain@) {
                Some(e) => r matches Err(x) && x@ == e && final(self)@ == old(self)@,
                None => match r {
                    Ok(seed) => {
                        &&& dkim_seed matches Some(s) ==> seed == s
                        &&& final(self)@ == with_domain(old(self)@, domain@, seed@, selector@)
                    },
                    Err(e) => dkim_seed is None && e is NoRandomness && final(self)@ == old(
                        self,
                    )@,
                },
            },
    {
        let key = to_key(domain);
        let d = text::string_of(key.as_slice());
        proof {
            text::lemma_lower_trim_idempotent(domain@);
        }
        let aliases = match AliasAllocator::for_domain(d.as_str()) {
            Ok(a) => a,
            Err(_) => {
                return Err(invalid_domain(domain));
            },
        };
        if self.tenants.contains(key.as_slice()) {
            return Err(MultiDomainError::DomainExists(d));
        }
        let sc = text::chars_of(selector);
        let st = text::trimmed(sc.as_slice());
        let sel = if st.len() == 0 {
            text::string_from("gw1")
        } else {
            text::string_of(st)
        };
        let seed: [u8; 32] = match dkim_seed {
            Some(s) => s,
            None => match identity::random_seed() {
                Ok(s) => s,
                Err(_) => {
                    return Err(MultiDomainError::NoRandomness);
                },
            },
        };
        let quota = self.default_quota;
        let mut ledger = QuotaLedger::new();
        ledger.upsert_quota(d.as_str(), quota);
        let tenant = DomainTenant {
            dkim: DkimKey::from_seed(d.as_str(), sel.as_str(), &seed),
            domain: d,
            directory: InMemoryDirectory::new(),
            aliases,
            random: GatewayAliasMap::new(),
            blocked_senders: SeqSet::new(),
            suspended_users: SeqSet::new(),
            quota,
            ledger,
        };
        assert(tenant@ == fresh_tenant(
            domain_key(domain@),
            seed@,
            selector@,
            old(self)@.default_quota,
        ));
        let _ = self.tenants.insert(key.as_slice(), tenant);
        Ok(seed)
    }

    /// Stops serving a domain; whether it was served.
    pub fn remove_domain(&mut self, domain: &str) -> (r: bool)
        ensures
            r == old(self)@.tenants.contains_key(domain_key(domain@)),
            final(self)@ == without_domain(old(self)@, domain@),
    {
        let key = to_key(domain);
        self.tenants.remove(key.as_slice()).is_some()
    }

    /// Whether a domain is served.
    pub fn serves(&self, domain: &str) -> (r: bool)
        ensures
            r == self@.tenants.contains_key(domain_key(domain@)),
    {
        let key = to_key(domain);
        self.tenants.contains(key.as_slice())
    }

    /// The domains that are served, in order.
    pub fn domains(&self) -> (r: Vec<String>)
        ensures
            sorting::lists_in_order(text::string_views(r@), self@.tenants.dom()),
    {
        sorted_keys(&self.tenants)
    }

    /// The tenant of a domain.
    pub fn tenant(&self, domain: &str) -> (r: Option<&DomainTenant>)
        ensures
            match r {
                Some(t) => self@.tenants.contains_key(domain_key(domain@)) && t@
                    == self@.tenants[domain_key(domain@)],
                None => !self@.tenants.contains_key(domain_key(domain@)),
            },
    {
        let key = to_key(domain);
        self.tenants.get(key.as_slice())
    }

    fn take(&mut self, domain: &str) -> (r: Result<Found, MultiDomainError>)
        ensures
            match r {
                Ok(f) => {
                    &&& f.key@ == domain_key(domain@)
                    &&& old(self)@.tenants.contains_key(f.key@)
                    &&& f.tenant@ == old(self)@.tenants[f.key@]
                    &&& final(self)@ == (GatewayModel {
                        tenants: old(self)@.tenants.remove(f.key@),
                        ..old(self)@
                    })
                },
                Err(e) => {
                    &&& !old(self)@.tenants.contains_key(domain_key(domain@))
                    &&& e@ == MultiDomainErrorModel::NoSuchDomain(domain_key(domain@))
                    &&& final(self)@ == old(self)@
                },
            },
    {
        let key = to_key(domain);
        match self.tenants.remove(key.as_slice()) {
            Some(tenant) => Ok(Found { key, tenant }),
            None => {
                assert(self@.tenants =~= old(self)@.tenants);
                Err(no_such_domain(key.as_slice()))
            },
        }
    }

    fn put(&mut self, key: &[char], tenant: DomainTenant)
        ensures
            final(self)@ == with_tenant(old(self)@, key@, tenant@),
    {
        let _ = self.tenants.insert(key, tenant);
    }

    /// Adds or replaces a recipient of a served domain. Its local part is no longer free for a
    /// chosen name.
    pub fn add_recipient(&mut self, email: &str, key: RecipientKey) -> (r: Result<
        (),
        MultiDomainError,
    >)
        ensures
            match split_parts(email@) {
                None => err_view(r) == Err::<(), _>(MultiDomainErrorModel::InvalidDomain(email@))
                    && final(self)@ == old(self)@,
                Some((l, d)) => {
                    &&& err_view(r) == on_tenant(old(self)@, d, ())
                    &&& final(self)@ == updated(
                        old(self)@,
                        d,
                        |t: TenantModel| with_recipient(t, l, d, key@),
                    )
                },
            },
    {
        let ghost g = self@;
        let addr = match split_address(email) {
            Some(a) => a,
            None => {
                return Err(invalid_domain(email));
            },
        };
        let d = text::string_of(addr.domain.as_slice());
        let l = text::string_of(addr.local.as_slice());
        let ghost f = |t: TenantModel| with_recipient(t, l@, d@, key@);
        let found = match self.take(d.as_str()) {
            Ok(x) => x,
            Err(e) => {
                return Err(e);
            },
        };
        let mut t = found.tenant;
        let ghost before = t@;
        let k = text::string_of(found.key.as_slice());
        let clean = text::concat3(l.as_str(), "@", k.as_str());
        t.directory.insert(clean.as_str(), key);
        t.aliases.reserve_localpart(l.as_str());
        assert(t@ == f(before));
        self.put(found.key.as_slice(), t);
        assert(self@.tenants =~= updated(g, d@, f).tenants);
        Ok(())
    }

    /// Takes a recipient out; whether there was one. Its local part stays taken.
    pub fn remove_recipient(&mut self, email: &str) -> (r: Result<bool, MultiDomainError>)
        ensures
            match split_parts(email@) {
                None => err_view(r) == Err::<bool, _>(MultiDomainErrorModel::InvalidDomain(email@))
                    && final(self)@ == old(self)@,
                Some((l, d)) => {
                    &&& err_view(r) == on_tenant(
                        old(self)@,
                        d,
                        old(self)@.tenants[domain_key(d)].directory.contains_key(
                            recipient_address(l, d),
                        ),
                    )
                    &&& final(self)@ == updated(
                        old(self)@,
                        d,
                        |t: TenantModel| without_recipient(t, l, d),
                    )
                },
            },
    {
        let ghost g = self@;
        let addr = match split_address(email) {
            Some(a) => a,
            None => {
                return Err(invalid_domain(email));
            },
        };
        let d = text::string_of(addr.domain.as_slice());
        let l = text::string_of(addr.local.as_slice());
        let ghost f = |t: TenantModel| without_recipient(t, l@, d@);
        let found = match self.take(d.as_str()) {
            Ok(x) => x,
            Err(e) => {
                return Err(e);
            },
        };
        let mut t = found.tenant;
        let ghost before = t@;
        let k = text::string_of(found.key.as_slice());
        let clean = text::concat3(l.as_str(), "@", k.as_str());
        let existed = t.directory.remove(clean.as_str());
        assert(t@ == f(before));
        self.put(found.key.as_slice(), t);
        assert(self@.tenants =~= updated(g, d@, f).tenants);
        Ok(existed)
    }

    /// Allocates a chosen name on a domain to a key.
    pub fn allocate_vanity(&mut self, domain: &str, public_key: &[u8], local_part: &str) -> (r:
        Result<String, MultiDomainError>)
        ensures
            model::res_view(r) == (match on_tenant(old(self)@, domain@, ()) {
                Err(e) => Err(e),
                Ok(_) => match vanity::allocation(
                    old(self)@.tenants[domain_key(domain@)].aliases,
                    public_key@,
                    local_part@,
                ) {
                    Ok(full) => Ok(full),
                    Err(e) => Err(MultiDomainErrorModel::Alias(e)),
                },
            }),
            final(self)@ == updated(
                old(self)@,
                domain@,
                |t: TenantModel|
                    TenantModel {
                        aliases: vanity::after_allocation(t.aliases, public_key@, local_part@),
                        ..t
                    },
            ),
    {
        let ghost g = self@;
        let ghost f = |t: TenantModel|
            TenantModel {
                aliases: vanity::after_allocation(t.aliases, public_key@, local_part@),
                ..t
            };
        let found = match self.take(domain) {
            Ok(x) => x,
            Err(e) => {
                return Err(e);
            },
        };
        let mut t = found.tenant;
        let ghost before = t@;
        let r = t.aliases.allocate_vanity(public_key, local_part);
        assert(t@ == f(before));
        self.put(found.key.as_slice(), t);
        assert(self@.tenants =~= updated(g, domain@, f).tenants);
        match r {
            Ok(full) => Ok(full),
            Err(e) => Err(MultiDomainError::Alias(e)),
        }
    }

    /// Frees the chosen name that a key holds on a domain, and gives it back.
    pub fn revoke_vanity(&mut self, domain: &str, public_key: &[u8]) -> (r: Result<
        Option<String>,
        MultiDomainError,
    >)
        ensures
            opt_res_view(r) == on_tenant(
                old(self)@,
                domain@,
                ({
                    let a = old(self)@.tenants[domain_key(domain@)].aliases;
                    if a.name.contains_key(public_key@) {
                        Some(vanity::qualified(a, a.name[public_key@]))
                    } else {
                        None
                    }
                }),
            ),
            final(self)@ == updated(
                old(self)@,
                domain@,
                |t: TenantModel|
                    TenantModel { aliases: vanity::after_release(t.aliases, public_key@), ..t },
            ),
    {
        let ghost g = self@;
        let ghost f = |t: TenantModel|
            TenantModel { aliases: vanity::after_release(t.aliases, public_key@), ..t };
        let found = match self.take(domain) {
            Ok(x) => x,
            Err(e) => {
                return Err(e);
            },
        };
        let mut t = found.tenant;
        let ghost before = t@;
        let r = t.aliases.release_vanity(public_key);
        assert(t@ == f(before));
        self.put(found.key.as_slice(), t);
        assert(self@.tenants =~= updated(g, domain@, f).tenants);
        Ok(r)
    }

    /// Mints a random alias on a domain. Which token comes back is chance; it is one that had no
    /// row.
    pub fn mint_random_alias(
        &mut self,
        domain: &str,
        target: AliasTarget,
        correspondent: Option<String>,
        ttl_ms: Option<u64>,
        one_time: bool,
        now_ms: u64,
    ) -> (r: Result<String, MultiDomainError>)
        ensures
            match on_tenant(old(self)@, domain@, ()) {
                Err(e) => model::res_view(r) == Err::<Seq<char>, _>(e) && final(self)@ == old(
                    self,
                )@,
                Ok(_) => match r {
                    Err(e) => e is NoRandomness && final(self)@ == old(self)@,
                    Ok(address) => exists|token: Seq<char>|
                        {
                            let t = old(self)@.tenants[domain_key(domain@)];
                            &&& #[trigger] alias_map::is_token(token)
                            &&& !t.random.contains_key(token)
                            &&& address@ == token + "@"@ + t.domain
                            &&& final(self)@ == with_tenant(
                                old(self)@,
                                domain_key(domain@),
                                TenantModel {
                                    random: t.random.insert(
                                        token,
                                        alias_map::minted_row(
                                            target@,
                                            model::opt_view(correspondent),
                                            ttl_ms,
                                            one_time,
                                            now_ms,
                                        ),
                                    ),
                                    ..t
                                },
                            )
                        },
                },
            },
    {
        let ghost g = self@;
        let found = match self.take(domain) {
            Ok(x) => x,
            Err(e) => {
                return Err(e);
            },
        };
        let mut t = found.tenant;
        let ghost before = t@;
        let minted = t.random.mint_with(target, correspondent, ttl_ms, one_time, now_ms);
        let r = match &minted {
            Ok(token) => Ok(text::concat3(token.as_str(), "@", t.domain.as_str())),
            Err(_) => Err(MultiDomainError::NoRandomness),
        };
        let ghost after = t@;
        self.put(found.key.as_slice(), t);
        proof {
            let d = domain_key(domain@);
            assert(g.tenants.remove(d).insert(d, after) =~= g.tenants.insert(d, after));
            match minted {
                Ok(token) => {
                    assert(alias_map::is_token(token@));
                },
                Err(_) => {
                    assert(after == before);
                    assert(g.tenants.insert(d, before) =~= g.tenants);
                },
            }
        }
        r
    }

    /// Burns a random alias, given alone or with its domain; whether there was one.
    pub fn burn_random_alias(&mut self, domain: &str, token: &str) -> (r: Result<
        bool,
        MultiDomainError,
    >)
        ensures
            err_view(r) == on_tenant(
                old(self)@,
                domain@,
                old(self)@.tenants[domain_key(domain@)].random.contains_key(bare_token(token@)),
            ),
            final(self)@ == updated(
                old(self)@,
                domain@,
                |t: TenantModel|
                    TenantModel {
                        random: alias_map::rows_after_burn(t.random, bare_token(token@)),
                        ..t
                    },
            ),
    {
        let ghost g = self@;
        let ghost f = |t: TenantModel|
            TenantModel { random: alias_map::rows_after_burn(t.random, bare_token(token@)), ..t };
        let found = match self.take(domain) {
            Ok(x) => x,
            Err(e) => {
                return Err(e);
            },
        };
        let mut t = found.tenant;
        let ghost before = t@;
        let c = text::chars_of(token);
        let local = match text::cut_last(c.as_slice(), '@') {
            Some((l, _)) => text::string_of(l),
            None => text::string_from(token),
        };
        let existed = t.random.burn(local.as_str());
        assert(t@ == f(before));
        self.put(found.key.as_slice(), t);
        assert(self@.tenants =~= updated(g, domain@, f).tenants);
        Ok(existed)
    }

    /// Blocks a sender on a domain.
    pub fn block_sender(&mut self, domain: &str, sender: &str) -> (r: Result<(), MultiDomainError>)
        ensures
            err_view(r) == on_tenant(old(self)@, domain@, ()),
            final(self)@ == updated(
                old(self)@,
                domain@,
                |t: TenantModel|
                    TenantModel {
                        blocked_senders: t.blocked_senders.insert(domain_key(sender@)),
                        ..t
                    },
            ),
    {
        let ghost g = self@;
        let ghost f = |t: TenantModel|
            TenantModel { blocked_senders: t.blocked_senders.insert(domain_key(sender@)), ..t };
        let found = match self.take(domain) {
            Ok(x) => x,
            Err(e) => {
                return Err(e);
            },
        };
        let mut t = found.tenant;
        let ghost before = t@;
        let s = to_key(sender);
        let _ = t.blocked_senders.insert(s.as_slice());
        assert(t@ == f(before));
        self.put(found.key.as_slice(), t);
        assert(self@.tenants =~= updated(g, domain@, f).tenants);
        Ok(())
    }

    /// Unblocks a sender on a domain; whether it was blocked.
    pub fn unblock_sender(&mut self, domain: &str, sender: &str) -> (r: Result<
        bool,
        MultiDomainError,
    >)
        ensures
            err_view(r) == on_tenant(
                old(self)@,
                domain@,
                old(self)@.tenants[domain_key(domain@)].blocked_senders.contains(
                    domain_key(sender@),
                ),
            ),
            final(self)@ == updated(
                old(self)@,
                domain@,
                |t: TenantModel|
                    TenantModel {
                        blocked_senders: t.blocked_senders.remove(domain_key(sender@)),
                        ..t
                    },
            ),
    {
        let ghost g = self@;
        let ghost f = |t: TenantModel|
            TenantModel { blocked_senders: t.blocked_senders.remove(domain_key(sender@)), ..t };
        let found = match self.take(domain) {
            Ok(x) => x,
            Err(e) => {
                return Err(e);
            },
        };
        let mut t = found.tenant;
        let ghost before = t@;
        let s = to_key(sender);
        let was = t.blocked_senders.remove(s.as_slice());
        assert(t@ == f(before));
        self.put(found.key.as_slice(), t);
        assert(self@.tenants =~= updated(g, domain@, f).tenants);
        Ok(was)
    }

    /// Blocks a sender on every domain.
    pub fn block_sender_global(&mut self, sender: &str)
        ensures
            final(self)@ == (GatewayModel {
                global_blocked: old(self)@.global_blocked.insert(domain_key(sender@)),
                ..old(self)@
            }),
    {
        let s = to_key(sender);
        let _ = self.global_blocked.insert(s.as_slice());
    }

    /// Takes a sender off the list that holds for every domain; whether it was on it.
    pub fn unblock_sender_global(&mut self, sender: &str) -> (r: bool)
        ensures
            r == old(self)@.global_blocked.contains(domain_key(sender@)),
            final(self)@ == (GatewayModel {
                global_blocked: old(self)@.global_blocked.remove(domain_key(sender@)),
                ..old(self)@
            }),
    {
        let s = to_key(sender);
        self.global_blocked.remove(s.as_slice())
    }

    /// Suspends a user of a domain, given alone or with the domain.
    pub fn suspend_user(&mut self, domain: &str, user: &str) -> (r: Result<(), MultiDomainError>)
        ensures
            err_view(r) == on_tenant(old(self)@, domain@, ()),
            final(self)@ == updated(
                old(self)@,
                domain@,
                |t: TenantModel|
                    TenantModel {
                        suspended_users: t.suspended_users.insert(text::lower(local_part(user@))),
                        ..t
                    },
            ),
    {
        let ghost g = self@;
        let ghost f = |t: TenantModel|
            TenantModel {
                suspended_users: t.suspended_users.insert(text::lower(local_part(user@))),
                ..t
            };
        let local = local_part_of(user);
        let found = match self.take(domain) {
            Ok(x) => x,
            Err(e) => {
                return Err(e);
            },
        };
        let mut t = found.tenant;
        let ghost before = t@;
        let _ = t.suspended_users.insert(local.as_slice());
        assert(t@ == f(before));
        self.put(found.key.as_slice(), t);
        assert(self@.tenants =~= updated(g, domain@, f).tenants);
        Ok(())
    }

    /// Reinstates a user of a domain; whether the user was suspended.
    pub fn unsuspend_user(&mut self, domain: &str, user: &str) -> (r: Result<
        bool,
        MultiDomainError,
    >)
        ensures
            err_view(r) == on_tenant(
                old(self)@,
                domain@,
                old(self)@.tenants[domain_key(domain@)].suspended_users.contains(
                    text::lower(local_part(user@)),
                ),
            ),
            final(self)@ == updated(
                old(self)@,
                domain@,
                |t: TenantModel|
                    TenantModel {
                        suspended_users: t.suspended_users.remove(text::lower(local_part(user@))),
                        ..t
                    },
            ),
    {
        let ghost g = self@;
        let ghost f = |t: TenantModel|
            TenantModel {
                suspended_users: t.suspended_users.remove(text::lower(local_part(user@))),
                ..t
            };
        let local = local_part_of(user);
        let found = match self.take(domain) {
            Ok(x) => x,
            Err(e) => {
                return Err(e);
            },
        };
        let mut t = found.tenant;
        let ghost before = t@;
        let was = t.suspended_users.remove(local.as_slice());
        assert(t@ == f(before));
        self.put(found.key.as_slice(), t);
        assert(self@.tenants =~= updated(g, domain@, f).tenants);
        Ok(was)
    }

    /// Sets the quota of a domain.
    pub fn set_domain_quota(&mut self, domain: &str, quota: Quota) -> (r: Result<
        (),
        MultiDomainError,
    >)
        ensures
            err_view(r) == on_tenant(old(self)@, domain@, ()),
            final(self)@ == updated(
                old(self)@,
                domain@,
                |t: TenantModel| with_quota(t, quota),
            ),
    {
        let ghost g = self@;
        let ghost f = |t: TenantModel| with_quota(t, quota);
        let found = match self.take(domain) {
            Ok(x) => x,
            Err(e) => {
                return Err(e);
            },
        };
        let mut t = found.tenant;
        let ghost before = t@;
        t.quota = quota;
        t.ledger.upsert_quota(t.domain.as_str(), quota);
        assert(t@ == f(before));
        self.put(found.key.as_slice(), t);
        assert(self@.tenants =~= updated(g, domain@, f).tenants);
        Ok(())
    }

    /// Says where a message for a recipient goes: to a recipient in the directory, to what a random
    /// alias stands for, or to the key behind a chosen or a derived name. What is refused before is,
    /// in this order: a domain that is not served, a blocked sender, a suspended user.
    pub fn route(&mut self, sender: &str, rcpt: &str, now_ms: u64) -> (r: Result<
        Recipient,
        RouteError,
    >)
        ensures
            exists|keys: Seq<Seq<u8>>|
                {
                    &&& model::ok_view(r) == #[trigger] routed(
                        old(self)@,
                        sender@,
                        rcpt@,
                        now_ms,
                        keys,
                    )
                    &&& split_parts(rcpt@) matches Some((_, d)) ==> old(self)@.tenants.contains_key(
                        d,
                    ) ==> enumerates(keys, old(self)@.tenants[d].directory)
                },
            final(self)@ == after_route(old(self)@, sender@, rcpt@, now_ms),
    {
        let ghost g = self@;
        let ghost mut keys: Seq<Seq<u8>> = Seq::empty();
        proof {
            if split_parts(rcpt@) is Some && g.tenants.contains_key((split_parts(rcpt@)->0).1) {
                let d = g.tenants[(split_parts(rcpt@)->0).1].directory;
                keys = choose|keys: Seq<Seq<u8>>| enumerates(keys, d);
            }
        }
        let addr = match split_address(rcpt) {
            Some(a) => a,
            None => {
                assert(routed(g, sender@, rcpt@, now_ms, keys) is Err);
                return Err(RouteError::NoSuchDomain);
            },
        };
        let s = to_key(sender);
        let key = addr.domain;
        if let Some(t) = self.tenants.get(key.as_slice()) {
            let listed = t.directory.iter();
            proof {
                lemma_listed_enumerates(listed@, t.directory@);
                assert(enumerates(keys, g.tenants[key@].directory));
            }
        }
        if self.tenants.contains(key.as_slice()) && self.global_blocked.contains(s.as_slice()) {
            assert(routed(g, sender@, rcpt@, now_ms, keys) is Err);
            return Err(RouteError::SenderBlocked);
        }
        let mut t = match self.tenants.remove(key.as_slice()) {
            Some(t) => t,
            None => {
                assert(self@.tenants =~= g.tenants);
                assert(routed(g, sender@, rcpt@, now_ms, keys) is Err);
                return Err(RouteError::NoSuchDomain);
            },
        };
        let ghost before = t@;
        let listed = t.directory.iter();
        let ks = identity_keys(&listed);
        proof {
            keys = vanity::key_views(ks@);
            lemma_listed_enumerates(listed@, before.directory);
        }
        let ghost reached = !before.blocked_senders.contains(s@)
            && !before.suspended_users.contains(addr.local@) && directory::lookup(
            before.directory,
            addr.local@ + "@"@ + key@,
        ) is None;
        let r = t.resolve(s.as_slice(), addr.local.as_slice(), key.as_slice(), now_ms, ks.as_slice());
        let ghost after = t@;
        self.put(key.as_slice(), t);
        proof {
            assert(g.tenants.remove(key@).insert(key@, after) =~= g.tenants.insert(key@, after));
            if !reached {
                assert(g.tenants.insert(key@, before) =~= g.tenants);
            }
            assert(model::ok_view(r) == routed(g, sender@, rcpt@, now_ms, keys));
        }
        r
    }

    /// Signs a message for a domain at time `t`, in seconds; none for a domain that is not served.
    pub fn dkim_sign(&self, domain: &str, message: &[u8], t: u64) -> (r: Option<String>)
        ensures
            model::opt_view(r) == (if self@.tenants.contains_key(domain_key(domain@)) {
                Some(
                    dkim::signed_field(self@.tenants[domain_key(domain@)].dkim, message@, t),
                )
            } else {
                None
            }),
    {
        match self.tenant(domain) {
            Some(tenant) => Some(dkim::sign(&tenant.dkim, message, t)),
            None => None,
        }
    }

    /// Charges a relayed message to a domain and, if it was charged, records it once with the
    /// meter.
    pub fn charge_relay<M: GatewayMeter>(
        &mut self,
        domain: &str,
        direction: BridgeDirection,
        rfc5322_bytes: &[u8],
        at: u64,
        meter: &mut M,
    ) -> (r: Result<Usage, ChargeError>)
        ensures
            err_view(r) == charged(old(self)@, domain@, rfc5322_bytes@.len() as u64),
            final(self)@ == updated(
                old(self)@,
                domain@,
                |t: TenantModel|
                    TenantModel {
                        ledger: quota::after_charge(
                            t.ledger,
                            t.domain,
                            rfc5322_bytes@.len() as u64,
                        ),
                        ..t
                    },
            ),
            r is Ok ==> M::records(
                *old(meter),
                ({
                    let d = old(self)@.tenants[domain_key(domain@)].domain;
                    provenance::MeterEventModel {
                        direction,
                        account: d,
                        domain: d,
                        msg_digest: identity::content_address(rfc5322_bytes@),
                        at,
                    }
                }),
                *final(meter),
            ),
            r is Err ==> *final(meter) == *old(meter),
    {
        let ghost g = self@;
        let ghost f = |t: TenantModel|
            TenantModel {
                ledger: quota::after_charge(t.ledger, t.domain, rfc5322_bytes@.len() as u64),
                ..t
            };
        let found = match self.take(domain) {
            Ok(x) => x,
            Err(_) => {
                return Err(ChargeError::NoSuchDomain(text::string_from(domain)));
            },
        };
        let mut t = found.tenant;
        let ghost before = t@;
        let account = t.domain.clone();
        let r = t.ledger.charge_and_meter(
            account.as_str(),
            account.as_str(),
            direction,
            rfc5322_bytes,
            at,
            meter,
        );
        assert(t@ == f(before));
        self.put(found.key.as_slice(), t);
        assert(self@.tenants =~= updated(g, domain@, f).tenants);
        match r {
            Ok(u) => Ok(u),
            Err(e) => Err(ChargeError::Quota(e)),
        }
    }
}

/// The tenant with another quota.
pub open spec fn with_quota(t: TenantModel, q: Quota) -> TenantModel {
    TenantModel {
        quota: q,
        ledger: quota::LedgerModel { limits: t.ledger.limits.insert(t.domain, q), ..t.ledger },
        ..t
    }
}

/// A result with the views of an optional text and of an error.
pub open spec fn opt_res_view(r: Result<Option<String>, MultiDomainError>) -> Result<
    Option<Seq<char>>,
    MultiDomainErrorModel,
> {
    match r {
        Ok(o) => Ok(model::opt_view(o)),
        Err(e) => Err(e@),
    }
}

impl DomainTenant {
    fn resolve(
        &mut self,
        sender: &[char],
        local: &[char],
        domain: &[char],
        now_ms: u64,
        keys: &[Vec<u8>],
    ) -> (r: Result<Recipient, RouteError>)
        ensures
            ({
                let t = old(self)@;
                let refused = t.blocked_senders.contains(sender@) || t.suspended_users.contains(
                    local@,
                );
                &&& model::ok_view(r) == (if t.blocked_senders.contains(sender@) {
                    Err(RouteError::SenderBlocked)
                } else if t.suspended_users.contains(local@) {
                    Err(RouteError::UserSuspended)
                } else {
                    destination(t, local@, domain@, now_ms, vanity::key_views(keys@))
                })
                &&& final(self)@ == (if refused || directory::lookup(
                    t.directory,
                    local@ + "@"@ + domain@,
                ) is Some {
                    t
                } else {
                    TenantModel {
                        random: alias_map::rows_after_resolve(t.random, local@, now_ms),
                        ..t
                    }
                })
            }),
    {
        if self.blocked_senders.contains(sender) {
            return Err(RouteError::SenderBlocked);
        }
        if self.suspended_users.contains(local) {
            return Err(RouteError::UserSuspended);
        }
        let l = text::string_of(local);
        let d = text::string_of(domain);
        let clean = text::concat3(l.as_str(), "@", d.as_str());
        if let Some(key) = self.directory.resolve(clean.as_str()) {
            return Ok(Recipient::Directory(key));
        }
        if let Ok(target) = self.random.resolve(l.as_str(), now_ms) {
            return Ok(Recipient::Alias(target));
        }
        match self.aliases.resolve(clean.as_str(), keys) {
            Some(pk) => Ok(Recipient::Alias(AliasTarget::Identity(pk))),
            None => Err(RouteError::Unmapped),
        }
    }
}

fn identity_keys(listed: &Vec<(String, RecipientKey)>) -> (r: Vec<Vec<u8>>)
    ensures
        vanity::key_views(r@) == Seq::new(listed@.len(), |i: int| listed@[i].1@.ik),
{
    let mut out: Vec<Vec<u8>> = Vec::new();
    let mut i: usize = 0;
    while i < listed.len()
        invariant
            i <= listed@.len(),
            out@.len() == i,
            forall|j: int| 0 <= j < i ==> (#[trigger] out@[j])@ == listed@[j].1@.ik,
        decreases listed@.len() - i,
    {
        out.push(slice_to_vec(listed[i].1.ik.as_slice()));
        i += 1;
    }
    assert(vanity::key_views(out@) =~= Seq::new(listed@.len(), |i: int| listed@[i].1@.ik));
    out
}

proof fn lemma_listed_enumerates(v: Seq<(String, RecipientKey)>, d: directory::DirectoryModel)
    requires
        directory::lists_directory(v, d),
    ensures
        enumerates(Seq::new(v.len(), |i: int| v[i].1@.ik), d),
{
    let order = Seq::new(v.len(), |i: int| v[i].0@);
    let keys = Seq::new(v.len(), |i: int| v[i].1@.ik);
    assert(order.no_duplicates()) by {
        assert forall|i: int, j: int| 0 <= i < order.len() && 0 <= j < order.len() && i
            != j implies order[i] != order[j] by {
            if i < j {
                assert(v[i].0@ != v[j].0@);
            } else {
                assert(v[j].0@ != v[i].0@);
            }
        }
    }
    assert forall|k: Seq<char>| d.contains_key(k) <==> #[trigger] order.contains(k) by {
        if d.contains_key(k) {
            let i = choose|i: int| 0 <= i < v.len() && (#[trigger] v[i]).0@ == k;
            assert(order[i] == k);
        }
        if order.contains(k) {
            let i = choose|i: int| 0 <= i < order.len() && order[i] == k;
            assert(d.contains_key(v[i].0@));
        }
    }
    assert forall|i: int| 0 <= i < keys.len() implies keys[i] == keys_in_order(d, order)[i] by {
        assert(d[v[i].0@] == v[i].1@);
    }
    assert(keys =~= keys_in_order(d, order));
}

fn sorted_keys<V: View>(map: &SeqMap<char, V>) -> (r: Vec<String>)
    ensures
        sorting::lists_in_order(text::string_views(r@), map@.dom()),
{
    let n: usize = map.len();
    let ghost keys = map.keys();
    let mut list: Vec<Vec<char>> = Vec::new();
    let mut i: usize = 0;
    while i < n
        invariant
            i <= n,
            n == keys.len(),
            keys == map.keys(),
            list@.len() == i,
            forall|j: int| 0 <= j < i ==> (#[trigger] list@[j])@ == keys[j],
        decreases n - i,
    {
        let (k, _) = map.entry(i);
        list.push(slice_to_vec(k));
        i += 1;
    }
    assert(text::views(list@) =~= keys);
    let s = sorting::sorted(list);
    let ghost sv = text::views(s@);
    let mut out: Vec<String> = Vec::new();
    let mut j: usize = 0;
    while j < s.len()
        invariant
            j <= s@.len(),
            out@.len() == j,
            forall|a: int| 0 <= a < j ==> (#[trigger] out@[a])@ == s@[a]@,
        decreases s@.len() - j,
    {
        out.push(text::string_of(s[j].as_slice()));
        j += 1;
    }
    proof {
        assert(text::string_views(out@) =~= sv);
        assert forall|k: Seq<char>| #[trigger] sv.contains(k) <==> map@.dom().contains(k) by {
            assert(map@.contains_key(k) <==> keys.contains(k));
            assert(keys.to_set().contains(k) <==> keys.contains(k));
        }
    }
    out
}

/// Why a relayed message was not charged.
#[derive(Debug, Clone, PartialEq, Eq)]
pub enum ChargeError {
    NoSuchDomain(String),
    Quota(QuotaError),
}

/// [`ChargeError`] with its contents as sequences.
pub enum ChargeErrorModel {
    NoSuchDomain(Seq<char>),
    Quota(quota::QuotaErrorModel),
}

impl View for ChargeError {
    type V = ChargeErrorModel;

    open spec fn view(&self) -> ChargeErrorModel {
        match *self {
            ChargeError::NoSuchDomain(d) => ChargeErrorModel::NoSuchDomain(d@),
            ChargeError::Quota(e) => ChargeErrorModel::Quota(e@),
        }
    }
}

/// What comes of charging a message to a domain.
pub open spec fn charged(g: GatewayModel, domain: Seq<char>, bytes: u64) -> Result<
    Usage,
    ChargeErrorModel,
> {
    let d = domain_key(domain);
    if !g.tenants.contains_key(d) {
        Err(ChargeErrorModel::NoSuchDomain(domain))
    } else {
        match quota::charge(g.tenants[d].ledger, g.tenants[d].domain, bytes) {
            Ok(u) => Ok(u),
            Err(e) => Err(ChargeErrorModel::Quota(e)),
        }
    }
}

// ---- the meter ---------------------------------------------------------------------------------

/// How many messages were relayed for a domain.
#[derive(Debug, Clone, Copy, PartialEq, Eq, Structural)]
pub struct DomainUsage {
    pub inbound: u64,
    pub outbound: u64,
    pub messages: u64,
}

impl View for DomainUsage {
    type V = DomainUsage;

    open spec fn view(&self) -> DomainUsage {
        *self
    }
}

/// The usage of a domain for which nothing was relayed.
pub open spec fn no_relays() -> DomainUsage {
    DomainUsage { inbound: 0, outbound: 0, messages: 0 }
}

/// The usage with one more message. The counts stop at the largest number.
pub open spec fn one_more(u: DomainUsage, direction: BridgeDirection) -> DomainUsage {
    DomainUsage {
        inbound: if direction == BridgeDirection::Inbound {
            quota::sat_add(u.inbound, 1)
        } else {
            u.inbound
        },
        outbound: if direction == BridgeDirection::Outbound {
            quota::sat_add(u.outbound, 1)
        } else {
            u.outbound
        },
        messages: quota::sat_add(u.messages, 1),
    }
}

/// Counts the relayed messages of each domain.
pub struct UsageMeter {
    counts: SeqMap<char, DomainUsage>,
}

impl View for UsageMeter {
    type V = Map<Seq<char>, DomainUsage>;

    closed spec fn view(&self) -> Map<Seq<char>, DomainUsage> {
        self.counts@
    }
}

/// The usage of a domain.
pub open spec fn usage_of(m: Map<Seq<char>, DomainUsage>, d: Seq<char>) -> DomainUsage {
    if m.contains_key(d) {
        m[d]
    } else {
        no_relays()
    }
}

/// Whether a list holds the usage of each domain, in the order of the domains.
pub open spec fn is_snapshot(v: Seq<(String, DomainUsage)>, m: Map<Seq<char>, DomainUsage>) -> bool {
    &&& sorting::lists_in_order(Seq::new(v.len(), |i: int| v[i].0@), m.dom())
    &&& forall|i: int| 0 <= i < v.len() ==> (#[trigger] v[i]).1 == m[v[i].0@]
}

impl UsageMeter {
    /// A meter that has counted nothing.
    pub fn new() -> (r: Self)
        ensures
            r@ == Map::<Seq<char>, DomainUsage>::empty(),
    {
        UsageMeter { counts: SeqMap::new() }
    }

    /// The usage of a domain.
    pub fn usage(&self, domain: &str) -> (r: DomainUsage)
        ensures
            r == usage_of(self@, domain_key(domain@)),
    {
        let key = to_key(domain);
        match self.counts.get(key.as_slice()) {
            Some(u) => *u,
            None => DomainUsage { inbound: 0, outbound: 0, messages: 0 },
        }
    }

    /// The usage of every domain, in the order of the domains.
    pub fn snapshot(&self) -> (r: Vec<(String, DomainUsage)>)
        ensures
            is_snapshot(r@, self@),
    {
        let names = sorted_keys(&self.counts);
        let ghost nv = text::string_views(names@);
        let mut out: Vec<(String, DomainUsage)> = Vec::new();
        let mut i: usize = 0;
        while i < names.len()
            invariant
                i <= names@.len(),
                nv == text::string_views(names@),
                sorting::lists_in_order(nv, self@.dom()),
                out@.len() == i,
                forall|j: int|
                    0 <= j < i ==> (#[trigger] out@[j]).0@ == nv[j] && out@[j].1 == self@[nv[j]],
            decreases names@.len() - i,
        {
            let c = text::chars_of(names[i].as_str());
            assert(nv[i as int] == c@);
            assert(nv.contains(c@));
            assert(self@.dom().contains(c@));
            let u: DomainUsage = match self.counts.get(c.as_slice()) {
                Some(u) => *u,
                None => DomainUsage { inbound: 0, outbound: 0, messages: 0 },
            };
            out.push((names[i].clone(), u));
            i += 1;
        }
        assert(Seq::new(out@.len(), |i: int| out@[i].0@) =~= nv);
        out
    }
}

impl GatewayMeter for UsageMeter {
    open spec fn records(
        before: Self,
        event: provenance::MeterEventModel,
        after: Self,
    ) -> bool {
        let d = text::lower(event.domain);
        after@ == before@.insert(d, one_more(usage_of(before@, d), event.direction))
    }

    fn record(&mut self, event: &MeterEvent) {
        let c = text::chars_of(event.domain.as_str());
        let key = text::to_lower(c.as_slice());
        let u: DomainUsage = match self.counts.get(key.as_slice()) {
            Some(u) => *u,
            None => DomainUsage { inbound: 0, outbound: 0, messages: 0 },
        };
        let next = match event.direction {
            BridgeDirection::Inbound => DomainUsage {
                inbound: u.inbound.saturating_add(1),
                outbound: u.outbound,
                messages: u.messages.saturating_add(1),
            },
            BridgeDirection::Outbound => DomainUsage {
                inbound: u.inbound,
                outbound: u.outbound.saturating_add(1),
                messages: u.messages.saturating_add(1),
            },
        };
        let _ = self.counts.insert(key.as_slice(), next);
    }
}

// ---- laws --------------------------------------------------------------------------------------

/// A gateway that serves nobody routes nothing and charges nothing.
pub proof fn law_empty_gateway_refuses(
    g: GatewayModel,
    sender: Seq<char>,
    rcpt: Seq<char>,
    now_ms: u64,
    keys: Seq<Seq<u8>>,
    domain: Seq<char>,
    bytes: u64,
)
    requires
        g.tenants == Map::<Seq<char>, TenantModel>::empty(),
    ensures
        routed(g, sender, rcpt, now_ms, keys) == Err::<DestinationModel, RouteError>(
            RouteError::NoSuchDomain,
        ),
        charged(g, domain, bytes) is Err,
{
}

/// A sender that is blocked on every domain reaches nobody.
pub proof fn law_global_block_holds_everywhere(
    g: GatewayModel,
    sender: Seq<char>,
    rcpt: Seq<char>,
    now_ms: u64,
    keys: Seq<Seq<u8>>,
)
    requires
        g.global_blocked.contains(domain_key(sender)),
    ensures
        routed(g, sender, rcpt, now_ms, keys) is Err,
        after_route(g, sender, rcpt, now_ms) == g,
{
}

/// What happens to one tenant leaves every other as it is.
pub proof fn law_tenants_are_isolated(
    g: GatewayModel,
    domain: Seq<char>,
    f: spec_fn(TenantModel) -> TenantModel,
    other: Seq<char>,
)
    requires
        other != domain_key(domain),
    ensures
        updated(g, domain, f).tenants.contains_key(other) == g.tenants.contains_key(other),
        g.tenants.contains_key(other) ==> updated(g, domain, f).tenants[other] == g.tenants[other],
        updated(g, domain, f).global_blocked == g.global_blocked,
{
}

/// A message on one domain uses up no alias of another.
pub proof fn law_routing_is_isolated(
    g: GatewayModel,
    sender: Seq<char>,
    rcpt: Seq<char>,
    now_ms: u64,
    other: Seq<char>,
)
    requires
        split_parts(rcpt) matches Some((_, d)) ==> d != other,
    ensures
        after_route(g, sender, rcpt, now_ms).tenants.contains_key(other) == g.tenants.contains_key(
            other,
        ),
        g.tenants.contains_key(other) ==> after_route(g, sender, rcpt, now_ms).tenants[other]
            == g.tenants[other],
{
}

/// A domain that was added stands under its own name, with its own key and its quota in force.
pub proof fn law_adding_keeps_soundness(
    g: GatewayModel,
    domain: Seq<char>,
    seed: Seq<u8>,
    selector: Seq<char>,
)
    requires
        sound(g),
        add_refusal(g, domain) is None,
    ensures
        sound(with_domain(g, domain, seed, selector)),
{
    let d = domain_key(domain);
    let t = fresh_tenant(d, seed, selector, g.default_quota);
    assert(sound_tenant(d, t));
    assert forall|k: Seq<char>| #[trigger]
        with_tenant(g, d, t).tenants.contains_key(k) implies sound_tenant(
        k,
        with_tenant(g, d, t).tenants[k],
    ) by {
        if k != d {
            assert(g.tenants.contains_key(k));
        }
    }
}

/// An operation that keeps a tenant sound keeps the gateway sound.
pub proof fn law_updating_keeps_soundness(
    g: GatewayModel,
    domain: Seq<char>,
    f: spec_fn(TenantModel) -> TenantModel,
)
    requires
        sound(g),
        forall|t: TenantModel| #[trigger]
            sound_tenant(domain_key(domain), t) ==> sound_tenant(domain_key(domain), f(t)),
    ensures
        sound(updated(g, domain, f)),
{
    let d = domain_key(domain);
    let h = updated(g, domain, f);
    assert forall|k: Seq<char>| #[trigger] h.tenants.contains_key(k) implies sound_tenant(
        k,
        h.tenants[k],
    ) by {
        assert(g.tenants.contains_key(k));
        if k == d {
            assert(sound_tenant(d, g.tenants[d]));
        }
    }
}

/// Adding a recipient, setting a quota and charging a message keep a tenant sound.
pub proof fn law_operations_keep_soundness(
    d: Seq<char>,
    t: TenantModel,
    local: Seq<char>,
    key: directory::RecipientModel,
    q: Quota,
    bytes: u64,
)
    requires
        sound_tenant(d, t),
    ensures
        sound_tenant(d, with_recipient(t, local, d, key)),
        sound_tenant(d, with_quota(t, q)),
        sound_tenant(
            d,
            TenantModel { ledger: quota::after_charge(t.ledger, t.domain, bytes), ..t },
        ),
{
}

/// A charge never takes a domain over its caps, and one that is refused changes nothing.
pub proof fn law_charges_stay_within_caps(g: GatewayModel, domain: Seq<char>, bytes: u64)
    requires
        sound(g),
    ensures
        charged(g, domain, bytes) matches Ok(u) ==> {
            let q = g.tenants[domain_key(domain)].quota;
            &&& q.hard_cap_messages != 0 ==> u.messages <= q.hard_cap_messages
            &&& q.hard_cap_bytes != 0 ==> u.bytes <= q.hard_cap_bytes
        },
{
    if g.tenants.contains_key(domain_key(domain)) {
        assert(sound_tenant(domain_key(domain), g.tenants[domain_key(domain)]));
    }
}

/// Where no two recipients' keys have the same derived name, a message goes to the same place
/// whatever the order of the recipients.
pub proof fn law_route_does_not_depend_on_order(
    g: GatewayModel,
    sender: Seq<char>,
    rcpt: Seq<char>,
    now_ms: u64,
    a: Seq<Seq<u8>>,
    b: Seq<Seq<u8>>,
)
    requires
        split_parts(rcpt) matches Some((_, d)) ==> g.tenants.contains_key(d) ==> {
            let dir = g.tenants[d].directory;
            &&& enumerates(a, dir)
            &&& enumerates(b, dir)
            &&& forall|x: Seq<char>, y: Seq<char>|
                #![trigger dir[x], dir[y]]
                dir.contains_key(x) && dir.contains_key(y) && vanity::derived_name(dir[x].ik)
                    == vanity::derived_name(dir[y].ik) ==> dir[x].ik == dir[y].ik
        },
    ensures
        routed(g, sender, rcpt, now_ms, a) == routed(g, sender, rcpt, now_ms, b),
{
    if split_parts(rcpt) is Some {
        let (local, d) = split_parts(rcpt)->0;
        if g.tenants.contains_key(d) {
            let t = g.tenants[d];
            let clean = local + "@"@ + d;
            if let Some((lp, _)) = text::rsplit_once(text::lower(text::trim(clean)), '@') {
                lemma_derived_in_any_order(t.directory, a, b, lp);
            }
        }
    }
}

proof fn lemma_derived_in_any_order(
    dir: directory::DirectoryModel,
    a: Seq<Seq<u8>>,
    b: Seq<Seq<u8>>,
    lp: Seq<char>,
)
    requires
        enumerates(a, dir),
        enumerates(b, dir),
        forall|x: Seq<char>, y: Seq<char>|
            #![trigger dir[x], dir[y]]
            dir.contains_key(x) && dir.contains_key(y) && vanity::derived_name(dir[x].ik)
                == vanity::derived_name(dir[y].ik) ==> dir[x].ik == dir[y].ik,
    ensures
        vanity::first_derived(a, lp) == vanity::first_derived(b, lp),
{
    lemma_first_derived(a, lp);
    lemma_first_derived(b, lp);
    lemma_same_keys(dir, a, b);
    lemma_same_keys(dir, b, a);
    match vanity::first_derived(a, lp) {
        Some(k) => {
            assert(b.contains(k));
            let other = vanity::first_derived(b, lp)->0;
            assert(b.contains(other));
            lemma_key_of(dir, a, k);
            lemma_key_of(dir, b, other);
            let x = choose|x: Seq<char>| dir.contains_key(x) && #[trigger] dir[x].ik == k;
            let y = choose|y: Seq<char>| dir.contains_key(y) && #[trigger] dir[y].ik == other;
            assert(dir[x].ik == dir[y].ik);
        },
        None => {
            if vanity::first_derived(b, lp) is Some {
                let other = vanity::first_derived(b, lp)->0;
                assert(a.contains(other));
            }
        },
    }
}

proof fn lemma_first_derived(keys: Seq<Seq<u8>>, lp: Seq<char>)
    ensures
        match vanity::first_derived(keys, lp) {
            Some(k) => keys.contains(k) && vanity::derived_name(k) == lp,
            None => forall|k: Seq<u8>| #[trigger]
                keys.contains(k) ==> vanity::derived_name(k) != lp,
        },
    decreases keys.len(),
{
    if keys.len() > 0 {
        if vanity::derived_name(keys[0]) == lp {
            assert(keys.contains(keys[0]));
        } else {
            let rest = keys.skip(1);
            lemma_first_derived(rest, lp);
            match vanity::first_derived(rest, lp) {
                Some(k) => {
                    let i = choose|i: int| 0 <= i < rest.len() && rest[i] == k;
                    assert(keys[i + 1] == k);
                },
                None => {
                    assert forall|k: Seq<u8>| #[trigger] keys.contains(k) implies
                        vanity::derived_name(k) != lp by {
                        let i = choose|i: int| 0 <= i < keys.len() && keys[i] == k;
                        if i > 0 {
                            assert(rest[i - 1] == k);
                            assert(rest.contains(k));
                        }
                    }
                },
            }
        }
    }
}

proof fn lemma_key_of(dir: directory::DirectoryModel, keys: Seq<Seq<u8>>, k: Seq<u8>)
    requires
        enumerates(keys, dir),
        keys.contains(k),
    ensures
        exists|x: Seq<char>| dir.contains_key(x) && #[trigger] dir[x].ik == k,
{
    let order = choose|order: Seq<Seq<char>>|
        {
            &&& order.no_duplicates()
            &&& forall|k: Seq<char>| dir.contains_key(k) <==> #[trigger] order.contains(k)
            &&& keys == #[trigger] keys_in_order(dir, order)
        };
    let i = choose|i: int| 0 <= i < keys.len() && keys[i] == k;
    assert(order.contains(order[i]));
    assert(dir[order[i]].ik == k);
}

proof fn lemma_same_keys(dir: directory::DirectoryModel, a: Seq<Seq<u8>>, b: Seq<Seq<u8>>)
    requires
        enumerates(a, dir),
        enumerates(b, dir),
    ensures
        forall|k: Seq<u8>| #[trigger] a.contains(k) ==> b.contains(k),
{
    let order = choose|order: Seq<Seq<char>>|
        {
            &&& order.no_duplicates()
            &&& forall|k: Seq<char>| dir.contains_key(k) <==> #[trigger] order.contains(k)
            &&& b == #[trigger] keys_in_order(dir, order)
        };
    assert forall|k: Seq<u8>| #[trigger] a.contains(k) implies b.contains(k) by {
        lemma_key_of(dir, a, k);
        let x = choose|x: Seq<char>| dir.contains_key(x) && #[trigger] dir[x].ik == k;
        assert(order.contains(x));
        let i = choose|i: int| 0 <= i < order.len() && order[i] == x;
        assert(b[i] == k);
    }
}

/// A local part that is reserved is refused to everybody who asks for it as a name.
proof fn lemma_reserved_is_refused(m: vanity::AllocatorModel, local: Seq<char>, who: Seq<u8>)
    requires
        m.reserved.contains(text::lower(text::trim(local))),
    ensures
        vanity::allocation(m, who, local) is Err,
{
    let lp = text::lower(local);
    if vanity::vanity_charset(lp) {
        assert(vanity::is_vanity_char(lp[0]));
        assert(vanity::is_vanity_char(lp[lp.len() - 1]));
        text::lemma_nothing_to_trim(local);
    }
}

/// A recipient that was added, under however written an address, is reached under its plain one,
/// unless it or the sender is shut out. Nobody can have its local part as a name from then on, who
/// had it has it no more, and it stays so when the recipient is removed. Every other domain is left
/// as it was.
pub proof fn law_added_recipient_is_reached(
    g: GatewayModel,
    email: Seq<char>,
    key: directory::RecipientModel,
    sender: Seq<char>,
    rcpt: Seq<char>,
    now_ms: u64,
    keys: Seq<Seq<u8>>,
    who: Seq<u8>,
)
    requires
        split_parts(email) is Some,
        g.tenants.contains_key(domain_key((split_parts(email)->0).1)),
        vanity::consistent(g.tenants[domain_key((split_parts(email)->0).1)].aliases),
        split_parts(rcpt) == Some(
            ((split_parts(email)->0).0, domain_key((split_parts(email)->0).1)),
        ),
    ensures
        ({
            let (l, d) = split_parts(email)->0;
            let k = domain_key(d);
            let added = updated(g, d, |t: TenantModel| with_recipient(t, l, d, key));
            let removed = updated(added, d, |t: TenantModel| without_recipient(t, l, d));
            &&& !g.global_blocked.contains(domain_key(sender))
                && !g.tenants[k].blocked_senders.contains(domain_key(sender))
                && !g.tenants[k].suspended_users.contains(l) ==> routed(
                added,
                sender,
                rcpt,
                now_ms,
                keys,
            ) == Ok::<DestinationModel, RouteError>(DestinationModel::Directory(key))
            &&& vanity::allocation(added.tenants[k].aliases, who, l) is Err
            &&& vanity::allocation(removed.tenants[k].aliases, who, l) is Err
            &&& !added.tenants[k].aliases.holder.contains_key(text::lower(text::trim(l)))
            &&& !(routed(removed, sender, rcpt, now_ms, keys) matches Ok(DestinationModel::Directory(_)))
            &&& forall|o: Seq<char>|
                o != k ==> (#[trigger] added.tenants.contains_key(o) <==> g.tenants.contains_key(o))
                    && added.tenants[o] == g.tenants[o]
        }),
{
    let (l, d) = split_parts(email)->0;
    let k = domain_key(d);
    let t = g.tenants[k];
    let added = updated(g, d, |t: TenantModel| with_recipient(t, l, d, key));
    let removed = updated(added, d, |t: TenantModel| without_recipient(t, l, d));
    vanity::law_reserving_keeps_consistency(t.aliases, l);
    lemma_reserved_is_refused(added.tenants[k].aliases, l, who);
    lemma_reserved_is_refused(removed.tenants[k].aliases, l, who);
}

/// A domain that was added is served and cannot be added again; removing it undoes adding it.
pub proof fn law_removing_undoes_adding(
    g: GatewayModel,
    domain: Seq<char>,
    seed: Seq<u8>,
    selector: Seq<char>,
    again: Seq<char>,
)
    requires
        add_refusal(g, domain) is None,
        domain_key(again) == domain_key(domain),
    ensures
        with_domain(g, domain, seed, selector).tenants.contains_key(domain_key(domain)),
        add_refusal(with_domain(g, domain, seed, selector), again) == Some(
            MultiDomainErrorModel::DomainExists(domain_key(domain)),
        ),
        without_domain(with_domain(g, domain, seed, selector), again) == g,
{
    assert(without_domain(with_domain(g, domain, seed, selector), again).tenants =~= g.tenants);
}

/// A domain that is removed and added again with the seed and the selector that it had signs with the
/// key that it had, and nothing else of it comes back. Every other domain is left as it was.
pub proof fn law_domain_gets_its_key_back(g: GatewayModel, domain: Seq<char>, other: Seq<char>)
    requires
        sound(g),
        g.tenants.contains_key(domain_key(domain)),
        ({
            let s = g.tenants[domain_key(domain)].dkim.selector;
            s.len() > 0 && text::trim(s) == s
        }),
        other != domain_key(domain),
    ensures
        add_refusal(without_domain(g, domain), domain) is None,
        ({
            let d = domain_key(domain);
            let k = g.tenants[d].dkim;
            let h = with_domain(without_domain(g, domain), domain, k.seed, k.selector);
            &&& h.tenants[d].dkim == k
            &&& h.tenants[d].directory == Map::<Seq<char>, directory::RecipientModel>::empty()
            &&& h.tenants.contains_key(other) == g.tenants.contains_key(other)
            &&& g.tenants.contains_key(other) ==> h.tenants[other] == g.tenants[other]
        }),
{
    assert(sound_tenant(domain_key(domain), g.tenants[domain_key(domain)]));
}

/// Where mail goes: the domain of the recipient has to be served, the sender blocked neither for all
/// domains nor for this one, and the user not suspended; else that is the reason, in this order. Then
/// the recipients of the domain come first, after them the random aliases that are alive, and the
/// chosen and derived names last.
pub proof fn law_where_mail_goes(
    g: GatewayModel,
    sender: Seq<char>,
    rcpt: Seq<char>,
    now_ms: u64,
    keys: Seq<Seq<u8>>,
    local: Seq<char>,
    domain: Seq<char>,
)
    requires
        split_parts(rcpt) == Some((local, domain)),
    ensures
        ({
            let r = routed(g, sender, rcpt, now_ms, keys);
            let t = g.tenants[domain];
            let from = text::lower(text::trim(sender));
            let addr = local + "@"@ + domain;
            let entry = text::lower(text::trim(addr));
            let served = g.tenants.contains_key(domain);
            let blocked = g.global_blocked.contains(from) || t.blocked_senders.contains(from);
            let suspended = t.suspended_users.contains(local);
            let listed = t.directory.contains_key(entry);
            let alias = t.random.contains_key(local) && !t.random[local].burned && (
            t.random[local].expires_at_ms is None || now_ms < t.random[local].expires_at_ms->0);
            let name = vanity::resolution(t.aliases, addr, keys);
            &&& !served ==> r == Err::<DestinationModel, RouteError>(RouteError::NoSuchDomain)
            &&& served && blocked ==> r == Err::<DestinationModel, RouteError>(
                RouteError::SenderBlocked,
            )
            &&& served && !blocked && suspended ==> r == Err::<DestinationModel, RouteError>(
                RouteError::UserSuspended,
            )
            &&& served && !blocked && !suspended && listed ==> r == Ok::<
                DestinationModel,
                RouteError,
            >(DestinationModel::Directory(t.directory[entry]))
            &&& served && !blocked && !suspended && !listed && alias ==> r == Ok::<
                DestinationModel,
                RouteError,
            >(DestinationModel::Alias(t.random[local].target))
            &&& served && !blocked && !suspended && !listed && !alias && name is Some ==> r == Ok::<
                DestinationModel,
                RouteError,
            >(DestinationModel::Alias(alias_map::TargetModel::Identity(name->0)))
            &&& served && !blocked && !suspended && !listed && !alias && name is None ==> r == Err::<
                DestinationModel,
                RouteError,
            >(RouteError::Unmapped)
        }),
{
}

/// Routing changes nothing but a random alias for one use that was used: where mail reached it, it is
/// burned.
pub proof fn law_what_routing_changes(
    g: GatewayModel,
    sender: Seq<char>,
    rcpt: Seq<char>,
    now_ms: u64,
    keys: Seq<Seq<u8>>,
    local: Seq<char>,
    domain: Seq<char>,
    other: Seq<char>,
)
    requires
        split_parts(rcpt) == Some((local, domain)),
        g.tenants.contains_key(domain),
    ensures
        ({
            let a = after_route(g, sender, rcpt, now_ms);
            let t = g.tenants[domain];
            let u = a.tenants[domain];
            let used = alias_map::live(t.random, local, now_ms) && routed(
                g,
                sender,
                rcpt,
                now_ms,
                keys,
            ) == Ok::<DestinationModel, RouteError>(DestinationModel::Alias(t.random[local].target))
                && !t.directory.contains_key(text::lower(text::trim(local + "@"@ + domain)));
            &&& a.global_blocked == g.global_blocked && a.default_quota == g.default_quota
            &&& a.tenants.contains_key(domain)
            &&& u == (TenantModel { random: u.random, ..t })
            &&& other != local ==> (u.random.contains_key(other) == t.random.contains_key(other)) && (
            t.random.contains_key(other) ==> u.random[other] == t.random[other])
            &&& used && t.random[local].one_time ==> u.random.contains_key(local)
                && u.random[local].burned
            &&& t.random.contains_key(local) && !t.random[local].one_time ==> u.random == t.random
            &&& routed(g, sender, rcpt, now_ms, keys) is Err && routed(
                g,
                sender,
                rcpt,
                now_ms,
                keys,
            )->Err_0 != RouteError::Unmapped ==> u.random == t.random
        }),
{
}

/// An address comes apart into its local part and its domain, both in lower case, with or without
/// angle brackets; without a local part, a domain or an `@` it does not come apart.
pub proof fn law_address_comes_apart(local: Seq<char>, domain: Seq<char>)
    requires
        local.len() > 0 ==> !text::is_white(local[0]) && local[0] != '<',
        domain.len() > 0 ==> !text::is_white(domain.last()) && domain.last() != '>',
        !domain.contains('@'),
    ensures
        ({
            let a = local + seq!['@'] + domain;
            let expected = if local.len() > 0 && domain.len() > 0 {
                Some((text::lower(local), text::lower(domain)))
            } else {
                None
            };
            &&& split_parts(a) == expected
            &&& split_parts(seq!['<'] + a + seq!['>']) == expected
        }),
        domain.len() > 0 && !text::is_white(domain[0]) && domain[0] != '<' ==> split_parts(domain)
            is None,
{
    let a = local + seq!['@'] + domain;
    let b = seq!['<'] + a + seq!['>'];
    let open = |c: char| c == '<';
    let close = |c: char| c == '>';
    if local.len() > 0 {
        assert(a[0] == local[0]);
    } else {
        assert(a[0] == '@');
    }
    if domain.len() > 0 {
        assert(a.last() == domain.last());
    } else {
        assert(a.last() == '@');
    }
    text::lemma_nothing_to_trim(a);
    text::lemma_nothing_to_trim(b);
    text::lemma_rsplit_of_joined(local, '@', domain);
    assert(text::strip_front(a, open) == a);
    assert(text::strip_back(a, close) == a);
    assert(b.skip(1) =~= a.push('>'));
    assert(a.push('>')[0] == a[0]);
    assert(text::strip_front(b.skip(1), open) == b.skip(1));
    assert(text::strip_front(b, open) == a.push('>'));
    assert(a.push('>').drop_last() =~= a);
    assert(text::strip_back(a.push('>'), close) == a);
    if domain.len() > 0 && !text::is_white(domain[0]) && domain[0] != '<' {
        text::lemma_nothing_to_trim(domain);
        assert(text::strip_front(domain, open) == domain);
        assert(text::strip_back(domain, close) == domain);
        text::law_cut_at_the_first(domain, '@', domain);
    }
}

/// A user is named with the domain or without it; so is a random alias.
pub proof fn law_user_with_or_without_domain(local: Seq<char>, domain: Seq<char>)
    requires
        local.len() > 0 && !text::is_white(local[0]) && !text::is_white(local.last()),
        !local.contains('@'),
        domain.len() > 0 && !text::is_white(domain.last()),
        !domain.contains('@'),
    ensures
        local_part(local) == local,
        local_part(local + seq!['@'] + domain) == local,
        bare_token(local) == local,
        bare_token(local + seq!['@'] + domain) == local,
{
    let a = local + seq!['@'] + domain;
    assert(a[0] == local[0] && a.last() == domain.last());
    text::lemma_nothing_to_trim(a);
    text::lemma_nothing_to_trim(local);
    text::lemma_rsplit_of_joined(local, '@', domain);
    text::law_cut_at_the_first(local, '@', domain);
}

/// A domain that is added is served, under its name in lower case, with the given key, the quota of new
/// domains, and nothing else in it; the other domains stay. It is refused exactly if it is no domain
/// or served already.
pub proof fn law_what_a_new_domain_has(
    g: GatewayModel,
    domain: Seq<char>,
    seed: Seq<u8>,
    selector: Seq<char>,
    other: Seq<char>,
)
    ensures
        ({
            let d = text::lower(text::trim(domain));
            let a = with_domain(g, domain, seed, selector);
            let t = a.tenants[d];
            &&& a.tenants.contains_key(d)
            &&& t.domain == d && t.dkim.domain == d && t.dkim.seed == seed && t.aliases.domain == d
            &&& text::trim(selector).len() > 0 ==> t.dkim.selector == text::trim(selector)
            &&& text::trim(selector).len() == 0 ==> t.dkim.selector == "gw1"@
            &&& t.quota == g.default_quota && t.ledger.limits.contains_key(d) && t.ledger.limits[d]
                == g.default_quota
            &&& t.ledger.usage == Map::<Seq<char>, Usage>::empty()
            &&& t.directory == Map::<Seq<char>, directory::RecipientModel>::empty()
            &&& t.random == Map::<Seq<char>, alias_map::RowModel>::empty()
            &&& t.aliases.holder == Map::<Seq<char>, Seq<u8>>::empty()
            &&& t.blocked_senders == Set::<Seq<char>>::empty() && t.suspended_users == Set::<
                Seq<char>,
            >::empty()
            &&& other != d ==> a.tenants.contains_key(other) == g.tenants.contains_key(other)
            &&& other != d && g.tenants.contains_key(other) ==> a.tenants[other] == g.tenants[other]
            &&& a.global_blocked == g.global_blocked && a.default_quota == g.default_quota
            &&& add_refusal(g, domain) is None <==> names::valid_domain(d) && !g.tenants.contains_key(
                d,
            )
            &&& !names::valid_domain(d) ==> add_refusal(g, domain) == Some(
                MultiDomainErrorModel::InvalidDomain(domain),
            )
            &&& names::valid_domain(d) && g.tenants.contains_key(d) ==> add_refusal(g, domain) == Some(
                MultiDomainErrorModel::DomainExists(d),
            )
        }),
{
}

/// A recipient that is added is found under its address, its local part is kept for it, and nothing
/// else changes; one that is removed is not found, and nothing else changes.
pub proof fn law_what_a_recipient_changes(
    t: TenantModel,
    local: Seq<char>,
    domain: Seq<char>,
    key: directory::RecipientModel,
    other: Seq<char>,
)
    ensures
        ({
            let addr = text::lower(text::trim(local + "@"@ + text::lower(text::trim(domain))));
            let a = with_recipient(t, local, domain, key);
            let r = without_recipient(t, local, domain);
            &&& a.directory.contains_key(addr) && a.directory[addr] == key
            &&& !r.directory.contains_key(addr)
            &&& other != addr ==> a.directory.contains_key(other) == t.directory.contains_key(other)
                && r.directory.contains_key(other) == t.directory.contains_key(other)
            &&& other != addr && t.directory.contains_key(other) ==> a.directory[other]
                == t.directory[other] && r.directory[other] == t.directory[other]
            &&& a.aliases.reserved.contains(text::lower(text::trim(local)))
            &&& a == (TenantModel { directory: a.directory, aliases: a.aliases, ..t })
            &&& r == (TenantModel { directory: r.directory, ..t })
        }),
{
}

/// A relay is charged to the domain by its quota, and to no domain that is not served. Setting a quota
/// changes what may be charged from then on and nothing of what has been used.
pub proof fn law_relays_are_charged_to_the_domain(
    g: GatewayModel,
    domain: Seq<char>,
    bytes: u64,
    t: TenantModel,
    q: Quota,
)
    ensures
        ({
            let d = text::lower(text::trim(domain));
            let u = g.tenants[d];
            &&& !g.tenants.contains_key(d) ==> charged(g, domain, bytes) == Err::<
                Usage,
                ChargeErrorModel,
            >(ChargeErrorModel::NoSuchDomain(domain))
            &&& g.tenants.contains_key(d) ==> (match quota::charge(u.ledger, u.domain, bytes) {
                Ok(x) => charged(g, domain, bytes) == Ok::<Usage, ChargeErrorModel>(x),
                Err(e) => charged(g, domain, bytes) == Err::<Usage, ChargeErrorModel>(
                    ChargeErrorModel::Quota(e),
                ),
            })
        }),
        with_quota(t, q).quota == q,
        with_quota(t, q).ledger.limits.contains_key(t.domain),
        with_quota(t, q).ledger.limits[t.domain] == q,
        with_quota(t, q).ledger.usage == t.ledger.usage,
        with_quota(t, q) == (TenantModel {
            quota: q,
            ledger: with_quota(t, q).ledger,
            ..t
        }),
{
}

/// One more relay counts once in its direction and once in all, and nowhere else.
pub proof fn law_relays_are_counted(u: DomainUsage)
    requires
        u.inbound < u64::MAX,
        u.outbound < u64::MAX,
        u.messages < u64::MAX,
    ensures
        ({
            let i = one_more(u, BridgeDirection::Inbound);
            let o = one_more(u, BridgeDirection::Outbound);
            &&& i.inbound == u.inbound + 1 && i.outbound == u.outbound && i.messages == u.messages + 1
            &&& o.inbound == u.inbound && o.outbound == u.outbound + 1 && o.messages == u.messages + 1
        }),
        no_relays().inbound == 0 && no_relays().outbound == 0 && no_relays().messages == 0,
{
}

/// What is done to one domain is done to the one that is named, in any case, if it is served; else
/// nothing is done and that is said.
pub proof fn law_operations_are_on_the_named_domain(
    g: GatewayModel,
    domain: Seq<char>,
    f: spec_fn(TenantModel) -> TenantModel,
    ok: bool,
)
    ensures
        ({
            let d = text::lower(text::trim(domain));
            let a = updated(g, domain, f);
            &&& g.tenants.contains_key(d) ==> a.tenants.contains_key(d) && a.tenants[d] == f(
                g.tenants[d],
            )
            &&& g.tenants.contains_key(d) ==> on_tenant(g, domain, ok) == Ok::<
                bool,
                MultiDomainErrorModel,
            >(ok)
            &&& !g.tenants.contains_key(d) ==> a == g && on_tenant(g, domain, ok) == Err::<
                bool,
                MultiDomainErrorModel,
            >(MultiDomainErrorModel::NoSuchDomain(d))
            &&& !without_domain(g, domain).tenants.contains_key(d)
        }),
{
}

/// A relay is counted for its domain, in lower case, in its direction and in all; a domain that had
/// none yet begins at nothing, and no other domain changes.
pub proof fn law_relay_is_counted_for_its_domain(
    before: UsageMeter,
    event: provenance::MeterEventModel,
    after: UsageMeter,
    u: DomainUsage,
    other: Seq<char>,
)
    requires
        UsageMeter::records(before, event, after),
        before@.contains_key(text::lower(event.domain)) ==> u == before@[text::lower(event.domain)],
        !before@.contains_key(text::lower(event.domain)) ==> u.inbound == 0 && u.outbound == 0
            && u.messages == 0,
        u.inbound < u64::MAX && u.outbound < u64::MAX && u.messages < u64::MAX,
    ensures
        ({
            let d = text::lower(event.domain);
            let v = after@[d];
            &&& after@.contains_key(d) && v.messages == u.messages + 1
            &&& event.direction == BridgeDirection::Inbound ==> v.inbound == u.inbound + 1 && v.outbound
                == u.outbound
            &&& event.direction == BridgeDirection::Outbound ==> v.inbound == u.inbound && v.outbound
                == u.outbound + 1
            &&& other != d ==> after@.contains_key(other) == before@.contains_key(other)
            &&& other != d && before@.contains_key(other) ==> after@[other] == before@[other]
        }),
        usage_of(after@, other) == (if after@.contains_key(other) {
            after@[other]
        } else {
            DomainUsage { inbound: 0, outbound: 0, messages: 0 }
        }),
{
}

/// A snapshot lists each domain of the meter once, in order, with what was counted for it.
pub proof fn law_snapshot_is_the_meter(
    v: Seq<(String, DomainUsage)>,
    m: Map<Seq<char>, DomainUsage>,
    i: int,
)
    requires
        is_snapshot(v, m),
        0 <= i < v.len(),
    ensures
        v[i].1 == m[v[i].0@],
        sorting::lists_in_order(v.map_values(|x: (String, DomainUsage)| x.0@), m.dom()),
{
    assert(Seq::new(v.len(), |j: int| v[j].0@) =~= v.map_values(|x: (String, DomainUsage)| x.0@));
}

} // verus!
