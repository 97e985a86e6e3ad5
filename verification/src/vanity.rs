//! Names on the gateway's own domain: the name that every key has by derivation, and the one that it
//! may have by choice.
//!
//! A chosen name is held by one key and a key holds at most one. It is free of dots, keeps out of
//! the namespace of derived names, and never stands for one of the operator's own accounts.

use crate::authz;
use crate::base32;
use crate::identity;
use crate::model;
use crate::names;
use crate::seqmap;
use crate::seqmap::{SeqMap, SeqSet};
use crate::text;
use vstd::prelude::*;
use vstd::slice::slice_to_vec;

verus! {

/// The prefix of the human-facing spelling of derived names; no chosen name begins with it.
pub const RESERVED_ALIAS_PREFIX: &'static str = "dmtap1-";

/// The longest chosen name, in octets.
pub const MAX_VANITY_LEN: usize = 64;

/// Why a name was not allocated. Each variant names the offending input.
#[derive(Debug, Clone, PartialEq, Eq)]
pub enum AliasError {
    /// Empty, too long, or with a character other than letters, digits and `- _ +`.
    InvalidLocalPart(String),
    /// With a dot: dotted names are for forwarded addresses.
    ContainsDot(String),
    /// Held by another key.
    Taken(String),
    /// In the namespace of derived names.
    ReservedCollision(String),
    /// The name of one of the operator's own accounts.
    ShadowsDirectoryIdentity(String),
    /// The gateway's domain is not a domain by its syntax.
    InvalidGatewayDomain(String),
}

/// [`AliasError`] with its texts as sequences.
pub enum AliasErrorModel {
    InvalidLocalPart(Seq<char>),
    ContainsDot(Seq<char>),
    Taken(Seq<char>),
    ReservedCollision(Seq<char>),
    ShadowsDirectoryIdentity(Seq<char>),
    InvalidGatewayDomain(Seq<char>),
}

impl View for AliasError {
    type V = AliasErrorModel;

    open spec fn view(&self) -> AliasErrorModel {
        match *self {
            AliasError::InvalidLocalPart(s) => AliasErrorModel::InvalidLocalPart(s@),
            AliasError::ContainsDot(s) => AliasErrorModel::ContainsDot(s@),
            AliasError::Taken(s) => AliasErrorModel::Taken(s@),
            AliasError::ReservedCollision(s) => AliasErrorModel::ReservedCollision(s@),
            AliasError::ShadowsDirectoryIdentity(s) => AliasErrorModel::ShadowsDirectoryIdentity(s@),
            AliasError::InvalidGatewayDomain(s) => AliasErrorModel::InvalidGatewayDomain(s@),
        }
    }
}

/// What is said of a refused name.
pub open spec fn refusal_text(e: AliasErrorModel) -> Seq<char> {
    match e {
        AliasErrorModel::InvalidLocalPart(s) => "vanity local-part "@ + text::quoted(s)
            + " is empty, over-length, or contains a disallowed character"@,
        AliasErrorModel::ContainsDot(s) => "vanity local-part "@ + text::quoted(s)
            + " contains a '.' — dotted local-parts are reserved for forwarded addresses"@,
        AliasErrorModel::Taken(s) => "vanity local-part "@ + text::quoted(s)
            + " is already taken by another identity on this gateway"@,
        AliasErrorModel::ReservedCollision(s) => "vanity local-part "@ + text::quoted(s)
            + " collides with the reserved auto-derived (key-derived) namespace"@,
        AliasErrorModel::ShadowsDirectoryIdentity(s) => "vanity local-part "@ + text::quoted(s)
            + " would shadow an existing directory identity on this gateway"@,
        AliasErrorModel::InvalidGatewayDomain(s) => "gateway domain "@ + text::quoted(s)
            + " is not a valid DNS domain"@,
    }
}

impl AliasError {
    /// What is said of the refusal.
    pub fn message(&self) -> (r: String)
        ensures
            r@ == refusal_text(self@),
    {
        match self {
            AliasError::InvalidLocalPart(s) => text::concat3(
                "vanity local-part ",
                text::quote(s.as_str()).as_str(),
                " is empty, over-length, or contains a disallowed character",
            ),
            AliasError::ContainsDot(s) => text::concat3(
                "vanity local-part ",
                text::quote(s.as_str()).as_str(),
                " contains a '.' — dotted local-parts are reserved for forwarded addresses",
            ),
            AliasError::Taken(s) => text::concat3(
                "vanity local-part ",
                text::quote(s.as_str()).as_str(),
                " is already taken by another identity on this gateway",
            ),
            AliasError::ReservedCollision(s) => text::concat3(
                "vanity local-part ",
                text::quote(s.as_str()).as_str(),
                " collides with the reserved auto-derived (key-derived) namespace",
            ),
            AliasError::ShadowsDirectoryIdentity(s) => text::concat3(
                "vanity local-part ",
                text::quote(s.as_str()).as_str(),
                " would shadow an existing directory identity on this gateway",
            ),
            AliasError::InvalidGatewayDomain(s) => text::concat3(
                "gateway domain ",
                text::quote(s.as_str()).as_str(),
                " is not a valid DNS domain",
            ),
        }
    }
}

/// The name that a key has by derivation: `k`, then its fingerprint.
pub open spec fn derived_name(public_key: Seq<u8>) -> Seq<char> {
    "k"@ + authz::fingerprint_of(public_key)
}

/// The name that a key has by derivation.
pub fn key_derived_localpart(public_key: &[u8]) -> (r: String)
    ensures
        r@ == derived_name(public_key@),
        key_derived_form(r@),
{
    let f = authz::key_fingerprint(public_key);
    let r = text::concat2("k", f.as_str());
    proof {
        reveal_strlit("k");
        assert(r@[0] == 'k');
        assert(r@.skip(1) =~= f@);
        assert forall|i: int| 1 <= i < r@.len() implies base32::is_base32(#[trigger] r@[i]) by {
            assert(r@[i] == f@[i - 1]);
        }
    }
    r
}

/// The shape of derived names: `k`, then 16 characters of base32.
pub open spec fn key_derived_form(s: Seq<char>) -> bool {
    &&& s.len() == 17
    &&& s[0] == 'k'
    &&& forall|i: int| 1 <= i < s.len() ==> base32::is_base32(#[trigger] s[i])
}

/// A character that a chosen name may hold.
pub open spec fn is_vanity_char(c: char) -> bool {
    text::is_alnum(c) || c == '-' || c == '_' || c == '+'
}

/// The characters and the length of chosen names.
pub open spec fn vanity_charset(s: Seq<char>) -> bool {
    &&& 1 <= s.len() <= MAX_VANITY_LEN
    &&& forall|i: int| 0 <= i < s.len() ==> is_vanity_char(#[trigger] s[i])
}

/// Whether a name is in the namespace of derived names.
pub open spec fn in_derived_namespace(s: Seq<char>) -> bool {
    RESERVED_ALIAS_PREFIX@.is_prefix_of(s) || key_derived_form(s)
}

fn has_key_derived_form(s: &[char]) -> (r: bool)
    ensures
        r == key_derived_form(s@),
{
    let n: usize = s.len();
    if n != 17 || s[0] != 'k' {
        return false;
    }
    let mut i: usize = 1;
    while i < n
        invariant
            n == s@.len(),
            1 <= i <= n,
            forall|j: int| 1 <= j < i ==> base32::is_base32(#[trigger] s@[j]),
        decreases n - i,
    {
        let c: char = s[i];
        if !(('a' <= c && c <= 'z') || ('2' <= c && c <= '7')) {
            assert(!base32::is_base32(s@[i as int]));
            return false;
        }
        i += 1;
    }
    true
}

/// Whether a name has the shape of derived names.
pub fn is_key_derived_form(lp: &str) -> (r: bool)
    ensures
        r == key_derived_form(lp@),
{
    let c = text::chars_of(lp);
    has_key_derived_form(c.as_slice())
}

/// Whether a name has the characters and the length of a chosen name.
pub fn is_valid_vanity_charset(lp: &str) -> (r: bool)
    ensures
        r == vanity_charset(lp@),
{
    let c = text::chars_of(lp);
    is_vanity_charset(c.as_slice())
}

fn is_vanity_charset(s: &[char]) -> (r: bool)
    ensures
        r == vanity_charset(s@),
{
    let n: usize = s.len();
    if n < 1 || n > MAX_VANITY_LEN {
        return false;
    }
    let mut i: usize = 0;
    while i < n
        invariant
            n == s@.len(),
            i <= n,
            forall|j: int| 0 <= j < i ==> is_vanity_char(#[trigger] s@[j]),
        decreases n - i,
    {
        let c: char = s[i];
        if !(('A' <= c && c <= 'Z') || ('a' <= c && c <= 'z') || ('0' <= c && c <= '9') || c == '-'
            || c == '_' || c == '+') {
            assert(!is_vanity_char(s@[i as int]));
            return false;
        }
        i += 1;
    }
    true
}

/// The state of an allocator: its domain, who holds each chosen name, which name each key holds,
/// and the names of the operator's own accounts.
pub struct AllocatorModel {
    pub domain: Seq<char>,
    pub holder: Map<Seq<char>, Seq<u8>>,
    pub name: Map<Seq<u8>, Seq<char>>,
    pub reserved: Set<Seq<char>>,
}

/// What holds of every allocator: its domain is one in lower case, names and holders correspond one
/// to one, and each chosen name is one in lower case that may be chosen.
pub open spec fn consistent(m: AllocatorModel) -> bool {
    &&& names::valid_domain(m.domain)
    &&& text::lower(m.domain) == m.domain
    &&& forall|lp: Seq<char>| #[trigger]
        m.holder.contains_key(lp) ==> m.name.contains_key(m.holder[lp]) && m.name[m.holder[lp]]
            == lp
    &&& forall|k: Seq<u8>| #[trigger]
        m.name.contains_key(k) ==> m.holder.contains_key(m.name[k]) && m.holder[m.name[k]] == k
    &&& forall|lp: Seq<char>| #[trigger]
        m.holder.contains_key(lp) ==> may_be_chosen(m, lp) && text::lower(lp) == lp
}

/// Whether a name in lower case may be chosen at all.
pub open spec fn may_be_chosen(m: AllocatorModel, lp: Seq<char>) -> bool {
    &&& vanity_charset(lp)
    &&& !in_derived_namespace(lp)
    &&& !m.reserved.contains(lp)
}

/// A name on the allocator's domain.
pub open spec fn qualified(m: AllocatorModel, lp: Seq<char>) -> Seq<char> {
    lp + "@"@ + m.domain
}

/// The qualified name that a key presents: the chosen one, or else the derived one.
pub open spec fn presented(m: AllocatorModel, key: Seq<u8>) -> Seq<char> {
    qualified(
        m,
        if m.name.contains_key(key) {
            m.name[key]
        } else {
            derived_name(key)
        },
    )
}

/// The rules on the name alone: the name in lower case, or the first rule that it breaks.
pub open spec fn checked_name(m: AllocatorModel, local_part: Seq<char>) -> Result<
    Seq<char>,
    AliasErrorModel,
> {
    let lp = text::lower(local_part);
    if local_part.contains('.') {
        Err(AliasErrorModel::ContainsDot(local_part))
    } else if !vanity_charset(lp) {
        Err(AliasErrorModel::InvalidLocalPart(local_part))
    } else if in_derived_namespace(lp) {
        Err(AliasErrorModel::ReservedCollision(local_part))
    } else if m.reserved.contains(lp) {
        Err(AliasErrorModel::ShadowsDirectoryIdentity(local_part))
    } else {
        Ok(lp)
    }
}

/// The outcome of asking for a name: the qualified name, or why it is refused.
pub open spec fn allocation(m: AllocatorModel, key: Seq<u8>, local_part: Seq<char>) -> Result<
    Seq<char>,
    AliasErrorModel,
> {
    match checked_name(m, local_part) {
        Err(e) => Err(e),
        Ok(lp) => if m.holder.contains_key(lp) && m.holder[lp] != key {
            Err(AliasErrorModel::Taken(local_part))
        } else {
            Ok(qualified(m, lp))
        },
    }
}

/// The allocator without the name that a key holds.
pub open spec fn after_release(m: AllocatorModel, key: Seq<u8>) -> AllocatorModel {
    if m.name.contains_key(key) {
        AllocatorModel { holder: m.holder.remove(m.name[key]), name: m.name.remove(key), ..m }
    } else {
        m
    }
}

/// The allocator after a key asked for a name: the name is its own, and its earlier one is free.
pub open spec fn after_allocation(m: AllocatorModel, key: Seq<u8>, local_part: Seq<char>) ->
    AllocatorModel {
    let lp = text::lower(local_part);
    if allocation(m, key, local_part) is Err || m.holder.contains_key(lp) {
        m
    } else {
        let r = after_release(m, key);
        AllocatorModel { holder: r.holder.insert(lp, key), name: r.name.insert(key, lp), ..r }
    }
}

/// The allocator after a name was taken for one of the operator's own accounts.
pub open spec fn after_reserve(m: AllocatorModel, local_part: Seq<char>) -> AllocatorModel {
    let lp = text::lower(text::trim(local_part));
    let r = if m.holder.contains_key(lp) {
        after_release(m, m.holder[lp])
    } else {
        m
    };
    AllocatorModel { reserved: r.reserved.insert(lp), ..r }
}

/// The local part of an address on the allocator's domain.
pub open spec fn directory_part(m: AllocatorModel, email: Seq<char>) -> Option<Seq<char>> {
    match text::rsplit_once(email, '@') {
        Some((lp, dom)) => if text::lower(text::trim(dom)) == text::lower(m.domain) {
            Some(lp)
        } else {
            None
        },
        None => None,
    }
}

/// The first of the keys whose derived name is `lp`.
pub open spec fn first_derived(keys: Seq<Seq<u8>>, lp: Seq<char>) -> Option<Seq<u8>>
    decreases keys.len(),
{
    if keys.len() == 0 {
        None
    } else if derived_name(keys[0]) == lp {
        Some(keys[0])
    } else {
        first_derived(keys.skip(1), lp)
    }
}

/// The key that an address stands for.
pub open spec fn resolution(m: AllocatorModel, address: Seq<char>, keys: Seq<Seq<u8>>) -> Option<
    Seq<u8>,
> {
    match text::rsplit_once(text::lower(text::trim(address)), '@') {
        None => None,
        Some((lp, dom)) => if dom != m.domain {
            None
        } else if m.holder.contains_key(lp) {
            Some(m.holder[lp])
        } else {
            first_derived(keys, lp)
        },
    }
}

struct Names {
    holder: SeqMap<char, Vec<u8>>,
    name: SeqMap<u8, Vec<char>>,
    reserved: SeqSet<char>,
}

/// Allocates chosen names on one domain.
pub struct AliasAllocator {
    domain: String,
    names: Names,
}

spec fn model_of(domain: Seq<char>, names: Names) -> AllocatorModel {
    AllocatorModel {
        domain,
        holder: names.holder@,
        name: names.name@,
        reserved: names.reserved@,
    }
}

impl View for AliasAllocator {
    type V = AllocatorModel;

    closed spec fn view(&self) -> AllocatorModel {
        model_of(self.domain@, self.names)
    }
}

/// The views of a vector of keys.
pub open spec fn key_views(v: Seq<Vec<u8>>) -> Seq<Seq<u8>> {
    Seq::new(v.len(), |i: int| v[i]@)
}

impl Names {
    fn empty() -> (r: Names)
        ensures
            model_of(Seq::empty(), r) == (AllocatorModel {
                domain: Seq::empty(),
                holder: Map::empty(),
                name: Map::empty(),
                reserved: Set::empty(),
            }),
    {
        Names { holder: SeqMap::new(), name: SeqMap::new(), reserved: SeqSet::new() }
    }

    fn release(&mut self, public_key: &[u8], Ghost(domain): Ghost<Seq<char>>) -> (r: Option<
        Vec<char>,
    >)
        requires
            consistent(model_of(domain, *old(self))),
        ensures
            model_of(domain, *final(self)) == after_release(
                model_of(domain, *old(self)),
                public_key@,
            ),
            match r {
                Some(lp) => old(self).name@.contains_key(public_key@) && lp@ == old(
                    self,
                ).name@[public_key@],
                None => !old(self).name@.contains_key(public_key@),
            },
    {
        match self.name.remove(public_key) {
            Some(lp) => {
                let _ = self.holder.remove(lp.as_slice());
                Some(lp)
            },
            None => {
                assert(self.name@ =~= old(self).name@);
                None
            },
        }
    }
}

impl AliasAllocator {
    #[verifier::type_invariant]
    spec fn inv(self) -> bool {
        consistent(self@)
    }

    /// An allocator for the gateway's own domain.
    pub fn for_domain(domain: &str) -> (r: Result<Self, AliasError>)
        ensures
            ({
                let d = text::lower(text::trim(domain@));
                model::res_view(r) == (if names::valid_domain(d) {
                    Ok(
                        AllocatorModel {
                            domain: d,
                            holder: Map::empty(),
                            name: Map::empty(),
                            reserved: Set::empty(),
                        },
                    )
                } else {
                    Err(AliasErrorModel::InvalidGatewayDomain(domain@))
                })
            }),
    {
        let c = text::chars_of(domain);
        let d = text::to_lower(text::trimmed(c.as_slice()));
        if !names::is_valid_domain(d.as_slice()) {
            return Err(AliasError::InvalidGatewayDomain(text::string_from(domain)));
        }
        proof {
            text::lemma_lower_idempotent(text::trim(domain@));
        }
        Ok(AliasAllocator { domain: text::string_of(d.as_slice()), names: Names::empty() })
    }

    /// The domain of the allocator.
    pub fn domain(&self) -> (r: &str)
        ensures
            r@ == self@.domain,
    {
        self.domain.as_str()
    }

    /// Takes a name for one of the operator's own accounts. A key that chose it loses it.
    pub fn reserve_localpart(&mut self, local_part: &str)
        ensures
            final(self)@ == after_reserve(old(self)@, local_part@),
    {
        proof {
            use_type_invariant(&*self);
        }
        let c = text::chars_of(local_part);
        let lp = text::to_lower(text::trimmed(c.as_slice()));
        let ghost domain = self.domain@;
        let mut n = Names::empty();
        std::mem::swap(&mut n, &mut self.names);
        let key = match n.holder.get(lp.as_slice()) {
            Some(k) => Some(slice_to_vec(k.as_slice())),
            None => None,
        };
        if let Some(k) = key {
            let _ = n.release(k.as_slice(), Ghost(domain));
        }
        let _ = n.reserved.insert(lp.as_slice());
        proof {
            law_reserving_keeps_consistency(old(self)@, local_part@);
            assert(model_of(domain, n) == after_reserve(old(self)@, local_part@));
        }
        self.names = n;
    }

    /// Takes the name of an address for one of the operator's own accounts, if the address is on
    /// this domain; whether it is.
    pub fn reserve_directory_address(&mut self, email: &str) -> (r: bool)
        ensures
            match directory_part(old(self)@, email@) {
                Some(lp) => r && final(self)@ == after_reserve(old(self)@, lp),
                None => !r && final(self)@ == old(self)@,
            },
    {
        let c = text::chars_of(email);
        match text::cut_last(c.as_slice(), '@') {
            Some((lp, dom)) => {
                let d = text::chars_of(self.domain.as_str());
                if text::same_ignoring_case(text::trimmed(dom), d.as_slice()) {
                    let l = text::string_of(lp);
                    self.reserve_localpart(l.as_str());
                    true
                } else {
                    false
                }
            },
            None => false,
        }
    }

    fn qualify(&self, local_part: &[char]) -> (r: String)
        ensures
            r@ == qualified(self@, local_part@),
    {
        let l = text::string_of(local_part);
        text::concat3(l.as_str(), "@", self.domain.as_str())
    }

    fn check_vanity(&self, local_part: &str) -> (r: Result<Vec<char>, AliasError>)
        ensures
            model::res_view(r) == checked_name(self@, local_part@),
    {
        let c = text::chars_of(local_part);
        if text::has_char(c.as_slice(), '.') {
            return Err(AliasError::ContainsDot(text::string_from(local_part)));
        }
        let lp = text::to_lower(c.as_slice());
        if !is_vanity_charset(lp.as_slice()) {
            return Err(AliasError::InvalidLocalPart(text::string_from(local_part)));
        }
        let prefix = text::chars_of(RESERVED_ALIAS_PREFIX);
        if text::has_prefix(lp.as_slice(), prefix.as_slice()) || has_key_derived_form(
            lp.as_slice(),
        ) {
            return Err(AliasError::ReservedCollision(text::string_from(local_part)));
        }
        if self.names.reserved.contains(lp.as_slice()) {
            return Err(AliasError::ShadowsDirectoryIdentity(text::string_from(local_part)));
        }
        Ok(lp)
    }

    /// Allocates a chosen name to a key, and gives back the qualified name. A name that another key
    /// holds is refused. A key that held another name gives it up.
    pub fn allocate_vanity(&mut self, public_key: &[u8], local_part: &str) -> (r: Result<
        String,
        AliasError,
    >)
        ensures
            model::res_view(r) == allocation(old(self)@, public_key@, local_part@),
            final(self)@ == after_allocation(old(self)@, public_key@, local_part@),
    {
        proof {
            use_type_invariant(&*self);
        }
        let lp = match self.check_vanity(local_part) {
            Ok(lp) => lp,
            Err(e) => {
                return Err(e);
            },
        };
        match self.names.holder.get(lp.as_slice()) {
            Some(existing) => {
                if seqmap::same_bytes(existing.as_slice(), public_key) {
                    return Ok(self.qualify(lp.as_slice()));
                }
                return Err(AliasError::Taken(text::string_from(local_part)));
            },
            None => {},
        }
        let full = self.qualify(lp.as_slice());
        let ghost domain = self.domain@;
        let mut n = Names::empty();
        std::mem::swap(&mut n, &mut self.names);
        let _ = n.release(public_key, Ghost(domain));
        let _ = n.holder.insert(lp.as_slice(), slice_to_vec(public_key));
        let _ = n.name.insert(public_key, lp);
        proof {
            law_allocating_keeps_consistency(old(self)@, public_key@, local_part@);
            assert(model_of(domain, n) == after_allocation(old(self)@, public_key@, local_part@));
        }
        self.names = n;
        Ok(full)
    }

    /// Frees the name that a key holds, and gives back the qualified name.
    pub fn release_vanity(&mut self, public_key: &[u8]) -> (r: Option<String>)
        ensures
            model::opt_view(r) == (if old(self)@.name.contains_key(public_key@) {
                Some(qualified(old(self)@, old(self)@.name[public_key@]))
            } else {
                None
            }),
            final(self)@ == after_release(old(self)@, public_key@),
    {
        proof {
            use_type_invariant(&*self);
        }
        let ghost domain = self.domain@;
        let mut n = Names::empty();
        std::mem::swap(&mut n, &mut self.names);
        let freed = n.release(public_key, Ghost(domain));
        proof {
            law_releasing_keeps_consistency(old(self)@, public_key@);
        }
        self.names = n;
        match freed {
            Some(lp) => Some(self.qualify(lp.as_slice())),
            None => None,
        }
    }

    /// The qualified name to present for a key: the chosen one, or else the derived one.
    pub fn alias_for(&self, public_key: &[u8]) -> (r: String)
        ensures
            r@ == presented(self@, public_key@),
    {
        match self.names.name.get(public_key) {
            Some(lp) => self.qualify(lp.as_slice()),
            None => {
                let d = key_derived_localpart(public_key);
                let lp = text::chars_of(d.as_str());
                self.qualify(lp.as_slice())
            },
        }
    }

    /// The key that a qualified name on this domain stands for, by choice or by derivation.
    pub fn resolve(&self, address: &str, registered_keys: &[Vec<u8>]) -> (r: Option<Vec<u8>>)
        ensures
            model::opt_view(r) == resolution(self@, address@, key_views(registered_keys@)),
    {
        let c = text::chars_of(address);
        let addr = text::to_lower(text::trimmed(c.as_slice()));
        let (lp, dom) = match text::cut_last(addr.as_slice(), '@') {
            Some(p) => p,
            None => {
                return None;
            },
        };
        let d = text::chars_of(self.domain.as_str());
        if !text::same(dom, d.as_slice()) {
            return None;
        }
        if let Some(k) = self.names.holder.get(lp) {
            return Some(slice_to_vec(k.as_slice()));
        }
        let ghost keys = key_views(registered_keys@);
        let n: usize = registered_keys.len();
        let mut i: usize = 0;
        assert(keys.skip(0) =~= keys);
        while i < n
            invariant
                n == registered_keys@.len(),
                i <= n,
                keys == key_views(registered_keys@),
                resolution(self@, address@, keys) == first_derived(keys, lp@),
                first_derived(keys, lp@) == first_derived(keys.skip(i as int), lp@),
            decreases n - i,
        {
            let k = &registered_keys[i];
            assert(keys.skip(i as int)[0] == k@);
            assert(keys.skip(i as int).skip(1) =~= keys.skip(i + 1));
            let name = key_derived_localpart(k.as_slice());
            let nc = text::chars_of(name.as_str());
            if text::same(nc.as_slice(), lp) {
                return Some(slice_to_vec(k.as_slice()));
            }
            i += 1;
        }
        None
    }
}

// ---- laws --------------------------------------------------------------------------------------

/// Releasing a name keeps the allocator consistent.
pub proof fn law_releasing_keeps_consistency(m: AllocatorModel, key: Seq<u8>)
    requires
        consistent(m),
    ensures
        consistent(after_release(m, key)),
{
    let r = after_release(m, key);
    if m.name.contains_key(key) {
        assert forall|lp: Seq<char>| #[trigger] r.holder.contains_key(lp) implies r.name.contains_key(
            r.holder[lp],
        ) && r.name[r.holder[lp]] == lp && may_be_chosen(r, lp) && text::lower(lp) == lp by {
            assert(m.holder.contains_key(lp));
        }
        assert forall|k: Seq<u8>| #[trigger] r.name.contains_key(k) implies r.holder.contains_key(
            r.name[k],
        ) && r.holder[r.name[k]] == k by {
            assert(m.name.contains_key(k));
        }
    }
}

/// Allocating a name keeps the allocator consistent.
pub proof fn law_allocating_keeps_consistency(
    m: AllocatorModel,
    key: Seq<u8>,
    local_part: Seq<char>,
)
    requires
        consistent(m),
    ensures
        consistent(after_allocation(m, key, local_part)),
{
    let lp = text::lower(local_part);
    let a = after_allocation(m, key, local_part);
    let r = after_release(m, key);
    law_releasing_keeps_consistency(m, key);
    text::lemma_lower_idempotent(local_part);
    if allocation(m, key, local_part) is Ok && !m.holder.contains_key(lp) {
        assert(!r.holder.contains_key(lp));
        assert forall|x: Seq<char>| #[trigger] a.holder.contains_key(x) implies a.name.contains_key(
            a.holder[x],
        ) && a.name[a.holder[x]] == x && may_be_chosen(a, x) && text::lower(x) == x by {
            if x != lp {
                assert(r.holder.contains_key(x));
                assert(r.name.contains_key(r.holder[x]));
            }
        }
        assert forall|k: Seq<u8>| #[trigger] a.name.contains_key(k) implies a.holder.contains_key(
            a.name[k],
        ) && a.holder[a.name[k]] == k by {
            if k != key {
                assert(r.name.contains_key(k));
            }
        }
    }
}

/// Reserving a name keeps the allocator consistent: nobody keeps a chosen name that is reserved,
/// in whichever order the two happen.
pub proof fn law_reserving_keeps_consistency(m: AllocatorModel, local_part: Seq<char>)
    requires
        consistent(m),
    ensures
        consistent(after_reserve(m, local_part)),
        !after_reserve(m, local_part).holder.contains_key(text::lower(text::trim(local_part))),
{
    let lp = text::lower(text::trim(local_part));
    if m.holder.contains_key(lp) {
        law_releasing_keeps_consistency(m, m.holder[lp]);
        assert(m.name.contains_key(m.holder[lp]));
    }
}

/// A name that was allocated stands for the key, and the key presents it.
pub proof fn law_allocated_name_is_held(m: AllocatorModel, key: Seq<u8>, local_part: Seq<char>)
    requires
        consistent(m),
        allocation(m, key, local_part) is Ok,
    ensures
        ({
            let a = after_allocation(m, key, local_part);
            let lp = text::lower(local_part);
            &&& a.holder.contains_key(lp) && a.holder[lp] == key
            &&& a.name.contains_key(key) && a.name[key] == lp
        }),
{
}

/// Asking again for the name that a key holds gives the same answer and changes nothing.
pub proof fn law_allocation_is_idempotent(m: AllocatorModel, key: Seq<u8>, local_part: Seq<char>)
    requires
        consistent(m),
        allocation(m, key, local_part) is Ok,
    ensures
        ({
            let a = after_allocation(m, key, local_part);
            &&& allocation(a, key, local_part) == allocation(m, key, local_part)
            &&& after_allocation(a, key, local_part) == a
        }),
{
}

/// A name that one key holds is refused to every other.
pub proof fn law_first_come_first_served(
    m: AllocatorModel,
    key: Seq<u8>,
    other: Seq<u8>,
    local_part: Seq<char>,
)
    requires
        consistent(m),
        allocation(m, key, local_part) is Ok,
        key != other,
    ensures
        allocation(after_allocation(m, key, local_part), other, local_part) == Err::<
            Seq<char>,
            AliasErrorModel,
        >(AliasErrorModel::Taken(local_part)),
{
    law_allocated_name_is_held(m, key, local_part);
}

/// A name that was released may be allocated to another key.
pub proof fn law_released_name_is_free(
    m: AllocatorModel,
    key: Seq<u8>,
    other: Seq<u8>,
    local_part: Seq<char>,
)
    requires
        consistent(m),
        allocation(m, key, local_part) is Ok,
    ensures
        allocation(
            after_release(after_allocation(m, key, local_part), key),
            other,
            local_part,
        ) is Ok,
{
    law_allocated_name_is_held(m, key, local_part);
}

/// A name that is reserved is refused to everybody.
pub proof fn law_reserved_name_is_refused(
    m: AllocatorModel,
    key: Seq<u8>,
    reserved: Seq<char>,
    asked: Seq<char>,
)
    requires
        text::lower(asked) == text::lower(text::trim(reserved)),
    ensures
        allocation(after_reserve(m, reserved), key, asked) is Err,
{
}

/// No chosen name is the derived name of a key, so resolving a derived name never meets a choice.
pub proof fn law_chosen_names_are_not_derived(m: AllocatorModel, lp: Seq<char>)
    requires
        consistent(m),
        m.holder.contains_key(lp),
    ensures
        !key_derived_form(lp),
        !lp.contains('.'),
{
    if lp.contains('.') {
        let i = choose|i: int| 0 <= i < lp.len() && lp[i] == '.';
        assert(is_vanity_char(lp[i]));
    }
}

/// A name in lower case without white space at its front, qualified, comes apart into the name and
/// the domain.
proof fn lemma_qualified(m: AllocatorModel, lp: Seq<char>)
    requires
        names::valid_domain(m.domain),
        text::lower(m.domain) == m.domain,
        text::lower(lp) == lp,
        lp.len() > 0,
        !text::is_white(lp[0]),
    ensures
        text::rsplit_once(text::lower(text::trim(qualified(m, lp))), '@') == Some((lp, m.domain)),
{
    reveal_strlit("@");
    let q = qualified(m, lp);
    assert("@"@ =~= seq!['@']);
    names::lemma_domain_is_clean(m.domain);
    assert(q[0] == lp[0]);
    assert(q.last() == m.domain.last());
    text::lemma_nothing_to_trim(q);
    text::lemma_lower_of_joined(lp + "@"@, m.domain);
    text::lemma_lower_of_joined(lp, "@"@);
    assert(text::lower("@"@) =~= "@"@);
    text::lemma_rsplit_of_joined(lp, '@', m.domain);
}

/// The derived name of a key whose digest has its 32 octets has the shape of derived names.
proof fn lemma_derived_name(key: Seq<u8>)
    requires
        identity::content_digest(key).len() == 32,
    ensures
        key_derived_form(derived_name(key)),
        text::lower(derived_name(key)) == derived_name(key),
        !text::is_white(derived_name(key)[0]),
{
    reveal_strlit("k");
    let head = identity::content_digest(key).take(10);
    base32::law_alphabet_and_length(head);
    let f = authz::fingerprint_of(key);
    let d = derived_name(key);
    assert(d[0] == 'k');
    assert forall|i: int| 1 <= i < d.len() implies base32::is_base32(#[trigger] d[i]) by {
        assert(d[i] == f[i - 1]);
    }
    assert(text::lower(d) =~= d) by {
        assert forall|i: int| 0 <= i < d.len() implies text::lower(d)[i] == d[i] by {
            if i > 0 {
                assert(base32::is_base32(d[i]));
            }
        }
    }
}

proof fn lemma_first_derived(keys: Seq<Seq<u8>>, key: Seq<u8>)
    requires
        keys.contains(key),
        forall|k: Seq<u8>| #[trigger] keys.contains(k) && derived_name(k) == derived_name(key) ==> k == key,
    ensures
        first_derived(keys, derived_name(key)) == Some(key),
    decreases keys.len(),
{
    assert(keys.contains(keys[0]));
    if derived_name(keys[0]) != derived_name(key) {
        let rest = keys.skip(1);
        let i = choose|i: int| 0 <= i < keys.len() && keys[i] == key;
        assert(rest[i - 1] == key);
        assert forall|k: Seq<u8>| #[trigger] rest.contains(k) && derived_name(k) == derived_name(key)
            implies k == key by {
            let j = choose|j: int| 0 <= j < rest.len() && rest[j] == k;
            assert(keys[j + 1] == k);
            assert(keys.contains(k));
        }
        lemma_first_derived(rest, key);
    }
}

proof fn lemma_none_derived(keys: Seq<Seq<u8>>, lp: Seq<char>)
    requires
        !key_derived_form(lp),
        forall|k: Seq<u8>| #[trigger] keys.contains(k) ==> identity::content_digest(k).len() == 32,
    ensures
        first_derived(keys, lp) is None,
    decreases keys.len(),
{
    if keys.len() > 0 {
        assert(keys.contains(keys[0]));
        lemma_derived_name(keys[0]);
        let rest = keys.skip(1);
        assert forall|k: Seq<u8>| #[trigger] rest.contains(k) implies identity::content_digest(
            k,
        ).len() == 32 by {
            let j = choose|j: int| 0 <= j < rest.len() && rest[j] == k;
            assert(keys[j + 1] == k);
            assert(keys.contains(k));
        }
        lemma_none_derived(rest, lp);
    }
}

/// The name that a key presents stands for the key: always where it was chosen, and where it is
/// derived for every key that is registered and shares its fingerprint with no other.
pub proof fn law_presented_name_resolves(m: AllocatorModel, key: Seq<u8>, keys: Seq<Seq<u8>>)
    requires
        consistent(m),
        identity::content_digest(key).len() == 32,
        !m.name.contains_key(key) ==> keys.contains(key) && forall|k: Seq<u8>| #[trigger]
            keys.contains(k) && derived_name(k) == derived_name(key) ==> k == key,
    ensures
        resolution(m, presented(m, key), keys) == Some(key),
{
    if m.name.contains_key(key) {
        let lp = m.name[key];
        assert(m.holder.contains_key(lp));
        assert(is_vanity_char(lp[0]));
        lemma_qualified(m, lp);
    } else {
        let lp = derived_name(key);
        lemma_derived_name(key);
        lemma_qualified(m, lp);
        if m.holder.contains_key(lp) {
            law_chosen_names_are_not_derived(m, lp);
        }
        lemma_first_derived(keys, key);
    }
}

/// The address that an allocation gives stands for the key from then on, and for nobody once it is
/// released.
pub proof fn law_allocated_address_resolves(
    m: AllocatorModel,
    key: Seq<u8>,
    local_part: Seq<char>,
    keys: Seq<Seq<u8>>,
)
    requires
        consistent(m),
        allocation(m, key, local_part) is Ok,
        forall|k: Seq<u8>| #[trigger] keys.contains(k) ==> identity::content_digest(k).len() == 32,
    ensures
        ({
            let a = after_allocation(m, key, local_part);
            let address = allocation(m, key, local_part)->Ok_0;
            &&& resolution(a, address, keys) == Some(key)
            &&& resolution(after_release(a, key), address, keys) is None
        }),
{
    let lp = text::lower(local_part);
    let a = after_allocation(m, key, local_part);
    law_allocating_keeps_consistency(m, key, local_part);
    law_allocated_name_is_held(m, key, local_part);
    law_chosen_names_are_not_derived(a, lp);
    assert(is_vanity_char(lp[0]));
    lemma_qualified(a, lp);
    lemma_none_derived(keys, lp);
}

/// Whether a character may stand in a chosen name.
pub open spec fn fits_a_name(c: char) -> bool {
    let n = c as int;
    48 <= n <= 57 || 65 <= n <= 90 || 97 <= n <= 122 || c == '-' || c == '_' || c == '+'
}

/// A name is given to whoever asks for it exactly if it is 1 to 64 letters, digits and `- _ +`, is not
/// spelled like a derived name, is none of the operator's own and is held by nobody else. Each
/// refusal has its reason, a dot before everything else.
pub proof fn law_which_names_can_be_had(m: AllocatorModel, key: Seq<u8>, local_part: Seq<char>)
    ensures
        ({
            let lp = text::lower(local_part);
            let dotted = local_part.contains('.');
            let fits = 1 <= local_part.len() <= 64 && forall|i: int|
                0 <= i < local_part.len() ==> fits_a_name(#[trigger] local_part[i]);
            let derived = "dmtap1-"@.is_prefix_of(lp) || (lp.len() == 17 && lp[0] == 'k' && forall|
                i: int,
            |
                1 <= i < 17 ==> ('a' <= #[trigger] lp[i] && lp[i] <= 'z') || ('2' <= lp[i] && lp[i]
                    <= '7'));
            let own = m.reserved.contains(lp);
            let taken = m.holder.contains_key(lp) && m.holder[lp] != key;
            match allocation(m, key, local_part) {
                Ok(q) => !dotted && fits && !derived && !own && !taken && q == lp + "@"@ + m.domain,
                Err(AliasErrorModel::ContainsDot(s)) => s == local_part && dotted,
                Err(AliasErrorModel::InvalidLocalPart(s)) => s == local_part && !dotted && !fits,
                Err(AliasErrorModel::ReservedCollision(s)) => s == local_part && !dotted && fits
                    && derived,
                Err(AliasErrorModel::ShadowsDirectoryIdentity(s)) => s == local_part && !dotted
                    && fits && !derived && own,
                Err(AliasErrorModel::Taken(s)) => s == local_part && !dotted && fits && !derived
                    && !own && taken,
                Err(AliasErrorModel::InvalidGatewayDomain(_)) => false,
            }
        }),
{
    let lp = text::lower(local_part);
    assert(lp.len() == local_part.len());
    assert forall|i: int| 0 <= i < lp.len() implies (is_vanity_char(#[trigger] lp[i])
        <==> fits_a_name(local_part[i])) by {}
    if vanity_charset(lp) {
        assert forall|i: int| 0 <= i < local_part.len() implies fits_a_name(
            #[trigger] local_part[i],
        ) by {
            assert(is_vanity_char(lp[i]));
        }
    } else if 1 <= local_part.len() <= 64 {
        let i = choose|i: int| 0 <= i < lp.len() && !is_vanity_char(#[trigger] lp[i]);
        assert(!fits_a_name(local_part[i]));
    }
}

/// A name that is given to one key changes nothing for another, and frees the one that the key held
/// before; a name that is given back changes nothing for another either.
pub proof fn law_names_of_others_stay(
    m: AllocatorModel,
    key: Seq<u8>,
    local_part: Seq<char>,
    other: Seq<u8>,
)
    requires
        consistent(m),
        other != key,
        allocation(m, key, local_part) is Ok,
    ensures
        ({
            let a = after_allocation(m, key, local_part);
            let r = after_release(m, key);
            let lp = text::lower(local_part);
            &&& a.name.contains_key(other) == m.name.contains_key(other)
            &&& m.name.contains_key(other) ==> a.name[other] == m.name[other]
                && a.holder.contains_key(m.name[other]) && a.holder[m.name[other]] == other
            &&& r.name.contains_key(other) == m.name.contains_key(other)
            &&& m.name.contains_key(other) ==> r.name[other] == m.name[other]
                && r.holder.contains_key(m.name[other]) && r.holder[m.name[other]] == other
            &&& !r.name.contains_key(key)
            &&& m.name.contains_key(key) ==> !r.holder.contains_key(m.name[key])
            &&& m.name.contains_key(key) && m.name[key] != lp ==> !a.holder.contains_key(m.name[key])
            &&& a.reserved == m.reserved && r.reserved == m.reserved
            &&& a.domain == m.domain && r.domain == m.domain
        }),
{
    if m.name.contains_key(other) {
        assert(m.holder.contains_key(m.name[other]));
    }
    if m.name.contains_key(key) {
        assert(m.holder.contains_key(m.name[key]));
    }
}

/// Reserving a name for the operator takes it from whoever holds it and changes nothing else.
pub proof fn law_reserving_takes_one_name(m: AllocatorModel, local_part: Seq<char>, lp: Seq<char>)
    requires
        consistent(m),
        lp != text::lower(text::trim(local_part)),
    ensures
        ({
            let r = after_reserve(m, local_part);
            &&& r.reserved.contains(text::lower(text::trim(local_part)))
            &&& r.reserved.contains(lp) == m.reserved.contains(lp)
            &&& r.holder.contains_key(lp) == m.holder.contains_key(lp)
            &&& m.holder.contains_key(lp) ==> r.holder[lp] == m.holder[lp]
                && r.name.contains_key(m.holder[lp]) && r.name[m.holder[lp]] == lp
            &&& r.domain == m.domain
        }),
{
    let own = text::lower(text::trim(local_part));
    if m.holder.contains_key(own) {
        assert(m.name.contains_key(m.holder[own]));
    }
    if m.holder.contains_key(lp) {
        assert(m.name.contains_key(m.holder[lp]));
    }
}

/// An address stands for a key only on the allocator's own domain: for the holder of the name, or
/// else for a key that the name is derived from. It stands for nobody where there is neither.
pub proof fn law_what_an_address_stands_for(
    m: AllocatorModel,
    lp: Seq<char>,
    domain: Seq<char>,
    keys: Seq<Seq<u8>>,
)
    requires
        lp.len() > 0,
        !text::is_white(lp[0]),
        domain.len() > 0,
        !text::is_white(domain.last()),
        !domain.contains('@'),
    ensures
        ({
            let r = resolution(m, lp + seq!['@'] + domain, keys);
            let name = text::lower(lp);
            &&& text::lower(domain) != m.domain ==> r is None
            &&& text::lower(domain) == m.domain && m.holder.contains_key(name) ==> r == Some(
                m.holder[name],
            )
            &&& text::lower(domain) == m.domain && !m.holder.contains_key(name) ==> (match r {
                Some(k) => exists|i: int|
                    0 <= i < keys.len() && #[trigger] keys[i] == k && "k"@ + authz::fingerprint_of(k)
                        == name,
                None => forall|i: int|
                    0 <= i < keys.len() ==> "k"@ + authz::fingerprint_of(#[trigger] keys[i]) != name,
            })
        }),
{
    let address = lp + seq!['@'] + domain;
    let l = text::lower(domain);
    assert(address[0] == lp[0]);
    assert(address.last() == domain.last());
    text::lemma_nothing_to_trim(address);
    text::lemma_lower_of_joined(lp + seq!['@'], domain);
    text::lemma_lower_of_joined(lp, seq!['@']);
    assert(text::lower(seq!['@']) =~= seq!['@']);
    assert(!l.contains('@')) by {
        if l.contains('@') {
            let i = choose|i: int| 0 <= i < l.len() && l[i] == '@';
            assert(domain[i] == '@');
            assert(domain.contains('@'));
        }
    }
    text::lemma_rsplit_of_joined(text::lower(lp), '@', l);
    lemma_first_derived_is(keys, text::lower(lp));
}

proof fn lemma_first_derived_is(keys: Seq<Seq<u8>>, name: Seq<char>)
    ensures
        match first_derived(keys, name) {
            Some(k) => exists|i: int|
                0 <= i < keys.len() && #[trigger] keys[i] == k && derived_name(k) == name,
            None => forall|i: int| 0 <= i < keys.len() ==> derived_name(#[trigger] keys[i]) != name,
        },
    decreases keys.len(),
{
    if keys.len() > 0 {
        if derived_name(keys[0]) == name {
            assert(keys[0] == first_derived(keys, name)->0);
        } else {
            let rest = keys.skip(1);
            lemma_first_derived_is(rest, name);
            match first_derived(rest, name) {
                Some(k) => {
                    let i = choose|i: int|
                        0 <= i < rest.len() && #[trigger] rest[i] == k && derived_name(k) == name;
                    assert(keys[i + 1] == k);
                },
                None => {
                    assert forall|i: int| 0 <= i < keys.len() implies derived_name(
                        #[trigger] keys[i],
                    ) != name by {
                        if i > 0 {
                            assert(rest[i - 1] == keys[i]);
                        }
                    }
                },
            }
        }
    }
}

/// The local part of an address is known where the address is on the domain, in whatever case and with
/// white space round the domain.
pub proof fn law_local_part_on_the_domain(
    m: AllocatorModel,
    lp: Seq<char>,
    a: Seq<char>,
    dom: Seq<char>,
    b: Seq<char>,
)
    requires
        text::all_white(a) && text::all_white(b),
        dom.len() > 0 && !text::is_white(dom[0]) && !text::is_white(dom.last()),
        !dom.contains('@'),
    ensures
        text::lower(dom) == text::lower(m.domain) ==> directory_part(
            m,
            lp + seq!['@'] + (a + dom + b),
        ) == Some(lp),
        text::lower(dom) != text::lower(m.domain) ==> directory_part(
            m,
            lp + seq!['@'] + (a + dom + b),
        ) is None,
        directory_part(m, dom) is None,
{
    let d = a + dom + b;
    assert(!d.contains('@')) by {
        if d.contains('@') {
            let i = d.index_of('@');
            if i < a.len() {
                assert(text::is_white(a[i]));
            } else if i < a.len() + dom.len() {
                assert(dom[i - a.len()] == '@');
            } else {
                assert(text::is_white(b[i - a.len() - dom.len()]));
            }
        }
    }
    text::lemma_rsplit_of_joined(lp, '@', d);
    text::law_trim_takes_the_ends(a, dom, b);
    text::law_cut_at_the_first(dom, '@', dom);
}

} // verus!
