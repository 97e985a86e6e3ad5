//! Random aliases: opaque tokens that stand for a destination until they expire or are burned.
//!
//! A row is live while it is neither burned nor past its expiry. Only a live row resolves; a
//! missing, expired or burned one is refused as "no such user". A one-time row is burned by the
//! first resolution. Tokens come from the operating system's random number generator, and minting
//! never overwrites a row.

use crate::base32;
use crate::model;
use crate::random;
use crate::seqmap::SeqMap;
use crate::text;
use vstd::prelude::*;

verus! {

/// The number of random octets behind a token.
pub const TOKEN_ENTROPY_BYTES: usize = 16;

/// The destination that an alias forwards to.
#[derive(Debug, PartialEq, Eq)]
pub enum AliasTarget {
    /// An address `local@domain`.
    Native { local: String, domain: String },
    /// The public key of an identity.
    Identity(Vec<u8>),
}

/// [`AliasTarget`] with its contents as sequences.
pub enum TargetModel {
    Native { local: Seq<char>, domain: Seq<char> },
    Identity(Seq<u8>),
}

impl View for AliasTarget {
    type V = TargetModel;

    open spec fn view(&self) -> TargetModel {
        match *self {
            AliasTarget::Native { local, domain } => TargetModel::Native {
                local: local@,
                domain: domain@,
            },
            AliasTarget::Identity(key) => TargetModel::Identity(key@),
        }
    }
}

impl Clone for AliasTarget {
    fn clone(&self) -> (r: Self)
        ensures
            r@ == self@,
    {
        match self {
            AliasTarget::Native { local, domain } => AliasTarget::Native {
                local: local.clone(),
                domain: domain.clone(),
            },
            AliasTarget::Identity(key) => AliasTarget::Identity(
                vstd::slice::slice_to_vec(key.as_slice()),
            ),
        }
    }
}

/// Why an alias does not resolve.
#[derive(Debug, Clone, Copy, PartialEq, Eq, Structural)]
pub enum GatewayAliasError {
    /// There is no live row: it is missing, expired or burned.
    Unmapped,
}

impl GatewayAliasError {
    /// The SMTP reply code for the sender.
    pub const SMTP_CODE: u16 = 550;

    /// The enhanced status code that goes with [`Self::SMTP_CODE`].
    pub const SMTP_ENHANCED_STATUS: &'static str = "5.1.1";

    /// The number of the error in the registry.
    pub fn code(&self) -> (r: u16)
        ensures
            r == 0x0605,
    {
        0x0605
    }

    /// The error as a line of text.
    pub fn message(&self) -> (r: String)
        ensures
            r@ == "gateway alias unmapped (ERR_GATEWAY_ALIAS_UNMAPPED, 0x0605)"@,
    {
        text::string_from("gateway alias unmapped (ERR_GATEWAY_ALIAS_UNMAPPED, 0x0605)")
    }
}

/// One row: the destination, the correspondent it is meant for, the expiry, and how it is used up.
#[derive(Debug)]
struct AliasRow {
    target: AliasTarget,
    correspondent: Option<String>,
    expires_at_ms: Option<u64>,
    one_time: bool,
    burned: bool,
}

/// A row as a value.
pub struct RowModel {
    pub target: TargetModel,
    pub correspondent: Option<Seq<char>>,
    pub expires_at_ms: Option<u64>,
    pub one_time: bool,
    pub burned: bool,
}

impl View for AliasRow {
    type V = RowModel;

    closed spec fn view(&self) -> RowModel {
        RowModel {
            target: self.target@,
            correspondent: model::opt_view(self.correspondent),
            expires_at_ms: self.expires_at_ms,
            one_time: self.one_time,
            burned: self.burned,
        }
    }
}

/// Whether a row is past its expiry.
pub open spec fn expired(row: RowModel, now_ms: u64) -> bool {
    row.expires_at_ms matches Some(at) && now_ms >= at
}

/// Whether the map holds a live row for the token.
pub open spec fn live(rows: Map<Seq<char>, RowModel>, token: Seq<char>, now_ms: u64) -> bool {
    rows.contains_key(token) && !rows[token].burned && !expired(rows[token], now_ms)
}

/// A row that has been burned.
pub open spec fn burned_row(row: RowModel) -> RowModel {
    RowModel { burned: true, ..row }
}

/// The row that minting makes.
pub open spec fn minted_row(
    target: TargetModel,
    correspondent: Option<Seq<char>>,
    ttl_ms: Option<u64>,
    one_time: bool,
    now_ms: u64,
) -> RowModel {
    RowModel {
        target,
        correspondent,
        expires_at_ms: match ttl_ms {
            Some(ttl) => Some(
                if now_ms + ttl <= u64::MAX {
                    (now_ms + ttl) as u64
                } else {
                    u64::MAX
                },
            ),
            None => None,
        },
        one_time,
        burned: false,
    }
}

/// The rows after resolving a token: a live one-time row is used up.
pub open spec fn rows_after_resolve(
    rows: Map<Seq<char>, RowModel>,
    token: Seq<char>,
    now_ms: u64,
) -> Map<Seq<char>, RowModel> {
    if live(rows, token, now_ms) && rows[token].one_time {
        rows.insert(token, burned_row(rows[token]))
    } else {
        rows
    }
}

/// The rows after burning a token.
pub open spec fn rows_after_burn(rows: Map<Seq<char>, RowModel>, token: Seq<char>) -> Map<
    Seq<char>,
    RowModel,
> {
    if rows.contains_key(token) {
        rows.insert(token, burned_row(rows[token]))
    } else {
        rows
    }
}

/// Whether a text is the spelling of a freshly drawn token.
pub open spec fn is_token(s: Seq<char>) -> bool {
    exists|raw: Seq<u8>| raw.len() == TOKEN_ENTROPY_BYTES && #[trigger] base32::base32(raw) == s
}

impl AliasRow {
    fn is_expired(&self, now_ms: u64) -> (r: bool)
        ensures
            r == expired(self@, now_ms),
    {
        match self.expires_at_ms {
            Some(at) => now_ms >= at,
            None => false,
        }
    }

    fn burn(&self) -> (r: AliasRow)
        ensures
            r@ == burned_row(self@),
    {
        AliasRow {
            target: self.target.clone(),
            correspondent: match &self.correspondent {
                Some(c) => Some(c.clone()),
                None => None,
            },
            expires_at_ms: self.expires_at_ms,
            one_time: self.one_time,
            burned: true,
        }
    }
}

/// The store of random aliases. Its view is the map from tokens to rows.
pub struct GatewayAliasMap {
    rows: SeqMap<char, AliasRow>,
}

impl View for GatewayAliasMap {
    type V = Map<Seq<char>, RowModel>;

    closed spec fn view(&self) -> Map<Seq<char>, RowModel> {
        self.rows@
    }
}

impl GatewayAliasMap {
    /// An empty store.
    pub fn new() -> (r: Self)
        ensures
            r@ == Map::<Seq<char>, RowModel>::empty(),
    {
        GatewayAliasMap { rows: SeqMap::new() }
    }

    /// Mints an alias for any correspondent that never expires and may be used any number of times.
    /// Which token comes back is chance; it is one that had no row.
    pub fn mint(&mut self, target: AliasTarget) -> (r: Result<String, random::RandomUnavailable>)
        ensures
            match r {
                Ok(token) => is_token(token@) && !old(self)@.contains_key(token@) && final(self)@
                    == old(self)@.insert(token@, minted_row(target@, None, None, false, 0)),
                Err(_) => final(self)@ == old(self)@,
            },
    {
        self.mint_with(target, None, None, false, 0)
    }

    /// Mints an alias with an optional correspondent, an optional time to live from `now_ms` on, and
    /// a flag for use only once. Which token comes back is chance; it is one that had no row.
    pub fn mint_with(
        &mut self,
        target: AliasTarget,
        correspondent: Option<String>,
        ttl_ms: Option<u64>,
        one_time: bool,
        now_ms: u64,
    ) -> (r: Result<String, random::RandomUnavailable>)
        ensures
            match r {
                Ok(token) => is_token(token@) && !old(self)@.contains_key(token@) && final(self)@
                    == old(self)@.insert(
                    token@,
                    minted_row(target@, model::opt_view(correspondent), ttl_ms, one_time, now_ms),
                ),
                Err(_) => final(self)@ == old(self)@,
            },
    {
        let mut attempts: u64 = u64::MAX;
        while attempts > 0
            invariant
                self@ == old(self)@,
            decreases attempts,
        {
            let token = match random_alias_token() {
                Ok(t) => t,
                Err(e) => {
                    return Err(e);
                },
            };
            let key = text::chars_of(token.as_str());
            if !self.rows.contains(key.as_slice()) {
                self.mint_as(token.as_str(), target, correspondent, ttl_ms, one_time, now_ms);
                return Ok(token);
            }
            attempts = attempts - 1;
        }
        Err(random::RandomUnavailable)
    }

    /// Mints an alias under the given token, unless the token has a row already.
    pub fn mint_as(
        &mut self,
        token: &str,
        target: AliasTarget,
        correspondent: Option<String>,
        ttl_ms: Option<u64>,
        one_time: bool,
        now_ms: u64,
    ) -> (r: bool)
        ensures
            r == !old(self)@.contains_key(token@),
            final(self)@ == (if r {
                old(self)@.insert(
                    token@,
                    minted_row(target@, model::opt_view(correspondent), ttl_ms, one_time, now_ms),
                )
            } else {
                old(self)@
            }),
    {
        let key = text::chars_of(token);
        if self.rows.contains(key.as_slice()) {
            return false;
        }
        let expires_at_ms: Option<u64> = match ttl_ms {
            Some(ttl) => Some(now_ms.saturating_add(ttl)),
            None => None,
        };
        let row = AliasRow { target, correspondent, expires_at_ms, one_time, burned: false };
        let _ = self.rows.insert(key.as_slice(), row);
        true
    }

    /// Resolves a token. Only a live row resolves, and a one-time row only once.
    pub fn resolve(&mut self, alias: &str, now_ms: u64) -> (r: Result<AliasTarget, GatewayAliasError>)
        ensures
            match r {
                Ok(t) => live(old(self)@, alias@, now_ms) && t@ == old(self)@[alias@].target,
                Err(e) => !live(old(self)@, alias@, now_ms) && e == GatewayAliasError::Unmapped,
            },
            final(self)@ == rows_after_resolve(old(self)@, alias@, now_ms),
    {
        let key = text::chars_of(alias);
        let (target, used) = match self.rows.get(key.as_slice()) {
            None => {
                return Err(GatewayAliasError::Unmapped);
            },
            Some(row) => {
                if row.burned || row.is_expired(now_ms) {
                    return Err(GatewayAliasError::Unmapped);
                }
                if row.one_time {
                    (row.target.clone(), Some(row.burn()))
                } else {
                    (row.target.clone(), None)
                }
            },
        };
        if let Some(row) = used {
            let _ = self.rows.insert(key.as_slice(), row);
        }
        Ok(target)
    }

    /// The correspondent that a live alias is meant for, where it is meant for one.
    pub fn correspondent_of(&self, alias: &str, now_ms: u64) -> (r: Option<&str>)
        ensures
            model::opt_view(r) == (if live(self@, alias@, now_ms) {
                self@[alias@].correspondent
            } else {
                None
            }),
    {
        let key = text::chars_of(alias);
        match self.rows.get(key.as_slice()) {
            None => None,
            Some(row) => {
                if row.burned || row.is_expired(now_ms) {
                    return None;
                }
                match &row.correspondent {
                    Some(c) => Some(c.as_str()),
                    None => None,
                }
            },
        }
    }

    /// Burns an alias; whether there was a row to burn.
    pub fn burn(&mut self, alias: &str) -> (r: bool)
        ensures
            r == old(self)@.contains_key(alias@),
            final(self)@ == rows_after_burn(old(self)@, alias@),
    {
        let key = text::chars_of(alias);
        let row = match self.rows.get(key.as_slice()) {
            None => {
                return false;
            },
            Some(row) => row.burn(),
        };
        let _ = self.rows.insert(key.as_slice(), row);
        true
    }

    /// The number of rows, burned and expired ones included.
    pub fn len(&self) -> (r: usize)
        ensures
            self@.dom().finite(),
            r == self@.dom().len(),
    {
        self.rows.len()
    }

    /// Whether there is no row.
    pub fn is_empty(&self) -> (r: bool)
        ensures
            r == (self@ == Map::<Seq<char>, RowModel>::empty()),
    {
        let n: usize = self.rows.len();
        proof {
            if n == 0 {
                assert(self@.dom() =~= Set::empty());
                assert(self@ =~= Map::<Seq<char>, RowModel>::empty());
            }
        }
        n == 0
    }
}

/// The token that random octets spell.
pub fn alias_token_from(raw: &[u8]) -> (r: String)
    ensures
        r@ == base32::base32(raw@),
{
    base32::base32_lower(raw)
}

/// Draws a token. Every outcome is possible; what holds of each is that it spells
/// [`TOKEN_ENTROPY_BYTES`] octets.
pub fn random_alias_token() -> (r: Result<String, random::RandomUnavailable>)
    ensures
        r matches Ok(token) ==> is_token(token@),
{
    match random::random_bytes(TOKEN_ENTROPY_BYTES) {
        Ok(raw) => Ok(alias_token_from(raw.as_slice())),
        Err(e) => Err(e),
    }
}

// ---- laws --------------------------------------------------------------------------------------

/// A token has 26 characters of the alphabet, so it holds no dot and cannot be taken for a
/// forwarded address.
pub proof fn law_token_shape(token: Seq<char>)
    requires
        is_token(token),
    ensures
        token.len() == 26,
        forall|i: int| 0 <= i < token.len() ==> base32::is_base32(#[trigger] token[i]),
        !token.contains('.'),
{
    let raw = choose|raw: Seq<u8>|
        raw.len() == TOKEN_ENTROPY_BYTES && #[trigger] base32::base32(raw) == token;
    base32::law_alphabet_and_length(raw);
    if token.contains('.') {
        let i = choose|i: int| 0 <= i < token.len() && token[i] == '.';
        assert(base32::is_base32(token[i]));
    }
}

/// A one-time alias resolves once: after a resolution it is not live at any time.
pub proof fn law_one_time_resolves_once(
    rows: Map<Seq<char>, RowModel>,
    token: Seq<char>,
    now_ms: u64,
    later_ms: u64,
)
    requires
        live(rows, token, now_ms),
        rows[token].one_time,
    ensures
        !live(rows_after_resolve(rows, token, now_ms), token, later_ms),
{
}

/// An alias that may be used any number of times stays as it is when it is resolved.
pub proof fn law_resolving_keeps_reusable_rows(
    rows: Map<Seq<char>, RowModel>,
    token: Seq<char>,
    now_ms: u64,
)
    requires
        rows.contains_key(token) ==> !rows[token].one_time,
    ensures
        rows_after_resolve(rows, token, now_ms) == rows,
{
}

/// A burned alias is not live at any time, and burning it again changes nothing.
pub proof fn law_burned_is_dead(rows: Map<Seq<char>, RowModel>, token: Seq<char>, now_ms: u64)
    ensures
        !live(rows_after_burn(rows, token), token, now_ms),
        rows_after_burn(rows_after_burn(rows, token), token) == rows_after_burn(rows, token),
{
    let once = rows_after_burn(rows, token);
    if rows.contains_key(token) {
        assert(rows_after_burn(once, token) =~= once);
    }
}

/// An expired alias stays expired.
pub proof fn law_expiry_is_final(
    rows: Map<Seq<char>, RowModel>,
    token: Seq<char>,
    now_ms: u64,
    later_ms: u64,
)
    requires
        rows.contains_key(token),
        expired(rows[token], now_ms),
        now_ms <= later_ms,
    ensures
        !live(rows, token, later_ms),
{
}

/// A freshly minted alias is live before its time to live has passed, however large that is.
pub proof fn law_minted_is_live(
    rows: Map<Seq<char>, RowModel>,
    token: Seq<char>,
    target: TargetModel,
    correspondent: Option<Seq<char>>,
    ttl_ms: Option<u64>,
    one_time: bool,
    now_ms: u64,
    later_ms: u64,
)
    requires
        ttl_ms matches Some(ttl) ==> later_ms < now_ms + ttl && later_ms < u64::MAX,
    ensures
        live(
            rows.insert(token, minted_row(target, correspondent, ttl_ms, one_time, now_ms)),
            token,
            later_ms,
        ),
{
}

/// What is done to one token leaves every other alias as it was.
pub proof fn law_tokens_are_independent(
    rows: Map<Seq<char>, RowModel>,
    token: Seq<char>,
    other: Seq<char>,
    now_ms: u64,
    later_ms: u64,
)
    requires
        token != other,
    ensures
        live(rows_after_resolve(rows, token, now_ms), other, later_ms) == live(
            rows,
            other,
            later_ms,
        ),
        live(rows_after_burn(rows, token), other, later_ms) == live(rows, other, later_ms),
        rows.contains_key(other) ==> rows_after_resolve(rows, token, now_ms)[other] == rows[other]
            && rows_after_burn(rows, token)[other] == rows[other],
{
}

/// A token that was minted for a time stands for its target until that time is over and no longer,
/// and one that was minted without end for ever, unless it is burned.
pub proof fn law_lifetime_of_a_token(
    rows: Map<Seq<char>, RowModel>,
    token: Seq<char>,
    target: TargetModel,
    correspondent: Option<Seq<char>>,
    ttl_ms: Option<u64>,
    one_time: bool,
    now_ms: u64,
    later_ms: u64,
)
    ensures
        ({
            let row = minted_row(target, correspondent, ttl_ms, one_time, now_ms);
            let after = rows.insert(token, row);
            &&& row.target == target && row.correspondent == correspondent && row.one_time
                == one_time && !row.burned
            &&& ttl_ms is None ==> live(after, token, later_ms)
            &&& ttl_ms is Some && now_ms + ttl_ms->0 <= u64::MAX ==> (live(after, token, later_ms)
                <==> later_ms < now_ms + ttl_ms->0)
            &&& ttl_ms is Some && now_ms + ttl_ms->0 > u64::MAX ==> (live(after, token, later_ms)
                <==> later_ms < u64::MAX)
        }),
        !rows.contains_key(token) ==> !live(rows, token, later_ms),
{
}

/// Resolving or burning a token changes nothing of its row but that it may be burned: a token that
/// lives on stands for the same target.
pub proof fn law_targets_never_change(rows: Map<Seq<char>, RowModel>, token: Seq<char>, now_ms: u64)
    requires
        rows.contains_key(token),
    ensures
        ({
            let a = rows_after_resolve(rows, token, now_ms);
            let b = rows_after_burn(rows, token);
            &&& a.contains_key(token) && b.contains_key(token)
            &&& a[token] == (RowModel { burned: a[token].burned, ..rows[token] })
            &&& a[token].burned <==> rows[token].burned || (rows[token].one_time && live(
                rows,
                token,
                now_ms,
            ))
            &&& b[token] == (RowModel { burned: true, ..rows[token] })
            &&& a.dom() == rows.dom() && b.dom() == rows.dom()
        }),
{
    assert(rows_after_resolve(rows, token, now_ms).dom() =~= rows.dom());
    assert(rows_after_burn(rows, token).dom() =~= rows.dom());
}

} // verus!
