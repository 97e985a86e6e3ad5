//! Quotas: how much each account has relayed, and the caps that it may not pass.

use crate::model;
use crate::provenance;
use crate::provenance::{BridgeDirection, GatewayMeter, MeterEvent};
use crate::seqmap::SeqMap;
use crate::text;
use vstd::prelude::*;

verus! {

/// An allowance. The caps are enforced; a cap of zero does not limit. The free amounts are for
/// whoever prices the usage.
#[derive(Debug, Clone, Copy, PartialEq, Eq, Structural)]
pub struct Quota {
    pub free_messages: u64,
    pub hard_cap_messages: u64,
    pub free_bytes: u64,
    pub hard_cap_bytes: u64,
}

impl View for Quota {
    type V = Quota;

    open spec fn view(&self) -> Quota {
        *self
    }
}

impl Quota {
    /// A quota on messages and on octets.
    pub fn new(
        free_messages: u64,
        hard_cap_messages: u64,
        free_bytes: u64,
        hard_cap_bytes: u64,
    ) -> (r: Self)
        ensures
            r == (Quota { free_messages, hard_cap_messages, free_bytes, hard_cap_bytes }),
    {
        Quota { free_messages, hard_cap_messages, free_bytes, hard_cap_bytes }
    }

    /// A quota on messages alone.
    pub fn messages(free_messages: u64, hard_cap_messages: u64) -> (r: Self)
        ensures
            r == (Quota { free_messages, hard_cap_messages, free_bytes: 0, hard_cap_bytes: 0 }),
    {
        Quota { free_messages, hard_cap_messages, free_bytes: 0, hard_cap_bytes: 0 }
    }
}

/// What an account has relayed so far.
#[derive(Debug, Clone, Copy, PartialEq, Eq, Structural)]
pub struct Usage {
    pub messages: u64,
    pub bytes: u64,
}

impl View for Usage {
    type V = Usage;

    open spec fn view(&self) -> Usage {
        *self
    }
}

/// No usage at all.
pub open spec fn no_usage() -> Usage {
    Usage { messages: 0, bytes: 0 }
}

impl Usage {
    /// Whether the usage is past the free allowance.
    pub fn over_free_allowance(&self, quota: &Quota) -> (r: bool)
        ensures
            r == (self.messages > quota.free_messages || (quota.free_bytes != 0 && self.bytes
                > quota.free_bytes)),
    {
        self.messages > quota.free_messages || (quota.free_bytes != 0 && self.bytes
            > quota.free_bytes)
    }
}

/// Why a message was not charged.
#[derive(Debug, Clone, PartialEq, Eq)]
pub enum QuotaError {
    /// The account has no quota.
    Unregistered(String),
    /// The message would pass the cap on messages, which is given.
    MessageCapExceeded(String, u64),
    /// The message would pass the cap on octets, which is given.
    VolumeCapExceeded(String, u64),
}

/// [`QuotaError`] with its texts as sequences.
pub enum QuotaErrorModel {
    Unregistered(Seq<char>),
    MessageCapExceeded(Seq<char>, u64),
    VolumeCapExceeded(Seq<char>, u64),
}

impl View for QuotaError {
    type V = QuotaErrorModel;

    open spec fn view(&self) -> QuotaErrorModel {
        match *self {
            QuotaError::Unregistered(a) => QuotaErrorModel::Unregistered(a@),
            QuotaError::MessageCapExceeded(a, n) => QuotaErrorModel::MessageCapExceeded(a@, n),
            QuotaError::VolumeCapExceeded(a, n) => QuotaErrorModel::VolumeCapExceeded(a@, n),
        }
    }
}

/// The sum, or the largest value where it does not fit.
pub open spec fn sat_add(a: u64, b: u64) -> u64 {
    if a + b <= u64::MAX {
        (a + b) as u64
    } else {
        u64::MAX
    }
}

/// The state of a ledger.
pub struct LedgerModel {
    pub limits: Map<Seq<char>, Quota>,
    pub usage: Map<Seq<char>, Usage>,
}

/// What an account has used in a ledger.
pub open spec fn usage_in(m: LedgerModel, account: Seq<char>) -> Usage {
    if m.usage.contains_key(account) {
        m.usage[account]
    } else {
        no_usage()
    }
}

/// The usage after one more message.
pub open spec fn next_usage(u: Usage, msg_bytes: u64) -> Usage {
    Usage { messages: sat_add(u.messages, 1), bytes: sat_add(u.bytes, msg_bytes) }
}

/// Whether one more message may be charged, and what the usage is then.
pub open spec fn charge(m: LedgerModel, account: Seq<char>, msg_bytes: u64) -> Result<
    Usage,
    QuotaErrorModel,
> {
    if !m.limits.contains_key(account) {
        Err(QuotaErrorModel::Unregistered(account))
    } else {
        let q = m.limits[account];
        let next = next_usage(usage_in(m, account), msg_bytes);
        if q.hard_cap_messages != 0 && next.messages > q.hard_cap_messages {
            Err(QuotaErrorModel::MessageCapExceeded(account, q.hard_cap_messages))
        } else if q.hard_cap_bytes != 0 && next.bytes > q.hard_cap_bytes {
            Err(QuotaErrorModel::VolumeCapExceeded(account, q.hard_cap_bytes))
        } else {
            Ok(next)
        }
    }
}

/// The ledger after a message was charged, or refused.
pub open spec fn after_charge(m: LedgerModel, account: Seq<char>, msg_bytes: u64) -> LedgerModel {
    match charge(m, account, msg_bytes) {
        Ok(next) => LedgerModel { usage: m.usage.insert(account, next), ..m },
        Err(_) => m,
    }
}

/// The quotas and the usage of the accounts.
pub struct QuotaLedger {
    limits: SeqMap<char, Quota>,
    usage: SeqMap<char, Usage>,
}

impl View for QuotaLedger {
    type V = LedgerModel;

    closed spec fn view(&self) -> LedgerModel {
        LedgerModel { limits: self.limits@, usage: self.usage@ }
    }
}

impl QuotaLedger {
    /// A ledger without accounts.
    pub fn new() -> (r: Self)
        ensures
            r@ == (LedgerModel { limits: Map::empty(), usage: Map::empty() }),
    {
        QuotaLedger { limits: SeqMap::new(), usage: SeqMap::new() }
    }

    /// The ledger with the quota of an account set.
    pub fn set_quota(self, account: &str, quota: Quota) -> (r: Self)
        ensures
            r@ == (LedgerModel { limits: self@.limits.insert(account@, quota), ..self@ }),
    {
        let mut ledger = self;
        ledger.upsert_quota(account, quota);
        ledger
    }

    /// Sets the quota of an account.
    pub fn upsert_quota(&mut self, account: &str, quota: Quota)
        ensures
            final(self)@ == (LedgerModel {
                limits: old(self)@.limits.insert(account@, quota),
                ..old(self)@
            }),
    {
        let key = text::chars_of(account);
        let _ = self.limits.insert(key.as_slice(), quota);
    }

    /// The quota of an account.
    pub fn quota(&self, account: &str) -> (r: Option<Quota>)
        ensures
            r == (if self@.limits.contains_key(account@) {
                Some(self@.limits[account@])
            } else {
                None
            }),
    {
        let key = text::chars_of(account);
        match self.limits.get(key.as_slice()) {
            Some(q) => Some(*q),
            None => None,
        }
    }

    /// What an account has used so far.
    pub fn usage(&self, account: &str) -> (r: Usage)
        ensures
            r == usage_in(self@, account@),
    {
        let key = text::chars_of(account);
        match self.usage.get(key.as_slice()) {
            Some(u) => *u,
            None => Usage { messages: 0, bytes: 0 },
        }
    }

    /// Charges one message to an account, unless that would pass a cap.
    pub fn try_charge(&mut self, account: &str, msg_bytes: u64) -> (r: Result<Usage, QuotaError>)
        ensures
            model::res_view(r) == charge(old(self)@, account@, msg_bytes),
            final(self)@ == after_charge(old(self)@, account@, msg_bytes),
    {
        let quota = match self.quota(account) {
            Some(q) => q,
            None => {
                return Err(QuotaError::Unregistered(text::string_from(account)));
            },
        };
        let current = self.usage(account);
        let messages: u64 = current.messages.saturating_add(1);
        if quota.hard_cap_messages != 0 && messages > quota.hard_cap_messages {
            return Err(
                QuotaError::MessageCapExceeded(text::string_from(account), quota.hard_cap_messages),
            );
        }
        let bytes: u64 = current.bytes.saturating_add(msg_bytes);
        if quota.hard_cap_bytes != 0 && bytes > quota.hard_cap_bytes {
            return Err(
                QuotaError::VolumeCapExceeded(text::string_from(account), quota.hard_cap_bytes),
            );
        }
        let next = Usage { messages, bytes };
        let key = text::chars_of(account);
        let _ = self.usage.insert(key.as_slice(), next);
        Ok(next)
    }

    /// Charges one message and, if it was charged, records it once with the meter.
    pub fn charge_and_meter<M: GatewayMeter>(
        &mut self,
        account: &str,
        domain: &str,
        direction: BridgeDirection,
        rfc5322_bytes: &[u8],
        at: u64,
        meter: &mut M,
    ) -> (r: Result<Usage, QuotaError>)
        ensures
            model::res_view(r) == charge(old(self)@, account@, rfc5322_bytes@.len() as u64),
            final(self)@ == after_charge(old(self)@, account@, rfc5322_bytes@.len() as u64),
            r is Ok ==> M::records(
                *old(meter),
                provenance::MeterEventModel {
                    direction,
                    account: account@,
                    domain: domain@,
                    msg_digest: crate::identity::content_address(rfc5322_bytes@),
                    at,
                },
                *final(meter),
            ),
            r is Err ==> *final(meter) == *old(meter),
    {
        let usage = match self.try_charge(account, rfc5322_bytes.len() as u64) {
            Ok(u) => u,
            Err(e) => {
                return Err(e);
            },
        };
        let event = MeterEvent {
            direction,
            account: text::string_from(account),
            domain: text::string_from(domain),
            msg_digest: provenance::msg_digest(rfc5322_bytes),
            at,
        };
        meter.record(&event);
        Ok(usage)
    }
}

// ---- laws --------------------------------------------------------------------------------------

/// Whether no account is past a cap.
pub open spec fn within_caps(m: LedgerModel) -> bool {
    forall|a: Seq<char>| #[trigger]
        m.limits.contains_key(a) ==> {
            let q = m.limits[a];
            let u = usage_in(m, a);
            &&& q.hard_cap_messages != 0 ==> u.messages <= q.hard_cap_messages
            &&& q.hard_cap_bytes != 0 ==> u.bytes <= q.hard_cap_bytes
        }
}

/// Charging keeps every account within its caps.
pub proof fn law_caps_are_never_passed(m: LedgerModel, account: Seq<char>, msg_bytes: u64)
    requires
        within_caps(m),
    ensures
        within_caps(after_charge(m, account, msg_bytes)),
{
}

/// A refused charge leaves the ledger as it was, and so is refused again.
pub proof fn law_refusal_changes_nothing(m: LedgerModel, account: Seq<char>, msg_bytes: u64)
    requires
        charge(m, account, msg_bytes) is Err,
    ensures
        after_charge(m, account, msg_bytes) == m,
{
}

/// A charge touches no account but its own.
pub proof fn law_accounts_are_independent(
    m: LedgerModel,
    account: Seq<char>,
    other: Seq<char>,
    msg_bytes: u64,
)
    requires
        account != other,
    ensures
        usage_in(after_charge(m, account, msg_bytes), other) == usage_in(m, other),
        after_charge(m, account, msg_bytes).limits == m.limits,
{
}

/// Usage never goes down.
pub proof fn law_usage_grows(m: LedgerModel, account: Seq<char>, msg_bytes: u64)
    ensures
        usage_in(after_charge(m, account, msg_bytes), account).messages >= usage_in(
            m,
            account,
        ).messages,
        usage_in(after_charge(m, account, msg_bytes), account).bytes >= usage_in(m, account).bytes,
{
}

/// A message is charged exactly if the account has a quota and neither cap is passed by it, where a
/// cap of zero is none; each refusal names the account and the cap. What is charged is one message
/// and its octets.
pub proof fn law_charges_stop_at_the_caps(m: LedgerModel, account: Seq<char>, msg_bytes: u64)
    requires
        usage_in(m, account).messages < u64::MAX,
        usage_in(m, account).bytes + msg_bytes <= u64::MAX,
    ensures
        ({
            let u = usage_in(m, account);
            let q = m.limits[account];
            let known = m.limits.contains_key(account);
            let many = q.hard_cap_messages > 0 && u.messages + 1 > q.hard_cap_messages;
            let large = q.hard_cap_bytes > 0 && u.bytes + msg_bytes > q.hard_cap_bytes;
            match charge(m, account, msg_bytes) {
                Ok(next) => known && !many && !large && next.messages == u.messages + 1 && next.bytes
                    == u.bytes + msg_bytes && usage_in(
                    after_charge(m, account, msg_bytes),
                    account,
                ) == next,
                Err(QuotaErrorModel::Unregistered(a)) => a == account && !known,
                Err(QuotaErrorModel::MessageCapExceeded(a, n)) => a == account && n
                    == q.hard_cap_messages && known && many,
                Err(QuotaErrorModel::VolumeCapExceeded(a, n)) => a == account && n
                    == q.hard_cap_bytes && known && !many && large,
            }
        }),
        !m.usage.contains_key(account) ==> usage_in(m, account).messages == 0 && usage_in(
            m,
            account,
        ).bytes == 0,
{
}

} // verus!
