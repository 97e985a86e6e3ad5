//! What the parts of the gateway tell each other about a relayed message: its direction, the
//! decision to relay it, the event that it is metered by, and the path that it took.

use crate::identity;
use crate::seqmap::SeqMap;
use crate::text;
use vstd::prelude::*;
use vstd::slice::slice_to_vec;

verus! {

/// Which way a message crosses the gateway.
#[derive(Debug, Clone, Copy, PartialEq, Eq, Structural)]
pub enum BridgeDirection {
    /// From legacy mail into the mesh.
    Inbound,
    /// From the mesh to legacy mail.
    Outbound,
}

/// Whether a message may be relayed.
#[derive(Debug, Clone, PartialEq, Eq)]
pub enum AuthzDecision {
    /// It may, and is charged to the account.
    Allowed { account: String },
    /// It may not.
    Denied { reason: String },
}

/// [`AuthzDecision`] with its texts as sequences.
pub enum DecisionModel {
    Allowed { account: Seq<char> },
    Denied { reason: Seq<char> },
}

impl View for AuthzDecision {
    type V = DecisionModel;

    open spec fn view(&self) -> DecisionModel {
        match *self {
            AuthzDecision::Allowed { account } => DecisionModel::Allowed { account: account@ },
            AuthzDecision::Denied { reason } => DecisionModel::Denied { reason: reason@ },
        }
    }
}

/// The policy that decides for each message whether it may be relayed.
pub trait GatewayAuthz {
    /// What the policy decides. Unless it says otherwise, it knows no domain.
    open spec fn decision(&self, direction: BridgeDirection, domain: Seq<char>) -> DecisionModel {
        DecisionModel::Denied { reason: unregistered_reason(domain) }
    }

    /// Decides for a message of the given domain.
    fn authorize(&self, direction: BridgeDirection, domain: &str) -> (r: AuthzDecision)
        ensures
            r@ == self.decision(direction, domain@),
    ;
}

/// A policy given by a table from domains to accounts.
pub struct StaticGatewayAuthz {
    allowed: SeqMap<char, String>,
}

impl View for StaticGatewayAuthz {
    type V = Map<Seq<char>, Seq<char>>;

    closed spec fn view(&self) -> Map<Seq<char>, Seq<char>> {
        self.allowed@
    }
}

impl StaticGatewayAuthz {
    /// A policy that allows nobody.
    pub fn new() -> (r: Self)
        ensures
            r@ == Map::<Seq<char>, Seq<char>>::empty(),
    {
        StaticGatewayAuthz { allowed: SeqMap::new() }
    }

    /// The policy that also allows a domain, in any case, at the charge of an account.
    pub fn allow(self, domain: &str, account: &str) -> (r: Self)
        ensures
            r@ == self@.insert(text::lower(domain@), account@),
    {
        let mut allowed = self.allowed;
        let c = text::chars_of(domain);
        let key = text::to_lower(c.as_slice());
        let _ = allowed.insert(key.as_slice(), text::string_from(account));
        StaticGatewayAuthz { allowed }
    }
}

/// What a denied domain is told.
pub open spec fn unregistered_reason(domain: Seq<char>) -> Seq<char> {
    "domain "@ + domain + " is not registered with this gateway"@
}

impl GatewayAuthz for StaticGatewayAuthz {
    open spec fn decision(&self, direction: BridgeDirection, domain: Seq<char>) -> DecisionModel {
        if self@.contains_key(text::lower(domain)) {
            DecisionModel::Allowed { account: self@[text::lower(domain)] }
        } else {
            DecisionModel::Denied { reason: unregistered_reason(domain) }
        }
    }

    fn authorize(&self, direction: BridgeDirection, domain: &str) -> (r: AuthzDecision) {
        let c = text::chars_of(domain);
        let key = text::to_lower(c.as_slice());
        match self.allowed.get(key.as_slice()) {
            Some(account) => AuthzDecision::Allowed { account: account.clone() },
            None => AuthzDecision::Denied {
                reason: text::concat3("domain ", domain, " is not registered with this gateway"),
            },
        }
    }
}

/// One relayed message, as it is metered. The digest links the event to the message.
#[derive(Debug, PartialEq, Eq)]
pub struct MeterEvent {
    pub direction: BridgeDirection,
    pub account: String,
    pub domain: String,
    pub msg_digest: Vec<u8>,
    pub at: u64,
}

/// [`MeterEvent`] with its contents as sequences.
pub struct MeterEventModel {
    pub direction: BridgeDirection,
    pub account: Seq<char>,
    pub domain: Seq<char>,
    pub msg_digest: Seq<u8>,
    pub at: u64,
}

impl View for MeterEvent {
    type V = MeterEventModel;

    open spec fn view(&self) -> MeterEventModel {
        MeterEventModel {
            direction: self.direction,
            account: self.account@,
            domain: self.domain@,
            msg_digest: self.msg_digest@,
            at: self.at,
        }
    }
}

/// Where relayed messages are metered.
pub trait GatewayMeter: Sized {
    /// Whether a meter in state `before` that records an event may end up in state `after`. Unless a
    /// meter says more: in any state.
    open spec fn records(before: Self, event: MeterEventModel, after: Self) -> bool {
        true
    }

    /// Records an event.
    fn record(&mut self, event: &MeterEvent)
        ensures
            Self::records(*old(self), event@, *final(self)),
    ;
}

/// A meter that keeps the events.
pub struct CountingMeter {
    events: Vec<MeterEvent>,
}

impl View for CountingMeter {
    type V = Seq<MeterEventModel>;

    closed spec fn view(&self) -> Seq<MeterEventModel> {
        Seq::new(self.events@.len(), |i: int| self.events@[i]@)
    }
}

impl CountingMeter {
    /// A meter without events.
    pub fn new() -> (r: Self)
        ensures
            r@ == Seq::<MeterEventModel>::empty(),
    {
        let r = CountingMeter { events: Vec::new() };
        assert(r@ =~= Seq::<MeterEventModel>::empty());
        r
    }

    /// The number of events.
    pub fn count(&self) -> (r: usize)
        ensures
            r == self@.len(),
    {
        self.events.len()
    }
}

impl GatewayMeter for CountingMeter {
    open spec fn records(before: Self, event: MeterEventModel, after: Self) -> bool {
        after@ == before@.push(event)
    }

    fn record(&mut self, event: &MeterEvent) {
        let e = MeterEvent {
            direction: event.direction,
            account: event.account.clone(),
            domain: event.domain.clone(),
            msg_digest: slice_to_vec(event.msg_digest.as_slice()),
            at: event.at,
        };
        self.events.push(e);
        assert(self@ =~= old(self)@.push(event@));
    }
}

/// The gateway's own step on the way of a message: what the transport path of the message is told
/// by.
#[derive(Debug)]
pub struct GatewayHop {
    /// The domain that the gateway stands for.
    pub domain: String,
    /// The selector that its key is published under.
    pub selector: String,
    /// The public half of its key.
    pub gateway_key: Vec<u8>,
    /// The digest of the message without the verdicts that it brought with it.
    pub msg_digest: Vec<u8>,
    pub mail_from: String,
    pub received_at: u64,
    /// The place of the step: the gateway comes first.
    pub seq: u32,
}

/// [`GatewayHop`] with its contents as sequences.
pub struct HopModel {
    pub domain: Seq<char>,
    pub selector: Seq<char>,
    pub gateway_key: Seq<u8>,
    pub msg_digest: Seq<u8>,
    pub mail_from: Seq<char>,
    pub received_at: u64,
    pub seq: u32,
}

impl View for GatewayHop {
    type V = HopModel;

    open spec fn view(&self) -> HopModel {
        HopModel {
            domain: self.domain@,
            selector: self.selector@,
            gateway_key: self.gateway_key@,
            msg_digest: self.msg_digest@,
            mail_from: self.mail_from@,
            received_at: self.received_at,
            seq: self.seq,
        }
    }
}

impl Clone for GatewayHop {
    fn clone(&self) -> (r: Self)
        ensures
            r@ == self@,
    {
        GatewayHop {
            domain: self.domain.clone(),
            selector: self.selector.clone(),
            gateway_key: slice_to_vec(self.gateway_key.as_slice()),
            msg_digest: slice_to_vec(self.msg_digest.as_slice()),
            mail_from: self.mail_from.clone(),
            received_at: self.received_at,
            seq: self.seq,
        }
    }
}

/// How fast a message came.
#[derive(Debug, Clone, Copy, PartialEq, Eq, Structural)]
pub enum Tier {
    /// Directly.
    Fast,
}

/// How a message was mixed with others.
#[derive(Debug, Clone, Copy, PartialEq, Eq, Structural)]
pub enum Profile {
    /// It was not.
    NotApplicable,
}

/// The transport path of a message, as a client is told of it.
#[derive(Debug)]
pub struct ProvenanceRecord {
    pub tier: Tier,
    pub profile: Profile,
    /// How many steps there were at least, if the recipient's node has seen that.
    pub min_hops: Option<u64>,
    /// When the recipient's node saw the message, if it has.
    pub observed_at: Option<u64>,
    /// The gateways that touched the message, in the order of their steps.
    pub gateways: Vec<GatewayHop>,
}

/// [`ProvenanceRecord`] with its contents as sequences.
pub struct RecordModel {
    pub tier: Tier,
    pub profile: Profile,
    pub min_hops: Option<u64>,
    pub observed_at: Option<u64>,
    pub gateways: Seq<HopModel>,
}

impl View for ProvenanceRecord {
    type V = RecordModel;

    open spec fn view(&self) -> RecordModel {
        RecordModel {
            tier: self.tier,
            profile: self.profile,
            min_hops: self.min_hops,
            observed_at: self.observed_at,
            gateways: Seq::new(self.gateways@.len(), |i: int| self.gateways@[i]@),
        }
    }
}

/// The path of a message that came from legacy mail through one gateway. What only the recipient's
/// node can see is left open.
pub open spec fn path_through(hop: HopModel) -> RecordModel {
    RecordModel {
        tier: Tier::Fast,
        profile: Profile::NotApplicable,
        min_hops: None,
        observed_at: None,
        gateways: seq![hop],
    }
}

/// The path of a message that came from legacy mail through one gateway.
pub fn record_of(hop: GatewayHop) -> (r: ProvenanceRecord)
    ensures
        r@ == path_through(hop@),
{
    let ghost h = hop@;
    let mut gateways: Vec<GatewayHop> = Vec::new();
    gateways.push(hop);
    let r = ProvenanceRecord {
        tier: Tier::Fast,
        profile: Profile::NotApplicable,
        min_hops: None,
        observed_at: None,
        gateways,
    };
    assert(r@.gateways =~= seq![h]);
    r
}

/// The digest of a message: its content address.
pub fn msg_digest(rfc5322_bytes: &[u8]) -> (r: Vec<u8>)
    ensures
        r@ == identity::content_address(rfc5322_bytes@),
{
    identity::ContentId::of(rfc5322_bytes).0
}

// ---- laws --------------------------------------------------------------------------------------

/// A path through one gateway holds that gateway's hop and claims nothing else.
pub proof fn law_path_holds_one_hop(hop: HopModel)
    ensures
        path_through(hop).gateways == seq![hop],
        path_through(hop).tier == Tier::Fast,
        path_through(hop).profile == Profile::NotApplicable,
        path_through(hop).min_hops is None,
        path_through(hop).observed_at is None,
        unregistered_reason(hop.domain) == "domain "@ + hop.domain
            + " is not registered with this gateway"@,
{
}

/// A counting meter holds what was recorded, in order.
pub proof fn law_events_are_kept_in_order(
    before: CountingMeter,
    event: MeterEventModel,
    after: CountingMeter,
    i: int,
)
    requires
        CountingMeter::records(before, event, after),
    ensures
        after@.len() == before@.len() + 1,
        after@.last() == event,
        0 <= i < before@.len() ==> after@[i] == before@[i],
{
}

} // verus!
