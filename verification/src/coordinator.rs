//! What every coordinator answers for, and whether the answers hold together.
//!
//! The mail gateway is the one kind here that sees content: legacy mail is plaintext. It says so.

use crate::arbiter;
use crate::compute;
use crate::compute::ComputeChannel;
use crate::descriptor;
use crate::descriptor::{Descriptor, DescriptorModel};
use crate::kinds;
use crate::kinds::CoordinatorKind;
use crate::substrate;
use crate::visibility::{AssuranceLevel, ContentVisibility, VisibilityClass};
use vstd::prelude::*;
use vstd::slice::slice_to_vec;

verus! {

/// What holds a user to a coordinator.
#[derive(Clone, Copy, PartialEq, Eq, Debug, Structural)]
pub enum LockIn {
    /// Nothing: the coordinator is swapped without moving data or identity.
    Free,
}

/// Whether anyone can run the coordinator for themselves.
#[derive(Clone, Copy, PartialEq, Eq, Debug, Structural)]
pub enum SelfHost {
    /// Anyone can.
    Backstop,
    /// Reachability that is scarce stands in the way, which is disclosed.
    ScarceReachabilityException,
}

/// What decides on the delivery path.
#[derive(Clone, Copy, PartialEq, Eq, Debug, Structural)]
pub enum Gate {
    /// Who sends and how much, never what is sent.
    Authorization,
    /// There is no delivery path.
    NoDeliveryPath,
}

/// How usage is metered.
#[derive(Clone, Copy, PartialEq, Eq, Debug, Structural)]
pub enum Metering {
    NotMetered,
    /// The one who pays gets signed receipts.
    SignedReceiptsToPayer,
}

/// What is paid in.
#[derive(Clone, Copy, PartialEq, Eq, Debug, Structural)]
pub enum Settlement {
    ExistingAssetsOnly,
}

/// All that a coordinator answers for.
pub struct Posture {
    pub kind: CoordinatorKind,
    pub descriptor: DescriptorModel,
    pub lock_in: LockIn,
    pub self_host: SelfHost,
    pub gate: Gate,
    pub metering: Metering,
    pub settlement: Settlement,
}

/// A coordinator.
pub trait Coordinator {
    /// All that the coordinator answers for.
    spec fn posture(&self) -> Posture;

    fn kind(&self) -> (r: CoordinatorKind)
        ensures
            r == self.posture().kind,
    ;

    fn descriptor(&self) -> (r: &Descriptor)
        ensures
            r@ == self.posture().descriptor,
    ;

    fn lock_in(&self) -> (r: LockIn)
        ensures
            r == self.posture().lock_in,
    ;

    fn self_host(&self) -> (r: SelfHost)
        ensures
            r == self.posture().self_host,
    ;

    fn delivery_path_gate(&self) -> (r: Gate)
        ensures
            r == self.posture().gate,
    ;

    fn metering(&self) -> (r: Metering)
        ensures
            r == self.posture().metering,
    ;

    fn settlement(&self) -> (r: Settlement)
        ensures
            r == self.posture().settlement,
    ;
}

/// How usage is metered where it is metered, or not.
pub open spec fn metering_if(metered: bool) -> Metering {
    if metered {
        Metering::SignedReceiptsToPayer
    } else {
        Metering::NotMetered
    }
}

/// [`metering_if`], computed.
pub fn metering_for(metered: bool) -> (r: Metering)
    ensures
        r == metering_if(metered),
{
    if metered {
        Metering::SignedReceiptsToPayer
    } else {
        Metering::NotMetered
    }
}

// ---- whether the answers hold together ---------------------------------------------------------

/// What is wrong with a coordinator.
#[derive(Clone, Copy, PartialEq, Eq, Debug, Structural)]
pub enum Finding {
    /// The descriptor is of another kind.
    KindMismatch,
    /// The descriptor declares a visibility that the coordinator's kind does not have.
    VisibilityMismatch,
    /// Scarce reachability is claimed by a kind that has none.
    NotScarce,
}

/// What a mail gateway declares: it sees the mail.
pub open spec fn mail_visibility() -> ContentVisibility {
    ContentVisibility { class: VisibilityClass::Terminating, level: AssuranceLevel::Declared }
}

/// Whether a coordinator of a kind may declare a visibility: a mail gateway and an arbiter see what
/// they handle and say so, and a compute coordinator declares what one of its channels has. Of the
/// other kinds the operator's word counts.
pub open spec fn visibility_fits(kind: CoordinatorKind, v: ContentVisibility) -> bool {
    match kind {
        CoordinatorKind::Gateway => v == mail_visibility(),
        CoordinatorKind::Arbiter => v == arbiter::evidence_visibility(),
        CoordinatorKind::Compute => v == compute::channel_visibility(ComputeChannel::Terminating)
            || v == compute::channel_visibility(ComputeChannel::Attested),
        _ => true,
    }
}

fn fits(kind: CoordinatorKind, v: ContentVisibility) -> (r: bool)
    ensures
        r == visibility_fits(kind, v),
{
    match kind {
        CoordinatorKind::Gateway => v == ContentVisibility::new(
            VisibilityClass::Terminating,
            AssuranceLevel::Declared,
        ),
        CoordinatorKind::Arbiter => v == arbiter::arbiter_visibility(),
        CoordinatorKind::Compute => v == ComputeChannel::Terminating.declared_visibility() || v
            == ComputeChannel::Attested.declared_visibility(),
        _ => true,
    }
}

/// What is wrong with a posture.
pub open spec fn findings_on(p: Posture) -> Seq<Finding> {
    (if p.descriptor.kind == p.kind {
        Seq::<Finding>::empty()
    } else {
        seq![Finding::KindMismatch]
    }) + (if visibility_fits(p.kind, p.descriptor.visibility) {
        Seq::<Finding>::empty()
    } else {
        seq![Finding::VisibilityMismatch]
    }) + (if p.self_host == SelfHost::ScarceReachabilityException && !kinds::scarce_reachability(
        p.kind,
    ) {
        seq![Finding::NotScarce]
    } else {
        Seq::<Finding>::empty()
    })
}

/// What was found to be wrong with a coordinator.
#[derive(Debug)]
pub struct Report {
    pub findings: Vec<Finding>,
}

impl Report {
    /// Whether nothing is wrong.
    pub fn is_conformant(&self) -> (r: bool)
        ensures
            r == (self.findings@.len() == 0),
    {
        self.findings.len() == 0
    }
}

/// Finds what is wrong with a coordinator: a descriptor of another kind, a visibility that its kind
/// does not have, and a claim to an exception that its kind has no part in.
pub fn check<C: Coordinator>(coordinator: &C) -> (r: Report)
    ensures
        r.findings@ == findings_on(coordinator.posture()),
{
    let mut findings: Vec<Finding> = Vec::new();
    let kind = coordinator.kind();
    if coordinator.descriptor().kind != kind {
        findings.push(Finding::KindMismatch);
    }
    if !fits(kind, coordinator.descriptor().visibility) {
        findings.push(Finding::VisibilityMismatch);
    }
    let exception = match coordinator.self_host() {
        SelfHost::ScarceReachabilityException => true,
        SelfHost::Backstop => false,
    };
    if exception && !kind.is_scarce_reachability() {
        findings.push(Finding::NotScarce);
    }
    assert(findings@ =~= findings_on(coordinator.posture()));
    Report { findings }
}

/// A posture has nothing wrong with it exactly where the descriptor is of its kind and declares what
/// its kind may declare, and only a kind with scarce reachability claims the exception.
pub proof fn law_conformant_postures(p: Posture)
    ensures
        findings_on(p).len() == 0 <==> p.descriptor.kind == p.kind && visibility_fits(
            p.kind,
            p.descriptor.visibility,
        ) && (p.self_host == SelfHost::ScarceReachabilityException ==> kinds::scarce_reachability(p.kind)),
{
}

// ---- the mail gateway --------------------------------------------------------------------------

/// The mail gateway as a coordinator.
pub struct GatewayCoordinator {
    descriptor: Descriptor,
    /// Whether usage is metered.
    metered: bool,
}

/// What a mail gateway with an identity and a policy answers for.
pub open spec fn gateway_posture(identity: Seq<u8>, policy: Seq<u8>, metered: bool) -> Posture {
    Posture {
        kind: CoordinatorKind::Gateway,
        descriptor: DescriptorModel {
            identity,
            kind: CoordinatorKind::Gateway,
            visibility: mail_visibility(),
            policy,
            tariff: None,
        },
        lock_in: LockIn::Free,
        self_host: SelfHost::ScarceReachabilityException,
        gate: Gate::Authorization,
        metering: metering_if(metered),
        settlement: Settlement::ExistingAssetsOnly,
    }
}

impl GatewayCoordinator {
    /// A gateway that declares that it sees content, and charges nothing.
    pub fn new(identity: substrate::IdentityKey, policy: substrate::Cbor, metered: bool) -> (r:
        Self)
        ensures
            r.posture() == gateway_posture(identity.0@, policy.0@, metered),
    {
        GatewayCoordinator {
            descriptor: Descriptor {
                identity: slice_to_vec(vstd::array::array_as_slice(&identity.0)),
                kind: CoordinatorKind::Gateway,
                visibility: ContentVisibility::new(
                    VisibilityClass::Terminating,
                    AssuranceLevel::Declared,
                ),
                policy: descriptor::Cbor(policy.0),
                tariff: None,
            },
            metered,
        }
    }
}

impl Coordinator for GatewayCoordinator {
    closed spec fn posture(&self) -> Posture {
        Posture {
            kind: CoordinatorKind::Gateway,
            descriptor: self.descriptor@,
            lock_in: LockIn::Free,
            self_host: SelfHost::ScarceReachabilityException,
            gate: Gate::Authorization,
            metering: metering_if(self.metered),
            settlement: Settlement::ExistingAssetsOnly,
        }
    }

    fn kind(&self) -> (r: CoordinatorKind) {
        CoordinatorKind::Gateway
    }

    fn descriptor(&self) -> (r: &Descriptor) {
        &self.descriptor
    }

    /// A gateway is swapped by a change in the DNS; keys, mail and history are elsewhere.
    fn lock_in(&self) -> (r: LockIn) {
        LockIn::Free
    }

    /// An address with a good name and an open mail port is handed out by others.
    fn self_host(&self) -> (r: SelfHost) {
        SelfHost::ScarceReachabilityException
    }

    /// Senders are authenticated and limited. Nothing is decided on content.
    fn delivery_path_gate(&self) -> (r: Gate) {
        Gate::Authorization
    }

    fn metering(&self) -> (r: Metering) {
        metering_for(self.metered)
    }

    fn settlement(&self) -> (r: Settlement) {
        Settlement::ExistingAssetsOnly
    }
}

/// A mail gateway has nothing wrong with it, metered or not.
pub proof fn law_gateway_conforms(identity: Seq<u8>, policy: Seq<u8>, metered: bool)
    ensures
        findings_on(gateway_posture(identity, policy, metered)).len() == 0,
{
}

/// What is found wrong with a coordinator: that its descriptor is of another kind; that it sees more or
/// less than its kind does, where that is known; and that it claims scarcity where there is none.
/// Nothing else is found.
pub proof fn law_each_finding_has_its_reason(p: Posture)
    ensures
        ({
            let f = findings_on(p);
            let v = p.descriptor.visibility;
            let open = v.class == VisibilityClass::Terminating && v.level == AssuranceLevel::Declared;
            let sealed = v.class == VisibilityClass::Blind && v.level == AssuranceLevel::Attested;
            let fits = (p.kind == CoordinatorKind::Gateway ==> open) && (p.kind
                == CoordinatorKind::Arbiter ==> open) && (p.kind == CoordinatorKind::Compute ==> open
                || sealed);
            let scarce = p.kind == CoordinatorKind::Gateway || p.kind
                == CoordinatorKind::ReachabilityAdapter;
            &&& f.contains(Finding::KindMismatch) <==> p.descriptor.kind != p.kind
            &&& f.contains(Finding::VisibilityMismatch) <==> !fits
            &&& f.contains(Finding::NotScarce) <==> p.self_host
                == SelfHost::ScarceReachabilityException && !scarce
            &&& f.len() <= 3
        }),
{
    let a = if p.descriptor.kind == p.kind {
        Seq::<Finding>::empty()
    } else {
        seq![Finding::KindMismatch]
    };
    let b = if visibility_fits(p.kind, p.descriptor.visibility) {
        Seq::<Finding>::empty()
    } else {
        seq![Finding::VisibilityMismatch]
    };
    let c = if p.self_host == SelfHost::ScarceReachabilityException && !kinds::scarce_reachability(
        p.kind,
    ) {
        seq![Finding::NotScarce]
    } else {
        Seq::<Finding>::empty()
    };
    let f = a + b + c;
    assert(f == findings_on(p));
    if a.len() > 0 {
        assert(f[0] == Finding::KindMismatch);
    }
    if b.len() > 0 {
        assert(f[a.len() as int] == Finding::VisibilityMismatch);
    }
    if c.len() > 0 {
        assert(f[(a.len() + b.len()) as int] == Finding::NotScarce);
    }
    assert forall|x: Finding| f.contains(x) implies a.contains(x) || b.contains(x) || c.contains(x) by {
        let i = choose|i: int| 0 <= i < f.len() && f[i] == x;
        if i < a.len() {
            assert(a[i] == x);
        } else if i < a.len() + b.len() {
            assert(b[i - a.len()] == x);
        } else {
            assert(c[i - a.len() - b.len()] == x);
        }
    }
}

/// What a gateway answers for: it binds nobody, claims scarcity, lets through whom it authorizes, meters
/// with signed receipts if it meters, and is paid in what there is already.
pub proof fn law_what_a_gateway_answers_for(identity: Seq<u8>, policy: Seq<u8>, metered: bool)
    ensures
        ({
            let p = gateway_posture(identity, policy, metered);
            &&& p.kind == CoordinatorKind::Gateway && p.descriptor.kind == CoordinatorKind::Gateway
            &&& p.descriptor.identity == identity && p.descriptor.policy == policy
                && p.descriptor.tariff is None
            &&& p.lock_in == LockIn::Free
            &&& p.self_host == SelfHost::ScarceReachabilityException
            &&& p.gate == Gate::Authorization
            &&& p.settlement == Settlement::ExistingAssetsOnly
            &&& metered <==> p.metering == Metering::SignedReceiptsToPayer
            &&& !metered <==> p.metering == Metering::NotMetered
        }),
{
}

} // verus!
