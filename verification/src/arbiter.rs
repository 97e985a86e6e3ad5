//! The arbiter: a coordinator that rules on a dispute that two parties bring to it.
//!
//! It reads the evidence, and says so. It sits on no delivery path. What it has at stake is looked
//! up where it is held (see [`stake`](crate::stake)), never read from its descriptor.

use crate::coordinator;
use crate::coordinator::{Coordinator, Gate, LockIn, Metering, Posture, SelfHost, Settlement};
use crate::descriptor;
use crate::descriptor::{Cbor, Descriptor, DescriptorModel, SignedDescriptor, Tariff};
use crate::identity;
use crate::identity::IdentityKey;
use crate::kinds::CoordinatorKind;
use crate::model;
use crate::visibility::{AssuranceLevel, ContentVisibility, VisibilityClass};
use vstd::prelude::*;

verus! {

/// What an arbiter declares: it reads the evidence.
pub open spec fn evidence_visibility() -> ContentVisibility {
    ContentVisibility { class: VisibilityClass::Terminating, level: AssuranceLevel::Declared }
}

/// What an arbiter declares: it reads the evidence.
pub fn arbiter_visibility() -> (r: ContentVisibility)
    ensures
        r == evidence_visibility(),
{
    ContentVisibility::new(VisibilityClass::Terminating, AssuranceLevel::Declared)
}

/// An arbiter as a coordinator.
pub struct ArbiterCoordinator {
    descriptor: Descriptor,
    /// Whether rulings are metered.
    metered: bool,
}

/// What an arbiter with a descriptor answers for.
pub open spec fn arbiter_posture(d: DescriptorModel, metered: bool) -> Posture {
    Posture {
        kind: CoordinatorKind::Arbiter,
        descriptor: d,
        lock_in: LockIn::Free,
        self_host: SelfHost::Backstop,
        gate: Gate::NoDeliveryPath,
        metering: coordinator::metering_if(metered),
        settlement: Settlement::ExistingAssetsOnly,
    }
}

/// The descriptor of an arbiter.
pub open spec fn arbiter_descriptor(
    identity: Seq<u8>,
    policy: Seq<u8>,
    tariff: Option<descriptor::TariffModel>,
) -> DescriptorModel {
    DescriptorModel {
        identity,
        kind: CoordinatorKind::Arbiter,
        visibility: evidence_visibility(),
        policy,
        tariff,
    }
}

impl ArbiterCoordinator {
    /// An arbiter with a descriptor. What the descriptor says is not looked at here: see
    /// [`coordinator::check`].
    pub fn new(descriptor: Descriptor, metered: bool) -> (r: Self)
        ensures
            r.posture() == arbiter_posture(descriptor@, metered),
    {
        ArbiterCoordinator { descriptor, metered }
    }

    /// An arbiter with a fresh descriptor, and that descriptor signed.
    pub fn signed(ik: &IdentityKey, policy: Cbor, tariff: Option<Tariff>, metered: bool) -> (r: (
        Self,
        SignedDescriptor,
    ))
        ensures
            ({
                let d = arbiter_descriptor(
                    identity::ed25519_public(ik@),
                    policy@,
                    model::opt_view(tariff),
                );
                &&& r.0.posture() == arbiter_posture(d, metered)
                &&& r.1.descriptor@ == d
                &&& r.1.sig@ == identity::ed25519_signature(
                    ik@,
                    descriptor::label(descriptor::DESCRIPTOR_DS),
                    descriptor::descriptor_body(d),
                )
                &&& descriptor::signed_verdict(r.1@) is Ok
            }),
    {
        let descriptor = Descriptor {
            identity: ik.public(),
            kind: CoordinatorKind::Arbiter,
            visibility: arbiter_visibility(),
            policy,
            tariff,
        };
        let signed = descriptor.sign(ik);
        (Self::new(descriptor, metered), signed)
    }
}

impl Coordinator for ArbiterCoordinator {
    closed spec fn posture(&self) -> Posture {
        arbiter_posture(self.descriptor@, self.metered)
    }

    fn kind(&self) -> (r: CoordinatorKind) {
        CoordinatorKind::Arbiter
    }

    fn descriptor(&self) -> (r: &Descriptor) {
        &self.descriptor
    }

    /// Another arbiter can be chosen for the next dispute.
    fn lock_in(&self) -> (r: LockIn) {
        LockIn::Free
    }

    /// Anyone who can meet the stake can run one.
    fn self_host(&self) -> (r: SelfHost) {
        SelfHost::Backstop
    }

    /// A ruling is on no delivery path.
    fn delivery_path_gate(&self) -> (r: Gate) {
        Gate::NoDeliveryPath
    }

    fn metering(&self) -> (r: Metering) {
        coordinator::metering_for(self.metered)
    }

    fn settlement(&self) -> (r: Settlement) {
        Settlement::ExistingAssetsOnly
    }
}

/// An arbiter has something wrong with it exactly where its descriptor is of another kind or does not
/// declare that the evidence is read.
pub proof fn law_arbiter_conforms(d: DescriptorModel, metered: bool)
    ensures
        coordinator::findings_on(arbiter_posture(d, metered)).len() == 0 <==> d.kind
            == CoordinatorKind::Arbiter && d.visibility == evidence_visibility(),
{
}

/// What an arbiter answers for: it binds nobody, can be had at home, stands in no delivery path, and is
/// paid in what there is already. Its descriptor is its own.
pub proof fn law_what_an_arbiter_answers_for(
    d: DescriptorModel,
    metered: bool,
    identity: Seq<u8>,
    policy: Seq<u8>,
    tariff: Option<descriptor::TariffModel>,
)
    ensures
        ({
            let p = arbiter_posture(d, metered);
            let own = arbiter_descriptor(identity, policy, tariff);
            &&& p.kind == CoordinatorKind::Arbiter && p.descriptor == d
            &&& p.lock_in == LockIn::Free && p.self_host == SelfHost::Backstop && p.gate
                == Gate::NoDeliveryPath && p.settlement == Settlement::ExistingAssetsOnly
            &&& metered <==> p.metering == Metering::SignedReceiptsToPayer
            &&& own.identity == identity && own.policy == policy && own.tariff == tariff
            &&& own.kind == CoordinatorKind::Arbiter && own.visibility.class
                == VisibilityClass::Terminating && own.visibility.level == AssuranceLevel::Declared
        }),
{
}

} // verus!
