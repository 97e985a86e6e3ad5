//! Compute: a coordinator that runs jobs for others.
//!
//! By default it sees the jobs, and says so. A job can run where the hardware attests that it
//! cannot be read.

use crate::coordinator;
use crate::coordinator::{Coordinator, Gate, LockIn, Metering, Posture, SelfHost, Settlement};
use crate::descriptor;
use crate::descriptor::{Cbor, Descriptor, DescriptorModel, SignedDescriptor, Tariff};
use crate::identity;
use crate::identity::IdentityKey;
use crate::kinds::CoordinatorKind;
use crate::model;
use crate::visibility;
use crate::visibility::{AssuranceLevel, ContentVisibility, VisibilityClass};
use vstd::prelude::*;

verus! {

/// How jobs are run.
#[derive(Clone, Copy, PartialEq, Eq, Debug, Structural)]
pub enum ComputeChannel {
    /// Where the operator sees them.
    Terminating,
    /// Where the hardware attests that the operator cannot.
    Attested,
}

/// The visibility that is declared for jobs that are run so.
pub open spec fn channel_visibility(c: ComputeChannel) -> ContentVisibility {
    match c {
        ComputeChannel::Terminating => ContentVisibility {
            class: VisibilityClass::Terminating,
            level: AssuranceLevel::Declared,
        },
        ComputeChannel::Attested => ContentVisibility {
            class: VisibilityClass::Blind,
            level: AssuranceLevel::Attested,
        },
    }
}

impl ComputeChannel {
    /// The visibility that is declared for jobs that are run so.
    pub fn declared_visibility(self) -> (r: ContentVisibility)
        ensures
            r == channel_visibility(self),
    {
        match self {
            ComputeChannel::Terminating => ContentVisibility::new(
                VisibilityClass::Terminating,
                AssuranceLevel::Declared,
            ),
            ComputeChannel::Attested => ContentVisibility::new(
                VisibilityClass::Blind,
                AssuranceLevel::Attested,
            ),
        }
    }
}

/// A compute coordinator.
pub struct ComputeCoordinator {
    descriptor: Descriptor,
    /// Whether jobs are metered.
    metered: bool,
}

/// What a compute coordinator with a descriptor answers for.
pub open spec fn compute_posture(d: DescriptorModel, metered: bool) -> Posture {
    Posture {
        kind: CoordinatorKind::Compute,
        descriptor: d,
        lock_in: LockIn::Free,
        self_host: SelfHost::Backstop,
        gate: Gate::NoDeliveryPath,
        metering: coordinator::metering_if(metered),
        settlement: Settlement::ExistingAssetsOnly,
    }
}

/// The descriptor of a compute coordinator.
pub open spec fn compute_descriptor(
    identity: Seq<u8>,
    channel: ComputeChannel,
    policy: Seq<u8>,
    tariff: Option<descriptor::TariffModel>,
) -> DescriptorModel {
    DescriptorModel {
        identity,
        kind: CoordinatorKind::Compute,
        visibility: channel_visibility(channel),
        policy,
        tariff,
    }
}

impl ComputeCoordinator {
    /// A compute coordinator with a descriptor. What the descriptor says is not looked at here: see
    /// [`coordinator::check`].
    pub fn new(descriptor: Descriptor, metered: bool) -> (r: Self)
        ensures
            r.posture() == compute_posture(descriptor@, metered),
    {
        ComputeCoordinator { descriptor, metered }
    }

    /// A compute coordinator with a fresh descriptor, and that descriptor signed.
    pub fn signed(
        ik: &IdentityKey,
        channel: ComputeChannel,
        policy: Cbor,
        tariff: Option<Tariff>,
        metered: bool,
    ) -> (r: (Self, SignedDescriptor))
        ensures
            ({
                let d = compute_descriptor(
                    identity::ed25519_public(ik@),
                    channel,
                    policy@,
                    model::opt_view(tariff),
                );
                &&& r.0.posture() == compute_posture(d, metered)
                &&& r.1.descriptor@ == d
                &&& r.1.sig@ == identity::ed25519_signature(
                    ik@,
                    descriptor::label(descriptor::DESCRIPTOR_DS),
                    descriptor::descriptor_body(d),
                )
                &&& descriptor::signed_verdict(r.1@) is Ok
            }),
    {
        let descriptor = Descriptor {
            identity: ik.public(),
            kind: CoordinatorKind::Compute,
            visibility: channel.declared_visibility(),
            policy,
            tariff,
        };
        let signed = descriptor.sign(ik);
        (Self::new(descriptor, metered), signed)
    }
}

impl Coordinator for ComputeCoordinator {
    closed spec fn posture(&self) -> Posture {
        compute_posture(self.descriptor@, self.metered)
    }

    fn kind(&self) -> (r: CoordinatorKind) {
        CoordinatorKind::Compute
    }

    fn descriptor(&self) -> (r: &Descriptor) {
        &self.descriptor
    }

    /// The next job can go to another operator.
    fn lock_in(&self) -> (r: LockIn) {
        LockIn::Free
    }

    /// Anyone with the hardware can run one.
    fn self_host(&self) -> (r: SelfHost) {
        SelfHost::Backstop
    }

    /// A job is on no delivery path.
    fn delivery_path_gate(&self) -> (r: Gate) {
        Gate::NoDeliveryPath
    }

    fn metering(&self) -> (r: Metering) {
        coordinator::metering_for(self.metered)
    }

    fn settlement(&self) -> (r: Settlement) {
        Settlement::ExistingAssetsOnly
    }
}

/// A compute coordinator has something wrong with it exactly where its descriptor is of another
/// kind or declares the visibility of neither channel.
pub proof fn law_compute_conforms(d: DescriptorModel, metered: bool)
    ensures
        coordinator::findings_on(compute_posture(d, metered)).len() == 0 <==> {
            &&& d.kind == CoordinatorKind::Compute
            &&& exists|c: ComputeChannel| d.visibility == #[trigger] channel_visibility(c)
        },
{
    assert(channel_visibility(ComputeChannel::Terminating) == channel_visibility(
        ComputeChannel::Terminating,
    ));
    assert(channel_visibility(ComputeChannel::Attested) == channel_visibility(
        ComputeChannel::Attested,
    ));
}

/// The descriptor of a compute coordinator with either channel is one that conforms.
pub proof fn law_fresh_compute_conforms(
    identity: Seq<u8>,
    c: ComputeChannel,
    policy: Seq<u8>,
    tariff: Option<descriptor::TariffModel>,
    metered: bool,
)
    ensures
        coordinator::findings_on(
            compute_posture(compute_descriptor(identity, c, policy, tariff), metered),
        ).len() == 0,
{
    law_compute_conforms(compute_descriptor(identity, c, policy, tariff), metered);
}

/// A job is verifiably hidden exactly where the hardware attests it, and what is not hidden is not
/// said to be.
pub proof fn law_only_attested_is_blind(c: ComputeChannel)
    ensures
        visibility::verifiably_blind(channel_visibility(c)) <==> c == ComputeChannel::Attested,
        !visibility::unverified_blind(channel_visibility(c)),
{
}

/// What a provider of computing answers for: it binds nobody, can be had at home, stands in no delivery
/// path, and is paid in what there is already. It sees all of what it computes on, as it declares, or
/// nothing, as is attested.
pub proof fn law_what_a_provider_answers_for(
    d: DescriptorModel,
    metered: bool,
    identity: Seq<u8>,
    channel: ComputeChannel,
    policy: Seq<u8>,
    tariff: Option<descriptor::TariffModel>,
)
    ensures
        ({
            let p = compute_posture(d, metered);
            let own = compute_descriptor(identity, channel, policy, tariff);
            &&& p.kind == CoordinatorKind::Compute && p.descriptor == d
            &&& p.lock_in == LockIn::Free && p.self_host == SelfHost::Backstop && p.gate
                == Gate::NoDeliveryPath && p.settlement == Settlement::ExistingAssetsOnly
            &&& metered <==> p.metering == Metering::SignedReceiptsToPayer
            &&& own.identity == identity && own.policy == policy && own.tariff == tariff
            &&& own.kind == CoordinatorKind::Compute
            &&& channel == ComputeChannel::Terminating ==> own.visibility.class
                == VisibilityClass::Terminating && own.visibility.level == AssuranceLevel::Declared
            &&& channel == ComputeChannel::Attested ==> own.visibility.class == VisibilityClass::Blind
                && own.visibility.level == AssuranceLevel::Attested
        }),
{
}

} // verus!
