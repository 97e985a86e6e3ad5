use wakala::compute::{ComputeChannel, ComputeCoordinator};
use wakala::coordinator::{check, Coordinator, Finding, Gate, Metering, SelfHost, Settlement};
use wakala::descriptor::{Cbor, Descriptor};
use wakala::identity::IdentityKey;
use wakala::kinds::CoordinatorKind;
use wakala::visibility::{AssuranceLevel, ContentVisibility, VisibilityClass};

fn ik(seed: u8) -> IdentityKey {
    IdentityKey::from_seed(&[seed; 32])
}

#[test]
fn signed_compute_descriptor_verifies_and_declares_terminating_by_default() {
    let (_coord, signed) =
        ComputeCoordinator::signed(&ik(1), ComputeChannel::Terminating, Cbor::empty(), None, false);
    assert!(signed.verify().is_ok(), "the signature must verify");
    assert_eq!(signed.descriptor.kind.as_str(), "compute");
    assert_eq!(signed.descriptor.visibility.class, VisibilityClass::Terminating);
    assert_eq!(signed.descriptor.visibility.level, AssuranceLevel::Declared);
}

#[test]
fn attested_blind_compute_declares_blind_attested() {
    let (_coord, signed) =
        ComputeCoordinator::signed(&ik(2), ComputeChannel::Attested, Cbor::empty(), None, false);
    assert_eq!(signed.descriptor.visibility.class, VisibilityClass::Blind);
    assert_eq!(signed.descriptor.visibility.level, AssuranceLevel::Attested);
    assert!(signed.descriptor.visibility.is_verifiably_blind());
}

#[test]
fn a_free_compute_coordinator_is_fully_conformant() {
    let (coord, _signed) =
        ComputeCoordinator::signed(&ik(3), ComputeChannel::Terminating, Cbor::empty(), None, false);
    let report = check(&coord);
    assert!(report.is_conformant(), "{:?}", report.findings);
}

#[test]
fn a_metered_compute_coordinator_is_also_conformant() {
    let (coord, _signed) =
        ComputeCoordinator::signed(&ik(4), ComputeChannel::Terminating, Cbor::empty(), None, true);
    let report = check(&coord);
    assert!(report.is_conformant(), "{:?}", report.findings);
    assert!(matches!(coord.metering(), Metering::SignedReceiptsToPayer));
}

#[test]
fn compute_has_no_delivery_path_to_gate() {
    let (coord, _signed) =
        ComputeCoordinator::signed(&ik(5), ComputeChannel::Terminating, Cbor::empty(), None, false);
    assert!(matches!(coord.delivery_path_gate(), Gate::NoDeliveryPath));
}

#[test]
fn compute_is_not_the_scarce_reachability_exception() {
    assert!(!CoordinatorKind::Compute.is_scarce_reachability());
    let (coord, _signed) =
        ComputeCoordinator::signed(&ik(6), ComputeChannel::Terminating, Cbor::empty(), None, false);
    assert!(matches!(coord.self_host(), SelfHost::Backstop));
}

#[test]
fn compute_mints_no_token() {
    let (coord, _signed) =
        ComputeCoordinator::signed(&ik(7), ComputeChannel::Terminating, Cbor::empty(), None, false);
    assert!(matches!(coord.settlement(), Settlement::ExistingAssetsOnly));
}

#[test]
fn a_compute_coordinator_with_another_kind_of_descriptor_does_not_conform() {
    let key = ik(8);
    let descriptor = Descriptor {
        identity: key.public(),
        kind: CoordinatorKind::Relay,
        visibility: ComputeChannel::Terminating.declared_visibility(),
        policy: Cbor::empty(),
        tariff: None,
    };
    let coord = ComputeCoordinator::new(descriptor, false);
    let report = check(&coord);
    assert!(!report.is_conformant());
}

#[test]
fn a_compute_coordinator_declares_what_a_channel_has() {
    let found = |kind: CoordinatorKind, visibility: ContentVisibility| {
        let descriptor = Descriptor {
            identity: ik(9).public(),
            kind,
            visibility,
            policy: Cbor::empty(),
            tariff: None,
        };
        check(&ComputeCoordinator::new(descriptor, false)).findings
    };
    for channel in [ComputeChannel::Terminating, ComputeChannel::Attested] {
        assert!(found(CoordinatorKind::Compute, channel.declared_visibility()).is_empty());
    }
    let claimed = ContentVisibility::new(VisibilityClass::Blind, AssuranceLevel::Declared);
    assert_eq!(found(CoordinatorKind::Compute, claimed), vec![Finding::VisibilityMismatch]);
    assert_eq!(
        found(CoordinatorKind::Relay, claimed),
        vec![Finding::KindMismatch, Finding::VisibilityMismatch]
    );
}
