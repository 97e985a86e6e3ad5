use wakala::arbiter::{arbiter_visibility, ArbiterCoordinator};
use wakala::coordinator::{check, Coordinator, Finding, Gate, Metering, SelfHost, Settlement};
use wakala::descriptor::{Cbor, Descriptor};
use wakala::identity::IdentityKey;
use wakala::kinds::CoordinatorKind;
use wakala::visibility::{AssuranceLevel, ContentVisibility, VisibilityClass};

fn ik(seed: u8) -> IdentityKey {
    IdentityKey::from_seed(&[seed; 32])
}

#[test]
fn signed_arbiter_descriptor_verifies_and_declares_terminating_disclosed() {
    let (_coord, signed) = ArbiterCoordinator::signed(&ik(1), Cbor::empty(), None, false);
    assert!(signed.verify().is_ok(), "the signature must verify");
    assert_eq!(signed.descriptor.kind.as_str(), "arbiter");
    assert_eq!(signed.descriptor.visibility.class, VisibilityClass::Terminating);
    assert_eq!(signed.descriptor.visibility.level, AssuranceLevel::Declared);
}

#[test]
fn a_free_arbiter_is_fully_conformant() {
    let (coord, _signed) = ArbiterCoordinator::signed(&ik(2), Cbor::empty(), None, false);
    let report = check(&coord);
    assert!(report.is_conformant(), "{:?}", report.findings);
}

#[test]
fn a_metered_arbiter_is_also_conformant() {
    let (coord, _signed) = ArbiterCoordinator::signed(&ik(3), Cbor::empty(), None, true);
    let report = check(&coord);
    assert!(report.is_conformant(), "{:?}", report.findings);
    assert!(matches!(coord.metering(), Metering::SignedReceiptsToPayer));
}

#[test]
fn arbiter_has_no_delivery_path_to_gate() {
    let (coord, _signed) = ArbiterCoordinator::signed(&ik(4), Cbor::empty(), None, false);
    assert!(matches!(coord.delivery_path_gate(), Gate::NoDeliveryPath));
}

#[test]
fn arbiter_is_not_the_scarce_reachability_exception() {
    assert!(!CoordinatorKind::Arbiter.is_scarce_reachability());
    let (coord, _signed) = ArbiterCoordinator::signed(&ik(5), Cbor::empty(), None, false);
    assert!(matches!(coord.self_host(), SelfHost::Backstop));
}

#[test]
fn arbiter_mints_no_token() {
    let (coord, _signed) = ArbiterCoordinator::signed(&ik(6), Cbor::empty(), None, false);
    assert!(matches!(coord.settlement(), Settlement::ExistingAssetsOnly));
}

#[test]
fn lib_wrong_kind_descriptor_is_a_coord1_violation() {
    let key = ik(7);
    let descriptor = Descriptor {
        identity: key.public(),
        kind: CoordinatorKind::Gateway,
        visibility: arbiter_visibility(),
        policy: Cbor::empty(),
        tariff: None,
    };
    let coord = ArbiterCoordinator::new(descriptor, false);
    let report = check(&coord);
    assert!(!report.is_conformant());
}

#[test]
fn an_arbiter_that_hides_that_it_reads_is_found_out() {
    for (class, level) in [
        (VisibilityClass::Blind, AssuranceLevel::Declared),
        (VisibilityClass::Terminating, AssuranceLevel::Attested),
    ] {
        let descriptor = Descriptor {
            identity: ik(8).public(),
            kind: CoordinatorKind::Arbiter,
            visibility: ContentVisibility::new(class, level),
            policy: Cbor::empty(),
            tariff: None,
        };
        let report = check(&ArbiterCoordinator::new(descriptor, false));
        assert_eq!(report.findings, vec![Finding::VisibilityMismatch]);
    }
}
