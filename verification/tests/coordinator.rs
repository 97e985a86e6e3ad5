use wakala::coordinator::{check, Coordinator, Finding, GatewayCoordinator};
use wakala::substrate::{Cbor, IdentityKey};
use wakala::visibility::VisibilityClass;

fn gw(metered: bool) -> GatewayCoordinator {
    GatewayCoordinator::new(IdentityKey([0x11; 32]), Cbor(Vec::new()), metered)
}

#[test]
fn gateway_declares_terminating_and_is_contract_conformant() {
    let g = gw(false);
    assert_eq!(
        g.descriptor().visibility.class,
        VisibilityClass::Terminating
    );
    assert!(!g.descriptor().visibility.is_verifiably_blind());
    assert!(!g.descriptor().visibility.must_not_present_as_verified());

    let r = check(&g);
    assert!(r.is_conformant(), "{:?}", r.findings);
}

#[test]
fn a_metered_gateway_must_issue_receipts_and_still_conforms() {
    let r = check(&gw(true));
    assert!(r.is_conformant(), "{:?}", r.findings);
}

#[test]
fn a_coordinator_of_another_kind_is_found_out() {
    struct Wrong(GatewayCoordinator);
    let g = Wrong(gw(false));
    assert!(check(&g.0).findings.is_empty());
    let d = wakala::descriptor::Descriptor {
        kind: wakala::kinds::CoordinatorKind::Relay,
        ..g.0.descriptor().clone()
    };
    let arbiter = wakala::arbiter::ArbiterCoordinator::new(d, false);
    assert_eq!(check(&arbiter).findings, vec![Finding::KindMismatch]);
}
