use wakala::kinds::CoordinatorKind;
use wakala::visibility::VisibilityClass;

#[test]
fn as_str_from_str_round_trips_every_kind() {
    for k in [
        CoordinatorKind::Gateway,
        CoordinatorKind::Relay,
        CoordinatorKind::MediaRelay,
        CoordinatorKind::ReachabilityAdapter,
        CoordinatorKind::Indexer,
        CoordinatorKind::Labeler,
        CoordinatorKind::Matcher,
        CoordinatorKind::Compute,
        CoordinatorKind::Arbiter,
        CoordinatorKind::Oracle,
        CoordinatorKind::CustodialEscrow,
    ] {
        assert_eq!(CoordinatorKind::from_wire_str(k.as_str()), Some(k));
    }
    assert_eq!(CoordinatorKind::from_wire_str("not-a-kind"), None);
}

#[test]
fn relay_is_structurally_blind() {
    let v = CoordinatorKind::Relay.typical_visibility().unwrap();
    assert!(v.is_verifiably_blind());
}

#[test]
fn gateway_is_terminating_and_scarce() {
    assert_eq!(
        CoordinatorKind::Gateway.typical_visibility().unwrap().class,
        VisibilityClass::Terminating
    );
    assert!(CoordinatorKind::Gateway.is_scarce_reachability());
}

#[test]
fn only_custodial_escrow_is_load_bearing() {
    for k in [
        CoordinatorKind::Gateway,
        CoordinatorKind::Relay,
        CoordinatorKind::MediaRelay,
        CoordinatorKind::ReachabilityAdapter,
        CoordinatorKind::Matcher,
        CoordinatorKind::Oracle,
    ] {
        assert!(!k.is_load_bearing_exception(), "{} must fade", k.as_str());
    }
    assert!(CoordinatorKind::CustodialEscrow.is_load_bearing_exception());
}

#[test]
fn exactly_two_scarce_reachability_members() {
    let scarce: Vec<_> = [
        CoordinatorKind::Gateway,
        CoordinatorKind::Relay,
        CoordinatorKind::MediaRelay,
        CoordinatorKind::ReachabilityAdapter,
        CoordinatorKind::Indexer,
        CoordinatorKind::Labeler,
        CoordinatorKind::Matcher,
        CoordinatorKind::Compute,
        CoordinatorKind::Arbiter,
        CoordinatorKind::Oracle,
        CoordinatorKind::CustodialEscrow,
    ]
    .into_iter()
    .filter(|k| k.is_scarce_reachability())
    .collect();
    assert_eq!(scarce.len(), 2);
}

#[test]
fn only_relays_and_adapters_are_blind() {
    let blind = |k: CoordinatorKind| k.typical_visibility().is_some_and(|v| v.is_verifiably_blind());
    assert!(blind(CoordinatorKind::MediaRelay));
    assert!(blind(CoordinatorKind::ReachabilityAdapter));
    assert!(!blind(CoordinatorKind::Matcher));
    assert!(CoordinatorKind::Indexer.typical_visibility().is_none());
    assert!(CoordinatorKind::Labeler.typical_visibility().is_none());
}
