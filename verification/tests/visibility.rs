use wakala::visibility::{AssuranceLevel, ContentVisibility, VisibilityClass};

#[test]
fn only_structural_and_attested_are_verifiable() {
    assert!(AssuranceLevel::ByConstruction.is_verifiable());
    assert!(AssuranceLevel::Attested.is_verifiable());
    assert!(!AssuranceLevel::Declared.is_verifiable());
}

#[test]
fn declared_blind_must_not_be_shown_as_verified() {
    let v = ContentVisibility::new(VisibilityClass::BlindRouting, AssuranceLevel::Declared);
    assert!(!v.is_verifiably_blind());
    assert!(v.must_not_present_as_verified());
}

#[test]
fn structural_blind_routing_is_verifiable() {
    let v = ContentVisibility::new(VisibilityClass::BlindRouting, AssuranceLevel::ByConstruction);
    assert!(v.is_verifiably_blind());
    assert!(!v.must_not_present_as_verified());
}

#[test]
fn terminating_is_never_a_verified_blind_claim() {
    let v = ContentVisibility::new(VisibilityClass::Terminating, AssuranceLevel::Declared);
    assert!(!v.is_verifiably_blind());
    assert!(!v.must_not_present_as_verified());
}

#[test]
fn labels_name_what_they_label() {
    for class in [VisibilityClass::Blind, VisibilityClass::BlindRouting, VisibilityClass::Terminating] {
        assert_eq!(VisibilityClass::from_wire_str(class.as_str()), Some(class));
    }
    for level in
        [AssuranceLevel::ByConstruction, AssuranceLevel::Attested, AssuranceLevel::Declared]
    {
        assert_eq!(AssuranceLevel::from_wire_str(level.as_str()), Some(level));
    }
    assert_eq!(VisibilityClass::from_wire_str("Blind"), None);
    assert_eq!(AssuranceLevel::from_wire_str(""), None);
    let v = ContentVisibility::new(VisibilityClass::BlindRouting, AssuranceLevel::ByConstruction);
    assert_eq!(v.label(), "blind-routing / structural");
}
