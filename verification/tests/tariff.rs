use wakala::cbor::{CborError, Value};
use wakala::descriptor::Cbor;
use wakala::identity::IdentityKey;
use wakala::meter::{KindTable, ResourceKind};
use wakala::tariff::{BillingError, TariffSchedule};

fn ik(seed: u8) -> IdentityKey {
    IdentityKey::from_seed(&[seed; 32])
}

fn sample_schedule() -> TariffSchedule {
    let mut prices = KindTable::new();
    prices.insert(ResourceKind::BytesForwarded, 1); // 1 minor unit / byte
    prices.insert(ResourceKind::Connections, 500); // 500 minor units / connection
    let mut free_allowance = KindTable::new();
    free_allowance.insert(ResourceKind::BytesForwarded, 1_000);
    TariffSchedule {
        currency: "USDC".to_string(),
        prices,
        free_allowance,
        period_seconds: Some(30 * 24 * 3600),
    }
}

#[test]
fn schedule_round_trips_through_cbor() {
    let s = sample_schedule();
    let decoded = TariffSchedule::from_cbor(&s.to_cbor()).expect("decodes");
    assert_eq!(decoded, s);
}

#[test]
fn schedule_signs_and_verifies_via_tariff() {
    let key = ik(1);
    let s = sample_schedule();
    let tariff = s.sign(&key);
    assert!(tariff.verify().is_ok());
    let decoded = TariffSchedule::from_tariff(&tariff).expect("decodes");
    assert_eq!(decoded, s);
}

#[test]
fn tampered_signed_schedule_fails_verification() {
    let key = ik(2);
    let s = sample_schedule();
    let mut tariff = s.sign(&key);
    tariff.schedule = TariffSchedule {
        currency: "USD".to_string(),
        ..sample_schedule()
    }
    .to_cbor();
    assert!(tariff.verify().is_err());
}

#[test]
fn free_allowance_covers_usage_under_the_cap() {
    let s = sample_schedule();
    let mut usage = KindTable::new();
    usage.insert(ResourceKind::BytesForwarded, 800); // under the 1000-byte free allowance
    let bill = s.evaluate(&usage).expect("priced kind");
    assert_eq!(bill.amount, 0);
    assert_eq!(bill.line_items[0].billed_units, 0);
    assert_eq!(bill.line_items[0].free_units_applied, 800);
}

#[test]
fn per_unit_price_applies_above_the_free_allowance() {
    let s = sample_schedule();
    let mut usage = KindTable::new();
    usage.insert(ResourceKind::BytesForwarded, 1_500); // 500 over the free allowance
    usage.insert(ResourceKind::Connections, 3);
    let bill = s.evaluate(&usage).expect("priced kinds");
    assert_eq!(bill.amount, 2_000);
    assert_eq!(bill.currency, "USDC");
    assert_eq!(bill.line_items.len(), 2);
}

#[test]
fn unpriced_kind_fails_closed_rather_than_billing_zero() {
    let s = sample_schedule(); // has no price for Messages/ComputeSeconds
    let mut usage = KindTable::new();
    usage.insert(ResourceKind::Messages, 10);
    let err = s.evaluate(&usage).expect_err("must fail closed");
    assert!(matches!(err, BillingError::UnpricedKind(ResourceKind::Messages)));
}

#[test]
fn zero_usage_bills_zero() {
    let s = sample_schedule();
    let bill = s.evaluate(&KindTable::new()).expect("empty usage");
    assert_eq!(bill.amount, 0);
    assert!(bill.line_items.is_empty());
}

#[test]
fn amounts_that_do_not_fit_are_the_largest_that_does() {
    let mut s = sample_schedule();
    s.prices.insert(ResourceKind::Connections, u64::MAX);
    let mut usage = KindTable::new();
    usage.insert(ResourceKind::BytesForwarded, 2_000);
    usage.insert(ResourceKind::Connections, 2);
    let bill = s.evaluate(&usage).unwrap();
    assert_eq!(bill.line_items[0].amount, 1_000);
    assert_eq!(bill.line_items[1].amount, u64::MAX);
    assert_eq!(bill.amount, u64::MAX);
}

#[test]
fn the_lines_of_a_bill_add_up() {
    let mut usage = KindTable::new();
    usage.insert(ResourceKind::Connections, 3);
    usage.insert(ResourceKind::BytesForwarded, 1_500);
    let bill = sample_schedule().evaluate(&usage).unwrap();
    assert_eq!(bill.line_items[0].kind, ResourceKind::BytesForwarded);
    for l in &bill.line_items {
        assert_eq!(l.metered_units, l.free_units_applied + l.billed_units);
        assert_eq!(l.amount, l.billed_units * l.unit_price);
    }
    assert_eq!(bill.amount, bill.line_items.iter().map(|l| l.amount).sum::<u64>());
}

#[test]
fn what_is_no_schedule_is_refused() {
    let read = |v: &Value| TariffSchedule::from_cbor(&Cbor::from_cv(v)).unwrap_err();
    assert!(matches!(read(&Value::U64(1)), BillingError::BadEncoding(CborError::TypeMismatch)));
    assert!(matches!(
        read(&Value::IntMap(vec![(1, Value::U64(1))])),
        BillingError::Malformed("currency must be a text string")
    ));
    let text = || Value::Text("USD".to_string());
    assert!(matches!(
        read(&Value::IntMap(vec![(1, text()), (2, Value::U64(1))])),
        BillingError::Malformed("expected a resource-kind price map")
    ));
    let odd = Value::IntMap(vec![(1, text()), (2, Value::IntMap(vec![(9, Value::U64(1))]))]);
    assert!(matches!(read(&odd), BillingError::Malformed("unknown resource-kind wire tag")));
    let none = || Value::IntMap(Vec::new());
    for (key, left) in [
        (1, vec![(2, none()), (3, none())]),
        (2, vec![(1, text()), (3, none())]),
        (3, vec![(1, text()), (2, none())]),
    ] {
        let lacking = read(&Value::IntMap(left));
        assert!(
            matches!(lacking, BillingError::BadEncoding(CborError::MissingKey(k)) if k == key)
        );
    }
    let more = Value::IntMap(vec![(1, text()), (2, none()), (3, none()), (5, Value::U64(1))]);
    assert!(matches!(read(&more), BillingError::BadEncoding(CborError::UnknownKey(5))));
    assert!(matches!(
        TariffSchedule::from_cbor(&Cbor(vec![0xff])),
        Err(BillingError::BadEncoding(_))
    ));
}
