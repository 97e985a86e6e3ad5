use wakala::descriptor::UsageReceipt;
use wakala::identity::IdentityKey;
use wakala::meter::{KindTable, ResourceKind};
use wakala::receipt::{BilledOperation, ReceiptError, ReceiptLog};
use wakala::tariff::TariffSchedule;

fn ik(seed: u8) -> IdentityKey {
    IdentityKey::from_seed(&[seed; 32])
}

fn schedule() -> TariffSchedule {
    let mut prices = KindTable::new();
    prices.insert(ResourceKind::BytesForwarded, 2);
    TariffSchedule {
        currency: "USD".to_string(),
        prices,
        free_allowance: KindTable::new(),
        period_seconds: None,
    }
}

#[test]
fn billed_operation_round_trips_through_cbor() {
    let op = BilledOperation {
        payer: b"payer".to_vec(),
        kind: ResourceKind::Messages,
        metered_units: 10,
        billed_units: 10,
        amount: 100,
        currency: "USD".to_string(),
        sequence: 3,
    };
    let decoded = BilledOperation::from_cv(op.to_cbor().decode().unwrap()).unwrap();
    assert_eq!(decoded, op);
}

#[test]
fn receipt_issued_for_a_real_bill_verifies() {
    let key = ik(1);
    let payer = b"alice".to_vec();
    let mut usage = KindTable::new();
    usage.insert(ResourceKind::BytesForwarded, 50);
    let bill = schedule().evaluate(&usage).unwrap();

    let mut log = ReceiptLog::new();
    let receipts = log.issue_for_bill(&payer, &bill, &key);
    assert_eq!(receipts.len(), 1);
    assert!(log.verify_all().is_ok());

    let decoded = BilledOperation::from_receipt(&receipts[0]).unwrap();
    assert_eq!(decoded.payer, payer);
    assert_eq!(decoded.amount, 100); // 50 bytes * 2
}

#[test]
fn tampered_receipt_fails_verification() {
    let key = ik(2);
    let op = BilledOperation {
        payer: b"bob".to_vec(),
        kind: ResourceKind::Connections,
        metered_units: 4,
        billed_units: 4,
        amount: 400,
        currency: "USD".to_string(),
        sequence: 0,
    };
    let mut log = ReceiptLog::new();
    let mut receipt = log.issue(&op, &key);
    let mut tampered_op = op.clone();
    tampered_op.amount = 1; // an attacker (or a bug) trying to shrink the charge after the fact
    receipt.operation = tampered_op.to_cbor();
    assert!(receipt.verify().is_err());
}

#[test]
fn sequence_numbers_increment_across_issuances() {
    let key = ik(3);
    let payer = b"carol".to_vec();
    let mut prices = KindTable::new();
    prices.insert(ResourceKind::BytesForwarded, 1);
    prices.insert(ResourceKind::Connections, 1);
    let s = TariffSchedule {
        currency: "USD".to_string(),
        prices,
        free_allowance: KindTable::new(),
        period_seconds: None,
    };
    let mut usage = KindTable::new();
    usage.insert(ResourceKind::BytesForwarded, 10);
    usage.insert(ResourceKind::Connections, 1);
    let bill = s.evaluate(&usage).unwrap();

    let mut log = ReceiptLog::new();
    let receipts = log.issue_for_bill(&payer, &bill, &key);
    let sequences: Vec<u64> = receipts
        .iter()
        .map(|r| BilledOperation::from_receipt(r).unwrap().sequence)
        .collect();
    assert_eq!(sequences.len(), 2);
    assert_ne!(sequences[0], sequences[1]);
}

#[test]
fn a_receipt_gives_its_operation_back() {
    let op = BilledOperation {
        payer: b"dave".to_vec(),
        kind: ResourceKind::ComputeSeconds,
        metered_units: 9,
        billed_units: 8,
        amount: 80,
        currency: "EUR".to_string(),
        sequence: 5,
    };
    let mut log = ReceiptLog::new();
    let r = log.issue(&op, &ik(4));
    assert!(r.verify().is_ok());
    assert_eq!(BilledOperation::from_receipt(&r).unwrap(), op);
    assert_eq!(log.receipts().len(), 1);
    assert_eq!(log.next_sequence(), 0);
    assert!(log.verify_all().is_ok());
}

#[test]
fn what_is_no_operation_is_refused() {
    let forged = UsageReceipt::sign(wakala::descriptor::Cbor(vec![0x01]), &ik(5));
    assert!(forged.verify().is_ok());
    assert!(matches!(BilledOperation::from_receipt(&forged), Err(ReceiptError::BadEncoding(_))));
}
