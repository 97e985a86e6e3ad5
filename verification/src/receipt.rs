//! Receipts for billed operations, and the log of those that were issued.
//!
//! A receipt whose signature is right shows that the coordinator claims the operation. It does not
//! show that the operation took place, nor that no other was charged.

use crate::cbor;
use crate::cbor::{CborError, Fields, Pairs, Tree, Value};
use crate::descriptor;
use crate::descriptor::{
    Cbor, DescriptorError, DescriptorErrorModel, UsageReceipt, UsageReceiptModel,
};
use crate::identity;
use crate::identity::IdentityKey;
use crate::meter;
use crate::meter::ResourceKind;
use crate::model;
use crate::tariff::{Bill, BillModel, LineItem};
use vstd::prelude::*;
use vstd::slice::slice_to_vec;

verus! {

/// Why a billed operation cannot be read, or its receipt not be accepted.
#[derive(Debug)]
pub enum ReceiptError {
    BadEncoding(CborError),
    Malformed(&'static str),
    Signature(DescriptorError),
}

/// [`ReceiptError`] with its text as a sequence.
pub enum ReceiptErrorModel {
    BadEncoding(CborError),
    Malformed(Seq<char>),
    Signature(DescriptorErrorModel),
}

impl View for ReceiptError {
    type V = ReceiptErrorModel;

    open spec fn view(&self) -> ReceiptErrorModel {
        match *self {
            ReceiptError::BadEncoding(e) => ReceiptErrorModel::BadEncoding(e),
            ReceiptError::Malformed(s) => ReceiptErrorModel::Malformed(s@),
            ReceiptError::Signature(e) => ReceiptErrorModel::Signature(e@),
        }
    }
}

/// What a receipt says was charged.
#[derive(Debug, PartialEq, Eq)]
pub struct BilledOperation {
    /// The public key of the one who pays.
    pub payer: Vec<u8>,
    pub kind: ResourceKind,
    /// The units that were used.
    pub metered_units: u64,
    /// The units that were charged.
    pub billed_units: u64,
    /// What was charged, in the currency's minor unit.
    pub amount: u64,
    pub currency: String,
    /// The number of the receipt among those of a log.
    pub sequence: u64,
}

/// [`BilledOperation`] with its contents as sequences.
pub struct OperationModel {
    pub payer: Seq<u8>,
    pub kind: ResourceKind,
    pub metered_units: u64,
    pub billed_units: u64,
    pub amount: u64,
    pub currency: Seq<char>,
    pub sequence: u64,
}

impl View for BilledOperation {
    type V = OperationModel;

    open spec fn view(&self) -> OperationModel {
        OperationModel {
            payer: self.payer@,
            kind: self.kind,
            metered_units: self.metered_units,
            billed_units: self.billed_units,
            amount: self.amount,
            currency: self.currency@,
            sequence: self.sequence,
        }
    }
}

impl Clone for BilledOperation {
    fn clone(&self) -> (r: Self)
        ensures
            r@ == self@,
    {
        BilledOperation {
            payer: slice_to_vec(self.payer.as_slice()),
            kind: self.kind,
            metered_units: self.metered_units,
            billed_units: self.billed_units,
            amount: self.amount,
            currency: self.currency.clone(),
            sequence: self.sequence,
        }
    }
}

/// The pairs of an operation.
pub open spec fn operation_pairs(o: OperationModel) -> Pairs {
    seq![
        (1u64, Tree::Bytes(o.payer)),
        (2u64, Tree::U64(meter::tag_of(o.kind))),
        (3u64, Tree::U64(o.metered_units)),
        (4u64, Tree::U64(o.billed_units)),
        (5u64, Tree::U64(o.amount)),
        (6u64, Tree::Text(o.currency)),
        (7u64, Tree::U64(o.sequence)),
    ]
}

/// The operation that pairs are, from the payer on.
pub open spec fn read_fields(m0: Pairs) -> Result<OperationModel, ReceiptErrorModel> {
    match cbor::octets_at(m0, 1) {
        Ok((payer, m1)) => match cbor::number_at(m1, 2) {
            Ok((tag, m2)) => match meter::kind_tagged(tag) {
                Some(kind) => match cbor::number_at(m2, 3) {
                    Ok((metered_units, m3)) => match cbor::number_at(m3, 4) {
                        Ok((billed_units, m4)) => match cbor::number_at(m4, 5) {
                            Ok((amount, m5)) => match cbor::text_at(m5, 6) {
                                Ok((currency, m6)) => match cbor::number_at(m6, 7) {
                                    Ok((sequence, m7)) => match cbor::nothing_left(m7) {
                                        Ok(_) => Ok(
                                            OperationModel {
                                                payer,
                                                kind,
                                                metered_units,
                                                billed_units,
                                                amount,
                                                currency,
                                                sequence,
                                            },
                                        ),
                                        Err(e) => Err(ReceiptErrorModel::BadEncoding(e)),
                                    },
                                    Err(e) => Err(ReceiptErrorModel::BadEncoding(e)),
                                },
                                Err(e) => Err(ReceiptErrorModel::BadEncoding(e)),
                            },
                            Err(e) => Err(ReceiptErrorModel::BadEncoding(e)),
                        },
                        Err(e) => Err(ReceiptErrorModel::BadEncoding(e)),
                    },
                    Err(e) => Err(ReceiptErrorModel::BadEncoding(e)),
                },
                None => Err(ReceiptErrorModel::Malformed("unknown resource-kind wire tag"@)),
            },
            Err(e) => Err(ReceiptErrorModel::BadEncoding(e)),
        },
        Err(e) => Err(ReceiptErrorModel::BadEncoding(e)),
    }
}

/// The operation that a tree is.
pub open spec fn read_operation(t: Tree) -> Result<OperationModel, ReceiptErrorModel> {
    match cbor::pairs_of(t) {
        Ok(m) => read_fields(m),
        Err(e) => Err(ReceiptErrorModel::BadEncoding(e)),
    }
}

/// The operation that octets are.
pub open spec fn operation_from(b: Seq<u8>) -> Result<OperationModel, ReceiptErrorModel> {
    match cbor::cbor_decoding(b) {
        Ok(t) => read_operation(t),
        Err(e) => Err(ReceiptErrorModel::BadEncoding(e)),
    }
}

/// The octets of an operation.
pub open spec fn operation_octets(o: OperationModel) -> Seq<u8> {
    cbor::cbor_encoding(Tree::IntMap(operation_pairs(o)))
}

/// The receipt for an operation, signed with the key of a seed.
pub open spec fn receipt_for(o: OperationModel, seed: Seq<u8>) -> UsageReceiptModel {
    let identity = identity::ed25519_public(seed);
    let operation = operation_octets(o);
    UsageReceiptModel {
        identity,
        operation,
        sig: identity::ed25519_signature(
            seed,
            descriptor::label(descriptor::USAGE_RECEIPT_DS),
            cbor::cbor_encoding(descriptor::receipt_tree(identity, operation)),
        ),
    }
}

impl BilledOperation {
    fn to_cv(&self) -> (r: Value)
        ensures
            r@ == Tree::IntMap(operation_pairs(self@)),
    {
        let mut m: Vec<(u64, Value)> = Vec::new();
        m.push((1, cbor::bytes_value(self.payer.as_slice())));
        m.push((2, Value::U64(self.kind.wire_tag())));
        m.push((3, Value::U64(self.metered_units)));
        m.push((4, Value::U64(self.billed_units)));
        m.push((5, Value::U64(self.amount)));
        m.push((6, cbor::text_value(self.currency.as_str())));
        m.push((7, Value::U64(self.sequence)));
        assert(cbor::pair_trees(m@) =~= operation_pairs(self@));
        cbor::map_value(m)
    }

    /// The operation that a value is.
    pub fn from_cv(cv: Value) -> (r: Result<Self, ReceiptError>)
        ensures
            model::res_view(r) == read_operation(cv@),
    {
        let mut f = match Fields::from_value(cv) {
            Ok(f) => f,
            Err(e) => return Err(ReceiptError::BadEncoding(e)),
        };
        let payer = match f.req_bytes(1) {
            Ok(b) => b,
            Err(e) => return Err(ReceiptError::BadEncoding(e)),
        };
        let kind = match f.req_u64(2) {
            Ok(tag) => match ResourceKind::from_wire_tag(tag) {
                Some(k) => k,
                None => return Err(ReceiptError::Malformed("unknown resource-kind wire tag")),
            },
            Err(e) => return Err(ReceiptError::BadEncoding(e)),
        };
        let metered_units: u64 = match f.req_u64(3) {
            Ok(n) => n,
            Err(e) => return Err(ReceiptError::BadEncoding(e)),
        };
        let billed_units: u64 = match f.req_u64(4) {
            Ok(n) => n,
            Err(e) => return Err(ReceiptError::BadEncoding(e)),
        };
        let amount: u64 = match f.req_u64(5) {
            Ok(n) => n,
            Err(e) => return Err(ReceiptError::BadEncoding(e)),
        };
        let currency = match f.req_text(6) {
            Ok(s) => s,
            Err(e) => return Err(ReceiptError::BadEncoding(e)),
        };
        let sequence: u64 = match f.req_u64(7) {
            Ok(n) => n,
            Err(e) => return Err(ReceiptError::BadEncoding(e)),
        };
        match f.deny_unknown() {
            Ok(_) => Ok(
                BilledOperation {
                    payer,
                    kind,
                    metered_units,
                    billed_units,
                    amount,
                    currency,
                    sequence,
                },
            ),
            Err(e) => Err(ReceiptError::BadEncoding(e)),
        }
    }

    /// The operation as the payload of a receipt.
    pub fn to_cbor(&self) -> (r: Cbor)
        ensures
            r@ == operation_octets(self@),
            operation_from(r@) == Ok::<OperationModel, ReceiptErrorModel>(self@),
    {
        proof {
            lemma_operation_is_canonical(self@);
            law_operation_round_trips(self@);
        }
        let cv = self.to_cv();
        Cbor::from_cv(&cv)
    }

    /// The receipt for the operation. [`UsageReceipt::verify`] accepts it, and
    /// [`BilledOperation::from_receipt`] gives the operation back.
    pub fn sign(&self, ik: &IdentityKey) -> (r: UsageReceipt)
        ensures
            r@ == receipt_for(self@, ik@),
            descriptor::receipt_verdict(r@) is Ok,
            operation_from(r.operation@) == Ok::<OperationModel, ReceiptErrorModel>(self@),
    {
        UsageReceipt::sign(self.to_cbor(), ik)
    }

    /// The operation that a receipt carries. Its signature is not checked.
    pub fn from_receipt(receipt: &UsageReceipt) -> (r: Result<Self, ReceiptError>)
        ensures
            model::res_view(r) == operation_from(receipt.operation@),
    {
        match receipt.operation.decode() {
            Ok(cv) => Self::from_cv(cv),
            Err(e) => Err(ReceiptError::BadEncoding(e)),
        }
    }
}

proof fn lemma_operation_is_canonical(o: OperationModel)
    ensures
        cbor::canonical(Tree::IntMap(operation_pairs(o))),
{
    reveal_with_fuel(cbor::ordered, 2);
    reveal_with_fuel(cbor::fits, 2);
    let m = operation_pairs(o);
    assert forall|i: int| 0 <= i < m.len() implies cbor::ordered((#[trigger] m[i]).1) by {}
    assert forall|i: int| 0 <= i < m.len() implies cbor::fits((#[trigger] m[i]).1, 63) by {}
}

/// An operation is read back as it was written.
pub proof fn law_operation_round_trips(o: OperationModel)
    ensures
        read_operation(Tree::IntMap(operation_pairs(o))) == Ok::<OperationModel, ReceiptErrorModel>(
            o,
        ),
{
    let m0 = operation_pairs(o);
    cbor::lemma_taken_first(m0, 1);
    let m1 = m0.skip(1);
    cbor::lemma_taken_first(m1, 2);
    let m2 = m1.skip(1);
    cbor::lemma_taken_first(m2, 3);
    let m3 = m2.skip(1);
    cbor::lemma_taken_first(m3, 4);
    let m4 = m3.skip(1);
    cbor::lemma_taken_first(m4, 5);
    let m5 = m4.skip(1);
    cbor::lemma_taken_first(m5, 6);
    let m6 = m5.skip(1);
    cbor::lemma_taken_first(m6, 7);
}

// ---- the log -----------------------------------------------------------------------------------

/// The views of receipts.
pub open spec fn receipt_views(v: Seq<UsageReceipt>) -> Seq<UsageReceiptModel> {
    Seq::new(v.len(), |i: int| v[i]@)
}

/// The receipts that were issued, and the number of the next.
#[derive(Debug)]
pub struct ReceiptLog {
    receipts: Vec<UsageReceipt>,
    next_sequence: u64,
}

/// [`ReceiptLog`] with its contents as sequences.
pub struct LogModel {
    pub receipts: Seq<UsageReceiptModel>,
    pub next_sequence: u64,
}

impl View for ReceiptLog {
    type V = LogModel;

    closed spec fn view(&self) -> LogModel {
        LogModel { receipts: receipt_views(self.receipts@), next_sequence: self.next_sequence }
    }
}

/// The operation of a line of a bill.
pub open spec fn operation_of(
    payer: Seq<u8>,
    item: LineItem,
    currency: Seq<char>,
    sequence: u64,
) -> OperationModel {
    OperationModel {
        payer,
        kind: item.kind,
        metered_units: item.metered_units,
        billed_units: item.billed_units,
        amount: item.amount,
        currency,
        sequence,
    }
}

/// The receipts for the lines of a bill, numbered from `from` on.
pub open spec fn receipts_for_bill(
    payer: Seq<u8>,
    bill: BillModel,
    seed: Seq<u8>,
    from: u64,
) -> Seq<UsageReceiptModel> {
    Seq::new(
        bill.line_items.len(),
        |i: int|
            receipt_for(
                operation_of(payer, bill.line_items[i], bill.currency, (from + i) as u64),
                seed,
            ),
    )
}

/// Whether all receipts are accepted; if not, why the first that is not is refused.
pub open spec fn all_verdict(receipts: Seq<UsageReceiptModel>) -> Result<(), DescriptorErrorModel>
    decreases receipts.len(),
{
    if receipts.len() == 0 {
        Ok(())
    } else {
        match descriptor::receipt_verdict(receipts[0]) {
            Ok(_) => all_verdict(receipts.skip(1)),
            Err(e) => Err(e),
        }
    }
}

impl Default for ReceiptLog {
    fn default() -> (r: Self)
        ensures
            r@ == (LogModel { receipts: Seq::empty(), next_sequence: 0 }),
    {
        ReceiptLog::new()
    }
}

impl ReceiptLog {
    /// A log without receipts. Numbers start at zero.
    pub fn new() -> (r: Self)
        ensures
            r@ == (LogModel { receipts: Seq::empty(), next_sequence: 0 }),
    {
        let r = ReceiptLog { receipts: Vec::new(), next_sequence: 0 };
        assert(r@.receipts =~= Seq::empty());
        r
    }

    /// The number of the next receipt.
    pub fn next_sequence(&self) -> (r: u64)
        ensures
            r == self@.next_sequence,
    {
        self.next_sequence
    }

    fn append(&mut self, receipt: &UsageReceipt)
        ensures
            final(self)@ == (LogModel {
                receipts: old(self)@.receipts.push(receipt@),
                next_sequence: old(self)@.next_sequence,
            }),
    {
        let ghost before = self.receipts@;
        self.receipts.push(receipt.clone());
        assert(receipt_views(self.receipts@) =~= receipt_views(before).push(receipt@));
    }

    /// Issues a receipt for each line of a bill, in the order of the lines, with the next numbers.
    pub fn issue_for_bill(&mut self, payer: &[u8], bill: &Bill, ik: &IdentityKey) -> (r: Vec<
        UsageReceipt,
    >)
        requires
            old(self)@.next_sequence + bill.line_items@.len() <= u64::MAX,
        ensures
            receipt_views(r@) == receipts_for_bill(
                payer@,
                bill@,
                ik@,
                old(self)@.next_sequence,
            ),
            final(self)@.receipts == old(self)@.receipts + receipt_views(r@),
            final(self)@.next_sequence == old(self)@.next_sequence + bill.line_items@.len(),
            forall|i: int|
                0 <= i < r@.len() ==> descriptor::receipt_verdict((#[trigger] r@[i])@) is Ok
                    && operation_from(r@[i].operation@) == Ok::<OperationModel, ReceiptErrorModel>(
                    operation_of(
                        payer@,
                        bill.line_items@[i],
                        bill.currency@,
                        (old(self)@.next_sequence + i) as u64,
                    ),
                ),
    {
        let ghost before = self@;
        let mut out: Vec<UsageReceipt> = Vec::new();
        let mut i: usize = 0;
        assert(before.receipts =~= before.receipts + receipt_views(out@));
        while i < bill.line_items.len()
            invariant
                i <= bill.line_items@.len(),
                before.next_sequence + bill.line_items@.len() <= u64::MAX,
                self@.next_sequence == before.next_sequence + i,
                self@.receipts == before.receipts + receipt_views(out@),
                out@.len() == i,
                forall|j: int|
                    0 <= j < i ==> (#[trigger] out@[j])@ == receipt_for(
                        operation_of(
                            payer@,
                            bill.line_items@[j],
                            bill.currency@,
                            (before.next_sequence + j) as u64,
                        ),
                        ik@,
                    ),
                forall|j: int|
                    0 <= j < i ==> descriptor::receipt_verdict((#[trigger] out@[j])@) is Ok
                        && operation_from(out@[j].operation@) == Ok::<
                        OperationModel,
                        ReceiptErrorModel,
                    >(
                        operation_of(
                            payer@,
                            bill.line_items@[j],
                            bill.currency@,
                            (before.next_sequence + j) as u64,
                        ),
                    ),
            decreases bill.line_items@.len() - i,
        {
            let item = bill.line_items[i];
            let op = BilledOperation {
                payer: slice_to_vec(payer),
                kind: item.kind,
                metered_units: item.metered_units,
                billed_units: item.billed_units,
                amount: item.amount,
                currency: bill.currency.clone(),
                sequence: self.next_sequence,
            };
            assert(op@ == operation_of(
                payer@,
                bill.line_items@[i as int],
                bill.currency@,
                (before.next_sequence + i) as u64,
            ));
            self.next_sequence = self.next_sequence + 1;
            let receipt = op.sign(ik);
            self.append(&receipt);
            let ghost so_far = out@;
            out.push(receipt);
            assert(receipt_views(out@) =~= receipt_views(so_far).push(receipt@));
            assert(before.receipts + receipt_views(out@) =~= (before.receipts + receipt_views(
                so_far,
            )).push(receipt@));
            i += 1;
        }
        assert(receipt_views(out@) =~= receipts_for_bill(
            payer@,
            bill@,
            ik@,
            before.next_sequence,
        ));
        out
    }

    /// Issues a receipt for one operation, with the number that the operation has.
    pub fn issue(&mut self, op: &BilledOperation, ik: &IdentityKey) -> (r: UsageReceipt)
        ensures
            r@ == receipt_for(op@, ik@),
            descriptor::receipt_verdict(r@) is Ok,
            final(self)@ == (LogModel {
                receipts: old(self)@.receipts.push(r@),
                next_sequence: old(self)@.next_sequence,
            }),
    {
        let receipt = op.sign(ik);
        self.append(&receipt);
        receipt
    }

    /// The receipts, in the order in which they were issued.
    pub fn receipts(&self) -> (r: &[UsageReceipt])
        ensures
            receipt_views(r@) == self@.receipts,
    {
        self.receipts.as_slice()
    }

    /// Whether all receipts are accepted; if not, why the first that is not is refused.
    pub fn verify_all(&self) -> (r: Result<(), DescriptorError>)
        ensures
            model::unit_view(r) == all_verdict(self@.receipts),
    {
        let ghost all = self@.receipts;
        let mut i: usize = 0;
        assert(all.skip(0) =~= all);
        while i < self.receipts.len()
            invariant
                i <= self.receipts@.len(),
                all == receipt_views(self.receipts@),
                all == self@.receipts,
                all_verdict(all) == all_verdict(all.skip(i as int)),
            decreases self.receipts@.len() - i,
        {
            assert(all.skip(i as int)[0] == self.receipts@[i as int]@);
            assert(all.skip(i as int).skip(1) =~= all.skip(i + 1));
            match self.receipts[i].verify() {
                Ok(_) => (),
                Err(e) => return Err(e),
            }
            i += 1;
        }
        Ok(())
    }
}

/// A log is accepted exactly where each receipt in it is.
pub proof fn law_log_is_as_good_as_its_receipts(receipts: Seq<UsageReceiptModel>)
    ensures
        all_verdict(receipts) is Ok <==> forall|i: int|
            0 <= i < receipts.len() ==> descriptor::receipt_verdict(#[trigger] receipts[i]) is Ok,
    decreases receipts.len(),
{
    if receipts.len() > 0 {
        let rest = receipts.skip(1);
        law_log_is_as_good_as_its_receipts(rest);
        assert forall|i: int| 0 <= i < rest.len() implies rest[i] == receipts[i + 1] by {}
        if all_verdict(rest) is Ok && descriptor::receipt_verdict(receipts[0]) is Ok {
            assert forall|i: int| 0 <= i < receipts.len() implies descriptor::receipt_verdict(
                #[trigger] receipts[i],
            ) is Ok by {
                if i > 0 {
                    assert(rest[i - 1] == receipts[i]);
                }
            }
        } else if descriptor::receipt_verdict(receipts[0]) is Ok {
            let i = choose|i: int|
                0 <= i < rest.len() && descriptor::receipt_verdict(#[trigger] rest[i]) is Err;
            assert(descriptor::receipt_verdict(receipts[i + 1]) is Err);
        }
    }
}

/// A log that is accepted is still accepted after receipts that are accepted were issued.
pub proof fn law_issuing_keeps_a_log_good(
    receipts: Seq<UsageReceiptModel>,
    issued: Seq<UsageReceiptModel>,
)
    requires
        all_verdict(receipts) is Ok,
        forall|i: int|
            0 <= i < issued.len() ==> descriptor::receipt_verdict(#[trigger] issued[i]) is Ok,
    ensures
        all_verdict(receipts + issued) is Ok,
{
    law_log_is_as_good_as_its_receipts(receipts);
    law_log_is_as_good_as_its_receipts(receipts + issued);
}

/// The receipts for a bill have as many different numbers as the bill has lines.
pub proof fn law_numbers_are_apart(
    payer: Seq<u8>,
    bill: BillModel,
    from: u64,
    i: int,
    j: int,
)
    requires
        from + bill.line_items.len() <= u64::MAX,
        0 <= i < j < bill.line_items.len(),
    ensures
        operation_of(payer, bill.line_items[i], bill.currency, (from + i) as u64).sequence
            < operation_of(payer, bill.line_items[j], bill.currency, (from + j) as u64).sequence,
{
}

/// A bill has one receipt for each of its lines, in their order and with numbers that go up by one:
/// each says who pays, for what and how much, and is signed by the seller.
pub proof fn law_receipts_of_a_bill(
    payer: Seq<u8>,
    bill: BillModel,
    seed: Seq<u8>,
    from: u64,
    i: int,
)
    requires
        from + bill.line_items.len() <= u64::MAX,
        0 <= i < bill.line_items.len(),
    ensures
        ({
            let all = receipts_for_bill(payer, bill, seed, from);
            let l = bill.line_items[i];
            let u = all[i];
            &&& all.len() == bill.line_items.len()
            &&& u.identity == identity::ed25519_public(seed)
            &&& u.operation == cbor::cbor_encoding(
                Tree::IntMap(
                    seq![
                        (1u64, Tree::Bytes(payer)),
                        (2u64, Tree::U64(meter::tag_of(l.kind))),
                        (3u64, Tree::U64(l.metered_units)),
                        (4u64, Tree::U64(l.billed_units)),
                        (5u64, Tree::U64(l.amount)),
                        (6u64, Tree::Text(bill.currency)),
                        (7u64, Tree::U64((from + i) as u64)),
                    ],
                ),
            )
            &&& u.sig == identity::ed25519_signature(
                seed,
                descriptor::label(descriptor::USAGE_RECEIPT_DS),
                descriptor::receipt_body(u),
            )
        }),
{
}

/// An operation is read from its octets where they are well encoded, and else the encoding is blamed.
pub proof fn law_operation_is_read_from_octets(b: Seq<u8>)
    ensures
        cbor::cbor_decoding(b) is Ok ==> operation_from(b) == read_operation(
            cbor::cbor_decoding(b)->Ok_0,
        ),
        cbor::cbor_decoding(b) is Err ==> operation_from(b) == Err::<OperationModel, ReceiptErrorModel>(
            ReceiptErrorModel::BadEncoding(cbor::cbor_decoding(b)->Err_0),
        ),
{
}

/// How an operation stands on the wire: each of its fields under a number of its own, in order.
pub proof fn law_operation_on_the_wire(o: OperationModel)
    ensures
        ({
            let m = operation_pairs(o);
            &&& m.len() == 7
            &&& m[0] == (1u64, Tree::Bytes(o.payer))
            &&& m[1] == (2u64, Tree::U64(meter::tag_of(o.kind)))
            &&& m[2] == (3u64, Tree::U64(o.metered_units))
            &&& m[3] == (4u64, Tree::U64(o.billed_units))
            &&& m[4] == (5u64, Tree::U64(o.amount))
            &&& m[5] == (6u64, Tree::Text(o.currency))
            &&& m[6] == (7u64, Tree::U64(o.sequence))
        }),
{
}

} // verus!
