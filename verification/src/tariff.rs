//! Price schedules, and what metered usage costs under one.
//!
//! A schedule is the payload of a signed [`Tariff`](descriptor::Tariff). Usage of a resource that
//! the schedule has no price for is refused, not given away.

use crate::cbor;
use crate::cbor::{CborError, Fields, Pairs, Tree, Value};
use crate::descriptor;
use crate::descriptor::Cbor;
use crate::identity;
use crate::identity::IdentityKey;
use crate::meter;
use crate::meter::{KindTable, ResourceKind};
use crate::model;
use vstd::prelude::*;

verus! {

/// Why a schedule cannot be read, or usage not be billed.
#[derive(Debug)]
pub enum BillingError {
    BadEncoding(CborError),
    Malformed(&'static str),
    /// A resource was used that has no price.
    UnpricedKind(ResourceKind),
}

/// [`BillingError`] with its text as a sequence.
pub enum BillingErrorModel {
    BadEncoding(CborError),
    Malformed(Seq<char>),
    UnpricedKind(ResourceKind),
}

impl View for BillingError {
    type V = BillingErrorModel;

    open spec fn view(&self) -> BillingErrorModel {
        match *self {
            BillingError::BadEncoding(e) => BillingErrorModel::BadEncoding(e),
            BillingError::Malformed(s) => BillingErrorModel::Malformed(s@),
            BillingError::UnpricedKind(k) => BillingErrorModel::UnpricedKind(k),
        }
    }
}

/// What an operator charges.
#[derive(Debug, PartialEq, Eq)]
pub struct TariffSchedule {
    /// A currency or the ticker of an asset.
    pub currency: String,
    /// The price of one unit of each resource, in the currency's minor unit.
    pub prices: KindTable,
    /// The units of each resource that are free in a period.
    pub free_allowance: KindTable,
    /// How long a period is. For information only.
    pub period_seconds: Option<u64>,
}

/// [`TariffSchedule`] with its text as a sequence.
pub struct ScheduleModel {
    pub currency: Seq<char>,
    pub prices: KindTable,
    pub free_allowance: KindTable,
    pub period_seconds: Option<u64>,
}

impl View for TariffSchedule {
    type V = ScheduleModel;

    open spec fn view(&self) -> ScheduleModel {
        ScheduleModel {
            currency: self.currency@,
            prices: self.prices,
            free_allowance: self.free_allowance,
            period_seconds: self.period_seconds,
        }
    }
}

impl Clone for TariffSchedule {
    fn clone(&self) -> (r: Self)
        ensures
            r@ == self@,
    {
        TariffSchedule {
            currency: self.currency.clone(),
            prices: self.prices,
            free_allowance: self.free_allowance,
            period_seconds: self.period_seconds,
        }
    }
}

// ---- schedules as values -----------------------------------------------------------------------

/// The pairs of a table as pairs of an object.
pub open spec fn tagged(e: Seq<(ResourceKind, u64)>) -> Pairs {
    Seq::new(e.len(), |i: int| (meter::tag_of(e[i].0), Tree::U64(e[i].1)))
}

/// The pairs of a schedule.
pub open spec fn schedule_pairs(s: ScheduleModel) -> Pairs {
    let m = seq![
        (1u64, Tree::Text(s.currency)),
        (2u64, Tree::IntMap(tagged(meter::entries(s.prices)))),
        (3u64, Tree::IntMap(tagged(meter::entries(s.free_allowance)))),
    ];
    match s.period_seconds {
        Some(p) => m.push((4u64, Tree::U64(p))),
        None => m,
    }
}

/// The table that pairs give, on top of a table. Of two pairs with one key the later counts.
pub open spec fn read_amounts(m: Pairs, t: KindTable) -> Result<KindTable, BillingErrorModel>
    decreases m.len(),
{
    if m.len() == 0 {
        Ok(t)
    } else {
        match meter::kind_tagged(m[0].0) {
            Some(k) => match cbor::number(m[0].1) {
                Ok(n) => read_amounts(m.skip(1), meter::with_amount(t, k, n)),
                Err(e) => Err(BillingErrorModel::BadEncoding(e)),
            },
            None => Err(BillingErrorModel::Malformed("unknown resource-kind wire tag"@)),
        }
    }
}

/// The table that a tree is.
pub open spec fn read_table(t: Tree) -> Result<KindTable, BillingErrorModel> {
    match t {
        Tree::IntMap(m) => read_amounts(m, meter::no_amounts()),
        _ => Err(BillingErrorModel::Malformed("expected a resource-kind price map"@)),
    }
}

/// The schedule that a tree is.
pub open spec fn read_schedule(t: Tree) -> Result<ScheduleModel, BillingErrorModel> {
    match cbor::pairs_of(t) {
        Ok(m0) => match cbor::required(m0, 1) {
            Ok((Tree::Text(currency), m1)) => match cbor::required(m1, 2) {
                Ok((p, m2)) => match read_table(p) {
                    Ok(prices) => match cbor::required(m2, 3) {
                        Ok((f, m3)) => match read_table(f) {
                            Ok(free_allowance) => match cbor::number_if_any(m3, 4) {
                                Ok((period_seconds, m4)) => match cbor::nothing_left(m4) {
                                    Ok(_) => Ok(
                                        ScheduleModel {
                                            currency,
                                            prices,
                                            free_allowance,
                                            period_seconds,
                                        },
                                    ),
                                    Err(e) => Err(BillingErrorModel::BadEncoding(e)),
                                },
                                Err(e) => Err(BillingErrorModel::BadEncoding(e)),
                            },
                            Err(e) => Err(e),
                        },
                        Err(e) => Err(BillingErrorModel::BadEncoding(e)),
                    },
                    Err(e) => Err(e),
                },
                Err(e) => Err(BillingErrorModel::BadEncoding(e)),
            },
            Ok(_) => Err(BillingErrorModel::Malformed("currency must be a text string"@)),
            Err(e) => Err(BillingErrorModel::BadEncoding(e)),
        },
        Err(e) => Err(BillingErrorModel::BadEncoding(e)),
    }
}

/// The schedule that octets are.
pub open spec fn schedule_from(b: Seq<u8>) -> Result<ScheduleModel, BillingErrorModel> {
    match cbor::cbor_decoding(b) {
        Ok(t) => read_schedule(t),
        Err(e) => Err(BillingErrorModel::BadEncoding(e)),
    }
}

fn table_to_cv(t: &KindTable) -> (r: Value)
    ensures
        r@ == Tree::IntMap(tagged(meter::entries(*t))),
{
    let e = t.entries();
    let mut m: Vec<(u64, Value)> = Vec::new();
    let mut i: usize = 0;
    while i < e.len()
        invariant
            i <= e@.len(),
            m@.len() == i,
            forall|j: int|
                0 <= j < i ==> (#[trigger] m@[j]).0 == meter::tag_of(e@[j].0) && cbor::tree_of(m@[j].1)
                    == Tree::U64(e@[j].1),
        decreases e@.len() - i,
    {
        let (k, n) = e[i];
        m.push((k.wire_tag(), Value::U64(n)));
        i += 1;
    }
    assert(cbor::pair_trees(m@) =~= tagged(e@));
    cbor::map_value(m)
}

fn resource_price_map(cv: Value) -> (r: Result<KindTable, BillingError>)
    ensures
        match r {
            Ok(t) => read_table(cv@) == Ok::<KindTable, BillingErrorModel>(t),
            Err(e) => read_table(cv@) == Err::<KindTable, BillingErrorModel>(e@),
        },
{
    let fields = match Fields::from_value(cv) {
        Ok(f) => f,
        Err(_) => return Err(BillingError::Malformed("expected a resource-kind price map")),
    };
    let mut left = fields.into_pairs();
    let mut out = KindTable::new();
    while left.len() > 0
        invariant
            read_table(cv@) == read_amounts(cbor::pair_trees(left@), out),
        decreases left@.len(),
    {
        let ghost before = left@;
        let (tag, v) = left.remove(0);
        assert(cbor::pair_trees(left@) =~= cbor::pair_trees(before).skip(1));
        let kind = match ResourceKind::from_wire_tag(tag) {
            Some(k) => k,
            None => return Err(BillingError::Malformed("unknown resource-kind wire tag")),
        };
        match cbor::as_u64(v) {
            Ok(n) => out.insert(kind, n),
            Err(e) => return Err(BillingError::BadEncoding(e)),
        }
    }
    Ok(out)
}

// ---- bills -------------------------------------------------------------------------------------

/// One line of a bill.
#[derive(Clone, Copy, Debug, PartialEq, Eq, Structural)]
pub struct LineItem {
    pub kind: ResourceKind,
    /// The units that were used.
    pub metered_units: u64,
    /// How many of them were free.
    pub free_units_applied: u64,
    /// The rest, which is charged.
    pub billed_units: u64,
    pub unit_price: u64,
    /// The price of the rest, in the currency's minor unit.
    pub amount: u64,
}

/// What is owed, line by line.
#[derive(Debug, PartialEq, Eq)]
pub struct Bill {
    pub currency: String,
    pub amount: u64,
    pub line_items: Vec<LineItem>,
}

/// [`Bill`] with its contents as sequences.
pub struct BillModel {
    pub currency: Seq<char>,
    pub amount: u64,
    pub line_items: Seq<LineItem>,
}

impl View for Bill {
    type V = BillModel;

    open spec fn view(&self) -> BillModel {
        BillModel { currency: self.currency@, amount: self.amount, line_items: self.line_items@ }
    }
}

/// A number, or the largest one that fits.
pub open spec fn capped(n: int) -> u64 {
    if n > u64::MAX {
        u64::MAX
    } else {
        n as u64
    }
}

/// The units of a resource that are free.
pub open spec fn free_units(s: ScheduleModel, k: ResourceKind) -> u64 {
    match meter::amount_of(s.free_allowance, k) {
        Some(n) => n,
        None => 0,
    }
}

/// The line for the use of a resource at a price.
pub open spec fn line_for(k: ResourceKind, units: u64, free: u64, unit_price: u64) -> LineItem {
    let free_units_applied = if free < units {
        free
    } else {
        units
    };
    let billed_units = (units - free_units_applied) as u64;
    LineItem {
        kind: k,
        metered_units: units,
        free_units_applied,
        billed_units,
        unit_price,
        amount: capped(billed_units * unit_price),
    }
}

/// The lines for usage, or the first resource that has no price.
pub open spec fn lines_for(s: ScheduleModel, e: Seq<(ResourceKind, u64)>) -> Result<
    Seq<LineItem>,
    BillingErrorModel,
>
    decreases e.len(),
{
    if e.len() == 0 {
        Ok(Seq::empty())
    } else {
        match lines_for(s, e.drop_last()) {
            Ok(lines) => match meter::amount_of(s.prices, e.last().0) {
                Some(price) => Ok(
                    lines.push(
                        line_for(e.last().0, e.last().1, free_units(s, e.last().0), price),
                    ),
                ),
                None => Err(BillingErrorModel::UnpricedKind(e.last().0)),
            },
            Err(x) => Err(x),
        }
    }
}

/// The sum of the lines.
pub open spec fn sum_of(lines: Seq<LineItem>) -> int
    decreases lines.len(),
{
    if lines.len() == 0 {
        0
    } else {
        sum_of(lines.drop_last()) + lines.last().amount
    }
}

/// What usage costs under a schedule.
pub open spec fn bill_for(s: ScheduleModel, usage: KindTable) -> Result<
    BillModel,
    BillingErrorModel,
> {
    match lines_for(s, meter::entries(usage)) {
        Ok(lines) => Ok(
            BillModel { currency: s.currency, amount: capped(sum_of(lines)), line_items: lines },
        ),
        Err(x) => Err(x),
    }
}

fn times(a: u64, b: u64) -> (r: u64)
    ensures
        r == capped(a * b),
{
    match a.checked_mul(b) {
        Some(n) => n,
        None => u64::MAX,
    }
}

proof fn lemma_sum_is_natural(lines: Seq<LineItem>)
    ensures
        sum_of(lines) >= 0,
    decreases lines.len(),
{
    if lines.len() > 0 {
        lemma_sum_is_natural(lines.drop_last());
    }
}

proof fn lemma_lines_front(s: ScheduleModel, e: Seq<(ResourceKind, u64)>, n: int)
    requires
        0 <= n <= e.len(),
        lines_for(s, e.take(n)) is Err,
    ensures
        lines_for(s, e) == lines_for(s, e.take(n)),
    decreases e.len(),
{
    if n < e.len() {
        assert(e.drop_last().take(n) =~= e.take(n));
        lemma_lines_front(s, e.drop_last(), n);
    } else {
        assert(e.take(n) =~= e);
    }
}

impl TariffSchedule {
    fn to_cv(&self) -> (r: Value)
        ensures
            r@ == Tree::IntMap(schedule_pairs(self@)),
    {
        let mut m: Vec<(u64, Value)> = Vec::new();
        m.push((1, cbor::text_value(self.currency.as_str())));
        m.push((2, table_to_cv(&self.prices)));
        m.push((3, table_to_cv(&self.free_allowance)));
        if let Some(p) = self.period_seconds {
            m.push((4, Value::U64(p)));
        }
        assert(cbor::pair_trees(m@) =~= schedule_pairs(self@));
        cbor::map_value(m)
    }

    fn from_cv(cv: Value) -> (r: Result<Self, BillingError>)
        ensures
            model::res_view(r) == read_schedule(cv@),
    {
        let mut f = match Fields::from_value(cv) {
            Ok(f) => f,
            Err(e) => return Err(BillingError::BadEncoding(e)),
        };
        let currency = match f.req(1) {
            Ok(Value::Text(s)) => s,
            Ok(_) => return Err(BillingError::Malformed("currency must be a text string")),
            Err(e) => return Err(BillingError::BadEncoding(e)),
        };
        let prices = match f.req(2) {
            Ok(v) => match resource_price_map(v) {
                Ok(t) => t,
                Err(e) => return Err(e),
            },
            Err(e) => return Err(BillingError::BadEncoding(e)),
        };
        let free_allowance = match f.req(3) {
            Ok(v) => match resource_price_map(v) {
                Ok(t) => t,
                Err(e) => return Err(e),
            },
            Err(e) => return Err(BillingError::BadEncoding(e)),
        };
        let period_seconds = match f.take_u64(4) {
            Ok(n) => n,
            Err(e) => return Err(BillingError::BadEncoding(e)),
        };
        match f.deny_unknown() {
            Ok(_) => Ok(TariffSchedule { currency, prices, free_allowance, period_seconds }),
            Err(e) => Err(BillingError::BadEncoding(e)),
        }
    }

    /// The schedule as the payload of a tariff. [`TariffSchedule::from_cbor`] gives it back.
    pub fn to_cbor(&self) -> (r: Cbor)
        ensures
            r@ == cbor::cbor_encoding(Tree::IntMap(schedule_pairs(self@))),
            schedule_from(r@) == Ok::<ScheduleModel, BillingErrorModel>(self@),
    {
        proof {
            lemma_schedule_is_canonical(self@);
            law_schedule_round_trips(self@);
        }
        let cv = self.to_cv();
        Cbor::from_cv(&cv)
    }

    /// The schedule as a tariff that is valid for ever.
    pub fn sign(&self, ik: &IdentityKey) -> (r: descriptor::Tariff)
        ensures
            r.schedule@ == cbor::cbor_encoding(Tree::IntMap(schedule_pairs(self@))),
            schedule_from(r.schedule@) == Ok::<ScheduleModel, BillingErrorModel>(self@),
            r.valid_until is None,
            r.identity@ == identity::ed25519_public(ik@),
            r.sig@ == identity::ed25519_signature(
                ik@,
                descriptor::label(descriptor::TARIFF_DS),
                descriptor::tariff_body(r@),
            ),
            forall|now: u64| #[trigger] descriptor::tariff_verdict(r@, now) is Ok,
    {
        descriptor::Tariff::sign(self.to_cbor(), ik)
    }

    /// The schedule that a tariff carries. Its signature is not checked.
    pub fn from_tariff(tariff: &descriptor::Tariff) -> (r: Result<Self, BillingError>)
        ensures
            model::res_view(r) == schedule_from(tariff.schedule@),
    {
        Self::from_cbor(&tariff.schedule)
    }

    /// The schedule that a payload is.
    pub fn from_cbor(cbor: &Cbor) -> (r: Result<Self, BillingError>)
        ensures
            model::res_view(r) == schedule_from(cbor@),
    {
        match cbor.decode() {
            Ok(cv) => Self::from_cv(cv),
            Err(e) => Err(BillingError::BadEncoding(e)),
        }
    }

    /// What usage costs: for each resource that was used, the price of the units that are not free.
    /// Amounts that do not fit are the largest that does.
    pub fn evaluate(&self, usage: &KindTable) -> (r: Result<Bill, BillingError>)
        ensures
            model::res_view(r) == bill_for(self@, *usage),
    {
        let e = usage.entries();
        let mut line_items: Vec<LineItem> = Vec::new();
        let mut amount: u64 = 0;
        let mut i: usize = 0;
        assert(e@.take(0) =~= Seq::empty());
        while i < e.len()
            invariant
                i <= e@.len(),
                lines_for(self@, e@.take(i as int)) == Ok::<Seq<LineItem>, BillingErrorModel>(
                    line_items@,
                ),
                amount == capped(sum_of(line_items@)),
                e@ == meter::entries(*usage),
            decreases e@.len() - i,
        {
            let (kind, units) = e[i];
            assert(e@.take(i + 1).drop_last() =~= e@.take(i as int));
            assert(e@.take(i + 1).last() == e@[i as int]);
            let unit_price: u64 = match self.prices.get(kind) {
                Some(p) => p,
                None => {
                    proof {
                        lemma_lines_front(self@, e@, i + 1);
                    }
                    return Err(BillingError::UnpricedKind(kind));
                },
            };
            let free: u64 = match self.free_allowance.get(kind) {
                Some(n) => n,
                None => 0,
            };
            let billed_units: u64 = units.saturating_sub(free);
            let line_amount: u64 = times(billed_units, unit_price);
            let free_units_applied: u64 = if free < units {
                free
            } else {
                units
            };
            let line = LineItem {
                kind,
                metered_units: units,
                free_units_applied,
                billed_units,
                unit_price,
                amount: line_amount,
            };
            assert(line == line_for(kind, units, free, unit_price));
            assert(line_items@.push(line).drop_last() =~= line_items@);
            proof {
                lemma_sum_is_natural(line_items@);
            }
            amount = amount.saturating_add(line_amount);
            line_items.push(line);
            i += 1;
        }
        assert(e@.take(i as int) =~= e@);
        Ok(Bill { currency: self.currency.clone(), amount, line_items })
    }
}

// ---- what holds of schedules and bills ---------------------------------------------------------

proof fn lemma_schedule_is_canonical(s: ScheduleModel)
    ensures
        cbor::canonical(Tree::IntMap(schedule_pairs(s))),
{
    reveal_with_fuel(cbor::ordered, 3);
    reveal_with_fuel(cbor::fits, 3);
    meter::law_entries_are_the_amounts(s.prices);
    meter::law_entries_are_the_amounts(s.free_allowance);
    let p = Tree::IntMap(tagged(meter::entries(s.prices)));
    let f = Tree::IntMap(tagged(meter::entries(s.free_allowance)));
    assert(cbor::ordered(p) && cbor::fits(p, 63));
    assert(cbor::ordered(f) && cbor::fits(f, 63));
    let m = schedule_pairs(s);
    assert forall|i: int| 0 <= i < m.len() implies cbor::ordered((#[trigger] m[i]).1) by {}
    assert forall|i: int| 0 <= i < m.len() implies cbor::fits((#[trigger] m[i]).1, 63) by {}
}

proof fn lemma_read_slot(k: ResourceKind, n: Option<u64>, rest: Seq<(ResourceKind, u64)>, t: KindTable)
    requires
        meter::amount_of(t, k) is None,
    ensures
        read_amounts(tagged(meter::slot(k, n) + rest), t) == read_amounts(
            tagged(rest),
            match n {
                Some(v) => meter::with_amount(t, k, v),
                None => t,
            },
        ),
{
    match n {
        Some(v) => {
            let m = tagged(meter::slot(k, n) + rest);
            assert(m.skip(1) =~= tagged(rest));
        },
        None => {
            assert(meter::slot(k, n) + rest =~= rest);
        },
    }
}

/// A table is read back as it was written.
pub proof fn law_table_round_trips(t: KindTable)
    ensures
        read_table(Tree::IntMap(tagged(meter::entries(t)))) == Ok::<KindTable, BillingErrorModel>(t),
{
    let a = meter::slot(ResourceKind::BytesForwarded, t.bytes_forwarded);
    let b = meter::slot(ResourceKind::Connections, t.connections);
    let c = meter::slot(ResourceKind::Messages, t.messages);
    let d = meter::slot(ResourceKind::ComputeSeconds, t.compute_seconds);
    let none = meter::no_amounts();
    let t1 = KindTable { bytes_forwarded: t.bytes_forwarded, ..none };
    let t2 = KindTable { connections: t.connections, ..t1 };
    let t3 = KindTable { messages: t.messages, ..t2 };
    lemma_read_slot(ResourceKind::BytesForwarded, t.bytes_forwarded, b + (c + d), none);
    lemma_read_slot(ResourceKind::Connections, t.connections, c + d, t1);
    lemma_read_slot(ResourceKind::Messages, t.messages, d, t2);
    assert(d =~= d + Seq::<(ResourceKind, u64)>::empty());
    lemma_read_slot(
        ResourceKind::ComputeSeconds,
        t.compute_seconds,
        Seq::<(ResourceKind, u64)>::empty(),
        t3,
    );
}

/// A schedule is read back as it was written.
pub proof fn law_schedule_round_trips(s: ScheduleModel)
    ensures
        read_schedule(Tree::IntMap(schedule_pairs(s))) == Ok::<ScheduleModel, BillingErrorModel>(s),
{
    let m0 = schedule_pairs(s);
    cbor::lemma_taken_first(m0, 1);
    let m1 = m0.skip(1);
    cbor::lemma_taken_first(m1, 2);
    let m2 = m1.skip(1);
    cbor::lemma_taken_first(m2, 3);
    let m3 = m2.skip(1);
    law_table_round_trips(s.prices);
    law_table_round_trips(s.free_allowance);
    match s.period_seconds {
        Some(_) => {
            cbor::lemma_taken_first(m3, 4);
        },
        None => {
            cbor::lemma_taken_none(m3, 4);
        },
    }
}

/// A payload that lacks the currency, the prices or the free allowance is no schedule.
pub proof fn law_missing_key_is_refused(b: Seq<u8>, m: Pairs, k: u64)
    requires
        cbor::cbor_decoding(b) == Ok::<Tree, CborError>(Tree::IntMap(m)),
        1 <= k <= 3,
        !cbor::has_key(m, k),
    ensures
        schedule_from(b) is Err,
        k == 1 ==> schedule_from(b) == Err::<ScheduleModel, BillingErrorModel>(
            BillingErrorModel::BadEncoding(CborError::MissingKey(1)),
        ),
{
    let m1 = cbor::taken(m, 1).1;
    cbor::lemma_found(m, k);
    if k > 1 {
        cbor::lemma_taken_apart(m, 1, k);
        if k > 2 {
            cbor::lemma_taken_apart(m1, 2, k);
        }
    }
}

/// A payload with a key that a schedule does not have is no schedule. Where that key is all that is
/// wrong, it is the reason.
pub proof fn law_extra_key_is_refused(b: Seq<u8>, m: Pairs, i: int)
    requires
        cbor::cbor_decoding(b) == Ok::<Tree, CborError>(Tree::IntMap(m)),
        0 <= i < m.len(),
        !(1 <= m[i].0 <= 4),
    ensures
        schedule_from(b) is Err,
        read_schedule(Tree::IntMap(m.remove(i))) is Ok ==> schedule_from(b) == Err::<
            ScheduleModel,
            BillingErrorModel,
        >(BillingErrorModel::BadEncoding(CborError::UnknownKey(m[i].0))),
{
    let j1 = cbor::lemma_taken_beside(m, 1, i);
    let m1 = cbor::taken(m, 1).1;
    let j2 = cbor::lemma_taken_beside(m1, 2, j1);
    let m2 = cbor::taken(m1, 2).1;
    let j3 = cbor::lemma_taken_beside(m2, 3, j2);
    let m3 = cbor::taken(m2, 3).1;
    let j4 = cbor::lemma_taken_beside(m3, 4, j3);
    let m4 = cbor::taken(m3, 4).1;
    assert(m4.len() > 0);
    assert(m4.remove(j4).len() == m4.len() - 1);
}

proof fn lemma_unknown_tag(p: Pairs, i: int, t: KindTable)
    requires
        0 <= i < p.len(),
        meter::kind_tagged(p[i].0) is None,
    ensures
        read_amounts(p, t) is Err,
    decreases p.len(),
{
    if i > 0 && meter::kind_tagged(p[0].0) is Some && cbor::number(p[0].1) is Ok {
        assert(p.skip(1)[i - 1] == p[i]);
        lemma_unknown_tag(
            p.skip(1),
            i - 1,
            meter::with_amount(t, meter::kind_tagged(p[0].0)->0, cbor::number(p[0].1)->Ok_0),
        );
    }
}

/// A payload that has a price or a free allowance for a resource that is not known is no schedule.
pub proof fn law_unknown_tag_is_refused(b: Seq<u8>, m: Pairs, k: u64, p: Pairs, i: int)
    requires
        cbor::cbor_decoding(b) == Ok::<Tree, CborError>(Tree::IntMap(m)),
        k == 2 || k == 3,
        cbor::taken(m, k).0 == Some(Tree::IntMap(p)),
        0 <= i < p.len(),
        meter::kind_tagged(p[i].0) is None,
    ensures
        schedule_from(b) is Err,
{
    lemma_unknown_tag(p, i, meter::no_amounts());
    cbor::lemma_taken_apart(m, 1, k);
    if k == 3 {
        cbor::lemma_taken_apart(cbor::taken(m, 1).1, 2, k);
    }
}

proof fn lemma_lines(s: ScheduleModel, e: Seq<(ResourceKind, u64)>)
    ensures
        lines_for(s, e) is Ok <==> forall|i: int|
            0 <= i < e.len() ==> meter::amount_of(s.prices, (#[trigger] e[i]).0) is Some,
        lines_for(s, e) matches Ok(lines) ==> lines.len() == e.len() && forall|i: int|
            0 <= i < e.len() ==> #[trigger] lines[i] == line_for(
                e[i].0,
                e[i].1,
                free_units(s, e[i].0),
                meter::amount_of(s.prices, e[i].0)->0,
            ),
        lines_for(s, e) matches Err(x) ==> x is UnpricedKind,
    decreases e.len(),
{
    if e.len() > 0 {
        let front = e.drop_last();
        lemma_lines(s, front);
        assert forall|i: int| 0 <= i < front.len() implies front[i] == e[i] by {}
        if lines_for(s, front) is Err {
            let i = choose|i: int|
                0 <= i < front.len() && meter::amount_of(s.prices, (#[trigger] front[i]).0) is None;
            assert(meter::amount_of(s.prices, e[i].0) is None);
        } else if lines_for(s, e) is Err {
            assert(meter::amount_of(s.prices, e[e.len() - 1].0) is None);
        } else {
            assert forall|i: int| 0 <= i < e.len() implies meter::amount_of(
                s.prices,
                (#[trigger] e[i]).0,
            ) is Some by {
                if i < front.len() {
                    assert(meter::amount_of(s.prices, front[i].0) is Some);
                }
            }
        }
    }
}

/// Usage is billed exactly where each resource that was used has a price; else the bill is refused
/// for a resource without one.
pub proof fn law_unpriced_is_refused(s: ScheduleModel, usage: KindTable)
    ensures
        bill_for(s, usage) is Ok <==> forall|k: ResourceKind|
            meter::amount_of(usage, k) is Some ==> meter::amount_of(s.prices, k) is Some,
        bill_for(s, usage) matches Err(x) ==> x is UnpricedKind,
{
    let e = meter::entries(usage);
    lemma_lines(s, e);
    meter::law_entries_are_the_amounts(usage);
    if bill_for(s, usage) is Ok {
        assert forall|k: ResourceKind| meter::amount_of(usage, k) is Some implies meter::amount_of(
            s.prices,
            k,
        ) is Some by {
            let p = (k, meter::amount_of(usage, k)->0);
            assert(e.contains(p));
            let i = choose|i: int| 0 <= i < e.len() && e[i] == p;
            assert(meter::amount_of(s.prices, e[i].0) is Some);
        }
    } else {
        let i = choose|i: int|
            0 <= i < e.len() && meter::amount_of(s.prices, (#[trigger] e[i]).0) is None;
        assert(meter::amount_of(usage, e[i].0) is Some);
    }
}

/// The units of a line are the free ones and the billed ones, and its amount is the price of the
/// billed ones. What is within the free units costs nothing.
pub proof fn law_line_adds_up(k: ResourceKind, units: u64, free: u64, unit_price: u64)
    ensures
        ({
            let l = line_for(k, units, free, unit_price);
            &&& l.metered_units == l.free_units_applied + l.billed_units
            &&& l.free_units_applied <= free
            &&& l.amount == capped(l.billed_units * l.unit_price)
            &&& units <= free ==> l.amount == 0
        }),
{
    assert(0 * unit_price == 0) by (nonlinear_arith);
}

proof fn lemma_sum_of_nothing(lines: Seq<LineItem>)
    requires
        forall|i: int| 0 <= i < lines.len() ==> (#[trigger] lines[i]).amount == 0,
    ensures
        sum_of(lines) == 0,
    decreases lines.len(),
{
    if lines.len() > 0 {
        let front = lines.drop_last();
        assert forall|i: int| 0 <= i < front.len() implies (#[trigger] front[i]).amount == 0 by {
            assert(front[i] == lines[i]);
        }
        lemma_sum_of_nothing(front);
    }
}

/// Usage within the free units of each resource costs nothing.
pub proof fn law_free_usage_costs_nothing(s: ScheduleModel, usage: KindTable)
    requires
        bill_for(s, usage) is Ok,
        forall|k: ResourceKind|
            meter::amount_of(usage, k) matches Some(units) ==> units <= #[trigger] free_units(s, k),
    ensures
        bill_for(s, usage)->Ok_0.amount == 0,
{
    let e = meter::entries(usage);
    lemma_lines(s, e);
    meter::law_entries_are_the_amounts(usage);
    let lines = bill_for(s, usage)->Ok_0.line_items;
    assert forall|i: int| 0 <= i < lines.len() implies (#[trigger] lines[i]).amount == 0 by {
        let k = e[i].0;
        assert(meter::amount_of(usage, k) == Some(e[i].1));
        assert(e[i].1 <= free_units(s, k));
        law_line_adds_up(k, e[i].1, free_units(s, k), meter::amount_of(s.prices, k)->0);
    }
    lemma_sum_of_nothing(lines);
}

/// Where nothing was used, nothing is owed.
pub proof fn law_no_usage_no_bill(s: ScheduleModel)
    ensures
        bill_for(s, meter::no_amounts()) == Ok::<BillModel, BillingErrorModel>(
            BillModel { currency: s.currency, amount: 0, line_items: Seq::empty() },
        ),
{
    assert(meter::entries(meter::no_amounts()) =~= Seq::empty());
}

/// Every resource that was used has its line, and every line is for a resource that was used. Of the
/// units used, as many are free as the allowance has, or all of them where it has more; the rest is
/// billed at the price of the schedule.
pub proof fn law_lines_charge_what_is_not_free(s: ScheduleModel, usage: KindTable)
    requires
        bill_for(s, usage) is Ok,
    ensures
        ({
            let b = bill_for(s, usage)->Ok_0;
            &&& b.currency == s.currency
            &&& forall|i: int|
                0 <= i < b.line_items.len() ==> {
                    let l = #[trigger] b.line_items[i];
                    let free = match meter::amount_of(s.free_allowance, l.kind) {
                        Some(n) => n,
                        None => 0,
                    };
                    &&& meter::amount_of(usage, l.kind) == Some(l.metered_units)
                    &&& meter::amount_of(s.prices, l.kind) == Some(l.unit_price)
                    &&& free <= l.metered_units ==> l.free_units_applied == free
                    &&& l.metered_units <= free ==> l.free_units_applied == l.metered_units
                    &&& l.billed_units == l.metered_units - l.free_units_applied
                    &&& l.billed_units * l.unit_price <= u64::MAX ==> l.amount == l.billed_units
                        * l.unit_price
                    &&& l.billed_units * l.unit_price > u64::MAX ==> l.amount == u64::MAX
                }
            &&& forall|k: ResourceKind| #[trigger]
                meter::amount_of(usage, k) is Some ==> exists|i: int|
                    0 <= i < b.line_items.len() && (#[trigger] b.line_items[i]).kind == k
            &&& forall|i: int, j: int|
                0 <= i < j < b.line_items.len() ==> (#[trigger] b.line_items[i]).kind != (
                #[trigger] b.line_items[j]).kind
        }),
{
    let e = meter::entries(usage);
    let b = bill_for(s, usage)->Ok_0;
    lemma_lines(s, e);
    meter::law_entries_are_the_amounts(usage);
    assert forall|i: int| 0 <= i < b.line_items.len() implies meter::amount_of(
        usage,
        (#[trigger] b.line_items[i]).kind,
    ) == Some(b.line_items[i].metered_units) by {
        assert(e[i].0 == b.line_items[i].kind);
    }
    assert forall|i: int| 0 <= i < b.line_items.len() implies meter::amount_of(
        s.prices,
        (#[trigger] b.line_items[i]).kind,
    ) == Some(b.line_items[i].unit_price) by {
        assert(e[i].0 == b.line_items[i].kind);
    }
    assert forall|k: ResourceKind| #[trigger] meter::amount_of(usage, k) is Some implies exists|
        i: int,
    |
        0 <= i < b.line_items.len() && (#[trigger] b.line_items[i]).kind == k by {
        let p = (k, meter::amount_of(usage, k)->0);
        let i = choose|i: int| 0 <= i < e.len() && e[i] == p;
        assert(b.line_items[i].kind == k);
    }
    assert forall|i: int, j: int| 0 <= i < j < b.line_items.len() implies (
    #[trigger] b.line_items[i]).kind != (#[trigger] b.line_items[j]).kind by {
        assert(meter::tag_of(e[i].0) < meter::tag_of(e[j].0));
    }
}

/// What one resource costs: the units beyond the allowance at their price, or the largest amount that
/// fits.
pub open spec fn cost(used: Option<u64>, free: Option<u64>, price: Option<u64>) -> int {
    match (used, price) {
        (Some(n), Some(p)) => {
            let f: int = if free is Some {
                free->0 as int
            } else {
                0
            };
            if n <= f {
                0
            } else if (n - f) * p > u64::MAX {
                u64::MAX as int
            } else {
                (n - f) * p
            }
        },
        _ => 0,
    }
}

proof fn lemma_sum_joined(a: Seq<LineItem>, b: Seq<LineItem>)
    ensures
        sum_of(a + b) == sum_of(a) + sum_of(b),
    decreases b.len(),
{
    if b.len() == 0 {
        assert(a + b =~= a);
    } else {
        assert((a + b).drop_last() =~= a + b.drop_last());
        lemma_sum_joined(a, b.drop_last());
    }
}

proof fn lemma_lines_joined(
    s: ScheduleModel,
    a: Seq<(ResourceKind, u64)>,
    b: Seq<(ResourceKind, u64)>,
)
    ensures
        lines_for(s, a + b) is Ok ==> lines_for(s, a) is Ok && lines_for(s, b) is Ok && lines_for(
            s,
            a + b,
        )->Ok_0 == lines_for(s, a)->Ok_0 + lines_for(s, b)->Ok_0,
    decreases b.len(),
{
    if b.len() == 0 {
        assert(a + b =~= a);
        if lines_for(s, a) is Ok {
            assert(lines_for(s, a)->Ok_0 + Seq::<LineItem>::empty() =~= lines_for(s, a)->Ok_0);
        }
    } else {
        assert((a + b).drop_last() =~= a + b.drop_last());
        assert((a + b).last() == b.last());
        lemma_lines_joined(s, a, b.drop_last());
        if lines_for(s, a + b) is Ok {
            assert(lines_for(s, a + b)->Ok_0 =~= lines_for(s, a)->Ok_0 + lines_for(s, b)->Ok_0);
        }
    }
}

proof fn lemma_slot_cost(s: ScheduleModel, k: ResourceKind, used: Option<u64>)
    requires
        lines_for(s, meter::slot(k, used)) is Ok,
    ensures
        sum_of(lines_for(s, meter::slot(k, used))->Ok_0) == cost(
            used,
            meter::amount_of(s.free_allowance, k),
            meter::amount_of(s.prices, k),
        ),
{
    match used {
        Some(n) => {
            let e = meter::slot(k, used);
            assert(e.drop_last() =~= Seq::<(ResourceKind, u64)>::empty());
            assert(lines_for(s, e.drop_last()) == Ok::<Seq<LineItem>, BillingErrorModel>(
                Seq::empty(),
            ));
            let l = lines_for(s, e)->Ok_0;
            assert(l.len() == 1);
            assert(l.drop_last() =~= Seq::<LineItem>::empty());
            let p = meter::amount_of(s.prices, k)->0;
            assert(0 * p == 0) by (nonlinear_arith);
            let f = free_units(s, k);
            let line = line_for(k, n, f, p);
            assert(l[0] == line);
            assert(sum_of(l) == sum_of(l.drop_last()) + line.amount);
            if n > f {
                assert(line.billed_units == n - f);
                assert(line.billed_units * p == (n - f) * p);
                assert((n - f) * p >= 0) by (nonlinear_arith)
                    requires
                        n > f,
                        p >= 0,
                ;
            }
        },
        None => {},
    }
}

/// A bill is what its resources cost together, or the largest amount that fits.
pub proof fn law_bill_is_the_cost_of_the_usage(s: ScheduleModel, usage: KindTable)
    requires
        bill_for(s, usage) is Ok,
    ensures
        ({
            let sum = cost(
                usage.bytes_forwarded,
                s.free_allowance.bytes_forwarded,
                s.prices.bytes_forwarded,
            ) + cost(usage.connections, s.free_allowance.connections, s.prices.connections) + cost(
                usage.messages,
                s.free_allowance.messages,
                s.prices.messages,
            ) + cost(
                usage.compute_seconds,
                s.free_allowance.compute_seconds,
                s.prices.compute_seconds,
            );
            bill_for(s, usage)->Ok_0.amount == (if sum > u64::MAX {
                u64::MAX as int
            } else {
                sum
            })
        }),
{
    let a = meter::slot(ResourceKind::BytesForwarded, usage.bytes_forwarded);
    let b = meter::slot(ResourceKind::Connections, usage.connections);
    let c = meter::slot(ResourceKind::Messages, usage.messages);
    let d = meter::slot(ResourceKind::ComputeSeconds, usage.compute_seconds);
    lemma_lines_joined(s, a, b + (c + d));
    lemma_lines_joined(s, b, c + d);
    lemma_lines_joined(s, c, d);
    let la = lines_for(s, a)->Ok_0;
    let lb = lines_for(s, b)->Ok_0;
    let lc = lines_for(s, c)->Ok_0;
    let ld = lines_for(s, d)->Ok_0;
    lemma_sum_joined(la, lb + (lc + ld));
    lemma_sum_joined(lb, lc + ld);
    lemma_sum_joined(lc, ld);
    lemma_slot_cost(s, ResourceKind::BytesForwarded, usage.bytes_forwarded);
    lemma_slot_cost(s, ResourceKind::Connections, usage.connections);
    lemma_slot_cost(s, ResourceKind::Messages, usage.messages);
    lemma_slot_cost(s, ResourceKind::ComputeSeconds, usage.compute_seconds);
    lemma_sum_is_natural(la + (lb + (lc + ld)));
}

/// A bill is the sum of its lines, or the largest amount that fits.
pub proof fn law_bill_is_the_sum_of_its_lines(s: ScheduleModel, usage: KindTable)
    requires
        bill_for(s, usage) is Ok,
    ensures
        ({
            let b = bill_for(s, usage)->Ok_0;
            let sum = b.line_items.fold_left(0int, |acc: int, l: LineItem| acc + l.amount);
            &&& sum <= u64::MAX ==> b.amount == sum
            &&& sum > u64::MAX ==> b.amount == u64::MAX
        }),
{
    let b = bill_for(s, usage)->Ok_0;
    lemma_sum_is_fold(b.line_items);
    lemma_sum_is_natural(b.line_items);
}

proof fn lemma_sum_is_fold(lines: Seq<LineItem>)
    ensures
        sum_of(lines) == lines.fold_left(0int, |acc: int, l: LineItem| acc + l.amount),
    decreases lines.len(),
{
    reveal_with_fuel(Seq::fold_left, 2);
    if lines.len() > 0 {
        lemma_sum_is_fold(lines.drop_last());
    }
}

/// What a schedule is on the wire: the currency under 1, the prices under 2, the free units under 3 and
/// the period, if it has one, under 4; prices and units are tables by the number of the resource.
pub proof fn law_schedule_on_the_wire(s: ScheduleModel, k: ResourceKind)
    ensures
        ({
            let m = schedule_pairs(s);
            let prices = (m[1].1)->IntMap_0;
            let free = (m[2].1)->IntMap_0;
            &&& m[0] == (1u64, Tree::Text(s.currency))
            &&& m[1].0 == 2 && m[1].1 is IntMap && m[2].0 == 3 && m[2].1 is IntMap
            &&& s.period_seconds is Some ==> m.len() == 4 && m[3] == (
                4u64,
                Tree::U64(s.period_seconds->0),
            )
            &&& s.period_seconds is None ==> m.len() == 3
            &&& meter::amount_of(s.prices, k) matches Some(n) ==> prices.contains(
                (meter::tag_of(k), Tree::U64(n)),
            )
            &&& meter::amount_of(s.free_allowance, k) matches Some(n) ==> free.contains(
                (meter::tag_of(k), Tree::U64(n)),
            )
        }),
{
    lemma_tagged(s.prices, k);
    lemma_tagged(s.free_allowance, k);
}

proof fn lemma_tagged(t: KindTable, k: ResourceKind)
    ensures
        meter::amount_of(t, k) matches Some(n) ==> tagged(meter::entries(t)).contains(
            (meter::tag_of(k), Tree::U64(n)),
        ),
{
    meter::law_entries_are_the_amounts(t);
    if meter::amount_of(t, k) is Some {
        let e = meter::entries(t);
        let p = (k, meter::amount_of(t, k)->0);
        let i = choose|i: int| 0 <= i < e.len() && e[i] == p;
        assert(tagged(e)[i] == (meter::tag_of(k), Tree::U64(p.1)));
    }
}

} // verus!
