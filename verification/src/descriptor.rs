//! Coordinator descriptors, tariffs and usage receipts, as signed objects.
//!
//! Each is a map in canonical CBOR with numbers as keys, signed with Ed25519 under a label of its
//! own. A descriptor says what a coordinator is and what it can see; it has no field for a score, a
//! rank or a stake. A tariff and a receipt carry the identity that signed them, so that each can be
//! checked alone.
//!
//! One signature suite is known. A signed object that names another is refused.

use crate::abuse::{Clock, SystemClock};
use crate::cbor;
use crate::cbor::{CborError, Fields, Pairs, Tree, Value};
use crate::identity;
use crate::identity::{IdentityError, IdentityKey};
use crate::kinds;
use crate::kinds::CoordinatorKind;
use crate::model;
use crate::visibility;
use crate::visibility::{AssuranceLevel, ContentVisibility, VisibilityClass};
use vstd::prelude::*;
use vstd::slice::slice_to_vec;

verus! {

/// The label that descriptors are signed under.
pub const DESCRIPTOR_DS: &'static str = "DMTAP-COORD-v0/descriptor\0";

/// The label that tariffs are signed under.
pub const TARIFF_DS: &'static str = "DMTAP-COORD-v0/tariff\0";

/// The label that usage receipts are signed under.
pub const USAGE_RECEIPT_DS: &'static str = "DMTAP-COORD-v0/usage-receipt\0";

/// The signature suite: Ed25519.
pub const SUITE: u8 = 1;

/// The octets of a label.
pub open spec fn label(ds: &str) -> Seq<u8> {
    vstd::utf8::encode_utf8(ds@)
}

/// Why an object is not accepted.
#[derive(Debug)]
pub enum DescriptorError {
    BadSignature(IdentityError),
    BadEncoding(CborError),
    Malformed(&'static str),
    UnsupportedSuite(u8),
    /// A tariff past the time that it is valid until.
    Expired { valid_until: u64, now: u64 },
}

/// [`DescriptorError`] with its text as a sequence.
pub enum DescriptorErrorModel {
    BadSignature(IdentityError),
    BadEncoding(CborError),
    Malformed(Seq<char>),
    UnsupportedSuite(u8),
    Expired { valid_until: u64, now: u64 },
}

impl View for DescriptorError {
    type V = DescriptorErrorModel;

    open spec fn view(&self) -> DescriptorErrorModel {
        match *self {
            DescriptorError::BadSignature(e) => DescriptorErrorModel::BadSignature(e),
            DescriptorError::BadEncoding(e) => DescriptorErrorModel::BadEncoding(e),
            DescriptorError::Malformed(s) => DescriptorErrorModel::Malformed(s@),
            DescriptorError::UnsupportedSuite(b) => DescriptorErrorModel::UnsupportedSuite(b),
            DescriptorError::Expired { valid_until, now } => DescriptorErrorModel::Expired {
                valid_until,
                now,
            },
        }
    }
}

// ---- the suite ---------------------------------------------------------------------------------

/// Whether a value names the suite that is known.
pub open spec fn suite_verdict(t: Tree) -> Result<(), DescriptorErrorModel> {
    match cbor::small_number(t) {
        Ok(b) => if b == SUITE {
            Ok(())
        } else {
            Err(DescriptorErrorModel::UnsupportedSuite(b))
        },
        Err(e) => Err(DescriptorErrorModel::BadEncoding(e)),
    }
}

/// The pairs of an object that names the known suite at its first key, without that key.
pub open spec fn after_suite(t: Tree) -> Result<Pairs, DescriptorErrorModel> {
    match cbor::pairs_of(t) {
        Ok(m) => match cbor::required(m, 1) {
            Ok((suite, rest)) => match suite_verdict(suite) {
                Ok(_) => Ok(rest),
                Err(e) => Err(e),
            },
            Err(e) => Err(DescriptorErrorModel::BadEncoding(e)),
        },
        Err(e) => Err(DescriptorErrorModel::BadEncoding(e)),
    }
}

/// Accepts a value that names the suite that is known.
pub fn require_supported_suite(cv: Value) -> (r: Result<(), DescriptorError>)
    ensures
        model::unit_view(r) == suite_verdict(cv@),
{
    match cbor::as_u8(cv) {
        Ok(b) => if b == SUITE {
            Ok(())
        } else {
            Err(DescriptorError::UnsupportedSuite(b))
        },
        Err(e) => Err(DescriptorError::BadEncoding(e)),
    }
}

fn open_object(cv: Value) -> (r: Result<Fields, DescriptorError>)
    ensures
        model::res_view(r) == after_suite(cv@),
{
    match Fields::from_value(cv) {
        Ok(mut f) => match f.req(1) {
            Ok(v) => match require_supported_suite(v) {
                Ok(_) => Ok(f),
                Err(e) => Err(e),
            },
            Err(e) => Err(DescriptorError::BadEncoding(e)),
        },
        Err(e) => Err(DescriptorError::BadEncoding(e)),
    }
}

// ---- payloads ----------------------------------------------------------------------------------

/// Octets in canonical CBOR that are carried and signed, not read. None at all is a payload too.
#[derive(Debug, PartialEq, Eq)]
pub struct Cbor(pub Vec<u8>);

impl View for Cbor {
    type V = Seq<u8>;

    open spec fn view(&self) -> Seq<u8> {
        self.0@
    }
}

impl Clone for Cbor {
    fn clone(&self) -> (r: Self)
        ensures
            r@ == self@,
    {
        Cbor(slice_to_vec(self.0.as_slice()))
    }
}

impl Default for Cbor {
    fn default() -> (r: Self)
        ensures
            r@ == Seq::<u8>::empty(),
    {
        Cbor(Vec::new())
    }
}

impl Cbor {
    /// No payload.
    pub fn empty() -> (r: Self)
        ensures
            r@ == Seq::<u8>::empty(),
    {
        Cbor(Vec::new())
    }

    /// The canonical octets of a value.
    pub fn from_cv(cv: &Value) -> (r: Self)
        ensures
            r@ == cbor::cbor_encoding(cv@),
            cbor::canonical(cv@) ==> cbor::cbor_decoding(r@) is Ok && cbor::cbor_decoding(r@)->Ok_0
                == cv@,
    {
        Cbor(cbor::encode(cv))
    }

    /// The value that the payload is the canonical form of.
    pub fn decode(&self) -> (r: Result<Value, CborError>)
        ensures
            model::ok_view(r) == cbor::cbor_decoding(self@),
            r matches Ok(cv) ==> cbor::cbor_encoding(cv@) == self@,
    {
        cbor::decode(self.0.as_slice())
    }
}

// ---- visibility --------------------------------------------------------------------------------

/// A visibility as a tree.
pub open spec fn visibility_tree(v: ContentVisibility) -> Tree {
    Tree::IntMap(
        seq![
            (1u64, Tree::Text(visibility::class_label(v.class))),
            (2u64, Tree::Text(visibility::level_label(v.level))),
        ],
    )
}

/// The visibility that a tree is.
pub open spec fn read_visibility(t: Tree) -> Result<ContentVisibility, DescriptorErrorModel> {
    match cbor::pairs_of(t) {
        Ok(m0) => match cbor::text_at(m0, 1) {
            Ok((c, m1)) => match visibility::class_named(c) {
                Some(class) => match cbor::text_at(m1, 2) {
                    Ok((l, m2)) => match visibility::level_named(l) {
                        Some(level) => match cbor::nothing_left(m2) {
                            Ok(_) => Ok(ContentVisibility { class, level }),
                            Err(e) => Err(DescriptorErrorModel::BadEncoding(e)),
                        },
                        None => Err(DescriptorErrorModel::Malformed("unknown assurance level"@)),
                    },
                    Err(e) => Err(DescriptorErrorModel::BadEncoding(e)),
                },
                None => Err(DescriptorErrorModel::Malformed("unknown visibility class"@)),
            },
            Err(e) => Err(DescriptorErrorModel::BadEncoding(e)),
        },
        Err(e) => Err(DescriptorErrorModel::BadEncoding(e)),
    }
}

fn visibility_to_cv(v: ContentVisibility) -> (r: Value)
    ensures
        r@ == visibility_tree(v),
{
    let mut m: Vec<(u64, Value)> = Vec::new();
    m.push((1, cbor::text_value(v.class.as_str())));
    m.push((2, cbor::text_value(v.level.as_str())));
    let r = cbor::map_value(m);
    assert(cbor::pair_trees(m@) =~= visibility_tree(v)->IntMap_0);
    r
}

fn visibility_from_cv(cv: Value) -> (r: Result<ContentVisibility, DescriptorError>)
    ensures
        match r {
            Ok(v) => read_visibility(cv@) == Ok::<ContentVisibility, DescriptorErrorModel>(v),
            Err(e) => read_visibility(cv@) == Err::<ContentVisibility, DescriptorErrorModel>(e@),
        },
{
    let mut f = match Fields::from_value(cv) {
        Ok(f) => f,
        Err(e) => return Err(DescriptorError::BadEncoding(e)),
    };
    let class = match f.req_text(1) {
        Ok(s) => match VisibilityClass::from_wire_str(s.as_str()) {
            Some(c) => c,
            None => return Err(DescriptorError::Malformed("unknown visibility class")),
        },
        Err(e) => return Err(DescriptorError::BadEncoding(e)),
    };
    let level = match f.req_text(2) {
        Ok(s) => match AssuranceLevel::from_wire_str(s.as_str()) {
            Some(l) => l,
            None => return Err(DescriptorError::Malformed("unknown assurance level")),
        },
        Err(e) => return Err(DescriptorError::BadEncoding(e)),
    };
    match f.deny_unknown() {
        Ok(_) => Ok(ContentVisibility::new(class, level)),
        Err(e) => Err(DescriptorError::BadEncoding(e)),
    }
}

// ---- tariffs -----------------------------------------------------------------------------------

/// A signed price schedule.
#[derive(Debug)]
pub struct Tariff {
    /// The identity that signed.
    pub identity: Vec<u8>,
    pub schedule: Cbor,
    /// Until when the tariff is valid, in milliseconds since the Unix epoch. `None`: for ever.
    pub valid_until: Option<u64>,
    pub sig: Vec<u8>,
}

/// [`Tariff`] with its contents as sequences.
pub struct TariffModel {
    pub identity: Seq<u8>,
    pub schedule: Seq<u8>,
    pub valid_until: Option<u64>,
    pub sig: Seq<u8>,
}

impl View for Tariff {
    type V = TariffModel;

    open spec fn view(&self) -> TariffModel {
        TariffModel {
            identity: self.identity@,
            schedule: self.schedule@,
            valid_until: self.valid_until,
            sig: self.sig@,
        }
    }
}

impl Clone for Tariff {
    fn clone(&self) -> (r: Self)
        ensures
            r@ == self@,
    {
        Tariff {
            identity: slice_to_vec(self.identity.as_slice()),
            schedule: self.schedule.clone(),
            valid_until: self.valid_until,
            sig: slice_to_vec(self.sig.as_slice()),
        }
    }
}

/// The pairs of a tariff that are signed.
pub open spec fn tariff_pairs(
    identity: Seq<u8>,
    schedule: Seq<u8>,
    valid_until: Option<u64>,
) -> Pairs {
    let m = seq![
        (1u64, Tree::U64(SUITE as u64)),
        (2u64, Tree::Bytes(identity)),
        (3u64, Tree::Bytes(schedule)),
    ];
    match valid_until {
        Some(v) => m.push((4u64, Tree::U64(v))),
        None => m,
    }
}

/// A tariff as a tree.
pub open spec fn tariff_tree(t: TariffModel) -> Tree {
    Tree::IntMap(
        tariff_pairs(t.identity, t.schedule, t.valid_until).push((5u64, Tree::Bytes(t.sig))),
    )
}

/// The octets of a tariff that are signed.
pub open spec fn tariff_body(t: TariffModel) -> Seq<u8> {
    cbor::cbor_encoding(Tree::IntMap(tariff_pairs(t.identity, t.schedule, t.valid_until)))
}

/// The tariff that a tree is.
pub open spec fn read_tariff(t: Tree) -> Result<TariffModel, DescriptorErrorModel> {
    match after_suite(t) {
        Ok(m1) => match cbor::octets_at(m1, 2) {
            Ok((identity, m2)) => match cbor::octets_at(m2, 3) {
                Ok((schedule, m3)) => match cbor::number_if_any(m3, 4) {
                    Ok((valid_until, m4)) => match cbor::octets_at(m4, 5) {
                        Ok((sig, m5)) => match cbor::nothing_left(m5) {
                            Ok(_) => Ok(TariffModel { identity, schedule, valid_until, sig }),
                            Err(e) => Err(DescriptorErrorModel::BadEncoding(e)),
                        },
                        Err(e) => Err(DescriptorErrorModel::BadEncoding(e)),
                    },
                    Err(e) => Err(DescriptorErrorModel::BadEncoding(e)),
                },
                Err(e) => Err(DescriptorErrorModel::BadEncoding(e)),
            },
            Err(e) => Err(DescriptorErrorModel::BadEncoding(e)),
        },
        Err(e) => Err(e),
    }
}

/// Whether a tariff is its own identity's and still valid at a time.
pub open spec fn tariff_verdict(t: TariffModel, now: u64) -> Result<(), DescriptorErrorModel> {
    if !identity::ed25519_accepts(t.identity, label(TARIFF_DS), tariff_body(t), t.sig) {
        Err(DescriptorErrorModel::BadSignature(identity::refusal(t.identity, t.sig)))
    } else {
        match t.valid_until {
            Some(valid_until) if now > valid_until => Err(
                DescriptorErrorModel::Expired { valid_until, now },
            ),
            _ => Ok(()),
        }
    }
}

impl Tariff {
    fn signed_pairs(identity: &[u8], schedule: &Cbor, valid_until: Option<u64>) -> (r: Vec<
        (u64, Value),
    >)
        ensures
            cbor::pair_trees(r@) == tariff_pairs(identity@, schedule@, valid_until),
    {
        let mut m: Vec<(u64, Value)> = Vec::new();
        m.push((1, Value::U64(SUITE as u64)));
        m.push((2, cbor::bytes_value(identity)));
        m.push((3, cbor::bytes_value(schedule.0.as_slice())));
        if let Some(v) = valid_until {
            m.push((4, Value::U64(v)));
        }
        assert(cbor::pair_trees(m@) =~= tariff_pairs(identity@, schedule@, valid_until));
        m
    }

    fn signing_body(identity: &[u8], schedule: &Cbor, valid_until: Option<u64>) -> (r: Vec<u8>)
        ensures
            r@ == cbor::cbor_encoding(Tree::IntMap(tariff_pairs(identity@, schedule@, valid_until))),
    {
        let m = Self::signed_pairs(identity, schedule, valid_until);
        let cv = cbor::map_value(m);
        cbor::encode(&cv)
    }

    /// Signs a schedule that is valid for ever.
    pub fn sign(schedule: Cbor, ik: &IdentityKey) -> (r: Tariff)
        ensures
            r.schedule == schedule,
            r.valid_until is None,
            r.identity@ == identity::ed25519_public(ik@),
            r.sig@ == identity::ed25519_signature(ik@, label(TARIFF_DS), tariff_body(r@)),
            forall|now: u64| #[trigger] tariff_verdict(r@, now) is Ok,
    {
        Self::sign_with_validity(schedule, None, ik)
    }

    /// Signs a schedule that is valid until a time.
    pub fn sign_with_validity(schedule: Cbor, valid_until: Option<u64>, ik: &IdentityKey) -> (r:
        Tariff)
        ensures
            r.schedule == schedule,
            r.valid_until == valid_until,
            r.identity@ == identity::ed25519_public(ik@),
            r.sig@ == identity::ed25519_signature(ik@, label(TARIFF_DS), tariff_body(r@)),
            forall|now: u64|
                (valid_until matches Some(v) ==> now <= v) ==> #[trigger] tariff_verdict(r@, now) is Ok,
    {
        let identity = ik.public();
        let body = Self::signing_body(identity.as_slice(), &schedule, valid_until);
        let sig = ik.sign_domain(TARIFF_DS.as_bytes(), body.as_slice());
        let r = Tariff { identity, schedule, valid_until, sig };
        assert(body@ == tariff_body(r@));
        r
    }

    /// Whether the tariff is its own identity's and still valid at a time.
    pub fn verify_at(&self, now: u64) -> (r: Result<(), DescriptorError>)
        ensures
            model::unit_view(r) == tariff_verdict(self@, now),
    {
        let body = Self::signing_body(self.identity.as_slice(), &self.schedule, self.valid_until);
        assert(body@ == tariff_body(self@));
        match identity::verify_domain(
            self.identity.as_slice(),
            TARIFF_DS.as_bytes(),
            body.as_slice(),
            self.sig.as_slice(),
        ) {
            Ok(_) => (),
            Err(e) => return Err(DescriptorError::BadSignature(e)),
        }
        if let Some(valid_until) = self.valid_until {
            if now > valid_until {
                return Err(DescriptorError::Expired { valid_until, now });
            }
        }
        Ok(())
    }

    /// Whether the tariff is its own identity's and still valid now, by the clock of the system.
    pub fn verify(&self) -> (r: Result<(), DescriptorError>)
        ensures
            exists|now: u64| model::unit_view(r) == #[trigger] tariff_verdict(self@, now),
    {
        let now: u64 = SystemClock.now_ms();
        let r = self.verify_at(now);
        assert(model::unit_view(r) == tariff_verdict(self@, now));
        r
    }

    /// The tariff as a value.
    pub fn to_cv(&self) -> (r: Value)
        ensures
            r@ == tariff_tree(self@),
    {
        let mut m = Self::signed_pairs(self.identity.as_slice(), &self.schedule, self.valid_until);
        let ghost before = m@;
        m.push((5, cbor::bytes_value(self.sig.as_slice())));
        assert(cbor::pair_trees(m@) =~= cbor::pair_trees(before).push((5u64, Tree::Bytes(self.sig@))));
        cbor::map_value(m)
    }

    /// The tariff that a value is. Its signature is not checked.
    pub fn from_cv(cv: Value) -> (r: Result<Self, DescriptorError>)
        ensures
            model::res_view(r) == read_tariff(cv@),
    {
        let mut f = match open_object(cv) {
            Ok(f) => f,
            Err(e) => return Err(e),
        };
        let identity = match f.req_bytes(2) {
            Ok(b) => b,
            Err(e) => return Err(DescriptorError::BadEncoding(e)),
        };
        let schedule = match f.req_bytes(3) {
            Ok(b) => Cbor(b),
            Err(e) => return Err(DescriptorError::BadEncoding(e)),
        };
        let valid_until = match f.take_u64(4) {
            Ok(n) => n,
            Err(e) => return Err(DescriptorError::BadEncoding(e)),
        };
        let sig = match f.req_bytes(5) {
            Ok(b) => b,
            Err(e) => return Err(DescriptorError::BadEncoding(e)),
        };
        match f.deny_unknown() {
            Ok(_) => Ok(Tariff { identity, schedule, valid_until, sig }),
            Err(e) => Err(DescriptorError::BadEncoding(e)),
        }
    }
}

// ---- descriptors -------------------------------------------------------------------------------

/// What a coordinator says of itself.
#[derive(Debug)]
pub struct Descriptor {
    /// The public key that the coordinator is known by.
    pub identity: Vec<u8>,
    pub kind: CoordinatorKind,
    pub visibility: ContentVisibility,
    /// The operator's policy, not read here.
    pub policy: Cbor,
    /// What the coordinator charges. `None`: nothing.
    pub tariff: Option<Tariff>,
}

/// [`Descriptor`] with its contents as sequences.
pub struct DescriptorModel {
    pub identity: Seq<u8>,
    pub kind: CoordinatorKind,
    pub visibility: ContentVisibility,
    pub policy: Seq<u8>,
    pub tariff: Option<TariffModel>,
}

impl View for Descriptor {
    type V = DescriptorModel;

    open spec fn view(&self) -> DescriptorModel {
        DescriptorModel {
            identity: self.identity@,
            kind: self.kind,
            visibility: self.visibility,
            policy: self.policy@,
            tariff: model::opt_view(self.tariff),
        }
    }
}

impl Clone for Descriptor {
    fn clone(&self) -> (r: Self)
        ensures
            r@ == self@,
    {
        Descriptor {
            identity: slice_to_vec(self.identity.as_slice()),
            kind: self.kind,
            visibility: self.visibility,
            policy: self.policy.clone(),
            tariff: match &self.tariff {
                Some(t) => Some(t.clone()),
                None => None,
            },
        }
    }
}

/// The pairs of a descriptor.
pub open spec fn descriptor_pairs(d: DescriptorModel) -> Pairs {
    let m = seq![
        (1u64, Tree::U64(SUITE as u64)),
        (2u64, Tree::Text(kinds::kind_label(d.kind))),
        (3u64, Tree::Bytes(d.identity)),
        (4u64, visibility_tree(d.visibility)),
        (5u64, Tree::Bytes(d.policy)),
    ];
    match d.tariff {
        Some(t) => m.push((6u64, tariff_tree(t))),
        None => m,
    }
}

/// The octets of a descriptor that are signed.
pub open spec fn descriptor_body(d: DescriptorModel) -> Seq<u8> {
    cbor::cbor_encoding(Tree::IntMap(descriptor_pairs(d)))
}

/// The tariff at a key, if the key is there, and the other pairs.
pub open spec fn tariff_if_any(m: Pairs, k: u64) -> Result<
    (Option<TariffModel>, Pairs),
    DescriptorErrorModel,
> {
    match cbor::taken(m, k).0 {
        Some(t) => match read_tariff(t) {
            Ok(v) => Ok((Some(v), cbor::taken(m, k).1)),
            Err(e) => Err(e),
        },
        None => Ok((None, m)),
    }
}

/// The descriptor that the pairs after the suite are.
pub open spec fn read_descriptor_fields(m1: Pairs) -> Result<
    DescriptorModel,
    DescriptorErrorModel,
> {
    match cbor::text_at(m1, 2) {
        Ok((k, m2)) => match kinds::kind_named(k) {
            Some(kind) => match cbor::octets_at(m2, 3) {
                Ok((identity, m3)) => match cbor::required(m3, 4) {
                    Ok((v, m4)) => match read_visibility(v) {
                        Ok(visibility) => match cbor::octets_at(m4, 5) {
                            Ok((policy, m5)) => match tariff_if_any(m5, 6) {
                                Ok((tariff, m6)) => match cbor::nothing_left(m6) {
                                    Ok(_) => Ok(
                                        DescriptorModel {
                                            identity,
                                            kind,
                                            visibility,
                                            policy,
                                            tariff,
                                        },
                                    ),
                                    Err(e) => Err(DescriptorErrorModel::BadEncoding(e)),
                                },
                                Err(e) => Err(e),
                            },
                            Err(e) => Err(DescriptorErrorModel::BadEncoding(e)),
                        },
                        Err(e) => Err(e),
                    },
                    Err(e) => Err(DescriptorErrorModel::BadEncoding(e)),
                },
                Err(e) => Err(DescriptorErrorModel::BadEncoding(e)),
            },
            None => Err(DescriptorErrorModel::Malformed("unknown coordinator kind"@)),
        },
        Err(e) => Err(DescriptorErrorModel::BadEncoding(e)),
    }
}

/// The descriptor that a tree is.
pub open spec fn read_descriptor(t: Tree) -> Result<DescriptorModel, DescriptorErrorModel> {
    match after_suite(t) {
        Ok(m1) => read_descriptor_fields(m1),
        Err(e) => Err(e),
    }
}

impl Descriptor {
    fn pairs(&self) -> (r: Vec<(u64, Value)>)
        ensures
            cbor::pair_trees(r@) == descriptor_pairs(self@),
    {
        let mut m: Vec<(u64, Value)> = Vec::new();
        m.push((1, Value::U64(SUITE as u64)));
        m.push((2, cbor::text_value(self.kind.as_str())));
        m.push((3, cbor::bytes_value(self.identity.as_slice())));
        m.push((4, visibility_to_cv(self.visibility)));
        m.push((5, cbor::bytes_value(self.policy.0.as_slice())));
        if let Some(t) = &self.tariff {
            m.push((6, t.to_cv()));
        }
        assert(cbor::pair_trees(m@) =~= descriptor_pairs(self@));
        m
    }

    /// The descriptor as a value, without a signature.
    pub fn to_cv(&self) -> (r: Value)
        ensures
            r@ == Tree::IntMap(descriptor_pairs(self@)),
    {
        cbor::map_value(self.pairs())
    }

    /// The descriptor that a value is.
    pub fn from_cv(cv: Value) -> (r: Result<Self, DescriptorError>)
        ensures
            model::res_view(r) == read_descriptor(cv@),
    {
        let mut f = match open_object(cv) {
            Ok(f) => f,
            Err(e) => return Err(e),
        };
        let kind = match f.req_text(2) {
            Ok(s) => match CoordinatorKind::from_wire_str(s.as_str()) {
                Some(k) => k,
                None => return Err(DescriptorError::Malformed("unknown coordinator kind")),
            },
            Err(e) => return Err(DescriptorError::BadEncoding(e)),
        };
        let identity = match f.req_bytes(3) {
            Ok(b) => b,
            Err(e) => return Err(DescriptorError::BadEncoding(e)),
        };
        let visibility = match f.req(4) {
            Ok(v) => match visibility_from_cv(v) {
                Ok(v) => v,
                Err(e) => return Err(e),
            },
            Err(e) => return Err(DescriptorError::BadEncoding(e)),
        };
        let policy = match f.req_bytes(5) {
            Ok(b) => Cbor(b),
            Err(e) => return Err(DescriptorError::BadEncoding(e)),
        };
        let tariff = match f.take(6) {
            Some(v) => match Tariff::from_cv(v) {
                Ok(t) => Some(t),
                Err(e) => return Err(e),
            },
            None => None,
        };
        match f.deny_unknown() {
            Ok(_) => Ok(Descriptor { identity, kind, visibility, policy, tariff }),
            Err(e) => Err(DescriptorError::BadEncoding(e)),
        }
    }

    /// The octets that are signed.
    pub fn signing_body(&self) -> (r: Vec<u8>)
        ensures
            r@ == descriptor_body(self@),
    {
        let cv = self.to_cv();
        cbor::encode(&cv)
    }

    /// Signs the descriptor. Where the key is the one that the descriptor names, the result is
    /// accepted by [`SignedDescriptor::verify`].
    pub fn sign(&self, ik: &IdentityKey) -> (r: SignedDescriptor)
        ensures
            r.descriptor@ == self@,
            r.sig@ == identity::ed25519_signature(ik@, label(DESCRIPTOR_DS), descriptor_body(self@)),
            self@.identity == identity::ed25519_public(ik@) ==> signed_verdict(r@) is Ok,
    {
        let body = self.signing_body();
        let sig = ik.sign_domain(DESCRIPTOR_DS.as_bytes(), body.as_slice());
        SignedDescriptor { descriptor: self.clone(), sig }
    }
}

/// A descriptor with its signature: what is published.
#[derive(Debug)]
pub struct SignedDescriptor {
    pub descriptor: Descriptor,
    pub sig: Vec<u8>,
}

/// [`SignedDescriptor`] with its contents as sequences.
pub struct SignedModel {
    pub descriptor: DescriptorModel,
    pub sig: Seq<u8>,
}

impl View for SignedDescriptor {
    type V = SignedModel;

    open spec fn view(&self) -> SignedModel {
        SignedModel { descriptor: self.descriptor@, sig: self.sig@ }
    }
}

impl Clone for SignedDescriptor {
    fn clone(&self) -> (r: Self)
        ensures
            r@ == self@,
    {
        SignedDescriptor {
            descriptor: self.descriptor.clone(),
            sig: slice_to_vec(self.sig.as_slice()),
        }
    }
}

/// Whether a descriptor is the one that its own identity signed.
pub open spec fn signed_verdict(s: SignedModel) -> Result<(), DescriptorErrorModel> {
    if identity::ed25519_accepts(
        s.descriptor.identity,
        label(DESCRIPTOR_DS),
        descriptor_body(s.descriptor),
        s.sig,
    ) {
        Ok(())
    } else {
        Err(DescriptorErrorModel::BadSignature(identity::refusal(s.descriptor.identity, s.sig)))
    }
}

/// A signed descriptor as a tree.
pub open spec fn signed_tree(s: SignedModel) -> Tree {
    Tree::IntMap(descriptor_pairs(s.descriptor).push((7u64, Tree::Bytes(s.sig))))
}

/// The signed descriptor that a tree is. Its signature is not checked.
pub open spec fn read_signed(t: Tree) -> Result<SignedModel, DescriptorErrorModel> {
    match cbor::pairs_of(t) {
        Ok(m) => match cbor::octets_at(m, 7) {
            Ok((sig, rest)) => match read_descriptor(Tree::IntMap(rest)) {
                Ok(descriptor) => Ok(SignedModel { descriptor, sig }),
                Err(e) => Err(e),
            },
            Err(e) => Err(DescriptorErrorModel::BadEncoding(e)),
        },
        Err(e) => Err(DescriptorErrorModel::BadEncoding(e)),
    }
}

/// The signed descriptor that octets are, with its signature checked.
pub open spec fn checked_from(b: Seq<u8>) -> Result<SignedModel, DescriptorErrorModel> {
    match cbor::cbor_decoding(b) {
        Ok(t) => match read_signed(t) {
            Ok(s) => match signed_verdict(s) {
                Ok(_) => Ok(s),
                Err(e) => Err(e),
            },
            Err(e) => Err(e),
        },
        Err(e) => Err(DescriptorErrorModel::BadEncoding(e)),
    }
}

impl SignedDescriptor {
    /// Whether the descriptor is the one that its own identity signed.
    pub fn verify(&self) -> (r: Result<(), DescriptorError>)
        ensures
            model::unit_view(r) == signed_verdict(self@),
    {
        let body = self.descriptor.signing_body();
        match identity::verify_domain(
            self.descriptor.identity.as_slice(),
            DESCRIPTOR_DS.as_bytes(),
            body.as_slice(),
            self.sig.as_slice(),
        ) {
            Ok(_) => Ok(()),
            Err(e) => Err(DescriptorError::BadSignature(e)),
        }
    }

    /// The octets that are published. [`SignedDescriptor::from_det_cbor`] gives back a descriptor
    /// whose signature is right.
    pub fn det_cbor(&self) -> (r: Vec<u8>)
        ensures
            r@ == cbor::cbor_encoding(signed_tree(self@)),
            checked_from(r@) == (match signed_verdict(self@) {
                Ok(_) => Ok::<SignedModel, DescriptorErrorModel>(self@),
                Err(e) => Err(e),
            }),
    {
        let mut m = self.descriptor.pairs();
        let ghost before = m@;
        m.push((7, cbor::bytes_value(self.sig.as_slice())));
        assert(cbor::pair_trees(m@) =~= cbor::pair_trees(before).push((7u64, Tree::Bytes(self.sig@))));
        let cv = cbor::map_value(m);
        proof {
            lemma_signed_is_canonical(self@);
            law_signed_round_trips(self@);
        }
        cbor::encode(&cv)
    }

    /// Reads a published descriptor and checks its signature.
    pub fn from_det_cbor(bytes: &[u8]) -> (r: Result<Self, DescriptorError>)
        ensures
            model::res_view(r) == checked_from(bytes@),
    {
        let cv = match cbor::decode(bytes) {
            Ok(cv) => cv,
            Err(e) => return Err(DescriptorError::BadEncoding(e)),
        };
        let mut f = match Fields::from_value(cv) {
            Ok(f) => f,
            Err(e) => return Err(DescriptorError::BadEncoding(e)),
        };
        let sig = match f.req_bytes(7) {
            Ok(b) => b,
            Err(e) => return Err(DescriptorError::BadEncoding(e)),
        };
        let rest = cbor::map_value(f.into_pairs());
        let descriptor = match Descriptor::from_cv(rest) {
            Ok(d) => d,
            Err(e) => return Err(e),
        };
        let signed = SignedDescriptor { descriptor, sig };
        match signed.verify() {
            Ok(_) => Ok(signed),
            Err(e) => Err(e),
        }
    }
}

// ---- usage receipts ----------------------------------------------------------------------------

/// A signed statement of a metered operation, for the one who pays. It shows that the coordinator
/// claims the operation; it cannot show that the coordinator left none out.
#[derive(Debug)]
pub struct UsageReceipt {
    /// The identity that signed.
    pub identity: Vec<u8>,
    pub operation: Cbor,
    pub sig: Vec<u8>,
}

/// [`UsageReceipt`] with its contents as sequences.
pub struct UsageReceiptModel {
    pub identity: Seq<u8>,
    pub operation: Seq<u8>,
    pub sig: Seq<u8>,
}

impl View for UsageReceipt {
    type V = UsageReceiptModel;

    open spec fn view(&self) -> UsageReceiptModel {
        UsageReceiptModel {
            identity: self.identity@,
            operation: self.operation@,
            sig: self.sig@,
        }
    }
}

impl Clone for UsageReceipt {
    fn clone(&self) -> (r: Self)
        ensures
            r@ == self@,
    {
        UsageReceipt {
            identity: slice_to_vec(self.identity.as_slice()),
            operation: self.operation.clone(),
            sig: slice_to_vec(self.sig.as_slice()),
        }
    }
}

/// A receipt without its signature, as a tree.
pub open spec fn receipt_tree(identity: Seq<u8>, operation: Seq<u8>) -> Tree {
    Tree::IntMap(
        seq![
            (1u64, Tree::U64(SUITE as u64)),
            (2u64, Tree::Bytes(identity)),
            (3u64, Tree::Bytes(operation)),
        ],
    )
}

/// The octets of a receipt that are signed.
pub open spec fn receipt_body(u: UsageReceiptModel) -> Seq<u8> {
    cbor::cbor_encoding(receipt_tree(u.identity, u.operation))
}

/// Whether a receipt is its own identity's.
pub open spec fn receipt_verdict(u: UsageReceiptModel) -> Result<(), DescriptorErrorModel> {
    if identity::ed25519_accepts(u.identity, label(USAGE_RECEIPT_DS), receipt_body(u), u.sig) {
        Ok(())
    } else {
        Err(DescriptorErrorModel::BadSignature(identity::refusal(u.identity, u.sig)))
    }
}

impl UsageReceipt {
    fn signing_body(identity: &[u8], operation: &Cbor) -> (r: Vec<u8>)
        ensures
            r@ == cbor::cbor_encoding(receipt_tree(identity@, operation@)),
    {
        let mut m: Vec<(u64, Value)> = Vec::new();
        m.push((1, Value::U64(SUITE as u64)));
        m.push((2, cbor::bytes_value(identity)));
        m.push((3, cbor::bytes_value(operation.0.as_slice())));
        assert(cbor::pair_trees(m@) =~= receipt_tree(identity@, operation@)->IntMap_0);
        let cv = cbor::map_value(m);
        cbor::encode(&cv)
    }

    /// Signs an operation.
    pub fn sign(operation: Cbor, ik: &IdentityKey) -> (r: UsageReceipt)
        ensures
            r.operation == operation,
            r.identity@ == identity::ed25519_public(ik@),
            r.sig@ == identity::ed25519_signature(ik@, label(USAGE_RECEIPT_DS), receipt_body(r@)),
            receipt_verdict(r@) is Ok,
    {
        let identity = ik.public();
        let body = Self::signing_body(identity.as_slice(), &operation);
        let sig = ik.sign_domain(USAGE_RECEIPT_DS.as_bytes(), body.as_slice());
        UsageReceipt { identity, operation, sig }
    }

    /// Whether the receipt is its own identity's.
    pub fn verify(&self) -> (r: Result<(), DescriptorError>)
        ensures
            model::unit_view(r) == receipt_verdict(self@),
    {
        let body = Self::signing_body(self.identity.as_slice(), &self.operation);
        match identity::verify_domain(
            self.identity.as_slice(),
            USAGE_RECEIPT_DS.as_bytes(),
            body.as_slice(),
            self.sig.as_slice(),
        ) {
            Ok(_) => Ok(()),
            Err(e) => Err(DescriptorError::BadSignature(e)),
        }
    }
}

// ---- what the objects keep ---------------------------------------------------------------------

proof fn lemma_signed_is_canonical(s: SignedModel)
    ensures
        cbor::canonical(signed_tree(s)),
{
    reveal_with_fuel(cbor::ordered, 3);
    reveal_with_fuel(cbor::fits, 3);
    let v = visibility_tree(s.descriptor.visibility);
    assert(cbor::ordered(v) && cbor::fits(v, 63));
    match s.descriptor.tariff {
        Some(t) => {
            assert(cbor::ordered(tariff_tree(t)) && cbor::fits(tariff_tree(t), 63));
        },
        None => {},
    }
    let m = signed_tree(s)->IntMap_0;
    assert forall|i: int| 0 <= i < m.len() implies cbor::ordered((#[trigger] m[i]).1) by {}
    assert forall|i: int| 0 <= i < m.len() implies cbor::fits((#[trigger] m[i]).1, 63) by {}
}

/// A visibility is read back as it was written.
pub proof fn law_visibility_round_trips(v: ContentVisibility)
    ensures
        read_visibility(visibility_tree(v)) == Ok::<ContentVisibility, DescriptorErrorModel>(v),
{
    let m0 = visibility_tree(v)->IntMap_0;
    cbor::lemma_taken_first(m0, 1);
    let m1 = m0.skip(1);
    cbor::lemma_taken_first(m1, 2);
    visibility::law_labels_round_trip(v);
}

/// A tariff is read back as it was written.
pub proof fn law_tariff_round_trips(t: TariffModel)
    ensures
        read_tariff(tariff_tree(t)) == Ok::<TariffModel, DescriptorErrorModel>(t),
{
    let m0 = tariff_tree(t)->IntMap_0;
    cbor::lemma_taken_first(m0, 1);
    let m1 = m0.skip(1);
    cbor::lemma_taken_first(m1, 2);
    let m2 = m1.skip(1);
    cbor::lemma_taken_first(m2, 3);
    let m3 = m2.skip(1);
    match t.valid_until {
        Some(n) => {
            cbor::lemma_taken_first(m3, 4);
            cbor::lemma_taken_first(m3.skip(1), 5);
        },
        None => {
            cbor::lemma_taken_none(m3, 4);
            cbor::lemma_taken_first(m3, 5);
        },
    }
}

/// A signed descriptor is read back as it was written.
pub proof fn law_signed_round_trips(s: SignedModel)
    ensures
        read_signed(signed_tree(s)) == Ok::<SignedModel, DescriptorErrorModel>(s),
{
    let d = s.descriptor;
    let m0 = descriptor_pairs(d);
    cbor::lemma_taken_last(m0, (7u64, Tree::Bytes(s.sig)));
    cbor::lemma_taken_first(m0, 1);
    let m1 = m0.skip(1);
    cbor::lemma_taken_first(m1, 2);
    kinds::law_kind_round_trips(d.kind);
    let m2 = m1.skip(1);
    cbor::lemma_taken_first(m2, 3);
    let m3 = m2.skip(1);
    cbor::lemma_taken_first(m3, 4);
    law_visibility_round_trips(d.visibility);
    let m4 = m3.skip(1);
    cbor::lemma_taken_first(m4, 5);
    let m5 = m4.skip(1);
    match d.tariff {
        Some(t) => {
            cbor::lemma_taken_first(m5, 6);
            law_tariff_round_trips(t);
        },
        None => {
            cbor::lemma_taken_none(m5, 6);
        },
    }
}

/// What is read as a descriptor names the known suite: an object with another, or with none, is
/// refused.
pub proof fn law_other_suites_are_refused(t: Tree)
    requires
        read_descriptor(t) is Ok || read_tariff(t) is Ok,
    ensures
        t is IntMap,
        cbor::taken(t->IntMap_0, 1).0 == Some(Tree::U64(SUITE as u64)),
{
}

/// A published descriptor that names no suite is refused as badly encoded, whatever its signature.
pub proof fn law_missing_suite_is_refused(b: Seq<u8>, m: Pairs)
    requires
        cbor::cbor_decoding(b) == Ok::<Tree, CborError>(Tree::IntMap(m)),
        !cbor::has_key(m, 1),
    ensures
        checked_from(b) matches Err(e) && e is BadEncoding,
        cbor::octets_at(m, 7) is Ok ==> checked_from(b) == Err::<SignedModel, DescriptorErrorModel>(
            DescriptorErrorModel::BadEncoding(CborError::MissingKey(1)),
        ),
{
    cbor::lemma_found(m, 1);
    cbor::lemma_taken_apart(m, 7, 1);
}

/// A published descriptor that names another suite is refused for that suite, whatever its
/// signature.
pub proof fn law_other_suite_is_refused(b: Seq<u8>, m: Pairs, n: u64)
    requires
        cbor::cbor_decoding(b) == Ok::<Tree, CborError>(Tree::IntMap(m)),
        cbor::octets_at(m, 7) is Ok,
        cbor::taken(m, 1).0 == Some(Tree::U64(n)),
        n != SUITE,
    ensures
        checked_from(b) == Err::<SignedModel, DescriptorErrorModel>(
            if n < 256 {
                DescriptorErrorModel::UnsupportedSuite(n as u8)
            } else {
                DescriptorErrorModel::BadEncoding(CborError::IntRange)
            },
        ),
{
    cbor::lemma_taken_apart(m, 7, 1);
}

/// A published descriptor with a key that descriptors do not have is refused, whatever its
/// signature. Where that key is all that is wrong with the encoding, it is the reason.
pub proof fn law_unknown_key_is_refused(b: Seq<u8>, m: Pairs, i: int)
    requires
        cbor::cbor_decoding(b) == Ok::<Tree, CborError>(Tree::IntMap(m)),
        0 <= i < m.len(),
        !(1 <= m[i].0 <= 7),
    ensures
        checked_from(b) is Err,
        read_signed(Tree::IntMap(m.remove(i))) is Ok ==> checked_from(b) == Err::<
            SignedModel,
            DescriptorErrorModel,
        >(DescriptorErrorModel::BadEncoding(CborError::UnknownKey(m[i].0))),
{
    let j0 = cbor::lemma_taken_beside(m, 7, i);
    let m0 = cbor::taken(m, 7).1;
    let j1 = cbor::lemma_taken_beside(m0, 1, j0);
    lemma_unknown_field(cbor::taken(m0, 1).1, j1);
}

proof fn lemma_unknown_field(m1: Pairs, i: int)
    requires
        0 <= i < m1.len(),
        !(2 <= m1[i].0 <= 6),
    ensures
        read_descriptor_fields(m1) is Err,
        read_descriptor_fields(m1.remove(i)) is Ok ==> read_descriptor_fields(m1) == Err::<
            DescriptorModel,
            DescriptorErrorModel,
        >(DescriptorErrorModel::BadEncoding(CborError::UnknownKey(m1[i].0))),
{
    let j2 = cbor::lemma_taken_beside(m1, 2, i);
    let m2 = cbor::taken(m1, 2).1;
    let j3 = cbor::lemma_taken_beside(m2, 3, j2);
    let m3 = cbor::taken(m2, 3).1;
    let j4 = cbor::lemma_taken_beside(m3, 4, j3);
    let m4 = cbor::taken(m3, 4).1;
    let j5 = cbor::lemma_taken_beside(m4, 5, j4);
    let m5 = cbor::taken(m4, 5).1;
    let j6 = cbor::lemma_taken_beside(m5, 6, j5);
    let m6 = cbor::taken(m5, 6).1;
    assert(m6.len() > 0);
    assert(m6.remove(j6).len() == m6.len() - 1);
}

/// A tariff with a key that tariffs do not have is refused, and so is a visibility with one that
/// visibilities do not have.
pub proof fn law_unknown_inner_key_is_refused(m: Pairs, i: int)
    requires
        0 <= i < m.len(),
    ensures
        !(1 <= m[i].0 <= 5) ==> read_tariff(Tree::IntMap(m)) is Err,
        !(1 <= m[i].0 <= 2) ==> read_visibility(Tree::IntMap(m)) is Err,
{
    if !(1 <= m[i].0 <= 2) {
        let j1 = cbor::lemma_taken_beside(m, 1, i);
        let m1 = cbor::taken(m, 1).1;
        let j2 = cbor::lemma_taken_beside(m1, 2, j1);
        let m2 = cbor::taken(m1, 2).1;
        if !(1 <= m[i].0 <= 5) {
            let j3 = cbor::lemma_taken_beside(m2, 3, j2);
            let m3 = cbor::taken(m2, 3).1;
            let j4 = cbor::lemma_taken_beside(m3, 4, j3);
            let m4 = cbor::taken(m3, 4).1;
            let j5 = cbor::lemma_taken_beside(m4, 5, j4);
        }
    }
}

/// What is accepted from octets carries a signature of the identity that it names.
pub proof fn law_accepted_is_signed(b: Seq<u8>)
    requires
        checked_from(b) is Ok,
    ensures
        ({
            let s = checked_from(b)->Ok_0;
            identity::ed25519_accepts(
                s.descriptor.identity,
                label(DESCRIPTOR_DS),
                descriptor_body(s.descriptor),
                s.sig,
            )
        }),
{
}

/// A tariff that is valid for ever does not expire.
pub proof fn law_no_expiry_without_a_time(t: TariffModel, now: u64, later: u64)
    requires
        t.valid_until is None,
    ensures
        tariff_verdict(t, now) == tariff_verdict(t, later),
{
}

/// Once a tariff is refused, it stays refused.
pub proof fn law_refused_stays_refused(t: TariffModel, now: u64, later: u64)
    requires
        now <= later,
        tariff_verdict(t, now) is Err,
    ensures
        tariff_verdict(t, later) is Err,
{
}

proof fn lemma_label_octet(ds: &str, i: int)
    requires
        vstd::utf8::is_ascii_chars(ds@),
        0 <= i < ds@.len(),
    ensures
        label(ds).len() == ds@.len(),
        label(ds)[i] == ds@[i] as u8,
{
    vstd::utf8::is_ascii_chars_encode_utf8(ds@);
}

/// What is signed for a descriptor, for a tariff and for a receipt is never the same octets, so
/// that a signature of one is none of another.
pub proof fn law_preimages_are_apart(descriptor: Seq<u8>, tariff: Seq<u8>, receipt: Seq<u8>)
    ensures
        label(DESCRIPTOR_DS) + descriptor != label(TARIFF_DS) + tariff,
        label(DESCRIPTOR_DS) + descriptor != label(USAGE_RECEIPT_DS) + receipt,
        label(TARIFF_DS) + tariff != label(USAGE_RECEIPT_DS) + receipt,
{
    reveal_strlit("DMTAP-COORD-v0/descriptor\0");
    reveal_strlit("DMTAP-COORD-v0/tariff\0");
    reveal_strlit("DMTAP-COORD-v0/usage-receipt\0");
    assert(DESCRIPTOR_DS@.len() == 26 && DESCRIPTOR_DS@[15] == 'd');
    assert(TARIFF_DS@.len() == 22 && TARIFF_DS@[15] == 't');
    assert(USAGE_RECEIPT_DS@.len() == 29 && USAGE_RECEIPT_DS@[15] == 'u');
    lemma_label_octet(DESCRIPTOR_DS, 15);
    lemma_label_octet(TARIFF_DS, 15);
    lemma_label_octet(USAGE_RECEIPT_DS, 15);
    assert((label(DESCRIPTOR_DS) + descriptor)[15] == 'd' as u8);
    assert((label(TARIFF_DS) + tariff)[15] == 't' as u8);
    assert((label(USAGE_RECEIPT_DS) + receipt)[15] == 'u' as u8);
}

/// A tariff holds exactly if its identity accepts its signature and its time is not over; the last
/// moment of its time is still in it. A signature that is not good is told before the time.
pub proof fn law_when_a_tariff_holds(t: TariffModel, now: u64)
    ensures
        ({
            let good = identity::ed25519_accepts(
                t.identity,
                label(TARIFF_DS),
                tariff_body(t),
                t.sig,
            );
            let over = t.valid_until is Some && now > t.valid_until->0;
            &&& tariff_verdict(t, now) is Ok <==> good && !over
            &&& !good ==> tariff_verdict(t, now) is Err && tariff_verdict(t, now)->Err_0
                is BadSignature
            &&& good && over ==> tariff_verdict(t, now) == Err::<(), DescriptorErrorModel>(
                DescriptorErrorModel::Expired { valid_until: t.valid_until->0, now },
            )
        }),
{
}

/// A signed descriptor holds exactly if its identity accepts its signature, and so does a receipt; a
/// descriptor is taken from octets exactly if they are one and it holds.
pub proof fn law_when_a_descriptor_holds(s: SignedModel, u: UsageReceiptModel, b: Seq<u8>)
    ensures
        signed_verdict(s) is Ok <==> identity::ed25519_accepts(
            s.descriptor.identity,
            label(DESCRIPTOR_DS),
            descriptor_body(s.descriptor),
            s.sig,
        ),
        receipt_verdict(u) is Ok <==> identity::ed25519_accepts(
            u.identity,
            label(USAGE_RECEIPT_DS),
            receipt_body(u),
            u.sig,
        ),
        checked_from(b) == Ok::<SignedModel, DescriptorErrorModel>(s) <==> {
            &&& cbor::cbor_decoding(b) is Ok
            &&& read_signed(cbor::cbor_decoding(b)->Ok_0) == Ok::<SignedModel, DescriptorErrorModel>(
                s,
            )
            &&& identity::ed25519_accepts(
                s.descriptor.identity,
                label(DESCRIPTOR_DS),
                descriptor_body(s.descriptor),
                s.sig,
            )
        },
{
}

/// What a descriptor is on the wire: the suite under 1, the kind under 2, the identity under 3, the
/// visibility under 4, the policy under 5, the tariff, if there is one, under 6, and the signature
/// under 7. What is signed is all of it but the signature.
pub proof fn law_descriptor_on_the_wire(s: SignedModel)
    ensures
        ({
            let d = s.descriptor;
            let m = signed_tree(s)->IntMap_0;
            let n: int = if d.tariff is Some {
                6
            } else {
                5
            };
            &&& signed_tree(s) is IntMap && m.len() == n + 1
            &&& m[0] == (1u64, Tree::U64(1))
            &&& m[1] == (2u64, Tree::Text(kinds::kind_label(d.kind)))
            &&& m[2] == (3u64, Tree::Bytes(d.identity))
            &&& m[3] == (
                4u64,
                Tree::IntMap(
                    seq![
                        (1u64, Tree::Text(visibility::class_label(d.visibility.class))),
                        (2u64, Tree::Text(visibility::level_label(d.visibility.level))),
                    ],
                ),
            )
            &&& m[4] == (5u64, Tree::Bytes(d.policy))
            &&& d.tariff is Some ==> m[5] == (6u64, tariff_tree(d.tariff->0))
            &&& m[n] == (7u64, Tree::Bytes(s.sig))
            &&& descriptor_body(d) == cbor::cbor_encoding(Tree::IntMap(m.drop_last()))
        }),
{
    assert(descriptor_pairs(s.descriptor).push((7u64, Tree::Bytes(s.sig))).drop_last()
        =~= descriptor_pairs(s.descriptor));
}

/// What a tariff is on the wire: the suite under 1, the identity under 2, the schedule under 3, the end
/// of its time, if it has one, under 4, and the signature under 5. What is signed is all of it but
/// the signature. A receipt has the suite, the identity and the operation.
pub proof fn law_tariff_on_the_wire(t: TariffModel, u: UsageReceiptModel)
    ensures
        ({
            let m = tariff_tree(t)->IntMap_0;
            let n: int = if t.valid_until is Some {
                4
            } else {
                3
            };
            &&& tariff_tree(t) is IntMap && m.len() == n + 1
            &&& m[0] == (1u64, Tree::U64(1))
            &&& m[1] == (2u64, Tree::Bytes(t.identity))
            &&& m[2] == (3u64, Tree::Bytes(t.schedule))
            &&& t.valid_until is Some ==> m[3] == (4u64, Tree::U64(t.valid_until->0))
            &&& m[n] == (5u64, Tree::Bytes(t.sig))
            &&& tariff_body(t) == cbor::cbor_encoding(Tree::IntMap(m.drop_last()))
        }),
        receipt_body(u) == cbor::cbor_encoding(
            Tree::IntMap(
                seq![
                    (1u64, Tree::U64(1)),
                    (2u64, Tree::Bytes(u.identity)),
                    (3u64, Tree::Bytes(u.operation)),
                ],
            ),
        ),
{
    let p = tariff_pairs(t.identity, t.schedule, t.valid_until);
    assert(p.push((5u64, Tree::Bytes(t.sig))).drop_last() =~= p);
}

/// What descriptors, tariffs and receipts are signed under, each with words of its own.
pub proof fn law_labels_of_what_is_signed()
    ensures
        label(DESCRIPTOR_DS) == vstd::utf8::encode_utf8("DMTAP-COORD-v0/descriptor\0"@),
        label(TARIFF_DS) == vstd::utf8::encode_utf8("DMTAP-COORD-v0/tariff\0"@),
        label(USAGE_RECEIPT_DS) == vstd::utf8::encode_utf8("DMTAP-COORD-v0/usage-receipt\0"@),
        SUITE == 1,
{
}

} // verus!
