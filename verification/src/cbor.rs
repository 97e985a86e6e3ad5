//! Values in canonical CBOR, and reading objects out of them.
//!
//! The octets are the `kotva-core` crate's. A value is held here as the library's own type; it is
//! turned into that crate's type, and back, one level at a time.

use crate::text;
use kotva_core::cbor as wire;
use vstd::prelude::*;
use vstd::slice::slice_to_vec;

verus! {

/// A value.
#[derive(Debug, PartialEq, Eq)]
pub enum Value {
    U64(u64),
    Bytes(Vec<u8>),
    Text(String),
    Bool(bool),
    Array(Vec<Value>),
    /// A map with numbers as keys.
    IntMap(Vec<(u64, Value)>),
    /// A map with texts as keys.
    TextMap(Vec<(String, Value)>),
}

/// [`Value`] with its contents as sequences.
pub enum Tree {
    U64(u64),
    Bytes(Seq<u8>),
    Text(Seq<char>),
    Bool(bool),
    Array(Seq<Tree>),
    IntMap(Seq<(u64, Tree)>),
    TextMap(Seq<(Seq<char>, Tree)>),
}

/// The tree of a value.
pub open spec fn tree_of(cv: Value) -> Tree
    decreases cv,
{
    match cv {
        Value::U64(n) => Tree::U64(n),
        Value::Bytes(b) => Tree::Bytes(b@),
        Value::Text(s) => Tree::Text(s@),
        Value::Bool(b) => Tree::Bool(b),
        Value::Array(v) => Tree::Array(
            Seq::new(
                v@.len(),
                |i: int|
                    if 0 <= i < v@.len() {
                        tree_of(v@[i])
                    } else {
                        Tree::U64(0)
                    },
            ),
        ),
        Value::IntMap(v) => Tree::IntMap(
            Seq::new(
                v@.len(),
                |i: int|
                    if 0 <= i < v@.len() {
                        (v@[i].0, tree_of(v@[i].1))
                    } else {
                        (0, Tree::U64(0))
                    },
            ),
        ),
        Value::TextMap(v) => Tree::TextMap(
            Seq::new(
                v@.len(),
                |i: int|
                    if 0 <= i < v@.len() {
                        (v@[i].0@, tree_of(v@[i].1))
                    } else {
                        (Seq::empty(), Tree::U64(0))
                    },
            ),
        ),
    }
}

impl View for Value {
    type V = Tree;

    open spec fn view(&self) -> Tree {
        tree_of(*self)
    }
}

/// Why octets are not the canonical form of a value, or a value is not the expected object.
#[derive(Debug, Clone, Copy, PartialEq, Eq, Structural)]
pub enum CborError {
    Malformed,
    NonShortestForm,
    IndefiniteLength,
    MapKeyOrder,
    TrailingData,
    FloatPresent,
    NullPresent,
    TagOrUndefined,
    DuplicateKey(u64),
    DuplicateTextKey,
    MixedMapKeys,
    IntRange,
    /// A value of another kind was expected.
    TypeMismatch,
    /// An object has a key that it should not have.
    UnknownKey(u64),
    /// An object lacks a key.
    MissingKey(u64),
}

impl View for CborError {
    type V = CborError;

    open spec fn view(&self) -> CborError {
        *self
    }
}

// ---- the outside codec -------------------------------------------------------------------------

/// A value of the `kotva-core` crate.
#[verifier::external_type_specification]
#[verifier::external_body]
pub struct ExCv(wire::Cv);

/// The tree of a value of the `kotva-core` crate.
pub uninterp spec fn outside_tree(cv: wire::Cv) -> Tree;

/// The octets that `kotva_core::cbor::encode` gives for a tree.
pub uninterp spec fn cbor_encoding(t: Tree) -> Seq<u8>;

/// What `kotva_core::cbor::decode` gives for octets.
pub uninterp spec fn cbor_decoding(b: Seq<u8>) -> Result<Tree, CborError>;

/// One level of a value of the `kotva-core` crate.
enum Level {
    U64(u64),
    Bytes(Vec<u8>),
    Text(String),
    Bool(bool),
    Array(Vec<wire::Cv>),
    IntMap(Vec<(u64, wire::Cv)>),
    TextMap(Vec<(String, wire::Cv)>),
}

/// The trees of outside values.
pub open spec fn outside_trees(v: Seq<wire::Cv>) -> Seq<Tree> {
    Seq::new(v.len(), |i: int| outside_tree(v[i]))
}

/// The trees of outside values under numbers.
pub open spec fn outside_pairs(v: Seq<(u64, wire::Cv)>) -> Seq<(u64, Tree)> {
    Seq::new(v.len(), |i: int| (v[i].0, outside_tree(v[i].1)))
}

/// The trees of outside values under texts.
pub open spec fn outside_text_pairs(v: Seq<(String, wire::Cv)>) -> Seq<(Seq<char>, Tree)> {
    Seq::new(v.len(), |i: int| (v[i].0@, outside_tree(v[i].1)))
}

spec fn level_tree(l: Level) -> Tree {
    match l {
        Level::U64(n) => Tree::U64(n),
        Level::Bytes(b) => Tree::Bytes(b@),
        Level::Text(s) => Tree::Text(s@),
        Level::Bool(b) => Tree::Bool(b),
        Level::Array(v) => Tree::Array(outside_trees(v@)),
        Level::IntMap(v) => Tree::IntMap(outside_pairs(v@)),
        Level::TextMap(v) => Tree::TextMap(outside_text_pairs(v@)),
    }
}

/// The variants of `kotva_core::cbor::Cv`: the value whose first level is the given one.
#[verifier::external_body]
fn close_level(l: Level) -> (r: wire::Cv)
    ensures
        outside_tree(r) == level_tree(l),
{
    match l {
        Level::U64(n) => wire::Cv::U64(n),
        Level::Bytes(b) => wire::Cv::Bytes(b),
        Level::Text(s) => wire::Cv::Text(s),
        Level::Bool(b) => wire::Cv::Bool(b),
        Level::Array(v) => wire::Cv::Array(v),
        Level::IntMap(v) => wire::Cv::Map(v),
        Level::TextMap(v) => wire::Cv::TextMap(v),
    }
}

/// The variants of `kotva_core::cbor::Cv`: the first level of a value.
#[verifier::external_body]
fn open_level(cv: wire::Cv) -> (r: Level)
    ensures
        level_tree(r) == outside_tree(cv),
{
    match cv {
        wire::Cv::U64(n) => Level::U64(n),
        wire::Cv::Bytes(b) => Level::Bytes(b),
        wire::Cv::Text(s) => Level::Text(s),
        wire::Cv::Bool(b) => Level::Bool(b),
        wire::Cv::Array(v) => Level::Array(v),
        wire::Cv::Map(v) => Level::IntMap(v),
        wire::Cv::TextMap(v) => Level::TextMap(v),
    }
}

/// Whether the keys of every map are numbers that ascend.
pub open spec fn ordered(t: Tree) -> bool
    decreases t,
{
    match t {
        Tree::Array(v) => forall|i: int| 0 <= i < v.len() ==> ordered(#[trigger] v[i]),
        Tree::IntMap(v) => {
            &&& forall|i: int, j: int| 0 <= i < j < v.len() ==> (#[trigger] v[i]).0 < (
            #[trigger] v[j]).0
            &&& forall|i: int| 0 <= i < v.len() ==> ordered((#[trigger] v[i]).1)
        },
        Tree::TextMap(_) => false,
        _ => true,
    }
}

/// Whether nothing is nested deeper than `depth` levels.
pub open spec fn fits(t: Tree, depth: nat) -> bool
    decreases t,
{
    match t {
        Tree::Array(v) => v.len() > 0 ==> depth > 0 && forall|i: int|
            0 <= i < v.len() ==> fits(#[trigger] v[i], (depth - 1) as nat),
        Tree::IntMap(v) => v.len() > 0 ==> depth > 0 && forall|i: int|
            0 <= i < v.len() ==> fits((#[trigger] v[i]).1, (depth - 1) as nat),
        Tree::TextMap(v) => v.len() > 0 ==> depth > 0 && forall|i: int|
            0 <= i < v.len() ==> fits((#[trigger] v[i]).1, (depth - 1) as nat),
        _ => true,
    }
}

/// Whether a tree is one that its octets give back: its maps have ascending numbers as keys, and it
/// is not too deep.
pub open spec fn canonical(t: Tree) -> bool {
    ordered(t) && fits(t, 64)
}

/// `kotva_core::cbor::encode`. The octets are a function of the tree, named [`cbor_encoding`]. Where
/// the keys of each map are numbers in ascending order and no more than 64 levels are nested,
/// `kotva_core::cbor::decode` gives the tree back.
#[verifier::external_body]
fn encode_outside(cv: &wire::Cv) -> (r: Vec<u8>)
    ensures
        r@ == cbor_encoding(outside_tree(*cv)),
        canonical(outside_tree(*cv)) ==> cbor_decoding(r@) is Ok && cbor_decoding(r@)->Ok_0
            == outside_tree(*cv),
{
    wire::encode(cv)
}

/// `kotva_core::cbor::decode`. What comes back is a function of the octets, named
/// [`cbor_decoding`]. It accepts only the canonical form of a value: `kotva_core::cbor::encode`
/// gives back the octets of every value that it accepts.
#[verifier::external_body]
fn decode_outside(bytes: &[u8]) -> (r: Result<wire::Cv, CborError>)
    ensures
        match r {
            Ok(cv) => cbor_decoding(bytes@) is Ok && cbor_decoding(bytes@)->Ok_0 == outside_tree(cv)
                && cbor_encoding(outside_tree(cv)) == bytes@,
            Err(e) => cbor_decoding(bytes@) is Err && cbor_decoding(bytes@)->Err_0 == e,
        },
{
    wire::decode(bytes).map_err(|e| match e {
        wire::CborError::NonShortestForm => CborError::NonShortestForm,
        wire::CborError::IndefiniteLength => CborError::IndefiniteLength,
        wire::CborError::MapKeyOrder => CborError::MapKeyOrder,
        wire::CborError::TrailingData => CborError::TrailingData,
        wire::CborError::FloatPresent => CborError::FloatPresent,
        wire::CborError::NullPresent => CborError::NullPresent,
        wire::CborError::TagOrUndefined => CborError::TagOrUndefined,
        wire::CborError::DuplicateKey(k) => CborError::DuplicateKey(k),
        wire::CborError::DuplicateTextKey => CborError::DuplicateTextKey,
        wire::CborError::MixedMapKeys => CborError::MixedMapKeys,
        wire::CborError::IntRange => CborError::IntRange,
        _ => CborError::Malformed,
    })
}

fn to_outside(cv: &Value) -> (r: wire::Cv)
    ensures
        outside_tree(r) == cv@,
    decreases cv,
{
    match cv {
        Value::U64(n) => close_level(Level::U64(*n)),
        Value::Bytes(b) => close_level(Level::Bytes(slice_to_vec(b.as_slice()))),
        Value::Text(s) => close_level(Level::Text(s.clone())),
        Value::Bool(b) => close_level(Level::Bool(*b)),
        Value::Array(v) => {
            let mut out: Vec<wire::Cv> = Vec::new();
            let mut i: usize = 0;
            while i < v.len()
                invariant
                    i <= v@.len(),
                    *cv == Value::Array(*v),
                    out@.len() == i,
                    forall|j: int| 0 <= j < i ==> outside_tree(#[trigger] out@[j]) == tree_of(v@[j]),
                decreases v@.len() - i,
            {
                assert(decreases_to!(*cv => cv->Array_0));
                assert(decreases_to!(*v => v[i as int]));
                out.push(to_outside(&v[i]));
                i += 1;
            }
            let r = close_level(Level::Array(out));
            assert(outside_trees(out@) =~= cv@->Array_0);
            r
        },
        Value::IntMap(v) => {
            let mut out: Vec<(u64, wire::Cv)> = Vec::new();
            let mut i: usize = 0;
            while i < v.len()
                invariant
                    i <= v@.len(),
                    *cv == Value::IntMap(*v),
                    out@.len() == i,
                    forall|j: int|
                        0 <= j < i ==> (#[trigger] out@[j]).0 == v@[j].0 && outside_tree(out@[j].1)
                            == tree_of(v@[j].1),
                decreases v@.len() - i,
            {
                assert(decreases_to!(*cv => cv->IntMap_0));
                assert(decreases_to!(*v => v[i as int]));
                out.push((v[i].0, to_outside(&v[i].1)));
                i += 1;
            }
            let r = close_level(Level::IntMap(out));
            assert(outside_pairs(out@) =~= cv@->IntMap_0);
            r
        },
        Value::TextMap(v) => {
            let mut out: Vec<(String, wire::Cv)> = Vec::new();
            let mut i: usize = 0;
            while i < v.len()
                invariant
                    i <= v@.len(),
                    *cv == Value::TextMap(*v),
                    out@.len() == i,
                    forall|j: int|
                        0 <= j < i ==> (#[trigger] out@[j]).0@ == v@[j].0@ && outside_tree(
                            out@[j].1,
                        ) == tree_of(v@[j].1),
                decreases v@.len() - i,
            {
                assert(decreases_to!(*cv => cv->TextMap_0));
                assert(decreases_to!(*v => v[i as int]));
                out.push((v[i].0.clone(), to_outside(&v[i].1)));
                i += 1;
            }
            let r = close_level(Level::TextMap(out));
            assert(outside_text_pairs(out@) =~= cv@->TextMap_0);
            r
        },
    }
}

/// Turns a vector around.
fn reversed<T>(v: Vec<T>) -> (r: Vec<T>)
    ensures
        r@ == v@.reverse(),
{
    let ghost all = v@;
    let mut from = v;
    let mut out: Vec<T> = Vec::new();
    assert(all.take(all.len() as int) =~= all);
    while from.len() > 0
        invariant
            from@ == all.take(from@.len() as int),
            from@.len() <= all.len(),
            out@.len() == all.len() - from@.len(),
            forall|j: int| 0 <= j < out@.len() ==> #[trigger] out@[j] == all[all.len() - 1 - j],
        decreases from@.len(),
    {
        let ghost n = from@.len();
        if let Some(x) = from.pop() {
            assert(from@ =~= all.take(n - 1));
            out.push(x);
        }
    }
    assert(out@ =~= all.reverse());
    out
}

fn from_outside(cv: wire::Cv) -> (r: Value)
    ensures
        r@ == outside_tree(cv),
    decreases outside_tree(cv),
{
    let ghost t = outside_tree(cv);
    match open_level(cv) {
        Level::U64(n) => Value::U64(n),
        Level::Bytes(b) => Value::Bytes(b),
        Level::Text(s) => Value::Text(s),
        Level::Bool(b) => Value::Bool(b),
        Level::Array(v) => {
            let ghost all = v@;
            let mut from = v;
            let mut back: Vec<Value> = Vec::new();
            assert(all.take(all.len() as int) =~= all);
            while from.len() > 0
                invariant
                    t == Tree::Array(outside_trees(all)),
                    t == outside_tree(cv),
                    from@ == all.take(from@.len() as int),
                    from@.len() <= all.len(),
                    back@.len() == all.len() - from@.len(),
                    forall|j: int|
                        0 <= j < back@.len() ==> tree_of(#[trigger] back@[j]) == outside_tree(
                            all[all.len() - 1 - j],
                        ),
                decreases from@.len(),
            {
                let ghost n = from@.len();
                if let Some(x) = from.pop() {
                    assert(from@ =~= all.take(n - 1));
                    assert(x == all[n - 1]);
                    assert(outside_tree(x) == t->Array_0[n - 1]);
                    back.push(from_outside(x));
                }
            }
            let out = reversed(back);
            let r = Value::Array(out);
            assert(r@->Array_0 =~= outside_trees(all));
            r
        },
        Level::IntMap(v) => {
            let ghost all = v@;
            let mut from = v;
            let mut back: Vec<(u64, Value)> = Vec::new();
            assert(all.take(all.len() as int) =~= all);
            while from.len() > 0
                invariant
                    t == Tree::IntMap(outside_pairs(all)),
                    t == outside_tree(cv),
                    from@ == all.take(from@.len() as int),
                    from@.len() <= all.len(),
                    back@.len() == all.len() - from@.len(),
                    forall|j: int|
                        0 <= j < back@.len() ==> (#[trigger] back@[j]).0 == all[all.len() - 1 - j].0
                            && tree_of(back@[j].1) == outside_tree(all[all.len() - 1 - j].1),
                decreases from@.len(),
            {
                let ghost n = from@.len();
                if let Some(x) = from.pop() {
                    assert(from@ =~= all.take(n - 1));
                    assert(x == all[n - 1]);
                    assert(outside_tree(x.1) == t->IntMap_0[n - 1].1);
                    let (k, y) = x;
                    back.push((k, from_outside(y)));
                }
            }
            let out = reversed(back);
            let r = Value::IntMap(out);
            assert(r@->IntMap_0 =~= outside_pairs(all));
            r
        },
        Level::TextMap(v) => {
            let ghost all = v@;
            let mut from = v;
            let mut back: Vec<(String, Value)> = Vec::new();
            assert(all.take(all.len() as int) =~= all);
            while from.len() > 0
                invariant
                    t == Tree::TextMap(outside_text_pairs(all)),
                    t == outside_tree(cv),
                    from@ == all.take(from@.len() as int),
                    from@.len() <= all.len(),
                    back@.len() == all.len() - from@.len(),
                    forall|j: int|
                        0 <= j < back@.len() ==> (#[trigger] back@[j]).0@ == all[all.len() - 1
                            - j].0@ && tree_of(back@[j].1) == outside_tree(
                            all[all.len() - 1 - j].1,
                        ),
                decreases from@.len(),
            {
                let ghost n = from@.len();
                if let Some(x) = from.pop() {
                    assert(from@ =~= all.take(n - 1));
                    assert(x == all[n - 1]);
                    assert(outside_tree(x.1) == t->TextMap_0[n - 1].1);
                    let (k, y) = x;
                    back.push((k, from_outside(y)));
                }
            }
            let out = reversed(back);
            let r = Value::TextMap(out);
            assert(r@->TextMap_0 =~= outside_text_pairs(all));
            r
        },
    }
}

/// The canonical octets of a value.
pub fn encode(cv: &Value) -> (r: Vec<u8>)
    ensures
        r@ == cbor_encoding(cv@),
        canonical(cv@) ==> cbor_decoding(r@) is Ok && cbor_decoding(r@)->Ok_0 == cv@,
{
    let w = to_outside(cv);
    encode_outside(&w)
}

/// The value that octets are the canonical form of.
pub fn decode(bytes: &[u8]) -> (r: Result<Value, CborError>)
    ensures
        crate::model::ok_view(r) == cbor_decoding(bytes@),
        r matches Ok(cv) ==> cbor_encoding(cv@) == bytes@,
{
    match decode_outside(bytes) {
        Ok(w) => Ok(from_outside(w)),
        Err(e) => Err(e),
    }
}

// ---- objects -----------------------------------------------------------------------------------

/// The pairs of an object.
pub type Pairs = Seq<(u64, Tree)>;

/// The pairs of a tree that is an object.
pub open spec fn pairs_of(t: Tree) -> Result<Pairs, CborError> {
    match t {
        Tree::IntMap(m) => Ok(m),
        _ => Err(CborError::TypeMismatch),
    }
}

/// Where a key first stands, at or after `from`.
pub open spec fn place_of(m: Pairs, k: u64, from: int) -> Option<int>
    decreases m.len() - from,
{
    if from < 0 || from >= m.len() {
        None
    } else if m[from].0 == k {
        Some(from)
    } else {
        place_of(m, k, from + 1)
    }
}

/// The value at a key, if it is there, and the other pairs.
pub open spec fn taken(m: Pairs, k: u64) -> (Option<Tree>, Pairs) {
    match place_of(m, k, 0) {
        Some(i) => (Some(m[i].1), m.remove(i)),
        None => (None, m),
    }
}

/// The value at a key and the other pairs.
pub open spec fn required(m: Pairs, k: u64) -> Result<(Tree, Pairs), CborError> {
    match taken(m, k).0 {
        Some(t) => Ok((t, taken(m, k).1)),
        None => Err(CborError::MissingKey(k)),
    }
}

/// Whether an object has no pair left.
pub open spec fn nothing_left(m: Pairs) -> Result<(), CborError> {
    if m.len() > 0 {
        Err(CborError::UnknownKey(m[0].0))
    } else {
        Ok(())
    }
}

/// The number that a tree is.
pub open spec fn number(t: Tree) -> Result<u64, CborError> {
    match t {
        Tree::U64(n) => Ok(n),
        _ => Err(CborError::TypeMismatch),
    }
}

/// The number below 256 that a tree is.
pub open spec fn small_number(t: Tree) -> Result<u8, CborError> {
    match t {
        Tree::U64(n) => if n < 256 {
            Ok(n as u8)
        } else {
            Err(CborError::IntRange)
        },
        _ => Err(CborError::TypeMismatch),
    }
}

/// The octets that a tree is.
pub open spec fn octets(t: Tree) -> Result<Seq<u8>, CborError> {
    match t {
        Tree::Bytes(b) => Ok(b),
        _ => Err(CborError::TypeMismatch),
    }
}

/// The text that a tree is.
pub open spec fn text_in(t: Tree) -> Result<Seq<char>, CborError> {
    match t {
        Tree::Text(s) => Ok(s),
        _ => Err(CborError::TypeMismatch),
    }
}

/// The octets at a key and the other pairs.
pub open spec fn octets_at(m: Pairs, k: u64) -> Result<(Seq<u8>, Pairs), CborError> {
    match required(m, k) {
        Ok((t, rest)) => match octets(t) {
            Ok(b) => Ok((b, rest)),
            Err(e) => Err(e),
        },
        Err(e) => Err(e),
    }
}

/// The text at a key and the other pairs.
pub open spec fn text_at(m: Pairs, k: u64) -> Result<(Seq<char>, Pairs), CborError> {
    match required(m, k) {
        Ok((t, rest)) => match text_in(t) {
            Ok(s) => Ok((s, rest)),
            Err(e) => Err(e),
        },
        Err(e) => Err(e),
    }
}

/// The number at a key and the other pairs.
pub open spec fn number_at(m: Pairs, k: u64) -> Result<(u64, Pairs), CborError> {
    match required(m, k) {
        Ok((t, rest)) => match number(t) {
            Ok(n) => Ok((n, rest)),
            Err(e) => Err(e),
        },
        Err(e) => Err(e),
    }
}

/// The number at a key, if the key is there, and the other pairs.
pub open spec fn number_if_any(m: Pairs, k: u64) -> Result<(Option<u64>, Pairs), CborError> {
    match taken(m, k).0 {
        Some(t) => match number(t) {
            Ok(n) => Ok((Some(n), taken(m, k).1)),
            Err(e) => Err(e),
        },
        None => Ok((None, m)),
    }
}

/// The first pair is the one at its key.
pub proof fn lemma_taken_first(m: Pairs, k: u64)
    requires
        m.len() > 0,
        m[0].0 == k,
    ensures
        taken(m, k) == (Some(m[0].1), m.skip(1)),
{
    assert(m.remove(0) =~= m.skip(1));
}

proof fn lemma_place_none(m: Pairs, k: u64, from: int)
    requires
        0 <= from <= m.len(),
        forall|i: int| from <= i < m.len() ==> (#[trigger] m[i]).0 != k,
    ensures
        place_of(m, k, from) is None,
    decreases m.len() - from,
{
    if from < m.len() {
        lemma_place_none(m, k, from + 1);
    }
}

/// A key that is not there is not found.
pub proof fn lemma_taken_none(m: Pairs, k: u64)
    requires
        forall|i: int| 0 <= i < m.len() ==> (#[trigger] m[i]).0 != k,
    ensures
        taken(m, k) == (None::<Tree>, m),
{
    lemma_place_none(m, k, 0);
}

proof fn lemma_place_last(m: Pairs, k: u64, from: int)
    requires
        0 <= from < m.len(),
        m.last().0 == k,
        forall|i: int| from <= i < m.len() - 1 ==> (#[trigger] m[i]).0 != k,
    ensures
        place_of(m, k, from) == Some(m.len() - 1),
    decreases m.len() - from,
{
    if from < m.len() - 1 {
        lemma_place_last(m, k, from + 1);
    }
}

/// The last pair is the one at its key, where no other pair has that key.
pub proof fn lemma_taken_last(m: Pairs, p: (u64, Tree))
    requires
        forall|i: int| 0 <= i < m.len() ==> (#[trigger] m[i]).0 != p.0,
    ensures
        taken(m.push(p), p.0) == (Some(p.1), m),
{
    lemma_place_last(m.push(p), p.0, 0);
    assert(m.push(p).remove(m.len() as int) =~= m);
}

/// Whether an object has a key.
pub open spec fn has_key(m: Pairs, k: u64) -> bool {
    exists|i: int| 0 <= i < m.len() && (#[trigger] m[i]).0 == k
}

proof fn lemma_place(m: Pairs, k: u64, from: int)
    requires
        0 <= from <= m.len(),
    ensures
        match place_of(m, k, from) {
            Some(p) => {
                &&& from <= p < m.len()
                &&& m[p].0 == k
                &&& forall|i: int| from <= i < p ==> (#[trigger] m[i]).0 != k
            },
            None => forall|i: int| from <= i < m.len() ==> (#[trigger] m[i]).0 != k,
        },
    decreases m.len() - from,
{
    if from < m.len() && m[from].0 != k {
        lemma_place(m, k, from + 1);
    }
}

proof fn lemma_place_is(m: Pairs, k: u64, from: int, p: int)
    requires
        0 <= from <= p < m.len(),
        m[p].0 == k,
        forall|i: int| from <= i < p ==> (#[trigger] m[i]).0 != k,
    ensures
        place_of(m, k, from) == Some(p),
    decreases p - from,
{
    if from < p {
        lemma_place_is(m, k, from + 1, p);
    }
}

/// Taking the value at a key leaves a pair with another key where it can be found again, and gives
/// what it would give without that pair.
pub proof fn lemma_taken_beside(m: Pairs, k: u64, i: int) -> (j: int)
    requires
        0 <= i < m.len(),
        m[i].0 != k,
    ensures
        0 <= j < taken(m, k).1.len(),
        taken(m, k).1[j] == m[i],
        taken(m.remove(i), k) == (taken(m, k).0, taken(m, k).1.remove(j)),
{
    let w = m.remove(i);
    lemma_place(m, k, 0);
    match place_of(m, k, 0) {
        Some(p) => {
            let q = if p < i {
                p
            } else {
                p - 1
            };
            let j = if i < p {
                i
            } else {
                i - 1
            };
            assert(w[q] == m[p]);
            assert forall|x: int| 0 <= x < q implies (#[trigger] w[x]).0 != k by {
                if x < i {
                    assert(w[x] == m[x]);
                } else {
                    assert(w[x] == m[x + 1]);
                }
            }
            lemma_place_is(w, k, 0, q);
            assert(w.remove(q) =~= m.remove(p).remove(j));
            j
        },
        None => {
            assert forall|x: int| 0 <= x < w.len() implies (#[trigger] w[x]).0 != k by {
                if x < i {
                    assert(w[x] == m[x]);
                } else {
                    assert(w[x] == m[x + 1]);
                }
            }
            lemma_place_none(w, k, 0);
            i
        },
    }
}

/// Taking the value at one key does not change what is found at another.
pub proof fn lemma_taken_apart(m: Pairs, j: u64, k: u64)
    requires
        j != k,
    ensures
        taken(taken(m, j).1, k).0 == taken(m, k).0,
{
    lemma_place(m, j, 0);
    match place_of(m, j, 0) {
        Some(p) => {
            let _ = lemma_taken_beside(m, k, p);
        },
        None => {},
    }
}

/// A key is found exactly where the object has it.
pub proof fn lemma_found(m: Pairs, k: u64)
    ensures
        taken(m, k).0 is Some <==> has_key(m, k),
{
    lemma_place(m, k, 0);
}

/// The trees of values under numbers.
pub open spec fn pair_trees(v: Seq<(u64, Value)>) -> Pairs {
    Seq::new(v.len(), |i: int| (v[i].0, tree_of(v[i].1)))
}

/// Takes an object apart, key by key.
pub struct Fields {
    map: Vec<(u64, Value)>,
}

impl View for Fields {
    type V = Pairs;

    closed spec fn view(&self) -> Pairs {
        pair_trees(self.map@)
    }
}

impl Fields {
    /// The pairs of a value that is an object.
    pub fn from_value(cv: Value) -> (r: Result<Self, CborError>)
        ensures
            crate::model::ok_view(r) == pairs_of(cv@),
    {
        match cv {
            Value::IntMap(map) => {
                let r = Fields { map };
                assert(r@ =~= cv@->IntMap_0);
                Ok(r)
            },
            _ => Err(CborError::TypeMismatch),
        }
    }

    fn place(&self, k: u64) -> (r: Option<usize>)
        ensures
            match r {
                Some(i) => place_of(self@, k, 0) == Some(i as int) && i < self@.len(),
                None => place_of(self@, k, 0) is None,
            },
    {
        let mut i: usize = 0;
        while i < self.map.len()
            invariant
                i <= self.map@.len(),
                place_of(self@, k, 0) == place_of(self@, k, i as int),
            decreases self.map@.len() - i,
        {
            assert(self@[i as int].0 == self.map@[i as int].0);
            if self.map[i].0 == k {
                return Some(i);
            }
            i += 1;
        }
        None
    }

    /// Whether a key is there.
    pub fn has(&self, k: u64) -> (r: bool)
        ensures
            r == (place_of(self@, k, 0) is Some),
    {
        self.place(k).is_some()
    }

    /// Takes the value at a key out, if it is there.
    pub fn take(&mut self, k: u64) -> (r: Option<Value>)
        ensures
            (crate::model::opt_view(r), final(self)@) == taken(old(self)@, k),
    {
        match self.place(k) {
            Some(i) => {
                let (_, v) = self.map.remove(i);
                assert(self@ =~= old(self)@.remove(i as int));
                Some(v)
            },
            None => None,
        }
    }

    /// Takes the value at a key out, which must be there.
    pub fn req(&mut self, k: u64) -> (r: Result<Value, CborError>)
        ensures
            match r {
                Ok(v) => required(old(self)@, k) == Ok::<(Tree, Pairs), CborError>(
                    (v@, final(self)@),
                ),
                Err(e) => required(old(self)@, k) == Err::<(Tree, Pairs), CborError>(e),
            },
    {
        match self.take(k) {
            Some(v) => Ok(v),
            None => Err(CborError::MissingKey(k)),
        }
    }

    /// Takes the octets at a key out.
    pub fn req_bytes(&mut self, k: u64) -> (r: Result<Vec<u8>, CborError>)
        ensures
            r matches Ok(b) ==> octets_at(old(self)@, k) == Ok::<(Seq<u8>, Pairs), CborError>(
                (b@, final(self)@),
            ),
            r matches Err(e) ==> octets_at(old(self)@, k) == Err::<(Seq<u8>, Pairs), CborError>(e),
    {
        match self.req(k) {
            Ok(v) => as_bytes(v),
            Err(e) => Err(e),
        }
    }

    /// Takes the text at a key out.
    pub fn req_text(&mut self, k: u64) -> (r: Result<String, CborError>)
        ensures
            r matches Ok(s) ==> text_at(old(self)@, k) == Ok::<(Seq<char>, Pairs), CborError>(
                (s@, final(self)@),
            ),
            r matches Err(e) ==> text_at(old(self)@, k) == Err::<(Seq<char>, Pairs), CborError>(e),
    {
        match self.req(k) {
            Ok(v) => as_text(v),
            Err(e) => Err(e),
        }
    }

    /// Takes the number at a key out.
    pub fn req_u64(&mut self, k: u64) -> (r: Result<u64, CborError>)
        ensures
            r matches Ok(n) ==> number_at(old(self)@, k) == Ok::<(u64, Pairs), CborError>(
                (n, final(self)@),
            ),
            r matches Err(e) ==> number_at(old(self)@, k) == Err::<(u64, Pairs), CborError>(e),
    {
        match self.req(k) {
            Ok(v) => as_u64(v),
            Err(e) => Err(e),
        }
    }

    /// Takes the number at a key out, if the key is there.
    pub fn take_u64(&mut self, k: u64) -> (r: Result<Option<u64>, CborError>)
        ensures
            r matches Ok(n) ==> number_if_any(old(self)@, k) == Ok::<
                (Option<u64>, Pairs),
                CborError,
            >((n, final(self)@)),
            r matches Err(e) ==> number_if_any(old(self)@, k) == Err::<
                (Option<u64>, Pairs),
                CborError,
            >(e),
    {
        match self.take(k) {
            Some(v) => match as_u64(v) {
                Ok(n) => Ok(Some(n)),
                Err(e) => Err(e),
            },
            None => Ok(None),
        }
    }

    /// The pairs that are left.
    pub fn into_pairs(self) -> (r: Vec<(u64, Value)>)
        ensures
            pair_trees(r@) == self@,
    {
        self.map
    }

    /// Refuses what is left.
    pub fn deny_unknown(&self) -> (r: Result<(), CborError>)
        ensures
            r == nothing_left(self@),
    {
        if self.map.len() > 0 {
            assert(self@[0].0 == self.map@[0].0);
            Err(CborError::UnknownKey(self.map[0].0))
        } else {
            Ok(())
        }
    }
}

/// The number that a value is.
pub fn as_u64(cv: Value) -> (r: Result<u64, CborError>)
    ensures
        r == number(cv@),
{
    match cv {
        Value::U64(n) => Ok(n),
        _ => Err(CborError::TypeMismatch),
    }
}

/// The number below 256 that a value is.
pub fn as_u8(cv: Value) -> (r: Result<u8, CborError>)
    ensures
        r == small_number(cv@),
{
    match cv {
        Value::U64(n) => {
            if n < 256 {
                Ok(n as u8)
            } else {
                Err(CborError::IntRange)
            }
        },
        _ => Err(CborError::TypeMismatch),
    }
}

/// The octets that a value is.
pub fn as_bytes(cv: Value) -> (r: Result<Vec<u8>, CborError>)
    ensures
        crate::model::ok_view(r) == octets(cv@),
{
    match cv {
        Value::Bytes(b) => Ok(b),
        _ => Err(CborError::TypeMismatch),
    }
}

/// The text that a value is.
pub fn as_text(cv: Value) -> (r: Result<String, CborError>)
    ensures
        crate::model::ok_view(r) == text_in(cv@),
{
    match cv {
        Value::Text(s) => Ok(s),
        _ => Err(CborError::TypeMismatch),
    }
}

/// A text as a value.
pub fn text_value(s: &str) -> (r: Value)
    ensures
        r@ == Tree::Text(s@),
{
    Value::Text(text::string_from(s))
}

/// Octets as a value.
pub fn bytes_value(b: &[u8]) -> (r: Value)
    ensures
        r@ == Tree::Bytes(b@),
{
    Value::Bytes(slice_to_vec(b))
}

/// An object as a value.
pub fn map_value(pairs: Vec<(u64, Value)>) -> (r: Value)
    ensures
        r@ == Tree::IntMap(pair_trees(pairs@)),
{
    let r = Value::IntMap(pairs);
    assert(r@->IntMap_0 =~= pair_trees(pairs@));
    r
}

// ---- laws --------------------------------------------------------------------------------------

proof fn lemma_no_place(m: Pairs, k: u64, from: int)
    requires
        0 <= from,
        forall|i: int| 0 <= i < m.len() ==> (#[trigger] m[i]).0 != k,
    ensures
        place_of(m, k, from) is None,
    decreases m.len() - from,
{
    if from < m.len() {
        assert(m[from].0 != k);
        lemma_no_place(m, k, from + 1);
    }
}

/// Taking a key out of a map gives the value of the first pair that has it and leaves the others as
/// they were; where no pair has it, there is no value and nothing changes. A key that has to be there
/// and is not is an error that names it, and so is one that is left over.
pub proof fn law_taking_a_key(a: Pairs, k: u64, t: Tree, b: Pairs)
    requires
        forall|i: int| 0 <= i < a.len() ==> (#[trigger] a[i]).0 != k,
    ensures
        taken(a + seq![(k, t)] + b, k) == (Some(t), a + b),
        taken(a, k) == (None::<Tree>, a),
        required(a + seq![(k, t)] + b, k) == Ok::<(Tree, Pairs), CborError>((t, a + b)),
        required(a, k) == Err::<(Tree, Pairs), CborError>(CborError::MissingKey(k)),
        nothing_left(Seq::<(u64, Tree)>::empty()) is Ok,
        nothing_left(seq![(k, t)] + b) == Err::<(), CborError>(CborError::UnknownKey(k)),
{
    let m = a + seq![(k, t)] + b;
    let n = a.len() as int;
    assert forall|i: int| 0 <= i < n implies (#[trigger] m[i]).0 != k by {
        assert(m[i] == a[i]);
    }
    lemma_place_is(m, k, 0, n);
    lemma_no_place(a, k, 0);
    assert(m.remove(n) =~= a + b);
}

/// A number is read where there is a number, octets where there are octets, and a text where there is a
/// text; anything else in their place is an error. A small number is below 256.
pub proof fn law_values_have_their_kinds(t: Tree)
    ensures
        match t {
            Tree::U64(n) => number(t) == Ok::<u64, CborError>(n) && octets(t) is Err && text_in(t) is Err
                && (n < 256 ==> small_number(t) == Ok::<u8, CborError>(n as u8)) && (n >= 256
                ==> small_number(t) == Err::<u8, CborError>(CborError::IntRange)),
            Tree::Bytes(b) => octets(t) == Ok::<Seq<u8>, CborError>(b) && number(t) is Err && text_in(t)
                is Err && small_number(t) is Err,
            Tree::Text(s) => text_in(t) == Ok::<Seq<char>, CborError>(s) && number(t) is Err && octets(
                t,
            ) is Err && small_number(t) is Err,
            _ => number(t) is Err && octets(t) is Err && text_in(t) is Err && small_number(t) is Err,
        },
        t matches Tree::IntMap(m) ==> pairs_of(t) == Ok::<Pairs, CborError>(m),
        !(t is IntMap) ==> pairs_of(t) == Err::<Pairs, CborError>(CborError::TypeMismatch),
{
}

/// How deep a tree is: what holds nothing else has no depth, and what holds something is one deeper
/// than that. A tree in its one form is at most sixty-four deep and has no texts for keys.
pub proof fn law_how_deep_a_tree_is(v: Seq<Tree>, p: Pairs, depth: nat, t: Tree)
    ensures
        canonical(t) ==> fits(t, 64) && t !is TextMap,
        t is U64 || t is Bytes || t is Text || t is Bool ==> canonical(t) && fits(t, 0),
        v.len() > 0 ==> !fits(Tree::Array(v), 0),
        p.len() > 0 ==> !fits(Tree::IntMap(p), 0),
        fits(Tree::Array(v), depth + 1) <==> forall|i: int|
            0 <= i < v.len() ==> fits(#[trigger] v[i], depth),
        fits(Tree::IntMap(p), depth + 1) <==> forall|i: int|
            0 <= i < p.len() ==> fits((#[trigger] p[i]).1, depth),
{
    reveal_with_fuel(fits, 2);
    let a = Tree::Array(v);
    let m = Tree::IntMap(p);
    assert((depth + 1 - 1) as nat == depth);
    assert(fits(a, depth + 1) == (v.len() > 0 ==> forall|i: int|
        0 <= i < v.len() ==> fits(#[trigger] v[i], depth)));
    assert(fits(m, depth + 1) == (p.len() > 0 ==> forall|i: int|
        0 <= i < p.len() ==> fits((#[trigger] p[i]).1, depth)));
}

} // verus!
