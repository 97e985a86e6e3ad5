//! Maps and sets whose keys are sequences: strings as sequences of characters, octet strings as
//! sequences of octets.

use vstd::prelude::*;
use vstd::slice::slice_to_vec;

verus! {

/// A symbol that keys are made of.
pub trait Symbol: Copy {
    /// Whether two symbols are equal.
    fn equals(self, other: Self) -> (r: bool)
        ensures
            r == (self == other),
    ;
}

impl Symbol for char {
    fn equals(self, other: char) -> (r: bool) {
        self == other
    }
}

impl Symbol for u8 {
    fn equals(self, other: u8) -> (r: bool) {
        self == other
    }
}

/// Whether two keys are equal.
pub fn same_key<K: Symbol>(a: &[K], b: &[K]) -> (r: bool)
    ensures
        r == (a@ == b@),
{
    let n: usize = a.len();
    if n != b.len() {
        return false;
    }
    let mut i: usize = 0;
    while i < n
        invariant
            n == a@.len(),
            n == b@.len(),
            i <= n,
            forall|j: int| 0 <= j < i ==> a@[j] == b@[j],
        decreases n - i,
    {
        if !a[i].equals(b[i]) {
            return false;
        }
        i += 1;
    }
    assert(a@ =~= b@);
    true
}

/// Whether two octet strings are equal.
pub fn same_bytes(a: &[u8], b: &[u8]) -> (r: bool)
    ensures
        r == (a@ == b@),
{
    same_key(a, b)
}

spec fn distinct<K, V>(e: Seq<(Vec<K>, V)>) -> bool {
    forall|i: int, j: int| 0 <= i < j < e.len() ==> (#[trigger] e[i]).0@ != (#[trigger] e[j]).0@
}

/// The map that a list of entries makes up.
spec fn as_map<K, V: View>(e: Seq<(Vec<K>, V)>) -> Map<Seq<K>, V::V>
    decreases e.len(),
{
    if e.len() == 0 {
        Map::empty()
    } else {
        as_map(e.drop_last()).insert(e.last().0@, e.last().1@)
    }
}

/// A map from sequences of symbols to values. Its view is the map to the views of the values.
#[verifier::reject_recursive_types(K)]
#[verifier::reject_recursive_types(V)]
pub struct SeqMap<K, V> {
    entries: Vec<(Vec<K>, V)>,
}

impl<K, V: View> View for SeqMap<K, V> {
    type V = Map<Seq<K>, V::V>;

    closed spec fn view(&self) -> Map<Seq<K>, V::V> {
        as_map(self.entries@)
    }
}

proof fn lemma_as_map<K, V: View>(e: Seq<(Vec<K>, V)>)
    requires
        distinct(e),
    ensures
        as_map(e).dom().finite(),
        as_map(e).dom().len() == e.len(),
        forall|i: int|
            0 <= i < e.len() ==> as_map(e).contains_key((#[trigger] e[i]).0@) && as_map(
                e,
            )[e[i].0@] == e[i].1@,
        forall|k: Seq<K>|
            as_map(e).contains_key(k) ==> exists|i: int|
                0 <= i < e.len() && (#[trigger] e[i]).0@ == k,
    decreases e.len(),
{
    if e.len() > 0 {
        let d = e.drop_last();
        lemma_as_map(d);
        let last = e.last();
        assert forall|k: Seq<K>| as_map(d).contains_key(k) implies k != last.0@ by {
            let i = choose|i: int| 0 <= i < d.len() && (#[trigger] d[i]).0@ == k;
            assert(e[i].0@ != e[e.len() - 1].0@);
        }
        assert forall|i: int| 0 <= i < e.len() implies as_map(e).contains_key((#[trigger] e[i]).0@)
            && as_map(e)[e[i].0@] == e[i].1@ by {
            if i < d.len() {
                assert(d[i].0@ == e[i].0@);
            }
        }
        assert forall|k: Seq<K>| as_map(e).contains_key(k) implies exists|i: int|
            0 <= i < e.len() && (#[trigger] e[i]).0@ == k by {
            if k == last.0@ {
                assert(e[e.len() - 1].0@ == k);
            } else {
                let i = choose|i: int| 0 <= i < d.len() && (#[trigger] d[i]).0@ == k;
                assert(e[i].0@ == k);
            }
        }
    }
}

/// The map of a list with one entry taken out.
proof fn lemma_remove<K, V: View>(e: Seq<(Vec<K>, V)>, i: int)
    requires
        distinct(e),
        0 <= i < e.len(),
    ensures
        distinct(e.remove(i)),
        as_map(e.remove(i)) == as_map(e).remove(e[i].0@),
{
    let r = e.remove(i);
    assert(distinct(r)) by {
        assert forall|a: int, b: int| 0 <= a < b < r.len() implies (#[trigger] r[a]).0@ != (
        #[trigger] r[b]).0@ by {
            let a2 = if a < i { a } else { a + 1 };
            let b2 = if b < i { b } else { b + 1 };
            assert(e[a2].0@ != e[b2].0@);
        }
    }
    lemma_as_map(e);
    lemma_as_map(r);
    let m = as_map(e).remove(e[i].0@);
    assert forall|k: Seq<K>| as_map(r).contains_key(k) <==> m.contains_key(k) by {
        if as_map(r).contains_key(k) {
            let j = choose|j: int| 0 <= j < r.len() && (#[trigger] r[j]).0@ == k;
            let j2 = if j < i { j } else { j + 1 };
            assert(e[j2].0@ == k);
            assert(e[i].0@ != e[j2].0@);
        }
        if m.contains_key(k) {
            let j = choose|j: int| 0 <= j < e.len() && (#[trigger] e[j]).0@ == k;
            let j2 = if j < i { j } else { j - 1 };
            assert(r[j2].0@ == k);
        }
    }
    assert forall|k: Seq<K>| as_map(r).contains_key(k) implies as_map(r)[k] == m[k] by {
        let j = choose|j: int| 0 <= j < r.len() && (#[trigger] r[j]).0@ == k;
        let j2 = if j < i { j } else { j + 1 };
        assert(e[j2].0@ == k);
    }
    assert(as_map(r) =~= m);
}

impl<K, V> SeqMap<K, V> {
    #[verifier::type_invariant]
    spec fn inv(self) -> bool {
        distinct(self.entries@)
    }
}

impl<K: Symbol, V: View> SeqMap<K, V> {
    /// The empty map.
    pub fn new() -> (r: Self)
        ensures
            r@ == Map::<Seq<K>, V::V>::empty(),
    {
        SeqMap { entries: Vec::new() }
    }

    fn position(e: &Vec<(Vec<K>, V)>, key: &[K]) -> (r: Option<usize>)
        requires
            distinct(e@),
        ensures
            match r {
                Some(i) => i < e@.len() && e@[i as int].0@ == key@ && as_map(e@).contains_key(key@)
                    && as_map(e@)[key@] == e@[i as int].1@,
                None => !as_map(e@).contains_key(key@),
            },
    {
        proof {
            lemma_as_map(e@);
        }
        let mut i: usize = 0;
        while i < e.len()
            invariant
                i <= e@.len(),
                forall|j: int| 0 <= j < i ==> (#[trigger] e@[j]).0@ != key@,
                forall|j: int|
                    0 <= j < e@.len() ==> as_map(e@).contains_key((#[trigger] e@[j]).0@) && as_map(
                        e@,
                    )[e@[j].0@] == e@[j].1@,
            decreases e@.len() - i,
        {
            if same_key(e[i].0.as_slice(), key) {
                assert(as_map(e@).contains_key(e@[i as int].0@));
                return Some(i);
            }
            i += 1;
        }
        None
    }

    /// The value at a key.
    pub fn get(&self, key: &[K]) -> (r: Option<&V>)
        ensures
            match r {
                Some(v) => self@.contains_key(key@) && v@ == self@[key@],
                None => !self@.contains_key(key@),
            },
    {
        proof {
            use_type_invariant(self);
        }
        match Self::position(&self.entries, key) {
            Some(i) => Some(&self.entries[i].1),
            None => None,
        }
    }

    /// Whether there is a value at a key.
    pub fn contains(&self, key: &[K]) -> (r: bool)
        ensures
            r == self@.contains_key(key@),
    {
        self.get(key).is_some()
    }

    /// Puts a value at a key; gives back the one that was there.
    pub fn insert(&mut self, key: &[K], value: V) -> (r: Option<V>)
        ensures
            final(self)@ == old(self)@.insert(key@, value@),
            match r {
                Some(v) => old(self)@.contains_key(key@) && v@ == old(self)@[key@],
                None => !old(self)@.contains_key(key@),
            },
    {
        let before = self.remove(key);
        proof {
            use_type_invariant(&*self);
        }
        let ghost old_entries = self.entries@;
        let mut e: Vec<(Vec<K>, V)> = Vec::new();
        std::mem::swap(&mut e, &mut self.entries);
        e.push((slice_to_vec(key), value));
        proof {
            lemma_as_map(old_entries);
            assert(e@.drop_last() =~= old_entries);
            assert forall|i: int, j: int| 0 <= i < j < e@.len() implies (#[trigger] e@[i]).0@ != (
            #[trigger] e@[j]).0@ by {
                if j == e@.len() - 1 {
                    assert(as_map(old_entries).contains_key(old_entries[i].0@));
                }
            }
            assert(as_map(e@) == as_map(old_entries).insert(key@, value@));
        }
        self.entries = e;
        assert(self@ =~= old(self)@.insert(key@, value@));
        before
    }

    /// Takes the value at a key out.
    pub fn remove(&mut self, key: &[K]) -> (r: Option<V>)
        ensures
            final(self)@ == old(self)@.remove(key@),
            match r {
                Some(v) => old(self)@.contains_key(key@) && v@ == old(self)@[key@],
                None => !old(self)@.contains_key(key@),
            },
    {
        proof {
            use_type_invariant(&*self);
        }
        match Self::position(&self.entries, key) {
            Some(i) => {
                let mut e: Vec<(Vec<K>, V)> = Vec::new();
                std::mem::swap(&mut e, &mut self.entries);
                proof {
                    lemma_remove(e@, i as int);
                }
                let (_, v) = e.remove(i);
                self.entries = e;
                Some(v)
            },
            None => {
                assert(old(self)@.remove(key@) =~= old(self)@);
                None
            },
        }
    }

    /// The keys in the order in which [`Self::entry`] gives them.
    pub closed spec fn keys(self) -> Seq<Seq<K>> {
        Seq::new(self.entries@.len(), |i: int| self.entries@[i].0@)
    }

    /// The number of keys. Each of them stands at one place.
    pub fn len(&self) -> (r: usize)
        ensures
            self@.dom().finite(),
            r == self@.dom().len(),
            r == self.keys().len(),
            self.keys().no_duplicates(),
            forall|k: Seq<K>| self@.contains_key(k) <==> self.keys().contains(k),
    {
        proof {
            use_type_invariant(self);
            lemma_as_map(self.entries@);
            let keys = self.keys();
            assert forall|k: Seq<K>| self@.contains_key(k) <==> keys.contains(k) by {
                if self@.contains_key(k) {
                    let i = choose|i: int|
                        0 <= i < self.entries@.len() && (#[trigger] self.entries@[i]).0@ == k;
                    assert(keys[i] == k);
                }
                if keys.contains(k) {
                    let i = choose|i: int| 0 <= i < keys.len() && keys[i] == k;
                    assert(self.entries@[i].0@ == k);
                }
            }
            assert forall|i: int, j: int|
                0 <= i < keys.len() && 0 <= j < keys.len() && i != j implies keys[i] != keys[j] by {
                if i < j {
                    assert(self.entries@[i].0@ != self.entries@[j].0@);
                } else {
                    assert(self.entries@[j].0@ != self.entries@[i].0@);
                }
            }
        }
        self.entries.len()
    }

    /// The key and the value at a place of the map.
    pub fn entry(&self, i: usize) -> (r: (&[K], &V))
        requires
            i < self.keys().len(),
        ensures
            r.0@ == self.keys()[i as int],
            self@.contains_key(r.0@),
            self@[r.0@] == r.1@,
    {
        proof {
            use_type_invariant(self);
            lemma_as_map(self.entries@);
        }
        (self.entries[i].0.as_slice(), &self.entries[i].1)
    }
}

/// A set of sequences of symbols.
#[verifier::reject_recursive_types(K)]
pub struct SeqSet<K> {
    map: SeqMap<K, bool>,
}

impl<K> View for SeqSet<K> {
    type V = Set<Seq<K>>;

    closed spec fn view(&self) -> Set<Seq<K>> {
        self.map@.dom()
    }
}

impl<K: Symbol> SeqSet<K> {
    /// The empty set.
    pub fn new() -> (r: Self)
        ensures
            r@ == Set::<Seq<K>>::empty(),
    {
        let r = SeqSet { map: SeqMap::new() };
        assert(r@ =~= Set::<Seq<K>>::empty());
        r
    }

    /// Whether a key is in the set.
    pub fn contains(&self, key: &[K]) -> (r: bool)
        ensures
            r == self@.contains(key@),
    {
        self.map.contains(key)
    }

    /// Adds a key; whether it is new.
    pub fn insert(&mut self, key: &[K]) -> (r: bool)
        ensures
            final(self)@ == old(self)@.insert(key@),
            r == !old(self)@.contains(key@),
    {
        let before = self.map.insert(key, true);
        assert(self@ =~= old(self)@.insert(key@));
        before.is_none()
    }

    /// Takes a key out; whether it was there.
    pub fn remove(&mut self, key: &[K]) -> (r: bool)
        ensures
            final(self)@ == old(self)@.remove(key@),
            r == old(self)@.contains(key@),
    {
        let before = self.map.remove(key);
        assert(self@ =~= old(self)@.remove(key@));
        before.is_some()
    }
}

} // verus!
