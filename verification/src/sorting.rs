//! Texts in order.

use crate::text;
use vstd::prelude::*;

verus! {

/// Whether one text comes before another: by the first character in which they differ, and where
/// there is none, the shorter one first.
pub open spec fn precedes(a: Seq<char>, b: Seq<char>) -> bool
    decreases a.len(),
{
    if b.len() == 0 {
        false
    } else if a.len() == 0 {
        true
    } else if a[0] != b[0] {
        a[0] < b[0]
    } else {
        precedes(a.skip(1), b.skip(1))
    }
}

/// Whether each text comes before those behind it.
pub open spec fn ascending(s: Seq<Seq<char>>) -> bool {
    forall|i: int, j: int| 0 <= i < j < s.len() ==> precedes(#[trigger] s[i], #[trigger] s[j])
}

/// Whether `out` lists the texts of a set in order.
pub open spec fn lists_in_order(out: Seq<Seq<char>>, set: Set<Seq<char>>) -> bool {
    &&& ascending(out)
    &&& forall|k: Seq<char>| #[trigger] out.contains(k) <==> set.contains(k)
}

pub proof fn lemma_total(a: Seq<char>, b: Seq<char>)
    ensures
        a == b || precedes(a, b) || precedes(b, a),
        !precedes(a, a),
        precedes(a, b) ==> !precedes(b, a) && a != b,
    decreases a.len(),
{
    if a.len() > 0 && b.len() > 0 && a[0] == b[0] {
        lemma_total(a.skip(1), b.skip(1));
        if a.skip(1) == b.skip(1) {
            assert(a =~= seq![a[0]] + a.skip(1));
            assert(b =~= seq![b[0]] + b.skip(1));
        }
    } else if a.len() == 0 && b.len() == 0 {
        assert(a =~= b);
    }
    if a.len() > 0 {
        lemma_irreflexive(a);
    }
}

proof fn lemma_irreflexive(a: Seq<char>)
    ensures
        !precedes(a, a),
    decreases a.len(),
{
    if a.len() > 0 {
        lemma_irreflexive(a.skip(1));
    }
}

pub proof fn lemma_transitive(a: Seq<char>, b: Seq<char>, c: Seq<char>)
    requires
        precedes(a, b),
        precedes(b, c),
    ensures
        precedes(a, c),
    decreases a.len(),
{
    if a.len() > 0 && b.len() > 0 && c.len() > 0 && a[0] == b[0] && b[0] == c[0] {
        lemma_transitive(a.skip(1), b.skip(1), c.skip(1));
    }
}

/// Whether one text comes before another.
pub fn comes_before(a: &[char], b: &[char]) -> (r: bool)
    ensures
        r == precedes(a@, b@),
{
    let n: usize = a.len();
    let m: usize = b.len();
    let mut i: usize = 0;
    assert(a@.skip(0) =~= a@);
    assert(b@.skip(0) =~= b@);
    while i < n && i < m
        invariant
            n == a@.len(),
            m == b@.len(),
            i <= n,
            i <= m,
            precedes(a@, b@) == precedes(a@.skip(i as int), b@.skip(i as int)),
        decreases n - i,
    {
        assert(a@.skip(i as int)[0] == a@[i as int]);
        assert(b@.skip(i as int)[0] == b@[i as int]);
        if a[i] != b[i] {
            return a[i] < b[i];
        }
        assert(a@.skip(i as int).skip(1) =~= a@.skip(i + 1));
        assert(b@.skip(i as int).skip(1) =~= b@.skip(i + 1));
        i += 1;
    }
    i < m
}

/// The texts of a list in which none stands twice, in order.
pub fn sorted(list: Vec<Vec<char>>) -> (r: Vec<Vec<char>>)
    requires
        text::views(list@).no_duplicates(),
    ensures
        lists_in_order(text::views(r@), text::views(list@).to_set()),
        r@.len() == list@.len(),
{
    let ghost all = text::views(list@);
    let mut out: Vec<Vec<char>> = Vec::new();
    let mut n: usize = 0;
    while n < list.len()
        invariant
            n <= list@.len(),
            all == text::views(list@),
            all.no_duplicates(),
            out@.len() == n,
            ascending(text::views(out@)),
            forall|k: Seq<char>| #[trigger]
                text::views(out@).contains(k) <==> all.take(n as int).contains(k),
        decreases list@.len() - n,
    {
        let ghost so_far = text::views(out@);
        let x = vstd::slice::slice_to_vec(list[n].as_slice());
        let ghost xv = x@;
        assert(xv == all[n as int]);
        let mut k: usize = out.len();
        while k > 0 && comes_before(x.as_slice(), out[k - 1].as_slice())
            invariant
                k <= out@.len(),
                so_far == text::views(out@),
                x@ == xv,
                ascending(so_far),
                forall|i: int| k <= i < so_far.len() ==> precedes(xv, #[trigger] so_far[i]),
            decreases k,
        {
            assert(so_far[k - 1] == out@[k - 1]@);
            k -= 1;
        }
        proof {
            assert(!so_far.contains(xv)) by {
                if so_far.contains(xv) {
                    assert(all.take(n as int).contains(xv));
                    let i = choose|i: int|
                        0 <= i < all.take(n as int).len() && all.take(n as int)[i] == xv;
                    assert(all[i] == all[n as int]);
                }
            }
            assert forall|i: int| 0 <= i < k implies precedes(#[trigger] so_far[i], xv) by {
                assert(so_far[k - 1] == out@[k - 1]@);
                lemma_total(xv, so_far[k - 1]);
                assert(so_far.contains(so_far[k - 1]));
                if i < k - 1 {
                    lemma_transitive(so_far[i], so_far[k - 1], xv);
                }
            }
            let next = so_far.insert(k as int, xv);
            assert forall|i: int, j: int| 0 <= i < j < next.len() implies precedes(
                #[trigger] next[i],
                #[trigger] next[j],
            ) by {
                let i2 = if i < k { i } else { i - 1 };
                let j2 = if j < k { j } else { j - 1 };
                if i != k && j != k {
                    assert(precedes(so_far[i2], so_far[j2]));
                }
            }
            assert(all.take(n + 1) =~= all.take(n as int).push(xv));
            assert forall|t: Seq<char>| #[trigger] next.contains(t) <==> all.take(n + 1).contains(
                t,
            ) by {
                if next.contains(t) {
                    let i = choose|i: int| 0 <= i < next.len() && next[i] == t;
                    if i == k {
                        assert(all.take(n + 1)[n as int] == t);
                    } else {
                        let i2 = if i < k { i } else { i - 1 };
                        assert(so_far[i2] == t);
                        assert(so_far.contains(t));
                        let j = choose|j: int|
                            0 <= j < all.take(n as int).len() && all.take(n as int)[j] == t;
                        assert(all.take(n + 1)[j] == t);
                    }
                }
                if all.take(n + 1).contains(t) {
                    let more = all.take(n + 1);
                    let j = choose|j: int| 0 <= j < more.len() && more[j] == t;
                    if j == n {
                        assert(next[k as int] == t);
                    } else {
                        assert(all.take(n as int)[j] == t);
                        assert(all.take(n as int).contains(t));
                        assert(so_far.contains(t));
                        let i = choose|i: int| 0 <= i < so_far.len() && so_far[i] == t;
                        let i2 = if i < k { i } else { i + 1 };
                        assert(next[i2] == t);
                    }
                }
            }
        }
        out.insert(k, x);
        assert(text::views(out@) =~= so_far.insert(k as int, xv));
        n += 1;
    }
    assert(all.take(n as int) =~= all);
    out
}

/// A set has one listing in order.
pub proof fn law_listing_is_determined(a: Seq<Seq<char>>, b: Seq<Seq<char>>, set: Set<Seq<char>>)
    requires
        lists_in_order(a, set),
        lists_in_order(b, set),
    ensures
        a == b,
    decreases a.len(),
{
    if a.len() == 0 {
        if b.len() > 0 {
            assert(b.contains(b[0]));
            assert(set.contains(b[0]));
            assert(a.contains(b[0]));
        }
        assert(a =~= b);
    } else {
        assert(a.contains(a.last())) by {
            assert(a[a.len() - 1] == a.last());
        }
        assert(set.contains(a.last()));
        assert(b.contains(a.last()));
        assert(b.len() > 0);
        assert(b.contains(b.last())) by {
            assert(b[b.len() - 1] == b.last());
        }
        assert(set.contains(b.last()));
        assert(a.contains(b.last()));
        let i = choose|i: int| 0 <= i < b.len() && b[i] == a.last();
        let j = choose|j: int| 0 <= j < a.len() && a[j] == b.last();
        if i < b.len() - 1 && j < a.len() - 1 {
            assert(precedes(b[i], b[b.len() - 1]));
            assert(precedes(a[j], a[a.len() - 1]));
            lemma_total(a.last(), b.last());
        }
        assert(a.last() == b.last());
        let x = a.last();
        let da = a.drop_last();
        let db = b.drop_last();
        let s2 = set.remove(x);
        assert forall|k: Seq<char>| #[trigger] da.contains(k) <==> s2.contains(k) by {
            lemma_drop_last_contains(a, k);
            assert(a.contains(k) <==> set.contains(k));
        }
        assert forall|k: Seq<char>| #[trigger] db.contains(k) <==> s2.contains(k) by {
            lemma_drop_last_contains(b, k);
            assert(b.contains(k) <==> set.contains(k));
        }
        assert(ascending(da)) by {
            assert forall|u: int, v: int| 0 <= u < v < da.len() implies precedes(
                #[trigger] da[u],
                #[trigger] da[v],
            ) by {
                assert(precedes(a[u], a[v]));
            }
        }
        assert(ascending(db)) by {
            assert forall|u: int, v: int| 0 <= u < v < db.len() implies precedes(
                #[trigger] db[u],
                #[trigger] db[v],
            ) by {
                assert(precedes(b[u], b[v]));
            }
        }
        law_listing_is_determined(da, db, s2);
        assert(a =~= da.push(x));
        assert(b =~= db.push(x));
    }
}

proof fn lemma_drop_last_contains(a: Seq<Seq<char>>, k: Seq<char>)
    requires
        ascending(a),
        a.len() > 0,
    ensures
        a.drop_last().contains(k) <==> a.contains(k) && k != a.last(),
{
    let d = a.drop_last();
    if d.contains(k) {
        let i = choose|i: int| 0 <= i < d.len() && d[i] == k;
        assert(a[i] == k);
        assert(precedes(a[i], a[a.len() - 1]));
        lemma_total(a[i], a[a.len() - 1]);
    }
    if a.contains(k) && k != a.last() {
        let i = choose|i: int| 0 <= i < a.len() && a[i] == k;
        assert(d[i] == k);
    }
}

/// One text comes before another exactly if it is the beginning of it, or has the smaller character
/// where they first differ.
pub proof fn law_what_comes_first(p: Seq<char>, a: Seq<char>, b: Seq<char>)
    requires
        a.len() > 0 && b.len() > 0 ==> a[0] != b[0],
    ensures
        precedes(p + a, p + b) <==> b.len() > 0 && (a.len() == 0 || a[0] < b[0]),
    decreases p.len(),
{
    if p.len() == 0 {
        assert(p + a =~= a);
        assert(p + b =~= b);
    } else {
        assert((p + a)[0] == p[0] && (p + b)[0] == p[0]);
        assert((p + a).skip(1) =~= p.skip(1) + a);
        assert((p + b).skip(1) =~= p.skip(1) + b);
        law_what_comes_first(p.skip(1), a, b);
    }
}

/// A listing has each member of the set, once, and nothing else, those that come first first.
pub proof fn law_listing_has_each_once(
    out: Seq<Seq<char>>,
    set: Set<Seq<char>>,
    i: int,
    j: int,
    k: Seq<char>,
)
    requires
        lists_in_order(out, set),
        0 <= i < j < out.len(),
    ensures
        precedes(out[i], out[j]),
        out.contains(k) <==> set.contains(k),
{
}

} // verus!
