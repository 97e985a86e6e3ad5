//! Which texts are IP addresses.

use crate::text;
use vstd::prelude::*;
use vstd::slice::slice_subrange;

verus! {

/// Whether a text is a decimal number from 0 to 255 without zeros in front.
pub open spec fn is_octet(s: Seq<char>) -> bool {
    &&& 1 <= s.len() <= 3
    &&& text::all_digits(s)
    &&& s.len() > 1 ==> s[0] != '0'
    &&& text::dec_value(s) <= 255
}

/// Whether a text is an IPv4 address: four numbers with dots between them.
pub open spec fn is_ipv4(s: Seq<char>) -> bool {
    let p = text::split(s, '.');
    p.len() == 4 && is_octet(p[0]) && is_octet(p[1]) && is_octet(p[2]) && is_octet(p[3])
}

/// Whether a character is a hexadecimal digit.
pub open spec fn is_hex(c: char) -> bool {
    text::is_digit(c) || 'a' <= c && c <= 'f' || 'A' <= c && c <= 'F'
}

/// Whether a text is one group of an IPv6 address: one to four hexadecimal digits.
pub open spec fn is_group(s: Seq<char>) -> bool {
    1 <= s.len() <= 4 && forall|i: int| 0 <= i < s.len() ==> is_hex(#[trigger] s[i])
}

/// Whether each of the texts is a group.
pub open spec fn all_groups(p: Seq<Seq<char>>) -> bool {
    forall|i: int| 0 <= i < p.len() ==> is_group(#[trigger] p[i])
}

/// How many groups a text is made of, with colons between them, if it is made of eight at most. None
/// at all are groups too. With `mixed` the last two may be written as an IPv4 address.
pub open spec fn groups_in(s: Seq<char>, mixed: bool) -> Option<nat> {
    let p = text::split(s, ':');
    if s.len() == 0 {
        Some(0)
    } else if p.len() > 8 || !all_groups(p.drop_last()) {
        None
    } else if is_group(p.last()) {
        Some(p.len())
    } else if mixed && is_ipv4(p.last()) {
        Some(p.len() + 1)
    } else {
        None
    }
}

/// Where two colons first stand together, at or behind `from`.
pub open spec fn gap(s: Seq<char>, from: int) -> Option<int>
    decreases s.len() - from,
{
    if !(0 <= from && from + 1 < s.len()) {
        None
    } else if s[from] == ':' && s[from + 1] == ':' {
        Some(from)
    } else {
        gap(s, from + 1)
    }
}

/// Whether a text is an IPv6 address: eight groups, or fewer with two colons in the place of those
/// that are left out, of which there is at least one.
pub open spec fn is_ipv6(s: Seq<char>) -> bool {
    match gap(s, 0) {
        None => groups_in(s, true) == Some(8nat),
        Some(k) => match (groups_in(s.take(k), false), groups_in(s.skip(k + 2), true)) {
            (Some(a), Some(b)) => a + b <= 7,
            _ => false,
        },
    }
}

/// Whether a text is an IP address.
pub open spec fn is_ip_address(s: Seq<char>) -> bool {
    is_ipv4(s) || is_ipv6(s)
}

fn octet(s: &[char]) -> (r: bool)
    ensures
        r == is_octet(s@),
{
    let n: usize = s.len();
    if n == 0 || n > 3 || (n > 1 && s[0] == '0') {
        return false;
    }
    if s[0] == '+' {
        assert(!text::is_digit(s@[0]));
        return false;
    }
    text::parse_number(s, 255).is_some()
}

fn ipv4(s: &[char]) -> (r: bool)
    ensures
        r == is_ipv4(s@),
{
    let p = text::split_at_each(s, '.');
    let ghost all = text::split(s@, '.');
    if p.len() != 4 {
        return false;
    }
    assert(all[0] == p@[0]@ && all[1] == p@[1]@ && all[2] == p@[2]@ && all[3] == p@[3]@);
    octet(p[0].as_slice()) && octet(p[1].as_slice()) && octet(p[2].as_slice()) && octet(
        p[3].as_slice(),
    )
}

fn group(s: &[char]) -> (r: bool)
    ensures
        r == is_group(s@),
{
    let n: usize = s.len();
    if n == 0 || n > 4 {
        return false;
    }
    let mut i: usize = 0;
    while i < n
        invariant
            n == s@.len(),
            i <= n,
            forall|j: int| 0 <= j < i ==> is_hex(#[trigger] s@[j]),
        decreases n - i,
    {
        let c: char = s[i];
        if !('0' <= c && c <= '9' || 'a' <= c && c <= 'f' || 'A' <= c && c <= 'F') {
            assert(!is_hex(s@[i as int]));
            return false;
        }
        i += 1;
    }
    true
}

fn count_groups(s: &[char], mixed: bool) -> (r: Option<usize>)
    ensures
        match r {
            Some(n) => groups_in(s@, mixed) == Some(n as nat) && n <= 9,
            None => groups_in(s@, mixed) is None,
        },
{
    if s.len() == 0 {
        return Some(0);
    }
    let p = text::split_at_each(s, ':');
    let ghost all = text::split(s@, ':');
    let n: usize = p.len();
    if n > 8 {
        return None;
    }
    let ghost front = all.drop_last();
    let mut i: usize = 0;
    while i + 1 < n
        invariant
            n == p@.len(),
            1 <= n <= 8,
            i + 1 <= n,
            s@.len() > 0,
            all == text::split(s@, ':'),
            all == text::views(p@),
            front == all.drop_last(),
            forall|j: int| 0 <= j < i ==> is_group(#[trigger] front[j]),
        decreases n - i,
    {
        assert(front[i as int] == p@[i as int]@);
        if !group(p[i].as_slice()) {
            assert(!is_group(front[i as int]));
            return None;
        }
        i += 1;
    }
    assert(all_groups(front));
    assert(all.last() == p@[n - 1]@);
    if group(p[n - 1].as_slice()) {
        Some(n)
    } else if mixed && ipv4(p[n - 1].as_slice()) {
        Some(n + 1)
    } else {
        None
    }
}

proof fn lemma_gap_bounds(s: Seq<char>, from: int)
    requires
        0 <= from,
    ensures
        gap(s, from) matches Some(k) ==> from <= k && k + 1 < s.len(),
    decreases s.len() - from,
{
    if from + 1 < s.len() && !(s[from] == ':' && s[from + 1] == ':') {
        lemma_gap_bounds(s, from + 1);
    }
}

fn find_gap(s: &[char]) -> (r: Option<usize>)
    ensures
        match r {
            Some(k) => gap(s@, 0) == Some(k as int) && k + 1 < s@.len(),
            None => gap(s@, 0) is None,
        },
{
    let n: usize = s.len();
    let mut i: usize = 0;
    while i < n && n - i > 1
        invariant
            n == s@.len(),
            i <= n,
            gap(s@, 0) == gap(s@, i as int),
        decreases n - i,
    {
        if s[i] == ':' && s[i + 1] == ':' {
            return Some(i);
        }
        i += 1;
    }
    None
}

fn ipv6(s: &[char]) -> (r: bool)
    ensures
        r == is_ipv6(s@),
{
    let n: usize = s.len();
    match find_gap(s) {
        None => match count_groups(s, true) {
            Some(groups) => groups == 8,
            None => false,
        },
        Some(k) => {
            let head = slice_subrange(s, 0, k);
            let tail = slice_subrange(s, k + 2, n);
            assert(head@ =~= s@.take(k as int));
            assert(tail@ =~= s@.skip(k + 2));
            match (count_groups(head, false), count_groups(tail, true)) {
                (Some(a), Some(b)) => a + b <= 7,
                _ => false,
            }
        },
    }
}

/// Whether a text is an IP address.
pub fn is_address(s: &str) -> (r: bool)
    ensures
        r == is_ip_address(s@),
{
    let c = text::chars_of(s);
    ipv4(c.as_slice()) || ipv6(c.as_slice())
}

// ---- laws --------------------------------------------------------------------------------------

/// An IP address is made of digits, dots and colons alone: nothing can be hidden in one.
pub proof fn law_addresses_are_plain(s: Seq<char>, i: int)
    requires
        is_ip_address(s),
        0 <= i < s.len(),
    ensures
        is_hex(s[i]) || s[i] == '.' || s[i] == ':',
{
    if is_ipv4(s) {
        let p = text::split(s, '.');
        assert forall|j: int| 0 <= j < p.len() implies plain(#[trigger] p[j]) by {
            lemma_octet_is_plain(p[j]);
        }
        lemma_split_is_plain(s, '.');
    } else {
        match gap(s, 0) {
            None => {
                lemma_groups_are_plain(s, true);
            },
            Some(k) => {
                lemma_gap_bounds(s, 0);
                lemma_gap_is_there(s, 0);
                let a = s.take(k);
                let b = s.skip(k + 2);
                lemma_groups_are_plain(a, false);
                lemma_groups_are_plain(b, true);
                if i < k {
                    assert(a[i] == s[i]);
                } else if i >= k + 2 {
                    assert(b[i - k - 2] == s[i]);
                }
            },
        }
    }
}

/// Whether a text holds nothing but hexadecimal digits, dots and colons.
spec fn plain(s: Seq<char>) -> bool {
    forall|i: int| 0 <= i < s.len() ==> is_hex(#[trigger] s[i]) || s[i] == '.' || s[i] == ':'
}

proof fn lemma_octet_is_plain(s: Seq<char>)
    requires
        is_octet(s),
    ensures
        plain(s),
{
    assert forall|i: int| 0 <= i < s.len() implies is_hex(#[trigger] s[i]) by {
        assert(text::is_digit(s[i]));
    }
}

proof fn lemma_split_is_plain(s: Seq<char>, c: char)
    requires
        c == '.' || c == ':',
        forall|j: int| 0 <= j < text::split(s, c).len() ==> plain(#[trigger] text::split(s, c)[j]),
    ensures
        plain(s),
    decreases s.len(),
{
    s.index_of_first_ensures(c);
    let p = text::split(s, c);
    match s.index_of_first(c) {
        Some(k) => {
            let a = s.take(k);
            let b = s.skip(k + 1);
            let q = text::split(b, c);
            assert(p[0] == a);
            assert forall|j: int| 0 <= j < q.len() implies plain(#[trigger] q[j]) by {
                assert(p[j + 1] == q[j]);
            }
            lemma_split_is_plain(b, c);
            assert(plain(a));
            assert forall|i: int| 0 <= i < s.len() implies is_hex(#[trigger] s[i]) || s[i] == '.'
                || s[i] == ':' by {
                if i < k {
                    assert(a[i] == s[i]);
                } else if i > k {
                    assert(b[i - k - 1] == s[i]);
                }
            }
        },
        None => {
            assert(p[0] == s);
        },
    }
}

proof fn lemma_groups_are_plain(s: Seq<char>, mixed: bool)
    requires
        groups_in(s, mixed) is Some,
    ensures
        plain(s),
{
    if s.len() > 0 {
        let p = text::split(s, ':');
        assert forall|j: int| 0 <= j < p.len() implies plain(#[trigger] p[j]) by {
            if j < p.len() - 1 {
                assert(p.drop_last()[j] == p[j]);
            } else if !is_group(p.last()) {
                let x = p.last();
                let q = text::split(x, '.');
                assert forall|m: int| 0 <= m < q.len() implies plain(#[trigger] q[m]) by {
                    lemma_octet_is_plain(q[m]);
                }
                lemma_split_is_plain(x, '.');
            }
        }
        lemma_split_is_plain(s, ':');
    }
}

proof fn lemma_gap_is_there(s: Seq<char>, from: int)
    requires
        0 <= from,
    ensures
        gap(s, from) matches Some(k) ==> s[k] == ':' && s[k + 1] == ':',
    decreases s.len() - from,
{
    if from + 1 < s.len() && !(s[from] == ':' && s[from + 1] == ':') {
        lemma_gap_is_there(s, from + 1);
    }
}

// ---- laws --------------------------------------------------------------------------------------

proof fn lemma_first_digit_counts(s: Seq<char>)
    requires
        s.len() > 0,
        text::all_digits(s),
        s[0] != '0',
    ensures
        text::dec_value(s) >= 1,
    decreases s.len(),
{
    reveal_with_fuel(text::dec_value, 2);
    if s.len() > 1 {
        let q = s.drop_last();
        assert(text::all_digits(q)) by {
            assert forall|i: int| 0 <= i < q.len() implies text::is_digit(q[i]) by {
                assert(q[i] == s[i]);
            }
        }
        lemma_first_digit_counts(q);
    }
}

proof fn lemma_digits_are_the_number(s: Seq<char>)
    requires
        s.len() > 0,
        text::all_digits(s),
        s.len() > 1 ==> s[0] != '0',
    ensures
        text::dec(text::dec_value(s)) == s,
    decreases s.len(),
{
    reveal_with_fuel(text::dec_value, 2);
    let d = text::digit_value(s.last());
    assert(text::is_digit(s[s.len() - 1]));
    assert(text::digit_char(d as int) == s.last());
    let q = s.drop_last();
    if s.len() == 1 {
        assert(text::dec_value(s) == d);
        assert(text::dec(d) =~= s);
    } else {
        assert(text::all_digits(q)) by {
            assert forall|i: int| 0 <= i < q.len() implies text::is_digit(q[i]) by {
                assert(q[i] == s[i]);
            }
        }
        lemma_first_digit_counts(q);
        lemma_digits_are_the_number(q);
        let v = text::dec_value(q);
        assert((10 * v + d) / 10 == v && (10 * v + d) % 10 == d);
        assert(q.push(s.last()) =~= s);
    }
}

proof fn lemma_number_is_octet(n: nat)
    requires
        n <= 255,
    ensures
        is_octet(text::dec(n)),
        !text::dec(n).contains('.'),
        !text::dec(n).contains(':'),
{
    reveal_with_fuel(text::dec, 4);
    reveal_with_fuel(text::dec_value, 4);
    text::lemma_dec_round_trip(n);
    let s = text::dec(n);
    assert forall|c: char| c == '.' || c == ':' implies !s.contains(c) by {
        if s.contains(c) {
            let i = s.index_of(c);
            assert(text::is_digit(s[i]));
        }
    }
}

/// An IPv4 address is four numbers up to 255 in decimal, with dots between them and no zeros in front;
/// nothing else is one.
pub proof fn law_four_numbers_with_dots(s: Seq<char>, a: nat, b: nat, c: nat, d: nat)
    ensures
        a <= 255 && b <= 255 && c <= 255 && d <= 255 && s == text::dec(a) + seq!['.'] + (text::dec(b)
            + seq!['.'] + (text::dec(c) + seq!['.'] + text::dec(d))) ==> is_ipv4(s),
        is_ipv4(s) ==> exists|i: nat, j: nat, k: nat, l: nat|
            #![trigger text::dec(i), text::dec(j), text::dec(k), text::dec(l)]
            i <= 255 && j <= 255 && k <= 255 && l <= 255 && s == text::dec(i) + seq!['.'] + (text::dec(
                j,
            ) + seq!['.'] + (text::dec(k) + seq!['.'] + text::dec(l))),
{
    if a <= 255 && b <= 255 && c <= 255 && d <= 255 && s == text::dec(a) + seq!['.'] + (text::dec(b)
        + seq!['.'] + (text::dec(c) + seq!['.'] + text::dec(d))) {
        lemma_number_is_octet(a);
        lemma_number_is_octet(b);
        lemma_number_is_octet(c);
        lemma_number_is_octet(d);
        let y = text::dec(c) + seq!['.'] + text::dec(d);
        let x = text::dec(b) + seq!['.'] + y;
        text::law_cut_at_the_first(text::dec(a), '.', x);
        text::law_cut_at_the_first(text::dec(b), '.', y);
        text::law_cut_at_the_first(text::dec(c), '.', text::dec(d));
        text::law_cut_at_the_first(text::dec(d), '.', y);
    }
    if is_ipv4(s) {
        let p = text::split(s, '.');
        lemma_digits_are_the_number(p[0]);
        lemma_digits_are_the_number(p[1]);
        lemma_digits_are_the_number(p[2]);
        lemma_digits_are_the_number(p[3]);
        text::lemma_join_split(s, '.');
        let r2 = seq![p[2], p[3]];
        let r1 = seq![p[1]] + r2;
        assert(p =~= seq![p[0]] + r1);
        text::lemma_join_front(p[0], r1, '.');
        text::lemma_join_front(p[1], r2, '.');
        assert(r2 =~= seq![p[2]] + seq![p[3]]);
        text::lemma_join_front(p[2], seq![p[3]], '.');
        assert(text::join(seq![p[3]], '.') == p[3]);
        let i = text::dec_value(p[0]);
        let j = text::dec_value(p[1]);
        let k = text::dec_value(p[2]);
        let l = text::dec_value(p[3]);
        assert(s =~= text::dec(i) + seq!['.'] + (text::dec(j) + seq!['.'] + (text::dec(k) + seq!['.']
            + text::dec(l))));
    }
}

/// A text that is up to four hexadecimal digits, and at least one.
pub open spec fn short_hex(s: Seq<char>) -> bool {
    &&& 1 <= s.len() <= 4
    &&& forall|i: int|
        0 <= i < s.len() ==> ('0' <= #[trigger] s[i] && s[i] <= '9') || ('a' <= s[i] && s[i] <= 'f')
            || ('A' <= s[i] && s[i] <= 'F')
}

spec fn colons_apart(s: Seq<char>) -> bool {
    &&& s.len() > 0 ==> s[0] != ':' && s.last() != ':'
    &&& forall|i: int| 0 <= i < s.len() - 1 ==> !(#[trigger] s[i] == ':' && s[i + 1] == ':')
}

spec fn piece(s: Seq<char>) -> bool {
    s.len() > 0 && !s.contains(':')
}

proof fn lemma_joined_apart(p: Seq<Seq<char>>)
    requires
        forall|i: int| 0 <= i < p.len() ==> piece(#[trigger] p[i]),
    ensures
        colons_apart(text::join(p, ':')),
        p.len() > 0 ==> text::join(p, ':').len() > 0,
    decreases p.len(),
{
    let s = text::join(p, ':');
    if p.len() == 1 {
        assert(piece(p[0]));
        assert forall|i: int| 0 <= i < s.len() implies s[i] != ':' by {
            assert(p[0].contains(p[0][i]));
        }
    } else if p.len() > 1 {
        let q = p.drop_last();
        assert forall|i: int| 0 <= i < q.len() implies piece(#[trigger] q[i]) by {
            assert(q[i] == p[i]);
        }
        lemma_joined_apart(q);
        let a = text::join(q, ':');
        let l = p[p.len() - 1];
        assert(piece(l));
        assert forall|i: int| 0 <= i < l.len() implies l[i] != ':' by {
            assert(l.contains(l[i]));
        }
        let n = a.len() as int;
        assert(s == a.push(':') + l);
        assert(s[0] == a[0]);
        assert(s.last() == l[l.len() - 1]);
        assert forall|i: int| 0 <= i < s.len() - 1 implies !(#[trigger] s[i] == ':' && s[i + 1] == ':') by {
            if i + 1 < n {
                assert(s[i] == a[i] && s[i + 1] == a[i + 1]);
            } else if i + 1 == n {
                assert(s[i] == a.last());
            } else {
                assert(s[i + 1] == l[i - n]);
            }
        }
    }
}

proof fn lemma_no_gap(s: Seq<char>, from: int)
    requires
        0 <= from,
        colons_apart(s),
    ensures
        gap(s, from) is None,
    decreases s.len() - from,
{
    if from + 1 < s.len() {
        lemma_no_gap(s, from + 1);
    }
}

proof fn lemma_gap_is(s: Seq<char>, from: int, k: int)
    requires
        0 <= from <= k,
        k + 1 < s.len(),
        s[k] == ':' && s[k + 1] == ':',
        forall|i: int| from <= i < k ==> !(#[trigger] s[i] == ':' && s[i + 1] == ':'),
    ensures
        gap(s, from) == Some(k),
    decreases k - from,
{
    if from < k {
        lemma_gap_is(s, from + 1, k);
    }
}

proof fn lemma_group_is_piece(s: Seq<char>)
    requires
        short_hex(s),
    ensures
        is_group(s),
        piece(s),
        !s.contains('.'),
{
    assert forall|c: char| c == '.' || c == ':' implies !s.contains(c) by {
        if s.contains(c) {
            let i = s.index_of(c);
            assert(s[i] == c);
        }
    }
}

proof fn lemma_address_is_piece(v: Seq<char>)
    requires
        is_ipv4(v),
    ensures
        piece(v),
        v.contains('.'),
        !is_group(v),
{
    law_four_numbers_with_dots(v, 0, 0, 0, 0);
    let (i, j, k, l) = choose|i: nat, j: nat, k: nat, l: nat|
        #![trigger text::dec(i), text::dec(j), text::dec(k), text::dec(l)]
        i <= 255 && j <= 255 && k <= 255 && l <= 255 && v == text::dec(i) + seq!['.'] + (text::dec(j)
            + seq!['.'] + (text::dec(k) + seq!['.'] + text::dec(l)));
    lemma_number_is_octet(i);
    lemma_number_is_octet(j);
    lemma_number_is_octet(k);
    lemma_number_is_octet(l);
    let y = text::dec(k) + seq!['.'] + text::dec(l);
    let x = text::dec(j) + seq!['.'] + y;
    lemma_absent_joined(text::dec(k), text::dec(l));
    lemma_absent_joined(text::dec(j), y);
    lemma_absent_joined(text::dec(i), x);
    let n = text::dec(i).len() as int;
    assert(v[n] == '.');
    if is_group(v) {
        assert(is_hex(v[n]));
    }
}

proof fn lemma_absent_joined(a: Seq<char>, b: Seq<char>)
    requires
        !a.contains(':'),
        !b.contains(':'),
    ensures
        !(a + seq!['.'] + b).contains(':'),
{
    let s = a + seq!['.'] + b;
    if s.contains(':') {
        let i = s.index_of(':');
        if i < a.len() {
            assert(a[i] == ':');
        } else if i > a.len() {
            assert(b[i - a.len() - 1] == ':');
        }
    }
}

proof fn lemma_count_of_groups(p: Seq<Seq<char>>, mixed: bool)
    requires
        forall|i: int| 0 <= i < p.len() ==> short_hex(#[trigger] p[i]),
    ensures
        p.len() <= 8 ==> groups_in(text::join(p, ':'), mixed) == Some(p.len()),
        p.len() > 8 ==> groups_in(text::join(p, ':'), mixed) is None,
{
    assert forall|i: int| 0 <= i < p.len() implies is_group(#[trigger] p[i]) && piece(p[i])
        && !p[i].contains(':') by {
        lemma_group_is_piece(p[i]);
    }
    lemma_joined_apart(p);
    if p.len() > 0 {
        text::lemma_split_join(p, ':');
        assert(all_groups(p.drop_last())) by {
            assert forall|i: int| 0 <= i < p.drop_last().len() implies is_group(
                #[trigger] p.drop_last()[i],
            ) by {
                assert(p.drop_last()[i] == p[i]);
            }
        }
        assert(is_group(p[p.len() - 1]));
    }
}

proof fn lemma_count_with_address(p: Seq<Seq<char>>, v: Seq<char>)
    requires
        forall|i: int| 0 <= i < p.len() ==> short_hex(#[trigger] p[i]),
        is_ipv4(v),
    ensures
        colons_apart(text::join(p.push(v), ':')),
        p.len() < 8 ==> groups_in(text::join(p.push(v), ':'), true) == Some((p.len() + 2) as nat),
        p.len() >= 8 ==> groups_in(text::join(p.push(v), ':'), true) is None,
{
    let q = p.push(v);
    lemma_address_is_piece(v);
    assert forall|i: int| 0 <= i < q.len() implies piece(#[trigger] q[i]) && !q[i].contains(':') by {
        if i < p.len() {
            assert(q[i] == p[i]);
            lemma_group_is_piece(p[i]);
        }
    }
    lemma_joined_apart(q);
    text::lemma_split_join(q, ':');
    assert(q.drop_last() =~= p);
    assert(all_groups(p)) by {
        assert forall|i: int| 0 <= i < p.len() implies is_group(#[trigger] p[i]) by {
            lemma_group_is_piece(p[i]);
        }
    }
}

proof fn lemma_joined_with_gap(a: Seq<char>, b: Seq<char>)
    requires
        colons_apart(a),
    ensures
        gap(a + seq![':', ':'] + b, 0) == Some(a.len() as int),
        (a + seq![':', ':'] + b).take(a.len() as int) == a,
        (a + seq![':', ':'] + b).skip(a.len() as int + 2) == b,
{
    let s = a + seq![':', ':'] + b;
    let k = a.len() as int;
    assert(s[k] == ':' && s[k + 1] == ':');
    assert forall|i: int| 0 <= i < k implies !(#[trigger] s[i] == ':' && s[i + 1] == ':') by {
        assert(s[i] == a[i]);
        if i + 1 < k {
            assert(s[i + 1] == a[i + 1]);
        }
    }
    lemma_gap_is(s, 0, k);
    assert(s.take(k) =~= a);
    assert(s.skip(k + 2) =~= b);
}

/// An IPv6 address in full is eight groups with colons between them; the last two groups may be written
/// as an IPv4 address.
pub proof fn law_eight_groups_with_colons(p: Seq<Seq<char>>, v: Seq<char>)
    requires
        p.len() > 0,
        forall|i: int| 0 <= i < p.len() ==> short_hex(#[trigger] p[i]),
    ensures
        is_ipv6(text::join(p, ':')) <==> p.len() == 8,
        is_ipv4(v) ==> (is_ipv6(text::join(p.push(v), ':')) <==> p.len() == 6),
{
    assert forall|i: int| 0 <= i < p.len() implies piece(#[trigger] p[i]) by {
        lemma_group_is_piece(p[i]);
    }
    lemma_joined_apart(p);
    lemma_no_gap(text::join(p, ':'), 0);
    lemma_count_of_groups(p, true);
    if is_ipv4(v) {
        lemma_count_with_address(p, v);
        lemma_no_gap(text::join(p.push(v), ':'), 0);
    }
}

/// Two colons stand for one group of zeros at least, before, between or behind the groups that are
/// written.
pub proof fn law_two_colons_stand_for_zeros(p: Seq<Seq<char>>, q: Seq<Seq<char>>, v: Seq<char>)
    requires
        forall|i: int| 0 <= i < p.len() ==> short_hex(#[trigger] p[i]),
        forall|i: int| 0 <= i < q.len() ==> short_hex(#[trigger] q[i]),
    ensures
        is_ipv6(text::join(p, ':') + seq![':', ':'] + text::join(q, ':')) <==> p.len() + q.len() <= 7,
        is_ipv4(v) ==> (is_ipv6(text::join(p, ':') + seq![':', ':'] + text::join(q.push(v), ':'))
            <==> p.len() + q.len() <= 5),
{
    assert forall|i: int| 0 <= i < p.len() implies piece(#[trigger] p[i]) by {
        lemma_group_is_piece(p[i]);
    }
    lemma_joined_apart(p);
    lemma_count_of_groups(p, false);
    lemma_count_of_groups(q, true);
    lemma_joined_with_gap(text::join(p, ':'), text::join(q, ':'));
    if is_ipv4(v) {
        lemma_count_with_address(q, v);
        lemma_joined_with_gap(text::join(p, ':'), text::join(q.push(v), ':'));
    }
}

} // verus!
