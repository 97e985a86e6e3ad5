//! Forwarded addresses: a foreign address as one local part of the gateway's own domain.
//!
//! The address `local@domain` becomes `escape(local) + "." + escape(domain)`, where a hyphen is
//! doubled and a dot gets a hyphen in front. No escaped component holds a bare dot, so the one bare
//! dot is the separator and the pair can be read back. Addresses are folded to lower case, and
//! [`decode`] accepts exactly the spellings that [`encode`] writes.

use crate::model;
use crate::names;
use crate::text;
use vstd::prelude::*;
use vstd::slice::slice_subrange;

verus! {

/// The longest local part, in octets.
pub const MAX_LOCALPART_LEN: usize = 64;

/// Why an address has no forwarded form.
#[derive(Debug, Clone, PartialEq, Eq)]
pub enum ForwardedAddrError {
    /// The local part is not a dot-atom of letters, digits and `. - _ +`.
    InvalidLocal(String),
    /// The domain is not a domain by its syntax.
    InvalidDomain(String),
    /// The escaped form has this many octets, more than a local part may have.
    TooLong(usize),
}

/// [`ForwardedAddrError`] with its texts as sequences.
pub enum ForwardedAddrErrorModel {
    InvalidLocal(Seq<char>),
    InvalidDomain(Seq<char>),
    TooLong(nat),
}

impl View for ForwardedAddrError {
    type V = ForwardedAddrErrorModel;

    open spec fn view(&self) -> ForwardedAddrErrorModel {
        match *self {
            ForwardedAddrError::InvalidLocal(s) => ForwardedAddrErrorModel::InvalidLocal(s@),
            ForwardedAddrError::InvalidDomain(s) => ForwardedAddrErrorModel::InvalidDomain(s@),
            ForwardedAddrError::TooLong(n) => ForwardedAddrErrorModel::TooLong(n as nat),
        }
    }
}

/// A character that a local part may hold.
pub open spec fn is_local_char(c: char) -> bool {
    text::is_alnum(c) || c == '.' || c == '-' || c == '_' || c == '+'
}

/// A local part: a dot-atom of 1 to 64 characters.
pub open spec fn valid_local(s: Seq<char>) -> bool {
    &&& 1 <= s.len() <= MAX_LOCALPART_LEN
    &&& s[0] != '.'
    &&& s.last() != '.'
    &&& forall|i: int| 0 <= i < s.len() - 1 ==> !(#[trigger] s[i] == '.' && s[i + 1] == '.')
    &&& forall|i: int| 0 <= i < s.len() ==> is_local_char(#[trigger] s[i])
}

/// One character, escaped.
pub open spec fn escape_char(c: char) -> Seq<char> {
    if c == '-' {
        seq!['-', '-']
    } else if c == '.' {
        seq!['-', '.']
    } else {
        seq![c]
    }
}

/// A component, escaped.
pub open spec fn escape(s: Seq<char>) -> Seq<char>
    decreases s.len(),
{
    if s.len() == 0 {
        Seq::empty()
    } else {
        escape_char(s[0]) + escape(s.skip(1))
    }
}

/// The escaped pair, joined.
pub open spec fn joined(local: Seq<char>, domain: Seq<char>) -> Seq<char> {
    escape(local).push('.') + escape(domain)
}

/// The forwarded form of `local@domain`.
pub open spec fn forwarded(local: Seq<char>, domain: Seq<char>) -> Result<
    Seq<char>,
    ForwardedAddrErrorModel,
> {
    let l = text::lower(local);
    let d = text::lower(domain);
    if !valid_local(l) {
        Err(ForwardedAddrErrorModel::InvalidLocal(l))
    } else if !names::valid_domain(d) {
        Err(ForwardedAddrErrorModel::InvalidDomain(d))
    } else if joined(l, d).len() > MAX_LOCALPART_LEN {
        Err(ForwardedAddrErrorModel::TooLong(joined(l, d).len()))
    } else {
        Ok(joined(l, d))
    }
}

fn is_valid_local(s: &[char]) -> (r: bool)
    ensures
        r == valid_local(s@),
{
    let n: usize = s.len();
    if n < 1 || n > MAX_LOCALPART_LEN || s[0] == '.' || s[n - 1] == '.' {
        return false;
    }
    let mut i: usize = 0;
    while i < n
        invariant
            n == s@.len(),
            i <= n,
            forall|j: int|
                0 <= j < i && j < n - 1 ==> !(#[trigger] s@[j] == '.' && s@[j + 1] == '.'),
            forall|j: int| 0 <= j < i ==> is_local_char(#[trigger] s@[j]),
        decreases n - i,
    {
        let c: char = s[i];
        if !(('A' <= c && c <= 'Z') || ('a' <= c && c <= 'z') || ('0' <= c && c <= '9') || c == '.'
            || c == '-' || c == '_' || c == '+') {
            assert(!is_local_char(s@[i as int]));
            return false;
        }
        if i < n - 1 && c == '.' && s[i + 1] == '.' {
            assert(s@[i as int] == '.' && s@[i + 1] == '.');
            return false;
        }
        i += 1;
    }
    true
}

fn escape_into(s: &[char], out: &mut Vec<char>)
    ensures
        final(out)@ == old(out)@ + escape(s@),
{
    let ghost before = out@;
    let mut i: usize = 0;
    assert(s@.skip(0) =~= s@);
    while i < s.len()
        invariant
            i <= s@.len(),
            out@ + escape(s@.skip(i as int)) == before + escape(s@),
        decreases s@.len() - i,
    {
        let c: char = s[i];
        let ghost mid = out@;
        let ghost rest = s@.skip(i as int);
        if c == '-' {
            out.push('-');
            out.push('-');
        } else if c == '.' {
            out.push('-');
            out.push('.');
        } else {
            out.push(c);
        }
        assert(out@ =~= mid + escape_char(c));
        assert(rest.skip(1) =~= s@.skip(i + 1));
        assert(out@ + escape(rest.skip(1)) =~= mid + escape(rest));
        i += 1;
    }
    assert(out@ + Seq::<char>::empty() =~= out@);
}

/// Writes the forwarded form of `local@native_domain`.
pub fn encode(local: &str, native_domain: &str) -> (r: Result<String, ForwardedAddrError>)
    ensures
        model::res_view(r) == forwarded(local@, native_domain@),
{
    let lc = text::chars_of(local);
    let dc = text::chars_of(native_domain);
    let l = text::to_lower(lc.as_slice());
    let d = text::to_lower(dc.as_slice());
    if !is_valid_local(l.as_slice()) {
        return Err(ForwardedAddrError::InvalidLocal(text::string_of(l.as_slice())));
    }
    if !names::is_valid_domain(d.as_slice()) {
        return Err(ForwardedAddrError::InvalidDomain(text::string_of(d.as_slice())));
    }
    let mut out: Vec<char> = Vec::new();
    escape_into(l.as_slice(), &mut out);
    out.push('.');
    escape_into(d.as_slice(), &mut out);
    assert(out@ =~= joined(l@, d@));
    if out.len() > MAX_LOCALPART_LEN {
        return Err(ForwardedAddrError::TooLong(out.len()));
    }
    Ok(text::string_of(out.as_slice()))
}

/// The component at the front of `s`, unescaped, and what follows it: a bare dot ends it. `None`
/// where an escape is broken.
pub open spec fn unescape_front(s: Seq<char>) -> Option<(Seq<char>, Seq<char>)>
    decreases s.len(),
{
    if s.len() == 0 || s[0] == '.' {
        Some((Seq::empty(), s))
    } else if s[0] == '-' {
        if s.len() >= 2 && (s[1] == '-' || s[1] == '.') {
            after_char(s[1], unescape_front(s.skip(2)))
        } else {
            None
        }
    } else {
        after_char(s[0], unescape_front(s.skip(1)))
    }
}

pub open spec fn after_char(c: char, rest: Option<(Seq<char>, Seq<char>)>) -> Option<
    (Seq<char>, Seq<char>),
> {
    match rest {
        Some((a, b)) => Some((seq![c] + a, b)),
        None => None,
    }
}

pub open spec fn after_chars(front: Seq<char>, rest: Option<(Seq<char>, Seq<char>)>) -> Option<
    (Seq<char>, Seq<char>),
> {
    match rest {
        Some((a, b)) => Some((front + a, b)),
        None => None,
    }
}

/// The views of a component and of what follows it.
pub open spec fn component_view(r: Option<(Vec<char>, &[char])>) -> Option<(Seq<char>, Seq<char>)> {
    match r {
        Some((a, b)) => Some((a@, b@)),
        None => None,
    }
}

/// Reads one component up to a bare dot or the end.
fn unescape_component(s: &[char]) -> (r: Option<(Vec<char>, &[char])>)
    ensures
        component_view(r) == unescape_front(s@),
{
    let n: usize = s.len();
    let mut out: Vec<char> = Vec::new();
    let mut i: usize = 0;
    proof {
        assert(s@.skip(0) =~= s@);
        let u = unescape_front(s@);
        if u is Some {
            assert(out@ + (u->0).0 =~= (u->0).0);
        }
    }
    while i < n && s[i] != '.'
        invariant
            n == s@.len(),
            i <= n,
            unescape_front(s@) == after_chars(out@, unescape_front(s@.skip(i as int))),
        decreases n - i,
    {
        let ghost rest = s@.skip(i as int);
        let ghost before = out@;
        if s[i] == '-' {
            if n - i < 2 {
                return None;
            }
            let c: char = s[i + 1];
            if c != '-' && c != '.' {
                return None;
            }
            out.push(c);
            proof {
                assert(rest.skip(2) =~= s@.skip(i + 2));
                let u = unescape_front(rest.skip(2));
                if u is Some {
                    assert(before + (seq![c] + (u->0).0) =~= out@ + (u->0).0);
                }
            }
            i = i + 2;
        } else {
            let c: char = s[i];
            out.push(c);
            proof {
                assert(rest.skip(1) =~= s@.skip(i + 1));
                let u = unescape_front(rest.skip(1));
                if u is Some {
                    assert(before + (seq![c] + (u->0).0) =~= out@ + (u->0).0);
                }
            }
            i = i + 1;
        }
    }
    assert(out@ + Seq::<char>::empty() =~= out@);
    let tail = slice_subrange(s, i, n);
    assert(tail@ =~= s@.skip(i as int));
    Some((out, tail))
}

/// Unescaping undoes escaping, up to a bare dot or the end.
proof fn lemma_unescape_escape(s: Seq<char>, tail: Seq<char>)
    requires
        tail.len() == 0 || tail[0] == '.',
    ensures
        unescape_front(escape(s) + tail) == Some((s, tail)),
    decreases s.len(),
{
    if s.len() == 0 {
        assert(escape(s) + tail =~= tail);
        assert(s =~= Seq::<char>::empty());
    } else {
        let t = escape(s) + tail;
        let rest = escape(s.skip(1)) + tail;
        lemma_unescape_escape(s.skip(1), tail);
        assert(seq![s[0]] + s.skip(1) =~= s);
        if s[0] == '-' || s[0] == '.' {
            assert(t.skip(2) =~= rest);
            assert(t[1] == s[0]);
        } else {
            assert(t.skip(1) =~= rest);
            assert(t[0] == s[0]);
        }
    }
}

/// The two components of a joined pair.
proof fn lemma_joined_components(local: Seq<char>, domain: Seq<char>)
    ensures
        unescape_front(joined(local, domain)) == Some(
            (local, seq!['.'] + escape(domain)),
        ),
        unescape_front(escape(domain)) == Some((domain, Seq::<char>::empty())),
{
    let tail = seq!['.'] + escape(domain);
    assert(joined(local, domain) =~= escape(local) + tail);
    lemma_unescape_escape(local, tail);
    assert(escape(domain) + Seq::<char>::empty() =~= escape(domain));
    lemma_unescape_escape(domain, Seq::empty());
}

/// Whether a pair is in lower case and `spelling` is its forwarded form.
pub open spec fn spells(spelling: Seq<char>, local: Seq<char>, domain: Seq<char>) -> bool {
    &&& local == text::lower(local)
    &&& domain == text::lower(domain)
    &&& forwarded(local, domain) == Ok::<Seq<char>, ForwardedAddrErrorModel>(spelling)
}

/// Reads a forwarded address back. The pair comes back exactly if the text, in lower case, is the
/// forwarded form of a pair.
pub fn decode(gateway_localpart: &str) -> (r: Option<(String, String)>)
    ensures
        match r {
            Some((l, d)) => spells(text::lower(gateway_localpart@), l@, d@),
            None => forall|l: Seq<char>, d: Seq<char>|
                !spells(text::lower(gateway_localpart@), l, d),
        },
{
    let given = text::chars_of(gateway_localpart);
    let s = text::to_lower(given.as_slice());
    let ghost spelling = text::lower(gateway_localpart@);
    proof {
        assert forall|l: Seq<char>, d: Seq<char>| spells(spelling, l, d) implies {
            &&& unescape_front(spelling) == Some((l, seq!['.'] + escape(d)))
            &&& unescape_front(escape(d)) == Some((d, Seq::<char>::empty()))
        } by {
            lemma_joined_components(l, d);
        }
    }
    let (local, tail) = match unescape_component(s.as_slice()) {
        Some(p) => p,
        None => {
            return None;
        },
    };
    if tail.len() == 0 {
        return None;
    }
    let rest = slice_subrange(tail, 1, tail.len());
    assert forall|l: Seq<char>, d: Seq<char>| spells(spelling, l, d) implies rest@ == escape(d) by {
        assert(tail@ == seq!['.'] + escape(d));
        assert(rest@ =~= escape(d));
    }
    let (domain, end) = match unescape_component(rest) {
        Some(p) => p,
        None => {
            return None;
        },
    };
    assert forall|l: Seq<char>, d: Seq<char>| spells(spelling, l, d) implies l == local@ && d
        == domain@ && end@.len() == 0 by {
        assert(rest@ == escape(d));
    }
    if end.len() > 0 {
        return None;
    }
    let l = text::string_of(local.as_slice());
    let d = text::string_of(domain.as_slice());
    match encode(l.as_str(), d.as_str()) {
        Ok(canonical) => {
            let c = text::chars_of(canonical.as_str());
            if text::same(c.as_slice(), s.as_slice()) {
                proof {
                    // The spelling is that of the pair in lower case, which is what was read.
                    lemma_joined_components(text::lower(l@), text::lower(d@));
                    assert(text::lower(l@) == l@);
                    let e = escape(text::lower(d@));
                    assert((seq!['.'] + e).skip(1) =~= e);
                    assert(tail@.skip(1) =~= rest@);
                    assert(text::lower(d@) == d@);
                }
                Some((l, d))
            } else {
                None
            }
        },
        Err(_) => None,
    }
}

// ---- laws --------------------------------------------------------------------------------------

/// Whatever is forwarded reads back as the pair in lower case, and as no other pair.
pub proof fn law_round_trip(
    local: Seq<char>,
    domain: Seq<char>,
    spelling: Seq<char>,
    l: Seq<char>,
    d: Seq<char>,
)
    requires
        forwarded(local, domain) == Ok::<Seq<char>, ForwardedAddrErrorModel>(spelling),
    ensures
        spells(spelling, text::lower(local), text::lower(domain)),
        spells(spelling, l, d) ==> l == text::lower(local) && d == text::lower(domain),
{
    text::lemma_lower_idempotent(local);
    text::lemma_lower_idempotent(domain);
    lemma_joined_components(text::lower(local), text::lower(domain));
    if spells(spelling, l, d) {
        lemma_joined_components(l, d);
        let a = escape(d);
        let b = escape(text::lower(domain));
        assert((seq!['.'] + a).skip(1) =~= a);
        assert((seq!['.'] + b).skip(1) =~= b);
    }
}

/// Two addresses with the same forwarded form are the same address up to case.
pub proof fn law_injective(l1: Seq<char>, d1: Seq<char>, l2: Seq<char>, d2: Seq<char>)
    requires
        forwarded(l1, d1) is Ok,
        forwarded(l1, d1) == forwarded(l2, d2),
    ensures
        text::lower(l1) == text::lower(l2),
        text::lower(d1) == text::lower(d2),
{
    let spelling = forwarded(l1, d1)->Ok_0;
    law_round_trip(l1, d1, spelling, text::lower(l2), text::lower(d2));
    law_round_trip(l2, d2, spelling, text::lower(l1), text::lower(d1));
}

proof fn lemma_escape_lower(s: Seq<char>)
    ensures
        text::lower(escape(text::lower(s))) == escape(text::lower(s)),
    decreases s.len(),
{
    let l = text::lower(s);
    if s.len() == 0 {
        assert(text::lower(escape(l)) =~= escape(l));
    } else {
        lemma_escape_lower(s.skip(1));
        assert(text::lower(s.skip(1)) =~= l.skip(1));
        assert(text::lower(escape(l)) =~= escape(l));
    }
}

/// A forwarded form is in lower case, so folding its case in transit changes nothing.
pub proof fn law_survives_case_folding(local: Seq<char>, domain: Seq<char>, spelling: Seq<char>)
    requires
        forwarded(local, domain) == Ok::<Seq<char>, ForwardedAddrErrorModel>(spelling),
    ensures
        text::lower(spelling) == spelling,
        text::lower(text::upper(spelling)) == spelling,
{
    lemma_escape_lower(local);
    lemma_escape_lower(domain);
    let a = escape(text::lower(local));
    let b = escape(text::lower(domain));
    assert forall|i: int| 0 <= i < spelling.len() implies text::lower_char(spelling[i])
        == spelling[i] by {
        if i < a.len() {
            assert(text::lower(a)[i] == a[i]);
        } else if i > a.len() {
            assert(text::lower(b)[i - a.len() - 1] == b[i - a.len() - 1]);
        }
    }
    assert(text::lower(spelling) =~= spelling);
    assert(text::lower(text::upper(spelling)) =~= spelling);
}

proof fn lemma_escape_has_no_bare_dot(s: Seq<char>, i: int)
    requires
        0 <= i < escape(s).len(),
        escape(s)[i] == '.',
    ensures
        i > 0 && escape(s)[i - 1] == '-',
    decreases s.len(),
{
    let e = escape_char(s[0]);
    if i >= e.len() {
        assert(escape(s)[i] == escape(s.skip(1))[i - e.len()]);
        lemma_escape_has_no_bare_dot(s.skip(1), i - e.len());
        assert(escape(s)[i - 1] == escape(s.skip(1))[i - e.len() - 1]);
    }
}

/// In a forwarded form every dot but the separator is the second half of an escape.
pub proof fn law_separator_is_the_only_bare_dot(
    local: Seq<char>,
    domain: Seq<char>,
    spelling: Seq<char>,
    i: int,
)
    requires
        forwarded(local, domain) == Ok::<Seq<char>, ForwardedAddrErrorModel>(spelling),
        0 <= i < spelling.len(),
        spelling[i] == '.',
        i != escape(text::lower(local)).len(),
    ensures
        i > 0 && spelling[i - 1] == '-',
{
    let a = escape(text::lower(local));
    if i < a.len() {
        lemma_escape_has_no_bare_dot(text::lower(local), i);
    } else {
        lemma_escape_has_no_bare_dot(text::lower(domain), i - a.len() - 1);
    }
}

/// A hyphen doubles, a dot gets a hyphen in front, and every other character is written as it is, one
/// behind the other.
pub proof fn law_escapes(a: Seq<char>, b: Seq<char>, c: char)
    ensures
        escape(a + b) == escape(a) + escape(b),
        escape(seq!['-']) == seq!['-', '-'],
        escape(seq!['.']) == seq!['-', '.'],
        c != '-' && c != '.' ==> escape(seq![c]) == seq![c],
        escape(Seq::<char>::empty()).len() == 0,
    decreases a.len(),
{
    reveal_with_fuel(escape, 2);
    let none = Seq::<char>::empty();
    assert(seq!['-'].skip(1) =~= none);
    assert(seq!['.'].skip(1) =~= none);
    assert(seq![c].skip(1) =~= none);
    assert(seq!['-', '-'] + none =~= seq!['-', '-']);
    assert(seq!['-', '.'] + none =~= seq!['-', '.']);
    assert(seq![c] + none =~= seq![c]);
    if a.len() == 0 {
        assert(a + b =~= b);
        assert(none + escape(b) =~= escape(b));
    } else {
        assert((a + b)[0] == a[0]);
        assert((a + b).skip(1) =~= a.skip(1) + b);
        law_escapes(a.skip(1), b, c);
        assert(escape_char(a[0]) + (escape(a.skip(1)) + escape(b)) =~= escape_char(a[0]) + escape(
            a.skip(1),
        ) + escape(b));
    }
}

/// Whether a text can be the local part of an address: 1 to 64 letters, digits and `. - _ +`, without
/// a dot at either end or beside another.
pub open spec fn reads_as_local(s: Seq<char>) -> bool {
    &&& 1 <= s.len() <= 64
    &&& forall|i: int|
        0 <= i < s.len() ==> {
            let n = #[trigger] s[i] as int;
            ||| 48 <= n <= 57 || 65 <= n <= 90 || 97 <= n <= 122 || n == 45 || n == 95 || n == 43
            ||| n == 46 && 0 < i < s.len() - 1 && s[i + 1] as int != 46
        }
}

/// An address is forwarded exactly if it can be one and its spelling fits a local part of 64
/// characters; the spelling is its local part and its domain in lower case, escaped, with a dot
/// between them. Else the first thing that is wrong is named.
pub proof fn law_which_addresses_are_forwarded(local: Seq<char>, domain: Seq<char>)
    ensures
        ({
            let l = text::lower(local);
            let d = text::lower(domain);
            let s = escape(l) + seq!['.'] + escape(d);
            match forwarded(local, domain) {
                Ok(r) => reads_as_local(local) && names::valid_domain(d) && s.len() <= 64 && r == s,
                Err(ForwardedAddrErrorModel::InvalidLocal(x)) => x == l && !reads_as_local(local),
                Err(ForwardedAddrErrorModel::InvalidDomain(x)) => x == d && reads_as_local(local)
                    && !names::valid_domain(d),
                Err(ForwardedAddrErrorModel::TooLong(n)) => n == s.len() && reads_as_local(local)
                    && names::valid_domain(d) && s.len() > 64,
            }
        }),
{
    let l = text::lower(local);
    let d = text::lower(domain);
    assert(joined(l, d) =~= escape(l) + seq!['.'] + escape(d));
    assert(l.len() == local.len());
    assert forall|i: int| 0 <= i < l.len() implies (l[i] == '.' <==> #[trigger] local[i] == '.') by {}
    if valid_local(l) {
        assert forall|i: int| 0 <= i < local.len() implies {
            let n = #[trigger] local[i] as int;
            ||| 48 <= n <= 57 || 65 <= n <= 90 || 97 <= n <= 122 || n == 45 || n == 95 || n == 43
            ||| n == 46 && 0 < i < local.len() - 1 && local[i + 1] as int != 46
        } by {
            assert(is_local_char(l[i]));
            if local[i] == '.' {
                assert(l[i] == '.');
                assert(i != 0);
                assert(i != l.len() - 1);
                assert(!(l[i] == '.' && l[i + 1] == '.'));
                assert(local[i + 1] != '.');
            }
        }
    }
    if reads_as_local(local) {
        assert forall|i: int| 0 <= i < l.len() implies is_local_char(#[trigger] l[i]) by {
            assert(local[i] == local[i]);
        }
        assert(local[0] != '.');
        assert(local[local.len() - 1] != '.');
        assert forall|i: int| 0 <= i < l.len() - 1 implies !(#[trigger] l[i] == '.' && l[i + 1]
            == '.') by {
            assert(local[i] == '.' ==> local[i + 1] != '.');
            assert(local[i + 1] == '.' <==> l[i + 1] == '.');
        }
    }
}

} // verus!
