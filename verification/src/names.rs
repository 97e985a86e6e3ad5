//! The syntax of domain names.

use crate::text;
use vstd::prelude::*;

verus! {

/// A label of a domain: 1 to 63 ASCII letters, digits and hyphens, with no hyphen at either end.
pub open spec fn valid_label(s: Seq<char>) -> bool {
    &&& 1 <= s.len() <= 63
    &&& s[0] != '-'
    &&& s.last() != '-'
    &&& forall|i: int| 0 <= i < s.len() ==> text::is_alnum(#[trigger] s[i]) || s[i] == '-'
}

/// A domain: 1 to 253 characters, labels with dots between them.
pub open spec fn valid_domain(s: Seq<char>) -> bool {
    &&& 1 <= s.len() <= 253
    &&& forall|i: int|
        0 <= i < text::split(s, '.').len() ==> valid_label(#[trigger] text::split(s, '.')[i])
}

fn is_valid_label(s: &[char]) -> (r: bool)
    ensures
        r == valid_label(s@),
{
    let n: usize = s.len();
    if n < 1 || n > 63 || s[0] == '-' || s[n - 1] == '-' {
        return false;
    }
    let mut i: usize = 0;
    while i < n
        invariant
            n == s@.len(),
            i <= n,
            forall|j: int| 0 <= j < i ==> text::is_alnum(#[trigger] s@[j]) || s@[j] == '-',
        decreases n - i,
    {
        let c: char = s[i];
        if !(('A' <= c && c <= 'Z') || ('a' <= c && c <= 'z') || ('0' <= c && c <= '9') || c == '-') {
            assert(!(text::is_alnum(s@[i as int]) || s@[i as int] == '-'));
            return false;
        }
        i += 1;
    }
    true
}

/// Whether `s` is a domain by its syntax.
pub fn is_valid_domain(s: &[char]) -> (r: bool)
    ensures
        r == valid_domain(s@),
{
    let n: usize = s.len();
    if n < 1 || n > 253 {
        return false;
    }
    let labels = text::split_at_each(s, '.');
    let ghost all = text::split(s@, '.');
    let mut i: usize = 0;
    while i < labels.len()
        invariant
            i <= labels@.len(),
            text::views(labels@) == all,
            all == text::split(s@, '.'),
            forall|j: int| 0 <= j < i ==> valid_label(#[trigger] all[j]),
        decreases labels@.len() - i,
    {
        assert(all[i as int] == labels@[i as int]@);
        if !is_valid_label(labels[i].as_slice()) {
            return false;
        }
        i += 1;
    }
    true
}

/// Whether a string is a domain by its syntax.
pub fn is_valid_dns_domain(domain: &str) -> (r: bool)
    ensures
        r == valid_domain(domain@),
{
    let c = text::chars_of(domain);
    is_valid_domain(c.as_slice())
}

/// A domain ends in a letter or a digit.
pub proof fn lemma_ends_in_alnum(s: Seq<char>)
    requires
        valid_domain(s),
    ensures
        s.len() > 0,
        text::is_alnum(s.last()),
{
    let parts = text::split(s, '.');
    text::lemma_split_last(s, '.');
    assert(valid_label(parts[parts.len() - 1]));
    let l = parts.last();
    assert(l[l.len() - 1] == s.last());
}

proof fn lemma_label_characters(s: Seq<char>)
    requires
        forall|i: int|
            0 <= i < text::split(s, '.').len() ==> valid_label(#[trigger] text::split(s, '.')[i]),
    ensures
        forall|i: int|
            0 <= i < s.len() ==> text::is_alnum(#[trigger] s[i]) || s[i] == '-' || s[i] == '.',
    decreases s.len(),
{
    s.index_of_first_ensures('.');
    let parts = text::split(s, '.');
    match s.index_of_first('.') {
        Some(i) => {
            let rest = s.skip(i + 1);
            assert(valid_label(parts[0]));
            assert forall|j: int| 0 <= j < text::split(rest, '.').len() implies valid_label(
                #[trigger] text::split(rest, '.')[j],
            ) by {
                assert(parts[j + 1] == text::split(rest, '.')[j]);
            }
            lemma_label_characters(rest);
            assert forall|k: int| 0 <= k < s.len() implies text::is_alnum(#[trigger] s[k]) || s[k]
                == '-' || s[k] == '.' by {
                if k < i {
                    assert(parts[0][k] == s[k]);
                } else if k > i {
                    assert(rest[k - i - 1] == s[k]);
                }
            }
        },
        None => {
            assert(valid_label(parts[0]));
        },
    }
}

/// A domain has no `@` in it and no white space around it.
pub proof fn lemma_domain_is_clean(s: Seq<char>)
    requires
        valid_domain(s),
    ensures
        !s.contains('@'),
        text::trim(s) == s,
        !text::is_white(s[0]),
        !text::is_white(s.last()),
{
    lemma_label_characters(s);
    assert(text::is_alnum(s[0]) || s[0] == '-' || s[0] == '.');
    assert(text::is_alnum(s[s.len() - 1]) || s[s.len() - 1] == '-' || s[s.len() - 1] == '.');
    if s.contains('@') {
        let i = choose|i: int| 0 <= i < s.len() && s[i] == '@';
        assert(text::is_alnum(s[i]) || s[i] == '-' || s[i] == '.');
    }
    text::lemma_nothing_to_trim(s);
}

// ---- laws --------------------------------------------------------------------------------------

/// Whether a text is a label: 1 to 63 letters, digits and hyphens, a hyphen at neither end.
pub open spec fn reads_as_label(s: Seq<char>) -> bool {
    &&& 1 <= s.len() <= 63
    &&& forall|i: int|
        0 <= i < s.len() ==> {
            let n = #[trigger] s[i] as int;
            48 <= n <= 57 || 65 <= n <= 90 || 97 <= n <= 122 || (n == 45 && 0 < i < s.len() - 1)
        }
}

proof fn lemma_label(s: Seq<char>)
    ensures
        valid_label(s) <==> reads_as_label(s),
{
    if reads_as_label(s) {
        assert(s[0] as int != 45);
        assert(s[s.len() - 1] as int != 45);
        assert forall|i: int| 0 <= i < s.len() implies text::is_alnum(#[trigger] s[i]) || s[i]
            == '-' by {}
    }
    if valid_label(s) {
        assert forall|i: int| 0 <= i < s.len() implies {
            let n = #[trigger] s[i] as int;
            48 <= n <= 57 || 65 <= n <= 90 || 97 <= n <= 122 || (n == 45 && 0 < i < s.len() - 1)
        } by {
            assert(text::is_alnum(s[i]) || s[i] == '-');
        }
    }
}

/// A domain is a label, or a label, a dot and a domain, of at most 253 characters in all.
pub proof fn law_domain_is_made_of_labels(a: Seq<char>, b: Seq<char>)
    requires
        !a.contains('.'),
    ensures
        valid_domain(a) <==> reads_as_label(a),
        a.len() + 1 + b.len() <= 253 ==> (valid_domain(a + seq!['.'] + b) <==> reads_as_label(a)
            && valid_domain(b)),
        a.len() + 1 + b.len() > 253 ==> !valid_domain(a + seq!['.'] + b),
{
    let s = a + seq!['.'] + b;
    text::law_cut_at_the_first(a, '.', b);
    lemma_label(a);
    let pa = seq![a];
    let pb = text::split(b, '.');
    let ps = text::split(s, '.');
    assert(ps =~= seq![a] + pb);
    if valid_label(a) {
        assert forall|i: int| 0 <= i < pa.len() implies valid_label(#[trigger] pa[i]) by {}
    }
    if valid_domain(a) {
        assert(valid_label(text::split(a, '.')[0]));
    }
    if valid_domain(s) {
        assert(valid_label(ps[0]));
        assert forall|i: int| 0 <= i < pb.len() implies valid_label(#[trigger] pb[i]) by {
            assert(ps[i + 1] == pb[i]);
        }
        assert(b.len() >= 1) by {
            if b.len() == 0 {
                assert(!b.contains('.'));
                text::law_cut_at_the_first(b, '.', b);
                assert(pb[0] == b);
                assert(valid_label(pb[0]));
            }
        }
    }
    if valid_label(a) && valid_domain(b) {
        assert forall|i: int| 0 <= i < ps.len() implies valid_label(#[trigger] ps[i]) by {
            if i > 0 {
                assert(ps[i] == pb[i - 1]);
            }
        }
    }
}

} // verus!
