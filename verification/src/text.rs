//! Text as sequences of characters: the operations that the parsers of this crate are built from.
//!
//! Every operation comes twice. The specification function says what the result is on `Seq<char>`;
//! the executable function works on `&[char]` and is proved to compute it.

use vstd::prelude::*;
use vstd::slice::slice_subrange;

verus! {

// ---- conversions -------------------------------------------------------------------------------

/// `String::push` of the standard library: appends one character to the end of the string.
pub assume_specification[ String::push ](s: &mut String, c: char)
    ensures
        final(s)@ == old(s)@.push(c),
;

/// The characters of a string, in order.
pub fn chars_of(s: &str) -> (r: Vec<char>)
    ensures
        r@ == s@,
{
    let mut out: Vec<char> = Vec::new();
    for c in it: s.chars()
        invariant
            it.seq() == s@,
            out@ == s@.take(it.index() as int),
    {
        out.push(c);
        assert(s@.take(it.index() + 1) =~= s@.take(it.index() as int).push(c));
    }
    assert(s@.take(s@.len() as int) =~= s@);
    out
}

/// The string made of the given characters.
pub fn string_of(s: &[char]) -> (r: String)
    ensures
        r@ == s@,
{
    let mut out = String::new();
    let mut i: usize = 0;
    while i < s.len()
        invariant
            i <= s@.len(),
            out@ == s@.take(i as int),
        decreases s@.len() - i,
    {
        out.push(s[i]);
        assert(s@.take(i + 1) =~= s@.take(i as int).push(s@[i as int]));
        i += 1;
    }
    assert(s@.take(s@.len() as int) =~= s@);
    out
}

/// What `String::from_utf8_lossy` makes of bytes that are not UTF-8.
pub uninterp spec fn utf8_replaced(bytes: Seq<u8>) -> Seq<char>;

/// Bytes read as UTF-8, with what is not UTF-8 replaced.
pub open spec fn lossy(bytes: Seq<u8>) -> Seq<char> {
    if vstd::utf8::valid_utf8(bytes) {
        vstd::utf8::decode_utf8(bytes)
    } else {
        utf8_replaced(bytes)
    }
}

/// `String::from_utf8_lossy` of the standard library: the text that the bytes encode where they
/// are UTF-8. Where they are not, the result is a function of the bytes alone, named
/// [`utf8_replaced`]; where the replacement characters go is not stated.
#[verifier::external_body]
pub(crate) fn from_utf8_lossy(bytes: &[u8]) -> (r: String)
    ensures
        vstd::utf8::valid_utf8(bytes@) ==> r@ == vstd::utf8::decode_utf8(bytes@),
        !vstd::utf8::valid_utf8(bytes@) ==> r@ == utf8_replaced(bytes@),
{
    String::from_utf8_lossy(bytes).into_owned()
}

/// The bytes of a text, read back.
pub proof fn lemma_lossy_of_text(s: Seq<char>)
    ensures
        lossy(vstd::utf8::encode_utf8(s)) == s,
{
    vstd::utf8::encode_utf8_valid_utf8(s);
    vstd::utf8::encode_utf8_decode_utf8(s);
}

/// A copy of a string slice.
pub fn string_from(s: &str) -> (r: String)
    ensures
        r@ == s@,
{
    s.to_owned()
}

/// What `format!("{:?}")` gives for a text: the text in quotes, with what cannot be printed escaped.
pub uninterp spec fn quoted(s: Seq<char>) -> Seq<char>;

/// `format!` with `{:?}`. What it gives is a function of the text, named [`quoted`].
#[verifier::external_body]
pub(crate) fn quote(s: &str) -> (r: String)
    ensures
        r@ == quoted(s@),
{
    format!("{:?}", s)
}

/// The views of a vector of character vectors.
pub open spec fn views(v: Seq<Vec<char>>) -> Seq<Seq<char>> {
    Seq::new(v.len(), |i: int| v[i]@)
}

/// The views of a vector of strings.
pub open spec fn string_views(v: Seq<String>) -> Seq<Seq<char>> {
    Seq::new(v.len(), |i: int| v[i]@)
}

// ---- equality ----------------------------------------------------------------------------------

/// Whether two character slices are equal.
pub fn same(a: &[char], b: &[char]) -> (r: bool)
    ensures
        r == (a@ == b@),
{
    if a.len() != b.len() {
        return false;
    }
    let mut i: usize = 0;
    while i < a.len()
        invariant
            i <= a@.len(),
            a@.len() == b@.len(),
            forall|j: int| 0 <= j < i ==> a@[j] == b@[j],
        decreases a@.len() - i,
    {
        if a[i] != b[i] {
            return false;
        }
        i += 1;
    }
    assert(a@ =~= b@);
    true
}

/// Whether a slice holds the characters of a string.
pub fn is_text(s: &[char], t: &str) -> (r: bool)
    ensures
        r == (s@ == t@),
{
    let x = chars_of(t);
    same(s, x.as_slice())
}

/// Whether two strings are equal.
pub fn same_str(a: &str, b: &str) -> (r: bool)
    ensures
        r == (a@ == b@),
{
    let x = chars_of(a);
    let y = chars_of(b);
    same(x.as_slice(), y.as_slice())
}

// ---- ASCII case --------------------------------------------------------------------------------

pub open spec fn is_upper(c: char) -> bool {
    'A' <= c && c <= 'Z'
}

pub open spec fn is_lower(c: char) -> bool {
    'a' <= c && c <= 'z'
}

pub open spec fn is_digit(c: char) -> bool {
    '0' <= c && c <= '9'
}

pub open spec fn is_alnum(c: char) -> bool {
    is_upper(c) || is_lower(c) || is_digit(c)
}

pub open spec fn lower_char(c: char) -> char {
    if is_upper(c) {
        ((c as u8) + 32) as char
    } else {
        c
    }
}

pub open spec fn upper_char(c: char) -> char {
    if is_lower(c) {
        ((c as u8) - 32) as char
    } else {
        c
    }
}

/// ASCII letters in lower case, everything else as it is.
pub open spec fn lower(s: Seq<char>) -> Seq<char> {
    Seq::new(s.len(), |i: int| lower_char(s[i]))
}

/// ASCII letters in upper case, everything else as it is.
pub open spec fn upper(s: Seq<char>) -> Seq<char> {
    Seq::new(s.len(), |i: int| upper_char(s[i]))
}

pub fn to_lower_char(c: char) -> (r: char)
    ensures
        r == lower_char(c),
{
    if 'A' <= c && c <= 'Z' {
        ((c as u8) + 32) as char
    } else {
        c
    }
}

pub fn to_upper_char(c: char) -> (r: char)
    ensures
        r == upper_char(c),
{
    if 'a' <= c && c <= 'z' {
        ((c as u8) - 32) as char
    } else {
        c
    }
}

pub fn to_lower(s: &[char]) -> (r: Vec<char>)
    ensures
        r@ == lower(s@),
{
    let mut out: Vec<char> = Vec::new();
    let mut i: usize = 0;
    while i < s.len()
        invariant
            i <= s@.len(),
            out@.len() == i,
            forall|j: int| 0 <= j < i ==> out@[j] == lower_char(s@[j]),
        decreases s@.len() - i,
    {
        out.push(to_lower_char(s[i]));
        i += 1;
    }
    assert(out@ =~= lower(s@));
    out
}

pub fn to_upper(s: &[char]) -> (r: Vec<char>)
    ensures
        r@ == upper(s@),
{
    let mut out: Vec<char> = Vec::new();
    let mut i: usize = 0;
    while i < s.len()
        invariant
            i <= s@.len(),
            out@.len() == i,
            forall|j: int| 0 <= j < i ==> out@[j] == upper_char(s@[j]),
        decreases s@.len() - i,
    {
        out.push(to_upper_char(s[i]));
        i += 1;
    }
    assert(out@ =~= upper(s@));
    out
}

/// A string in ASCII lower case.
pub fn lower_str(s: &str) -> (r: String)
    ensures
        r@ == lower(s@),
{
    let c = chars_of(s);
    let l = to_lower(c.as_slice());
    string_of(l.as_slice())
}

/// A string in ASCII upper case.
pub fn upper_str(s: &str) -> (r: String)
    ensures
        r@ == upper(s@),
{
    let c = chars_of(s);
    let l = to_upper(c.as_slice());
    string_of(l.as_slice())
}

/// Equality up to ASCII case.
pub fn same_ignoring_case(a: &[char], b: &[char]) -> (r: bool)
    ensures
        r == (lower(a@) == lower(b@)),
{
    let x = to_lower(a);
    let y = to_lower(b);
    same(x.as_slice(), y.as_slice())
}

/// Equality of strings up to ASCII case.
pub fn same_str_ignoring_case(a: &str, b: &str) -> (r: bool)
    ensures
        r == (lower(a@) == lower(b@)),
{
    let x = chars_of(a);
    let y = chars_of(b);
    same_ignoring_case(x.as_slice(), y.as_slice())
}

/// Lower-casing twice is lower-casing once.
pub proof fn lemma_lower_idempotent(s: Seq<char>)
    ensures
        lower(lower(s)) == lower(s),
{
    assert(lower(lower(s)) =~= lower(s));
}

// ---- white space -------------------------------------------------------------------------------

/// The Unicode `White_Space` property.
pub open spec fn is_white(c: char) -> bool {
    ||| '\u{9}' <= c && c <= '\u{d}'
    ||| c == ' '
    ||| c == '\u{85}'
    ||| c == '\u{a0}'
    ||| c == '\u{1680}'
    ||| '\u{2000}' <= c && c <= '\u{200a}'
    ||| c == '\u{2028}'
    ||| c == '\u{2029}'
    ||| c == '\u{202f}'
    ||| c == '\u{205f}'
    ||| c == '\u{3000}'
}

pub fn white(c: char) -> (r: bool)
    ensures
        r == is_white(c),
{
    ('\u{9}' <= c && c <= '\u{d}') || c == ' ' || c == '\u{85}' || c == '\u{a0}' || c == '\u{1680}'
        || ('\u{2000}' <= c && c <= '\u{200a}') || c == '\u{2028}' || c == '\u{2029}' || c
        == '\u{202f}' || c == '\u{205f}' || c == '\u{3000}'
}

/// `s` without the characters at its front that satisfy `p`.
pub open spec fn strip_front(s: Seq<char>, p: spec_fn(char) -> bool) -> Seq<char>
    decreases s.len(),
{
    if s.len() > 0 && p(s[0]) {
        strip_front(s.skip(1), p)
    } else {
        s
    }
}

/// `s` without the characters at its end that satisfy `p`.
pub open spec fn strip_back(s: Seq<char>, p: spec_fn(char) -> bool) -> Seq<char>
    decreases s.len(),
{
    if s.len() > 0 && p(s.last()) {
        strip_back(s.drop_last(), p)
    } else {
        s
    }
}

/// `s` without the white space at both ends.
pub open spec fn trim(s: Seq<char>) -> Seq<char> {
    strip_back(strip_front(s, |c: char| is_white(c)), |c: char| is_white(c))
}

/// `s` without its leading white space.
pub fn skip_white(s: &[char]) -> (r: &[char])
    ensures
        r@ == strip_front(s@, |c: char| is_white(c)),
{
    let mut i: usize = 0;
    assert(s@.skip(0) =~= s@);
    while i < s.len() && white(s[i])
        invariant
            i <= s@.len(),
            strip_front(s@, |c: char| is_white(c)) == strip_front(
                s@.skip(i as int),
                |c: char| is_white(c),
            ),
        decreases s@.len() - i,
    {
        assert(s@.skip(i as int).skip(1) =~= s@.skip(i + 1));
        i += 1;
    }
    slice_subrange(s, i, s.len())
}

/// `s` without its trailing white space.
pub fn drop_white(s: &[char]) -> (r: &[char])
    ensures
        r@ == strip_back(s@, |c: char| is_white(c)),
{
    let mut n: usize = s.len();
    assert(s@.take(n as int) =~= s@);
    while n > 0 && white(s[n - 1])
        invariant
            n <= s@.len(),
            strip_back(s@, |c: char| is_white(c)) == strip_back(
                s@.take(n as int),
                |c: char| is_white(c),
            ),
        decreases n,
    {
        assert(s@.take(n as int).drop_last() =~= s@.take(n - 1));
        n -= 1;
    }
    slice_subrange(s, 0, n)
}

/// `s` without the white space at both ends.
pub fn trimmed(s: &[char]) -> (r: &[char])
    ensures
        r@ == trim(s@),
{
    drop_white(skip_white(s))
}

/// A string without the white space at both ends.
pub fn trim_str(s: &str) -> (r: String)
    ensures
        r@ == trim(s@),
{
    let c = chars_of(s);
    string_of(trimmed(c.as_slice()))
}

/// `s` without the run of `c` at its front.
pub fn skip_char(s: &[char], c: char) -> (r: &[char])
    ensures
        r@ == strip_front(s@, |x: char| x == c),
{
    let mut i: usize = 0;
    assert(s@.skip(0) =~= s@);
    while i < s.len() && s[i] == c
        invariant
            i <= s@.len(),
            strip_front(s@, |x: char| x == c) == strip_front(s@.skip(i as int), |x: char| x == c),
        decreases s@.len() - i,
    {
        assert(s@.skip(i as int).skip(1) =~= s@.skip(i + 1));
        i += 1;
    }
    slice_subrange(s, i, s.len())
}

/// `s` without the run of `c` at its end.
pub fn drop_char(s: &[char], c: char) -> (r: &[char])
    ensures
        r@ == strip_back(s@, |x: char| x == c),
{
    let mut n: usize = s.len();
    assert(s@.take(n as int) =~= s@);
    while n > 0 && s[n - 1] == c
        invariant
            n <= s@.len(),
            strip_back(s@, |x: char| x == c) == strip_back(s@.take(n as int), |x: char| x == c),
        decreases n,
    {
        assert(s@.take(n as int).drop_last() =~= s@.take(n - 1));
        n -= 1;
    }
    slice_subrange(s, 0, n)
}

// ---- searching and splitting -------------------------------------------------------------------

/// The first position of `c`.
pub fn find(s: &[char], c: char) -> (r: Option<usize>)
    ensures
        match r {
            Some(i) => i < s@.len() && s@.index_of_first(c) == Some(i as int) && s@[i as int] == c
                && forall|j: int| 0 <= j < i ==> s@[j] != c,
            None => s@.index_of_first(c) is None && !s@.contains(c),
        },
{
    let mut i: usize = 0;
    proof {
        s@.index_of_first_ensures(c);
    }
    while i < s.len()
        invariant
            i <= s@.len(),
            forall|j: int| 0 <= j < i ==> s@[j] != c,
        decreases s@.len() - i,
    {
        if s[i] == c {
            proof {
                s@.index_of_first_ensures(c);
                assert(s@.contains(c));
            }
            return Some(i);
        }
        i += 1;
    }
    None
}

/// The last position of `c`.
pub fn rfind(s: &[char], c: char) -> (r: Option<usize>)
    ensures
        match r {
            Some(i) => i < s@.len() && s@.index_of_last(c) == Some(i as int) && s@[i as int] == c
                && forall|j: int| i < j < s@.len() ==> s@[j] != c,
            None => s@.index_of_last(c) is None && !s@.contains(c),
        },
{
    let mut n: usize = s.len();
    proof {
        s@.index_of_last_ensures(c);
    }
    while n > 0
        invariant
            n <= s@.len(),
            forall|j: int| n <= j < s@.len() ==> s@[j] != c,
        decreases n,
    {
        if s[n - 1] == c {
            proof {
                s@.index_of_last_ensures(c);
                assert(s@.contains(c));
            }
            return Some(n - 1);
        }
        n -= 1;
    }
    None
}

/// Whether `c` occurs in `s`.
pub fn has_char(s: &[char], c: char) -> (r: bool)
    ensures
        r == s@.contains(c),
{
    match find(s, c) {
        Some(i) => {
            assert(s@.contains(c));
            true
        },
        None => false,
    }
}

/// The parts before and after the first `c`, where there is one.
pub open spec fn split_once(s: Seq<char>, c: char) -> Option<(Seq<char>, Seq<char>)> {
    match s.index_of_first(c) {
        Some(i) => Some((s.take(i), s.skip(i + 1))),
        None => None,
    }
}

/// The parts before and after the last `c`, where there is one.
pub open spec fn rsplit_once(s: Seq<char>, c: char) -> Option<(Seq<char>, Seq<char>)> {
    match s.index_of_last(c) {
        Some(i) => Some((s.take(i), s.skip(i + 1))),
        None => None,
    }
}

/// The views of a pair of slices, where there is one.
pub open spec fn pair_view(r: Option<(&[char], &[char])>) -> Option<(Seq<char>, Seq<char>)> {
    match r {
        Some((a, b)) => Some((a@, b@)),
        None => None,
    }
}

pub fn cut_first(s: &[char], c: char) -> (r: Option<(&[char], &[char])>)
    ensures
        pair_view(r) == split_once(s@, c),
{
    match find(s, c) {
        Some(i) => {
            let n: usize = s.len();
            let a = slice_subrange(s, 0, i);
            let b = slice_subrange(s, i + 1, n);
            assert(a@ =~= s@.take(i as int));
            assert(b@ =~= s@.skip(i + 1));
            Some((a, b))
        },
        None => None,
    }
}

pub fn cut_last(s: &[char], c: char) -> (r: Option<(&[char], &[char])>)
    ensures
        pair_view(r) == rsplit_once(s@, c),
{
    match rfind(s, c) {
        Some(i) => {
            let n: usize = s.len();
            let a = slice_subrange(s, 0, i);
            let b = slice_subrange(s, i + 1, n);
            assert(a@ =~= s@.take(i as int));
            assert(b@ =~= s@.skip(i + 1));
            Some((a, b))
        },
        None => None,
    }
}

/// The pieces of `s` between the occurrences of `c`; one more than there are occurrences.
pub open spec fn split(s: Seq<char>, c: char) -> Seq<Seq<char>>
    decreases s.len(),
{
    proof {
        s.index_of_first_ensures(c);
    }
    match s.index_of_first(c) {
        Some(i) => seq![s.take(i)] + split(s.skip(i + 1), c),
        None => seq![s],
    }
}

/// Splits at every `c`.
pub fn split_at_each(s: &[char], c: char) -> (r: Vec<Vec<char>>)
    ensures
        views(r@) == split(s@, c),
        r@.len() > 0,
{
    let mut out: Vec<Vec<char>> = Vec::new();
    let mut rest: &[char] = s;
    assert(views(out@) + split(s@, c) =~= split(s@, c));
    loop
        invariant_except_break
            views(out@) + split(rest@, c) == split(s@, c),
        ensures
            views(out@) == split(s@, c),
            out@.len() > 0,
        decreases rest@.len(),
    {
        match cut_first(rest, c) {
            Some((a, b)) => {
                let ghost before = views(out@);
                proof {
                    rest@.index_of_first_ensures(c);
                }
                out.push(vstd::slice::slice_to_vec(a));
                assert(views(out@) =~= before.push(a@));
                assert(before.push(a@) + split(b@, c) =~= before + split(rest@, c));
                rest = b;
            },
            None => {
                let ghost before = views(out@);
                out.push(vstd::slice::slice_to_vec(rest));
                assert(views(out@) =~= before.push(rest@));
                assert(before.push(rest@) =~= before + split(rest@, c));
                break;
            },
        }
    }
    out
}

/// The pieces with `c` between them.
pub open spec fn join(parts: Seq<Seq<char>>, c: char) -> Seq<char>
    decreases parts.len(),
{
    if parts.len() == 0 {
        Seq::empty()
    } else if parts.len() == 1 {
        parts[0]
    } else {
        join(parts.drop_last(), c).push(c) + parts.last()
    }
}

/// Joins the pieces with `c` between them.
pub fn join_with(parts: &Vec<Vec<char>>, c: char) -> (r: Vec<char>)
    ensures
        r@ == join(views(parts@), c),
{
    let ghost all = views(parts@);
    let mut out: Vec<char> = Vec::new();
    let mut i: usize = 0;
    assert(join(all.take(0), c) =~= out@);
    while i < parts.len()
        invariant
            i <= parts@.len(),
            all == views(parts@),
            out@ == join(all.take(i as int), c),
        decreases parts@.len() - i,
    {
        assert(all.take(i + 1).drop_last() =~= all.take(i as int));
        assert(all.take(i + 1).last() == parts@[i as int]@);
        if i > 0 {
            out.push(c);
        }
        push_chars(&mut out, parts[i].as_slice());
        assert(out@ =~= join(all.take(i + 1), c));
        i += 1;
    }
    assert(all.take(all.len() as int) =~= all);
    out
}

pub proof fn lemma_join_front(first: Seq<char>, rest: Seq<Seq<char>>, c: char)
    requires
        rest.len() > 0,
    ensures
        join(seq![first] + rest, c) == first.push(c) + join(rest, c),
    decreases rest.len(),
{
    let all = seq![first] + rest;
    assert(all.drop_last() =~= seq![first] + rest.drop_last());
    if rest.len() == 1 {
        assert(all.drop_last() =~= seq![first]);
        assert(join(all.drop_last(), c) == first);
        assert(all.last() == rest[0]);
        assert(join(all, c) =~= first.push(c) + join(rest, c));
    } else {
        lemma_join_front(first, rest.drop_last(), c);
        assert(join(all, c) =~= first.push(c) + join(rest, c));
    }
}

/// Joining the pieces of a split gives the text back.
pub proof fn lemma_join_split(s: Seq<char>, c: char)
    ensures
        split(s, c).len() > 0,
        join(split(s, c), c) == s,
    decreases s.len(),
{
    s.index_of_first_ensures(c);
    match s.index_of_first(c) {
        Some(i) => {
            lemma_join_split(s.skip(i + 1), c);
            lemma_join_front(s.take(i), split(s.skip(i + 1), c), c);
            assert(s.take(i).push(c) + s.skip(i + 1) =~= s);
        },
        None => {},
    }
}

/// Splitting what was joined gives the pieces back, if none of them holds the separator.
pub proof fn lemma_split_join(parts: Seq<Seq<char>>, c: char)
    requires
        parts.len() > 0,
        forall|i: int| 0 <= i < parts.len() ==> !(#[trigger] parts[i]).contains(c),
    ensures
        split(join(parts, c), c) == parts,
    decreases parts.len(),
{
    let s = join(parts, c);
    s.index_of_first_ensures(c);
    if parts.len() == 1 {
        assert(parts =~= seq![parts[0]]);
        assert(!parts[0].contains(c));
    } else {
        let a = parts[0];
        let rest = parts.skip(1);
        assert(parts =~= seq![a] + rest);
        lemma_join_front(a, rest, c);
        assert forall|i: int| 0 <= i < rest.len() implies !(#[trigger] rest[i]).contains(c) by {
            assert(rest[i] == parts[i + 1]);
        }
        lemma_split_join(rest, c);
        assert(s[a.len() as int] == c);
        assert(s.contains(c));
        assert(!a.contains(c));
        let k = s.index_of_first(c)->0;
        if k < a.len() {
            assert(a[k] == c);
        }
        assert(k == a.len());
        assert(s.take(k) =~= a);
        assert(s.skip(k + 1) =~= join(rest, c));
    }
}

/// Whether `s` begins with `prefix`.
pub fn has_prefix(s: &[char], prefix: &[char]) -> (r: bool)
    ensures
        r == prefix@.is_prefix_of(s@),
{
    if prefix.len() > s.len() {
        return false;
    }
    let head = slice_subrange(s, 0, prefix.len());
    same(prefix, head)
}

/// Whether a string begins with another.
pub fn has_prefix_str(s: &str, prefix: &str) -> (r: bool)
    ensures
        r == prefix@.is_prefix_of(s@),
{
    let a = chars_of(s);
    let b = chars_of(prefix);
    has_prefix(a.as_slice(), b.as_slice())
}

/// What follows `prefix` in `s`, where `s` begins with it.
pub open spec fn strip_prefix(s: Seq<char>, prefix: Seq<char>) -> Option<Seq<char>> {
    if prefix.is_prefix_of(s) {
        Some(s.skip(prefix.len() as int))
    } else {
        None
    }
}

pub open spec fn slice_view(r: Option<&[char]>) -> Option<Seq<char>> {
    match r {
        Some(a) => Some(a@),
        None => None,
    }
}

pub fn after_prefix<'a>(s: &'a [char], prefix: &str) -> (r: Option<&'a [char]>)
    ensures
        slice_view(r) == strip_prefix(s@, prefix@),
{
    let p = chars_of(prefix);
    if has_prefix(s, p.as_slice()) {
        let t = slice_subrange(s, p.len(), s.len());
        assert(t@ =~= s@.skip(prefix@.len() as int));
        Some(t)
    } else {
        None
    }
}

/// Whether `s` ends with `suffix`.
pub fn has_suffix(s: &[char], suffix: &[char]) -> (r: bool)
    ensures
        r == suffix@.is_suffix_of(s@),
{
    let n: usize = s.len();
    let k: usize = suffix.len();
    if k > n {
        return false;
    }
    let tail = slice_subrange(s, n - k, n);
    same(suffix, tail)
}

/// Where `sep` first occurs in `s` at or after `from`.
pub open spec fn index_of_text(s: Seq<char>, sep: Seq<char>, from: int) -> Option<int>
    decreases s.len() + 1 - from,
{
    if from < 0 || from + sep.len() > s.len() {
        None
    } else if s.subrange(from, from + sep.len()) == sep {
        Some(from)
    } else {
        index_of_text(s, sep, from + 1)
    }
}

/// The parts of `s` before and after the first `sep`, if it occurs.
pub open spec fn split_once_text(s: Seq<char>, sep: Seq<char>) -> Option<(Seq<char>, Seq<char>)> {
    match index_of_text(s, sep, 0) {
        Some(i) => Some((s.take(i), s.skip((i + sep.len()) as int))),
        None => None,
    }
}

/// Cuts a slice at the first occurrence of a string.
pub fn cut_at_text<'a>(s: &'a [char], sep: &str) -> (r: Option<(&'a [char], &'a [char])>)
    ensures
        pair_view(r) == split_once_text(s@, sep@),
{
    let p = chars_of(sep);
    let n: usize = s.len();
    let k: usize = p.len();
    let mut i: usize = 0;
    while i <= n && k <= n - i
        invariant
            i <= n,
            n == s@.len(),
            k == sep@.len(),
            p@ == sep@,
            index_of_text(s@, sep@, 0) == index_of_text(s@, sep@, i as int),
        decreases n - i,
    {
        let here = slice_subrange(s, i, i + k);
        if same(here, p.as_slice()) {
            let a = slice_subrange(s, 0, i);
            let b = slice_subrange(s, i + k, n);
            assert(a@ =~= s@.take(i as int));
            assert(b@ =~= s@.skip(i + k));
            return Some((a, b));
        }
        assert(i < n) by {
            if i == n {
                assert(here@ =~= p@);
            }
        }
        i += 1;
    }
    None
}

/// `s` without one carriage return at its end.
pub open spec fn without_cr(s: Seq<char>) -> Seq<char> {
    if s.len() > 0 && s.last() == '\r' {
        s.drop_last()
    } else {
        s
    }
}

/// The lines of a text. A line ends with a line feed, which may follow a carriage return; the last
/// one need not end.
pub open spec fn lines(s: Seq<char>) -> Seq<Seq<char>>
    decreases s.len(),
{
    proof {
        s.index_of_first_ensures('\n');
    }
    if s.len() == 0 {
        Seq::empty()
    } else {
        match s.index_of_first('\n') {
            Some(i) => seq![without_cr(s.take(i))] + lines(s.skip(i + 1)),
            None => seq![s],
        }
    }
}

fn drop_cr(s: &[char]) -> (r: &[char])
    ensures
        r@ == without_cr(s@),
{
    let n: usize = s.len();
    if n > 0 && s[n - 1] == '\r' {
        let t = slice_subrange(s, 0, n - 1);
        assert(t@ =~= s@.drop_last());
        t
    } else {
        s
    }
}

/// Splits a text into its lines.
pub fn split_lines(s: &[char]) -> (r: Vec<Vec<char>>)
    ensures
        views(r@) == lines(s@),
{
    let mut out: Vec<Vec<char>> = Vec::new();
    let mut rest: &[char] = s;
    assert(views(out@) + lines(s@) =~= lines(s@));
    while rest.len() > 0
        invariant_except_break
            views(out@) + lines(rest@) == lines(s@),
        ensures
            views(out@) == lines(s@),
        decreases rest@.len(),
    {
        let ghost before = views(out@);
        match cut_first(rest, '\n') {
            Some((a, b)) => {
                proof {
                    rest@.index_of_first_ensures('\n');
                }
                let line = drop_cr(a);
                out.push(vstd::slice::slice_to_vec(line));
                assert(views(out@) =~= before.push(line@));
                assert(before.push(line@) + lines(b@) =~= before + lines(rest@));
                rest = b;
                if rest.len() == 0 {
                    assert(views(out@) + lines(rest@) =~= views(out@));
                }
            },
            None => {
                out.push(vstd::slice::slice_to_vec(rest));
                assert(views(out@) =~= before.push(rest@));
                assert(before.push(rest@) =~= before + lines(rest@));
                break;
            },
        }
    }
    if rest.len() == 0 {
        assert(views(out@) + Seq::<Seq<char>>::empty() =~= views(out@));
    }
    out
}

/// The length of the run at the front of `s` without white space.
pub open spec fn word_len(s: Seq<char>) -> nat
    decreases s.len(),
{
    if s.len() == 0 || is_white(s[0]) {
        0
    } else {
        1 + word_len(s.skip(1))
    }
}

pub proof fn lemma_word_len(s: Seq<char>)
    ensures
        word_len(s) <= s.len(),
        s.len() > 0 && !is_white(s[0]) ==> word_len(s) > 0,
    decreases s.len(),
{
    if s.len() > 0 && !is_white(s[0]) {
        lemma_word_len(s.skip(1));
    }
}

pub proof fn lemma_strip_front_len(s: Seq<char>, p: spec_fn(char) -> bool)
    ensures
        strip_front(s, p).len() <= s.len(),
        strip_front(s, p).len() > 0 ==> !p(strip_front(s, p)[0]),
    decreases s.len(),
{
    if s.len() > 0 && p(s[0]) {
        lemma_strip_front_len(s.skip(1), p);
    }
}

/// The words of a text: its runs without white space.
pub open spec fn words(s: Seq<char>) -> Seq<Seq<char>>
    decreases s.len(),
{
    proof {
        lemma_strip_front_len(s, |c: char| is_white(c));
        lemma_word_len(strip_front(s, |c: char| is_white(c)));
    }
    let t = strip_front(s, |c: char| is_white(c));
    if t.len() == 0 {
        Seq::empty()
    } else {
        seq![t.take(word_len(t) as int)] + words(t.skip(word_len(t) as int))
    }
}

fn first_word_len(s: &[char]) -> (r: usize)
    ensures
        r == word_len(s@),
        r <= s@.len(),
{
    let n: usize = s.len();
    let mut i: usize = 0;
    assert(s@.skip(0) =~= s@);
    while i < n && !white(s[i])
        invariant
            n == s@.len(),
            i <= n,
            word_len(s@) == i + word_len(s@.skip(i as int)),
        decreases n - i,
    {
        assert(s@.skip(i as int).skip(1) =~= s@.skip(i + 1));
        i += 1;
    }
    i
}

/// Splits a text into its words.
pub fn split_words(s: &[char]) -> (r: Vec<Vec<char>>)
    ensures
        views(r@) == words(s@),
{
    let mut out: Vec<Vec<char>> = Vec::new();
    let mut rest: &[char] = s;
    assert(views(out@) + words(s@) =~= words(s@));
    loop
        invariant_except_break
            views(out@) + words(rest@) == words(s@),
        ensures
            views(out@) == words(s@),
        decreases rest@.len(),
    {
        let ghost before = views(out@);
        let t = skip_white(rest);
        proof {
            lemma_strip_front_len(rest@, |c: char| is_white(c));
            lemma_word_len(t@);
        }
        let n: usize = t.len();
        if n == 0 {
            assert(before + Seq::<Seq<char>>::empty() =~= before);
            break;
        }
        let k: usize = first_word_len(t);
        let word = slice_subrange(t, 0, k);
        let tail = slice_subrange(t, k, n);
        assert(word@ =~= t@.take(k as int));
        assert(tail@ =~= t@.skip(k as int));
        out.push(vstd::slice::slice_to_vec(word));
        assert(views(out@) =~= before.push(word@));
        assert(before.push(word@) + words(tail@) =~= before + words(rest@));
        rest = tail;
    }
    out
}

// ---- building ----------------------------------------------------------------------------------

/// Appends a string to a vector of characters.
pub fn push_str(out: &mut Vec<char>, s: &str)
    ensures
        final(out)@ == old(out)@ + s@,
{
    let c = chars_of(s);
    push_chars(out, c.as_slice());
}

/// Appends a slice to a vector of characters.
pub fn push_chars(out: &mut Vec<char>, s: &[char])
    ensures
        final(out)@ == old(out)@ + s@,
{
    let ghost before = out@;
    let mut i: usize = 0;
    assert(before + s@.take(0) =~= before);
    while i < s.len()
        invariant
            i <= s@.len(),
            out@ == before + s@.take(i as int),
        decreases s@.len() - i,
    {
        out.push(s[i]);
        assert(before + s@.take(i + 1) =~= (before + s@.take(i as int)).push(s@[i as int]));
        i += 1;
    }
    assert(s@.take(s@.len() as int) =~= s@);
}

/// The concatenation of two strings.
pub fn concat2(a: &str, b: &str) -> (r: String)
    ensures
        r@ == a@ + b@,
{
    let mut out = string_from(a);
    out.append(b);
    out
}

/// The concatenation of three strings.
pub fn concat3(a: &str, b: &str, c: &str) -> (r: String)
    ensures
        r@ == a@ + b@ + c@,
{
    let mut out = string_from(a);
    out.append(b);
    out.append(c);
    out
}

// ---- decimal numbers ---------------------------------------------------------------------------

pub open spec fn digit_value(c: char) -> nat {
    (c as int - '0' as int) as nat
}

pub open spec fn digit_char(d: int) -> char {
    ('0' as int + d) as char
}

/// The value of a string of decimal digits.
pub open spec fn dec_value(s: Seq<char>) -> nat
    decreases s.len(),
{
    if s.len() == 0 {
        0
    } else {
        10 * dec_value(s.drop_last()) + digit_value(s.last())
    }
}

/// A number in decimal, without leading zeros.
pub open spec fn dec(n: nat) -> Seq<char>
    decreases n,
{
    if n < 10 {
        seq![digit_char(n as int)]
    } else {
        dec(n / 10).push(digit_char((n % 10) as int))
    }
}

pub open spec fn all_digits(s: Seq<char>) -> bool {
    forall|i: int| 0 <= i < s.len() ==> is_digit(s[i])
}

/// `s` without one leading plus sign.
pub open spec fn unsigned_part(s: Seq<char>) -> Seq<char> {
    if s.len() > 0 && s[0] == '+' {
        s.skip(1)
    } else {
        s
    }
}

/// An unsigned decimal number no larger than `max`, with an optional plus sign.
pub open spec fn parse_dec(s: Seq<char>, max: nat) -> Option<nat> {
    let d = unsigned_part(s);
    if d.len() > 0 && all_digits(d) && dec_value(d) <= max {
        Some(dec_value(d))
    } else {
        None
    }
}

proof fn lemma_dec_value_grows(s: Seq<char>, k: int)
    requires
        0 <= k <= s.len(),
    ensures
        dec_value(s.take(k)) <= dec_value(s),
    decreases s.len(),
{
    if k == s.len() {
        assert(s.take(k) =~= s);
    } else {
        lemma_dec_value_grows(s.drop_last(), k);
        assert(s.drop_last().take(k) =~= s.take(k));
    }
}

/// Reads an unsigned decimal number no larger than `max`.
pub fn parse_number(s: &[char], max: u64) -> (r: Option<u64>)
    ensures
        match r {
            Some(n) => parse_dec(s@, max as nat) == Some(n as nat),
            None => parse_dec(s@, max as nat) is None,
        },
{
    let d: &[char] = if s.len() > 0 && s[0] == '+' {
        slice_subrange(s, 1, s.len())
    } else {
        s
    };
    assert(d@ =~= unsigned_part(s@));
    if d.len() == 0 {
        return None;
    }
    let mut acc: u64 = 0;
    let mut i: usize = 0;
    while i < d.len()
        invariant
            i <= d@.len(),
            d@ == unsigned_part(s@),
            all_digits(d@.take(i as int)),
            acc == dec_value(d@.take(i as int)),
            acc <= max,
        decreases d@.len() - i,
    {
        let c: char = d[i];
        assert(d@.take(i + 1).drop_last() =~= d@.take(i as int));
        if !('0' <= c && c <= '9') {
            assert(!is_digit(d@[i as int]));
            return None;
        }
        let v: u64 = (c as u32 - '0' as u32) as u64;
        assert(dec_value(d@.take(i + 1)) == 10 * acc + v);
        if acc > max / 10 || v > max - acc * 10 {
            proof {
                lemma_dec_value_grows(d@, i + 1);
            }
            return None;
        }
        acc = acc * 10 + v;
        assert(all_digits(d@.take(i + 1))) by {
            let t = d@.take(i + 1);
            assert forall|j: int| 0 <= j < t.len() implies is_digit(t[j]) by {
                if j < i {
                    assert(is_digit(d@.take(i as int)[j]));
                }
            }
        }
        i += 1;
    }
    assert(d@.take(d@.len() as int) =~= d@);
    Some(acc)
}

/// Writes a number in decimal.
pub fn dec_chars(n: u64) -> (r: Vec<char>)
    ensures
        r@ == dec(n as nat),
    decreases n,
{
    if n < 10 {
        let mut out: Vec<char> = Vec::new();
        out.push((48 + n as u8) as char);
        assert(out@ =~= dec(n as nat));
        out
    } else {
        let mut out = dec_chars(n / 10);
        out.push((48 + (n % 10) as u8) as char);
        assert(out@ =~= dec(n as nat));
        out
    }
}

/// A number in decimal, as a string.
pub fn dec_string(n: u64) -> (r: String)
    ensures
        r@ == dec(n as nat),
{
    let c = dec_chars(n);
    string_of(c.as_slice())
}

/// The decimal form of a number is a non-empty string of digits with that value.
pub proof fn lemma_dec_round_trip(n: nat)
    ensures
        dec(n).len() > 0,
        all_digits(dec(n)),
        dec_value(dec(n)) == n,
    decreases n,
{
    if n < 10 {
        let d = dec(n);
        assert(d.drop_last() =~= Seq::<char>::empty());
        assert(dec_value(d.drop_last()) == 0);
    } else {
        lemma_dec_round_trip(n / 10);
        let d = dec(n);
        assert(d.drop_last() =~= dec(n / 10));
        assert forall|i: int| 0 <= i < d.len() implies is_digit(d[i]) by {
            if i < dec(n / 10).len() {
                assert(is_digit(dec(n / 10)[i]));
            }
        }
    }
}

/// Reading back the decimal form of a number gives the number.
pub proof fn law_number_round_trip(n: nat, max: nat)
    requires
        n <= max,
    ensures
        parse_dec(dec(n), max) == Some(n),
{
    lemma_dec_round_trip(n);
    assert(is_digit(dec(n)[0]));
}

/// Stripping characters that are no letters does not depend on case.
pub proof fn lemma_strip_lower(s: Seq<char>, p: spec_fn(char) -> bool)
    requires
        forall|c: char| #[trigger] p(lower_char(c)) == p(c),
    ensures
        strip_front(lower(s), p) == lower(strip_front(s, p)),
        strip_back(lower(s), p) == lower(strip_back(s, p)),
    decreases s.len(),
{
    if s.len() > 0 {
        let l = lower(s);
        assert(l[0] == lower_char(s[0]));
        assert(l.last() == lower_char(s.last()));
        assert(p(l[0]) == p(s[0]));
        assert(p(l.last()) == p(s.last()));
        assert(l.skip(1) =~= lower(s.skip(1)));
        assert(l.drop_last() =~= lower(s.drop_last()));
        lemma_strip_lower(s.skip(1), p);
        lemma_strip_lower(s.drop_last(), p);
    }
}

proof fn lemma_strip_back_shape(s: Seq<char>, p: spec_fn(char) -> bool)
    ensures
        strip_back(s, p).len() <= s.len(),
        strip_back(s, p) == s.take(strip_back(s, p).len() as int),
        strip_back(s, p).len() > 0 ==> !p(strip_back(s, p).last()),
    decreases s.len(),
{
    if s.len() > 0 && p(s.last()) {
        let d = s.drop_last();
        lemma_strip_back_shape(d, p);
        assert(d.take(strip_back(d, p).len() as int) =~= s.take(strip_back(d, p).len() as int));
    } else {
        assert(s.take(s.len() as int) =~= s);
    }
}

/// A trimmed text has nothing to trim.
pub proof fn lemma_trim_idempotent(s: Seq<char>)
    ensures
        trim(trim(s)) == trim(s),
{
    let p = |c: char| is_white(c);
    let f = strip_front(s, p);
    let t = strip_back(f, p);
    lemma_strip_front_len(s, p);
    lemma_strip_back_shape(f, p);
    if t.len() > 0 {
        assert(t[0] == f[0]);
        assert(strip_front(t, p) == t);
        assert(strip_back(t, p) == t);
    }
}

/// Trimming a text and taking it in lower case, twice, does no more than once.
pub proof fn lemma_lower_trim_idempotent(s: Seq<char>)
    ensures
        lower(trim(lower(trim(s)))) == lower(trim(s)),
{
    let p = |c: char| is_white(c);
    let t = trim(s);
    lemma_strip_lower(t, p);
    lemma_strip_lower(strip_front(t, p), p);
    lemma_trim_idempotent(s);
    assert(trim(lower(t)) == lower(t));
    lemma_lower_idempotent(t);
}

/// The last part of a text is a piece of its end.
pub proof fn lemma_split_last(s: Seq<char>, c: char)
    ensures
        split(s, c).len() > 0,
        split(s, c).last().len() <= s.len(),
        split(s, c).last() == s.skip(s.len() - split(s, c).last().len()),
    decreases s.len(),
{
    s.index_of_first_ensures(c);
    match s.index_of_first(c) {
        Some(i) => {
            let rest = s.skip(i + 1);
            lemma_split_last(rest, c);
            let l = split(rest, c).last();
            assert(split(s, c).last() == l);
            assert(rest.skip(rest.len() - l.len()) =~= s.skip(s.len() - l.len()));
        },
        None => {
            assert(s.skip(0) =~= s);
        },
    }
}

/// A text without white space at either end is left as it is.
pub proof fn lemma_nothing_to_trim(s: Seq<char>)
    requires
        s.len() > 0 ==> !is_white(s[0]) && !is_white(s.last()),
    ensures
        trim(s) == s,
{
}

/// Two texts with a character between them come apart again where the second one does not hold it.
pub proof fn lemma_rsplit_of_joined(a: Seq<char>, c: char, b: Seq<char>)
    requires
        !b.contains(c),
    ensures
        rsplit_once(a + seq![c] + b, c) == Some((a, b)),
{
    let s = a + seq![c] + b;
    let n = a.len() as int;
    s.index_of_last_ensures(c);
    assert(s[n] == c);
    let i = s.index_of_last(c)->0;
    assert(i == n) by {
        if i > n {
            assert(b[i - n - 1] == c);
        }
    }
    assert(s.take(n) =~= a);
    assert(s.skip(n + 1) =~= b);
}

/// Joining and taking in lower case can change places.
pub proof fn lemma_lower_of_joined(a: Seq<char>, b: Seq<char>)
    ensures
        lower(a + b) == lower(a) + lower(b),
{
    assert(lower(a + b) =~= lower(a) + lower(b));
}

// ---- laws --------------------------------------------------------------------------------------

/// Taking a text in lower case turns each capital ASCII letter into its small one, and nothing else;
/// taking it in upper case does the opposite.
pub proof fn law_case_of_letters(s: Seq<char>, i: int)
    requires
        0 <= i < s.len(),
    ensures
        lower(s).len() == s.len(),
        upper(s).len() == s.len(),
        65 <= s[i] as int <= 90 ==> lower(s)[i] as int == s[i] as int + 32,
        !(65 <= s[i] as int <= 90) ==> lower(s)[i] == s[i],
        97 <= s[i] as int <= 122 ==> upper(s)[i] as int == s[i] as int - 32,
        !(97 <= s[i] as int <= 122) ==> upper(s)[i] == s[i],
{
}

/// White space is what Unicode calls so.
pub proof fn law_white_space(c: char)
    ensures
        is_white(c) <==> {
            let n = c as int;
            ||| 9 <= n <= 13
            ||| n == 32
            ||| n == 0x85
            ||| n == 0xa0
            ||| n == 0x1680
            ||| 0x2000 <= n <= 0x200a
            ||| n == 0x2028
            ||| n == 0x2029
            ||| n == 0x202f
            ||| n == 0x205f
            ||| n == 0x3000
        },
{
}

/// Whether a text is white space alone.
pub open spec fn all_white(s: Seq<char>) -> bool {
    forall|i: int| 0 <= i < s.len() ==> is_white(#[trigger] s[i])
}

proof fn lemma_strip_white_front(a: Seq<char>, m: Seq<char>)
    requires
        all_white(a),
    ensures
        strip_front(a + m, |c: char| is_white(c)) == strip_front(m, |c: char| is_white(c)),
    decreases a.len(),
{
    if a.len() == 0 {
        assert(a + m =~= m);
    } else {
        assert((a + m)[0] == a[0]);
        assert((a + m).skip(1) =~= a.skip(1) + m);
        assert forall|i: int| 0 <= i < a.skip(1).len() implies is_white(#[trigger] a.skip(1)[i]) by {
            assert(a.skip(1)[i] == a[i + 1]);
        }
        lemma_strip_white_front(a.skip(1), m);
    }
}

proof fn lemma_strip_white_back(m: Seq<char>, b: Seq<char>)
    requires
        all_white(b),
    ensures
        strip_back(m + b, |c: char| is_white(c)) == strip_back(m, |c: char| is_white(c)),
    decreases b.len(),
{
    if b.len() == 0 {
        assert(m + b =~= m);
    } else {
        assert((m + b).last() == b[b.len() - 1]);
        assert((m + b).drop_last() =~= m + b.drop_last());
        lemma_strip_white_back(m, b.drop_last());
    }
}

/// Trimming takes away the white space at both ends, all of it and nothing else.
pub proof fn law_trim_takes_the_ends(a: Seq<char>, m: Seq<char>, b: Seq<char>)
    requires
        all_white(a),
        all_white(b),
        m.len() > 0 ==> !is_white(m[0]) && !is_white(m.last()),
    ensures
        trim(a + m + b) == m,
{
    let p = |c: char| is_white(c);
    assert(a + m + b =~= a + (m + b));
    lemma_strip_white_front(a, m + b);
    if m.len() > 0 {
        assert((m + b)[0] == m[0]);
        lemma_strip_white_back(m, b);
        assert(strip_back(m, p) == m);
    } else {
        assert(m + b =~= b + m);
        lemma_strip_white_front(b, m);
        assert(strip_front(m, p) == m);
        assert(strip_back(m, p) == m);
    }
}

/// A text is cut at the first of the characters, or not at all where there is none.
pub proof fn law_cut_at_the_first(a: Seq<char>, c: char, b: Seq<char>)
    requires
        !a.contains(c),
    ensures
        split_once(a + seq![c] + b, c) == Some((a, b)),
        split_once(a, c) is None,
        rsplit_once(a, c) is None,
        split(a + seq![c] + b, c) == seq![a] + split(b, c),
        split(a, c) == seq![a],
{
    let s = a + seq![c] + b;
    let n = a.len() as int;
    s.index_of_first_ensures(c);
    a.index_of_first_ensures(c);
    a.index_of_last_ensures(c);
    assert(s[n] == c);
    let i = s.index_of_first(c)->0;
    assert(i == n) by {
        if i < n {
            assert(a[i] == c);
        }
    }
    assert(s.take(n) =~= a);
    assert(s.skip(n + 1) =~= b);
}

/// What follows a prefix is what was put behind it; a text that does not begin with the prefix has
/// nothing behind it.
pub proof fn law_prefix_comes_off(prefix: Seq<char>, t: Seq<char>, s: Seq<char>)
    ensures
        strip_prefix(prefix + t, prefix) == Some(t),
        strip_prefix(s, prefix) matches Some(u) ==> s == prefix + u,
{
    assert((prefix + t).skip(prefix.len() as int) =~= t);
    if strip_prefix(s, prefix) is Some {
        assert(s =~= prefix + s.skip(prefix.len() as int));
    }
}

/// A line ends with a line feed, with or without a carriage return before it, and the last one need
/// not end.
pub proof fn law_lines_end_with_line_feeds(a: Seq<char>, b: Seq<char>)
    requires
        !a.contains('\n'),
    ensures
        (a.len() == 0 || a.last() != '\r') ==> lines(a + seq!['\n'] + b) == seq![a] + lines(b),
        lines(a + seq!['\r', '\n'] + b) == seq![a] + lines(b),
        a.len() > 0 ==> lines(a) == seq![a],
        lines(Seq::<char>::empty()).len() == 0,
{
    let s = a + seq!['\n'] + b;
    let r = a.push('\r');
    let t = a + seq!['\r', '\n'] + b;
    a.index_of_first_ensures('\n');
    s.index_of_first_ensures('\n');
    t.index_of_first_ensures('\n');
    let n = a.len() as int;
    assert(s[n] == '\n');
    assert(t[n + 1] == '\n');
    let i = s.index_of_first('\n')->0;
    assert(i == n) by {
        if i < n {
            assert(a[i] == '\n');
        }
    }
    let j = t.index_of_first('\n')->0;
    assert(j == n + 1) by {
        if j < n {
            assert(a[j] == '\n');
        }
    }
    assert(s.take(n) =~= a);
    assert(s.skip(n + 1) =~= b);
    assert(t.take(n + 1) =~= r);
    assert(t.skip(n + 2) =~= b);
    assert(r.drop_last() =~= a);
}

proof fn lemma_word_is(w: Seq<char>, rest: Seq<char>)
    requires
        forall|i: int| 0 <= i < w.len() ==> !is_white(#[trigger] w[i]),
        rest.len() > 0 ==> is_white(rest[0]),
    ensures
        word_len(w + rest) == w.len(),
    decreases w.len(),
{
    if w.len() == 0 {
        assert(w + rest =~= rest);
    } else {
        assert((w + rest)[0] == w[0]);
        assert((w + rest).skip(1) =~= w.skip(1) + rest);
        assert forall|i: int| 0 <= i < w.skip(1).len() implies !is_white(#[trigger] w.skip(1)[i]) by {
            assert(w.skip(1)[i] == w[i + 1]);
        }
        lemma_word_is(w.skip(1), rest);
    }
}

/// The words of a text are its runs without white space, in their order.
pub proof fn law_words_are_the_runs(a: Seq<char>, w: Seq<char>, rest: Seq<char>)
    requires
        all_white(a),
        w.len() > 0,
        forall|i: int| 0 <= i < w.len() ==> !is_white(#[trigger] w[i]),
        rest.len() > 0 ==> is_white(rest[0]),
    ensures
        words(a + w + rest) == seq![w] + words(rest),
        words(a).len() == 0,
{
    let p = |c: char| is_white(c);
    let t = w + rest;
    assert(a + w + rest =~= a + t);
    lemma_strip_white_front(a, t);
    assert(t[0] == w[0]);
    assert(strip_front(t, p) == t);
    lemma_word_is(w, rest);
    assert(t.take(w.len() as int) =~= w);
    assert(t.skip(w.len() as int) =~= rest);
    lemma_strip_white_front(a, Seq::<char>::empty());
    assert(a + Seq::<char>::empty() =~= a);
    assert(strip_front(Seq::<char>::empty(), p) == Seq::<char>::empty());
}

/// A number is read from its decimal digits, the last of which counts one and each other ten times
/// as much as it would one place further on; a plus sign may stand in front.
pub proof fn law_digits_count_by_place(s: Seq<char>, d: char, max: nat)
    requires
        forall|i: int| 0 <= i < s.len() ==> '0' <= #[trigger] s[i] && s[i] <= '9',
        '0' <= d && d <= '9',
    ensures
        ({
            let v = (if s.len() == 0 {
                0
            } else {
                dec_value(s)
            }) * 10 + (d as int - 48);
            &&& parse_dec(s.push(d), max) == (if v <= max {
                Some(v as nat)
            } else {
                None
            })
            &&& parse_dec(seq!['+'] + s.push(d), max) == parse_dec(s.push(d), max)
        }),
{
    let t = s.push(d);
    assert(t.drop_last() =~= s);
    assert(t[0] != '+') by {
        if s.len() > 0 {
            assert(t[0] == s[0]);
        }
    }
    assert forall|i: int| 0 <= i < t.len() implies is_digit(t[i]) by {
        if i < s.len() {
            assert(t[i] == s[i]);
        }
    }
    assert((seq!['+'] + t).skip(1) =~= t);
}

/// What holds anything but digits behind an optional plus sign is no number, nor is a text without
/// digits.
pub proof fn law_only_digits_are_numbers(s: Seq<char>, i: int, max: nat)
    requires
        0 <= i < s.len() ==> !('0' <= s[i] && s[i] <= '9') && !(i == 0 && s[i] == '+'),
        0 <= i < s.len() || s.len() == 0,
    ensures
        parse_dec(s, max) is None,
        parse_dec(seq!['+'], max) is None,
{
    assert(seq!['+'].skip(1).len() == 0);
    if s.len() > 0 {
        if s[0] == '+' {
            assert(s.skip(1)[i - 1] == s[i]);
            assert(!is_digit(s.skip(1)[i - 1]));
        } else {
            assert(!is_digit(s[i]));
        }
    }
}

} // verus!
