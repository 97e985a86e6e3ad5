//! DKIM signatures with `ed25519-sha256` and relaxed canonicalization.
//!
//! Signing and verifying both work on the octets of the message. The signer lists `from` once more
//! than it occurs, so that a field added later breaks the signature; the verifier takes repeated
//! names from the bottom of the message upwards.

use crate::b64;
use crate::bytes;
use crate::identity;
use crate::model;
use crate::rfc5322;
use crate::rfc5322::{Header, HeaderModel, CR, LF};
use crate::text;
use vstd::prelude::*;
use vstd::slice::{slice_subrange, slice_to_vec};

verus! {

// ---- the outside functions ---------------------------------------------------------------------

/// What `sha2::Sha256::digest` gives for some octets.
pub uninterp spec fn sha256(data: Seq<u8>) -> Seq<u8>;

/// The public key of `ed25519_dalek::SigningKey::verifying_key` for the key of a seed.
pub uninterp spec fn dalek_public(seed: Seq<u8>) -> Seq<u8>;

/// The signature of `ed25519_dalek::Signer::sign` with the key of a seed.
pub uninterp spec fn dalek_signature(seed: Seq<u8>, msg: Seq<u8>) -> Seq<u8>;

/// Whether `ed25519_dalek::VerifyingKey::from_bytes` accepts a key.
pub uninterp spec fn dalek_is_key(key: Seq<u8>) -> bool;

/// Whether `ed25519_dalek::Verifier::verify` accepts a signature.
pub uninterp spec fn dalek_accepts(key: Seq<u8>, msg: Seq<u8>, sig: Seq<u8>) -> bool;

/// `sha2::Sha256::digest`. The digest has 32 octets and is a function of the data alone, named
/// [`sha256`].
#[verifier::external_body]
fn sha256_digest(data: &[u8]) -> (r: Vec<u8>)
    ensures
        r@ == sha256(data@),
        r@.len() == 32,
{
    <sha2::Sha256 as sha2::Digest>::digest(data).to_vec()
}

/// `ed25519_dalek::SigningKey::from_bytes`, then `verifying_key`. The key is a function of the seed
/// alone, named [`dalek_public`], and one that `VerifyingKey::from_bytes` accepts.
#[verifier::external_body]
fn dalek_public_of(seed: &[u8; 32]) -> (r: [u8; 32])
    ensures
        r@ == dalek_public(seed@),
        dalek_is_key(r@),
{
    ed25519_dalek::SigningKey::from_bytes(seed).verifying_key().to_bytes()
}

/// `ed25519_dalek::SigningKey::from_bytes`, then `Signer::sign`. The signature has 64 octets and is
/// a function of the seed and the message, named [`dalek_signature`]; `Verifier::verify` accepts it
/// under the public key of the seed.
#[verifier::external_body]
fn dalek_sign(seed: &[u8; 32], msg: &[u8]) -> (r: Vec<u8>)
    ensures
        r@ == dalek_signature(seed@, msg@),
        r@.len() == 64,
        dalek_accepts(dalek_public(seed@), msg@, r@),
{
    let key = ed25519_dalek::SigningKey::from_bytes(seed);
    ed25519_dalek::Signer::sign(&key, msg).to_bytes().to_vec()
}

/// `ed25519_dalek::VerifyingKey::from_bytes`. Whether it accepts is a function of the octets, named
/// [`dalek_is_key`].
#[verifier::external_body]
fn is_public_key(key: &[u8; 32]) -> (r: bool)
    ensures
        r == dalek_is_key(key@),
{
    ed25519_dalek::VerifyingKey::from_bytes(key).is_ok()
}

/// `ed25519_dalek::Verifier::verify` with the key of `VerifyingKey::from_bytes`. Whether it accepts
/// is a function of the key, the message and the signature, named [`dalek_accepts`]; with octets
/// that are no key it accepts nothing.
#[verifier::external_body]
fn dalek_verify(key: &[u8; 32], msg: &[u8], sig: &[u8; 64]) -> (r: bool)
    ensures
        r == (dalek_is_key(key@) && dalek_accepts(key@, msg@, sig@)),
{
    let sig = ed25519_dalek::Signature::from_bytes(sig);
    match ed25519_dalek::VerifyingKey::from_bytes(key) {
        Ok(k) => ed25519_dalek::Verifier::verify(&k, msg, &sig).is_ok(),
        Err(_) => false,
    }
}

// ---- canonicalization --------------------------------------------------------------------------

/// The octets that are not blanks, each run of blanks before one of them as a single space. A run at
/// the front counts only if `lead` is set; a run at the end never does.
pub open spec fn squeeze(s: Seq<u8>, lead: bool) -> Seq<u8>
    decreases s.len(),
{
    if s.len() == 0 {
        Seq::empty()
    } else {
        let t = squeeze(s.drop_last(), lead);
        if rfc5322::is_wsp(s.last()) {
            t
        } else if s.len() >= 2 && rfc5322::is_wsp(s[s.len() - 2]) && (lead || t.len() > 0) {
            t.push(32).push(s.last())
        } else {
            t.push(s.last())
        }
    }
}

/// The concatenation of octet strings.
pub open spec fn flatten(parts: Seq<Seq<u8>>) -> Seq<u8>
    decreases parts.len(),
{
    if parts.len() == 0 {
        Seq::empty()
    } else {
        flatten(parts.drop_last()) + parts.last()
    }
}

/// A value without its line breaks.
pub open spec fn unfold(value: Seq<u8>) -> Seq<u8> {
    flatten(rfc5322::lines(value))
}

/// A header field in relaxed form: the name in lower case, a colon, the unfolded value with its
/// blanks squeezed, and a line break.
pub open spec fn relaxed_header(name: Seq<char>, value: Seq<u8>) -> Seq<u8> {
    vstd::utf8::encode_utf8(text::lower(text::trim(name))).push(58) + squeeze(unfold(value), false)
        + rfc5322::crlf()
}

/// The lines of a body with their blanks squeezed.
pub open spec fn squeezed_lines(ls: Seq<Seq<u8>>) -> Seq<Seq<u8>> {
    Seq::new(ls.len(), |i: int| squeeze(ls[i], true))
}

/// The lines without the empty ones at the end.
pub open spec fn drop_empty_tail(ls: Seq<Seq<u8>>) -> Seq<Seq<u8>>
    decreases ls.len(),
{
    if ls.len() > 0 && ls.last().len() == 0 {
        drop_empty_tail(ls.drop_last())
    } else {
        ls
    }
}

/// The lines, each with a line break.
pub open spec fn with_breaks(ls: Seq<Seq<u8>>) -> Seq<u8>
    decreases ls.len(),
{
    if ls.len() == 0 {
        Seq::empty()
    } else {
        with_breaks(ls.drop_last()) + ls.last() + rfc5322::crlf()
    }
}

/// A body in relaxed form: blanks squeezed in each line, empty lines at the end dropped.
pub open spec fn relaxed_body(body: Seq<u8>) -> Seq<u8> {
    with_breaks(drop_empty_tail(squeezed_lines(rfc5322::lines(body))))
}

fn squeezed(s: &[u8], lead: bool) -> (r: Vec<u8>)
    ensures
        r@ == squeeze(s@, lead),
{
    let n: usize = s.len();
    let mut out: Vec<u8> = Vec::new();
    let mut i: usize = 0;
    assert(s@.take(0) =~= Seq::<u8>::empty());
    while i < n
        invariant
            n == s@.len(),
            i <= n,
            out@ == squeeze(s@.take(i as int), lead),
        decreases n - i,
    {
        let b: u8 = s[i];
        let ghost t = s@.take(i + 1);
        assert(t.drop_last() =~= s@.take(i as int));
        if i > 0 {
            assert(t[t.len() - 2] == s@[i - 1]);
        }
        if !(b == 32 || b == 9) {
            if i > 0 && (s[i - 1] == 32 || s[i - 1] == 9) && (lead || out.len() > 0) {
                out.push(32);
            }
            out.push(b);
        }
        i += 1;
    }
    assert(s@.take(n as int) =~= s@);
    out
}

fn unfolded(value: &[u8]) -> (r: Vec<u8>)
    ensures
        r@ == unfold(value@),
{
    let parts = rfc5322::split_crlf(value);
    let ghost all = rfc5322::byte_views(parts@);
    let mut out: Vec<u8> = Vec::new();
    let mut i: usize = 0;
    assert(out@ =~= flatten(all.take(0)));
    while i < parts.len()
        invariant
            i <= parts@.len(),
            all == rfc5322::byte_views(parts@),
            out@ == flatten(all.take(i as int)),
        decreases parts@.len() - i,
    {
        let ghost before = out@;
        out.extend_from_slice(parts[i].as_slice());
        assert(all.take(i + 1).drop_last() =~= all.take(i as int));
        assert(out@ =~= before + parts@[i as int]@);
        i += 1;
    }
    assert(all.take(all.len() as int) =~= all);
    out
}

/// Appends a line break.
fn append_crlf(out: &mut Vec<u8>)
    ensures
        final(out)@ == old(out)@ + rfc5322::crlf(),
{
    let ghost before = out@;
    out.push(CR);
    out.push(LF);
    assert(out@ =~= before + rfc5322::crlf());
}

/// A header field in relaxed form.
pub fn canonicalize_header(name: &str, value: &[u8]) -> (r: Vec<u8>)
    ensures
        r@ == relaxed_header(name@, value@),
{
    let c = text::chars_of(name);
    let l = text::to_lower(text::trimmed(c.as_slice()));
    let lower = text::string_of(l.as_slice());
    let mut out = slice_to_vec(lower.as_str().as_bytes());
    out.push(58);
    let flat = unfolded(value);
    let v = squeezed(flat.as_slice(), false);
    bytes::push_all(&mut out, v.as_slice());
    append_crlf(&mut out);
    out
}

/// A body in relaxed form.
pub fn canonicalize_body(body: &[u8]) -> (r: Vec<u8>)
    ensures
        r@ == relaxed_body(body@),
{
    let raw = rfc5322::split_crlf(body);
    let ghost all = rfc5322::byte_views(raw@);
    let mut ls: Vec<Vec<u8>> = Vec::new();
    let mut i: usize = 0;
    while i < raw.len()
        invariant
            i <= raw@.len(),
            all == rfc5322::byte_views(raw@),
            ls@.len() == i,
            forall|j: int| 0 <= j < i ==> (#[trigger] ls@[j])@ == squeeze(all[j], true),
        decreases raw@.len() - i,
    {
        ls.push(squeezed(raw[i].as_slice(), true));
        i += 1;
    }
    let ghost sq = rfc5322::byte_views(ls@);
    assert(sq =~= squeezed_lines(all));
    let mut n: usize = ls.len();
    assert(sq.take(n as int) =~= sq);
    while n > 0 && ls[n - 1].len() == 0
        invariant
            n <= ls@.len(),
            sq == rfc5322::byte_views(ls@),
            drop_empty_tail(sq) == drop_empty_tail(sq.take(n as int)),
        decreases n,
    {
        assert(sq.take(n as int).last() == ls@[n - 1]@);
        assert(sq.take(n as int).drop_last() =~= sq.take(n - 1));
        n -= 1;
    }
    proof {
        if n > 0 {
            assert(sq.take(n as int).last() == ls@[n - 1]@);
        }
    }
    let ghost kept = sq.take(n as int);
    assert(drop_empty_tail(sq) == kept);
    let mut out: Vec<u8> = Vec::new();
    let mut k: usize = 0;
    assert(out@ =~= with_breaks(kept.take(0)));
    while k < n
        invariant
            k <= n <= ls@.len(),
            sq == rfc5322::byte_views(ls@),
            kept == sq.take(n as int),
            out@ == with_breaks(kept.take(k as int)),
        decreases n - k,
    {
        bytes::push_all(&mut out, ls[k].as_slice());
        append_crlf(&mut out);
        assert(kept.take(k + 1).drop_last() =~= kept.take(k as int));
        assert(kept.take(k + 1).last() == ls@[k as int]@);
        k += 1;
    }
    assert(kept.take(n as int) =~= kept);
    out
}

// ---- tag lists ---------------------------------------------------------------------------------

/// The characters that are not white space.
pub open spec fn without_white(s: Seq<char>) -> Seq<char>
    decreases s.len(),
{
    if s.len() == 0 {
        Seq::empty()
    } else if text::is_white(s.last()) {
        without_white(s.drop_last())
    } else {
        without_white(s.drop_last()).push(s.last())
    }
}

fn strip_white(s: &[char]) -> (r: Vec<char>)
    ensures
        r@ == without_white(s@),
{
    let n: usize = s.len();
    let mut out: Vec<char> = Vec::new();
    let mut i: usize = 0;
    assert(s@.take(0) =~= Seq::<char>::empty());
    while i < n
        invariant
            n == s@.len(),
            i <= n,
            out@ == without_white(s@.take(i as int)),
        decreases n - i,
    {
        assert(s@.take(i + 1).drop_last() =~= s@.take(i as int));
        if !text::white(s[i]) {
            out.push(s[i]);
        }
        i += 1;
    }
    assert(s@.take(n as int) =~= s@);
    out
}

/// The tag in one part of a tag list: what stands before the first equals sign, trimmed, and what
/// stands behind it, without white space.
pub open spec fn tag_of(part: Seq<char>) -> Option<(Seq<char>, Seq<char>)> {
    match text::split_once(text::trim(part), '=') {
        Some((k, v)) => Some((text::trim(k), without_white(v))),
        None => None,
    }
}

/// The value of the first tag with the given name among the parts of a tag list.
pub open spec fn tag_in(parts: Seq<Seq<char>>, name: Seq<char>) -> Option<Seq<char>>
    decreases parts.len(),
{
    if parts.len() == 0 {
        None
    } else {
        match tag_of(parts[0]) {
            Some((k, v)) => if k == name {
                Some(v)
            } else {
                tag_in(parts.skip(1), name)
            },
            None => tag_in(parts.skip(1), name),
        }
    }
}

/// The value of a tag in a tag list.
pub open spec fn tag(list: Seq<char>, name: Seq<char>) -> Option<Seq<char>> {
    tag_in(text::split(list, ';'), name)
}

fn get_tag(list: &[char], name: &str) -> (r: Option<String>)
    ensures
        model::opt_view(r) == tag(list@, name@),
{
    let parts = text::split_at_each(list, ';');
    let ghost all = text::views(parts@);
    let want = text::chars_of(name);
    let mut i: usize = 0;
    assert(all.skip(0) =~= all);
    while i < parts.len()
        invariant
            i <= parts@.len(),
            all == text::views(parts@),
            all == text::split(list@, ';'),
            want@ == name@,
            tag_in(all, name@) == tag_in(all.skip(i as int), name@),
        decreases parts@.len() - i,
    {
        assert(all.skip(i as int)[0] == parts@[i as int]@);
        assert(all.skip(i as int).skip(1) =~= all.skip(i + 1));
        let part = text::trimmed(parts[i].as_slice());
        match text::cut_first(part, '=') {
            Some((k, v)) => {
                if text::same(text::trimmed(k), want.as_slice()) {
                    let value = strip_white(v);
                    return Some(text::string_of(value.as_slice()));
                }
            },
            None => {},
        }
        i += 1;
    }
    None
}

// ---- the signature field with its signature emptied --------------------------------------------

/// A blank, or part of the line break of a fold.
pub open spec fn is_fold(b: u8) -> bool {
    b == 32 || b == 9 || b == 13 || b == 10
}

/// The first position at or behind `k` that holds no blank.
pub open spec fn skip_wsp(v: Seq<u8>, k: int) -> int
    decreases v.len() - k,
{
    if 0 <= k < v.len() && is_fold(v[k]) {
        skip_wsp(v, k + 1)
    } else {
        k
    }
}

/// The position behind the last octet before `i` that is no blank.
pub open spec fn back_over_wsp(v: Seq<u8>, i: int) -> int
    decreases i,
{
    if 0 < i <= v.len() && is_fold(v[i - 1]) {
        back_over_wsp(v, i - 1)
    } else {
        i
    }
}

/// Whether a tag may begin at `i`: nothing but blanks stands before it, back to the front or to a
/// semicolon.
pub open spec fn tag_starts(v: Seq<u8>, i: int) -> bool {
    let j = back_over_wsp(v, i);
    j <= 0 || v[j - 1] == 59
}

/// Whether the tag `b` stands at `i`.
pub open spec fn b_tag_at(v: Seq<u8>, i: int) -> bool {
    let k = skip_wsp(v, i + 1);
    tag_starts(v, i) && v[i] == 98 && k < v.len() && v[k] == 61
}

/// The next semicolon at or behind `m`, or the end.
pub open spec fn next_semicolon(v: Seq<u8>, m: int) -> int
    decreases v.len() - m,
{
    if 0 <= m < v.len() && v[m] != 59 {
        next_semicolon(v, m + 1)
    } else {
        m
    }
}

/// What follows `i` in the value of a signature field, with the value of the tag `b` removed.
pub open spec fn emptied_from(v: Seq<u8>, i: int) -> Seq<u8>
    decreases v.len() - i,
{
    proof {
        lemma_skip_bounds(v, i + 1);
        lemma_semicolon_bounds(v, skip_wsp(v, i + 1) + 1);
    }
    if !(0 <= i < v.len()) {
        Seq::empty()
    } else if b_tag_at(v, i) {
        seq![98u8, 61u8] + emptied_from(v, next_semicolon(v, skip_wsp(v, i + 1) + 1))
    } else {
        seq![v[i]] + emptied_from(v, i + 1)
    }
}

pub proof fn lemma_skip_bounds(v: Seq<u8>, k: int)
    ensures
        skip_wsp(v, k) >= k,
        k <= v.len() ==> skip_wsp(v, k) <= v.len(),
    decreases v.len() - k,
{
    if 0 <= k < v.len() && is_fold(v[k]) {
        lemma_skip_bounds(v, k + 1);
    }
}

pub proof fn lemma_semicolon_bounds(v: Seq<u8>, m: int)
    ensures
        next_semicolon(v, m) >= m,
        m <= v.len() ==> next_semicolon(v, m) <= v.len(),
    decreases v.len() - m,
{
    if 0 <= m < v.len() && v[m] != 59 {
        lemma_semicolon_bounds(v, m + 1);
    }
}

fn starts_tag(v: &[u8], i: usize) -> (r: bool)
    requires
        i <= v@.len(),
    ensures
        r == tag_starts(v@, i as int),
{
    let mut j: usize = i;
    while j > 0 && (v[j - 1] == 32 || v[j - 1] == 9 || v[j - 1] == 13 || v[j - 1] == 10)
        invariant
            j <= i <= v@.len(),
            back_over_wsp(v@, i as int) == back_over_wsp(v@, j as int),
        decreases j,
    {
        j -= 1;
    }
    j == 0 || v[j - 1] == 59
}

/// The value of a signature field with the value of its tag `b` removed.
pub fn empty_b_value(v: &[u8]) -> (r: Vec<u8>)
    ensures
        r@ == emptied_from(v@, 0),
{
    let n: usize = v.len();
    let mut out: Vec<u8> = Vec::new();
    let mut i: usize = 0;
    assert(out@ + emptied_from(v@, 0) =~= emptied_from(v@, 0));
    while i < n
        invariant
            n == v@.len(),
            i <= n,
            out@ + emptied_from(v@, i as int) == emptied_from(v@, 0),
        decreases n - i,
    {
        let ghost before = out@;
        let mut k: usize = i + 1;
        while k < n && (v[k] == 32 || v[k] == 9 || v[k] == 13 || v[k] == 10)
            invariant
                n == v@.len(),
                i < k <= n,
                skip_wsp(v@, i + 1) == skip_wsp(v@, k as int),
            decreases n - k,
        {
            k += 1;
        }
        if starts_tag(v, i) && v[i] == 98 && k < n && v[k] == 61 {
            out.push(98);
            out.push(61);
            let mut m: usize = k + 1;
            while m < n && v[m] != 59
                invariant
                    n == v@.len(),
                    k < m <= n,
                    next_semicolon(v@, k + 1) == next_semicolon(v@, m as int),
                decreases n - m,
            {
                m += 1;
            }
            assert(out@ + emptied_from(v@, m as int) =~= before + emptied_from(v@, i as int));
            i = m;
        } else {
            out.push(v[i]);
            assert(out@ + emptied_from(v@, i + 1) =~= before + emptied_from(v@, i as int));
            i += 1;
        }
    }
    assert(out@ + Seq::<u8>::empty() =~= out@);
    out
}

// ---- what is signed ----------------------------------------------------------------------------

/// How often `name` occurs among `names`, in any case and up to blanks around them.
pub open spec fn times_listed(names: Seq<Seq<char>>, name: Seq<char>) -> nat
    decreases names.len(),
{
    if names.len() == 0 {
        0
    } else {
        times_listed(names.drop_last(), name) + if text::lower(text::trim(names.last()))
            == text::lower(name) {
            1nat
        } else {
            0nat
        }
    }
}

/// The fields that a list of names binds, in relaxed form. The n-th time that a name is listed it
/// stands for the n-th field of that name from the bottom, or for nothing.
pub open spec fn bound_fields(h: Seq<HeaderModel>, names: Seq<Seq<char>>) -> Seq<u8>
    decreases names.len(),
{
    if names.len() == 0 {
        Seq::empty()
    } else {
        let rest = names.drop_last();
        let key = text::trim(names.last());
        bound_fields(h, rest) + (match rfc5322::nth_from_bottom(h, key, times_listed(rest, key)) {
            Some(f) => relaxed_header(f.name, f.value),
            None => Seq::empty(),
        })
    }
}

/// `b` without one line break at its end.
pub open spec fn without_final_break(b: Seq<u8>) -> Seq<u8> {
    if rfc5322::crlf_at(b, b.len() - 2) {
        b.take(b.len() - 2)
    } else {
        b
    }
}

/// The octets that a signature is over: the bound fields, then the signature field itself with an
/// empty signature and without a line break.
pub open spec fn signing_input(h: Seq<HeaderModel>, names: Seq<Seq<char>>, value: Seq<u8>) -> Seq<
    u8,
> {
    bound_fields(h, names) + without_final_break(relaxed_header("DKIM-Signature"@, value))
}

fn count_listed(names: &Vec<Vec<char>>, upto: usize, name: &[char]) -> (r: usize)
    requires
        upto <= names@.len(),
    ensures
        r == times_listed(text::views(names@).take(upto as int), name@),
        r <= upto,
{
    let ghost all = text::views(names@);
    let mut n: usize = 0;
    let mut i: usize = 0;
    while i < upto
        invariant
            i <= upto <= names@.len(),
            all == text::views(names@),
            n == times_listed(all.take(i as int), name@),
            n <= i,
        decreases upto - i,
    {
        assert(all.take(i + 1).drop_last() =~= all.take(i as int));
        assert(all.take(i + 1).last() == names@[i as int]@);
        if text::same_ignoring_case(text::trimmed(names[i].as_slice()), name) {
            n += 1;
        }
        i += 1;
    }
    n
}

/// The fields that a list of names binds, in relaxed form.
fn assemble_signed_headers(headers: &Vec<Header>, names: &Vec<Vec<char>>) -> (r: Vec<u8>)
    ensures
        r@ == bound_fields(rfc5322::header_views(headers@), text::views(names@)),
{
    let ghost h = rfc5322::header_views(headers@);
    let ghost all = text::views(names@);
    let mut out: Vec<u8> = Vec::new();
    let mut k: usize = 0;
    assert(out@ =~= bound_fields(h, all.take(0)));
    while k < names.len()
        invariant
            k <= names@.len(),
            h == rfc5322::header_views(headers@),
            all == text::views(names@),
            out@ == bound_fields(h, all.take(k as int)),
        decreases names@.len() - k,
    {
        assert(all.take(k + 1).drop_last() =~= all.take(k as int));
        assert(all.take(k + 1).last() == names@[k as int]@);
        let key = text::trimmed(names[k].as_slice());
        let seen: usize = count_listed(names, k, key);
        let ghost before = out@;
        match rfc5322::find_nth_header(headers, key, seen) {
            Some(f) => {
                let line = canonicalize_header(f.name.as_str(), f.value.as_slice());
                bytes::push_all(&mut out, line.as_slice());
            },
            None => {
                assert(before + Seq::<u8>::empty() =~= before);
            },
        }
        k += 1;
    }
    assert(all.take(all.len() as int) =~= all);
    out
}

fn strip_final_crlf(b: &[u8]) -> (r: &[u8])
    ensures
        r@ == without_final_break(b@),
{
    let n: usize = b.len();
    if n >= 2 && b[n - 2] == CR && b[n - 1] == LF {
        let t = slice_subrange(b, 0, n - 2);
        assert(t@ =~= b@.take(n - 2));
        t
    } else {
        b
    }
}

fn build_signing_input(headers: &Vec<Header>, names: &Vec<Vec<char>>, value: &[u8]) -> (r: Vec<u8>)
    ensures
        r@ == signing_input(rfc5322::header_views(headers@), text::views(names@), value@),
{
    let mut out = assemble_signed_headers(headers, names);
    let line = canonicalize_header("DKIM-Signature", value);
    bytes::push_all(&mut out, strip_final_crlf(line.as_slice()));
    out
}

// ---- keys --------------------------------------------------------------------------------------

/// A signing key for one domain, published under one selector.
#[derive(Debug)]
pub struct DkimKey {
    domain: String,
    selector: String,
    seed: [u8; 32],
}

/// A [`DkimKey`] as a value.
pub struct DkimKeyModel {
    pub domain: Seq<char>,
    pub selector: Seq<char>,
    pub seed: Seq<u8>,
}

impl View for DkimKey {
    type V = DkimKeyModel;

    closed spec fn view(&self) -> DkimKeyModel {
        DkimKeyModel { domain: self.domain@, selector: self.selector@, seed: self.seed@ }
    }
}

impl DkimKey {
    /// The key of a seed, for a domain and a selector.
    pub fn from_seed(domain: &str, selector: &str, seed: &[u8; 32]) -> (r: Self)
        ensures
            r@ == (DkimKeyModel { domain: domain@, selector: selector@, seed: seed@ }),
    {
        DkimKey {
            domain: text::string_from(domain),
            selector: text::string_from(selector),
            seed: *seed,
        }
    }

    /// The public key in base64, as it stands in the tag `p` of the published record.
    pub fn public_p_tag(&self) -> (r: String)
        ensures
            r@ == b64::encoding(dalek_public(self@.seed)),
    {
        let p = self.public_bytes();
        b64::encode(p.as_slice())
    }

    /// The public key.
    pub fn public_bytes(&self) -> (r: [u8; 32])
        ensures
            r@ == dalek_public(self@.seed),
            dalek_is_key(r@),
    {
        dalek_public_of(&self.seed)
    }

    pub fn domain(&self) -> (r: &str)
        ensures
            r@ == self@.domain,
    {
        self.domain.as_str()
    }

    pub fn selector(&self) -> (r: &str)
        ensures
            r@ == self@.selector,
    {
        self.selector.as_str()
    }
}

// ---- signing -----------------------------------------------------------------------------------

/// The names of the fields that are signed where they are present.
pub open spec fn signed_names() -> Seq<Seq<char>> {
    seq!["from"@, "to"@, "subject"@, "date"@, "message-id"@]
}

/// Those of the names that a header block has a field for.
pub open spec fn present(h: Seq<HeaderModel>, names: Seq<Seq<char>>) -> Seq<Seq<char>>
    decreases names.len(),
{
    if names.len() == 0 {
        Seq::empty()
    } else if rfc5322::last_named(h, names.last()) is Some {
        present(h, names.drop_last()).push(names.last())
    } else {
        present(h, names.drop_last())
    }
}

/// How often `from` is listed behind the present names, so that it is listed once more than the
/// given number of times that it occurs.
pub open spec fn extra_from(occurs: nat) -> nat {
    if occurs == 0 {
        1
    } else {
        occurs
    }
}

/// `names` with `from` listed `n` more times.
pub open spec fn with_from(names: Seq<Seq<char>>, n: nat) -> Seq<Seq<char>>
    decreases n,
{
    if n == 0 {
        names
    } else {
        with_from(names, (n - 1) as nat).push("from"@)
    }
}

/// The names that a signature lists: the present ones, and `from` once more than it occurs.
pub open spec fn listed_names(h: Seq<HeaderModel>) -> Seq<Seq<char>> {
    with_from(present(h, signed_names()), extra_from(rfc5322::count_named(h, "from"@)))
}

/// A tag as it is written.
pub open spec fn tag_text(t: (Seq<char>, Seq<char>)) -> Seq<char> {
    t.0.push('=') + t.1
}

/// The parts of a tag list: each but the first has a space in front.
pub open spec fn tag_parts(tags: Seq<(Seq<char>, Seq<char>)>) -> Seq<Seq<char>> {
    Seq::new(
        tags.len(),
        |i: int|
            if i == 0 {
                tag_text(tags[0])
            } else {
                seq![' '] + tag_text(tags[i])
            },
    )
}

/// A tag list as it is written: the parts with semicolons between them.
pub open spec fn tag_list(tags: Seq<(Seq<char>, Seq<char>)>) -> Seq<char> {
    text::join(tag_parts(tags), ';')
}

/// The tags of a signature field, given the body hash and the signature in base64.
pub open spec fn signature_tags(
    key: DkimKeyModel,
    t: u64,
    names: Seq<Seq<char>>,
    bh: Seq<char>,
    b: Seq<char>,
) -> Seq<(Seq<char>, Seq<char>)> {
    seq![
        ("v"@, "1"@),
        ("a"@, "ed25519-sha256"@),
        ("c"@, "relaxed/relaxed"@),
        ("d"@, key.domain),
        ("s"@, key.selector),
        ("t"@, text::dec(t as nat)),
        ("h"@, text::join(names, ':')),
        ("bh"@, bh),
        ("b"@, b),
    ]
}

/// The signature field, given its value with an empty signature, and the signature.
pub open spec fn signature_field(base: Seq<char>, sig: Seq<u8>) -> Seq<char> {
    "DKIM-Signature: "@ + base + b64::encoding(sig) + "\r\n"@
}

/// The fields of a message.
pub open spec fn message_fields(message: Seq<u8>) -> Seq<HeaderModel> {
    rfc5322::fields_of(rfc5322::head_of(message))
}

/// The value of the signature field for a message with an empty signature, given the digest of its
/// body.
pub open spec fn base_for(key: DkimKeyModel, message: Seq<u8>, t: u64, body_digest: Seq<u8>) -> Seq<
    char,
> {
    tag_list(
        signature_tags(
            key,
            t,
            listed_names(message_fields(message)),
            b64::encoding(body_digest),
            Seq::empty(),
        ),
    )
}

/// What the signature for a message is over, given the digest of its body.
pub open spec fn input_for(key: DkimKeyModel, message: Seq<u8>, t: u64, body_digest: Seq<u8>) -> Seq<
    u8,
> {
    signing_input(
        message_fields(message),
        listed_names(message_fields(message)),
        vstd::utf8::encode_utf8(base_for(key, message, t, body_digest)),
    )
}

/// The digest of the body of a message in relaxed form.
pub open spec fn body_digest_of(message: Seq<u8>) -> Seq<u8> {
    sha256(relaxed_body(rfc5322::body_of(message)))
}

fn push_if_present(out: &mut Vec<Vec<char>>, headers: &Vec<Header>, name: &str)
    ensures
        text::views(final(out)@) == (if rfc5322::last_named(
            rfc5322::header_views(headers@),
            name@,
        ) is Some {
            text::views(old(out)@).push(name@)
        } else {
            text::views(old(out)@)
        }),
{
    let ghost before = text::views(out@);
    if rfc5322::find_header(headers, name).is_some() {
        out.push(text::chars_of(name));
        assert(text::views(out@) =~= before.push(name@));
    }
}

fn names_to_sign(headers: &Vec<Header>) -> (r: Vec<Vec<char>>)
    ensures
        text::views(r@) == listed_names(rfc5322::header_views(headers@)),
{
    let mut out: Vec<Vec<char>> = Vec::new();
    let ghost h = rfc5322::header_views(headers@);
    proof {
        let n = signed_names();
        assert(text::views(out@) =~= Seq::<Seq<char>>::empty());
        assert(n.take(5) =~= n);
        assert(n.take(5).drop_last() =~= n.take(4));
        assert(n.take(4).drop_last() =~= n.take(3));
        assert(n.take(3).drop_last() =~= n.take(2));
        assert(n.take(2).drop_last() =~= n.take(1));
        assert(n.take(1).drop_last() =~= n.take(0));
        assert(present(h, n.take(0)) =~= Seq::<Seq<char>>::empty());
    }
    push_if_present(&mut out, headers, "from");
    assert(text::views(out@) == present(h, signed_names().take(1)));
    push_if_present(&mut out, headers, "to");
    assert(text::views(out@) == present(h, signed_names().take(2)));
    push_if_present(&mut out, headers, "subject");
    assert(text::views(out@) == present(h, signed_names().take(3)));
    push_if_present(&mut out, headers, "date");
    assert(text::views(out@) == present(h, signed_names().take(4)));
    push_if_present(&mut out, headers, "message-id");
    assert(text::views(out@) == present(h, signed_names().take(5)));
    let ghost p = text::views(out@);
    let occurs: usize = rfc5322::count_headers(headers, "from");
    let extra: usize = if occurs == 0 {
        1
    } else {
        occurs
    };
    let mut k: usize = 0;
    while k < extra
        invariant
            k <= extra,
            text::views(out@) == with_from(p, k as nat),
        decreases extra - k,
    {
        let ghost before = text::views(out@);
        out.push(text::chars_of("from"));
        assert(text::views(out@) =~= before.push("from"@));
        k += 1;
    }
    out
}

fn push_tag(out: &mut Vec<Vec<char>>, key: &str, value: &[char])
    ensures
        text::views(final(out)@) == text::views(old(out)@).push(
            if old(out)@.len() == 0 {
                tag_text((key@, value@))
            } else {
                seq![' '] + tag_text((key@, value@))
            },
        ),
{
    let ghost before = text::views(out@);
    let mut part: Vec<char> = Vec::new();
    if out.len() > 0 {
        part.push(' ');
    }
    text::push_str(&mut part, key);
    part.push('=');
    text::push_chars(&mut part, value);
    let ghost p = part@;
    assert(p =~= (if out@.len() == 0 {
        tag_text((key@, value@))
    } else {
        seq![' '] + tag_text((key@, value@))
    }));
    out.push(part);
    assert(text::views(out@) =~= before.push(p));
}

/// The value of a signature field with an empty signature, and what the signature is over, given
/// the digest of the body.
pub fn prepare_signature(key: &DkimKey, message: &[u8], t: u64, body_digest: &[u8]) -> (r: (
    String,
    Vec<u8>,
))
    ensures
        r.0@ == base_for(key@, message@, t, body_digest@),
        r.1@ == input_for(key@, message@, t, body_digest@),
{
    let (headers, _) = rfc5322::split_headers_body(message);
    let names = names_to_sign(&headers);
    let bh = b64::encode(body_digest);
    let one = text::chars_of("1");
    let alg = text::chars_of("ed25519-sha256");
    let form = text::chars_of("relaxed/relaxed");
    let domain = text::chars_of(key.domain.as_str());
    let selector = text::chars_of(key.selector.as_str());
    let time = text::dec_chars(t);
    let list = text::join_with(&names, ':');
    let hash = text::chars_of(bh.as_str());
    let mut parts: Vec<Vec<char>> = Vec::new();
    push_tag(&mut parts, "v", one.as_slice());
    push_tag(&mut parts, "a", alg.as_slice());
    push_tag(&mut parts, "c", form.as_slice());
    push_tag(&mut parts, "d", domain.as_slice());
    push_tag(&mut parts, "s", selector.as_slice());
    push_tag(&mut parts, "t", time.as_slice());
    push_tag(&mut parts, "h", list.as_slice());
    push_tag(&mut parts, "bh", hash.as_slice());
    let none: Vec<char> = Vec::new();
    push_tag(&mut parts, "b", none.as_slice());
    proof {
        let tags = signature_tags(
            key@,
            t,
            listed_names(message_fields(message@)),
            b64::encoding(body_digest@),
            Seq::empty(),
        );
        assert(none@ =~= Seq::<char>::empty());
        assert(text::views(parts@) =~= tag_parts(tags));
    }
    let base = text::join_with(&parts, ';');
    let base = text::string_of(base.as_slice());
    let input = build_signing_input(&headers, &names, base.as_str().as_bytes());
    (base, input)
}

/// The signature field, given its value with an empty signature, and the signature.
pub fn finish_signature(base: &str, sig: &[u8]) -> (r: String)
    ensures
        r@ == signature_field(base@, sig@),
{
    let b = b64::encode(sig);
    let mut out = text::concat3("DKIM-Signature: ", base, b.as_str());
    out.append("\r\n");
    out
}

/// The signature field that a key gives a message at time `t`.
pub open spec fn signed_field(key: DkimKeyModel, message: Seq<u8>, t: u64) -> Seq<char> {
    let d = body_digest_of(message);
    signature_field(
        base_for(key, message, t, d),
        dalek_signature(key.seed, sha256(input_for(key, message, t, d))),
    )
}

/// Signs a message at time `t`, in seconds. The result is the signature field, to be put in front of
/// the message.
pub fn sign(key: &DkimKey, message: &[u8], t: u64) -> (r: String)
    ensures
        r@ == signed_field(key@, message@, t),
        ({
            let d = body_digest_of(message@);
            let sig = dalek_signature(key@.seed, sha256(input_for(key@, message@, t, d)));
            &&& sig.len() == 64
            &&& d.len() == 32
            &&& dalek_accepts(
                dalek_public(key@.seed),
                sha256(input_for(key@, message@, t, d)),
                sig,
            )
        }),
{
    let (_, body) = rfc5322::split_headers_body(message);
    let canonical = canonicalize_body(body);
    let body_digest = sha256_digest(canonical.as_slice());
    let (base, input) = prepare_signature(key, message, t, body_digest.as_slice());
    let digest = sha256_digest(input.as_slice());
    let sig = dalek_sign(&key.seed, digest.as_slice());
    finish_signature(base.as_str(), sig.as_slice())
}

// ---- verifying ---------------------------------------------------------------------------------

/// Why a signature does not verify.
#[derive(Debug, Clone, Copy, PartialEq, Eq, Structural)]
pub enum DkimError {
    NoSignature,
    UnsupportedAlgorithm,
    UnsupportedCanonicalization,
    /// The signature does not cover the field `From`.
    FromFieldNotSigned,
    MalformedSignature,
    BodyHashMismatch,
    BadPublicKey,
    SignatureInvalid,
}

impl View for DkimError {
    type V = DkimError;

    open spec fn view(&self) -> DkimError {
        *self
    }
}

/// The names in the list of a tag `h`, trimmed, without the empty ones.
pub open spec fn names_in(parts: Seq<Seq<char>>) -> Seq<Seq<char>>
    decreases parts.len(),
{
    if parts.len() == 0 {
        Seq::empty()
    } else if text::trim(parts.last()).len() == 0 {
        names_in(parts.drop_last())
    } else {
        names_in(parts.drop_last()).push(text::trim(parts.last()))
    }
}

/// Whether `from` is among the names, in any case.
pub open spec fn lists_from(names: Seq<Seq<char>>) -> bool {
    exists|i: int| 0 <= i < names.len() && text::lower(#[trigger] names[i]) == text::lower("from"@)
}

/// What a signature field claims to be over and its signature in base64, given the digest of the
/// body; or the first check that the field fails.
pub open spec fn claimed(h: Seq<HeaderModel>, body_digest: Seq<u8>) -> Result<
    (Seq<u8>, Seq<char>),
    DkimError,
> {
    match rfc5322::last_named(h, "dkim-signature"@) {
        None => Err(DkimError::NoSignature),
        Some(f) => {
            let list = text::lossy(f.value);
            if tag(list, "a"@) != Some("ed25519-sha256"@) {
                Err(DkimError::UnsupportedAlgorithm)
            } else if tag(list, "c"@) is Some && tag(list, "c"@) != Some("relaxed/relaxed"@) {
                Err(DkimError::UnsupportedCanonicalization)
            } else if tag(list, "bh"@) is None {
                Err(DkimError::MalformedSignature)
            } else if tag(list, "bh"@) != Some(b64::encoding(body_digest)) {
                Err(DkimError::BodyHashMismatch)
            } else if tag(list, "h"@) is None || tag(list, "b"@) is None {
                Err(DkimError::MalformedSignature)
            } else {
                let names = names_in(text::split(tag(list, "h"@)->0, ':'));
                if !lists_from(names) {
                    Err(DkimError::FromFieldNotSigned)
                } else {
                    Ok((signing_input(h, names, emptied_from(f.value, 0)), tag(list, "b"@)->0))
                }
            }
        },
    }
}

/// The signature that a base64 text holds: 64 octets.
pub open spec fn signature_in(b: Seq<char>) -> Option<Seq<u8>> {
    match b64::decoding(b) {
        Some(s) => if s.len() == 64 {
            Some(s)
        } else {
            None
        },
        None => None,
    }
}

/// The outcome of verifying a message under a public key.
pub open spec fn verification(message: Seq<u8>, key: Seq<u8>) -> Result<(), DkimError> {
    match claimed(message_fields(message), body_digest_of(message)) {
        Err(e) => Err(e),
        Ok((input, b)) => if key.len() != 32 || !dalek_is_key(key) {
            Err(DkimError::BadPublicKey)
        } else {
            match signature_in(b) {
                None => Err(DkimError::MalformedSignature),
                Some(sig) => if dalek_accepts(key, sha256(input), sig) {
                    Ok(())
                } else {
                    Err(DkimError::SignatureInvalid)
                },
            }
        },
    }
}

fn read_names(h: &str) -> (r: Vec<Vec<char>>)
    ensures
        text::views(r@) == names_in(text::split(h@, ':')),
{
    let c = text::chars_of(h);
    let parts = text::split_at_each(c.as_slice(), ':');
    let ghost all = text::views(parts@);
    let mut out: Vec<Vec<char>> = Vec::new();
    let mut i: usize = 0;
    assert(text::views(out@) =~= names_in(all.take(0)));
    while i < parts.len()
        invariant
            i <= parts@.len(),
            all == text::views(parts@),
            text::views(out@) == names_in(all.take(i as int)),
        decreases parts@.len() - i,
    {
        assert(all.take(i + 1).drop_last() =~= all.take(i as int));
        assert(all.take(i + 1).last() == parts@[i as int]@);
        let name = text::trimmed(parts[i].as_slice());
        let ghost before = text::views(out@);
        if name.len() > 0 {
            out.push(slice_to_vec(name));
            assert(text::views(out@) =~= before.push(name@));
        }
        i += 1;
    }
    assert(all.take(all.len() as int) =~= all);
    out
}

fn has_from(names: &Vec<Vec<char>>) -> (r: bool)
    ensures
        r == lists_from(text::views(names@)),
{
    let ghost all = text::views(names@);
    let from = text::chars_of("from");
    let mut i: usize = 0;
    while i < names.len()
        invariant
            i <= names@.len(),
            all == text::views(names@),
            from@ == "from"@,
            forall|j: int| 0 <= j < i ==> text::lower(#[trigger] all[j]) != text::lower("from"@),
        decreases names@.len() - i,
    {
        if text::same_ignoring_case(names[i].as_slice(), from.as_slice()) {
            assert(text::lower(all[i as int]) == text::lower("from"@));
            return true;
        }
        i += 1;
    }
    false
}

/// The views of a signing input and of a signature in base64.
pub open spec fn claim_view(r: Result<(Vec<u8>, String), DkimError>) -> Result<
    (Seq<u8>, Seq<char>),
    DkimError,
> {
    match r {
        Ok((input, b)) => Ok((input@, b@)),
        Err(e) => Err(e),
    }
}

/// Checks the signature field of a message against the digest of its body, and gives back what the
/// signature is over and the signature in base64.
pub fn check_signature_field(message: &[u8], body_digest: &[u8]) -> (r: Result<
    (Vec<u8>, String),
    DkimError,
>)
    ensures
        claim_view(r) == claimed(message_fields(message@), body_digest@),
{
    let (headers, _) = rfc5322::split_headers_body(message);
    let field = match rfc5322::find_header(&headers, "dkim-signature") {
        Some(f) => f,
        None => {
            return Err(DkimError::NoSignature);
        },
    };
    let shown = text::from_utf8_lossy(field.value.as_slice());
    let list = text::chars_of(shown.as_str());
    match get_tag(list.as_slice(), "a") {
        Some(a) => {
            if !text::same_str(a.as_str(), "ed25519-sha256") {
                return Err(DkimError::UnsupportedAlgorithm);
            }
        },
        None => {
            return Err(DkimError::UnsupportedAlgorithm);
        },
    }
    match get_tag(list.as_slice(), "c") {
        Some(c) => {
            if !text::same_str(c.as_str(), "relaxed/relaxed") {
                return Err(DkimError::UnsupportedCanonicalization);
            }
        },
        None => {},
    }
    let bh = match get_tag(list.as_slice(), "bh") {
        Some(v) => v,
        None => {
            return Err(DkimError::MalformedSignature);
        },
    };
    let actual = b64::encode(body_digest);
    if !text::same_str(bh.as_str(), actual.as_str()) {
        return Err(DkimError::BodyHashMismatch);
    }
    let h = match get_tag(list.as_slice(), "h") {
        Some(v) => v,
        None => {
            return Err(DkimError::MalformedSignature);
        },
    };
    let b = match get_tag(list.as_slice(), "b") {
        Some(v) => v,
        None => {
            return Err(DkimError::MalformedSignature);
        },
    };
    let names = read_names(h.as_str());
    if !has_from(&names) {
        return Err(DkimError::FromFieldNotSigned);
    }
    let emptied = empty_b_value(field.value.as_slice());
    Ok((build_signing_input(&headers, &names, emptied.as_slice()), b))
}

fn array64(v: &[u8]) -> (r: [u8; 64])
    requires
        v@.len() == 64,
    ensures
        r@ == v@,
{
    let mut out: [u8; 64] = [0u8;64];
    let mut i: usize = 0;
    while i < 64
        invariant
            v@.len() == 64,
            i <= 64,
            forall|j: int| 0 <= j < i ==> out@[j] == v@[j],
        decreases 64 - i,
    {
        out[i] = v[i];
        i += 1;
    }
    assert(out@ =~= v@);
    out
}

/// Verifies the signature of a message under a public key.
pub fn verify(message: &[u8], public_key: &[u8]) -> (r: Result<(), DkimError>)
    ensures
        r == verification(message@, public_key@),
{
    let (_, body) = rfc5322::split_headers_body(message);
    let canonical = canonicalize_body(body);
    let body_digest = sha256_digest(canonical.as_slice());
    let (input, b) = match check_signature_field(message, body_digest.as_slice()) {
        Ok(p) => p,
        Err(e) => {
            return Err(e);
        },
    };
    if public_key.len() != 32 {
        return Err(DkimError::BadPublicKey);
    }
    let key = identity::array32(public_key);
    if !is_public_key(&key) {
        return Err(DkimError::BadPublicKey);
    }
    let sig = match b64::decode(b.as_str()) {
        Ok(s) => s,
        Err(_) => {
            return Err(DkimError::MalformedSignature);
        },
    };
    if sig.len() != 64 {
        return Err(DkimError::MalformedSignature);
    }
    let sig = array64(sig.as_slice());
    let digest = sha256_digest(input.as_slice());
    if dalek_verify(&key, digest.as_slice(), &sig) {
        Ok(())
    } else {
        Err(DkimError::SignatureInvalid)
    }
}

// ---- published keys ----------------------------------------------------------------------------

/// Looks up the key that a domain publishes under a selector.
pub trait DkimKeyResolver {
    /// Whether a lookup may come back with the given key, or with none.
    open spec fn may_publish(
        &self,
        domain: Seq<char>,
        selector: Seq<char>,
        key: Option<Seq<u8>>,
    ) -> bool {
        true
    }

    /// Looks a key up.
    fn resolve_dkim_key(&self, domain: &str, selector: &str) -> (r: Option<Vec<u8>>)
        ensures
            self.may_publish(domain@, selector@, model::opt_view(r)),
    ;
}

/// A table of published keys.
pub struct StaticDkimKeys {
    entries: Vec<(String, String, Vec<u8>)>,
}

/// One published key.
pub struct PublishedKey {
    pub domain: Seq<char>,
    pub selector: Seq<char>,
    pub key: Seq<u8>,
}

impl View for StaticDkimKeys {
    type V = Seq<PublishedKey>;

    closed spec fn view(&self) -> Seq<PublishedKey> {
        Seq::new(
            self.entries@.len(),
            |i: int|
                PublishedKey {
                    domain: self.entries@[i].0@,
                    selector: self.entries@[i].1@,
                    key: self.entries@[i].2@,
                },
        )
    }
}

/// The first key published for a domain, in any case, under a selector.
pub open spec fn published_key(t: Seq<PublishedKey>, domain: Seq<char>, selector: Seq<char>) ->
    Option<Seq<u8>>
    decreases t.len(),
{
    if t.len() == 0 {
        None
    } else if text::lower(t[0].domain) == text::lower(domain) && t[0].selector == selector {
        Some(t[0].key)
    } else {
        published_key(t.skip(1), domain, selector)
    }
}

impl StaticDkimKeys {
    /// An empty table.
    pub fn new() -> (r: Self)
        ensures
            r@ == Seq::<PublishedKey>::empty(),
    {
        let r = StaticDkimKeys { entries: Vec::new() };
        assert(r@ =~= Seq::<PublishedKey>::empty());
        r
    }

    /// The table with one more key.
    pub fn publish(self, domain: &str, selector: &str, key: Vec<u8>) -> (r: Self)
        ensures
            r@ == self@.push(
                PublishedKey { domain: domain@, selector: selector@, key: key@ },
            ),
    {
        let mut entries = self.entries;
        entries.push((text::string_from(domain), text::string_from(selector), key));
        let r = StaticDkimKeys { entries };
        assert(r@ =~= self@.push(
            PublishedKey { domain: domain@, selector: selector@, key: key@ },
        ));
        r
    }
}

impl DkimKeyResolver for StaticDkimKeys {
    open spec fn may_publish(
        &self,
        domain: Seq<char>,
        selector: Seq<char>,
        key: Option<Seq<u8>>,
    ) -> bool {
        key == published_key(self@, domain, selector)
    }

    fn resolve_dkim_key(&self, domain: &str, selector: &str) -> (r: Option<Vec<u8>>) {
        let ghost t = self@;
        let mut i: usize = 0;
        assert(t.skip(0) =~= t);
        while i < self.entries.len()
            invariant
                i <= self.entries@.len(),
                t == self@,
                published_key(t, domain@, selector@) == published_key(
                    t.skip(i as int),
                    domain@,
                    selector@,
                ),
            decreases self.entries@.len() - i,
        {
            let e = &self.entries[i];
            assert(t.skip(i as int)[0] == t[i as int]);
            assert(t.skip(i as int).skip(1) =~= t.skip(i + 1));
            if text::same_str_ignoring_case(e.0.as_str(), domain) && text::same_str(
                e.1.as_str(),
                selector,
            ) {
                return Some(slice_to_vec(e.2.as_slice()));
            }
            i += 1;
        }
        None
    }
}

/// The outcome of verifying a message with the key that its signature names.
#[derive(Debug, Clone, PartialEq, Eq)]
pub enum DkimVerdict {
    /// The signature verifies.
    Pass { domain: String, selector: String },
    /// The signature does not verify.
    Fail(DkimError),
    /// There is no signature at all.
    NoSignature,
    /// The named key is not published.
    KeyUnavailable { domain: String, selector: String },
}

/// [`DkimVerdict`] with its texts as sequences.
pub enum VerdictModel {
    Pass { domain: Seq<char>, selector: Seq<char> },
    Fail(DkimError),
    NoSignature,
    KeyUnavailable { domain: Seq<char>, selector: Seq<char> },
}

impl View for DkimVerdict {
    type V = VerdictModel;

    open spec fn view(&self) -> VerdictModel {
        match *self {
            DkimVerdict::Pass { domain, selector } => VerdictModel::Pass {
                domain: domain@,
                selector: selector@,
            },
            DkimVerdict::Fail(e) => VerdictModel::Fail(e),
            DkimVerdict::NoSignature => VerdictModel::NoSignature,
            DkimVerdict::KeyUnavailable { domain, selector } => VerdictModel::KeyUnavailable {
                domain: domain@,
                selector: selector@,
            },
        }
    }
}

/// The domain and the selector that the signature of a message names.
pub open spec fn named_key(message: Seq<u8>) -> Option<(Seq<char>, Seq<char>)> {
    match rfc5322::last_named(message_fields(message), "dkim-signature"@) {
        None => None,
        Some(f) => {
            let list = text::lossy(f.value);
            match (tag(list, "d"@), tag(list, "s"@)) {
                (Some(d), Some(s)) => Some((d, s)),
                _ => None,
            }
        },
    }
}

/// The views of a domain and a selector.
pub open spec fn named_key_view(r: Option<(String, String)>) -> Option<(Seq<char>, Seq<char>)> {
    match r {
        Some((d, s)) => Some((d@, s@)),
        None => None,
    }
}

/// The domain and the selector that the signature of a message names.
pub fn signing_domain_selector(message: &[u8]) -> (r: Option<(String, String)>)
    ensures
        named_key_view(r) == named_key(message@),
{
    let (headers, _) = rfc5322::split_headers_body(message);
    let field = match rfc5322::find_header(&headers, "dkim-signature") {
        Some(f) => f,
        None => {
            return None;
        },
    };
    let shown = text::from_utf8_lossy(field.value.as_slice());
    let list = text::chars_of(shown.as_str());
    let d = get_tag(list.as_slice(), "d");
    let s = get_tag(list.as_slice(), "s");
    match (d, s) {
        (Some(d), Some(s)) => Some((d, s)),
        _ => None,
    }
}

/// The verdict on a message that names no key: it has no signature, or a malformed one.
pub open spec fn nameless_verdict(message: Seq<u8>) -> VerdictModel {
    match rfc5322::last_named(message_fields(message), "dkim-signature"@) {
        None => VerdictModel::NoSignature,
        Some(_) => VerdictModel::Fail(DkimError::MalformedSignature),
    }
}

fn verdict_without_key(message: &[u8]) -> (r: DkimVerdict)
    ensures
        r@ == nameless_verdict(message@),
{
    let (headers, _) = rfc5322::split_headers_body(message);
    match rfc5322::find_header(&headers, "dkim-signature") {
        Some(_) => DkimVerdict::Fail(DkimError::MalformedSignature),
        None => DkimVerdict::NoSignature,
    }
}

/// The verdict on a message, given what the lookup of the named key came back with.
pub open spec fn verdict(message: Seq<u8>, key: Option<Seq<u8>>) -> VerdictModel {
    match named_key(message) {
        None => nameless_verdict(message),
        Some((domain, selector)) => match key {
            None => VerdictModel::KeyUnavailable { domain, selector },
            Some(k) => match verification(message, k) {
                Ok(_) => VerdictModel::Pass { domain, selector },
                Err(e) => VerdictModel::Fail(e),
            },
        },
    }
}

/// The verdict on a message, given what the lookup of the named key came back with.
pub fn verify_with_key(message: &[u8], key: Option<&[u8]>) -> (r: DkimVerdict)
    ensures
        r@ == verdict(message@, model::opt_view(key)),
{
    let (domain, selector) = match signing_domain_selector(message) {
        Some(p) => p,
        None => {
            return verdict_without_key(message);
        },
    };
    match key {
        Some(k) => match verify(message, k) {
            Ok(_) => DkimVerdict::Pass { domain, selector },
            Err(e) => DkimVerdict::Fail(e),
        },
        None => DkimVerdict::KeyUnavailable { domain, selector },
    }
}

/// Verifies a message with the key that its signature names, looked up by `resolver`.
pub fn verify_with_resolver<R: DkimKeyResolver>(message: &[u8], resolver: &R) -> (r: DkimVerdict)
    ensures
        match named_key(message@) {
            None => r@ == nameless_verdict(message@),
            Some((d, s)) => exists|key: Option<Seq<u8>>| #[trigger]
                resolver.may_publish(d, s, key) && r@ == verdict(message@, key),
        },
{
    let (domain, selector) = match signing_domain_selector(message) {
        Some(p) => p,
        None => {
            return verdict_without_key(message);
        },
    };
    match resolver.resolve_dkim_key(domain.as_str(), selector.as_str()) {
        Some(k) => {
            assert(resolver.may_publish(domain@, selector@, Some(k@)));
            verify_with_key(message, Some(k.as_slice()))
        },
        None => {
            assert(resolver.may_publish(domain@, selector@, None));
            verify_with_key(message, None)
        },
    }
}

/// The key in a published record: the first tag `p`, unless it is empty.
pub open spec fn record_key(parts: Seq<Seq<char>>) -> Option<Seq<u8>>
    decreases parts.len(),
{
    if parts.len() == 0 {
        None
    } else {
        match text::strip_prefix(text::trim(parts[0]), "p="@) {
            None => record_key(parts.skip(1)),
            Some(v) => {
                let w = without_white(v);
                if w.len() == 0 {
                    None
                } else {
                    b64::decoding(w)
                }
            },
        }
    }
}

/// Reads the public key in the text of a published record.
pub fn parse_public_key_txt(txt: &str) -> (r: Option<Vec<u8>>)
    ensures
        model::opt_view(r) == record_key(text::split(txt@, ';')),
{
    let c = text::chars_of(txt);
    let parts = text::split_at_each(c.as_slice(), ';');
    let ghost all = text::views(parts@);
    let mut i: usize = 0;
    assert(all.skip(0) =~= all);
    while i < parts.len()
        invariant
            i <= parts@.len(),
            all == text::views(parts@),
            all == text::split(txt@, ';'),
            record_key(all) == record_key(all.skip(i as int)),
        decreases parts@.len() - i,
    {
        assert(all.skip(i as int)[0] == parts@[i as int]@);
        assert(all.skip(i as int).skip(1) =~= all.skip(i + 1));
        let part = text::trimmed(parts[i].as_slice());
        match text::after_prefix(part, "p=") {
            Some(v) => {
                let w = strip_white(v);
                if w.len() == 0 {
                    return None;
                }
                let s = text::string_of(w.as_slice());
                return match b64::decode(s.as_str()) {
                    Ok(k) => Some(k),
                    Err(_) => None,
                };
            },
            None => {},
        }
        i += 1;
    }
    None
}

/// The key in the first of the records that holds one.
pub open spec fn first_record_key(records: Seq<Seq<char>>) -> Option<Seq<u8>>
    decreases records.len(),
{
    if records.len() == 0 {
        None
    } else {
        match record_key(text::split(records[0], ';')) {
            Some(k) => Some(k),
            None => first_record_key(records.skip(1)),
        }
    }
}

/// Reads the public key in the first of the records that holds one.
pub fn key_in_records(records: &Vec<String>) -> (r: Option<Vec<u8>>)
    ensures
        model::opt_view(r) == first_record_key(text::string_views(records@)),
{
    let ghost all = text::string_views(records@);
    let mut i: usize = 0;
    assert(all.skip(0) =~= all);
    while i < records.len()
        invariant
            i <= records@.len(),
            all == text::string_views(records@),
            first_record_key(all) == first_record_key(all.skip(i as int)),
        decreases records@.len() - i,
    {
        assert(all.skip(i as int)[0] == records@[i as int]@);
        assert(all.skip(i as int).skip(1) =~= all.skip(i + 1));
        match parse_public_key_txt(records[i].as_str()) {
            Some(k) => {
                return Some(k);
            },
            None => {},
        }
        i += 1;
    }
    None
}

/// The name that a domain publishes a key under.
pub fn key_name(domain: &str, selector: &str) -> (r: String)
    ensures
        r@ == selector@ + "._domainkey."@ + domain@,
{
    text::concat3(selector, "._domainkey.", domain)
}

} // verus!
