//! Base64 in the standard alphabet.

use crate::text;
use vstd::prelude::*;

verus! {

/// The character that stands for a six-bit value.
pub open spec fn symbol(v: int) -> char {
    if v < 26 {
        ('A' as int + v) as char
    } else if v < 52 {
        ('a' as int + v - 26) as char
    } else if v < 62 {
        ('0' as int + v - 52) as char
    } else if v == 62 {
        '+'
    } else {
        '/'
    }
}

/// The six-bit value that a character stands for.
pub open spec fn sextet(c: char) -> Option<int> {
    if text::is_upper(c) {
        Some(c as int - 'A' as int)
    } else if text::is_lower(c) {
        Some(c as int - 'a' as int + 26)
    } else if text::is_digit(c) {
        Some(c as int - '0' as int + 52)
    } else if c == '+' {
        Some(62)
    } else if c == '/' {
        Some(63)
    } else {
        None
    }
}

/// The encoding of `b`: four characters for each three octets, the last group padded.
pub open spec fn encoding(b: Seq<u8>) -> Seq<char>
    decreases b.len(),
{
    if b.len() == 0 {
        Seq::empty()
    } else if b.len() == 1 {
        seq![symbol(b[0] as int / 4), symbol((b[0] % 4) * 16), '=', '=']
    } else if b.len() == 2 {
        seq![
            symbol(b[0] as int / 4),
            symbol((b[0] % 4) * 16 + b[1] as int / 16),
            symbol((b[1] % 16) * 4),
            '=',
        ]
    } else {
        seq![
            symbol(b[0] as int / 4),
            symbol((b[0] % 4) * 16 + b[1] as int / 16),
            symbol((b[1] % 16) * 4 + b[2] as int / 64),
            symbol(b[2] as int % 64),
        ] + encoding(b.skip(3))
    }
}

/// White space that may stand anywhere in an encoding.
pub open spec fn is_blank(c: char) -> bool {
    c == ' ' || c == '\t' || c == '\r' || c == '\n'
}

/// The six-bit values of a text up to its first padding character, blanks aside, if every other
/// character before that is in the alphabet.
pub open spec fn sextets(s: Seq<char>) -> Option<Seq<int>>
    decreases s.len(),
{
    if s.len() == 0 || s[0] == '=' {
        Some(Seq::empty())
    } else if is_blank(s[0]) {
        sextets(s.skip(1))
    } else {
        match sextet(s[0]) {
            None => None,
            Some(v) => after_sextets(seq![v], sextets(s.skip(1))),
        }
    }
}

pub open spec fn after_sextets(first: Seq<int>, rest: Option<Seq<int>>) -> Option<Seq<int>> {
    match rest {
        Some(r) => Some(first + r),
        None => None,
    }
}

/// Octet `k` of the bits that six-bit values make up.
pub open spec fn octet(v: Seq<int>, k: int) -> u8 {
    let j = 4 * (k / 3);
    if k % 3 == 0 {
        (v[j] * 4 + v[j + 1] / 16) as u8
    } else if k % 3 == 1 {
        ((v[j + 1] % 16) * 16 + v[j + 2] / 4) as u8
    } else {
        ((v[j + 2] % 4) * 64 + v[j + 3]) as u8
    }
}

/// The whole octets in a sequence of six-bit values; bits left over at the end are dropped.
pub open spec fn octets(v: Seq<int>) -> Seq<u8> {
    Seq::new((6 * v.len() / 8) as nat, |k: int| octet(v, k))
}

/// A character that may stand in a text that is decoded: one of the alphabet, padding or a blank.
pub open spec fn is_allowed(c: char) -> bool {
    sextet(c) is Some || c == '=' || is_blank(c)
}

/// What a text decodes to, if it holds nothing but the alphabet, padding and blanks. What stands
/// behind the first padding character adds nothing.
pub open spec fn decoding(s: Seq<char>) -> Option<Seq<u8>> {
    if forall|i: int| 0 <= i < s.len() ==> is_allowed(#[trigger] s[i]) {
        match sextets(s) {
            Some(v) => Some(octets(v)),
            None => None,
        }
    } else {
        None
    }
}

proof fn lemma_allowed_has_sextets(s: Seq<char>)
    requires
        forall|i: int| 0 <= i < s.len() ==> is_allowed(#[trigger] s[i]),
    ensures
        sextets(s) is Some,
    decreases s.len(),
{
    if s.len() > 0 {
        assert(is_allowed(s[0]));
        assert forall|i: int| 0 <= i < s.skip(1).len() implies is_allowed(#[trigger] s.skip(1)[i]) by {
            assert(is_allowed(s[i + 1]));
        }
        lemma_allowed_has_sextets(s.skip(1));
    }
}

fn symbol_of(v: u8) -> (c: char)
    requires
        v < 64,
    ensures
        c == symbol(v as int),
{
    if v < 26 {
        (65 + v) as char
    } else if v < 52 {
        (97 + (v - 26)) as char
    } else if v < 62 {
        (48 + (v - 52)) as char
    } else if v == 62 {
        '+'
    } else {
        '/'
    }
}

/// Encodes octets, with padding.
pub fn encode(input: &[u8]) -> (r: String)
    ensures
        r@ == encoding(input@),
{
    let n: usize = input.len();
    let mut out = String::new();
    let mut i: usize = 0;
    assert(input@.skip(0) =~= input@);
    assert(out@ + encoding(input@) =~= encoding(input@));
    while i < n
        invariant
            n == input@.len(),
            i <= n,
            out@ + encoding(input@.skip(i as int)) == encoding(input@),
        decreases n - i,
    {
        let ghost rest = input@.skip(i as int);
        let ghost before = out@;
        let b0: u8 = input[i];
        out.push(symbol_of(b0 / 4));
        if n - i == 1 {
            out.push(symbol_of((b0 % 4) * 16));
            out.push('=');
            out.push('=');
            assert(out@ =~= before + encoding(rest));
            assert(input@.skip(n as int) =~= Seq::<u8>::empty());
            assert(out@ + encoding(input@.skip(n as int)) =~= out@);
            i = n;
        } else if n - i == 2 {
            let b1: u8 = input[i + 1];
            out.push(symbol_of((b0 % 4) * 16 + b1 / 16));
            out.push(symbol_of((b1 % 16) * 4));
            out.push('=');
            assert(out@ =~= before + encoding(rest));
            assert(input@.skip(n as int) =~= Seq::<u8>::empty());
            assert(out@ + encoding(input@.skip(n as int)) =~= out@);
            i = n;
        } else {
            let b1: u8 = input[i + 1];
            let b2: u8 = input[i + 2];
            out.push(symbol_of((b0 % 4) * 16 + b1 / 16));
            out.push(symbol_of((b1 % 16) * 4 + b2 / 64));
            out.push(symbol_of(b2 % 64));
            assert(rest.skip(3) =~= input@.skip(i + 3));
            assert(out@ + encoding(input@.skip(i + 3)) =~= before + encoding(rest));
            i = i + 3;
        }
    }
    assert(input@.skip(n as int) =~= Seq::<u8>::empty());
    assert(out@ + Seq::<char>::empty() =~= out@);
    out
}

fn sextet_of(c: char) -> (r: Option<u8>)
    ensures
        match r {
            Some(v) => sextet(c) == Some(v as int) && v < 64,
            None => sextet(c) is None,
        },
{
    if 'A' <= c && c <= 'Z' {
        Some(c as u8 - 65)
    } else if 'a' <= c && c <= 'z' {
        Some(c as u8 - 97 + 26)
    } else if '0' <= c && c <= '9' {
        Some(c as u8 - 48 + 52)
    } else if c == '+' {
        Some(62)
    } else if c == '/' {
        Some(63)
    } else {
        None
    }
}

/// The bits of the six-bit values that do not fill an octet yet.
spec fn left_over(v: Seq<int>) -> int {
    if v.len() % 4 == 0 {
        0
    } else if v.len() % 4 == 1 {
        v.last()
    } else if v.len() % 4 == 2 {
        v.last() % 16
    } else {
        v.last() % 4
    }
}

spec fn in_range(v: Seq<int>) -> bool {
    forall|k: int| 0 <= k < v.len() ==> 0 <= #[trigger] v[k] < 64
}

/// What one more six-bit value adds to the octets and to the bits left over.
#[verifier::spinoff_prover]
#[verifier::rlimit(40)]
proof fn lemma_next_sextet(vals: Seq<int>, v: int)
    requires
        in_range(vals),
        0 <= v < 64,
    ensures
        in_range(vals.push(v)),
        0 <= left_over(vals) < 64,
        ({
            let sum = left_over(vals) * 64 + v;
            let next = vals.push(v);
            let m = vals.len() % 4;
            &&& m == 0 ==> octets(next) == octets(vals) && left_over(next) == v
            &&& m == 1 ==> octets(next) == octets(vals).push((sum / 16) as u8) && left_over(next)
                == sum % 16
            &&& m == 2 ==> octets(next) == octets(vals).push((sum / 4) as u8) && left_over(next)
                == sum % 4 && left_over(vals) < 16
            &&& m == 3 ==> octets(next) == octets(vals).push(sum as u8) && left_over(next) == 0
                && left_over(vals) < 4
        }),
{
    let n = vals.len() as int;
    let next = vals.push(v);
    let sum = left_over(vals) * 64 + v;
    let q = n / 4;
    if n % 4 != 0 {
        assert(vals.last() == vals[n - 1]);
    }
    assert forall|k: int| 0 <= k < 6 * n / 8 implies octet(next, k) == octet(vals, k) by {
        let j = 4 * (k / 3);
    }
    if n % 4 == 0 {
        assert(6 * (n + 1) / 8 == 6 * n / 8);
        assert(octets(next) =~= octets(vals));
    } else if n % 4 == 1 {
        let k = 6 * n / 8;
        assert(k == 3 * q);
        assert(octet(next, k) == (sum / 16) as u8);
        assert(octets(next) =~= octets(vals).push((sum / 16) as u8));
    } else if n % 4 == 2 {
        let k = 6 * n / 8;
        assert(k == 3 * q + 1);
        assert(octet(next, k) == (sum / 4) as u8);
        assert(octets(next) =~= octets(vals).push((sum / 4) as u8));
    } else {
        let k = 6 * n / 8;
        assert(k == 3 * q + 2);
        assert(octet(next, k) == sum as u8);
        assert(octets(next) =~= octets(vals).push(sum as u8));
    }
}

/// The outcome of [`decode`] as a value.
pub open spec fn decode_view(r: Result<Vec<u8>, &str>) -> Option<Seq<u8>> {
    match r {
        Ok(v) => Some(v@),
        Err(_) => None,
    }
}

fn all_allowed(s: &[char]) -> (r: bool)
    ensures
        r == forall|i: int| 0 <= i < s@.len() ==> is_allowed(#[trigger] s@[i]),
{
    let mut i: usize = 0;
    while i < s.len()
        invariant
            i <= s@.len(),
            forall|j: int| 0 <= j < i ==> is_allowed(#[trigger] s@[j]),
        decreases s@.len() - i,
    {
        let c: char = s[i];
        if c != '=' && c != ' ' && c != '\t' && c != '\r' && c != '\n' && sextet_of(c).is_none() {
            assert(!is_allowed(s@[i as int]));
            return false;
        }
        i += 1;
    }
    true
}

/// Decodes a text. Padding is optional and ends what is decoded, blanks are skipped; any other
/// character outside the alphabet is an error, wherever it stands.
pub fn decode(input: &str) -> (r: Result<Vec<u8>, &'static str>)
    ensures
        decode_view(r) == decoding(input@),
        r matches Err(e) ==> e@ == "invalid base64 character"@,
{
    let chars = text::chars_of(input);
    if !all_allowed(chars.as_slice()) {
        return Err("invalid base64 character");
    }
    let mut out: Vec<u8> = Vec::new();
    let mut bits: u32 = 0;
    let mut phase: u8 = 0;
    let mut i: usize = 0;
    let ghost mut vals: Seq<int> = Seq::empty();
    proof {
        assert(chars@.skip(0) =~= chars@);
        let rest = sextets(chars@);
        if rest is Some {
            assert(vals + rest->0 =~= rest->0);
        }
        assert(octets(vals) =~= out@);
    }
    while i < chars.len()
        invariant
            chars@ == input@,
            forall|j: int| 0 <= j < chars@.len() ==> is_allowed(#[trigger] chars@[j]),
            i <= chars@.len(),
            sextets(input@) == after_sextets(vals, sextets(chars@.skip(i as int))),
            in_range(vals),
            out@ == octets(vals),
            phase == vals.len() % 4,
            bits == left_over(vals),
        decreases chars@.len() - i,
    {
        let c: char = chars[i];
        let ghost rest = chars@.skip(i as int);
        assert(rest.skip(1) =~= chars@.skip(i + 1));
        if c == '=' {
            assert(vals + Seq::<int>::empty() =~= vals);
            return Ok(out);
        }
        if c == ' ' || c == '\t' || c == '\r' || c == '\n' {
            i += 1;
            continue;
        }
        match sextet_of(c) {
            None => {
                return Err("invalid base64 character");
            },
            Some(v) => {
                let ghost before = vals;
                proof {
                    lemma_next_sextet(vals, v as int);
                    vals = vals.push(v as int);
                    let tail = sextets(rest.skip(1));
                    if tail is Some {
                        assert(before + (seq![v as int] + tail->0) =~= vals + tail->0);
                    }
                }
                let sum: u32 = bits * 64 + v as u32;
                if phase == 0 {
                    bits = v as u32;
                    phase = 1;
                } else if phase == 1 {
                    out.push((sum / 16) as u8);
                    bits = sum % 16;
                    phase = 2;
                } else if phase == 2 {
                    out.push((sum / 4) as u8);
                    bits = sum % 4;
                    phase = 3;
                } else {
                    out.push(sum as u8);
                    bits = 0;
                    phase = 0;
                }
            },
        }
        i += 1;
    }
    assert(vals + Seq::<int>::empty() =~= vals);
    Ok(out)
}

/// The six-bit values that encoding writes for `b`.
spec fn groups(b: Seq<u8>) -> Seq<int>
    decreases b.len(),
{
    if b.len() == 0 {
        Seq::empty()
    } else if b.len() == 1 {
        seq![b[0] as int / 4, (b[0] % 4) * 16]
    } else if b.len() == 2 {
        seq![b[0] as int / 4, (b[0] % 4) * 16 + b[1] as int / 16, (b[1] % 16) * 4]
    } else {
        seq![
            b[0] as int / 4,
            (b[0] % 4) * 16 + b[1] as int / 16,
            (b[1] % 16) * 4 + b[2] as int / 64,
            b[2] as int % 64,
        ] + groups(b.skip(3))
    }
}

proof fn lemma_symbol(v: int)
    requires
        0 <= v < 64,
    ensures
        sextet(symbol(v)) == Some(v),
        symbol(v) != '=',
        !is_blank(symbol(v)),
{
}

proof fn lemma_sextet_front(v: int, rest: Seq<char>)
    requires
        0 <= v < 64,
    ensures
        sextets(seq![symbol(v)] + rest) == after_sextets(seq![v], sextets(rest)),
{
    lemma_symbol(v);
    assert((seq![symbol(v)] + rest).skip(1) =~= rest);
}

proof fn lemma_sextets_of_encoding(b: Seq<u8>)
    ensures
        sextets(encoding(b)) == Some(groups(b)),
    decreases b.len(),
{
    let e = encoding(b);
    if b.len() == 0 {
    } else if b.len() == 1 {
        let v0 = b[0] as int / 4;
        let v1 = (b[0] % 4) * 16;
        let pad = seq!['=', '='];
        assert(e =~= seq![symbol(v0)] + (seq![symbol(v1)] + pad));
        lemma_sextet_front(v0, seq![symbol(v1)] + pad);
        lemma_sextet_front(v1, pad);
        assert(sextets(pad) == Some(Seq::<int>::empty()));
        assert(seq![v0] + (seq![v1] + Seq::<int>::empty()) =~= groups(b));
    } else if b.len() == 2 {
        let v0 = b[0] as int / 4;
        let v1 = (b[0] % 4) * 16 + b[1] as int / 16;
        let v2 = (b[1] % 16) * 4;
        let pad = seq!['='];
        assert(e =~= seq![symbol(v0)] + (seq![symbol(v1)] + (seq![symbol(v2)] + pad)));
        lemma_sextet_front(v0, seq![symbol(v1)] + (seq![symbol(v2)] + pad));
        lemma_sextet_front(v1, seq![symbol(v2)] + pad);
        lemma_sextet_front(v2, pad);
        assert(sextets(pad) == Some(Seq::<int>::empty()));
        assert(seq![v0] + (seq![v1] + (seq![v2] + Seq::<int>::empty())) =~= groups(b));
    } else {
        let v0 = b[0] as int / 4;
        let v1 = (b[0] % 4) * 16 + b[1] as int / 16;
        let v2 = (b[1] % 16) * 4 + b[2] as int / 64;
        let v3 = b[2] as int % 64;
        let r = encoding(b.skip(3));
        lemma_sextets_of_encoding(b.skip(3));
        assert(e =~= seq![symbol(v0)] + (seq![symbol(v1)] + (seq![symbol(v2)] + (seq![symbol(v3)]
            + r))));
        lemma_sextet_front(v0, seq![symbol(v1)] + (seq![symbol(v2)] + (seq![symbol(v3)] + r)));
        lemma_sextet_front(v1, seq![symbol(v2)] + (seq![symbol(v3)] + r));
        lemma_sextet_front(v2, seq![symbol(v3)] + r);
        lemma_sextet_front(v3, r);
        assert(seq![v0] + (seq![v1] + (seq![v2] + (seq![v3] + groups(b.skip(3))))) =~= groups(b));
    }
}

proof fn lemma_octets_of_groups(b: Seq<u8>)
    ensures
        octets(groups(b)) == b,
        groups(b).len() == (4 * b.len() + 2) / 3,
    decreases b.len(),
{
    let g = groups(b);
    if b.len() < 3 {
        assert(octets(g) =~= b);
    } else {
        let t = groups(b.skip(3));
        lemma_octets_of_groups(b.skip(3));
        assert(octets(g).len() == b.len());
        assert forall|k: int| 0 <= k < b.len() implies octets(g)[k] == b[k] by {
            if k >= 3 {
                let j = 4 * ((k - 3) / 3);
                assert(4 * (k / 3) == j + 4);
                assert(octets(t)[k - 3] == b.skip(3)[k - 3]);
                assert(octets(t)[k - 3] == octet(t, k - 3));
                assert(g.skip(4) =~= t);
                assert(octet(g, k) == octet(t, k - 3));
            }
        }
        assert(octets(g) =~= b);
    }
}

/// Decoding an encoding gives the octets back.
pub proof fn law_round_trip(b: Seq<u8>)
    ensures
        decoding(encoding(b)) == Some(b),
{
    lemma_sextets_of_encoding(b);
    lemma_octets_of_groups(b);
    law_alphabet_and_length(b);
    let e = encoding(b);
    assert forall|i: int| 0 <= i < e.len() implies is_allowed(#[trigger] e[i]) by {
        assert(is_base64(e[i]));
    }
}

/// A text decodes exactly where it holds nothing but the alphabet, padding and blanks.
pub proof fn law_only_the_alphabet_decodes(s: Seq<char>)
    ensures
        decoding(s) is Some <==> forall|i: int| 0 <= i < s.len() ==> is_allowed(#[trigger] s[i]),
{
    if forall|i: int| 0 <= i < s.len() ==> is_allowed(#[trigger] s[i]) {
        lemma_allowed_has_sextets(s);
    }
}

/// A character that an encoding may hold.
pub open spec fn is_base64(c: char) -> bool {
    text::is_alnum(c) || c == '+' || c == '/' || c == '='
}

/// An encoding holds nothing but the alphabet and padding, four characters for each three octets.
pub proof fn law_alphabet_and_length(b: Seq<u8>)
    ensures
        encoding(b).len() == 4 * ((b.len() + 2) / 3),
        forall|i: int| 0 <= i < encoding(b).len() ==> is_base64(#[trigger] encoding(b)[i]),
    decreases b.len(),
{
    if b.len() >= 3 {
        law_alphabet_and_length(b.skip(3));
        let r = encoding(b.skip(3));
        assert forall|i: int| 0 <= i < encoding(b).len() implies is_base64(#[trigger] encoding(b)[i]) by {
            if i >= 4 {
                assert(encoding(b)[i] == r[i - 4]);
            }
        }
    }
}

/// Two encodings are the same only for the same octets.
pub proof fn law_encoding_is_injective(a: Seq<u8>, b: Seq<u8>)
    requires
        encoding(a) == encoding(b),
    ensures
        a == b,
{
    law_round_trip(a);
    law_round_trip(b);
}

/// A text without its blanks.
pub open spec fn without_blanks(s: Seq<char>) -> Seq<char>
    decreases s.len(),
{
    if s.len() == 0 {
        s
    } else if is_blank(s[0]) {
        without_blanks(s.skip(1))
    } else {
        seq![s[0]] + without_blanks(s.skip(1))
    }
}

proof fn lemma_sextets_without_blanks(s: Seq<char>)
    ensures
        sextets(without_blanks(s)) == sextets(s),
    decreases s.len(),
{
    if s.len() > 0 {
        let rest = s.skip(1);
        lemma_sextets_without_blanks(rest);
        if !is_blank(s[0]) {
            assert((seq![s[0]] + without_blanks(rest)).skip(1) =~= without_blanks(rest));
        }
    }
}

proof fn lemma_allowed_without_blanks(s: Seq<char>)
    ensures
        (forall|i: int| 0 <= i < s.len() ==> is_allowed(#[trigger] s[i])) == (forall|i: int|
            0 <= i < without_blanks(s).len() ==> is_allowed(#[trigger] without_blanks(s)[i])),
    decreases s.len(),
{
    if s.len() > 0 {
        let rest = s.skip(1);
        let w = without_blanks(s);
        let q = without_blanks(rest);
        lemma_allowed_without_blanks(rest);
        if forall|i: int| 0 <= i < s.len() ==> is_allowed(#[trigger] s[i]) {
            assert forall|i: int| 0 <= i < rest.len() implies is_allowed(#[trigger] rest[i]) by {
                assert(rest[i] == s[i + 1]);
            }
            assert forall|i: int| 0 <= i < w.len() implies is_allowed(#[trigger] w[i]) by {
                assert(is_allowed(s[0]));
                if !is_blank(s[0]) && i > 0 {
                    assert(w[i] == q[i - 1]);
                }
            }
        }
        if forall|i: int| 0 <= i < w.len() ==> is_allowed(#[trigger] w[i]) {
            assert forall|i: int| 0 <= i < q.len() implies is_allowed(#[trigger] q[i]) by {
                if !is_blank(s[0]) {
                    assert(w[i + 1] == q[i]);
                } else {
                    assert(w[i] == q[i]);
                }
            }
            assert forall|i: int| 0 <= i < s.len() implies is_allowed(#[trigger] s[i]) by {
                if i > 0 {
                    assert(rest[i - 1] == s[i]);
                } else if !is_blank(s[0]) {
                    assert(w[0] == s[0]);
                }
            }
        }
    }
}

/// Blanks do not change what a text decodes to, nor whether it does.
pub proof fn law_blanks_do_not_matter(s: Seq<char>)
    ensures
        decoding(without_blanks(s)) == decoding(s),
{
    lemma_sextets_without_blanks(s);
    lemma_allowed_without_blanks(s);
}

/// Whether a text is padding alone.
pub open spec fn is_padding(s: Seq<char>) -> bool {
    forall|i: int| 0 <= i < s.len() ==> #[trigger] s[i] == '='
}

proof fn lemma_sextets_before_padding(s: Seq<char>, pad: Seq<char>)
    requires
        is_padding(pad),
    ensures
        sextets(s + pad) == sextets(s),
    decreases s.len(),
{
    if s.len() == 0 {
        assert(s + pad =~= pad);
        if pad.len() > 0 {
            assert(pad[0] == '=');
        }
    } else {
        assert((s + pad)[0] == s[0]);
        assert((s + pad).skip(1) =~= s.skip(1) + pad);
        lemma_sextets_before_padding(s.skip(1), pad);
    }
}

/// Padding at the end does not change what a text decodes to, nor whether it does.
pub proof fn law_padding_is_optional(s: Seq<char>, pad: Seq<char>)
    requires
        is_padding(pad),
    ensures
        decoding(s + pad) == decoding(s),
{
    let t = s + pad;
    lemma_sextets_before_padding(s, pad);
    if forall|i: int| 0 <= i < s.len() ==> is_allowed(#[trigger] s[i]) {
        assert forall|i: int| 0 <= i < t.len() implies is_allowed(#[trigger] t[i]) by {
            if i < s.len() {
                assert(t[i] == s[i]);
            } else {
                assert(t[i] == pad[i - s.len()]);
            }
        }
    }
    if forall|i: int| 0 <= i < t.len() ==> is_allowed(#[trigger] t[i]) {
        assert forall|i: int| 0 <= i < s.len() implies is_allowed(#[trigger] s[i]) by {
            assert(t[i] == s[i]);
        }
    }
}

/// An encoding decodes to what was encoded without its padding too, or with a part of it.
pub proof fn law_padding_may_be_missing(b: Seq<u8>, s: Seq<char>, pad: Seq<char>)
    requires
        is_padding(pad),
        s + pad == encoding(b),
    ensures
        decoding(s) == Some(b),
{
    law_padding_is_optional(s, pad);
    law_round_trip(b);
}

/// The six-bit value of a character of the standard alphabet.
pub open spec fn value_of(c: char) -> int {
    if 'A' <= c && c <= 'Z' {
        c as int - 65
    } else if 'a' <= c && c <= 'z' {
        c as int - 97 + 26
    } else if '0' <= c && c <= '9' {
        c as int - 48 + 52
    } else if c == '+' {
        62
    } else {
        63
    }
}

proof fn lemma_value_of_symbol(v: int)
    requires
        0 <= v < 64,
    ensures
        value_of(symbol(v)) == v,
        symbol(v) != '=',
{
}

/// Three octets are four characters with the same bits, and what follows is encoded behind them; two
/// octets at the end are three characters and one for padding, one octet two and two.
pub proof fn law_bits_are_kept(b: Seq<u8>)
    requires
        b.len() > 0,
    ensures
        b.len() > 3 ==> encoding(b) == encoding(b.take(3)) + encoding(b.skip(3)),
        b.len() == 3 ==> ({
            let s = encoding(b);
            &&& s.len() == 4
            &&& ((value_of(s[0]) * 64 + value_of(s[1])) * 64 + value_of(s[2])) * 64 + value_of(s[3])
                == (b[0] * 256 + b[1]) * 256 + b[2]
        }),
        b.len() == 2 ==> encoding(b) == encoding(b.push(0)).take(3).push('='),
        b.len() == 1 ==> encoding(b) == encoding(b.push(0).push(0)).take(2).push('=').push('='),
{
    if b.len() >= 3 {
        let t = b.take(3);
        assert(t.skip(3) =~= Seq::<u8>::empty());
        assert(encoding(t.skip(3)) =~= Seq::<char>::empty());
        assert(encoding(b) =~= encoding(t) + encoding(b.skip(3)));
        if b.len() == 3 {
            assert(b.skip(3) =~= Seq::<u8>::empty());
            let s = encoding(b);
            lemma_value_of_symbol(b[0] as int / 4);
            lemma_value_of_symbol((b[0] % 4) * 16 + b[1] as int / 16);
            lemma_value_of_symbol((b[1] % 16) * 4 + b[2] as int / 64);
            lemma_value_of_symbol(b[2] as int % 64);
            assert(s[0] == symbol(b[0] as int / 4));
            assert(s[1] == symbol((b[0] % 4) * 16 + b[1] as int / 16));
            assert(s[2] == symbol((b[1] % 16) * 4 + b[2] as int / 64));
            assert(s[3] == symbol(b[2] as int % 64));
        }
    } else if b.len() == 2 {
        let c = b.push(0);
        assert(c.skip(3) =~= Seq::<u8>::empty());
        assert(encoding(b) =~= encoding(c).take(3).push('='));
    } else {
        let c = b.push(0).push(0);
        assert(c.skip(3) =~= Seq::<u8>::empty());
        assert(encoding(b) =~= encoding(c).take(2).push('=').push('='));
    }
}

} // verus!
