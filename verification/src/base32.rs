//! Base32 in the lower-case alphabet `a-z2-7`, without padding.

use crate::text;
use vstd::prelude::*;
use vstd::slice::slice_subrange;

verus! {

/// The character of a five-bit value.
pub open spec fn digit(v: int) -> char {
    if v < 26 {
        ('a' as int + v) as char
    } else {
        ('2' as int + v - 26) as char
    }
}

/// Whether a character is in the alphabet.
pub open spec fn is_base32(c: char) -> bool {
    text::is_lower(c) || ('2' <= c && c <= '7')
}

/// Octet `i` of a group, zero where the group is short.
pub open spec fn octet_or_zero(b: Seq<u8>, i: int) -> int {
    if i < b.len() {
        b[i] as int
    } else {
        0
    }
}

/// The forty bits of a group of up to five octets.
pub open spec fn group_value(b: Seq<u8>) -> int {
    octet_or_zero(b, 0) * 0x1_0000_0000 + octet_or_zero(b, 1) * 0x100_0000 + octet_or_zero(b, 2)
        * 0x1_0000 + octet_or_zero(b, 3) * 0x100 + octet_or_zero(b, 4)
}

/// Five-bit value `j` of forty bits.
pub open spec fn quintet(n: int, j: int) -> int {
    if j == 0 {
        n / 0x8_0000_0000
    } else if j == 1 {
        n / 0x4000_0000 % 32
    } else if j == 2 {
        n / 0x200_0000 % 32
    } else if j == 3 {
        n / 0x10_0000 % 32
    } else if j == 4 {
        n / 0x8000 % 32
    } else if j == 5 {
        n / 0x400 % 32
    } else if j == 6 {
        n / 0x20 % 32
    } else {
        n % 32
    }
}

/// The characters of a group: as many as its bits fill, the last one filled up with zeros.
pub open spec fn group_digits(b: Seq<u8>) -> Seq<char> {
    Seq::new(((8 * b.len() + 4) / 5) as nat, |j: int| digit(quintet(group_value(b), j)))
}

/// The encoding of octets, five at a time.
pub open spec fn base32(b: Seq<u8>) -> Seq<char>
    decreases b.len(),
{
    if b.len() == 0 {
        Seq::empty()
    } else if b.len() <= 5 {
        group_digits(b)
    } else {
        group_digits(b.take(5)) + base32(b.skip(5))
    }
}

fn digit_of(v: u64) -> (c: char)
    requires
        v < 32,
    ensures
        c == digit(v as int),
{
    if v < 26 {
        (97 + v as u8) as char
    } else {
        (50 + (v - 26) as u8) as char
    }
}

fn octet_at(b: &[u8], i: usize) -> (r: u64)
    ensures
        r == octet_or_zero(b@, i as int),
        r < 256,
{
    if i < b.len() {
        b[i] as u64
    } else {
        0
    }
}

fn push_group(out: &mut String, b: &[u8])
    requires
        0 < b@.len() <= 5,
    ensures
        final(out)@ == old(out)@ + group_digits(b@),
{
    let n: u64 = octet_at(b, 0) * 0x1_0000_0000 + octet_at(b, 1) * 0x100_0000 + octet_at(b, 2)
        * 0x1_0000 + octet_at(b, 3) * 0x100 + octet_at(b, 4);
    let len: usize = b.len();
    let ghost before = out@;
    assert(n == group_value(b@) && n < 0x100_0000_0000);
    out.push(digit_of(n / 0x8_0000_0000));
    out.push(digit_of(n / 0x4000_0000 % 32));
    if len > 1 {
        out.push(digit_of(n / 0x200_0000 % 32));
        out.push(digit_of(n / 0x10_0000 % 32));
    }
    if len > 2 {
        out.push(digit_of(n / 0x8000 % 32));
    }
    if len > 3 {
        out.push(digit_of(n / 0x400 % 32));
        out.push(digit_of(n / 0x20 % 32));
    }
    if len > 4 {
        out.push(digit_of(n % 32));
    }
    assert(out@ =~= before + group_digits(b@));
}

/// Encodes octets.
pub fn base32_lower(input: &[u8]) -> (r: String)
    ensures
        r@ == base32(input@),
{
    let n: usize = input.len();
    let mut out = String::new();
    let mut i: usize = 0;
    assert(input@.skip(0) =~= input@);
    assert(out@ + base32(input@) =~= base32(input@));
    while i < n
        invariant
            n == input@.len(),
            i <= n,
            out@ + base32(input@.skip(i as int)) == base32(input@),
        decreases n - i,
    {
        let ghost rest = input@.skip(i as int);
        let ghost before = out@;
        if n - i <= 5 {
            let group = slice_subrange(input, i, n);
            assert(group@ =~= rest);
            push_group(&mut out, group);
            assert(input@.skip(n as int) =~= Seq::<u8>::empty());
            assert(out@ + base32(input@.skip(n as int)) =~= out@);
            i = n;
        } else {
            let group = slice_subrange(input, i, i + 5);
            assert(group@ =~= rest.take(5));
            push_group(&mut out, group);
            assert(rest.skip(5) =~= input@.skip(i + 5));
            assert(out@ + base32(rest.skip(5)) =~= before + base32(rest));
            i = i + 5;
        }
    }
    assert(input@.skip(n as int) =~= Seq::<u8>::empty());
    assert(out@ + Seq::<char>::empty() =~= out@);
    out
}

/// Every character of an encoding is in the alphabet; there are as many as the bits fill.
pub proof fn law_alphabet_and_length(b: Seq<u8>)
    ensures
        base32(b).len() == (8 * b.len() + 4) / 5,
        forall|i: int| 0 <= i < base32(b).len() ==> is_base32(#[trigger] base32(b)[i]),
    decreases b.len(),
{
    if b.len() > 5 {
        law_alphabet_and_length(b.skip(5));
        lemma_group(b.take(5));
        let g = group_digits(b.take(5));
        let r = base32(b.skip(5));
        assert forall|i: int| 0 <= i < base32(b).len() implies is_base32(#[trigger] base32(b)[i]) by {
            if i < g.len() {
                assert(is_base32(g[i]));
            } else {
                assert(is_base32(r[i - g.len()]));
            }
        }
    } else if b.len() > 0 {
        lemma_group(b);
    }
}

proof fn lemma_group(b: Seq<u8>)
    requires
        0 < b.len() <= 5,
    ensures
        forall|i: int| 0 <= i < group_digits(b).len() ==> is_base32(#[trigger] group_digits(b)[i]),
{
    let n = group_value(b);
    assert(0 <= n < 0x100_0000_0000);
    assert forall|i: int| 0 <= i < group_digits(b).len() implies is_base32(
        #[trigger] group_digits(b)[i],
    ) by {
        assert(0 <= quintet(n, i) < 32);
    }
}

/// The five-bit value of a character.
pub open spec fn value_of(c: char) -> int {
    if 'a' <= c && c <= 'z' {
        c as int - 97
    } else {
        c as int - 50 + 26
    }
}

proof fn lemma_value_of_digit(v: int)
    requires
        0 <= v < 32,
    ensures
        value_of(digit(v)) == v,
{
}

proof fn lemma_quintets(n: int)
    requires
        0 <= n < 0x100_0000_0000,
    ensures
        forall|j: int| 0 <= j < 8 ==> 0 <= #[trigger] quintet(n, j) < 32,
        (((((((quintet(n, 0) * 32 + quintet(n, 1)) * 32 + quintet(n, 2)) * 32 + quintet(n, 3)) * 32
            + quintet(n, 4)) * 32 + quintet(n, 5)) * 32 + quintet(n, 6)) * 32 + quintet(n, 7)) == n,
{
    let m1 = n / 0x20;
    let m2 = n / 0x400;
    let m3 = n / 0x8000;
    let m4 = n / 0x10_0000;
    let m5 = n / 0x200_0000;
    let m6 = n / 0x4000_0000;
    let m7 = n / 0x8_0000_0000;
    assert(m2 == m1 / 32);
    assert(m3 == m2 / 32);
    assert(m4 == m3 / 32);
    assert(m5 == m4 / 32);
    assert(m6 == m5 / 32);
    assert(m7 == m6 / 32);
    assert(n == m1 * 32 + n % 32);
    assert(m1 == m2 * 32 + m1 % 32);
    assert(m2 == m3 * 32 + m2 % 32);
    assert(m3 == m4 * 32 + m3 % 32);
    assert(m4 == m5 * 32 + m4 % 32);
    assert(m5 == m6 * 32 + m5 % 32);
    assert(m6 == m7 * 32 + m6 % 32);
}

/// Five octets are eight characters with the same forty bits, the first ones first; what follows is
/// encoded behind them. A group at the end that is short is filled up with zeros.
pub proof fn law_bits_are_kept(b: Seq<u8>)
    requires
        b.len() > 0,
    ensures
        b.len() > 5 ==> base32(b) == base32(b.take(5)) + base32(b.skip(5)),
        b.len() == 5 ==> ({
            let s = base32(b);
            &&& s.len() == 8
            &&& (((((((value_of(s[0]) * 32 + value_of(s[1])) * 32 + value_of(s[2])) * 32 + value_of(
                s[3],
            )) * 32 + value_of(s[4])) * 32 + value_of(s[5])) * 32 + value_of(s[6])) * 32 + value_of(
                s[7],
            )) == (((b[0] * 256 + b[1]) * 256 + b[2]) * 256 + b[3]) * 256 + b[4]
        }),
        b.len() == 1 ==> base32(b).len() == 2 && base32(b) == base32(
            b + seq![0u8, 0u8, 0u8, 0u8],
        ).take(2),
        b.len() == 2 ==> base32(b).len() == 4 && base32(b) == base32(b + seq![0u8, 0u8, 0u8]).take(4),
        b.len() == 3 ==> base32(b).len() == 5 && base32(b) == base32(b + seq![0u8, 0u8]).take(5),
        b.len() == 4 ==> base32(b).len() == 7 && base32(b) == base32(b + seq![0u8]).take(7),
{
    if b.len() == 5 {
        let n = group_value(b);
        lemma_quintets(n);
        lemma_value_of_digit(quintet(n, 0));
        lemma_value_of_digit(quintet(n, 1));
        lemma_value_of_digit(quintet(n, 2));
        lemma_value_of_digit(quintet(n, 3));
        lemma_value_of_digit(quintet(n, 4));
        lemma_value_of_digit(quintet(n, 5));
        lemma_value_of_digit(quintet(n, 6));
        lemma_value_of_digit(quintet(n, 7));
        let s = base32(b);
        assert(s[0] == digit(quintet(n, 0)));
        assert(s[1] == digit(quintet(n, 1)));
        assert(s[2] == digit(quintet(n, 2)));
        assert(s[3] == digit(quintet(n, 3)));
        assert(s[4] == digit(quintet(n, 4)));
        assert(s[5] == digit(quintet(n, 5)));
        assert(s[6] == digit(quintet(n, 6)));
        assert(s[7] == digit(quintet(n, 7)));
    }
    if b.len() == 1 {
        assert(base32(b) =~= base32(b + seq![0u8, 0u8, 0u8, 0u8]).take(2));
    } else if b.len() == 2 {
        assert(base32(b) =~= base32(b + seq![0u8, 0u8, 0u8]).take(4));
    } else if b.len() == 3 {
        assert(base32(b) =~= base32(b + seq![0u8, 0u8]).take(5));
    } else if b.len() == 4 {
        assert(base32(b) =~= base32(b + seq![0u8]).take(7));
    } else if b.len() > 5 {
        assert(base32(b.take(5)) == group_digits(b.take(5)));
    }
}

} // verus!
