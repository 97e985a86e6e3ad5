//! What signing and verifying promise together: a signed message verifies.

use crate::b64;
use crate::dkim;
use crate::dkim::{DkimError, DkimKeyModel};
use crate::rfc5322;
use crate::rfc5322::{HeaderModel, CR, LF};
use crate::text;
use vstd::prelude::*;

verus! {

// ---- text as octets ----------------------------------------------------------------------------

/// The octets of a text.
spec fn octets(s: Seq<char>) -> Seq<u8> {
    vstd::utf8::encode_utf8(s)
}

/// Whether a text may stand as the value of a tag: without white space and semicolons.
pub open spec fn is_token(s: Seq<char>) -> bool {
    forall|i: int| 0 <= i < s.len() ==> !text::is_white(#[trigger] s[i]) && s[i] != ';'
}

/// Whether a text is made of printable ASCII characters.
spec fn is_ascii(s: Seq<char>) -> bool {
    forall|i: int| 0 <= i < s.len() ==> '!' <= #[trigger] s[i] && s[i] <= '~'
}

proof fn lemma_octets_empty()
    ensures
        octets(Seq::empty()) == Seq::<u8>::empty(),
{
}

/// An ASCII character is one octet, and any other is made of octets beyond ASCII.
proof fn lemma_octets_of_char(c: char)
    ensures
        c <= '\u{7f}' ==> octets(seq![c]) == seq![c as u8],
        c > '\u{7f}' ==> forall|i: int| 0 <= i < octets(seq![c]).len() ==> #[trigger] octets(seq![c])[i] >= 128,
{
    let s = seq![c];
    let v = c as u32;
    assert(s.drop_first() =~= Seq::<char>::empty());
    assert(octets(s.drop_first()) =~= Seq::<u8>::empty());
    assert(octets(s) =~= vstd::utf8::encode_scalar(v));
    vstd::utf8::char_is_scalar(c);
    if c <= '\u{7f}' {
        assert(vstd::utf8::is_ascii_chars(s));
        vstd::utf8::is_ascii_chars_encode_utf8(s);
        assert(octets(s)[0] == s[0] as u8);
        assert(octets(s) =~= seq![c as u8]);
    } else {
        lemma_high_octets();
        let o = octets(s);
        assert forall|i: int| 0 <= i < o.len() implies #[trigger] o[i] >= 128 by {
            assert(i == 0 || i == 1 || i == 2 || i == 3);
        }
    }
}

proof fn lemma_high_octets()
    by (bit_vector)
    ensures
        forall|x: u8| #[trigger] (0x80u8 | x) >= 128u8,
        forall|x: u8| #[trigger] (0xC0u8 | x) >= 128u8,
        forall|x: u8| #[trigger] (0xE0u8 | x) >= 128u8,
        forall|x: u8| #[trigger] (0xF0u8 | x) >= 128u8,
{
}

proof fn lemma_octets_joined(a: Seq<char>, b: Seq<char>)
    ensures
        octets(a + b) == octets(a) + octets(b),
    decreases a.len(),
{
    if a.len() == 0 {
        assert(a + b =~= b);
        assert(octets(a) + octets(b) =~= octets(b));
    } else {
        lemma_octets_joined(a.drop_first(), b);
        assert((a + b).drop_first() =~= a.drop_first() + b);
        assert(octets(a + b) =~= octets(a) + octets(b));
    }
}

proof fn lemma_ascii_differ(a: char, b: char)
    requires
        a <= '\u{7f}',
        b <= '\u{7f}',
        a != b,
    ensures
        a as u8 != b as u8,
{
}

/// An octet that is an ASCII character stands in a text only where the character does.
proof fn lemma_octet_is_char(s: Seq<char>, c: char)
    requires
        c <= '\u{7f}',
        !s.contains(c),
    ensures
        !octets(s).contains(c as u8),
    decreases s.len(),
{
    if s.len() > 0 {
        let d = s.drop_last();
        let y = s[s.len() - 1];
        let l = seq![y];
        assert(s =~= d + l);
        assert(!d.contains(c)) by {
            if d.contains(c) {
                let i = choose|i: int| 0 <= i < d.len() && d[i] == c;
                assert(s[i] == c);
            }
        }
        assert(y != c);
        lemma_octet_is_char(d, c);
        lemma_octets_joined(d, l);
        lemma_octets_of_char(y);
        if octets(s).contains(c as u8) {
            let k = choose|k: int| 0 <= k < octets(s).len() && octets(s)[k] == c as u8;
            if k < octets(d).len() {
                assert(octets(d)[k] == c as u8);
                assert(octets(d).contains(c as u8));
            } else {
                let x = octets(l)[k - octets(d).len()];
                assert(x == c as u8);
                assert((c as u8) < 128);
                if y <= '\u{7f}' {
                    lemma_ascii_differ(y, c);
                }
            }
        }
    }
}

/// The octets of an ASCII text are its characters.
proof fn lemma_octets_of_ascii(s: Seq<char>)
    requires
        is_ascii(s),
    ensures
        octets(s).len() == s.len(),
        forall|i: int| 0 <= i < s.len() ==> #[trigger] octets(s)[i] == s[i] as u8,
{
    assert(vstd::utf8::is_ascii_chars(s));
    vstd::utf8::is_ascii_chars_encode_utf8(s);
}

/// What no octet of the value of a tag is.
proof fn lemma_octets_of_token(s: Seq<char>)
    requires
        is_token(s),
    ensures
        forall|i: int|
            0 <= i < octets(s).len() ==> !dkim::is_fold(#[trigger] octets(s)[i]) && octets(s)[i] != 59,
{
    lemma_absent(s, ' ');
    lemma_absent(s, '\t');
    lemma_absent(s, '\r');
    lemma_absent(s, '\n');
    lemma_absent(s, ';');
    let o = octets(s);
    assert forall|i: int| 0 <= i < o.len() implies !dkim::is_fold(#[trigger] o[i]) && o[i] != 59 by {
        assert(o.contains(o[i]));
    }
}

proof fn lemma_absent(s: Seq<char>, c: char)
    requires
        is_token(s),
        c == ' ' || c == '\t' || c == '\r' || c == '\n' || c == ';',
    ensures
        !octets(s).contains(c as u8),
{
    if s.contains(c) {
        let i = choose|i: int| 0 <= i < s.len() && s[i] == c;
        assert(!text::is_white(s[i]) && s[i] != ';');
    }
    lemma_octet_is_char(s, c);
}

proof fn lemma_token_joined(a: Seq<char>, b: Seq<char>)
    requires
        is_token(a),
        is_token(b),
    ensures
        is_token(a + b),
{
    let s = a + b;
    assert forall|i: int| 0 <= i < s.len() implies !text::is_white(#[trigger] s[i]) && s[i] != ';' by {
        if i < a.len() {
            assert(s[i] == a[i]);
        } else {
            assert(s[i] == b[i - a.len()]);
        }
    }
}

// ---- a field in front of a message -------------------------------------------------------------

proof fn lemma_blank_behind(p: Seq<u8>, m: Seq<u8>, k: int)
    requires
        0 <= k,
    ensures
        rfc5322::first_blank(p + m, p.len() + k) == (match rfc5322::first_blank(m, k) {
            Some(i) => Some(p.len() + i),
            None => None,
        }),
    decreases m.len() - k,
{
    let b = p + m;
    if k + 3 < m.len() {
        assert(b[p.len() + k] == m[k] && b[p.len() + k + 1] == m[k + 1] && b[p.len() + k + 2]
            == m[k + 2] && b[p.len() + k + 3] == m[k + 3]);
        if !(rfc5322::crlf_at(m, k) && rfc5322::crlf_at(m, k + 2)) {
            lemma_blank_behind(p, m, k + 1);
        }
    }
}

proof fn lemma_blank_skip(b: Seq<u8>, from: int, to: int)
    requires
        0 <= from <= to,
        forall|j: int| from <= j < to ==> !(rfc5322::crlf_at(b, j) && #[trigger] rfc5322::crlf_at(b, j + 2)),
    ensures
        rfc5322::first_blank(b, from) == rfc5322::first_blank(b, to),
    decreases to - from,
{
    if from < to {
        assert(!(rfc5322::crlf_at(b, from) && rfc5322::crlf_at(b, from + 2)));
        lemma_blank_skip(b, from + 1, to);
    }
}

/// Whether a line holds no carriage return.
spec fn one_line(l: Seq<u8>) -> bool {
    forall|i: int| 0 <= i < l.len() ==> #[trigger] l[i] != CR
}

/// A line put in front of a message is the first line of its header block, and the body stays.
proof fn lemma_prepend(l: Seq<u8>, m: Seq<u8>)
    requires
        one_line(l),
        !rfc5322::crlf_at(m, 0),
    ensures
        rfc5322::head_of(l + rfc5322::crlf() + m) == l + rfc5322::crlf() + rfc5322::head_of(m),
        rfc5322::body_of(l + rfc5322::crlf() + m) == rfc5322::body_of(m),
{
    let p = l + rfc5322::crlf();
    let b = p + m;
    assert forall|j: int| 0 <= j < p.len() implies !(rfc5322::crlf_at(b, j)
        && #[trigger] rfc5322::crlf_at(b, j + 2)) by {
        if j < l.len() {
            assert(b[j] == l[j]);
        } else if j == l.len() {
            if rfc5322::crlf_at(b, j + 2) {
                assert(b[j + 2] == m[0]);
                assert(b[j + 3] == m[1]);
            }
        } else {
            assert(b[j] == LF);
        }
    }
    lemma_blank_skip(b, 0, p.len() as int);
    lemma_blank_behind(p, m, 0);
    rfc5322::lemma_first_blank(m, 0);
    match rfc5322::first_blank(m, 0) {
        Some(i) => {
            assert(b.take(p.len() + i) =~= p + m.take(i));
            assert(b.skip(p.len() + i + 4) =~= m.skip(i + 4));
        },
        None => {},
    }
}

proof fn lemma_crlf_skip(b: Seq<u8>, from: int, to: int)
    requires
        0 <= from <= to,
        forall|j: int| from <= j < to ==> !rfc5322::crlf_at(b, j),
    ensures
        rfc5322::first_crlf(b, from) == rfc5322::first_crlf(b, to),
    decreases to - from,
{
    if from < to {
        lemma_crlf_skip(b, from + 1, to);
    }
}

proof fn lemma_first_line(l: Seq<u8>, rest: Seq<u8>)
    requires
        one_line(l),
    ensures
        rfc5322::lines(l + rfc5322::crlf() + rest) == seq![l] + rfc5322::lines(rest),
        rfc5322::lines(l) == seq![l],
{
    let b = l + rfc5322::crlf() + rest;
    let n = l.len() as int;
    assert forall|j: int| 0 <= j < n implies !rfc5322::crlf_at(b, j) by {
        assert(b[j] == l[j]);
    }
    lemma_crlf_skip(b, 0, n);
    assert(b[n] == CR && b[n + 1] == LF);
    assert(rfc5322::first_crlf(b, 0) == Some(n));
    assert(b.take(n) =~= l);
    assert(b.skip(n + 2) =~= rest);
    rfc5322::lemma_first_crlf(l, 0);
    match rfc5322::first_crlf(l, 0) {
        Some(i) => {
            assert(l[i] == CR);
        },
        None => {},
    }
}

/// Whether the first line of a header block is a field.
pub open spec fn begins_with_field(head: Seq<u8>) -> bool {
    let l = rfc5322::lines(head)[0];
    l.len() > 0 && !rfc5322::is_wsp(l[0]) && l.contains(58u8)
}

proof fn lemma_fields_behind(l: Seq<u8>, d: HeaderModel, ls: Seq<Seq<u8>>)
    requires
        ls.len() > 0,
        rfc5322::with_line(Seq::empty(), l) == seq![d],
        ls[0].len() > 0,
        !rfc5322::is_wsp(ls[0][0]),
        ls[0].contains(58u8),
    ensures
        rfc5322::fields(ls).len() > 0,
        rfc5322::fields(seq![l] + ls) == seq![d] + rfc5322::fields(ls),
    decreases ls.len(),
{
    let all = seq![l] + ls;
    if ls.len() == 1 {
        let x = ls[0];
        x.index_of_first_ensures(58u8);
        assert(ls.drop_last() =~= Seq::<Seq<u8>>::empty());
        assert(rfc5322::fields(ls.drop_last()) =~= Seq::<HeaderModel>::empty());
        assert(all.drop_last() =~= seq![l]);
        assert(all.drop_last().drop_last() =~= Seq::<Seq<u8>>::empty());
        assert(rfc5322::fields(all.drop_last().drop_last()) =~= Seq::<HeaderModel>::empty());
        assert(rfc5322::fields(all.drop_last()) == seq![d]);
        assert(rfc5322::fields(all) =~= seq![d] + rfc5322::fields(ls));
    } else {
        lemma_fields_behind(l, d, ls.drop_last());
        assert(all.drop_last() =~= seq![l] + ls.drop_last());
        let g = rfc5322::fields(ls.drop_last());
        let x = ls.last();
        assert((seq![d] + g).last() == g.last());
        assert((seq![d] + g).drop_last() =~= seq![d] + g.drop_last());
        assert(rfc5322::fields(all) =~= seq![d] + rfc5322::fields(ls));
    }
}

proof fn lemma_last_behind(d: HeaderModel, h: Seq<HeaderModel>, name: Seq<char>)
    requires
        rfc5322::last_named(h, name) is None,
        rfc5322::is_named(d, name),
    ensures
        rfc5322::last_named(seq![d] + h, name) == Some(d),
    decreases h.len(),
{
    let all = seq![d] + h;
    if h.len() > 0 {
        assert(all.last() == h.last());
        assert(all.drop_last() =~= seq![d] + h.drop_last());
        lemma_last_behind(d, h.drop_last(), name);
    }
}

proof fn lemma_nth_behind(d: HeaderModel, h: Seq<HeaderModel>, name: Seq<char>, n: nat)
    requires
        !rfc5322::is_named(d, name),
    ensures
        rfc5322::nth_from_bottom(seq![d] + h, name, n) == rfc5322::nth_from_bottom(h, name, n),
    decreases h.len(),
{
    let all = seq![d] + h;
    if h.len() > 0 {
        assert(all.last() == h.last());
        assert(all.drop_last() =~= seq![d] + h.drop_last());
        lemma_nth_behind(d, h.drop_last(), name, n);
        if n > 0 {
            lemma_nth_behind(d, h.drop_last(), name, (n - 1) as nat);
        }
    } else {
        assert(all.last() == d);
        assert(all.drop_last() =~= Seq::<HeaderModel>::empty());
        assert(rfc5322::nth_from_bottom(all.drop_last(), name, n) is None);
    }
}

proof fn lemma_bound_behind(d: HeaderModel, h: Seq<HeaderModel>, names: Seq<Seq<char>>)
    requires
        forall|i: int| 0 <= i < names.len() ==> !rfc5322::is_named(d, text::trim(#[trigger] names[i])),
    ensures
        dkim::bound_fields(seq![d] + h, names) == dkim::bound_fields(h, names),
    decreases names.len(),
{
    if names.len() > 0 {
        let rest = names.drop_last();
        let key = text::trim(names.last());
        assert forall|i: int| 0 <= i < rest.len() implies !rfc5322::is_named(
            d,
            text::trim(#[trigger] rest[i]),
        ) by {
            assert(rest[i] == names[i]);
        }
        lemma_bound_behind(d, h, rest);
        assert(names.last() == names[names.len() - 1]);
        lemma_nth_behind(d, h, key, dkim::times_listed(rest, key));
    }
}

// ---- reading a tag list back -------------------------------------------------------------------

type Tags = Seq<(Seq<char>, Seq<char>)>;

/// The parts of a tag list with a space in front of each.
spec fn blank_parts(tags: Tags) -> Seq<Seq<char>> {
    Seq::new(tags.len(), |i: int| seq![' '] + dkim::tag_text(tags[i]))
}

/// Whether a tag can be written and read back.
spec fn clean(t: (Seq<char>, Seq<char>)) -> bool {
    t.0.len() > 0 && is_token(t.0) && is_ascii(t.0) && !t.0.contains('=') && is_token(t.1)
}

spec fn all_clean(tags: Tags) -> bool {
    forall|i: int| 0 <= i < tags.len() ==> clean(#[trigger] tags[i])
}

proof fn lemma_blank_list(tags: Tags)
    requires
        tags.len() > 0,
    ensures
        seq![' '] + dkim::tag_list(tags) == text::join(blank_parts(tags), ';'),
{
    let a = dkim::tag_parts(tags);
    let b = blank_parts(tags);
    if tags.len() == 1 {
        assert(text::join(b, ';') == b[0]);
    } else {
        let rest = a.skip(1);
        assert(b.skip(1) =~= rest);
        assert(a =~= seq![a[0]] + rest);
        assert(b =~= seq![b[0]] + rest);
        text::lemma_join_front(a[0], rest, ';');
        text::lemma_join_front(b[0], rest, ';');
        assert(seq![' '] + (a[0].push(';') + text::join(rest, ';')) =~= b[0].push(';')
            + text::join(rest, ';'));
    }
}

proof fn lemma_trim_word(s: Seq<char>)
    requires
        s.len() > 0,
        !text::is_white(s[0]),
        !text::is_white(s.last()),
    ensures
        text::trim(s) == s,
{
}

proof fn lemma_no_white(s: Seq<char>)
    requires
        is_token(s),
    ensures
        dkim::without_white(s) == s,
    decreases s.len(),
{
    if s.len() > 0 {
        assert(!text::is_white(s[s.len() - 1]));
        assert forall|i: int| 0 <= i < s.drop_last().len() implies !text::is_white(
            #[trigger] s.drop_last()[i],
        ) && s.drop_last()[i] != ';' by {
            assert(s.drop_last()[i] == s[i]);
        }
        lemma_no_white(s.drop_last());
        assert(s.drop_last().push(s.last()) =~= s);
    }
}

proof fn lemma_tag_of(t: (Seq<char>, Seq<char>))
    requires
        clean(t),
    ensures
        dkim::tag_of(seq![' '] + dkim::tag_text(t)) == Some(t),
{
    let key = t.0;
    let val = t.1;
    let body = dkim::tag_text(t);
    let part = seq![' '] + body;
    assert(body[0] == key[0]);
    assert(!text::is_white(key[0]));
    if val.len() > 0 {
        assert(body.last() == val[val.len() - 1]);
        assert(!text::is_white(val[val.len() - 1]));
    } else {
        assert(body.last() == '=');
    }
    assert(part.skip(1) =~= body);
    lemma_trim_word(body);
    assert(text::strip_front(part, |c: char| text::is_white(c)) == text::strip_front(
        body,
        |c: char| text::is_white(c),
    )) by {
        assert(part[0] == ' ');
    }
    assert(text::trim(part) == body);
    body.index_of_first_ensures('=');
    assert(body[key.len() as int] == '=');
    assert(body.contains('='));
    let k = body.index_of_first('=')->0;
    if k < key.len() {
        assert(key[k] == '=');
        assert(key.contains('='));
    }
    assert(k == key.len());
    assert(body.take(k) =~= key);
    assert(body.skip(k + 1) =~= val);
    assert(!text::is_white(key[key.len() - 1]));
    lemma_trim_word(key);
    lemma_no_white(val);
}

proof fn lemma_find_tag(tags: Tags, name: Seq<char>, k: int)
    requires
        all_clean(tags),
        0 <= k < tags.len(),
        tags[k].0 == name,
        forall|j: int| 0 <= j < k ==> (#[trigger] tags[j]).0 != name,
    ensures
        dkim::tag_in(blank_parts(tags), name) == Some(tags[k].1),
    decreases k,
{
    let parts = blank_parts(tags);
    assert(clean(tags[0]));
    lemma_tag_of(tags[0]);
    assert(parts[0] == seq![' '] + dkim::tag_text(tags[0]));
    if k > 0 {
        let rest = tags.skip(1);
        assert(parts.skip(1) =~= blank_parts(rest));
        assert forall|i: int| 0 <= i < rest.len() implies clean(#[trigger] rest[i]) by {
            assert(rest[i] == tags[i + 1]);
        }
        assert forall|j: int| 0 <= j < k - 1 implies (#[trigger] rest[j]).0 != name by {
            assert(rest[j] == tags[j + 1]);
        }
        assert(rest[k - 1] == tags[k]);
        assert(tags[0].0 != name);
        lemma_find_tag(rest, name, k - 1);
    }
}

/// The tags of a list are found in what it is written as.
proof fn lemma_tag(tags: Tags, name: Seq<char>, k: int)
    requires
        all_clean(tags),
        0 <= k < tags.len(),
        tags[k].0 == name,
        forall|j: int| 0 <= j < k ==> (#[trigger] tags[j]).0 != name,
    ensures
        dkim::tag(seq![' '] + dkim::tag_list(tags), name) == Some(tags[k].1),
{
    let parts = blank_parts(tags);
    lemma_blank_list(tags);
    assert forall|i: int| 0 <= i < parts.len() implies !(#[trigger] parts[i]).contains(';') by {
        assert(clean(tags[i]));
        let p = parts[i];
        if p.contains(';') {
            let j = choose|j: int| 0 <= j < p.len() && p[j] == ';';
            if 1 <= j < 1 + tags[i].0.len() {
                assert(p[j] == tags[i].0[j - 1]);
            } else if j > 1 + tags[i].0.len() {
                assert(p[j] == tags[i].1[j - 2 - tags[i].0.len()]);
            }
        }
    }
    text::lemma_split_join(parts, ';');
    lemma_find_tag(tags, name, k);
}

// ---- emptying the signature --------------------------------------------------------------------

/// The tag list with the value of its last tag removed.
spec fn without_last_value(tags: Tags) -> Tags {
    tags.drop_last().push((tags.last().0, Seq::empty()))
}

/// Whether a tag cannot be taken for the tag `b`.
spec fn not_b(t: (Seq<char>, Seq<char>)) -> bool {
    t.0[0] != 'b' || t.0.len() >= 2
}

/// The octets of a part: a space, then those of the tag, none of which is a blank or a semicolon.
proof fn lemma_part_octets(t: (Seq<char>, Seq<char>))
    requires
        clean(t),
    ensures
        ({
            let body = octets(dkim::tag_text(t));
            &&& octets(seq![' '] + dkim::tag_text(t)) == seq![32u8] + body
            &&& forall|i: int|
                0 <= i < body.len() ==> !dkim::is_fold(#[trigger] body[i]) && body[i] != 59
            &&& body.len() >= 2
            &&& body[0] == t.0[0] as u8
            &&& t.0.len() >= 2 ==> body[1] == t.0[1] as u8
        }),
{
    let body = dkim::tag_text(t);
    assert(body =~= t.0 + (seq!['='] + t.1));
    lemma_octets_of_char(' ');
    lemma_octets_of_char('=');
    lemma_octets_joined(seq![' '], body);
    lemma_octets_joined(t.0, seq!['='] + t.1);
    lemma_octets_joined(seq!['='], t.1);
    lemma_octets_of_ascii(t.0);
    assert(is_token(seq!['=']));
    lemma_token_joined(seq!['='], t.1);
    lemma_token_joined(t.0, seq!['='] + t.1);
    lemma_octets_of_token(body);
}

/// Octets of one part that does not hold the tag `b` are kept.
proof fn lemma_keep_part(v: Seq<u8>, s: int, t: (Seq<char>, Seq<char>), j: int)
    requires
        clean(t),
        not_b(t),
        0 <= s,
        s + octets(seq![' '] + dkim::tag_text(t)).len() <= v.len(),
        v.subrange(s, s + octets(seq![' '] + dkim::tag_text(t)).len()) == octets(
            seq![' '] + dkim::tag_text(t),
        ),
        s <= j <= s + octets(seq![' '] + dkim::tag_text(t)).len(),
    ensures
        dkim::emptied_from(v, j) == v.subrange(
            j,
            s + octets(seq![' '] + dkim::tag_text(t)).len(),
        ) + dkim::emptied_from(v, s + octets(seq![' '] + dkim::tag_text(t)).len()),
    decreases s + octets(seq![' '] + dkim::tag_text(t)).len() - j,
{
    let part = octets(seq![' '] + dkim::tag_text(t));
    let body = octets(dkim::tag_text(t));
    let e = s + part.len();
    let sub = v.subrange(s, e);
    lemma_part_octets(t);
    if j == e {
        assert(v.subrange(j, e) + dkim::emptied_from(v, e) =~= dkim::emptied_from(v, e));
    } else {
        lemma_keep_part(v, s, t, j + 1);
        assert(v[j] == sub[j - s]);
        assert(!dkim::b_tag_at(v, j)) by {
            if j == s {
                assert(part[0] == 32);
            } else if j == s + 1 {
                assert(part[1] == body[0]);
                assert('!' <= t.0[0] && t.0[0] <= '~');
                if t.0[0] == 'b' {
                    assert(v[j + 1] == sub[2]);
                    assert(part[2] == body[1]);
                    assert(!dkim::is_fold(body[1]));
                    assert('!' <= t.0[1] && t.0[1] <= '~');
                    assert(t.0[1] != '=') by {
                        if t.0[1] == '=' {
                            assert(t.0.contains('='));
                        }
                    }
                    assert(dkim::skip_wsp(v, j + 1) == j + 1);
                }
            } else {
                assert(v[j - 1] == sub[j - 1 - s]);
                assert(part[j - 1 - s] == body[j - 2 - s]);
                assert(dkim::back_over_wsp(v, j) == j);
            }
        }
        assert(seq![v[j]] + (v.subrange(j + 1, e) + dkim::emptied_from(v, e)) =~= v.subrange(j, e)
            + dkim::emptied_from(v, e));
    }
}

proof fn lemma_next_semicolon_end(v: Seq<u8>, m: int)
    requires
        0 <= m <= v.len(),
        forall|i: int| m <= i < v.len() ==> #[trigger] v[i] != 59,
    ensures
        dkim::next_semicolon(v, m) == v.len(),
    decreases v.len() - m,
{
    if m < v.len() {
        lemma_next_semicolon_end(v, m + 1);
    }
}

proof fn lemma_emptied(pre: Seq<char>, tags: Tags)
    requires
        tags.len() > 0,
        all_clean(tags),
        tags.last().0 == seq!['b'],
        forall|i: int| 0 <= i < tags.len() - 1 ==> not_b(#[trigger] tags[i]),
        pre.len() > 0 ==> pre.last() == ';',
        pre.len() == 0 ==> tags.len() > 1,
    ensures
        dkim::emptied_from(
            octets(pre + text::join(blank_parts(tags), ';')),
            octets(pre).len() as int,
        ) == octets(text::join(blank_parts(without_last_value(tags)), ';')),
    decreases tags.len(),
{
    let whole = pre + text::join(blank_parts(tags), ';');
    let v = octets(whole);
    let s = octets(pre).len() as int;
    let t = tags[0];
    let part = seq![' '] + dkim::tag_text(t);
    assert(clean(t));
    assert(blank_parts(tags)[0] == part);
    let short = without_last_value(tags);
    lemma_octets_of_char(';');
    if tags.len() == 1 {
        let val = t.1;
        let front = seq![' ', 'b', '='];
        assert(text::join(blank_parts(tags), ';') == part);
        assert(part =~= front + val);
        lemma_octets_joined(pre, part);
        lemma_octets_joined(front, val);
        lemma_front_octets();
        assert(pre =~= pre.drop_last() + seq![';']);
        lemma_octets_joined(pre.drop_last(), seq![';']);
        let o = octets(val);
        assert(v == octets(pre) + (seq![32u8, 98u8, 61u8] + o));
        assert(v[s - 1] == 59 && v[s] == 32 && v[s + 1] == 98 && v[s + 2] == 61);
        assert(dkim::back_over_wsp(v, s) == s);
        assert(dkim::back_over_wsp(v, s + 1) == s);
        assert(dkim::skip_wsp(v, s + 2) == s + 2);
        assert(dkim::b_tag_at(v, s + 1));
        lemma_octets_of_token(val);
        assert forall|i: int| s + 3 <= i < v.len() implies #[trigger] v[i] != 59 by {
            assert(v[i] == o[i - s - 3]);
        }
        lemma_next_semicolon_end(v, s + 3);
        assert(dkim::emptied_from(v, v.len() as int) =~= Seq::<u8>::empty());
        assert(dkim::emptied_from(v, s + 1) =~= seq![98u8, 61u8]);
        assert(dkim::emptied_from(v, s) =~= seq![32u8, 98u8, 61u8]);
        let end = blank_parts(short)[0];
        assert(text::join(blank_parts(short), ';') == end);
        assert(end =~= front);
    } else {
        let rest = tags.skip(1);
        let tail = text::join(blank_parts(rest), ';');
        let next = pre + part + seq![';'];
        assert(blank_parts(tags) =~= seq![part] + blank_parts(rest));
        text::lemma_join_front(part, blank_parts(rest), ';');
        assert(whole =~= next + tail);
        lemma_octets_joined(next, tail);
        lemma_octets_joined(pre + part, seq![';']);
        lemma_octets_joined(pre, part);
        assert forall|i: int| 0 <= i < rest.len() implies clean(#[trigger] rest[i]) by {
            assert(rest[i] == tags[i + 1]);
        }
        assert forall|i: int| 0 <= i < rest.len() - 1 implies not_b(#[trigger] rest[i]) by {
            assert(rest[i] == tags[i + 1]);
        }
        assert(rest.last() == tags.last());
        lemma_emptied(next, rest);
        let e = s + octets(part).len();
        assert(not_b(t));
        assert(v.subrange(s, e) =~= octets(part));
        lemma_keep_part(v, s, t, s);
        assert(v[e] == 59);
        assert(!dkim::b_tag_at(v, e));
        assert(dkim::emptied_from(v, e) == seq![59u8] + dkim::emptied_from(v, e + 1));
        assert(octets(next).len() == e + 1);
        let short_rest = without_last_value(rest);
        assert(blank_parts(short) =~= seq![part] + blank_parts(short_rest)) by {
            assert forall|i: int| 0 <= i < short.len() implies #[trigger] blank_parts(short)[i] == (
            seq![part] + blank_parts(short_rest))[i] by {
                if i > 0 {
                    assert(short[i] == short_rest[i - 1]);
                }
            }
        }
        text::lemma_join_front(part, blank_parts(short_rest), ';');
        let end = text::join(blank_parts(short_rest), ';');
        assert(text::join(blank_parts(short), ';') =~= part + (seq![';'] + end));
        lemma_octets_joined(part, seq![';'] + end);
        lemma_octets_joined(seq![';'], end);
    }
}

proof fn lemma_front_octets()
    ensures
        octets(seq![' ', 'b', '=']) == seq![32u8, 98u8, 61u8],
{
    assert(seq![' ', 'b', '='] =~= seq![' '] + (seq!['b'] + seq!['=']));
    lemma_octets_joined(seq![' '], seq!['b'] + seq!['=']);
    lemma_octets_joined(seq!['b'], seq!['=']);
    lemma_octets_of_char(' ');
    lemma_octets_of_char('b');
    lemma_octets_of_char('=');
}

// ---- the signature field as a whole ------------------------------------------------------------

proof fn lemma_tokens(t: u64, b: Seq<u8>)
    ensures
        is_token(text::dec(t as nat)),
        is_token(b64::encoding(b)),
{
    text::lemma_dec_round_trip(t as nat);
    let d = text::dec(t as nat);
    assert forall|i: int| 0 <= i < d.len() implies !text::is_white(#[trigger] d[i]) && d[i]
        != ';' by {
        assert(text::is_digit(d[i]));
    }
    b64::law_alphabet_and_length(b);
    let e = b64::encoding(b);
    assert forall|i: int| 0 <= i < e.len() implies !text::is_white(#[trigger] e[i]) && e[i]
        != ';' by {
        assert(b64::is_base64(e[i]));
    }
}

/// Whether a text can be a name in the tag `h`: not empty, a token, and without a colon.
spec fn is_name(s: Seq<char>) -> bool {
    s.len() > 0 && is_token(s) && !s.contains(':')
}

proof fn lemma_names_are_names()
    ensures
        forall|i: int| 0 <= i < 5 ==> is_name(#[trigger] dkim::signed_names()[i]),
        is_name("from"@),
        forall|i: int| 0 <= i < 5 ==> (#[trigger] dkim::signed_names()[i]).len() < 14,
        "from"@.len() < 14,
{
    reveal_strlit("from");
    reveal_strlit("to");
    reveal_strlit("subject");
    reveal_strlit("date");
    reveal_strlit("message-id");
    lemma_is_name("from"@);
    lemma_is_name("to"@);
    lemma_is_name("subject"@);
    lemma_is_name("date"@);
    lemma_is_name("message-id"@);
}

proof fn lemma_is_name(s: Seq<char>)
    requires
        s.len() > 0,
        forall|i: int|
            0 <= i < s.len() ==> '!' <= #[trigger] s[i] && s[i] <= '~' && s[i] != ';' && s[i] != ':',
    ensures
        is_name(s),
{
}

spec fn all_names(names: Seq<Seq<char>>) -> bool {
    forall|i: int| 0 <= i < names.len() ==> is_name(#[trigger] names[i]) && names[i].len() < 14
}

proof fn lemma_present_names(h: Seq<HeaderModel>, names: Seq<Seq<char>>)
    requires
        all_names(names),
    ensures
        all_names(dkim::present(h, names)),
    decreases names.len(),
{
    if names.len() > 0 {
        let d = names.drop_last();
        assert forall|i: int| 0 <= i < d.len() implies is_name(#[trigger] d[i]) && d[i].len() < 14 by {
            assert(d[i] == names[i]);
        }
        lemma_present_names(h, d);
        assert(is_name(names[names.len() - 1]));
    }
}

proof fn lemma_listed_names(h: Seq<HeaderModel>)
    ensures
        all_names(dkim::listed_names(h)),
        dkim::listed_names(h).len() > 0,
        dkim::lists_from(dkim::listed_names(h)),
{
    lemma_names_are_names();
    lemma_present_names(h, dkim::signed_names());
    let p = dkim::present(h, dkim::signed_names());
    let c = dkim::extra_from(rfc5322::count_named(h, "from"@));
    lemma_with_from_names(p, c);
    let n = dkim::listed_names(h);
    assert(n[n.len() - 1] == "from"@);
}

proof fn lemma_with_from_names(names: Seq<Seq<char>>, n: nat)
    requires
        all_names(names),
    ensures
        all_names(dkim::with_from(names, n)),
    decreases n,
{
    if n > 0 {
        lemma_names_are_names();
        lemma_with_from_names(names, (n - 1) as nat);
    }
}

proof fn lemma_names_in(names: Seq<Seq<char>>)
    requires
        all_names(names),
    ensures
        dkim::names_in(names) == names,
    decreases names.len(),
{
    if names.len() > 0 {
        let d = names.drop_last();
        assert forall|i: int| 0 <= i < d.len() implies is_name(#[trigger] d[i]) && d[i].len() < 14 by {
            assert(d[i] == names[i]);
        }
        lemma_names_in(d);
        let l = names.last();
        assert(is_name(names[names.len() - 1]));
        assert(!text::is_white(l[0]));
        assert(!text::is_white(l[l.len() - 1]));
        lemma_trim_word(l);
        assert(d.push(l) =~= names);
    }
}

proof fn lemma_join_token(names: Seq<Seq<char>>)
    requires
        all_names(names),
    ensures
        is_token(text::join(names, ':')),
    decreases names.len(),
{
    if names.len() == 1 {
        assert(is_name(names[0]));
    } else if names.len() > 1 {
        let d = names.drop_last();
        assert forall|i: int| 0 <= i < d.len() implies is_name(#[trigger] d[i]) && d[i].len() < 14 by {
            assert(d[i] == names[i]);
        }
        lemma_join_token(d);
        let a = text::join(d, ':');
        let l = names.last();
        assert(is_name(names[names.len() - 1]));
        let s = text::join(names, ':');
        assert forall|i: int| 0 <= i < s.len() implies !text::is_white(#[trigger] s[i]) && s[i]
            != ';' by {
            if i < a.len() {
                assert(s[i] == a[i]);
            } else if i > a.len() {
                assert(s[i] == l[i - a.len() - 1]);
            }
        }
    }
}

/// The signature tags can be written and read back, and only the last of them is the tag `b`.
proof fn lemma_signature_tags(
    key: DkimKeyModel,
    t: u64,
    names: Seq<Seq<char>>,
    digest: Seq<u8>,
    b: Seq<char>,
)
    requires
        is_token(key.domain),
        is_token(key.selector),
        all_names(names),
        is_token(b),
    ensures
        ({
            let tags = dkim::signature_tags(key, t, names, b64::encoding(digest), b);
            &&& tags.len() == 9
            &&& all_clean(tags)
            &&& tags.last().0 == seq!['b']
            &&& forall|i: int| 0 <= i < tags.len() - 1 ==> not_b(#[trigger] tags[i])
        }),
{
    reveal_strlit("v");
    reveal_strlit("1");
    reveal_strlit("a");
    reveal_strlit("ed25519-sha256");
    reveal_strlit("c");
    reveal_strlit("relaxed/relaxed");
    reveal_strlit("d");
    reveal_strlit("s");
    reveal_strlit("t");
    reveal_strlit("h");
    reveal_strlit("bh");
    reveal_strlit("b");
    lemma_tokens(t, digest);
    lemma_join_token(names);
    let tags = dkim::signature_tags(key, t, names, b64::encoding(digest), b);
    assert("b"@ =~= seq!['b']);
    assert(clean(tags[0]));
    assert(clean(tags[1]));
    assert(clean(tags[2]));
    assert(clean(tags[3]));
    assert(clean(tags[4]));
    assert(clean(tags[5]));
    assert(clean(tags[6]));
    assert(clean(tags[7]));
    assert(clean(tags[8]));
}

proof fn lemma_tag_keys_differ()
    ensures
        "v"@ != "a"@,
        "v"@ != "c"@ && "a"@ != "c"@,
        "v"@ != "d"@ && "a"@ != "d"@ && "c"@ != "d"@,
        "v"@ != "s"@ && "a"@ != "s"@ && "c"@ != "s"@ && "d"@ != "s"@,
        "v"@ != "h"@ && "a"@ != "h"@ && "c"@ != "h"@ && "d"@ != "h"@ && "s"@ != "h"@ && "t"@
            != "h"@,
        "v"@ != "bh"@ && "a"@ != "bh"@ && "c"@ != "bh"@ && "d"@ != "bh"@ && "s"@ != "bh"@ && "t"@
            != "bh"@ && "h"@ != "bh"@,
        "v"@ != "b"@ && "a"@ != "b"@ && "c"@ != "b"@ && "d"@ != "b"@ && "s"@ != "b"@ && "t"@
            != "b"@ && "h"@ != "b"@ && "bh"@ != "b"@,
{
    reveal_strlit("v");
    reveal_strlit("a");
    reveal_strlit("c");
    reveal_strlit("d");
    reveal_strlit("s");
    reveal_strlit("t");
    reveal_strlit("h");
    reveal_strlit("bh");
    reveal_strlit("b");
    let v = "v"@[0];
    let a = "a"@[0];
    let c = "c"@[0];
    let d = "d"@[0];
    let s = "s"@[0];
    let t = "t"@[0];
    let h = "h"@[0];
    let b = "b"@[0];
    assert("bh"@.len() == 2);
}

/// The tags of a signature field read back.
proof fn lemma_tags_read_back(
    key: DkimKeyModel,
    t: u64,
    names: Seq<Seq<char>>,
    digest: Seq<u8>,
    b: Seq<char>,
)
    requires
        is_token(key.domain),
        is_token(key.selector),
        all_names(names),
        is_token(b),
    ensures
        ({
            let list = seq![' '] + dkim::tag_list(
                dkim::signature_tags(key, t, names, b64::encoding(digest), b),
            );
            &&& dkim::tag(list, "a"@) == Some("ed25519-sha256"@)
            &&& dkim::tag(list, "c"@) == Some("relaxed/relaxed"@)
            &&& dkim::tag(list, "d"@) == Some(key.domain)
            &&& dkim::tag(list, "s"@) == Some(key.selector)
            &&& dkim::tag(list, "h"@) == Some(text::join(names, ':'))
            &&& dkim::tag(list, "bh"@) == Some(b64::encoding(digest))
            &&& dkim::tag(list, "b"@) == Some(b)
        }),
{
    let tags = dkim::signature_tags(key, t, names, b64::encoding(digest), b);
    lemma_signature_tags(key, t, names, digest, b);
    lemma_tag_keys_differ();
    lemma_tag(tags, "a"@, 1);
    lemma_tag(tags, "c"@, 2);
    lemma_tag(tags, "d"@, 3);
    lemma_tag(tags, "s"@, 4);
    lemma_tag(tags, "h"@, 6);
    lemma_tag(tags, "bh"@, 7);
    lemma_tag(tags, "b"@, 8);
}

proof fn lemma_list_with_signature(
    key: DkimKeyModel,
    t: u64,
    names: Seq<Seq<char>>,
    bh: Seq<char>,
    b: Seq<char>,
)
    ensures
        dkim::tag_list(dkim::signature_tags(key, t, names, bh, b)) == dkim::tag_list(
            dkim::signature_tags(key, t, names, bh, Seq::empty()),
        ) + b,
        without_last_value(dkim::signature_tags(key, t, names, bh, b)) == dkim::signature_tags(
            key,
            t,
            names,
            bh,
            Seq::empty(),
        ),
{
    let full = dkim::signature_tags(key, t, names, bh, b);
    let bare = dkim::signature_tags(key, t, names, bh, Seq::empty());
    let p = dkim::tag_parts(full);
    let q = dkim::tag_parts(bare);
    assert(p.drop_last() =~= q.drop_last());
    assert(p.last() =~= q.last() + b);
    assert(text::join(p, ';') =~= text::join(q, ';') + b);
    assert(without_last_value(full) =~= bare);
}

/// A tag list is one line.
proof fn lemma_list_is_one_line(tags: Tags)
    requires
        tags.len() > 0,
        all_clean(tags),
    ensures
        one_line(octets(text::join(blank_parts(tags), ';'))),
    decreases tags.len(),
{
    let parts = blank_parts(tags);
    let t = tags.last();
    assert(clean(tags[tags.len() - 1]));
    let last = parts.last();
    assert(last == seq![' '] + dkim::tag_text(t));
    lemma_part_octets(t);
    let o = octets(last);
    assert forall|i: int| 0 <= i < o.len() implies #[trigger] o[i] != CR by {
        if i > 0 {
            assert(o[i] == octets(dkim::tag_text(t))[i - 1]);
        }
    }
    if tags.len() > 1 {
        let d = tags.drop_last();
        assert forall|i: int| 0 <= i < d.len() implies clean(#[trigger] d[i]) by {
            assert(d[i] == tags[i]);
        }
        lemma_list_is_one_line(d);
        assert(parts.drop_last() =~= blank_parts(d));
        let a = text::join(blank_parts(d), ';');
        assert(a.push(';') + last =~= a + (seq![';'] + last));
        lemma_octets_joined(a, seq![';'] + last);
        lemma_octets_joined(seq![';'], last);
        lemma_octets_of_char(';');
        let all = octets(text::join(parts, ';'));
        assert forall|i: int| 0 <= i < all.len() implies #[trigger] all[i] != CR by {
            if i < octets(a).len() {
                assert(all[i] == octets(a)[i]);
            } else if i > octets(a).len() {
                assert(all[i] == o[i - octets(a).len() - 1]);
            }
        }
    }
}

// ---- relaxed form ------------------------------------------------------------------------------

proof fn lemma_squeeze_front(x: Seq<u8>)
    ensures
        dkim::squeeze(seq![32u8] + x, false) == dkim::squeeze(x, false),
    decreases x.len(),
{
    let s = seq![32u8] + x;
    if x.len() == 0 {
        assert(s.drop_last() =~= Seq::<u8>::empty());
        assert(dkim::squeeze(s.drop_last(), false) =~= Seq::<u8>::empty());
    } else {
        lemma_squeeze_front(x.drop_last());
        assert(s.drop_last() =~= seq![32u8] + x.drop_last());
        assert(s.last() == x.last());
        if x.len() == 1 {
            assert(x.drop_last() =~= Seq::<u8>::empty());
            assert(dkim::squeeze(x.drop_last(), false) =~= Seq::<u8>::empty());
        } else {
            assert(s[s.len() - 2] == x[x.len() - 2]);
        }
    }
}

proof fn lemma_unfold_line(l: Seq<u8>)
    requires
        one_line(l),
    ensures
        dkim::unfold(l) == l,
{
    lemma_first_line(l, Seq::empty());
    let ls = seq![l];
    assert(ls.drop_last() =~= Seq::<Seq<u8>>::empty());
    assert(dkim::flatten(ls.drop_last()) =~= Seq::<u8>::empty());
    assert(dkim::flatten(ls) =~= l);
}

/// A blank in front of the value of a field does not change its relaxed form.
proof fn lemma_relaxed_front(name: Seq<char>, x: Seq<u8>)
    requires
        one_line(x),
    ensures
        dkim::relaxed_header(name, seq![32u8] + x) == dkim::relaxed_header(name, x),
{
    let y = seq![32u8] + x;
    assert(one_line(y)) by {
        assert forall|i: int| 0 <= i < y.len() implies #[trigger] y[i] != CR by {
            if i > 0 {
                assert(y[i] == x[i - 1]);
            }
        }
    }
    lemma_unfold_line(x);
    lemma_unfold_line(y);
    lemma_squeeze_front(x);
}

// ---- laws --------------------------------------------------------------------------------------

/// What a message is when the signature field is put in front of it.
pub open spec fn signed_message(key: DkimKeyModel, message: Seq<u8>, t: u64, sig: Seq<u8>) -> Seq<
    u8,
> {
    vstd::utf8::encode_utf8(
        dkim::signature_field(
            dkim::base_for(key, message, t, dkim::body_digest_of(message)),
            sig,
        ),
    ) + message
}

/// Whether a message can carry a signature: it begins with a field and has no signature yet.
pub open spec fn signable(message: Seq<u8>) -> bool {
    &&& begins_with_field(rfc5322::head_of(message))
    &&& rfc5322::last_named(dkim::message_fields(message), "dkim-signature"@) is None
}

proof fn lemma_no_leading_break(m: Seq<u8>)
    requires
        begins_with_field(rfc5322::head_of(m)),
    ensures
        !rfc5322::crlf_at(m, 0),
{
    if rfc5322::crlf_at(m, 0) {
        let h = rfc5322::head_of(m);
        rfc5322::lemma_first_blank(m, 0);
        rfc5322::lemma_first_crlf(h, 0);
        match rfc5322::first_blank(m, 0) {
            Some(i) => {
                if i == 1 {
                    assert(m[1] == CR);
                }
                if i >= 2 {
                    assert(h[0] == CR && h[1] == LF);
                    assert(rfc5322::crlf_at(h, 0));
                }
            },
            None => {},
        }
        assert(rfc5322::lines(h)[0].len() == 0);
    }
}

/// The value of the signature field of a signed message.
spec fn field_value(key: DkimKeyModel, message: Seq<u8>, t: u64, sig: Seq<u8>) -> Seq<char> {
    seq![' '] + dkim::tag_list(
        dkim::signature_tags(
            key,
            t,
            dkim::listed_names(dkim::message_fields(message)),
            b64::encoding(dkim::body_digest_of(message)),
            b64::encoding(sig),
        ),
    )
}

/// The fields and the body of a signed message.
proof fn lemma_signed_fields(key: DkimKeyModel, message: Seq<u8>, t: u64, sig: Seq<u8>)
    requires
        is_token(key.domain),
        is_token(key.selector),
        signable(message),
    ensures
        ({
            let d = HeaderModel {
                name: "DKIM-Signature"@,
                value: octets(field_value(key, message, t, sig)),
            };
            &&& dkim::message_fields(signed_message(key, message, t, sig)) == seq![d]
                + dkim::message_fields(message)
            &&& rfc5322::body_of(signed_message(key, message, t, sig)) == rfc5322::body_of(message)
            &&& one_line(octets(field_value(key, message, t, sig)))
        }),
{
    let digest = dkim::body_digest_of(message);
    let names = dkim::listed_names(dkim::message_fields(message));
    let b = b64::encoding(sig);
    let bh = b64::encoding(digest);
    let tags = dkim::signature_tags(key, t, names, bh, b);
    let value = field_value(key, message, t, sig);
    let base = dkim::base_for(key, message, t, digest);
    lemma_listed_names(dkim::message_fields(message));
    lemma_tokens(t, sig);
    lemma_signature_tags(key, t, names, digest, b);
    lemma_list_with_signature(key, t, names, bh, b);
    lemma_blank_list(tags);
    lemma_list_is_one_line(tags);
    reveal_strlit("DKIM-Signature: ");
    reveal_strlit("DKIM-Signature");
    reveal_strlit("\r\n");
    let name = "DKIM-Signature"@;
    let f = name + (seq![':'] + value);
    assert(f =~= "DKIM-Signature: "@ + base + b);
    let l = octets(f);
    assert(is_ascii(name));
    lemma_octets_of_ascii(name);
    lemma_octets_of_char(':');
    lemma_octets_joined(name, seq![':'] + value);
    lemma_octets_joined(seq![':'], value);
    text::lemma_lossy_of_text(name);
    // The octets of the field with its line break.
    let line = dkim::signature_field(base, sig);
    assert(line =~= f + "\r\n"@);
    lemma_octets_joined(f, "\r\n"@);
    assert("\r\n"@ =~= seq!['\r'] + seq!['\n']);
    lemma_octets_joined(seq!['\r'], seq!['\n']);
    lemma_octets_of_char('\r');
    lemma_octets_of_char('\n');
    assert(vstd::utf8::encode_utf8(line) =~= l + rfc5322::crlf());
    assert(one_line(l)) by {
        assert forall|i: int| 0 <= i < l.len() implies #[trigger] l[i] != CR by {
            if i < 14 {
                assert(l[i] == octets(name)[i]);
                assert('!' <= name[i] && name[i] <= '~');
            } else if i > 14 {
                assert(l[i] == octets(value)[i - 15]);
            }
        }
    }
    lemma_no_leading_break(message);
    lemma_prepend(l, message);
    let head = rfc5322::head_of(message);
    lemma_first_line(l, head);
    // The line is the field.
    l.index_of_first_ensures(58u8);
    assert(l[14] == 58u8);
    assert(l.contains(58u8));
    assert forall|j: int| 0 <= j < 14 implies l[j] != 58u8 by {
        assert(l[j] == octets(name)[j]);
        assert(octets(name)[j] == name[j] as u8);
    }
    assert(l.index_of_first(58u8) == Some(14int));
    assert(l.take(14) =~= octets(name));
    assert(l.skip(15) =~= octets(value));
    assert(l[0] == octets(name)[0]);
    assert(octets(name)[0] == name[0] as u8);
    assert(name[0] == 'D');
    let d = HeaderModel { name, value: octets(value) };
    assert(rfc5322::with_line(Seq::empty(), l) =~= seq![d]);
    let ls = rfc5322::lines(head);
    lemma_fields_behind(l, d, ls);
}

/// The names that the signature field lists.
pub open spec fn names_claimed(h: Seq<HeaderModel>) -> Seq<Seq<char>> {
    let list = text::lossy((rfc5322::last_named(h, "dkim-signature"@)->0).value);
    dkim::names_in(text::split(dkim::tag(list, "h"@)->0, ':'))
}

/// The signature field of a signed message is read back: it names the key, and what it claims to be
/// over is what was signed.
pub proof fn law_signature_is_read_back(
    key: DkimKeyModel,
    message: Seq<u8>,
    t: u64,
    sig: Seq<u8>,
)
    requires
        is_token(key.domain),
        is_token(key.selector),
        signable(message),
    ensures
        dkim::named_key(signed_message(key, message, t, sig)) == Some((key.domain, key.selector)),
        dkim::body_digest_of(signed_message(key, message, t, sig)) == dkim::body_digest_of(message),
        dkim::claimed(
            dkim::message_fields(signed_message(key, message, t, sig)),
            dkim::body_digest_of(message),
        ) == Ok::<(Seq<u8>, Seq<char>), DkimError>(
            (
                dkim::input_for(key, message, t, dkim::body_digest_of(message)),
                b64::encoding(sig),
            ),
        ),
        names_claimed(dkim::message_fields(signed_message(key, message, t, sig)))
            == dkim::listed_names(dkim::message_fields(message)),
{
    let digest = dkim::body_digest_of(message);
    let h = dkim::message_fields(message);
    let names = dkim::listed_names(h);
    let b = b64::encoding(sig);
    let bh = b64::encoding(digest);
    let tags = dkim::signature_tags(key, t, names, bh, b);
    let value = field_value(key, message, t, sig);
    let base = dkim::base_for(key, message, t, digest);
    let d = HeaderModel { name: "DKIM-Signature"@, value: octets(value) };
    lemma_signed_fields(key, message, t, sig);
    lemma_listed_names(h);
    lemma_tokens(t, sig);
    lemma_tokens(t, digest);
    lemma_signature_tags(key, t, names, digest, b);
    lemma_tags_read_back(key, t, names, digest, b);
    text::lemma_lossy_of_text(value);
    // The last signature field is the one in front.
    reveal_strlit("DKIM-Signature");
    reveal_strlit("dkim-signature");
    lemma_trim_word("DKIM-Signature"@);
    assert(text::lower("DKIM-Signature"@) =~= text::lower("dkim-signature"@));
    lemma_last_behind(d, h, "dkim-signature"@);
    // The listed names.
    lemma_names_no_colon(names);
    text::lemma_split_join(names, ':');
    lemma_names_in(names);
    // The field itself is none of the listed ones.
    assert forall|i: int| 0 <= i < names.len() implies !rfc5322::is_named(
        d,
        text::trim(#[trigger] names[i]),
    ) by {
        let n = names[i];
        assert(is_name(n) && n.len() < 14);
        assert(!text::is_white(n[0]));
        assert(!text::is_white(n[n.len() - 1]));
        lemma_trim_word(n);
        assert(text::lower(text::trim(d.name)).len() == 14);
        assert(text::lower(n).len() == n.len());
    }
    lemma_bound_behind(d, h, names);
    // The emptied value is the value that was signed.
    lemma_list_with_signature(key, t, names, bh, b);
    lemma_blank_list(tags);
    lemma_emptied(Seq::empty(), tags);
    assert(Seq::<char>::empty() + text::join(blank_parts(tags), ';') =~= value);
    let bare = dkim::signature_tags(key, t, names, bh, Seq::empty());
    lemma_blank_list(bare);
    lemma_octets_empty();
    assert(dkim::emptied_from(octets(value), 0) == octets(seq![' '] + base));
    lemma_octets_of_char(' ');
    lemma_octets_joined(seq![' '], base);
    assert(one_line(octets(base))) by {
        lemma_signature_tags(key, t, names, digest, Seq::empty());
        lemma_list_is_one_line(bare);
        let w = octets(seq![' '] + base);
        assert forall|i: int| 0 <= i < octets(base).len() implies #[trigger] octets(base)[i] != CR by {
            assert(w[i + 1] == octets(base)[i]);
        }
    }
    lemma_relaxed_front("DKIM-Signature"@, octets(base));
}

proof fn lemma_names_no_colon(names: Seq<Seq<char>>)
    requires
        all_names(names),
    ensures
        forall|i: int| 0 <= i < names.len() ==> !(#[trigger] names[i]).contains(':'),
{
    assert forall|i: int| 0 <= i < names.len() implies !(#[trigger] names[i]).contains(':') by {
        assert(is_name(names[i]));
    }
}

/// A message that was signed verifies under the public key of the signer.
pub proof fn law_signed_message_verifies(
    key: DkimKeyModel,
    message: Seq<u8>,
    t: u64,
    sig: Seq<u8>,
)
    requires
        is_token(key.domain),
        is_token(key.selector),
        signable(message),
        sig.len() == 64,
        dkim::dalek_public(key.seed).len() == 32,
        dkim::dalek_is_key(dkim::dalek_public(key.seed)),
        dkim::dalek_accepts(
            dkim::dalek_public(key.seed),
            dkim::sha256(dkim::input_for(key, message, t, dkim::body_digest_of(message))),
            sig,
        ),
    ensures
        dkim::verification(
            signed_message(key, message, t, sig),
            dkim::dalek_public(key.seed),
        ) == Ok::<(), DkimError>(()),
{
    law_signature_is_read_back(key, message, t, sig);
    b64::law_round_trip(sig);
}

/// A signature that does not list `from` is refused, whatever else it holds.
pub proof fn law_from_must_be_signed(h: Seq<HeaderModel>, body_digest: Seq<u8>)
    requires
        dkim::claimed(h, body_digest) is Ok,
    ensures
        ({
            let f = rfc5322::last_named(h, "dkim-signature"@)->0;
            let list = text::lossy(f.value);
            dkim::lists_from(dkim::names_in(text::split(dkim::tag(list, "h"@)->0, ':')))
        }),
{
}

/// A signed message whose body was changed, so that it has another digest in relaxed form, is
/// refused for its body.
pub proof fn law_changed_body_is_noticed(
    key: DkimKeyModel,
    message: Seq<u8>,
    t: u64,
    sig: Seq<u8>,
    changed: Seq<u8>,
    public_key: Seq<u8>,
)
    requires
        is_token(key.domain),
        is_token(key.selector),
        signable(message),
        dkim::message_fields(changed) == dkim::message_fields(
            signed_message(key, message, t, sig),
        ),
        dkim::body_digest_of(changed) != dkim::body_digest_of(message),
    ensures
        dkim::verification(changed, public_key) == Err::<(), DkimError>(
            DkimError::BodyHashMismatch,
        ),
{
    law_signature_is_read_back(key, message, t, sig);
    b64::law_round_trip(dkim::body_digest_of(message));
    b64::law_round_trip(dkim::body_digest_of(changed));
}

// ---- fields that are added later ---------------------------------------------------------------

/// Fields with one more among them, behind the first `k`.
pub open spec fn with_field(h: Seq<HeaderModel>, k: int, d: HeaderModel) -> Seq<HeaderModel> {
    h.take(k).push(d) + h.skip(k)
}

spec fn relaxed_len(f: Option<HeaderModel>) -> nat {
    match f {
        Some(x) => dkim::relaxed_header(x.name, x.value).len(),
        None => 0,
    }
}

/// The length of the first `c` fields of a name from the bottom, in relaxed form.
spec fn bottom_len(h: Seq<HeaderModel>, name: Seq<char>, c: nat) -> nat
    decreases c,
{
    if c == 0 {
        0
    } else {
        bottom_len(h, name, (c - 1) as nat) + relaxed_len(
            rfc5322::nth_from_bottom(h, name, (c - 1) as nat),
        )
    }
}

/// The length of all fields of a name, in relaxed form.
spec fn total_len(h: Seq<HeaderModel>, name: Seq<char>) -> nat
    decreases h.len(),
{
    if h.len() == 0 {
        0
    } else {
        total_len(h.drop_last(), name) + if rfc5322::is_named(h.last(), name) {
            relaxed_len(Some(h.last()))
        } else {
            0
        }
    }
}

proof fn lemma_bottom_step(h: Seq<HeaderModel>, name: Seq<char>, c: nat)
    requires
        h.len() > 0,
    ensures
        rfc5322::is_named(h.last(), name) && c > 0 ==> bottom_len(h, name, c) == relaxed_len(
            Some(h.last()),
        ) + bottom_len(h.drop_last(), name, (c - 1) as nat),
        !rfc5322::is_named(h.last(), name) ==> bottom_len(h, name, c) == bottom_len(
            h.drop_last(),
            name,
            c,
        ),
    decreases c,
{
    if c > 0 {
        lemma_bottom_step(h, name, (c - 1) as nat);
        if c == 1 {
            assert(bottom_len(h, name, 0) == 0);
            assert(bottom_len(h.drop_last(), name, 0) == 0);
        }
    }
}

proof fn lemma_bottom_is_total(h: Seq<HeaderModel>, name: Seq<char>, c: nat)
    requires
        c >= rfc5322::count_named(h, name),
    ensures
        bottom_len(h, name, c) == total_len(h, name),
    decreases h.len(), c,
{
    if h.len() == 0 {
        if c > 0 {
            lemma_bottom_is_total(h, name, (c - 1) as nat);
        }
    } else {
        lemma_bottom_step(h, name, c);
        if rfc5322::is_named(h.last(), name) {
            lemma_bottom_is_total(h.drop_last(), name, (c - 1) as nat);
        } else {
            lemma_bottom_is_total(h.drop_last(), name, c);
        }
    }
}

proof fn lemma_with_field_shape(h: Seq<HeaderModel>, k: int, d: HeaderModel)
    requires
        0 <= k <= h.len(),
    ensures
        with_field(h, k, d).len() == h.len() + 1,
        k == h.len() ==> with_field(h, k, d).last() == d && with_field(h, k, d).drop_last() == h,
        k < h.len() ==> with_field(h, k, d).last() == h.last() && with_field(h, k, d).drop_last()
            == with_field(h.drop_last(), k, d),
{
    let w = with_field(h, k, d);
    if k == h.len() {
        assert(w.drop_last() =~= h);
    } else {
        assert(w.drop_last() =~= with_field(h.drop_last(), k, d));
    }
}

proof fn lemma_total_with_field(h: Seq<HeaderModel>, k: int, d: HeaderModel, name: Seq<char>)
    requires
        0 <= k <= h.len(),
        rfc5322::is_named(d, name),
    ensures
        total_len(with_field(h, k, d), name) == total_len(h, name) + relaxed_len(Some(d)),
        rfc5322::count_named(with_field(h, k, d), name) == rfc5322::count_named(h, name) + 1,
    decreases h.len(),
{
    lemma_with_field_shape(h, k, d);
    if k < h.len() {
        lemma_total_with_field(h.drop_last(), k, d, name);
    }
}

proof fn lemma_others_with_field(
    h: Seq<HeaderModel>,
    k: int,
    d: HeaderModel,
    name: Seq<char>,
    n: nat,
)
    requires
        0 <= k <= h.len(),
        !rfc5322::is_named(d, name),
    ensures
        rfc5322::nth_from_bottom(with_field(h, k, d), name, n) == rfc5322::nth_from_bottom(
            h,
            name,
            n,
        ),
        rfc5322::last_named(with_field(h, k, d), name) == rfc5322::last_named(h, name),
    decreases h.len(),
{
    lemma_with_field_shape(h, k, d);
    if k < h.len() {
        lemma_others_with_field(h.drop_last(), k, d, name, n);
        if n > 0 {
            lemma_others_with_field(h.drop_last(), k, d, name, (n - 1) as nat);
        }
    }
}

proof fn lemma_same_name(h: Seq<HeaderModel>, a: Seq<char>, b: Seq<char>, n: nat)
    requires
        text::lower(a) == text::lower(b),
    ensures
        rfc5322::nth_from_bottom(h, a, n) == rfc5322::nth_from_bottom(h, b, n),
    decreases h.len(),
{
    if h.len() > 0 {
        lemma_same_name(h.drop_last(), a, b, n);
        if n > 0 {
            lemma_same_name(h.drop_last(), a, b, (n - 1) as nat);
        }
    }
}

proof fn lemma_same_listed(names: Seq<Seq<char>>, a: Seq<char>, b: Seq<char>)
    requires
        text::lower(a) == text::lower(b),
    ensures
        dkim::times_listed(names, a) == dkim::times_listed(names, b),
    decreases names.len(),
{
    if names.len() > 0 {
        lemma_same_listed(names.drop_last(), a, b);
    }
}

/// How much longer the bound fields get by a field that is added: as much as the fields of its name
/// get that are bound.
proof fn lemma_bound_with_field(
    h: Seq<HeaderModel>,
    k: int,
    d: HeaderModel,
    name: Seq<char>,
    names: Seq<Seq<char>>,
)
    requires
        0 <= k <= h.len(),
        rfc5322::is_named(d, name),
    ensures
        ({
            let c = dkim::times_listed(names, name);
            dkim::bound_fields(with_field(h, k, d), names).len() + bottom_len(h, name, c)
                == dkim::bound_fields(h, names).len() + bottom_len(with_field(h, k, d), name, c)
        }),
    decreases names.len(),
{
    if names.len() > 0 {
        let rest = names.drop_last();
        let key = text::trim(names.last());
        let w = with_field(h, k, d);
        let n = dkim::times_listed(rest, key);
        lemma_bound_with_field(h, k, d, name, rest);
        if text::lower(key) == text::lower(name) {
            lemma_same_name(h, key, name, n);
            lemma_same_name(w, key, name, n);
            lemma_same_listed(rest, key, name);
        } else {
            lemma_others_with_field(h, k, d, key, n);
        }
    }
}

/// A `From` field that is added later, at whatever place, to fields whose signature lists `from` more
/// often than it occurs changes what the signature is over, and leaves the signature as it is.
pub proof fn law_added_from_changes_the_input(
    h: Seq<HeaderModel>,
    k: int,
    d: HeaderModel,
    body_digest: Seq<u8>,
)
    requires
        0 <= k <= h.len(),
        rfc5322::is_named(d, "from"@),
        dkim::claimed(h, body_digest) is Ok,
        dkim::times_listed(names_claimed(h), "from"@) > rfc5322::count_named(h, "from"@),
    ensures
        dkim::claimed(with_field(h, k, d), body_digest) is Ok,
        dkim::claimed(with_field(h, k, d), body_digest)->Ok_0.1 == dkim::claimed(
            h,
            body_digest,
        )->Ok_0.1,
        dkim::claimed(with_field(h, k, d), body_digest)->Ok_0.0 != dkim::claimed(
            h,
            body_digest,
        )->Ok_0.0,
{
    let name = "from"@;
    let w = with_field(h, k, d);
    let names = names_claimed(h);
    let c = dkim::times_listed(names, name);
    assert(!rfc5322::is_named(d, "dkim-signature"@)) by {
        reveal_strlit("from");
        reveal_strlit("dkim-signature");
        assert(text::lower("from"@).len() == 4);
        assert(text::lower("dkim-signature"@).len() == 14);
    }
    lemma_others_with_field(h, k, d, "dkim-signature"@, 0);
    lemma_bound_with_field(h, k, d, name, names);
    lemma_total_with_field(h, k, d, name);
    lemma_bottom_is_total(h, name, c);
    lemma_bottom_is_total(w, name, c);
    let x = dkim::claimed(h, body_digest)->Ok_0.0;
    let y = dkim::claimed(w, body_digest)->Ok_0.0;
    assert(relaxed_len(Some(d)) > 0);
    assert(y.len() == x.len() + relaxed_len(Some(d)));
}

/// A signature lists `from` once more than it occurs.
pub proof fn law_from_is_listed_once_more(h: Seq<HeaderModel>)
    ensures
        dkim::times_listed(dkim::listed_names(h), "from"@) == rfc5322::count_named(h, "from"@) + 1,
{
    let f = "from"@;
    let n = rfc5322::count_named(h, f);
    reveal_strlit("from");
    lemma_trim_word(f);
    lemma_extra_is_listed(dkim::present(h, dkim::signed_names()), dkim::extra_from(n));
    lemma_present_from(h);
    lemma_found_is_named(h, f);
}

proof fn lemma_extra_is_listed(names: Seq<Seq<char>>, n: nat)
    requires
        text::trim("from"@) == "from"@,
    ensures
        dkim::times_listed(dkim::with_from(names, n), "from"@) == dkim::times_listed(names, "from"@)
            + n,
    decreases n,
{
    if n > 0 {
        let w = dkim::with_from(names, n);
        lemma_extra_is_listed(names, (n - 1) as nat);
        assert(w.drop_last() =~= dkim::with_from(names, (n - 1) as nat));
    }
}

proof fn lemma_found_is_named(h: Seq<HeaderModel>, name: Seq<char>)
    ensures
        rfc5322::last_named(h, name) is Some <==> rfc5322::count_named(h, name) > 0,
    decreases h.len(),
{
    if h.len() > 0 && !rfc5322::is_named(h.last(), name) {
        lemma_found_is_named(h.drop_last(), name);
    }
}

/// Among the present names `from` is listed once, if it occurs.
proof fn lemma_present_from(h: Seq<HeaderModel>)
    ensures
        dkim::times_listed(dkim::present(h, dkim::signed_names()), "from"@) == (if rfc5322::last_named(
            h,
            "from"@,
        ) is Some {
            1nat
        } else {
            0nat
        }),
{
    let n = dkim::signed_names();
    reveal_strlit("from");
    reveal_strlit("to");
    reveal_strlit("subject");
    reveal_strlit("date");
    reveal_strlit("message-id");
    lemma_trim_word("from"@);
    lemma_trim_word("to"@);
    lemma_trim_word("subject"@);
    lemma_trim_word("date"@);
    lemma_trim_word("message-id"@);
    assert(text::lower("from"@)[0] == 'f');
    assert(text::lower("date"@)[0] == 'd');
    assert(n.take(5) =~= n);
    assert(dkim::present(h, n.take(0)) =~= Seq::<Seq<char>>::empty());
    lemma_present_step(h, 0);
    lemma_present_step(h, 1);
    lemma_present_step(h, 2);
    lemma_present_step(h, 3);
    lemma_present_step(h, 4);
}

proof fn lemma_present_step(h: Seq<HeaderModel>, i: int)
    requires
        0 <= i < 5,
        text::trim(dkim::signed_names()[i]) == dkim::signed_names()[i],
    ensures
        ({
            let n = dkim::signed_names();
            dkim::times_listed(dkim::present(h, n.take(i + 1)), "from"@) == dkim::times_listed(
                dkim::present(h, n.take(i)),
                "from"@,
            ) + if rfc5322::last_named(h, n[i]) is Some && text::lower(n[i]) == text::lower("from"@) {
                1nat
            } else {
                0nat
            }
        }),
{
    let n = dkim::signed_names();
    let p = dkim::present(h, n.take(i + 1));
    assert(n.take(i + 1).drop_last() =~= n.take(i));
    assert(n.take(i + 1).last() == n[i]);
    if rfc5322::last_named(h, n[i]) is Some {
        assert(p.drop_last() =~= dkim::present(h, n.take(i)));
        assert(p.last() == n[i]);
    }
}

proof fn lemma_count_behind(d: HeaderModel, h: Seq<HeaderModel>, name: Seq<char>)
    requires
        !rfc5322::is_named(d, name),
    ensures
        rfc5322::count_named(seq![d] + h, name) == rfc5322::count_named(h, name),
    decreases h.len(),
{
    let all = seq![d] + h;
    if h.len() > 0 {
        assert(all.last() == h.last());
        assert(all.drop_last() =~= seq![d] + h.drop_last());
        lemma_count_behind(d, h.drop_last(), name);
    } else {
        assert(all.last() == d);
        assert(all.drop_last() =~= Seq::<HeaderModel>::empty());
        assert(rfc5322::count_named(all.drop_last(), name) == 0);
    }
}

/// One more `From` field that is added to a signed message, at whatever place among its fields, makes
/// the signature one over other octets than those that were signed: the message passes only if the
/// signature is accepted for those as well.
pub proof fn law_second_from_is_noticed(
    key: DkimKeyModel,
    message: Seq<u8>,
    t: u64,
    sig: Seq<u8>,
    changed: Seq<u8>,
    k: int,
    d: HeaderModel,
    public_key: Seq<u8>,
)
    requires
        is_token(key.domain),
        is_token(key.selector),
        signable(message),
        sig.len() == 64,
        0 <= k <= dkim::message_fields(signed_message(key, message, t, sig)).len(),
        rfc5322::is_named(d, "from"@),
        dkim::message_fields(changed) == with_field(
            dkim::message_fields(signed_message(key, message, t, sig)),
            k,
            d,
        ),
        dkim::body_digest_of(changed) == dkim::body_digest_of(message),
        public_key.len() == 32,
        dkim::dalek_is_key(public_key),
    ensures
        ({
            let signed = dkim::input_for(key, message, t, dkim::body_digest_of(message));
            let c = dkim::claimed(dkim::message_fields(changed), dkim::body_digest_of(message));
            &&& c is Ok
            &&& (c->Ok_0).0 != signed
            &&& dkim::verification(changed, public_key) == (if dkim::dalek_accepts(
                public_key,
                dkim::sha256((c->Ok_0).0),
                sig,
            ) {
                Ok::<(), DkimError>(())
            } else {
                Err::<(), DkimError>(DkimError::SignatureInvalid)
            })
        }),
{
    let h = dkim::message_fields(message);
    let hs = dkim::message_fields(signed_message(key, message, t, sig));
    let digest = dkim::body_digest_of(message);
    law_signature_is_read_back(key, message, t, sig);
    lemma_signed_fields(key, message, t, sig);
    let f = HeaderModel {
        name: "DKIM-Signature"@,
        value: octets(field_value(key, message, t, sig)),
    };
    assert(!rfc5322::is_named(f, "from"@)) by {
        reveal_strlit("from");
        reveal_strlit("DKIM-Signature");
        lemma_trim_word("DKIM-Signature"@);
        assert(text::lower("from"@).len() == 4);
        assert(text::lower("DKIM-Signature"@).len() == 14);
    }
    lemma_count_behind(f, h, "from"@);
    law_from_is_listed_once_more(h);
    law_added_from_changes_the_input(hs, k, d, digest);
    b64::law_round_trip(sig);
}

// ---- what the relaxed form of a body is --------------------------------------------------------

/// Whether putting `c` behind `a` makes a line break where they meet.
pub open spec fn meet_in_a_break(a: Seq<u8>, c: Seq<u8>) -> bool {
    a.len() > 0 && c.len() > 0 && a.last() == 13 && c[0] == 10
}

proof fn lemma_lines_some(b: Seq<u8>)
    ensures
        rfc5322::lines(b).len() > 0,
        rfc5322::first_crlf(b, 0) is None ==> rfc5322::lines(b) == seq![b],
        rfc5322::first_crlf(b, 0) matches Some(i) ==> 0 <= i && i + 1 < b.len() && rfc5322::lines(b)
            == seq![b.take(i)] + rfc5322::lines(b.skip(i + 2)),
{
    rfc5322::lemma_first_crlf(b, 0);
}

proof fn lemma_first_crlf_is(b: Seq<u8>, from: int, k: int)
    requires
        0 <= from <= k,
        rfc5322::crlf_at(b, k),
        forall|j: int| from <= j < k ==> !rfc5322::crlf_at(b, j),
    ensures
        rfc5322::first_crlf(b, from) == Some(k),
    decreases k - from,
{
    if from < k {
        assert(!rfc5322::crlf_at(b, from));
        lemma_first_crlf_is(b, from + 1, k);
    }
}

proof fn lemma_no_crlf(b: Seq<u8>, from: int)
    requires
        0 <= from,
        forall|j: int| from <= j ==> !rfc5322::crlf_at(b, j),
    ensures
        rfc5322::first_crlf(b, from) is None,
    decreases b.len() - from,
{
    if from + 1 < b.len() {
        assert(!rfc5322::crlf_at(b, from));
        lemma_no_crlf(b, from + 1);
    }
}

/// The lines of two texts, one behind the other, where no line break comes about between them.
proof fn lemma_lines_joined(a: Seq<u8>, c: Seq<u8>)
    requires
        !meet_in_a_break(a, c),
    ensures
        rfc5322::lines(a + c) == rfc5322::lines(a).drop_last() + seq![
            rfc5322::lines(a).last() + rfc5322::lines(c)[0],
        ] + rfc5322::lines(c).skip(1),
    decreases a.len(),
{
    let s = a + c;
    let n = a.len() as int;
    lemma_lines_some(a);
    lemma_lines_some(c);
    rfc5322::lemma_first_crlf(a, 0);
    rfc5322::lemma_first_crlf(c, 0);
    match rfc5322::first_crlf(a, 0) {
        Some(i) => {
            assert forall|j: int| 0 <= j < i implies !rfc5322::crlf_at(s, j) by {
                assert(!rfc5322::crlf_at(a, j));
            }
            lemma_first_crlf_is(s, 0, i);
            let rest = a.skip(i + 2);
            assert(s.skip(i + 2) =~= rest + c);
            assert(s.take(i) =~= a.take(i));
            lemma_lines_joined(rest, c);
            lemma_lines_some(s);
            lemma_lines_some(rest);
            let la = seq![a.take(i)] + rfc5322::lines(rest);
            assert(la.last() == rfc5322::lines(rest).last());
            assert(la.drop_last() =~= seq![a.take(i)] + rfc5322::lines(rest).drop_last());
            assert(rfc5322::lines(s) =~= la.drop_last() + seq![la.last() + rfc5322::lines(c)[0]]
                + rfc5322::lines(c).skip(1));
        },
        None => {
            assert(seq![a].drop_last() =~= Seq::<Seq<u8>>::empty());
            match rfc5322::first_crlf(c, 0) {
                Some(k) => {
                    assert forall|j: int| 0 <= j < n + k implies !rfc5322::crlf_at(s, j) by {
                        if j + 1 < n {
                            assert(!rfc5322::crlf_at(a, j));
                        } else if j >= n {
                            assert(!rfc5322::crlf_at(c, j - n));
                        }
                    }
                    assert(rfc5322::crlf_at(s, n + k));
                    lemma_first_crlf_is(s, 0, n + k);
                    lemma_lines_some(s);
                    assert(s.take(n + k) =~= a + c.take(k));
                    assert(s.skip(n + k + 2) =~= c.skip(k + 2));
                    assert(rfc5322::lines(c).skip(1) =~= rfc5322::lines(c.skip(k + 2)));
                    assert(rfc5322::lines(s) =~= Seq::<Seq<u8>>::empty() + seq![a + c.take(k)]
                        + rfc5322::lines(c).skip(1));
                },
                None => {
                    assert forall|j: int| 0 <= j implies !rfc5322::crlf_at(s, j) by {
                        if j + 1 < n {
                            assert(!rfc5322::crlf_at(a, j));
                        } else if j >= n {
                            assert(!rfc5322::crlf_at(c, j - n));
                        }
                    }
                    lemma_no_crlf(s, 0);
                    lemma_lines_some(s);
                    assert(rfc5322::lines(c).skip(1) =~= Seq::<Seq<u8>>::empty());
                    assert(rfc5322::lines(s) =~= Seq::<Seq<u8>>::empty() + seq![a + c]
                        + rfc5322::lines(c).skip(1));
                },
            }
        },
    }
}

proof fn lemma_lines_of_break(c: Seq<u8>)
    ensures
        rfc5322::lines(seq![13u8, 10u8] + c) == seq![Seq::<u8>::empty()] + rfc5322::lines(c),
        rfc5322::lines(Seq::<u8>::empty()) == seq![Seq::<u8>::empty()],
{
    let s = seq![13u8, 10u8] + c;
    assert(rfc5322::crlf_at(s, 0));
    lemma_first_crlf_is(s, 0, 0);
    lemma_lines_some(s);
    assert(s.skip(2) =~= c);
    assert(s.take(0) =~= Seq::<u8>::empty());
    lemma_lines_some(Seq::<u8>::empty());
}

/// The lines of two texts with a line break between them.
proof fn lemma_lines_around_break(a: Seq<u8>, c: Seq<u8>)
    ensures
        rfc5322::lines(a + seq![13u8, 10u8] + c) == rfc5322::lines(a) + rfc5322::lines(c),
{
    let t = seq![13u8, 10u8] + c;
    assert(a + seq![13u8, 10u8] + c =~= a + t);
    lemma_lines_of_break(c);
    lemma_lines_joined(a, t);
    lemma_lines_some(a);
    let la = rfc5322::lines(a);
    assert(la.last() + Seq::<u8>::empty() =~= la.last());
    assert(rfc5322::lines(t).skip(1) =~= rfc5322::lines(c));
    assert(la.drop_last() + seq![la.last()] + rfc5322::lines(c) =~= la + rfc5322::lines(c));
}

/// Whether octets are blanks alone.
pub open spec fn all_blank(x: Seq<u8>) -> bool {
    forall|i: int| 0 <= i < x.len() ==> #[trigger] x[i] == 32 || x[i] == 9
}

proof fn lemma_squeeze_blanks_behind(u: Seq<u8>, x: Seq<u8>, lead: bool)
    requires
        all_blank(x),
    ensures
        dkim::squeeze(u + x, lead) == dkim::squeeze(u, lead),
    decreases x.len(),
{
    if x.len() == 0 {
        assert(u + x =~= u);
    } else {
        assert((u + x).drop_last() =~= u + x.drop_last());
        assert((u + x).last() == x[x.len() - 1]);
        lemma_squeeze_blanks_behind(u, x.drop_last(), lead);
    }
}

proof fn lemma_squeeze_blanks(u: Seq<u8>, x: Seq<u8>, y: Seq<u8>, v: Seq<u8>, lead: bool)
    requires
        all_blank(x),
        all_blank(y),
        x.len() > 0,
        y.len() > 0,
    ensures
        dkim::squeeze(u + x + v, lead) == dkim::squeeze(u + y + v, lead),
    decreases v.len(),
{
    let s = u + x + v;
    let t = u + y + v;
    if v.len() == 0 {
        assert(s =~= u + x);
        assert(t =~= u + y);
        lemma_squeeze_blanks_behind(u, x, lead);
        lemma_squeeze_blanks_behind(u, y, lead);
    } else {
        lemma_squeeze_blanks(u, x, y, v.drop_last(), lead);
        assert(s.drop_last() =~= u + x + v.drop_last());
        assert(t.drop_last() =~= u + y + v.drop_last());
        if v.len() == 1 {
            assert(s[s.len() - 2] == x[x.len() - 1]);
            assert(t[t.len() - 2] == y[y.len() - 1]);
        } else {
            assert(s[s.len() - 2] == v[v.len() - 2]);
            assert(t[t.len() - 2] == v[v.len() - 2]);
        }
    }
}

/// Blanks next to each other count as one, whatever they are: in the relaxed form of a body, any run
/// of spaces and tabs can stand for any other.
pub proof fn law_runs_of_blanks_are_alike(a: Seq<u8>, x: Seq<u8>, y: Seq<u8>, c: Seq<u8>)
    requires
        all_blank(x),
        all_blank(y),
        x.len() > 0,
        y.len() > 0,
    ensures
        dkim::relaxed_body(a + x + c) == dkim::relaxed_body(a + y + c),
{
    lemma_lines_with_blanks(a, x, c);
    lemma_lines_with_blanks(a, y, c);
    lemma_lines_some(a);
    lemma_lines_some(c);
    let u = rfc5322::lines(a).last();
    let v = rfc5322::lines(c)[0];
    lemma_squeeze_blanks(u, x, y, v, true);
    assert(dkim::squeezed_lines(rfc5322::lines(a + x + c)) =~= dkim::squeezed_lines(
        rfc5322::lines(a + y + c),
    ));
}

proof fn lemma_lines_with_blanks(a: Seq<u8>, x: Seq<u8>, c: Seq<u8>)
    requires
        all_blank(x),
        x.len() > 0,
    ensures
        rfc5322::lines(a + x + c) == rfc5322::lines(a).drop_last() + seq![
            rfc5322::lines(a).last() + x + rfc5322::lines(c)[0],
        ] + rfc5322::lines(c).skip(1),
{
    assert forall|j: int| 0 <= j implies !rfc5322::crlf_at(x, j) by {}
    lemma_no_crlf(x, 0);
    lemma_lines_some(x);
    lemma_lines_some(a);
    lemma_lines_some(c);
    assert(x[0] == 32 || x[0] == 9);
    assert(x[x.len() - 1] == 32 || x[x.len() - 1] == 9);
    lemma_lines_joined(x, c);
    let t = x + c;
    assert(a + x + c =~= a + t);
    assert(t[0] == x[0]);
    lemma_lines_joined(a, t);
    let lt = rfc5322::lines(t);
    assert(seq![x].drop_last() =~= Seq::<Seq<u8>>::empty());
    assert(lt =~= seq![x + rfc5322::lines(c)[0]] + rfc5322::lines(c).skip(1));
    assert(lt[0] == x + rfc5322::lines(c)[0]);
    assert(lt.skip(1) =~= rfc5322::lines(c).skip(1));
    assert(rfc5322::lines(a).last() + (x + rfc5322::lines(c)[0]) =~= rfc5322::lines(a).last() + x
        + rfc5322::lines(c)[0]);
}

/// Blanks at the end of a line do not count, nor do those at the end of a body.
pub proof fn law_blanks_at_line_ends_do_not_count(a: Seq<u8>, x: Seq<u8>, c: Seq<u8>)
    requires
        all_blank(x),
    ensures
        dkim::relaxed_body(a + x + seq![13u8, 10u8] + c) == dkim::relaxed_body(
            a + seq![13u8, 10u8] + c,
        ),
        dkim::relaxed_body(a + x) == dkim::relaxed_body(a),
{
    if x.len() == 0 {
        assert(a + x =~= a);
    } else {
        let none = Seq::<u8>::empty();
        lemma_lines_with_blanks(a, x, none);
        lemma_lines_of_break(none);
        lemma_lines_some(a);
        let la = rfc5322::lines(a);
        let lx = rfc5322::lines(a + x);
        assert(a + x + none =~= a + x);
        assert(la.last() + x + none =~= la.last() + x);
        assert(rfc5322::lines(none).skip(1) =~= Seq::<Seq<u8>>::empty());
        assert(lx =~= la.drop_last() + seq![la.last() + x]);
        lemma_squeeze_blanks_behind(la.last(), x, true);
        assert(dkim::squeezed_lines(lx) =~= dkim::squeezed_lines(la));
        lemma_lines_around_break(a + x, c);
        lemma_lines_around_break(a, c);
        assert(dkim::squeezed_lines(lx + rfc5322::lines(c)) =~= dkim::squeezed_lines(lx)
            + dkim::squeezed_lines(rfc5322::lines(c)));
        assert(dkim::squeezed_lines(la + rfc5322::lines(c)) =~= dkim::squeezed_lines(la)
            + dkim::squeezed_lines(rfc5322::lines(c)));
    }
}

/// Line breaks at the end of a body do not count: however many there are, the relaxed form is the
/// same. An empty body stays empty.
pub proof fn law_breaks_at_the_end_do_not_count(a: Seq<u8>)
    ensures
        dkim::relaxed_body(a + seq![13u8, 10u8]) == dkim::relaxed_body(a),
        dkim::relaxed_body(Seq::<u8>::empty()).len() == 0,
{
    let none = Seq::<u8>::empty();
    lemma_lines_around_break(a, none);
    assert(a + seq![13u8, 10u8] + none =~= a + seq![13u8, 10u8]);
    lemma_lines_of_break(none);
    let la = dkim::squeezed_lines(rfc5322::lines(a));
    let e = dkim::squeezed_lines(seq![none]);
    assert(dkim::squeeze(none, true) =~= none);
    assert(e =~= seq![none]);
    assert(dkim::squeezed_lines(rfc5322::lines(a) + seq![none]) =~= la.push(none));
    assert(la.push(none).drop_last() =~= la);
    assert(e.drop_last() =~= Seq::<Seq<u8>>::empty());
    assert(dkim::drop_empty_tail(e.drop_last()) == Seq::<Seq<u8>>::empty());
}

/// Whether a body is written as plainly as it can be: no tab, no two spaces in a row, no space at the
/// end of a line, and something other than a line break at the end.
pub open spec fn plainly_written(b: Seq<u8>) -> bool {
    &&& b.len() > 0
    &&& forall|i: int| 0 <= i < b.len() ==> #[trigger] b[i] != 9
    &&& forall|i: int| 0 <= i < b.len() - 1 && #[trigger] b[i] == 32 ==> b[i + 1] != 32
    &&& forall|i: int|
        0 <= i < b.len() - 2 && #[trigger] b[i] == 32 ==> !(b[i + 1] == 13 && b[i + 2] == 10)
    &&& b.last() != 32
    &&& !(b.len() >= 2 && b[b.len() - 2] == 13 && b.last() == 10)
}

proof fn lemma_squeeze_plain(s: Seq<u8>, lead: bool)
    requires
        forall|i: int| 0 <= i < s.len() ==> #[trigger] s[i] != 9,
        forall|i: int| 0 <= i < s.len() - 1 && #[trigger] s[i] == 32 ==> s[i + 1] != 32,
        lead || (s.len() > 0 ==> s[0] != 32),
    ensures
        dkim::squeeze(s, lead) == (if s.len() > 0 && s.last() == 32 {
            s.drop_last()
        } else {
            s
        }),
    decreases s.len(),
{
    if s.len() > 0 {
        let d = s.drop_last();
        assert forall|i: int| 0 <= i < d.len() - 1 && #[trigger] d[i] == 32 implies d[i + 1]
            != 32 by {
            assert(s[i] == 32);
        }
        lemma_squeeze_plain(d, lead);
        if s.last() == 32 {
            if d.len() > 0 {
                assert(d.last() == s[s.len() - 2]);
                assert(d.last() != 32);
            }
        } else {
            assert(s.last() != 9);
            if d.len() > 0 && d.last() == 32 {
                assert(s[s.len() - 2] == 32);
                if d.len() == 1 {
                    assert(s[0] == 32);
                }
                assert(d.drop_last().push(32).push(s.last()) =~= s);
            } else {
                if s.len() >= 2 {
                    assert(s[s.len() - 2] == d.last());
                    assert(d[d.len() - 1] != 9);
                }
                assert(d.push(s.last()) =~= s);
            }
        }
    } else {
        assert(dkim::squeeze(s, lead) =~= s);
    }
}

proof fn lemma_plain_lines(b: Seq<u8>)
    requires
        forall|i: int| 0 <= i < b.len() ==> #[trigger] b[i] != 9,
        forall|i: int| 0 <= i < b.len() - 1 && #[trigger] b[i] == 32 ==> b[i + 1] != 32,
        forall|i: int|
            0 <= i < b.len() - 2 && #[trigger] b[i] == 32 ==> !(b[i + 1] == 13 && b[i + 2] == 10),
        b.len() > 0 ==> b.last() != 32,
    ensures
        dkim::squeezed_lines(rfc5322::lines(b)) == rfc5322::lines(b),
    decreases b.len(),
{
    lemma_lines_some(b);
    rfc5322::lemma_first_crlf(b, 0);
    match rfc5322::first_crlf(b, 0) {
        Some(i) => {
            let l = b.take(i);
            let rest = b.skip(i + 2);
            assert forall|j: int| 0 <= j < l.len() - 1 && #[trigger] l[j] == 32 implies l[j + 1]
                != 32 by {
                assert(b[j] == 32);
            }
            lemma_squeeze_plain(l, true);
            if i > 0 {
                assert(l.last() == b[i - 1]);
                assert(b[i - 1] == 32 ==> !(b[i] == 13 && b[i + 1] == 10));
            }
            assert forall|j: int| 0 <= j < rest.len() implies #[trigger] rest[j] != 9 by {
                assert(rest[j] == b[i + 2 + j]);
            }
            assert forall|j: int| 0 <= j < rest.len() - 1 && #[trigger] rest[j] == 32 implies rest[j
                + 1] != 32 by {
                assert(b[i + 2 + j] == 32);
            }
            assert forall|j: int| 0 <= j < rest.len() - 2 && #[trigger] rest[j] == 32 implies !(
            rest[j + 1] == 13 && rest[j + 2] == 10) by {
                assert(b[i + 2 + j] == 32);
            }
            lemma_plain_lines(rest);
            let all = seq![l] + rfc5322::lines(rest);
            assert(dkim::squeezed_lines(all) =~= seq![dkim::squeeze(l, true)]
                + dkim::squeezed_lines(rfc5322::lines(rest)));
        },
        None => {
            lemma_squeeze_plain(b, true);
            assert(dkim::squeezed_lines(seq![b]) =~= seq![b]);
        },
    }
}

proof fn lemma_breaks_front(first: Seq<u8>, rest: Seq<Seq<u8>>)
    ensures
        dkim::with_breaks(seq![first] + rest) == first + seq![13u8, 10u8] + dkim::with_breaks(rest),
    decreases rest.len(),
{
    let all = seq![first] + rest;
    if rest.len() == 0 {
        assert(all.drop_last() =~= Seq::<Seq<u8>>::empty());
        assert(dkim::with_breaks(all.drop_last()) =~= Seq::<u8>::empty());
        assert(dkim::with_breaks(all) =~= first + seq![13u8, 10u8] + dkim::with_breaks(rest));
    } else {
        assert(all.drop_last() =~= seq![first] + rest.drop_last());
        assert(all.last() == rest.last());
        lemma_breaks_front(first, rest.drop_last());
        assert(dkim::with_breaks(all) =~= first + seq![13u8, 10u8] + dkim::with_breaks(rest));
    }
}

proof fn lemma_lines_put_together(b: Seq<u8>)
    ensures
        dkim::with_breaks(rfc5322::lines(b)) == b + seq![13u8, 10u8],
    decreases b.len(),
{
    lemma_lines_some(b);
    match rfc5322::first_crlf(b, 0) {
        Some(i) => {
            rfc5322::lemma_first_crlf(b, 0);
            lemma_lines_put_together(b.skip(i + 2));
            lemma_breaks_front(b.take(i), rfc5322::lines(b.skip(i + 2)));
            assert(b.take(i) + seq![13u8, 10u8] + (b.skip(i + 2) + seq![13u8, 10u8]) =~= b + seq![
                13u8,
                10u8,
            ]);
        },
        None => {
            let none = Seq::<Seq<u8>>::empty();
            lemma_breaks_front(b, none);
            assert(seq![b] + none =~= seq![b]);
            assert(b + seq![13u8, 10u8] + dkim::with_breaks(none) =~= b + seq![13u8, 10u8]);
        },
    }
}

proof fn lemma_last_line_is_empty(b: Seq<u8>)
    requires
        rfc5322::lines(b).last().len() == 0,
    ensures
        b.len() == 0 || (b.len() >= 2 && b[b.len() - 2] == 13 && b.last() == 10),
    decreases b.len(),
{
    lemma_lines_some(b);
    match rfc5322::first_crlf(b, 0) {
        Some(i) => {
            rfc5322::lemma_first_crlf(b, 0);
            let rest = b.skip(i + 2);
            lemma_lines_some(rest);
            assert(rfc5322::lines(b).last() == rfc5322::lines(rest).last());
            lemma_last_line_is_empty(rest);
            if rest.len() == 0 {
                assert(b.len() == i + 2);
            } else {
                assert(b.last() == rest.last());
                assert(b[b.len() - 2] == rest[rest.len() - 2]);
            }
        },
        None => {
            assert(rfc5322::lines(b).last() == b);
        },
    }
}

/// A body that is written as plainly as it can be is its own relaxed form, but for the line break at
/// its end. Empty lines between others stay.
pub proof fn law_plain_body_is_kept(b: Seq<u8>)
    requires
        plainly_written(b),
    ensures
        dkim::relaxed_body(b) == b + seq![13u8, 10u8],
        dkim::relaxed_body(b + seq![13u8, 10u8]) == b + seq![13u8, 10u8],
{
    lemma_plain_lines(b);
    lemma_lines_put_together(b);
    lemma_lines_some(b);
    if rfc5322::lines(b).last().len() == 0 {
        lemma_last_line_is_empty(b);
    }
    law_breaks_at_the_end_do_not_count(b);
}

/// The texts, each with a line break behind it.
pub open spec fn in_lines(ls: Seq<Seq<u8>>) -> Seq<u8>
    decreases ls.len(),
{
    if ls.len() == 0 {
        Seq::empty()
    } else {
        ls[0] + seq![13u8, 10u8] + in_lines(ls.skip(1))
    }
}

/// Whether a text holds no line break.
pub open spec fn unbroken(l: Seq<u8>) -> bool {
    forall|i: int| 0 <= i < l.len() - 1 ==> !(#[trigger] l[i] == 13 && l[i + 1] == 10)
}

proof fn lemma_lines_of_lines(ls: Seq<Seq<u8>>)
    requires
        forall|i: int| 0 <= i < ls.len() ==> unbroken(#[trigger] ls[i]),
    ensures
        rfc5322::lines(in_lines(ls)) == ls.push(Seq::<u8>::empty()),
    decreases ls.len(),
{
    if ls.len() == 0 {
        lemma_lines_of_break(Seq::<u8>::empty());
        assert(seq![Seq::<u8>::empty()] =~= ls.push(Seq::<u8>::empty()));
    } else {
        let rest = ls.skip(1);
        assert forall|i: int| 0 <= i < rest.len() implies unbroken(#[trigger] rest[i]) by {
            assert(rest[i] == ls[i + 1]);
        }
        lemma_lines_of_lines(rest);
        lemma_lines_around_break(ls[0], in_lines(rest));
        assert(unbroken(ls[0]));
        assert forall|j: int| 0 <= j implies !rfc5322::crlf_at(ls[0], j) by {}
        lemma_no_crlf(ls[0], 0);
        lemma_lines_some(ls[0]);
        assert(seq![ls[0]] + rest.push(Seq::<u8>::empty()) =~= ls.push(Seq::<u8>::empty()));
    }
}

proof fn lemma_breaks_are_lines(ls: Seq<Seq<u8>>)
    ensures
        dkim::with_breaks(ls) == in_lines(ls),
    decreases ls.len(),
{
    if ls.len() > 0 {
        lemma_breaks_front(ls[0], ls.skip(1));
        assert(seq![ls[0]] + ls.skip(1) =~= ls);
        lemma_breaks_are_lines(ls.skip(1));
    }
}

/// The relaxed form goes line by line: of lines the last of which holds more than blanks it has each
/// one squeezed, empty ones too, and none else.
pub proof fn law_lines_are_squeezed_one_by_one(ls: Seq<Seq<u8>>)
    requires
        forall|i: int| 0 <= i < ls.len() ==> unbroken(#[trigger] ls[i]),
        ls.len() > 0,
        dkim::squeeze(ls.last(), true).len() > 0,
    ensures
        dkim::relaxed_body(in_lines(ls)) == in_lines(
            Seq::new(ls.len(), |i: int| dkim::squeeze(ls[i], true)),
        ),
{
    let none = Seq::<u8>::empty();
    let sq = Seq::new(ls.len(), |i: int| dkim::squeeze(ls[i], true));
    lemma_lines_of_lines(ls);
    assert(dkim::squeeze(none, true) =~= none);
    assert(dkim::squeezed_lines(ls.push(none)) =~= sq.push(none));
    assert(sq.push(none).drop_last() =~= sq);
    assert(sq.last() == dkim::squeeze(ls.last(), true));
    assert(dkim::drop_empty_tail(sq) == sq);
    lemma_breaks_are_lines(sq);
}

// ---- what the relaxed form of a field is -------------------------------------------------------

proof fn lemma_flatten_joined(a: Seq<Seq<u8>>, b: Seq<Seq<u8>>)
    ensures
        dkim::flatten(a + b) == dkim::flatten(a) + dkim::flatten(b),
    decreases b.len(),
{
    if b.len() == 0 {
        assert(a + b =~= a);
        assert(dkim::flatten(a) + Seq::<u8>::empty() =~= dkim::flatten(a));
    } else {
        assert((a + b).drop_last() =~= a + b.drop_last());
        lemma_flatten_joined(a, b.drop_last());
        assert(dkim::flatten(a + b) =~= dkim::flatten(a) + dkim::flatten(b));
    }
}

proof fn lemma_flatten_one(a: Seq<u8>)
    ensures
        dkim::flatten(seq![a]) == a,
{
    assert(seq![a].drop_last() =~= Seq::<Seq<u8>>::empty());
    assert(dkim::flatten(seq![a].drop_last()) =~= Seq::<u8>::empty());
    assert(dkim::flatten(seq![a]) =~= a);
}

proof fn lemma_unfold_joined(a: Seq<u8>, c: Seq<u8>)
    requires
        !meet_in_a_break(a, c),
    ensures
        dkim::unfold(a + c) == dkim::unfold(a) + dkim::unfold(c),
{
    lemma_lines_joined(a, c);
    lemma_lines_some(a);
    lemma_lines_some(c);
    let la = rfc5322::lines(a);
    let lc = rfc5322::lines(c);
    lemma_flatten_joined(la.drop_last() + seq![la.last() + lc[0]], lc.skip(1));
    lemma_flatten_joined(la.drop_last(), seq![la.last() + lc[0]]);
    lemma_flatten_one(la.last() + lc[0]);
    lemma_flatten_joined(seq![lc[0]], lc.skip(1));
    lemma_flatten_one(lc[0]);
    assert(lc =~= seq![lc[0]] + lc.skip(1));
    assert(dkim::flatten(la) == dkim::flatten(la.drop_last()) + la.last());
    assert(dkim::flatten(la.drop_last()) + (la.last() + lc[0]) + dkim::flatten(lc.skip(1))
        =~= dkim::flatten(la.drop_last()) + la.last() + (lc[0] + dkim::flatten(lc.skip(1))));
}

/// A line break in the value of a field does not count: a folded field has the relaxed form of the
/// field in one line.
pub proof fn law_folding_does_not_count(name: Seq<char>, a: Seq<u8>, c: Seq<u8>)
    requires
        !meet_in_a_break(a, c),
    ensures
        dkim::relaxed_header(name, a + seq![13u8, 10u8] + c) == dkim::relaxed_header(name, a + c),
{
    lemma_lines_around_break(a, c);
    lemma_flatten_joined(rfc5322::lines(a), rfc5322::lines(c));
    lemma_unfold_joined(a, c);
}

proof fn lemma_unfold_blanks(x: Seq<u8>)
    requires
        all_blank(x),
    ensures
        dkim::unfold(x) == x,
{
    assert forall|j: int| 0 <= j implies !rfc5322::crlf_at(x, j) by {}
    lemma_no_crlf(x, 0);
    lemma_lines_some(x);
    lemma_flatten_one(x);
}

proof fn lemma_unfold_with_blanks(a: Seq<u8>, x: Seq<u8>, c: Seq<u8>)
    requires
        all_blank(x),
        x.len() > 0,
    ensures
        dkim::unfold(a + x + c) == dkim::unfold(a) + x + dkim::unfold(c),
{
    assert(x[0] == 32 || x[0] == 9);
    assert(x[x.len() - 1] == 32 || x[x.len() - 1] == 9);
    assert((a + x).last() == x[x.len() - 1]);
    lemma_unfold_joined(a, x);
    lemma_unfold_joined(a + x, c);
    lemma_unfold_blanks(x);
}

/// Blanks next to each other in the value of a field count as one, whatever they are, and those at
/// its ends do not count.
pub proof fn law_blanks_in_a_field_are_alike(
    name: Seq<char>,
    a: Seq<u8>,
    x: Seq<u8>,
    y: Seq<u8>,
    c: Seq<u8>,
)
    requires
        all_blank(x),
        all_blank(y),
        x.len() > 0,
        y.len() > 0,
    ensures
        dkim::relaxed_header(name, a + x + c) == dkim::relaxed_header(name, a + y + c),
        dkim::relaxed_header(name, x + c) == dkim::relaxed_header(name, c),
        dkim::relaxed_header(name, a + x) == dkim::relaxed_header(name, a),
{
    let none = Seq::<u8>::empty();
    lemma_unfold_with_blanks(a, x, c);
    lemma_unfold_with_blanks(a, y, c);
    lemma_squeeze_blanks(dkim::unfold(a), x, y, dkim::unfold(c), false);
    lemma_unfold_with_blanks(none, x, c);
    lemma_unfold_with_blanks(a, x, none);
    lemma_unfold_blanks(none);
    assert(none + x + c =~= x + c);
    assert(a + x + none =~= a + x);
    assert(none + x + dkim::unfold(c) =~= x + dkim::unfold(c));
    assert(dkim::unfold(a) + x + none =~= dkim::unfold(a) + x);
    lemma_squeeze_blanks_behind(dkim::unfold(a), x, false);
    lemma_squeeze_blanks_before(x, dkim::unfold(c));
}

proof fn lemma_squeeze_blanks_before(x: Seq<u8>, v: Seq<u8>)
    requires
        all_blank(x),
    ensures
        dkim::squeeze(x + v, false) == dkim::squeeze(v, false),
    decreases v.len(),
{
    let s = x + v;
    if v.len() == 0 {
        assert(s =~= Seq::<u8>::empty() + x);
        lemma_squeeze_blanks_behind(Seq::<u8>::empty(), x, false);
        assert(v =~= Seq::<u8>::empty());
    } else {
        lemma_squeeze_blanks_before(x, v.drop_last());
        assert(s.drop_last() =~= x + v.drop_last());
        if v.len() == 1 {
            assert(v.drop_last() =~= Seq::<u8>::empty());
            assert(dkim::squeeze(v.drop_last(), false) =~= Seq::<u8>::empty());
        } else {
            assert(s[s.len() - 2] == v[v.len() - 2]);
        }
    }
}

/// A field that is written as plainly as it can be, in one line, has its own value in its relaxed
/// form, behind its name in lower case and a colon and before a line break.
pub proof fn law_plain_field_is_kept(name: Seq<char>, value: Seq<u8>)
    requires
        name.len() > 0 ==> !text::is_white(name[0]) && !text::is_white(name.last()),
        unbroken(value),
        forall|i: int| 0 <= i < value.len() ==> #[trigger] value[i] != 9,
        forall|i: int| 0 <= i < value.len() - 1 && #[trigger] value[i] == 32 ==> value[i + 1] != 32,
        value.len() > 0 ==> value[0] != 32 && value.last() != 32,
    ensures
        dkim::relaxed_header(name, value) == vstd::utf8::encode_utf8(text::lower(name)) + seq![58u8]
            + value + seq![13u8, 10u8],
{
    text::lemma_nothing_to_trim(name);
    assert forall|j: int| 0 <= j implies !rfc5322::crlf_at(value, j) by {}
    lemma_no_crlf(value, 0);
    lemma_lines_some(value);
    lemma_flatten_one(value);
    lemma_squeeze_plain(value, false);
    let e = vstd::utf8::encode_utf8(text::lower(name));
    assert(e.push(58) =~= e + seq![58u8]);
}

// ---- what is bound, and what is checked --------------------------------------------------------

/// What one more name in the list binds: the field of that name, counted from the bottom, that comes
/// behind those which the same name has bound before, in any case; nothing where there is none left.
pub proof fn law_each_name_binds_the_next_field(
    h: Seq<HeaderModel>,
    names: Seq<Seq<char>>,
    name: Seq<char>,
)
    requires
        name.len() > 0 ==> !text::is_white(name[0]) && !text::is_white(name.last()),
    ensures
        ({
            let before = names.filter(
                |x: Seq<char>| text::lower(text::trim(x)) == text::lower(name),
            ).len();
            dkim::bound_fields(h, names.push(name)) == dkim::bound_fields(h, names) + (
            match rfc5322::nth_from_bottom(h, name, before) {
                Some(f) => dkim::relaxed_header(f.name, f.value),
                None => Seq::empty(),
            })
        }),
        dkim::bound_fields(h, Seq::<Seq<char>>::empty()).len() == 0,
{
    text::lemma_nothing_to_trim(name);
    assert(names.push(name).drop_last() =~= names);
    lemma_times_listed(names, name);
}

proof fn lemma_times_listed(names: Seq<Seq<char>>, name: Seq<char>)
    ensures
        dkim::times_listed(names, name) == names.filter(
            |x: Seq<char>| text::lower(text::trim(x)) == text::lower(name),
        ).len(),
    decreases names.len(),
{
    reveal(Seq::filter);
    if names.len() > 0 {
        lemma_times_listed(names.drop_last(), name);
    }
}

/// The fields `From`, `To`, `Subject`, `Date` and `Message-ID` are signed where a message has them, in
/// this order, and no others; behind them `from` is listed so often that no other can be added.
pub proof fn law_the_main_fields_are_signed(h: Seq<HeaderModel>)
    ensures
        ({
            let has = |name: Seq<char>| rfc5322::last_named(h, name) is Some;
            let one = |name: Seq<char>|
                if has(name) {
                    seq![name]
                } else {
                    Seq::<Seq<char>>::empty()
                };
            let main = one("from"@) + one("to"@) + one("subject"@) + one("date"@) + one(
                "message-id"@,
            );
            let n = rfc5322::count_named(h, "from"@);
            let more: nat = if n == 0 {
                1
            } else {
                n
            };
            dkim::listed_names(h) == main + Seq::new(more, |i: int| "from"@)
        }),
{
    let n = dkim::signed_names();
    let has = |name: Seq<char>| rfc5322::last_named(h, name) is Some;
    let one = |name: Seq<char>|
        if has(name) {
            seq![name]
        } else {
            Seq::<Seq<char>>::empty()
        };
    assert(n.take(5) =~= n);
    assert(n.take(0) =~= Seq::<Seq<char>>::empty());
    lemma_present_next(h, n, 0);
    lemma_present_next(h, n, 1);
    lemma_present_next(h, n, 2);
    lemma_present_next(h, n, 3);
    lemma_present_next(h, n, 4);
    let p0 = Seq::<Seq<char>>::empty();
    assert(dkim::present(h, n.take(0)) =~= p0);
    assert(p0 + one("from"@) =~= one("from"@));
    let c = rfc5322::count_named(h, "from"@);
    lemma_with_from(dkim::present(h, n), dkim::extra_from(c));
}

proof fn lemma_present_next(h: Seq<HeaderModel>, names: Seq<Seq<char>>, i: int)
    requires
        0 <= i < names.len(),
    ensures
        dkim::present(h, names.take(i + 1)) == dkim::present(h, names.take(i)) + (
        if rfc5322::last_named(h, names[i]) is Some {
            seq![names[i]]
        } else {
            Seq::empty()
        }),
{
    let t = names.take(i + 1);
    assert(t.drop_last() =~= names.take(i));
    let p = dkim::present(h, names.take(i));
    assert(p.push(names[i]) =~= p + seq![names[i]]);
    assert(p + Seq::<Seq<char>>::empty() =~= p);
}

proof fn lemma_with_from(names: Seq<Seq<char>>, n: nat)
    ensures
        dkim::with_from(names, n) == names + Seq::new(n, |i: int| "from"@),
    decreases n,
{
    if n > 0 {
        lemma_with_from(names, (n - 1) as nat);
    }
    assert(dkim::with_from(names, n) =~= names + Seq::new(n, |i: int| "from"@));
}

/// A tag is found in a list in which it is written, with or without blanks, whatever other tags stand
/// before it.
pub proof fn law_tag_is_found(
    before: Seq<char>,
    name: Seq<char>,
    value: Seq<char>,
    behind: Seq<char>,
)
    requires
        name.len() > 0,
        is_token(name),
        !name.contains('='),
        is_token(value),
        dkim::tag(before, name) is None,
        behind.len() > 0 ==> behind[0] == ';',
    ensures
        dkim::tag(before + seq![';', ' '] + name + seq!['='] + value + behind, name) == Some(value),
        dkim::tag(name + seq!['='] + value + behind, name) == Some(value),
{
    let own = name + seq!['='] + value;
    let spaced = seq![' '] + own;
    lemma_tag_part(name, value);
    lemma_part_has_no_semicolon(name, value);
    lemma_split_behind(own, behind);
    lemma_split_behind(spaced, behind);
    assert(before + seq![';', ' '] + name + seq!['='] + value + behind =~= before + seq![';'] + (
    spaced + behind));
    lemma_split_joined(before, ';', spaced + behind);
    lemma_tag_behind(
        text::split(before, ';'),
        text::split(spaced + behind, ';'),
        name,
    );
}

proof fn lemma_part_has_no_semicolon(name: Seq<char>, value: Seq<char>)
    requires
        is_token(name),
        is_token(value),
    ensures
        !(name + seq!['='] + value).contains(';'),
        !(seq![' '] + (name + seq!['='] + value)).contains(';'),
{
    let own = name + seq!['='] + value;
    assert forall|i: int| 0 <= i < own.len() implies own[i] != ';' by {
        if i < name.len() {
            assert(own[i] == name[i]);
        } else if i > name.len() {
            assert(own[i] == value[i - name.len() - 1]);
        }
    }
    let spaced = seq![' '] + own;
    assert forall|i: int| 0 <= i < spaced.len() implies spaced[i] != ';' by {
        if i > 0 {
            assert(spaced[i] == own[i - 1]);
        }
    }
}

proof fn lemma_split_behind(part: Seq<char>, behind: Seq<char>)
    requires
        !part.contains(';'),
        behind.len() > 0 ==> behind[0] == ';',
    ensures
        text::split(part + behind, ';').len() > 0,
        text::split(part + behind, ';')[0] == part,
{
    if behind.len() == 0 {
        assert(part + behind =~= part);
        text::law_cut_at_the_first(part, ';', behind);
    } else {
        assert(part + behind =~= part + seq![';'] + behind.skip(1));
        text::law_cut_at_the_first(part, ';', behind.skip(1));
    }
}

proof fn lemma_split_joined(a: Seq<char>, c: char, b: Seq<char>)
    ensures
        text::split(a + seq![c] + b, c) == text::split(a, c) + text::split(b, c),
    decreases a.len(),
{
    a.index_of_first_ensures(c);
    match a.index_of_first(c) {
        Some(i) => {
            let x = a.take(i);
            let y = a.skip(i + 1);
            assert(!x.contains(c)) by {
                if x.contains(c) {
                    let j = choose|j: int| 0 <= j < x.len() && x[j] == c;
                    assert(a[j] == c);
                }
            }
            assert(a =~= x + seq![c] + y);
            text::law_cut_at_the_first(x, c, y);
            assert(a + seq![c] + b =~= x + seq![c] + (y + seq![c] + b));
            text::law_cut_at_the_first(x, c, y + seq![c] + b);
            lemma_split_joined(y, c, b);
            assert(seq![x] + (text::split(y, c) + text::split(b, c)) =~= seq![x] + text::split(y, c)
                + text::split(b, c));
        },
        None => {
            assert(!a.contains(c));
            text::law_cut_at_the_first(a, c, b);
        },
    }
}

proof fn lemma_tag_part(name: Seq<char>, value: Seq<char>)
    requires
        name.len() > 0,
        is_token(name),
        !name.contains('='),
        is_token(value),
    ensures
        dkim::tag_of(name + seq!['='] + value) == Some((name, value)),
        dkim::tag_of(seq![' '] + (name + seq!['='] + value)) == Some((name, value)),
{
    let own = name + seq!['='] + value;
    assert(own[0] == name[0]);
    assert(!text::is_white(name[0]));
    assert(!text::is_white(name[name.len() - 1]));
    if value.len() > 0 {
        assert(own.last() == value[value.len() - 1]);
        assert(!text::is_white(value[value.len() - 1]));
    } else {
        assert(own.last() == '=');
    }
    let none = Seq::<char>::empty();
    text::law_trim_takes_the_ends(none, own, none);
    assert(none + own + none =~= own);
    text::law_trim_takes_the_ends(seq![' '], own, none);
    assert(seq![' '] + own + none =~= seq![' '] + own);
    text::law_cut_at_the_first(name, '=', value);
    lemma_trim_word(name);
    lemma_no_white(value);
}

proof fn lemma_tag_behind(a: Seq<Seq<char>>, b: Seq<Seq<char>>, name: Seq<char>)
    requires
        dkim::tag_in(a, name) is None,
    ensures
        dkim::tag_in(a + b, name) == dkim::tag_in(b, name),
    decreases a.len(),
{
    if a.len() == 0 {
        assert(a + b =~= b);
    } else {
        assert((a + b)[0] == a[0]);
        assert((a + b).skip(1) =~= a.skip(1) + b);
        lemma_tag_behind(a.skip(1), b, name);
    }
}

/// A message verifies under a key exactly if its last signature field says `ed25519-sha256`, says
/// `relaxed/relaxed` or nothing about the form, holds the digest of the body in its relaxed form,
/// lists `from`, and holds 64 octets that the key accepts over what the field binds.
pub proof fn law_verified_means_checked(message: Seq<u8>, key: Seq<u8>)
    ensures
        dkim::verification(message, key) is Ok <==> {
            let h = rfc5322::fields_of(rfc5322::head_of(message));
            let f = rfc5322::last_named(h, "dkim-signature"@)->0;
            let list = text::lossy(f.value);
            let names = dkim::names_in(text::split(dkim::tag(list, "h"@)->0, ':'));
            &&& rfc5322::last_named(h, "dkim-signature"@) is Some
            &&& dkim::tag(list, "a"@) == Some("ed25519-sha256"@)
            &&& dkim::tag(list, "c"@) is None || dkim::tag(list, "c"@) == Some("relaxed/relaxed"@)
            &&& dkim::tag(list, "bh"@) == Some(
                b64::encoding(dkim::sha256(dkim::relaxed_body(rfc5322::body_of(message)))),
            )
            &&& dkim::tag(list, "h"@) is Some
            &&& exists|i: int|
                0 <= i < names.len() && text::lower(#[trigger] names[i]) == text::lower("from"@)
            &&& dkim::tag(list, "b"@) is Some
            &&& key.len() == 32 && dkim::dalek_is_key(key)
            &&& b64::decoding(dkim::tag(list, "b"@)->0) matches Some(sig) && sig.len() == 64
                && dkim::dalek_accepts(
                key,
                dkim::sha256(dkim::signing_input(h, names, dkim::emptied_from(f.value, 0))),
                sig,
            )
        },
{
}

/// What is signed is the bound fields and, behind them, the signature field in its relaxed form
/// without the line break at its end.
pub proof fn law_signature_is_over_its_own_field(
    h: Seq<HeaderModel>,
    names: Seq<Seq<char>>,
    value: Seq<u8>,
)
    ensures
        dkim::signing_input(h, names, value) + seq![13u8, 10u8] == dkim::bound_fields(h, names)
            + dkim::relaxed_header("DKIM-Signature"@, value),
{
    let r = dkim::relaxed_header("DKIM-Signature"@, value);
    let n = r.len() as int;
    assert(r[n - 2] == 13 && r[n - 1] == 10);
    assert(rfc5322::crlf_at(r, n - 2));
    assert(r.take(n - 2) + seq![13u8, 10u8] =~= r);
    assert(dkim::signing_input(h, names, value) + seq![13u8, 10u8] =~= dkim::bound_fields(h, names)
        + r);
}

/// What a message is found to be: without a signature field it has no signature; a field that names no
/// key is malformed; where the named key is not to be had, that is all that is said; and else it
/// passes exactly if it verifies under that key.
pub proof fn law_verdict_follows_the_named_key(message: Seq<u8>, key: Option<Seq<u8>>)
    ensures
        ({
            let f = rfc5322::last_named(dkim::message_fields(message), "dkim-signature"@);
            let list = text::lossy((f->0).value);
            let named = dkim::tag(list, "d"@) is Some && dkim::tag(list, "s"@) is Some;
            let v = dkim::verdict(message, key);
            &&& v is NoSignature <==> f is None
            &&& f is Some && !named ==> v == dkim::VerdictModel::Fail(DkimError::MalformedSignature)
            &&& v is KeyUnavailable <==> f is Some && named && key is None
            &&& v is Pass <==> f is Some && named && key is Some && dkim::verification(
                message,
                key->0,
            ) is Ok
            &&& v matches dkim::VerdictModel::Pass { domain, selector } ==> Some(domain)
                == dkim::tag(list, "d"@) && Some(selector) == dkim::tag(list, "s"@)
            &&& v matches dkim::VerdictModel::KeyUnavailable { domain, selector } ==> Some(domain)
                == dkim::tag(list, "d"@) && Some(selector) == dkim::tag(list, "s"@)
        }),
{
}

/// The key that is published in a record is what its tag `p` holds in base64.
pub proof fn law_published_key_is_read(key: Seq<u8>)
    requires
        key.len() > 0,
    ensures
        dkim::record_key(
            text::split("v=DKIM1; k=ed25519; p="@ + b64::encoding(key), ';'),
        ) == Some(key),
        dkim::record_key(text::split("p="@ + b64::encoding(key), ';')) == Some(key),
        dkim::record_key(text::split("v=DKIM1; k=ed25519; p="@, ';')) is None,
{
    let e = b64::encoding(key);
    reveal_strlit("v=DKIM1; k=ed25519; p=");
    reveal_strlit("p=");
    let none = Seq::<char>::empty();
    let a = seq!['v', '=', 'D', 'K', 'I', 'M', '1'];
    let b = seq![' ', 'k', '=', 'e', 'd', '2', '5', '5', '1', '9'];
    let c = seq![' ', 'p', '='];
    lemma_tokens(0, key);
    b64::law_round_trip(key);
    assert(e.len() > 0);
    lemma_no_white(e);
    let own = "p="@ + e;
    assert(own[0] == 'p');
    assert(own.last() == e[e.len() - 1]);
    text::law_trim_takes_the_ends(none, own, none);
    text::law_trim_takes_the_ends(seq![' '], own, none);
    assert(none + own + none =~= own);
    assert(seq![' '] + own + none =~= c + e);
    text::law_prefix_comes_off("p="@, e, own);
    assert(!own.contains(';')) by {
        assert forall|i: int| 0 <= i < own.len() implies own[i] != ';' by {
            if i >= 2 {
                assert(own[i] == e[i - 2]);
            }
        }
    }
    assert(!(c + e).contains(';')) by {
        assert forall|i: int| 0 <= i < (c + e).len() implies (c + e)[i] != ';' by {
            if i >= 3 {
                assert((c + e)[i] == e[i - 3]);
            }
        }
    }
    text::law_cut_at_the_first(own, ';', none);
    text::law_cut_at_the_first(c + e, ';', none);
    text::law_cut_at_the_first(c, ';', none);
    text::law_cut_at_the_first(b, ';', c + e);
    text::law_cut_at_the_first(b, ';', c);
    let t1 = b + seq![';'] + (c + e);
    let t0 = b + seq![';'] + c;
    text::law_cut_at_the_first(a, ';', t1);
    text::law_cut_at_the_first(a, ';', t0);
    assert("v=DKIM1; k=ed25519; p="@ + e =~= a + seq![';'] + t1);
    assert("v=DKIM1; k=ed25519; p="@ =~= a + seq![';'] + t0);
    assert(text::trim(a)[0] == 'v') by {
        text::law_trim_takes_the_ends(none, a, none);
        assert(none + a + none =~= a);
    }
    assert(text::trim(b)[0] == 'k') by {
        text::law_trim_takes_the_ends(seq![' '], b.skip(1), none);
        assert(seq![' '] + b.skip(1) + none =~= b);
    }
    let pe = seq!['p', '='];
    text::law_trim_takes_the_ends(seq![' '], pe, none);
    assert(seq![' '] + pe + none =~= c);
    assert("p="@ =~= pe);
    text::law_prefix_comes_off("p="@, none, pe);
    assert("p="@ + none =~= pe);
    let p1 = seq![a] + (seq![b] + seq![c + e]);
    let p0 = seq![a] + (seq![b] + seq![c]);
    assert(p1.skip(1) =~= seq![b] + seq![c + e]);
    assert(p1.skip(1).skip(1) =~= seq![c + e]);
    assert(p0.skip(1) =~= seq![b] + seq![c]);
    assert(p0.skip(1).skip(1) =~= seq![c]);
    reveal_with_fuel(dkim::record_key, 4);
}

/// A table of keys gives back the key that was published for a domain and a selector, unless another
/// was published for them before.
pub proof fn law_published_key_is_found(
    t: Seq<dkim::PublishedKey>,
    k: dkim::PublishedKey,
    domain: Seq<char>,
    selector: Seq<char>,
)
    ensures
        dkim::published_key(t.push(k), domain, selector) == (match dkim::published_key(
            t,
            domain,
            selector,
        ) {
            Some(old) => Some(old),
            None => if text::lower(k.domain) == text::lower(domain) && k.selector == selector {
                Some(k.key)
            } else {
                None
            },
        }),
        dkim::published_key(Seq::<dkim::PublishedKey>::empty(), domain, selector) is None,
    decreases t.len(),
{
    if t.len() == 0 {
        reveal_with_fuel(dkim::published_key, 2);
        assert(t.push(k).skip(1) =~= t);
    } else {
        assert(t.push(k)[0] == t[0]);
        assert(t.push(k).skip(1) =~= t.skip(1).push(k));
        law_published_key_is_found(t.skip(1), k, domain, selector);
    }
}

// ---- the signature field without its signature -------------------------------------------------

proof fn lemma_same_behind(a: Seq<u8>, r: Seq<u8>, i: int)
    requires
        0 <= i <= a.len(),
    ensures
        dkim::back_over_wsp(a + r, i) == dkim::back_over_wsp(a, i),
        0 <= dkim::back_over_wsp(a, i) <= i,
    decreases i,
{
    if i > 0 {
        assert((a + r)[i - 1] == a[i - 1]);
        lemma_same_behind(a, r, i - 1);
    }
}

proof fn lemma_same_ahead(a: Seq<u8>, r: Seq<u8>, k: int)
    requires
        a.len() > 0 && a.last() == 59,
        0 <= k < a.len(),
    ensures
        dkim::skip_wsp(a + r, k) == dkim::skip_wsp(a, k),
        dkim::skip_wsp(a, k) < a.len(),
        dkim::next_semicolon(a + r, k) == dkim::next_semicolon(a, k),
        dkim::next_semicolon(a, k) < a.len(),
    decreases a.len() - k,
{
    assert((a + r)[k] == a[k]);
    if k < a.len() - 1 {
        lemma_same_ahead(a, r, k + 1);
    }
}

proof fn lemma_emptied_before(a: Seq<u8>, r: Seq<u8>, i: int)
    requires
        a.len() > 0 ==> a.last() == 59,
        0 <= i <= a.len(),
    ensures
        dkim::emptied_from(a + r, i) == dkim::emptied_from(a, i) + dkim::emptied_from(
            a + r,
            a.len() as int,
        ),
    decreases a.len() - i,
{
    let v = a + r;
    let n = a.len() as int;
    if i == n {
        assert(dkim::emptied_from(a, i) =~= Seq::<u8>::empty());
        assert(dkim::emptied_from(a, i) + dkim::emptied_from(v, n) =~= dkim::emptied_from(v, n));
    } else {
        assert(v[i] == a[i]);
        lemma_same_behind(a, r, i);
        let j = dkim::back_over_wsp(a, i);
        if j > 0 {
            assert(v[j - 1] == a[j - 1]);
        }
        assert(dkim::tag_starts(v, i) == dkim::tag_starts(a, i));
        if i + 1 < n {
            lemma_same_ahead(a, r, i + 1);
            let k = dkim::skip_wsp(a, i + 1);
            dkim::lemma_skip_bounds(a, i + 1);
            assert(v[k] == a[k]);
            if dkim::b_tag_at(a, i) {
                assert(k + 1 < n);
                lemma_same_ahead(a, r, k + 1);
                let m = dkim::next_semicolon(a, k + 1);
                dkim::lemma_semicolon_bounds(a, k + 1);
                lemma_emptied_before(a, r, m);
                assert(seq![98u8, 61u8] + (dkim::emptied_from(a, m) + dkim::emptied_from(v, n))
                    =~= seq![98u8, 61u8] + dkim::emptied_from(a, m) + dkim::emptied_from(v, n));
            } else {
                lemma_emptied_before(a, r, i + 1);
                assert(seq![v[i]] + (dkim::emptied_from(a, i + 1) + dkim::emptied_from(v, n))
                    =~= seq![v[i]] + dkim::emptied_from(a, i + 1) + dkim::emptied_from(v, n));
            }
        } else {
            lemma_emptied_before(a, r, i + 1);
            assert(seq![v[i]] + (dkim::emptied_from(a, i + 1) + dkim::emptied_from(v, n))
                =~= seq![v[i]] + dkim::emptied_from(a, i + 1) + dkim::emptied_from(v, n));
        }
    }
}

proof fn lemma_shifted_ahead(a: Seq<u8>, r: Seq<u8>, k: int)
    requires
        0 <= k <= r.len(),
    ensures
        dkim::skip_wsp(a + r, a.len() + k) == a.len() + dkim::skip_wsp(r, k),
        dkim::next_semicolon(a + r, a.len() + k) == a.len() + dkim::next_semicolon(r, k),
    decreases r.len() - k,
{
    if k < r.len() {
        assert((a + r)[a.len() + k] == r[k]);
        lemma_shifted_ahead(a, r, k + 1);
    }
}

proof fn lemma_shifted_behind(a: Seq<u8>, r: Seq<u8>, i: int)
    requires
        0 <= i <= r.len(),
        a.len() > 0 ==> a.last() == 59 || (r.len() > 0 && r[0] == 59 && i > 0),
    ensures
        dkim::tag_starts(a + r, a.len() + i) == dkim::tag_starts(r, i),
        a.len() > 0 && !(a.last() == 59) ==> dkim::back_over_wsp(r, i) > 0,
        dkim::back_over_wsp(a + r, a.len() + i) == a.len() + dkim::back_over_wsp(r, i),
        0 <= dkim::back_over_wsp(r, i) <= i,
    decreases i,
{
    let n = a.len() as int;
    if i > 0 {
        assert((a + r)[n + i - 1] == r[i - 1]);
        if dkim::is_fold(r[i - 1]) {
            lemma_shifted_behind(a, r, i - 1);
        }
    } else if n > 0 {
        assert((a + r)[n - 1] == a[n - 1]);
    }
    let j = dkim::back_over_wsp(r, i);
    if j > 0 {
        assert((a + r)[n + j - 1] == r[j - 1]);
    } else if n > 0 {
        assert((a + r)[n - 1] == a[n - 1]);
    }
}

proof fn lemma_emptied_behind(a: Seq<u8>, r: Seq<u8>, i: int)
    requires
        0 <= i <= r.len(),
        a.len() > 0 ==> a.last() == 59 || r.len() == 0 || r[0] == 59,
    ensures
        dkim::emptied_from(a + r, a.len() + i) == dkim::emptied_from(r, i),
    decreases r.len() - i,
{
    let v = a + r;
    let n = a.len() as int;
    if i < r.len() {
        assert(v[n + i] == r[i]);
        if i > 0 || n == 0 || a.last() == 59 {
            lemma_shifted_behind(a, r, i);
        } else {
            assert(r[0] == 59);
        }
        lemma_shifted_ahead(a, r, i + 1);
        dkim::lemma_skip_bounds(r, i + 1);
        let k = dkim::skip_wsp(r, i + 1);
        if k < r.len() {
            assert(v[n + k] == r[k]);
        }
        assert(dkim::b_tag_at(v, n + i) == dkim::b_tag_at(r, i));
        if dkim::b_tag_at(r, i) {
            lemma_shifted_ahead(a, r, k + 1);
            dkim::lemma_semicolon_bounds(r, k + 1);
            lemma_emptied_behind(a, r, dkim::next_semicolon(r, k + 1));
        } else {
            lemma_emptied_behind(a, r, i + 1);
        }
    }
}

proof fn lemma_folds_behind(v: Seq<u8>, i: int)
    requires
        0 <= i <= v.len(),
        forall|j: int| 0 <= j < i ==> dkim::is_fold(#[trigger] v[j]),
    ensures
        dkim::back_over_wsp(v, i) == 0,
    decreases i,
{
    if i > 0 {
        lemma_folds_behind(v, i - 1);
    }
}

proof fn lemma_within_a_tag(v: Seq<u8>, s: int, i: int)
    requires
        0 <= s < i <= v.len(),
        !dkim::is_fold(v[s]),
        forall|j: int| s <= j < i ==> #[trigger] v[j] != 59,
    ensures
        !dkim::tag_starts(v, i),
        dkim::back_over_wsp(v, i) > s,
    decreases i,
{
    if dkim::is_fold(v[i - 1]) {
        lemma_within_a_tag(v, s, i - 1);
    }
}

proof fn lemma_folds_ahead(v: Seq<u8>, k: int, e: int)
    requires
        0 <= k <= e <= v.len(),
        forall|j: int| k <= j < e ==> dkim::is_fold(#[trigger] v[j]),
        e == v.len() || !dkim::is_fold(v[e]),
    ensures
        dkim::skip_wsp(v, k) == e,
    decreases e - k,
{
    if k < e {
        lemma_folds_ahead(v, k + 1, e);
    }
}

proof fn lemma_semicolon_is(v: Seq<u8>, k: int, e: int)
    requires
        0 <= k <= e <= v.len(),
        forall|j: int| k <= j < e ==> #[trigger] v[j] != 59,
        e == v.len() || v[e] == 59,
    ensures
        dkim::next_semicolon(v, k) == e,
    decreases e - k,
{
    if k < e {
        lemma_semicolon_is(v, k + 1, e);
    }
}

proof fn lemma_octets_stay(v: Seq<u8>, i: int, e: int)
    requires
        0 <= i <= e <= v.len(),
        forall|j: int| i <= j < e ==> !dkim::b_tag_at(v, j),
    ensures
        dkim::emptied_from(v, i) == v.subrange(i, e) + dkim::emptied_from(v, e),
    decreases e - i,
{
    if i == e {
        assert(v.subrange(i, e) + dkim::emptied_from(v, e) =~= dkim::emptied_from(v, e));
    } else {
        lemma_octets_stay(v, i + 1, e);
        assert(seq![v[i]] + (v.subrange(i + 1, e) + dkim::emptied_from(v, e)) =~= v.subrange(i, e)
            + dkim::emptied_from(v, e));
    }
}

/// White space of a folded field, and nothing else.
pub open spec fn all_folds(w: Seq<u8>) -> bool {
    forall|i: int|
        0 <= i < w.len() ==> (#[trigger] w[i] == 32 || w[i] == 9 || w[i] == 13 || w[i] == 10)
}

proof fn lemma_value_comes_out(w: Seq<u8>, x: Seq<u8>, value: Seq<u8>, t: Seq<u8>, z: Seq<u8>)
    requires
        all_folds(w),
        all_folds(x),
        !value.contains(59),
        z.len() > 0 ==> z[0] == 59,
        t == w + seq![98u8] + x + seq![61u8] + value,
    ensures
        dkim::emptied_from(t + z, 0) == w + (seq![98u8, 61u8] + dkim::emptied_from(z, 0)),
{
    let r = t + z;
    let s = w.len() as int;
    let k = s + 1 + x.len();
    let e = t.len() as int;
    assert forall|j: int| 0 <= j < e implies #[trigger] r[j] == t[j] by {}
    assert forall|j: int| 0 <= j < s implies dkim::is_fold(#[trigger] r[j]) by {
        assert(t[j] == w[j]);
    }
    assert(t[s] == 98 && t[k] == 61);
    assert forall|j: int| s + 1 <= j < k implies dkim::is_fold(#[trigger] r[j]) by {
        assert(t[j] == x[j - s - 1]);
    }
    lemma_folds_behind(r, s);
    lemma_folds_ahead(r, s + 1, k);
    assert(dkim::b_tag_at(r, s));
    assert forall|j: int| k + 1 <= j < e implies #[trigger] r[j] != 59 by {
        assert(t[j] == value[j - k - 1]);
        assert(value.contains(value[j - k - 1]));
    }
    if z.len() > 0 {
        assert(r[e] == z[0]);
    }
    lemma_semicolon_is(r, k + 1, e);
    assert forall|j: int| 0 <= j < s implies !dkim::b_tag_at(r, j) by {
        assert(dkim::is_fold(r[j]));
    }
    lemma_octets_stay(r, 0, s);
    assert(r.subrange(0, s) =~= w);
    lemma_emptied_behind(t, z, 0);
    assert(dkim::emptied_from(r, s) == seq![98u8, 61u8] + dkim::emptied_from(r, e));
}

proof fn lemma_four_in_a_row(a: Seq<u8>, b: Seq<u8>, c: Seq<u8>, d: Seq<u8>)
    ensures
        a + (b + (c + d)) == a + b + c + d,
{
    assert(a + (b + (c + d)) =~= a + b + c + d);
}

/// What a signature is over does not hold the signature itself: of the tag `b`, wherever it stands in
/// the field, all that follows its equals sign up to the next semicolon is taken out, and everything
/// else stays.
pub proof fn law_signature_value_is_taken_out(
    a: Seq<u8>,
    w: Seq<u8>,
    x: Seq<u8>,
    value: Seq<u8>,
    z: Seq<u8>,
)
    requires
        a.len() > 0 ==> a.last() == 59,
        all_folds(w),
        all_folds(x),
        !value.contains(59),
        z.len() > 0 ==> z[0] == 59,
    ensures
        dkim::emptied_from(a + (w + seq![98u8] + x + seq![61u8] + value + z), 0)
            == dkim::emptied_from(a, 0) + w + seq![98u8, 61u8] + dkim::emptied_from(z, 0),
{
    let t = w + seq![98u8] + x + seq![61u8] + value;
    lemma_emptied_before(a, t + z, 0);
    lemma_emptied_behind(a, t + z, 0);
    lemma_value_comes_out(w, x, value, t, z);
    lemma_four_in_a_row(
        dkim::emptied_from(a, 0),
        w,
        seq![98u8, 61u8],
        dkim::emptied_from(z, 0),
    );
}

/// A tag of another name stays as it is, whatever it holds.
pub proof fn law_other_tags_are_kept(a: Seq<u8>, w: Seq<u8>, u: Seq<u8>, z: Seq<u8>)
    requires
        a.len() > 0 ==> a.last() == 59,
        all_folds(w),
        !u.contains(59),
        z.len() > 0 ==> z[0] == 59,
        u.len() > 0 ==> u[0] != 32 && u[0] != 9 && u[0] != 13 && u[0] != 10,
        u.len() > 0 && u[0] == 98 ==> u.len() > 1 && u[1] != 61 && u[1] != 32 && u[1] != 9 && u[1] != 13
            && u[1] != 10,
    ensures
        dkim::emptied_from(a + (w + u + z), 0) == dkim::emptied_from(a, 0) + w + u
            + dkim::emptied_from(z, 0),
{
    let t = w + u;
    let r = t + z;
    let s = w.len() as int;
    let e = t.len() as int;
    lemma_emptied_before(a, r, 0);
    lemma_emptied_behind(a, r, 0);
    assert forall|j: int| 0 <= j < e implies !dkim::b_tag_at(r, j) by {
        if j < s {
            assert(r[j] == w[j]);
        } else if j == s {
            assert(r[s] == u[0]);
            if u[0] == 98 {
                assert(r[s + 1] == u[1]);
            }
        } else {
            assert(r[s] == u[0]);
            assert forall|i: int| s <= i < j implies #[trigger] r[i] != 59 by {
                assert(r[i] == u[i - s]);
                assert(u.contains(u[i - s]));
            }
            lemma_within_a_tag(r, s, j);
        }
    }
    lemma_octets_stay(r, 0, e);
    assert(r.subrange(0, e) =~= t);
    lemma_emptied_behind(t, z, 0);
    let m = dkim::emptied_from(a, 0);
    let end = dkim::emptied_from(z, 0);
    assert(m + (w + u + end) =~= m + w + u + end);
}

/// The fields that a signature lists are the names between the colons, without the white space round
/// them; what is empty is no name.
pub proof fn law_listed_fields_are_between_colons(a: Seq<char>, b: Seq<char>)
    requires
        !b.contains(':'),
    ensures
        text::trim(b).len() > 0 ==> dkim::names_in(text::split(a + seq![':'] + b, ':'))
            == dkim::names_in(text::split(a, ':')).push(text::trim(b)),
        text::trim(b).len() == 0 ==> dkim::names_in(text::split(a + seq![':'] + b, ':'))
            == dkim::names_in(text::split(a, ':')),
        text::trim(b).len() > 0 ==> dkim::names_in(text::split(b, ':')) == seq![text::trim(b)],
        text::trim(b).len() == 0 ==> dkim::names_in(text::split(b, ':')) == Seq::<Seq<char>>::empty(),
{
    lemma_split_joined(a, ':', b);
    text::law_cut_at_the_first(b, ':', Seq::empty());
    let ps = text::split(a, ':');
    assert(ps + seq![b] =~= ps.push(b));
    assert(ps.push(b).drop_last() =~= ps);
    assert(seq![b].drop_last() =~= Seq::<Seq<char>>::empty());
    reveal_with_fuel(dkim::names_in, 2);
    assert(Seq::<Seq<char>>::empty().push(text::trim(b)) =~= seq![text::trim(b)]);
}

/// Each way in which a signature fails has its own word, the first that applies.
pub proof fn law_each_failure_has_its_word(
    message: Seq<u8>,
    key: Seq<u8>,
    f: HeaderModel,
    list: Seq<char>,
    names: Seq<Seq<char>>,
)
    requires
        rfc5322::last_named(dkim::message_fields(message), "dkim-signature"@) == Some(f),
        list == text::lossy(f.value),
        dkim::tag(list, "h"@) is Some ==> names == dkim::names_in(
            text::split(dkim::tag(list, "h"@)->0, ':'),
        ),
    ensures
        ({
            let r = dkim::verification(message, key);
            let right = dkim::tag(list, "a"@) == Some("ed25519-sha256"@);
            let form = dkim::tag(list, "c"@) is None || dkim::tag(list, "c"@) == Some(
                "relaxed/relaxed"@,
            );
            let bh = dkim::tag(list, "bh"@);
            let digest = b64::encoding(dkim::sha256(dkim::relaxed_body(rfc5322::body_of(message))));
            let whole = dkim::tag(list, "h"@) is Some && dkim::tag(list, "b"@) is Some;
            let from = exists|i: int|
                0 <= i < names.len() && text::lower(#[trigger] names[i]) == text::lower("from"@);
            let usable = key.len() == 32 && dkim::dalek_is_key(key);
            let sig = b64::decoding(dkim::tag(list, "b"@)->0);
            &&& r == Err::<(), DkimError>(DkimError::UnsupportedAlgorithm) <==> !right
            &&& r == Err::<(), DkimError>(DkimError::UnsupportedCanonicalization) <==> right && !form
            &&& r == Err::<(), DkimError>(DkimError::BodyHashMismatch) <==> right && form && bh is Some
                && bh->0 != digest
            &&& right && form && (bh is None || (bh->0 == digest && !whole)) ==> r == Err::<
                (),
                DkimError,
            >(DkimError::MalformedSignature)
            &&& r == Err::<(), DkimError>(DkimError::FromFieldNotSigned) <==> right && form && bh
                == Some(digest) && whole && !from
            &&& r == Err::<(), DkimError>(DkimError::BadPublicKey) <==> right && form && bh == Some(digest)
                && whole && from && !usable
            &&& right && form && bh == Some(digest) && whole && from && usable && (sig is None
                || sig->0.len() != 64) ==> r == Err::<(), DkimError>(DkimError::MalformedSignature)
        }),
{
}

// ---- what is written and what is looked up -----------------------------------------------------

proof fn lemma_joined_one_more(parts: Seq<Seq<char>>, last: Seq<char>)
    requires
        parts.len() > 0,
    ensures
        text::join(parts.push(last), ';') == text::join(parts, ';') + seq![';'] + last,
{
    assert(parts.push(last).drop_last() =~= parts);
    assert(text::join(parts, ';').push(';') + last =~= text::join(parts, ';') + seq![';'] + last);
}

proof fn lemma_one_more_tag(tags: Tags, k: Seq<char>, v: Seq<char>)
    requires
        tags.len() > 0,
    ensures
        dkim::tag_list(tags.push((k, v))) == dkim::tag_list(tags) + seq![';', ' '] + k + seq!['='] + v,
{
    let parts = dkim::tag_parts(tags);
    let last = seq![' '] + dkim::tag_text((k, v));
    assert(dkim::tag_parts(tags.push((k, v))) =~= parts.push(last));
    lemma_joined_one_more(parts, last);
    assert(text::join(parts, ';') + seq![';'] + last =~= text::join(parts, ';') + seq![';', ' '] + k
        + seq!['='] + v);
}

/// A list of tags is written tag by tag, each with an equals sign between its name and its value, and
/// a semicolon and a blank before the next.
pub proof fn law_tags_are_written_in_a_row(
    tags: Seq<(Seq<char>, Seq<char>)>,
    k: Seq<char>,
    v: Seq<char>,
)
    ensures
        dkim::tag_list(seq![(k, v)]) == k + seq!['='] + v,
        tags.len() > 0 ==> dkim::tag_list(tags.push((k, v))) == dkim::tag_list(tags) + seq![';', ' ']
            + k + seq!['='] + v,
{
    assert(dkim::tag_parts(seq![(k, v)]) =~= seq![dkim::tag_text((k, v))]);
    assert(k.push('=') + v =~= k + seq!['='] + v);
    if tags.len() > 0 {
        lemma_one_more_tag(tags, k, v);
    }
}

/// The field that signs a message: the nine tags in their order, with the signature over everything
/// else at the end.
pub proof fn law_what_a_signature_field_says(
    key: DkimKeyModel,
    message: Seq<u8>,
    t: u64,
    names: Seq<Seq<char>>,
    digest: Seq<u8>,
    tags: Seq<(Seq<char>, Seq<char>)>,
)
    requires
        names == dkim::listed_names(rfc5322::fields_of(rfc5322::head_of(message))),
        digest == dkim::sha256(dkim::relaxed_body(rfc5322::body_of(message))),
        tags == seq![
            ("v"@, "1"@),
            ("a"@, "ed25519-sha256"@),
            ("c"@, "relaxed/relaxed"@),
            ("d"@, key.domain),
            ("s"@, key.selector),
            ("t"@, text::dec(t as nat)),
            ("h"@, text::join(names, ':')),
            ("bh"@, b64::encoding(digest)),
            ("b"@, Seq::empty()),
        ],
    ensures
        dkim::signed_field(key, message, t) == "DKIM-Signature: "@ + dkim::tag_list(tags)
            + b64::encoding(
            dkim::dalek_signature(
                key.seed,
                dkim::sha256(
                    dkim::signing_input(
                        rfc5322::fields_of(rfc5322::head_of(message)),
                        names,
                        vstd::utf8::encode_utf8(dkim::tag_list(tags)),
                    ),
                ),
            ),
        ) + "\r\n"@,
{
}

/// Of the records that are found, the first that holds a key is the one that counts.
pub proof fn law_first_key_counts(records: Seq<Seq<char>>)
    ensures
        records.len() == 0 ==> dkim::first_record_key(records) is None,
        records.len() > 0 && dkim::record_key(text::split(records[0], ';')) is Some
            ==> dkim::first_record_key(records) == dkim::record_key(text::split(records[0], ';')),
        records.len() > 0 && dkim::record_key(text::split(records[0], ';')) is None
            ==> dkim::first_record_key(records) == dkim::first_record_key(records.skip(1)),
{
}

/// A table of keys answers with the first key that is listed for the domain and the selector.
pub proof fn law_table_answers_with_its_key(
    t: dkim::StaticDkimKeys,
    domain: Seq<char>,
    selector: Seq<char>,
    key: Option<Seq<u8>>,
)
    ensures
        dkim::DkimKeyResolver::may_publish(&t, domain, selector, key) <==> key == dkim::published_key(
            t@,
            domain,
            selector,
        ),
{
}

} // verus!
