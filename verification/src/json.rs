//! JSON strings and lists.

use crate::text;
use vstd::prelude::*;

verus! {

/// A hexadecimal digit in lower case.
pub open spec fn hex_digit(d: int) -> char {
    if d < 10 {
        (48 + d) as char
    } else {
        (87 + d) as char
    }
}

/// How a character stands in a JSON string.
pub open spec fn escaped(c: char) -> Seq<char> {
    if c == '"' {
        "\\\""@
    } else if c == '\\' {
        "\\\\"@
    } else if c == '\n' {
        "\\n"@
    } else if c == '\r' {
        "\\r"@
    } else if c == '\t' {
        "\\t"@
    } else if (c as u32) < 0x20 {
        "\\u00"@.push(hex_digit(c as u32 as int / 16)).push(hex_digit(c as u32 as int % 16))
    } else {
        seq![c]
    }
}

/// The characters of a text as they stand in a JSON string.
pub open spec fn all_escaped(s: Seq<char>) -> Seq<char>
    decreases s.len(),
{
    if s.len() == 0 {
        Seq::empty()
    } else {
        all_escaped(s.drop_last()) + escaped(s.last())
    }
}

/// A text as a JSON string.
pub open spec fn json(s: Seq<char>) -> Seq<char> {
    "\""@ + all_escaped(s) + "\""@
}

fn push_escaped(out: &mut Vec<char>, c: char)
    ensures
        final(out)@ == old(out)@ + escaped(c),
{
    let ghost before = out@;
    if c == '"' {
        text::push_str(out, "\\\"");
    } else if c == '\\' {
        text::push_str(out, "\\\\");
    } else if c == '\n' {
        text::push_str(out, "\\n");
    } else if c == '\r' {
        text::push_str(out, "\\r");
    } else if c == '\t' {
        text::push_str(out, "\\t");
    } else if (c as u32) < 0x20 {
        let n: u32 = c as u32;
        text::push_str(out, "\\u00");
        out.push(hex_char((n / 16) as u8));
        out.push(hex_char((n % 16) as u8));
        assert(out@ =~= before + escaped(c));
    } else {
        out.push(c);
        assert(out@ =~= before + escaped(c));
    }
}

fn hex_char(d: u8) -> (r: char)
    requires
        d < 16,
    ensures
        r == hex_digit(d as int),
{
    if d < 10 {
        (48 + d) as char
    } else {
        (87 + d) as char
    }
}

/// A text as a JSON string.
pub fn json_str(s: &str) -> (r: String)
    ensures
        r@ == json(s@),
{
    let c = text::chars_of(s);
    let mut out: Vec<char> = Vec::new();
    let mut i: usize = 0;
    assert(out@ =~= all_escaped(s@.take(0)));
    while i < c.len()
        invariant
            i <= c@.len(),
            c@ == s@,
            out@ == all_escaped(s@.take(i as int)),
        decreases c@.len() - i,
    {
        assert(s@.take(i + 1).drop_last() =~= s@.take(i as int));
        assert(s@.take(i + 1).last() == c@[i as int]);
        push_escaped(&mut out, c[i]);
        i += 1;
    }
    assert(s@.take(i as int) =~= s@);
    let inner = text::string_of(out.as_slice());
    text::concat3("\"", inner.as_str(), "\"")
}

/// Items with commas between them.
pub open spec fn listed(items: Seq<Seq<char>>) -> Seq<char>
    decreases items.len(),
{
    if items.len() == 0 {
        Seq::empty()
    } else if items.len() == 1 {
        items[0]
    } else {
        listed(items.drop_last()) + ","@ + items.last()
    }
}

/// Items with commas between them.
pub fn json_list(items: &Vec<String>) -> (r: String)
    ensures
        r@ == listed(text::string_views(items@)),
{
    let ghost all = text::string_views(items@);
    let mut out = String::new();
    let mut i: usize = 0;
    assert(out@ =~= listed(all.take(0)));
    while i < items.len()
        invariant
            i <= items@.len(),
            all == text::string_views(items@),
            out@ == listed(all.take(i as int)),
        decreases items@.len() - i,
    {
        assert(all.take(i + 1).drop_last() =~= all.take(i as int));
        assert(all.take(i + 1).last() == items@[i as int]@);
        let ghost before = out@;
        if i > 0 {
            out.append(",");
        }
        out.append(items[i].as_str());
        assert(out@ =~= listed(all.take(i + 1)));
        i += 1;
    }
    assert(all.take(i as int) =~= all);
    out
}

// ---- laws --------------------------------------------------------------------------------------

/// Whether a character may stand unescaped inside a JSON string.
pub open spec fn plain(c: char) -> bool {
    c != '"' && c != '\\' && (c as u32) >= 0x20
}

/// A text of plain characters stands in a JSON string as it is.
pub proof fn law_plain_text_is_kept(s: Seq<char>)
    requires
        forall|i: int| 0 <= i < s.len() ==> plain(#[trigger] s[i]),
    ensures
        all_escaped(s) == s,
    decreases s.len(),
{
    if s.len() > 0 {
        let d = s.drop_last();
        assert forall|i: int| 0 <= i < d.len() implies plain(#[trigger] d[i]) by {
            assert(d[i] == s[i]);
        }
        law_plain_text_is_kept(d);
        assert(plain(s[s.len() - 1]));
        assert(d + seq![s.last()] =~= s);
    } else {
        assert(all_escaped(s) =~= s);
    }
}

/// No control character is left in a JSON string, so it stays on one line.
pub proof fn law_no_control_characters(s: Seq<char>)
    ensures
        forall|i: int| 0 <= i < all_escaped(s).len() ==> (#[trigger] all_escaped(s)[i]) as u32
            >= 0x20,
    decreases s.len(),
{
    if s.len() > 0 {
        let d = s.drop_last();
        law_no_control_characters(d);
        let e = escaped(s.last());
        reveal_strlit("\\\"");
        reveal_strlit("\\\\");
        reveal_strlit("\\n");
        reveal_strlit("\\r");
        reveal_strlit("\\t");
        reveal_strlit("\\u00");
        assert forall|i: int| 0 <= i < e.len() implies (#[trigger] e[i]) as u32 >= 0x20 by {
            if (s.last() as u32) < 0x20 {
                let n = s.last() as u32 as int;
                assert(0 <= n / 16 < 16 && 0 <= n % 16 < 16);
            }
        }
        assert forall|i: int| 0 <= i < all_escaped(s).len() implies (#[trigger] all_escaped(
            s,
        )[i]) as u32 >= 0x20 by {
            if i < all_escaped(d).len() {
                assert(all_escaped(s)[i] == all_escaped(d)[i]);
            } else {
                assert(all_escaped(s)[i] == e[i - all_escaped(d).len()]);
            }
        }
    }
}

/// A text is written character by character between quotes: a quote and a backslash behind a backslash,
/// the common control characters by their letters, the others by their numbers.
pub proof fn law_how_texts_are_written(a: Seq<char>, b: Seq<char>, c: char)
    ensures
        json(a) == seq!['"'] + all_escaped(a) + seq!['"'],
        all_escaped(a + b) == all_escaped(a) + all_escaped(b),
        all_escaped(Seq::<char>::empty()).len() == 0,
        all_escaped(seq!['"']) == seq!['\\', '"'],
        all_escaped(seq!['\\']) == seq!['\\', '\\'],
        all_escaped(seq!['\n']) == seq!['\\', 'n'],
        all_escaped(seq!['\r']) == seq!['\\', 'r'],
        all_escaped(seq!['\t']) == seq!['\\', 't'],
        plain(c) ==> all_escaped(seq![c]) == seq![c],
    decreases b.len(),
{
    reveal_strlit("\"");
    reveal_strlit("\\\"");
    reveal_strlit("\\\\");
    reveal_strlit("\\n");
    reveal_strlit("\\r");
    reveal_strlit("\\t");
    lemma_one_escaped('"');
    lemma_one_escaped('\\');
    lemma_one_escaped('\n');
    lemma_one_escaped('\r');
    lemma_one_escaped('\t');
    lemma_one_escaped(c);
    assert("\\\""@ =~= seq!['\\', '"']);
    assert("\\\\"@ =~= seq!['\\', '\\']);
    assert("\\n"@ =~= seq!['\\', 'n']);
    assert("\\r"@ =~= seq!['\\', 'r']);
    assert("\\t"@ =~= seq!['\\', 't']);
    assert("\""@ =~= seq!['"']);
    if b.len() == 0 {
        assert(a + b =~= a);
        assert(all_escaped(a) + Seq::<char>::empty() =~= all_escaped(a));
    } else {
        assert((a + b).drop_last() =~= a + b.drop_last());
        law_how_texts_are_written(a, b.drop_last(), c);
        assert(all_escaped(a + b) =~= all_escaped(a) + all_escaped(b));
    }
}

proof fn lemma_one_escaped(c: char)
    ensures
        all_escaped(seq![c]) == escaped(c),
{
    assert(seq![c].drop_last() =~= Seq::<char>::empty());
    assert(all_escaped(seq![c].drop_last()) =~= Seq::<char>::empty());
    assert(Seq::<char>::empty() + escaped(c) =~= escaped(c));
}

/// Items are listed with commas between them.
pub proof fn law_items_are_listed_with_commas(items: Seq<Seq<char>>, item: Seq<char>)
    ensures
        listed(Seq::<Seq<char>>::empty()).len() == 0,
        listed(seq![item]) == item,
        items.len() > 0 ==> listed(items.push(item)) == listed(items) + seq![','] + item,
{
    reveal_strlit(",");
    assert(","@ =~= seq![',']);
    assert(items.push(item).drop_last() =~= items);
}

/// A control character that has no short form is written with its number, in four hexadecimal digits.
pub proof fn law_control_characters_are_numbered(c: char)
    requires
        (c as u32) < 32,
        c != '\n' && c != '\r' && c != '\t',
    ensures
        all_escaped(seq![c]) == seq![
            '\\',
            'u',
            '0',
            '0',
            if (c as u32) < 16 {
                '0'
            } else {
                '1'
            },
            "0123456789abcdef"@[(c as u32 % 16) as int],
        ],
{
    reveal_strlit("0123456789abcdef");
    reveal_strlit("\\u00");
    lemma_one_escaped(c);
    let n = c as u32 as int;
    assert(hex_digit(n / 16) == if n < 16 {
        '0'
    } else {
        '1'
    });
    assert(hex_digit(n % 16) == "0123456789abcdef"@[n % 16]);
    assert("\\u00"@ =~= seq!['\\', 'u', '0', '0']);
}

} // verus!
