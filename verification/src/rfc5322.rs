//! Mail messages as octets: the header block, its fields, and the body.

use crate::text;
use vstd::prelude::*;
use vstd::slice::{slice_subrange, slice_to_vec};

verus! {

/// Carriage return.
pub const CR: u8 = 13;

/// Line feed.
pub const LF: u8 = 10;

/// A space or a tab.
pub open spec fn is_wsp(b: u8) -> bool {
    b == 32 || b == 9
}

/// Whether a line break stands at `i`.
pub open spec fn crlf_at(b: Seq<u8>, i: int) -> bool {
    0 <= i && i + 1 < b.len() && b[i] == CR && b[i + 1] == LF
}

/// The octets of a line break.
pub open spec fn crlf() -> Seq<u8> {
    seq![CR, LF]
}

/// The first line break at or behind `from`.
pub open spec fn first_crlf(b: Seq<u8>, from: int) -> Option<int>
    decreases b.len() - from,
{
    if from + 1 >= b.len() {
        None
    } else if crlf_at(b, from) {
        Some(from)
    } else {
        first_crlf(b, from + 1)
    }
}

/// The first empty line at or behind `from`: two line breaks in a row.
pub open spec fn first_blank(b: Seq<u8>, from: int) -> Option<int>
    decreases b.len() - from,
{
    if from + 3 >= b.len() {
        None
    } else if crlf_at(b, from) && crlf_at(b, from + 2) {
        Some(from)
    } else {
        first_blank(b, from + 1)
    }
}

pub proof fn lemma_first_crlf(b: Seq<u8>, from: int)
    requires
        0 <= from,
    ensures
        match first_crlf(b, from) {
            Some(i) => from <= i && crlf_at(b, i) && forall|j: int| from <= j < i ==> !crlf_at(b, j),
            None => forall|j: int| from <= j ==> !crlf_at(b, j),
        },
    decreases b.len() - from,
{
    if from + 1 < b.len() && !crlf_at(b, from) {
        lemma_first_crlf(b, from + 1);
    }
}

pub proof fn lemma_first_blank(b: Seq<u8>, from: int)
    requires
        0 <= from,
    ensures
        match first_blank(b, from) {
            Some(i) => from <= i && crlf_at(b, i) && crlf_at(b, i + 2) && forall|j: int|
                from <= j < i ==> !(crlf_at(b, j) && #[trigger] crlf_at(b, j + 2)),
            None => forall|j: int| from <= j ==> !(crlf_at(b, j) && #[trigger] crlf_at(b, j + 2)),
        },
    decreases b.len() - from,
{
    if from + 3 < b.len() && !(crlf_at(b, from) && crlf_at(b, from + 2)) {
        lemma_first_blank(b, from + 1);
    }
}

/// The lines of a text, without their line breaks.
pub open spec fn lines(b: Seq<u8>) -> Seq<Seq<u8>>
    decreases b.len(),
{
    proof {
        lemma_first_crlf(b, 0);
    }
    match first_crlf(b, 0) {
        Some(i) => seq![b.take(i)] + lines(b.skip(i + 2)),
        None => seq![b],
    }
}

/// The views of a vector of octet strings.
pub open spec fn byte_views(v: Seq<Vec<u8>>) -> Seq<Seq<u8>> {
    Seq::new(v.len(), |i: int| v[i]@)
}

fn find_crlf(b: &[u8]) -> (r: Option<usize>)
    ensures
        match r {
            Some(i) => first_crlf(b@, 0) == Some(i as int) && i + 1 < b@.len(),
            None => first_crlf(b@, 0) is None,
        },
{
    let n: usize = b.len();
    let mut i: usize = 0;
    while i < n && n - i >= 2
        invariant
            n == b@.len(),
            i <= n,
            first_crlf(b@, 0) == first_crlf(b@, i as int),
        decreases n - i,
    {
        if b[i] == CR && b[i + 1] == LF {
            return Some(i);
        }
        i += 1;
    }
    None
}

/// Splits a text into its lines.
pub fn split_crlf(b: &[u8]) -> (r: Vec<Vec<u8>>)
    ensures
        byte_views(r@) == lines(b@),
        r@.len() > 0,
{
    let mut out: Vec<Vec<u8>> = Vec::new();
    let mut rest: &[u8] = b;
    assert(byte_views(out@) + lines(b@) =~= lines(b@));
    loop
        invariant_except_break
            byte_views(out@) + lines(rest@) == lines(b@),
        ensures
            byte_views(out@) == lines(b@),
            out@.len() > 0,
        decreases rest@.len(),
    {
        let ghost before = byte_views(out@);
        match find_crlf(rest) {
            Some(i) => {
                let n: usize = rest.len();
                let a = slice_subrange(rest, 0, i);
                let t = slice_subrange(rest, i + 2, n);
                out.push(slice_to_vec(a));
                assert(a@ =~= rest@.take(i as int));
                assert(t@ =~= rest@.skip(i + 2));
                assert(byte_views(out@) =~= before.push(a@));
                assert(before.push(a@) + lines(t@) =~= before + lines(rest@));
                rest = t;
            },
            None => {
                out.push(slice_to_vec(rest));
                assert(byte_views(out@) =~= before.push(rest@));
                assert(before.push(rest@) =~= before + lines(rest@));
                break;
            },
        }
    }
    out
}

/// The header block of a message: what stands before its first empty line.
pub open spec fn head_of(m: Seq<u8>) -> Seq<u8> {
    match first_blank(m, 0) {
        Some(i) => m.take(i),
        None => m,
    }
}

/// The body of a message: what stands behind its first empty line.
pub open spec fn body_of(m: Seq<u8>) -> Seq<u8> {
    match first_blank(m, 0) {
        Some(i) => m.skip(i + 4),
        None => Seq::empty(),
    }
}

/// The first empty line of a message.
pub fn find_blank_line(m: &[u8]) -> (r: Option<usize>)
    ensures
        match r {
            Some(i) => first_blank(m@, 0) == Some(i as int) && i + 3 < m@.len(),
            None => first_blank(m@, 0) is None,
        },
{
    let n: usize = m.len();
    let mut i: usize = 0;
    while i < n && n - i >= 4
        invariant
            n == m@.len(),
            i <= n,
            first_blank(m@, 0) == first_blank(m@, i as int),
        decreases n - i,
    {
        if m[i] == CR && m[i + 1] == LF && m[i + 2] == CR && m[i + 3] == LF {
            return Some(i);
        }
        i += 1;
    }
    None
}

/// A header field. The value keeps its folding.
#[derive(Debug, PartialEq, Eq)]
pub struct Header {
    pub name: String,
    pub value: Vec<u8>,
}

/// [`Header`] with its contents as sequences.
pub struct HeaderModel {
    pub name: Seq<char>,
    pub value: Seq<u8>,
}

impl View for Header {
    type V = HeaderModel;

    open spec fn view(&self) -> HeaderModel {
        HeaderModel { name: self.name@, value: self.value@ }
    }
}

/// The views of a sequence of header fields.
pub open spec fn header_views(v: Seq<Header>) -> Seq<HeaderModel> {
    Seq::new(v.len(), |i: int| v[i]@)
}

/// What one more line does to the fields read so far: an empty line is skipped, a line that begins
/// with a blank continues the last field, and any other line with a colon is a field.
pub open spec fn with_line(h: Seq<HeaderModel>, line: Seq<u8>) -> Seq<HeaderModel> {
    if line.len() == 0 {
        h
    } else if is_wsp(line[0]) {
        if h.len() > 0 {
            let last = h.last();
            h.drop_last().push(HeaderModel { value: last.value + crlf() + line, ..last })
        } else {
            h
        }
    } else {
        match line.index_of_first(58u8) {
            Some(c) => h.push(
                HeaderModel { name: text::lossy(line.take(c)), value: line.skip(c + 1) },
            ),
            None => h,
        }
    }
}

/// The fields in the given lines.
pub open spec fn fields(ls: Seq<Seq<u8>>) -> Seq<HeaderModel>
    decreases ls.len(),
{
    if ls.len() == 0 {
        Seq::empty()
    } else {
        with_line(fields(ls.drop_last()), ls.last())
    }
}

/// The fields of a header block.
pub open spec fn fields_of(head: Seq<u8>) -> Seq<HeaderModel> {
    fields(lines(head))
}

/// The first position of an octet.
pub fn find_byte(b: &[u8], x: u8) -> (r: Option<usize>)
    ensures
        match r {
            Some(i) => i < b@.len() && b@.index_of_first(x) == Some(i as int),
            None => b@.index_of_first(x) is None,
        },
{
    let n: usize = b.len();
    let mut i: usize = 0;
    proof {
        b@.index_of_first_ensures(x);
    }
    while i < n
        invariant
            n == b@.len(),
            i <= n,
            forall|j: int| 0 <= j < i ==> b@[j] != x,
        decreases n - i,
    {
        if b[i] == x {
            proof {
                b@.index_of_first_ensures(x);
                assert(b@.contains(x));
            }
            return Some(i);
        }
        i += 1;
    }
    None
}

/// Reads the fields of a header block.
pub fn parse_headers(head: &[u8]) -> (r: Vec<Header>)
    ensures
        header_views(r@) == fields_of(head@),
{
    let ls = split_crlf(head);
    let ghost all = byte_views(ls@);
    let mut out: Vec<Header> = Vec::new();
    let mut i: usize = 0;
    assert(header_views(out@) =~= fields(all.take(0)));
    while i < ls.len()
        invariant
            i <= ls@.len(),
            all == byte_views(ls@),
            header_views(out@) == fields(all.take(i as int)),
        decreases ls@.len() - i,
    {
        let raw = ls[i].as_slice();
        let n: usize = raw.len();
        let ghost before = header_views(out@);
        assert(all.take(i + 1).drop_last() =~= all.take(i as int));
        assert(all.take(i + 1).last() == raw@);
        if n == 0 {
        } else if raw[0] == 32 || raw[0] == 9 {
            match out.pop() {
                Some(last) => {
                    let ghost old_last = last@;
                    let mut value = last.value;
                    value.push(CR);
                    value.push(LF);
                    value.extend_from_slice(raw);
                    assert(value@ =~= old_last.value + crlf() + raw@);
                    out.push(Header { name: last.name, value });
                    assert(header_views(out@) =~= with_line(before, raw@));
                },
                None => {},
            }
        } else {
            match find_byte(raw, 58) {
                Some(c) => {
                    let name = text::from_utf8_lossy(slice_subrange(raw, 0, c));
                    let value = slice_to_vec(slice_subrange(raw, c + 1, n));
                    assert(raw@.subrange(0, c as int) =~= raw@.take(c as int));
                    assert(raw@.subrange(c + 1, n as int) =~= raw@.skip(c + 1));
                    out.push(Header { name, value });
                    assert(header_views(out@) =~= with_line(before, raw@));
                },
                None => {},
            }
        }
        assert(header_views(out@) =~= fields(all.take(i + 1)));
        i += 1;
    }
    assert(all.take(all.len() as int) =~= all);
    out
}

/// Whether a field has the given name, in any case and up to blanks around it.
pub open spec fn is_named(h: HeaderModel, name: Seq<char>) -> bool {
    text::lower(text::trim(h.name)) == text::lower(name)
}

/// The last field with the given name.
pub open spec fn last_named(h: Seq<HeaderModel>, name: Seq<char>) -> Option<HeaderModel>
    decreases h.len(),
{
    if h.len() == 0 {
        None
    } else if is_named(h.last(), name) {
        Some(h.last())
    } else {
        last_named(h.drop_last(), name)
    }
}

/// How many fields have a name.
pub open spec fn count_named(h: Seq<HeaderModel>, name: Seq<char>) -> nat
    decreases h.len(),
{
    if h.len() == 0 {
        0
    } else {
        count_named(h.drop_last(), name) + if is_named(h.last(), name) {
            1nat
        } else {
            0nat
        }
    }
}

/// The field with the given name that has `n` of them below it.
pub open spec fn nth_from_bottom(h: Seq<HeaderModel>, name: Seq<char>, n: nat) -> Option<
    HeaderModel,
>
    decreases h.len(),
{
    if h.len() == 0 {
        None
    } else if !is_named(h.last(), name) {
        nth_from_bottom(h.drop_last(), name, n)
    } else if n == 0 {
        Some(h.last())
    } else {
        nth_from_bottom(h.drop_last(), name, (n - 1) as nat)
    }
}

fn has_name(h: &Header, name: &[char]) -> (r: bool)
    ensures
        r == is_named(h@, name@),
{
    let c = text::chars_of(h.name.as_str());
    text::same_ignoring_case(text::trimmed(c.as_slice()), name)
}

/// How many fields have a name.
pub fn count_headers(headers: &Vec<Header>, name: &str) -> (r: usize)
    ensures
        r == count_named(header_views(headers@), name@),
{
    let ghost all = header_views(headers@);
    let c = text::chars_of(name);
    let mut n: usize = 0;
    let mut i: usize = 0;
    while i < headers.len()
        invariant
            i <= headers@.len(),
            all == header_views(headers@),
            c@ == name@,
            n == count_named(all.take(i as int), name@),
            n <= i,
        decreases headers@.len() - i,
    {
        assert(all.take(i + 1).drop_last() =~= all.take(i as int));
        assert(all.take(i + 1).last() == headers@[i as int]@);
        if has_name(&headers[i], c.as_slice()) {
            n += 1;
        }
        i += 1;
    }
    assert(all.take(all.len() as int) =~= all);
    n
}

/// The field with the given name that has `skip` of them below it.
pub fn find_nth_header<'a>(headers: &'a Vec<Header>, name: &[char], skip: usize) -> (r: Option<
    &'a Header,
>)
    ensures
        crate::model::opt_view(r) == nth_from_bottom(header_views(headers@), name@, skip as nat),
{
    let ghost all = header_views(headers@);
    let mut n: usize = headers.len();
    let mut left: usize = skip;
    assert(all.take(n as int) =~= all);
    while n > 0
        invariant
            n <= headers@.len(),
            all == header_views(headers@),
            nth_from_bottom(all, name@, skip as nat) == nth_from_bottom(
                all.take(n as int),
                name@,
                left as nat,
            ),
        decreases n,
    {
        assert(all.take(n as int).last() == headers@[n - 1]@);
        assert(all.take(n as int).drop_last() =~= all.take(n - 1));
        if has_name(&headers[n - 1], name) {
            if left == 0 {
                return Some(&headers[n - 1]);
            }
            left = left - 1;
        }
        n = n - 1;
    }
    None
}

pub proof fn lemma_last_is_zeroth(h: Seq<HeaderModel>, name: Seq<char>)
    ensures
        nth_from_bottom(h, name, 0) == last_named(h, name),
    decreases h.len(),
{
    if h.len() > 0 {
        lemma_last_is_zeroth(h.drop_last(), name);
    }
}

/// The last field with the given name.
pub fn find_header<'a>(headers: &'a Vec<Header>, name: &str) -> (r: Option<&'a Header>)
    ensures
        crate::model::opt_view(r) == last_named(header_views(headers@), name@),
{
    let c = text::chars_of(name);
    proof {
        lemma_last_is_zeroth(header_views(headers@), name@);
    }
    find_nth_header(headers, c.as_slice(), 0)
}

/// The fields and the body of a message.
pub fn split_headers_body(m: &[u8]) -> (r: (Vec<Header>, &[u8]))
    ensures
        header_views(r.0@) == fields_of(head_of(m@)),
        r.1@ == body_of(m@),
{
    let n: usize = m.len();
    match find_blank_line(m) {
        Some(i) => {
            let head = slice_subrange(m, 0, i);
            let body = slice_subrange(m, i + 4, n);
            assert(head@ =~= m@.take(i as int));
            assert(body@ =~= m@.skip(i + 4));
            (parse_headers(head), body)
        },
        None => {
            let body = slice_subrange(m, n, n);
            assert(body@ =~= Seq::<u8>::empty());
            (parse_headers(m), body)
        },
    }
}

// ---- laws --------------------------------------------------------------------------------------

proof fn lemma_first_blank_is(b: Seq<u8>, from: int, k: int)
    requires
        0 <= from <= k,
        crlf_at(b, k) && crlf_at(b, k + 2),
        forall|j: int| from <= j < k ==> !(crlf_at(b, j) && #[trigger] crlf_at(b, j + 2)),
    ensures
        first_blank(b, from) == Some(k),
    decreases k - from,
{
    if from < k {
        assert(!(crlf_at(b, from) && crlf_at(b, from + 2)));
        lemma_first_blank_is(b, from + 1, k);
    }
}

/// Whether two line breaks stand in a row at `j`.
pub open spec fn empty_line_at(m: Seq<u8>, j: int) -> bool {
    0 <= j && j + 3 < m.len() && m[j] == 13 && m[j + 1] == 10 && m[j + 2] == 13 && m[j + 3] == 10
}

/// A message comes apart at its first empty line: what stands before it is the header block, what
/// stands behind it the body. Without an empty line it is all header.
pub proof fn law_message_comes_apart(head: Seq<u8>, body: Seq<u8>, m: Seq<u8>)
    requires
        m == head + seq![13u8, 10u8, 13u8, 10u8] + body,
        forall|j: int| 0 <= j < head.len() ==> !#[trigger] empty_line_at(m, j),
    ensures
        head_of(m) == head,
        body_of(m) == body,
{
    let n = head.len() as int;
    assert forall|j: int| 0 <= j < n implies !(crlf_at(m, j) && #[trigger] crlf_at(m, j + 2)) by {
        assert(!empty_line_at(m, j));
    }
    assert(crlf_at(m, n) && crlf_at(m, n + 2));
    lemma_first_blank_is(m, 0, n);
    assert(m.take(n) =~= head);
    assert(m.skip(n + 4) =~= body);
}

/// A message without an empty line is all header and has no body.
pub proof fn law_message_without_empty_line(m: Seq<u8>)
    requires
        forall|j: int| !#[trigger] empty_line_at(m, j),
    ensures
        head_of(m) == m,
        body_of(m).len() == 0,
{
    lemma_first_blank(m, 0);
    if first_blank(m, 0) is Some {
        let i = first_blank(m, 0)->0;
        assert(empty_line_at(m, i));
    }
}

/// A line that does not begin with a blank and holds a colon is a field: its name stands before the
/// first colon, its value behind.
pub proof fn law_line_is_a_field(ls: Seq<Seq<u8>>, name: Seq<u8>, value: Seq<u8>)
    requires
        name.len() > 0,
        name[0] != 32 && name[0] != 9,
        forall|i: int| 0 <= i < name.len() ==> #[trigger] name[i] != 58,
    ensures
        fields(ls.push(name + seq![58u8] + value)) == fields(ls).push(
            HeaderModel { name: text::lossy(name), value },
        ),
{
    let line = name + seq![58u8] + value;
    let all = ls.push(line);
    assert(all.drop_last() =~= ls);
    assert(line[0] == name[0]);
    let n = name.len() as int;
    line.index_of_first_ensures(58u8);
    assert(line[n] == 58);
    let i = line.index_of_first(58u8)->0;
    assert(i == n) by {
        if i < n {
            assert(name[i] == 58);
        }
    }
    assert(line.take(n) =~= name);
    assert(line.skip(n + 1) =~= value);
}

/// A line that begins with a blank goes on with the field before it, fold and all; other fields stay.
pub proof fn law_line_goes_on_with_the_field(ls: Seq<Seq<u8>>, line: Seq<u8>)
    requires
        line.len() > 0,
        line[0] == 32 || line[0] == 9,
        fields(ls).len() > 0,
    ensures
        fields(ls.push(line)).len() == fields(ls).len(),
        fields(ls.push(line)).drop_last() == fields(ls).drop_last(),
        fields(ls.push(line)).last().name == fields(ls).last().name,
        fields(ls.push(line)).last().value == fields(ls).last().value + seq![13u8, 10u8] + line,
{
    assert(ls.push(line).drop_last() =~= ls);
    let last = fields(ls).last();
    let f = HeaderModel { value: last.value + crlf() + line, ..last };
    assert(fields(ls).drop_last().push(f).drop_last() =~= fields(ls).drop_last());
}

/// An empty line, and one without a colon that does not begin with a blank, is no field.
pub proof fn law_other_lines_are_skipped(ls: Seq<Seq<u8>>, line: Seq<u8>)
    requires
        line.len() > 0 ==> line[0] != 32 && line[0] != 9,
        forall|i: int| 0 <= i < line.len() ==> #[trigger] line[i] != 58,
    ensures
        fields(ls.push(line)) == fields(ls),
        fields(Seq::<Seq<u8>>::empty()).len() == 0,
{
    assert(ls.push(line).drop_last() =~= ls);
    line.index_of_first_ensures(58u8);
}

/// Fields of one name are counted from the bottom: the first is the one with none of that name below
/// it, and what is above it comes after.
pub proof fn law_fields_are_counted_from_the_bottom(
    a: Seq<HeaderModel>,
    f: HeaderModel,
    b: Seq<HeaderModel>,
    name: Seq<char>,
    n: nat,
)
    requires
        text::lower(text::trim(f.name)) == text::lower(name),
        forall|i: int|
            0 <= i < b.len() ==> text::lower(text::trim((#[trigger] b[i]).name)) != text::lower(name),
    ensures
        nth_from_bottom(a + seq![f] + b, name, 0) == Some(f),
        last_named(a + seq![f] + b, name) == Some(f),
        nth_from_bottom(a + seq![f] + b, name, n + 1) == nth_from_bottom(a, name, n),
        nth_from_bottom(b, name, n) is None,
        last_named(b, name) is None,
        count_named(a + seq![f] + b, name) == count_named(a, name) + 1,
        count_named(b, name) == 0,
    decreases b.len(),
{
    let h = a + seq![f] + b;
    if b.len() == 0 {
        assert(h.last() == f);
        assert(h.drop_last() =~= a);
    } else {
        assert(h.last() == b[b.len() - 1]);
        assert(h.drop_last() =~= a + seq![f] + b.drop_last());
        assert forall|i: int| 0 <= i < b.drop_last().len() implies text::lower(
            text::trim((#[trigger] b.drop_last()[i]).name),
        ) != text::lower(name) by {
            assert(b.drop_last()[i] == b[i]);
        }
        law_fields_are_counted_from_the_bottom(a, f, b.drop_last(), name, n);
    }
}

} // verus!
