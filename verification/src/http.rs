//! What is read of HTTP: status lines.

use crate::text;
use vstd::prelude::*;

verus! {

/// The first line of a header.
pub open spec fn status_line(head: Seq<char>) -> Seq<char> {
    if text::lines(head).len() > 0 {
        text::lines(head)[0]
    } else {
        Seq::empty()
    }
}

/// Whether a word is a code of success: three digits, the first of them a 2.
pub open spec fn is_success_code(w: Seq<char>) -> bool {
    w.len() == 3 && w[0] == '2' && text::is_digit(w[1]) && text::is_digit(w[2])
}

/// Whether the second word of a status line is a code of success.
pub open spec fn is_success(line: Seq<char>) -> bool {
    let w = text::words(line);
    w.len() > 1 && is_success_code(w[1])
}

/// The first line of a header.
pub fn first_line(head: &[char]) -> (r: Vec<char>)
    ensures
        r@ == status_line(head@),
{
    let lines = text::split_lines(head);
    let ghost all = text::lines(head@);
    let mut status: Vec<char> = Vec::new();
    if lines.len() > 0 {
        assert(all[0] == lines@[0]@);
        text::push_chars(&mut status, lines[0].as_slice());
    }
    assert(status@ =~= status_line(head@));
    status
}

/// Whether a status line reports success.
pub fn reports_success(line: &[char]) -> (r: bool)
    ensures
        r == is_success(line@),
{
    let w = text::split_words(line);
    let ghost ws = text::words(line@);
    if w.len() > 1 {
        assert(ws[1] == w@[1]@);
        let code = &w[1];
        code.len() == 3 && code[0] == '2' && '0' <= code[1] && code[1] <= '9' && '0' <= code[2]
            && code[2] <= '9'
    } else {
        false
    }
}

// ---- laws --------------------------------------------------------------------------------------

/// A status line says success exactly if its second word is three digits with a two in front.
pub proof fn law_what_is_success(line: Seq<char>, w: Seq<Seq<char>>)
    requires
        w == text::words(line),
    ensures
        is_success(line) <==> w.len() >= 2 && w[1].len() == 3 && w[1][0] == '2' && '0' <= w[1][1]
            && w[1][1] <= '9' && '0' <= w[1][2] && w[1][2] <= '9',
{
}

/// The status line is the first line of a head.
pub proof fn law_status_line_is_the_first(a: Seq<char>, b: Seq<char>)
    requires
        !a.contains('\n'),
        a.len() > 0 ==> a.last() != '\r',
    ensures
        status_line(a + seq!['\r', '\n'] + b) == a,
        status_line(a + seq!['\n'] + b) == a,
        status_line(a) == a,
{
    text::law_lines_end_with_line_feeds(a, b);
    text::law_lines_end_with_line_feeds(a, Seq::empty());
}

} // verus!
