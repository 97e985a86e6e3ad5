//! What the socket code is built on: lines, replies, a bound on connections, and which addresses
//! may be dialed.

use crate::bytes;
use crate::model;
use crate::rfc5322;
use crate::rfc5322::{CR, LF};
use crate::text;
use vstd::prelude::*;
use vstd::slice::{slice_subrange, slice_to_vec};

verus! {

/// The octets that a line may have.
pub const MAX_LINE: usize = 65_536;

/// What came of reading one more octet of a line.
#[derive(Debug, PartialEq, Eq)]
pub enum LineEvent {
    /// The line goes on.
    More,
    /// The line, without its end.
    Line(Vec<u8>),
    /// The line is too long.
    TooLong,
}

/// [`LineEvent`] with its line as a sequence.
pub enum LineEventModel {
    More,
    Line(Seq<u8>),
    TooLong,
}

impl View for LineEvent {
    type V = LineEventModel;

    open spec fn view(&self) -> LineEventModel {
        match *self {
            LineEvent::More => LineEventModel::More,
            LineEvent::Line(l) => LineEventModel::Line(l@),
            LineEvent::TooLong => LineEventModel::TooLong,
        }
    }
}

/// Octets without a CR at their end.
pub open spec fn without_cr(b: Seq<u8>) -> Seq<u8> {
    if b.len() > 0 && b.last() == CR {
        b.drop_last()
    } else {
        b
    }
}

/// What one more octet does to a line so far.
pub open spec fn line_step(so_far: Seq<u8>, byte: u8) -> (Seq<u8>, LineEventModel) {
    if byte == LF {
        (Seq::empty(), LineEventModel::Line(without_cr(so_far)))
    } else if so_far.len() + 1 > MAX_LINE {
        (so_far.push(byte), LineEventModel::TooLong)
    } else {
        (so_far.push(byte), LineEventModel::More)
    }
}

/// Reads lines octet by octet, so that nothing behind a line is read with it.
pub struct LineReader {
    buf: Vec<u8>,
}

impl View for LineReader {
    type V = Seq<u8>;

    closed spec fn view(&self) -> Seq<u8> {
        self.buf@
    }
}

/// Why there is no line.
#[derive(Debug, Clone, Copy, PartialEq, Eq, Structural)]
pub enum LineError {
    /// The peer closed inside a line.
    UnexpectedEof,
    /// The line is too long.
    TooLong,
}

fn drop_cr(b: Vec<u8>) -> (r: Vec<u8>)
    ensures
        r@ == without_cr(b@),
{
    let n: usize = b.len();
    if n > 0 && b[n - 1] == CR {
        let r = slice_to_vec(slice_subrange(b.as_slice(), 0, n - 1));
        assert(r@ =~= b@.drop_last());
        r
    } else {
        b
    }
}

impl LineReader {
    /// A reader at the beginning of a line.
    pub fn new() -> (r: Self)
        ensures
            r@ == Seq::<u8>::empty(),
    {
        let r = LineReader { buf: Vec::new() };
        assert(r@ =~= Seq::<u8>::empty());
        r
    }

    /// Takes one octet.
    pub fn feed(&mut self, byte: u8) -> (r: LineEvent)
        ensures
            (final(self)@, r@) == line_step(old(self)@, byte),
    {
        if byte == LF {
            let mut line: Vec<u8> = Vec::new();
            std::mem::swap(&mut line, &mut self.buf);
            assert(self@ =~= Seq::<u8>::empty());
            return LineEvent::Line(drop_cr(line));
        }
        let over = self.buf.len() >= MAX_LINE;
        self.buf.push(byte);
        if over {
            LineEvent::TooLong
        } else {
            LineEvent::More
        }
    }

    /// Says what the end of the input means here: nothing at the beginning of a line, an error
    /// inside one.
    pub fn end(&self) -> (r: Result<(), LineError>)
        ensures
            r == (if self@.len() == 0 {
                Ok(())
            } else {
                Err(LineError::UnexpectedEof)
            }),
    {
        if self.buf.len() == 0 {
            Ok(())
        } else {
            Err(LineError::UnexpectedEof)
        }
    }
}

/// The first line of an input, without its end; none at the end of the input.
pub open spec fn first_line(input: Seq<u8>) -> Result<Option<Seq<u8>>, LineError> {
    match input.index_of_first(LF) {
        Some(i) => if i > MAX_LINE {
            Err(LineError::TooLong)
        } else {
            Ok(Some(without_cr(input.take(i))))
        },
        None => if input.len() > MAX_LINE {
            Err(LineError::TooLong)
        } else if input.len() > 0 {
            Err(LineError::UnexpectedEof)
        } else {
            Ok(None)
        },
    }
}

/// What is left of an input after its first line.
pub open spec fn after_first_line(input: Seq<u8>) -> Seq<u8> {
    match input.index_of_first(LF) {
        Some(i) => if i > MAX_LINE {
            input.skip(MAX_LINE + 1)
        } else {
            input.skip(i + 1)
        },
        None => if input.len() > MAX_LINE {
            input.skip(MAX_LINE + 1)
        } else {
            Seq::empty()
        },
    }
}

/// The views of a line, of the end of the input or of an error.
pub open spec fn line_view(r: Result<Option<Vec<u8>>, LineError>) -> Result<
    Option<Seq<u8>>,
    LineError,
> {
    match r {
        Ok(o) => Ok(model::opt_view(o)),
        Err(e) => Err(e),
    }
}

/// Reads one line off the front of an input. A lone LF ends a line as CR LF does.
pub fn read_line(input: &mut &[u8]) -> (r: Result<Option<Vec<u8>>, LineError>)
    ensures
        line_view(r) == first_line(old(input)@),
        final(input)@ == after_first_line(old(input)@),
{
    let all: &[u8] = *input;
    let n: usize = all.len();
    let mut reader = LineReader::new();
    let mut i: usize = 0;
    proof {
        all@.index_of_first_ensures(LF);
    }
    while i < n
        invariant
            i <= n,
            n == all@.len(),
            i <= MAX_LINE,
            reader@ == all@.take(i as int),
            forall|j: int| 0 <= j < i ==> all@[j] != LF,
            *input == all,
            all == *old(input),
        decreases n - i,
    {
        let b: u8 = all[i];
        assert(all@.take(i + 1) =~= all@.take(i as int).push(b));
        proof {
            all@.index_of_first_ensures(LF);
        }
        match reader.feed(b) {
            LineEvent::More => {},
            LineEvent::Line(l) => {
                assert(all@.contains(LF));
                *input = slice_subrange(all, i + 1, n);
                assert(input@ =~= all@.skip(i + 1));
                return Ok(Some(l));
            },
            LineEvent::TooLong => {
                *input = slice_subrange(all, i + 1, n);
                assert(input@ =~= all@.skip(i + 1));
                return Err(LineError::TooLong);
            },
        }
        i += 1;
    }
    proof {
        all@.index_of_first_ensures(LF);
        assert(!all@.contains(LF));
        assert(all@.take(n as int) =~= all@);
    }
    *input = slice_subrange(all, n, n);
    assert(input@ =~= Seq::<u8>::empty());
    match reader.end() {
        Ok(_) => Ok(None),
        Err(e) => Err(e),
    }
}

// ---- replies -----------------------------------------------------------------------------------

/// What came of reading one more piece of a line.
#[derive(Debug, Clone, Copy, PartialEq, Eq, Structural)]
pub enum PieceEvent {
    /// The line goes on.
    More,
    /// The line is complete.
    Complete,
    /// The line is too long.
    TooLong,
}

/// How much of a piece belongs to a line: all of it, or what stands up to and with the first LF.
pub open spec fn piece_len(piece: Seq<u8>) -> int {
    match piece.index_of_first(LF) {
        Some(i) => i + 1,
        None => piece.len() as int,
    }
}

/// What one more piece does to a line that has a bound.
pub open spec fn piece_event(so_far: Seq<u8>, piece: Seq<u8>, max: usize) -> PieceEvent {
    if so_far.len() + piece_len(piece) > max {
        PieceEvent::TooLong
    } else if piece.contains(LF) {
        PieceEvent::Complete
    } else {
        PieceEvent::More
    }
}

/// A line that comes in pieces, with a bound on its length.
pub struct PieceReader {
    line: Vec<u8>,
    max: usize,
}

/// [`PieceReader`] with its line as a sequence.
pub struct PieceModel {
    pub line: Seq<u8>,
    pub max: usize,
}

impl View for PieceReader {
    type V = PieceModel;

    closed spec fn view(&self) -> PieceModel {
        PieceModel { line: self.line@, max: self.max }
    }
}

impl PieceReader {
    /// A line before its first octet.
    pub fn new(max: usize) -> (r: Self)
        ensures
            r@ == (PieceModel { line: Seq::empty(), max }),
    {
        PieceReader { line: Vec::new(), max }
    }

    /// Takes what belongs to the line off a piece, and says how much that was.
    pub fn feed(&mut self, piece: &[u8]) -> (r: (usize, PieceEvent))
        ensures
            r.0 == piece_len(piece@),
            r.1 == piece_event(old(self)@.line, piece@, old(self)@.max),
            final(self)@ == (PieceModel {
                line: old(self)@.line + piece@.take(piece_len(piece@)),
                max: old(self)@.max,
            }),
    {
        proof {
            piece@.index_of_first_ensures(LF);
        }
        let all: usize = piece.len();
        let found = rfc5322::find_byte(piece, LF);
        let n: usize = match found {
            Some(i) => i + 1,
            None => all,
        };
        let fits: bool = self.line.len() <= self.max && n <= self.max - self.line.len();
        let part = slice_subrange(piece, 0, n);
        assert(part@ =~= piece@.take(n as int));
        bytes::push_all(&mut self.line, part);
        if !fits {
            (n, PieceEvent::TooLong)
        } else if found.is_some() {
            (n, PieceEvent::Complete)
        } else {
            (n, PieceEvent::More)
        }
    }

    /// The line so far, with its end.
    pub fn line(&self) -> (r: &[u8])
        ensures
            r@ == self@.line,
    {
        self.line.as_slice()
    }
}

/// Why a server's reply cannot be read.
#[derive(Debug, Clone, Copy, PartialEq, Eq, Structural)]
pub enum ReplyError {
    /// A line of less than three octets.
    Short,
    /// A line that does not begin with a code of three digits.
    NonNumeric,
}

/// The code at the front of a line of a reply.
pub open spec fn reply_code(line: Seq<char>) -> Result<u16, ReplyError> {
    if vstd::utf8::encode_utf8(line).len() < 3 {
        Err(ReplyError::Short)
    } else if line.len() < 3 || !text::all_digits(line.take(3)) {
        Err(ReplyError::NonNumeric)
    } else {
        Ok(text::dec_value(line.take(3)) as u16)
    }
}

proof fn lemma_three_digits(s: Seq<char>)
    requires
        s.len() == 3,
        text::all_digits(s),
    ensures
        text::dec_value(s) <= 999,
{
    reveal_with_fuel(text::dec_value, 4);
    assert(text::is_digit(s[0]) && text::is_digit(s[1]) && text::is_digit(s[2]));
    assert(s.drop_last().last() == s[1]);
    assert(s.drop_last().drop_last().last() == s[0]);
}

/// The text behind the code and the character that follows it.
pub open spec fn reply_text(line: Seq<char>) -> Seq<char> {
    if line.len() > 3 && line[3] <= '\u{7f}' {
        text::trim(line.skip(4))
    } else {
        Seq::empty()
    }
}

/// Whether another line follows.
pub open spec fn goes_on(line: Seq<char>) -> bool {
    line.len() > 3 && line[3] == '-'
}

/// The text of a reply with the text of one more line.
pub open spec fn with_text(so_far: Seq<char>, t: Seq<char>) -> Seq<char> {
    if so_far.len() > 0 {
        so_far + " "@ + t
    } else {
        t
    }
}

/// Puts the lines of a reply together.
pub struct ReplyReader {
    so_far: Vec<char>,
}

impl View for ReplyReader {
    type V = Seq<char>;

    closed spec fn view(&self) -> Seq<char> {
        self.so_far@
    }
}

/// Whether the first three octets of a line are whole characters.
pub open spec fn code_is_whole(line: Seq<char>) -> bool {
    let b = vstd::utf8::encode_utf8(line);
    b.len() < 3 || vstd::utf8::is_char_boundary(b, 3)
}

impl ReplyReader {
    /// A reader before the first line of a reply.
    pub fn new() -> (r: Self)
        ensures
            r@ == Seq::<char>::empty(),
    {
        let r = ReplyReader { so_far: Vec::new() };
        assert(r@ =~= Seq::<char>::empty());
        r
    }

    /// Takes one line. After the last line of a reply it gives its code and its whole text.
    pub fn feed(&mut self, line: &str) -> (r: Result<Option<(u16, String)>, ReplyError>)
        requires
            code_is_whole(line@),
        ensures
            match reply_code(line@) {
                Err(e) => r == Err::<Option<(u16, String)>, ReplyError>(e) && final(self)@ == old(
                    self,
                )@,
                Ok(code) => {
                    let t = with_text(old(self)@, reply_text(line@));
                    &&& final(self)@ == t
                    &&& if goes_on(line@) {
                        r matches Ok(None)
                    } else {
                        r matches Ok(Some((c, s))) && c == code && s@ == t
                    }
                },
            },
    {
        if line.as_bytes().len() < 3 {
            return Err(ReplyError::Short);
        }
        let c = text::chars_of(line);
        let n: usize = c.len();
        if n < 3 {
            return Err(ReplyError::NonNumeric);
        }
        let digits = slice_subrange(c.as_slice(), 0, 3);
        assert(digits@ =~= line@.take(3));
        if c[0] == '+' {
            assert(!text::is_digit(line@.take(3)[0]));
            return Err(ReplyError::NonNumeric);
        }
        let code: u16 = match text::parse_number(digits, 999) {
            Some(k) => k as u16,
            None => {
                proof {
                    if text::all_digits(digits@) {
                        lemma_three_digits(digits@);
                    }
                }
                return Err(ReplyError::NonNumeric);
            },
        };
        let ghost before = self.so_far@;
        if self.so_far.len() > 0 {
            text::push_str(&mut self.so_far, " ");
        }
        if n > 3 && c[3] <= '\u{7f}' {
            let t = slice_subrange(c.as_slice(), 4, n);
            assert(t@ =~= line@.skip(4));
            text::push_chars(&mut self.so_far, text::trimmed(t));
        }
        assert(self.so_far@ =~= with_text(before, reply_text(line@)));
        if n > 3 && c[3] == '-' {
            Ok(None)
        } else {
            Ok(Some((code, text::string_of(self.so_far.as_slice()))))
        }
    }
}

// ---- connections -------------------------------------------------------------------------------

/// A bound on the connections that are open at once. Its view is the number of open connections.
pub struct ConnLimiter {
    active: usize,
    max: usize,
}

/// One connection's place. There is no other way to one than [`ConnLimiter::try_acquire`].
pub struct ConnGuard {
    held: bool,
}

impl View for ConnLimiter {
    type V = nat;

    closed spec fn view(&self) -> nat {
        self.active as nat
    }
}

impl ConnLimiter {
    /// How many connections may be open at once.
    pub closed spec fn limit(&self) -> nat {
        self.max as nat
    }

    /// A bound with no connection open.
    pub fn new(max: usize) -> (r: Self)
        ensures
            r@ == 0,
            r.limit() == max,
    {
        ConnLimiter { active: 0, max }
    }

    /// Takes a place, if there is one.
    pub fn try_acquire(&mut self) -> (r: Option<ConnGuard>)
        ensures
            final(self).limit() == old(self).limit(),
            r is Some <==> old(self)@ < old(self).limit(),
            final(self)@ == (if r is Some {
                old(self)@ + 1
            } else {
                old(self)@
            }),
    {
        if self.active >= self.max {
            return None;
        }
        self.active += 1;
        Some(ConnGuard { held: true })
    }

    /// Gives a place back.
    pub fn release(&mut self, guard: ConnGuard)
        ensures
            final(self).limit() == old(self).limit(),
            final(self)@ == (if old(self)@ > 0 {
                old(self)@ - 1
            } else {
                0
            }),
    {
        if self.active > 0 {
            self.active -= 1;
        }
    }
}

// ---- addresses ---------------------------------------------------------------------------------

/// An address as its octets.
#[derive(Debug, Clone, Copy, PartialEq, Eq)]
pub enum IpAddress {
    V4([u8; 4]),
    V6([u8; 16]),
}

/// Whether an IPv4 address is the host's own, private, link-local, unspecified or broadcast.
pub open spec fn forbidden_v4(a: Seq<u8>) -> bool {
    ||| a[0] == 127
    ||| a[0] == 10
    ||| a[0] == 172 && 16 <= a[1] < 32
    ||| a[0] == 192 && a[1] == 168
    ||| a[0] == 169 && a[1] == 254
    ||| a == seq![0u8, 0u8, 0u8, 0u8]
    ||| a == seq![255u8, 255u8, 255u8, 255u8]
}

/// Whether the first `n` octets are zero.
pub open spec fn zero_up_to(a: Seq<u8>, n: int) -> bool {
    forall|i: int| 0 <= i < n ==> a[i] == 0
}

/// Whether an IPv6 address is the host's own, unique-local, link-local or unspecified, or stands for
/// an IPv4 address that is forbidden.
pub open spec fn forbidden_v6(a: Seq<u8>) -> bool {
    ||| zero_up_to(a, 15) && a[15] <= 1
    ||| a[0] == 0xfc || a[0] == 0xfd
    ||| a[0] == 0xfe && 0x80 <= a[1] < 0xc0
    ||| zero_up_to(a, 10) && a[10] == 0xff && a[11] == 0xff && forbidden_v4(a.subrange(12, 16))
}

/// Whether an address must not be dialed.
pub open spec fn forbidden(ip: IpAddress) -> bool {
    match ip {
        IpAddress::V4(a) => forbidden_v4(a@),
        IpAddress::V6(a) => forbidden_v6(a@),
    }
}

fn is_forbidden_v4(a: &[u8]) -> (r: bool)
    requires
        a@.len() == 4,
    ensures
        r == forbidden_v4(a@),
{
    let zero = a[0] == 0 && a[1] == 0 && a[2] == 0 && a[3] == 0;
    let ones = a[0] == 255 && a[1] == 255 && a[2] == 255 && a[3] == 255;
    proof {
        let z = seq![0u8, 0u8, 0u8, 0u8];
        let o = seq![255u8, 255u8, 255u8, 255u8];
        if zero {
            assert(a@ =~= z);
        }
        if a@ == z {
            assert(z[0] == 0 && z[1] == 0 && z[2] == 0 && z[3] == 0);
        }
        if ones {
            assert(a@ =~= o);
        }
        if a@ == o {
            assert(o[0] == 255 && o[1] == 255 && o[2] == 255 && o[3] == 255);
        }
    }
    a[0] == 127 || a[0] == 10 || (a[0] == 172 && 16 <= a[1] && a[1] < 32) || (a[0] == 192 && a[1]
        == 168) || (a[0] == 169 && a[1] == 254) || zero || ones
}

fn is_zero_up_to(a: &[u8], n: usize) -> (r: bool)
    requires
        n <= a@.len(),
    ensures
        r == zero_up_to(a@, n as int),
{
    let mut i: usize = 0;
    while i < n
        invariant
            i <= n <= a@.len(),
            zero_up_to(a@, i as int),
        decreases n - i,
    {
        if a[i] != 0 {
            return false;
        }
        i += 1;
    }
    true
}

/// Whether an address must not be dialed: whoever controls a name could otherwise point the gateway
/// at its own network.
pub fn is_forbidden_dest_ip(ip: &IpAddress) -> (r: bool)
    ensures
        r == forbidden(*ip),
{
    match ip {
        IpAddress::V4(a) => is_forbidden_v4(a.as_slice()),
        IpAddress::V6(a) => {
            let s = a.as_slice();
            let mapped = slice_subrange(s, 12, 16);
            let own = is_zero_up_to(s, 15) && s[15] <= 1;
            let v4 = is_zero_up_to(s, 10) && s[10] == 0xff && s[11] == 0xff && is_forbidden_v4(
                mapped,
            );
            own || s[0] == 0xfc || s[0] == 0xfd || (s[0] == 0xfe && 0x80 <= s[1] && s[1] < 0xc0)
                || v4
        },
    }
}

/// Why none of the addresses of a host can be dialed.
#[derive(Debug, Clone, Copy, PartialEq, Eq, Structural)]
pub enum DialError {
    /// The host has addresses, and all are forbidden.
    PermissionDenied,
    /// The host has no address.
    NotFound,
}

/// The first of the addresses of a host that may be dialed.
pub fn pick_destination(addresses: &[IpAddress]) -> (r: Result<usize, DialError>)
    ensures
        match r {
            Ok(i) => i < addresses@.len() && !forbidden(addresses@[i as int]) && forall|j: int|
                0 <= j < i ==> forbidden(#[trigger] addresses@[j]),
            Err(e) => {
                &&& forall|j: int|
                    0 <= j < addresses@.len() ==> forbidden(#[trigger] addresses@[j])
                &&& e == (if addresses@.len() > 0 {
                    DialError::PermissionDenied
                } else {
                    DialError::NotFound
                })
            },
        },
{
    let n: usize = addresses.len();
    let mut i: usize = 0;
    while i < n
        invariant
            i <= n,
            n == addresses@.len(),
            forall|j: int| 0 <= j < i ==> forbidden(#[trigger] addresses@[j]),
        decreases n - i,
    {
        if !is_forbidden_dest_ip(&addresses[i]) {
            return Ok(i);
        }
        i += 1;
    }
    if n > 0 {
        Err(DialError::PermissionDenied)
    } else {
        Err(DialError::NotFound)
    }
}

// ---- laws --------------------------------------------------------------------------------------

/// A line is the same in whatever pieces it comes, as long as no piece is too much.
pub proof fn law_pieces_do_not_matter(so_far: Seq<u8>, a: Seq<u8>, b: Seq<u8>, max: usize)
    requires
        piece_event(so_far, a, max) == PieceEvent::More,
    ensures
        piece_event(so_far + a, b, max) == piece_event(so_far, a + b, max),
        piece_len(a + b) == a.len() + piece_len(b),
        so_far + a + b.take(piece_len(b)) == so_far + (a + b).take(piece_len(a + b)),
{
    let ab = a + b;
    ab.index_of_first_ensures(LF);
    b.index_of_first_ensures(LF);
    if b.contains(LF) {
        let i = b.index_of_first(LF)->0;
        assert(ab[a.len() + i] == LF);
        let j = ab.index_of_first(LF)->0;
        if j < a.len() {
            assert(a[j] == LF);
        } else {
            assert(b[j - a.len()] == LF);
        }
    } else {
        if ab.contains(LF) {
            let j = ab.index_of_first(LF)->0;
            if j < a.len() {
                assert(a[j] == LF);
            } else {
                assert(b[j - a.len()] == LF);
            }
        }
    }
    assert(so_far + a + b.take(piece_len(b)) =~= so_far + ab.take(piece_len(ab)));
}

/// A line is read the same whether it ends in LF or in CR LF.
pub proof fn law_line_ends_are_alike(line: Seq<u8>, rest: Seq<u8>)
    requires
        !line.contains(LF),
        line.len() < MAX_LINE,
        line.len() > 0 ==> line.last() != CR,
    ensures
        first_line(line + seq![LF] + rest) == Ok::<Option<Seq<u8>>, LineError>(Some(line)),
        first_line(line + seq![CR, LF] + rest) == Ok::<Option<Seq<u8>>, LineError>(Some(line)),
        after_first_line(line + seq![LF] + rest) == rest,
        after_first_line(line + seq![CR, LF] + rest) == rest,
{
    let a = line + seq![LF] + rest;
    let b = line + seq![CR, LF] + rest;
    let n = line.len() as int;
    assert(a[n] == LF);
    assert(b[n + 1] == LF);
    a.index_of_first_ensures(LF);
    b.index_of_first_ensures(LF);
    assert forall|j: int| 0 <= j < n implies a[j] != LF && b[j] != LF by {
        assert(a[j] == line[j] && b[j] == line[j]);
    }
    assert(b[n] == CR);
    assert(a.index_of_first(LF) == Some(n));
    assert(b.index_of_first(LF) == Some(n + 1));
    assert(a.take(n) =~= line);
    assert(b.take(n + 1) =~= line.push(CR));
    assert(line.push(CR).drop_last() =~= line);
    assert(a.skip(n + 1) =~= rest);
    assert(b.skip(n + 2) =~= rest);
}

/// An input that ends inside a line yields no line.
pub proof fn law_partial_line_is_no_line(input: Seq<u8>)
    requires
        !input.contains(LF),
        input.len() > 0,
    ensures
        first_line(input) is Err,
{
    input.index_of_first_ensures(LF);
}

/// The number that four octets make.
pub open spec fn v4_number(a: Seq<u8>) -> int {
    ((a[0] * 256 + a[1]) * 256 + a[2]) * 256 + a[3]
}

/// An IPv4 address is not dialed exactly if it is in 127/8, 10/8, 172.16/12, 192.168/16 or 169.254/16,
/// or is the first or the last address of all.
pub proof fn law_which_v4_are_not_dialed(a: [u8; 4])
    ensures
        forbidden(IpAddress::V4(a)) <==> {
            let n = v4_number(a@);
            ||| 0x7f00_0000 <= n <= 0x7fff_ffff
            ||| 0x0a00_0000 <= n <= 0x0aff_ffff
            ||| 0xac10_0000 <= n <= 0xac1f_ffff
            ||| 0xc0a8_0000 <= n <= 0xc0a8_ffff
            ||| 0xa9fe_0000 <= n <= 0xa9fe_ffff
            ||| n == 0
            ||| n == 0xffff_ffff
        },
{
    let s = a@;
    if s[0] == 0 && s[1] == 0 && s[2] == 0 && s[3] == 0 {
        assert(s =~= seq![0u8, 0u8, 0u8, 0u8]);
    }
    if s[0] == 255 && s[1] == 255 && s[2] == 255 && s[3] == 255 {
        assert(s =~= seq![255u8, 255u8, 255u8, 255u8]);
    }
}

/// An IPv6 address is not dialed exactly if it is `::` or `::1`, is in fc00::/7 or fe80::/10, or stands
/// for an IPv4 address that is not dialed.
pub proof fn law_which_v6_are_not_dialed(a: [u8; 16], v4: [u8; 4])
    requires
        v4@ == a@.subrange(12, 16),
    ensures
        forbidden(IpAddress::V6(a)) <==> {
            let s = a@;
            let front = forall|i: int| 0 <= i < 10 ==> #[trigger] s[i] == 0;
            let nearly = front && s[10] == 0 && s[11] == 0 && s[12] == 0 && s[13] == 0 && s[14] == 0;
            ||| nearly && (s[15] == 0 || s[15] == 1)
            ||| 0xfc00 <= s[0] * 256 + s[1] <= 0xfdff
            ||| 0xfe80 <= s[0] * 256 + s[1] <= 0xfebf
            ||| front && s[10] == 255 && s[11] == 255 && forbidden(IpAddress::V4(v4))
        },
{
    let s = a@;
    let front = forall|i: int| 0 <= i < 10 ==> #[trigger] s[i] == 0;
    if front {
        assert(zero_up_to(s, 10));
        if s[10] == 0 && s[11] == 0 && s[12] == 0 && s[13] == 0 && s[14] == 0 {
            assert(zero_up_to(s, 15)) by {
                assert forall|i: int| 0 <= i < 15 implies s[i] == 0 by {
                    if i < 10 {
                        assert(s[i] == 0);
                    }
                }
            }
        }
    }
    if zero_up_to(s, 15) {
        assert forall|i: int| 0 <= i < 10 implies #[trigger] s[i] == 0 by {}
    }
    if zero_up_to(s, 10) {
        assert forall|i: int| 0 <= i < 10 implies #[trigger] s[i] == 0 by {}
    }
}

/// A line is too long exactly if more than 65536 octets come before its end, or before the end of
/// what there is; what ends before its line feed is no line; and where there is nothing at all, that is
/// no error.
pub proof fn law_how_long_a_line_may_be(line: Seq<u8>, rest: Seq<u8>)
    requires
        !line.contains(10u8),
    ensures
        line.len() > 65_536 ==> first_line(line + seq![10u8] + rest) == Err::<
            Option<Seq<u8>>,
            LineError,
        >(LineError::TooLong),
        line.len() <= 65_536 ==> first_line(line + seq![10u8] + rest) is Ok,
        line.len() > 65_536 ==> first_line(line) == Err::<Option<Seq<u8>>, LineError>(
            LineError::TooLong,
        ),
        0 < line.len() <= 65_536 ==> first_line(line) == Err::<Option<Seq<u8>>, LineError>(
            LineError::UnexpectedEof,
        ),
        line.len() == 0 ==> first_line(line) == Ok::<Option<Seq<u8>>, LineError>(None),
{
    let s = line + seq![10u8] + rest;
    let n = line.len() as int;
    s.index_of_first_ensures(10u8);
    line.index_of_first_ensures(10u8);
    assert(s[n] == 10);
    let i = s.index_of_first(10u8)->0;
    assert(i == n) by {
        if i < n {
            assert(line[i] == 10);
        }
    }
}

/// Octet by octet, a line is put together from what comes before its line feed, without a carriage
/// return at its end; after it the next line begins anew.
pub proof fn law_octets_make_lines(so_far: Seq<u8>, byte: u8)
    ensures
        byte == 10 && so_far.len() > 0 && so_far.last() == 13 ==> line_step(so_far, byte) == (
            Seq::<u8>::empty(),
            LineEventModel::Line(so_far.drop_last()),
        ),
        byte == 10 && (so_far.len() == 0 || so_far.last() != 13) ==> line_step(so_far, byte) == (
            Seq::<u8>::empty(),
            LineEventModel::Line(so_far),
        ),
        byte != 10 ==> line_step(so_far, byte).0 == so_far.push(byte),
        byte != 10 ==> (line_step(so_far, byte).1 is TooLong <==> so_far.len() >= 65_536),
        byte != 10 ==> (line_step(so_far, byte).1 is More <==> so_far.len() < 65_536),
{
}

/// The code of a reply is the number that its first three characters are; a hyphen behind them says
/// that the reply goes on, and what follows is its text.
pub proof fn law_replies_are_read(a: char, b: char, c: char, mark: char, t: Seq<char>)
    requires
        '0' <= a && a <= '9' && '0' <= b && b <= '9' && '0' <= c && c <= '9',
        mark == ' ' || mark == '-',
    ensures
        ({
            let line = seq![a, b, c, mark] + t;
            &&& reply_code(line) == Ok::<u16, ReplyError>(
                ((a as int - 48) * 100 + (b as int - 48) * 10 + (c as int - 48)) as u16,
            )
            &&& reply_text(line) == text::trim(t)
            &&& goes_on(line) == (mark == '-')
            &&& reply_code(seq![a, b, c]) == reply_code(line)
            &&& !goes_on(seq![a, b, c])
            &&& reply_text(seq![a, b, c]).len() == 0
        }),
{
    let line = seq![a, b, c, mark] + t;
    let d = seq![a, b, c];
    assert(line.take(3) =~= d);
    assert(d.take(3) =~= d);
    assert(line.skip(4) =~= t);
    assert(d.drop_last() =~= seq![a, b]);
    assert(seq![a, b].drop_last() =~= seq![a]);
    assert(seq![a].drop_last() =~= Seq::<char>::empty());
    reveal_with_fuel(text::dec_value, 4);
    lemma_octets_at_least(line);
    lemma_octets_at_least(d);
}

proof fn lemma_octets_at_least(s: Seq<char>)
    ensures
        vstd::utf8::encode_utf8(s).len() >= s.len(),
    decreases s.len(),
{
    reveal(vstd::utf8::encode_utf8);
    if s.len() > 0 {
        lemma_octets_at_least(s.drop_first());
    }
}

/// The texts of the lines of a reply are put together with a blank between them.
pub proof fn law_texts_of_a_reply(so_far: Seq<char>, t: Seq<char>)
    ensures
        so_far.len() > 0 ==> with_text(so_far, t) == so_far + seq![' '] + t,
        with_text(Seq::empty(), t) == t,
{
    reveal_strlit(" ");
    assert(" "@ =~= seq![' ']);
}

/// Reading a line takes the line and its line feed from the input, and what follows is left; of a line
/// that is too long as much is taken as was looked at.
pub proof fn law_what_is_left_of_the_input(line: Seq<u8>, rest: Seq<u8>)
    requires
        !line.contains(10u8),
    ensures
        line.len() <= 65_536 ==> after_first_line(line + seq![10u8] + rest) == rest,
        line.len() > 65_536 ==> after_first_line(line + seq![10u8] + rest) == line.skip(65_537)
            + seq![10u8] + rest,
        line.len() <= 65_536 ==> after_first_line(line).len() == 0,
        line.len() > 65_536 ==> after_first_line(line) == line.skip(65_537),
{
    let s = line + seq![10u8] + rest;
    let n = line.len() as int;
    s.index_of_first_ensures(10u8);
    line.index_of_first_ensures(10u8);
    assert(s[n] == 10);
    let i = s.index_of_first(10u8)->0;
    assert(i == n) by {
        if i < n {
            assert(line[i] == 10);
        }
    }
    assert(s.skip(n + 1) =~= rest);
    if n > 65_536 {
        assert(s.skip(65_537) =~= line.skip(65_537) + seq![10u8] + rest);
    }
}

} // verus!
