//! DNS messages: the codec for MX, A, AAAA and TXT lookups.
//!
//! Building a query and reading a response are pure functions on bytes. A name in a response may
//! be compressed: it may end in a pointer to an earlier place of the message. A pointer has to lead
//! strictly backwards, and a name takes at most [`MAX_JUMPS`] of them.

use crate::idn;
use crate::model;
use crate::random;
use crate::text;
use vstd::prelude::*;
use vstd::slice::{slice_subrange, slice_to_vec};

verus! {

pub const CLASS_IN: u16 = 1;

pub const TYPE_A: u16 = 1;

pub const TYPE_MX: u16 = 15;

pub const TYPE_TXT: u16 = 16;

pub const TYPE_AAAA: u16 = 28;

/// The most compression pointers that one name may take.
pub const MAX_JUMPS: u32 = 32;

#[derive(Debug, Clone, Copy, PartialEq, Eq, Structural)]
pub enum DnsError {
    /// The message ends before what it announces.
    Truncated,
    /// A compression pointer that does not lead backwards, too many of them, or a reserved length.
    BadPointer,
    /// The response code of a failed lookup.
    Rcode(u8),
}

/// One record of the answer section. `rdata_offset` is the place of `rdata` in the whole message,
/// from which a compressed name inside it is read.
#[derive(Debug, Clone, PartialEq, Eq)]
pub struct ResourceRecord {
    pub name: String,
    pub rtype: u16,
    pub rdata: Vec<u8>,
    pub rdata_offset: usize,
}

#[derive(Debug, Clone, PartialEq, Eq)]
pub struct DnsMessage {
    pub id: u16,
    pub rcode: u8,
    pub answers: Vec<ResourceRecord>,
}

/// [`ResourceRecord`] with its contents as sequences.
pub struct RecordModel {
    pub name: Seq<char>,
    pub rtype: u16,
    pub rdata: Seq<u8>,
    pub rdata_offset: int,
}

/// [`DnsMessage`] with its contents as sequences.
pub struct MessageModel {
    pub id: u16,
    pub rcode: u8,
    pub answers: Seq<RecordModel>,
}

impl View for ResourceRecord {
    type V = RecordModel;

    open spec fn view(&self) -> RecordModel {
        RecordModel {
            name: self.name@,
            rtype: self.rtype,
            rdata: self.rdata@,
            rdata_offset: self.rdata_offset as int,
        }
    }
}

/// The views of a sequence of records.
pub open spec fn record_views(v: Seq<ResourceRecord>) -> Seq<RecordModel> {
    Seq::new(v.len(), |i: int| v[i]@)
}

impl View for DnsMessage {
    type V = MessageModel;

    open spec fn view(&self) -> MessageModel {
        MessageModel { id: self.id, rcode: self.rcode, answers: record_views(self.answers@) }
    }
}

// ---- queries -----------------------------------------------------------------------------------

/// A 16-bit number in network byte order.
pub open spec fn be16(n: u16) -> Seq<u8> {
    seq![(n / 256) as u8, (n % 256) as u8]
}

fn push_be16(buf: &mut Vec<u8>, n: u16)
    ensures
        final(buf)@ == old(buf)@ + be16(n),
{
    let ghost before = buf@;
    buf.push((n / 256) as u8);
    buf.push((n % 256) as u8);
    assert(buf@ =~= before + be16(n));
}

/// A label as it stands in a name: its length, then its octets, cut at 63.
pub open spec fn label_bytes(label: Seq<char>) -> Seq<u8> {
    let b = vstd::utf8::encode_utf8(label);
    if label.len() == 0 {
        Seq::empty()
    } else if b.len() <= 63 {
        seq![b.len() as u8] + b
    } else {
        seq![63u8] + b.take(63)
    }
}

pub open spec fn labels_bytes(labels: Seq<Seq<char>>) -> Seq<u8>
    decreases labels.len(),
{
    if labels.len() == 0 {
        Seq::empty()
    } else {
        labels_bytes(labels.drop_last()) + label_bytes(labels.last())
    }
}

/// The labels of a name: what stands between its dots, trailing dots aside.
pub open spec fn labels_of(name: Seq<char>) -> Seq<Seq<char>> {
    text::split(text::strip_back(name, |c: char| c == '.'), '.')
}

/// A name on the wire: its non-empty labels, then a zero.
pub open spec fn name_bytes(name: Seq<char>) -> Seq<u8> {
    labels_bytes(labels_of(name)).push(0)
}

/// Appends a name in its uncompressed form.
pub fn encode_name(buf: &mut Vec<u8>, name: &str)
    ensures
        final(buf)@ == old(buf)@ + name_bytes(name@),
{
    let ghost before = buf@;
    let chars = text::chars_of(name);
    let bare = text::drop_char(chars.as_slice(), '.');
    let labels = text::split_at_each(bare, '.');
    let ghost all = text::views(labels@);
    assert(all == labels_of(name@)) by {
        assert((|x: char| x == '.') =~= (|c: char| c == '.'));
    }
    let mut i: usize = 0;
    assert(buf@ =~= before + labels_bytes(all.take(0)));
    while i < labels.len()
        invariant
            i <= labels@.len(),
            all == text::views(labels@),
            buf@ == before + labels_bytes(all.take(i as int)),
        decreases labels@.len() - i,
    {
        let label = text::string_of(labels[i].as_slice());
        assert(all.take(i + 1).drop_last() =~= all.take(i as int));
        assert(all.take(i + 1).last() == label@);
        if labels[i].len() > 0 {
            let bytes = label.as_str().as_bytes();
            let len: usize = if bytes.len() < 63 {
                bytes.len()
            } else {
                63
            };
            let ghost mid = buf@;
            buf.push(len as u8);
            buf.extend_from_slice(slice_subrange(bytes, 0, len));
            assert(buf@ =~= mid + label_bytes(label@));
        } else {
            assert(buf@ + label_bytes(label@) =~= buf@);
        }
        assert(buf@ =~= before + labels_bytes(all.take(i + 1)));
        i += 1;
    }
    assert(all.take(all.len() as int) =~= all);
    buf.push(0);
    assert(buf@ =~= before + name_bytes(name@));
}

/// A query for one name and type: the header of a recursive question, the name, type and class.
pub open spec fn query_bytes(id: u16, qname: Seq<char>, qtype: u16) -> Seq<u8> {
    be16(id) + seq![1u8, 0u8, 0u8, 1u8, 0u8, 0u8, 0u8, 0u8, 0u8, 0u8] + name_bytes(qname) + be16(
        qtype,
    ) + be16(CLASS_IN)
}

/// Builds a standard query that asks for recursion.
pub fn encode_query(id: u16, qname: &str, qtype: u16) -> (r: Vec<u8>)
    ensures
        r@ == query_bytes(id, qname@, qtype),
{
    let mut buf: Vec<u8> = Vec::new();
    push_be16(&mut buf, id);
    push_be16(&mut buf, 0x0100);
    push_be16(&mut buf, 1);
    push_be16(&mut buf, 0);
    push_be16(&mut buf, 0);
    push_be16(&mut buf, 0);
    assert(buf@ =~= be16(id) + seq![1u8, 0u8, 0u8, 1u8, 0u8, 0u8, 0u8, 0u8, 0u8, 0u8]);
    encode_name(&mut buf, qname);
    push_be16(&mut buf, qtype);
    push_be16(&mut buf, CLASS_IN);
    buf
}

// ---- names in a message ------------------------------------------------------------------------

/// The labels of the name at `pos`, after `jumps` pointers have been taken.
pub open spec fn labels_at(p: Seq<u8>, pos: int, jumps: int) -> Result<Seq<Seq<u8>>, DnsError>
    decreases MAX_JUMPS + 1 - jumps, p.len() - pos,
{
    if jumps > MAX_JUMPS {
        Err(DnsError::BadPointer)
    } else if !(0 <= pos < p.len()) {
        Err(DnsError::Truncated)
    } else if p[pos] == 0 {
        Ok(Seq::empty())
    } else if p[pos] >= 0xC0 {
        if pos + 1 >= p.len() {
            Err(DnsError::Truncated)
        } else {
            let target = (p[pos] - 0xC0) * 256 + p[pos + 1];
            if target >= pos {
                Err(DnsError::BadPointer)
            } else {
                labels_at(p, target, jumps + 1)
            }
        }
    } else if p[pos] >= 0x40 {
        Err(DnsError::BadPointer)
    } else if pos + 1 + p[pos] > p.len() {
        Err(DnsError::Truncated)
    } else {
        after_labels(
            seq![p.subrange(pos + 1, pos + 1 + p[pos])],
            labels_at(p, pos + 1 + p[pos], jumps),
        )
    }
}

/// `first`, then what `rest` holds.
pub open spec fn after_labels(
    first: Seq<Seq<u8>>,
    rest: Result<Seq<Seq<u8>>, DnsError>,
) -> Result<Seq<Seq<u8>>, DnsError> {
    match rest {
        Ok(r) => Ok(first + r),
        Err(e) => Err(e),
    }
}

/// Where reading goes on after the name at `pos`: behind its zero, or behind its first pointer.
pub open spec fn name_end(p: Seq<u8>, pos: int) -> int
    decreases p.len() - pos,
{
    if !(0 <= pos < p.len()) {
        pos
    } else if p[pos] == 0 {
        pos + 1
    } else if p[pos] >= 0xC0 {
        pos + 2
    } else if pos + 1 + p[pos] > p.len() {
        pos
    } else {
        name_end(p, pos + 1 + p[pos])
    }
}

/// The labels as text, with dots between them.
pub open spec fn dotted(labels: Seq<Seq<u8>>) -> Seq<char>
    decreases labels.len(),
{
    if labels.len() == 0 {
        Seq::empty()
    } else if labels.len() == 1 {
        text::lossy(labels[0])
    } else {
        dotted(labels.drop_last()).push('.') + text::lossy(labels.last())
    }
}

/// The name at `pos` and where reading goes on after it.
pub open spec fn name_at(p: Seq<u8>, pos: int) -> Result<(Seq<char>, int), DnsError> {
    match labels_at(p, pos, 0) {
        Ok(labels) => Ok((dotted(labels), name_end(p, pos))),
        Err(e) => Err(e),
    }
}

spec fn byte_views(v: Seq<Vec<u8>>) -> Seq<Seq<u8>> {
    Seq::new(v.len(), |i: int| v[i]@)
}

fn join_labels(labels: &Vec<Vec<u8>>) -> (r: String)
    ensures
        r@ == dotted(byte_views(labels@)),
{
    let mut out = String::new();
    let ghost all = byte_views(labels@);
    let mut i: usize = 0;
    assert(all.take(0) =~= Seq::empty());
    while i < labels.len()
        invariant
            i <= labels@.len(),
            all == byte_views(labels@),
            out@ == dotted(all.take(i as int)),
        decreases labels@.len() - i,
    {
        assert(all.take(i + 1).drop_last() =~= all.take(i as int));
        if i > 0 {
            out.push('.');
        }
        let label = text::from_utf8_lossy(labels[i].as_slice());
        out.append(label.as_str());
        assert(all.take(i + 1).last() == labels@[i as int]@);
        assert(out@ =~= dotted(all.take(i + 1)));
        i += 1;
    }
    assert(all.take(all.len() as int) =~= all);
    out
}

/// The views of a name and of the place after it.
pub open spec fn name_view(r: Result<(String, usize), DnsError>) -> Result<
    (Seq<char>, int),
    DnsError,
> {
    match r {
        Ok((name, next)) => Ok((name@, next as int)),
        Err(e) => Err(e),
    }
}

/// Reads the name at `start`, following its compression pointers.
pub fn read_name(packet: &[u8], start: usize) -> (r: Result<(String, usize), DnsError>)
    ensures
        name_view(r) == name_at(packet@, start as int),
        r matches Ok((_, next)) ==> start < next <= packet@.len(),
{
    let ghost p = packet@;
    let n: usize = packet.len();
    let mut labels: Vec<Vec<u8>> = Vec::new();
    let mut pos: usize = start;
    let mut resume_at: Option<usize> = None;
    let mut jumps: u32 = 0;
    proof {
        let rest = labels_at(p, pos as int, 0);
        if rest is Ok {
            assert(byte_views(labels@) + rest->Ok_0 =~= rest->Ok_0);
        }
    }
    loop
        invariant
            p == packet@,
            n == packet@.len(),
            jumps <= MAX_JUMPS + 1,
            labels_at(p, start as int, 0) == after_labels(
                byte_views(labels@),
                labels_at(p, pos as int, jumps as int),
            ),
            match resume_at {
                Some(at) => name_end(p, start as int) == at && start < at <= n,
                None => name_end(p, start as int) == name_end(p, pos as int) && start <= pos,
            },
        decreases MAX_JUMPS + 1 - jumps, n - pos,
    {
        if jumps > MAX_JUMPS {
            return Err(DnsError::BadPointer);
        }
        if pos >= n {
            return Err(DnsError::Truncated);
        }
        let len: u8 = packet[pos];
        if len == 0 {
            let at: usize = match resume_at {
                Some(at) => at,
                None => pos + 1,
            };
            assert(byte_views(labels@) + Seq::<Seq<u8>>::empty() =~= byte_views(labels@));
            let name = join_labels(&labels);
            return Ok((name, at));
        } else if len >= 0xC0 {
            if n - pos < 2 {
                return Err(DnsError::Truncated);
            }
            let target: usize = (len - 0xC0) as usize * 256 + packet[pos + 1] as usize;
            if resume_at.is_none() {
                resume_at = Some(pos + 2);
            }
            if target >= pos {
                return Err(DnsError::BadPointer);
            }
            pos = target;
            jumps = jumps + 1;
        } else if len >= 0x40 {
            return Err(DnsError::BadPointer);
        } else {
            let len: usize = len as usize;
            if len > n - pos - 1 {
                return Err(DnsError::Truncated);
            }
            let label = slice_to_vec(slice_subrange(packet, pos + 1, pos + 1 + len));
            let ghost before = byte_views(labels@);
            labels.push(label);
            proof {
                assert(byte_views(labels@) =~= before + seq![label@]);
                let rest = labels_at(p, pos + 1 + len, jumps as int);
                if rest is Ok {
                    assert(before + (seq![label@] + rest->Ok_0) =~= byte_views(labels@)
                        + rest->Ok_0);
                }
            }
            pos = pos + 1 + len;
        }
    }
}

// ---- responses ---------------------------------------------------------------------------------

/// Where the section of `n` questions at `pos` ends. A question is a name, a type and a class.
pub open spec fn questions_end(p: Seq<u8>, pos: int, n: nat) -> Result<int, DnsError>
    decreases n,
{
    if n == 0 {
        Ok(pos)
    } else {
        match name_at(p, pos) {
            Err(e) => Err(e),
            Ok((_, next)) => if next + 4 > p.len() {
                Err(DnsError::Truncated)
            } else {
                questions_end(p, next + 4, (n - 1) as nat)
            },
        }
    }
}

/// The record at `pos`: a name, type, class, time to live and length, then as many octets of data.
pub open spec fn record_at(p: Seq<u8>, pos: int) -> Result<RecordModel, DnsError> {
    match name_at(p, pos) {
        Err(e) => Err(e),
        Ok((name, at)) => if at + 10 > p.len() {
            Err(DnsError::Truncated)
        } else {
            let length = p[at + 8] * 256 + p[at + 9];
            if at + 10 + length > p.len() {
                Err(DnsError::Truncated)
            } else {
                Ok(
                    RecordModel {
                        name,
                        rtype: (p[at] * 256 + p[at + 1]) as u16,
                        rdata: p.subrange(at + 10, at + 10 + length),
                        rdata_offset: at + 10,
                    },
                )
            }
        },
    }
}

/// The `n` records from `pos` on.
pub open spec fn records_at(p: Seq<u8>, pos: int, n: nat) -> Result<Seq<RecordModel>, DnsError>
    decreases n,
{
    if n == 0 {
        Ok(Seq::empty())
    } else {
        match record_at(p, pos) {
            Err(e) => Err(e),
            Ok(first) => match records_at(
                p,
                first.rdata_offset + first.rdata.len(),
                (n - 1) as nat,
            ) {
                Err(e) => Err(e),
                Ok(rest) => Ok(seq![first] + rest),
            },
        }
    }
}

/// A response: its id, its response code and, where that is zero, its answers.
pub open spec fn response(p: Seq<u8>) -> Result<MessageModel, DnsError> {
    if p.len() < 12 {
        Err(DnsError::Truncated)
    } else {
        let id = (p[0] * 256 + p[1]) as u16;
        let rcode = p[3] % 16;
        match questions_end(p, 12, (p[4] * 256 + p[5]) as nat) {
            Err(e) => Err(e),
            Ok(pos) => if rcode != 0 {
                Ok(MessageModel { id, rcode, answers: Seq::empty() })
            } else {
                match records_at(p, pos, (p[6] * 256 + p[7]) as nat) {
                    Err(e) => Err(e),
                    Ok(answers) => Ok(MessageModel { id, rcode, answers }),
                }
            },
        }
    }
}

fn skip_questions(packet: &[u8], count: u16) -> (r: Result<usize, DnsError>)
    requires
        packet@.len() >= 12,
    ensures
        match r {
            Ok(pos) => questions_end(packet@, 12, count as nat) == Ok::<int, DnsError>(pos as int)
                && pos <= packet@.len(),
            Err(e) => questions_end(packet@, 12, count as nat) == Err::<int, DnsError>(e),
        },
{
    let mut pos: usize = 12;
    let mut left: u16 = count;
    let n: usize = packet.len();
    while left > 0
        invariant
            n == packet@.len(),
            pos <= n,
            questions_end(packet@, 12, count as nat) == questions_end(
                packet@,
                pos as int,
                left as nat,
            ),
        decreases left,
    {
        match read_name(packet, pos) {
            Err(e) => {
                return Err(e);
            },
            Ok((_, next)) => {
                if n - next < 4 {
                    return Err(DnsError::Truncated);
                }
                pos = next + 4;
            },
        }
        left = left - 1;
    }
    Ok(pos)
}

fn read_record(packet: &[u8], pos: usize) -> (r: Result<ResourceRecord, DnsError>)
    ensures
        model::ok_view(r) == record_at(packet@, pos as int),
        r matches Ok(rr) ==> rr.rdata_offset + rr.rdata@.len() <= packet@.len(),
{
    let n: usize = packet.len();
    match read_name(packet, pos) {
        Err(e) => Err(e),
        Ok((name, at)) => {
            if n - at < 10 {
                return Err(DnsError::Truncated);
            }
            let rtype: u16 = packet[at] as u16 * 256 + packet[at + 1] as u16;
            let length: usize = packet[at + 8] as usize * 256 + packet[at + 9] as usize;
            if n - at - 10 < length {
                return Err(DnsError::Truncated);
            }
            let rdata = slice_to_vec(slice_subrange(packet, at + 10, at + 10 + length));
            Ok(ResourceRecord { name, rtype, rdata, rdata_offset: at + 10 })
        },
    }
}

fn read_records(packet: &[u8], start: usize, count: u16) -> (r: Result<Vec<ResourceRecord>, DnsError>)
    ensures
        match r {
            Ok(v) => records_at(packet@, start as int, count as nat) == Ok::<
                Seq<RecordModel>,
                DnsError,
            >(record_views(v@)),
            Err(e) => records_at(packet@, start as int, count as nat) == Err::<
                Seq<RecordModel>,
                DnsError,
            >(e),
        },
{
    let n: usize = packet.len();
    let mut out: Vec<ResourceRecord> = Vec::new();
    let mut pos: usize = start;
    let mut left: u16 = count;
    proof {
        let rest = records_at(packet@, pos as int, left as nat);
        if rest is Ok {
            assert(record_views(out@) + rest->Ok_0 =~= rest->Ok_0);
        }
    }
    while left > 0
        invariant
            n == packet@.len(),
            match records_at(packet@, pos as int, left as nat) {
                Ok(rest) => records_at(packet@, start as int, count as nat) == Ok::<
                    Seq<RecordModel>,
                    DnsError,
                >(record_views(out@) + rest),
                Err(e) => records_at(packet@, start as int, count as nat) == Err::<
                    Seq<RecordModel>,
                    DnsError,
                >(e),
            },
        decreases left,
    {
        match read_record(packet, pos) {
            Err(e) => {
                return Err(e);
            },
            Ok(rr) => {
                let ghost before = record_views(out@);
                let ghost first = rr@;
                pos = rr.rdata_offset + rr.rdata.len();
                out.push(rr);
                proof {
                    assert(record_views(out@) =~= before.push(first));
                    let rest = records_at(packet@, pos as int, (left - 1) as nat);
                    if rest is Ok {
                        assert(before + (seq![first] + rest->Ok_0) =~= record_views(out@)
                            + rest->Ok_0);
                    }
                }
            },
        }
        left = left - 1;
    }
    assert(record_views(out@) + Seq::<RecordModel>::empty() =~= record_views(out@));
    Ok(out)
}

/// Reads a response: the header, the questions, which are skipped, and the answers.
pub fn parse_response(packet: &[u8]) -> (r: Result<DnsMessage, DnsError>)
    ensures
        model::ok_view(r) == response(packet@),
{
    if packet.len() < 12 {
        return Err(DnsError::Truncated);
    }
    let id: u16 = packet[0] as u16 * 256 + packet[1] as u16;
    let rcode: u8 = packet[3] % 16;
    let qdcount: u16 = packet[4] as u16 * 256 + packet[5] as u16;
    let ancount: u16 = packet[6] as u16 * 256 + packet[7] as u16;
    let pos: usize = match skip_questions(packet, qdcount) {
        Ok(pos) => pos,
        Err(e) => {
            return Err(e);
        },
    };
    if rcode != 0 {
        let answers: Vec<ResourceRecord> = Vec::new();
        assert(record_views(answers@) =~= Seq::empty());
        return Ok(DnsMessage { id, rcode, answers });
    }
    match read_records(packet, pos, ancount) {
        Ok(answers) => Ok(DnsMessage { id, rcode, answers }),
        Err(e) => Err(e),
    }
}

// ---- record data -------------------------------------------------------------------------------

/// The preference and the exchange of an MX record, given the message that it stands in.
pub open spec fn mx_data(p: Seq<u8>, rr: RecordModel) -> Result<(u16, Seq<char>), DnsError> {
    if rr.rdata.len() < 3 {
        Err(DnsError::Truncated)
    } else {
        match name_at(p, rr.rdata_offset + 2) {
            Ok((exchange, _)) => Ok(((rr.rdata[0] * 256 + rr.rdata[1]) as u16, exchange)),
            Err(e) => Err(e),
        }
    }
}

/// Reads the data of an MX record: a preference, then the name of the exchange, which may point
/// into the rest of the message.
pub fn parse_mx_rdata(packet: &[u8], rr: &ResourceRecord) -> (r: Result<(u16, String), DnsError>)
    ensures
        model::ok_view(r) == mx_data(packet@, rr@),
{
    if rr.rdata.len() < 3 {
        return Err(DnsError::Truncated);
    }
    let n: usize = packet.len();
    if n <= 2 || rr.rdata_offset > n - 2 {
        return Err(DnsError::Truncated);
    }
    let preference: u16 = rr.rdata[0] as u16 * 256 + rr.rdata[1] as u16;
    match read_name(packet, rr.rdata_offset + 2) {
        Ok((exchange, _)) => Ok((preference, exchange)),
        Err(e) => Err(e),
    }
}

/// The four octets of the address in an A record.
pub fn parse_a_rdata(rr: &ResourceRecord) -> (r: Option<[u8; 4]>)
    ensures
        match r {
            Some(a) => rr@.rdata == a@,
            None => rr@.rdata.len() != 4,
        },
{
    if rr.rdata.len() == 4 {
        let a: [u8; 4] = [rr.rdata[0], rr.rdata[1], rr.rdata[2], rr.rdata[3]];
        assert(a@ =~= rr.rdata@);
        Some(a)
    } else {
        None
    }
}

/// The sixteen octets of the address in an AAAA record.
pub fn parse_aaaa_rdata(rr: &ResourceRecord) -> (r: Option<[u8; 16]>)
    ensures
        match r {
            Some(a) => rr@.rdata == a@,
            None => rr@.rdata.len() != 16,
        },
{
    let d = &rr.rdata;
    if d.len() == 16 {
        let a: [u8; 16] = [
            d[0],
            d[1],
            d[2],
            d[3],
            d[4],
            d[5],
            d[6],
            d[7],
            d[8],
            d[9],
            d[10],
            d[11],
            d[12],
            d[13],
            d[14],
            d[15],
        ];
        assert(a@ =~= rr.rdata@);
        Some(a)
    } else {
        None
    }
}

/// The character strings of a TXT record, one after the other. One that is cut short ends them.
pub open spec fn txt_data(d: Seq<u8>) -> Seq<char>
    decreases d.len(),
{
    if d.len() == 0 || 1 + d[0] > d.len() {
        Seq::empty()
    } else {
        text::lossy(d.subrange(1, 1 + d[0])) + txt_data(d.skip(1 + d[0]))
    }
}

/// Reads the data of a TXT record: strings with their lengths in front, concatenated.
pub fn parse_txt_rdata(rr: &ResourceRecord) -> (r: String)
    ensures
        r@ == txt_data(rr@.rdata),
{
    let d = rr.rdata.as_slice();
    let n: usize = d.len();
    let mut s = String::new();
    let mut i: usize = 0;
    assert(d@.skip(0) =~= d@);
    assert(s@ + txt_data(d@) =~= txt_data(d@));
    while i < n
        invariant_except_break
            s@ + txt_data(d@.skip(i as int)) == txt_data(d@),
        invariant
            n == d@.len(),
            i <= n,
        ensures
            s@ == txt_data(d@),
        decreases n - i,
    {
        let len: usize = d[i] as usize;
        if len > n - i - 1 {
            assert(s@ + Seq::<char>::empty() =~= s@);
            break;
        }
        let part = slice_subrange(d, i + 1, i + 1 + len);
        let t = text::from_utf8_lossy(part);
        let ghost before = s@;
        s.append(t.as_str());
        proof {
            let rest = d@.skip(i as int);
            assert(rest.subrange(1, 1 + len) =~= part@);
            assert(rest.skip(1 + len) =~= d@.skip(i + 1 + len));
            assert(before + (t@ + txt_data(rest.skip(1 + len))) =~= s@ + txt_data(
                d@.skip(i + 1 + len),
            ));
        }
        i = i + 1 + len;
        if i >= n {
            assert(s@ + Seq::<char>::empty() =~= s@);
        }
    }
    s
}

/// The texts of the TXT records among the given ones.
pub open spec fn txt_texts(rrs: Seq<RecordModel>) -> Seq<Seq<char>>
    decreases rrs.len(),
{
    if rrs.len() == 0 {
        Seq::empty()
    } else if rrs.last().rtype == TYPE_TXT {
        txt_texts(rrs.drop_last()).push(txt_data(rrs.last().rdata))
    } else {
        txt_texts(rrs.drop_last())
    }
}

/// The texts of the TXT records that a response holds.
pub fn txt_in_response(msg: &DnsMessage) -> (r: Vec<String>)
    ensures
        text::string_views(r@) == txt_texts(msg@.answers),
{
    let ghost all = record_views(msg.answers@);
    let mut out: Vec<String> = Vec::new();
    let mut i: usize = 0;
    assert(text::string_views(out@) =~= txt_texts(all.take(0)));
    while i < msg.answers.len()
        invariant
            i <= msg.answers@.len(),
            all == record_views(msg.answers@),
            text::string_views(out@) == txt_texts(all.take(i as int)),
        decreases msg.answers@.len() - i,
    {
        let rr: &ResourceRecord = &msg.answers[i];
        assert(all.take(i + 1).drop_last() =~= all.take(i as int));
        assert(all.take(i + 1).last() == rr@);
        if rr.rtype == TYPE_TXT {
            let ghost before = text::string_views(out@);
            let t = parse_txt_rdata(rr);
            let ghost tv = t@;
            out.push(t);
            assert(text::string_views(out@) =~= before.push(tv));
        }
        i += 1;
    }
    assert(all.take(all.len() as int) =~= all);
    out
}

/// The texts of the TXT records that a response packet holds, none where there is no packet or it
/// cannot be read.
pub fn txt_from_packet(packet: Option<&[u8]>) -> (r: Vec<String>)
    ensures
        text::string_views(r@) == (match packet {
            None => Seq::empty(),
            Some(p) => match response(p@) {
                Ok(m) => txt_texts(m.answers),
                Err(_) => Seq::empty(),
            },
        }),
{
    if let Some(p) = packet {
        if let Ok(m) = parse_response(p) {
            return txt_in_response(&m);
        }
    }
    let none: Vec<String> = Vec::new();
    assert(text::string_views(none@) =~= Seq::<Seq<char>>::empty());
    none
}

// ---- asking ------------------------------------------------------------------------------------

/// The query for a domain in any spelling, under the given id: the domain goes on the wire in its
/// ASCII form.
pub open spec fn domain_query(
    id: u16,
    domain: Seq<char>,
    ascii: Result<Seq<char>, idn::IdnErrorModel>,
    qtype: u16,
) -> Result<Seq<u8>, idn::IdnErrorModel> {
    match ascii {
        Ok(name) => Ok(query_bytes(id, name, qtype)),
        Err(e) => Err(e),
    }
}

/// Builds the query for a domain in any spelling. A domain without an ASCII form is refused before
/// any packet exists.
pub fn build_query(id: u16, domain: &str, qtype: u16) -> (r: Result<Vec<u8>, idn::IdnError>)
    ensures
        model::res_view(r) == domain_query(
            id,
            domain@,
            idn::ascii_form(domain@, idn::idna_to_ascii(domain@)),
            qtype,
        ),
{
    match idn::domain_to_ascii(domain) {
        Ok(name) => Ok(encode_query(id, name.as_str(), qtype)),
        Err(e) => Err(e),
    }
}

/// The transaction id in two random octets.
pub fn txn_id_from(high: u8, low: u8) -> (id: u16)
    ensures
        be16(id) == seq![high, low],
{
    let id: u16 = high as u16 * 256 + low as u16;
    assert(be16(id) =~= seq![high, low]);
    id
}

/// A fresh transaction id. Every outcome is possible, so the contract leaves it open.
pub fn random_txn_id() -> (r: Result<u16, random::RandomUnavailable>)
{
    match random::random_bytes(2) {
        Ok(b) => Ok(txn_id_from(b[0], b[1])),
        Err(e) => Err(e),
    }
}

// ---- laws --------------------------------------------------------------------------------------

/// A pointer that does not lead strictly backwards is refused, whatever else the message holds.
pub proof fn law_forward_pointer_is_refused(p: Seq<u8>, pos: int)
    requires
        0 <= pos,
        pos + 1 < p.len(),
        p[pos] >= 0xC0,
        (p[pos] - 0xC0) * 256 + p[pos + 1] >= pos,
    ensures
        name_at(p, pos) == Err::<(Seq<char>, int), DnsError>(DnsError::BadPointer),
{
}

proof fn lemma_labels_bytes_front(first: Seq<char>, rest: Seq<Seq<char>>)
    ensures
        labels_bytes(seq![first] + rest) == label_bytes(first) + labels_bytes(rest),
    decreases rest.len(),
{
    let all = seq![first] + rest;
    if rest.len() == 0 {
        assert(all.drop_last() =~= Seq::<Seq<char>>::empty());
        assert(labels_bytes(all.drop_last()) =~= Seq::<u8>::empty());
        assert(all.last() == first);
        assert(labels_bytes(all) =~= label_bytes(first) + labels_bytes(rest));
    } else {
        lemma_labels_bytes_front(first, rest.drop_last());
        assert(all.drop_last() =~= seq![first] + rest.drop_last());
        assert(labels_bytes(all) =~= label_bytes(first) + labels_bytes(rest));
    }
}

/// The octets of each label.
pub open spec fn encoded(labels: Seq<Seq<char>>) -> Seq<Seq<u8>> {
    Seq::new(labels.len(), |i: int| vstd::utf8::encode_utf8(labels[i]))
}

/// Whether every label can stand on the wire as it is.
pub open spec fn wire_labels(labels: Seq<Seq<char>>) -> bool {
    forall|i: int|
        0 <= i < labels.len() ==> #[trigger] labels[i].len() > 0 && 0 < vstd::utf8::encode_utf8(
            labels[i],
        ).len() <= 63
}

proof fn lemma_read_back(pre: Seq<u8>, labels: Seq<Seq<char>>, post: Seq<u8>)
    requires
        wire_labels(labels),
    ensures
        ({
            let p = pre + labels_bytes(labels).push(0) + post;
            &&& labels_at(p, pre.len() as int, 0) == Ok::<Seq<Seq<u8>>, DnsError>(encoded(labels))
            &&& name_end(p, pre.len() as int) == pre.len() + labels_bytes(labels).len() + 1
        }),
    decreases labels.len(),
{
    let p = pre + labels_bytes(labels).push(0) + post;
    let pos = pre.len() as int;
    if labels.len() == 0 {
        assert(p[pos] == 0);
        assert(encoded(labels) =~= Seq::<Seq<u8>>::empty());
    } else {
        let first = labels[0];
        let rest = labels.skip(1);
        assert(labels =~= seq![first] + rest);
        lemma_labels_bytes_front(first, rest);
        let b = vstd::utf8::encode_utf8(first);
        assert(b.len() <= 63);
        let head = label_bytes(first);
        assert(head =~= seq![b.len() as u8] + b);
        assert forall|i: int| 0 <= i < rest.len() implies #[trigger] rest[i].len() > 0 && 0
            < vstd::utf8::encode_utf8(rest[i]).len() <= 63 by {
            assert(rest[i] == labels[i + 1]);
        }
        lemma_read_back(pre + head, rest, post);
        let q = (pre + head) + labels_bytes(rest).push(0) + post;
        assert(q =~= p);
        assert(p[pos] == b.len());
        assert(p.subrange(pos + 1, pos + 1 + b.len()) =~= b);
        assert(seq![b] + encoded(rest) =~= encoded(labels));
    }
}

proof fn lemma_dotted_encoded(labels: Seq<Seq<char>>)
    ensures
        dotted(encoded(labels)) == text::join(labels, '.'),
    decreases labels.len(),
{
    if labels.len() > 0 {
        text::lemma_lossy_of_text(labels.last());
        assert(encoded(labels).drop_last() =~= encoded(labels.drop_last()));
        lemma_dotted_encoded(labels.drop_last());
    }
}

/// A name whose labels fit the wire, written into a message, is read back from it, and reading goes
/// on right behind it.
pub proof fn law_name_round_trip(pre: Seq<u8>, name: Seq<char>, post: Seq<u8>)
    requires
        wire_labels(labels_of(name)),
    ensures
        name_at(pre + name_bytes(name) + post, pre.len() as int) == Ok::<
            (Seq<char>, int),
            DnsError,
        >(
            (
                text::strip_back(name, |c: char| c == '.'),
                (pre.len() + name_bytes(name).len()) as int,
            ),
        ),
{
    let bare = text::strip_back(name, |c: char| c == '.');
    lemma_read_back(pre, labels_of(name), post);
    lemma_dotted_encoded(labels_of(name));
    text::lemma_join_split(bare, '.');
}

/// A name goes on the wire label by label, each behind the number of its octets, with a zero at the end.
pub proof fn law_name_on_the_wire(label: Seq<char>, rest: Seq<char>)
    requires
        label.len() > 0,
        !label.contains('.'),
        vstd::utf8::encode_utf8(label).len() <= 63,
        rest.len() > 0 && rest.last() != '.',
    ensures
        ({
            let b = vstd::utf8::encode_utf8(label);
            &&& name_bytes(label) == seq![b.len() as u8] + b + seq![0u8]
            &&& name_bytes(label + seq!['.'] + rest) == seq![b.len() as u8] + b + name_bytes(rest)
            &&& name_bytes(label + seq!['.'] + rest + seq!['.']) == name_bytes(
                label + seq!['.'] + rest,
            )
        }),
        name_bytes(Seq::<char>::empty()) == seq![0u8],
{
    let dot = |c: char| c == '.';
    let b = vstd::utf8::encode_utf8(label);
    let none = Seq::<char>::empty();
    let full = label + seq!['.'] + rest;
    assert(label.last() != '.') by {
        assert(label[label.len() - 1] != '.');
    }
    assert(full.last() == rest.last());
    assert(text::strip_back(label, dot) == label);
    assert(text::strip_back(full, dot) == full);
    assert(text::strip_back(rest, dot) == rest);
    let f = full + seq!['.'];
    assert(f.last() == '.');
    assert(f.drop_last() =~= full);
    assert(text::strip_back(f, dot) == full);
    text::law_cut_at_the_first(label, '.', rest);
    lemma_labels_bytes_front(label, text::split(rest, '.'));
    lemma_labels_bytes_front(label, Seq::<Seq<char>>::empty());
    assert(seq![label] + Seq::<Seq<char>>::empty() =~= seq![label]);
    assert(label_bytes(label) =~= seq![b.len() as u8] + b);
    assert(name_bytes(label) =~= seq![b.len() as u8] + b + seq![0u8]);
    assert(name_bytes(full) =~= seq![b.len() as u8] + b + name_bytes(rest));
    text::law_cut_at_the_first(none, '.', none);
    assert(text::strip_back(none, dot) == none);
    lemma_labels_bytes_front(none, Seq::<Seq<char>>::empty());
    assert(seq![none] + Seq::<Seq<char>>::empty() =~= seq![none]);
    assert(labels_bytes(seq![none]) =~= Seq::<u8>::empty());
    assert(name_bytes(none) =~= seq![0u8]);
}

/// A query is the header of one question that asks for recursion, under its id, then the name, the type
/// and the class of the Internet.
pub proof fn law_query_on_the_wire(id: u16, qname: Seq<char>, qtype: u16)
    ensures
        ({
            let q = query_bytes(id, qname, qtype);
            let n = q.len() as int;
            &&& q.take(12) == seq![
                (id / 256) as u8,
                (id % 256) as u8,
                1u8,
                0u8,
                0u8,
                1u8,
                0u8,
                0u8,
                0u8,
                0u8,
                0u8,
                0u8,
            ]
            &&& n == 16 + name_bytes(qname).len()
            &&& q.subrange(12, n - 4) == name_bytes(qname)
            &&& q.skip(n - 4) == seq![(qtype / 256) as u8, (qtype % 256) as u8, 0u8, 1u8]
        }),
{
    let q = query_bytes(id, qname, qtype);
    let n = q.len() as int;
    assert(q.take(12) =~= seq![
        (id / 256) as u8,
        (id % 256) as u8,
        1u8,
        0u8,
        0u8,
        1u8,
        0u8,
        0u8,
        0u8,
        0u8,
        0u8,
        0u8,
    ]);
    assert(q.subrange(12, n - 4) =~= name_bytes(qname));
    assert(q.skip(n - 4) =~= seq![(qtype / 256) as u8, (qtype % 256) as u8, 0u8, 1u8]);
}

/// A pointer in a message stands for what is at the earlier place that it leads to, and reading goes on
/// behind the pointer.
pub proof fn law_pointer_is_followed(p: Seq<u8>, pos: int, jumps: int)
    requires
        0 <= pos,
        pos + 1 < p.len(),
        p[pos] >= 0xC0,
        (p[pos] - 0xC0) * 256 + p[pos + 1] < pos,
        0 <= jumps <= 32,
    ensures
        labels_at(p, pos, jumps) == labels_at(p, (p[pos] - 0xC0) * 256 + p[pos + 1], jumps + 1),
        name_end(p, pos) == pos + 2,
        labels_at(p, pos, 33) == Err::<Seq<Seq<u8>>, DnsError>(DnsError::BadPointer),
{
}

/// A record is read from its name, its type, its class, its time to live, the number of octets of its
/// data and the data; class and time are passed over.
pub proof fn law_record_is_read(
    pre: Seq<u8>,
    name: Seq<char>,
    rtype: u16,
    skipped: Seq<u8>,
    rdata: Seq<u8>,
    post: Seq<u8>,
)
    requires
        wire_labels(labels_of(name)),
        skipped.len() == 6,
        rdata.len() <= 0xffff,
    ensures
        ({
            let n = name_bytes(name);
            let m = rdata.len();
            let p = pre + n + seq![(rtype / 256) as u8, (rtype % 256) as u8] + skipped + seq![
                (m / 256) as u8,
                (m % 256) as u8,
            ] + rdata + post;
            record_at(p, pre.len() as int) == Ok::<RecordModel, DnsError>(
                RecordModel {
                    name: text::strip_back(name, |c: char| c == '.'),
                    rtype,
                    rdata,
                    rdata_offset: (pre.len() + n.len() + 10) as int,
                },
            )
        }),
{
    let n = name_bytes(name);
    let m = rdata.len();
    let t = seq![(rtype / 256) as u8, (rtype % 256) as u8];
    let l = seq![(m / 256) as u8, (m % 256) as u8];
    let p = pre + n + t + skipped + l + rdata + post;
    let rest = t + skipped + l + rdata + post;
    assert(p =~= pre + n + rest);
    law_name_round_trip(pre, name, rest);
    let at = (pre.len() + n.len()) as int;
    assert(p[at] == (rtype / 256) as u8);
    assert(p[at + 1] == (rtype % 256) as u8);
    assert(p[at + 8] == (m / 256) as u8);
    assert(p[at + 9] == (m % 256) as u8);
    assert(p[at] * 256 + p[at + 1] == rtype);
    assert(p[at + 8] * 256 + p[at + 9] == m);
    assert(p.subrange(at + 10, at + 10 + m) =~= rdata);
}

/// Records stand one behind the other: as many as are announced, the first at the beginning, each other
/// where the data of the one before it ends.
pub proof fn law_records_follow_each_other(p: Seq<u8>, pos: int, n: nat, i: int)
    requires
        records_at(p, pos, n) is Ok,
        0 <= i < n,
    ensures
        ({
            let r = records_at(p, pos, n)->Ok_0;
            &&& r.len() == n
            &&& record_at(p, pos) == Ok::<RecordModel, DnsError>(r[0])
            &&& i > 0 ==> record_at(p, r[i - 1].rdata_offset + r[i - 1].rdata.len()) == Ok::<
                RecordModel,
                DnsError,
            >(r[i])
        }),
    decreases n,
{
    let first = record_at(p, pos)->Ok_0;
    let next = first.rdata_offset + first.rdata.len();
    let m = (n - 1) as nat;
    if m > 0 {
        let rest = records_at(p, next, m)->Ok_0;
        law_records_follow_each_other(p, next, m, 0);
        if i > 0 {
            law_records_follow_each_other(p, next, m, i - 1);
        }
        let r = seq![first] + rest;
        assert(r[0] == first);
        if i > 0 {
            assert(r[i] == rest[i - 1]);
            if i > 1 {
                assert(r[i - 1] == rest[i - 2]);
            }
        }
    } else {
        assert(records_at(p, next, 0) == Ok::<Seq<RecordModel>, DnsError>(Seq::empty()));
    }
}

/// A response has the id of its first two octets, the code of the lower half of its fourth, and, unless
/// that reports a failure, the records that its seventh and eighth octets announce, from the end of
/// its questions on; those are announced by the two octets before.
pub proof fn law_response_is_read(p: Seq<u8>)
    requires
        response(p) is Ok,
    ensures
        ({
            let m = response(p)->Ok_0;
            let q = questions_end(p, 12, (p[4] * 256 + p[5]) as nat);
            &&& p.len() >= 12
            &&& m.id == p[0] * 256 + p[1]
            &&& m.rcode == p[3] % 16
            &&& q is Ok
            &&& m.rcode != 0 ==> m.answers.len() == 0
            &&& m.rcode == 0 ==> records_at(p, q->Ok_0, (p[6] * 256 + p[7]) as nat) == Ok::<
                Seq<RecordModel>,
                DnsError,
            >(m.answers)
        }),
{
}

/// A response without questions is read wherever its records can be; one that is shorter than a header
/// never is.
pub proof fn law_which_responses_are_read(p: Seq<u8>)
    ensures
        p.len() < 12 ==> response(p) == Err::<MessageModel, DnsError>(DnsError::Truncated),
        p.len() >= 12 && p[4] == 0 && p[5] == 0 && p[3] % 16 == 0 ==> (response(p) is Ok
            <==> records_at(p, 12, (p[6] * 256 + p[7]) as nat) is Ok),
        p.len() >= 12 && p[4] == 0 && p[5] == 0 && p[3] % 16 != 0 ==> response(p) is Ok,
{
}

/// Questions are passed over: each is a name, a type and a class.
pub proof fn law_questions_are_passed_over(
    pre: Seq<u8>,
    name: Seq<char>,
    four: Seq<u8>,
    post: Seq<u8>,
    n: nat,
)
    requires
        wire_labels(labels_of(name)),
        four.len() == 4,
    ensures
        ({
            let p = pre + name_bytes(name) + four + post;
            let next = (pre.len() + name_bytes(name).len() + 4) as int;
            questions_end(p, pre.len() as int, n + 1) == questions_end(p, next, n)
        }),
        questions_end(pre, pre.len() as int, 0) == Ok::<int, DnsError>(pre.len() as int),
{
    let p = pre + name_bytes(name) + four + post;
    law_name_round_trip(pre, name, four + post);
    assert(p =~= pre + name_bytes(name) + (four + post));
}

/// The data of an MX record is a preference and the name of the exchange.
pub proof fn law_mx_data_is_read(
    pre: Seq<u8>,
    preference: u16,
    name: Seq<char>,
    post: Seq<u8>,
    rr: RecordModel,
)
    requires
        wire_labels(labels_of(name)),
        rr.rdata_offset == pre.len(),
        rr.rdata.len() >= 3,
        rr.rdata[0] == preference / 256,
        rr.rdata[1] == preference % 256,
    ensures
        ({
            let p = pre + seq![(preference / 256) as u8, (preference % 256) as u8] + name_bytes(name)
                + post;
            mx_data(p, rr) == Ok::<(u16, Seq<char>), DnsError>(
                (preference, text::strip_back(name, |c: char| c == '.')),
            )
        }),
{
    let two = seq![(preference / 256) as u8, (preference % 256) as u8];
    let p = pre + two + name_bytes(name) + post;
    law_name_round_trip(pre + two, name, post);
    assert(rr.rdata[0] * 256 + rr.rdata[1] == preference);
}

/// The text of a TXT record is that of its strings, one behind the other, each behind the number of its
/// octets.
pub proof fn law_txt_data_is_read(s: Seq<u8>, rest: Seq<u8>)
    requires
        s.len() <= 255,
    ensures
        txt_data(seq![s.len() as u8] + s + rest) == text::lossy(s) + txt_data(rest),
        txt_data(Seq::<u8>::empty()).len() == 0,
{
    let d = seq![s.len() as u8] + s + rest;
    assert(d.subrange(1, 1 + s.len() as int) =~= s);
    assert(d.skip(1 + s.len() as int) =~= rest);
}

/// The texts that answers hold are those of their TXT records, in their order; other records hold none.
pub proof fn law_texts_of_the_answers(rrs: Seq<RecordModel>, rr: RecordModel)
    ensures
        rr.rtype == 16 ==> txt_texts(rrs.push(rr)) == txt_texts(rrs).push(txt_data(rr.rdata)),
        rr.rtype != 16 ==> txt_texts(rrs.push(rr)) == txt_texts(rrs),
        txt_texts(Seq::<RecordModel>::empty()).len() == 0,
{
    assert(rrs.push(rr).drop_last() =~= rrs);
}

/// The numbers of the record types and of the class, and how many pointers a name may follow.
pub proof fn law_numbers_of_the_types()
    ensures
        TYPE_A == 1,
        TYPE_MX == 15,
        TYPE_TXT == 16,
        TYPE_AAAA == 28,
        CLASS_IN == 1,
        MAX_JUMPS == 32,
{
}

/// A question about a domain asks for the domain in its ASCII form, and cannot be asked without one.
pub proof fn law_questions_are_in_ascii(
    id: u16,
    domain: Seq<char>,
    ascii: Result<Seq<char>, idn::IdnErrorModel>,
    qtype: u16,
)
    ensures
        ascii is Ok <==> domain_query(id, domain, ascii, qtype) is Ok,
        ascii is Ok ==> domain_query(id, domain, ascii, qtype)->Ok_0 == query_bytes(
            id,
            ascii->Ok_0,
            qtype,
        ),
        ascii is Err ==> domain_query(id, domain, ascii, qtype)->Err_0 == ascii->Err_0,
{
}

} // verus!
