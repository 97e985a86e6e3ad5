//! Messages for the mesh: taking out what a sender has no business claiming, and sealing.

use crate::bytes;
use crate::identity;
use crate::model;
use crate::identity::{ContentId, IdentityKey};
use crate::text;
use vstd::prelude::*;
use vstd::slice::slice_to_vec;

verus! {

/// Where the body begins: behind the first line end that another line end follows, a line end being
/// LF or CR LF; at the end where there is none.
pub open spec fn body_offset(raw: Seq<u8>, from: int) -> int
    decreases raw.len() - from,
{
    if from < 0 || from >= raw.len() {
        raw.len() as int
    } else if raw[from] == 10 && from + 1 < raw.len() && raw[from + 1] == 10 {
        from + 2
    } else if raw[from] == 10 && from + 2 < raw.len() && raw[from + 1] == 13 && raw[from + 2]
        == 10 {
        from + 3
    } else {
        body_offset(raw, from + 1)
    }
}

/// The header block of a message, with the empty line that ends it.
pub open spec fn header_block(raw: Seq<u8>) -> Seq<u8> {
    raw.take(body_offset(raw, 0))
}

/// The body of a message.
pub open spec fn message_body(raw: Seq<u8>) -> Seq<u8> {
    raw.skip(body_offset(raw, 0))
}

/// What `kotva_mail::mime::strip_trust_boundary_headers` leaves of a header block.
pub uninterp spec fn without_trust_headers(head: Seq<u8>) -> Seq<u8>;

/// `kotva_mail::mime::header_and_body`: the header block up to and with the empty line that ends
/// it, and the body.
#[verifier::external_body]
fn split_message(raw: &[u8]) -> (r: (Vec<u8>, Vec<u8>))
    ensures
        r.0@ == header_block(raw@),
        r.1@ == message_body(raw@),
{
    kotva_mail::mime::header_and_body(raw)
}

/// The lines of a header block, without the LF that ends each.
pub open spec fn block_lines(b: Seq<u8>) -> Seq<Seq<u8>>
    decreases b.len(),
{
    match b.index_of_first(10u8) {
        Some(i) => if 0 <= i < b.len() {
            seq![b.take(i)] + block_lines(b.skip(i + 1))
        } else {
            Seq::empty()
        },
        None => if b.len() == 0 {
            Seq::empty()
        } else {
            seq![b]
        },
    }
}

/// Whether a text is the name of a header field that only this side of the trust boundary may add.
pub open spec fn is_verdict_name(name: Seq<char>) -> bool {
    let n = text::lower(text::trim(name));
    n == "authentication-results"@ || n == "arc-seal"@ || n == "arc-message-signature"@ || n
        == "arc-authentication-results"@
}

/// Whether what stands before the first colon of a line is such a name, with its octets read as
/// UTF-8 or each as a character.
pub open spec fn brings_verdict(line: Seq<u8>) -> bool {
    match line.index_of_first(58u8) {
        Some(i) => {
            let name = line.take(i);
            is_verdict_name(text::lossy(name)) || is_verdict_name(
                Seq::new(name.len(), |j: int| name[j] as char),
            )
        },
        None => false,
    }
}

/// Whether a line goes on with the field before it.
pub open spec fn is_folded(line: Seq<u8>) -> bool {
    line.len() > 0 && (line[0] == 32 || line[0] == 9)
}

/// Whether no line of a header block brings a verdict.
pub open spec fn without_verdicts(head: Seq<u8>) -> bool {
    forall|i: int| 0 <= i < block_lines(head).len() ==> !brings_verdict(#[trigger] block_lines(head)[i])
}

/// Whether no line of a header block that begins a field brings a verdict.
pub open spec fn no_field_is_a_verdict(head: Seq<u8>) -> bool {
    forall|i: int|
        0 <= i < block_lines(head).len() && !is_folded(#[trigger] block_lines(head)[i])
            ==> !brings_verdict(block_lines(head)[i])
}

/// `kotva_mail::mime::strip_trust_boundary_headers`. What is left of a header block is a function of
/// the block, named [`without_trust_headers`]. A block without verdicts is left as it is, and of no
/// block a line is left that begins a field and brings a verdict.
#[verifier::external_body]
fn strip_header_block(head: &[u8]) -> (r: Vec<u8>)
    ensures
        r@ == without_trust_headers(head@),
        without_verdicts(head@) ==> r@ == head@,
        no_field_is_a_verdict(r@),
{
    kotva_mail::mime::strip_trust_boundary_headers(head)
}

/// A message without the verdicts that only this side of the trust boundary may add.
pub open spec fn hygienic(raw: Seq<u8>) -> Seq<u8> {
    without_trust_headers(header_block(raw)) + message_body(raw)
}

/// Takes the verdicts of other boundaries out of the header block of a message. The body is left as
/// it is, whatever it looks like.
pub fn strip_trust_boundary_headers(rfc5322_bytes: &[u8]) -> (r: Vec<u8>)
    ensures
        r@ == hygienic(rfc5322_bytes@),
        no_field_is_a_verdict(without_trust_headers(header_block(rfc5322_bytes@))),
        without_verdicts(header_block(rfc5322_bytes@)) ==> r@ == rfc5322_bytes@,
{
    proof {
        law_split_is_exact(rfc5322_bytes@);
    }
    let (head, body) = split_message(rfc5322_bytes);
    with_body(strip_header_block(head.as_slice()), body.as_slice())
}

/// A stripped header block and the body that follows it.
pub fn with_body(head: Vec<u8>, body: &[u8]) -> (r: Vec<u8>)
    ensures
        r@ == head@ + body@,
{
    let mut out = head;
    bytes::push_all(&mut out, body);
    out
}

/// A sealed message.
#[derive(Debug, PartialEq, Eq)]
pub struct SealedMote {
    /// Its content address.
    pub id: ContentId,
    /// The sealed octets.
    pub ciphertext: Vec<u8>,
    /// The whole message as it travels.
    pub wire: Vec<u8>,
}

/// [`SealedMote`] with its contents as sequences.
pub struct MoteModel {
    pub id: Seq<u8>,
    pub ciphertext: Seq<u8>,
    pub wire: Seq<u8>,
}

impl View for SealedMote {
    type V = MoteModel;

    open spec fn view(&self) -> MoteModel {
        MoteModel { id: self.id@, ciphertext: self.ciphertext@, wire: self.wire@ }
    }
}

impl Clone for SealedMote {
    fn clone(&self) -> (r: Self)
        ensures
            r@ == self@,
    {
        SealedMote {
            id: self.id.clone(),
            ciphertext: slice_to_vec(self.ciphertext.as_slice()),
            wire: slice_to_vec(self.wire.as_slice()),
        }
    }
}

/// Who a message is from, whom it is for, and what it says.
pub struct SealingModel {
    /// The seed of the sender's key.
    pub sender: Seq<u8>,
    /// The seed of the key that signs this message alone.
    pub ephemeral: Seq<u8>,
    /// The recipient's identity key.
    pub recipient: Seq<u8>,
    /// The key that the message is sealed to.
    pub seal_pub: Seq<u8>,
    /// The legacy message.
    pub message: Seq<u8>,
    pub ts: u64,
}

/// Whether `wire`, with the sealed octets `ciphertext`, is a MOTE that `kotva_core::mote::build_mote`
/// may give for the draft that `kotva_mail::smtp::build_mote_draft` makes of a message. Sealing
/// draws on chance, so many are.
pub uninterp spec fn may_be_sealed(
    sender: Seq<u8>,
    ephemeral: Seq<u8>,
    recipient: Seq<u8>,
    seal_pub: Seq<u8>,
    message: Seq<u8>,
    ts: u64,
    ciphertext: Seq<u8>,
    wire: Seq<u8>,
) -> bool;

/// Whether a sealed message may be the outcome of a sealing: it is content-addressed, and it is one
/// that the sealing may give.
pub open spec fn is_sealed(s: SealingModel, m: MoteModel) -> bool {
    &&& m.id == identity::content_address(m.ciphertext)
    &&& may_be_sealed(
        s.sender,
        s.ephemeral,
        s.recipient,
        s.seal_pub,
        s.message,
        s.ts,
        m.ciphertext,
        m.wire,
    )
}

/// Whether `kotva_core::mote::Hpke` can seal to a key: one of 32 octets with which an exchange does
/// not come out as zero.
pub uninterp spec fn seals_to(seal_pub: Seq<u8>) -> bool;

/// The octets that a message may have so that what is sealed of it is far below what the cipher can
/// take.
pub const MAX_SEALABLE: usize = 0xffff_ffff;

/// `kotva_mail::smtp::build_mote_draft`, then `kotva_core::mote::build_mote` with
/// `kotva_core::mote::Hpke`. The id of what comes back is the content address of the sealed octets.
/// The octets themselves depend on chance: they are related to the arguments by [`may_be_sealed`].
/// Nothing comes back where the key is none that can be sealed to; where it is one and the message
/// has no more than [`MAX_SEALABLE`] octets, something does.
#[verifier::external_body]
fn build_sealed(
    sender: &[u8; 32],
    ephemeral: &[u8; 32],
    recipient: &[u8],
    seal_pub: &[u8],
    message: &[u8],
    ts: u64,
) -> (r: Option<SealedMote>)
    ensures
        r is Some ==> seals_to(seal_pub@) && seal_pub@.len() == 32,
        seals_to(seal_pub@) && message@.len() <= MAX_SEALABLE ==> r is Some,
        r matches Some(m) ==> m.id@ == identity::content_address(m.ciphertext@) && may_be_sealed(
            sender@,
            ephemeral@,
            recipient@,
            seal_pub@,
            message@,
            ts,
            m.ciphertext@,
            m.wire@,
        ),
{
    let ik = kotva_core::identity::IdentityKey::from_seed(sender);
    let eph = kotva_core::identity::IdentityKey::from_seed(ephemeral);
    let draft = kotva_mail::smtp::build_mote_draft(message, ts);
    let hpke = kotva_core::mote::Hpke;
    match kotva_core::mote::build_mote(&hpke, &ik, &eph, recipient, seal_pub, draft) {
        Ok(e) => {
            let wire = e.det_cbor();
            Some(SealedMote { id: ContentId(e.id.as_bytes().to_vec()), ciphertext: e.ciphertext, wire })
        },
        Err(_) => None,
    }
}

/// Whether a sealed message, or none, may come of sealing a message with the given seed of the key
/// that signs this message alone: one does wherever the key can be sealed to.
pub open spec fn may_seal_with(s: SealingModel, r: Option<MoteModel>) -> bool {
    &&& r matches Some(m) ==> seals_to(s.seal_pub) && s.seal_pub.len() == 32 && is_sealed(s, m)
    &&& seals_to(s.seal_pub) && s.message.len() <= MAX_SEALABLE ==> r is Some
}

/// Seals a legacy message from `sender` to a recipient, signed besides with the key of the given
/// seed. None where the key to seal to is none.
pub fn seal_mail(
    sender: &IdentityKey,
    ephemeral: &[u8; 32],
    recipient: &[u8],
    seal_pub: &[u8],
    message: &[u8],
    ts: u64,
) -> (r: Option<SealedMote>)
    ensures
        may_seal_with(
            SealingModel {
                sender: sender@,
                ephemeral: ephemeral@,
                recipient: recipient@,
                seal_pub: seal_pub@,
                message: message@,
                ts,
            },
            model::opt_view(r),
        ),
{
    let seed = sender.seed_octets();
    build_sealed(&seed, ephemeral, recipient, seal_pub, message, ts)
}

// ---- laws --------------------------------------------------------------------------------------

/// A header block and a body are the whole message.
pub proof fn law_split_is_exact(raw: Seq<u8>)
    ensures
        header_block(raw) + message_body(raw) == raw,
        0 <= body_offset(raw, 0) <= raw.len(),
{
    lemma_offset(raw, 0);
    assert(header_block(raw) + message_body(raw) =~= raw);
}

proof fn lemma_offset(raw: Seq<u8>, from: int)
    requires
        0 <= from,
    ensures
        0 <= body_offset(raw, from) <= raw.len(),
    decreases raw.len() - from,
{
    if from < raw.len() {
        lemma_offset(raw, from + 1);
    }
}

/// The body survives hygiene octet for octet.
pub proof fn law_hygiene_keeps_the_body(raw: Seq<u8>)
    ensures
        message_body(raw).is_suffix_of(hygienic(raw)),
{
    let h = without_trust_headers(header_block(raw));
    let b = message_body(raw);
    assert(hygienic(raw).subrange(h.len() as int, (h.len() + b.len()) as int) =~= b);
}

/// The body of a message begins behind its first empty line, whether lines end with a line feed alone
/// or with a carriage return before it.
pub proof fn law_where_the_body_begins(head: Seq<u8>, body: Seq<u8>)
    requires
        forall|i: int| 0 <= i < head.len() - 1 && #[trigger] head[i] == 10 ==> head[i + 1] != 10,
        forall|i: int|
            0 <= i < head.len() - 2 && #[trigger] head[i] == 10 && head[i + 1] == 13 ==> head[i + 2]
                != 10,
        head.len() > 0 && head.last() == 10,
    ensures
        header_block(head + seq![10u8] + body) == head + seq![10u8],
        message_body(head + seq![10u8] + body) == body,
        header_block(head + seq![13u8, 10u8] + body) == head + seq![13u8, 10u8],
        message_body(head + seq![13u8, 10u8] + body) == body,
{
    let n = head.len() as int;
    let a = head + seq![10u8] + body;
    let b = head + seq![13u8, 10u8] + body;
    lemma_no_body_yet(head, a, 0);
    lemma_no_body_yet(head, b, 0);
    assert(a[n - 1] == 10 && a[n] == 10);
    assert(b[n - 1] == 10 && b[n] == 13 && b[n + 1] == 10);
    assert(a.take(n + 1) =~= head + seq![10u8]);
    assert(a.skip(n + 1) =~= body);
    assert(b.take(n + 2) =~= head + seq![13u8, 10u8]);
    assert(b.skip(n + 2) =~= body);
}

proof fn lemma_no_body_yet(head: Seq<u8>, m: Seq<u8>, from: int)
    requires
        0 <= from < head.len(),
        head.is_prefix_of(m),
        m.len() > head.len(),
        head.last() == 10,
        m[head.len() as int] == 10 || m[head.len() as int] == 13,
        forall|i: int| 0 <= i < head.len() - 1 && #[trigger] head[i] == 10 ==> head[i + 1] != 10,
        forall|i: int|
            0 <= i < head.len() - 2 && #[trigger] head[i] == 10 && head[i + 1] == 13 ==> head[i + 2]
                != 10,
    ensures
        body_offset(m, from) == body_offset(m, head.len() - 1),
    decreases head.len() - from,
{
    let n = head.len() as int;
    if from < n - 1 {
        assert(m[from] == head[from]);
        assert(m[from + 1] == head[from + 1]);
        if head[from] == 10 {
            assert(head[from + 1] != 10);
            if head[from + 1] == 13 {
                if from + 2 < n {
                    assert(m[from + 2] == head[from + 2]);
                } else {
                    assert(head[n - 1] == 10);
                }
            }
        }
        lemma_no_body_yet(head, m, from + 1);
    }
}

/// The fields that only this side of the trust boundary may add, in any case and with white space round
/// the name.
pub proof fn law_which_fields_are_verdicts(a: Seq<char>, name: Seq<char>, b: Seq<char>)
    requires
        text::all_white(a) && text::all_white(b),
        name.len() > 0 && !text::is_white(name[0]) && !text::is_white(name.last()),
    ensures
        is_verdict_name(a + name + b) <==> text::lower(name) == "authentication-results"@ || text::lower(
            name,
        ) == "arc-seal"@ || text::lower(name) == "arc-message-signature"@ || text::lower(name)
            == "arc-authentication-results"@,
{
    text::law_trim_takes_the_ends(a, name, b);
}

/// A line brings a verdict by the name before its first colon, and one without a colon brings none.
pub proof fn law_verdicts_are_known_by_their_names(name: Seq<u8>, rest: Seq<u8>)
    requires
        !name.contains(58u8),
    ensures
        is_verdict_name(text::lossy(name)) ==> brings_verdict(name + seq![58u8] + rest),
        brings_verdict(name + seq![58u8] + rest) ==> is_verdict_name(text::lossy(name))
            || is_verdict_name(name.map_values(|x: u8| x as char)),
        !brings_verdict(name),
        is_folded(seq![32u8] + rest) && is_folded(seq![9u8] + rest),
        name.len() > 0 && name[0] != 32 && name[0] != 9 ==> !is_folded(name),
{
    let line = name + seq![58u8] + rest;
    let n = name.len() as int;
    line.index_of_first_ensures(58u8);
    name.index_of_first_ensures(58u8);
    assert(line[n] == 58);
    let i = line.index_of_first(58u8)->0;
    assert(i == n) by {
        if i < n {
            assert(name[i] == 58);
        }
    }
    assert(line.take(n) =~= name);
    assert(Seq::new(name.len(), |j: int| name[j] as char) =~= name.map_values(|x: u8| x as char));
}

/// The lines of a header block end with line feeds, and the last one need not end.
pub proof fn law_lines_of_a_header_block(a: Seq<u8>, b: Seq<u8>)
    requires
        !a.contains(10u8),
    ensures
        block_lines(a + seq![10u8] + b) == seq![a] + block_lines(b),
        a.len() > 0 ==> block_lines(a) == seq![a],
        a.len() == 0 ==> block_lines(a).len() == 0,
{
    let s = a + seq![10u8] + b;
    let n = a.len() as int;
    s.index_of_first_ensures(10u8);
    a.index_of_first_ensures(10u8);
    assert(s[n] == 10);
    let i = s.index_of_first(10u8)->0;
    assert(i == n) by {
        if i < n {
            assert(a[i] == 10);
        }
    }
    assert(s.take(n) =~= a);
    assert(s.skip(n + 1) =~= b);
}

/// A header block without verdicts is one whose lines bring none, and of one that was cleaned each
/// line that brings one goes on with the field before it.
pub proof fn law_what_is_without_verdicts(head: Seq<u8>, i: int)
    requires
        0 <= i < block_lines(head).len(),
    ensures
        without_verdicts(head) ==> !brings_verdict(block_lines(head)[i]),
        no_field_is_a_verdict(head) && brings_verdict(block_lines(head)[i]) ==> block_lines(head)[i].len()
            > 0 && (block_lines(head)[i][0] == 32 || block_lines(head)[i][0] == 9),
{
}

} // verus!
