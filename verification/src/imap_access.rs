//! Access for legacy mail programs over IMAP: how TLS is offered, what is done after each command,
//! and filling an inbox.

use crate::legacy_net;
use crate::legacy_net::AfterReply;
use crate::text;
use vstd::prelude::*;
use vstd::slice::slice_to_vec;

verus! {

/// How TLS is offered.
#[derive(Debug, Clone, Copy, PartialEq, Eq, Structural)]
pub enum ImapTls {
    /// In the clear at first; the peer asks for TLS.
    StartTls,
    /// From the first octet on.
    Implicit,
}

/// How a text says that TLS is offered, in any case.
pub open spec fn tls_named(v: Seq<char>) -> Option<ImapTls> {
    let s = text::lower(text::trim(v));
    if legacy_net::spells_starttls(s) {
        Some(ImapTls::StartTls)
    } else if legacy_net::spells_implicit(s) {
        Some(ImapTls::Implicit)
    } else {
        None
    }
}

impl ImapTls {
    /// Reads how TLS is offered.
    pub fn parse(v: &str) -> (r: Option<ImapTls>)
        ensures
            r == tls_named(v@),
    {
        let c = text::chars_of(v);
        let l = text::to_lower(text::trimmed(c.as_slice()));
        let s = l.as_slice();
        if legacy_net::is_starttls_word(s) {
            Some(ImapTls::StartTls)
        } else if legacy_net::is_implicit_word(s) {
            Some(ImapTls::Implicit)
        } else {
            None
        }
    }
}

/// Whether a command asks for TLS: its second word is `STARTTLS`, in any case.
pub open spec fn asks_for_tls(cmd: Seq<u8>) -> bool {
    let w = text::words(text::lossy(cmd));
    w.len() > 1 && text::lower(w[1]) == text::lower("STARTTLS"@)
}

/// Whether a command asks for TLS.
pub fn is_starttls_command(cmd: &[u8]) -> (r: bool)
    ensures
        r == asks_for_tls(cmd@),
{
    let t = text::from_utf8_lossy(cmd);
    let c = text::chars_of(t.as_str());
    let w = text::split_words(c.as_slice());
    let ghost ws = text::words(c@);
    if w.len() > 1 {
        assert(ws[1] == w@[1]@);
        let s = text::chars_of("STARTTLS");
        text::same_ignoring_case(w[1].as_slice(), s.as_slice())
    } else {
        false
    }
}

/// Whether a line of a response completes a command with success: it is neither untagged nor a
/// continuation, and the word behind its tag is OK.
pub open spec fn completes(l: Seq<char>) -> bool {
    &&& !(l.len() > 0 && (l[0] == '*' || l[0] == '+'))
    &&& text::words(l).len() > 1
    &&& text::words(l)[1] == "OK"@
}

/// Whether a response completes a command with success.
pub open spec fn succeeds(resp: Seq<u8>) -> bool {
    let ls = text::lines(text::lossy(resp));
    exists|i: int| 0 <= i < ls.len() && completes(#[trigger] ls[i])
}

/// Whether a response completes a command with success.
pub fn response_is_ok(resp: &[u8]) -> (r: bool)
    ensures
        r == succeeds(resp@),
{
    let t = text::from_utf8_lossy(resp);
    let c = text::chars_of(t.as_str());
    let lines = text::split_lines(c.as_slice());
    let ghost ls = text::lines(c@);
    let mut i: usize = 0;
    while i < lines.len()
        invariant
            i <= lines@.len(),
            ls == text::views(lines@),
            ls == text::lines(text::lossy(resp@)),
            forall|j: int| 0 <= j < i ==> !completes(#[trigger] ls[j]),
        decreases lines@.len() - i,
    {
        let l = lines[i].as_slice();
        assert(ls[i as int] == l@);
        if !(l.len() > 0 && (l[0] == '*' || l[0] == '+')) {
            let w = text::split_words(l);
            assert(text::words(l@).len() == w@.len());
            if w.len() > 1 {
                assert(text::words(l@)[1] == w@[1]@);
                if text::is_text(w[1].as_slice(), "OK") {
                    assert(completes(ls[i as int]));
                    return true;
                }
            }
        }
        i += 1;
    }
    false
}

/// What is done once the response to a command has been sent. `pipelined` is whether something has
/// been read behind the command already, and `logout` whether the session has ended.
pub fn after_command(
    secured: bool,
    cmd: &[u8],
    resp: &[u8],
    pipelined: bool,
    logout: bool,
) -> (r: AfterReply)
    ensures
        r == legacy_net::decision(
            !secured && asks_for_tls(cmd@) && succeeds(resp@),
            pipelined,
            logout,
        ),
{
    let upgrade = !secured && is_starttls_command(cmd) && response_is_ok(resp);
    legacy_net::decide(upgrade, pipelined, logout)
}

// ---- the inbox ---------------------------------------------------------------------------------

/// Whether a file of the given name holds a message: its extension is `eml`, in any case. What has
/// no name in front of its only dot has no extension.
pub open spec fn holds_message(name: Seq<char>) -> bool {
    match text::rsplit_once(name, '.') {
        Some((stem, ext)) => stem.len() > 0 && text::lower(ext) == text::lower("eml"@),
        None => false,
    }
}

/// Whether a file of the given name holds a message.
pub fn is_message_file(name: &str) -> (r: bool)
    ensures
        r == holds_message(name@),
{
    let c = text::chars_of(name);
    match text::cut_last(c.as_slice(), '.') {
        Some((stem, ext)) => {
            let eml = text::chars_of("eml");
            stem.len() > 0 && text::same_ignoring_case(ext, eml.as_slice())
        },
        None => false,
    }
}

/// The mail store of the `kotva-mail` crate.
#[verifier::external_type_specification]
#[verifier::external_body]
pub struct ExMemoryStore(kotva_mail::store::MemoryStore);

/// The messages in the mailbox `INBOX` of a store and the time of each, in the order in which they
/// were filed; none where the store has no such mailbox.
pub uninterp spec fn inbox_of(store: kotva_mail::store::MemoryStore) -> Option<
    Seq<(Seq<u8>, u64)>,
>;

/// The number that the next message in the mailbox `INBOX` of a store gets, and the mark of the last
/// change to that mailbox.
pub uninterp spec fn inbox_counters(store: kotva_mail::store::MemoryStore) -> (u32, u64);

/// `kotva_mail::store::MailStore::mailbox` of `INBOX`, and of what it gives the fields `uid_next`
/// and `highest_modseq`; none where the store has no such mailbox.
#[verifier::external_body]
fn counters(store: &kotva_mail::store::MemoryStore) -> (r: Option<(u32, u64)>)
    ensures
        r is Some == (inbox_of(*store) is Some),
        r matches Some(c) ==> c == inbox_counters(*store),
{
    kotva_mail::store::MailStore::mailbox(store, "INBOX").map(|m| (m.uid_next, m.highest_modseq))
}

/// `kotva_mail::store::MemoryStore::deliver_raw` into the mailbox `INBOX`, with the flag that marks
/// a message as recent: where there is such a mailbox, the message becomes its last and both
/// counters go up by one, and where there is none, nothing is filed. The counters must not stand at
/// their ends. What else the store keeps is left unsaid.
#[verifier::external_body]
fn file_recent(store: &mut kotva_mail::store::MemoryStore, raw: Vec<u8>, ts: u64) -> (r: bool)
    requires
        inbox_of(*old(store)) is Some ==> inbox_counters(*old(store)).0 < u32::MAX
            && inbox_counters(*old(store)).1 < u64::MAX,
    ensures
        r == (inbox_of(*old(store)) is Some),
        inbox_of(*final(store)) == (match inbox_of(*old(store)) {
            Some(ms) => Some(ms.push((raw@, ts))),
            None => None,
        }),
        inbox_of(*old(store)) is Some ==> inbox_counters(*final(store)).0 == inbox_counters(
            *old(store),
        ).0 + 1 && inbox_counters(*final(store)).1 == inbox_counters(*old(store)).1 + 1,
{
    store.deliver_raw("INBOX", raw, vec![kotva_mail::store::Flag::Recent], ts).is_some()
}

/// Whether the inbox of a store, if it has one, can number so many more messages.
pub open spec fn has_room(store: kotva_mail::store::MemoryStore, n: nat) -> bool {
    inbox_of(store) is Some ==> inbox_counters(store).0 + n <= u32::MAX && inbox_counters(store).1
        + n <= u64::MAX
}

/// The messages of a list and their times.
pub open spec fn messages_of(v: Seq<(Vec<u8>, u64)>) -> Seq<(Seq<u8>, u64)> {
    Seq::new(v.len(), |i: int| (v[i].0@, v[i].1))
}

/// Files messages into the inbox of a store, in their order, and says how many were filed.
pub fn seed_inbox(store: &mut kotva_mail::store::MemoryStore, messages: &[(Vec<u8>, u64)]) -> (r:
    usize)
    requires
        has_room(*old(store), messages@.len()),
    ensures
        match inbox_of(*old(store)) {
            Some(ms) => r == messages@.len() && inbox_of(*final(store)) == Some(
                ms + messages_of(messages@),
            ),
            None => r == 0 && inbox_of(*final(store)) is None,
        },
{
    let n: usize = messages.len();
    let ghost start = inbox_of(*store);
    let ghost all = messages_of(messages@);
    let mut filed: usize = 0;
    let mut i: usize = 0;
    proof {
        if start is Some {
            assert(start->0 + all.take(0) =~= start->0);
        }
    }
    while i < n
        invariant
            i <= n,
            n == messages@.len(),
            all == messages_of(messages@),
            filed <= i,
            match start {
                Some(ms) => filed == i && inbox_of(*store) == Some(ms + all.take(i as int)),
                None => filed == 0 && inbox_of(*store) is None,
            },
            has_room(*store, (n - i) as nat),
        decreases n - i,
    {
        let m = &messages[i];
        if file_recent(store, slice_to_vec(m.0.as_slice()), m.1) {
            filed += 1;
        }
        proof {
            if start is Some {
                assert((start->0 + all.take(i as int)).push(all[i as int]) =~= start->0 + all.take(
                    i + 1,
                ));
            }
        }
        i += 1;
    }
    assert(all.take(n as int) =~= all);
    filed
}

/// Files messages into the inbox of a store, in their order, and says how many were filed. None,
/// with the store as it was, where the inbox cannot number them all.
pub fn seed_inbox_with_room(
    store: &mut kotva_mail::store::MemoryStore,
    messages: &[(Vec<u8>, u64)],
) -> (r: Option<usize>)
    ensures
        r is Some == has_room(*old(store), messages@.len()),
        r is None ==> *final(store) == *old(store),
        r matches Some(n) ==> match inbox_of(*old(store)) {
            Some(ms) => n == messages@.len() && inbox_of(*final(store)) == Some(
                ms + messages_of(messages@),
            ),
            None => n == 0 && inbox_of(*final(store)) is None,
        },
{
    if let Some((uid, mark)) = counters(store) {
        let n: usize = messages.len();
        let m: u64 = n as u64;
        if m > (u32::MAX - uid) as u64 || m > u64::MAX - mark {
            return None;
        }
    }
    Some(seed_inbox(store, messages))
}

// ---- laws --------------------------------------------------------------------------------------

/// How the ways into TLS are spelled, in any case and with white space around them.
pub proof fn law_spellings_of_tls(v: Seq<char>)
    ensures
        ({
            let s = text::lower(text::trim(v));
            &&& tls_named(v) == Some(ImapTls::StartTls) <==> s == "starttls"@ || s == "start-tls"@ || s
                == "start_tls"@
            &&& tls_named(v) == Some(ImapTls::Implicit) <==> s == "implicit"@ || s == "implicit-tls"@
                || s == "tls"@ || s == "993"@
        }),
{
    reveal_strlit("starttls");
    reveal_strlit("start-tls");
    reveal_strlit("start_tls");
    reveal_strlit("implicit");
    reveal_strlit("implicit-tls");
    reveal_strlit("tls");
    reveal_strlit("993");
    assert("starttls"@[0] == 's' && "start-tls"@[0] == 's' && "start_tls"@[0] == 's');
    assert("implicit"@[0] == 'i' && "implicit-tls"@[0] == 'i' && "tls"@[0] == 't' && "993"@[0] == '9');
}

/// A command asks for TLS exactly if its second word, behind the tag, is `STARTTLS` in any case.
pub proof fn law_which_command_asks_for_tls(tag: Seq<char>, verb: Seq<char>)
    requires
        tag.len() > 0,
        forall|i: int| 0 <= i < tag.len() ==> !text::is_white(#[trigger] tag[i]),
        verb.len() > 0,
        forall|i: int| 0 <= i < verb.len() ==> !text::is_white(#[trigger] verb[i]),
    ensures
        asks_for_tls(vstd::utf8::encode_utf8(tag + seq![' '] + verb)) <==> text::lower(verb)
            == text::lower("STARTTLS"@),
        !asks_for_tls(vstd::utf8::encode_utf8(tag)),
{
    let none = Seq::<char>::empty();
    let rest = seq![' '] + verb;
    text::lemma_lossy_of_text(tag + seq![' '] + verb);
    text::lemma_lossy_of_text(tag);
    assert(tag + seq![' '] + verb =~= none + tag + rest);
    assert(tag =~= none + tag + none);
    assert(rest =~= seq![' '] + verb + none);
    text::law_words_are_the_runs(none, tag, rest);
    text::law_words_are_the_runs(none, tag, none);
    text::law_words_are_the_runs(seq![' '], verb, none);
    assert(text::words(none).len() == 0);
    assert(text::words(tag + seq![' '] + verb)[1] == verb);
}

/// A response succeeds exactly if one of its lines is neither untagged nor a continuation and has `OK`
/// behind its tag.
pub proof fn law_which_response_succeeds(resp: Seq<u8>, ls: Seq<Seq<char>>)
    requires
        ls == text::lines(text::lossy(resp)),
    ensures
        succeeds(resp) <==> exists|i: int|
            0 <= i < ls.len() && ((#[trigger] ls[i]).len() == 0 || (ls[i][0] != '*' && ls[i][0]
                != '+')) && text::words(ls[i]).len() > 1 && text::words(ls[i])[1] == "OK"@,
{
    if succeeds(resp) {
        let i = choose|i: int| 0 <= i < ls.len() && completes(#[trigger] ls[i]);
        assert(ls[i].len() == 0 || (ls[i][0] != '*' && ls[i][0] != '+'));
    }
    if exists|i: int|
        0 <= i < ls.len() && ((#[trigger] ls[i]).len() == 0 || (ls[i][0] != '*' && ls[i][0] != '+'))
            && text::words(ls[i]).len() > 1 && text::words(ls[i])[1] == "OK"@ {
        let i = choose|i: int|
            0 <= i < ls.len() && ((#[trigger] ls[i]).len() == 0 || (ls[i][0] != '*' && ls[i][0]
                != '+')) && text::words(ls[i]).len() > 1 && text::words(ls[i])[1] == "OK"@;
        assert(completes(ls[i]));
    }
}

/// A file holds a message exactly if its name is something, a dot and `eml` in any case.
pub proof fn law_which_files_hold_messages(stem: Seq<char>, ext: Seq<char>)
    requires
        !ext.contains('.'),
    ensures
        holds_message(stem + seq!['.'] + ext) <==> stem.len() > 0 && text::lower(ext)
            == text::lower("eml"@),
        !holds_message(ext),
{
    text::lemma_rsplit_of_joined(stem, '.', ext);
    text::law_cut_at_the_first(ext, '.', ext);
}

} // verus!
