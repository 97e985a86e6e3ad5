//! What a sender is told before it may send a message.
//!
//! Strangers pay for contact in the coin that legacy mail has: the first attempt is put off, and
//! only a sender that tries again after a while gets through. Known senders pay nothing, blocked
//! ones are refused, and no address may send more than its share.

use crate::seqmap::SeqMap;
use crate::text;
use vstd::prelude::*;

verus! {

/// The decision about a sender.
#[derive(Debug, Clone, PartialEq, Eq)]
pub enum AbuseDecision {
    Accept,
    /// Refused for good (5xx) or for now (4xx).
    Reject { code: u16, reason: String },
}

/// [`AbuseDecision`] with its text as a sequence.
pub enum AbuseModel {
    Accept,
    Reject { code: u16, reason: Seq<char> },
}

impl View for AbuseDecision {
    type V = AbuseModel;

    open spec fn view(&self) -> AbuseModel {
        match *self {
            AbuseDecision::Accept => AbuseModel::Accept,
            AbuseDecision::Reject { code, reason } => AbuseModel::Reject { code, reason: reason@ },
        }
    }
}

/// Decides from the address of the peer and the sender that it names.
pub trait AntiAbuse: Sized {
    /// Whether one check of a sender may come out as given and leave the checker as given.
    open spec fn decides(
        before: Self,
        peer_ip: Seq<char>,
        mail_from: Seq<char>,
        d: AbuseModel,
        after: Self,
    ) -> bool {
        true
    }

    /// Decides about a sender. The decision may change what is decided next.
    fn check(&mut self, peer_ip: &str, mail_from: &str) -> (r: AbuseDecision)
        ensures
            Self::decides(*old(self), peer_ip@, mail_from@, r@, *final(self)),
    ;
}

/// Accepts everybody.
#[derive(Debug, Clone, Copy)]
pub struct AllowAllAbuse;

impl AntiAbuse for AllowAllAbuse {
    open spec fn decides(
        before: Self,
        peer_ip: Seq<char>,
        mail_from: Seq<char>,
        d: AbuseModel,
        after: Self,
    ) -> bool {
        d == AbuseModel::Accept && after == before
    }

    fn check(&mut self, peer_ip: &str, mail_from: &str) -> (r: AbuseDecision) {
        AbuseDecision::Accept
    }
}

/// Tells the time.
pub trait Clock {
    /// Whether the clock may show the given time.
    open spec fn may_show(&self, now: u64) -> bool {
        true
    }

    /// Milliseconds since the Unix epoch.
    fn now_ms(&self) -> (r: u64)
        ensures
            self.may_show(r),
    ;
}

/// `std::time::SystemTime::now`, in milliseconds since the Unix epoch; 0 where the clock stands
/// before it. Nothing is said of the time.
#[verifier::external_body]
fn system_time_ms() -> u64 {
    std::time::SystemTime::now().duration_since(std::time::UNIX_EPOCH).map_or(
        0,
        |d| d.as_millis() as u64,
    )
}

/// The clock of the system.
#[derive(Debug, Clone, Copy)]
pub struct SystemClock;

impl Clock for SystemClock {
    open spec fn may_show(&self, now: u64) -> bool {
        true
    }

    fn now_ms(&self) -> (r: u64) {
        system_time_ms()
    }
}

/// A gate as a value: its lists, its limits and what it remembers.
pub struct GateModel {
    pub known_ip_prefixes: Seq<Seq<char>>,
    pub known_senders: Seq<Seq<char>>,
    pub blocked_ip_prefixes: Seq<Seq<char>>,
    pub blocked_senders: Seq<Seq<char>>,
    /// How long a stranger must wait before it tries again.
    pub min_retry_ms: u64,
    /// How long a first attempt is remembered.
    pub ttl_ms: u64,
    /// How many messages an address may send within the window.
    pub rate_limit: u32,
    pub rate_window_ms: u64,
    /// When each sender at each address was first seen.
    pub first_seen: Map<Seq<char>, Map<Seq<char>, u64>>,
    /// When messages from each address were accepted.
    pub accepted: Map<Seq<char>, Seq<u64>>,
}

/// Whether one of the prefixes begins a text.
pub open spec fn any_prefix(prefixes: Seq<Seq<char>>, s: Seq<char>) -> bool {
    exists|i: int| 0 <= i < prefixes.len() && #[trigger] prefixes[i].is_prefix_of(s)
}

/// Whether a sender is blocked.
pub open spec fn blocked(g: GateModel, ip: Seq<char>, from: Seq<char>) -> bool {
    any_prefix(g.blocked_ip_prefixes, ip) || g.blocked_senders.contains(text::lower(from))
}

/// Whether a sender is known.
pub open spec fn known(g: GateModel, ip: Seq<char>, from: Seq<char>) -> bool {
    any_prefix(g.known_ip_prefixes, ip) || g.known_senders.contains(text::lower(from))
}

/// The difference, or 0 where it would be less.
pub open spec fn since(now: u64, then: u64) -> u64 {
    if now >= then {
        (now - then) as u64
    } else {
        0
    }
}

/// The times that still count.
pub open spec fn recent(times: Seq<u64>, start: u64) -> Seq<u64> {
    times.filter(|t: u64| t >= start)
}

/// The times at which messages from an address were accepted, as far as they still count.
pub open spec fn counted(g: GateModel, ip: Seq<char>, now: u64) -> Seq<u64> {
    if g.accepted.contains_key(ip) {
        recent(g.accepted[ip], since(now, g.rate_window_ms))
    } else {
        Seq::empty()
    }
}

/// When a sender at an address was first seen.
pub open spec fn seen_at(g: GateModel, ip: Seq<char>, from: Seq<char>) -> Option<u64> {
    if g.first_seen.contains_key(ip) && g.first_seen[ip].contains_key(from) {
        Some(g.first_seen[ip][from])
    } else {
        None
    }
}

/// Whether a sender at an address counts as not seen before.
pub open spec fn cold(g: GateModel, ip: Seq<char>, from: Seq<char>, now: u64) -> bool {
    match seen_at(g, ip, from) {
        Some(t) => since(now, t) > g.ttl_ms,
        None => true,
    }
}

/// What is remembered once a first sight is noted.
pub open spec fn noted(g: GateModel, ip: Seq<char>, from: Seq<char>, now: u64) -> GateModel {
    let at_ip = if g.first_seen.contains_key(ip) {
        g.first_seen[ip]
    } else {
        Map::empty()
    };
    GateModel { first_seen: g.first_seen.insert(ip, at_ip.insert(from, now)), ..g }
}

/// What is decided at a given time, and what is remembered afterwards.
pub open spec fn gate_step(g: GateModel, ip: Seq<char>, from: Seq<char>, now: u64) -> (
    GateModel,
    AbuseModel,
) {
    if blocked(g, ip, from) {
        (g, AbuseModel::Reject { code: 554, reason: "5.7.1 sender blocked by policy"@ })
    } else if known(g, ip, from) {
        (g, AbuseModel::Accept)
    } else {
        let times = counted(g, ip, now);
        let pruned = GateModel { accepted: g.accepted.insert(ip, times), ..g };
        if times.len() >= g.rate_limit {
            (
                pruned,
                AbuseModel::Reject {
                    code: 451,
                    reason: "4.7.1 rate limit exceeded, slow down and retry later"@,
                },
            )
        } else if cold(g, ip, from, now) {
            (
                noted(pruned, ip, from, now),
                AbuseModel::Reject {
                    code: 451,
                    reason:
                        "4.7.1 greylisted — please retry shortly (cost for cold contact, §9)"@,
                },
            )
        } else if since(now, seen_at(g, ip, from)->0) < g.min_retry_ms {
            (
                pruned,
                AbuseModel::Reject {
                    code: 451,
                    reason: "4.7.1 greylisted — retry interval not yet elapsed"@,
                },
            )
        } else {
            (
                GateModel { accepted: g.accepted.insert(ip, times.push(now)), ..g },
                AbuseModel::Accept,
            )
        }
    }
}

/// Times, oldest first.
struct Times {
    times: Vec<u64>,
}

impl View for Times {
    type V = Seq<u64>;

    closed spec fn view(&self) -> Seq<u64> {
        self.times@
    }
}

/// The cold-sender gate.
pub struct ColdSenderGate<C: Clock> {
    known_ip_prefixes: Vec<String>,
    known_senders: Vec<String>,
    blocked_ip_prefixes: Vec<String>,
    blocked_senders: Vec<String>,
    greylist_min_retry_ms: u64,
    greylist_ttl_ms: u64,
    rate_limit: u32,
    rate_window_ms: u64,
    clock: C,
    greylist: SeqMap<char, SeqMap<char, u64>>,
    accepts: SeqMap<char, Times>,
}

impl<C: Clock> View for ColdSenderGate<C> {
    type V = GateModel;

    closed spec fn view(&self) -> GateModel {
        GateModel {
            known_ip_prefixes: text::string_views(self.known_ip_prefixes@),
            known_senders: text::string_views(self.known_senders@),
            blocked_ip_prefixes: text::string_views(self.blocked_ip_prefixes@),
            blocked_senders: text::string_views(self.blocked_senders@),
            min_retry_ms: self.greylist_min_retry_ms,
            ttl_ms: self.greylist_ttl_ms,
            rate_limit: self.rate_limit,
            rate_window_ms: self.rate_window_ms,
            first_seen: self.greylist@,
            accepted: self.accepts@,
        }
    }
}

/// A gate without lists and without memory: 60 s to wait, 12 h of memory, 60 messages in 60 s.
pub open spec fn fresh_gate() -> GateModel {
    GateModel {
        known_ip_prefixes: Seq::empty(),
        known_senders: Seq::empty(),
        blocked_ip_prefixes: Seq::empty(),
        blocked_senders: Seq::empty(),
        min_retry_ms: 60_000,
        ttl_ms: 43_200_000,
        rate_limit: 60,
        rate_window_ms: 60_000,
        first_seen: Map::empty(),
        accepted: Map::empty(),
    }
}

fn starts_with_any(prefixes: &Vec<String>, s: &str) -> (r: bool)
    ensures
        r == any_prefix(text::string_views(prefixes@), s@),
{
    let ghost all = text::string_views(prefixes@);
    let mut i: usize = 0;
    while i < prefixes.len()
        invariant
            i <= prefixes@.len(),
            all == text::string_views(prefixes@),
            forall|j: int| 0 <= j < i ==> !(#[trigger] all[j].is_prefix_of(s@)),
        decreases prefixes@.len() - i,
    {
        assert(all[i as int] == prefixes@[i as int]@);
        if text::has_prefix_str(s, prefixes[i].as_str()) {
            assert(all[i as int].is_prefix_of(s@));
            return true;
        }
        i += 1;
    }
    false
}

fn holds(list: &Vec<String>, s: &str) -> (r: bool)
    ensures
        r == text::string_views(list@).contains(s@),
{
    let ghost all = text::string_views(list@);
    let mut i: usize = 0;
    while i < list.len()
        invariant
            i <= list@.len(),
            all == text::string_views(list@),
            forall|j: int| 0 <= j < i ==> all[j] != s@,
        decreases list@.len() - i,
    {
        if text::same_str(list[i].as_str(), s) {
            assert(all[i as int] == s@);
            return true;
        }
        i += 1;
    }
    false
}

fn push_text(list: Vec<String>, s: String) -> (r: Vec<String>)
    ensures
        text::string_views(r@) == text::string_views(list@).push(s@),
{
    let mut out = list;
    let ghost sv = s@;
    out.push(s);
    assert(text::string_views(out@) =~= text::string_views(list@).push(sv));
    out
}

fn keep_recent(times: &Vec<u64>, start: u64) -> (r: Vec<u64>)
    ensures
        r@ == recent(times@, start),
{
    reveal(Seq::filter);
    let ghost p = |t: u64| t >= start;
    let mut out: Vec<u64> = Vec::new();
    let mut i: usize = 0;
    assert(times@.take(0).filter(p) =~= out@);
    while i < times.len()
        invariant
            i <= times@.len(),
            p == (|t: u64| t >= start),
            out@ == times@.take(i as int).filter(p),
        decreases times@.len() - i,
    {
        reveal(Seq::filter);
        assert(times@.take(i + 1).drop_last() =~= times@.take(i as int));
        assert(times@.take(i + 1).last() == times@[i as int]);
        if times[i] >= start {
            out.push(times[i]);
        }
        i += 1;
    }
    assert(times@.take(i as int) =~= times@);
    out
}

fn elapsed(now: u64, then: u64) -> (r: u64)
    ensures
        r == since(now, then),
{
    if now >= then {
        now - then
    } else {
        0
    }
}

fn refuse(code: u16, reason: &str) -> (r: AbuseDecision)
    ensures
        r@ == (AbuseModel::Reject { code, reason: reason@ }),
{
    AbuseDecision::Reject { code, reason: text::string_from(reason) }
}

impl ColdSenderGate<SystemClock> {
    /// A gate by the clock of the system.
    pub fn new() -> (r: Self)
        ensures
            r@ == fresh_gate(),
    {
        ColdSenderGate::with_clock(SystemClock)
    }
}

impl<C: Clock> ColdSenderGate<C> {
    /// The clock that decisions go by.
    pub closed spec fn time_source(&self) -> C {
        self.clock
    }

    /// A gate by the given clock.
    pub fn with_clock(clock: C) -> (r: Self)
        ensures
            r@ == fresh_gate(),
            r.time_source() == clock,
    {
        let r = ColdSenderGate {
            known_ip_prefixes: Vec::new(),
            known_senders: Vec::new(),
            blocked_ip_prefixes: Vec::new(),
            blocked_senders: Vec::new(),
            greylist_min_retry_ms: 60_000,
            greylist_ttl_ms: 43_200_000,
            rate_limit: 60,
            rate_window_ms: 60_000,
            clock,
            greylist: SeqMap::new(),
            accepts: SeqMap::new(),
        };
        assert(text::string_views(r.known_ip_prefixes@) =~= Seq::<Seq<char>>::empty());
        assert(text::string_views(r.known_senders@) =~= Seq::<Seq<char>>::empty());
        assert(text::string_views(r.blocked_ip_prefixes@) =~= Seq::<Seq<char>>::empty());
        assert(text::string_views(r.blocked_senders@) =~= Seq::<Seq<char>>::empty());
        r
    }

    /// Makes the addresses with a prefix known.
    pub fn allow_ip_prefix(self, prefix: &str) -> (r: Self)
        ensures
            r@ == (GateModel {
                known_ip_prefixes: self@.known_ip_prefixes.push(prefix@),
                ..self@
            }),
            r.time_source() == self.time_source(),
    {
        let mut g = self;
        g.known_ip_prefixes = push_text(g.known_ip_prefixes, text::string_from(prefix));
        g
    }

    /// Makes a sender known, in any case.
    pub fn allow_sender(self, addr: &str) -> (r: Self)
        ensures
            r@ == (GateModel {
                known_senders: self@.known_senders.push(text::lower(addr@)),
                ..self@
            }),
            r.time_source() == self.time_source(),
    {
        let mut g = self;
        g.known_senders = push_text(g.known_senders, text::lower_str(addr));
        g
    }

    /// Blocks the addresses with a prefix.
    pub fn block_ip_prefix(self, prefix: &str) -> (r: Self)
        ensures
            r@ == (GateModel {
                blocked_ip_prefixes: self@.blocked_ip_prefixes.push(prefix@),
                ..self@
            }),
            r.time_source() == self.time_source(),
    {
        let mut g = self;
        g.blocked_ip_prefixes = push_text(g.blocked_ip_prefixes, text::string_from(prefix));
        g
    }

    /// Blocks a sender, in any case.
    pub fn block_sender(self, addr: &str) -> (r: Self)
        ensures
            r@ == (GateModel {
                blocked_senders: self@.blocked_senders.push(text::lower(addr@)),
                ..self@
            }),
            r.time_source() == self.time_source(),
    {
        let mut g = self;
        g.blocked_senders = push_text(g.blocked_senders, text::lower_str(addr));
        g
    }

    /// Sets the time to wait and the time that a first attempt is remembered.
    pub fn with_greylist(self, min_retry_ms: u64, ttl_ms: u64) -> (r: Self)
        ensures
            r@ == (GateModel { min_retry_ms, ttl_ms, ..self@ }),
            r.time_source() == self.time_source(),
    {
        let mut g = self;
        g.greylist_min_retry_ms = min_retry_ms;
        g.greylist_ttl_ms = ttl_ms;
        g
    }

    /// Sets how many messages an address may send within a window.
    pub fn with_rate_limit(self, max: u32, window_ms: u64) -> (r: Self)
        ensures
            r@ == (GateModel { rate_limit: max, rate_window_ms: window_ms, ..self@ }),
            r.time_source() == self.time_source(),
    {
        let mut g = self;
        g.rate_limit = max;
        g.rate_window_ms = window_ms;
        g
    }

    fn is_blocked(&self, peer_ip: &str, from: &str) -> (r: bool)
        ensures
            r == blocked(self@, peer_ip@, from@),
    {
        let from_l = text::lower_str(from);
        starts_with_any(&self.blocked_ip_prefixes, peer_ip) || holds(
            &self.blocked_senders,
            from_l.as_str(),
        )
    }

    fn is_known(&self, peer_ip: &str, from: &str) -> (r: bool)
        ensures
            r == known(self@, peer_ip@, from@),
    {
        let from_l = text::lower_str(from);
        starts_with_any(&self.known_ip_prefixes, peer_ip) || holds(
            &self.known_senders,
            from_l.as_str(),
        )
    }

    fn note(&mut self, ip: &[char], from: &[char], now: u64)
        ensures
            final(self)@ == noted(old(self)@, ip@, from@, now),
            final(self).time_source() == old(self).time_source(),
    {
        let mut at_ip = match self.greylist.remove(ip) {
            Some(m) => m,
            None => SeqMap::new(),
        };
        let _ = at_ip.insert(from, now);
        let _ = self.greylist.insert(ip, at_ip);
        proof {
            let g = old(self)@.first_seen;
            assert(g.remove(ip@).insert(ip@, at_ip@) =~= g.insert(ip@, at_ip@));
        }
    }

    /// Decides about a sender at a given time: a blocked sender is refused, a known one accepted,
    /// one that is over its share is put off, and a stranger is put off until it has waited.
    pub fn check_at(&mut self, peer_ip: &str, mail_from: &str, now: u64) -> (r: AbuseDecision)
        ensures
            gate_step(old(self)@, peer_ip@, mail_from@, now) == (final(self)@, r@),
            final(self).time_source() == old(self).time_source(),
    {
        if self.is_blocked(peer_ip, mail_from) {
            return refuse(554, "5.7.1 sender blocked by policy");
        }
        if self.is_known(peer_ip, mail_from) {
            return AbuseDecision::Accept;
        }
        let ghost g = self@;
        let ip = text::chars_of(peer_ip);
        let from = text::chars_of(mail_from);
        let start: u64 = elapsed(now, self.rate_window_ms);
        let mut times: Vec<u64> = match self.accepts.get(ip.as_slice()) {
            Some(t) => keep_recent(&t.times, start),
            None => Vec::new(),
        };
        assert(times@ =~= counted(g, ip@, now));
        let over = times.len() >= self.rate_limit as usize;
        let seen: Option<u64> = match self.greylist.get(ip.as_slice()) {
            Some(m) => match m.get(from.as_slice()) {
                Some(t) => Some(*t),
                None => None,
            },
            None => None,
        };
        assert(seen == seen_at(g, ip@, from@));
        if over {
            let _ = self.accepts.insert(ip.as_slice(), Times { times });
            return refuse(451, "4.7.1 rate limit exceeded, slow down and retry later");
        }
        let is_cold = match seen {
            Some(t) => elapsed(now, t) > self.greylist_ttl_ms,
            None => true,
        };
        if is_cold {
            let _ = self.accepts.insert(ip.as_slice(), Times { times });
            self.note(ip.as_slice(), from.as_slice(), now);
            return refuse(
                451,
                "4.7.1 greylisted — please retry shortly (cost for cold contact, §9)",
            );
        }
        let first: u64 = match seen {
            Some(t) => t,
            None => 0,
        };
        if elapsed(now, first) < self.greylist_min_retry_ms {
            let _ = self.accepts.insert(ip.as_slice(), Times { times });
            return refuse(451, "4.7.1 greylisted — retry interval not yet elapsed");
        }
        times.push(now);
        let _ = self.accepts.insert(ip.as_slice(), Times { times });
        AbuseDecision::Accept
    }
}

impl<C: Clock> AntiAbuse for ColdSenderGate<C> {
    /// What is decided at a time that the clock may show.
    open spec fn decides(
        before: Self,
        peer_ip: Seq<char>,
        mail_from: Seq<char>,
        d: AbuseModel,
        after: Self,
    ) -> bool {
        &&& after.time_source() == before.time_source()
        &&& exists|now: u64|
            before.time_source().may_show(now) && (#[trigger] gate_step(
                before@,
                peer_ip,
                mail_from,
                now,
            )) == (after@, d)
    }

    fn check(&mut self, peer_ip: &str, mail_from: &str) -> (r: AbuseDecision) {
        let now = self.clock.now_ms();
        self.check_at(peer_ip, mail_from, now)
    }
}

// ---- laws --------------------------------------------------------------------------------------

/// A blocked sender is refused for good, at any time and whatever else holds of it, and leaves no
/// trace.
pub proof fn law_blocked_wins(g: GateModel, ip: Seq<char>, from: Seq<char>, now: u64)
    requires
        blocked(g, ip, from),
    ensures
        gate_step(g, ip, from, now).1 matches AbuseModel::Reject { code, .. } && code == 554,
        gate_step(g, ip, from, now).0 == g,
{
}

/// A known sender that is not blocked is accepted at any time and leaves no trace.
pub proof fn law_known_is_free(g: GateModel, ip: Seq<char>, from: Seq<char>, now: u64)
    requires
        known(g, ip, from),
        !blocked(g, ip, from),
    ensures
        gate_step(g, ip, from, now) == (g, AbuseModel::Accept),
{
}

/// A stranger's first attempt is never accepted.
pub proof fn law_first_contact_waits(g: GateModel, ip: Seq<char>, from: Seq<char>, now: u64)
    requires
        !known(g, ip, from),
        seen_at(g, ip, from) is None,
    ensures
        gate_step(g, ip, from, now).1 is Reject,
{
}

/// A stranger whose first attempt was put off as such and that tries again after the time to wait,
/// while the attempt is remembered and its address is within its share, is accepted.
pub proof fn law_patient_retry_is_accepted(
    g: GateModel,
    ip: Seq<char>,
    from: Seq<char>,
    first: u64,
    second: u64,
)
    requires
        !known(g, ip, from),
        !blocked(g, ip, from),
        cold(g, ip, from, first),
        counted(g, ip, first).len() < g.rate_limit,
        first + g.min_retry_ms <= second <= first + g.ttl_ms,
    ensures
        ({
            let g2 = gate_step(g, ip, from, first).0;
            counted(g2, ip, second).len() < g2.rate_limit ==> gate_step(g2, ip, from, second).1
                == AbuseModel::Accept
        }),
{
    let g2 = gate_step(g, ip, from, first).0;
    assert(seen_at(g2, ip, from) == Some(first));
}

/// An accepted stranger adds exactly one message to its address's share, and every other address
/// keeps its own.
pub proof fn law_acceptance_is_counted(g: GateModel, ip: Seq<char>, from: Seq<char>, now: u64)
    requires
        !known(g, ip, from),
        gate_step(g, ip, from, now).1 == AbuseModel::Accept,
    ensures
        gate_step(g, ip, from, now).0.accepted == g.accepted.insert(
            ip,
            counted(g, ip, now).push(now),
        ),
        counted(g, ip, now).push(now).len() <= g.rate_limit,
{
}

/// One check of a sender: where it comes from, whom it names and when.
pub struct Attempt {
    pub ip: Seq<char>,
    pub from: Seq<char>,
    pub now: u64,
}

/// A gate after checks, in their order.
pub open spec fn checked(g: GateModel, h: Seq<Attempt>) -> GateModel
    decreases h.len(),
{
    if h.len() == 0 {
        g
    } else {
        let x = h.last();
        gate_step(checked(g, h.drop_last()), x.ip, x.from, x.now).0
    }
}

/// Whether the last of the checks accepts a stranger at an address at a time from `start` to `end`.
pub open spec fn last_accepts(
    g: GateModel,
    h: Seq<Attempt>,
    ip: Seq<char>,
    start: u64,
    end: u64,
) -> bool {
    let x = h.last();
    &&& x.ip == ip
    &&& start <= x.now <= end
    &&& !known(g, x.ip, x.from)
    &&& gate_step(checked(g, h.drop_last()), x.ip, x.from, x.now).1 is Accept
}

/// How many of the checks accept a stranger at an address at a time from `start` to `end`.
pub open spec fn accepts_within(
    g: GateModel,
    h: Seq<Attempt>,
    ip: Seq<char>,
    start: u64,
    end: u64,
) -> nat
    decreases h.len(),
{
    if h.len() == 0 {
        0
    } else {
        accepts_within(g, h.drop_last(), ip, start, end) + if last_accepts(g, h, ip, start, end) {
            1nat
        } else {
            0nat
        }
    }
}

/// Whether no check is made at an earlier time than one before it.
pub open spec fn in_order(h: Seq<Attempt>) -> bool {
    forall|i: int, j: int| 0 <= i <= j < h.len() ==> (#[trigger] h[i]).now <= (#[trigger] h[j]).now
}

spec fn stored(g: GateModel, ip: Seq<char>) -> Seq<u64> {
    if g.accepted.contains_key(ip) {
        g.accepted[ip]
    } else {
        Seq::empty()
    }
}

proof fn lemma_recent_twice(t: Seq<u64>, a: u64, b: u64)
    requires
        a >= b,
    ensures
        recent(recent(t, b), a) == recent(t, a),
    decreases t.len(),
{
    reveal(Seq::filter);
    if t.len() > 0 {
        let d = t.drop_last();
        lemma_recent_twice(d, a, b);
        if t.last() >= b {
            assert(recent(t, b).drop_last() =~= recent(d, b));
            assert(recent(t, b).last() == t.last());
        }
    }
}

proof fn lemma_recent_push(t: Seq<u64>, x: u64, a: u64)
    ensures
        recent(t.push(x), a) == (if x >= a {
            recent(t, a).push(x)
        } else {
            recent(t, a)
        }),
{
    reveal(Seq::filter);
    assert(t.push(x).drop_last() =~= t);
    assert(t.push(x).last() == x);
}

proof fn lemma_recent_shrinks(t: Seq<u64>, a: u64, b: u64)
    requires
        a >= b,
    ensures
        recent(t, a).len() <= recent(t, b).len(),
    decreases t.len(),
{
    reveal(Seq::filter);
    if t.len() > 0 {
        lemma_recent_shrinks(t.drop_last(), a, b);
    }
}

/// Checks leave the lists and the limits of a gate as they are.
proof fn lemma_settings_stay(g: GateModel, h: Seq<Attempt>)
    ensures
        ({
            let c = checked(g, h);
            c == (GateModel { first_seen: c.first_seen, accepted: c.accepted, ..g })
        }),
    decreases h.len(),
{
    if h.len() > 0 {
        lemma_settings_stay(g, h.drop_last());
    }
}

/// What is remembered of an address are its acceptances, as far as they still count.
proof fn lemma_memory_counts(g: GateModel, h: Seq<Attempt>, ip: Seq<char>, start: u64)
    requires
        in_order(h),
        !g.accepted.contains_key(ip),
        h.len() > 0 ==> start >= since(h.last().now, g.rate_window_ms),
    ensures
        accepts_within(g, h, ip, start, u64::MAX) == recent(stored(checked(g, h), ip), start).len(),
        accepts_within(g, h, ip, start, u64::MAX) <= g.rate_limit,
    decreases h.len(),
{
    reveal(Seq::filter);
    if h.len() == 0 {
        assert(recent(stored(g, ip), start).len() == 0);
    } else {
        let d = h.drop_last();
        let x = h.last();
        let c = checked(g, d);
        let w = since(x.now, g.rate_window_ms);
        lemma_settings_stay(g, d);
        if d.len() > 0 {
            assert(h[d.len() - 1].now <= h[d.len() as int].now);
            assert(d.last() == h[d.len() - 1]);
        }
        assert(in_order(d)) by {
            assert forall|i: int, j: int| 0 <= i <= j < d.len() implies (#[trigger] d[i]).now <= (
            #[trigger] d[j]).now by {
                assert(d[i] == h[i] && d[j] == h[j]);
            }
        }
        lemma_memory_counts(g, d, ip, start);
        lemma_memory_counts(g, d, ip, w);
        let t = stored(c, ip);
        lemma_recent_twice(t, start, w);
        lemma_recent_push(recent(t, w), x.now, start);
        lemma_recent_shrinks(t, start, w);
        if x.ip == ip && !blocked(c, x.ip, x.from) && !known(c, x.ip, x.from) {
            assert(counted(c, ip, x.now) =~= recent(t, w));
        }
    }
}

proof fn lemma_window(g: GateModel, h: Seq<Attempt>, ip: Seq<char>, start: u64, end: u64)
    requires
        forall|i: int| 0 <= i < h.len() ==> (#[trigger] h[i]).now <= end,
    ensures
        accepts_within(g, h, ip, start, end) == accepts_within(g, h, ip, start, u64::MAX),
    decreases h.len(),
{
    if h.len() > 0 {
        let d = h.drop_last();
        assert forall|i: int| 0 <= i < d.len() implies (#[trigger] d[i]).now <= end by {
            assert(d[i] == h[i]);
        }
        assert(h[h.len() - 1].now <= end);
        lemma_window(g, d, ip, start, end);
    }
}

/// However often and under whatever names an address tries, by a clock that does not go back: in
/// every window no more than its share of messages of strangers is accepted from it. What is
/// accepted of known senders does not count.
pub proof fn law_no_window_exceeds_the_share(
    g: GateModel,
    h: Seq<Attempt>,
    ip: Seq<char>,
    end: u64,
)
    requires
        in_order(h),
        !g.accepted.contains_key(ip),
    ensures
        accepts_within(g, h, ip, since(end, g.rate_window_ms), end) <= g.rate_limit,
    decreases h.len(),
{
    let start = since(end, g.rate_window_ms);
    if h.len() > 0 {
        let d = h.drop_last();
        if h.last().now > end {
            assert forall|i: int, j: int| 0 <= i <= j < d.len() implies (#[trigger] d[i]).now <= (
            #[trigger] d[j]).now by {
                assert(d[i] == h[i] && d[j] == h[j]);
            }
            law_no_window_exceeds_the_share(g, d, ip, end);
        } else {
            assert forall|i: int| 0 <= i < h.len() implies (#[trigger] h[i]).now <= end by {
                assert(h[i].now <= h[h.len() - 1].now);
            }
            lemma_window(g, h, ip, start, end);
            lemma_memory_counts(g, h, ip, start);
        }
    }
}

/// Once the share of an address is used up in the window that ends now, every stranger at it is put
/// off, and nothing is noted that would make a later attempt a second one.
pub proof fn law_used_up_share_puts_off(
    g: GateModel,
    h: Seq<Attempt>,
    ip: Seq<char>,
    from: Seq<char>,
    now: u64,
)
    requires
        in_order(h),
        !g.accepted.contains_key(ip),
        h.len() > 0 ==> h.last().now <= now,
        !blocked(g, ip, from),
        !known(g, ip, from),
        accepts_within(g, h, ip, since(now, g.rate_window_ms), now) >= g.rate_limit,
    ensures
        ({
            let c = checked(g, h);
            let (after, d) = gate_step(c, ip, from, now);
            &&& d matches AbuseModel::Reject { code, .. } && code == 451
            &&& after.first_seen == c.first_seen
        }),
{
    reveal(Seq::filter);
    let start = since(now, g.rate_window_ms);
    let c = checked(g, h);
    lemma_settings_stay(g, h);
    assert forall|i: int| 0 <= i < h.len() implies (#[trigger] h[i]).now <= now by {
        assert(h[i].now <= h[h.len() - 1].now);
    }
    lemma_window(g, h, ip, start, now);
    lemma_memory_counts(g, h, ip, start);
    assert(counted(c, ip, now) =~= recent(stored(c, ip), start));
}

/// A check of one pair of address and sender leaves the greylisting of every other pair as it was:
/// when it was first seen, and at which times it counts as not seen before.
pub proof fn law_pairs_are_apart(
    g: GateModel,
    x: Attempt,
    ip: Seq<char>,
    from: Seq<char>,
    now: u64,
)
    requires
        x.ip != ip || x.from != from,
    ensures
        seen_at(gate_step(g, x.ip, x.from, x.now).0, ip, from) == seen_at(g, ip, from),
        cold(gate_step(g, x.ip, x.from, x.now).0, ip, from, now) == cold(g, ip, from, now),
{
}

/// However often other pairs of address and sender are checked, the greylisting of a pair stays as
/// it was. So a stranger's first contact has to wait, whoever has come before it.
pub proof fn law_others_do_not_warm_a_pair(
    g: GateModel,
    h: Seq<Attempt>,
    ip: Seq<char>,
    from: Seq<char>,
    now: u64,
)
    requires
        forall|i: int| 0 <= i < h.len() ==> (#[trigger] h[i]).ip != ip || h[i].from != from,
    ensures
        seen_at(checked(g, h), ip, from) == seen_at(g, ip, from),
        cold(checked(g, h), ip, from, now) == cold(g, ip, from, now),
        cold(g, ip, from, now) && !known(g, ip, from) ==> !(gate_step(
            checked(g, h),
            ip,
            from,
            now,
        ).1 is Accept),
    decreases h.len(),
{
    lemma_settings_stay(g, h);
    if h.len() > 0 {
        let d = h.drop_last();
        let x = h.last();
        assert forall|i: int| 0 <= i < d.len() implies (#[trigger] d[i]).ip != ip || d[i].from
            != from by {
            assert(d[i] == h[i]);
        }
        assert(x == h[h.len() - 1]);
        law_others_do_not_warm_a_pair(g, d, ip, from, now);
        law_pairs_are_apart(checked(g, d), x, ip, from, now);
    }
}

/// What is decided of a sender: one on the list of the blocked, or at an address with a blocked
/// beginning, is refused for good; one that is known in either way is let through; and a stranger is
/// let through exactly if its address has not used up its share in the window, its first attempt is
/// remembered and it has waited long enough. A stranger that is not let through is put off.
pub proof fn law_who_is_let_through(g: GateModel, ip: Seq<char>, from: Seq<char>, now: u64)
    requires
        now >= g.rate_window_ms,
    ensures
        ({
            let d = gate_step(g, ip, from, now).1;
            let blocked = (exists|i: int|
                0 <= i < g.blocked_ip_prefixes.len()
                    && #[trigger] g.blocked_ip_prefixes[i].is_prefix_of(ip))
                || g.blocked_senders.contains(text::lower(from));
            let known = (exists|i: int|
                0 <= i < g.known_ip_prefixes.len() && #[trigger] g.known_ip_prefixes[i].is_prefix_of(
                    ip,
                )) || g.known_senders.contains(text::lower(from));
            let times = if g.accepted.contains_key(ip) {
                g.accepted[ip].filter(|t: u64| t >= (now - g.rate_window_ms) as u64)
            } else {
                Seq::empty()
            };
            let share_left = times.len() < g.rate_limit;
            let seen = g.first_seen.contains_key(ip) && g.first_seen[ip].contains_key(from);
            let first = g.first_seen[ip][from];
            let remembered = seen && now <= first + g.ttl_ms;
            let waited = now >= first + g.min_retry_ms;
            &&& blocked ==> (d matches AbuseModel::Reject { code, .. } && code == 554)
            &&& !blocked && known ==> d is Accept
            &&& !blocked && !known && share_left && remembered && waited ==> d is Accept
            &&& !blocked && !known && !(share_left && remembered && waited) && first <= now ==> (
            d matches AbuseModel::Reject { code, .. } && code == 451)
        }),
{
    if g.accepted.contains_key(ip) {
        assert(counted(g, ip, now) == g.accepted[ip].filter(
            |t: u64| t >= (now - g.rate_window_ms) as u64,
        )) by {
            assert(since(now, g.rate_window_ms) == (now - g.rate_window_ms) as u64);
        }
    }
}

/// What is noted of a sender: the first attempt of a stranger that is put off for that reason, at its
/// time; a message of a stranger that is let through, at its time; and else nothing new.
pub proof fn law_what_is_noted(g: GateModel, ip: Seq<char>, from: Seq<char>, now: u64)
    requires
        !blocked(g, ip, from),
        !known(g, ip, from),
    ensures
        ({
            let (a, d) = gate_step(g, ip, from, now);
            let full = counted(g, ip, now).len() >= g.rate_limit;
            &&& !full && cold(g, ip, from, now) ==> a.first_seen.contains_key(ip)
                && a.first_seen[ip].contains_key(from) && a.first_seen[ip][from] == now
            &&& full || !cold(g, ip, from, now) ==> a.first_seen == g.first_seen
            &&& d is Accept ==> a.accepted.contains_key(ip) && a.accepted[ip].len() > 0
                && a.accepted[ip].last() == now
            &&& d is Reject ==> a.accepted.contains_key(ip) && a.accepted[ip] == counted(g, ip, now)
            &&& a.rate_limit == g.rate_limit && a.ttl_ms == g.ttl_ms && a.min_retry_ms
                == g.min_retry_ms && a.rate_window_ms == g.rate_window_ms
        }),
{
}

/// A new guard knows and blocks nobody and has seen nothing; a first sender waits a minute, is
/// remembered for twelve hours, and each peer may send sixty messages a minute.
pub proof fn law_what_a_new_guard_holds()
    ensures
        fresh_gate().min_retry_ms == 60_000,
        fresh_gate().ttl_ms == 12 * 60 * 60 * 1000,
        fresh_gate().rate_limit == 60,
        fresh_gate().rate_window_ms == 60_000,
        fresh_gate().known_ip_prefixes.len() == 0 && fresh_gate().known_senders.len() == 0,
        fresh_gate().blocked_ip_prefixes.len() == 0 && fresh_gate().blocked_senders.len() == 0,
        fresh_gate().first_seen == Map::<Seq<char>, Map<Seq<char>, u64>>::empty(),
        fresh_gate().accepted == Map::<Seq<char>, Seq<u64>>::empty(),
{
}

/// A decision is the step at some time that the clock may show, and the clock stays the same one.
pub proof fn law_decisions_are_steps<C: Clock>(
    before: ColdSenderGate<C>,
    ip: Seq<char>,
    from: Seq<char>,
    d: AbuseModel,
    after: ColdSenderGate<C>,
)
    requires
        ColdSenderGate::<C>::decides(before, ip, from, d, after),
    ensures
        exists|now: u64| #[trigger] gate_step(before@, ip, from, now) == (after@, d),
        after.time_source() == before.time_source(),
{
    let now = choose|now: u64|
        before.time_source().may_show(now) && (#[trigger] gate_step(before@, ip, from, now)) == (
            after@,
            d,
        );
    assert(gate_step(before@, ip, from, now) == (after@, d));
}

} // verus!
