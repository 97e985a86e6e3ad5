//! The hosts that mail for a domain goes to, in the order in which they are tried.
//!
//! A host with a lower preference is tried first; hosts with the same preference keep the order in
//! which they were listed. A domain without hosts is its own host.

use crate::dns;
use crate::dns::{DnsMessage, ResourceRecord, TYPE_MX};
use crate::seqmap::SeqMap;
use crate::text;
use vstd::prelude::*;

verus! {

/// A host and its preference.
#[derive(Debug, PartialEq, Eq)]
pub struct MxHost {
    pub host: String,
    pub preference: u16,
}

/// [`MxHost`] with its name as a sequence.
pub struct MxModel {
    pub host: Seq<char>,
    pub preference: u16,
}

impl View for MxHost {
    type V = MxModel;

    open spec fn view(&self) -> MxModel {
        MxModel { host: self.host@, preference: self.preference }
    }
}

impl Clone for MxHost {
    fn clone(&self) -> (r: Self)
        ensures
            r@ == self@,
    {
        MxHost { host: self.host.clone(), preference: self.preference }
    }
}

/// The views of a sequence of hosts.
pub open spec fn host_views(v: Seq<MxHost>) -> Seq<MxModel> {
    Seq::new(v.len(), |i: int| v[i]@)
}

/// Whether the preferences ascend.
pub open spec fn ascending(s: Seq<MxModel>) -> bool {
    forall|i: int, j: int|
        0 <= i <= j < s.len() ==> (#[trigger] s[i]).preference <= (#[trigger] s[j]).preference
}

/// The hosts of one preference.
pub open spec fn of_preference(s: Seq<MxModel>, p: u16) -> Seq<MxModel> {
    s.filter(|h: MxModel| h.preference == p)
}

/// Whether `out` holds the hosts of `s` in ascending preference, those of one preference in the
/// order that they have in `s`.
pub open spec fn in_order_of_preference(s: Seq<MxModel>, out: Seq<MxModel>) -> bool {
    &&& ascending(out)
    &&& forall|p: u16| #[trigger] of_preference(out, p) == of_preference(s, p)
}

/// The single host of a domain that lists none: the domain itself.
pub open spec fn own_host(domain: Seq<char>) -> Seq<MxModel> {
    seq![MxModel { host: domain, preference: 0 }]
}

/// Whether `out` is the list of candidates for a domain that lists the given hosts.
pub open spec fn are_candidates(domain: Seq<char>, listed: Seq<MxModel>, out: Seq<MxModel>) -> bool {
    if listed.len() == 0 {
        out == own_host(domain)
    } else {
        in_order_of_preference(listed, out)
    }
}

/// Finds the hosts for a domain.
pub trait MxResolver {
    /// Whether a lookup may come back with the given candidates.
    open spec fn may_list(&self, domain: Seq<char>, hosts: Seq<MxModel>) -> bool {
        true
    }

    /// The candidates for a domain, in the order in which they are tried. There is at least one.
    fn resolve_mx(&self, domain: &str) -> (r: Vec<MxHost>)
        ensures
            self.may_list(domain@, host_views(r@)),
            r@.len() > 0,
            ascending(host_views(r@)),
    ;
}

proof fn lemma_filter_one(h: MxModel, p: u16)
    ensures
        of_preference(seq![h], p) == (if h.preference == p {
            seq![h]
        } else {
            Seq::empty()
        }),
{
    reveal(Seq::filter);
    let s = seq![h];
    assert(s.drop_last() =~= Seq::<MxModel>::empty());
    let f = |x: MxModel| x.preference == p;
    assert(s.drop_last().filter(f) =~= Seq::<MxModel>::empty());
    if h.preference == p {
        assert(s.filter(f) =~= seq![h]);
    }
}

proof fn lemma_filter_none(s: Seq<MxModel>, p: u16)
    requires
        forall|i: int| 0 <= i < s.len() ==> (#[trigger] s[i]).preference != p,
    ensures
        of_preference(s, p) == Seq::<MxModel>::empty(),
    decreases s.len(),
{
    reveal(Seq::filter);
    if s.len() > 0 {
        let d = s.drop_last();
        assert forall|i: int| 0 <= i < d.len() implies (#[trigger] d[i]).preference != p by {
            assert(d[i] == s[i]);
        }
        lemma_filter_none(d, p);
        assert(s.last() == s[s.len() - 1]);
    }
}

/// Putting a host behind those of no higher preference keeps the order.
proof fn lemma_insert(s: Seq<MxModel>, sorted: Seq<MxModel>, x: MxModel, k: int)
    requires
        in_order_of_preference(s, sorted),
        0 <= k <= sorted.len(),
        forall|i: int| 0 <= i < k ==> (#[trigger] sorted[i]).preference <= x.preference,
        forall|i: int| k <= i < sorted.len() ==> (#[trigger] sorted[i]).preference > x.preference,
    ensures
        in_order_of_preference(s.push(x), sorted.insert(k, x)),
{
    let out = sorted.insert(k, x);
    let a = sorted.take(k);
    let b = sorted.skip(k);
    assert(out =~= a + seq![x] + b);
    assert(sorted =~= a + b);
    assert forall|i: int, j: int| 0 <= i <= j < out.len() implies (#[trigger] out[i]).preference <= (
    #[trigger] out[j]).preference by {
        let i2 = if i < k { i } else { i - 1 };
        let j2 = if j < k { j } else { j - 1 };
        if i != k && j != k {
            assert(sorted[i2].preference <= sorted[j2].preference);
        }
    }
    assert forall|p: u16| #[trigger] of_preference(out, p) == of_preference(s.push(x), p) by {
        let f = |h: MxModel| h.preference == p;
        Seq::filter_distributes_over_add(a + seq![x], b, f);
        Seq::filter_distributes_over_add(a, seq![x], f);
        Seq::filter_distributes_over_add(a, b, f);
        Seq::filter_distributes_over_add(s, seq![x], f);
        assert(s.push(x) =~= s + seq![x]);
        lemma_filter_one(x, p);
        assert(of_preference(sorted, p) == of_preference(s, p));
        if x.preference == p {
            assert forall|i: int| 0 <= i < b.len() implies (#[trigger] b[i]).preference != p by {
                assert(b[i] == sorted[k + i]);
            }
            lemma_filter_none(b, p);
            assert(a.filter(f) + seq![x] + Seq::<MxModel>::empty() =~= a.filter(f)
                + Seq::<MxModel>::empty() + seq![x]);
        } else {
            assert(a.filter(f) + Seq::<MxModel>::empty() + b.filter(f) =~= a.filter(f) + b.filter(f)
                + Seq::<MxModel>::empty());
        }
    }
}

/// Sorts hosts by preference.
fn sort_by_preference(hosts: &Vec<MxHost>) -> (r: Vec<MxHost>)
    ensures
        in_order_of_preference(host_views(hosts@), host_views(r@)),
        r@.len() == hosts@.len(),
{
    let ghost all = host_views(hosts@);
    let mut out: Vec<MxHost> = Vec::new();
    let mut n: usize = 0;
    assert(host_views(out@) =~= all.take(0));
    while n < hosts.len()
        invariant
            n <= hosts@.len(),
            all == host_views(hosts@),
            out@.len() == n,
            in_order_of_preference(all.take(n as int), host_views(out@)),
        decreases hosts@.len() - n,
    {
        let ghost sorted = host_views(out@);
        let x = hosts[n].clone();
        let ghost m = x@;
        let mut k: usize = out.len();
        while k > 0 && out[k - 1].preference > x.preference
            invariant
                k <= out@.len(),
                sorted == host_views(out@),
                forall|i: int|
                    k <= i < sorted.len() ==> (#[trigger] sorted[i]).preference > x.preference,
            decreases k,
        {
            assert(sorted[k - 1] == out@[k - 1]@);
            k -= 1;
        }
        proof {
            assert forall|i: int| 0 <= i < k implies (#[trigger] sorted[i]).preference
                <= m.preference by {
                assert(sorted[k - 1] == out@[k - 1]@);
                assert(sorted[i].preference <= sorted[k - 1].preference);
            }
            lemma_insert(all.take(n as int), sorted, m, k as int);
            assert(all.take(n + 1) =~= all.take(n as int).push(m));
        }
        out.insert(k, x);
        assert(host_views(out@) =~= sorted.insert(k as int, m));
        n += 1;
    }
    assert(all.take(n as int) =~= all);
    out
}

/// The candidates for a domain that lists the given hosts.
pub fn candidates(domain: &str, listed: &Vec<MxHost>) -> (r: Vec<MxHost>)
    ensures
        are_candidates(domain@, host_views(listed@), host_views(r@)),
        r@.len() > 0,
        ascending(host_views(r@)),
{
    if listed.len() == 0 {
        let mut out: Vec<MxHost> = Vec::new();
        out.push(MxHost { host: text::string_from(domain), preference: 0 });
        assert(host_views(out@) =~= own_host(domain@));
        return out;
    }
    sort_by_preference(listed)
}

/// The hosts in the MX records among the given ones; records that cannot be read are left out.
pub open spec fn listed_hosts(packet: Seq<u8>, rrs: Seq<dns::RecordModel>) -> Seq<MxModel>
    decreases rrs.len(),
{
    if rrs.len() == 0 {
        Seq::empty()
    } else {
        let before = listed_hosts(packet, rrs.drop_last());
        let rr = rrs.last();
        if rr.rtype != TYPE_MX {
            before
        } else {
            match dns::mx_data(packet, rr) {
                Ok((preference, host)) => before.push(MxModel { host, preference }),
                Err(_) => before,
            }
        }
    }
}

/// The hosts that a response lists.
pub fn hosts_in_response(packet: &[u8], msg: &DnsMessage) -> (r: Vec<MxHost>)
    ensures
        host_views(r@) == listed_hosts(packet@, msg@.answers),
{
    let ghost all = dns::record_views(msg.answers@);
    let mut out: Vec<MxHost> = Vec::new();
    let mut i: usize = 0;
    assert(host_views(out@) =~= listed_hosts(packet@, all.take(0)));
    while i < msg.answers.len()
        invariant
            i <= msg.answers@.len(),
            all == dns::record_views(msg.answers@),
            host_views(out@) == listed_hosts(packet@, all.take(i as int)),
        decreases msg.answers@.len() - i,
    {
        let rr: &ResourceRecord = &msg.answers[i];
        assert(all.take(i + 1).drop_last() =~= all.take(i as int));
        assert(all.take(i + 1).last() == rr@);
        let ghost before = host_views(out@);
        if rr.rtype == TYPE_MX {
            match dns::parse_mx_rdata(packet, rr) {
                Ok((preference, host)) => {
                    let ghost h = host@;
                    out.push(MxHost { host, preference });
                    assert(host_views(out@) =~= before.push(MxModel { host: h, preference }));
                },
                Err(_) => {},
            }
        }
        i += 1;
    }
    assert(all.take(all.len() as int) =~= all);
    out
}

/// The hosts that a response packet lists, none where the packet cannot be read.
pub open spec fn packet_hosts(packet: Seq<u8>) -> Seq<MxModel> {
    match dns::response(packet) {
        Ok(m) => listed_hosts(packet, m.answers),
        Err(_) => Seq::empty(),
    }
}

/// The candidates for a domain, given the response packet to the query for its hosts, or none
/// where there was no response.
pub fn candidates_from_packet(domain: &str, packet: Option<&[u8]>) -> (r: Vec<MxHost>)
    ensures
        are_candidates(
            domain@,
            match packet {
                Some(p) => packet_hosts(p@),
                None => Seq::empty(),
            },
            host_views(r@),
        ),
        r@.len() > 0,
        ascending(host_views(r@)),
{
    let none: Vec<MxHost> = Vec::new();
    assert(host_views(none@) =~= Seq::<MxModel>::empty());
    match packet {
        None => candidates(domain, &none),
        Some(p) => match dns::parse_response(p) {
            Err(_) => candidates(domain, &none),
            Ok(m) => {
                let hosts = hosts_in_response(p, &m);
                candidates(domain, &hosts)
            },
        },
    }
}

/// A table of hosts.
pub struct InMemoryMxResolver {
    records: SeqMap<char, HostList>,
}

/// The hosts of one domain.
pub struct HostList {
    hosts: Vec<MxHost>,
}

impl View for HostList {
    type V = Seq<MxModel>;

    closed spec fn view(&self) -> Seq<MxModel> {
        host_views(self.hosts@)
    }
}

impl View for InMemoryMxResolver {
    type V = Map<Seq<char>, Seq<MxModel>>;

    closed spec fn view(&self) -> Map<Seq<char>, Seq<MxModel>> {
        self.records@
    }
}

/// The views of a sequence of names and preferences.
pub open spec fn pair_views(v: Seq<(&str, u16)>) -> Seq<MxModel> {
    Seq::new(v.len(), |i: int| MxModel { host: v[i].0@, preference: v[i].1 })
}

/// The hosts that a table lists for a domain, in any case.
pub open spec fn table_hosts(t: Map<Seq<char>, Seq<MxModel>>, domain: Seq<char>) -> Seq<MxModel> {
    if t.contains_key(text::lower(domain)) {
        t[text::lower(domain)]
    } else {
        Seq::empty()
    }
}

impl InMemoryMxResolver {
    /// An empty table.
    pub fn new() -> (r: Self)
        ensures
            r@ == Map::<Seq<char>, Seq<MxModel>>::empty(),
    {
        InMemoryMxResolver { records: SeqMap::new() }
    }

    /// The table with the hosts of a domain set.
    pub fn with_mx(self, domain: &str, hosts: &[(&str, u16)]) -> (r: Self)
        ensures
            r@ == self@.insert(text::lower(domain@), pair_views(hosts@)),
    {
        let mut records = self.records;
        let n: usize = hosts.len();
        let mut list: Vec<MxHost> = Vec::new();
        let mut i: usize = 0;
        while i < n
            invariant
                n == hosts@.len(),
                i <= n,
                list@.len() == i,
                forall|j: int| 0 <= j < i ==> (#[trigger] list@[j])@ == pair_views(hosts@)[j],
            decreases n - i,
        {
            let (h, p) = hosts[i];
            list.push(MxHost { host: text::string_from(h), preference: p });
            i += 1;
        }
        assert(host_views(list@) =~= pair_views(hosts@));
        let c = text::chars_of(domain);
        let key = text::to_lower(c.as_slice());
        let _ = records.insert(key.as_slice(), HostList { hosts: list });
        InMemoryMxResolver { records }
    }
}

impl MxResolver for InMemoryMxResolver {
    open spec fn may_list(&self, domain: Seq<char>, hosts: Seq<MxModel>) -> bool {
        are_candidates(domain, table_hosts(self@, domain), hosts)
    }

    fn resolve_mx(&self, domain: &str) -> (r: Vec<MxHost>) {
        let c = text::chars_of(domain);
        let key = text::to_lower(c.as_slice());
        match self.records.get(key.as_slice()) {
            Some(list) => candidates(domain, &list.hosts),
            None => {
                let none: Vec<MxHost> = Vec::new();
                assert(host_views(none@) =~= Seq::<MxModel>::empty());
                candidates(domain, &none)
            },
        }
    }
}

// ---- laws --------------------------------------------------------------------------------------

/// Nothing is lost or added by putting hosts in order: each occurs as often as it did.
pub proof fn law_order_keeps_the_hosts(s: Seq<MxModel>, out: Seq<MxModel>)
    requires
        in_order_of_preference(s, out),
    ensures
        s.to_multiset() == out.to_multiset(),
{
    assert forall|h: MxModel| #[trigger] s.to_multiset().count(h) == out.to_multiset().count(h) by {
        lemma_count_in_class(s, h);
        lemma_count_in_class(out, h);
        assert(of_preference(out, h.preference) == of_preference(s, h.preference));
    }
    assert(s.to_multiset() =~= out.to_multiset());
}

/// A host occurs as often as it does among the hosts of its preference.
proof fn lemma_count_in_class(s: Seq<MxModel>, h: MxModel)
    ensures
        s.to_multiset().count(h) == of_preference(s, h.preference).to_multiset().count(h),
    decreases s.len(),
{
    broadcast use vstd::seq_lib::group_to_multiset_ensures;

    reveal(Seq::filter);
    let f = |x: MxModel| x.preference == h.preference;
    if s.len() == 0 {
        assert(s.filter(f) =~= s);
    } else {
        let d = s.drop_last();
        let x = s.last();
        lemma_count_in_class(d, h);
        assert(s =~= d.push(x));
        assert(d.push(x).to_multiset() =~= d.to_multiset().insert(x));
        if f(x) {
            assert(s.filter(f) =~= d.filter(f).push(x));
            assert(d.filter(f).push(x).to_multiset() =~= d.filter(f).to_multiset().insert(x));
        } else {
            assert(s.filter(f) =~= d.filter(f));
            assert(x != h);
        }
    }
}

proof fn lemma_in_class(s: Seq<MxModel>, h: MxModel)
    ensures
        s.contains(h) <==> of_preference(s, h.preference).contains(h),
    decreases s.len(),
{
    reveal(Seq::filter);
    let f = |x: MxModel| x.preference == h.preference;
    if s.len() > 0 {
        let d = s.drop_last();
        lemma_in_class(d, h);
        assert(s =~= d.push(s.last()));
        let a = d.filter(f);
        if s.contains(h) {
            let i = choose|i: int| 0 <= i < s.len() && s[i] == h;
            if i < d.len() {
                assert(d[i] == h);
                assert(d.contains(h));
                let j = choose|j: int| 0 <= j < a.len() && a[j] == h;
                assert(s.filter(f)[j] == h);
            } else {
                assert(s.filter(f)[a.len() as int] == h);
            }
        }
        if s.filter(f).contains(h) {
            let j = choose|j: int| 0 <= j < s.filter(f).len() && s.filter(f)[j] == h;
            if j < a.len() {
                assert(a[j] == h);
                assert(a.contains(h));
                let i = choose|i: int| 0 <= i < d.len() && d[i] == h;
                assert(s[i] == h);
            } else {
                assert(s[s.len() - 1] == h);
            }
        }
    }
}

/// The order is determined by the hosts.
pub proof fn law_order_is_determined(s: Seq<MxModel>, a: Seq<MxModel>, b: Seq<MxModel>)
    requires
        in_order_of_preference(s, a),
        in_order_of_preference(s, b),
    ensures
        a == b,
{
    assert forall|p: u16| #[trigger] of_preference(a, p) == of_preference(b, p) by {
        assert(of_preference(a, p) == of_preference(s, p));
    }
    lemma_same_classes(a, b);
}

proof fn lemma_same_classes(a: Seq<MxModel>, b: Seq<MxModel>)
    requires
        ascending(a),
        ascending(b),
        forall|p: u16| #[trigger] of_preference(a, p) == of_preference(b, p),
    ensures
        a == b,
    decreases a.len(),
{
    reveal(Seq::filter);
    if a.len() == 0 {
        if b.len() > 0 {
            lemma_in_class(b, b[0]);
            assert(b.contains(b[0]));
            assert(of_preference(a, b[0].preference).len() == 0);
        }
        assert(a =~= b);
    } else {
        lemma_in_class(a, a[0]);
        assert(a.contains(a[0]));
        lemma_in_class(b, a[0]);
        assert(b.len() > 0);
        let x = a.last();
        let y = b.last();
        assert(a.contains(x)) by {
            assert(a[a.len() - 1] == x);
        }
        assert(b.contains(y)) by {
            assert(b[b.len() - 1] == y);
        }
        lemma_in_class(a, x);
        lemma_in_class(b, x);
        lemma_in_class(a, y);
        lemma_in_class(b, y);
        assert(of_preference(a, x.preference) == of_preference(b, x.preference));
        assert(of_preference(a, y.preference) == of_preference(b, y.preference));
        let i = choose|i: int| 0 <= i < b.len() && b[i] == x;
        let j = choose|j: int| 0 <= j < a.len() && a[j] == y;
        assert(b[i].preference <= b[b.len() - 1].preference);
        assert(a[j].preference <= a[a.len() - 1].preference);
        assert(x.preference == y.preference);
        let p = x.preference;
        assert(of_preference(a, p).last() == x);
        assert(of_preference(b, p).last() == y);
        assert(x == y);
        let da = a.drop_last();
        let db = b.drop_last();
        assert forall|q: u16| #[trigger] of_preference(da, q) == of_preference(db, q) by {
            assert(of_preference(a, q) == of_preference(b, q));
            if q == p {
                assert(of_preference(a, q).drop_last() =~= of_preference(da, q));
                assert(of_preference(b, q).drop_last() =~= of_preference(db, q));
            }
        }
        assert forall|u: int, v: int| 0 <= u <= v < da.len() implies (#[trigger] da[u]).preference
            <= (#[trigger] da[v]).preference by {
            assert(a[u].preference <= a[v].preference);
        }
        assert forall|u: int, v: int| 0 <= u <= v < db.len() implies (#[trigger] db[u]).preference
            <= (#[trigger] db[v]).preference by {
            assert(b[u].preference <= b[v].preference);
        }
        lemma_same_classes(da, db);
        assert(a =~= da.push(x));
        assert(b =~= db.push(y));
    }
}

/// The hosts that answers list are those that each of them lists, in the order of the answers.
pub proof fn law_answers_are_listed_one_by_one(
    packet: Seq<u8>,
    a: Seq<dns::RecordModel>,
    b: Seq<dns::RecordModel>,
)
    ensures
        listed_hosts(packet, a + b) == listed_hosts(packet, a) + listed_hosts(packet, b),
    decreases b.len(),
{
    if b.len() == 0 {
        assert(a + b =~= a);
        assert(listed_hosts(packet, a) + Seq::<MxModel>::empty() =~= listed_hosts(packet, a));
    } else {
        assert((a + b).drop_last() =~= a + b.drop_last());
        assert((a + b).last() == b.last());
        law_answers_are_listed_one_by_one(packet, a, b.drop_last());
        assert(listed_hosts(packet, a + b) =~= listed_hosts(packet, a) + listed_hosts(packet, b));
    }
}

/// An answer of the type MX whose data can be read lists one host: its exchange, with its preference.
/// An answer of any other type lists none.
pub proof fn law_mx_answer_lists_its_exchange(packet: Seq<u8>, rr: dns::RecordModel)
    ensures
        rr.rtype != 15 ==> listed_hosts(packet, seq![rr]).len() == 0,
        rr.rtype == 15 ==> (match dns::mx_data(packet, rr) {
            Ok((preference, exchange)) => listed_hosts(packet, seq![rr]) == seq![
                MxModel { host: exchange, preference },
            ],
            Err(_) => listed_hosts(packet, seq![rr]).len() == 0,
        }),
{
    let one = seq![rr];
    assert(one.drop_last() =~= Seq::<dns::RecordModel>::empty());
    assert(listed_hosts(packet, one.drop_last()) =~= Seq::<MxModel>::empty());
    match dns::mx_data(packet, rr) {
        Ok((preference, host)) => {
            assert(Seq::<MxModel>::empty().push(MxModel { host, preference }) =~= seq![
                MxModel { host, preference },
            ]);
        },
        Err(_) => {},
    }
}

/// The host of every readable MX answer is among the listed ones, and every listed host is that of
/// such an answer.
pub proof fn law_listed_are_the_exchanges(packet: Seq<u8>, rrs: Seq<dns::RecordModel>, h: MxModel)
    ensures
        listed_hosts(packet, rrs).contains(h) <==> exists|i: int|
            0 <= i < rrs.len() && (#[trigger] rrs[i]).rtype == 15 && dns::mx_data(packet, rrs[i])
                == Ok::<(u16, Seq<char>), dns::DnsError>((h.preference, h.host)),
    decreases rrs.len(),
{
    if rrs.len() > 0 {
        let front = rrs.drop_last();
        let last = rrs.last();
        law_listed_are_the_exchanges(packet, front, h);
        let before = listed_hosts(packet, front);
        let all = listed_hosts(packet, rrs);
        if all.contains(h) {
            let j = choose|j: int| 0 <= j < all.len() && all[j] == h;
            if j < before.len() {
                assert(before[j] == h);
                let i = choose|i: int|
                    0 <= i < front.len() && (#[trigger] front[i]).rtype == 15 && dns::mx_data(
                        packet,
                        front[i],
                    ) == Ok::<(u16, Seq<char>), dns::DnsError>((h.preference, h.host));
                assert(rrs[i] == front[i]);
            } else {
                assert(rrs[rrs.len() - 1] == last);
            }
        }
        if exists|i: int|
            0 <= i < rrs.len() && (#[trigger] rrs[i]).rtype == 15 && dns::mx_data(packet, rrs[i])
                == Ok::<(u16, Seq<char>), dns::DnsError>((h.preference, h.host)) {
            let i = choose|i: int|
                0 <= i < rrs.len() && (#[trigger] rrs[i]).rtype == 15 && dns::mx_data(
                    packet,
                    rrs[i],
                ) == Ok::<(u16, Seq<char>), dns::DnsError>((h.preference, h.host));
            if i < front.len() {
                assert(front[i] == rrs[i]);
                let j = choose|j: int| 0 <= j < before.len() && before[j] == h;
                assert(all[j] == h);
            } else {
                assert(all[before.len() as int] == h);
            }
        }
    }
}

/// The candidates are tried from the lowest preference to the highest, those of one preference in the
/// order in which they were listed, and each as often as it was listed. Only a domain that lists no
/// host is its own.
pub proof fn law_candidates_are_the_listed_hosts(
    domain: Seq<char>,
    listed: Seq<MxModel>,
    out: Seq<MxModel>,
    p: u16,
)
    requires
        are_candidates(domain, listed, out),
    ensures
        forall|i: int, j: int|
            0 <= i <= j < out.len() ==> (#[trigger] out[i]).preference <= (
            #[trigger] out[j]).preference,
        listed.len() > 0 ==> out.to_multiset() == listed.to_multiset(),
        listed.len() > 0 ==> out.filter(|h: MxModel| h.preference == p) == listed.filter(
            |h: MxModel| h.preference == p,
        ),
        listed.len() == 0 ==> out.len() == 1 && out[0].host == domain && out[0].preference == 0,
{
    if listed.len() > 0 {
        law_order_keeps_the_hosts(listed, out);
        assert(of_preference(out, p) == of_preference(listed, p));
    }
}

/// A table answers for a domain with what was set for it, in any case, and setting the hosts of one
/// domain changes nothing for another.
pub proof fn law_table_lists_what_was_set(
    t: Map<Seq<char>, Seq<MxModel>>,
    set: Seq<char>,
    hosts: Seq<MxModel>,
    asked: Seq<char>,
)
    ensures
        text::lower(set) == text::lower(asked) ==> table_hosts(
            t.insert(text::lower(set), hosts),
            asked,
        ) == hosts,
        text::lower(set) != text::lower(asked) ==> table_hosts(
            t.insert(text::lower(set), hosts),
            asked,
        ) == table_hosts(t, asked),
{
}

/// An answer of the type MX in a packet, whose data is a preference and the name of an exchange, lists
/// that exchange with that preference.
pub proof fn law_exchange_is_listed(
    pre: Seq<u8>,
    preference: u16,
    name: Seq<char>,
    post: Seq<u8>,
    rr: dns::RecordModel,
)
    requires
        dns::wire_labels(dns::labels_of(name)),
        rr.rtype == 15,
        rr.rdata_offset == pre.len(),
        rr.rdata.len() >= 3,
        rr.rdata[0] == preference / 256,
        rr.rdata[1] == preference % 256,
    ensures
        ({
            let p = pre + seq![(preference / 256) as u8, (preference % 256) as u8] + dns::name_bytes(
                name,
            ) + post;
            listed_hosts(p, seq![rr]) == seq![
                MxModel { host: text::strip_back(name, |c: char| c == '.'), preference },
            ]
        }),
{
    dns::law_mx_data_is_read(pre, preference, name, post, rr);
    let p = pre + seq![(preference / 256) as u8, (preference % 256) as u8] + dns::name_bytes(name)
        + post;
    law_mx_answer_lists_its_exchange(p, rr);
}

/// The hosts of a packet are those that its answers list; a packet that cannot be read lists none.
pub proof fn law_hosts_of_a_packet(packet: Seq<u8>)
    ensures
        dns::response(packet) matches Ok(m) ==> packet_hosts(packet) == listed_hosts(
            packet,
            m.answers,
        ),
        dns::response(packet) is Err ==> packet_hosts(packet).len() == 0,
{
}

/// A table answers for a domain, in whatever case, with the hosts that were set for it as candidates.
pub proof fn law_table_answers_with_its_hosts(
    t: InMemoryMxResolver,
    domain: Seq<char>,
    hosts: Seq<MxModel>,
)
    ensures
        t@.contains_key(text::lower(domain)) ==> (t.may_list(domain, hosts) <==> are_candidates(
            domain,
            t@[text::lower(domain)],
            hosts,
        )),
        !t@.contains_key(text::lower(domain)) ==> (t.may_list(domain, hosts) <==> are_candidates(
            domain,
            Seq::empty(),
            hosts,
        )),
{
}

} // verus!
