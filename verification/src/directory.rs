//! The recipient directory: which addresses have keys.
//!
//! Addresses are looked up in lower case. The file format has one recipient on each line, and one
//! bad line refuses the whole file: a recipient that was silently dropped would be unreachable.

use crate::b64;
use crate::model;
use crate::seqmap::SeqMap;
use crate::text;
use vstd::prelude::*;
use vstd::slice::slice_to_vec;

verus! {

/// The keys of a recipient: the identity key and the sealing key.
#[derive(Debug, PartialEq, Eq)]
pub struct RecipientKey {
    pub ik: Vec<u8>,
    pub seal_pub: Vec<u8>,
}

/// [`RecipientKey`] with its contents as sequences.
pub struct RecipientModel {
    pub ik: Seq<u8>,
    pub seal_pub: Seq<u8>,
}

impl View for RecipientKey {
    type V = RecipientModel;

    open spec fn view(&self) -> RecipientModel {
        RecipientModel { ik: self.ik@, seal_pub: self.seal_pub@ }
    }
}

impl Clone for RecipientKey {
    fn clone(&self) -> (r: Self)
        ensures
            r@ == self@,
    {
        RecipientKey {
            ik: slice_to_vec(self.ik.as_slice()),
            seal_pub: slice_to_vec(self.seal_pub.as_slice()),
        }
    }
}

/// Looks up the keys of a recipient.
pub trait KeyDirectory {
    /// Whether a lookup may come back with the given keys, or with none.
    open spec fn may_resolve(&self, rcpt: Seq<char>, key: Option<RecipientModel>) -> bool {
        true
    }

    /// The keys of a recipient, if there are any.
    fn resolve(&self, rcpt: &str) -> (r: Option<RecipientKey>)
        ensures
            self.may_resolve(rcpt@, model::opt_view(r)),
    ;
}

/// An address as the directory looks it up.
pub open spec fn address_key(s: Seq<char>) -> Seq<char> {
    text::lower(text::trim(s))
}

fn to_address_key(s: &str) -> (r: Vec<char>)
    ensures
        r@ == address_key(s@),
{
    let c = text::chars_of(s);
    text::to_lower(text::trimmed(c.as_slice()))
}

/// A directory as a map from addresses to keys.
pub type DirectoryModel = Map<Seq<char>, RecipientModel>;

/// The keys of a recipient in a directory.
pub open spec fn lookup(d: DirectoryModel, rcpt: Seq<char>) -> Option<RecipientModel> {
    if d.contains_key(address_key(rcpt)) {
        Some(d[address_key(rcpt)])
    } else {
        None
    }
}

/// A directory in memory.
pub struct InMemoryDirectory {
    entries: SeqMap<char, RecipientKey>,
}

impl View for InMemoryDirectory {
    type V = DirectoryModel;

    closed spec fn view(&self) -> DirectoryModel {
        self.entries@
    }
}

impl InMemoryDirectory {
    /// A directory without recipients.
    pub fn new() -> (r: Self)
        ensures
            r@ == DirectoryModel::empty(),
    {
        InMemoryDirectory { entries: SeqMap::new() }
    }

    /// The directory with a recipient added or replaced.
    pub fn with_recipient(self, email: &str, key: RecipientKey) -> (r: Self)
        ensures
            r@ == self@.insert(address_key(email@), key@),
    {
        let mut d = self;
        d.insert(email, key);
        d
    }

    /// Adds or replaces a recipient.
    pub fn insert(&mut self, email: &str, key: RecipientKey)
        ensures
            final(self)@ == old(self)@.insert(address_key(email@), key@),
    {
        let k = to_address_key(email);
        let _ = self.entries.insert(k.as_slice(), key);
    }

    /// Takes a recipient out; whether there was one.
    pub fn remove(&mut self, email: &str) -> (r: bool)
        ensures
            r == old(self)@.contains_key(address_key(email@)),
            final(self)@ == old(self)@.remove(address_key(email@)),
    {
        let k = to_address_key(email);
        self.entries.remove(k.as_slice()).is_some()
    }

    /// The number of recipients.
    pub fn len(&self) -> (r: usize)
        ensures
            self@.dom().finite(),
            r == self@.dom().len(),
    {
        self.entries.len()
    }

    /// Whether there is no recipient.
    pub fn is_empty(&self) -> (r: bool)
        ensures
            r == (self@ == DirectoryModel::empty()),
    {
        let n: usize = self.entries.len();
        proof {
            if n == 0 {
                assert(self@.dom() =~= Set::empty());
                assert(self@ =~= DirectoryModel::empty());
            }
        }
        n == 0
    }

    /// The recipients, each once, in no particular order.
    pub fn iter(&self) -> (r: Vec<(String, RecipientKey)>)
        ensures
            lists_directory(r@, self@),
    {
        let n: usize = self.entries.len();
        let ghost keys = self.entries.keys();
        let mut out: Vec<(String, RecipientKey)> = Vec::new();
        let mut i: usize = 0;
        while i < n
            invariant
                i <= n,
                n == keys.len(),
                keys == self.entries.keys(),
                keys.no_duplicates(),
                forall|k: Seq<char>| self@.contains_key(k) <==> keys.contains(k),
                out@.len() == i,
                forall|j: int|
                    0 <= j < i ==> (#[trigger] out@[j]).0@ == keys[j] && self@.contains_key(keys[j])
                        && out@[j].1@ == self@[keys[j]],
            decreases n - i,
        {
            let (k, v) = self.entries.entry(i);
            out.push((text::string_of(k), v.clone()));
            i += 1;
        }
        proof {
            assert forall|a: int, b: int| 0 <= a < b < out@.len() implies (#[trigger] out@[a]).0@
                != (#[trigger] out@[b]).0@ by {
                assert(keys[a] != keys[b]);
            }
            assert forall|k: Seq<char>| self@.contains_key(k) implies exists|j: int|
                0 <= j < out@.len() && (#[trigger] out@[j]).0@ == k by {
                assert(keys.contains(k));
                let j = choose|j: int| 0 <= j < keys.len() && keys[j] == k;
                assert(out@[j].0@ == k);
            }
        }
        out
    }

    /// Reads a directory from the text of a file: on each line an address, the identity key and the
    /// sealing key in base64, with white space between them. What follows a `#` is a comment, and
    /// empty lines are skipped.
    pub fn parse(text: &str) -> (r: Result<Self, DirectoryError>)
        ensures
            model::res_view(r) == parsed(text::lines(text@), 1, DirectoryModel::empty()),
    {
        let chars = text::chars_of(text);
        let ls = text::split_lines(chars.as_slice());
        let ghost all = text::views(ls@);
        let mut dir = InMemoryDirectory::new();
        let mut i: usize = 0;
        assert(all.skip(0) =~= all);
        while i < ls.len()
            invariant
                i <= ls@.len(),
                all == text::views(ls@),
                all == text::lines(text@),
                parsed(all, 1, DirectoryModel::empty()) == parsed(
                    all.skip(i as int),
                    (i + 1) as nat,
                    dir@,
                ),
            decreases ls@.len() - i,
        {
            assert(all.skip(i as int)[0] == ls@[i as int]@);
            assert(all.skip(i as int).skip(1) =~= all.skip(i + 1));
            match read_line(ls[i].as_slice(), i + 1) {
                Err(e) => {
                    return Err(e);
                },
                Ok(None) => {},
                Ok(Some((email, key))) => {
                    dir.insert(email.as_str(), key);
                },
            }
            i += 1;
        }
        Ok(dir)
    }
}

/// Whether a list holds each recipient of a directory once, and nothing else.
pub open spec fn lists_directory(v: Seq<(String, RecipientKey)>, d: DirectoryModel) -> bool {
    &&& forall|i: int|
        0 <= i < v.len() ==> d.contains_key((#[trigger] v[i]).0@) && d[v[i].0@] == v[i].1@
    &&& forall|i: int, j: int| 0 <= i < j < v.len() ==> (#[trigger] v[i]).0@ != (#[trigger] v[j]).0@
    &&& forall|k: Seq<char>|
        d.contains_key(k) ==> exists|i: int| 0 <= i < v.len() && (#[trigger] v[i]).0@ == k
}

impl KeyDirectory for InMemoryDirectory {
    open spec fn may_resolve(&self, rcpt: Seq<char>, key: Option<RecipientModel>) -> bool {
        key == lookup(self@, rcpt)
    }

    fn resolve(&self, rcpt: &str) -> (r: Option<RecipientKey>) {
        let k = to_address_key(rcpt);
        match self.entries.get(k.as_slice()) {
            Some(v) => Some(v.clone()),
            None => None,
        }
    }
}

// ---- the file format ---------------------------------------------------------------------------

/// Why a directory file was refused.
#[allow(inconsistent_fields)]
#[derive(Debug, Clone, PartialEq, Eq)]
pub enum DirectoryError {
    /// The file could not be read.
    Io { path: String, reason: String },
    /// A line ends before the field.
    MissingField { line: usize, field: &'static str },
    /// A line goes on behind the last field.
    TrailingData { line: usize },
    /// The first field of a line is not an address.
    BadAddress { line: usize, addr: String },
    /// A field of a line is not base64.
    BadBase64 { line: usize, field: &'static str, reason: &'static str },
}

/// [`DirectoryError`] with its texts as sequences.
pub enum DirectoryErrorModel {
    Io { path: Seq<char>, reason: Seq<char> },
    MissingField { line: nat, field: Seq<char> },
    TrailingData { line: nat },
    BadAddress { line: nat, addr: Seq<char> },
    BadBase64 { line: nat, field: Seq<char>, reason: Seq<char> },
}

impl View for DirectoryError {
    type V = DirectoryErrorModel;

    open spec fn view(&self) -> DirectoryErrorModel {
        match *self {
            DirectoryError::Io { path, reason } => DirectoryErrorModel::Io {
                path: path@,
                reason: reason@,
            },
            DirectoryError::MissingField { line, field } => DirectoryErrorModel::MissingField {
                line: line as nat,
                field: field@,
            },
            DirectoryError::TrailingData { line } => DirectoryErrorModel::TrailingData {
                line: line as nat,
            },
            DirectoryError::BadAddress { line, addr } => DirectoryErrorModel::BadAddress {
                line: line as nat,
                addr: addr@,
            },
            DirectoryError::BadBase64 { line, field, reason } => DirectoryErrorModel::BadBase64 {
                line: line as nat,
                field: field@,
                reason: reason@,
            },
        }
    }
}

/// What a line says, up to its comment.
pub open spec fn line_content(line: Seq<char>) -> Seq<char> {
    text::trim(text::split(line, '#')[0])
}

/// The recipient on a line, none where the line is empty, or what is wrong with it.
pub open spec fn line_entry(line: Seq<char>, n: nat) -> Result<
    Option<(Seq<char>, RecipientModel)>,
    DirectoryErrorModel,
> {
    let w = text::words(line_content(line));
    if w.len() == 0 {
        Ok(None)
    } else if w.len() == 1 {
        Err(DirectoryErrorModel::MissingField { line: n, field: "ik"@ })
    } else if w.len() == 2 {
        Err(DirectoryErrorModel::MissingField { line: n, field: "seal"@ })
    } else if w.len() > 3 {
        Err(DirectoryErrorModel::TrailingData { line: n })
    } else if !w[0].contains('@') {
        Err(DirectoryErrorModel::BadAddress { line: n, addr: w[0] })
    } else {
        match (b64::decoding(w[1]), b64::decoding(w[2])) {
            (None, _) => Err(
                DirectoryErrorModel::BadBase64 {
                    line: n,
                    field: "ik"@,
                    reason: "invalid base64 character"@,
                },
            ),
            (_, None) => Err(
                DirectoryErrorModel::BadBase64 {
                    line: n,
                    field: "seal"@,
                    reason: "invalid base64 character"@,
                },
            ),
            (Some(ik), Some(seal_pub)) => Ok(Some((w[0], RecipientModel { ik, seal_pub }))),
        }
    }
}

/// The directory that the given lines add to `d`, the first of them being line `n`.
pub open spec fn parsed(lines: Seq<Seq<char>>, n: nat, d: DirectoryModel) -> Result<
    DirectoryModel,
    DirectoryErrorModel,
>
    decreases lines.len(),
{
    if lines.len() == 0 {
        Ok(d)
    } else {
        match line_entry(lines[0], n) {
            Err(e) => Err(e),
            Ok(None) => parsed(lines.skip(1), n + 1, d),
            Ok(Some((email, key))) => parsed(
                lines.skip(1),
                n + 1,
                d.insert(address_key(email), key),
            ),
        }
    }
}

/// The view of what [`read_line`] found.
pub open spec fn entry_view(r: Result<Option<(String, RecipientKey)>, DirectoryError>) -> Result<
    Option<(Seq<char>, RecipientModel)>,
    DirectoryErrorModel,
> {
    match r {
        Ok(Some((e, k))) => Ok(Some((e@, k@))),
        Ok(None) => Ok(None),
        Err(e) => Err(e@),
    }
}

fn read_line(line: &[char], n: usize) -> (r: Result<Option<(String, RecipientKey)>, DirectoryError>)
    ensures
        entry_view(r) == line_entry(line@, n as nat),
{
    let parts = text::split_at_each(line, '#');
    assert(text::views(parts@)[0] == parts@[0]@);
    let content = text::trimmed(parts[0].as_slice());
    let w = text::split_words(content);
    let ghost ws = text::views(w@);
    assert(ws == text::words(line_content(line@)));
    if w.len() == 0 {
        return Ok(None);
    }
    if w.len() == 1 {
        return Err(DirectoryError::MissingField { line: n, field: "ik" });
    }
    if w.len() == 2 {
        return Err(DirectoryError::MissingField { line: n, field: "seal" });
    }
    if w.len() > 3 {
        return Err(DirectoryError::TrailingData { line: n });
    }
    assert(ws[0] == w@[0]@ && ws[1] == w@[1]@ && ws[2] == w@[2]@);
    if !text::has_char(w[0].as_slice(), '@') {
        return Err(
            DirectoryError::BadAddress { line: n, addr: text::string_of(w[0].as_slice()) },
        );
    }
    let ik_text = text::string_of(w[1].as_slice());
    let ik = match b64::decode(ik_text.as_str()) {
        Ok(v) => v,
        Err(reason) => {
            return Err(DirectoryError::BadBase64 { line: n, field: "ik", reason });
        },
    };
    let seal_text = text::string_of(w[2].as_slice());
    let seal_pub = match b64::decode(seal_text.as_str()) {
        Ok(v) => v,
        Err(reason) => {
            return Err(DirectoryError::BadBase64 { line: n, field: "seal", reason });
        },
    };
    Ok(Some((text::string_of(w[0].as_slice()), RecipientKey { ik, seal_pub })))
}

/// A directory that was read from a file.
pub struct FileDirectory {
    inner: InMemoryDirectory,
}

impl View for FileDirectory {
    type V = DirectoryModel;

    closed spec fn view(&self) -> DirectoryModel {
        self.inner@
    }
}

impl FileDirectory {
    /// Reads a directory from the text of a file, or from the reason why there is none.
    pub fn from_text(path: &str, text: Result<String, String>) -> (r: Result<Self, DirectoryError>)
        ensures
            model::res_view(r) == (match text {
                Ok(t) => parsed(text::lines(t@), 1, DirectoryModel::empty()),
                Err(reason) => Err(DirectoryErrorModel::Io { path: path@, reason: reason@ }),
            }),
    {
        match text {
            Ok(t) => match InMemoryDirectory::parse(t.as_str()) {
                Ok(inner) => Ok(FileDirectory { inner }),
                Err(e) => Err(e),
            },
            Err(reason) => Err(DirectoryError::Io { path: text::string_from(path), reason }),
        }
    }

    /// The number of recipients.
    pub fn len(&self) -> (r: usize)
        ensures
            self@.dom().finite(),
            r == self@.dom().len(),
    {
        self.inner.len()
    }

    /// Whether there is no recipient.
    pub fn is_empty(&self) -> (r: bool)
        ensures
            r == (self@ == DirectoryModel::empty()),
    {
        self.inner.is_empty()
    }

    /// The recipients, each once, in no particular order.
    pub fn iter(&self) -> (r: Vec<(String, RecipientKey)>)
        ensures
            lists_directory(r@, self@),
    {
        self.inner.iter()
    }
}

impl KeyDirectory for FileDirectory {
    open spec fn may_resolve(&self, rcpt: Seq<char>, key: Option<RecipientModel>) -> bool {
        key == lookup(self@, rcpt)
    }

    fn resolve(&self, rcpt: &str) -> (r: Option<RecipientKey>) {
        self.inner.resolve(rcpt)
    }
}

// ---- laws --------------------------------------------------------------------------------------

/// A recipient is found under any case of its address, and nobody else is by adding it.
pub proof fn law_lookup_ignores_case(
    d: DirectoryModel,
    email: Seq<char>,
    key: RecipientModel,
    rcpt: Seq<char>,
)
    ensures
        address_key(rcpt) == address_key(email) ==> lookup(
            d.insert(address_key(email), key),
            rcpt,
        ) == Some(key),
        address_key(rcpt) != address_key(email) ==> lookup(
            d.insert(address_key(email), key),
            rcpt,
        ) == lookup(d, rcpt),
{
}

/// A recipient that was removed is not found.
pub proof fn law_removed_is_not_found(d: DirectoryModel, email: Seq<char>)
    ensures
        lookup(d.remove(address_key(email)), email) is None,
{
}

/// A file with one bad line is refused, whatever the lines before it are.
pub proof fn law_bad_line_refuses_the_file(
    lines: Seq<Seq<char>>,
    n: nat,
    d: DirectoryModel,
    i: int,
)
    requires
        0 <= i < lines.len(),
        line_entry(lines[i], (n + i) as nat) is Err,
    ensures
        parsed(lines, n, d) is Err,
    decreases lines.len(),
{
    if i > 0 {
        assert(lines.skip(1)[i - 1] == lines[i]);
        match line_entry(lines[0], n) {
            Err(_) => {},
            Ok(None) => {
                law_bad_line_refuses_the_file(lines.skip(1), n + 1, d, i - 1);
            },
            Ok(Some((email, key))) => {
                law_bad_line_refuses_the_file(
                    lines.skip(1),
                    n + 1,
                    d.insert(address_key(email), key),
                    i - 1,
                );
            },
        }
    }
}

/// A line of an address, an identity key and a sealing key in base64 is the entry of that address, with
/// or without a comment behind it.
pub proof fn law_line_is_an_entry(
    addr: Seq<char>,
    ik: Seq<u8>,
    seal_pub: Seq<u8>,
    comment: Seq<char>,
    n: nat,
)
    requires
        addr.contains('@'),
        !addr.contains('#'),
        forall|i: int| 0 <= i < addr.len() ==> !text::is_white(#[trigger] addr[i]),
        ik.len() > 0,
        seal_pub.len() > 0,
    ensures
        ({
            let line = addr + seq![' '] + b64::encoding(ik) + seq![' '] + b64::encoding(seal_pub);
            let entry = Ok::<Option<(Seq<char>, RecipientModel)>, DirectoryErrorModel>(
                Some((addr, RecipientModel { ik, seal_pub })),
            );
            &&& line_entry(line, n) == entry
            &&& line_entry(line + seq![' ', '#'] + comment, n) == entry
        }),
        line_entry(seq!['#'] + comment, n) == Ok::<
            Option<(Seq<char>, RecipientModel)>,
            DirectoryErrorModel,
        >(None),
        line_entry(Seq::<char>::empty(), n) == Ok::<
            Option<(Seq<char>, RecipientModel)>,
            DirectoryErrorModel,
        >(None),
{
    let none = Seq::<char>::empty();
    let x = b64::encoding(ik);
    let y = b64::encoding(seal_pub);
    let line = addr + seq![' '] + x + seq![' '] + y;
    b64::law_round_trip(ik);
    b64::law_round_trip(seal_pub);
    lemma_base64_word(ik);
    lemma_base64_word(seal_pub);
    assert(addr.len() > 0);
    assert(!line.contains('#')) by {
        assert forall|i: int| 0 <= i < line.len() implies line[i] != '#' by {
            if i < addr.len() {
                assert(line[i] == addr[i]);
            } else if i == addr.len() {
            } else if i < addr.len() + 1 + x.len() {
                assert(line[i] == x[i - addr.len() - 1]);
            } else if i == addr.len() + 1 + x.len() {
            } else {
                assert(line[i] == y[i - addr.len() - x.len() - 2]);
            }
        }
    }
    let t = line.push(' ');
    assert(!t.contains('#')) by {
        assert forall|i: int| 0 <= i < t.len() implies t[i] != '#' by {
            if i < line.len() {
                assert(t[i] == line[i]);
            }
        }
    }
    text::law_cut_at_the_first(line, '#', none);
    text::law_cut_at_the_first(t, '#', comment);
    assert(line + seq![' ', '#'] + comment =~= t + seq!['#'] + comment);
    assert(line[0] == addr[0]);
    assert(line.last() == y[y.len() - 1]);
    text::law_trim_takes_the_ends(none, line, none);
    text::law_trim_takes_the_ends(none, line, seq![' ']);
    assert(none + line + none =~= line);
    assert(none + line + seq![' '] =~= t);
    // The words.
    let r1 = seq![' '] + x + (seq![' '] + y);
    let r2 = seq![' '] + y + none;
    text::law_words_are_the_runs(none, addr, r1);
    assert(none + addr + r1 =~= line);
    text::law_words_are_the_runs(seq![' '], x, seq![' '] + y);
    text::law_words_are_the_runs(seq![' '], y, none);
    assert(r2 =~= seq![' '] + y);
    text::law_words_are_the_runs(none, addr, none);
    let w = seq![addr] + (seq![x] + (seq![y] + Seq::<Seq<char>>::empty()));
    assert(text::words(none) =~= Seq::<Seq<char>>::empty());
    assert(text::words(line) =~= w);
    assert(w.len() == 3 && w[0] == addr && w[1] == x && w[2] == y);
    // Nothing before a comment.
    text::law_cut_at_the_first(none, '#', comment);
    assert(none + seq!['#'] + comment =~= seq!['#'] + comment);
    text::lemma_nothing_to_trim(none);
}

proof fn lemma_base64_word(b: Seq<u8>)
    requires
        b.len() > 0,
    ensures
        b64::encoding(b).len() > 0,
        forall|i: int|
            0 <= i < b64::encoding(b).len() ==> !text::is_white(#[trigger] b64::encoding(b)[i])
                && b64::encoding(b)[i] != '#',
{
    b64::law_alphabet_and_length(b);
    let e = b64::encoding(b);
    assert forall|i: int| 0 <= i < e.len() implies !text::is_white(#[trigger] e[i]) && e[i] != '#' by {
        assert(b64::is_base64(e[i]));
    }
}

/// Lines are read one after the other: an entry is put under its address in any case, on top of what
/// was there for it, and the lines are counted.
pub proof fn law_lines_are_read_in_order(
    lines: Seq<Seq<char>>,
    line: Seq<char>,
    n: nat,
    d: DirectoryModel,
)
    ensures
        parsed(lines.push(line), n, d) == (match parsed(lines, n, d) {
            Err(e) => Err(e),
            Ok(before) => match line_entry(line, n + lines.len()) {
                Err(e) => Err(e),
                Ok(None) => Ok(before),
                Ok(Some((addr, key))) => Ok(before.insert(text::lower(text::trim(addr)), key)),
            },
        }),
        parsed(Seq::<Seq<char>>::empty(), n, d) == Ok::<DirectoryModel, DirectoryErrorModel>(d),
    decreases lines.len(),
{
    let all = lines.push(line);
    if lines.len() == 0 {
        reveal_with_fuel(parsed, 2);
        assert(all.skip(1) =~= lines);
    } else {
        assert(all[0] == lines[0]);
        assert(all.skip(1) =~= lines.skip(1).push(line));
        match line_entry(lines[0], n) {
            Err(_) => {},
            Ok(None) => {
                law_lines_are_read_in_order(lines.skip(1), line, n + 1, d);
            },
            Ok(Some((addr, key))) => {
                law_lines_are_read_in_order(
                    lines.skip(1),
                    line,
                    n + 1,
                    d.insert(address_key(addr), key),
                );
            },
        }
    }
}

/// A recipient is looked up under its address without white space around it, in any case.
pub proof fn law_what_a_lookup_finds(d: DirectoryModel, rcpt: Seq<char>)
    ensures
        d.contains_key(text::lower(text::trim(rcpt))) ==> lookup(d, rcpt) == Some(
            d[text::lower(text::trim(rcpt))],
        ),
        !d.contains_key(text::lower(text::trim(rcpt))) ==> lookup(d, rcpt) is None,
{
}

/// A listing of a directory has each of its addresses once, with the keys of that address.
pub proof fn law_listing_is_the_directory(
    v: Seq<(String, RecipientKey)>,
    d: DirectoryModel,
    k: Seq<char>,
    i: int,
    j: int,
)
    requires
        lists_directory(v, d),
    ensures
        0 <= i < v.len() ==> d.contains_key(v[i].0@) && d[v[i].0@] == v[i].1@,
        0 <= i < v.len() && 0 <= j < v.len() && i != j ==> v[i].0@ != v[j].0@,
        d.contains_key(k) ==> exists|n: int| 0 <= n < v.len() && (#[trigger] v[n]).0@ == k,
{
}

} // verus!
