//! The ASCII spelling of a domain name on the DNS wire.
//!
//! A domain leaves the gateway as a DNS question, as a host to dial or as a TLS server name, and
//! all three are ASCII. [`domain_to_ascii`] is the one conversion for all of them. UTS 46
//! processing is the `idna` crate's, with the deny list of the URL standard, so that owner names
//! such as `_mta-sts.example.org` survive. That processing does not check lengths, so the limits of
//! DNS are enforced here: a name with no spelling on the wire is an error, never a truncated name.

use crate::model;
use crate::text;
use vstd::prelude::*;
use vstd::slice::slice_subrange;

verus! {

/// The longest label, in octets.
pub const MAX_LABEL: usize = 63;

/// The longest name, in octets, without the root dot.
pub const MAX_NAME: usize = 253;

/// Why a domain has no spelling on the DNS wire. Each variant names the offending input.
#[derive(Debug, Clone, PartialEq, Eq)]
pub enum IdnError {
    /// UTS 46 processing refused the name; the second field is its own message.
    NotConvertible(String, String),
    /// A label is longer than [`MAX_LABEL`] octets in its ASCII form.
    LabelTooLong(String, String),
    /// The name is longer than [`MAX_NAME`] octets in its ASCII form.
    NameTooLong(String),
}

/// [`IdnError`] with its texts as sequences.
pub enum IdnErrorModel {
    NotConvertible(Seq<char>, Seq<char>),
    LabelTooLong(Seq<char>, Seq<char>),
    NameTooLong(Seq<char>),
}

impl View for IdnError {
    type V = IdnErrorModel;

    open spec fn view(&self) -> IdnErrorModel {
        match *self {
            IdnError::NotConvertible(d, m) => IdnErrorModel::NotConvertible(d@, m@),
            IdnError::LabelTooLong(d, l) => IdnErrorModel::LabelTooLong(d@, l@),
            IdnError::NameTooLong(d) => IdnErrorModel::NameTooLong(d@),
        }
    }
}

/// What `idna::domain_to_ascii_cow` gives for a domain under `AsciiDenyList::URL`: the ASCII form,
/// or the text of its error.
pub uninterp spec fn idna_to_ascii(domain: Seq<char>) -> Result<Seq<char>, Seq<char>>;

/// `idna::domain_to_ascii_cow` with `AsciiDenyList::URL`. The result is a function of the domain
/// alone and is given the name [`idna_to_ascii`]; what UTS 46 maps a name to is not stated.
#[verifier::external_body]
fn uts46_to_ascii(domain: &str) -> (r: Result<String, String>)
    ensures
        model::res_view(r) == idna_to_ascii(domain@),
{
    match idna::domain_to_ascii_cow(domain.as_bytes(), idna::AsciiDenyList::URL) {
        Ok(a) => Ok(a.into_owned()),
        Err(e) => Err(e.to_string()),
    }
}

/// The number of octets of a text.
pub open spec fn octets(s: Seq<char>) -> nat {
    vstd::utf8::encode_utf8(s).len()
}

/// `s` without one trailing dot.
pub open spec fn without_root_dot(s: Seq<char>) -> Seq<char> {
    if s.len() > 0 && s.last() == '.' {
        s.drop_last()
    } else {
        s
    }
}

/// The first of the labels that is too long.
pub open spec fn first_long_label(labels: Seq<Seq<char>>) -> Option<Seq<char>>
    decreases labels.len(),
{
    if labels.len() == 0 {
        None
    } else if octets(labels[0]) > MAX_LABEL {
        Some(labels[0])
    } else {
        first_long_label(labels.skip(1))
    }
}

/// The ASCII spelling of `domain`, given what UTS 46 processing made of it.
pub open spec fn ascii_form(domain: Seq<char>, converted: Result<Seq<char>, Seq<char>>) -> Result<
    Seq<char>,
    IdnErrorModel,
> {
    match converted {
        Err(m) => Err(IdnErrorModel::NotConvertible(domain, m)),
        Ok(ascii) => {
            let bare = without_root_dot(ascii);
            if octets(bare) > MAX_NAME {
                Err(IdnErrorModel::NameTooLong(domain))
            } else {
                match first_long_label(text::split(bare, '.')) {
                    Some(l) => Err(IdnErrorModel::LabelTooLong(domain, l)),
                    None => Ok(ascii),
                }
            }
        },
    }
}

/// The number of octets of a slice of characters.
pub fn octet_count(s: &[char]) -> (n: usize)
    ensures
        n == octets(s@),
{
    let t = text::string_of(s);
    t.as_str().as_bytes().len()
}

/// Applies the limits of DNS to the outcome of UTS 46 processing.
pub fn check_ascii_form(domain: &str, converted: Result<String, String>) -> (r: Result<
    String,
    IdnError,
>)
    ensures
        model::res_view(r) == ascii_form(domain@, model::res_view(converted)),
{
    let ascii = match converted {
        Ok(a) => a,
        Err(m) => {
            return Err(IdnError::NotConvertible(text::string_from(domain), m));
        },
    };
    let chars = text::chars_of(ascii.as_str());
    let n: usize = if chars.len() > 0 && chars[chars.len() - 1] == '.' {
        chars.len() - 1
    } else {
        chars.len()
    };
    let bare = slice_subrange(chars.as_slice(), 0, n);
    assert(bare@ =~= without_root_dot(ascii@));
    if octet_count(bare) > MAX_NAME {
        return Err(IdnError::NameTooLong(text::string_from(domain)));
    }
    let labels = text::split_at_each(bare, '.');
    let ghost all = text::views(labels@);
    let mut i: usize = 0;
    assert(all.skip(0) =~= all);
    while i < labels.len()
        invariant
            i <= labels@.len(),
            all == text::views(labels@),
            model::res_view(converted) == Ok::<Seq<char>, Seq<char>>(ascii@),
            first_long_label(all) == first_long_label(all.skip(i as int)),
            ascii_form(domain@, Ok(ascii@)) == (match first_long_label(all) {
                Some(l) => Err(IdnErrorModel::LabelTooLong(domain@, l)),
                None => Ok::<Seq<char>, IdnErrorModel>(ascii@),
            }),
        decreases labels@.len() - i,
    {
        assert(all.skip(i as int)[0] == labels@[i as int]@);
        if octet_count(labels[i].as_slice()) > MAX_LABEL {
            return Err(
                IdnError::LabelTooLong(text::string_from(domain), text::string_of(labels[i].as_slice())),
            );
        }
        assert(all.skip(i as int).skip(1) =~= all.skip(i + 1));
        i += 1;
    }
    Ok(ascii)
}

/// The lower-case ASCII form of `domain`, or why it has none.
pub fn domain_to_ascii(domain: &str) -> (r: Result<String, IdnError>)
    ensures
        model::res_view(r) == ascii_form(domain@, idna_to_ascii(domain@)),
{
    let converted = uts46_to_ascii(domain);
    check_ascii_form(domain, converted)
}

// ---- laws --------------------------------------------------------------------------------------

proof fn lemma_first_long(labels: Seq<Seq<char>>)
    ensures
        match first_long_label(labels) {
            Some(l) => exists|i: int|
                0 <= i < labels.len() && #[trigger] labels[i] == l && octets(l) > MAX_LABEL,
            None => forall|i: int|
                0 <= i < labels.len() ==> octets(#[trigger] labels[i]) <= MAX_LABEL,
        },
    decreases labels.len(),
{
    if labels.len() > 0 {
        if octets(labels[0]) > MAX_LABEL {
            assert(labels[0] == first_long_label(labels)->0);
        } else {
            let rest = labels.skip(1);
            lemma_first_long(rest);
            match first_long_label(rest) {
                Some(l) => {
                    let i = choose|i: int|
                        0 <= i < rest.len() && #[trigger] rest[i] == l && octets(l) > MAX_LABEL;
                    assert(labels[i + 1] == l);
                },
                None => {
                    assert forall|i: int| 0 <= i < labels.len() implies octets(#[trigger] labels[i])
                        <= MAX_LABEL by {
                        if i > 0 {
                            assert(rest[i - 1] == labels[i]);
                        }
                    }
                },
            }
        }
    }
}

/// The ASCII form of a domain is what it is converted to, if that has at most 253 octets, a dot at its
/// end aside, and no label of more than 63; else the reason names the domain.
pub proof fn law_which_names_fit_the_wire(
    domain: Seq<char>,
    converted: Result<Seq<char>, Seq<char>>,
)
    ensures
        converted matches Err(m) ==> ascii_form(domain, converted) == Err::<
            Seq<char>,
            IdnErrorModel,
        >(IdnErrorModel::NotConvertible(domain, m)),
        converted matches Ok(a) ==> {
            let bare = if a.len() > 0 && a.last() == '.' {
                a.drop_last()
            } else {
                a
            };
            let labels = text::split(bare, '.');
            match ascii_form(domain, converted) {
                Ok(r) => r == a && vstd::utf8::encode_utf8(bare).len() <= 253 && forall|i: int|
                    0 <= i < labels.len() ==> vstd::utf8::encode_utf8(#[trigger] labels[i]).len()
                        <= 63,
                Err(IdnErrorModel::NameTooLong(d)) => d == domain && vstd::utf8::encode_utf8(
                    bare,
                ).len() > 253,
                Err(IdnErrorModel::LabelTooLong(d, l)) => d == domain && labels.contains(l)
                    && vstd::utf8::encode_utf8(l).len() > 63,
                Err(_) => false,
            }
        },
{
    if converted is Ok {
        let bare = without_root_dot(converted->Ok_0);
        lemma_first_long(text::split(bare, '.'));
    }
}

} // verus!
