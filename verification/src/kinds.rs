//! The kinds of coordinator.

use crate::text;
use crate::visibility::{AssuranceLevel, ContentVisibility, VisibilityClass};
use vstd::prelude::*;

verus! {

/// A kind of coordinator.
#[derive(Clone, Copy, PartialEq, Eq, Hash, Debug, Structural)]
pub enum CoordinatorKind {
    Gateway,
    Relay,
    MediaRelay,
    ReachabilityAdapter,
    Indexer,
    Labeler,
    Matcher,
    Compute,
    Arbiter,
    Oracle,
    CustodialEscrow,
}

/// The name of a kind.
pub open spec fn kind_label(k: CoordinatorKind) -> Seq<char> {
    match k {
        CoordinatorKind::Gateway => "gateway"@,
        CoordinatorKind::Relay => "relay"@,
        CoordinatorKind::MediaRelay => "media-relay"@,
        CoordinatorKind::ReachabilityAdapter => "reachability-adapter"@,
        CoordinatorKind::Indexer => "indexer"@,
        CoordinatorKind::Labeler => "labeler"@,
        CoordinatorKind::Matcher => "matcher"@,
        CoordinatorKind::Compute => "compute"@,
        CoordinatorKind::Arbiter => "arbiter"@,
        CoordinatorKind::Oracle => "oracle"@,
        CoordinatorKind::CustodialEscrow => "custodial-escrow"@,
    }
}

/// The kind with a name.
pub open spec fn kind_named(s: Seq<char>) -> Option<CoordinatorKind> {
    if s == "gateway"@ {
        Some(CoordinatorKind::Gateway)
    } else if s == "relay"@ {
        Some(CoordinatorKind::Relay)
    } else if s == "media-relay"@ {
        Some(CoordinatorKind::MediaRelay)
    } else if s == "reachability-adapter"@ {
        Some(CoordinatorKind::ReachabilityAdapter)
    } else if s == "indexer"@ {
        Some(CoordinatorKind::Indexer)
    } else if s == "labeler"@ {
        Some(CoordinatorKind::Labeler)
    } else if s == "matcher"@ {
        Some(CoordinatorKind::Matcher)
    } else if s == "compute"@ {
        Some(CoordinatorKind::Compute)
    } else if s == "arbiter"@ {
        Some(CoordinatorKind::Arbiter)
    } else if s == "oracle"@ {
        Some(CoordinatorKind::Oracle)
    } else if s == "custodial-escrow"@ {
        Some(CoordinatorKind::CustodialEscrow)
    } else {
        None
    }
}

/// The visibility that a kind usually declares, where there is one.
pub open spec fn usual_visibility(k: CoordinatorKind) -> Option<ContentVisibility> {
    match k {
        CoordinatorKind::Relay => Some(
            ContentVisibility { class: VisibilityClass::Blind, level: AssuranceLevel::ByConstruction },
        ),
        CoordinatorKind::MediaRelay | CoordinatorKind::ReachabilityAdapter => Some(
            ContentVisibility {
                class: VisibilityClass::BlindRouting,
                level: AssuranceLevel::ByConstruction,
            },
        ),
        CoordinatorKind::Indexer | CoordinatorKind::Labeler => None,
        _ => Some(
            ContentVisibility { class: VisibilityClass::Terminating, level: AssuranceLevel::Declared },
        ),
    }
}

/// Whether a kind controls reachability that is scarce.
pub open spec fn scarce_reachability(k: CoordinatorKind) -> bool {
    k == CoordinatorKind::Gateway || k == CoordinatorKind::ReachabilityAdapter
}

impl CoordinatorKind {
    /// The name of the kind.
    pub fn as_str(self) -> (r: &'static str)
        ensures
            r@ == kind_label(self),
    {
        match self {
            CoordinatorKind::Gateway => "gateway",
            CoordinatorKind::Relay => "relay",
            CoordinatorKind::MediaRelay => "media-relay",
            CoordinatorKind::ReachabilityAdapter => "reachability-adapter",
            CoordinatorKind::Indexer => "indexer",
            CoordinatorKind::Labeler => "labeler",
            CoordinatorKind::Matcher => "matcher",
            CoordinatorKind::Compute => "compute",
            CoordinatorKind::Arbiter => "arbiter",
            CoordinatorKind::Oracle => "oracle",
            CoordinatorKind::CustodialEscrow => "custodial-escrow",
        }
    }

    /// The visibility that the kind usually declares. An indexer and a labeler work on public
    /// content, so there is none.
    pub fn typical_visibility(self) -> (r: Option<ContentVisibility>)
        ensures
            r == usual_visibility(self),
    {
        match self {
            // The legacy leg is plaintext: a disclosed trust boundary.
            CoordinatorKind::Gateway => Some(
                ContentVisibility::new(VisibilityClass::Terminating, AssuranceLevel::Declared),
            ),
            CoordinatorKind::Relay => Some(
                ContentVisibility::new(VisibilityClass::Blind, AssuranceLevel::ByConstruction),
            ),
            // The media is sealed; what routes each frame is visible.
            CoordinatorKind::MediaRelay => Some(
                ContentVisibility::new(VisibilityClass::BlindRouting, AssuranceLevel::ByConstruction),
            ),
            // Structural for a name of one's own domain, which is the recommended profile.
            CoordinatorKind::ReachabilityAdapter => Some(
                ContentVisibility::new(VisibilityClass::BlindRouting, AssuranceLevel::ByConstruction),
            ),
            CoordinatorKind::Indexer => None,
            CoordinatorKind::Labeler => None,
            CoordinatorKind::Matcher => Some(
                ContentVisibility::new(VisibilityClass::Terminating, AssuranceLevel::Declared),
            ),
            CoordinatorKind::Compute => Some(
                ContentVisibility::new(VisibilityClass::Terminating, AssuranceLevel::Declared),
            ),
            CoordinatorKind::Arbiter => Some(
                ContentVisibility::new(VisibilityClass::Terminating, AssuranceLevel::Declared),
            ),
            CoordinatorKind::Oracle => Some(
                ContentVisibility::new(VisibilityClass::Terminating, AssuranceLevel::Declared),
            ),
            CoordinatorKind::CustodialEscrow => Some(
                ContentVisibility::new(VisibilityClass::Terminating, AssuranceLevel::Declared),
            ),
        }
    }

    /// Whether the kind cannot fade away: custodial escrow alone holds what others own.
    pub fn is_load_bearing_exception(self) -> (r: bool)
        ensures
            r == (self == CoordinatorKind::CustodialEscrow),
    {
        matches!(self, CoordinatorKind::CustodialEscrow)
    }

    /// The kind with a name.
    pub fn from_wire_str(s: &str) -> (r: Option<Self>)
        ensures
            r == kind_named(s@),
    {
        if text::same_str(s, "gateway") {
            Some(CoordinatorKind::Gateway)
        } else if text::same_str(s, "relay") {
            Some(CoordinatorKind::Relay)
        } else if text::same_str(s, "media-relay") {
            Some(CoordinatorKind::MediaRelay)
        } else if text::same_str(s, "reachability-adapter") {
            Some(CoordinatorKind::ReachabilityAdapter)
        } else if text::same_str(s, "indexer") {
            Some(CoordinatorKind::Indexer)
        } else if text::same_str(s, "labeler") {
            Some(CoordinatorKind::Labeler)
        } else if text::same_str(s, "matcher") {
            Some(CoordinatorKind::Matcher)
        } else if text::same_str(s, "compute") {
            Some(CoordinatorKind::Compute)
        } else if text::same_str(s, "arbiter") {
            Some(CoordinatorKind::Arbiter)
        } else if text::same_str(s, "oracle") {
            Some(CoordinatorKind::Oracle)
        } else if text::same_str(s, "custodial-escrow") {
            Some(CoordinatorKind::CustodialEscrow)
        } else {
            None
        }
    }

    /// Whether the kind controls reachability that is scarce: a gateway its mail exchanger, an
    /// adapter its zone.
    pub fn is_scarce_reachability(self) -> (r: bool)
        ensures
            r == scarce_reachability(self),
    {
        matches!(self, CoordinatorKind::Gateway | CoordinatorKind::ReachabilityAdapter)
    }
}

/// A kind is the one that its name names.
pub proof fn law_kind_round_trips(k: CoordinatorKind)
    ensures
        kind_named(kind_label(k)) == Some(k),
{
    reveal_strlit("gateway");
    reveal_strlit("relay");
    reveal_strlit("media-relay");
    reveal_strlit("reachability-adapter");
    reveal_strlit("indexer");
    reveal_strlit("labeler");
    reveal_strlit("matcher");
    reveal_strlit("compute");
    reveal_strlit("arbiter");
    reveal_strlit("oracle");
    reveal_strlit("custodial-escrow");
    // The names differ in their lengths or in their first letters.
    assert("relay"@.len() == 5 && "oracle"@.len() == 6 && "media-relay"@.len() == 11
        && "custodial-escrow"@.len() == 16 && "reachability-adapter"@.len() == 20);
    assert("gateway"@.len() == 7 && "indexer"@.len() == 7 && "labeler"@.len() == 7
        && "matcher"@.len() == 7 && "compute"@.len() == 7 && "arbiter"@.len() == 7);
    assert("gateway"@[0] == 'g' && "indexer"@[0] == 'i' && "labeler"@[0] == 'l' && "matcher"@[0]
        == 'm' && "compute"@[0] == 'c' && "arbiter"@[0] == 'a');
}

/// A kind has the name that names it, and no other.
pub proof fn law_kind_name_is_its_label(s: Seq<char>)
    ensures
        kind_named(s) matches Some(k) ==> kind_label(k) == s,
{
}

/// Only a relay, a media relay and an adapter are blind by construction.
pub proof fn law_blind_kinds(k: CoordinatorKind)
    ensures
        usual_visibility(k) matches Some(v) ==> (crate::visibility::verifiably_blind(v) <==> k
            == CoordinatorKind::Relay || k == CoordinatorKind::MediaRelay || k
            == CoordinatorKind::ReachabilityAdapter),
{
}

/// What the kinds are called.
pub proof fn law_names_of_the_kinds()
    ensures
        kind_named("gateway"@) == Some(CoordinatorKind::Gateway),
        kind_named("relay"@) == Some(CoordinatorKind::Relay),
        kind_named("media-relay"@) == Some(CoordinatorKind::MediaRelay),
        kind_named("reachability-adapter"@) == Some(CoordinatorKind::ReachabilityAdapter),
        kind_named("indexer"@) == Some(CoordinatorKind::Indexer),
        kind_named("labeler"@) == Some(CoordinatorKind::Labeler),
        kind_named("matcher"@) == Some(CoordinatorKind::Matcher),
        kind_named("compute"@) == Some(CoordinatorKind::Compute),
        kind_named("arbiter"@) == Some(CoordinatorKind::Arbiter),
        kind_named("oracle"@) == Some(CoordinatorKind::Oracle),
        kind_named("custodial-escrow"@) == Some(CoordinatorKind::CustodialEscrow),
{
    law_kind_round_trips(CoordinatorKind::Gateway);
    law_kind_round_trips(CoordinatorKind::Relay);
    law_kind_round_trips(CoordinatorKind::MediaRelay);
    law_kind_round_trips(CoordinatorKind::ReachabilityAdapter);
    law_kind_round_trips(CoordinatorKind::Indexer);
    law_kind_round_trips(CoordinatorKind::Labeler);
    law_kind_round_trips(CoordinatorKind::Matcher);
    law_kind_round_trips(CoordinatorKind::Compute);
    law_kind_round_trips(CoordinatorKind::Arbiter);
    law_kind_round_trips(CoordinatorKind::Oracle);
    law_kind_round_trips(CoordinatorKind::CustodialEscrow);
}

/// What each kind usually sees: a relay nothing, by construction; a media relay and a reachability
/// adapter only where to route, by construction; an indexer and a labeler nothing that could be said
/// of all of them; and every other kind all of it, as it declares. Reachability is scarce for a gateway
/// and a reachability adapter, and for no other kind.
pub proof fn law_what_each_kind_sees(k: CoordinatorKind)
    ensures
        usual_visibility(k) is None <==> k == CoordinatorKind::Indexer || k
            == CoordinatorKind::Labeler,
        usual_visibility(k) matches Some(v) ==> {
            &&& v.class == VisibilityClass::Blind <==> k == CoordinatorKind::Relay
            &&& v.class == VisibilityClass::BlindRouting <==> k == CoordinatorKind::MediaRelay || k
                == CoordinatorKind::ReachabilityAdapter
            &&& v.class == VisibilityClass::Terminating <==> v.level == AssuranceLevel::Declared
            &&& v.class != VisibilityClass::Terminating <==> v.level
                == AssuranceLevel::ByConstruction
        },
        scarce_reachability(k) <==> k == CoordinatorKind::Gateway || k
            == CoordinatorKind::ReachabilityAdapter,
{
}

} // verus!
