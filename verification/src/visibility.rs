//! What a coordinator can see of the content that it handles, and how well that is assured.

use crate::text;
use vstd::prelude::*;

verus! {

/// What a coordinator sees of the content.
#[derive(Clone, Copy, PartialEq, Eq, Hash, Debug, Structural)]
pub enum VisibilityClass {
    /// Neither the content nor where it goes.
    Blind,
    /// Where the content goes, not the content.
    BlindRouting,
    /// The content.
    Terminating,
}

/// How the class is assured.
#[derive(Clone, Copy, PartialEq, Eq, Hash, Debug, Structural)]
pub enum AssuranceLevel {
    /// By construction: nothing else is possible.
    ByConstruction,
    /// By an attestation that can be checked.
    Attested,
    /// By the operator's word.
    Declared,
}

/// Whether a client can check a claim at this level.
pub open spec fn verifiable(level: AssuranceLevel) -> bool {
    level == AssuranceLevel::ByConstruction || level == AssuranceLevel::Attested
}

/// The name of a class.
pub open spec fn class_label(class: VisibilityClass) -> Seq<char> {
    match class {
        VisibilityClass::Blind => "blind"@,
        VisibilityClass::BlindRouting => "blind-routing"@,
        VisibilityClass::Terminating => "terminating"@,
    }
}

/// The name of a level.
pub open spec fn level_label(level: AssuranceLevel) -> Seq<char> {
    match level {
        AssuranceLevel::ByConstruction => "structural"@,
        AssuranceLevel::Attested => "attested"@,
        AssuranceLevel::Declared => "declared"@,
    }
}

/// The class with a name.
pub open spec fn class_named(s: Seq<char>) -> Option<VisibilityClass> {
    if s == class_label(VisibilityClass::Blind) {
        Some(VisibilityClass::Blind)
    } else if s == class_label(VisibilityClass::BlindRouting) {
        Some(VisibilityClass::BlindRouting)
    } else if s == class_label(VisibilityClass::Terminating) {
        Some(VisibilityClass::Terminating)
    } else {
        None
    }
}

/// The level with a name.
pub open spec fn level_named(s: Seq<char>) -> Option<AssuranceLevel> {
    if s == level_label(AssuranceLevel::ByConstruction) {
        Some(AssuranceLevel::ByConstruction)
    } else if s == level_label(AssuranceLevel::Attested) {
        Some(AssuranceLevel::Attested)
    } else if s == level_label(AssuranceLevel::Declared) {
        Some(AssuranceLevel::Declared)
    } else {
        None
    }
}

impl VisibilityClass {
    /// The name of the class.
    pub fn as_str(self) -> (r: &'static str)
        ensures
            r@ == class_label(self),
    {
        match self {
            VisibilityClass::Blind => "blind",
            VisibilityClass::BlindRouting => "blind-routing",
            VisibilityClass::Terminating => "terminating",
        }
    }

    /// The class with a name.
    pub fn from_wire_str(s: &str) -> (r: Option<Self>)
        ensures
            r == class_named(s@),
    {
        if text::same_str(s, "blind") {
            Some(VisibilityClass::Blind)
        } else if text::same_str(s, "blind-routing") {
            Some(VisibilityClass::BlindRouting)
        } else if text::same_str(s, "terminating") {
            Some(VisibilityClass::Terminating)
        } else {
            None
        }
    }
}

impl AssuranceLevel {
    /// The name of the level.
    pub fn as_str(self) -> (r: &'static str)
        ensures
            r@ == level_label(self),
    {
        match self {
            AssuranceLevel::ByConstruction => "structural",
            AssuranceLevel::Attested => "attested",
            AssuranceLevel::Declared => "declared",
        }
    }

    /// The level with a name.
    pub fn from_wire_str(s: &str) -> (r: Option<Self>)
        ensures
            r == level_named(s@),
    {
        if text::same_str(s, "structural") {
            Some(AssuranceLevel::ByConstruction)
        } else if text::same_str(s, "attested") {
            Some(AssuranceLevel::Attested)
        } else if text::same_str(s, "declared") {
            Some(AssuranceLevel::Declared)
        } else {
            None
        }
    }

    /// Whether a client can check a claim at this level.
    pub fn is_verifiable(self) -> (r: bool)
        ensures
            r == verifiable(self),
    {
        match self {
            AssuranceLevel::ByConstruction => true,
            AssuranceLevel::Attested => true,
            AssuranceLevel::Declared => false,
        }
    }
}

/// One class at one level.
#[derive(Clone, Copy, PartialEq, Eq, Hash, Debug, Structural)]
pub struct ContentVisibility {
    pub class: VisibilityClass,
    pub level: AssuranceLevel,
}

/// Whether a claim of blindness may be shown as verified.
pub open spec fn verifiably_blind(v: ContentVisibility) -> bool {
    v.class != VisibilityClass::Terminating && verifiable(v.level)
}

/// Whether a claim of blindness must not be shown as verified.
pub open spec fn unverified_blind(v: ContentVisibility) -> bool {
    v.class != VisibilityClass::Terminating && !verifiable(v.level)
}

impl ContentVisibility {
    pub fn new(class: VisibilityClass, level: AssuranceLevel) -> (r: Self)
        ensures
            r == (ContentVisibility { class, level }),
    {
        ContentVisibility { class, level }
    }

    /// Whether the content is hidden from the coordinator in a way that a client can check.
    pub fn is_verifiably_blind(self) -> (r: bool)
        ensures
            r == verifiably_blind(self),
    {
        self.class != VisibilityClass::Terminating && self.level.is_verifiable()
    }

    /// Whether the content is said to be hidden, on no more than the operator's word.
    pub fn must_not_present_as_verified(self) -> (r: bool)
        ensures
            r == unverified_blind(self),
    {
        self.class != VisibilityClass::Terminating && !self.level.is_verifiable()
    }

    /// The class and the level, in words.
    pub fn label(self) -> (r: String)
        ensures
            r@ == class_label(self.class) + " / "@ + level_label(self.level),
    {
        text::concat3(self.class.as_str(), " / ", self.level.as_str())
    }
}

/// A class and a level are the ones that their names name.
pub proof fn law_labels_round_trip(v: ContentVisibility)
    ensures
        class_named(class_label(v.class)) == Some(v.class),
        level_named(level_label(v.level)) == Some(v.level),
{
    reveal_strlit("blind");
    reveal_strlit("blind-routing");
    reveal_strlit("terminating");
    reveal_strlit("structural");
    reveal_strlit("attested");
    reveal_strlit("declared");
    assert("blind"@.len() == 5 && "blind-routing"@.len() == 13 && "terminating"@.len() == 11);
    assert("attested"@[0] != "declared"@[0]);
    assert("structural"@.len() == 10 && "attested"@.len() == 8 && "declared"@.len() == 8);
}

/// A class and a level have the names that name them, and no others.
pub proof fn law_names_name_labels(s: Seq<char>)
    ensures
        class_named(s) matches Some(c) ==> class_label(c) == s,
        level_named(s) matches Some(l) ==> level_label(l) == s,
{
}

/// A claim of blindness is either verified or not to be shown as verified, and what is disclosed as
/// readable is neither.
pub proof fn law_blindness_is_verified_or_not(v: ContentVisibility)
    ensures
        !(verifiably_blind(v) && unverified_blind(v)),
        v.class == VisibilityClass::Terminating <==> !verifiably_blind(v) && !unverified_blind(v),
{
}

/// What the classes and the levels are called, and which levels can be verified.
pub proof fn law_names_of_classes_and_levels(v: ContentVisibility)
    ensures
        class_named("blind"@) == Some(VisibilityClass::Blind),
        class_named("blind-routing"@) == Some(VisibilityClass::BlindRouting),
        class_named("terminating"@) == Some(VisibilityClass::Terminating),
        level_named("structural"@) == Some(AssuranceLevel::ByConstruction),
        level_named("attested"@) == Some(AssuranceLevel::Attested),
        level_named("declared"@) == Some(AssuranceLevel::Declared),
        verifiably_blind(v) <==> v.class != VisibilityClass::Terminating && v.level
            != AssuranceLevel::Declared,
        unverified_blind(v) <==> v.class != VisibilityClass::Terminating && v.level
            == AssuranceLevel::Declared,
{
    law_labels_round_trip(
        ContentVisibility { class: VisibilityClass::Blind, level: AssuranceLevel::ByConstruction },
    );
    law_labels_round_trip(
        ContentVisibility { class: VisibilityClass::BlindRouting, level: AssuranceLevel::Attested },
    );
    law_labels_round_trip(
        ContentVisibility { class: VisibilityClass::Terminating, level: AssuranceLevel::Declared },
    );
}

} // verus!
