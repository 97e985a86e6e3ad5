//! Checking that a coordinator has something at stake.
//!
//! A stake is looked up where it is held. A claim that cannot be checked counts as no stake.

use vstd::prelude::*;

verus! {

/// Looks a stake up where it is held.
pub trait StakeVerifier {
    /// What may go wrong with a look-up.
    type Error;

    /// Whether the look-up may give the result.
    open spec fn may_answer(
        &self,
        identity: Seq<u8>,
        asset: Seq<char>,
        minimum: u64,
        answer: Result<bool, Self::Error>,
    ) -> bool {
        true
    }

    /// Whether an identity has at least `minimum` of an asset at stake. What cannot be checked is
    /// `Ok(false)` or an error.
    fn verify_stake(&self, identity: &[u8], asset: &str, minimum: u64) -> (r: Result<
        bool,
        Self::Error,
    >)
        ensures
            self.may_answer(identity@, asset@, minimum, r),
    ;
}

/// Where nothing is looked up: no claim can be checked, so none counts.
#[derive(Clone, Copy, Debug, Default)]
pub struct NoStakeRail;

impl StakeVerifier for NoStakeRail {
    type Error = std::convert::Infallible;

    open spec fn may_answer(
        &self,
        identity: Seq<u8>,
        asset: Seq<char>,
        minimum: u64,
        answer: Result<bool, std::convert::Infallible>,
    ) -> bool {
        answer == Ok::<bool, std::convert::Infallible>(false)
    }

    fn verify_stake(&self, _identity: &[u8], _asset: &str, _minimum: u64) -> (r: Result<
        bool,
        std::convert::Infallible,
    >) {
        Ok(false)
    }
}

} // verus!
