use std::convert::Infallible;
use wakala::stake::{NoStakeRail, StakeVerifier};

#[test]
fn no_stake_rail_never_verifies_any_claim() {
    let rail = NoStakeRail;
    assert!(!rail.verify_stake(b"anyone", "USDC", 0).unwrap());
    assert!(!rail.verify_stake(b"anyone", "USDC", 1_000_000).unwrap());
}

struct FixedStakeRail {
    staked: u64,
}

impl StakeVerifier for FixedStakeRail {
    type Error = Infallible;

    fn verify_stake(
        &self,
        _identity: &[u8],
        _asset: &str,
        minimum: u64,
    ) -> Result<bool, Self::Error> {
        Ok(self.staked >= minimum)
    }
}

#[test]
fn a_real_rail_can_be_plugged_in_via_the_trait() {
    let rail = FixedStakeRail { staked: 5_000 };
    assert!(rail.verify_stake(b"arbiter-1", "USDC", 4_000).unwrap());
    assert!(!rail.verify_stake(b"arbiter-1", "USDC", 6_000).unwrap());
}
