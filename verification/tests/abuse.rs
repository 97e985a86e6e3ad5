use wakala::abuse::{AbuseDecision, AntiAbuse, Clock, ColdSenderGate, SystemClock};

/// A clock that stands still.
struct At(u64);

impl Clock for At {
    fn now_ms(&self) -> u64 {
        self.0
    }
}

const IP: &str = "203.0.113.7";
const FROM: &str = "bob@gmail.com";

fn code(d: AbuseDecision) -> u16 {
    match d {
        AbuseDecision::Accept => 250,
        AbuseDecision::Reject { code, .. } => code,
    }
}

#[test]
fn a_stranger_waits_and_is_accepted_on_a_patient_retry() {
    let mut g = ColdSenderGate::with_clock(At(0)).with_greylist(60_000, 3_600_000);
    assert_eq!(code(g.check_at(IP, FROM, 0)), 451);
    assert_eq!(code(g.check_at(IP, FROM, 59_999)), 451);
    assert_eq!(code(g.check_at(IP, FROM, 60_000)), 250);
    // Another sender at the same address is a stranger again.
    assert_eq!(code(g.check_at(IP, "eve@gmail.com", 60_000)), 451);
}

#[test]
fn a_first_attempt_is_forgotten_after_its_time() {
    let mut g = ColdSenderGate::with_clock(At(0)).with_greylist(60_000, 3_600_000);
    assert_eq!(code(g.check_at(IP, FROM, 0)), 451);
    assert_eq!(code(g.check_at(IP, FROM, 3_600_001)), 451);
}

#[test]
fn the_blocked_are_refused_even_where_they_are_known() {
    let mut g = ColdSenderGate::with_clock(At(0))
        .allow_sender("BOB@gmail.com")
        .block_ip_prefix("203.0.113.");
    assert_eq!(code(g.check_at(IP, FROM, 0)), 554);
    assert_eq!(code(g.check_at("198.51.100.1", FROM, 0)), 250);
    let mut g = ColdSenderGate::with_clock(At(0)).allow_ip_prefix("203.0.").block_sender(FROM);
    assert_eq!(code(g.check_at(IP, "BOB@GMAIL.com", 0)), 554);
    assert_eq!(code(g.check_at(IP, "carol@gmail.com", 0)), 250);
}

#[test]
fn an_address_sends_no_more_than_its_share() {
    let mut g =
        ColdSenderGate::with_clock(At(0)).with_greylist(0, 1_000_000).with_rate_limit(2, 10_000);
    assert_eq!(code(g.check_at(IP, FROM, 0)), 451);
    assert_eq!(code(g.check_at(IP, FROM, 1)), 250);
    assert_eq!(code(g.check_at(IP, FROM, 2)), 250);
    assert_eq!(code(g.check_at(IP, FROM, 3)), 451);
    assert_eq!(code(g.check_at(IP, FROM, 20_000)), 250);
}

#[test]
fn a_check_goes_by_the_clock() {
    let mut g = ColdSenderGate::with_clock(At(5)).with_greylist(0, 10);
    assert_eq!(code(g.check(IP, FROM)), 451);
    assert_eq!(code(g.check(IP, FROM)), 250);
    assert!(SystemClock.now_ms() > 1_600_000_000_000);
}

#[test]
fn a_used_up_share_notes_nobody() {
    let mut g =
        ColdSenderGate::with_clock(At(0)).with_greylist(0, 1_000_000).with_rate_limit(1, 10_000);
    assert_eq!(code(g.check_at(IP, FROM, 0)), 451);
    assert_eq!(code(g.check_at(IP, FROM, 1)), 250);
    // Put off for the share, not as a first attempt: it is still one later.
    assert_eq!(code(g.check_at(IP, "eve@gmail.com", 2)), 451);
    assert_eq!(code(g.check_at(IP, "eve@gmail.com", 20_000)), 451);
    assert_eq!(code(g.check_at(IP, "eve@gmail.com", 20_001)), 250);
}

#[test]
fn known_senders_use_up_no_share() {
    let mut g = ColdSenderGate::with_clock(At(0))
        .allow_sender("carol@gmail.com")
        .with_greylist(0, 1_000_000)
        .with_rate_limit(1, 10_000);
    assert_eq!(code(g.check_at(IP, FROM, 0)), 451);
    for t in 1..5 {
        assert_eq!(code(g.check_at(IP, "carol@gmail.com", t)), 250);
    }
    assert_eq!(code(g.check_at(IP, FROM, 5)), 250);
}

#[test]
fn pairs_of_address_and_sender_are_greylisted_apart() {
    let mut g = ColdSenderGate::with_clock(At(0)).with_greylist(60_000, 3_600_000);
    let other = "198.51.100.1";
    assert_eq!(code(g.check_at(IP, FROM, 0)), 451);
    assert_eq!(code(g.check_at(IP, FROM, 60_000)), 250);
    // The sender at another address, and another sender at the address, wait for themselves.
    assert_eq!(code(g.check_at(other, FROM, 60_000)), 451);
    assert_eq!(code(g.check_at(IP, "eve@gmail.com", 70_000)), 451);
    assert_eq!(code(g.check_at(other, FROM, 119_999)), 451);
    assert_eq!(code(g.check_at(other, FROM, 120_000)), 250);
    assert_eq!(code(g.check_at(IP, "eve@gmail.com", 129_999)), 451);
    assert_eq!(code(g.check_at(IP, "eve@gmail.com", 130_000)), 250);
    // And the first pair is still welcome.
    assert_eq!(code(g.check_at(IP, FROM, 130_000)), 250);
}
