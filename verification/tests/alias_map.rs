use wakala::alias_map::{AliasTarget, GatewayAliasError, GatewayAliasMap, TOKEN_ENTROPY_BYTES};

const BASE32_LOWER: &[u8; 32] = b"abcdefghijklmnopqrstuvwxyz234567";

fn native(local: &str, domain: &str) -> AliasTarget {
    AliasTarget::Native { local: local.to_string(), domain: domain.to_string() }
}

#[test]
fn mint_then_resolve_roundtrips() {
    let mut map = GatewayAliasMap::new();
    let target = native("imran", "mydomain.com");
    let alias = map.mint(target.clone()).unwrap();

    assert_eq!(map.resolve(&alias, 0), Ok(target.clone()));
    assert_eq!(map.resolve(&alias, 1_000), Ok(target));
}

#[test]
fn identity_target_roundtrips() {
    let mut map = GatewayAliasMap::new();
    let target = AliasTarget::Identity(vec![1, 2, 3, 4, 5]);
    let alias = map.mint(target.clone()).unwrap();
    assert_eq!(map.resolve(&alias, 0), Ok(target));
}

#[test]
fn missing_row_fails_closed_0x0605() {
    let mut map = GatewayAliasMap::new();
    let err = map.resolve("neverminted2345", 0).unwrap_err();
    assert_eq!(err, GatewayAliasError::Unmapped);
    assert_eq!(err.code(), 0x0605);
    let _live = map.mint(native("a", "b.com")).unwrap();
    assert_eq!(map.resolve("someothertoken", 0), Err(GatewayAliasError::Unmapped));
}

#[test]
fn expired_row_fails_closed_0x0605() {
    let mut map = GatewayAliasMap::new();
    let target = native("imran", "mydomain.com");
    let alias = map.mint_with(target.clone(), None, Some(1_000), false, 0).unwrap();

    assert_eq!(map.resolve(&alias, 999), Ok(target));
    let at = map.resolve(&alias, 1_000).unwrap_err();
    assert_eq!(at, GatewayAliasError::Unmapped);
    assert_eq!(at.code(), 0x0605);
    assert_eq!(map.resolve(&alias, 10_000), Err(GatewayAliasError::Unmapped));
}

#[test]
fn burned_row_fails_closed_0x0605() {
    let mut map = GatewayAliasMap::new();
    let alias = map.mint(native("imran", "mydomain.com")).unwrap();

    assert!(map.resolve(&alias, 0).is_ok());
    assert!(map.burn(&alias), "burn of a minted alias reports it existed");
    let err = map.resolve(&alias, 1).unwrap_err();
    assert_eq!(err, GatewayAliasError::Unmapped);
    assert_eq!(err.code(), 0x0605);

    assert!(!map.burn("nosuchtoken2345"));
}

#[test]
fn one_time_alias_burns_on_first_resolve() {
    let mut map = GatewayAliasMap::new();
    let target = native("throwaway", "mydomain.com");
    let alias = map.mint_with(target.clone(), None, None, true, 0).unwrap();

    assert_eq!(map.resolve(&alias, 0), Ok(target));
    assert_eq!(map.resolve(&alias, 0), Err(GatewayAliasError::Unmapped));
}

#[test]
fn two_mints_yield_distinct_unguessable_tokens() {
    let mut map = GatewayAliasMap::new();
    let a = map.mint(native("a", "x.com")).unwrap();
    let b = map.mint(native("b", "y.com")).unwrap();
    assert_ne!(a, b, "two mints must not collide");

    for token in [&a, &b] {
        assert_eq!(token.len(), (TOKEN_ENTROPY_BYTES * 8).div_ceil(5));
        assert!(!token.contains('.'), "random token must be dot-free");
        assert!(
            token.bytes().all(|c| BASE32_LOWER.contains(&c)),
            "token {token:?} must be base32-lowercase"
        );
    }
}

#[test]
fn many_mints_are_all_distinct() {
    let mut map = GatewayAliasMap::new();
    let mut seen = std::collections::HashSet::new();
    for _ in 0..2_000 {
        let t = map.mint(native("u", "example.com")).unwrap();
        assert!(seen.insert(t), "CSPRNG minted a duplicate token");
    }
    assert_eq!(map.len(), 2_000);
}

#[test]
fn correspondent_scope_is_recorded_and_hidden_when_dead() {
    let mut map = GatewayAliasMap::new();
    let alias = map.mint_with(
        native("imran", "mydomain.com"),
        Some("bob@gmail.com".into()),
        None,
        false,
        0,
    ).unwrap();
    assert_eq!(map.correspondent_of(&alias, 0), Some("bob@gmail.com"));
    map.burn(&alias);
    assert_eq!(map.correspondent_of(&alias, 0), None);
}

#[test]
fn saturating_ttl_never_wraps_to_early_expiry() {
    let mut map = GatewayAliasMap::new();
    let target = native("imran", "mydomain.com");
    let now = u64::MAX - 1;
    let alias = map.mint_with(target.clone(), None, Some(u64::MAX), false, now).unwrap();
    assert_eq!(map.resolve(&alias, now), Ok(target));
}

#[test]
fn unmapped_error_reports_return_sender_smtp_reply() {
    assert_eq!(GatewayAliasError::SMTP_CODE, 550);
    assert_eq!(GatewayAliasError::SMTP_ENHANCED_STATUS, "5.1.1");
}

#[test]
fn a_token_that_has_a_row_is_not_minted_again() {
    let mut map = GatewayAliasMap::new();
    assert!(map.mint_as("token", native("a", "x.com"), None, None, false, 0));
    assert!(!map.mint_as("token", native("b", "y.com"), None, None, false, 0));
    assert_eq!(map.resolve("token", 0), Ok(native("a", "x.com")));
    assert_eq!(map.len(), 1);
}
