use wakala::admin::{
    ct_eq, decode_seed, parse_form, parse_target, AdminApi, AdminAuth, AdminRequest, HeadEvent,
    HeadReader,
};
use wakala::alias_map::AliasTarget;
use wakala::b64;
use wakala::identity::IdentityKey;
use wakala::multidomain::{MultiDomainGateway, UsageMeter};
use wakala::provenance::BridgeDirection;

const TOKEN: &str = "s3cret-admin-token";

fn api() -> AdminApi {
    AdminApi::new(MultiDomainGateway::new(), UsageMeter::new(), AdminAuth::with_token(TOKEN))
}

fn req(method: &str, path: &str, body: &str) -> AdminRequest {
    AdminRequest::new(method, path, Some(TOKEN.to_string()), body.as_bytes().to_vec(), 1_000)
}

#[test]
fn constant_time_auth_is_fail_closed() {
    assert!(!AdminAuth::disabled().authorize(Some("anything")));
    assert!(!AdminAuth::with_token("   ").authorize(Some("")));
    let a = AdminAuth::with_token(TOKEN);
    assert!(a.authorize(Some(TOKEN)));
    assert!(!a.authorize(Some("wrong")));
    assert!(!a.authorize(Some("")));
    assert!(!a.authorize(None));
    assert!(ct_eq(b"abc", b"abc"));
    assert!(!ct_eq(b"abc", b"abd"));
    assert!(!ct_eq(b"abc", b"ab"));
}

#[test]
fn every_endpoint_requires_a_valid_token() {
    let mut api = api();
    let r = api.handle(&AdminRequest::new("GET", "/v1/domains", None, vec![], 0));
    assert_eq!(r.status, 401);
    let r =
        api.handle(&AdminRequest::new("GET", "/v1/domains", Some("nope".into()), vec![], 0));
    assert_eq!(r.status, 401);
    let gw = MultiDomainGateway::new();
    let mut disabled = AdminApi::new(gw, UsageMeter::new(), AdminAuth::disabled());
    let r = disabled.handle(&AdminRequest::new(
        "GET",
        "/v1/domains",
        Some(TOKEN.into()),
        vec![],
        0,
    ));
    assert_eq!(r.status, 401);
}

#[test]
fn add_get_and_remove_a_domain() {
    let mut api = api();
    let r = api.handle(&req("POST", "/v1/domains", "domain=host.net&selector=sel1"));
    assert_eq!(r.status, 201, "{}", r.body);
    assert!(r.body.contains("\"dkim_public\""));
    assert!(r.body.contains("\"dkim_seed_b64\""));
    let r = api.handle(&req("POST", "/v1/domains", "domain=host.net"));
    assert_eq!(r.status, 409);
    let r = api.handle(&req("POST", "/v1/domains", "domain=not a domain"));
    assert_eq!(r.status, 400);
    let r = api.handle(&req("GET", "/v1/domains", ""));
    assert!(r.body.contains("host.net"));
    let r = api.handle(&req("GET", "/v1/domains/host.net", ""));
    assert_eq!(r.status, 200);
    assert!(r.body.contains("\"selector\":\"sel1\""));
    let r = api.handle(&req("DELETE", "/v1/domains/host.net", ""));
    assert_eq!(r.status, 200);
    let r = api.handle(&req("GET", "/v1/domains/host.net", ""));
    assert_eq!(r.status, 404);
}

#[test]
fn recipient_and_vanity_alias_lifecycle() {
    let mut api = api();
    api.handle(&req("POST", "/v1/domains", "domain=host.net"));
    let ik = IdentityKey::generate().unwrap().public();
    let ik_b64 = b64::encode(&ik);
    let seal_b64 = b64::encode(&[9u8; 32]);
    let r = api.handle(&req(
        "POST",
        "/v1/domains/host.net/recipients",
        &format!("email=alice@host.net&ik_b64={ik_b64}&seal_b64={seal_b64}"),
    ));
    assert_eq!(r.status, 201, "{}", r.body);
    let r = api.handle(&req(
        "POST",
        "/v1/domains/host.net/recipients",
        &format!("email=bob@other.net&ik_b64={ik_b64}&seal_b64={seal_b64}"),
    ));
    assert_eq!(r.status, 400);
    let vk = b64::encode(&IdentityKey::generate().unwrap().public());
    let r = api.handle(&req(
        "POST",
        "/v1/domains/host.net/aliases/vanity",
        &format!("key_b64={vk}&local_part=hello"),
    ));
    assert_eq!(r.status, 201, "{}", r.body);
    assert!(r.body.contains("hello@host.net"));
    let r = api.handle(&req(
        "POST",
        "/v1/domains/host.net/aliases/vanity",
        &format!("key_b64={vk}&local_part=alice"),
    ));
    assert_eq!(r.status, 409, "{}", r.body);
    let r = api.handle(&req(
        "DELETE",
        "/v1/domains/host.net/aliases/vanity",
        &format!("key_b64={vk}"),
    ));
    assert_eq!(r.status, 200);
}

#[test]
fn random_alias_mint_and_burn() {
    let mut api = api();
    api.handle(&req("POST", "/v1/domains", "domain=host.net"));
    let r = api.handle(&req(
        "POST",
        "/v1/domains/host.net/aliases/random",
        "target=native:imran@native.com&one_time=true",
    ));
    assert_eq!(r.status, 201, "{}", r.body);
    let addr = r.body.split("\"alias\":\"").nth(1).unwrap().split('"').next().unwrap();
    let token = addr.rsplit_once('@').unwrap().0;
    let r =
        api.handle(&req("DELETE", &format!("/v1/domains/host.net/aliases/random/{token}"), ""));
    assert_eq!(r.status, 200, "{}", r.body);
    let r = api.handle(&req(
        "DELETE",
        "/v1/domains/host.net/aliases/random/nevermintedtoken234",
        "",
    ));
    assert_eq!(r.status, 404);
    let r = api.handle(&req("POST", "/v1/domains/host.net/aliases/random", "target=bogus"));
    assert_eq!(r.status, 400);
}

#[test]
fn blocklist_suspend_quota_and_usage() {
    let mut api = api();
    api.handle(&req("POST", "/v1/domains", "domain=host.net"));
    let r = api.handle(&req("POST", "/v1/domains/host.net/blocklist", "sender=spam@evil.net"));
    assert_eq!(r.status, 200);
    let r = api.handle(&req("POST", "/v1/domains/host.net/suspend", "user=alice"));
    assert_eq!(r.status, 200);
    let r =
        api.handle(&req("PUT", "/v1/domains/host.net/quota", "quota_messages=5&quota_bytes=0"));
    assert_eq!(r.status, 200);
    assert_eq!(api.gateway.tenant("host.net").unwrap().quota().hard_cap_messages, 5);

    api.gateway
        .charge_relay(
            "host.net",
            BridgeDirection::Inbound,
            b"From: a@b\r\n\r\nx",
            1,
            &mut api.meter,
        )
        .unwrap();
    let r = api.handle(&req("GET", "/v1/usage", ""));
    assert_eq!(r.status, 200);
    assert!(r.body.contains("\"domain\":\"host.net\""));
    assert!(r.body.contains("\"inbound\":1"));
}

#[test]
fn unknown_path_404_and_wrong_method_405() {
    let mut api = api();
    assert_eq!(api.handle(&req("GET", "/v1/nope", "")).status, 404);
    assert_eq!(api.handle(&req("GET", "/v2/domains", "")).status, 404);
    assert_eq!(api.handle(&req("PUT", "/v1/domains", "")).status, 405);
}

#[test]
fn form_parse_keeps_base64_padding_and_special_chars() {
    let form = parse_form(b"ik_b64=AAA+bb/cc==&x=1");
    assert_eq!(form.field("ik_b64"), Some("AAA+bb/cc=="));
    assert_eq!(form.field("x"), Some("1"));
    let form = parse_form(b"a=1\nb=2\n");
    assert_eq!(form.field("a"), Some("1"));
    assert_eq!(form.field("b"), Some("2"));
}

#[test]
fn parse_target_forms() {
    assert!(matches!(parse_target("native:imran@d.com"), Ok(AliasTarget::Native { .. })));
    assert!(matches!(
        parse_target(&format!("identity:{}", b64::encode(&[1u8; 32]))),
        Ok(AliasTarget::Identity(_))
    ));
    assert!(parse_target("native:@d.com").is_err());
    assert!(parse_target("what").is_err());
}

#[test]
fn reading_changes_nothing() {
    let mut api = api();
    api.handle(&req("POST", "/v1/domains", "domain=host.net"));
    let before = api.handle(&req("GET", "/v1/domains", "")).body;
    api.handle(&req("GET", "/v1/domains/host.net", ""));
    api.handle(&req("GET", "/v1/usage", ""));
    assert_eq!(api.handle(&req("GET", "/v1/domains", "")).body, before);
}

#[test]
fn a_request_is_read_line_by_line() {
    let mut r = HeadReader::new();
    assert_eq!(r.feed(b"POST /v1/domains HTTP/1.1\r\n"), HeadEvent::More);
    assert_eq!(r.feed(b"Authorization: Bearer s3cret-admin-token\r\n"), HeadEvent::More);
    assert_eq!(r.feed(b"Content-Length: 15\r\n"), HeadEvent::More);
    assert_eq!(r.feed(b"\r\n"), HeadEvent::Complete);
    assert_eq!(r.content_length(), 15);
    let req = r.request(b"domain=host.net".to_vec(), 1).unwrap();
    assert_eq!((req.method.as_str(), req.path.as_str()), ("POST", "/v1/domains"));
    assert_eq!(req.token.as_deref(), Some(TOKEN));
    assert_eq!(api().handle(&req).status, 201);
}

#[test]
fn seeds_have_thirty_two_octets() {
    assert_eq!(decode_seed(&b64::encode(&[4u8; 32])), Ok([4u8; 32]));
    assert!(decode_seed(&b64::encode(&[4u8; 31])).is_err());
    assert!(decode_seed("!").is_err());
}
