use kotva_core::mote::SealKeypair;
use std::time::Duration;
use wakala::attestation::{Attestation, AttestationKey};
use wakala::identity::{random_seed, IdentityKey};
use wakala::inbound::{DeliveryOutcome, MeshDelivery};
use wakala::mesh::{header_safe, outcome_of, HttpMeshDelivery, MeshConfigError, NullMesh};
use wakala::mote::{seal_mail, SealedMote};

#[test]
fn parses_endpoints() {
    let d = HttpMeshDelivery::new("http://127.0.0.1:8646/dmtap/ingest").unwrap();
    assert_eq!(d.host, "127.0.0.1");
    assert_eq!(d.port, 8646);
    assert_eq!(d.path, "/dmtap/ingest");
    assert_eq!(d.authority(), "127.0.0.1:8646");

    let d = HttpMeshDelivery::new("http://node.local").unwrap();
    assert_eq!(d.port, 80);
    assert_eq!(d.path, "/");
}

#[test]
fn rejects_malformed_endpoints() {
    assert!(matches!(
        HttpMeshDelivery::new("https://node/ingest"),
        Err(MeshConfigError::UnsupportedScheme(_))
    ));
    assert!(matches!(
        HttpMeshDelivery::new("http:///ingest"),
        Err(MeshConfigError::MissingHost(_))
    ));
    assert!(matches!(
        HttpMeshDelivery::new("http://host:notaport/ingest"),
        Err(MeshConfigError::BadPort(_))
    ));
}

#[test]
fn header_safe_strips_crlf_injection() {
    assert_eq!(header_safe("a@b.com\r\nX-Evil: 1"), "a@b.comX-Evil: 1");
}

#[test]
fn unreachable_ingest_is_a_noack_never_a_false_ack() {
    let d = HttpMeshDelivery::new("http://127.0.0.1:1/ingest")
        .unwrap()
        .with_timeouts(Duration::from_millis(200), Duration::from_millis(200));
    let env = sample_envelope();
    let att = sample_attestation(&env);
    assert!(d.request_head(&env, &att).starts_with("POST /ingest HTTP/1.1\r\n"));
    assert_eq!(outcome_of(None), DeliveryOutcome::NoAck);
}

#[test]
fn null_mesh_never_acks() {
    let env = sample_envelope();
    let att = sample_attestation(&env);
    let mut mesh = NullMesh;
    assert_eq!(mesh.deliver(&env, &att), DeliveryOutcome::NoAck);
}

fn sample_envelope() -> SealedMote {
    let gw = IdentityKey::generate().unwrap();
    let recip_ik = IdentityKey::generate().unwrap();
    let recip_seal = SealKeypair::generate();
    let seed = random_seed().unwrap();
    seal_mail(&gw, &seed, &recip_ik.public(), recip_seal.public(), b"body", 1_752_600_000_000)
        .expect("mote")
}

fn sample_attestation(env: &SealedMote) -> Attestation {
    AttestationKey::generate("example.org", "gw1").unwrap().attest(
        &env.id,
        "sender@gmail.com",
        "alice@example.org",
        1_752_600_000_000,
    )
}

#[test]
fn only_success_is_an_acknowledgement() {
    assert_eq!(outcome_of(Some(b"HTTP/1.1 200 OK")), DeliveryOutcome::Acked);
    assert_eq!(outcome_of(Some(b"HTTP/1.1 503 Busy")), DeliveryOutcome::NoAck);
    assert_eq!(outcome_of(Some(b"HTTP/1.1 202 Accepted")), DeliveryOutcome::Acked);
    assert_eq!(outcome_of(Some(b"HTTP/1.1 2 OK")), DeliveryOutcome::NoAck);
    assert_eq!(outcome_of(Some(b"HTTP/1.1 2000 OK")), DeliveryOutcome::NoAck);
    assert_eq!(outcome_of(Some(b"HTTP/1.1 2xx OK")), DeliveryOutcome::NoAck);
    assert_eq!(outcome_of(Some(b"")), DeliveryOutcome::NoAck);
}
