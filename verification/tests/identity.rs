use wakala::identity::{ContentId, IdentityKey};

#[test]
fn a_key_is_the_one_of_its_seed() {
    let a = IdentityKey::from_seed(&[1u8; 32]);
    let b = IdentityKey::from_seed(&[1u8; 32]);
    let c = IdentityKey::from_seed(&[2u8; 32]);
    assert_eq!(a.public(), b.public());
    assert_ne!(a.public(), c.public());
    assert_ne!(a.public(), vec![1u8; 32]);
    assert_eq!(a.public().len(), 32);
    assert_eq!(a.sign_domain(b"x\0", b"m"), b.sign_domain(b"x\0", b"m"));
    assert_ne!(a.sign_domain(b"x\0", b"m"), a.sign_domain(b"y\0", b"m"));
    assert_eq!(a.sign_domain(b"x\0", b"m").len(), 64);
}

#[test]
fn fresh_keys_differ() {
    assert_ne!(IdentityKey::generate().unwrap().public(), IdentityKey::generate().unwrap().public());
}

#[test]
fn a_content_address_names_its_content() {
    let a = ContentId::of(b"one");
    assert_eq!(a.0.len(), 33);
    assert_eq!(a.0[0], 0x1e);
    assert_eq!(a.digest(), &a.0[1..]);
    assert_eq!(a, ContentId::of(b"one"));
    assert_ne!(a, ContentId::of(b"two"));
    assert_ne!(a.digest(), b"one");
}
