use tiny2fa::{decode, generate, hotp, init, DecodeError, Error, KeyStore};

#[test]
fn round_trip_matches_direct_computation() {
    let mut store = KeyStore::default();
    init(&mut store, "work", "JBSWY3DPEHPK3PXP");

    let timestamp: u64 = 1111111109;
    let secret = decode("JBSWY3DPEHPK3PXP").expect("the key is valid base32");
    let expected = hotp(&secret, timestamp / 30) % 1_000_000;

    assert_eq!(generate(&store, "work", timestamp), Ok(expected));
}

#[test]
fn uninitialized_scope_yields_no_code() {
    let mut store = KeyStore::default();
    init(&mut store, "work", "JBSWY3DPEHPK3PXP");
    assert_eq!(generate(&store, "missing", 1111111109), Err(Error::UninitializedScope));
    assert_eq!(generate(&KeyStore::default(), "default", 0), Err(Error::UninitializedScope));
}

#[test]
fn invalid_secret_yields_decode_error() {
    let mut store = KeyStore::default();
    init(&mut store, "default", "1230");
    assert_eq!(
        generate(&store, "default", 1111111109),
        Err(Error::Decode(DecodeError::InvalidEncoding))
    );
}

#[test]
fn later_init_replaces_the_secret() {
    let mut store = KeyStore::default();
    init(&mut store, "work", "MZXW6===");
    init(&mut store, "work", "JBSWY3DPEHPK3PXP");
    assert_eq!(store.get("work"), Some("JBSWY3DPEHPK3PXP".to_string()));

    let timestamp: u64 = 59;
    let secret = decode("JBSWY3DPEHPK3PXP").expect("the key is valid base32");
    let expected = hotp(&secret, timestamp / 30) % 1_000_000;
    assert_eq!(generate(&store, "work", timestamp), Ok(expected));
}

#[test]
fn scopes_are_independent() {
    let mut store = KeyStore::default();
    init(&mut store, "work", "JBSWY3DPEHPK3PXP");
    init(&mut store, "home", "MZXW6YTB");
    assert_eq!(store.get("work"), Some("JBSWY3DPEHPK3PXP".to_string()));
    assert_eq!(store.get("home"), Some("MZXW6YTB".to_string()));
    assert_eq!(store.get("other"), None);
}

#[test]
fn fresh_store_is_empty_at_current_version() {
    let store = KeyStore::default();
    assert_eq!(store.version, KeyStore::current_version());
    assert_eq!(KeyStore::current_version(), 1);
    assert_eq!(store.get("default"), None);
}
