use occ_secure_exports::profile::{is_backend_unavailable, KeyringError};

#[test]
fn backend_unavailable_only_for_store_outages() {
    // A missing daemon / no access surfaces as these -- degrade gracefully.
    assert!(is_backend_unavailable(&KeyringError::PlatformFailure(
        "backend down".to_string()
    )));
    assert!(is_backend_unavailable(&KeyringError::NoStorageAccess(
        "backend down".to_string()
    )));
    // Logic errors must NOT be swallowed as "no store".
    assert!(!is_backend_unavailable(&KeyringError::NoEntry));
    assert!(!is_backend_unavailable(&KeyringError::BadEncoding(vec![
        0xff
    ])));
}
