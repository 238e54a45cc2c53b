use occ_secure_exports::profile::{
    creds_account, delete_outcome, delete_profile, is_backend_unavailable, is_blank,
    legacy_account, needs_migration, next_after_lookup, set_plan, store_outcome, upsert_profile,
    ConnectionProfile, DeleteStep, KeyringError, LegacyKind, SecretsLookup, SecretsNext,
    StoredSecrets, KEYRING_SERVICE, PROFILES_FILE,
};

fn profile(id: &str, name: &str) -> ConnectionProfile {
    ConnectionProfile {
        id: id.to_string(),
        name: name.to_string(),
        endpoint: "https://s3.example".to_string(),
        region: "eu-central-1".to_string(),
        bucket: "exports".to_string(),
        access_key_id: "AKIA".to_string(),
        path_style: false,
        base_prefix: String::new(),
        remember_secret: true,
        remember_key: false,
    }
}

fn names(ps: &[ConnectionProfile]) -> Vec<(String, String)> {
    ps.iter().map(|p| (p.id.clone(), p.name.clone())).collect()
}

fn pair(id: &str, name: &str) -> (String, String) {
    (id.to_string(), name.to_string())
}

#[test]
fn upsert_appends_new_and_replaces_first_match() {
    let mut ps = Vec::new();
    upsert_profile(&mut ps, profile("a", "one"));
    upsert_profile(&mut ps, profile("b", "two"));
    assert_eq!(names(&ps), vec![pair("a", "one"), pair("b", "two")]);
    upsert_profile(&mut ps, profile("a", "uno"));
    assert_eq!(names(&ps), vec![pair("a", "uno"), pair("b", "two")]);
    // Only the first of duplicate ids is replaced.
    let mut dup = vec![profile("x", "1"), profile("x", "2")];
    upsert_profile(&mut dup, profile("x", "3"));
    assert_eq!(names(&dup), vec![pair("x", "3"), pair("x", "2")]);
}

#[test]
fn upsert_twice_is_upsert_once() {
    let mut once = vec![profile("a", "one"), profile("b", "two")];
    upsert_profile(&mut once, profile("c", "three"));
    let mut twice = once.clone();
    upsert_profile(&mut twice, profile("c", "three"));
    assert_eq!(names(&once), names(&twice));
}

#[test]
fn delete_removes_every_profile_with_the_id() {
    let mut ps = vec![profile("a", "1"), profile("b", "2"), profile("a", "3"), profile("c", "4")];
    delete_profile(&mut ps, "a");
    assert_eq!(names(&ps), vec![pair("b", "2"), pair("c", "4")]);
    delete_profile(&mut ps, "a");
    assert_eq!(names(&ps), vec![pair("b", "2"), pair("c", "4")]);
    delete_profile(&mut ps, "zzz");
    assert_eq!(ps.len(), 2);
}

#[test]
fn delete_undoes_upsert() {
    let before = vec![profile("a", "1"), profile("b", "2")];
    let mut ps = before.clone();
    upsert_profile(&mut ps, profile("n", "new"));
    delete_profile(&mut ps, "n");
    assert_eq!(names(&ps), names(&before));
}

#[test]
fn blank_profile_files_read_as_empty() {
    assert!(is_blank(""));
    assert!(is_blank(" \n\t\u{3000}"));
    assert!(!is_blank(" [] "));
}

#[test]
fn secrets_emptiness() {
    let none = StoredSecrets::default();
    assert!(none.is_empty());
    assert!(!needs_migration(&none));
    let some = StoredSecrets { s3_secret: None, age_key: Some("AGE-SECRET-KEY-1".to_string()) };
    assert!(!some.is_empty());
    assert!(needs_migration(&some));
}

#[test]
fn store_accounts() {
    assert_eq!(KEYRING_SERVICE, "de.occ-secure-exports.app");
    assert_eq!(PROFILES_FILE, "profiles.json");
    assert_eq!(creds_account("p1"), "p1::creds");
    assert_eq!(legacy_account("p1", LegacyKind::S3Secret), "p1::s3-secret");
    assert_eq!(legacy_account("p1", LegacyKind::AgeKey), "p1::age-key");
    assert_eq!(LegacyKind::AgeKey.suffix(), "age-key");
    assert_ne!(creds_account("a::s3-secret"), legacy_account("a", LegacyKind::S3Secret));
}

#[test]
fn lookup_decisions() {
    let down = || KeyringError::PlatformFailure("no bus".to_string());
    assert!(matches!(
        next_after_lookup(SecretsLookup::EntryFailed(down())),
        SecretsNext::NothingRemembered
    ));
    assert!(matches!(
        next_after_lookup(SecretsLookup::EntryFailed(KeyringError::Invalid("user".into(), "bad".into()))),
        SecretsNext::Fail(KeyringError::Invalid(_, _))
    ));
    assert!(matches!(
        next_after_lookup(SecretsLookup::Read("{}".to_string())),
        SecretsNext::Decode(ref s) if s == "{}"
    ));
    assert!(matches!(
        next_after_lookup(SecretsLookup::ReadFailed(KeyringError::NoEntry)),
        SecretsNext::MigrateLegacy
    ));
    assert!(matches!(
        next_after_lookup(SecretsLookup::ReadFailed(KeyringError::NoStorageAccess("locked".into()))),
        SecretsNext::NothingRemembered
    ));
    assert!(matches!(
        next_after_lookup(SecretsLookup::ReadFailed(KeyringError::BadEncoding(vec![0xff]))),
        SecretsNext::Fail(KeyringError::BadEncoding(_))
    ));
    // A missing entry while opening is a failure, not a migration.
    assert!(matches!(
        next_after_lookup(SecretsLookup::EntryFailed(KeyringError::NoEntry)),
        SecretsNext::Fail(KeyringError::NoEntry)
    ));
}

#[test]
fn store_and_delete_decisions() {
    assert!(matches!(store_outcome(Ok(())), Ok(true)));
    assert!(matches!(store_outcome(Err(KeyringError::NoStorageAccess("x".into()))), Ok(false)));
    assert!(matches!(
        store_outcome(Err(KeyringError::TooLong("password".into(), 10))),
        Err(KeyringError::TooLong(_, 10))
    ));
    assert!(matches!(delete_outcome(DeleteStep::DeleteCredential, Ok(())), Ok(())));
    assert!(matches!(delete_outcome(DeleteStep::DeleteCredential, Err(KeyringError::NoEntry)), Ok(())));
    assert!(matches!(
        delete_outcome(DeleteStep::OpenEntry, Err(KeyringError::NoEntry)),
        Err(KeyringError::NoEntry)
    ));
    assert!(matches!(
        delete_outcome(DeleteStep::OpenEntry, Err(KeyringError::PlatformFailure("x".into()))),
        Ok(())
    ));
    assert!(matches!(
        delete_outcome(DeleteStep::DeleteCredential, Err(KeyringError::Ambiguous(2))),
        Err(KeyringError::Ambiguous(2))
    ));
    assert!(!is_backend_unavailable(&KeyringError::Ambiguous(2)));
}

#[test]
fn storing_nothing_deletes_instead() {
    assert!(set_plan(&StoredSecrets::default()));
    assert!(!set_plan(&StoredSecrets { s3_secret: Some("s".to_string()), age_key: None }));
}
