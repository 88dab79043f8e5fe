use open_websandbox::auth::{
    bearer_from_headers, constant_time_eq, is_placeholder, placeholder_keys, AuthOutcome, Authed,
    SessionKeyStore,
};

/// A key file: its modification time and its text, or nothing at all.
struct KeyFile {
    file: Option<(i128, &'static str)>,
}

impl KeyFile {
    fn holding(text: &'static str) -> KeyFile {
        KeyFile {
            file: Some((1, text)),
        }
    }

    fn missing() -> KeyFile {
        KeyFile { file: None }
    }

    fn validate(&self, store: &mut SessionKeyStore) -> Result<(), String> {
        store
            .validate(
                &|| self.file.map(|f| f.0),
                &|| self.file.map(|f| f.1.to_string()),
            )
            .map_err(|e| e.0)
    }

    fn check(&self, store: &mut SessionKeyStore, presented: Option<&[u8]>) -> AuthOutcome {
        store.check(
            presented,
            &|| self.file.map(|f| f.0),
            &|| self.file.map(|f| f.1.to_string()),
        )
    }

    fn load(&self, store: &mut SessionKeyStore) -> String {
        store.load(
            &|| self.file.map(|f| f.0),
            &|| self.file.map(|f| f.1.to_string()),
        )
    }
}

#[test]
fn auth_placeholder_detection() {
    for p in placeholder_keys() {
        assert!(is_placeholder(p), "{p:?} should be placeholder");
    }
    assert!(!is_placeholder(
        "a-very-strong-and-random-runtime-key-123456"
    ));
}

#[test]
fn validate_rejects_placeholders() {
    for p in placeholder_keys() {
        let mut store = SessionKeyStore::new("/keys/k");
        assert!(
            KeyFile::holding(p).validate(&mut store).is_err(),
            "{p:?} should be rejected at boot"
        );
    }
}

#[test]
fn auth_validate_rejects_missing_file() {
    let mut store = SessionKeyStore::new("/keys/k");
    assert!(KeyFile::missing().validate(&mut store).is_err());
}

#[test]
fn auth_validate_accepts_strong_key() {
    let mut store = SessionKeyStore::new("/keys/k");
    KeyFile::holding("a-very-strong-and-random-runtime-key-123456")
        .validate(&mut store)
        .expect("strong key should boot");
}

#[test]
fn boot_message_names_the_key_file() {
    let mut store = SessionKeyStore::new("/etc/runtime-key/api-key");
    assert_eq!(store.key_file(), "/etc/runtime-key/api-key");
    let message = KeyFile::holding("changeme\n")
        .validate(&mut store)
        .expect_err("placeholder");
    assert_eq!(
        message,
        "per-session runtime API key is missing or a placeholder \u{2014} refusing to start. \
         The broker must inject a per-session Secret as the projected volume at \
         /etc/runtime-key/api-key (volume 'runtime-key')."
    );
}

#[test]
fn check_missing_bearer_is_invalid() {
    let mut store = SessionKeyStore::new("/keys/k");
    assert_eq!(
        KeyFile::holding("s3cret-key").check(&mut store, None),
        AuthOutcome::Invalid
    );
}

#[test]
fn check_wrong_bearer_is_invalid() {
    let mut store = SessionKeyStore::new("/keys/k");
    assert_eq!(
        KeyFile::holding("s3cret-key").check(&mut store, Some(b"nope")),
        AuthOutcome::Invalid
    );
}

#[test]
fn check_correct_bearer_is_ok() {
    let mut store = SessionKeyStore::new("/keys/k");
    assert_eq!(
        KeyFile::holding("s3cret-key").check(&mut store, Some(b"s3cret-key")),
        AuthOutcome::Accepted
    );
}

#[test]
fn check_unconfigured_is_503() {
    let mut store = SessionKeyStore::new("/keys/k");
    let file = KeyFile::missing();
    assert_eq!(
        file.check(&mut store, Some(b"anything")),
        AuthOutcome::Unconfigured
    );
    assert_eq!(file.check(&mut store, None), AuthOutcome::Unconfigured);
    let refused = Authed::from_outcome(AuthOutcome::Unconfigured).expect_err("refused");
    assert_eq!(refused.status(), 503);
    assert_eq!(
        refused.body().detail,
        "per-session runtime API key is not configured"
    );
}

#[test]
fn reload_on_rotate_honours_new_key() {
    let mut store = SessionKeyStore::new("/keys/k");
    let old = KeyFile {
        file: Some((10, "old-key")),
    };
    assert_eq!(
        old.check(&mut store, Some(b"old-key")),
        AuthOutcome::Accepted
    );
    let new = KeyFile {
        file: Some((25, "new-key")),
    };
    assert_eq!(
        new.check(&mut store, Some(b"old-key")),
        AuthOutcome::Invalid
    );
    assert_eq!(
        new.check(&mut store, Some(b"new-key")),
        AuthOutcome::Accepted
    );
}

#[test]
fn mismatch_reads_the_file_again_even_with_the_same_time() {
    let mut store = SessionKeyStore::new("/keys/k");
    assert_eq!(KeyFile::holding("old-key").load(&mut store), "old-key");
    // The time has not moved, so a plain load still answers from memory ...
    let rewritten = KeyFile::holding("new-key\n");
    assert_eq!(rewritten.load(&mut store), "old-key");
    // ... and a key that does not match has the file read once more.
    assert_eq!(
        rewritten.check(&mut store, Some(b"new-key")),
        AuthOutcome::Accepted
    );
    assert_eq!(rewritten.load(&mut store), "new-key");
    // Invalidating alone has the same effect.
    let third = KeyFile::holding("third-key");
    store.invalidate();
    assert_eq!(third.load(&mut store), "third-key");
}

#[test]
fn bearer_parsing() {
    assert_eq!(bearer_from_headers(None), None);
    assert_eq!(
        bearer_from_headers(Some("Bearer abc")),
        Some(b"abc".to_vec())
    );
    assert_eq!(bearer_from_headers(Some("Basic xyz")), None);
}

#[test]
fn bearer_keeps_the_utf8_of_the_token() {
    assert_eq!(
        bearer_from_headers(Some("Bearer k\u{e4}y")),
        Some(vec![b'k', 0xc3, 0xa4, b'y'])
    );
    assert_eq!(bearer_from_headers(Some("bearer abc")), None);
}

#[test]
fn invalid_key_is_401() {
    assert!(Authed::from_outcome(AuthOutcome::Accepted).is_ok());
    let refused = Authed::from_outcome(AuthOutcome::Invalid).expect_err("refused");
    assert_eq!(refused.status(), 401);
    assert_eq!(refused.body().detail, "invalid runtime api key");
}

#[test]
fn validate_rejects_weak_key() {
    for weak in [
        "",
        "dev-shared-secret-change-me",
        "change-me",
        "changeme",
        "placeholder",
    ] {
        let mut store = SessionKeyStore::new("/keys/k");
        assert!(KeyFile::holding(weak).validate(&mut store).is_err());
    }
}

#[test]
fn auth_contract_validate_rejects_missing_file() {
    let mut store = SessionKeyStore::new("/nonexistent/definitely/not/here");
    assert!(KeyFile::missing().validate(&mut store).is_err());
}

#[test]
fn auth_contract_validate_accepts_strong_key() {
    let mut store = SessionKeyStore::new("/keys/k");
    assert!(KeyFile::holding("a-very-strong-and-random-runtime-key-123456")
        .validate(&mut store)
        .is_ok());
}

#[test]
fn equal_slices_match() {
    assert!(constant_time_eq(b"super-secret-key", b"super-secret-key"));
}

#[test]
fn different_length_is_false() {
    assert!(!constant_time_eq(b"short", b"longer-key"));
    assert!(!constant_time_eq(b"longer-key", b"short"));
}

#[test]
fn same_length_different_bytes_is_false() {
    assert!(!constant_time_eq(b"super-secret-key", b"super-secret-kez"));
    assert!(!constant_time_eq(b"super-secret-key", b"xuper-secret-key"));
}

#[test]
fn empty_slices_match() {
    assert!(constant_time_eq(b"", b""));
    assert!(!constant_time_eq(b"", b"x"));
    assert!(!constant_time_eq(b"x", b""));
}

/// The status of a request with the given header: 200 where it passes the guard.
fn guarded(file: &KeyFile, store: &mut SessionKeyStore, authorization: Option<&str>) -> u16 {
    let presented = bearer_from_headers(authorization);
    match Authed::from_outcome(file.check(store, presented.as_deref())) {
        Ok(_) => 200,
        Err(refused) => refused.status(),
    }
}

#[test]
fn rejects_missing_bearer() {
    let mut store = SessionKeyStore::new("/keys/k");
    assert_eq!(guarded(&KeyFile::holding("s3cret-key"), &mut store, None), 401);
}

#[test]
fn rejects_wrong_bearer() {
    let mut store = SessionKeyStore::new("/keys/k");
    let file = KeyFile::holding("s3cret-key");
    assert_eq!(guarded(&file, &mut store, Some("Bearer nope")), 401);
}

#[test]
fn accepts_correct_bearer() {
    let mut store = SessionKeyStore::new("/keys/k");
    let file = KeyFile::holding("s3cret-key");
    assert_eq!(guarded(&file, &mut store, Some("Bearer s3cret-key")), 200);
}

#[test]
fn denies_503_when_key_unset() {
    let mut store = SessionKeyStore::new("/keys/k");
    let file = KeyFile::missing();
    assert_eq!(guarded(&file, &mut store, Some("Bearer s3cret-key")), 503);
}

#[test]
fn reloads_on_rotate() {
    let mut store = SessionKeyStore::new("/keys/k");
    let old = KeyFile {
        file: Some((10, "old-key")),
    };
    assert_eq!(guarded(&old, &mut store, Some("Bearer old-key")), 200);
    let new = KeyFile {
        file: Some((20, "rotated-key")),
    };
    assert_eq!(guarded(&new, &mut store, Some("Bearer old-key")), 401);
    assert_eq!(guarded(&new, &mut store, Some("Bearer rotated-key")), 200);
}
