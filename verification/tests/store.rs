use youhavemail::encryption::Key;
use youhavemail::proxy::{ProxyAuth, ProxyConfig, ProxyProtocol, encode_proxy, parse_proxy};
use youhavemail::state::{Account, Error, State};

fn db_path(tag: &str) -> String {
    let nanos = std::time::SystemTime::now()
        .duration_since(std::time::UNIX_EPOCH)
        .unwrap()
        .as_nanos();
    format!("/tmp/youhavemail_test_{}_{}.db", tag, nanos)
}

fn test_key() -> Key {
    Key::new([7u8; 32])
}

fn other_key() -> Key {
    Key::new([8u8; 32])
}

#[test]
fn fresh_account_is_logged_out_with_all_fields_absent() {
    let mut state = State::new(db_path("fresh"), test_key()).unwrap();
    state.new_account("a@x.test", "proton").unwrap();
    let account = state.account("a@x.test").unwrap().unwrap();
    assert_eq!(account.email(), "a@x.test");
    assert_eq!(account.backend(), "proton");
    assert!(account.is_logged_out());
    assert!(account.state().is_none());
    assert!(account.secret(&test_key()).unwrap().is_none());
    assert!(account.proxy(&test_key()).unwrap().is_none());
}

#[test]
fn duplicate_new_account_fails_and_record_is_unchanged() {
    let mut state = State::new(db_path("dup"), test_key()).unwrap();
    state.new_account("a@x.test", "proton").unwrap();
    state
        .update_secret_state("a@x.test", b"token-1")
        .unwrap();
    let err = state.new_account("a@x.test", "other").unwrap_err();
    assert!(matches!(err, Error::AlreadyExists(ref m) if m == "a@x.test"));
    let account = state.account("a@x.test").unwrap().unwrap();
    assert_eq!(account.backend(), "proton");
    assert!(!account.is_logged_out());
    assert_eq!(state.account_count().unwrap(), 1);
}

#[test]
fn secret_round_trips_under_same_key_and_fails_cleanly_under_other_key() {
    let mut state = State::new(db_path("secret"), test_key()).unwrap();
    state.new_account("a@x.test", "proton").unwrap();
    state
        .update_secret_state("a@x.test", b"session-token")
        .unwrap();
    let account = state.account("a@x.test").unwrap().unwrap();
    let plain = account.secret(&test_key()).unwrap().unwrap();
    assert_eq!(plain, b"session-token".to_vec());
    let err = account.secret(&other_key()).unwrap_err();
    assert_eq!(err, Error::Decryption);
    assert_ne!(err, Error::Serialization);
}

#[test]
fn delete_secret_logs_out_and_update_logs_in_again() {
    let mut state = State::new(db_path("relogin"), test_key()).unwrap();
    state.new_account("a@x.test", "proton").unwrap();
    state.update_secret_state("a@x.test", b"t1").unwrap();
    assert!(!state.account("a@x.test").unwrap().unwrap().is_logged_out());
    state.delete_secret_state("a@x.test").unwrap();
    assert!(state.account("a@x.test").unwrap().unwrap().is_logged_out());
    state.update_secret_state("a@x.test", b"t2").unwrap();
    let account = state.account("a@x.test").unwrap().unwrap();
    assert!(!account.is_logged_out());
    assert_eq!(
        account.secret(&test_key()).unwrap().unwrap(),
        b"t2".to_vec()
    );
}

#[test]
fn store_account_upsert_never_changes_email_or_backend() {
    let mut state = State::new(db_path("upsert"), test_key()).unwrap();
    state.new_account("a@x.test", "proton").unwrap();
    let mut incoming = Account::new("a@x.test".to_owned(), "imposter".to_owned());
    incoming.set_state(Some(b"cursor-7".to_vec()));
    state.store_account(&incoming).unwrap();
    let stored = state.account("a@x.test").unwrap().unwrap();
    assert_eq!(stored.backend(), "proton");
    assert_eq!(stored.email(), "a@x.test");
    assert_eq!(stored.state().as_ref().unwrap(), &b"cursor-7".to_vec());
    // Upsert again with another payload: identity still fixed.
    let mut second = Account::new("a@x.test".to_owned(), "imposter-2".to_owned());
    second.set_state(Some(b"cursor-8".to_vec()));
    state.store_account(&second).unwrap();
    let stored = state.account("a@x.test").unwrap().unwrap();
    assert_eq!(stored.backend(), "proton");
    assert_eq!(stored.state().as_ref().unwrap(), &b"cursor-8".to_vec());
    assert_eq!(state.account_count().unwrap(), 1);
}

#[test]
fn two_serialized_inserts_of_distinct_emails_both_land() {
    let mut state = State::new(db_path("inserts"), test_key()).unwrap();
    assert_eq!(state.account_count().unwrap(), 0);
    state.new_account("a@x.test", "proton").unwrap();
    state.new_account("b@x.test", "proton").unwrap();
    assert_eq!(state.account_count().unwrap(), 2);
    assert!(state.has_account("a@x.test").unwrap());
    assert!(state.has_account("b@x.test").unwrap());
}

#[test]
fn poll_interval_defaults_to_300_and_follows_updates_exactly() {
    let mut state = State::new(db_path("interval"), test_key()).unwrap();
    assert_eq!(state.poll_interval().unwrap(), 300);
    state.set_poll_interval(123).unwrap();
    assert_eq!(state.poll_interval().unwrap(), 123);
}

#[test]
fn store_persists_across_reopen() {
    let path = db_path("reopen");
    {
        let mut state = State::new(path.clone(), test_key()).unwrap();
        state.new_account("a@x.test", "proton").unwrap();
        state.update_secret_state("a@x.test", b"tok").unwrap();
        state.set_poll_interval(77).unwrap();
    }
    let state = State::new(path, test_key()).unwrap();
    let account = state.account("a@x.test").unwrap().unwrap();
    assert_eq!(account.backend(), "proton");
    assert!(!account.is_logged_out());
    assert_eq!(
        account.secret(&test_key()).unwrap().unwrap(),
        b"tok".to_vec()
    );
    assert_eq!(state.poll_interval().unwrap(), 77);
}

#[test]
fn accounts_come_back_in_ascending_email_order() {
    let mut state = State::new(db_path("order"), test_key()).unwrap();
    state.new_account("c@x.test", "proton").unwrap();
    state.new_account("a@x.test", "proton").unwrap();
    state.new_account("b@x.test", "proton").unwrap();
    let all = state.accounts().unwrap();
    let emails: Vec<&str> = all.iter().map(|a| a.email()).collect();
    assert_eq!(emails, vec!["a@x.test", "b@x.test", "c@x.test"]);
}

#[test]
fn delete_removes_the_record_and_absent_delete_is_a_noop() {
    let mut state = State::new(db_path("delete"), test_key()).unwrap();
    state.new_account("a@x.test", "proton").unwrap();
    state.delete("a@x.test").unwrap();
    assert!(state.account("a@x.test").unwrap().is_none());
    state.delete("a@x.test").unwrap();
    assert_eq!(state.account_count().unwrap(), 0);
}

#[test]
fn proxy_round_trips_through_encryption_and_canonical_form() {
    let mut state = State::new(db_path("proxy"), test_key()).unwrap();
    state.new_account("a@x.test", "proton").unwrap();
    let config = ProxyConfig {
        protocol: ProxyProtocol::Socks5,
        auth: Some(ProxyAuth {
            username: b"user".to_vec(),
            password: b"pass".to_vec(),
        }),
        host: b"proxy.example".to_vec(),
        port: 1080,
    };
    state.set_proxy("a@x.test", Some(&config)).unwrap();
    let account = state.account("a@x.test").unwrap().unwrap();
    let read = account.proxy(&test_key()).unwrap().unwrap();
    assert_eq!(read.protocol, ProxyProtocol::Socks5);
    assert_eq!(read.host, b"proxy.example".to_vec());
    assert_eq!(read.port, 1080);
    let auth = read.auth.unwrap();
    assert_eq!(auth.username, b"user".to_vec());
    assert_eq!(auth.password, b"pass".to_vec());
    // Reading under another key is a decryption failure.
    assert_eq!(account.proxy(&other_key()).unwrap_err(), Error::Decryption);
    // Clearing removes it.
    state.set_proxy("a@x.test", None).unwrap();
    let account = state.account("a@x.test").unwrap().unwrap();
    assert!(account.proxy(&test_key()).unwrap().is_none());
}

#[test]
fn proxy_canonical_form_is_real_json() {
    let config = ProxyConfig {
        protocol: ProxyProtocol::Http,
        auth: None,
        host: b"h.example".to_vec(),
        port: 80,
    };
    let encoded = encode_proxy(&config).unwrap();
    assert_eq!(
        String::from_utf8(encoded.clone()).unwrap(),
        "{\"protocol\":\"http\",\"host\":\"h.example\",\"port\":\"00080\",\"auth\":null}"
    );
    let value: serde_json::Value = serde_json::from_slice(&encoded).unwrap();
    assert_eq!(value["protocol"], serde_json::Value::String("http".to_owned()));
    assert_eq!(value["host"], serde_json::Value::String("h.example".to_owned()));
    assert_eq!(value["port"], serde_json::Value::String("00080".to_owned()));
    assert!(value["auth"].is_null());
    let parsed = parse_proxy(&encoded).unwrap();
    assert_eq!(parsed.port, 80);
    assert_eq!(parsed.host, b"h.example".to_vec());
    assert!(parsed.auth.is_none());
}

#[test]
fn proxy_with_forbidden_bytes_is_a_serialization_error() {
    let mut state = State::new(db_path("badproxy"), test_key()).unwrap();
    state.new_account("a@x.test", "proton").unwrap();
    let config = ProxyConfig {
        protocol: ProxyProtocol::Http,
        auth: None,
        host: b"bad\"host".to_vec(),
        port: 80,
    };
    let err = state.set_proxy("a@x.test", Some(&config)).unwrap_err();
    assert_eq!(err, Error::Serialization);
    assert!(encode_proxy(&config).is_none());
}

#[test]
fn parse_proxy_rejects_non_canonical_documents() {
    assert!(parse_proxy(b"").is_none());
    assert!(parse_proxy(b"{}").is_none());
    assert!(
        parse_proxy(
            b"{\"protocol\":\"http\",\"host\":\"h\",\"port\":\"80\",\"auth\":null}"
        )
        .is_none()
    );
    let canonical = b"{\"protocol\":\"http\",\"host\":\"h\",\"port\":\"00080\",\"auth\":null}";
    assert!(parse_proxy(canonical).is_some());
}

#[test]
fn encryption_key_round_trip_and_wrong_key_failure() {
    let key = test_key();
    let blob = key.encrypt(b"payload").unwrap();
    assert_eq!(key.decrypt(&blob).unwrap(), b"payload".to_vec());
    assert!(other_key().decrypt(&blob).is_none());
    // Two seals of the same payload differ: a fresh nonce fronts each blob.
    let blob2 = key.encrypt(b"payload").unwrap();
    assert_ne!(blob, blob2);
    assert_eq!(key.decrypt(&blob2).unwrap(), b"payload".to_vec());
}

#[test]
fn update_account_state_stores_plaintext() {
    let mut state = State::new(db_path("plain"), test_key()).unwrap();
    state.new_account("a@x.test", "proton").unwrap();
    state
        .update_account_state("a@x.test", b"cursor-42")
        .unwrap();
    let account = state.account("a@x.test").unwrap().unwrap();
    assert_eq!(account.state().as_ref().unwrap(), &b"cursor-42".to_vec());
    // Plaintext state does not log the account in.
    assert!(account.is_logged_out());
}

#[test]
fn without_init_fails_with_storage_error_on_missing_tables() {
    let err = match State::without_init(db_path("noinit"), test_key()) {
        Ok(_) => panic!("expected a storage error"),
        Err(e) => e,
    };
    assert!(matches!(err, Error::Db(_)));
}

#[test]
fn without_init_reads_an_initialized_store() {
    let path = db_path("noinit_ok");
    {
        let mut state = State::new(path.clone(), test_key()).unwrap();
        state.new_account("a@x.test", "proton").unwrap();
        state.set_poll_interval(55).unwrap();
    }
    let state = State::without_init(path, test_key()).unwrap();
    assert!(state.has_account("a@x.test").unwrap());
    assert_eq!(state.poll_interval().unwrap(), 55);
}
