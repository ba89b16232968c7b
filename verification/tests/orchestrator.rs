use youhavemail::backend::{Backend, BackendError, NewEmail, Poller};
use youhavemail::encryption::Key;
use youhavemail::proton::event::{GetEventRequest, GetLatestEventRequest, Id};
use youhavemail::proxy::{ProxyConfig, ProxyProtocol};
use youhavemail::state::{Account, State};
use youhavemail::yhm::{Error, Yhm};

fn db_path(tag: &str) -> String {
    let nanos = std::time::SystemTime::now()
        .duration_since(std::time::UNIX_EPOCH)
        .unwrap()
        .as_nanos();
    format!("/tmp/youhavemail_orch_{}_{}.db", tag, nanos)
}

fn test_key() -> Key {
    Key::new([7u8; 32])
}

struct TestBackend {
    name: String,
    fail_check_for: Option<String>,
    fail_logout: bool,
}

struct TestPoller {
    fail_check: bool,
    fail_logout: bool,
}

impl Backend for TestBackend {
    type Client = ();
    type Session = TestPoller;

    fn name(&self) -> &str {
        &self.name
    }

    fn create_client(&self, _proxy: Option<ProxyConfig>) -> Result<(), BackendError> {
        Ok(())
    }

    fn new_poller(&self, _client: (), account: &Account) -> Result<TestPoller, BackendError> {
        Ok(TestPoller {
            fail_check: self.fail_check_for.as_deref() == Some(account.email()),
            fail_logout: self.fail_logout,
        })
    }
}

impl Poller for TestPoller {
    fn check(&mut self) -> Result<Vec<NewEmail>, BackendError> {
        if self.fail_check {
            Err(BackendError::Request("check failed".to_owned()))
        } else {
            Ok(Vec::new())
        }
    }

    fn logout(&mut self) -> Result<(), BackendError> {
        if self.fail_logout {
            Err(BackendError::Request("logout failed".to_owned()))
        } else {
            Ok(())
        }
    }
}

fn orchestrator(tag: &str, fail_check_for: Option<&str>, fail_logout: bool) -> Yhm<TestBackend> {
    let state = State::new(db_path(tag), test_key()).unwrap();
    let backend = TestBackend {
        name: "proton".to_owned(),
        fail_check_for: fail_check_for.map(|s| s.to_owned()),
        fail_logout,
    };
    Yhm::with_backends(state, vec![backend])
}

#[test]
fn poll_excludes_logged_out_account_and_keeps_order() {
    let state = State::new(db_path("poll_excl"), test_key()).unwrap();
    let mut state = state;
    for email in ["c@x.test", "a@x.test", "b@x.test"] {
        state.new_account(email, "proton").unwrap();
    }
    state.update_secret_state("a@x.test", b"s").unwrap();
    state.update_secret_state("c@x.test", b"s").unwrap();
    let backend = TestBackend {
        name: "proton".to_owned(),
        fail_check_for: None,
        fail_logout: false,
    };
    let yhm = Yhm::with_backends(state, vec![backend]);
    let outputs = yhm.poll().unwrap();
    let emails: Vec<&str> = outputs.iter().map(|o| o.email.as_str()).collect();
    assert_eq!(emails, vec!["a@x.test", "c@x.test"]);
    assert!(outputs.iter().all(|o| o.backend == "proton"));
    assert!(outputs.iter().all(|o| o.result.is_ok()));
}

#[test]
fn one_failing_check_does_not_short_circuit_the_batch() {
    let state = State::new(db_path("poll_fail"), test_key()).unwrap();
    let mut state = state;
    for email in ["a@x.test", "b@x.test", "c@x.test"] {
        state.new_account(email, "proton").unwrap();
        state.update_secret_state(email, b"s").unwrap();
    }
    let backend = TestBackend {
        name: "proton".to_owned(),
        fail_check_for: Some("b@x.test".to_owned()),
        fail_logout: false,
    };
    let yhm = Yhm::with_backends(state, vec![backend]);
    let outputs = yhm.poll().unwrap();
    assert_eq!(outputs.len(), 3);
    assert!(outputs[0].result.is_ok());
    assert!(matches!(
        outputs[1].result,
        Err(BackendError::Request(ref m)) if m == "check failed"
    ));
    assert!(outputs[2].result.is_ok());
    assert_eq!(outputs[0].email, "a@x.test");
    assert_eq!(outputs[1].email, "b@x.test");
    assert_eq!(outputs[2].email, "c@x.test");
}

#[test]
fn delete_swallows_logout_failure_but_logout_propagates_it() {
    let state = State::new(db_path("asym"), test_key()).unwrap();
    let mut state = state;
    state.new_account("a@x.test", "proton").unwrap();
    state.update_secret_state("a@x.test", b"s").unwrap();
    state.new_account("b@x.test", "proton").unwrap();
    state.update_secret_state("b@x.test", b"s").unwrap();
    let backend = TestBackend {
        name: "proton".to_owned(),
        fail_check_for: None,
        fail_logout: true,
    };
    let mut yhm = Yhm::with_backends(state, vec![backend]);
    // logout propagates the remote failure and keeps the record.
    let err = yhm.logout("a@x.test").unwrap_err();
    assert!(matches!(err, Error::Backend(_)));
    let account = yhm.account("a@x.test").unwrap();
    assert!(account.is_some());
    assert!(!account.unwrap().is_logged_out());
    // delete swallows the same failure and removes the record anyway.
    yhm.delete("b@x.test").unwrap();
    assert!(yhm.account("b@x.test").unwrap().is_none());
}

#[test]
fn successful_logout_flips_the_account_to_logged_out() {
    let state = State::new(db_path("logout_ok"), test_key()).unwrap();
    let mut state = state;
    state.new_account("a@x.test", "proton").unwrap();
    state.update_secret_state("a@x.test", b"s").unwrap();
    let backend = TestBackend {
        name: "proton".to_owned(),
        fail_check_for: None,
        fail_logout: false,
    };
    let mut yhm = Yhm::with_backends(state, vec![backend]);
    yhm.logout("a@x.test").unwrap();
    let account = yhm.account("a@x.test").unwrap().unwrap();
    assert!(account.is_logged_out());
}

#[test]
fn unknown_backend_and_unknown_account_errors() {
    let mut yhm = orchestrator("errors", None, false);
    let err = yhm.new_account("a@x.test", "nosuch").unwrap_err();
    assert!(matches!(err, Error::BackendNotFound(ref m) if m == "nosuch"));
    let err = yhm.delete("ghost@x.test").unwrap_err();
    assert!(matches!(err, Error::AccountNotFound(ref m) if m == "ghost@x.test"));
    let err = yhm.logout("ghost@x.test").unwrap_err();
    assert!(matches!(err, Error::AccountNotFound(ref m) if m == "ghost@x.test"));
    yhm.new_account("a@x.test", "proton").unwrap();
    let err = yhm.new_account("a@x.test", "proton").unwrap_err();
    assert!(matches!(err, Error::AccountAlreadyExist(ref m) if m == "a@x.test"));
}

#[test]
fn orchestrator_settings_pass_through() {
    let mut yhm = orchestrator("settings", None, false);
    assert_eq!(yhm.poll_interval().unwrap(), 300);
    yhm.set_poll_interval(900).unwrap();
    assert_eq!(yhm.poll_interval().unwrap(), 900);
    assert_eq!(yhm.account_count().unwrap(), 0);
    assert!(yhm.backend_with_name("proton").is_some());
    assert!(yhm.backend_with_name("other").is_none());
    assert_eq!(yhm.backends().len(), 1);
}

#[test]
fn event_request_urls() {
    let id = Id("ev_123".to_owned());
    let request = GetEventRequest::new(&id);
    assert_eq!(request.url(), "core/v4/events/ev_123");
    assert_eq!(GetLatestEventRequest.url(), "core/v4/events/latest");
}

#[test]
fn poll_reports_an_unreadable_proxy_as_that_accounts_own_error() {
    let path = db_path("proxy_err");
    {
        // Written under one key...
        let mut state = State::new(path.clone(), Key::new([1u8; 32])).unwrap();
        state.new_account("a@x.test", "proton").unwrap();
        state.update_secret_state("a@x.test", b"s").unwrap();
        let config = ProxyConfig {
            protocol: ProxyProtocol::Http,
            auth: None,
            host: b"proxy.example".to_vec(),
            port: 8080,
        };
        state.set_proxy("a@x.test", Some(&config)).unwrap();
        state.new_account("b@x.test", "proton").unwrap();
        state.update_secret_state("b@x.test", b"s").unwrap();
    }
    // ...reopened under another: the proxy blob no longer authenticates.
    let state = State::new(path, Key::new([2u8; 32])).unwrap();
    let backend = TestBackend {
        name: "proton".to_owned(),
        fail_check_for: None,
        fail_logout: false,
    };
    let yhm = Yhm::with_backends(state, vec![backend]);
    let outputs = yhm.poll().unwrap();
    assert_eq!(outputs.len(), 2);
    assert_eq!(outputs[0].email, "a@x.test");
    assert!(matches!(
        outputs[0].result,
        Err(BackendError::State(youhavemail::state::Error::Decryption))
    ));
    // The account without a proxy is still polled normally.
    assert_eq!(outputs[1].email, "b@x.test");
    assert!(outputs[1].result.is_ok());
}
