//! The polling orchestrator.
//!
//! Holds the account store and a registry of named backends.  `poll` turns
//! every logged-in account into a live session and records that account's
//! outcome on its own, in ascending-email order, so one account's failure
//! never skips or aborts the rest.  Account management delegates to the
//! store with orchestrator-level error semantics; `delete` swallows a
//! failed remote logout where `logout` propagates it, deliberately.

use vstd::prelude::*;

verus! {

use crate::backend::{Backend, BackendError, NewEmail, Poller};
use crate::state::{
    Account,
    AccountView,
    State,
    contains_email,
    fresh_account,
    index_of_email,
    lemma_sorted_emails_unique,
    lemma_state_wf_sorted,
    lookup,
    seq_views,
};
use crate::strutil::str_eq;
use crate::encryption::blob_plaintext;
use crate::proxy::{ProxyConfigView, encode_proxy_spec, proxy_wf};

/// The record's stored proxy blob cannot be read under `key`: either it
/// does not authenticate, or its plaintext is not a canonical proxy
/// document.
pub open spec fn proxy_unreadable(a: AccountView, key: Seq<u8>) -> bool {
    a.proxy matches Some(c) && match blob_plaintext(key, c) {
        None => true,
        Some(plain) => !(exists|q: ProxyConfigView| proxy_wf(q) && plain == encode_proxy_spec(q)),
    }
}

/// Marker for quantified optional payloads in contracts.
pub open spec fn opt_trigger(p: Option<Seq<u8>>) -> bool {
    true
}

/// Errors of the orchestrator.
#[derive(Debug)]
pub enum Error {
    /// The email is already stored.
    AccountAlreadyExist(String),
    /// No record holds the email.
    AccountNotFound(String),
    /// No registered backend bears the name.
    BackendNotFound(String),
    /// Backend work failed.
    Backend(BackendError),
    /// The store failed.
    State(crate::state::Error),
}

/// Outcome of polling one account.
#[derive(Debug)]
pub struct PollOutput {
    /// Email of the account.
    pub email: String,
    /// Backend of the account.
    pub backend: String,
    /// What the account's check returned.
    pub result: Result<Vec<NewEmail>, BackendError>,
}

/// The logged-in records of `s`, in order: those whose secret is present.
pub open spec fn logged_in(s: Seq<AccountView>) -> Seq<AccountView>
    decreases s.len(),
{
    if s.len() == 0 {
        Seq::empty()
    } else {
        let rest = logged_in(s.drop_last());
        if s.last().secret is Some {
            rest.push(s.last())
        } else {
            rest
        }
    }
}

/// Where every record is logged in, polling visits all of them.
pub proof fn lemma_logged_in_all(s: Seq<AccountView>)
    requires
        forall|j: int| 0 <= j < s.len() ==> (#[trigger] s[j].secret) is Some,
    ensures
        logged_in(s) == s,
    decreases s.len(),
{
    if s.len() > 0 {
        lemma_logged_in_all(s.drop_last());
        assert(logged_in(s.drop_last()).push(s.last()) =~= s);
    }
}

/// Where exactly one record is logged out, polling visits exactly the
/// others, in order.
pub proof fn lemma_logged_in_excludes_one(s: Seq<AccountView>, k: int)
    requires
        0 <= k < s.len(),
        s[k].secret is None,
        forall|j: int| 0 <= j < s.len() && j != k ==> (#[trigger] s[j].secret) is Some,
    ensures
        logged_in(s) == s.remove(k),
    decreases s.len(),
{
    s.remove_ensures(k);
    if k == s.len() - 1 {
        lemma_logged_in_all(s.drop_last());
        assert(s.remove(k) =~= s.drop_last());
    } else {
        lemma_logged_in_excludes_one(s.drop_last(), k);
        s.drop_last().remove_ensures(k);
        assert(s.remove(k) =~= s.drop_last().remove(k).push(s.last()));
    }
}

/// You Have Mail main entry point: the store with a registry of backends.
pub struct Yhm<B: Backend> {
    state: State,
    backends: Vec<B>,
}

impl<B: Backend> Yhm<B> {
    /// The stored records, sorted by email ascending.
    pub closed spec fn model(self) -> Seq<AccountView> {
        self.state.model()
    }

    /// The stored poll interval in seconds.
    pub closed spec fn interval(self) -> u64 {
        self.state.interval()
    }

    /// The store's encryption key.
    pub closed spec fn key(self) -> Seq<u8> {
        self.state.key()
    }

    /// The store is well-formed.
    pub closed spec fn wf(self) -> bool {
        self.state.wf()
    }

    /// Create an instance over `state` with the given registry of
    /// `backends`; names must be unique for lookup to be meaningful.
    pub fn with_backends(state: State, backends: Vec<B>) -> (r: Yhm<B>)
        requires
            state.wf(),
        ensures
            r.wf(),
            r.model() == state.model(),
            r.interval() == state.interval(),
            r.key() == state.key(),
    {
        Yhm { state, backends }
    }

    /// The registered backends.
    pub fn backends(&self) -> (r: &Vec<B>) {
        &self.backends
    }

    /// The first registered backend whose name matches, if any.
    pub fn backend_with_name(&self, name: &str) -> (r: Option<&B>) {
        let n = self.backends.len();
        let mut i: usize = 0;
        while i < n
            invariant
                i <= n,
                n == self.backends@.len(),
            decreases n - i,
        {
            let b = &self.backends[i];
            if str_eq(b.name(), name) {
                return Some(b);
            }
            i = i + 1;
        }
        None
    }

    /// Build a live poller for `account`: resolve its backend by name,
    /// decrypt its proxy configuration, build a client, then a session.
    /// What the collaborators return is theirs to decide and cannot be
    /// specified; the library's own pre-call failures can: an unreadable
    /// stored proxy blob forces an error — the decryption or serialization
    /// store error, unless the name lookup already failed.  Any failure
    /// aborts only this account's turn.
    fn build_account_poller(&self, account: &Account) -> (r: Result<B::Session, BackendError>)
        ensures
            proxy_unreadable(account@, self.key()) ==> r is Err,
            account@.proxy matches Some(c) ==> match blob_plaintext(self.key(), c) {
                None => (r matches Err(e) && (e is UnknownBackend || (e matches
                BackendError::State(se) && se is Decryption))),
                Some(plain) => (!(exists|q: ProxyConfigView|
                    proxy_wf(q) && plain == encode_proxy_spec(q)) ==> (r matches Err(e2) && (e2
                    is UnknownBackend || (e2 matches BackendError::State(se2) && se2
                    is Serialization)))),
            },
    {
        let backend = match self.backend_with_name(account.backend()) {
            Some(b) => b,
            None => {
                return Err(BackendError::UnknownBackend(account.backend().to_owned()));
            },
        };
        let proxy = match account.proxy(self.state.encryption_key()) {
            Ok(p) => p,
            Err(e) => { return Err(BackendError::State(e)) },
        };
        proof {
            match account@.proxy {
                Some(c) => {
                    match blob_plaintext(self.key(), c) {
                        None => {
                            assert(false);
                        },
                        Some(plain) => {
                            assert(exists|q: ProxyConfigView|
                                proxy_wf(q) && plain == encode_proxy_spec(q));
                        },
                    }
                },
                None => {},
            }
        }
        let client = match backend.create_client(proxy) {
            Ok(c) => c,
            Err(e) => { return Err(e) },
        };
        backend.new_poller(client, account)
    }

    /// Poll every logged-in account, strictly sequentially and in
    /// ascending-email order, recording each account's outcome — a list of
    /// new-mail events or that account's error — on its own.  Logged-out
    /// accounts are silently excluded; one account's failure never aborts
    /// the rest.
    #[verifier::rlimit(60)]
    #[verifier::spinoff_prover]
    pub fn poll(&self) -> (r: Result<Vec<PollOutput>, Error>)
        requires
            self.wf(),
        ensures
            r matches Ok(v) && v@.len() == logged_in(self.model()).len(),
            r matches Ok(v) ==> forall|i: int|
                0 <= i < v@.len() ==> (#[trigger] v@[i].email)@ == logged_in(self.model())[i].email
                    && v@[i].backend@ == logged_in(self.model())[i].backend,
            r matches Ok(v) ==> forall|i: int|
                0 <= i < v@.len() && proxy_unreadable(logged_in(self.model())[i], self.key())
                    ==> (#[trigger] v@[i]).result is Err,
    {
        let records = match self.state.accounts() {
            Ok(v) => v,
            Err(e) => { return Err(Error::State(e)) },
        };
        let n = records.len();
        let mut outputs: Vec<PollOutput> = Vec::new();
        let mut i: usize = 0;
        proof {
            assert(seq_views(records@).subrange(0, 0) =~= Seq::<AccountView>::empty());
        }
        while i < n
            invariant
                i <= n,
                n == records@.len(),
                seq_views(records@) == self.model(),
                outputs@.len() == logged_in(self.model().subrange(0, i as int)).len(),
                forall|j: int|
                    0 <= j < outputs@.len() ==> (#[trigger] outputs@[j].email)@ == logged_in(
                        self.model().subrange(0, i as int),
                    )[j].email && outputs@[j].backend@ == logged_in(
                        self.model().subrange(0, i as int),
                    )[j].backend,
                forall|j: int|
                    0 <= j < outputs@.len() && proxy_unreadable(
                        logged_in(self.model().subrange(0, i as int))[j],
                        self.key(),
                    ) ==> (#[trigger] outputs@[j]).result is Err,
            decreases n - i,
        {
            let account = &records[i];
            let ghost prefix = self.model().subrange(0, i as int);
            let ghost next = self.model().subrange(0, i + 1);
            proof {
                assert(next.drop_last() =~= prefix);
                assert(next.last() == account@);
            }
            if !account.is_logged_out() {
                let email = account.email().to_owned();
                let backend = account.backend().to_owned();
                let result = match self.build_account_poller(account) {
                    Ok(mut session) => {
                        proof {
                            assert(!proxy_unreadable(account@, self.key()));
                        }
                        session.check()
                    },
                    Err(e) => Err(e),
                };
                let ghost prev_out = outputs@;
                outputs.push(PollOutput { email, backend, result });
                proof {
                    assert(logged_in(next) == logged_in(prefix).push(account@));
                    assert forall|j: int|
                        0 <= j < outputs@.len() implies (#[trigger] outputs@[j].email)@
                        == logged_in(next)[j].email && outputs@[j].backend@ == logged_in(
                        next,
                    )[j].backend by {
                        if j < prev_out.len() {
                            assert(outputs@[j] == prev_out[j]);
                            assert(logged_in(next)[j] == logged_in(prefix)[j]);
                        } else {
                            assert(logged_in(next)[j] == account@);
                        }
                    }
                    assert forall|j: int|
                        0 <= j < outputs@.len() && proxy_unreadable(
                            logged_in(next)[j],
                            self.key(),
                        ) implies (#[trigger] outputs@[j]).result is Err by {
                        if j < prev_out.len() {
                            assert(outputs@[j] == prev_out[j]);
                            assert(logged_in(next)[j] == logged_in(prefix)[j]);
                        } else {
                            assert(logged_in(next)[j] == account@);
                        }
                    }
                }
            } else {
                proof {
                    assert(logged_in(next) == logged_in(prefix));
                }
            }
            i = i + 1;
        }
        proof {
            assert(self.model().subrange(0, n as int) =~= self.model());
            assert forall|j: int|
                0 <= j < outputs@.len() && proxy_unreadable(logged_in(self.model())[j], self.key())
                    implies (#[trigger] outputs@[j]).result is Err by {
                assert(proxy_unreadable(
                    logged_in(self.model().subrange(0, n as int))[j],
                    self.key(),
                ));
            }
            assert forall|j: int|
                0 <= j < outputs@.len() implies (#[trigger] outputs@[j].email)@ == logged_in(
                self.model(),
            )[j].email && outputs@[j].backend@ == logged_in(self.model())[j].backend by {
                assert(outputs@[j].email@ == logged_in(self.model().subrange(0, n as int))[j].email);
                assert(outputs@[j].backend@ == logged_in(
                    self.model().subrange(0, n as int),
                )[j].backend);
            }
        }
        Ok(outputs)
    }

    /// All stored records, ordered by email ascending.
    pub fn accounts(&self) -> (r: Result<Vec<Account>, Error>)
        requires
            self.wf(),
        ensures
            r matches Ok(v) && seq_views(v@) == self.model(),
    {
        match self.state.accounts() {
            Ok(v) => Ok(v),
            Err(e) => Err(Error::State(e)),
        }
    }

    /// The record holding `email`, or nothing.
    pub fn account(&self, email: &str) -> (r: Result<Option<Account>, Error>)
        requires
            self.wf(),
        ensures
            r matches Ok(o) && (match o {
                Some(a) => lookup(self.model(), email@) == Some(a@),
                None => lookup(self.model(), email@) is None,
            }),
    {
        match self.state.account(email) {
            Ok(o) => Ok(o),
            Err(e) => Err(Error::State(e)),
        }
    }

    /// How many records are stored.
    pub fn account_count(&self) -> (r: Result<usize, Error>)
        requires
            self.wf(),
        ensures
            r matches Ok(c) && c == self.model().len(),
    {
        match self.state.account_count() {
            Ok(c) => Ok(c),
            Err(e) => Err(Error::State(e)),
        }
    }

    /// The poll interval setting, in seconds.
    pub fn poll_interval(&self) -> (r: Result<u64, Error>)
        requires
            self.wf(),
        ensures
            r matches Ok(v) && v == self.interval(),
    {
        match self.state.poll_interval() {
            Ok(v) => Ok(v),
            Err(e) => Err(Error::State(e)),
        }
    }

    /// Update the poll interval setting.
    pub fn set_poll_interval(&mut self, secs: u64) -> (r: Result<(), Error>)
        requires
            old(self).wf(),
            secs <= i64::MAX as u64,
        ensures
            final(self).wf(),
            final(self).key() == old(self).key(),
            final(self).model() == old(self).model(),
            r is Ok ==> final(self).interval() == secs,
            r matches Err(e) ==> (e is State && final(self).interval() == old(self).interval()),
    {
        match self.state.set_poll_interval(secs) {
            Ok(()) => Ok(()),
            Err(e) => Err(Error::State(e)),
        }
    }

    /// Add a new account for `email` on the backend named `backend`: fails
    /// with `BackendNotFound` for an unregistered name, with
    /// `AccountAlreadyExist` for a stored email.
    pub fn new_account(&mut self, email: &str, backend: &str) -> (r: Result<Account, Error>)
        requires
            old(self).wf(),
        ensures
            final(self).wf(),
            final(self).key() == old(self).key(),
            final(self).interval() == old(self).interval(),
            r matches Ok(a) ==> a@ == fresh_account(email@, backend@) && !contains_email(
                old(self).model(),
                email@,
            ) && (exists|i: int|
                0 <= i <= old(self).model().len() && final(self).model() == old(
                    self,
                ).model().insert(i, fresh_account(email@, backend@))),
            r matches Err(e) ==> (final(self).model() == old(self).model() && match e {
                Error::AccountAlreadyExist(m) => contains_email(old(self).model(), email@) && m@
                    == email@,
                Error::BackendNotFound(m) => m@ == backend@,
                Error::State(se) => se is Db,
                _ => false,
            }),
            contains_email(old(self).model(), email@) ==> r is Err,
    {
        if let None = self.backend_with_name(backend) {
            return Err(Error::BackendNotFound(backend.to_owned()));
        }
        let ghost pre = self.model();
        match self.state.new_account(email, backend) {
            Ok(a) => {
                proof {
                    let i = choose|i: int|
                        0 <= i <= pre.len() && self.state.model() == pre.insert(
                            i,
                            fresh_account(email@, backend@),
                        );
                    assert(0 <= i <= pre.len() && self.model() == pre.insert(
                        i,
                        fresh_account(email@, backend@),
                    ));
                }
                Ok(a)
            },
            Err(e) => match e {
                crate::state::Error::AlreadyExists(m) => Err(Error::AccountAlreadyExist(m)),
                other => Err(Error::State(other)),
            },
        }
    }

    /// Update the stored proxy configuration of the account with `email`;
    /// `None` clears it.
    pub fn update_proxy(&mut self, email: &str, proxy: Option<&crate::proxy::ProxyConfig>) -> (r:
        Result<(), Error>)
        requires
            old(self).wf(),
        ensures
            final(self).wf(),
            final(self).key() == old(self).key(),
            final(self).interval() == old(self).interval(),
            r is Err ==> final(self).model() == old(self).model(),
            r is Ok && !contains_email(old(self).model(), email@) ==> final(self).model() == old(
                self,
            ).model(),
            r is Ok && contains_email(old(self).model(), email@) ==> (exists|p: Option<Seq<u8>>|
                #[trigger] opt_trigger(p) && final(self).model() == old(self).model().update(
                    index_of_email(old(self).model(), email@),
                    (AccountView {
                        proxy: p,
                        ..old(self).model()[index_of_email(old(self).model(), email@)]
                    }),
                )),
    {
        let ghost pre = self.model();
        match self.state.set_proxy(email, proxy) {
            Ok(()) => {
                proof {
                    if contains_email(pre, email@) {
                        let ghost idx = index_of_email(pre, email@);
                        match proxy {
                            None => {
                                assert(opt_trigger(None::<Seq<u8>>));
                                assert(self.model() == pre.update(
                                    idx,
                                    (AccountView { proxy: None, ..pre[idx] }),
                                ));
                            },
                            Some(cfg) => {
                                let c = choose|c: Seq<u8>|
                                    crate::encryption::blob_plaintext(old(self).key(), c) == Some(
                                        crate::proxy::encode_proxy_spec(cfg@),
                                    ) && self.state.model() == pre.update(
                                        idx,
                                        (AccountView { proxy: Some(c), ..pre[idx] }),
                                    );
                                assert(opt_trigger(Some(c)));
                            },
                        }
                    }
                }
                Ok(())
            },
            Err(e) => Err(Error::State(e)),
        }
    }

    /// Delete the account with `email`: logout is attempted, but a logout
    /// failure is swallowed and the stored record is deleted all the same —
    /// local state is never held hostage by a remote-side failure.
    pub fn delete(&mut self, email: &str) -> (r: Result<(), Error>)
        requires
            old(self).wf(),
        ensures
            final(self).wf(),
            final(self).key() == old(self).key(),
            final(self).interval() == old(self).interval(),
            !contains_email(old(self).model(), email@) ==> (r matches Err(e) && e matches
                Error::AccountNotFound(m) && m@ == email@ && final(self).model() == old(
                self,
            ).model()),
            contains_email(old(self).model(), email@) && r is Ok ==> final(self).model() == old(
                self,
            ).model().remove(index_of_email(old(self).model(), email@)) && !contains_email(
                final(self).model(),
                email@,
            ),
            contains_email(old(self).model(), email@) ==> (r matches Err(e) ==> e is State
                && final(self).model() == old(self).model()),
    {
        let account = match self.state.account(email) {
            Ok(Some(a)) => a,
            Ok(None) => { return Err(Error::AccountNotFound(email.to_owned())) },
            Err(e) => { return Err(Error::State(e)) },
        };
        match self.build_account_poller(&account) {
            Ok(mut session) => {
                // A failed remote logout is deliberately swallowed here;
                // `logout` is the call that propagates it.
                match session.logout() {
                    Ok(()) => (),
                    Err(_) => (),
                }
            },
            Err(_) => (),
        }
        let ghost pre = self.model();
        match self.state.delete(email) {
            Ok(()) => {
                proof {
                    lemma_state_wf_sorted(old(self).state);
                    let ghost i = index_of_email(pre, email@);
                    pre.remove_ensures(i);
                    if contains_email(pre.remove(i), email@) {
                        let ghost j = index_of_email(pre.remove(i), email@);
                        if j < i {
                            lemma_sorted_emails_unique(pre, j, i);
                        } else {
                            lemma_sorted_emails_unique(pre, j + 1, i);
                        }
                    }
                }
                Ok(())
            },
            Err(e) => Err(Error::State(e)),
        }
    }

    /// Log the account with `email` out: unlike `delete`, a failure of the
    /// remote logout is propagated, and the stored record is kept.
    pub fn logout(&mut self, email: &str) -> (r: Result<(), Error>)
        requires
            old(self).wf(),
        ensures
            final(self).wf(),
            final(self).key() == old(self).key(),
            final(self).interval() == old(self).interval(),
            !contains_email(old(self).model(), email@) ==> (r matches Err(e) && e matches
                Error::AccountNotFound(m) && m@ == email@ && final(self).model() == old(
                self,
            ).model()),
            r is Ok ==> contains_email(old(self).model(), email@) && final(self).model() == old(
                self,
            ).model().update(
                index_of_email(old(self).model(), email@),
                (AccountView {
                    secret: None,
                    ..old(self).model()[index_of_email(old(self).model(), email@)]
                }),
            ),
            r is Err ==> final(self).model() == old(self).model(),
    {
        let account = match self.state.account(email) {
            Ok(Some(a)) => a,
            Ok(None) => { return Err(Error::AccountNotFound(email.to_owned())) },
            Err(e) => { return Err(Error::State(e)) },
        };
        let mut session = match self.build_account_poller(&account) {
            Ok(s) => s,
            Err(e) => { return Err(Error::Backend(e)) },
        };
        if let Err(e) = session.logout() {
            return Err(Error::Backend(e));
        }
        match self.state.delete_secret_state(email) {
            Ok(()) => Ok(()),
            Err(e) => Err(Error::State(e)),
        }
    }
}

} // verus!
