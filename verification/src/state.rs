//! The account store: records, a singleton settings row, and encryption of
//! secret blobs.
//!
//! The store owns the connection pool and keeps the authoritative list of
//! account records, sorted by email ascending, together with the settings
//! record.  Every mutation writes through to durable storage inside one
//! pooled write transaction before the in-memory list changes, so the list
//! the contracts speak of only moves when the engine accepted the write.
//! Reads answer from the store directly.
//!
//! An account is logged in exactly when its secret blob is present; no
//! separate flag exists.

use vstd::prelude::*;

verus! {

use crate::db::{Pool, Transaction};
use crate::encryption::{Key, blob_plaintext};
use crate::proxy::{ProxyConfig, ProxyConfigView, proxy_wf, encode_proxy, encode_proxy_spec, parse_proxy};
use crate::strutil::{
    lex_lt,
    str_eq,
    str_lt,
    lemma_lex_lt_total,
    lemma_lex_lt_transitive,
    lemma_lex_lt_irreflexive,
};

/// Errors of the store.  Decryption stays distinct from serialization and
/// from storage failures, so a caller can tell a wrong or rotated key from
/// a corrupt payload and from an engine error.
#[derive(Debug, PartialEq, Eq, Clone)]
pub enum Error {
    /// A payload could not be encoded or decoded.
    Serialization,
    /// A sealed blob did not authenticate under the key in use.
    Decryption,
    /// Sealing a payload failed.
    Encryption,
    /// The storage engine reported a failure.
    Db(String),
    /// `new_account` found the email already stored.
    AlreadyExists(String),
}

/// Mathematical image of one stored account record.
pub struct AccountView {
    pub email: Seq<char>,
    pub backend: Seq<char>,
    pub secret: Option<Seq<u8>>,
    pub state: Option<Seq<u8>>,
    pub proxy: Option<Seq<u8>>,
}

/// A record freshly created for `email` on `backend`: every optional field
/// absent, hence logged out.
pub open spec fn fresh_account(email: Seq<char>, backend: Seq<char>) -> AccountView {
    AccountView { email, backend, secret: None, state: None, proxy: None }
}

/// View of an optional byte payload.
pub open spec fn opt_bytes(o: Option<Vec<u8>>) -> Option<Seq<u8>> {
    match o {
        None => None,
        Some(v) => Some(v@),
    }
}

/// One stored account record.
///
/// An account is considered logged in exactly when some secret blob is
/// present; it is logged out otherwise.
#[derive(Debug)]
pub struct Account {
    pub(crate) email: String,
    pub(crate) backend: String,
    pub(crate) secret: Option<Vec<u8>>,
    pub(crate) state: Option<Vec<u8>>,
    pub(crate) proxy: Option<Vec<u8>>,
}

impl View for Account {
    type V = AccountView;

    closed spec fn view(&self) -> AccountView {
        AccountView {
            email: self.email@,
            backend: self.backend@,
            secret: opt_bytes(self.secret),
            state: opt_bytes(self.state),
            proxy: opt_bytes(self.proxy),
        }
    }
}

/// Views of a sequence of records.
pub open spec fn seq_views(s: Seq<Account>) -> Seq<AccountView> {
    s.map_values(|a: Account| a@)
}

/// Strictly ascending email order; this also makes emails unique.
pub open spec fn sorted_by_email(s: Seq<AccountView>) -> bool {
    forall|i: int, j: int|
        0 <= i < j < s.len() ==> #[trigger] lex_lt(s[i].email, s[j].email)
}

/// Whether some record holds `email`.
pub open spec fn contains_email(s: Seq<AccountView>, email: Seq<char>) -> bool {
    exists|i: int| 0 <= i < s.len() && (#[trigger] s[i].email) == email
}

/// The index of the record holding `email`.
pub open spec fn index_of_email(s: Seq<AccountView>, email: Seq<char>) -> int {
    choose|i: int| 0 <= i < s.len() && (#[trigger] s[i].email) == email
}

/// The record holding `email`, if any.
pub open spec fn lookup(s: Seq<AccountView>, email: Seq<char>) -> Option<AccountView> {
    if contains_email(s, email) {
        Some(s[index_of_email(s, email)])
    } else {
        None
    }
}

/// In a sorted sequence no two records share an email.
pub proof fn lemma_sorted_emails_unique(s: Seq<AccountView>, i: int, j: int)
    requires
        sorted_by_email(s),
        0 <= i < s.len(),
        0 <= j < s.len(),
        i != j,
    ensures
        s[i].email != s[j].email,
{
    if i < j {
        assert(lex_lt(s[i].email, s[j].email));
        if s[i].email == s[j].email {
            lemma_lex_lt_irreflexive(s[i].email);
        }
    } else {
        assert(lex_lt(s[j].email, s[i].email));
        if s[i].email == s[j].email {
            lemma_lex_lt_irreflexive(s[i].email);
        }
    }
}

impl Account {
    /// Create a record for `email` on `backend` with every optional field
    /// absent.
    pub fn new(email: String, backend: String) -> (a: Account)
        ensures
            a@ == fresh_account(email@, backend@),
    {
        Account { email, backend, secret: None, state: None, proxy: None }
    }

    /// The account's email.
    pub fn email(&self) -> (r: &str)
        ensures
            r@ == self@.email,
    {
        self.email.as_str()
    }

    /// The account's backend name.
    pub fn backend(&self) -> (r: &str)
        ensures
            r@ == self@.backend,
    {
        self.backend.as_str()
    }

    /// Whether the account is logged out: true exactly when no secret blob
    /// is present.
    pub fn is_logged_out(&self) -> (r: bool)
        ensures
            r == (self@.secret is None),
    {
        self.secret.is_none()
    }

    /// The plaintext state payload, if any.
    pub fn state(&self) -> (r: &Option<Vec<u8>>)
        ensures
            opt_bytes(*r) == self@.state,
    {
        &self.state
    }

    /// Replace the plaintext state payload; `None` clears it.
    pub fn set_state(&mut self, state: Option<Vec<u8>>)
        ensures
            final(self)@ == (AccountView { state: opt_bytes(state), ..old(self)@ }),
    {
        self.state = state;
    }

    /// Decrypt the secret payload under `key`: the stored plaintext when the
    /// blob authenticates, `Decryption` when it does not, nothing when no
    /// secret is present.
    pub fn secret(&self, key: &Key) -> (r: Result<Option<Vec<u8>>, Error>)
        ensures
            self@.secret is None ==> (r matches Ok(o) && o is None),
            self@.secret matches Some(c) ==> match blob_plaintext(key@, c) {
                Some(p) => (r matches Ok(o) && o matches Some(v) && v@ == p),
                None => (r matches Err(e) && e is Decryption),
            },
    {
        match &self.secret {
            None => Ok(None),
            Some(blob) => match key.decrypt(blob.as_slice()) {
                Some(p) => Ok(Some(p)),
                None => Err(Error::Decryption),
            },
        }
    }

    /// Seal `secret` under `key` and store it; `None` clears the stored
    /// secret and logs the account out.
    pub fn set_secret(&mut self, key: &Key, secret: Option<&[u8]>) -> (r: Result<(), Error>)
        ensures
            secret is None ==> (r is Ok && final(self)@ == (AccountView {
                secret: None,
                ..old(self)@
            })),
            secret matches Some(p) ==> (r is Ok ==> exists|c: Seq<u8>|
                blob_plaintext(key@, c) == Some(p@) && final(self)@ == (AccountView {
                    secret: Some(c),
                    ..old(self)@
                })),
            r matches Err(e) ==> (e is Encryption && *final(self) == *old(self)),
    {
        match secret {
            None => {
                self.secret = None;
                Ok(())
            },
            Some(p) => match key.encrypt(p) {
                Some(blob) => {
                    proof {
                        assert(blob_plaintext(key@, blob@) == Some(p@));
                    }
                    self.secret = Some(blob);
                    Ok(())
                },
                None => Err(Error::Encryption),
            },
        }
    }

    /// Decrypt and deserialize the proxy configuration under `key`: nothing
    /// when no proxy blob is present, `Decryption` when the blob does not
    /// authenticate, `Serialization` when the plaintext is not a canonical
    /// proxy document.
    pub fn proxy(&self, key: &Key) -> (r: Result<Option<ProxyConfig>, Error>)
        ensures
            self@.proxy is None ==> (r matches Ok(o) && o is None),
            self@.proxy matches Some(c) ==> match blob_plaintext(key@, c) {
                None => (r matches Err(e) && e is Decryption),
                Some(plain) => (r matches Ok(o) ==> o matches Some(cfg) && proxy_wf(cfg@)
                    && encode_proxy_spec(cfg@) == plain) && (r matches Err(e) ==> e
                    is Serialization) && (forall|q: ProxyConfigView|
                    (proxy_wf(q) && plain == encode_proxy_spec(q)) ==> (r matches Ok(o)
                        && o matches Some(cfg) && cfg@ == q)),
            },
    {
        match &self.proxy {
            None => Ok(None),
            Some(blob) => match key.decrypt(blob.as_slice()) {
                None => Err(Error::Decryption),
                Some(plain) => match parse_proxy(plain.as_slice()) {
                    Some(cfg) => Ok(Some(cfg)),
                    None => Err(Error::Serialization),
                },
            },
        }
    }

    /// Serialize `proxy`, seal it under `key` and store it; `None` clears
    /// the stored proxy configuration.
    pub fn set_proxy(&mut self, key: &Key, proxy: Option<&ProxyConfig>) -> (r: Result<(), Error>)
        ensures
            proxy is None ==> (r is Ok && final(self)@ == (AccountView {
                proxy: None,
                ..old(self)@
            })),
            proxy matches Some(cfg) ==> {
                &&& !proxy_wf(cfg@) ==> (r matches Err(e) && e is Serialization)
                &&& r is Ok ==> exists|c: Seq<u8>|
                    blob_plaintext(key@, c) == Some(encode_proxy_spec(cfg@)) && final(self)@ == (
                    AccountView { proxy: Some(c), ..old(self)@ })
                &&& r matches Err(e) ==> (*final(self) == *old(self) && ((e is Serialization
                    && !proxy_wf(cfg@)) || e is Encryption))
            },
    {
        match proxy {
            None => {
                self.proxy = None;
                Ok(())
            },
            Some(cfg) => {
                let encoded = match encode_proxy(cfg) {
                    Some(v) => v,
                    None => { return Err(Error::Serialization) },
                };
                match key.encrypt(encoded.as_slice()) {
                    Some(blob) => {
                        proof {
                            assert(blob_plaintext(key@, blob@) == Some(encode_proxy_spec(cfg@)));
                        }
                        self.proxy = Some(blob);
                        Ok(())
                    },
                    None => Err(Error::Encryption),
                }
            },
        }
    }
}

/// Conversion trait for new accounts: how a provider-side value becomes a
/// stored record, sealing whatever needs sealing under the store's key.
pub trait IntoAccount {
    /// Convert into a stored record.
    fn into_account(self, encryption_key: &Key) -> Result<Account, Error>;
}

impl IntoAccount for Account {
    fn into_account(self, encryption_key: &Key) -> (r: Result<Account, Error>)
        ensures
            r matches Ok(a) && a == self,
    {
        Ok(self)
    }
}

/// Copy an optional byte payload.
fn dup_opt_bytes(o: &Option<Vec<u8>>) -> (r: Option<Vec<u8>>)
    ensures
        opt_bytes(r) == opt_bytes(*o),
{
    match o {
        None => None,
        Some(v) => {
            let c = v.clone();
            proof {
                assert(c@ =~= v@);
            }
            Some(c)
        },
    }
}

/// Copy a whole record.
fn dup_account(a: &Account) -> (r: Account)
    ensures
        r@ == a@,
{
    Account {
        email: a.email.clone(),
        backend: a.backend.clone(),
        secret: dup_opt_bytes(&a.secret),
        state: dup_opt_bytes(&a.state),
        proxy: dup_opt_bytes(&a.proxy),
    }
}

/// Find where `email` stands in the sorted record list: either the index
/// that holds it, or the slot where it would be inserted.
fn find_slot(accounts: &Vec<Account>, email: &str) -> (r: (usize, bool))
    requires
        sorted_by_email(seq_views(accounts@)),
    ensures
        r.1 ==> r.0 < accounts@.len() && seq_views(accounts@)[r.0 as int].email == email@
            && contains_email(seq_views(accounts@), email@),
        !r.1 ==> r.0 <= accounts@.len() && !contains_email(seq_views(accounts@), email@) && (
        forall|k: int|
            0 <= k < r.0 ==> lex_lt(#[trigger] seq_views(accounts@)[k].email, email@)) && (
        forall|k: int|
            r.0 <= k < accounts@.len() ==> lex_lt(
                email@,
                #[trigger] seq_views(accounts@)[k].email,
            )),
{
    let ghost s = seq_views(accounts@);
    let n = accounts.len();
    let mut i: usize = 0;
    loop
        invariant
            i <= n,
            n == accounts@.len(),
            s == seq_views(accounts@),
            sorted_by_email(s),
            forall|k: int| 0 <= k < i ==> lex_lt(#[trigger] s[k].email, email@),
        decreases n - i,
    {
        if i >= n {
            proof {
                assert forall|k: int| 0 <= k < s.len() implies s[k].email != email@ by {
                    if s[k].email == email@ {
                        lemma_lex_lt_irreflexive(email@);
                    }
                }
            }
            return (i, false);
        }
        let a = &accounts[i];
        proof {
            assert(s[i as int] == accounts@[i as int]@);
        }
        if str_eq(a.email.as_str(), email) {
            return (i, true);
        }
        if str_lt(email, a.email.as_str()) {
            proof {
                assert forall|k: int| i <= k < s.len() implies lex_lt(email@, s[k].email) by {
                    if k > i {
                        assert(lex_lt(s[i as int].email, s[k].email));
                        lemma_lex_lt_transitive(email@, s[i as int].email, s[k].email);
                    }
                }
                assert forall|k: int| 0 <= k < s.len() implies s[k].email != email@ by {
                    if s[k].email == email@ {
                        lemma_lex_lt_irreflexive(email@);
                    }
                }
            }
            return (i, false);
        }
        proof {
            lemma_lex_lt_total(email@, s[i as int].email);
        }
        i = i + 1;
    }
}

/// Inserting a record between its lower and upper neighbours keeps the list
/// sorted.
proof fn lemma_insert_sorted(s: Seq<AccountView>, a: AccountView, i: int)
    requires
        sorted_by_email(s),
        0 <= i <= s.len(),
        forall|k: int| 0 <= k < i ==> lex_lt(#[trigger] s[k].email, a.email),
        forall|k: int| i <= k < s.len() ==> lex_lt(a.email, #[trigger] s[k].email),
    ensures
        sorted_by_email(s.insert(i, a)),
{
    let t = s.insert(i, a);
    s.insert_ensures(i, a);
    assert forall|p: int, q: int| 0 <= p < q < t.len() implies lex_lt(t[p].email, t[q].email) by {
        if p < i && q < i {
            assert(lex_lt(s[p].email, s[q].email));
        } else if p < i && q == i {
            assert(lex_lt(s[p].email, a.email));
        } else if p < i && q > i {
            assert(lex_lt(s[p].email, s[q - 1].email));
        } else if p == i && q > i {
            assert(lex_lt(a.email, s[q - 1].email));
        } else if p > i && q > i {
            assert(lex_lt(s[p - 1].email, s[q - 1].email));
        }
    }
}

/// Removing a record keeps the list sorted.
proof fn lemma_remove_sorted(s: Seq<AccountView>, i: int)
    requires
        sorted_by_email(s),
        0 <= i < s.len(),
    ensures
        sorted_by_email(s.remove(i)),
{
    let t = s.remove(i);
    s.remove_ensures(i);
    assert forall|p: int, q: int| 0 <= p < q < t.len() implies lex_lt(t[p].email, t[q].email) by {
        if p < i && q < i {
            assert(lex_lt(s[p].email, s[q].email));
        } else if p < i && q >= i {
            assert(lex_lt(s[p].email, s[q + 1].email));
        } else {
            assert(lex_lt(s[p + 1].email, s[q + 1].email));
        }
    }
}

/// Replacing a record by one holding the same email keeps the list sorted.
proof fn lemma_update_sorted(s: Seq<AccountView>, i: int, a: AccountView)
    requires
        sorted_by_email(s),
        0 <= i < s.len(),
        a.email == s[i].email,
    ensures
        sorted_by_email(s.update(i, a)),
{
    let t = s.update(i, a);
    assert forall|p: int, q: int| 0 <= p < q < t.len() implies lex_lt(t[p].email, t[q].email) by {
        assert(lex_lt(s[p].email, s[q].email));
    }
}

/// Views distribute over insertion.
proof fn lemma_views_insert(s: Seq<Account>, a: Account, i: int)
    requires
        0 <= i <= s.len(),
    ensures
        seq_views(s.insert(i, a)) == seq_views(s).insert(i, a@),
{
    s.insert_ensures(i, a);
    seq_views(s).insert_ensures(i, a@);
    assert(seq_views(s.insert(i, a)) =~= seq_views(s).insert(i, a@));
}

/// Views distribute over removal.
proof fn lemma_views_remove(s: Seq<Account>, i: int)
    requires
        0 <= i < s.len(),
    ensures
        seq_views(s.remove(i)) == seq_views(s).remove(i),
{
    s.remove_ensures(i);
    seq_views(s).remove_ensures(i);
    assert(seq_views(s.remove(i)) =~= seq_views(s).remove(i));
}

/// Views distribute over in-place update.
proof fn lemma_views_update(s: Seq<Account>, i: int, a: Account)
    requires
        0 <= i < s.len(),
    ensures
        seq_views(s.update(i, a)) == seq_views(s).update(i, a@),
{
    assert(seq_views(s.update(i, a)) =~= seq_views(s).update(i, a@));
}

/// Identifier of the single settings row.
pub const SETTINGS_ID: i64 = 1;

/// Poll interval, in seconds, of a freshly initialized store.
pub const DEFAULT_POLL_INTERVAL_SECONDS: u64 = 300;

/// Create the account and settings tables if absent and insert the default
/// settings row if absent.  Returns whether the settings row was inserted
/// now, i.e. whether the store was fresh.
fn create_tables(tx: &Transaction) -> (r: Result<bool, Error>)
    ensures
        r is Err ==> r->Err_0 is Db,
{
    if let Err(e) = tx.batch(
        "CREATE TABLE IF NOT EXISTS yhm (\n    email TEXT PRIMARY KEY,\n    backend TEXT NOT NULL,\n    secret BLOB DEFAULT NULL,\n    state BLOB DEFAULT NULL,\n    proxy BLOB DEFAULT NULL\n)",
    ) {
        return Err(e);
    }
    if let Err(e) = tx.batch(
        "CREATE TABLE IF NOT EXISTS yhm_settings (\n    id INTEGER PRIMARY KEY,\n    poll_interval INTEGER NOT NULL DEFAULT 300\n)",
    ) {
        return Err(e);
    }
    match tx.execute_two_i64(
        "INSERT OR IGNORE INTO yhm_settings VALUES (?,?)",
        SETTINGS_ID,
        DEFAULT_POLL_INTERVAL_SECONDS as i64,
    ) {
        Ok(n) => Ok(n > 0),
        Err(e) => Err(e),
    }
}

/// Contains all state persisted in the database.
pub struct State {
    pool: Pool,
    encryption_key: Key,
    accounts: Vec<Account>,
    interval_secs: u64,
}

impl State {
    /// The stored records, sorted by email ascending.
    pub closed spec fn model(self) -> Seq<AccountView> {
        seq_views(self.accounts@)
    }

    /// The stored poll interval in seconds.
    pub closed spec fn interval(self) -> u64 {
        self.interval_secs
    }

    /// The store's encryption key.
    pub closed spec fn key(self) -> Seq<u8> {
        self.encryption_key@
    }

    /// Records sorted and pool bounded.
    pub closed spec fn wf(self) -> bool {
        sorted_by_email(self.model()) && self.pool.wf()
    }

    /// Open or create the database at `db_path`, create the tables and the
    /// default settings row if absent (idempotent), and load the stored
    /// records and settings.
    pub fn new(db_path: String, encryption_key: Key) -> (r: Result<State, Error>)
        ensures
            r matches Ok(s) ==> s.wf() && s.key() == encryption_key@,
            r matches Err(e) ==> e is Db,
    {
        let mut pool = Pool::new(db_path);
        let conn = match pool.connection() {
            Ok(c) => c,
            Err(e) => { return Err(e) },
        };
        let tx = match conn.transaction() {
            Ok(t) => t,
            Err((c, e)) => {
                pool.release(c);
                return Err(e);
            },
        };
        let fresh = match create_tables(&tx) {
            Ok(f) => f,
            Err(e) => {
                let c = tx.rollback();
                pool.release(c);
                return Err(e);
            },
        };
        let conn = match tx.commit() {
            Ok(c) => c,
            Err((c, e)) => {
                pool.release(c);
                return Err(e);
            },
        };
        Self::load(pool, conn, encryption_key, fresh)
    }

    /// Open the database at `db_path` without creating the tables, and load
    /// the stored records and settings; fails when the tables are absent.
    pub fn without_init(db_path: String, encryption_key: Key) -> (r: Result<State, Error>)
        ensures
            r matches Ok(s) ==> s.wf() && s.key() == encryption_key@,
            r matches Err(e) ==> e is Db,
    {
        let mut pool = Pool::new(db_path);
        let conn = match pool.connection() {
            Ok(c) => c,
            Err(e) => { return Err(e) },
        };
        Self::load(pool, conn, encryption_key, false)
    }

    /// Load every stored record and the settings row through `conn`, then
    /// release it.  When the settings row was created by this very call
    /// (`fresh`), the interval is the default of 300 seconds; otherwise it
    /// is the stored value, and a negative stored value — impossible to
    /// write through this store — is surfaced as a storage error.  The
    /// records become the model exactly as [`sort_records`] states.
    fn load(pool: Pool, conn: crate::db::Connection, encryption_key: Key, fresh: bool) -> (r:
        Result<State, Error>)
        requires
            pool.wf(),
        ensures
            r matches Ok(s) ==> s.wf() && s.key() == encryption_key@,
            fresh ==> (r matches Ok(s2) ==> s2.interval() == DEFAULT_POLL_INTERVAL_SECONDS),
            r matches Err(e) ==> e is Db,
    {
        let mut pool = pool;
        let rows = match conn.load_accounts(
            "SELECT email, backend, secret, state, proxy FROM yhm",
        ) {
            Ok(rs) => rs,
            Err(e) => {
                pool.release(conn);
                return Err(e);
            },
        };
        let interval_secs: u64 = if fresh {
            DEFAULT_POLL_INTERVAL_SECONDS
        } else {
            match conn.load_one_i64("SELECT poll_interval FROM yhm_settings WHERE id=1 LIMIT 1") {
                Ok(v) => {
                    if v < 0 {
                        pool.release(conn);
                        return Err(Error::Db("stored poll interval is negative".to_owned()));
                    }
                    v as u64
                },
                Err(e) => {
                    pool.release(conn);
                    return Err(e);
                },
            }
        };
        pool.release(conn);
        let accounts = sort_records(rows);
        Ok(State { pool, encryption_key, accounts, interval_secs })
    }

    /// The store's encryption key.
    pub fn encryption_key(&self) -> (r: &Key)
        ensures
            r@ == self.key(),
    {
        &self.encryption_key
    }
}

/// No earlier input row shares row `j`'s email.
pub open spec fn first_with_email(rows: Seq<Account>, j: int) -> bool {
    forall|j2: int| 0 <= j2 < j ==> (#[trigger] rows[j2])@.email != rows[j]@.email
}

/// `v` is the view of the first input row, among the first `bound`, that
/// bears its email.
pub open spec fn from_first_input(rows: Seq<Account>, v: AccountView, bound: int) -> bool {
    exists|j: int| 0 <= j < bound && v == (#[trigger] rows[j])@ && first_with_email(rows, j)
}

/// A row that is the first of its email among the first `b1` inputs is so
/// among the first `b2 >= b1` as well.
proof fn lemma_from_first_input_widen(rows: Seq<Account>, v: AccountView, b1: int, b2: int)
    requires
        from_first_input(rows, v, b1),
        b1 <= b2,
    ensures
        from_first_input(rows, v, b2),
{
    let j = choose|j: int| 0 <= j < b1 && v == (#[trigger] rows[j])@ && first_with_email(rows, j);
    assert(0 <= j < b2 && v == rows[j]@ && first_with_email(rows, j));
}

/// Arrange loaded records in ascending email order: the result holds
/// exactly the first input row of every distinct email, and nothing else.
/// The schema's primary key keeps emails unique, so in practice no row is
/// dropped.
fn sort_records(rows: Vec<Account>) -> (r: Vec<Account>)
    ensures
        sorted_by_email(seq_views(r@)),
        forall|k: int|
            0 <= k < r@.len() ==> from_first_input(rows@, (#[trigger] r@[k])@, rows@.len() as int),
        forall|j: int|
            0 <= j < rows@.len() ==> contains_email(seq_views(r@), (#[trigger] rows@[j])@.email),
{
    let n = rows.len();
    let mut out: Vec<Account> = Vec::new();
    let mut i: usize = 0;
    while i < n
        invariant
            i <= n,
            n == rows@.len(),
            sorted_by_email(seq_views(out@)),
            forall|k: int|
                0 <= k < out@.len() ==> from_first_input(rows@, (#[trigger] out@[k])@, i as int),
            forall|j: int|
                0 <= j < i ==> contains_email(seq_views(out@), (#[trigger] rows@[j])@.email),
        decreases n - i,
    {
        let a = &rows[i];
        let (idx, found) = find_slot(&out, a.email.as_str());
        if !found {
            let row = dup_account(a);
            let ghost prev = out@;
            proof {
                assert forall|j2: int| 0 <= j2 < i implies (#[trigger] rows@[j2])@.email
                    != rows@[i as int]@.email by {
                    if rows@[j2]@.email == rows@[i as int]@.email {
                        assert(contains_email(seq_views(prev), rows@[j2]@.email));
                    }
                }
                assert(first_with_email(rows@, i as int));
                lemma_views_insert(prev, row, idx as int);
                lemma_insert_sorted(seq_views(prev), row@, idx as int);
                prev.insert_ensures(idx as int, row);
                seq_views(prev).insert_ensures(idx as int, row@);
            }
            out.insert(idx, row);
            proof {
                assert forall|k: int|
                    0 <= k < out@.len() implies from_first_input(
                        rows@,
                        (#[trigger] out@[k])@,
                        i + 1,
                    ) by {
                    if k < idx {
                        assert(out@[k] == prev[k]);
                        lemma_from_first_input_widen(rows@, prev[k]@, i as int, i + 1);
                    } else if k == idx {
                        assert(out@[k]@ == rows@[i as int]@);
                        assert(0 <= i < i + 1 && out@[k]@ == rows@[i as int]@ && first_with_email(
                            rows@,
                            i as int,
                        ));
                    } else {
                        assert(out@[k] == prev[k - 1]);
                        lemma_from_first_input_widen(rows@, prev[k - 1]@, i as int, i + 1);
                    }
                }
                assert forall|j: int|
                    0 <= j < i + 1 implies contains_email(
                        seq_views(out@),
                        (#[trigger] rows@[j])@.email,
                    ) by {
                    if j < i {
                        let k0 = choose|k0: int|
                            0 <= k0 < seq_views(prev).len() && (#[trigger] seq_views(
                                prev,
                            )[k0].email) == rows@[j]@.email;
                        if k0 < idx {
                            assert(seq_views(out@)[k0].email == rows@[j]@.email);
                        } else {
                            assert(seq_views(out@)[k0 + 1].email == rows@[j]@.email);
                        }
                    } else {
                        assert(seq_views(out@)[idx as int].email == rows@[j]@.email);
                    }
                }
            }
        } else {
            proof {
                assert(seq_views(out@)[idx as int].email == rows@[i as int]@.email);
            }
        }
        i = i + 1;
    }
    out
}

/// Run one write statement with one text parameter inside a fresh pooled
/// transaction: begin, execute, commit on success, roll back on failure.
fn run_write_text(pool: &mut Pool, sql: &str, text: &str) -> (r: Result<usize, Error>)
    requires
        old(pool).wf(),
    ensures
        final(pool).wf(),
        r matches Err(e) ==> e is Db,
{
    let conn = match pool.connection() {
        Ok(c) => c,
        Err(e) => { return Err(e) },
    };
    let tx = match conn.transaction() {
        Ok(t) => t,
        Err((c, e)) => {
            pool.release(c);
            return Err(e);
        },
    };
    let n = match tx.execute_text(sql, text) {
        Ok(n) => n,
        Err(e) => {
            let c = tx.rollback();
            pool.release(c);
            return Err(e);
        },
    };
    match tx.commit() {
        Ok(c) => {
            pool.release(c);
            Ok(n)
        },
        Err((c, e)) => {
            pool.release(c);
            Err(e)
        },
    }
}

/// As [`run_write_text`], with an optional blob and a text parameter.
fn run_write_blob_text(pool: &mut Pool, sql: &str, blob: &Option<Vec<u8>>, text: &str) -> (r:
    Result<usize, Error>)
    requires
        old(pool).wf(),
    ensures
        final(pool).wf(),
        r matches Err(e) ==> e is Db,
{
    let conn = match pool.connection() {
        Ok(c) => c,
        Err(e) => { return Err(e) },
    };
    let tx = match conn.transaction() {
        Ok(t) => t,
        Err((c, e)) => {
            pool.release(c);
            return Err(e);
        },
    };
    let n = match tx.execute_blob_text(sql, blob, text) {
        Ok(n) => n,
        Err(e) => {
            let c = tx.rollback();
            pool.release(c);
            return Err(e);
        },
    };
    match tx.commit() {
        Ok(c) => {
            pool.release(c);
            Ok(n)
        },
        Err((c, e)) => {
            pool.release(c);
            Err(e)
        },
    }
}

/// As [`run_write_text`], with two integer parameters.
fn run_write_two_i64(pool: &mut Pool, sql: &str, a: i64, b: i64) -> (r: Result<usize, Error>)
    requires
        old(pool).wf(),
    ensures
        final(pool).wf(),
        r matches Err(e) ==> e is Db,
{
    let conn = match pool.connection() {
        Ok(c) => c,
        Err(e) => { return Err(e) },
    };
    let tx = match conn.transaction() {
        Ok(t) => t,
        Err((c, e)) => {
            pool.release(c);
            return Err(e);
        },
    };
    let n = match tx.execute_two_i64(sql, a, b) {
        Ok(n) => n,
        Err(e) => {
            let c = tx.rollback();
            pool.release(c);
            return Err(e);
        },
    };
    match tx.commit() {
        Ok(c) => {
            pool.release(c);
            Ok(n)
        },
        Err((c, e)) => {
            pool.release(c);
            Err(e)
        },
    }
}

/// As [`run_write_text`], with the five columns of one account row.
fn run_write_account_row(pool: &mut Pool, sql: &str, account: &Account) -> (r: Result<usize, Error>)
    requires
        old(pool).wf(),
    ensures
        final(pool).wf(),
        r matches Err(e) ==> e is Db,
{
    let conn = match pool.connection() {
        Ok(c) => c,
        Err(e) => { return Err(e) },
    };
    let tx = match conn.transaction() {
        Ok(t) => t,
        Err((c, e)) => {
            pool.release(c);
            return Err(e);
        },
    };
    let n = match tx.execute_account_row(
        sql,
        account.email.as_str(),
        account.backend.as_str(),
        &account.secret,
        &account.state,
        &account.proxy,
    ) {
        Ok(n) => n,
        Err(e) => {
            let c = tx.rollback();
            pool.release(c);
            return Err(e);
        },
    };
    match tx.commit() {
        Ok(c) => {
            pool.release(c);
            Ok(n)
        },
        Err((c, e)) => {
            pool.release(c);
            Err(e)
        },
    }
}

impl State {
    /// All stored records, ordered by email ascending.
    pub fn accounts(&self) -> (r: Result<Vec<Account>, Error>)
        requires
            self.wf(),
        ensures
            r matches Ok(v) && seq_views(v@) == self.model(),
    {
        let mut out: Vec<Account> = Vec::new();
        let n = self.accounts.len();
        let mut i: usize = 0;
        while i < n
            invariant
                i <= n,
                n == self.accounts@.len(),
                out@.len() == i,
                forall|k: int| 0 <= k < i ==> (#[trigger] out@[k])@ == self.accounts@[k]@,
            decreases n - i,
        {
            let a = dup_account(&self.accounts[i]);
            out.push(a);
            i = i + 1;
        }
        proof {
            assert forall|k: int| 0 <= k < n implies seq_views(out@)[k] == self.model()[k] by {
                assert(out@[k]@ == self.accounts@[k]@);
            }
            assert(seq_views(out@) =~= self.model());
        }
        Ok(out)
    }

    /// The record holding `email`, or nothing.
    pub fn account(&self, email: &str) -> (r: Result<Option<Account>, Error>)
        requires
            self.wf(),
        ensures
            r matches Ok(o) && (match o {
                Some(a) => lookup(self.model(), email@) == Some(a@),
                None => lookup(self.model(), email@) is None,
            }),
    {
        let (idx, found) = find_slot(&self.accounts, email);
        if found {
            let a = dup_account(&self.accounts[idx]);
            proof {
                let ghost s = self.model();
                let ghost i = index_of_email(s, email@);
                if i != idx as int {
                    lemma_sorted_emails_unique(s, i, idx as int);
                }
            }
            Ok(Some(a))
        } else {
            Ok(None)
        }
    }

    /// How many records are stored.
    pub fn account_count(&self) -> (r: Result<usize, Error>)
        requires
            self.wf(),
        ensures
            r matches Ok(n) && n == self.model().len(),
    {
        Ok(self.accounts.len())
    }

    /// Whether a record holds `email`.
    pub fn has_account(&self, email: &str) -> (r: Result<bool, Error>)
        requires
            self.wf(),
        ensures
            r matches Ok(b) && b == contains_email(self.model(), email@),
    {
        let (idx, found) = find_slot(&self.accounts, email);
        Ok(found)
    }

    /// The poll interval setting, in seconds.
    pub fn poll_interval(&self) -> (r: Result<u64, Error>)
        requires
            self.wf(),
        ensures
            r matches Ok(v) && v == self.interval(),
    {
        Ok(self.interval_secs)
    }

    /// Update the poll interval setting.
    pub fn set_poll_interval(&mut self, secs: u64) -> (r: Result<(), Error>)
        requires
            old(self).wf(),
            secs <= i64::MAX as u64,
        ensures
            final(self).wf(),
            final(self).key() == old(self).key(),
            final(self).model() == old(self).model(),
            r is Ok ==> final(self).interval() == secs,
            r matches Err(e) ==> (e is Db && final(self).interval() == old(self).interval()),
    {
        match run_write_two_i64(
            &mut self.pool,
            "UPDATE yhm_settings SET poll_interval=? WHERE id=?",
            secs as i64,
            SETTINGS_ID,
        ) {
            Ok(_) => {
                self.interval_secs = secs;
                Ok(())
            },
            Err(e) => Err(e),
        }
    }

    /// Insert a fresh record for `email` on `backend`; fails with
    /// `AlreadyExists` when the email is stored, leaving everything
    /// unchanged.
    pub fn new_account(&mut self, email: &str, backend: &str) -> (r: Result<Account, Error>)
        requires
            old(self).wf(),
        ensures
            final(self).wf(),
            final(self).key() == old(self).key(),
            final(self).interval() == old(self).interval(),
            contains_email(old(self).model(), email@) ==> (r matches Err(e) && e matches
                Error::AlreadyExists(m) && m@ == email@ && final(self).model() == old(
                self,
            ).model()),
            !contains_email(old(self).model(), email@) ==> {
                &&& r matches Ok(a) ==> a@ == fresh_account(email@, backend@) && (exists|i: int|
                    0 <= i <= old(self).model().len() && final(self).model() == old(
                        self,
                    ).model().insert(i, fresh_account(email@, backend@)))
                &&& r matches Err(e) ==> (e is Db && final(self).model() == old(self).model())
            },
    {
        let (idx, found) = find_slot(&self.accounts, email);
        if found {
            return Err(Error::AlreadyExists(email.to_owned()));
        }
        let record = Account::new(email.to_owned(), backend.to_owned());
        match run_write_account_row(
            &mut self.pool,
            "INSERT INTO yhm VALUES (?,?,?,?,?)",
            &record,
        ) {
            Ok(_) => {
                let stored = dup_account(&record);
                proof {
                    lemma_views_insert(self.accounts@, stored, idx as int);
                    lemma_insert_sorted(seq_views(self.accounts@), stored@, idx as int);
                }
                self.accounts.insert(idx, stored);
                Ok(record)
            },
            Err(e) => Err(e),
        }
    }

    /// Create or update the record for `account`'s email.  On conflict only
    /// the secret, state and proxy blobs are replaced; the stored email and
    /// backend never change.
    pub fn store_account(&mut self, account: &Account) -> (r: Result<(), Error>)
        requires
            old(self).wf(),
        ensures
            final(self).wf(),
            final(self).key() == old(self).key(),
            final(self).interval() == old(self).interval(),
            r matches Err(e) ==> (e is Db && final(self).model() == old(self).model()),
            r is Ok && contains_email(old(self).model(), account@.email) ==> final(self).model()
                == old(self).model().update(
                index_of_email(old(self).model(), account@.email),
                merge_record(old(self).model()[index_of_email(old(self).model(), account@.email)], account@),
            ),
            r is Ok && !contains_email(old(self).model(), account@.email) ==> (exists|i: int|
                0 <= i <= old(self).model().len() && final(self).model() == old(
                    self,
                ).model().insert(i, account@)),
    {
        let (idx, found) = find_slot(&self.accounts, account.email.as_str());
        match run_write_account_row(
            &mut self.pool,
            "INSERT INTO yhm VALUES (?,?,?,?,?) ON CONFLICT(email) DO UPDATE SET secret=excluded.secret, state=excluded.state, proxy=excluded.proxy",
            account,
        ) {
            Ok(_) => {
                if found {
                    proof {
                        let ghost s = self.model();
                        let ghost i = index_of_email(s, account@.email);
                        if i != idx as int {
                            lemma_sorted_emails_unique(s, i, idx as int);
                        }
                    }
                    let existing = self.accounts.remove(idx);
                    let merged = Account {
                        email: existing.email,
                        backend: existing.backend,
                        secret: dup_opt_bytes(&account.secret),
                        state: dup_opt_bytes(&account.state),
                        proxy: dup_opt_bytes(&account.proxy),
                    };
                    proof {
                        assert(merged@ == merge_record(
                            old(self).model()[idx as int],
                            account@,
                        ));
                        lemma_views_remove(old(self).accounts@, idx as int);
                        lemma_views_insert(self.accounts@, merged, idx as int);
                        lemma_update_sorted(old(self).model(), idx as int, merged@);
                        assert(seq_views(old(self).accounts@).remove(idx as int).insert(
                            idx as int,
                            merged@,
                        ) =~= old(self).model().update(idx as int, merged@));
                    }
                    self.accounts.insert(idx, merged);
                    Ok(())
                } else {
                    let stored = dup_account(account);
                    proof {
                        lemma_views_insert(self.accounts@, stored, idx as int);
                        lemma_insert_sorted(seq_views(self.accounts@), stored@, idx as int);
                    }
                    self.accounts.insert(idx, stored);
                    Ok(())
                }
            },
            Err(e) => Err(e),
        }
    }

    /// Remove the record holding `email`; removing an absent email is a
    /// no-op.
    pub fn delete(&mut self, email: &str) -> (r: Result<(), Error>)
        requires
            old(self).wf(),
        ensures
            final(self).wf(),
            final(self).key() == old(self).key(),
            final(self).interval() == old(self).interval(),
            r is Ok && contains_email(old(self).model(), email@) ==> final(self).model() == old(
                self,
            ).model().remove(index_of_email(old(self).model(), email@)),
            r is Ok && !contains_email(old(self).model(), email@) ==> final(self).model() == old(
                self,
            ).model(),
            r matches Err(e) ==> (e is Db && final(self).model() == old(self).model()),
    {
        let (idx, found) = find_slot(&self.accounts, email);
        match run_write_text(&mut self.pool, "DELETE FROM yhm WHERE email=?", email) {
            Ok(_) => {
                if found {
                    proof {
                        let ghost s = self.model();
                        let ghost i = index_of_email(s, email@);
                        if i != idx as int {
                            lemma_sorted_emails_unique(s, i, idx as int);
                        }
                        lemma_views_remove(self.accounts@, idx as int);
                        lemma_remove_sorted(self.model(), idx as int);
                    }
                    self.accounts.remove(idx);
                }
                Ok(())
            },
            Err(e) => Err(e),
        }
    }

    /// Remove the record holding `email`; same behaviour as [`State::delete`].
    pub fn delete_account(&mut self, email: &str) -> (r: Result<(), Error>)
        requires
            old(self).wf(),
        ensures
            final(self).wf(),
            final(self).key() == old(self).key(),
            final(self).interval() == old(self).interval(),
            r is Ok && contains_email(old(self).model(), email@) ==> final(self).model() == old(
                self,
            ).model().remove(index_of_email(old(self).model(), email@)),
            r is Ok && !contains_email(old(self).model(), email@) ==> final(self).model() == old(
                self,
            ).model(),
            r matches Err(e) ==> (e is Db && final(self).model() == old(self).model()),
    {
        self.delete(email)
    }

    /// Seal `secret` under the store's key and store it as the account's
    /// secret blob, flipping the account to logged in.  Updating an absent
    /// email is a no-op.
    pub fn update_secret_state(&mut self, email: &str, secret: &[u8]) -> (r: Result<(), Error>)
        requires
            old(self).wf(),
        ensures
            final(self).wf(),
            final(self).key() == old(self).key(),
            final(self).interval() == old(self).interval(),
            r is Ok && contains_email(old(self).model(), email@) ==> exists|c: Seq<u8>|
                blob_plaintext(old(self).key(), c) == Some(secret@) && final(self).model() == old(
                    self,
                ).model().update(
                    index_of_email(old(self).model(), email@),
                    (AccountView {
                        secret: Some(c),
                        ..old(self).model()[index_of_email(old(self).model(), email@)]
                    }),
                ),
            r is Ok && !contains_email(old(self).model(), email@) ==> final(self).model() == old(
                self,
            ).model(),
            r matches Err(e) ==> ((e is Encryption || e is Db) && final(self).model() == old(
                self,
            ).model()),
    {
        let blob = match self.encryption_key.encrypt(secret) {
            Some(b) => b,
            None => { return Err(Error::Encryption) },
        };
        let ghost cipher = blob@;
        proof {
            assert(blob_plaintext(self.encryption_key@, cipher) == Some(secret@));
        }
        let (idx, found) = find_slot(&self.accounts, email);
        let stored = Some(blob);
        match run_write_blob_text(
            &mut self.pool,
            "UPDATE yhm SET secret=? WHERE email=?",
            &stored,
            email,
        ) {
            Ok(_) => {
                if found {
                    proof {
                        let ghost s = self.model();
                        let ghost i = index_of_email(s, email@);
                        if i != idx as int {
                            lemma_sorted_emails_unique(s, i, idx as int);
                        }
                    }
                    let existing = self.accounts.remove(idx);
                    let updated = Account { secret: stored, ..existing };
                    proof {
                        lemma_views_remove(old(self).accounts@, idx as int);
                        lemma_views_insert(self.accounts@, updated, idx as int);
                        lemma_update_sorted(old(self).model(), idx as int, updated@);
                        assert(seq_views(old(self).accounts@).remove(idx as int).insert(
                            idx as int,
                            updated@,
                        ) =~= old(self).model().update(idx as int, updated@));
                        assert(updated@ == (AccountView {
                            secret: Some(cipher),
                            ..old(self).model()[index_of_email(old(self).model(), email@)]
                        }));
                    }
                    self.accounts.insert(idx, updated);
                }
                Ok(())
            },
            Err(e) => Err(e),
        }
    }

    /// Clear the account's secret blob, flipping the account to logged out.
    /// Clearing an absent email is a no-op.
    pub fn delete_secret_state(&mut self, email: &str) -> (r: Result<(), Error>)
        requires
            old(self).wf(),
        ensures
            final(self).wf(),
            final(self).key() == old(self).key(),
            final(self).interval() == old(self).interval(),
            r is Ok && contains_email(old(self).model(), email@) ==> final(self).model() == old(
                self,
            ).model().update(
                index_of_email(old(self).model(), email@),
                (AccountView {
                    secret: None,
                    ..old(self).model()[index_of_email(old(self).model(), email@)]
                }),
            ),
            r is Ok && !contains_email(old(self).model(), email@) ==> final(self).model() == old(
                self,
            ).model(),
            r matches Err(e) ==> (e is Db && final(self).model() == old(self).model()),
    {
        let (idx, found) = find_slot(&self.accounts, email);
        match run_write_text(&mut self.pool, "UPDATE yhm SET secret=NULL WHERE email=?", email) {
            Ok(_) => {
                if found {
                    proof {
                        let ghost s = self.model();
                        let ghost i = index_of_email(s, email@);
                        if i != idx as int {
                            lemma_sorted_emails_unique(s, i, idx as int);
                        }
                    }
                    let existing = self.accounts.remove(idx);
                    let updated = Account { secret: None, ..existing };
                    proof {
                        lemma_views_remove(old(self).accounts@, idx as int);
                        lemma_views_insert(self.accounts@, updated, idx as int);
                        lemma_update_sorted(old(self).model(), idx as int, updated@);
                        assert(seq_views(old(self).accounts@).remove(idx as int).insert(
                            idx as int,
                            updated@,
                        ) =~= old(self).model().update(idx as int, updated@));
                    }
                    self.accounts.insert(idx, updated);
                }
                Ok(())
            },
            Err(e) => Err(e),
        }
    }

    /// Store `value` as the account's plaintext state blob; it is not
    /// encrypted, and is meant for non-sensitive data such as sync cursors.
    /// Updating an absent email is a no-op.
    pub fn update_account_state(&mut self, email: &str, value: &[u8]) -> (r: Result<(), Error>)
        requires
            old(self).wf(),
        ensures
            final(self).wf(),
            final(self).key() == old(self).key(),
            final(self).interval() == old(self).interval(),
            r is Ok && contains_email(old(self).model(), email@) ==> final(self).model() == old(
                self,
            ).model().update(
                index_of_email(old(self).model(), email@),
                (AccountView {
                    state: Some(value@),
                    ..old(self).model()[index_of_email(old(self).model(), email@)]
                }),
            ),
            r is Ok && !contains_email(old(self).model(), email@) ==> final(self).model() == old(
                self,
            ).model(),
            r matches Err(e) ==> (e is Db && final(self).model() == old(self).model()),
    {
        let bytes = crate::encryption::copy_range(value, 0, value.len());
        let (idx, found) = find_slot(&self.accounts, email);
        let stored = Some(bytes);
        match run_write_blob_text(
            &mut self.pool,
            "UPDATE yhm SET state=? WHERE email=?",
            &stored,
            email,
        ) {
            Ok(_) => {
                if found {
                    proof {
                        let ghost s = self.model();
                        let ghost i = index_of_email(s, email@);
                        if i != idx as int {
                            lemma_sorted_emails_unique(s, i, idx as int);
                        }
                    }
                    let existing = self.accounts.remove(idx);
                    let updated = Account { state: stored, ..existing };
                    proof {
                        assert(value@.subrange(0, value@.len() as int) =~= value@);
                        lemma_views_remove(old(self).accounts@, idx as int);
                        lemma_views_insert(self.accounts@, updated, idx as int);
                        lemma_update_sorted(old(self).model(), idx as int, updated@);
                        assert(seq_views(old(self).accounts@).remove(idx as int).insert(
                            idx as int,
                            updated@,
                        ) =~= old(self).model().update(idx as int, updated@));
                    }
                    self.accounts.insert(idx, updated);
                }
                Ok(())
            },
            Err(e) => Err(e),
        }
    }

    /// Serialize `proxy` under the store's key and store it as the
    /// account's proxy blob; `None` clears it.  Updating an absent email is
    /// a no-op.
    pub fn set_proxy(&mut self, email: &str, proxy: Option<&ProxyConfig>) -> (r: Result<(), Error>)
        requires
            old(self).wf(),
        ensures
            final(self).wf(),
            final(self).key() == old(self).key(),
            final(self).interval() == old(self).interval(),
            r is Ok && contains_email(old(self).model(), email@) && proxy is None ==> final(self).model() == old(self).model().update(
                index_of_email(old(self).model(), email@),
                (AccountView {
                    proxy: None,
                    ..old(self).model()[index_of_email(old(self).model(), email@)]
                }),
            ),
            proxy matches Some(cfg) ==> (!proxy_wf(cfg@) ==> (r matches Err(e) && e
                is Serialization)),
            proxy matches Some(cfg) ==> ((r matches Err(e) && e is Serialization)
                ==> !proxy_wf(cfg@)),
            proxy is None ==> (r matches Err(e) ==> e is Db),
            proxy matches Some(cfg) ==> (r is Ok && contains_email(old(self).model(), email@)
                ==> exists|c: Seq<u8>|
                blob_plaintext(old(self).key(), c) == Some(encode_proxy_spec(cfg@)) && final(self).model() == old(self).model().update(
                    index_of_email(old(self).model(), email@),
                    (AccountView {
                        proxy: Some(c),
                        ..old(self).model()[index_of_email(old(self).model(), email@)]
                    }),
                )),
            r is Ok && !contains_email(old(self).model(), email@) ==> final(self).model() == old(
                self,
            ).model(),
            r matches Err(e) ==> ((e is Serialization || e is Encryption || e is Db) && final(self).model() == old(self).model()),
    {
        let ghost mut cipher: Seq<u8> = Seq::empty();
        let stored: Option<Vec<u8>> = match proxy {
            None => None,
            Some(cfg) => {
                let encoded = match encode_proxy(cfg) {
                    Some(v) => v,
                    None => { return Err(Error::Serialization) },
                };
                match self.encryption_key.encrypt(encoded.as_slice()) {
                    Some(blob) => {
                        proof {
                            cipher = blob@;
                            assert(blob_plaintext(self.encryption_key@, cipher) == Some(
                                encode_proxy_spec(cfg@),
                            ));
                        }
                        Some(blob)
                    },
                    None => { return Err(Error::Encryption) },
                }
            },
        };
        let ghost stored_view = opt_bytes(stored);
        let (idx, found) = find_slot(&self.accounts, email);
        match run_write_blob_text(
            &mut self.pool,
            "UPDATE yhm SET proxy=? WHERE email=?",
            &stored,
            email,
        ) {
            Ok(_) => {
                if found {
                    proof {
                        let ghost s = self.model();
                        let ghost i = index_of_email(s, email@);
                        if i != idx as int {
                            lemma_sorted_emails_unique(s, i, idx as int);
                        }
                    }
                    let existing = self.accounts.remove(idx);
                    let updated = Account { proxy: stored, ..existing };
                    proof {
                        lemma_views_remove(old(self).accounts@, idx as int);
                        lemma_views_insert(self.accounts@, updated, idx as int);
                        lemma_update_sorted(old(self).model(), idx as int, updated@);
                        assert(seq_views(old(self).accounts@).remove(idx as int).insert(
                            idx as int,
                            updated@,
                        ) =~= old(self).model().update(idx as int, updated@));
                        match proxy {
                            Some(cfg) => {
                                assert(stored_view == Some(cipher));
                                assert(updated@ == (AccountView {
                                    proxy: Some(cipher),
                                    ..old(self).model()[index_of_email(old(self).model(), email@)]
                                }));
                            },
                            None => {
                                assert(updated@ == (AccountView {
                                    proxy: None,
                                    ..old(self).model()[index_of_email(old(self).model(), email@)]
                                }));
                            },
                        }
                    }
                    self.accounts.insert(idx, updated);
                }
                Ok(())
            },
            Err(e) => Err(e),
        }
    }

    /// As [`State::set_proxy`], sealing under the given `key` instead of the
    /// store's own.
    pub fn update_proxy(&mut self, key: &Key, email: &str, proxy: Option<&ProxyConfig>) -> (r:
        Result<(), Error>)
        requires
            old(self).wf(),
        ensures
            final(self).wf(),
            final(self).key() == old(self).key(),
            final(self).interval() == old(self).interval(),
            r is Ok && contains_email(old(self).model(), email@) && proxy is None ==> final(self).model() == old(self).model().update(
                index_of_email(old(self).model(), email@),
                (AccountView {
                    proxy: None,
                    ..old(self).model()[index_of_email(old(self).model(), email@)]
                }),
            ),
            proxy matches Some(cfg) ==> (!proxy_wf(cfg@) ==> (r matches Err(e) && e
                is Serialization)),
            proxy matches Some(cfg) ==> ((r matches Err(e) && e is Serialization)
                ==> !proxy_wf(cfg@)),
            proxy is None ==> (r matches Err(e) ==> e is Db),
            proxy matches Some(cfg) ==> (r is Ok && contains_email(old(self).model(), email@)
                ==> exists|c: Seq<u8>|
                blob_plaintext(key@, c) == Some(encode_proxy_spec(cfg@)) && final(self).model()
                    == old(self).model().update(
                    index_of_email(old(self).model(), email@),
                    (AccountView {
                        proxy: Some(c),
                        ..old(self).model()[index_of_email(old(self).model(), email@)]
                    }),
                )),
            r is Ok && !contains_email(old(self).model(), email@) ==> final(self).model() == old(
                self,
            ).model(),
            r matches Err(e) ==> ((e is Serialization || e is Encryption || e is Db) && final(self).model() == old(self).model()),
    {
        let ghost mut cipher: Seq<u8> = Seq::empty();
        let stored: Option<Vec<u8>> = match proxy {
            None => None,
            Some(cfg) => {
                let encoded = match encode_proxy(cfg) {
                    Some(v) => v,
                    None => { return Err(Error::Serialization) },
                };
                match key.encrypt(encoded.as_slice()) {
                    Some(blob) => {
                        proof {
                            cipher = blob@;
                            assert(blob_plaintext(key@, cipher) == Some(encode_proxy_spec(cfg@)));
                        }
                        Some(blob)
                    },
                    None => { return Err(Error::Encryption) },
                }
            },
        };
        let ghost stored_view = opt_bytes(stored);
        let (idx, found) = find_slot(&self.accounts, email);
        match run_write_blob_text(
            &mut self.pool,
            "UPDATE yhm SET proxy=? WHERE email=?",
            &stored,
            email,
        ) {
            Ok(_) => {
                if found {
                    proof {
                        let ghost s = self.model();
                        let ghost i = index_of_email(s, email@);
                        if i != idx as int {
                            lemma_sorted_emails_unique(s, i, idx as int);
                        }
                    }
                    let existing = self.accounts.remove(idx);
                    let updated = Account { proxy: stored, ..existing };
                    proof {
                        lemma_views_remove(old(self).accounts@, idx as int);
                        lemma_views_insert(self.accounts@, updated, idx as int);
                        lemma_update_sorted(old(self).model(), idx as int, updated@);
                        assert(seq_views(old(self).accounts@).remove(idx as int).insert(
                            idx as int,
                            updated@,
                        ) =~= old(self).model().update(idx as int, updated@));
                        match proxy {
                            Some(cfg) => {
                                assert(stored_view == Some(cipher));
                                assert(updated@ == (AccountView {
                                    proxy: Some(cipher),
                                    ..old(self).model()[index_of_email(old(self).model(), email@)]
                                }));
                            },
                            None => {
                                assert(updated@ == (AccountView {
                                    proxy: None,
                                    ..old(self).model()[index_of_email(old(self).model(), email@)]
                                }));
                            },
                        }
                    }
                    self.accounts.insert(idx, updated);
                }
                Ok(())
            },
            Err(e) => Err(e),
        }
    }
}

/// A well-formed store keeps its records sorted by email.
pub proof fn lemma_state_wf_sorted(s: State)
    requires
        s.wf(),
    ensures
        sorted_by_email(s.model()),
{
}

/// The record that an upsert of `incoming` leaves where `existing` stood:
/// the stored identity with the incoming payloads.
pub open spec fn merge_record(existing: AccountView, incoming: AccountView) -> AccountView {
    AccountView {
        email: existing.email,
        backend: existing.backend,
        secret: incoming.secret,
        state: incoming.state,
        proxy: incoming.proxy,
    }
}

/// A fresh record, inserted where the sorted order puts it, is exactly what
/// a later lookup of its email returns: a record with secret, state and
/// proxy all absent — logged out.
pub proof fn law_new_account_lookup(s: Seq<AccountView>, email: Seq<char>, backend: Seq<char>, i: int)
    requires
        sorted_by_email(s),
        !contains_email(s, email),
        0 <= i <= s.len(),
        sorted_by_email(s.insert(i, fresh_account(email, backend))),
    ensures
        lookup(s.insert(i, fresh_account(email, backend)), email) == Some(
            fresh_account(email, backend),
        ),
{
    let t = s.insert(i, fresh_account(email, backend));
    s.insert_ensures(i, fresh_account(email, backend));
    assert(t[i].email == email);
    assert(contains_email(t, email));
    let j = index_of_email(t, email);
    if j != i {
        lemma_sorted_emails_unique(t, i, j);
    }
}

/// Sealing a secret and reading it back under the same key round-trips:
/// after the update, the stored record's secret decrypts to the value
/// written.
pub proof fn law_secret_round_trip(
    s: Seq<AccountView>,
    email: Seq<char>,
    key: Seq<u8>,
    blob: Seq<u8>,
    value: Seq<u8>,
)
    requires
        sorted_by_email(s),
        contains_email(s, email),
        blob_plaintext(key, blob) == Some(value),
    ensures
        lookup(
            s.update(
                index_of_email(s, email),
                (AccountView { secret: Some(blob), ..s[index_of_email(s, email)] }),
            ),
            email,
        ) matches Some(a) && a.secret matches Some(c) && blob_plaintext(key, c) == Some(value),
{
    let i = index_of_email(s, email);
    let t = s.update(i, (AccountView { secret: Some(blob), ..s[i] }));
    assert(t[i].email == email);
    assert(contains_email(t, email));
    let j = index_of_email(t, email);
    if j != i {
        lemma_update_sorted(s, i, (AccountView { secret: Some(blob), ..s[i] }));
        lemma_sorted_emails_unique(t, i, j);
    }
}

/// Reading the stored secret under a key the blob does not authenticate
/// against is a decryption failure, never a wrong value: after the update,
/// the stored blob still decrypts to the written value under the sealing
/// key and to nothing under the other key, so [`Account::secret`] returns
/// the value under the first and the `Decryption` error — distinct from
/// `Serialization` — under the second.  That the cipher rejects every key
/// but the sealing one is its authentication guarantee, which no contract
/// can state absolutely; it stands here as the hypothesis.
pub proof fn law_secret_wrong_key(
    s: Seq<AccountView>,
    email: Seq<char>,
    key: Seq<u8>,
    other_key: Seq<u8>,
    blob: Seq<u8>,
    value: Seq<u8>,
)
    requires
        sorted_by_email(s),
        contains_email(s, email),
        blob_plaintext(key, blob) == Some(value),
        blob_plaintext(other_key, blob) is None,
    ensures
        lookup(
            s.update(
                index_of_email(s, email),
                (AccountView { secret: Some(blob), ..s[index_of_email(s, email)] }),
            ),
            email,
        ) matches Some(a) && a.secret matches Some(c) && blob_plaintext(key, c) == Some(value)
            && blob_plaintext(other_key, c) is None,
{
    let i = index_of_email(s, email);
    let t = s.update(i, (AccountView { secret: Some(blob), ..s[i] }));
    assert(t[i].email == email);
    assert(contains_email(t, email));
    let j = index_of_email(t, email);
    if j != i {
        lemma_update_sorted(s, i, (AccountView { secret: Some(blob), ..s[i] }));
        lemma_sorted_emails_unique(t, i, j);
    }
}

/// Clearing the secret makes the account logged out, and a later secret
/// update makes it logged in again.
pub proof fn law_logout_then_login(
    s: Seq<AccountView>,
    email: Seq<char>,
    blob: Seq<u8>,
)
    requires
        sorted_by_email(s),
        contains_email(s, email),
    ensures
        ({
            let cleared = s.update(
                index_of_email(s, email),
                (AccountView { secret: None, ..s[index_of_email(s, email)] }),
            );
            &&& lookup(cleared, email) matches Some(a) && a.secret is None
            &&& lookup(
                cleared.update(
                    index_of_email(cleared, email),
                    (AccountView { secret: Some(blob), ..cleared[index_of_email(cleared, email)] }),
                ),
                email,
            ) matches Some(a2) && a2.secret is Some
        }),
{
    let i = index_of_email(s, email);
    let cleared = s.update(i, (AccountView { secret: None, ..s[i] }));
    lemma_update_sorted(s, i, (AccountView { secret: None, ..s[i] }));
    assert(cleared[i].email == email);
    assert(contains_email(cleared, email));
    let j = index_of_email(cleared, email);
    if j != i {
        lemma_sorted_emails_unique(cleared, i, j);
    }
    let relogged = cleared.update(j, (AccountView { secret: Some(blob), ..cleared[j] }));
    lemma_update_sorted(cleared, j, (AccountView { secret: Some(blob), ..cleared[j] }));
    assert(relogged[j].email == email);
    assert(contains_email(relogged, email));
    let k = index_of_email(relogged, email);
    if k != j {
        lemma_sorted_emails_unique(relogged, j, k);
    }
}

/// However often records are upserted for one email, the stored email and
/// backend never change: only the secret, state and proxy payloads move.
pub proof fn law_store_preserves_identity(s: Seq<AccountView>, incoming: AccountView)
    requires
        sorted_by_email(s),
        contains_email(s, incoming.email),
    ensures
        ({
            let i = index_of_email(s, incoming.email);
            let t = s.update(i, merge_record(s[i], incoming));
            &&& lookup(t, incoming.email) matches Some(a) && a.email == s[i].email && a.backend
                == s[i].backend && a.secret == incoming.secret && a.state == incoming.state
                && a.proxy == incoming.proxy
        }),
{
    let i = index_of_email(s, incoming.email);
    let t = s.update(i, merge_record(s[i], incoming));
    lemma_update_sorted(s, i, merge_record(s[i], incoming));
    assert(t[i].email == incoming.email);
    assert(contains_email(t, incoming.email));
    let j = index_of_email(t, incoming.email);
    if j != i {
        lemma_sorted_emails_unique(t, i, j);
    }
}

/// Serialized inserts lose nothing: two inserts of distinct, fresh emails
/// grow the store by exactly two records, and both emails are then stored.
/// Writes are serialized by the store-wide single-writer discipline, so two
/// racing inserts run as one then the other.
pub proof fn law_serialized_inserts_count(
    s: Seq<AccountView>,
    a1: AccountView,
    a2: AccountView,
    i1: int,
    i2: int,
)
    requires
        sorted_by_email(s),
        !contains_email(s, a1.email),
        !contains_email(s, a2.email),
        a1.email != a2.email,
        0 <= i1 <= s.len(),
        0 <= i2 <= s.insert(i1, a1).len(),
    ensures
        s.insert(i1, a1).insert(i2, a2).len() == s.len() + 2,
        contains_email(s.insert(i1, a1).insert(i2, a2), a2.email),
        contains_email(s.insert(i1, a1), a1.email),
{
    let t1 = s.insert(i1, a1);
    s.insert_ensures(i1, a1);
    let t2 = t1.insert(i2, a2);
    t1.insert_ensures(i2, a2);
    assert(t1[i1].email == a1.email);
    assert(t2[i2].email == a2.email);
}

} // verus!
