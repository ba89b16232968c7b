//! Proxy configuration and its canonical serialized form.
//!
//! The store keeps a proxy configuration encrypted, serialized first as one
//! canonical JSON document over raw byte strings:
//!
//! ```text
//! {"protocol":"socks5","host":"example.com","port":"01080","auth":null}
//! ```
//!
//! with `auth` either `null` or `{"username":"u","password":"p"}`, and the
//! port always written as five digits.  Text fields are byte strings that
//! may not contain a quote, a backslash or a control byte; a configuration
//! violating that is rejected as a serialization error rather than escaped.
//! [`encode_proxy_spec`] is the canonical form itself; the encoder produces
//! it exactly, and the decoder accepts a document only when re-encoding the
//! value it read reproduces the input byte for byte.

use vstd::prelude::*;

verus! {

/// Which proxy protocol to use.
#[derive(Clone, Copy, Debug, PartialEq, Eq, Structural)]
pub enum ProxyProtocol {
    Http,
    Socks5,
}

/// Credentials of an authenticated proxy; both fields are raw byte strings.
#[derive(Debug)]
pub struct ProxyAuth {
    pub username: Vec<u8>,
    pub password: Vec<u8>,
}

/// One proxy configuration; the host is a raw byte string.
#[derive(Debug)]
pub struct ProxyConfig {
    pub protocol: ProxyProtocol,
    pub auth: Option<ProxyAuth>,
    pub host: Vec<u8>,
    pub port: u16,
}

/// Mathematical image of [`ProxyAuth`].
pub struct ProxyAuthView {
    pub username: Seq<u8>,
    pub password: Seq<u8>,
}

/// Mathematical image of [`ProxyConfig`].
pub struct ProxyConfigView {
    pub protocol: ProxyProtocol,
    pub auth: Option<ProxyAuthView>,
    pub host: Seq<u8>,
    pub port: u16,
}

impl View for ProxyAuth {
    type V = ProxyAuthView;

    closed spec fn view(&self) -> ProxyAuthView {
        ProxyAuthView { username: self.username@, password: self.password@ }
    }
}

impl View for ProxyConfig {
    type V = ProxyConfigView;

    closed spec fn view(&self) -> ProxyConfigView {
        ProxyConfigView {
            protocol: self.protocol,
            auth: match self.auth {
                None => None,
                Some(a) => Some(a@),
            },
            host: self.host@,
            port: self.port,
        }
    }
}

/// A byte a text field may hold: no control byte, no quote, no backslash.
pub open spec fn text_byte_ok(b: u8) -> bool {
    b >= 0x20 && b != 0x22 && b != 0x5c
}

/// Every byte of the field is acceptable.
pub open spec fn text_ok(s: Seq<u8>) -> bool {
    forall|k: int| 0 <= k < s.len() ==> text_byte_ok(#[trigger] s[k])
}

/// An `auth` member whose text fields the canonical form can carry.
pub open spec fn auth_wf(a: Option<ProxyAuthView>) -> bool {
    match a {
        None => true,
        Some(av) => text_ok(av.username) && text_ok(av.password),
    }
}

/// A configuration whose text fields the canonical form can carry.
pub open spec fn proxy_wf(p: ProxyConfigView) -> bool {
    text_ok(p.host) && auth_wf(p.auth)
}

/// The bytes of the fixed fragment `{"protocol":"` of the canonical form.
pub open spec fn lit_open() -> Seq<u8> {
    seq![0x7bu8, 0x22, 0x70, 0x72, 0x6f, 0x74, 0x6f, 0x63, 0x6f, 0x6c, 0x22, 0x3a, 0x22]
}

/// The bytes of the fixed fragment `","host":"` of the canonical form.
pub open spec fn lit_host() -> Seq<u8> {
    seq![0x22u8, 0x2c, 0x22, 0x68, 0x6f, 0x73, 0x74, 0x22, 0x3a, 0x22]
}

/// The bytes of the fixed fragment `","port":"` of the canonical form.
pub open spec fn lit_port() -> Seq<u8> {
    seq![0x22u8, 0x2c, 0x22, 0x70, 0x6f, 0x72, 0x74, 0x22, 0x3a, 0x22]
}

/// The bytes of the fixed fragment `","auth":` of the canonical form.
pub open spec fn lit_auth() -> Seq<u8> {
    seq![0x22u8, 0x2c, 0x22, 0x61, 0x75, 0x74, 0x68, 0x22, 0x3a]
}

/// The bytes of the fixed fragment `null` of the canonical form.
pub open spec fn lit_null() -> Seq<u8> {
    seq![0x6eu8, 0x75, 0x6c, 0x6c]
}

/// The bytes of the fixed fragment `{"username":"` of the canonical form.
pub open spec fn lit_user() -> Seq<u8> {
    seq![0x7bu8, 0x22, 0x75, 0x73, 0x65, 0x72, 0x6e, 0x61, 0x6d, 0x65, 0x22, 0x3a, 0x22]
}

/// The bytes of the fixed fragment `","password":"` of the canonical form.
pub open spec fn lit_pass() -> Seq<u8> {
    seq![0x22u8, 0x2c, 0x22, 0x70, 0x61, 0x73, 0x73, 0x77, 0x6f, 0x72, 0x64, 0x22, 0x3a, 0x22]
}

/// The bytes of the fixed fragment `"}` of the canonical form.
pub open spec fn lit_qend() -> Seq<u8> {
    seq![0x22u8, 0x7d]
}

/// The bytes of the fixed fragment `}` of the canonical form.
pub open spec fn lit_end() -> Seq<u8> {
    seq![0x7du8]
}

/// The bytes of the fixed fragment `http` of the canonical form.
pub open spec fn lit_http() -> Seq<u8> {
    seq![0x68u8, 0x74, 0x74, 0x70]
}

/// The bytes of the fixed fragment `socks5` of the canonical form.
pub open spec fn lit_socks5() -> Seq<u8> {
    seq![0x73u8, 0x6f, 0x63, 0x6b, 0x73, 0x35]
}


/// The five decimal digits of `n`, most significant first.
pub open spec fn dec5(n: u16) -> Seq<u8> {
    seq![
        (0x30 + (n as int) / 10000) as u8,
        (0x30 + ((n as int) / 1000) % 10) as u8,
        (0x30 + ((n as int) / 100) % 10) as u8,
        (0x30 + ((n as int) / 10) % 10) as u8,
        (0x30 + (n as int) % 10) as u8,
    ]
}

/// The bytes the `auth` member contributes to the canonical form.
pub open spec fn auth_bytes(a: Option<ProxyAuthView>) -> Seq<u8> {
    match a {
        None => lit_null(),
        Some(av) => lit_user() + av.username + lit_pass() + av.password + lit_qend(),
    }
}

/// The bytes naming the protocol in the canonical form.
pub open spec fn protocol_bytes(p: ProxyProtocol) -> Seq<u8> {
    match p {
        ProxyProtocol::Http => lit_http(),
        ProxyProtocol::Socks5 => lit_socks5(),
    }
}

/// The canonical serialized form of a configuration.
pub open spec fn encode_proxy_spec(p: ProxyConfigView) -> Seq<u8> {
    lit_open() + protocol_bytes(p.protocol) + lit_host() + p.host + lit_port() + dec5(p.port)
        + lit_auth() + auth_bytes(p.auth) + lit_end()
}

/// Where each piece of the canonical form stands in an encoded document.
proof fn lemma_enc_structure(q: ProxyConfigView, s: Seq<u8>)
    requires
        s == encode_proxy_spec(q),
    ensures
        ({
            let pl = protocol_bytes(q.protocol).len() as int;
            let hl = q.host.len() as int;
            let al = auth_bytes(q.auth).len() as int;
            &&& s.len() == 48 + pl + hl + al
            &&& s.subrange(0, 13) == lit_open()
            &&& s.subrange(13, 13 + pl) == protocol_bytes(q.protocol)
            &&& s.subrange(13 + pl, 23 + pl) == lit_host()
            &&& s.subrange(23 + pl, 23 + pl + hl) == q.host
            &&& s.subrange(23 + pl + hl, 33 + pl + hl) == lit_port()
            &&& s.subrange(33 + pl + hl, 38 + pl + hl) == dec5(q.port)
            &&& s.subrange(38 + pl + hl, 47 + pl + hl) == lit_auth()
            &&& s.subrange(47 + pl + hl, 47 + pl + hl + al) == auth_bytes(q.auth)
            &&& s[47 + pl + hl + al] == 0x7d
        }),
{
    let pl = protocol_bytes(q.protocol).len() as int;
    let hl = q.host.len() as int;
    let al = auth_bytes(q.auth).len() as int;
    assert(s.subrange(0, 13) =~= lit_open());
    assert(s.subrange(13, 13 + pl) =~= protocol_bytes(q.protocol));
    assert(s.subrange(13 + pl, 23 + pl) =~= lit_host());
    assert(s.subrange(23 + pl, 23 + pl + hl) =~= q.host);
    assert(s.subrange(23 + pl + hl, 33 + pl + hl) =~= lit_port());
    assert(s.subrange(33 + pl + hl, 38 + pl + hl) =~= dec5(q.port));
    assert(s.subrange(38 + pl + hl, 47 + pl + hl) =~= lit_auth());
    assert(s.subrange(47 + pl + hl, 47 + pl + hl + al) =~= auth_bytes(q.auth));
}

/// Where each piece of an authenticated `auth` member stands within it.
proof fn lemma_auth_structure(av: ProxyAuthView, s: Seq<u8>, i: int)
    requires
        0 <= i,
        i + auth_bytes(Some(av)).len() <= s.len(),
        s.subrange(i, i + auth_bytes(Some(av)).len() as int) == auth_bytes(Some(av)),
    ensures
        ({
            let ul = av.username.len() as int;
            let wl = av.password.len() as int;
            &&& auth_bytes(Some(av)).len() == 29 + ul + wl
            &&& s.subrange(i, i + 13) == lit_user()
            &&& s.subrange(i + 13, i + 13 + ul) == av.username
            &&& s.subrange(i + 13 + ul, i + 27 + ul) == lit_pass()
            &&& s.subrange(i + 27 + ul, i + 27 + ul + wl) == av.password
            &&& s.subrange(i + 27 + ul + wl, i + 29 + ul + wl) == lit_qend()
        }),
{
    let ul = av.username.len() as int;
    let wl = av.password.len() as int;
    let a = auth_bytes(Some(av));
    let c2 = lit_user() + av.username;
    let c3 = c2 + lit_pass();
    let c4 = c3 + av.password;
    assert(a == c4 + lit_qend());
    assert forall|k: int| 0 <= k < a.len() implies s[i + k] == a[k] by {
        assert(s.subrange(i, i + a.len() as int)[k] == a[k]);
    }
    assert forall|k: int| 0 <= k < ul implies a[13 + k] == av.username[k] by {
        assert(a[13 + k] == c4[13 + k]);
        assert(c4[13 + k] == c3[13 + k]);
        assert(c3[13 + k] == c2[13 + k]);
        assert(c2[13 + k] == av.username[k]);
    }
    assert forall|k: int| 0 <= k < 14 implies a[13 + ul + k] == lit_pass()[k] by {
        assert(a[13 + ul + k] == c4[13 + ul + k]);
        assert(c4[13 + ul + k] == c3[13 + ul + k]);
        assert(c3[13 + ul + k] == lit_pass()[k]);
    }
    assert forall|k: int| 0 <= k < wl implies a[27 + ul + k] == av.password[k] by {
        assert(a[27 + ul + k] == c4[27 + ul + k]);
        assert(c4[27 + ul + k] == av.password[k]);
    }
    assert forall|k: int| 0 <= k < 2 implies a[27 + ul + wl + k] == lit_qend()[k] by {
        assert(a[27 + ul + wl + k] == lit_qend()[k]);
    }
    assert(s.subrange(i, i + 13) =~= lit_user());
    assert(s.subrange(i + 13, i + 13 + ul) =~= av.username);
    assert(s.subrange(i + 13 + ul, i + 27 + ul) =~= lit_pass());
    assert(s.subrange(i + 27 + ul, i + 27 + ul + wl) =~= av.password);
    assert(s.subrange(i + 27 + ul + wl, i + 29 + ul + wl) =~= lit_qend());
}

/// Whether every byte of the field is acceptable in a text field.
fn check_text(b: &[u8]) -> (r: bool)
    ensures
        r == text_ok(b@),
{
    let n = b.len();
    let mut i: usize = 0;
    while i < n
        invariant
            i <= n,
            n == b@.len(),
            forall|k: int| 0 <= k < i ==> text_byte_ok(#[trigger] b@[k]),
        decreases n - i,
    {
        let c = b[i];
        if c < 0x20 || c == 0x22 || c == 0x5c {
            return false;
        }
        i = i + 1;
    }
    true
}

/// Append every byte of `bytes` to `out`.
fn push_all(out: &mut Vec<u8>, bytes: &[u8])
    ensures
        final(out)@ == old(out)@ + bytes@,
{
    let n = bytes.len();
    let mut i: usize = 0;
    proof {
        assert(out@ =~= old(out)@ + bytes@.subrange(0, 0));
    }
    while i < n
        invariant
            i <= n,
            n == bytes@.len(),
            out@ == old(out)@ + bytes@.subrange(0, i as int),
        decreases n - i,
    {
        out.push(bytes[i]);
        proof {
            assert(old(out)@ + bytes@.subrange(0, i + 1) =~= (old(out)@ + bytes@.subrange(
                0,
                i as int,
            )).push(bytes@[i as int]));
        }
        i = i + 1;
    }
    proof {
        assert(bytes@.subrange(0, n as int) =~= bytes@);
    }
}

/// Append the five decimal digits of `port` to `out`.
fn push_port(out: &mut Vec<u8>, port: u16)
    ensures
        final(out)@ == old(out)@ + dec5(port),
{
    let d0: u8 = (port / 10000) as u8 + 0x30;
    let d1: u8 = ((port / 1000) % 10) as u8 + 0x30;
    let d2: u8 = ((port / 100) % 10) as u8 + 0x30;
    let d3: u8 = ((port / 10) % 10) as u8 + 0x30;
    let d4: u8 = (port % 10) as u8 + 0x30;
    out.push(d0);
    out.push(d1);
    out.push(d2);
    out.push(d3);
    out.push(d4);
    proof {
        assert(out@ =~= old(out)@ + dec5(port));
    }
}

/// Serialize a configuration into its canonical form; rejected exactly when
/// some text field holds a byte the form cannot carry.
pub fn encode_proxy(p: &ProxyConfig) -> (r: Option<Vec<u8>>)
    ensures
        r is Some <==> proxy_wf(p@),
        r matches Some(v) ==> v@ == encode_proxy_spec(p@),
{
    if !check_text(p.host.as_slice()) {
        return None;
    }
    match &p.auth {
        Some(a) => {
            if !check_text(a.username.as_slice()) || !check_text(a.password.as_slice()) {
                return None;
            }
        },
        None => {},
    }
    let mut out: Vec<u8> = Vec::new();
    let l_open: [u8; 13] = [0x7b, 0x22, 0x70, 0x72, 0x6f, 0x74, 0x6f, 0x63, 0x6f, 0x6c, 0x22, 0x3a, 0x22];
    proof {
        assert(l_open@ =~= lit_open());
    }
    push_all(&mut out, l_open.as_slice());
    match p.protocol {
        ProxyProtocol::Http => {
            let l: [u8; 4] = [0x68, 0x74, 0x74, 0x70];
            proof {
                assert(l@ =~= lit_http());
            }
            push_all(&mut out, l.as_slice());
        },
        ProxyProtocol::Socks5 => {
            let l: [u8; 6] = [0x73, 0x6f, 0x63, 0x6b, 0x73, 0x35];
            proof {
                assert(l@ =~= lit_socks5());
            }
            push_all(&mut out, l.as_slice());
        },
    }
    let l_host: [u8; 10] = [0x22, 0x2c, 0x22, 0x68, 0x6f, 0x73, 0x74, 0x22, 0x3a, 0x22];
    proof {
        assert(l_host@ =~= lit_host());
    }
    push_all(&mut out, l_host.as_slice());
    push_all(&mut out, p.host.as_slice());
    let l_port: [u8; 10] = [0x22, 0x2c, 0x22, 0x70, 0x6f, 0x72, 0x74, 0x22, 0x3a, 0x22];
    proof {
        assert(l_port@ =~= lit_port());
    }
    push_all(&mut out, l_port.as_slice());
    push_port(&mut out, p.port);
    let l_auth: [u8; 9] = [0x22, 0x2c, 0x22, 0x61, 0x75, 0x74, 0x68, 0x22, 0x3a];
    proof {
        assert(l_auth@ =~= lit_auth());
    }
    push_all(&mut out, l_auth.as_slice());
    match &p.auth {
        None => {
            let l: [u8; 4] = [0x6e, 0x75, 0x6c, 0x6c];
            proof {
                assert(l@ =~= lit_null());
            }
            push_all(&mut out, l.as_slice());
        },
        Some(a) => {
            let l_user: [u8; 13] = [0x7b, 0x22, 0x75, 0x73, 0x65, 0x72, 0x6e, 0x61, 0x6d, 0x65, 0x22, 0x3a, 0x22];
            proof {
                assert(l_user@ =~= lit_user());
            }
            push_all(&mut out, l_user.as_slice());
            push_all(&mut out, a.username.as_slice());
            let l_pass: [u8; 14] = [0x22, 0x2c, 0x22, 0x70, 0x61, 0x73, 0x73, 0x77, 0x6f, 0x72, 0x64, 0x22, 0x3a, 0x22];
            proof {
                assert(l_pass@ =~= lit_pass());
            }
            push_all(&mut out, l_pass.as_slice());
            push_all(&mut out, a.password.as_slice());
            let l_qend: [u8; 2] = [0x22, 0x7d];
            proof {
                assert(l_qend@ =~= lit_qend());
            }
            push_all(&mut out, l_qend.as_slice());
        },
    }
    out.push(0x7d);
    proof {
        assert(out@ =~= encode_proxy_spec(p@));
    }
    Some(out)
}

/// Whether two byte strings hold the same bytes.
fn bytes_eq(a: &[u8], b: &[u8]) -> (r: bool)
    ensures
        r == (a@ == b@),
{
    let n = a.len();
    if n != b.len() {
        return false;
    }
    let mut i: usize = 0;
    while i < n
        invariant
            i <= n,
            n == a@.len(),
            n == b@.len(),
            forall|k: int| 0 <= k < i ==> a@[k] == b@[k],
        decreases n - i,
    {
        if a[i] != b[i] {
            return false;
        }
        i = i + 1;
    }
    proof {
        assert(a@ =~= b@);
    }
    true
}

/// Skip `lit` at position `i` of `b`, byte for byte: succeeds exactly when
/// `lit` stands there whole.
fn eat(b: &[u8], i: usize, lit: &[u8]) -> (r: Option<usize>)
    ensures
        r matches Some(j) ==> j == i + lit@.len(),
        r is Some <==> (i + lit@.len() <= b@.len() && b@.subrange(
            i as int,
            i + lit@.len() as int,
        ) == lit@),
{
    let m = lit.len();
    let n = b.len();
    if m > n || i > n - m {
        return None;
    }
    let mut k: usize = 0;
    while k < m
        invariant
            k <= m,
            m == lit@.len(),
            n == b@.len(),
            i + m <= n,
            forall|t: int| 0 <= t < k ==> b@[i + t] == lit@[t],
        decreases m - k,
    {
        if b[i + k] != lit[k] {
            proof {
                assert(b@.subrange(i as int, i + m as int)[k as int] != lit@[k as int]);
            }
            return None;
        }
        k = k + 1;
    }
    proof {
        assert(b@.subrange(i as int, i + m as int) =~= lit@);
    }
    Some(i + m)
}

/// Whether a text field, all of whose bytes are acceptable, stands at `i`
/// and is closed by a quote.
pub open spec fn text_terminated_at(s: Seq<u8>, i: int, j: int) -> bool {
    i <= j < s.len() && s[j] == 0x22 && (forall|k: int| i <= k < j ==> text_byte_ok(#[trigger] s[k]))
}

/// Read a text field up to its closing quote, rejecting bytes the canonical
/// form cannot carry: succeeds exactly when some quote closes an acceptable
/// region, and stops at the first one.
fn take_text(b: &[u8], i: usize) -> (r: Option<(Vec<u8>, usize)>)
    ensures
        r matches Some((t, j)) ==> text_terminated_at(b@, i as int, j as int) && t@ == b@.subrange(
            i as int,
            j as int,
        ),
        r is None ==> forall|j: int| !text_terminated_at(b@, i as int, j),
{
    let n = b.len();
    if i > n {
        return None;
    }
    let mut j: usize = i;
    let mut out: Vec<u8> = Vec::new();
    proof {
        assert(out@ =~= b@.subrange(i as int, i as int));
    }
    while j < n
        invariant
            n == b@.len(),
            i <= j <= n,
            out@ == b@.subrange(i as int, j as int),
            forall|k: int| i <= k < j ==> text_byte_ok(#[trigger] b@[k]),
        decreases n - j,
    {
        let c = b[j];
        if c == 0x22 {
            return Some((out, j));
        }
        if c < 0x20 || c == 0x5c {
            proof {
                assert forall|t: int| !text_terminated_at(b@, i as int, t) by {
                    if text_terminated_at(b@, i as int, t) {
                        if t < j {
                            assert(text_byte_ok(b@[t]));
                        } else if t > j {
                            assert(text_byte_ok(b@[j as int]));
                        }
                    }
                }
            }
            return None;
        }
        out.push(c);
        proof {
            assert(b@.subrange(i as int, j + 1) =~= b@.subrange(i as int, j as int).push(
                b@[j as int],
            ));
        }
        j = j + 1;
    }
    proof {
        assert forall|t: int| !text_terminated_at(b@, i as int, t) by {
            if text_terminated_at(b@, i as int, t) {
                assert(text_byte_ok(b@[t]));
            }
        }
    }
    None
}

/// A number is the weighted sum of its five decimal digits.
proof fn lemma_dec5_value(m: int)
    requires
        0 <= m <= 65535,
    ensures
        (m / 10000) * 10000 + ((m / 1000) % 10) * 1000 + ((m / 100) % 10) * 100 + ((m / 10) % 10)
            * 10 + m % 10 == m,
{
    assert((m / 10000) * 10000 + ((m / 1000) % 10) * 1000 + ((m / 100) % 10) * 100 + ((m / 10)
        % 10) * 10 + m % 10 == m) by (nonlinear_arith)
        requires
            0 <= m <= 65535,
    ;
}

/// Read the five port digits at position `i` of `b`: succeeds exactly when
/// five digits whose value fits a port stand there, and returns that value.
fn take_port(b: &[u8], i: usize) -> (r: Option<(u16, usize)>)
    ensures
        r matches Some((n, j)) ==> j == i + 5 && i + 5 <= b@.len() && b@.subrange(i as int, i + 5)
            == dec5(n),
        r is None ==> forall|m: u16|
            !(i + 5 <= b@.len() && b@.subrange(i as int, i + 5) == dec5(m)),
{
    let n = b.len();
    if 5 > n || i > n - 5 {
        return None;
    }
    let d0 = digit(b[i]);
    let d1 = digit(b[i + 1]);
    let d2 = digit(b[i + 2]);
    let d3 = digit(b[i + 3]);
    let d4 = digit(b[i + 4]);
    proof {
        assert forall|m: u16| b@.subrange(i as int, i + 5) == dec5(m) implies digit_spec(
            b@[i as int],
        ) is Some && digit_spec(b@[i + 1]) is Some && digit_spec(b@[i + 2]) is Some && digit_spec(
            b@[i + 3],
        ) is Some && digit_spec(b@[i + 4]) is Some by {
            assert(b@.subrange(i as int, i + 5)[0] == dec5(m)[0]);
            assert(b@.subrange(i as int, i + 5)[1] == dec5(m)[1]);
            assert(b@.subrange(i as int, i + 5)[2] == dec5(m)[2]);
            assert(b@.subrange(i as int, i + 5)[3] == dec5(m)[3]);
            assert(b@.subrange(i as int, i + 5)[4] == dec5(m)[4]);
        }
    }
    match (d0, d1, d2, d3, d4) {
        (Some(a), Some(bb), Some(c), Some(d), Some(e)) => {
            let v: u32 = (a as u32) * 10000 + (bb as u32) * 1000 + (c as u32) * 100 + (d as u32)
                * 10 + (e as u32);
            proof {
                assert forall|m: u16| b@.subrange(i as int, i + 5) == dec5(m) implies v == m by {
                    assert(b@.subrange(i as int, i + 5)[0] == dec5(m)[0]);
                    assert(b@.subrange(i as int, i + 5)[1] == dec5(m)[1]);
                    assert(b@.subrange(i as int, i + 5)[2] == dec5(m)[2]);
                    assert(b@.subrange(i as int, i + 5)[3] == dec5(m)[3]);
                    assert(b@.subrange(i as int, i + 5)[4] == dec5(m)[4]);
                    lemma_dec5_value(m as int);
                }
            }
            if v > 65535 {
                return None;
            }
            proof {
                let p = v as u16;
                assert(v / 10000 == a) by (nonlinear_arith)
                    requires
                        v == (a as u32) * 10000 + (bb as u32) * 1000 + (c as u32) * 100 + (d
                            as u32) * 10 + (e as u32),
                        a <= 9,
                        bb <= 9,
                        c <= 9,
                        d <= 9,
                        e <= 9,
                ;
                assert((v / 1000) % 10 == bb) by (nonlinear_arith)
                    requires
                        v == (a as u32) * 10000 + (bb as u32) * 1000 + (c as u32) * 100 + (d
                            as u32) * 10 + (e as u32),
                        a <= 9,
                        bb <= 9,
                        c <= 9,
                        d <= 9,
                        e <= 9,
                ;
                assert((v / 100) % 10 == c) by (nonlinear_arith)
                    requires
                        v == (a as u32) * 10000 + (bb as u32) * 1000 + (c as u32) * 100 + (d
                            as u32) * 10 + (e as u32),
                        a <= 9,
                        bb <= 9,
                        c <= 9,
                        d <= 9,
                        e <= 9,
                ;
                assert((v / 10) % 10 == d) by (nonlinear_arith)
                    requires
                        v == (a as u32) * 10000 + (bb as u32) * 1000 + (c as u32) * 100 + (d
                            as u32) * 10 + (e as u32),
                        a <= 9,
                        bb <= 9,
                        c <= 9,
                        d <= 9,
                        e <= 9,
                ;
                assert(v % 10 == e) by (nonlinear_arith)
                    requires
                        v == (a as u32) * 10000 + (bb as u32) * 1000 + (c as u32) * 100 + (d
                            as u32) * 10 + (e as u32),
                        a <= 9,
                        bb <= 9,
                        c <= 9,
                        d <= 9,
                        e <= 9,
                ;
                assert(b@.subrange(i as int, i + 5) =~= dec5(p));
            }
            Some((v as u16, i + 5))
        },
        _ => None,
    }
}

/// What [`digit`] yields: the value of a decimal digit byte.
pub open spec fn digit_spec(c: u8) -> Option<u8> {
    if 0x30 <= c <= 0x39 {
        Some((c - 0x30) as u8)
    } else {
        None
    }
}

/// The value of one decimal digit byte, if it is one.
fn digit(c: u8) -> (r: Option<u8>)
    ensures
        r == digit_spec(c),
{
    if c >= 0x30 && c <= 0x39 {
        Some(c - 0x30)
    } else {
        None
    }
}

/// A text field is closed by exactly one quote position.
proof fn lemma_text_unique(s: Seq<u8>, i: int, j1: int, j2: int)
    requires
        text_terminated_at(s, i, j1),
        text_terminated_at(s, i, j2),
    ensures
        j1 == j2,
{
    if j1 < j2 {
        assert(text_byte_ok(s[j1]));
    } else if j2 < j1 {
        assert(text_byte_ok(s[j2]));
    }
}

/// Two numbers with the same five digits are the same number.
proof fn lemma_dec5_injective(x: u16, y: u16)
    requires
        dec5(x) == dec5(y),
    ensures
        x == y,
{
    assert(dec5(x)[0] == dec5(y)[0]);
    assert(dec5(x)[1] == dec5(y)[1]);
    assert(dec5(x)[2] == dec5(y)[2]);
    assert(dec5(x)[3] == dec5(y)[3]);
    assert(dec5(x)[4] == dec5(y)[4]);
    lemma_dec5_value(x as int);
    lemma_dec5_value(y as int);
}

/// Read the protocol name at position `i`: succeeds exactly when one of
/// the two names stands there, and tells which.
fn eat_protocol(b: &[u8], i: usize) -> (r: Option<(ProxyProtocol, usize)>)
    ensures
        r matches Some((p, j)) ==> j == i + protocol_bytes(p).len() && i + protocol_bytes(p).len()
            <= b@.len() && b@.subrange(i as int, j as int) == protocol_bytes(p),
        r matches Some((p, j)) ==> forall|p2: ProxyProtocol|
            (i + protocol_bytes(p2).len() <= b@.len() && b@.subrange(
                i as int,
                i + protocol_bytes(p2).len() as int,
            ) == protocol_bytes(p2)) ==> p2 == p,
        r is None ==> forall|p: ProxyProtocol|
            !(i + protocol_bytes(p).len() <= b@.len() && b@.subrange(
                i as int,
                i + protocol_bytes(p).len() as int,
            ) == protocol_bytes(p)),
{
    let l_http: [u8; 4] = [0x68, 0x74, 0x74, 0x70];
    let l_socks5: [u8; 6] = [0x73, 0x6f, 0x63, 0x6b, 0x73, 0x35];
    proof {
        assert(l_http@ =~= lit_http());
        assert(l_socks5@ =~= lit_socks5());
    }
    match eat(b, i, l_http.as_slice()) {
        Some(j) => {
            proof {
                assert forall|p2: ProxyProtocol|
                    (i + protocol_bytes(p2).len() <= b@.len() && b@.subrange(
                        i as int,
                        i + protocol_bytes(p2).len() as int,
                    ) == protocol_bytes(p2)) implies p2 == ProxyProtocol::Http by {
                    if p2 is Socks5 {
                        assert(b@.subrange(i as int, i + 6)[0] == lit_socks5()[0]);
                        assert(b@.subrange(i as int, i + 4)[0] == lit_http()[0]);
                    }
                }
            }
            Some((ProxyProtocol::Http, j))
        },
        None => match eat(b, i, l_socks5.as_slice()) {
            Some(j) => {
                proof {
                    assert forall|p2: ProxyProtocol|
                        (i + protocol_bytes(p2).len() <= b@.len() && b@.subrange(
                            i as int,
                            i + protocol_bytes(p2).len() as int,
                        ) == protocol_bytes(p2)) implies p2 == ProxyProtocol::Socks5 by {
                        if p2 is Http {
                            assert(b@.subrange(i as int, i + 4) == lit_http());
                        }
                    }
                }
                Some((ProxyProtocol::Socks5, j))
            },
            None => {
                proof {
                    assert forall|p: ProxyProtocol|
                        !(i + protocol_bytes(p).len() <= b@.len() && b@.subrange(
                            i as int,
                            i + protocol_bytes(p).len() as int,
                        ) == protocol_bytes(p)) by {
                        if p is Http {
                            assert(protocol_bytes(p) == lit_http());
                        } else {
                            assert(protocol_bytes(p) == lit_socks5());
                        }
                    }
                }
                None
            },
        },
    }
}

/// View of an optional credentials pair.
pub open spec fn opt_auth_view(a: Option<ProxyAuth>) -> Option<ProxyAuthView> {
    match a {
        None => None,
        Some(x) => Some(x@),
    }
}

/// Read the `auth` member at position `i`: succeeds exactly when a
/// canonical member stands there, and reads back the one that does.
#[verifier::rlimit(60)]
fn take_auth(b: &[u8], i: usize) -> (r: Option<(Option<ProxyAuth>, usize)>)
    ensures
        r matches Some((a, j)) ==> auth_wf(opt_auth_view(a)) && j == i + auth_bytes(
            opt_auth_view(a),
        ).len() && i + auth_bytes(opt_auth_view(a)).len() <= b@.len() && b@.subrange(
            i as int,
            j as int,
        ) == auth_bytes(opt_auth_view(a)),
        r matches Some((a, j)) ==> forall|av: Option<ProxyAuthView>|
            (auth_wf(av) && i + auth_bytes(av).len() <= b@.len() && b@.subrange(
                i as int,
                i + auth_bytes(av).len() as int,
            ) == auth_bytes(av)) ==> av == opt_auth_view(a),
        r is None ==> forall|av: Option<ProxyAuthView>|
            !(auth_wf(av) && i + auth_bytes(av).len() <= b@.len() && b@.subrange(
                i as int,
                i + auth_bytes(av).len() as int,
            ) == auth_bytes(av)),
{
    let l_null: [u8; 4] = [0x6e, 0x75, 0x6c, 0x6c];
    let l_user: [u8; 13] = [
        0x7b, 0x22, 0x75, 0x73, 0x65, 0x72, 0x6e, 0x61, 0x6d, 0x65, 0x22, 0x3a, 0x22,
    ];
    let l_pass: [u8; 14] = [
        0x22, 0x2c, 0x22, 0x70, 0x61, 0x73, 0x73, 0x77, 0x6f, 0x72, 0x64, 0x22, 0x3a, 0x22,
    ];
    let l_qend: [u8; 2] = [0x22, 0x7d];
    proof {
        assert(l_null@ =~= lit_null());
        assert(l_user@ =~= lit_user());
        assert(l_pass@ =~= lit_pass());
        assert(l_qend@ =~= lit_qend());
    }
    if let Some(j) = eat(b, i, l_null.as_slice()) {
        proof {
            assert(b@.subrange(i as int, j as int) == auth_bytes(None));
            assert forall|av: Option<ProxyAuthView>|
                (auth_wf(av) && i + auth_bytes(av).len() <= b@.len() && b@.subrange(
                    i as int,
                    i + auth_bytes(av).len() as int,
                ) == auth_bytes(av)) implies av == opt_auth_view(None::<ProxyAuth>) by {
                if let Some(x) = av {
                    lemma_auth_structure(x, b@, i as int);
                    assert(b@.subrange(i as int, i + 13)[0] == lit_user()[0]);
                    assert(b@.subrange(i as int, i + 4)[0] == lit_null()[0]);
                }
            }
        }
        return Some((None, j));
    }
    let j1 = match eat(b, i, l_user.as_slice()) {
        Some(j) => j,
        None => {
            proof {
                assert forall|av: Option<ProxyAuthView>|
                    !(auth_wf(av) && i + auth_bytes(av).len() <= b@.len() && b@.subrange(
                        i as int,
                        i + auth_bytes(av).len() as int,
                    ) == auth_bytes(av)) by {
                    if auth_wf(av) && i + auth_bytes(av).len() <= b@.len() && b@.subrange(
                        i as int,
                        i + auth_bytes(av).len() as int,
                    ) == auth_bytes(av) {
                        if let Some(x) = av {
                            lemma_auth_structure(x, b@, i as int);
                        }
                    }
                }
            }
            return None;
        },
    };
    let (username, j2) = match take_text(b, j1) {
        Some(t) => t,
        None => {
            proof {
                assert forall|av: Option<ProxyAuthView>|
                    !(auth_wf(av) && i + auth_bytes(av).len() <= b@.len() && b@.subrange(
                        i as int,
                        i + auth_bytes(av).len() as int,
                    ) == auth_bytes(av)) by {
                    if auth_wf(av) && i + auth_bytes(av).len() <= b@.len() && b@.subrange(
                        i as int,
                        i + auth_bytes(av).len() as int,
                    ) == auth_bytes(av) {
                        match av {
                            Some(x) => {
                                lemma_auth_structure(x, b@, i as int);
                                let ul = x.username.len() as int;
                                assert forall|k: int| i + 13 <= k < i + 13 + ul implies
                                    text_byte_ok(#[trigger] b@[k]) by {
                                    assert(b@.subrange(i + 13, i + 13 + ul)[k - i - 13]
                                        == x.username[k - i - 13]);
                                }
                                assert(b@.subrange(i + 13 + ul, i + 27 + ul)[0] == lit_pass()[0]);
                                assert(text_terminated_at(b@, i + 13, i + 13 + ul));
                            },
                            None => {
                                assert(b@.subrange(i as int, i + 4) == lit_null());
                            },
                        }
                    }
                }
            }
            return None;
        },
    };
    let j3 = match eat(b, j2, l_pass.as_slice()) {
        Some(j) => j,
        None => {
            proof {
                assert forall|av: Option<ProxyAuthView>|
                    !(auth_wf(av) && i + auth_bytes(av).len() <= b@.len() && b@.subrange(
                        i as int,
                        i + auth_bytes(av).len() as int,
                    ) == auth_bytes(av)) by {
                    if auth_wf(av) && i + auth_bytes(av).len() <= b@.len() && b@.subrange(
                        i as int,
                        i + auth_bytes(av).len() as int,
                    ) == auth_bytes(av) {
                        match av {
                            Some(x) => {
                                lemma_auth_structure(x, b@, i as int);
                                let ul = x.username.len() as int;
                                assert forall|k: int| i + 13 <= k < i + 13 + ul implies
                                    text_byte_ok(#[trigger] b@[k]) by {
                                    assert(b@.subrange(i + 13, i + 13 + ul)[k - i - 13]
                                        == x.username[k - i - 13]);
                                }
                                assert(b@.subrange(i + 13 + ul, i + 27 + ul)[0] == lit_pass()[0]);
                                assert(text_terminated_at(b@, i + 13, i + 13 + ul));
                                lemma_text_unique(b@, i + 13, j2 as int, i + 13 + ul);
                            },
                            None => {
                                assert(b@.subrange(i as int, i + 4) == lit_null());
                            },
                        }
                    }
                }
            }
            return None;
        },
    };
    let (password, j4) = match take_text(b, j3) {
        Some(t) => t,
        None => {
            proof {
                assert forall|av: Option<ProxyAuthView>|
                    !(auth_wf(av) && i + auth_bytes(av).len() <= b@.len() && b@.subrange(
                        i as int,
                        i + auth_bytes(av).len() as int,
                    ) == auth_bytes(av)) by {
                    if auth_wf(av) && i + auth_bytes(av).len() <= b@.len() && b@.subrange(
                        i as int,
                        i + auth_bytes(av).len() as int,
                    ) == auth_bytes(av) {
                        match av {
                            Some(x) => {
                                lemma_auth_structure(x, b@, i as int);
                                let ul = x.username.len() as int;
                                let wl = x.password.len() as int;
                                assert forall|k: int| i + 13 <= k < i + 13 + ul implies
                                    text_byte_ok(#[trigger] b@[k]) by {
                                    assert(b@.subrange(i + 13, i + 13 + ul)[k - i - 13]
                                        == x.username[k - i - 13]);
                                }
                                assert(b@.subrange(i + 13 + ul, i + 27 + ul)[0] == lit_pass()[0]);
                                assert(text_terminated_at(b@, i + 13, i + 13 + ul));
                                lemma_text_unique(b@, i + 13, j2 as int, i + 13 + ul);
                                assert forall|k: int| i + 27 + ul <= k < i + 27 + ul + wl implies
                                    text_byte_ok(#[trigger] b@[k]) by {
                                    assert(b@.subrange(i + 27 + ul, i + 27 + ul + wl)[k - i - 27
                                        - ul] == x.password[k - i - 27 - ul]);
                                }
                                assert(b@.subrange(i + 27 + ul + wl, i + 29 + ul + wl)[0]
                                    == lit_qend()[0]);
                                assert(text_terminated_at(b@, i + 27 + ul, i + 27 + ul + wl));
                            },
                            None => {
                                assert(b@.subrange(i as int, i + 4) == lit_null());
                            },
                        }
                    }
                }
            }
            return None;
        },
    };
    let j5 = match eat(b, j4, l_qend.as_slice()) {
        Some(j) => j,
        None => {
            proof {
                assert forall|av: Option<ProxyAuthView>|
                    !(auth_wf(av) && i + auth_bytes(av).len() <= b@.len() && b@.subrange(
                        i as int,
                        i + auth_bytes(av).len() as int,
                    ) == auth_bytes(av)) by {
                    if auth_wf(av) && i + auth_bytes(av).len() <= b@.len() && b@.subrange(
                        i as int,
                        i + auth_bytes(av).len() as int,
                    ) == auth_bytes(av) {
                        match av {
                            Some(x) => {
                                lemma_auth_structure(x, b@, i as int);
                                let ul = x.username.len() as int;
                                let wl = x.password.len() as int;
                                assert forall|k: int| i + 13 <= k < i + 13 + ul implies
                                    text_byte_ok(#[trigger] b@[k]) by {
                                    assert(b@.subrange(i + 13, i + 13 + ul)[k - i - 13]
                                        == x.username[k - i - 13]);
                                }
                                assert(b@.subrange(i + 13 + ul, i + 27 + ul)[0] == lit_pass()[0]);
                                assert(text_terminated_at(b@, i + 13, i + 13 + ul));
                                lemma_text_unique(b@, i + 13, j2 as int, i + 13 + ul);
                                assert forall|k: int| i + 27 + ul <= k < i + 27 + ul + wl implies
                                    text_byte_ok(#[trigger] b@[k]) by {
                                    assert(b@.subrange(i + 27 + ul, i + 27 + ul + wl)[k - i - 27
                                        - ul] == x.password[k - i - 27 - ul]);
                                }
                                assert(b@.subrange(i + 27 + ul + wl, i + 29 + ul + wl)[0]
                                    == lit_qend()[0]);
                                assert(text_terminated_at(b@, i + 27 + ul, i + 27 + ul + wl));
                                lemma_text_unique(b@, i + 27 + ul, j4 as int, i + 27 + ul + wl);
                            },
                            None => {
                                assert(b@.subrange(i as int, i + 4) == lit_null());
                            },
                        }
                    }
                }
            }
            return None;
        },
    };
    let ghost u = username@;
    let ghost w = password@;
    let ghost ul = u.len() as int;
    let ghost wl = w.len() as int;
    let ghost av0 = Some(ProxyAuthView { username: u, password: w });
    proof {
        let a = auth_bytes(av0);
        let c2 = lit_user() + u;
        let c3 = c2 + lit_pass();
        let c4 = c3 + w;
        assert(a == c4 + lit_qend());
        assert(text_ok(u));
        assert(text_ok(w));
        assert forall|k: int| 0 <= k < a.len() implies b@[i + k] == a[k] by {
            if k < 13 {
                assert(b@.subrange(i as int, j1 as int)[k] == lit_user()[k]);
                assert(a[k] == c4[k]);
                assert(c4[k] == c3[k]);
                assert(c3[k] == c2[k]);
                assert(c2[k] == lit_user()[k]);
            } else if k < 13 + ul {
                assert(b@.subrange(j1 as int, j2 as int)[k - 13] == u[k - 13]);
                assert(a[k] == c4[k]);
                assert(c4[k] == c3[k]);
                assert(c3[k] == c2[k]);
                assert(c2[k] == u[k - 13]);
            } else if k < 27 + ul {
                assert(b@.subrange(j2 as int, j3 as int)[k - 13 - ul] == lit_pass()[k - 13 - ul]);
                assert(a[k] == c4[k]);
                assert(c4[k] == c3[k]);
                assert(c3[k] == lit_pass()[k - 13 - ul]);
            } else if k < 27 + ul + wl {
                assert(b@.subrange(j3 as int, j4 as int)[k - 27 - ul] == w[k - 27 - ul]);
                assert(a[k] == c4[k]);
                assert(c4[k] == w[k - 27 - ul]);
            } else {
                assert(b@.subrange(j4 as int, j5 as int)[k - 27 - ul - wl] == lit_qend()[k - 27
                    - ul - wl]);
                assert(a[k] == lit_qend()[k - 27 - ul - wl]);
            }
        }
        assert(b@.subrange(i as int, j5 as int) =~= a);
        assert forall|av: Option<ProxyAuthView>|
            (auth_wf(av) && i + auth_bytes(av).len() <= b@.len() && b@.subrange(
                i as int,
                i + auth_bytes(av).len() as int,
            ) == auth_bytes(av)) implies av == av0 by {
            match av {
                Some(x) => {
                    lemma_auth_structure(x, b@, i as int);
                    let xul = x.username.len() as int;
                    let xwl = x.password.len() as int;
                    assert forall|k: int| i + 13 <= k < i + 13 + xul implies text_byte_ok(
                        #[trigger] b@[k],
                    ) by {
                        assert(b@.subrange(i + 13, i + 13 + xul)[k - i - 13] == x.username[k - i
                            - 13]);
                    }
                    assert(b@.subrange(i + 13 + xul, i + 27 + xul)[0] == lit_pass()[0]);
                    assert(text_terminated_at(b@, i + 13, i + 13 + xul));
                    lemma_text_unique(b@, i + 13, j2 as int, i + 13 + xul);
                    assert(x.username =~= u);
                    assert forall|k: int| i + 27 + xul <= k < i + 27 + xul + xwl implies
                        text_byte_ok(#[trigger] b@[k]) by {
                        assert(b@.subrange(i + 27 + xul, i + 27 + xul + xwl)[k - i - 27 - xul]
                            == x.password[k - i - 27 - xul]);
                    }
                    assert(b@.subrange(i + 27 + xul + xwl, i + 29 + xul + xwl)[0]
                        == lit_qend()[0]);
                    assert(text_terminated_at(b@, i + 27 + xul, i + 27 + xul + xwl));
                    lemma_text_unique(b@, i + 27 + xul, j4 as int, i + 27 + xul + xwl);
                    assert(x.password =~= w);
                },
                None => {
                    assert(b@.subrange(i as int, i + 4) == lit_null());
                    assert(b@.subrange(i as int, i + 4)[0] == lit_null()[0]);
                    assert(b@.subrange(i as int, j1 as int)[0] == lit_user()[0]);
                },
            }
        }
    }
    Some((Some(ProxyAuth { username, password }), j5))
}

/// The host field of an encoded document is a quote-closed text region.
proof fn lemma_host_terminated(q: ProxyConfigView, s: Seq<u8>)
    requires
        proxy_wf(q),
        s == encode_proxy_spec(q),
    ensures
        text_terminated_at(
            s,
            23 + protocol_bytes(q.protocol).len() as int,
            23 + protocol_bytes(q.protocol).len() as int + q.host.len() as int,
        ),
{
    lemma_enc_structure(q, s);
    let pl = protocol_bytes(q.protocol).len() as int;
    let hl = q.host.len() as int;
    assert forall|k: int| 23 + pl <= k < 23 + pl + hl implies text_byte_ok(#[trigger] s[k]) by {
        assert(s.subrange(23 + pl, 23 + pl + hl)[k - 23 - pl] == q.host[k - 23 - pl]);
    }
    assert(s.subrange(23 + pl + hl, 33 + pl + hl)[0] == lit_port()[0]);
}

/// Read the opening of the canonical form: protocol and host.  A canonical
/// document is always read back as the values it encodes, with the position
/// of its host field's closing quote.
#[verifier::rlimit(80)]
#[verifier::spinoff_prover]
fn parse_prefix(b: &[u8]) -> (r: Option<(ProxyProtocol, Vec<u8>, usize)>)
    ensures
        r matches Some((pr, h, j)) ==> text_ok(h@) && j <= b@.len(),
        r matches Some((pr, h, j)) ==> forall|q: ProxyConfigView|
            (proxy_wf(q) && b@ == encode_proxy_spec(q)) ==> (pr == q.protocol && h@ == q.host && j
                == 23 + protocol_bytes(q.protocol).len() + q.host.len()),
        r is None ==> forall|q: ProxyConfigView| !(proxy_wf(q) && b@ == encode_proxy_spec(q)),
{
    let l_open: [u8; 13] = [
        0x7b, 0x22, 0x70, 0x72, 0x6f, 0x74, 0x6f, 0x63, 0x6f, 0x6c, 0x22, 0x3a, 0x22,
    ];
    let l_host: [u8; 10] = [0x22, 0x2c, 0x22, 0x68, 0x6f, 0x73, 0x74, 0x22, 0x3a, 0x22];
    proof {
        assert(l_open@ =~= lit_open());
        assert(l_host@ =~= lit_host());
    }
    let i1 = match eat(b, 0, l_open.as_slice()) {
        Some(j) => j,
        None => {
            proof {
                assert forall|q: ProxyConfigView| !(proxy_wf(q) && b@ == encode_proxy_spec(q)) by {
                    if proxy_wf(q) && b@ == encode_proxy_spec(q) {
                        lemma_enc_structure(q, b@);
                    }
                }
            }
            return None;
        },
    };
    let (protocol, i2) = match eat_protocol(b, i1) {
        Some(t) => t,
        None => {
            proof {
                assert forall|q: ProxyConfigView| !(proxy_wf(q) && b@ == encode_proxy_spec(q)) by {
                    if proxy_wf(q) && b@ == encode_proxy_spec(q) {
                        lemma_enc_structure(q, b@);
                    }
                }
            }
            return None;
        },
    };
    let i3 = match eat(b, i2, l_host.as_slice()) {
        Some(j) => j,
        None => {
            proof {
                assert forall|q: ProxyConfigView| !(proxy_wf(q) && b@ == encode_proxy_spec(q)) by {
                    if proxy_wf(q) && b@ == encode_proxy_spec(q) {
                        lemma_enc_structure(q, b@);
                    }
                }
            }
            return None;
        },
    };
    let (host, i4) = match take_text(b, i3) {
        Some(t) => t,
        None => {
            proof {
                assert forall|q: ProxyConfigView| !(proxy_wf(q) && b@ == encode_proxy_spec(q)) by {
                    if proxy_wf(q) && b@ == encode_proxy_spec(q) {
                        lemma_enc_structure(q, b@);
                        lemma_host_terminated(q, b@);
                    }
                }
            }
            return None;
        },
    };
    proof {
        assert forall|q: ProxyConfigView| proxy_wf(q) && b@ == encode_proxy_spec(q) implies (
        protocol == q.protocol && host@ == q.host && i4 == 23 + protocol_bytes(q.protocol).len()
            + q.host.len()) by {
            lemma_enc_structure(q, b@);
            lemma_host_terminated(q, b@);
            let pl = protocol_bytes(q.protocol).len() as int;
            let hl = q.host.len() as int;
            lemma_text_unique(b@, 23 + pl, i4 as int, 23 + pl + hl);
            assert(host@ =~= q.host);
        }
    }
    Some((protocol, host, i4))
}

/// Read the fixed head of the canonical form: protocol, host and port.  A
/// canonical document is always read back as the values it encodes, with
/// the position where its `auth` member starts.
#[verifier::rlimit(80)]
#[verifier::spinoff_prover]
fn parse_head(b: &[u8]) -> (r: Option<(ProxyProtocol, Vec<u8>, u16, usize)>)
    ensures
        r matches Some((pr, h, po, j)) ==> text_ok(h@) && j <= b@.len(),
        r matches Some((pr, h, po, j)) ==> forall|q: ProxyConfigView|
            (proxy_wf(q) && b@ == encode_proxy_spec(q)) ==> (pr == q.protocol && h@ == q.host
                && po == q.port && j == 47 + protocol_bytes(q.protocol).len() + q.host.len()),
        r is None ==> forall|q: ProxyConfigView| !(proxy_wf(q) && b@ == encode_proxy_spec(q)),
{
    let l_port: [u8; 10] = [0x22, 0x2c, 0x22, 0x70, 0x6f, 0x72, 0x74, 0x22, 0x3a, 0x22];
    let l_auth: [u8; 9] = [0x22, 0x2c, 0x22, 0x61, 0x75, 0x74, 0x68, 0x22, 0x3a];
    proof {
        assert(l_port@ =~= lit_port());
        assert(l_auth@ =~= lit_auth());
    }
    let (protocol, host, i4) = match parse_prefix(b) {
        Some(t) => t,
        None => { return None },
    };
    let i5 = match eat(b, i4, l_port.as_slice()) {
        Some(j) => j,
        None => {
            proof {
                assert forall|q: ProxyConfigView| !(proxy_wf(q) && b@ == encode_proxy_spec(q)) by {
                    if proxy_wf(q) && b@ == encode_proxy_spec(q) {
                        lemma_enc_structure(q, b@);
                    }
                }
            }
            return None;
        },
    };
    let (port, i6) = match take_port(b, i5) {
        Some(t) => t,
        None => {
            proof {
                assert forall|q: ProxyConfigView| !(proxy_wf(q) && b@ == encode_proxy_spec(q)) by {
                    if proxy_wf(q) && b@ == encode_proxy_spec(q) {
                        lemma_enc_structure(q, b@);
                    }
                }
            }
            return None;
        },
    };
    let i7 = match eat(b, i6, l_auth.as_slice()) {
        Some(j) => j,
        None => {
            proof {
                assert forall|q: ProxyConfigView| !(proxy_wf(q) && b@ == encode_proxy_spec(q)) by {
                    if proxy_wf(q) && b@ == encode_proxy_spec(q) {
                        lemma_enc_structure(q, b@);
                    }
                }
            }
            return None;
        },
    };
    proof {
        assert forall|q: ProxyConfigView| proxy_wf(q) && b@ == encode_proxy_spec(q) implies (
        protocol == q.protocol && host@ == q.host && port == q.port && i7 == 47 + protocol_bytes(
            q.protocol,
        ).len() + q.host.len()) by {
            lemma_enc_structure(q, b@);
            lemma_dec5_injective(port, q.port);
        }
    }
    Some((protocol, host, port, i7))
}

/// Read one candidate configuration from the canonical form: a canonical
/// document is always read back as the configuration it encodes; the caller
/// checks anything else by re-encoding what was read.
#[verifier::rlimit(80)]
#[verifier::spinoff_prover]
fn parse_raw(b: &[u8]) -> (r: Option<ProxyConfig>)
    ensures
        forall|q: ProxyConfigView|
            (proxy_wf(q) && b@ == encode_proxy_spec(q)) ==> (r matches Some(p) && p@ == q),
{
    let (protocol, host, port, i7) = match parse_head(b) {
        Some(t) => t,
        None => { return None },
    };
    let (auth, i8) = match take_auth(b, i7) {
        Some(t) => t,
        None => {
            proof {
                assert forall|q: ProxyConfigView| !(proxy_wf(q) && b@ == encode_proxy_spec(q)) by {
                    if proxy_wf(q) && b@ == encode_proxy_spec(q) {
                        lemma_enc_structure(q, b@);
                    }
                }
            }
            return None;
        },
    };
    let ok = i8 < b.len() && i8 + 1 == b.len();
    let closed = if ok {
        b[i8] == 0x7d
    } else {
        false
    };
    proof {
        assert forall|q: ProxyConfigView| proxy_wf(q) && b@ == encode_proxy_spec(q) implies ok
            && closed by {
            lemma_enc_structure(q, b@);
        }
    }
    if !ok || !closed {
        return None;
    }
    let record = ProxyConfig { protocol, auth, host, port };
    proof {
        assert forall|q: ProxyConfigView| proxy_wf(q) && b@ == encode_proxy_spec(q) implies
            record@ == q by {
            lemma_enc_structure(q, b@);
            assert(record@.protocol == q.protocol);
            assert(record@.auth == q.auth);
            assert(record@.host == q.host);
            assert(record@.port == q.port);
        }
    }
    Some(record)
}

/// Deserialize a configuration: a document is accepted exactly when it is
/// the canonical form of some configuration, and that configuration is what
/// comes back.
pub fn parse_proxy(b: &[u8]) -> (r: Option<ProxyConfig>)
    ensures
        r matches Some(p) ==> proxy_wf(p@) && b@ == encode_proxy_spec(p@),
        forall|q: ProxyConfigView|
            (proxy_wf(q) && b@ == encode_proxy_spec(q)) ==> (r matches Some(p) && p@ == q),
{
    let candidate = match parse_raw(b) {
        Some(p) => p,
        None => { return None },
    };
    let encoded = match encode_proxy(&candidate) {
        Some(v) => v,
        None => { return None },
    };
    if bytes_eq(encoded.as_slice(), b) {
        Some(candidate)
    } else {
        None
    }
}

} // verus!
