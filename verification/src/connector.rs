//! The multi-transport connector's pure core: the socket-path/URI
//! codec, the scheme-dispatch decision, the negotiated-transport rules,
//! and best-effort root-certificate accounting.
//!
//! The asynchronous work itself (dialing sockets, TLS handshakes) is
//! driven outside the library; everything decided here is verified.

use vstd::prelude::*;

use crate::errors::Error;

verus! {

// ---------------------------------------------------------------------
// Hex codec, relied on for the synthetic `unix://<hex>` authority.
// ---------------------------------------------------------------------

/// The lowercase hex digit of a nibble.
pub open spec fn hex_char(n: u8) -> char {
    if n == 0 {
        '0'
    } else if n == 1 {
        '1'
    } else if n == 2 {
        '2'
    } else if n == 3 {
        '3'
    } else if n == 4 {
        '4'
    } else if n == 5 {
        '5'
    } else if n == 6 {
        '6'
    } else if n == 7 {
        '7'
    } else if n == 8 {
        '8'
    } else if n == 9 {
        '9'
    } else if n == 10 {
        'a'
    } else if n == 11 {
        'b'
    } else if n == 12 {
        'c'
    } else if n == 13 {
        'd'
    } else if n == 14 {
        'e'
    } else {
        'f'
    }
}

/// The value of a hex digit, either case; -1 for any other character.
pub open spec fn hex_val(c: char) -> int {
    if c == '0' {
        0
    } else if c == '1' {
        1
    } else if c == '2' {
        2
    } else if c == '3' {
        3
    } else if c == '4' {
        4
    } else if c == '5' {
        5
    } else if c == '6' {
        6
    } else if c == '7' {
        7
    } else if c == '8' {
        8
    } else if c == '9' {
        9
    } else if c == 'a' || c == 'A' {
        10
    } else if c == 'b' || c == 'B' {
        11
    } else if c == 'c' || c == 'C' {
        12
    } else if c == 'd' || c == 'D' {
        13
    } else if c == 'e' || c == 'E' {
        14
    } else if c == 'f' || c == 'F' {
        15
    } else {
        -1
    }
}

pub open spec fn is_hex_digit(c: char) -> bool {
    hex_val(c) >= 0
}

/// The two lowercase hex digits of a byte.
pub open spec fn hex_of_byte(b: u8) -> Seq<char> {
    seq![hex_char(b / 16), hex_char(b % 16)]
}

/// The lowercase hex rendering of a byte sequence.
pub open spec fn hex_lower(bs: Seq<u8>) -> Seq<char>
    decreases bs.len(),
{
    if bs.len() == 0 {
        Seq::empty()
    } else {
        hex_lower(bs.drop_last()) + hex_of_byte(bs.last())
    }
}

/// A decodable hex string: even length, hex digits only.
pub open spec fn is_valid_hex(s: Seq<char>) -> bool {
    &&& s.len() % 2 == 0
    &&& forall|i: int| 0 <= i < s.len() ==> is_hex_digit(#[trigger] s[i])
}

/// The bytes a hex string denotes, two digits per byte.
pub open spec fn hex_decode_spec(s: Seq<char>) -> Seq<u8>
    decreases s.len(),
{
    if s.len() < 2 {
        Seq::empty()
    } else {
        hex_decode_spec(s.drop_last().drop_last()).push(
            (hex_val(s[s.len() - 2]) * 16 + hex_val(s[s.len() - 1])) as u8,
        )
    }
}

proof fn lemma_hex_digit_round_trip(n: u8)
    requires
        n < 16,
    ensures
        hex_val(hex_char(n)) == n,
{
}

/// Decoding inverts encoding: the hex rendering of any byte sequence is
/// valid hex and denotes exactly those bytes.
pub proof fn lemma_hex_round_trip(bs: Seq<u8>)
    ensures
        is_valid_hex(hex_lower(bs)),
        hex_decode_spec(hex_lower(bs)) == bs,
    decreases bs.len(),
{
    if bs.len() == 0 {
        assert(hex_lower(bs) =~= Seq::<char>::empty());
    } else {
        let prev = hex_lower(bs.drop_last());
        let b = bs.last();
        lemma_hex_round_trip(bs.drop_last());
        lemma_hex_digit_round_trip(b / 16);
        lemma_hex_digit_round_trip(b % 16);
        let whole = hex_lower(bs);
        assert(whole == prev + hex_of_byte(b));
        assert forall|i: int| 0 <= i < whole.len() implies is_hex_digit(#[trigger] whole[i]) by {
            if i < prev.len() {
                assert(whole[i] == prev[i]);
            } else {
                assert(whole[i] == hex_of_byte(b)[i - prev.len()]);
            }
        }
        assert(whole.drop_last().drop_last() =~= prev);
        assert(whole[whole.len() - 2] == hex_char(b / 16));
        assert(whole[whole.len() - 1] == hex_char(b % 16));
        assert((hex_val(whole[whole.len() - 2]) * 16 + hex_val(whole[whole.len() - 1])) as u8
            == b);
        assert(hex_decode_spec(whole) =~= bs);
    }
}

/// hex's decode error, declared opaquely.
#[verifier::external_type_specification]
#[verifier::external_body]
pub struct ExFromHexError(hex::FromHexError);

/// Relies on hex::encode: lowercase hex, two digits per byte, in order.
#[verifier::external_body]
fn hex_encode(data: &[u8]) -> (r: String)
    ensures
        r@ == hex_lower(data@),
{
    hex::encode(data)
}

/// Relies on hex::decode: succeeds exactly on even-length strings of
/// hex digits (either case), yielding the byte each digit pair denotes.
#[verifier::external_body]
fn hex_decode(data: &str) -> (r: Result<Vec<u8>, hex::FromHexError>)
    ensures
        match r {
            Ok(v) => is_valid_hex(data@) && v@ == hex_decode_spec(data@),
            Err(_) => !is_valid_hex(data@),
        },
{
    hex::decode(data)
}

// ---------------------------------------------------------------------
// The socket-path/URI codec.
// ---------------------------------------------------------------------

/// The parts of a URI the connector reads: its scheme and authority.
pub struct UriParts {
    pub scheme: Option<String>,
    pub authority: Option<String>,
}

pub open spec fn scheme_view(u: UriParts) -> Option<Seq<char>> {
    match u.scheme {
        Some(s) => Some(s@),
        None => None,
    }
}

pub open spec fn authority_view(u: UriParts) -> Option<Seq<char>> {
    match u.authority {
        Some(s) => Some(s@),
        None => None,
    }
}

/// A URI the codec accepts: scheme `unix` and a valid-hex authority.
pub open spec fn unix_uri_ok(u: UriParts) -> bool {
    &&& scheme_view(u) matches Some(s) && s == "unix"@
    &&& authority_view(u) matches Some(a) && is_valid_hex(a)
}

/// The socket path a synthetic unix URI denotes.
pub open spec fn unix_uri_path(u: UriParts) -> Seq<u8> {
    match authority_view(u) {
        Some(a) => hex_decode_spec(a),
        None => Seq::empty(),
    }
}

/// Encodes a socket path as a synthetic `unix://<hex>` URI, hex keeping
/// special characters out of the authority; an empty path has no
/// authority to carry and is rejected.
pub fn socket_path_to_uri(path: &[u8]) -> (r: Result<UriParts, Error>)
    ensures
        match r {
            Ok(u) => path@.len() > 0 && scheme_view(u) == Some("unix"@) && authority_view(u)
                == Some(hex_lower(path@)),
            Err(e) => path@.len() == 0 && e == Error::InvalidUrl,
        },
{
    if path.len() == 0 {
        return Err(Error::InvalidUrl);
    }
    let h = hex_encode(path);
    Ok(UriParts { scheme: Some("unix".to_owned()), authority: Some(h) })
}

/// Decodes a synthetic unix URI back to the socket path; any scheme
/// mismatch, missing authority or invalid hex is an invalid URL.
pub fn socket_path_from_uri(uri: &UriParts) -> (r: Result<Vec<u8>, Error>)
    ensures
        match r {
            Ok(p) => unix_uri_ok(*uri) && p@ == unix_uri_path(*uri),
            Err(e) => !unix_uri_ok(*uri) && e == Error::InvalidUrl,
        },
{
    let unx: String = "unix".to_owned();
    let scheme_ok = match &uri.scheme {
        Some(s) => *s == unx,
        None => false,
    };
    if !scheme_ok {
        return Err(Error::InvalidUrl);
    }
    match &uri.authority {
        Some(a) => match hex_decode(a.as_str()) {
            Ok(v) => Ok(v),
            Err(_) => Err(Error::InvalidUrl),
        },
        None => Err(Error::InvalidUrl),
    }
}

/// Encoding then decoding a non-empty socket path is the identity.
pub proof fn lemma_socket_uri_round_trip(path: Seq<u8>)
    ensures
        is_valid_hex(hex_lower(path)),
        hex_decode_spec(hex_lower(path)) == path,
{
    lemma_hex_round_trip(path);
}

// ---------------------------------------------------------------------
// Root-certificate loading, best-effort.
// ---------------------------------------------------------------------

/// rustls's container of trusted roots, declared opaquely.
#[verifier::external_type_specification]
#[verifier::external_body]
pub struct ExRootCertStore(rustls::RootCertStore);

/// rustls's DER-encoded certificate: a newtype over its bytes.
#[verifier::external_type_specification]
pub struct ExRustlsCertificate(rustls::Certificate);

/// rustls_native_certs's DER-encoded certificate: a newtype over its
/// bytes.
#[verifier::external_type_specification]
pub struct ExNativeCertificate(rustls_native_certs::Certificate);

/// hyper's plain TCP connector, declared opaquely.
#[verifier::external_type_specification]
#[verifier::external_body]
#[verifier::reject_recursive_types(R)]
pub struct ExHttpConnector<R>(hyper::client::HttpConnector<R>);

/// hyper_rustls's TLS-capable connector, declared opaquely.
#[verifier::external_type_specification]
#[verifier::external_body]
#[verifier::reject_recursive_types(T)]
pub struct ExHttpsConnector<T>(hyper_rustls::HttpsConnector<T>);

/// hyper's default DNS resolver, the TCP connector's type parameter.
#[verifier::external_type_specification]
#[verifier::external_body]
pub struct ExGaiResolver(hyper::client::connect::dns::GaiResolver);

/// Relies on hyper's derived `Clone` for `HttpConnector`.
pub assume_specification<R: Clone>[ <hyper::client::HttpConnector<R> as Clone>::clone ](
    c: &hyper::client::HttpConnector<R>,
) -> hyper::client::HttpConnector<R>;

/// Relies on hyper_rustls's derived `Clone` for `HttpsConnector`.
pub assume_specification<T: Clone>[ <hyper_rustls::HttpsConnector<T> as Clone>::clone ](
    c: &hyper_rustls::HttpsConnector<T>,
) -> hyper_rustls::HttpsConnector<T>;

/// How many roots a store holds.
pub uninterp spec fn root_count(s: rustls::RootCertStore) -> nat;

/// Whether these DER bytes parse as a trust anchor; named after the
/// parse inside rustls's `RootCertStore::add`, a function of the bytes
/// alone.
pub uninterp spec fn parses_as_root(der: Seq<u8>) -> bool;

/// How many of the first `k` candidate certificates do not parse as
/// roots.
pub open spec fn invalid_up_to(v: Seq<rustls_native_certs::Certificate>, k: int) -> nat
    decreases k,
{
    if k <= 0 {
        0
    } else {
        invalid_up_to(v, k - 1) + (if parses_as_root(v[k - 1].0@) {
            0nat
        } else {
            1nat
        })
    }
}

/// At most `k` of the first `k` candidates are invalid, and fewer than
/// `k` exactly when some candidate among them parses.
pub proof fn lemma_invalid_up_to(v: Seq<rustls_native_certs::Certificate>, k: int)
    requires
        0 <= k <= v.len(),
    ensures
        invalid_up_to(v, k) <= k,
        invalid_up_to(v, k) < k <==> exists|i: int|
            0 <= i < k && parses_as_root(#[trigger] v[i].0@),
    decreases k,
{
    if k > 0 {
        lemma_invalid_up_to(v, k - 1);
        if parses_as_root(v[k - 1].0@) {
        } else {
            if invalid_up_to(v, k) < k {
                let i = choose|i: int| 0 <= i < k - 1 && parses_as_root(#[trigger] v[i].0@);
                assert(parses_as_root(v[i].0@));
            }
        }
    }
}

/// Relies on rustls's `RootCertStore::empty`: a store with no roots.
#[verifier::external_body]
fn new_root_store() -> (s: rustls::RootCertStore)
    ensures
        root_count(s) == 0,
{
    rustls::RootCertStore::empty()
}

/// Relies on rustls's `RootCertStore::add`: parses the DER certificate
/// — an outcome decided by the bytes alone — and, exactly when parsing
/// succeeds, appends one root.
#[verifier::external_body]
fn add_root(store: &mut rustls::RootCertStore, cert: &rustls::Certificate) -> (r: bool)
    ensures
        r == parses_as_root(cert.0@),
        r ==> root_count(*final(store)) == root_count(*old(store)) + 1,
        !r ==> root_count(*final(store)) == root_count(*old(store)),
{
    match store.add(cert) {
        Ok(()) => true,
        Err(_) => false,
    }
}

/// Relies on rustls's `RootCertStore::is_empty`: whether no roots are
/// held.
#[verifier::external_body]
fn root_store_is_empty(store: &rustls::RootCertStore) -> (r: bool)
    ensures
        r == (root_count(*store) == 0),
{
    store.is_empty()
}

/// Relies on rustls_native_certs's `Certificate` newtype: rewraps the
/// DER bytes of the certificate at `i` as a rustls certificate.
#[verifier::external_body]
fn native_cert_at(v: &Vec<rustls_native_certs::Certificate>, i: usize) -> (r: rustls::Certificate)
    requires
        i < v@.len(),
    ensures
        r.0@ == v@[i as int].0@,
{
    rustls::Certificate(v[i].0.clone())
}

/// Folds platform certificates into a root store, counting the ones
/// rustls rejects; an absent or entirely invalid set yields no store.
/// A store comes back exactly when some candidate parses as a root,
/// and the observable invalid count is exactly the number that do not.
pub fn build_root_store(certs: Option<Vec<rustls_native_certs::Certificate>>) -> (r: (
    Option<rustls::RootCertStore>,
    usize,
))
    ensures
        certs is None ==> r.0 is None && r.1 == 0,
        certs matches Some(v) ==> {
            &&& r.1 == invalid_up_to(v@, v@.len() as int)
            &&& (r.0 is Some <==> exists|i: int|
                0 <= i < v@.len() && parses_as_root(#[trigger] v@[i].0@))
            &&& (r.0 matches Some(s) ==> root_count(s) + r.1 == v@.len())
        },
{
    let v = match certs {
        Some(v) => v,
        None => {
            return (None, 0);
        },
    };
    let mut store = new_root_store();
    let mut invalid: usize = 0;
    let n = v.len();
    let mut i: usize = 0;
    while i < n
        invariant
            i <= n,
            n == v@.len(),
            invalid <= i,
            invalid == invalid_up_to(v@, i as int),
            root_count(store) + invalid == i,
        decreases n - i,
    {
        let cert = native_cert_at(&v, i);
        if !add_root(&mut store, &cert) {
            invalid += 1;
        }
        i += 1;
    }
    proof {
        lemma_invalid_up_to(v@, n as int);
    }
    if root_store_is_empty(&store) {
        (None, invalid)
    } else {
        (Some(store), invalid)
    }
}

// ---------------------------------------------------------------------
// The connector and its dispatch decision.
// ---------------------------------------------------------------------

/// Relies on hyper's `HttpConnector::new`: a plain TCP connector.
#[verifier::external_body]
fn new_http_connector() -> hyper::client::HttpConnector {
    hyper::client::HttpConnector::new()
}

/// Relies on rustls's client-config builder and hyper_rustls's
/// connector builder: assembles a TLS-capable connector over the given
/// roots, accepting both https and http, speaking HTTP/1. Configuration
/// plumbing only; nothing about the profile's logic happens here.
#[verifier::external_body]
fn new_https_connector(roots: rustls::RootCertStore) -> hyper_rustls::HttpsConnector<
    hyper::client::HttpConnector,
> {
    let config = rustls::ClientConfig::builder()
        .with_safe_defaults()
        .with_root_certificates(roots)
        .with_no_client_auth();
    hyper_rustls::HttpsConnectorBuilder::new()
        .with_tls_config(config)
        .https_or_http()
        .enable_http1()
        .build()
}

/// A connection factory in one of two modes: TLS-capable when a root
/// store could be built, plain HTTP otherwise.
#[derive(Clone)]
pub enum MaybeHttpsConnector {
    Http(hyper::client::HttpConnector),
    Https(hyper_rustls::HttpsConnector<hyper::client::HttpConnector>),
}

/// What the connector should do for a URI, by scheme and mode.
#[derive(Debug)]
pub enum CallDecision {
    /// Connect the UNIX-domain socket at this path.
    Unix(Vec<u8>),
    /// Connect plain TCP.
    Tcp,
    /// Connect through the TLS-capable connector; a plaintext outcome
    /// must be rejected.
    TlsRequired,
    /// Connect through the TLS-capable connector; either outcome is
    /// accepted.
    TlsPreferred,
}

/// The ghost mirror of [`CallDecision`].
pub enum PlanSpec {
    Unix(Seq<u8>),
    Tcp,
    TlsRequired,
    TlsPreferred,
}

/// The connector's dispatch table. `unix` URIs connect a socket where
/// the platform supports one, decoding the authority as the path;
/// `https` demands the TLS-capable mode; anything else is plain TCP,
/// upgraded opportunistically when TLS is available.
pub open spec fn plan_spec(
    https_capable: bool,
    unix_supported: bool,
    scheme: Option<Seq<char>>,
    authority: Option<Seq<char>>,
) -> Result<PlanSpec, Error> {
    if scheme == Some("unix"@) {
        if !unix_supported {
            Err(Error::UnixSocketUnsupported)
        } else {
            match authority {
                Some(a) => if is_valid_hex(a) {
                    Ok(PlanSpec::Unix(hex_decode_spec(a)))
                } else {
                    Err(Error::InvalidUrl)
                },
                None => Err(Error::InvalidUrl),
            }
        }
    } else if scheme == Some("https"@) {
        if https_capable {
            Ok(PlanSpec::TlsRequired)
        } else {
            Err(Error::CannotEstablishTlsConnection)
        }
    } else {
        if https_capable {
            Ok(PlanSpec::TlsPreferred)
        } else {
            Ok(PlanSpec::Tcp)
        }
    }
}

impl MaybeHttpsConnector {
    /// Whether this connector can establish TLS connections.
    pub open spec fn is_https_capable(self) -> bool {
        self is Https
    }

    /// Wraps an optional root store: TLS-capable exactly when roots
    /// are available.
    pub fn from_root_store(roots: Option<rustls::RootCertStore>) -> (r: Self)
        ensures
            r.is_https_capable() <==> roots is Some,
    {
        match roots {
            Some(store) => MaybeHttpsConnector::Https(new_https_connector(store)),
            None => MaybeHttpsConnector::Http(new_http_connector()),
        }
    }

    /// Decides what a call on this URI must do; the asynchronous work
    /// itself is carried out by the caller against this decision.
    pub fn call_plan(&self, uri: &UriParts, unix_supported: bool) -> (r: Result<
        CallDecision,
        Error,
    >)
        ensures
            ({
                let s = plan_spec(
                    self.is_https_capable(),
                    unix_supported,
                    scheme_view(*uri),
                    authority_view(*uri),
                );
                match r {
                    Ok(d) => match d {
                        CallDecision::Unix(p) => s == Ok::<PlanSpec, Error>(PlanSpec::Unix(p@)),
                        CallDecision::Tcp => s == Ok::<PlanSpec, Error>(PlanSpec::Tcp),
                        CallDecision::TlsRequired => s == Ok::<PlanSpec, Error>(PlanSpec::TlsRequired),
                        CallDecision::TlsPreferred => s == Ok::<PlanSpec, Error>(PlanSpec::TlsPreferred),
                    },
                    Err(e) => s == Err::<PlanSpec, Error>(e),
                }
            }),
    {
        let unx: String = "unix".to_owned();
        let hts: String = "https".to_owned();
        let is_unix = match &uri.scheme {
            Some(s) => *s == unx,
            None => false,
        };
        if is_unix {
            if !unix_supported {
                return Err(Error::UnixSocketUnsupported);
            }
            match socket_path_from_uri(uri) {
                Ok(path) => Ok(CallDecision::Unix(path)),
                Err(e) => Err(e),
            }
        } else {
            let is_https = match &uri.scheme {
                Some(s) => *s == hts,
                None => false,
            };
            let capable = match self {
                MaybeHttpsConnector::Http(_) => false,
                MaybeHttpsConnector::Https(_) => true,
            };
            if is_https {
                if capable {
                    Ok(CallDecision::TlsRequired)
                } else {
                    Err(Error::CannotEstablishTlsConnection)
                }
            } else {
                if capable {
                    Ok(CallDecision::TlsPreferred)
                } else {
                    Ok(CallDecision::Tcp)
                }
            }
        }
    }
}

/// An `https` URI is rejected with `CannotEstablishTlsConnection` if
/// and only if the connector lacks TLS capability.
pub proof fn lemma_https_rejected_iff_http_only(
    https_capable: bool,
    unix_supported: bool,
    authority: Option<Seq<char>>,
)
    ensures
        plan_spec(https_capable, unix_supported, Some("https"@), authority) == Err::<
            PlanSpec,
            Error,
        >(Error::CannotEstablishTlsConnection) <==> !https_capable,
{
    reveal_strlit("https");
    reveal_strlit("unix");
    assert("https"@.len() == 5);
    assert("unix"@.len() == 4);
}

/// The kind of stream a connection attempt produced.
#[derive(Copy, Clone, Debug, PartialEq, Eq, Structural)]
pub enum TransportKind {
    Tcp,
    Tls,
}

/// What a TLS-capable connection attempt yields: a TLS stream stays a
/// TLS stream; a plaintext stream is rejected exactly when TLS was
/// required, else it is plain TCP.
pub fn classify_negotiated(require_tls: bool, is_tls: bool) -> (r: Result<TransportKind, Error>)
    ensures
        is_tls ==> r == Ok::<TransportKind, Error>(TransportKind::Tls),
        !is_tls && require_tls ==> r == Err::<TransportKind, Error>(
            Error::CannotEstablishTlsConnection,
        ),
        !is_tls && !require_tls ==> r == Ok::<TransportKind, Error>(TransportKind::Tcp),
{
    if is_tls {
        Ok(TransportKind::Tls)
    } else if require_tls {
        Err(Error::CannotEstablishTlsConnection)
    } else {
        Ok(TransportKind::Tcp)
    }
}

/// Whether an ALPN result negotiated HTTP/2: exactly the two bytes of
/// `h2`.
pub fn alpn_is_h2(alpn: &Option<Vec<u8>>) -> (r: bool)
    ensures
        r <==> (alpn matches Some(v) && v@ == seq![0x68u8, 0x32u8]),
{
    match alpn {
        Some(v) => {
            let ok = v.len() == 2 && v[0] == 0x68 && v[1] == 0x32;
            proof {
                if ok {
                    assert(v@ =~= seq![0x68u8, 0x32u8]);
                }
            }
            ok
        },
        None => false,
    }
}

} // verus!
