//! The closed set of domain error kinds the transport layer reports.

use vstd::prelude::*;

verus! {

/// A user-visible error kind; each has a fixed rendering.
#[derive(Clone, Debug, PartialEq, Eq, Structural)]
pub enum Error {
    InvalidUrl,
    OperationTimedOut,
    UnixSocketUnsupported,
    CannotEstablishTlsConnection,
    NoValidCertificateRootsFound,
}

impl Error {
    /// The fixed human-readable rendering of this error kind.
    pub fn message(&self) -> (r: String)
        ensures
            r@ == match self {
                Error::InvalidUrl => "invalid url"@,
                Error::OperationTimedOut => "operation timed out"@,
                Error::UnixSocketUnsupported => "unix sockets unsuported on windows"@,
                Error::CannotEstablishTlsConnection => "cannot establish requested secure TLS connection"@,
                Error::NoValidCertificateRootsFound => "native tls couldn't find any valid certifacte roots"@,
            },
    {
        match self {
            Error::InvalidUrl => "invalid url".to_owned(),
            Error::OperationTimedOut => "operation timed out".to_owned(),
            Error::UnixSocketUnsupported => "unix sockets unsuported on windows".to_owned(),
            Error::CannotEstablishTlsConnection => "cannot establish requested secure TLS connection".to_owned(),
            Error::NoValidCertificateRootsFound => "native tls couldn't find any valid certifacte roots".to_owned(),
        }
    }
}

} // verus!
