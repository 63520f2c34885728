use ddprof::connector::{
    alpn_is_h2, build_root_store, classify_negotiated, socket_path_from_uri, socket_path_to_uri,
};
use ddprof::{CallDecision, Error, MaybeHttpsConnector, TransportKind, UriParts};

#[test]
fn test_encode_unix_socket_path_absolute() {
    let expected_path = "/path/to/a/socket.sock".as_bytes();
    let uri = socket_path_to_uri(expected_path).unwrap();
    assert_eq!(uri.scheme.as_deref(), Some("unix"));

    let actual_path = socket_path_from_uri(&uri).unwrap();
    assert_eq!(actual_path.as_slice(), expected_path);
}

#[test]
fn test_encode_unix_socket_relative_path() {
    let expected_path = "relative/path/to/a/socket.sock".as_bytes();
    let uri = socket_path_to_uri(expected_path).unwrap();
    let actual_path = socket_path_from_uri(&uri).unwrap();
    assert_eq!(actual_path.as_slice(), expected_path);

    let expected_path = "./relative/path/to/a/socket.sock".as_bytes();
    let uri = socket_path_to_uri(expected_path).unwrap();
    let actual_path = socket_path_from_uri(&uri).unwrap();
    assert_eq!(actual_path.as_slice(), expected_path);
}

#[test]
fn unix_uri_authority_is_lowercase_hex() {
    let uri = socket_path_to_uri("/path/to/a/socket.sock".as_bytes()).unwrap();
    assert_eq!(uri.scheme.as_deref(), Some("unix"));
    assert_eq!(
        uri.authority.as_deref(),
        Some("2f706174682f746f2f612f736f636b65742e736f636b")
    );
}

#[test]
fn from_uri_rejects_wrong_scheme_and_bad_hex() {
    let https = UriParts {
        scheme: Some("https".to_owned()),
        authority: Some("2f".to_owned()),
    };
    assert_eq!(socket_path_from_uri(&https), Err(Error::InvalidUrl));

    let no_authority = UriParts {
        scheme: Some("unix".to_owned()),
        authority: None,
    };
    assert_eq!(socket_path_from_uri(&no_authority), Err(Error::InvalidUrl));

    let odd = UriParts {
        scheme: Some("unix".to_owned()),
        authority: Some("2f7".to_owned()),
    };
    assert_eq!(socket_path_from_uri(&odd), Err(Error::InvalidUrl));

    let not_hex = UriParts {
        scheme: Some("unix".to_owned()),
        authority: Some("zz".to_owned()),
    };
    assert_eq!(socket_path_from_uri(&not_hex), Err(Error::InvalidUrl));
}

#[test]
fn empty_path_is_invalid_url() {
    assert!(matches!(
        socket_path_to_uri("".as_bytes()),
        Err(Error::InvalidUrl)
    ));
}

fn http_only() -> MaybeHttpsConnector {
    let (roots, invalid) = build_root_store(None);
    assert!(roots.is_none());
    assert_eq!(invalid, 0);
    MaybeHttpsConnector::from_root_store(roots)
}

#[test]
fn https_rejected_under_http_only() {
    // A connector built without certificate roots refuses `https://…`
    // before any socket is opened.
    let connector = http_only();
    let uri = UriParts {
        scheme: Some("https".to_owned()),
        authority: Some("example.invalid".to_owned()),
    };
    let plan = connector.call_plan(&uri, true);
    assert_eq!(plan.unwrap_err(), Error::CannotEstablishTlsConnection);
}

#[test]
fn plain_scheme_is_tcp_under_http_only() {
    let connector = http_only();
    let uri = UriParts {
        scheme: Some("http".to_owned()),
        authority: Some("example.invalid".to_owned()),
    };
    assert!(matches!(
        connector.call_plan(&uri, true),
        Ok(CallDecision::Tcp)
    ));
}

#[test]
fn unix_scheme_decodes_the_socket_path() {
    let connector = http_only();
    let uri = socket_path_to_uri("/tmp/x.sock".as_bytes()).unwrap();
    match connector.call_plan(&uri, true) {
        Ok(CallDecision::Unix(path)) => assert_eq!(path.as_slice(), "/tmp/x.sock".as_bytes()),
        other => panic!("expected a unix plan, got {:?}", other.is_ok()),
    }
    assert_eq!(
        connector.call_plan(&uri, false).unwrap_err(),
        Error::UnixSocketUnsupported
    );
}

#[test]
fn invalid_certificates_are_counted_not_fatal() {
    let certs = vec![
        rustls_native_certs::Certificate(vec![1, 2, 3]),
        rustls_native_certs::Certificate(vec![]),
    ];
    let (roots, invalid) = build_root_store(Some(certs));
    // Neither blob parses as a certificate: no store, both counted.
    assert!(roots.is_none());
    assert_eq!(invalid, 2);
    let connector = MaybeHttpsConnector::from_root_store(roots);
    let uri = UriParts {
        scheme: Some("https".to_owned()),
        authority: Some("example.invalid".to_owned()),
    };
    assert_eq!(
        connector.call_plan(&uri, true).unwrap_err(),
        Error::CannotEstablishTlsConnection
    );
}

#[test]
fn classify_negotiated_rules() {
    assert_eq!(classify_negotiated(false, true), Ok(TransportKind::Tls));
    assert_eq!(classify_negotiated(true, true), Ok(TransportKind::Tls));
    assert_eq!(classify_negotiated(false, false), Ok(TransportKind::Tcp));
    assert_eq!(
        classify_negotiated(true, false),
        Err(Error::CannotEstablishTlsConnection)
    );
}

#[test]
fn alpn_h2_detection() {
    assert!(alpn_is_h2(&Some(b"h2".to_vec())));
    assert!(!alpn_is_h2(&Some(b"http/1.1".to_vec())));
    assert!(!alpn_is_h2(&Some(b"h".to_vec())));
    assert!(!alpn_is_h2(&None));
}

#[test]
fn error_messages_are_fixed() {
    assert_eq!("invalid url", Error::InvalidUrl.message());
    assert_eq!("operation timed out", Error::OperationTimedOut.message());
    assert_eq!(
        "unix sockets unsuported on windows",
        Error::UnixSocketUnsupported.message()
    );
    assert_eq!(
        "cannot establish requested secure TLS connection",
        Error::CannotEstablishTlsConnection.message()
    );
    assert_eq!(
        "native tls couldn't find any valid certifacte roots",
        Error::NoValidCertificateRootsFound.message()
    );
}
