use tinykeeper::auth::{authenticate, AuthError};
use tinykeeper::connection_handler::{connect_response, frame_action, frame_length, handle_auth, FrameAction};
use tinykeeper::protocol::{ConnectRequest, SessionId};

#[test]
fn digest_matches_zookeeper_format() {
    let identity = authenticate("digest", b"super:test").unwrap();

    assert_eq!(identity.scheme, "digest");
    assert_eq!(identity.id, "super:D/InIHSb7yEEbrWz8b9l71RjZJU=");
}

#[test]
fn unsupported_scheme_is_refused() {
    assert_eq!(authenticate("ip", b"127.0.0.1").err(), Some(AuthError::UnsupportedScheme));
}

#[test]
fn credentials_must_be_utf8() {
    assert_eq!(authenticate("digest", &[0xff, 0xfe]).err(), Some(AuthError::InvalidCredentials));
}

#[test]
fn credentials_without_colon_use_the_whole_text_as_user() {
    let identity = authenticate("digest", b"alone").unwrap();
    assert!(identity.id.starts_with("alone:"));
    assert_eq!(identity.id.len(), "alone:".len() + 28);
}

fn auth_body(scheme: &str, credentials: &[u8]) -> Vec<u8> {
    let mut body = Vec::new();
    body.extend_from_slice(&0i32.to_be_bytes());
    body.extend_from_slice(&(scheme.len() as i32).to_be_bytes());
    body.extend_from_slice(scheme.as_bytes());
    body.extend_from_slice(&(credentials.len() as i32).to_be_bytes());
    body.extend_from_slice(credentials);
    body
}

#[test]
fn auth_request_adds_identity_once() {
    let mut ids = Vec::new();
    let body = auth_body("digest", b"super:test");
    let (reply, keep) = handle_auth(&mut ids, 3, &body).unwrap();
    assert!(keep);
    assert_eq!(reply.len(), 16);
    assert_eq!(&reply[12..16], &0i32.to_be_bytes());
    let (_, keep) = handle_auth(&mut ids, 4, &body).unwrap();
    assert!(keep);
    assert_eq!(ids.len(), 1);
    assert_eq!(ids[0].id, "super:D/InIHSb7yEEbrWz8b9l71RjZJU=");
}

#[test]
fn auth_request_with_unknown_scheme_fails_and_closes() {
    let mut ids = Vec::new();
    let body = auth_body("ip", b"x");
    let (reply, keep) = handle_auth(&mut ids, 3, &body).unwrap();
    assert!(!keep);
    assert_eq!(&reply[12..16], &(-115i32).to_be_bytes());
    assert!(ids.is_empty());
}

#[test]
fn auth_request_with_trailing_bytes_is_dropped() {
    let mut ids = Vec::new();
    let mut body = auth_body("digest", b"a:b");
    body.push(0);
    assert!(handle_auth(&mut ids, 3, &body).is_none());
    assert!(ids.is_empty());
}

#[test]
fn frame_length_bounds() {
    assert_eq!(frame_length(&100i32.to_be_bytes()), Some(100));
    assert_eq!(frame_length(&1_048_575i32.to_be_bytes()), Some(1_048_575));
    assert_eq!(frame_length(&1_048_576i32.to_be_bytes()), None);
    assert_eq!(frame_length(&(-1i32).to_be_bytes()), None);
    assert_eq!(frame_length(b"ruok"), None);
}

#[test]
fn connect_response_echoes_version_and_timeout() {
    let request = ConnectRequest {
        protocol_version: 0,
        last_zxid_seen: 0,
        timeout_ms: 4000,
        session_id: 0,
        password: vec![0u8; 16],
    };
    let response = connect_response(&request, SessionId(7));
    assert_eq!(response.timeout_ms, 4000);
    assert_eq!(response.session_id, 7);
    assert!(response.password.is_empty());
}

#[test]
fn frames_are_sorted_by_their_header() {
    let frame = |xid: i32, op: i32| {
        let mut out = xid.to_be_bytes().to_vec();
        out.extend_from_slice(&op.to_be_bytes());
        out
    };
    assert_eq!(frame_action(&[0, 0, 0, 1, 0, 0, 0]), FrameAction::Hangup);
    assert_eq!(frame_action(&frame(1, 12345)), FrameAction::Hangup);
    assert_eq!(frame_action(&frame(7, 100)), FrameAction::Auth(7));
    assert_eq!(frame_action(&frame(2, -11)), FrameAction::Request { closes: true });
    assert_eq!(frame_action(&frame(3, 4)), FrameAction::Request { closes: false });
}
