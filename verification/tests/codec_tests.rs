use ws_session::codec::decode_request;
use ws_session::codec::decode_response;
use ws_session::codec::encode_request;
use ws_session::codec::encode_response;
use ws_session::protocol::Login;
use ws_session::protocol::Request;
use ws_session::protocol::Response;
use ws_session::protocol::ResponseError;
use ws_session::protocol::Session;

fn session(token: &str) -> Session {
    Session { token: token.to_string() }
}

#[test]
fn response_round_trip_login_ok() {
    let r = Response::Login(Ok(session("tok-1")));
    let bytes = encode_response(&r);
    assert_eq!(decode_response(&bytes), Some(r));
}

#[test]
fn response_round_trip_login_errors() {
    for e in [
        ResponseError::WrongUsernamePassword,
        ResponseError::Database,
        ResponseError::TokenInvalid,
    ] {
        let r = Response::Login(Err(e));
        let bytes = encode_response(&r);
        assert_eq!(decode_response(&bytes), Some(r));
    }
}

#[test]
fn response_round_trip_logout() {
    let ok = Response::Logout(Ok(()));
    assert_eq!(decode_response(&encode_response(&ok)), Some(ok));
    let err = Response::Logout(Err(ResponseError::Database));
    assert_eq!(decode_response(&encode_response(&err)), Some(err));
}

#[test]
fn response_round_trip_empty_token() {
    let r = Response::Login(Ok(session("")));
    assert_eq!(decode_response(&encode_response(&r)), Some(r));
}

#[test]
fn request_round_trip_credentials() {
    let r = Request::Login(Login::Credentials {
        username: "alice".to_string(),
        password: "alice".to_string(),
    });
    assert_eq!(decode_request(&encode_request(&r)), Some(r));
}

#[test]
fn request_round_trip_renewal() {
    let r = Request::Login(Login::TokenRenewal(session("tok-2")));
    assert_eq!(decode_request(&encode_request(&r)), Some(r));
}

#[test]
fn request_round_trip_logout() {
    let r = Request::Logout(session("tok-3"));
    assert_eq!(decode_request(&encode_request(&r)), Some(r));
}

#[test]
fn request_round_trip_unicode() {
    let r = Request::Login(Login::Credentials {
        username: "héllo→😀".to_string(),
        password: "päss".to_string(),
    });
    assert_eq!(decode_request(&encode_request(&r)), Some(r));
}

#[test]
fn request_round_trip_long_strings() {
    // 1-byte, 2-byte and 4-byte length headers.
    for n in [200usize, 40_000, 70_000] {
        let tok: String = "x".repeat(n);
        let r = Request::Logout(session(&tok));
        assert_eq!(decode_request(&encode_request(&r)), Some(r));
    }
}

#[test]
fn exact_bytes_logout_ok_response() {
    let bytes = encode_response(&Response::Logout(Ok(())));
    assert_eq!(bytes, vec![0x82, 0x01, 0x81, 0x00]);
}

#[test]
fn exact_bytes_login_error_response() {
    let bytes = encode_response(&Response::Login(Err(ResponseError::WrongUsernamePassword)));
    assert_eq!(bytes, vec![0x82, 0x00, 0x82, 0x01, 0x00]);
}

#[test]
fn exact_bytes_credentials_request() {
    let r = Request::Login(Login::Credentials {
        username: "a".to_string(),
        password: "a".to_string(),
    });
    assert_eq!(
        encode_request(&r),
        vec![0x82, 0x00, 0x83, 0x00, 0x61, 0x61, 0x61, 0x61]
    );
}

#[test]
fn decode_rejects_malformed() {
    // Empty, truncated, unknown tags, trailing data, bad UTF-8 and a
    // non-minimal length header are all rejected.
    assert_eq!(decode_request(&[]), None);
    assert_eq!(decode_request(&[0x82]), None);
    assert_eq!(decode_request(&[0x82, 0x07]), None);
    assert_eq!(decode_request(&[0x83, 0x01, 0x60]), None);
    assert_eq!(decode_request(&[0x82, 0x01, 0x61, 0x61, 0x00]), None);
    assert_eq!(decode_request(&[0x82, 0x01, 0x61, 0xff]), None);
    assert_eq!(decode_request(&[0x82, 0x01, 0x78, 0x01, 0x61]), None);
    assert_eq!(decode_response(&[]), None);
    assert_eq!(decode_response(&[0x82, 0x01, 0x81, 0x00, 0x00]), None);
    assert_eq!(decode_response(&[0x82, 0x00, 0x82, 0x01, 0x07]), None);
}

#[test]
fn encoded_response_is_valid_cbor() {
    let bytes = encode_response(&Response::Login(Ok(session("tok"))));
    let v: serde_cbor::Value = serde_cbor::from_slice(&bytes).expect("well-formed CBOR");
    let expected = serde_cbor::Value::Array(vec![
        serde_cbor::Value::Integer(0),
        serde_cbor::Value::Array(vec![
            serde_cbor::Value::Integer(0),
            serde_cbor::Value::Text("tok".to_string()),
        ]),
    ]);
    assert_eq!(v, expected);
}

#[test]
fn cbor_encoded_request_decodes() {
    // A request produced by an independent CBOR serializer is accepted.
    let value = serde_cbor::Value::Array(vec![
        serde_cbor::Value::Integer(0),
        serde_cbor::Value::Array(vec![
            serde_cbor::Value::Integer(0),
            serde_cbor::Value::Text("bob".to_string()),
            serde_cbor::Value::Text("bob".to_string()),
        ]),
    ]);
    let bytes = serde_cbor::to_vec(&value).expect("serialize");
    let expected = Request::Login(Login::Credentials {
        username: "bob".to_string(),
        password: "bob".to_string(),
    });
    assert_eq!(decode_request(&bytes), Some(expected));
}
