use ws_session::codec::decode_response;
use ws_session::codec::encode_request;
use ws_session::handler::token_call_for;
use ws_session::handler::TokenCall;
use ws_session::handler::TokenError;
use ws_session::handler::WebSocket;
use ws_session::handler::WsMessage;
use ws_session::protocol::Login;
use ws_session::protocol::Request;
use ws_session::protocol::Response;
use ws_session::protocol::ResponseError;
use ws_session::protocol::Session;
use ws_session::store::SessionStore;

fn session(token: &str) -> Session {
    Session { token: token.to_string() }
}

fn credentials(u: &str, p: &str) -> Request {
    Request::Login(Login::Credentials { username: u.to_string(), password: p.to_string() })
}

fn issued(token: &str) -> Result<String, TokenError> {
    Ok(token.to_string())
}

#[test]
fn empty_username_is_rejected() {
    let ws = WebSocket::new();
    let mut store = SessionStore::new();
    let resp = ws.handle_request(&mut store, issued("t1"), credentials("", "secret"));
    assert_eq!(resp, Response::Login(Err(ResponseError::WrongUsernamePassword)));
    assert!(!store.contains(&"t1".to_string()));
}

#[test]
fn empty_password_is_rejected() {
    let ws = WebSocket::new();
    let mut store = SessionStore::new();
    let resp = ws.handle_request(&mut store, issued("t1"), credentials("alice", ""));
    assert_eq!(resp, Response::Login(Err(ResponseError::WrongUsernamePassword)));
}

#[test]
fn both_empty_is_rejected() {
    let ws = WebSocket::new();
    let mut store = SessionStore::new();
    let resp = ws.handle_request(&mut store, issued("t1"), credentials("", ""));
    assert_eq!(resp, Response::Login(Err(ResponseError::WrongUsernamePassword)));
}

#[test]
fn mismatched_credentials_are_rejected() {
    let ws = WebSocket::new();
    let mut store = SessionStore::new();
    let resp = ws.handle_request(&mut store, issued("t1"), credentials("alice", "bob"));
    assert_eq!(resp, Response::Login(Err(ResponseError::WrongUsernamePassword)));
}

#[test]
fn matching_credentials_create_a_session() {
    let ws = WebSocket::new();
    let mut store = SessionStore::new();
    let resp = ws.handle_request(&mut store, issued("t1"), credentials("alice", "alice"));
    assert_eq!(resp, Response::Login(Ok(session("t1"))));
    assert!(store.contains(&"t1".to_string()));
}

#[test]
fn token_issue_failure_surfaces_as_token_error() {
    let ws = WebSocket::new();
    let mut store = SessionStore::new();
    let resp = ws.handle_request(&mut store, Err(TokenError), credentials("alice", "alice"));
    assert_eq!(resp, Response::Login(Err(ResponseError::TokenInvalid)));
}

#[test]
fn duplicate_token_surfaces_as_database_error() {
    let ws = WebSocket::new();
    let mut store = SessionStore::new();
    let first = ws.handle_request(&mut store, issued("t1"), credentials("a", "a"));
    assert_eq!(first, Response::Login(Ok(session("t1"))));
    let second = ws.handle_request(&mut store, issued("t1"), credentials("b", "b"));
    assert_eq!(second, Response::Login(Err(ResponseError::Database)));
}

#[test]
fn renewal_twice_keeps_only_newest_token() {
    let ws = WebSocket::new();
    let mut store = SessionStore::new();
    ws.handle_request(&mut store, issued("t1"), credentials("a", "a"));

    let renew1 = Request::Login(Login::TokenRenewal(session("t1")));
    let resp1 = ws.handle_request(&mut store, issued("t2"), renew1);
    assert_eq!(resp1, Response::Login(Ok(session("t2"))));

    let renew2 = Request::Login(Login::TokenRenewal(session("t2")));
    let resp2 = ws.handle_request(&mut store, issued("t3"), renew2);
    assert_eq!(resp2, Response::Login(Ok(session("t3"))));

    assert!(store.contains(&"t3".to_string()));
    assert!(!store.contains(&"t2".to_string()));
    assert!(!store.contains(&"t1".to_string()));

    // A renewal with the superseded token fails: it is no longer live.
    let stale = Request::Login(Login::TokenRenewal(session("t1")));
    let resp3 = ws.handle_request(&mut store, issued("t4"), stale);
    assert_eq!(resp3, Response::Login(Err(ResponseError::Database)));
}

#[test]
fn renewal_of_unknown_token_fails_with_database() {
    let ws = WebSocket::new();
    let mut store = SessionStore::new();
    let renew = Request::Login(Login::TokenRenewal(session("nope")));
    let resp = ws.handle_request(&mut store, issued("t9"), renew);
    assert_eq!(resp, Response::Login(Err(ResponseError::Database)));
}

#[test]
fn renewal_with_failing_token_service() {
    let ws = WebSocket::new();
    let mut store = SessionStore::new();
    ws.handle_request(&mut store, issued("t1"), credentials("a", "a"));
    let renew = Request::Login(Login::TokenRenewal(session("t1")));
    let resp = ws.handle_request(&mut store, Err(TokenError), renew);
    assert_eq!(resp, Response::Login(Err(ResponseError::TokenInvalid)));
    assert!(store.contains(&"t1".to_string()));
}

#[test]
fn logout_invalidates_the_token() {
    let ws = WebSocket::new();
    let mut store = SessionStore::new();
    ws.handle_request(&mut store, issued("t1"), credentials("a", "a"));

    let resp = ws.handle_request(&mut store, Err(TokenError), Request::Logout(session("t1")));
    assert_eq!(resp, Response::Logout(Ok(())));
    assert!(!store.contains(&"t1".to_string()));

    // Renewal with the logged-out token fails.
    let renew = Request::Login(Login::TokenRenewal(session("t1")));
    let resp2 = ws.handle_request(&mut store, issued("t2"), renew);
    assert_eq!(resp2, Response::Login(Err(ResponseError::Database)));

    // A second logout fails too.
    let resp3 = ws.handle_request(&mut store, Err(TokenError), Request::Logout(session("t1")));
    assert_eq!(resp3, Response::Logout(Err(ResponseError::Database)));
}

#[test]
fn response_variant_matches_request_variant() {
    let ws = WebSocket::new();
    let mut store = SessionStore::new();
    let login = ws.handle_request(&mut store, issued("t1"), credentials("a", "b"));
    assert!(matches!(login, Response::Login(_)));
    let logout = ws.handle_request(&mut store, Err(TokenError), Request::Logout(session("x")));
    assert!(matches!(logout, Response::Logout(_)));
}

#[test]
fn one_frame_one_reply() {
    let mut ws = WebSocket::new();
    let mut store = SessionStore::new();
    let frame = encode_request(&credentials("a", "a"));
    let out = ws.handle(&mut store, issued("t1"), WsMessage::Binary(frame));
    let bytes = out.expect("exactly one reply");
    assert_eq!(decode_response(&bytes), Some(Response::Login(Ok(session("t1")))));
    assert!(ws.is_open());
}

#[test]
fn malformed_frame_is_dropped_and_connection_survives() {
    let mut ws = WebSocket::new();
    let mut store = SessionStore::new();

    let out = ws.handle(&mut store, Err(TokenError), WsMessage::Binary(vec![0xde, 0xad]));
    assert_eq!(out, None);
    assert!(ws.is_open());

    // A well-formed request afterwards is answered normally.
    let frame = encode_request(&credentials("a", "a"));
    let out2 = ws.handle(&mut store, issued("t1"), WsMessage::Binary(frame));
    let bytes = out2.expect("normal reply after a dropped frame");
    assert_eq!(decode_response(&bytes), Some(Response::Login(Ok(session("t1")))));
}

#[test]
fn close_stops_the_connection() {
    let mut ws = WebSocket::new();
    let mut store = SessionStore::new();
    let out = ws.handle(&mut store, Err(TokenError), WsMessage::Close);
    assert_eq!(out, None);
    assert!(!ws.is_open());

    // Nothing is processed on a closed connection.
    let frame = encode_request(&credentials("a", "a"));
    let out2 = ws.handle(&mut store, issued("t1"), WsMessage::Binary(frame));
    assert_eq!(out2, None);
    assert!(!store.contains(&"t1".to_string()));
}

#[test]
fn unrecognized_frames_are_ignored() {
    let mut ws = WebSocket::new();
    let mut store = SessionStore::new();
    let out = ws.handle(&mut store, Err(TokenError), WsMessage::Other);
    assert_eq!(out, None);
    assert!(ws.is_open());
}

#[test]
fn token_call_for_each_request_kind() {
    let call = token_call_for(&credentials("a", "a"));
    assert_eq!(call, Some(TokenCall::Issue("a".to_string())));
    assert_eq!(token_call_for(&credentials("a", "b")), None);
    assert_eq!(token_call_for(&credentials("", "")), None);
    let renew = Request::Login(Login::TokenRenewal(session("t")));
    assert_eq!(token_call_for(&renew), Some(TokenCall::Renew("t".to_string())));
    assert_eq!(token_call_for(&Request::Logout(session("t"))), None);
}

#[test]
fn store_update_to_taken_token_fails() {
    let mut store = SessionStore::new();
    assert!(store.create("t1".to_string()).is_ok());
    assert!(store.create("t2".to_string()).is_ok());
    assert!(store.update(&"t1".to_string(), "t2".to_string()).is_err());
    assert!(store.contains(&"t1".to_string()));
    assert!(store.contains(&"t2".to_string()));
}

#[test]
fn store_update_to_same_token_succeeds() {
    let mut store = SessionStore::new();
    assert!(store.create("t1".to_string()).is_ok());
    let renewed = store.update(&"t1".to_string(), "t1".to_string());
    assert_eq!(renewed, Ok(session("t1")));
    assert!(store.contains(&"t1".to_string()));
}

#[test]
fn store_delete_then_recreate() {
    let mut store = SessionStore::new();
    assert!(store.create("t1".to_string()).is_ok());
    assert_eq!(store.delete(&"t1".to_string()), Ok(()));
    assert!(store.delete(&"t1".to_string()).is_err());
    assert!(store.create("t1".to_string()).is_ok());
}
