//! The connection handler: it owns one connection's lifecycle, decodes
//! inbound frames, drives the login/logout state machine against the
//! session store, and encodes the responses to send back.
//!
//! Calls to the token service are out-of-band request/reply
//! interactions that the handler cannot make itself: it names the call
//! a request needs ([`token_call_for`]), and takes the service's reply
//! as a plain value. The event loop around the connection performs the
//! call and hands the reply back.

use vstd::prelude::*;

use crate::codec::decode_request;
use crate::codec::encode_response;
use crate::codec::spec_encode_request;
use crate::codec::spec_encode_response;
use crate::protocol::login_result_view;
use crate::protocol::Login;
use crate::protocol::LoginV;
use crate::protocol::Request;
use crate::protocol::RequestV;
use crate::protocol::Response;
use crate::protocol::ResponseError;
use crate::protocol::ResponseV;
use crate::protocol::Session;
use crate::protocol::SessionV;
use crate::store::spec_create;
use crate::store::spec_delete;
use crate::store::spec_update;
use crate::store::SessionStore;

verus! {

/// A failure of the token service: a token could not be issued, or the
/// presented token is malformed, expired or fails its integrity check.
#[derive(Debug, Clone, Copy, PartialEq, Eq, Structural)]
pub struct TokenError;

/// One transport event on the connection, as the handler sees it: an
/// inbound binary frame, a close, or a frame of any other kind.
pub enum WsMessage {
    Binary(Vec<u8>),
    Close,
    Other,
}

/// The token-service call that a request needs before it can be
/// answered.
#[derive(Debug, Clone, PartialEq, Eq)]
pub enum TokenCall {
    Issue(String),
    Renew(String),
}

/// The credential rule: a pair is accepted exactly when the two fields
/// are equal and non-empty. (A deliberately placeholder rule; the
/// contract - reject empty fields, reject unequal fields - is what a
/// deployment must preserve.)
pub open spec fn credentials_ok(username: Seq<char>, password: Seq<char>) -> bool {
    username == password && username.len() > 0
}

/// What answering a credential login does to the store's token set,
/// and the outcome sent back, given the token service's reply.
pub open spec fn spec_login_credentials(
    tokens: Set<Seq<char>>,
    username: Seq<char>,
    password: Seq<char>,
    reply: Result<Seq<char>, TokenError>,
) -> (Set<Seq<char>>, Result<SessionV, ResponseError>) {
    if !credentials_ok(username, password) {
        (tokens, Err(ResponseError::WrongUsernamePassword))
    } else {
        match reply {
            Err(_) => (tokens, Err(ResponseError::TokenInvalid)),
            Ok(t) => {
                let (tokens2, ok) = spec_create(tokens, t);
                if ok {
                    (tokens2, Ok(SessionV { token: t }))
                } else {
                    (tokens, Err(ResponseError::Database))
                }
            },
        }
    }
}

/// What answering a token renewal does: on a verified token the store
/// atomically replaces the old token by the newly issued one.
pub open spec fn spec_login_renewal(
    tokens: Set<Seq<char>>,
    token: Seq<char>,
    reply: Result<Seq<char>, TokenError>,
) -> (Set<Seq<char>>, Result<SessionV, ResponseError>) {
    match reply {
        Err(_) => (tokens, Err(ResponseError::TokenInvalid)),
        Ok(t) => {
            let (tokens2, ok) = spec_update(tokens, token, t);
            if ok {
                (tokens2, Ok(SessionV { token: t }))
            } else {
                (tokens, Err(ResponseError::Database))
            }
        },
    }
}

/// What answering a logout does: the session is destroyed; a missing
/// session surfaces as `Database`.
pub open spec fn spec_logout(tokens: Set<Seq<char>>, token: Seq<char>) -> (
    Set<Seq<char>>,
    Result<(), ResponseError>,
) {
    let (tokens2, ok) = spec_delete(tokens, token);
    if ok {
        (tokens2, Ok(()))
    } else {
        (tokens, Err(ResponseError::Database))
    }
}

/// What one decoded request does to the store, and the one response it
/// earns.
pub open spec fn spec_handle_request(
    tokens: Set<Seq<char>>,
    request: RequestV,
    reply: Result<Seq<char>, TokenError>,
) -> (Set<Seq<char>>, ResponseV) {
    match request {
        RequestV::Login(LoginV::Credentials { username, password }) => {
            let (t2, res) = spec_login_credentials(tokens, username, password, reply);
            (t2, ResponseV::Login(res))
        },
        RequestV::Login(LoginV::TokenRenewal(s)) => {
            let (t2, res) = spec_login_renewal(tokens, s.token, reply);
            (t2, ResponseV::Login(res))
        },
        RequestV::Logout(s) => {
            let (t2, res) = spec_logout(tokens, s.token);
            (t2, ResponseV::Logout(res))
        },
    }
}

/// The token reply's specification-level value.
pub open spec fn token_reply_view(reply: Result<String, TokenError>) -> Result<
    Seq<char>,
    TokenError,
> {
    match reply {
        Ok(t) => Ok(t@),
        Err(e) => Err(e),
    }
}

fn credentials_valid(username: &String, password: &String) -> (b: bool)
    ensures
        b == credentials_ok(username@, password@),
{
    if username.as_str().is_empty() || password.as_str().is_empty() {
        false
    } else {
        *username == *password
    }
}

/// Which token-service call a request needs before it can be answered:
/// issuance for a locally validated credential login, verify-and-renew
/// for a token renewal, and none otherwise.
pub fn token_call_for(request: &Request) -> (c: Option<TokenCall>)
    ensures
        match request@ {
            RequestV::Login(LoginV::Credentials { username, password }) => if credentials_ok(
                username,
                password,
            ) {
                c matches Some(TokenCall::Issue(u)) && u@ == username
            } else {
                c is None
            },
            RequestV::Login(LoginV::TokenRenewal(s)) => c matches Some(TokenCall::Renew(t)) && t@
                == s.token,
            RequestV::Logout(_) => c is None,
        },
{
    match request {
        Request::Login(Login::Credentials { username, password }) => {
            if credentials_valid(username, password) {
                Some(TokenCall::Issue(username.clone()))
            } else {
                None
            }
        },
        Request::Login(Login::TokenRenewal(s)) => Some(TokenCall::Renew(s.token.clone())),
        Request::Logout(_) => None,
    }
}

/// The handler for one connection.
pub struct WebSocket {
    connected: bool,
}

impl WebSocket {
    /// Whether the connection is still open.
    pub closed spec fn connection_open(&self) -> bool {
        self.connected
    }

    /// A handler for a newly accepted connection, in the open state.
    pub fn new() -> (ws: WebSocket)
        ensures
            ws.connection_open(),
    {
        WebSocket { connected: true }
    }

    /// Whether the connection is still open.
    pub fn is_open(&self) -> (b: bool)
        ensures
            b == self.connection_open(),
    {
        self.connected
    }

    /// Answers a credential login: validates the pair locally first,
    /// and on a pass creates a session for the token the token service
    /// issued for this username.
    pub fn handle_request_login_credentials(
        &self,
        store: &mut SessionStore,
        issued: Result<String, TokenError>,
        username: &String,
        password: &String,
    ) -> (r: Result<Session, ResponseError>)
        ensures
            ({
                let (tokens2, res) = spec_login_credentials(
                    old(store)@,
                    username@,
                    password@,
                    token_reply_view(issued),
                );
                &&& final(store)@ == tokens2
                &&& login_result_view(r) == res
            }),
            username@.len() == 0 || password@.len() == 0 ==> r == Err::<Session, ResponseError>(
                ResponseError::WrongUsernamePassword,
            ),
            username@ != password@ ==> r == Err::<Session, ResponseError>(
                ResponseError::WrongUsernamePassword,
            ),
    {
        if !credentials_valid(username, password) {
            return Err(ResponseError::WrongUsernamePassword);
        }
        match issued {
            Err(_) => Err(ResponseError::TokenInvalid),
            Ok(token) => match store.create(token) {
                Ok(session) => Ok(session),
                Err(_) => Err(ResponseError::Database),
            },
        }
    }

    /// Answers a token renewal: the token service verified the old
    /// token and issued a new one; the store carries the session over
    /// to it, or fails when the old token has no live session.
    pub fn handle_request_login_token(
        &self,
        store: &mut SessionStore,
        renewed: Result<String, TokenError>,
        session: &Session,
    ) -> (r: Result<Session, ResponseError>)
        ensures
            ({
                let (tokens2, res) = spec_login_renewal(
                    old(store)@,
                    session@.token,
                    token_reply_view(renewed),
                );
                &&& final(store)@ == tokens2
                &&& login_result_view(r) == res
            }),
    {
        match renewed {
            Err(_) => Err(ResponseError::TokenInvalid),
            Ok(new_token) => match store.update(&session.token, new_token) {
                Ok(s) => Ok(s),
                Err(_) => Err(ResponseError::Database),
            },
        }
    }

    /// Answers a logout: removes the session from the store.
    pub fn handle_request_logout(&self, store: &mut SessionStore, session: Session) -> (r: Result<
        (),
        ResponseError,
    >)
        ensures
            ({
                let (tokens2, res) = spec_logout(old(store)@, session@.token);
                &&& final(store)@ == tokens2
                &&& r == res
            }),
    {
        match store.delete(&session.token) {
            Ok(_) => Ok(()),
            Err(_) => Err(ResponseError::Database),
        }
    }

    /// Dispatches one decoded request and returns the one response it
    /// earns; the response's outer variant matches the request's.
    pub fn handle_request(
        &self,
        store: &mut SessionStore,
        token_reply: Result<String, TokenError>,
        request: Request,
    ) -> (resp: Response)
        ensures
            ({
                let (tokens2, rv) = spec_handle_request(
                    old(store)@,
                    request@,
                    token_reply_view(token_reply),
                );
                &&& final(store)@ == tokens2
                &&& resp@ == rv
            }),
            resp is Login <==> request is Login,
            resp is Logout <==> request is Logout,
    {
        match request {
            Request::Login(login) => match login {
                Login::Credentials { username: u, password: p } => {
                    Response::Login(
                        self.handle_request_login_credentials(store, token_reply, &u, &p),
                    )
                },
                Login::TokenRenewal(s) => {
                    Response::Login(self.handle_request_login_token(store, token_reply, &s))
                },
            },
            Request::Logout(s) => Response::Logout(self.handle_request_logout(store, s)),
        }
    }

    /// Handles one transport event on the connection.
    ///
    /// A binary frame that decodes as a request earns exactly one
    /// encoded response; a malformed frame is dropped without a reply
    /// and without closing the connection or touching the store; a
    /// close event closes the connection; any other frame is ignored.
    pub fn handle(
        &mut self,
        store: &mut SessionStore,
        token_reply: Result<String, TokenError>,
        msg: WsMessage,
    ) -> (out: Option<Vec<u8>>)
        ensures
            !old(self).connection_open() ==> out is None && *final(self) == *old(self)
                && final(store)@ == old(store)@,
            old(self).connection_open() ==> match msg {
                WsMessage::Binary(data) => {
                    &&& final(self).connection_open()
                    &&& (forall|v: RequestV|
                        #![trigger spec_encode_request(v)]
                        data@ != spec_encode_request(v)) ==> (out is None && final(store)@ == old(
                        store,
                    )@)
                    &&& forall|v: RequestV|
                        #![trigger spec_encode_request(v)]
                        data@ == spec_encode_request(v) ==> ({
                            let (tokens2, rv) = spec_handle_request(
                                old(store)@,
                                v,
                                token_reply_view(token_reply),
                            );
                            &&& out matches Some(b) && b@ == spec_encode_response(rv)
                            &&& final(store)@ == tokens2
                        })
                },
                WsMessage::Close => out is None && !final(self).connection_open() && final(store)@
                    == old(store)@,
                WsMessage::Other => out is None && final(self).connection_open() && final(store)@
                    == old(store)@,
            },
    {
        if !self.connected {
            return None;
        }
        match msg {
            WsMessage::Binary(data) => {
                match decode_request(data.as_slice()) {
                    None => None,
                    Some(request) => {
                        let response = self.handle_request(store, token_reply, request);
                        Some(encode_response(&response))
                    },
                }
            },
            WsMessage::Close => {
                self.connected = false;
                None
            },
            WsMessage::Other => None,
        }
    }
}

/// A credential login whose two fields match and are non-empty, under
/// a working token service (it issued the fresh token `fresh`) and
/// session store, yields a session holding that freshly issued token,
/// and the store gains it.
pub proof fn lemma_credentials_login_succeeds(
    tokens: Set<Seq<char>>,
    username: Seq<char>,
    fresh: Seq<char>,
)
    requires
        username.len() > 0,
        !tokens.contains(fresh),
    ensures
        spec_handle_request(
            tokens,
            RequestV::Login(LoginV::Credentials { username, password: username }),
            Ok(fresh),
        ) == (tokens.insert(fresh), ResponseV::Login(Ok(SessionV { token: fresh }))),
{
}

/// Renewal is idempotent in effect but not in token value: renewing a
/// live session twice in sequence succeeds both times, the store then
/// holds exactly the most recently issued token, and a renewal using
/// the superseded original token fails with `Database`.
pub proof fn lemma_renewal_supersedes(
    tokens: Set<Seq<char>>,
    t0: Seq<char>,
    t1: Seq<char>,
    t2: Seq<char>,
    t3: Seq<char>,
)
    requires
        tokens.contains(t0),
        !tokens.contains(t1),
        !tokens.contains(t2),
        t1 != t0,
        t2 != t0,
        t2 != t1,
    ensures
        ({
            let (s1, r1) = spec_handle_request(
                tokens,
                RequestV::Login(LoginV::TokenRenewal(SessionV { token: t0 })),
                Ok(t1),
            );
            let (s2, r2) = spec_handle_request(
                s1,
                RequestV::Login(LoginV::TokenRenewal(SessionV { token: t1 })),
                Ok(t2),
            );
            let (s3, r3) = spec_handle_request(
                s2,
                RequestV::Login(LoginV::TokenRenewal(SessionV { token: t0 })),
                Ok(t3),
            );
            &&& r1 == ResponseV::Login(Ok(SessionV { token: t1 }))
            &&& r2 == ResponseV::Login(Ok(SessionV { token: t2 }))
            &&& s2 == tokens.remove(t0).insert(t2)
            &&& s2.contains(t2) && !s2.contains(t1) && !s2.contains(t0)
            &&& r3 == ResponseV::Login(Err(ResponseError::Database))
            &&& s3 == s2
        }),
{
    let s1 = tokens.remove(t0).insert(t1);
    let s2 = s1.remove(t1).insert(t2);
    assert(s2 =~= tokens.remove(t0).insert(t2));
}

/// Logout on a live session succeeds, and a later renewal that uses
/// that session's token fails with `Database`, whatever token the
/// token service would issue.
pub proof fn lemma_logout_invalidates(
    tokens: Set<Seq<char>>,
    t: Seq<char>,
    fresh: Seq<char>,
    reply: Result<Seq<char>, TokenError>,
)
    requires
        tokens.contains(t),
    ensures
        ({
            let (s1, r1) = spec_handle_request(tokens, RequestV::Logout(SessionV { token: t }), reply);
            let (s2, r2) = spec_handle_request(
                s1,
                RequestV::Login(LoginV::TokenRenewal(SessionV { token: t })),
                Ok(fresh),
            );
            &&& r1 == ResponseV::Logout(Ok(()))
            &&& s1 == tokens.remove(t)
            &&& r2 == ResponseV::Login(Err(ResponseError::Database))
            &&& s2 == s1
        }),
{
}

/// Every request earns a response of the matching outer variant: a
/// login request a login response, a logout request a logout response.
pub proof fn lemma_response_matches_request(
    tokens: Set<Seq<char>>,
    request: RequestV,
    reply: Result<Seq<char>, TokenError>,
)
    ensures
        spec_handle_request(tokens, request, reply).1 is Login <==> request is Login,
        spec_handle_request(tokens, request, reply).1 is Logout <==> request is Logout,
{
}

} // verus!
