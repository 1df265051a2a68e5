//! The typed wire protocol: requests, responses, and their
//! specification-level views.

use vstd::prelude::*;

verus! {

/// An authenticated login record, keyed by its opaque token string.
/// The session store is the sole owner of record; a handler only ever
/// holds a `Session` for the lifetime of a single request.
#[derive(Debug, Clone, PartialEq, Eq)]
pub struct Session {
    pub token: String,
}

/// Specification-level value of a [`Session`].
pub struct SessionV {
    pub token: Seq<char>,
}

impl View for Session {
    type V = SessionV;

    open spec fn view(&self) -> SessionV {
        SessionV { token: self.token@ }
    }
}

/// The payload of a login request: either a credential pair or an
/// existing session whose token is to be verified and renewed.
#[derive(Debug, Clone, PartialEq, Eq)]
pub enum Login {
    Credentials { username: String, password: String },
    TokenRenewal(Session),
}

/// Specification-level value of a [`Login`].
pub enum LoginV {
    Credentials { username: Seq<char>, password: Seq<char> },
    TokenRenewal(SessionV),
}

impl View for Login {
    type V = LoginV;

    open spec fn view(&self) -> LoginV {
        match self {
            Login::Credentials { username, password } => LoginV::Credentials {
                username: username@,
                password: password@,
            },
            Login::TokenRenewal(s) => LoginV::TokenRenewal(s@),
        }
    }
}

/// An inbound request; it carries exactly one operation.
#[derive(Debug, Clone, PartialEq, Eq)]
pub enum Request {
    Login(Login),
    Logout(Session),
}

/// Specification-level value of a [`Request`].
pub enum RequestV {
    Login(LoginV),
    Logout(SessionV),
}

impl View for Request {
    type V = RequestV;

    open spec fn view(&self) -> RequestV {
        match self {
            Request::Login(l) => RequestV::Login(l@),
            Request::Logout(s) => RequestV::Logout(s@),
        }
    }
}

/// The wire-visible error taxonomy. Store failures of every kind
/// (unavailability as well as "no such session") surface uniformly as
/// `Database`; token issuance or verification failures as `TokenInvalid`.
#[derive(Debug, Clone, Copy, PartialEq, Eq, Structural)]
pub enum ResponseError {
    WrongUsernamePassword,
    Database,
    TokenInvalid,
}

/// An outbound response, mirroring the outer shape of [`Request`].
#[derive(Debug, PartialEq, Eq)]
pub enum Response {
    Login(Result<Session, ResponseError>),
    Logout(Result<(), ResponseError>),
}

/// Specification-level value of a [`Response`].
pub enum ResponseV {
    Login(Result<SessionV, ResponseError>),
    Logout(Result<(), ResponseError>),
}

/// The specification-level value of a login outcome.
pub open spec fn login_result_view(r: Result<Session, ResponseError>) -> Result<
    SessionV,
    ResponseError,
> {
    match r {
        Ok(s) => Ok(s@),
        Err(e) => Err(e),
    }
}

impl View for Response {
    type V = ResponseV;

    open spec fn view(&self) -> ResponseV {
        match self {
            Response::Login(r) => ResponseV::Login(login_result_view(*r)),
            Response::Logout(r) => ResponseV::Logout(*r),
        }
    }
}

} // verus!
