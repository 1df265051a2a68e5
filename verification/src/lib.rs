//! A per-connection request/response protocol handler for a message-framed
//! connection: it decodes binary-encoded requests (credential login, token
//! renewal, logout), drives them against a session store, and encodes the
//! typed responses back to wire bytes.

pub mod codec;
pub mod handler;
pub mod protocol;
pub mod store;
