//! What the server answers to a request, as a status code and a text.

use vstd::prelude::*;

verus! {

/// The body of a request that carries a token.
#[derive(Debug, Clone, PartialEq, Eq)]
pub struct Token {
    /// The token.
    pub token: String,
}

/// Answers a greeting: status 200, and the token as it came.
pub fn hello_handler(payload: Token) -> (reply: (u16, String))
    ensures
        reply == (200u16, payload.token),
{
    (200, payload.token)
}

/// Answers a search: status 200, and the token as it came.
pub fn search_handler(payload: Token) -> (reply: (u16, String))
    ensures
        reply == (200u16, payload.token),
{
    (200, payload.token)
}

} // verus!
