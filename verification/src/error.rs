//! The errors of a connection.

use vstd::prelude::*;

verus! {

/// What can go wrong on a connection or during the handshake.
#[derive(Debug, Clone, Copy, PartialEq, Eq, Structural)]
pub enum WebSocketError {
    /// The peer's HTTP header could not be parsed or was not an Upgrade exchange.
    InvalidRequestHeader,
    /// Nothing to do right now; the operation may be tried again later.
    WouldBlock,
    /// The transport refused the operation.
    UnknownError,
    /// A send or close was issued while the connection was not open.
    InvalidConnectionState,
}

impl WebSocketError {
    /// The text that describes each error.
    pub open spec fn description(self) -> Seq<char> {
        match self {
            WebSocketError::InvalidRequestHeader => "Invalid request header"@,
            WebSocketError::UnknownError => "Unknown connection error"@,
            WebSocketError::WouldBlock => "Would block"@,
            WebSocketError::InvalidConnectionState => "Invalid connection state"@,
        }
    }

    /// Renders the error as text.
    pub fn to_string(&self) -> (text: String)
        ensures
            text@ == self.description(),
    {
        match self {
            WebSocketError::InvalidRequestHeader => "Invalid request header".to_owned(),
            WebSocketError::UnknownError => "Unknown connection error".to_owned(),
            WebSocketError::WouldBlock => "Would block".to_owned(),
            WebSocketError::InvalidConnectionState => "Invalid connection state".to_owned(),
        }
    }
}

} // verus!
