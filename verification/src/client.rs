//! The client's side of the handshake.

use vstd::prelude::*;
use crate::connection::{frames_of, message_views, messages_of, IterView, WebSocketConnection};
use crate::error::WebSocketError;
use crate::http::{header_read, read_chunk, HTTPHeader, HeaderView};
use crate::message::Message;
use crate::transport::{Inbound, InboundView, Outbound, OutboundView};

verus! {

/// What the client makes of the server's answer: the connection is open on
/// what follows the one read of the response, if the response grants the
/// upgrade; no other answer is a valid header.
pub open spec fn connected(reader: InboundView, writer: OutboundView) -> Result<
    IterView,
    WebSocketError,
> {
    match header_read(reader.unread) {
        Ok(response) => if response.is_valid_websocket_response() {
            Ok(IterView::fresh(reader.advanced(read_chunk(reader.unread).len()), writer))
        } else {
            Err(WebSocketError::InvalidRequestHeader)
        },
        Err(_) => Err(WebSocketError::InvalidRequestHeader),
    }
}

/// A client endpoint: a connection that was opened by asking for the upgrade.
pub struct WebSocketClient {
    connection: WebSocketConnection,
}

impl View for WebSocketClient {
    type V = IterView;

    closed spec fn view(&self) -> IterView {
        self.connection@
    }
}

impl WebSocketClient {
    /// The first step of connecting: queues the request for the upgrade.
    pub fn request_upgrade(writer: &mut Outbound) -> (res: Result<(), WebSocketError>)
        ensures
            final(writer)@ == old(writer)@.written(HeaderView::websocket_request().wire()),
            res == old(writer)@.write_result(),
    {
        let request = HTTPHeader::websocket_request();
        writer.write_all(request.to_bytes().as_slice())
    }

    /// The second step of connecting: reads the server's response from
    /// `reader` and opens the connection if the response grants the upgrade.
    pub fn connect(reader: Inbound, writer: Outbound) -> (res: Result<Self, WebSocketError>)
        ensures
            match connected(reader@, writer@) {
                Ok(connection) => res matches Ok(client) && client@ == connection,
                Err(e) => res matches Err(err) && err == e,
            },
    {
        let mut reader = reader;
        let response_header = match HTTPHeader::read(&mut reader) {
            Ok(header) => header,
            Err(_) => {
                return Err(WebSocketError::InvalidRequestHeader);
            },
        };
        if !response_header.is_valid_websocket_response() {
            return Err(WebSocketError::InvalidRequestHeader);
        }
        Ok(Self { connection: WebSocketConnection::new(reader, writer) })
    }

    /// Sends a message, as the connection does.
    pub fn send(&mut self, message: Message) -> (res: Result<(), WebSocketError>)
        ensures
            final(self)@ == old(self)@.sent(message@).0,
            res == old(self)@.sent(message@).1,
    {
        self.connection.send(message)
    }

    /// The messages that arrived as a whole, as the connection gives them.
    pub fn iter_messages(&mut self) -> (messages: Vec<Message>)
        ensures
            final(self)@ == frames_of(old(self)@).0,
            message_views(messages@) == messages_of(frames_of(old(self)@).1),
    {
        self.connection.iter_messages()
    }

    /// The connection behind the client.
    pub fn into_connection(self) -> (connection: WebSocketConnection)
        ensures
            connection@ == self@,
    {
        self.connection
    }
}

} // verus!
