//! The server's side of the handshake: what becomes of each socket that the
//! listener hands out.

use vstd::prelude::*;
use crate::connection::{IterView, WebSocketConnection};
use crate::error::WebSocketError;
use crate::http::{header_read, read_chunk, HTTPHeader, HeaderView};
use crate::transport::{Inbound, InboundView, Outbound, OutboundView};

verus! {

/// What one accept on the listener gave.
pub enum Accepted {
    /// A new socket, as its two halves.
    Stream(Inbound, Outbound),
    /// No socket waits.
    WouldBlock,
    /// The accept failed.
    Failed,
}

/// The mathematical value of an [`Accepted`].
pub enum AcceptedView {
    Stream(InboundView, OutboundView),
    WouldBlock,
    Failed,
}

impl View for Accepted {
    type V = AcceptedView;

    open spec fn view(&self) -> AcceptedView {
        match self {
            Accepted::Stream(reader, writer) => AcceptedView::Stream(reader@, writer@),
            Accepted::WouldBlock => AcceptedView::WouldBlock,
            Accepted::Failed => AcceptedView::Failed,
        }
    }
}

/// The mathematical value of a [`WebsocketConnectionPreAccept`].
#[verifier::ext_equal]
pub struct PreAcceptView {
    pub reader: InboundView,
    pub writer: OutboundView,
    pub header: HeaderView,
}

impl PreAcceptView {
    /// What accepting gives: an open connection that has the response to the
    /// request queued, or an error where the response cannot be written.
    pub open spec fn accepted(self) -> Result<IterView, WebSocketError> {
        if self.writer.shut_down {
            Err(WebSocketError::UnknownError)
        } else {
            Ok(IterView::fresh(self.reader, self.writer.written(self.header.response().wire())))
        }
    }
}

/// What becomes of one accept: no socket is `WouldBlock`, a failed accept is
/// an unknown error, and a socket whose first read holds no valid request
/// for the upgrade is an invalid request header. A socket with a valid
/// request waits to be accepted, with the request taken off its reader.
pub open spec fn greeted(accepted: AcceptedView) -> Result<PreAcceptView, WebSocketError> {
    match accepted {
        AcceptedView::WouldBlock => Err(WebSocketError::WouldBlock),
        AcceptedView::Failed => Err(WebSocketError::UnknownError),
        AcceptedView::Stream(reader, writer) => match header_read(reader.unread) {
            Ok(header) => if header.is_valid_websocket_request() {
                Ok(
                    PreAcceptView {
                        reader: reader.advanced(read_chunk(reader.unread).len()),
                        writer,
                        header,
                    },
                )
            } else {
                Err(WebSocketError::InvalidRequestHeader)
            },
            Err(_) => Err(WebSocketError::InvalidRequestHeader),
        },
    }
}

/// The values of a run of accepts.
pub open spec fn accepted_views(backlog: Seq<Accepted>) -> Seq<AcceptedView> {
    backlog.map_values(|a: Accepted| a@)
}

/// The next item of the iteration, and the accepts that are left: accepts
/// that found no socket are passed over, and the first other one is greeted.
pub open spec fn next_connection(backlog: Seq<AcceptedView>) -> (
    Seq<AcceptedView>,
    Option<Result<PreAcceptView, WebSocketError>>,
)
    decreases backlog.len(),
{
    if backlog.len() == 0 {
        (backlog, None)
    } else if backlog.first() is WouldBlock {
        next_connection(backlog.drop_first())
    } else {
        (backlog.drop_first(), Some(greeted(backlog.first())))
    }
}

/// The sockets with a valid request among the accepts, in order.
pub open spec fn valid_requests(backlog: Seq<AcceptedView>) -> Seq<PreAcceptView>
    decreases backlog.len(),
{
    if backlog.len() == 0 {
        Seq::empty()
    } else {
        match greeted(backlog.first()) {
            Ok(pre) => seq![pre] + valid_requests(backlog.drop_first()),
            Err(_) => valid_requests(backlog.drop_first()),
        }
    }
}

/// The connections that accepting every socket with a valid request gives, in order.
pub open spec fn accepted_connections(requests: Seq<PreAcceptView>) -> Seq<IterView>
    decreases requests.len(),
{
    if requests.len() == 0 {
        Seq::empty()
    } else {
        match requests.first().accepted() {
            Ok(connection) => seq![connection] + accepted_connections(requests.drop_first()),
            Err(_) => accepted_connections(requests.drop_first()),
        }
    }
}

/// The sockets with a valid request are those that the iteration yields
/// without an error.
pub proof fn lemma_valid_requests_step(backlog: Seq<AcceptedView>)
    ensures
        next_connection(backlog).0.len() <= backlog.len(),
        next_connection(backlog).1 is Some ==> next_connection(backlog).0.len() < backlog.len(),
        valid_requests(backlog) == (match next_connection(backlog).1 {
            None => Seq::empty(),
            Some(Ok(pre)) => seq![pre] + valid_requests(next_connection(backlog).0),
            Some(Err(_)) => valid_requests(next_connection(backlog).0),
        }),
    decreases backlog.len(),
{
    if backlog.len() > 0 && backlog.first() is WouldBlock {
        lemma_valid_requests_step(backlog.drop_first());
    }
}

/// The values of a run of sockets that wait to be accepted.
pub open spec fn pre_accept_views(items: Seq<WebsocketConnectionPreAccept>) -> Seq<PreAcceptView> {
    items.map_values(|p: WebsocketConnectionPreAccept| p@)
}

/// The values of a run of connections.
pub open spec fn connection_views(items: Seq<WebSocketConnection>) -> Seq<IterView> {
    items.map_values(|c: WebSocketConnection| c@)
}

pub type IterItem = Result<WebsocketConnectionPreAccept, WebSocketError>;

/// A socket whose request for the upgrade was read and found valid, and
/// that was not answered yet.
pub struct WebsocketConnectionPreAccept {
    reader: Inbound,
    writer: Outbound,
    header: HTTPHeader,
}

impl View for WebsocketConnectionPreAccept {
    type V = PreAcceptView;

    closed spec fn view(&self) -> PreAcceptView {
        PreAcceptView { reader: self.reader@, writer: self.writer@, header: self.header@ }
    }
}

impl WebsocketConnectionPreAccept {
    #[verifier::type_invariant]
    spec fn key_can_be_answered(self) -> bool {
        self.header@.key_fits()
    }

    /// The value of the first pair of the request whose name is `name`.
    pub fn get_header(&self, name: &[u8]) -> (value: Option<&[u8]>)
        ensures
            match self@.header.value_of(name@) {
                Some(v) => value is Some && value->Some_0@ == v,
                None => value is None,
            },
    {
        self.header.get_value(name)
    }

    /// Answers the request and opens the connection.
    pub fn accept(self) -> (res: Result<WebSocketConnection, WebSocketError>)
        ensures
            match self@.accepted() {
                Ok(connection) => res matches Ok(c) && c@ == connection,
                Err(e) => res matches Err(err) && err == e,
            },
    {
        proof {
            use_type_invariant(&self);
        }
        let WebsocketConnectionPreAccept { reader, writer, header } = self;
        let mut writer = writer;
        let response_header = header.into_websocket_response();
        match writer.write_all(response_header.to_bytes().as_slice()) {
            Ok(()) => Ok(WebSocketConnection::new(reader, writer)),
            Err(_) => Err(WebSocketError::UnknownError),
        }
    }
}

/// Walks over what the listener accepted.
pub struct ConnectionIter {
    backlog: Vec<Accepted>,
}

impl View for ConnectionIter {
    type V = Seq<AcceptedView>;

    closed spec fn view(&self) -> Seq<AcceptedView> {
        accepted_views(self.backlog@)
    }
}

impl ConnectionIter {
    /// An iteration over the accepts in `backlog`, oldest first.
    pub fn new(backlog: Vec<Accepted>) -> (it: ConnectionIter)
        ensures
            it@ == accepted_views(backlog@),
    {
        ConnectionIter { backlog }
    }

    /// Adds what one more accept gave.
    pub fn push(&mut self, accepted: Accepted)
        ensures
            final(self)@ == old(self)@.push(accepted@),
    {
        self.backlog.push(accepted);
        assert(final(self)@ =~= old(self)@.push(accepted@));
    }

    /// What becomes of one accept, as `greeted` says.
    pub fn try_get_next(accepted: Accepted) -> (item: IterItem)
        ensures
            match greeted(accepted@) {
                Ok(pre) => item matches Ok(p) && p@ == pre,
                Err(e) => item matches Err(err) && err == e,
            },
    {
        let (reader, writer) = match accepted {
            Accepted::Stream(reader, writer) => (reader, writer),
            Accepted::WouldBlock => {
                return Err(WebSocketError::WouldBlock);
            },
            Accepted::Failed => {
                return Err(WebSocketError::UnknownError);
            },
        };
        let mut reader = reader;
        let request_header = match HTTPHeader::read(&mut reader) {
            Ok(header) => header,
            Err(_) => {
                return Err(WebSocketError::InvalidRequestHeader);
            },
        };
        if !request_header.is_valid_websocket_request() {
            return Err(WebSocketError::InvalidRequestHeader);
        }
        Ok(WebsocketConnectionPreAccept { header: request_header, reader, writer })
    }

    /// The next item, as `next_connection` says. `None` once every accept
    /// was looked at.
    pub fn next(&mut self) -> (item: Option<IterItem>)
        ensures
            final(self)@ == next_connection(old(self)@).0,
            match next_connection(old(self)@).1 {
                Some(Ok(pre)) => item matches Some(Ok(p)) && p@ == pre,
                Some(Err(e)) => item matches Some(Err(err)) && err == e && e
                    != WebSocketError::WouldBlock,
                None => item is None,
            },
    {
        loop
            invariant
                next_connection(old(self)@) == next_connection(self@),
            decreases self.backlog@.len(),
        {
            if self.backlog.len() == 0 {
                return None;
            }
            let ghost before = self@;
            let accepted = self.backlog.remove(0);
            assert(self@ =~= before.drop_first());
            assert(accepted@ == before.first());
            match Self::try_get_next(accepted) {
                Ok(s) => {
                    return Some(Ok(s));
                },
                Err(WebSocketError::WouldBlock) => {},
                Err(e) => {
                    return Some(Err(e));
                },
            }
        }
    }

    /// The sockets with a valid request among all the accepts, in order.
    pub fn ok(&mut self) -> (requests: Vec<WebsocketConnectionPreAccept>)
        ensures
            final(self)@.len() == 0,
            pre_accept_views(requests@) == valid_requests(old(self)@),
    {
        let mut requests: Vec<WebsocketConnectionPreAccept> = Vec::new();
        assert(pre_accept_views(requests@) =~= Seq::<PreAcceptView>::empty());
        loop
            invariant
                valid_requests(old(self)@) == pre_accept_views(requests@) + valid_requests(self@),
            decreases self@.len(),
        {
            let ghost before = self@;
            let ghost found = pre_accept_views(requests@);
            proof {
                lemma_valid_requests_step(before);
            }
            match self.next() {
                None => {
                    assert(found + Seq::<PreAcceptView>::empty() == found);
                    proof {
                        lemma_exhausted(before);
                    }
                    return requests;
                },
                Some(Ok(pre)) => {
                    let ghost p = pre@;
                    requests.push(pre);
                    assert(pre_accept_views(requests@) =~= found.push(p));
                    assert(found + (seq![p] + valid_requests(self@)) == found.push(p)
                        + valid_requests(self@));
                },
                Some(Err(_)) => {},
            }
        }
    }

    /// The connections that accepting every socket with a valid request
    /// gives, in order. A socket that cannot be answered is left out.
    pub fn auto_accept(&mut self) -> (connections: Vec<WebSocketConnection>)
        ensures
            final(self)@.len() == 0,
            connection_views(connections@) == accepted_connections(valid_requests(old(self)@)),
    {
        let mut connections: Vec<WebSocketConnection> = Vec::new();
        assert(connection_views(connections@) =~= Seq::<IterView>::empty());
        loop
            invariant
                accepted_connections(valid_requests(old(self)@)) == connection_views(connections@)
                    + accepted_connections(valid_requests(self@)),
            decreases self@.len(),
        {
            let ghost before = self@;
            let ghost found = connection_views(connections@);
            proof {
                lemma_valid_requests_step(before);
            }
            match self.next() {
                None => {
                    assert(found + Seq::<IterView>::empty() == found);
                    proof {
                        lemma_exhausted(before);
                    }
                    return connections;
                },
                Some(Ok(pre)) => {
                    let ghost p = pre@;
                    let ghost later = valid_requests(self@);
                    assert((seq![p] + later).first() == p);
                    assert((seq![p] + later).drop_first() == later);
                    match pre.accept() {
                        Ok(connection) => {
                            let ghost c = connection@;
                            connections.push(connection);
                            assert(connection_views(connections@) =~= found.push(c));
                            assert(found + (seq![c] + accepted_connections(later)) == found.push(c)
                                + accepted_connections(later));
                        },
                        Err(_) => {},
                    }
                },
                Some(Err(_)) => {},
            }
        }
    }
}

/// Where the iteration yields nothing, no accept is left.
proof fn lemma_exhausted(backlog: Seq<AcceptedView>)
    ensures
        next_connection(backlog).1 is None ==> next_connection(backlog).0.len() == 0,
    decreases backlog.len(),
{
    if backlog.len() > 0 && backlog.first() is WouldBlock {
        lemma_exhausted(backlog.drop_first());
    }
}

} // verus!
