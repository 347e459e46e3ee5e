use rust_ws::connection::ConnectionState;
use rust_ws::error::WebSocketError;
use rust_ws::http::HTTPHeader;
use rust_ws::server::{Accepted, ConnectionIter};
use rust_ws::transport::{Inbound, Outbound};

fn source(bytes: &[u8]) -> Inbound {
    let mut r = Inbound::new();
    r.feed(bytes);
    r
}

fn valid_request() -> Accepted {
    Accepted::Stream(
        source(&HTTPHeader::websocket_request().to_bytes()),
        Outbound::new(),
    )
}

fn request_with_key() -> Accepted {
    let mut request = HTTPHeader::websocket_request();
    request.add(b"Host", b"example.com");
    request.add(b"Sec-WebSocket-Key", b"dGhlIHNhbXBsZSBub25jZQ==");
    Accepted::Stream(source(&request.to_bytes()), Outbound::new())
}

fn invalid_request() -> Accepted {
    Accepted::Stream(source(b"GET / HTTP/1.1\r\nHost: x\r\n\r\n"), Outbound::new())
}

#[test]
fn one_accept_is_greeted_by_its_kind() {
    assert_eq!(
        ConnectionIter::try_get_next(Accepted::WouldBlock).err(),
        Some(WebSocketError::WouldBlock)
    );
    assert_eq!(
        ConnectionIter::try_get_next(Accepted::Failed).err(),
        Some(WebSocketError::UnknownError)
    );
    assert_eq!(
        ConnectionIter::try_get_next(invalid_request()).err(),
        Some(WebSocketError::InvalidRequestHeader)
    );
    assert_eq!(
        ConnectionIter::try_get_next(Accepted::Stream(Inbound::new(), Outbound::new())).err(),
        Some(WebSocketError::InvalidRequestHeader)
    );
    assert!(ConnectionIter::try_get_next(valid_request()).is_ok());
}

#[test]
fn iteration_passes_over_would_block() {
    let mut it = ConnectionIter::new(vec![
        Accepted::WouldBlock,
        Accepted::WouldBlock,
        Accepted::Failed,
        Accepted::WouldBlock,
        invalid_request(),
        valid_request(),
        Accepted::WouldBlock,
    ]);
    assert_eq!(it.next().unwrap().err(), Some(WebSocketError::UnknownError));
    assert_eq!(
        it.next().unwrap().err(),
        Some(WebSocketError::InvalidRequestHeader)
    );
    assert!(it.next().unwrap().is_ok());
    assert!(it.next().is_none());
    it.push(valid_request());
    assert!(it.next().unwrap().is_ok());
    assert!(it.next().is_none());
}

#[test]
fn pre_accept_exposes_the_request_and_answers_it() {
    let pre = ConnectionIter::try_get_next(request_with_key()).ok().unwrap();
    assert_eq!(pre.get_header(b"Host").unwrap(), b"example.com");
    assert!(pre.get_header(b"Origin").is_none());
    let mut connection = pre.accept().ok().unwrap();
    assert_eq!(connection.get_state(), ConnectionState::Open);
    assert_eq!(
        connection.take_output(),
        b"HTTP/1.1 101 Switching Protocols\r\nUpgrade: websocket\r\nConnection: Upgrade\r\nSec-WebSocket-Accept: s3pPLMBiTxaQ9kYGzzhZRbK+xOo=\r\n\r\n".to_vec()
    );
}

#[test]
fn accept_without_key_sends_the_plain_response() {
    let pre = ConnectionIter::try_get_next(valid_request()).ok().unwrap();
    let mut connection = pre.accept().ok().unwrap();
    assert_eq!(
        connection.take_output(),
        HTTPHeader::websocket_response().to_bytes()
    );
}

#[test]
fn accept_fails_where_the_response_cannot_be_written() {
    let mut shut = Outbound::new();
    shut.shutdown();
    let accepted = Accepted::Stream(source(&HTTPHeader::websocket_request().to_bytes()), shut);
    let pre = ConnectionIter::try_get_next(accepted).ok().unwrap();
    assert_eq!(pre.accept().err(), Some(WebSocketError::UnknownError));
}

#[test]
fn ok_yields_the_valid_requests_only() {
    let mut it = ConnectionIter::new(vec![
        Accepted::Failed,
        request_with_key(),
        Accepted::WouldBlock,
        invalid_request(),
        valid_request(),
    ]);
    let requests = it.ok();
    assert_eq!(requests.len(), 2);
    assert!(requests[0].get_header(b"Sec-WebSocket-Key").is_some());
    assert!(requests[1].get_header(b"Sec-WebSocket-Key").is_none());
    assert!(it.next().is_none());
}

#[test]
fn auto_accept_yields_live_connections_only() {
    let mut shut = Outbound::new();
    shut.shutdown();
    let mut it = ConnectionIter::new(vec![
        valid_request(),
        Accepted::Stream(source(&HTTPHeader::websocket_request().to_bytes()), shut),
        Accepted::Failed,
        invalid_request(),
        request_with_key(),
    ]);
    let mut connections = it.auto_accept();
    assert_eq!(connections.len(), 2);
    assert_eq!(
        connections[0].take_output(),
        HTTPHeader::websocket_response().to_bytes()
    );
    assert!(connections[1].take_output().ends_with(b"s3pPLMBiTxaQ9kYGzzhZRbK+xOo=\r\n\r\n"));
    assert!(it.next().is_none());
}
