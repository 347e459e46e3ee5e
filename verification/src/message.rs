//! Messages, as the application sends and receives them.

use vstd::prelude::*;

verus! {

/// A payload as the application sees it.
#[derive(Debug, PartialEq, Eq)]
pub enum Message {
    Text(String),
    Binary(Vec<u8>),
    Ping,
    Pong,
}

/// The mathematical value of a [`Message`].
pub enum MessageView {
    Text(Seq<char>),
    Binary(Seq<u8>),
    Ping,
    Pong,
}

impl View for Message {
    type V = MessageView;

    open spec fn view(&self) -> MessageView {
        match self {
            Message::Text(s) => MessageView::Text(s@),
            Message::Binary(b) => MessageView::Binary(b@),
            Message::Ping => MessageView::Ping,
            Message::Pong => MessageView::Pong,
        }
    }
}

impl Clone for Message {
    /// A message with the same content.
    fn clone(&self) -> (copy: Message)
        ensures
            copy@ == self@,
    {
        match self {
            Message::Text(s) => Message::Text(s.clone()),
            Message::Binary(b) => {
                let copy = b.clone();
                assert(copy@ =~= b@);
                Message::Binary(copy)
            },
            Message::Ping => Message::Ping,
            Message::Pong => Message::Pong,
        }
    }
}

} // verus!
