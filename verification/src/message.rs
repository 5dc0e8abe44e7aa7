//! The messages exchanged over a websocket session, as the matchers see them.
use vstd::prelude::*;

verus! {

/// The payload of a close frame: a status code and a human readable reason.
#[derive(Clone, Debug, PartialEq, Eq)]
pub struct CloseFrame {
    pub code: u16,
    pub reason: String,
}

/// A websocket message received from (or sent to) a client.
#[derive(Clone, Debug, PartialEq, Eq)]
pub enum Message {
    Text(String),
    Binary(Vec<u8>),
    Ping(Vec<u8>),
    Pong(Vec<u8>),
    Close(Option<CloseFrame>),
}

impl Message {
    /// A text message holding `text`.
    pub fn text(text: &str) -> (m: Message)
        ensures
            m matches Message::Text(t) && t@ == text@,
    {
        Message::Text(text.to_owned())
    }

    /// A binary message holding `data`.
    pub fn binary(data: Vec<u8>) -> (m: Message)
        ensures
            m == Message::Binary(data),
    {
        Message::Binary(data)
    }

    pub fn is_text(&self) -> (r: bool)
        ensures
            r == self is Text,
    {
        matches!(self, Message::Text(_))
    }

    pub fn is_binary(&self) -> (r: bool)
        ensures
            r == self is Binary,
    {
        matches!(self, Message::Binary(_))
    }

    pub fn is_ping(&self) -> (r: bool)
        ensures
            r == self is Ping,
    {
        matches!(self, Message::Ping(_))
    }

    pub fn is_pong(&self) -> (r: bool)
        ensures
            r == self is Pong,
    {
        matches!(self, Message::Pong(_))
    }

    pub fn is_close(&self) -> (r: bool)
        ensures
            r == self is Close,
    {
        matches!(self, Message::Close(_))
    }
}

} // verus!
