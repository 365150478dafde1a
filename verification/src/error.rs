use vstd::prelude::*;

verus! {

/// The error type of `url::Url::parse`, carried unchanged inside [`WsClientError::Url`].
#[verifier::external_type_specification]
#[verifier::external_body]
pub struct ExUrlParseError(url::ParseError);

/// Errors raised while building a websocket client or handling its traffic.
#[derive(Debug, PartialEq)]
pub enum WsClientError {
    /// A client was built without any subscription.
    EmptySubscriptions,
    /// A channel name does not end in a number of the expected width.
    InvalidChannel(String),
    /// A text message has no string `type` field.
    MissingMessageType,
    /// A frame could not be read as a message.
    InvalidMessage(String),
    /// The websocket address could not be parsed.
    Url(url::ParseError),
    /// A message is not the JSON that its type calls for.
    Json(String),
    /// The websocket transport failed.
    WebSocket(String),
}

/// Result of the websocket helpers.
pub type WsResult<T> = Result<T, WsClientError>;


/// An error as plain values.
pub enum ErrorView {
    EmptySubscriptions,
    InvalidChannel(Seq<char>),
    MissingMessageType,
    InvalidMessage(Seq<char>),
    Url(url::ParseError),
    Json(Seq<char>),
    WebSocket(Seq<char>),
}

impl View for WsClientError {
    type V = ErrorView;

    open spec fn view(&self) -> ErrorView {
        match self {
            WsClientError::EmptySubscriptions => ErrorView::EmptySubscriptions,
            WsClientError::InvalidChannel(c) => ErrorView::InvalidChannel(c@),
            WsClientError::MissingMessageType => ErrorView::MissingMessageType,
            WsClientError::InvalidMessage(m) => ErrorView::InvalidMessage(m@),
            WsClientError::Url(e) => ErrorView::Url(*e),
            WsClientError::Json(m) => ErrorView::Json(m@),
            WsClientError::WebSocket(m) => ErrorView::WebSocket(m@),
        }
    }
}

} // verus!
