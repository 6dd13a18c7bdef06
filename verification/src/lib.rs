//! Client library for a turn-based, XML-framed game protocol.
//!
//! The crate covers the pure core of such a client: assembling generic
//! element trees from a stream of low-level parse events, mapping those
//! trees onto typed game entities, the protocol session state machine
//! that dispatches each incoming element, and the default move-selection
//! strategy.  Everything that touches the network or the process
//! environment is left to the embedding program, which feeds this
//! library plain values.

use vstd::prelude::*;

pub mod arg_parser;
pub mod game;
pub mod logger;
pub mod numbers;
pub mod xml_client;
pub mod xml_utils;

verus! {

/// The failure taxonomy of the client.
///
/// Every recognized failure is unrecoverable for the session; the
/// embedding program decides how to surface it.
#[derive(Debug)]
pub enum ClientError {
    /// The transport could not be established or was lost.
    ConnectionError,
    /// The event source failed before a complete top-level element
    /// had been assembled.
    StreamError,
    /// A required attribute or child element was absent during domain
    /// mapping; carries the name of the missing piece.
    MissingField(String),
    /// A present attribute could not be parsed to its expected numeric
    /// type; carries the name of the offending attribute.
    MalformedValue(String),
    /// A protocol-ordering requirement was violated, or the default
    /// strategy found no legal target; carries a description.
    PreconditionViolation(String),
}

/// Mathematical image of a `ClientError`.
pub enum ClientErrorV {
    ConnectionError,
    StreamError,
    MissingField(Seq<char>),
    MalformedValue(Seq<char>),
    PreconditionViolation(Seq<char>),
}

impl DeepView for ClientError {
    type V = ClientErrorV;

    open spec fn deep_view(&self) -> ClientErrorV {
        match self {
            ClientError::ConnectionError => ClientErrorV::ConnectionError,
            ClientError::StreamError => ClientErrorV::StreamError,
            ClientError::MissingField(n) => ClientErrorV::MissingField(n@),
            ClientError::MalformedValue(n) => ClientErrorV::MalformedValue(n@),
            ClientError::PreconditionViolation(n) => ClientErrorV::PreconditionViolation(n@),
        }
    }
}

/// Mathematical image of a `Result` whose error side is a `ClientError`.
pub open spec fn result_view<T: DeepView>(r: Result<T, ClientError>) -> Result<T::V, ClientErrorV> {
    match r {
        Ok(t) => Ok(t.deep_view()),
        Err(e) => Err(e.deep_view()),
    }
}

impl ClientError {
    /// A human-readable description of the error.
    pub fn describe(&self) -> (r: String)
        ensures
            r@ == self.spec_describe(),
    {
        match self {
            ClientError::ConnectionError => String::from_str("could not establish or keep the connection"),
            ClientError::StreamError => String::from_str("the event stream failed before an element was complete"),
            ClientError::MissingField(n) => String::from_str("missing required field: ").concat(n.as_str()),
            ClientError::MalformedValue(n) => String::from_str("malformed numeric value in field: ").concat(n.as_str()),
            ClientError::PreconditionViolation(n) => String::from_str("precondition violation: ").concat(n.as_str()),
        }
    }

    /// What `describe` returns.
    pub open spec fn spec_describe(&self) -> Seq<char> {
        match self {
            ClientError::ConnectionError => "could not establish or keep the connection"@,
            ClientError::StreamError => "the event stream failed before an element was complete"@,
            ClientError::MissingField(n) => "missing required field: "@ + n@,
            ClientError::MalformedValue(n) => "malformed numeric value in field: "@ + n@,
            ClientError::PreconditionViolation(n) => "precondition violation: "@ + n@,
        }
    }
}

} // verus!
