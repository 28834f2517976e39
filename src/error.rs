use vstd::prelude::*;

verus! {

/// Errors raised while running tests.
#[derive(Debug, Clone, PartialEq, Eq)]
pub enum Error {
    /// No object item to link with that name.
    NoLinkerItem { item: String },
    /// No object path to link with that name.
    NoLinkerPath { path: String },
    /// Bad input at a position.
    BadInputPos { position: usize, message: String },
    /// A call failed.
    Call { message: String },
    /// Anything else.
    Other { message: String },
}

/// The text that an error carries.
pub open spec fn error_text(e: Error) -> Seq<char> {
    match e {
        Error::NoLinkerItem { item } => item@,
        Error::NoLinkerPath { path } => path@,
        Error::BadInputPos { message, .. } => message@,
        Error::Call { message } => message@,
        Error::Other { message } => message@,
    }
}

impl Error {
    /// The text that the error carries.
    pub fn text(&self) -> (r: String)
        ensures
            r@ == error_text(*self),
    {
        match self {
            Error::NoLinkerItem { item } => item.clone(),
            Error::NoLinkerPath { path } => path.clone(),
            Error::BadInputPos { message, .. } => message.clone(),
            Error::Call { message } => message.clone(),
            Error::Other { message } => message.clone(),
        }
    }

    /// An error that carries only a message.
    pub fn other(message: String) -> (r: Error)
        ensures
            r matches Error::Other { message: m } && m@ == message@,
    {
        Error::Other { message }
    }
}

/// Error when input could not be decoded.
#[derive(Debug)]
pub struct DecodingError;

/// Error when a transaction nonce could not be built.
#[derive(Debug)]
pub struct NonceError;

/// Error when a balance could not be read.
#[derive(Debug)]
pub struct BalanceError;

} // verus!
