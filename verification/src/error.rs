//! What can go wrong in the protocol itself, apart from the transport.

use vstd::prelude::*;

verus! {

/// The ways in which the protocol rejects what it is given.
#[derive(Clone, Debug, PartialEq, Eq)]
pub enum Error {
    /// A line that is no command; it holds the line as it was read.
    InvalidCommand(String),
    /// The server answered a login with `WrongLogin`.
    InvalidLogin,
    /// The server answered with `NotConnected`.
    NotConnected,
    /// A line of the user database does not hold a name and a password.
    InvalidUserDB,
}

/// What the protocol's fallible functions return.
pub type Result<T> = core::result::Result<T, Error>;

/// The message of an error, as `Error::to_string` builds it.
pub open spec fn error_message(e: Error) -> Seq<char> {
    match e {
        Error::InvalidCommand(c) => "invalid command: "@ + c@,
        Error::InvalidLogin => "user name or password is invalid"@,
        Error::NotConnected => "client is not logged in server"@,
        Error::InvalidUserDB => "provided user database is invalid"@,
    }
}

impl Error {
    /// A message for the user.
    pub fn to_string(&self) -> (s: String)
        ensures
            s@ == error_message(*self),
    {
        match self {
            Error::InvalidCommand(c) => {
                let mut s = String::from_str("invalid command: ");
                s.append(c.as_str());
                s
            },
            Error::InvalidLogin => String::from_str("user name or password is invalid"),
            Error::NotConnected => String::from_str("client is not logged in server"),
            Error::InvalidUserDB => String::from_str("provided user database is invalid"),
        }
    }
}

} // verus!
