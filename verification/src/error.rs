//! The failures the library reports.

use vstd::prelude::*;

verus! {

/// Why a call was refused. A call that returns one of these has changed
/// nothing.
#[derive(Clone, Copy, Debug, PartialEq, Eq, Structural)]
pub enum Error {
    /// The signature does not verify over the challenge under the public key.
    InvalidCapability,
    /// A ciphertext has the wrong length, or its tag does not match.
    MalformedCiphertext,
    /// A path secret that the derivation needs is not held.
    MissingSecret,
    /// A roster index names no live member.
    UnknownMember,
    /// A handshake is not well formed, or does not fit the group it is
    /// applied to.
    HandshakeDecodeError,
    /// An application state does not have the fixed state size.
    StateSizeMismatch,
}

impl Error {
    /// The text that describes the failure.
    pub open spec fn text(&self) -> Seq<char> {
        match self {
            Error::InvalidCapability => "invalid capability"@,
            Error::MalformedCiphertext => "malformed ciphertext"@,
            Error::MissingSecret => "missing path secret"@,
            Error::UnknownMember => "unknown member"@,
            Error::HandshakeDecodeError => "handshake decode error"@,
            Error::StateSizeMismatch => "state size mismatch"@,
        }
    }

    /// A short description of the failure.
    pub fn message(&self) -> (text: &'static str)
        ensures
            text@ == self.text(),
    {
        match self {
            Error::InvalidCapability => "invalid capability",
            Error::MalformedCiphertext => "malformed ciphertext",
            Error::MissingSecret => "missing path secret",
            Error::UnknownMember => "unknown member",
            Error::HandshakeDecodeError => "handshake decode error",
            Error::StateSizeMismatch => "state size mismatch",
        }
    }
}

} // verus!
