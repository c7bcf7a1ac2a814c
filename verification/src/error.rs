//! The configuration errors: everything that stops a run before the first
//! candidate is tested.
use vstd::prelude::*;
use vstd::string::StringExecFns;

verus! {

/// Why a run cannot start. None of these is a "no match": a search that
/// ran to its end reports exhaustion instead.
#[derive(Clone, Copy, Debug, PartialEq, Eq, Structural)]
pub enum ConfigError {
    /// The token does not consist of exactly three dot-separated segments.
    MalformedToken,
    /// The header segment is not unpadded URL-safe base64.
    HeaderEncoding,
    /// The header's `typ` is not `JWT`.
    UnsupportedType,
    /// The header's `alg` is not `HS256`.
    UnsupportedAlgorithm,
    /// The signature segment is not unpadded URL-safe base64.
    SignatureEncoding,
    /// The worker pool was asked to run with no worker.
    ZeroWorkers,
}

impl ConfigError {
    /// The text in which the error is told to the user.
    pub open spec fn message_text(self) -> Seq<char> {
        match self {
            ConfigError::MalformedToken => "Invalid token"@,
            ConfigError::HeaderEncoding => "Failed to decode header"@,
            ConfigError::UnsupportedType => "Invalid token type"@,
            ConfigError::UnsupportedAlgorithm => "Currently only HS256 is supported"@,
            ConfigError::SignatureEncoding => "Failed to decode signature"@,
            ConfigError::ZeroWorkers => "At least one worker is needed"@,
        }
    }

    /// The error's message.
    pub fn message(&self) -> (text: String)
        ensures
            text@ == self.message_text(),
    {
        match self {
            ConfigError::MalformedToken => String::from_str("Invalid token"),
            ConfigError::HeaderEncoding => String::from_str("Failed to decode header"),
            ConfigError::UnsupportedType => String::from_str("Invalid token type"),
            ConfigError::UnsupportedAlgorithm => String::from_str(
                "Currently only HS256 is supported",
            ),
            ConfigError::SignatureEncoding => String::from_str("Failed to decode signature"),
            ConfigError::ZeroWorkers => String::from_str("At least one worker is needed"),
        }
    }
}

} // verus!
