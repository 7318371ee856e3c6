//! The error taxonomy of the tool. Every error is terminal for the current
//! invocation: it is reported once and the process exits non-zero.

use vstd::prelude::*;

verus! {

/// One variant per failure mode of the tool.
///
/// `ConfigRead` and `ConfigWrite` cover I/O or parse failures on the store
/// file, `NoIdentityConfigured` a source-control configuration with no user
/// name at all, `UnknownAccount` a login or sync target with no stored
/// secret, `AuthFailure` an external agent that could not be spawned or
/// exited non-zero, and `HomeDirectoryUnavailable` a machine on which the
/// base directory for the store file cannot be found.
#[derive(Debug, Clone, Copy, PartialEq, Eq)]
pub enum GoatError {
    ConfigRead,
    ConfigWrite,
    NoIdentityConfigured,
    UnknownAccount,
    AuthFailure,
    HomeDirectoryUnavailable,
}

impl GoatError {
    /// A fixed one-line description, for the surrounding binary to print.
    pub fn message(&self) -> (r: &'static str)
        ensures
            r@ == self.message_spec(),
    {
        match self {
            GoatError::ConfigRead => "could not read the credential store",
            GoatError::ConfigWrite => "could not write the credential store",
            GoatError::NoIdentityConfigured => "could not find git config username",
            GoatError::UnknownAccount => "no token found for user",
            GoatError::AuthFailure => "failed to authenticate with gh",
            GoatError::HomeDirectoryUnavailable => "failed to find home directory",
        }
    }

    pub open spec fn message_spec(&self) -> Seq<char> {
        match self {
            GoatError::ConfigRead => "could not read the credential store"@,
            GoatError::ConfigWrite => "could not write the credential store"@,
            GoatError::NoIdentityConfigured => "could not find git config username"@,
            GoatError::UnknownAccount => "no token found for user"@,
            GoatError::AuthFailure => "failed to authenticate with gh"@,
            GoatError::HomeDirectoryUnavailable => "failed to find home directory"@,
        }
    }
}

} // verus!
