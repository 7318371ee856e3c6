//! Credential-store and session-switching logic for a multi-account
//! code-hosting CLI.
//!
//! The library holds the decision logic: the credential store and its
//! operations, the on-disk codec for the store file, identity resolution,
//! and the login / logout / sync / info state machine. All file, process
//! and network work stays outside, in the surrounding binary, which feeds
//! plain values in and carries plain values out.

pub mod codec;
pub mod error;
pub mod identity;
pub mod release;
pub mod session;
pub mod store;
