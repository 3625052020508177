//! The core of a relay for end-to-end encrypted messages.
//!
//! The relay never sees plaintext. It keeps, for every device, the public
//! key material that others need to open a session with it, and a queue of
//! sealed envelopes addressed to it. Two things are consumed here, each at
//! most once: a one-time prekey when a bundle is fetched, and an envelope
//! when an inbox is read.
//!
//! - [`claim`]: the state of a row that is consumed at most once, and the
//!   try-claim step that both stores are built on.
//! - [`keys`]: the key bundle store, with upload and fetch-with-claim.
//! - [`messages`]: the message relay, with append and claim-and-deliver.
//! - [`key_proofs`], [`queue_proofs`]: what holds of the two stores over
//!   single calls and over whole histories of calls.
//! - [`attachments`]: where an attachment is kept and who may complete it.
//! - [`auth`]: the identity behind a request and what it may act for.
//! - [`errors`]: the kinds of failure and how they are shown.
//! - [`identifiers`]: the hashed form under which accounts are looked up.

pub mod attachments;
pub mod auth;
pub mod claim;
pub mod errors;
pub mod identifiers;
pub mod key_proofs;
pub mod keys;
pub mod messages;
pub mod queue_proofs;
