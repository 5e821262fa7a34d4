//! Keeps a local record of a user's friends list in sync with what the
//! remote service currently reports: rows for friends that disappeared are
//! soft-deleted, and every display name ever observed for an identity is
//! kept in an append-only history.

#![verifier::loop_isolation(false)]

pub mod laws;
pub mod steam_api;
pub mod store;
