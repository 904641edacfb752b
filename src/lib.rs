//! Storage, scoring and access control for per-person inspection records.
//!
//! `database` holds the user documents, the inspections recorded on them, the
//! score engine and the listing index; `auth` holds the credential records and
//! the tokens that gate mutating calls; `api` holds the decisions behind each
//! request (token gate, claims, submissions, logins, registrations);
//! `runtime` holds the calls into the clock, the random number generator, the
//! identifier generator, the password hash and the QR encoder.
pub mod api;
pub mod auth;
pub mod database;
pub mod runtime;
