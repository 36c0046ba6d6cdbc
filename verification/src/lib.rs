//! A dynamic-DNS update client for the dy.fi service.
//!
//! The crate holds the decision logic of the client: the classifier that
//! turns a provider response into a structured outcome, the parser for IP
//! address literals, and the update-decision engine that decides on each
//! polling cycle whether an update call is needed and applies the outcome
//! to its state. Network calls, configuration reading and logging live in
//! the surrounding application, which feeds this crate plain values.

pub mod engine;
pub mod ip;
pub mod text;
pub mod types;
pub mod util;
