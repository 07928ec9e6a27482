//! A distributed rate-limiting core: admits or rejects requests so that no
//! client and no route exceeds its configured quota within a time window.
//!
//! The crate holds the rate-limiter's logic — validated quota rules, scope
//! resolution, the fixed-window counter state machine, the per-scope decision
//! and the deny-wins evaluation across rules — each function with a proved
//! contract. The pieces at the process edge (HTTP dispatch, the shared
//! counter service, reading the configuration file) stay outside and talk to
//! this crate in plain values.

pub mod engine;
pub mod laws;
pub mod rules;
pub mod scope;
pub mod store;
