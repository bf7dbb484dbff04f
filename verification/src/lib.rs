//! Poros: share a local development server over a private HTTPS link.
//!
//! The library holds the rules: command-line parsing, the HTTP bridge's checks
//! and rewrites, the tailscaled protocol, listener discovery, the dashboard and
//! the supervision state machines. Everything that reads or writes the outside
//! world lives in `app/`.

pub mod bytes;
pub mod cli;
pub mod dashboard;
pub mod discovery;
pub mod duration;
pub mod ip;
pub mod json;
pub mod laws;
pub mod list;
pub mod localapi;
pub mod number;
pub mod order;
pub mod proxy;
pub mod runner;
pub mod serve;
pub mod signal;
pub mod tailscale;
pub mod text;
