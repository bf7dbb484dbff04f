//! `poros dashboard`: every listening TCP server this user can see, with its
//! Tailscale HTTPS URL when one is served, and a key to stop it.

pub mod keys;
pub mod rows;
pub mod screen;
pub mod state;
