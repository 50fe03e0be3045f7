//! What the login screen decides: which command starts a session, which
//! sessions, accounts, layouts and background it offers, and what it
//! remembers. Reading the system and talking to greetd stay outside; what to
//! do with what was read is here.

pub mod auth;
pub mod sessions;
pub mod appearance;
pub mod keyboard;
pub mod background;
pub mod users;
pub mod state;
pub mod screens;
