//! A small multi-user chat: the wire format of its frames, the server's
//! authentication, rate limiting and banning rules, the terminal client's
//! input handling, and the server's access token.

pub mod protocol;
mod assoc;
pub mod server;
mod text;
pub mod token;
pub mod ui;
