//! The rules of a voice and screen-share platform: its wire formats, its server's
//! admission and room decisions, and its client's media path.

pub mod cli;
pub mod client;
pub mod crypto;
pub mod keyed;
pub mod proto;
pub mod server;
pub mod text;
