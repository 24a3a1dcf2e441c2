//! The server: who may come in, who is where, and what each request does.

pub mod auth;
pub mod bootstrap;
pub mod database;
pub mod identity;
pub mod invite;
pub mod permissions;
pub mod rooms;
pub mod session;
pub mod shown;
pub mod sfu;
pub mod state;
