//! The server: what it knows of itself, and what it does with its connections.
pub mod answers;
pub mod handshake;
pub mod info;
pub mod laws;
pub mod model;
pub mod server;

pub use info::{NetworkingError, ServerConfig, ServerInfo, ServerRole};
pub use server::Server;
