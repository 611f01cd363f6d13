//! An in-memory data structure server that speaks the RESP protocol.
pub mod cli;
pub mod client;
pub mod command;
pub mod db;
pub mod dispatch;
pub mod double;
pub mod networking;
pub mod resp;
pub mod text;
pub mod time;
