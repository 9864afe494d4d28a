pub mod ascii;
pub mod resp;
pub mod errors;
pub mod store;
pub mod journal;
pub mod config;
pub mod command;
pub mod connection;
pub mod handshake;
