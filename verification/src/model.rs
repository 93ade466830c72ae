pub mod client;
pub mod server;
