pub mod types;
pub mod serialize;
pub mod deserialize;
pub mod laws;
