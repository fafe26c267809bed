pub mod config;
pub mod errors;
pub mod fidelity;
pub mod json_text;
pub mod kv_service;
pub mod laws;
pub mod persistence;
pub mod pubsub;
pub mod snapshot;
pub mod store;
pub mod trusted;
