pub mod config;
pub mod error;
pub mod execution;
pub mod providers;
pub mod request;
pub mod resources;
pub mod runtime;
pub mod scope;
pub mod stage;
pub mod translation;
