pub mod text;
pub mod search;
pub mod json;
pub mod codec;
pub mod error;
pub mod spec;
pub mod diff;
pub mod mapping;
pub mod proxy;
pub mod config;
pub mod cli;
