pub mod types;
pub mod merge;
pub mod reader;
