pub mod model;
pub mod parser;
