pub mod transform;
pub mod pagination;
pub mod handler;
