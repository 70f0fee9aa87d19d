pub mod endpoints;
pub mod schemas;
pub mod mapping;

pub use endpoints::{match_endpoints, normalize_path};
pub use mapping::{build_mapping_file, DiffSummary};
