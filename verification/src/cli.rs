//! The command line, as plain values.
use vstd::prelude::*;

verus! {

pub struct Cli {
    pub command: Command,
}

pub enum Command {
    /// Diff two OpenAPI specs and generate a mapping file.
    Init {
        /// Path or URL to the source OpenAPI spec (the API you want to expose).
        source: String,
        /// Path or URL to the target OpenAPI spec (the upstream API).
        target: String,
        /// Where to write the mapping file.
        output: String,
        /// Output format: toml, yaml, json.
        format: String,
    },
    /// Run the translation proxy using a mapping file.
    Serve {
        /// Path to the mapping file.
        mappings: String,
        /// Base URL of the upstream/target API server.
        target_url: String,
        /// Listen address.
        listen: String,
        /// Log level.
        log_level: String,
        /// Log requests to unmapped endpoints.
        log_unmapped: bool,
    },
    /// Re-diff updated specs and merge into an existing mapping file.
    Sync {
        /// Updated source spec.
        source: String,
        /// Updated target spec.
        target: String,
        /// Existing mapping file to merge with.
        mappings: String,
    },
    /// Check a mapping file for errors, warnings, and coverage stats.
    Validate {
        /// Path to the mapping file.
        mappings: String,
    },
}

} // verus!
