//! Which format a mapping file is written in.
use vstd::prelude::*;
use crate::text::{ends_with, is_suffix, str_eq};

verus! {

#[derive(Debug, Clone, Copy, PartialEq, Eq, Structural)]
pub enum MappingFormat {
    Toml,
    Yaml,
    Json,
}

/// The format a file's extension names: `.yaml`/`.yml`, `.json`, else TOML.
pub open spec fn format_of_path(path: Seq<char>) -> MappingFormat {
    if is_suffix(".yaml"@, path) || is_suffix(".yml"@, path) {
        MappingFormat::Yaml
    } else if is_suffix(".json"@, path) {
        MappingFormat::Json
    } else {
        MappingFormat::Toml
    }
}

/// The format a `--format` name selects: `yaml`/`yml`, `json`, else TOML.
pub open spec fn format_of_name(name: Seq<char>) -> MappingFormat {
    if name == "yaml"@ || name == "yml"@ {
        MappingFormat::Yaml
    } else if name == "json"@ {
        MappingFormat::Json
    } else {
        MappingFormat::Toml
    }
}

impl MappingFormat {
    pub fn from_path(path: &str) -> (f: MappingFormat)
        ensures
            f == format_of_path(path@),
    {
        if ends_with(path, ".yaml") || ends_with(path, ".yml") {
            MappingFormat::Yaml
        } else if ends_with(path, ".json") {
            MappingFormat::Json
        } else {
            MappingFormat::Toml
        }
    }

    pub fn parse(name: &str) -> (f: MappingFormat)
        ensures
            f == format_of_name(name@),
    {
        if str_eq(name, "yaml") || str_eq(name, "yml") {
            MappingFormat::Yaml
        } else if str_eq(name, "json") {
            MappingFormat::Json
        } else {
            MappingFormat::Toml
        }
    }
}

} // verus!
