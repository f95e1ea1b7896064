//! Layered configuration loading: expands input locations into an ordered
//! list of TOML or JSON files, parses each into a generic document, folds
//! the documents into one under a configurable override policy, and reports
//! the first conflict or load failure. The merge engine and the path
//! resolution are specified against sequence models and verified; parsing
//! itself is delegated to the format libraries behind trusted wrappers.

pub mod value;
pub mod error;
pub mod merge;
pub mod load;
pub mod resolve;
pub mod laws;

pub use error::Error;
pub use load::{parse_config_file, parse_config_files};
pub use merge::merge_objects;
pub use resolve::{resolve_config_paths, NameFilter, PathListing};
pub use value::ConfigValue;
