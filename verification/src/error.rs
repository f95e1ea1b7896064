use vstd::prelude::*;
use crate::value::ConfigValue;

verus! {

/// Everything that can go wrong while resolving, loading, merging and
/// materializing configuration documents. Variants that report a problem
/// with an underlying operation carry the offending path and a diagnostic
/// message; the merge conflicts carry the key and the conflicting value.
#[derive(Debug, PartialEq, Eq)]
pub enum Error {
    ObjectFieldTypeMismatch { key: String, value: ConfigValue },
    ArrayFieldTypeMismatch { key: String, value: ConfigValue },
    FileOpen { path: String, message: String },
    ReadFileContents { path: String, message: String },
    ParseToml { path: String, message: String },
    ParseJson { path: String, message: String },
    UnsupportedFileType { path: String },
    ParseFinalJson { message: String },
    SerializeFinalJson { message: String },
    ReadDir { path: String, message: String },
    DirFile { path: String, message: String },
    GetFileName { path: String },
    ReadPathMetaData { path: String, message: String },
}

} // verus!
