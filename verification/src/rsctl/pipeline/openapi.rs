//! The options of the OpenAPI pipeline.
use vstd::prelude::*;

verus! {

/// The options of the OpenAPI pipeline.
#[derive(Clone, Debug)]
pub struct Options {
    pub out_dir: String,
    pub api_file: String,
    /// Output file name without extension.
    pub filename: String,
    /// `json` or `yaml`.
    pub format: String,
    pub overwrite: bool,
}

} // verus!
