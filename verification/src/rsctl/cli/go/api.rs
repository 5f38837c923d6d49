//! Arguments of `go api`.
use vstd::prelude::*;

verus! {

/// Arguments of `go api`.
#[derive(Clone, Debug)]
pub struct ApiArgs {
    /// Output directory.
    pub dir: String,
    /// The API description file.
    pub api: String,
    pub style: Option<String>,
    pub remote: Option<String>,
    pub overwrite: bool,
    /// Target web framework (such as `gin`).
    pub web: String,
}

} // verus!
