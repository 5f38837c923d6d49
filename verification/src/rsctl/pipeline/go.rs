//! The Go API pipeline, which is not written yet.
use vstd::prelude::*;

use crate::text::owned;

verus! {

/// The options of the Go API pipeline.
#[derive(Clone, Debug)]
pub struct Options {
    pub out_dir: String,
    pub api_file: String,
    pub style: Option<String>,
    pub remote: Option<String>,
    pub overwrite: bool,
    pub web: String,
}

pub open spec fn go_unimplemented_text() -> Seq<char> {
    "go api generator is not implemented yet (planned: `rsctl go api ...` -> code::api::go::...)"@
}

/// The Go generator is not written yet: every run fails with this message.
pub fn run(_opts: Options) -> (r: Result<(), String>)
    ensures
        match r {
            Ok(_) => false,
            Err(m) => m@ == go_unimplemented_text(),
        },
{
    Err(owned("go api generator is not implemented yet (planned: `rsctl go api ...` -> code::api::go::...)"))
}

} // verus!
