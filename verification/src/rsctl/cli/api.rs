//! `api` commands: Rust API scaffold and OpenAPI document.
use vstd::prelude::*;

use crate::rsctl::cli::rs::api::{generate_outcome, openapi_action, run_generate, run_openapi, GenerateArgs, OpenapiArgs};
use crate::rsctl::cli::Action;

verus! {

/// The API commands.
#[derive(Clone, Debug)]
pub enum Command {
    /// Rust API scaffold (the same as `rs api`).
    Rs(ApiRsArgs),
    /// OpenAPI v3 document.
    Openapi(OpenapiArgs),
}

/// Arguments of `api rs`; the API file is required here.
#[derive(Clone, Debug)]
pub struct ApiRsArgs {
    /// Output directory.
    pub dir: String,
    /// The API description file.
    pub api: String,
    /// File naming style: `rust_zero`, `rustZero` or `RustZero`.
    pub style: Option<String>,
    /// Template source: a git/http URL, a local directory, or the default.
    pub remote: Option<String>,
    /// Merge the handlers of a group into one file.
    pub merge: bool,
    /// Run `cargo fmt` afterwards.
    pub fmt: bool,
    /// Overwrite existing files.
    pub overwrite: bool,
}

impl From<ApiRsArgs> for GenerateArgs {
    fn from(a: ApiRsArgs) -> (g: GenerateArgs) {
        GenerateArgs {
            dir: a.dir,
            api: Some(a.api),
            style: a.style,
            remote: a.remote,
            merge: a.merge,
            fmt: a.fmt,
            overwrite: a.overwrite,
        }
    }
}

impl vstd::std_specs::convert::FromSpecImpl<ApiRsArgs> for GenerateArgs {
    open spec fn obeys_from_spec() -> bool {
        true
    }

    open spec fn from_spec(a: ApiRsArgs) -> GenerateArgs {
        GenerateArgs {
            dir: a.dir,
            api: Some(a.api),
            style: a.style,
            remote: a.remote,
            merge: a.merge,
            fmt: a.fmt,
            overwrite: a.overwrite,
        }
    }
}

/// The outcome of an API command.
pub open spec fn run_outcome(cmd: Command, r: Result<Action, String>) -> bool {
    match cmd {
        Command::Rs(a) => generate_outcome(
            GenerateArgs {
                dir: a.dir,
                api: Some(a.api),
                style: a.style,
                remote: a.remote,
                merge: a.merge,
                fmt: a.fmt,
                overwrite: a.overwrite,
            },
            r,
        ),
        Command::Openapi(o) => r == Ok::<Action, String>(openapi_action(o)),
    }
}

/// The action of an API command.
pub fn run(cmd: Command) -> (r: Result<Action, String>)
    ensures
        run_outcome(cmd, r),
{
    match cmd {
        Command::Rs(args) => run_generate(GenerateArgs::from(args)),
        Command::Openapi(args) => Ok(run_openapi(args)),
    }
}

} // verus!
