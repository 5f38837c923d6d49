//! Arguments of `rs api` and the actions they ask for.
use vstd::prelude::*;

use crate::rsctl::cli::Action;
use crate::rsctl::pipeline;
use crate::text::owned;

verus! {

/// Arguments of `rs api`: a subcommand, or the generation arguments.
#[derive(Clone, Debug)]
pub struct ApiArgs {
    pub command: Option<ApiCommand>,
    pub generate: GenerateArgs,
}

/// Arguments of Rust API generation.
#[derive(Clone, Debug)]
pub struct GenerateArgs {
    /// Output directory.
    pub dir: String,
    /// The API description file.
    pub api: Option<String>,
    /// File naming style: `rust_zero`, `rustZero` or `RustZero`.
    pub style: Option<String>,
    /// Template source: a git/http URL, a local directory, or the default.
    pub remote: Option<String>,
    /// Merge the handlers of a group into one file.
    pub merge: bool,
    /// Run `cargo fmt` afterwards.
    pub fmt: bool,
    /// Overwrite existing files.
    pub overwrite: bool,
}

/// Arguments of OpenAPI generation.
#[derive(Clone, Debug)]
pub struct OpenapiArgs {
    /// The API description file.
    pub api: String,
    /// Output directory.
    pub dir: String,
    /// Output file name without extension.
    pub filename: String,
    /// `json` or `yaml`.
    pub format: String,
    /// Overwrite an existing file.
    pub overwrite: bool,
}

/// The subcommands of `rs api`.
#[derive(Clone, Debug)]
pub enum ApiCommand {
    /// OpenAPI v3 document.
    Openapi(OpenapiArgs),
}

/// The outcome of generation arguments: the pipeline options, or an error
/// when no API file is given.
pub open spec fn generate_outcome(g: GenerateArgs, r: Result<Action, String>) -> bool {
    match g.api {
        None => r matches Err(e) && e@ == "--api is required"@,
        Some(api) => r == Ok::<Action, String>(
            Action::GenerateRs(
                pipeline::rs::Options {
                    out_dir: g.dir,
                    api_file: api,
                    style: g.style,
                    remote: g.remote,
                    merge: g.merge,
                    fmt: g.fmt,
                    overwrite: g.overwrite,
                },
            ),
        ),
    }
}

pub open spec fn openapi_action(o: OpenapiArgs) -> Action {
    Action::Openapi(
        pipeline::openapi::Options {
            out_dir: o.dir,
            api_file: o.api,
            filename: o.filename,
            format: o.format,
            overwrite: o.overwrite,
        },
    )
}

/// The outcome of `rs api`: the OpenAPI subcommand when given, else generation.
pub open spec fn run_outcome(args: ApiArgs, r: Result<Action, String>) -> bool {
    match args.command {
        Some(ApiCommand::Openapi(o)) => r == Ok::<Action, String>(openapi_action(o)),
        None => generate_outcome(args.generate, r),
    }
}

/// The action of `rs api`.
pub fn run(args: ApiArgs) -> (r: Result<Action, String>)
    ensures
        run_outcome(args, r),
{
    match args.command {
        Some(ApiCommand::Openapi(o)) => Ok(run_openapi(o)),
        None => run_generate(args.generate),
    }
}

/// The action of generation arguments (see [`generate_outcome`]).
pub fn run_generate(generate: GenerateArgs) -> (r: Result<Action, String>)
    ensures
        generate_outcome(generate, r),
{
    match generate.api {
        None => Err(owned("--api is required")),
        Some(api) => Ok(
            Action::GenerateRs(
                pipeline::rs::Options {
                    out_dir: generate.dir,
                    api_file: api,
                    style: generate.style,
                    remote: generate.remote,
                    merge: generate.merge,
                    fmt: generate.fmt,
                    overwrite: generate.overwrite,
                },
            ),
        ),
    }
}

/// The action of OpenAPI arguments.
pub fn run_openapi(args: OpenapiArgs) -> (a: Action)
    ensures
        a == openapi_action(args),
{
    Action::Openapi(
        pipeline::openapi::Options {
            out_dir: args.dir,
            api_file: args.api,
            filename: args.filename,
            format: args.format,
            overwrite: args.overwrite,
        },
    )
}

} // verus!
