//! The command line of the generator: its commands and the action each
//! one asks for. Parsing the arguments and performing the action are the
//! caller's.
use vstd::prelude::*;

pub mod api;
pub mod go;
pub mod model;
pub mod rs;
pub mod template;

verus! {

/// The arguments of the command line.
#[derive(Clone, Debug)]
pub struct App {
    /// `-v` / `--version`.
    pub version: bool,
    pub command: Option<Command>,
}

/// The top-level commands.
#[derive(Clone, Debug)]
pub enum Command {
    /// API generators (`api rs`, `api openapi`).
    Api { api: api::Command },
    /// Rust generators.
    Rs { command: rs::Command },
    /// Go generators.
    Go { command: go::Command },
    /// Built-in template management.
    Template { template: template::Template },
}

/// What a command line asks to be done.
#[derive(Clone, Debug)]
pub enum Action {
    PrintVersion,
    PrintHelp,
    GenerateRs(crate::rsctl::pipeline::rs::Options),
    Openapi(crate::rsctl::pipeline::openapi::Options),
    GoApi(crate::rsctl::pipeline::go::Options),
    ModelMysql(model::ModelOptions),
    ModelPg(model::ModelOptions),
    /// Install the templates of this version; `overwrite` replaces an
    /// installed copy.
    TemplateInit { overwrite: bool },
    TemplateClean,
}

/// The action of a command line: the version flag wins, no command asks
/// for help, and each command is dispatched to its own `run`.
pub fn run(app: App) -> (r: Result<Action, String>)
    ensures
        app.version ==> r matches Ok(Action::PrintVersion),
        !app.version && app.command is None ==> r matches Ok(Action::PrintHelp),
        !app.version ==> match app.command {
            Some(Command::Api { api }) => api::run_outcome(api, r),
            Some(Command::Rs { command }) => r == Ok::<Action, String>(rs::run_spec(command)),
            Some(Command::Go { command }) => r == Ok::<Action, String>(go::run_spec(command)),
            Some(Command::Template { template }) => r == Ok::<Action, String>(template::run_spec(template)),
            None => true,
        },
{
    if app.version {
        return Ok(Action::PrintVersion);
    }
    match app.command {
        Some(Command::Api { api }) => api::run(api),
        Some(Command::Rs { command }) => Ok(rs::run(command)),
        Some(Command::Go { command }) => Ok(go::run(command)),
        Some(Command::Template { template }) => Ok(template::run(template)),
        None => Ok(Action::PrintHelp),
    }
}

} // verus!
