//! `go` commands: the Go generators.
use vstd::prelude::*;

use crate::rsctl::cli::Action;
use crate::rsctl::pipeline::go::Options;

pub mod api;

verus! {

/// The Go commands.
#[derive(Clone, Debug)]
pub enum Command {
    /// API scaffold.
    Api(api::ApiArgs),
}

pub open spec fn run_spec(cmd: Command) -> Action {
    match cmd {
        Command::Api(a) => Action::GoApi(
            Options { out_dir: a.dir, api_file: a.api, style: a.style, remote: a.remote, overwrite: a.overwrite, web: a.web },
        ),
    }
}

/// The action of a Go command: its arguments as pipeline options.
pub fn run(cmd: Command) -> (a: Action)
    ensures
        a == run_spec(cmd),
{
    match cmd {
        Command::Api(a) => Action::GoApi(
            Options { out_dir: a.dir, api_file: a.api, style: a.style, remote: a.remote, overwrite: a.overwrite, web: a.web },
        ),
    }
}

} // verus!
