//! `rs` commands: the Rust generators.
use vstd::prelude::*;

use crate::rsctl::cli::model::Model;
use crate::rsctl::cli::Action;

pub mod api;

verus! {

/// The Rust commands.
#[derive(Clone, Debug)]
pub enum Command {
    /// Model code.
    Model { model: Model },
}

pub open spec fn run_spec(cmd: Command) -> Action {
    match cmd {
        Command::Model { model } => crate::rsctl::cli::model::run_spec(model),
    }
}

/// The action of a Rust command.
pub fn run(cmd: Command) -> (a: Action)
    ensures
        a == run_spec(cmd),
{
    match cmd {
        Command::Model { model } => crate::rsctl::cli::model::run(model),
    }
}

} // verus!
