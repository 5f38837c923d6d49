//! `template` commands: install, clean or update the built-in templates.
use vstd::prelude::*;

use crate::rsctl::cli::Action;

verus! {

/// The template commands.
#[derive(Clone, Copy, Debug, PartialEq, Eq)]
pub enum Template {
    /// Install the templates of this version under the user's directory.
    Init,
    /// Remove the templates of this version.
    Clean,
    /// Install the templates of this version again, replacing them.
    Update,
}

pub open spec fn run_spec(cmd: Template) -> Action {
    match cmd {
        Template::Init => Action::TemplateInit { overwrite: false },
        Template::Clean => Action::TemplateClean,
        Template::Update => Action::TemplateInit { overwrite: true },
    }
}

/// The action of a template command: updating is installing over an
/// existing copy.
pub fn run(cmd: Template) -> (a: Action)
    ensures
        a == run_spec(cmd),
{
    match cmd {
        Template::Init => Action::TemplateInit { overwrite: false },
        Template::Clean => Action::TemplateClean,
        Template::Update => Action::TemplateInit { overwrite: true },
    }
}

/// What installing the templates does with the version's directory.
#[derive(Clone, Copy, Debug, PartialEq, Eq, Structural)]
pub enum InstallStep {
    /// The directory exists and is kept as it is.
    KeepExisting,
    /// The directory exists and is removed before installing.
    ReplaceExisting,
    /// The directory is created and the templates are written into it.
    Install,
}

/// An existing directory is kept unless `overwrite` is set, in which case
/// it is replaced; a missing one is installed.
pub fn install_step(exists: bool, overwrite: bool) -> (s: InstallStep)
    ensures
        exists && !overwrite ==> s == InstallStep::KeepExisting,
        exists && overwrite ==> s == InstallStep::ReplaceExisting,
        !exists ==> s == InstallStep::Install,
{
    if exists && !overwrite {
        InstallStep::KeepExisting
    } else if exists {
        InstallStep::ReplaceExisting
    } else {
        InstallStep::Install
    }
}

} // verus!
