//! `rs model` commands: model code for a database.
use vstd::prelude::*;

use crate::rsctl::cli::Action;

verus! {

/// The model commands.
#[derive(Clone, Debug)]
pub enum Model {
    /// Model code for MySQL.
    Mysql(MysqlArgs),
    /// Model code for PostgreSQL.
    Pg(PgArgs),
}

/// Arguments of `rs model mysql`.
#[derive(Clone, Debug)]
pub struct MysqlArgs {
    /// Generate code with cache.
    pub cache: bool,
    /// The target directory.
    pub dir: String,
    /// Template source: a git/http URL, a local directory, or the default.
    pub remote: Option<String>,
    /// The file naming style.
    pub style: Option<String>,
}

/// Arguments of `rs model pg`.
#[derive(Clone, Debug)]
pub struct PgArgs {
    /// Generate code with cache.
    pub cache: bool,
    /// The target directory.
    pub dir: String,
    /// Template source: a git/http URL, a local directory, or the default.
    pub remote: Option<String>,
    /// The file naming style.
    pub style: Option<String>,
}

/// The options handed to a model generator.
#[derive(Clone, Debug)]
pub struct ModelOptions {
    pub out_dir: String,
    pub cache: bool,
    pub style: Option<String>,
    pub remote: Option<String>,
}

pub open spec fn run_spec(model: Model) -> Action {
    match model {
        Model::Mysql(a) => Action::ModelMysql(ModelOptions { out_dir: a.dir, cache: a.cache, style: a.style, remote: a.remote }),
        Model::Pg(a) => Action::ModelPg(ModelOptions { out_dir: a.dir, cache: a.cache, style: a.style, remote: a.remote }),
    }
}

/// The action of a model command: its arguments as generator options.
pub fn run(model: Model) -> (a: Action)
    ensures
        a == run_spec(model),
{
    match model {
        Model::Mysql(a) => Action::ModelMysql(ModelOptions { out_dir: a.dir, cache: a.cache, style: a.style, remote: a.remote }),
        Model::Pg(a) => Action::ModelPg(ModelOptions { out_dir: a.dir, cache: a.cache, style: a.style, remote: a.remote }),
    }
}

} // verus!
