//! Small application-level helpers: the runtime environment, its
//! per-environment data directory, and the metadata attached to an
//! operator-facing log line.

use vstd::prelude::*;
use vstd::string::StringExecFns;

verus! {

/// Which environment the application runs in.
#[derive(Clone, Copy, Debug, PartialEq, Eq, Structural)]
pub enum Environment {
    Dev,
    E2E,
    Release,
}

/// Metadata attached to an operator-facing log line.
#[derive(Clone, Debug, PartialEq)]
pub struct Extras {
    pub kafka_service_id: Option<String>,
}

/// The per-environment subdirectory name.
pub open spec fn spec_env_dir(env: Environment) -> Seq<char> {
    match env {
        Environment::Dev => "/dev"@,
        Environment::E2E => "/e2e"@,
        Environment::Release => "/release"@,
    }
}

/// The application data directory for one environment: the base directory
/// with the environment's subdirectory appended.
pub fn get_app_dir_with_env(app_dir: &str, env: &Environment) -> (r: String)
    ensures
        r@ == app_dir@ + spec_env_dir(*env),
{
    let base = String::from_str(app_dir);
    match env {
        Environment::Dev => base.concat("/dev"),
        Environment::E2E => base.concat("/e2e"),
        Environment::Release => base.concat("/release"),
    }
}

} // verus!
