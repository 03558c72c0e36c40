//! Where the configuration file lives, and what it holds.

use vstd::prelude::*;
use std::path::{Path, PathBuf};

verus! {

#[verifier::external_type_specification]
#[verifier::external_body]
pub struct ExPathBuf(PathBuf);

#[verifier::external_type_specification]
#[verifier::external_body]
pub struct ExPath(Path);

pub assume_specification[ PathBuf::as_path ](p: &PathBuf) -> &Path;

/// The settings a configuration file may give.
pub struct ConfigFileModel {
    pub db_path: Option<String>,
    pub github_token: Option<String>,
}

impl Default for ConfigFileModel {
    fn default() -> (r: Self)
        ensures
            r.db_path is None,
            r.github_token is None,
    {
        ConfigFileModel { db_path: None, github_token: None }
    }
}

/// Relies on `dirs::config_dir`: the platform's configuration directory. It
/// depends on the platform and the environment, so nothing is promised of it.
#[verifier::external_body]
fn config_dir() -> (r: Option<PathBuf>) {
    dirs::config_dir()
}

/// Relies on `Path::join`: `p` with `part` appended; nothing is stated of
/// the path it makes.
#[verifier::external_body]
fn join_path(p: &PathBuf, part: &str) -> (r: PathBuf) {
    p.join(part)
}

/// This tool's configuration file in the platform's configuration directory.
fn default_config_path() -> (r: Option<PathBuf>) {
    match config_dir() {
        Some(dir) => Some(join_path(&join_path(&dir, "aur-mirror-meta"), "config.toml")),
        None => None,
    }
}

/// Where the configuration file is looked for.
pub struct Config {
    config_path: Option<PathBuf>,
}

impl View for Config {
    type V = Option<PathBuf>;

    closed spec fn view(&self) -> Option<PathBuf> {
        self.config_path
    }
}

impl Config {
    /// A configuration read from `config_path`, or from the platform's
    /// default place where none is given.
    pub fn new(config_path: Option<PathBuf>) -> (r: Config)
        ensures
            config_path is Some ==> r@ == config_path,
    {
        match config_path {
            Some(p) => Config { config_path: Some(p) },
            None => Config { config_path: default_config_path() },
        }
    }

    /// The path of the configuration file, where one is known.
    pub fn config_path(&self) -> (r: Option<&Path>)
        ensures
            r is Some <==> self@ is Some,
    {
        match &self.config_path {
            Some(p) => Some(p.as_path()),
            None => None,
        }
    }
}

} // verus!
