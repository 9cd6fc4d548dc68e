//! The command surface as plain data: the program around the library parses
//! arguments into these shapes and dispatches on them.

use vstd::prelude::*;

verus! {

/// Install flags.
#[derive(Clone, Copy, PartialEq, Eq, Structural, Debug)]
pub struct InstallFlags {
    pub dev: bool,
    pub optional: bool,
    pub no_save: bool,
    pub exact: bool,
    pub prefer_offline: bool,
    pub no_progress: bool,
    pub link: bool,
    pub copy: bool,
}

pub enum Commands {
    Init { name: Option<String>, version: Option<String> },
    Remove { packages: Vec<String> },
    Install { packages: Vec<String>, flags: InstallFlags },
    Add { package: String, flags: InstallFlags },
    List,
    Cache { cache: CacheCmd },
    Pm { pm: PmCmd },
    Scripts { scripts: ScriptsCmd },
    Run { args: Vec<String> },
}

pub enum CacheCmd {
    Path,
    Clean,
}

pub enum PmCmd {
    Lockfile { format: String, out: Option<String> },
    Prune,
}

pub enum ScriptsCmd {
    Run { packages: Vec<String>, all: bool, ignore_scripts: bool, yes: bool, per_package: bool },
}

/// The parsed invocation.
pub struct PacmCli {
    pub command: Option<Commands>,
}

impl PacmCli {
    /// An invocation with no verb asks for the help text.
    pub fn wants_help(&self) -> (r: bool)
        ensures
            r == (self.command is None),
    {
        self.command.is_none()
    }
}

} // verus!
