//! The linker's data shapes: package instances bound for the project tree,
//! install modes and outcomes. The filesystem work happens outside the
//! library; the plan and its bookkeeping live here.

use vstd::prelude::*;

verus! {

use crate::smap::StrMap;

/// A resolved package bound for the project tree.
pub struct PackageInstance {
    pub name: String,
    pub version: String,
    pub dependencies: StrMap<String>,
    pub optional_dependencies: StrMap<String>,
    pub peer_dependencies: StrMap<String>,
    pub dev_dependencies: StrMap<String>,
    /// A workspace directory the instance is drawn from, when not cached.
    pub source: Option<String>,
}

/// How a package reaches the project tree.
#[derive(Clone, Copy, PartialEq, Eq, Structural, Debug)]
pub enum InstallMode {
    Link,
    Copy,
}

/// One package of the install plan.
pub struct InstallPlanEntry {
    pub package: PackageInstance,
    pub store_entry: crate::store::StoreEntry,
}

/// What happened to one package.
pub struct InstallOutcome {
    pub package_name: String,
    pub link_mode: InstallMode,
}

/// The installer configuration.
pub struct Installer {
    pub mode: InstallMode,
}

impl Installer {
    pub fn new(mode: InstallMode) -> (r: Self)
        ensures
            r.mode == mode,
    {
        Installer { mode }
    }
}

/// The project-level linker configuration.
pub struct Linker {
    pub virtual_dir_name: String,
}

impl Linker {
    /// The default private facade directory name.
    pub fn new() -> (r: Self)
        ensures
            r.virtual_dir_name@ == ".pacm"@,
    {
        Linker { virtual_dir_name: String::from_str(".pacm") }
    }
}

/// A workspace package discovered under the project root.
pub struct WorkspaceInfo {
    pub name: String,
    pub version: String,
    pub dir: String,
    pub manifest_path: String,
    pub manifest: crate::manifest::Manifest,
    pub relative_path: String,
}

} // verus!
