//! The project manifest: name, version, the four dependency sections and the
//! workspace patterns.

use vstd::prelude::*;

verus! {

use crate::smap::StrMap;

pub struct Manifest {
    pub name: String,
    pub version: String,
    pub dependencies: StrMap<String>,
    pub dev_dependencies: StrMap<String>,
    pub optional_dependencies: StrMap<String>,
    pub peer_dependencies: StrMap<String>,
    /// Workspace glob patterns from the manifest, in declaration order.
    pub workspaces: Vec<String>,
}

impl Manifest {
    pub open spec fn wf(self) -> bool {
        &&& self.dependencies.wf()
        &&& self.dev_dependencies.wf()
        &&& self.optional_dependencies.wf()
        &&& self.peer_dependencies.wf()
    }

    pub fn new(name: String, version: String) -> (r: Self)
        ensures
            r.wf(),
            r.name@ == name@,
            r.version@ == version@,
            r.dependencies.spec_len() == 0,
            r.dev_dependencies.spec_len() == 0,
            r.optional_dependencies.spec_len() == 0,
            r.peer_dependencies.spec_len() == 0,
            r.workspaces@.len() == 0,
    {
        Manifest {
            name,
            version,
            dependencies: StrMap::new(),
            dev_dependencies: StrMap::new(),
            optional_dependencies: StrMap::new(),
            peer_dependencies: StrMap::new(),
            workspaces: Vec::new(),
        }
    }
}

} // verus!
