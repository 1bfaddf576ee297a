//! Models of the configuration documents: a package's own manifest in its
//! application and library shapes, the project-level vendor descriptor,
//! and the normalized manifest form the reconciliation engine consumes.

use crate::version::{DependencyVersion, SemVer};
use vstd::prelude::*;
use vstd::string::StringExecFns;

verus! {

/// Whether a manifest describes an application (exact version pins) or a
/// package (constraints).
#[derive(Clone, Copy, Debug, PartialEq, Eq, Structural)]
pub enum ElmJsonKind {
    Application,
    Package,
}

/// The dependency section of a manifest: applications pin exact versions,
/// packages declare constraints.
pub enum ElmJsonDeps {
    Application { direct: Vec<(String, SemVer)> },
    Package(Vec<(String, DependencyVersion)>),
}

/// A package's manifest: its source directories and its dependency
/// section. Passthrough fields live with the reader, not here.
pub struct ElmJson {
    pub source_dirs: Vec<String>,
    pub dependencies: ElmJsonDeps,
}

/// The project-level vendor descriptor: the main project's own constraints
/// and source directories, and the identifiers of the vendored packages in
/// declared order.
pub struct ElmVendor {
    pub main_deps: Vec<(String, DependencyVersion)>,
    pub source_dirs: Vec<String>,
    pub vendored: Vec<String>,
    pub kind: ElmJsonKind,
}

/// A manifest reduced to the parts reconciliation cares about, with an
/// application's exact pins read as exact-version constraints.
pub struct NormalizedElmJson {
    pub kind: ElmJsonKind,
    pub source_dirs: Vec<String>,
    pub dependencies: Vec<(String, DependencyVersion)>,
}

impl ElmJson {
    /// Normalizes the manifest: an application's pins become exact-version
    /// constraints, a package's constraints are kept as they are.
    pub fn normalize(self) -> (r: NormalizedElmJson)
        ensures
            r.source_dirs == self.source_dirs,
            (self.dependencies matches ElmJsonDeps::Application { direct } ==> {
                &&& r.kind == ElmJsonKind::Application
                &&& r.dependencies@.len() == direct@.len()
                &&& forall|k: int|
                    0 <= k < direct@.len() ==> (#[trigger] r.dependencies@[k]).0 == direct@[k].0
                        && r.dependencies@[k].1 == DependencyVersion::SpecificVersion(
                        direct@[k].1,
                    )
            }),
            (self.dependencies matches ElmJsonDeps::Package(deps) ==> r.kind
                == ElmJsonKind::Package && r.dependencies == deps),
    {
        match self.dependencies {
            ElmJsonDeps::Application { direct } => {
                let ghost orig = direct@;
                let mut todo = direct;
                let mut deps: Vec<(String, DependencyVersion)> = Vec::new();
                while todo.len() > 0
                    invariant
                        orig.len() == deps@.len() + todo@.len(),
                        todo@ == orig.skip(deps@.len() as int),
                        forall|k: int|
                            0 <= k < deps@.len() ==> (#[trigger] deps@[k]).0 == orig[k].0
                                && deps@[k].1 == DependencyVersion::SpecificVersion(orig[k].1),
                    decreases todo@.len(),
                {
                    let ghost pre = todo@;
                    let (name, ver) = todo.remove(0);
                    proof {
                        assert(pre[0] == orig[deps@.len() as int]);
                        assert(pre.remove(0) =~= orig.skip(deps@.len() as int + 1));
                    }
                    deps.push((name, DependencyVersion::SpecificVersion(ver)));
                }
                NormalizedElmJson {
                    kind: ElmJsonKind::Application,
                    source_dirs: self.source_dirs,
                    dependencies: deps,
                }
            },
            ElmJsonDeps::Package(deps) => NormalizedElmJson {
                kind: ElmJsonKind::Package,
                source_dirs: self.source_dirs,
                dependencies: deps,
            },
        }
    }
}

/// Whether a dependency map pins the lamdera core package, which marks a
/// lamdera project.
pub fn is_lamdera_project<V>(deps: &Vec<(String, V)>) -> (r: bool)
    ensures
        r == exists|i: int| 0 <= i < deps@.len() && (#[trigger] deps@[i]).0@ == "lamdera/core"@,
{
    let key: String = String::from_str("lamdera/core");
    let mut i: usize = 0;
    while i < deps.len()
        invariant
            i <= deps@.len(),
            key@ == "lamdera/core"@,
            forall|k: int| 0 <= k < i ==> (#[trigger] deps@[k]).0@ != "lamdera/core"@,
        decreases deps@.len() - i,
    {
        if deps[i].0 == key {
            return true;
        }
        i += 1;
    }
    false
}

} // verus!
