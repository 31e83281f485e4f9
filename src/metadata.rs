//! The raw inputs: package records as the package manager reports them, and
//! the resolved dependency edges.

use vstd::prelude::*;

verus! {

/// The section a dependency is declared in.
#[derive(Clone, Copy, Debug, PartialEq, Eq, Structural)]
pub enum DependencyKind {
    Normal,
    Development,
    Build,
    Unknown,
}

/// One dependency declaration of a manifest.
#[derive(Debug)]
pub struct Dependency {
    pub name: String,
    pub rename: Option<String>,
    /// The version requirement, as written.
    pub req: String,
    pub kind: DependencyKind,
    /// The platform condition (`cfg(...)` or a target triple), if any.
    pub target: Option<String>,
    pub optional: bool,
    pub uses_default_features: bool,
    pub features: Vec<String>,
}

/// One compilation target of a package.
#[derive(Debug)]
pub struct Target {
    pub name: String,
    pub kind: Vec<String>,
    pub crate_types: Vec<String>,
    pub required_features: Vec<String>,
    pub src_path: String,
    pub edition: String,
    pub doctest: bool,
}

/// One package record.
#[derive(Debug)]
pub struct Package {
    pub name: String,
    pub version: String,
    pub id: String,
    /// The source descriptor; `None` for a local path package.
    pub source: Option<String>,
    pub manifest_path: String,
    pub dependencies: Vec<Dependency>,
    pub targets: Vec<Target>,
    /// Named features, each with its list of feature-dependency strings.
    pub features: Vec<(String, Vec<String>)>,
    /// The registries the package may be published to; `None` for any.
    pub publish: Option<Vec<String>>,
    pub edition: String,
    pub rust_version: Option<String>,
}

/// A context in which a resolved edge is active.
#[derive(Debug)]
pub struct DepKindInfo {
    pub kind: DependencyKind,
    pub target: Option<String>,
}

/// A resolved edge out of a package.
#[derive(Debug)]
pub struct NodeDep {
    /// The resolved symbol name.
    pub name: String,
    /// The id of the package depended on.
    pub pkg: String,
    pub dep_kinds: Vec<DepKindInfo>,
}

/// The resolved edges out of one package.
#[derive(Debug)]
pub struct Node {
    pub id: String,
    pub deps: Vec<NodeDep>,
}

/// Everything a graph is built from.
#[derive(Debug)]
pub struct Metadata {
    pub packages: Vec<Package>,
    /// The resolved graph; `None` where it was not computed.
    pub resolve: Option<Vec<Node>>,
    pub workspace_members: Vec<String>,
    pub workspace_default_members: Vec<String>,
    pub workspace_root: String,
    pub target_directory: String,
}

pub open spec fn str_views(v: Seq<String>) -> Seq<Seq<char>> {
    v.map_values(|s: String| s@)
}

} // verus!
