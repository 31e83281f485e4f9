//! The package graph: one node per package, one link per ordered package pair
//! that a resolved edge joins, and the workspace index.

use vstd::prelude::*;
use crate::errors::Error;
use crate::features::{NamedFeatureDep, named_features, optional_names, feature_table, table_map, names_distinct, bad_upto};
use crate::matcher::{
    PackageData, PackageLink, candidates_ok, find_candidates, matching_declarations, matching_indices,
    merge_link, link_result, picked, fault, lemma_matching_in_range, NameIndex, index_ok,
};
use crate::metadata::{Metadata, Package, NodeDep, Dependency};
use crate::paths::{
    path_strip_prefix, path_parent, path_components, push_all, find_relative_components, relative_path,
    strip_prefix, parent, find_relative_path_utf8, convert_forward_slashes, resolve_relative_path,
};
use crate::targets::{
    BuildTarget, ResolvedName, classify_all, classify_targets, entry_of, ids_distinct,
    lemma_classified_wf, resolved_name, resolved_name_of, TargetErrorView,
};
use crate::text::{replace_char, str_eq, opt_view, views_of, clone_opt, clone_strings, lex_le, lex_le_exec, lemma_lex_total, lemma_lex_trans, lemma_lex_refl, lemma_lex_antisym};

verus! {

/// Where a package comes from.
#[derive(Debug, PartialEq, Eq)]
pub enum PackageSource {
    /// A workspace member, with its directory relative to the workspace root.
    Workspace(String),
    /// The default registry.
    CratesIo,
    /// Another registry or source, with its source string.
    External(String),
    /// A local path package, with its directory relative to the workspace
    /// root where one can be found, else absolute.
    Path(String),
}

/// Where a package may be published.
#[derive(Debug)]
pub enum PackagePublish {
    Unrestricted,
    Registries(Vec<String>),
}

/// A package of the graph.
#[derive(Debug)]
pub struct PackageMetadata {
    pub id: String,
    pub name: String,
    pub version: String,
    pub manifest_path: String,
    pub edition: String,
    pub rust_version: Option<String>,
    pub publish: PackagePublish,
    pub source: PackageSource,
    pub build_targets: Vec<BuildTarget>,
    pub resolved_name: ResolvedName,
    /// The optional dependencies, by the name features use for them.
    pub optional_deps: Vec<String>,
    /// Named features, explicit and implicit, each with what it turns on.
    pub named_features: Vec<(String, Vec<NamedFeatureDep>)>,
    pub has_default_feature: bool,
}

/// The source string of the default registry.
pub open spec fn crates_io() -> Seq<char> {
    "registry+https://github.com/rust-lang/crates.io-index"@
}

/// The first package with id `id`.
#[verifier::opaque]
pub open spec fn index_of_id(pkgs: Seq<Package>, id: Seq<char>) -> Option<int> {
    if exists|i: int| 0 <= i < pkgs.len() && pkgs[i].id@ == id {
        Some(choose|i: int| 0 <= i < pkgs.len() && pkgs[i].id@ == id && forall|j: int| 0 <= j < i ==> pkgs[j].id@ != id)
    } else {
        None
    }
}

/// The resolved edges out of the package with id `id`: those of the first
/// node with that id, none where the graph was not resolved.
#[verifier::opaque]
pub open spec fn node_deps(meta: Metadata, id: Seq<char>) -> Seq<NodeDep> {
    match meta.resolve {
        None => Seq::empty(),
        Some(nodes) => if exists|i: int| 0 <= i < nodes@.len() && nodes@[i].id@ == id {
            nodes@[choose|i: int| 0 <= i < nodes@.len() && nodes@[i].id@ == id && forall|j: int| 0 <= j < i ==> nodes@[j].id@ != id].deps@
        } else {
            Seq::empty()
        },
    }
}

/// Whether `id` is among the workspace members.
pub open spec fn is_member(meta: Metadata, id: Seq<char>) -> bool {
    exists|i: int| 0 <= i < meta.workspace_members@.len() && meta.workspace_members@[i]@ == id
}

/// A member's directory relative to the workspace root: its manifest's
/// directory with the root taken off, or, where the manifest is not under the
/// root, the best-effort relative path; with forward slashes.
pub open spec fn workspace_rel(manifest: Seq<char>, root: Seq<char>) -> Option<Seq<char>> {
    let rel = match path_strip_prefix(manifest, root) {
        Some(s) => s,
        None => push_all(find_relative_components(path_components(root), path_components(manifest))),
    };
    match path_parent(rel) {
        Some(p) => Some(replace_char(p, '\\', '/')),
        None => None,
    }
}

/// A path package's directory relative to the workspace root, or as it is
/// where no relative path relates them.
pub open spec fn path_source(dir: Seq<char>, root: Seq<char>) -> Seq<char> {
    match relative_path(dir, root) {
        Some(r) => r,
        None => dir,
    }
}

/// What a source descriptor says.
pub open spec fn source_ok(meta: Metadata, p: Package, s: PackageSource) -> bool {
    if is_member(meta, p.id@) {
        s is Workspace && workspace_rel(p.manifest_path@, meta.workspace_root@) == Some(s->Workspace_0@)
    } else {
        match p.source {
            Some(src) => if src@ == crates_io() {
                s is CratesIo
            } else {
                s is External && s->External_0@ == src@
            },
            None => s is Path && path_parent(p.manifest_path@) is Some && s->Path_0@ == path_source(
                path_parent(p.manifest_path@)->Some_0,
                meta.workspace_root@,
            ),
        }
    }
}

/// Whether some named feature is called `default`.
pub open spec fn has_default(fs: Seq<(String, Vec<String>)>) -> bool {
    exists|i: int| 0 <= i < fs.len() && fs[i].0@ == "default"@
}

/// The matching information of a package of the graph.
pub open spec fn data_of(p: PackageMetadata) -> PackageData {
    PackageData { name: p.name, version: p.version, resolved_name: p.resolved_name }
}

pub open spec fn datas(ps: Seq<PackageMetadata>) -> Seq<PackageData> {
    ps.map_values(|p: PackageMetadata| data_of(p))
}

/// A package of the graph is what its record says.
pub open spec fn package_ok(meta: Metadata, p: Package, m: PackageMetadata) -> bool {
    &&& m.id@ == p.id@
    &&& m.name@ == p.name@
    &&& m.version@ == p.version@
    &&& m.manifest_path@ == p.manifest_path@
    &&& m.edition@ == p.edition@
    &&& opt_view(m.rust_version) == opt_view(p.rust_version)
    &&& (match p.publish {
        None => m.publish is Unrestricted,
        Some(r) => m.publish is Registries && m.publish->Registries_0@ == r@,
    })
    &&& source_ok(meta, p, m.source)
    &&& classify_all(p.targets@) == Ok::<_, TargetErrorView>(m.build_targets@.map_values(|b: BuildTarget| entry_of(b)))
    &&& ids_distinct(m.build_targets@)
    &&& m.resolved_name@ == resolved_name_of(p.name@, m.build_targets@)
    &&& views_of(m.optional_deps@) == optional_names(p.dependencies@)
    &&& names_distinct(m.named_features@)
    &&& table_map(m.named_features@) == feature_table(p.features@, optional_names(p.dependencies@))
    &&& !bad_upto(p.features@, p.features@.len() as int, 0, optional_names(p.dependencies@))
    &&& m.has_default_feature == has_default(p.features@)
}

/// The declarations of package `from` that explain its resolved edge `e` to
/// the package at `to`.
pub open spec fn edge_decls(decls: Seq<Dependency>, data: Seq<PackageData>, e: NodeDep, to: int) -> Seq<Dependency> {
    picked(decls, matching_indices(decls, data, e.name@, data[to], e.dep_kinds@, decls.len() as int))
}


/// The package that the resolved edge `k` of package `j` leads to.
#[verifier::opaque]
pub open spec fn edge_target(meta: Metadata, j: int, k: int) -> Option<int> {
    index_of_id(meta.packages@, node_deps(meta, meta.packages@[j].id@)[k].pkg@)
}

/// The declarations of package `j` that explain its resolved edge `k`.
#[verifier::opaque]
pub open spec fn decls_for_edge(meta: Metadata, data: Seq<PackageData>, j: int, k: int) -> Seq<Dependency> {
    let p = meta.packages@[j];
    edge_decls(p.dependencies@, data, node_deps(meta, p.id@)[k], edge_target(meta, j, k)->Some_0)
}

/// The resolved edge `k` of package `j` leads to a package, and is explained
/// by at least one declaration, none of them faulty.
#[verifier::opaque]
pub open spec fn edge_ok(meta: Metadata, data: Seq<PackageData>, j: int, k: int) -> bool {
    &&& edge_target(meta, j, k) is Some
    &&& decls_for_edge(meta, data, j, k).len() > 0
    &&& forall|i: int| 0 <= i < decls_for_edge(meta, data, j, k).len() ==> !fault(#[trigger] decls_for_edge(meta, data, j, k)[i])
}

/// `l` is the merge of the declarations explaining the resolved edge `k` of package `j`.
#[verifier::opaque]
pub open spec fn link_for_edge(meta: Metadata, data: Seq<PackageData>, j: int, k: int, l: PackageLink) -> bool {
    let e = node_deps(meta, meta.packages@[j].id@)[k];
    &&& edge_target(meta, j, k) is Some
    &&& link_result(Ok(l), decls_for_edge(meta, data, j, k), j as usize, edge_target(meta, j, k)->Some_0 as usize, e.name@)
}

/// No resolved edge of package `j` after `k` and before `upto` leads to `t`.
pub open spec fn last_to(meta: Metadata, j: int, k: int, t: int, upto: int) -> bool {
    forall|kk: int| k < kk < upto ==> edge_target(meta, j, kk) != Some(t)
}

/// The number of resolved edges of package `j`.
#[verifier::opaque]
pub open spec fn n_edges(meta: Metadata, j: int) -> int {
    node_deps(meta, meta.packages@[j].id@).len() as int
}

/// Each link is the merge for the last resolved edge between its two packages.
pub open spec fn link_from_edges(meta: Metadata, data: Seq<PackageData>, l: PackageLink, upto: int) -> bool {
    exists|k: int| 0 <= k < upto && link_for_edge(meta, data, l.from as int, k, l) && last_to(meta, l.from as int, k, l.to as int, upto)
}

/// The graph is what the metadata describes.
pub open spec fn graph_ok(meta: Metadata, g: PackageGraph) -> bool {
    let n = meta.packages@.len();
    let data = datas(g.packages@);
    &&& g.packages@.len() == n
    &&& forall|j: int| 0 <= j < n ==> package_ok(meta, meta.packages@[j], #[trigger] g.packages@[j])
    &&& forall|j: int, k: int| #![trigger edge_ok(meta, data, j, k)] 0 <= j < n && 0 <= k < n_edges(meta, j) ==> edge_ok(meta, data, j, k)
    &&& forall|j: int, k: int| #![trigger edge_target(meta, j, k)] 0 <= j < n && 0 <= k < n_edges(meta, j) ==> has_link_to(g.links@, j, edge_target(meta, j, k))
    &&& forall|m: int| 0 <= m < g.links@.len() ==> {
        &&& g.links@[m].from < n
        &&& link_from_edges(meta, data, #[trigger] g.links@[m], n_edges(meta, g.links@[m].from as int))
    }
    &&& forall|m1: int, m2: int| 0 <= m1 < m2 < g.links@.len() ==> !(g.links@[m1].from == g.links@[m2].from && g.links@[m1].to == g.links@[m2].to)
    &&& workspace_ok(meta, g.packages@, g.workspace)
}

/// In a built graph every resolved edge leads to a package and is explained
/// by at least one manifest declaration: metadata with a resolved edge that no
/// declaration explains does not build.
pub proof fn lemma_every_edge_explained(meta: Metadata, g: PackageGraph, j: int, k: int)
    requires
        graph_ok(meta, g),
        0 <= j < meta.packages@.len(),
        0 <= k < n_edges(meta, j),
    ensures
        edge_target(meta, j, k) is Some,
        decls_for_edge(meta, datas(g.packages@), j, k).len() > 0,
{
    reveal(edge_ok);
    assert(edge_ok(meta, datas(g.packages@), j, k));
}

/// In a built graph no declaration that explains a resolved edge is a
/// dev-dependency marked optional: metadata where one is does not build.
pub proof fn lemma_no_optional_dev_dependency(meta: Metadata, g: PackageGraph, j: int, k: int, i: int)
    requires
        graph_ok(meta, g),
        0 <= j < meta.packages@.len(),
        0 <= k < n_edges(meta, j),
        0 <= i < decls_for_edge(meta, datas(g.packages@), j, k).len(),
    ensures
        !crate::matcher::optional_dev(decls_for_edge(meta, datas(g.packages@), j, k)[i]),
{
    reveal(edge_ok);
    assert(edge_ok(meta, datas(g.packages@), j, k));
    assert(!fault(decls_for_edge(meta, datas(g.packages@), j, k)[i]));
}

/// The workspace index is what the metadata describes: every member is
/// indexed, by its directory, and no two share a name.
pub open spec fn workspace_ok(meta: Metadata, packages: Seq<PackageMetadata>, w: Workspace) -> bool {
    &&& w.root@ == meta.workspace_root@
    &&& w.target_directory@ == meta.target_directory@
    &&& forall|i: int| 0 <= i < meta.workspace_members@.len() ==> indexes(packages, w.members@, #[trigger] meta.workspace_members@[i]@)
    &&& forall|m: int| 0 <= m < w.members@.len() ==> {
        &&& (#[trigger] w.members@[m]).1 < packages.len()
        &&& is_member(meta, packages[w.members@[m].1 as int].id@)
        &&& index_of_id(meta.packages@, packages[w.members@[m].1 as int].id@) == Some(w.members@[m].1 as int)
        &&& packages[w.members@[m].1 as int].source is Workspace
        &&& w.members@[m].0@ == packages[w.members@[m].1 as int].source->Workspace_0@
    }
    &&& forall|m1: int, m2: int| 0 <= m1 < m2 < w.members@.len() ==> packages[w.members@[m1].1 as int].name@
        != packages[w.members@[m2].1 as int].name@
    &&& forall|m1: int, m2: int| 0 <= m1 < m2 < w.members@.len() ==> lex_le(w.members@[m1].0@, w.members@[m2].0@)
    &&& forall|m: int| 0 <= m < w.default_members@.len() ==> has_member_index(w.members@, #[trigger] w.default_members@[m])
    &&& forall|i: int| 0 <= i < meta.workspace_default_members@.len() ==> is_member(meta, #[trigger] meta.workspace_default_members@[i]@)
}

/// Why the workspace cannot be indexed: a member id with no package, two
/// members with the same name, or a default member that is no member.
pub open spec fn workspace_fault(meta: Metadata) -> bool {
    let pkgs = meta.packages@;
    ||| exists|i: int| 0 <= i < meta.workspace_members@.len() && index_of_id(pkgs, #[trigger] meta.workspace_members@[i]@) is None
    ||| exists|a: int, b: int| 0 <= a < pkgs.len() && 0 <= b < pkgs.len() && a != b
        && is_member(meta, pkgs[a].id@) && is_member(meta, pkgs[b].id@)
        && index_of_id(pkgs, pkgs[a].id@) == Some(a) && index_of_id(pkgs, pkgs[b].id@) == Some(b)
        && #[trigger] pkgs[a].name@ == #[trigger] pkgs[b].name@
    ||| exists|i: int| 0 <= i < meta.workspace_default_members@.len() && !is_member(meta, #[trigger] meta.workspace_default_members@[i]@)
}

/// Some member entry is the package with id `id`.
pub open spec fn indexes(packages: Seq<PackageMetadata>, members: Seq<(String, usize)>, id: Seq<char>) -> bool {
    exists|m: int| 0 <= m < members.len() && members[m].1 < packages.len() && packages[members[m].1 as int].id@ == id
}

/// Some member entry has the package index `ix`.
pub open spec fn has_member_index(members: Seq<(String, usize)>, ix: usize) -> bool {
    exists|q: int| 0 <= q < members.len() && members[q].1 == ix
}

/// The workspace: its root, target directory, members by directory, and
/// default members.
#[derive(Debug)]
pub struct Workspace {
    pub root: String,
    pub target_directory: String,
    /// Each member's directory relative to the root, with the member's index.
    pub members: Vec<(String, usize)>,
    /// The indices of the default members.
    pub default_members: Vec<usize>,
}

/// A package graph.
#[derive(Debug)]
pub struct PackageGraph {
    pub packages: Vec<PackageMetadata>,
    pub links: Vec<PackageLink>,
    pub workspace: Workspace,
}


/// The index of the first package with id `id`, found through the id index.
fn index_of(ids: &IdIndex, pkgs: &Vec<Package>, id: &str) -> (r: Option<usize>)
    requires
        id_index_ok(package_keys(pkgs@), ids.entries@),
    ensures
        match r {
            Some(i) => index_of_id(pkgs@, id@) == Some(i as int) && i < pkgs@.len() && pkgs@[i as int].id@ == id@,
            None => index_of_id(pkgs@, id@) is None,
        },
{
    let r = ids.first_with(id, Ghost(package_keys(pkgs@)));
    proof {
        reveal(index_of_id);
        let keys = package_keys(pkgs@);
        assert forall|i: int| 0 <= i < pkgs@.len() implies keys[i] == pkgs@[i].id@ by {}
        match r {
            Some(j) => {
                assert(keys[j as int] == id@);
                assert forall|i: int| 0 <= i < j implies pkgs@[i].id@ != id@ by {
                    assert(keys[i] != id@);
                }
                assert(0 <= j < pkgs@.len() && pkgs@[j as int].id@ == id@);
                let c = choose|c: int| 0 <= c < pkgs@.len() && pkgs@[c].id@ == id@ && forall|i: int| 0 <= i < c ==> pkgs@[i].id@ != id@;
                assert(c == j) by {
                    if c < j {
                        assert(keys[c] != id@);
                    } else if c > j {
                        assert(pkgs@[j as int].id@ != id@);
                    }
                }
            },
            None => {
                assert forall|i: int| 0 <= i < pkgs@.len() implies pkgs@[i].id@ != id@ by {
                    assert(keys[i] != id@);
                }
            },
        }
    }
    r
}

fn is_member_exec(meta: &Metadata, id: &str) -> (r: bool)
    ensures
        r == is_member(*meta, id@),
{
    let mut i: usize = 0;
    while i < meta.workspace_members.len()
        invariant
            i <= meta.workspace_members@.len(),
            forall|j: int| 0 <= j < i ==> meta.workspace_members@[j]@ != id@,
        decreases meta.workspace_members.len() - i,
    {
        if str_eq(meta.workspace_members[i].as_str(), id) {
            return true;
        }
        i = i + 1;
    }
    false
}

/// Whether `ids` indexes the resolved nodes, where there are any.
pub open spec fn nodes_indexed(meta: Metadata, ids: Option<IdIndex>) -> bool {
    match meta.resolve {
        Some(nodes) => ids is Some && id_index_ok(node_keys(nodes@), ids->Some_0.entries@),
        None => true,
    }
}

/// The resolved edges out of the package with id `id`, where the graph was resolved and lists it.
fn node_deps_of<'a>(meta: &'a Metadata, ids: &Option<IdIndex>, id: &str) -> (r: Option<&'a Vec<NodeDep>>)
    requires
        nodes_indexed(*meta, *ids),
    ensures
        match r {
            Some(v) => v@ == node_deps(*meta, id@),
            None => node_deps(*meta, id@) == Seq::<NodeDep>::empty(),
        },
{
    proof {
        reveal(node_deps);
    }
    match (&meta.resolve, ids) {
        (Some(nodes), Some(index)) => {
            let r = index.first_with(id, Ghost(node_keys(nodes@)));
            proof {
                let keys = node_keys(nodes@);
                assert forall|i: int| 0 <= i < nodes@.len() implies keys[i] == nodes@[i].id@ by {}
            }
            match r {
                Some(i) => {
                    proof {
                        assert(nodes@[i as int].id@ == id@);
                        assert forall|j: int| 0 <= j < i implies nodes@[j].id@ != id@ by {
                            assert(node_keys(nodes@)[j] != id@);
                        }
                        let c = choose|c: int| 0 <= c < nodes@.len() && nodes@[c].id@ == id@ && forall|j: int| 0 <= j < c ==> nodes@[j].id@ != id@;
                        assert(c == i) by {
                            if c < i {
                                assert(node_keys(nodes@)[c] != id@);
                            } else if c > i {
                                assert(nodes@[i as int].id@ != id@);
                            }
                        }
                    }
                    Some(&nodes[i].deps)
                },
                None => {
                    proof {
                        assert forall|i: int| 0 <= i < nodes@.len() implies nodes@[i].id@ != id@ by {
                            assert(node_keys(nodes@)[i] != id@);
                        }
                    }
                    None
                },
            }
        },
        _ => None,
    }
}

/// A member's directory relative to the workspace root.
fn workspace_path(id: &String, manifest_path: &String, root: &String) -> (r: Result<String, Error>)
    ensures
        match r {
            Ok(s) => workspace_rel(manifest_path@, root@) == Some(s@),
            Err(e) => workspace_rel(manifest_path@, root@) is None && e is InvalidManifestPath,
        },
{
    let rel = match strip_prefix(manifest_path.as_str(), root.as_str()) {
        Some(s) => s,
        None => find_relative_path_utf8(root.as_str(), manifest_path.as_str()),
    };
    match parent(rel.as_str()) {
        Some(p) => Ok(convert_forward_slashes(p.as_str())),
        None => Err(Error::InvalidManifestPath { package: id.clone(), manifest_path: manifest_path.clone() }),
    }
}

/// Where the package `p` comes from.
fn package_source(meta: &Metadata, p: &Package) -> (r: Result<PackageSource, Error>)
    ensures
        match r {
            Ok(s) => source_ok(*meta, *p, s),
            Err(e) => (is_member(*meta, p.id@) && workspace_rel(p.manifest_path@, meta.workspace_root@) is None)
                || (!is_member(*meta, p.id@) && p.source is None && path_parent(p.manifest_path@) is None),
        },
{
    if is_member_exec(meta, p.id.as_str()) {
        match workspace_path(&p.id, &p.manifest_path, &meta.workspace_root) {
            Ok(s) => Ok(PackageSource::Workspace(s)),
            Err(e) => Err(e),
        }
    } else {
        match &p.source {
            Some(src) => {
                if str_eq(src.as_str(), "registry+https://github.com/rust-lang/crates.io-index") {
                    Ok(PackageSource::CratesIo)
                } else {
                    Ok(PackageSource::External(src.clone()))
                }
            },
            None => match parent(p.manifest_path.as_str()) {
                Some(dir) => Ok(create_path(dir.as_str(), meta.workspace_root.as_str())),
                None => Err(Error::NoManifestParent { package: p.id.clone(), manifest_path: p.manifest_path.clone() }),
            },
        }
    }
}

/// The source of a path package in directory `path`: relative to the
/// workspace root with forward slashes, or as it is where no relative path
/// relates the two (another drive).
pub fn create_path(path: &str, workspace_root: &str) -> (r: PackageSource)
    ensures
        r is Path && r->Path_0@ == path_source(path@, workspace_root@),
{
    match resolve_relative_path(path, workspace_root) {
        Some(rel) => PackageSource::Path(rel),
        None => PackageSource::Path(path.to_owned()),
    }
}

fn has_default_exec(fs: &Vec<(String, Vec<String>)>) -> (r: bool)
    ensures
        r == has_default(fs@),
{
    let mut i: usize = 0;
    while i < fs.len()
        invariant
            i <= fs@.len(),
            forall|j: int| 0 <= j < i ==> fs@[j].0@ != "default"@,
        decreases fs.len() - i,
    {
        if str_eq(fs[i].0.as_str(), "default") {
            return true;
        }
        i = i + 1;
    }
    false
}


/// Some link from package `j` leads to `t`.
pub open spec fn has_link_to(links: Seq<PackageLink>, j: int, t: Option<int>) -> bool {
    exists|m: int| 0 <= m < links.len() && links[m].from == j && Some(links[m].to as int) == t
}

/// Some link of `links[start..]` leads to `t`.
pub open spec fn has_link_after(links: Seq<PackageLink>, start: int, t: Option<int>) -> bool {
    exists|m: int| start <= m < links.len() && Some(links[m].to as int) == t
}

/// The links of package `j` among `links[start..]`: each from `j`, each the
/// merge for the last resolved edge to its package among the first `upto`,
/// with distinct targets.
#[verifier::opaque]
pub open spec fn block_ok(meta: Metadata, data: Seq<PackageData>, j: int, links: Seq<PackageLink>, start: int, upto: int) -> bool {
    &&& forall|m: int| start <= m < links.len() ==> {
        &&& (#[trigger] links[m]).from == j
        &&& exists|k: int| 0 <= k < upto && link_for_edge(meta, data, j, k, links[m]) && last_to(meta, j, k, links[m].to as int, upto)
    }
    &&& forall|m1: int, m2: int| start <= m1 < m2 < links.len() ==> links[m1].to != links[m2].to
    &&& forall|k: int| 0 <= k < upto ==> edge_ok(meta, data, j, k)
    &&& forall|k: int| #![trigger edge_target(meta, j, k)] 0 <= k < upto ==> has_link_after(links, start, edge_target(meta, j, k))
}

/// Adds the links of package `j`, one per package its resolved edges lead to.
fn package_links(
    meta: &Metadata,
    j: usize,
    data: &Vec<PackageData>,
    index: &NameIndex,
    pkg_ids: &IdIndex,
    node_ids: &Option<IdIndex>,
    links: &mut Vec<PackageLink>,
) -> (r: Result<(), Error>)
    requires
        index_ok(data@, index.entries@),
        id_index_ok(package_keys(meta.packages@), pkg_ids.entries@),
        nodes_indexed(*meta, *node_ids),
        j < meta.packages@.len(),
        data@.len() == meta.packages@.len(),
    ensures
        r is Ok ==> {
            &&& final(links)@.len() >= old(links)@.len()
            &&& final(links)@.subrange(0, old(links)@.len() as int) == old(links)@
            &&& block_ok(*meta, data@, j as int, final(links)@, old(links)@.len() as int, n_edges(*meta, j as int))
        },
        r is Err ==> exists|k: int| 0 <= k < n_edges(*meta, j as int) && !#[trigger] edge_ok(*meta, data@, j as int, k),
{
    let p = &meta.packages[j];
    let first: usize = links.len();
    let ghost start = links@.len() as int;
    let ghost prefix = links@;
    let deps = match node_deps_of(meta, node_ids, p.id.as_str()) {
        Some(v) => v,
        None => {
            proof {
                assert(links@.subrange(0, start) =~= prefix);
                reveal(block_ok);
                reveal(n_edges);
            }
            return Ok(());
        },
    };
    let cands = find_candidates(&p.dependencies, data, index);
    let mut k: usize = 0;
    proof {
        assert(links@.subrange(0, start) =~= prefix);
        reveal(block_ok);
    }
    while k < deps.len()
        invariant
            j < meta.packages@.len(),
            *p == meta.packages@[j as int],
            data@.len() == meta.packages@.len(),
            deps@ == node_deps(*meta, p.id@),
            candidates_ok(p.dependencies@, data@, cands@),
            id_index_ok(package_keys(meta.packages@), pkg_ids.entries@),
            k <= deps@.len(),
            links@.len() >= start,
            first as int == start,
            links@.subrange(0, start) == prefix,
            block_ok(*meta, data@, j as int, links@, start, k as int),
        decreases deps.len() - k,
    {
        let e = &deps[k];
        let t = match index_of(pkg_ids, &meta.packages, e.pkg.as_str()) {
            Some(t) => t,
            None => {
                proof {
                    reveal(edge_target);
                    reveal(edge_ok);
                    reveal(n_edges);
                    assert(!edge_ok(*meta, data@, j as int, k as int));
                }
                return Err(Error::MissingDependency { package: p.id.clone(), dependency: e.pkg.clone() });
            },
        };
        let idx = matching_declarations(&p.dependencies, &cands, data, e.name.as_str(), &data[t], &e.dep_kinds);
        proof {
            reveal(edge_target);
            assert(edge_target(*meta, j as int, k as int) == Some(t as int));
            assert(forall|q: int| 0 <= q < idx@.len() ==> #[trigger] idx@[q] < p.dependencies@.len()) by {
                lemma_matching_in_range(p.dependencies@, data@, e.name@, data@[t as int], e.dep_kinds@, p.dependencies@.len() as int);
            }
        }
        let link = match merge_link(&p.id, j, t, e.name.as_str(), &p.dependencies, &idx) {
            Ok(l) => l,
            Err(err) => {
                proof {
                    reveal(edge_ok);
                    reveal(decls_for_edge);
                    reveal(n_edges);
                    let ds = decls_for_edge(*meta, data@, j as int, k as int);
                    assert(ds == picked(p.dependencies@, idx@));
                    if ds.len() > 0 {
                        let i = choose|i: int| 0 <= i < ds.len() && fault(ds[i]);
                        assert(fault(ds[i]));
                    }
                    assert(!edge_ok(*meta, data@, j as int, k as int));
                }
                return Err(err);
            },
        };
        let ghost before = links@;
        let ghost ds = decls_for_edge(*meta, data@, j as int, k as int);
        proof {
            reveal(decls_for_edge);
            reveal(link_for_edge);
            assert(ds == picked(p.dependencies@, idx@));
            assert(link_for_edge(*meta, data@, j as int, k as int, link));
        }
        let mut i = first;
        while i < links.len()
            invariant
                start <= i <= links@.len(),
                links@ == before,
                forall|x: int| start <= x < i ==> before[x].to != t,
            ensures
                start <= i <= links@.len(),
                links@ == before,
                i < links@.len() ==> before[i as int].to == t,
                forall|x: int| start <= x < i ==> before[x].to != t,
            decreases links.len() - i,
        {
            if links[i].to == t {
                break;
            }
            i = i + 1;
        }
        if i < links.len() {
            links.set(i, link);
        } else {
            links.push(link);
        }
        proof {
            reveal(n_edges);
            lemma_block_step(*meta, data@, j as int, k as int, before, links@, start, prefix, i as int, t as int, ds);
        }
        k = k + 1;
    }
    proof {
        reveal(n_edges);
    }
    Ok(())
}


#[verifier::rlimit(50)]
proof fn lemma_block_step(
    meta: Metadata,
    data: Seq<PackageData>,
    j: int,
    k: int,
    before: Seq<PackageLink>,
    after: Seq<PackageLink>,
    start: int,
    prefix: Seq<PackageLink>,
    i: int,
    t: int,
    ds: Seq<Dependency>,
)
    requires
        0 <= start <= i <= before.len(),
        0 <= k < n_edges(meta, j),
        before.subrange(0, start) == prefix,
        block_ok(meta, data, j, before, start, k),
        forall|x: int| start <= x < i ==> before[x].to != t,
        i < before.len() ==> before[i].to == t && after == before.update(i, after[i]),
        i == before.len() ==> after == before.push(after[i]),
        after[i].from == j,
        after[i].to == t,
        edge_target(meta, j, k) == Some(t),
        ds == decls_for_edge(meta, data, j, k),
        link_for_edge(meta, data, j, k, after[i]),
        ds.len() > 0,
        forall|x: int| 0 <= x < ds.len() ==> !fault(#[trigger] ds[x]),
    ensures
        after.subrange(0, start) == prefix,
        after.len() >= start,
        block_ok(meta, data, j, after, start, k + 1),
{
    reveal(block_ok);
            
            let kk = k;
            assert(after.subrange(0, start) =~= prefix) by {
                assert(before.subrange(0, start) == prefix);
                assert forall|x: int| 0 <= x < start implies after[x] == before[x] by {}
            }
            assert forall|x: int| start <= x < after.len() implies {
                &&& (#[trigger] after[x]).from == j
                &&& exists|k2: int| 0 <= k2 < kk + 1 && link_for_edge(meta, data, j, k2, after[x])
                    && last_to(meta, j, k2, after[x].to as int, kk + 1)
            } by {
                if x == i {
                    assert(link_for_edge(meta, data, j, kk, after[x]));
                    assert(last_to(meta, j, kk, after[x].to as int, kk + 1));
                } else {
                    assert(after[x] == before[x]);
                    let k2 = choose|k2: int| 0 <= k2 < kk && link_for_edge(meta, data, j, k2, before[x])
                        && last_to(meta, j, k2, before[x].to as int, kk);
                    assert(before[x].to != t) by {
                        if i < before.len() {
                            assert(before[i].to == t);
                            if x < i {
                            } else {
                                assert(before[i].to != before[x].to);
                            }
                        }
                    }
                    assert(last_to(meta, j, k2, after[x].to as int, kk + 1));
                }
            }
            assert forall|x1: int, x2: int| start <= x1 < x2 < after.len() implies after[x1].to != after[x2].to by {
                if x1 != i && x2 != i {
                    assert(after[x1] == before[x1] && after[x2] == before[x2]);
                } else if x1 == i {
                    if x2 < before.len() {
                        assert(after[x2] == before[x2]);
                    }
                } else {
                    assert(after[x1] == before[x1]);
                }
            }
            assert forall|k2: int| #![trigger edge_target(meta, j, k2)] 0 <= k2 < kk + 1 implies has_link_after(after, start, edge_target(meta, j, k2)) by {
                if k2 == kk {
                    assert(after[i].to == t);
                } else {
                    let x = choose|x: int| start <= x < before.len() && Some(before[x].to as int) == edge_target(meta, j, k2);
                    if x == i {
                        assert(after[i].to == t);
                        assert(before[i].to == t);
                    } else {
                        assert(after[x] == before[x]);
                    }
                }
            }
            assert forall|k2: int| 0 <= k2 < kk + 1 implies edge_ok(meta, data, j, k2) by {
                if k2 == kk {
                    reveal(edge_ok);
                    assert(ds.len() > 0);
                } else {
                    assert(edge_ok(meta, data, j, k2));
                }
            }
            assert(block_ok(meta, data, j, after, start, k + 1));
        }


/// The links built so far: those of the first `upto` packages.
#[verifier::opaque]
pub open spec fn links_ok(meta: Metadata, data: Seq<PackageData>, links: Seq<PackageLink>, upto: int) -> bool {
    &&& forall|m: int| 0 <= m < links.len() ==> {
        &&& (#[trigger] links[m]).from < upto
        &&& link_from_edges(meta, data, links[m], n_edges(meta, links[m].from as int))
    }
    &&& forall|j: int, k: int| #![trigger edge_ok(meta, data, j, k)] 0 <= j < upto && 0 <= k < n_edges(meta, j) ==> edge_ok(meta, data, j, k)
    &&& forall|j: int, k: int| #![trigger edge_target(meta, j, k)] 0 <= j < upto && 0 <= k < n_edges(meta, j) ==> has_link_to(links, j, edge_target(meta, j, k))
    &&& forall|m1: int, m2: int| #![trigger links[m1], links[m2]] 0 <= m1 < m2 < links.len() ==> !(links[m1].from == links[m2].from && links[m1].to == links[m2].to)
}

proof fn lemma_links_step(meta: Metadata, data: Seq<PackageData>, old_links: Seq<PackageLink>, links: Seq<PackageLink>, pj: int)
    requires
        0 <= pj,
        links_ok(meta, data, old_links, pj),
        links.len() >= old_links.len(),
        links.subrange(0, old_links.len() as int) == old_links,
        block_ok(meta, data, pj, links, old_links.len() as int, n_edges(meta, pj)),
    ensures
        links_ok(meta, data, links, pj + 1),
{
    reveal(links_ok);
    reveal(block_ok);
    let start = old_links.len() as int;
    assert forall|m: int| 0 <= m < start implies links[m] == old_links[m] by {
        assert(links.subrange(0, start)[m] == links[m]);
    }
    assert forall|m: int| 0 <= m < links.len() implies {
        &&& (#[trigger] links[m]).from < pj + 1
        &&& link_from_edges(meta, data, links[m], n_edges(meta, links[m].from as int))
    } by {
        if m < start {
            assert(links[m] == old_links[m]);
        } else {
            let k = choose|k: int| 0 <= k < n_edges(meta, pj) && link_for_edge(meta, data, pj, k, links[m])
                && last_to(meta, pj, k, links[m].to as int, n_edges(meta, pj));
            assert(links[m].from == pj);
            assert(link_from_edges(meta, data, links[m], n_edges(meta, links[m].from as int)));
        }
    }
    assert forall|j: int, k: int| #![trigger edge_target(meta, j, k)] 0 <= j < pj + 1 && 0 <= k < n_edges(meta, j) implies has_link_to(links, j, edge_target(meta, j, k)) by {
        if j < pj {
            let m = choose|m: int| 0 <= m < old_links.len() && old_links[m].from == j
                && Some(old_links[m].to as int) == edge_target(meta, j, k);
            assert(links[m] == old_links[m]);
        } else {
            let m = choose|m: int| start <= m < links.len() && Some(links[m].to as int) == edge_target(meta, pj, k);
            assert(links[m].from == pj);
        }
    }
    assert forall|m1: int, m2: int| #![trigger links[m1], links[m2]] 0 <= m1 < m2 < links.len() implies !(links[m1].from == links[m2].from
        && links[m1].to == links[m2].to) by {
        if m2 < start {
            assert(links[m1] == old_links[m1] && links[m2] == old_links[m2]);
        } else if m1 < start {
            assert(links[m1] == old_links[m1]);
        }
    }
    assert forall|j: int, k: int| #![trigger edge_ok(meta, data, j, k)] 0 <= j < pj + 1 && 0 <= k < n_edges(meta, j) implies edge_ok(meta, data, j, k) by {
    }
    assert(links_ok(meta, data, links, pj + 1));
}

/// What a package keeps besides its targets and matching data.
pub struct PackageRest {
    pub source: PackageSource,
    pub optional_deps: Vec<String>,
    pub named_features: Vec<(String, Vec<NamedFeatureDep>)>,
    pub has_default_feature: bool,
}

/// Classifies the targets of every package and computes its resolved name.
fn classify_packages(meta: &Metadata) -> (r: Result<(Vec<Vec<BuildTarget>>, Vec<PackageData>), Error>)
    ensures
        match r {
            Ok((ts, data)) => {
                &&& ts@.len() == meta.packages@.len()
                &&& data@.len() == meta.packages@.len()
                &&& forall|j: int| 0 <= j < ts@.len() ==> {
                    &&& classify_all(meta.packages@[j].targets@) == Ok::<_, TargetErrorView>((#[trigger] ts@[j])@.map_values(|b: BuildTarget| entry_of(b)))
                    &&& ids_distinct(ts@[j]@)
                    &&& data@[j].name == meta.packages@[j].name
                    &&& data@[j].version == meta.packages@[j].version
                    &&& data@[j].resolved_name@ == resolved_name_of(meta.packages@[j].name@, ts@[j]@)
                }
            },
            Err(e) => e is InvalidTarget && exists|j: int| 0 <= j < meta.packages@.len()
                && #[trigger] classify_all(meta.packages@[j].targets@) is Err,
        },
{
    let mut ts: Vec<Vec<BuildTarget>> = Vec::new();
    let mut data: Vec<PackageData> = Vec::new();
    let mut j: usize = 0;
    while j < meta.packages.len()
        invariant
            j <= meta.packages@.len(),
            ts@.len() == j,
            data@.len() == j,
            forall|q: int| 0 <= q < j ==> {
                &&& classify_all(meta.packages@[q].targets@) == Ok::<_, TargetErrorView>((#[trigger] ts@[q])@.map_values(|b: BuildTarget| entry_of(b)))
                &&& ids_distinct(ts@[q]@)
                &&& data@[q].name == meta.packages@[q].name
                &&& data@[q].version == meta.packages@[q].version
                &&& data@[q].resolved_name@ == resolved_name_of(meta.packages@[q].name@, ts@[q]@)
            },
        decreases meta.packages.len() - j,
    {
        let p = &meta.packages[j];
        let targets = match classify_targets(&p.targets) {
            Ok(v) => v,
            Err(e) => {
                assert(classify_all(meta.packages@[j as int].targets@) is Err);
                return Err(Error::InvalidTarget { package: p.id.clone(), error: e });
            },
        };
        proof {
            lemma_classified_wf(p.targets@, targets@);
        }
        let rn = resolved_name(&p.name, &targets);
        data.push(PackageData { name: p.name.clone(), version: p.version.clone(), resolved_name: rn });
        ts.push(targets);
        j = j + 1;
    }
    Ok((ts, data))
}


/// Indexes the workspace members of the built packages.
fn build_workspace(meta: &Metadata, packages: &Vec<PackageMetadata>, pkg_ids: &IdIndex) -> (r: Result<Workspace, Error>)
    requires
        id_index_ok(package_keys(meta.packages@), pkg_ids.entries@),
        packages@.len() == meta.packages@.len(),
        forall|j: int| 0 <= j < packages@.len() ==> package_ok(*meta, meta.packages@[j], #[trigger] packages@[j]),
    ensures
        match r {
            Ok(w) => workspace_ok(*meta, packages@, w),
            Err(e) => workspace_fault(*meta),
        },
{
    let mut members: Vec<(String, usize)> = Vec::new();
    let mut i: usize = 0;
    while i < meta.workspace_members.len()
        invariant
            i <= meta.workspace_members@.len(),
            id_index_ok(package_keys(meta.packages@), pkg_ids.entries@),
            packages@.len() == meta.packages@.len(),
            forall|j: int| 0 <= j < packages@.len() ==> package_ok(*meta, meta.packages@[j], #[trigger] packages@[j]),
            forall|i2: int| 0 <= i2 < i ==> indexes(packages@, members@, #[trigger] meta.workspace_members@[i2]@),
            forall|m: int| 0 <= m < members@.len() ==> {
                &&& (#[trigger] members@[m]).1 < packages@.len()
                &&& is_member(*meta, packages@[members@[m].1 as int].id@)
                &&& index_of_id(meta.packages@, packages@[members@[m].1 as int].id@) == Some(members@[m].1 as int)
                &&& packages@[members@[m].1 as int].source is Workspace
                &&& members@[m].0@ == packages@[members@[m].1 as int].source->Workspace_0@
            },
            forall|m1: int, m2: int| 0 <= m1 < m2 < members@.len() ==> packages@[members@[m1].1 as int].name@
                != packages@[members@[m2].1 as int].name@,
            forall|m1: int, m2: int| 0 <= m1 < m2 < members@.len() ==> lex_le(members@[m1].0@, members@[m2].0@),
        decreases meta.workspace_members.len() - i,
    {
        let id = &meta.workspace_members[i];
        let ix = match index_of(pkg_ids, &meta.packages, id.as_str()) {
            Some(ix) => ix,
            None => {
                assert(index_of_id(meta.packages@, meta.workspace_members@[i as int]@) is None);
                return Err(Error::WorkspaceMemberNotFound { member: id.clone() });
            },
        };
        proof {
            reveal(index_of_id);
            assert(meta.packages@[ix as int].id@ == id@);
            assert(package_ok(*meta, meta.packages@[ix as int], packages@[ix as int]));
            assert(packages@[ix as int].id@ == id@);
        }
        let mut q: usize = 0;
        let mut present = false;
        while q < members.len()
            invariant
                q <= members@.len(),
                present ==> exists|m: int| 0 <= m < members@.len() && members@[m].1 == ix,
                !present ==> forall|m: int| 0 <= m < q ==> members@[m].1 != ix,
            decreases members.len() - q,
        {
            if members[q].1 == ix {
                present = true;
            }
            q = q + 1;
        }
        if !present {
            let path = match &packages[ix].source {
                PackageSource::Workspace(path) => path.clone(),
                _ => {
                    proof {
                        assert(is_member(*meta, meta.packages@[ix as int].id@)) by {
                            assert(meta.workspace_members@[i as int]@ == id@);
                        }
                        assert(source_ok(*meta, meta.packages@[ix as int], packages@[ix as int].source));
                    }
                    return Err(Error::NotInWorkspace { member: id.clone(), manifest_path: packages[ix].manifest_path.clone() });
                },
            };
            let mut q: usize = 0;
            while q < members.len()
                invariant
                    q <= members@.len(),
                    ix < packages@.len(),
                    i < meta.workspace_members@.len(),
                    meta.workspace_members@[i as int] == *id,
                    packages@.len() == meta.packages@.len(),
                    forall|j: int| 0 <= j < packages@.len() ==> package_ok(*meta, meta.packages@[j], #[trigger] packages@[j]),
                    forall|m: int| 0 <= m < members@.len() ==> members@[m].1 != ix,
                    index_of_id(meta.packages@, id@) == Some(ix as int),
                    meta.packages@[ix as int].id@ == id@,
                    forall|m: int| 0 <= m < members@.len() ==> {
                        &&& (#[trigger] members@[m]).1 < packages@.len()
                        &&& is_member(*meta, packages@[members@[m].1 as int].id@)
                        &&& index_of_id(meta.packages@, packages@[members@[m].1 as int].id@) == Some(members@[m].1 as int)
                    },
                    forall|m: int| 0 <= m < q ==> packages@[members@[m].1 as int].name@ != packages@[ix as int].name@,
                decreases members.len() - q,
            {
                if str_eq(packages[members[q].1].name.as_str(), packages[ix].name.as_str()) {
                    proof {
                        let a = ix as int;
                        let b = members@[q as int].1 as int;
                        assert(members@[q as int].1 != ix);
                        assert(package_ok(*meta, meta.packages@[a], packages@[a]));
                        assert(package_ok(*meta, meta.packages@[b], packages@[b]));
                        assert(is_member(*meta, meta.packages@[a].id@)) by {
                            assert(meta.workspace_members@[i as int]@ == id@);
                        }
                        assert(meta.packages@[a].name@ == meta.packages@[b].name@);
                        assert(workspace_fault(*meta));
                    }
                    return Err(Error::DuplicateWorkspaceName {
                        name: packages[ix].name.clone(),
                        first: packages[members[q].1].id.clone(),
                        second: id.clone(),
                    });
                }
                q = q + 1;
            }
            let mut pos: usize = 0;
            while pos < members.len()
                invariant
                    pos <= members@.len(),
                    forall|m: int| 0 <= m < pos ==> lex_le((#[trigger] members@[m]).0@, path@),
                ensures
                    pos <= members@.len(),
                    forall|m: int| 0 <= m < pos ==> lex_le((#[trigger] members@[m]).0@, path@),
                    pos < members@.len() ==> !lex_le(members@[pos as int].0@, path@),
                decreases members.len() - pos,
            {
                if !lex_le_exec(members[pos].0.as_str(), path.as_str()) {
                    break;
                }
                pos = pos + 1;
            }
            let ghost before = members@;
            members.insert(pos, (path, ix));
            proof {
                lemma_insert_member(*meta, packages@, before, members@, pos as int, ix, i as int);
            }
        } else {
            proof {
                assert forall|i2: int| 0 <= i2 < i + 1 implies indexes(packages@, members@, #[trigger] meta.workspace_members@[i2]@) by {
                    if i2 == i {
                        let m = choose|m: int| 0 <= m < members@.len() && members@[m].1 == ix;
                    }
                }
            }
        }
        i = i + 1;
    }
    let mut defaults: Vec<usize> = Vec::new();
    let mut i: usize = 0;
    while i < meta.workspace_default_members.len()
        invariant
            i <= meta.workspace_default_members@.len(),
            forall|i2: int| 0 <= i2 < meta.workspace_members@.len() ==> indexes(packages@, members@, #[trigger] meta.workspace_members@[i2]@),
            forall|m: int| 0 <= m < members@.len() ==> {
                &&& (#[trigger] members@[m]).1 < packages@.len()
                &&& is_member(*meta, packages@[members@[m].1 as int].id@)
                &&& index_of_id(meta.packages@, packages@[members@[m].1 as int].id@) == Some(members@[m].1 as int)
                &&& packages@[members@[m].1 as int].source is Workspace
                &&& members@[m].0@ == packages@[members@[m].1 as int].source->Workspace_0@
            },
            forall|m1: int, m2: int| 0 <= m1 < m2 < members@.len() ==> packages@[members@[m1].1 as int].name@
                != packages@[members@[m2].1 as int].name@,
            forall|m1: int, m2: int| 0 <= m1 < m2 < members@.len() ==> lex_le(members@[m1].0@, members@[m2].0@),
            forall|m: int| 0 <= m < defaults@.len() ==> has_member_index(members@, #[trigger] defaults@[m]),
            forall|i2: int| 0 <= i2 < i ==> is_member(*meta, #[trigger] meta.workspace_default_members@[i2]@),
        decreases meta.workspace_default_members.len() - i,
    {
        let id = &meta.workspace_default_members[i];
        let mut q: usize = 0;
        while q < members.len()
            invariant
                q <= members@.len(),
                forall|m: int| 0 <= m < members@.len() ==> (#[trigger] members@[m]).1 < packages@.len(),
                forall|m: int| 0 <= m < q ==> packages@[members@[m].1 as int].id@ != id@,
            ensures
                q <= members@.len(),
                q < members@.len() ==> packages@[members@[q as int].1 as int].id@ == id@,
                forall|m: int| 0 <= m < q ==> packages@[members@[m].1 as int].id@ != id@,
            decreases members.len() - q,
        {
            if str_eq(packages[members[q].1].id.as_str(), id.as_str()) {
                break;
            }
            q = q + 1;
        }
        if q == members.len() {
            proof {
                if is_member(*meta, id@) {
                    let i2 = choose|i2: int| 0 <= i2 < meta.workspace_members@.len() && meta.workspace_members@[i2]@ == id@;
                    assert(indexes(packages@, members@, meta.workspace_members@[i2]@));
                }
                assert(!is_member(*meta, meta.workspace_default_members@[i as int]@));
            }
            return Err(Error::DefaultMemberNotMember { member: id.clone() });
        }
        let ix = members[q].1;
        proof {
            assert(is_member(*meta, packages@[ix as int].id@));
        }
        let ghost before = defaults@;
        defaults.push(ix);
        proof {
            assert forall|m: int| 0 <= m < defaults@.len() implies has_member_index(members@, #[trigger] defaults@[m]) by {
                if m < before.len() {
                    assert(defaults@[m] == before[m]);
                }
            }
        }
        i = i + 1;
    }
    Ok(Workspace {
        root: meta.workspace_root.clone(),
        target_directory: meta.target_directory.clone(),
        members,
        default_members: defaults,
    })
}


/// The publish policy a record states.
fn publish_of(p: &Package) -> (r: PackagePublish)
    ensures
        match p.publish {
            None => r is Unrestricted,
            Some(v) => r is Registries && r->Registries_0@ == v@,
        },
{
    match &p.publish {
        None => PackagePublish::Unrestricted,
        Some(v) => PackagePublish::Registries(clone_strings(v)),
    }
}

/// What `rest` states of the record `p`.
pub open spec fn rest_ok(meta: Metadata, p: Package, rest: PackageRest) -> bool {
    &&& source_ok(meta, p, rest.source)
    &&& views_of(rest.optional_deps@) == optional_names(p.dependencies@)
    &&& names_distinct(rest.named_features@)
    &&& table_map(rest.named_features@) == feature_table(p.features@, optional_names(p.dependencies@))
    &&& !bad_upto(p.features@, p.features@.len() as int, 0, optional_names(p.dependencies@))
    &&& rest.has_default_feature == has_default(p.features@)
}

impl PackageGraph {
    /// Builds the graph from the metadata: every package with its classified
    /// targets, source and feature table; one link per package pair that a
    /// resolved edge joins, merging the declarations that explain the edge;
    /// and the workspace index. Any invariant violation fails the whole
    /// construction.
    pub fn build(meta: &Metadata) -> (r: Result<PackageGraph, Error>)
        ensures
            r is Ok ==> graph_ok(*meta, r->Ok_0),
            (exists|g: PackageGraph| graph_ok(*meta, g)) ==> r is Ok,
    {
        let (mut ts, mut data) = match classify_packages(meta) {
            Ok(x) => x,
            Err(e) => {
                proof {
                    let j = choose|j: int| 0 <= j < meta.packages@.len() && classify_all(meta.packages@[j].targets@) is Err;
                    lemma_no_graph_target(*meta, j);
                }
                return Err(e);
            },
        };
        let ghost data0 = data@;
        let ghost ts0 = ts@;
        assert(data_for(*meta, data0, ts0));
        let n = meta.packages.len();
        let index = NameIndex::new(&data);
        let pkg_ids = IdIndex::of_packages(&meta.packages);
        let node_ids = match &meta.resolve {
            Some(nodes) => Some(IdIndex::of_nodes(nodes)),
            None => None,
        };
        let mut links: Vec<PackageLink> = Vec::new();
        let mut rests: Vec<PackageRest> = Vec::new();
        proof {
            reveal(links_ok);
        }
        let mut j: usize = 0;
        while j < n
            invariant
                n == meta.packages@.len(),
                j <= n,
                data@ == data0,
                data0.len() == n,
                data_for(*meta, data0, ts0),
                index_ok(data0, index.entries@),
                id_index_ok(package_keys(meta.packages@), pkg_ids.entries@),
                nodes_indexed(*meta, node_ids),
                links_ok(*meta, data0, links@, j as int),
                rests@.len() == j,
                forall|q: int| 0 <= q < j ==> rest_ok(*meta, meta.packages@[q], #[trigger] rests@[q]),
            decreases n - j,
        {
            let p = &meta.packages[j];
            let source = match package_source(meta, p) {
                Ok(s) => s,
                Err(e) => {
                    proof {
                        lemma_no_graph_source(*meta, j as int);
                    }
                    return Err(e);
                },
            };
            let ghost old_links = links@;
            match package_links(meta, j, &data, &index, &pkg_ids, &node_ids, &mut links) {
                Ok(()) => {},
                Err(e) => {
                    proof {
                        let k = choose|k: int| 0 <= k < n_edges(*meta, j as int) && !edge_ok(*meta, data0, j as int, k);
                        lemma_no_graph_edge(*meta, data0, ts0, j as int, k);
                    }
                    return Err(e);
                },
            }
            proof {
                lemma_links_step(*meta, data0, old_links, links@, j as int);
            }
            let (optional_deps, named) = match named_features(&p.id, &p.dependencies, &p.features) {
                Ok(x) => x,
                Err(e) => {
                    proof {
                        lemma_no_graph_features(*meta, j as int);
                    }
                    return Err(e);
                },
            };
            let has_default_feature = has_default_exec(&p.features);
            rests.push(PackageRest { source, optional_deps, named_features: named, has_default_feature });
            j = j + 1;
        }
        let mut packages: Vec<PackageMetadata> = Vec::new();
        let ghost rests0 = rests@;
        let mut j: usize = 0;
        while j < n
            invariant
                n == meta.packages@.len(),
                j <= n,
                ts@.len() == n,
                data@.len() == n,
                rests@.len() == n,
                ts0.len() == n,
                data0.len() == n,
                rests0.len() == n,
                forall|q: int| j <= q < n ==> ts@[q] == ts0[q] && data@[q] == data0[q] && rests@[q] == rests0[q],
                forall|q: int| 0 <= q < n ==> {
                    &&& classify_all(meta.packages@[q].targets@) == Ok::<_, TargetErrorView>((#[trigger] ts0[q])@.map_values(|b: BuildTarget| entry_of(b)))
                    &&& ids_distinct(ts0[q]@)
                    &&& data0[q].name == meta.packages@[q].name
                    &&& data0[q].version == meta.packages@[q].version
                    &&& data0[q].resolved_name@ == resolved_name_of(meta.packages@[q].name@, ts0[q]@)
                },
                forall|q: int| 0 <= q < n ==> rest_ok(*meta, meta.packages@[q], #[trigger] rests0[q]),
                packages@.len() == j,
                forall|q: int| 0 <= q < j ==> package_ok(*meta, meta.packages@[q], #[trigger] packages@[q]),
                forall|q: int| 0 <= q < j ==> data_of(#[trigger] packages@[q]) == data0[q],
            decreases n - j,
        {
            let p = &meta.packages[j];
            let mut targets: Vec<BuildTarget> = Vec::new();
            core::mem::swap(&mut ts[j], &mut targets);
            let mut d = PackageData { name: String::new(), version: String::new(), resolved_name: ResolvedName::NoLibTarget };
            core::mem::swap(&mut data[j], &mut d);
            let mut rest = PackageRest {
                source: PackageSource::CratesIo,
                optional_deps: Vec::new(),
                named_features: Vec::new(),
                has_default_feature: false,
            };
            core::mem::swap(&mut rests[j], &mut rest);
            assert(targets == ts0[j as int]);
            assert(d == data0[j as int]);
            assert(rest == rests0[j as int]);
            let m = PackageMetadata {
                id: p.id.clone(),
                name: d.name,
                version: d.version,
                manifest_path: p.manifest_path.clone(),
                edition: p.edition.clone(),
                rust_version: clone_opt(&p.rust_version),
                publish: publish_of(p),
                source: rest.source,
                build_targets: targets,
                resolved_name: d.resolved_name,
                optional_deps: rest.optional_deps,
                named_features: rest.named_features,
                has_default_feature: rest.has_default_feature,
            };
            assert(package_ok(*meta, meta.packages@[j as int], m));
            assert(data_of(m) == data0[j as int]);
            packages.push(m);
            j = j + 1;
        }
        proof {
            assert(datas(packages@) =~= data0);
        }
        let workspace = match build_workspace(meta, &packages, &pkg_ids) {
            Ok(w) => w,
            Err(e) => {
                proof {
                    lemma_no_graph_workspace(*meta);
                }
                return Err(e);
            },
        };
        let g = PackageGraph { packages, links, workspace };
        proof {
            reveal(links_ok);
            assert(datas(g.packages@) == data0);
        }
        Ok(g)
    }
}


proof fn lemma_first_index(pkgs: Seq<Package>, id: Seq<char>, i: int)
    requires
        0 <= i < pkgs.len(),
        pkgs[i].id@ == id,
    ensures
        exists|c: int| 0 <= c < pkgs.len() && pkgs[c].id@ == id && forall|j: int| 0 <= j < c ==> pkgs[j].id@ != id,
    decreases i,
{
    if exists|j: int| 0 <= j < i && pkgs[j].id@ == id {
        let j = choose|j: int| 0 <= j < i && pkgs[j].id@ == id;
        lemma_first_index(pkgs, id, j);
    } else {
        assert(forall|j: int| 0 <= j < i ==> pkgs[j].id@ != id);
    }
}

/// The first package with an id is a package with that id.
pub proof fn lemma_index_of_id(pkgs: Seq<Package>, id: Seq<char>)
    requires
        index_of_id(pkgs, id) is Some,
    ensures
        0 <= index_of_id(pkgs, id)->Some_0 < pkgs.len(),
        pkgs[index_of_id(pkgs, id)->Some_0].id@ == id,
{
    reveal(index_of_id);
    let i = choose|i: int| 0 <= i < pkgs.len() && pkgs[i].id@ == id;
    lemma_first_index(pkgs, id, i);
}

/// Two lists of package data that agree on every view.
pub open spec fn views_agree(d1: Seq<PackageData>, d2: Seq<PackageData>) -> bool {
    &&& d1.len() == d2.len()
    &&& forall|i: int| 0 <= i < d1.len() ==> {
        &&& (#[trigger] d1[i]).name@ == d2[i].name@
        &&& d1[i].version@ == d2[i].version@
        &&& d1[i].resolved_name@ == d2[i].resolved_name@
    }
}

proof fn lemma_matching_views(
    decls: Seq<Dependency>,
    d1: Seq<PackageData>,
    d2: Seq<PackageData>,
    name: Seq<char>,
    t1: PackageData,
    t2: PackageData,
    kinds: Seq<crate::metadata::DepKindInfo>,
    n: int,
)
    requires
        views_agree(d1, d2),
        t1.version@ == t2.version@,
        n <= decls.len(),
    ensures
        matching_indices(decls, d1, name, t1, kinds, n) == matching_indices(decls, d2, name, t2, kinds, n),
    decreases n,
{
    if n > 0 {
        lemma_matching_views(decls, d1, d2, name, t1, t2, kinds, n - 1);
        let d = decls[n - 1];
        assert forall|q: int| 0 <= q < d1.len() implies (crate::matcher::candidate(d, d1[q])
            && crate::matcher::name_matches(d, d1[q], name)) == (crate::matcher::candidate(d, d2[q])
            && crate::matcher::name_matches(d, d2[q], name)) by {
            assert(d1[q].name@ == d2[q].name@);
        }
        let m1 = crate::matcher::decl_matches(d, d1, name, t1, kinds);
        let m2 = crate::matcher::decl_matches(d, d2, name, t2, kinds);
        if m1 {
            let q = choose|q: int| 0 <= q < d1.len() && crate::matcher::candidate(d, d1[q])
                && crate::matcher::name_matches(d, d1[q], name);
        }
        if m2 {
            let q = choose|q: int| 0 <= q < d2.len() && crate::matcher::candidate(d, d2[q])
                && crate::matcher::name_matches(d, d2[q], name);
        }
        assert(m1 == m2);
    }
}

proof fn lemma_edge_ok_views(meta: Metadata, d1: Seq<PackageData>, d2: Seq<PackageData>, j: int, k: int)
    requires
        views_agree(d1, d2),
        d1.len() == meta.packages@.len(),
        0 <= j < meta.packages@.len(),
    ensures
        edge_ok(meta, d1, j, k) == edge_ok(meta, d2, j, k),
{
    reveal(edge_ok);
    reveal(decls_for_edge);
    if edge_target(meta, j, k) is Some {
        reveal(edge_target);
        reveal(index_of_id);
        let t = edge_target(meta, j, k)->Some_0;
        let p = meta.packages@[j];
        let e = node_deps(meta, p.id@)[k];
        lemma_index_of_id(meta.packages@, e.pkg@);
        assert(0 <= t < d1.len());
        assert(d1[t].version@ == d2[t].version@);
        lemma_matching_views(p.dependencies@, d1, d2, e.name@, d1[t], d2[t], e.dep_kinds@, p.dependencies@.len() as int);
    }
}

proof fn lemma_resolved_by_entries(name: Seq<char>, ts1: Seq<BuildTarget>, ts2: Seq<BuildTarget>)
    requires
        ts1.map_values(|b: BuildTarget| entry_of(b)) == ts2.map_values(|b: BuildTarget| entry_of(b)),
        ids_distinct(ts1),
        ids_distinct(ts2),
    ensures
        resolved_name_of(name, ts1) == resolved_name_of(name, ts2),
{
    let e1 = ts1.map_values(|b: BuildTarget| entry_of(b));
    assert(ts1.len() == ts2.len()) by {
        assert(e1.len() == ts1.len());
    }
    assert forall|i: int| 0 <= i < ts1.len() implies ts1[i].id@ == ts2[i].id@ && opt_view(ts1[i].lib_name) == opt_view(ts2[i].lib_name) by {
        assert(e1[i] == entry_of(ts1[i]));
        assert(ts2.map_values(|b: BuildTarget| entry_of(b))[i] == entry_of(ts2[i]));
    }
    let l1 = crate::targets::library_index(ts1);
    let l2 = crate::targets::library_index(ts2);
    if l1 is Some {
        let i1 = l1->Some_0;
        assert(ts2[i1].id@ == crate::targets::TargetIdView::Library);
        let i2 = l2->Some_0;
        assert(i1 == i2) by {
            if i1 < i2 {
                assert(ts2[i1].id@ != ts2[i2].id@);
            } else if i2 < i1 {
                assert(ts2[i2].id@ != ts2[i1].id@);
            }
        }
        assert(opt_view(ts1[i1].lib_name) == opt_view(ts2[i1].lib_name));
        if ts1[i1].lib_name is Some {
            assert(ts1[i1].lib_name->Some_0@ == ts2[i1].lib_name->Some_0@);
        } else {
            assert(ts2[i1].lib_name is None);
        }
    } else {
        if l2 is Some {
            let i2 = l2->Some_0;
            assert(ts1[i2].id@ == crate::targets::TargetIdView::Library);
        }
    }
}

/// The package data computed for the metadata: names, versions, and the
/// resolved names of the classified targets `ts`.
pub open spec fn data_for(meta: Metadata, data: Seq<PackageData>, ts: Seq<Vec<BuildTarget>>) -> bool {
    &&& data.len() == meta.packages@.len()
    &&& ts.len() == meta.packages@.len()
    &&& forall|q: int| 0 <= q < data.len() ==> {
        &&& classify_all(meta.packages@[q].targets@) == Ok::<_, TargetErrorView>((#[trigger] ts[q])@.map_values(|b: BuildTarget| entry_of(b)))
        &&& ids_distinct(ts[q]@)
        &&& data[q].name@ == meta.packages@[q].name@
        &&& data[q].version@ == meta.packages@[q].version@
        &&& data[q].resolved_name@ == resolved_name_of(meta.packages@[q].name@, ts[q]@)
    }
}

/// Metadata with a resolved edge that leads nowhere, that no declaration
/// explains, or whose explaining declarations include a faulty one, has no graph.
proof fn lemma_no_graph_edge(meta: Metadata, data: Seq<PackageData>, ts: Seq<Vec<BuildTarget>>, j: int, k: int)
    requires
        data_for(meta, data, ts),
        0 <= j < meta.packages@.len(),
        0 <= k < n_edges(meta, j),
        !edge_ok(meta, data, j, k),
    ensures
        forall|g: PackageGraph| !graph_ok(meta, g),
{
    assert forall|g: PackageGraph| !graph_ok(meta, g) by {
        if graph_ok(meta, g) {
            let gd = datas(g.packages@);
            assert forall|i: int| 0 <= i < data.len() implies {
                &&& (#[trigger] data[i]).name@ == gd[i].name@
                &&& data[i].version@ == gd[i].version@
                &&& data[i].resolved_name@ == gd[i].resolved_name@
            } by {
                assert(package_ok(meta, meta.packages@[i], g.packages@[i]));
                assert(ts[i] == ts[i]);
                lemma_resolved_by_entries(meta.packages@[i].name@, ts[i]@, g.packages@[i].build_targets@);
            }
            lemma_edge_ok_views(meta, data, gd, j, k);
            assert(edge_ok(meta, gd, j, k));
        }
    }
}

/// Metadata with a package whose targets cannot be classified has no graph.
proof fn lemma_no_graph_target(meta: Metadata, j: int)
    requires
        0 <= j < meta.packages@.len(),
        classify_all(meta.packages@[j].targets@) is Err,
    ensures
        forall|g: PackageGraph| !graph_ok(meta, g),
{
    assert forall|g: PackageGraph| !graph_ok(meta, g) by {
        if graph_ok(meta, g) {
            assert(package_ok(meta, meta.packages@[j], g.packages@[j]));
        }
    }
}

/// Metadata with a member whose directory cannot be found, or a path package
/// whose manifest has no parent, has no graph.
proof fn lemma_no_graph_source(meta: Metadata, j: int)
    requires
        0 <= j < meta.packages@.len(),
        ({
            let p = meta.packages@[j];
            (is_member(meta, p.id@) && workspace_rel(p.manifest_path@, meta.workspace_root@) is None)
                || (!is_member(meta, p.id@) && p.source is None && path_parent(p.manifest_path@) is None)
        }),
    ensures
        forall|g: PackageGraph| !graph_ok(meta, g),
{
    assert forall|g: PackageGraph| !graph_ok(meta, g) by {
        if graph_ok(meta, g) {
            assert(package_ok(meta, meta.packages@[j], g.packages@[j]));
        }
    }
}

/// Metadata with a feature turning on `dep:x` for an `x` that is no optional
/// dependency has no graph.
proof fn lemma_no_graph_features(meta: Metadata, j: int)
    requires
        0 <= j < meta.packages@.len(),
        bad_upto(meta.packages@[j].features@, meta.packages@[j].features@.len() as int, 0,
            optional_names(meta.packages@[j].dependencies@)),
    ensures
        forall|g: PackageGraph| !graph_ok(meta, g),
{
    assert forall|g: PackageGraph| !graph_ok(meta, g) by {
        if graph_ok(meta, g) {
            assert(package_ok(meta, meta.packages@[j], g.packages@[j]));
        }
    }
}

/// Metadata whose workspace cannot be indexed has no graph.
proof fn lemma_no_graph_workspace(meta: Metadata)
    requires
        workspace_fault(meta),
    ensures
        forall|g: PackageGraph| !graph_ok(meta, g),
{
    let pkgs = meta.packages@;
    assert forall|g: PackageGraph| !graph_ok(meta, g) by {
        if graph_ok(meta, g) {
            let w = g.workspace;
            if exists|i: int| 0 <= i < meta.workspace_members@.len() && index_of_id(pkgs, #[trigger] meta.workspace_members@[i]@) is None {
                let i = choose|i: int| 0 <= i < meta.workspace_members@.len() && index_of_id(pkgs, meta.workspace_members@[i]@) is None;
                let id = meta.workspace_members@[i]@;
                assert(indexes(g.packages@, w.members@, id));
                let m = choose|m: int| 0 <= m < w.members@.len() && w.members@[m].1 < g.packages@.len() && g.packages@[w.members@[m].1 as int].id@ == id;
                let x = w.members@[m].1 as int;
                assert(package_ok(meta, pkgs[x], g.packages@[x]));
                reveal(index_of_id);
                assert(pkgs[x].id@ == id);
            } else if exists|a: int, b: int| 0 <= a < pkgs.len() && 0 <= b < pkgs.len() && a != b
                && is_member(meta, pkgs[a].id@) && is_member(meta, pkgs[b].id@)
                && index_of_id(pkgs, pkgs[a].id@) == Some(a) && index_of_id(pkgs, pkgs[b].id@) == Some(b)
                && #[trigger] pkgs[a].name@ == #[trigger] pkgs[b].name@ {
                let (a, b) = choose|a: int, b: int| 0 <= a < pkgs.len() && 0 <= b < pkgs.len() && a != b
                    && is_member(meta, pkgs[a].id@) && is_member(meta, pkgs[b].id@)
                    && index_of_id(pkgs, pkgs[a].id@) == Some(a) && index_of_id(pkgs, pkgs[b].id@) == Some(b)
                    && pkgs[a].name@ == pkgs[b].name@;
                let ia = choose|i: int| 0 <= i < meta.workspace_members@.len() && meta.workspace_members@[i]@ == pkgs[a].id@;
                let ib = choose|i: int| 0 <= i < meta.workspace_members@.len() && meta.workspace_members@[i]@ == pkgs[b].id@;
                assert(indexes(g.packages@, w.members@, meta.workspace_members@[ia]@));
                assert(indexes(g.packages@, w.members@, meta.workspace_members@[ib]@));
                let ma = choose|m: int| 0 <= m < w.members@.len() && w.members@[m].1 < g.packages@.len() && g.packages@[w.members@[m].1 as int].id@ == pkgs[a].id@;
                let mb = choose|m: int| 0 <= m < w.members@.len() && w.members@[m].1 < g.packages@.len() && g.packages@[w.members@[m].1 as int].id@ == pkgs[b].id@;
                assert(w.members@[ma].1 as int == a);
                assert(w.members@[mb].1 as int == b);
                assert(package_ok(meta, pkgs[a], g.packages@[a]));
                assert(package_ok(meta, pkgs[b], g.packages@[b]));
                if ma < mb {
                    assert(g.packages@[w.members@[ma].1 as int].name@ != g.packages@[w.members@[mb].1 as int].name@);
                } else {
                    assert(ma != mb);
                    assert(g.packages@[w.members@[mb].1 as int].name@ != g.packages@[w.members@[ma].1 as int].name@);
                }
            } else {
                let i = choose|i: int| 0 <= i < meta.workspace_default_members@.len() && !is_member(meta, meta.workspace_default_members@[i]@);
                assert(is_member(meta, meta.workspace_default_members@[i]@));
            }
        }
    }
}


/// What holds of the member entries while they are indexed.
pub open spec fn members_ok(meta: Metadata, packages: Seq<PackageMetadata>, members: Seq<(String, usize)>) -> bool {
    &&& forall|m: int| 0 <= m < members.len() ==> {
        &&& (#[trigger] members[m]).1 < packages.len()
        &&& is_member(meta, packages[members[m].1 as int].id@)
        &&& index_of_id(meta.packages@, packages[members[m].1 as int].id@) == Some(members[m].1 as int)
        &&& packages[members[m].1 as int].source is Workspace
        &&& members[m].0@ == packages[members[m].1 as int].source->Workspace_0@
    }
    &&& forall|m1: int, m2: int| 0 <= m1 < m2 < members.len() ==> packages[members[m1].1 as int].name@
        != packages[members[m2].1 as int].name@
    &&& forall|m1: int, m2: int| 0 <= m1 < m2 < members.len() ==> lex_le(members[m1].0@, members[m2].0@)
}

proof fn lemma_insert_member(
    meta: Metadata,
    packages: Seq<PackageMetadata>,
    before: Seq<(String, usize)>,
    after: Seq<(String, usize)>,
    pos: int,
    ix: usize,
    i: int,
)
    requires
        members_ok(meta, packages, before),
        0 <= pos <= before.len(),
        after == before.insert(pos, after[pos]),
        after[pos].1 == ix,
        ix < packages.len(),
        0 <= i < meta.workspace_members@.len(),
        packages[ix as int].id@ == meta.workspace_members@[i]@,
        index_of_id(meta.packages@, packages[ix as int].id@) == Some(ix as int),
        packages[ix as int].source is Workspace,
        after[pos].0@ == packages[ix as int].source->Workspace_0@,
        forall|m: int| 0 <= m < before.len() ==> packages[before[m].1 as int].name@ != packages[ix as int].name@,
        forall|m: int| 0 <= m < pos ==> lex_le((#[trigger] before[m]).0@, after[pos].0@),
        pos < before.len() ==> !lex_le(before[pos].0@, after[pos].0@),
        forall|i2: int| 0 <= i2 < i ==> indexes(packages, before, #[trigger] meta.workspace_members@[i2]@),
    ensures
        members_ok(meta, packages, after),
        forall|i2: int| 0 <= i2 < i + 1 ==> indexes(packages, after, #[trigger] meta.workspace_members@[i2]@),
{
    let x = after[pos];
    assert forall|m: int| 0 <= m < after.len() implies (m < pos ==> after[m] == before[m]) && (m > pos ==> after[m] == before[m - 1]) by {}
    assert(is_member(meta, packages[ix as int].id@));
    if pos < before.len() {
        lemma_lex_total(before[pos].0@, x.0@);
    }
    assert forall|m: int| pos < m < after.len() implies lex_le(x.0@, #[trigger] after[m].0@) by {
        if m - 1 > pos {
            lemma_lex_trans(x.0@, before[pos].0@, before[m - 1].0@);
        }
    }
    assert forall|m1: int, m2: int| 0 <= m1 < m2 < after.len() implies lex_le(after[m1].0@, after[m2].0@) by {
        if m1 < pos && m2 > pos {
            lemma_lex_trans(after[m1].0@, x.0@, after[m2].0@);
        } else if m1 > pos {
            assert(after[m1] == before[m1 - 1] && after[m2] == before[m2 - 1]);
        } else if m2 < pos {
            assert(after[m1] == before[m1] && after[m2] == before[m2]);
        }
    }
    assert forall|m1: int, m2: int| 0 <= m1 < m2 < after.len() implies packages[after[m1].1 as int].name@
        != packages[after[m2].1 as int].name@ by {
        if m1 == pos {
            assert(after[m2] == before[m2 - 1]);
        } else if m2 == pos {
            assert(after[m1] == before[m1]);
        } else {
            let b1 = if m1 < pos { m1 } else { m1 - 1 };
            let b2 = if m2 < pos { m2 } else { m2 - 1 };
            assert(after[m1] == before[b1] && after[m2] == before[b2]);
        }
    }
    assert forall|i2: int| 0 <= i2 < i + 1 implies indexes(packages, after, #[trigger] meta.workspace_members@[i2]@) by {
        if i2 < i {
            let m = choose|m: int| 0 <= m < before.len() && before[m].1 < packages.len() && packages[before[m].1 as int].id@ == meta.workspace_members@[i2]@;
            if m < pos {
                assert(after[m] == before[m]);
            } else {
                assert(after[m + 1] == before[m]);
            }
        } else {
            assert(after[pos].1 == ix);
        }
    }
}


/// Keys with their indices, sorted by key, for lookups in logarithmic time.
#[derive(Debug)]
pub struct IdIndex {
    pub entries: Vec<(String, usize)>,
}

/// `entries` lists each index of `keys` under its key, sorted by key.
pub open spec fn id_index_ok(keys: Seq<Seq<char>>, entries: Seq<(String, usize)>) -> bool {
    &&& forall|k: int| 0 <= k < entries.len() ==> (#[trigger] entries[k]).1 < keys.len() && entries[k].0@ == keys[entries[k].1 as int]
    &&& forall|q: int| 0 <= q < keys.len() ==> #[trigger] crate::matcher::listed(entries, q)
    &&& forall|a: int, b: int| 0 <= a < b < entries.len() ==> lex_le(entries[a].0@, entries[b].0@)
}

pub open spec fn package_keys(pkgs: Seq<Package>) -> Seq<Seq<char>> {
    pkgs.map_values(|p: Package| p.id@)
}

pub open spec fn node_keys(nodes: Seq<crate::metadata::Node>) -> Seq<Seq<char>> {
    nodes.map_values(|n: crate::metadata::Node| n.id@)
}

impl IdIndex {
    fn from_entries(init: Vec<(String, usize)>, Ghost(keys): Ghost<Seq<Seq<char>>>) -> (r: Self)
        requires
            init@.len() == keys.len(),
            forall|k: int| 0 <= k < init@.len() ==> (#[trigger] init@[k]).1 as int == k && init@[k].0@ == keys[k],
        ensures
            id_index_ok(keys, r.entries@),
    {
        let mut v = init;
        let ghost before = v@;
        assert(before == init@);
        crate::matcher::sort_by_name(&mut v);
        proof {
            broadcast use vstd::seq_lib::group_to_multiset_ensures;
            assert forall|k: int| 0 <= k < v@.len() implies (#[trigger] v@[k]).1 < keys.len() && v@[k].0@ == keys[v@[k].1 as int] by {
                assert(v@.contains(v@[k]));
                assert(v@.to_multiset().count(v@[k]) > 0);
                assert(before.contains(v@[k]));
                let k2 = choose|k2: int| 0 <= k2 < before.len() && before[k2] == v@[k];
                assert(init@[k2].1 as int == k2 && init@[k2].0@ == keys[k2]);
            }
            assert forall|q2: int| 0 <= q2 < keys.len() implies #[trigger] crate::matcher::listed(v@, q2) by {
                assert(init@[q2].1 as int == q2);
                assert(before.contains(before[q2]));
                assert(before.to_multiset().count(before[q2]) > 0);
                assert(v@.contains(before[q2]));
                let k = choose|k: int| 0 <= k < v@.len() && v@[k] == before[q2];
                assert(v@[k].1 as int == q2);
            }
        }
        IdIndex { entries: v }
    }

    /// The packages by id.
    pub fn of_packages(pkgs: &Vec<Package>) -> (r: Self)
        ensures
            id_index_ok(package_keys(pkgs@), r.entries@),
    {
        let mut v: Vec<(String, usize)> = Vec::new();
        let mut q: usize = 0;
        while q < pkgs.len()
            invariant
                q <= pkgs@.len(),
                v@.len() == q,
                forall|k: int| 0 <= k < q ==> (#[trigger] v@[k]).1 as int == k && v@[k].0@ == package_keys(pkgs@)[k],
            decreases pkgs.len() - q,
        {
            v.push((pkgs[q].id.clone(), q));
            q = q + 1;
        }
        IdIndex::from_entries(v, Ghost(package_keys(pkgs@)))
    }

    /// The resolved nodes by id.
    pub fn of_nodes(nodes: &Vec<crate::metadata::Node>) -> (r: Self)
        ensures
            id_index_ok(node_keys(nodes@), r.entries@),
    {
        let mut v: Vec<(String, usize)> = Vec::new();
        let mut q: usize = 0;
        while q < nodes.len()
            invariant
                q <= nodes@.len(),
                v@.len() == q,
                forall|k: int| 0 <= k < q ==> (#[trigger] v@[k]).1 as int == k && v@[k].0@ == node_keys(nodes@)[k],
            decreases nodes.len() - q,
        {
            v.push((nodes[q].id.clone(), q));
            q = q + 1;
        }
        IdIndex::from_entries(v, Ghost(node_keys(nodes@)))
    }

    /// The first index whose key is `key`.
    fn first_with(&self, key: &str, Ghost(keys): Ghost<Seq<Seq<char>>>) -> (r: Option<usize>)
        requires
            id_index_ok(keys, self.entries@),
        ensures
            match r {
                Some(j) => j < keys.len() && keys[j as int] == key@ && forall|i: int| 0 <= i < j ==> keys[i] != key@,
                None => forall|i: int| 0 <= i < keys.len() ==> keys[i] != key@,
            },
    {
        let entries = &self.entries;
        let mut lo: usize = 0;
        let mut hi: usize = entries.len();
        while lo < hi
            invariant
                lo <= hi <= entries@.len(),
                id_index_ok(keys, entries@),
                forall|k: int| 0 <= k < lo ==> !lex_le(key@, (#[trigger] entries@[k]).0@),
                forall|k: int| hi <= k < entries@.len() ==> lex_le(key@, (#[trigger] entries@[k]).0@),
            decreases hi - lo,
        {
            let mid = lo + (hi - lo) / 2;
            if !lex_le_exec(key, entries[mid].0.as_str()) {
                proof {
                    assert forall|k: int| 0 <= k <= mid implies !lex_le(key@, (#[trigger] entries@[k]).0@) by {
                        if k < mid && lex_le(key@, entries@[k].0@) {
                            lemma_lex_trans(key@, entries@[k].0@, entries@[mid as int].0@);
                        }
                    }
                }
                lo = mid + 1;
            } else {
                proof {
                    assert forall|k: int| mid <= k < entries@.len() implies lex_le(key@, (#[trigger] entries@[k]).0@) by {
                        if k > mid {
                            lemma_lex_trans(key@, entries@[mid as int].0@, entries@[k].0@);
                        }
                    }
                }
                hi = mid;
            }
        }
        let start = lo;
        let mut best: Option<usize> = None;
        let mut k = start;
        while k < entries.len()
            invariant
                start <= k <= entries@.len(),
                id_index_ok(keys, entries@),
                forall|x: int| 0 <= x < start ==> !lex_le(key@, (#[trigger] entries@[x]).0@),
                forall|x: int| start <= x < entries@.len() ==> lex_le(key@, (#[trigger] entries@[x]).0@),
                forall|x: int| start <= x < k ==> (#[trigger] entries@[x]).0@ == key@,
                match best {
                    Some(b) => b < keys.len() && keys[b as int] == key@ && forall|x: int| start <= x < k ==> b <= (#[trigger] entries@[x]).1,
                    None => k == start,
                },
            ensures
                start <= k <= entries@.len(),
                forall|x: int| start <= x < k ==> (#[trigger] entries@[x]).0@ == key@,
                k < entries@.len() ==> entries@[k as int].0@ != key@,
                match best {
                    Some(b) => b < keys.len() && keys[b as int] == key@ && forall|x: int| start <= x < k ==> b <= (#[trigger] entries@[x]).1,
                    None => k == start,
                },
            decreases entries.len() - k,
        {
            if !str_eq(entries[k].0.as_str(), key) {
                break;
            }
            let q = entries[k].1;
            assert(entries@[k as int].1 < keys.len() && entries@[k as int].0@ == keys[q as int]);
            best = match best {
                Some(b) => if q < b { Some(q) } else { Some(b) },
                None => Some(q),
            };
            k = k + 1;
        }
        proof {
            assert forall|q: int| 0 <= q < keys.len() && keys[q] == key@ implies start <= (choose|x: int| 0 <= x < entries@.len() && entries@[x].1 as int == q) < k by {
                assert(crate::matcher::listed(entries@, q));
                let x = choose|x: int| 0 <= x < entries@.len() && entries@[x].1 as int == q;
                assert(entries@[x].0@ == key@);
                if x < start {
                    lemma_lex_refl(key@);
                } else if x >= k {
                    if x > k {
                        assert(lex_le(entries@[k as int].0@, entries@[x].0@));
                        lemma_lex_antisym(entries@[k as int].0@, key@);
                    }
                }
            }
        }
        match best {
            Some(b) => {
                proof {
                    assert forall|i: int| 0 <= i < b implies keys[i] != key@ by {
                        if keys[i] == key@ {
                            assert(crate::matcher::listed(entries@, i));
                            let x = choose|x: int| 0 <= x < entries@.len() && entries@[x].1 as int == i;
                            assert(start <= x < k);
                        }
                    }
                }
                Some(b)
            },
            None => {
                proof {
                    assert forall|i: int| 0 <= i < keys.len() implies keys[i] != key@ by {
                        if keys[i] == key@ {
                            assert(crate::matcher::listed(entries@, i));
                            let x = choose|x: int| 0 <= x < entries@.len() && entries@[x].1 as int == i;
                            assert(start <= x < k);
                        }
                    }
                }
                None
            },
        }
    }
}

} // verus!
