use guppy_graph::errors::Error;
use guppy_graph::features::NamedFeatureDep;
use guppy_graph::graph::{PackageGraph, PackageSource};
use guppy_graph::metadata::{DepKindInfo, Dependency, DependencyKind, Metadata, Node, NodeDep, Package, Target};
use guppy_graph::targets::{BuildTargetId, BuildTargetKind, ResolvedName};
use guppy_graph::topo::TopoWithCycles;

fn s(x: &str) -> String {
    x.to_string()
}

fn dep(name: &str, req: &str, kind: DependencyKind) -> Dependency {
    Dependency {
        name: s(name),
        rename: None,
        req: s(req),
        kind,
        target: None,
        optional: false,
        uses_default_features: true,
        features: vec![],
    }
}

fn target(name: &str, kind: &[&str], crate_types: &[&str]) -> Target {
    Target {
        name: s(name),
        kind: kind.iter().map(|k| s(k)).collect(),
        crate_types: crate_types.iter().map(|k| s(k)).collect(),
        required_features: vec![],
        src_path: format!("/ws/{name}/src/lib.rs"),
        edition: s("2021"),
        doctest: true,
    }
}

fn lib(name: &str) -> Target {
    target(name, &["lib"], &["lib"])
}

fn package(name: &str, version: &str, deps: Vec<Dependency>, targets: Vec<Target>) -> Package {
    Package {
        name: s(name),
        version: s(version),
        id: format!("{name}-id"),
        source: None,
        manifest_path: format!("/ws/{name}/Cargo.toml"),
        dependencies: deps,
        targets,
        features: vec![],
        publish: None,
        edition: s("2021"),
        rust_version: None,
    }
}

fn edge(name: &str, to: &str, kinds: Vec<DepKindInfo>) -> NodeDep {
    NodeDep { name: s(name), pkg: format!("{to}-id"), dep_kinds: kinds }
}

fn kind(k: DependencyKind, target: Option<&str>) -> DepKindInfo {
    DepKindInfo { kind: k, target: target.map(s) }
}

fn metadata(packages: Vec<Package>, nodes: Vec<Node>, members: &[&str]) -> Metadata {
    Metadata {
        packages,
        resolve: Some(nodes),
        workspace_members: members.iter().map(|m| format!("{m}-id")).collect(),
        workspace_default_members: vec![],
        workspace_root: s("/ws"),
        target_directory: s("/ws/target"),
    }
}

fn node(id: &str, deps: Vec<NodeDep>) -> Node {
    Node { id: format!("{id}-id"), deps }
}

#[test]
fn dev_only_dependency_gives_one_link() {
    let a = package("a", "0.1.0", vec![dep("b", "^0.1", DependencyKind::Development)], vec![lib("a")]);
    let b = package("b", "0.1.0", vec![], vec![lib("b")]);
    let meta = metadata(
        vec![a, b],
        vec![node("a", vec![edge("b", "b", vec![kind(DependencyKind::Development, None)])]), node("b", vec![])],
        &["a", "b"],
    );
    let g = PackageGraph::build(&meta).expect("graph builds");
    assert_eq!(g.links.len(), 1);
    let link = &g.links[0];
    assert_eq!((link.from, link.to), (0, 1));
    assert_eq!(link.dep_name, "b");
    assert_eq!(link.version_req, "^0.1");
    assert!(!link.normal.required.build_if.always);
    assert!(link.normal.required.build_if.specs.is_empty());
    assert!(link.dev.required.build_if.always);
    assert!(link.dev.required.default_features_if.always);
    assert!(!link.dev.optional.build_if.always);
    assert_eq!(g.packages[0].source, PackageSource::Workspace(s("a")));
    assert_eq!(g.workspace.members.len(), 2);
}

#[test]
fn library_name_resolution() {
    let renamed = package("foo-bar", "1.0.0", vec![], vec![lib("fb")]);
    let plain = package("baz-qux", "1.0.0", vec![], vec![lib("baz-qux")]);
    let binary = package("tool", "1.0.0", vec![], vec![target("tool", &["bin"], &["bin"])]);
    let meta = metadata(vec![renamed, plain, binary], vec![], &[]);
    let g = PackageGraph::build(&meta).expect("graph builds");
    assert!(matches!(&g.packages[0].resolved_name, ResolvedName::LibNameSpecified(n) if n == "fb"));
    assert!(matches!(&g.packages[1].resolved_name, ResolvedName::LibNameNotSpecified(n) if n == "baz_qux"));
    assert!(matches!(&g.packages[2].resolved_name, ResolvedName::NoLibTarget));
}

#[test]
fn unexplained_edge_fails() {
    let a = package("a", "0.1.0", vec![], vec![lib("a")]);
    let b = package("b", "0.1.0", vec![], vec![lib("b")]);
    let meta = metadata(vec![a, b], vec![node("a", vec![edge("b", "b", vec![])])], &[]);
    assert!(matches!(PackageGraph::build(&meta), Err(Error::NoMatchingDependency { .. })));
}

#[test]
fn optional_dev_dependency_fails() {
    let mut d = dep("b", "0.1", DependencyKind::Development);
    d.optional = true;
    let a = package("a", "0.1.0", vec![d], vec![lib("a")]);
    let b = package("b", "0.1.0", vec![], vec![lib("b")]);
    let meta = metadata(vec![a, b], vec![node("a", vec![edge("b", "b", vec![])])], &[]);
    assert!(matches!(PackageGraph::build(&meta), Err(Error::OptionalDevDependency { .. })));
}

#[test]
fn version_mismatch_explains_nothing() {
    let a = package("a", "0.1.0", vec![dep("b", "^2", DependencyKind::Normal)], vec![lib("a")]);
    let b = package("b", "1.0.0", vec![], vec![lib("b")]);
    let meta = metadata(vec![a, b], vec![node("a", vec![edge("b", "b", vec![])])], &[]);
    assert!(matches!(PackageGraph::build(&meta), Err(Error::NoMatchingDependency { .. })));
}

#[test]
fn missing_dependency_package_fails() {
    let a = package("a", "0.1.0", vec![dep("b", "*", DependencyKind::Normal)], vec![lib("a")]);
    let meta = metadata(vec![a], vec![node("a", vec![edge("b", "b", vec![])])], &[]);
    assert!(matches!(PackageGraph::build(&meta), Err(Error::MissingDependency { .. })));
}

fn platform_dep(target: Option<&str>, features: &[&str]) -> Dependency {
    let mut d = dep("b", "1", DependencyKind::Normal);
    d.target = target.map(s);
    d.features = features.iter().map(|f| s(f)).collect();
    d
}

fn two_platform_graph(decls: Vec<Dependency>) -> PackageGraph {
    let a = package("a", "0.1.0", decls, vec![lib("a")]);
    let b = package("b", "1.2.0", vec![], vec![lib("b")]);
    let kinds = vec![
        kind(DependencyKind::Normal, Some("cfg(unix)")),
        kind(DependencyKind::Normal, Some("cfg(windows)")),
    ];
    let meta = metadata(vec![a, b], vec![node("a", vec![edge("b", "b", kinds)])], &[]);
    PackageGraph::build(&meta).expect("graph builds")
}

#[test]
fn instances_fold_by_union_in_any_order() {
    let g1 = two_platform_graph(vec![platform_dep(Some("cfg(unix)"), &["x"]), platform_dep(Some("cfg(windows)"), &["y"])]);
    let g2 = two_platform_graph(vec![platform_dep(Some("cfg(windows)"), &["y"]), platform_dep(Some("cfg(unix)"), &["x"])]);
    for g in [&g1, &g2] {
        assert_eq!(g.links.len(), 1);
        let req = &g.links[0].normal.required;
        assert!(!req.build_if.always);
        let mut specs = req.build_if.specs.clone();
        specs.sort();
        assert_eq!(specs, vec![s("cfg(unix)"), s("cfg(windows)")]);
        let mut features: Vec<(String, Vec<String>)> =
            req.feature_targets.iter().map(|(f, st)| (f.clone(), st.specs.clone())).collect();
        features.sort();
        assert_eq!(features, vec![(s("x"), vec![s("cfg(unix)")]), (s("y"), vec![s("cfg(windows)")])]);
    }
}

#[test]
fn unconditional_instance_makes_always() {
    let a = package("a", "0.1.0", vec![platform_dep(Some("cfg(unix)"), &[]), platform_dep(None, &[])], vec![lib("a")]);
    let b = package("b", "1.2.0", vec![], vec![lib("b")]);
    let meta = metadata(vec![a, b], vec![node("a", vec![edge("b", "b", vec![])])], &[]);
    let g = PackageGraph::build(&meta).expect("graph builds");
    assert!(g.links[0].normal.required.build_if.always);
}

#[test]
fn invalid_platform_condition_fails() {
    let a = package("a", "0.1.0", vec![platform_dep(Some("cfg(unix"), &[])], vec![lib("a")]);
    let b = package("b", "1.2.0", vec![], vec![lib("b")]);
    let meta = metadata(vec![a, b], vec![node("a", vec![edge("b", "b", vec![])])], &[]);
    assert!(matches!(PackageGraph::build(&meta), Err(Error::InvalidPlatform { .. })));
}

#[test]
fn rename_is_matched_with_underscores() {
    let mut d = dep("b", "1", DependencyKind::Normal);
    d.rename = Some(s("my-b"));
    let a = package("a", "0.1.0", vec![d], vec![lib("a")]);
    let b = package("b", "1.0.0", vec![], vec![lib("b")]);
    let meta = metadata(vec![a, b], vec![node("a", vec![edge("my_b", "b", vec![])])], &[]);
    let g = PackageGraph::build(&meta).expect("graph builds");
    assert_eq!(g.links[0].dep_name, "my-b");
    assert_eq!(g.links[0].resolved_name, "my_b");
}

#[test]
fn implicit_features_for_unmentioned_optional_dependencies() {
    let mut serde = dep("serde", "1", DependencyKind::Normal);
    serde.optional = true;
    let mut foo = dep("foo", "1", DependencyKind::Normal);
    foo.optional = true;
    let mut c = package("c", "0.1.0", vec![serde, foo], vec![lib("c")]);
    c.features = vec![(s("json"), vec![s("dep:serde")])];
    let meta = metadata(vec![c], vec![], &[]);
    let g = PackageGraph::build(&meta).expect("graph builds");
    let p = &g.packages[0];
    assert_eq!(p.optional_deps, vec![s("serde"), s("foo")]);
    let names: Vec<&str> = p.named_features.iter().map(|(n, _)| n.as_str()).collect();
    assert_eq!(names, vec!["json", "foo"]);
    assert_eq!(p.named_features[0].1, vec![NamedFeatureDep::optional_dependency("serde")]);
    assert_eq!(p.named_features[1].1, vec![NamedFeatureDep::optional_dependency("foo")]);
    assert!(!p.has_default_feature);
}

#[test]
fn unknown_optional_dependency_in_feature_fails() {
    let mut c = package("c", "0.1.0", vec![], vec![lib("c")]);
    c.features = vec![(s("json"), vec![s("dep:serde")])];
    let meta = metadata(vec![c], vec![], &[]);
    assert!(matches!(PackageGraph::build(&meta), Err(Error::UnknownOptionalDependency { .. })));
}

#[test]
fn default_feature_is_noticed() {
    let mut c = package("c", "0.1.0", vec![], vec![lib("c")]);
    c.features = vec![(s("default"), vec![])];
    let g = PackageGraph::build(&metadata(vec![c], vec![], &[])).expect("graph builds");
    assert!(g.packages[0].has_default_feature);
}

#[test]
fn proc_macro_mixed_with_other_crate_types_fails() {
    let p = package("m", "0.1.0", vec![], vec![target("m", &["lib"], &["proc-macro", "lib"])]);
    assert!(matches!(PackageGraph::build(&metadata(vec![p], vec![], &[])), Err(Error::InvalidTarget { .. })));
}

#[test]
fn duplicate_library_targets_fail() {
    let p = package("m", "0.1.0", vec![], vec![lib("m"), target("m2", &["rlib"], &["rlib"])]);
    assert!(matches!(PackageGraph::build(&metadata(vec![p], vec![], &[])), Err(Error::InvalidTarget { .. })));
}

#[test]
fn target_classification() {
    let p = package(
        "m",
        "0.1.0",
        vec![],
        vec![
            target("m", &["lib", "rlib"], &["lib", "rlib", "lib"]),
            target("tool", &["bin"], &["bin"]),
            target("ex", &["example"], &["bin"]),
            target("build-script-build", &["custom-build"], &["bin"]),
            target("t", &["test"], &["bin"]),
        ],
    );
    let g = PackageGraph::build(&metadata(vec![p], vec![], &[])).expect("graph builds");
    let ts = &g.packages[0].build_targets;
    assert!(matches!(ts[0].id, BuildTargetId::Library));
    assert!(matches!(&ts[0].kind, BuildTargetKind::LibraryOrExample(v) if v == &vec![s("lib"), s("rlib")]));
    assert!(matches!(&ts[1].id, BuildTargetId::Binary(n) if n == "tool"));
    assert!(matches!(ts[1].kind, BuildTargetKind::Binary));
    assert!(matches!(&ts[2].id, BuildTargetId::Example(n) if n == "ex"));
    assert!(matches!(ts[3].id, BuildTargetId::BuildScript));
    assert!(matches!(&ts[4].id, BuildTargetId::Test(n) if n == "t"));
}

#[test]
fn proc_macro_library() {
    let p = package("m", "0.1.0", vec![], vec![target("m", &["proc-macro"], &["proc-macro"])]);
    let g = PackageGraph::build(&metadata(vec![p], vec![], &[])).expect("graph builds");
    assert!(matches!(g.packages[0].build_targets[0].kind, BuildTargetKind::ProcMacro));
}

#[test]
fn binary_with_wrong_crate_types_fails() {
    let p = package("m", "0.1.0", vec![], vec![target("tool", &["bin"], &["lib"])]);
    assert!(matches!(PackageGraph::build(&metadata(vec![p], vec![], &[])), Err(Error::InvalidTarget { .. })));
}

#[test]
fn duplicate_workspace_names_fail() {
    let a = package("a", "0.1.0", vec![], vec![lib("a")]);
    let mut a2 = package("a", "0.2.0", vec![], vec![lib("a")]);
    a2.id = s("a2-id");
    a2.manifest_path = s("/ws/a2/Cargo.toml");
    let meta = metadata(vec![a, a2], vec![], &["a", "a2"]);
    assert!(matches!(PackageGraph::build(&meta), Err(Error::DuplicateWorkspaceName { .. })));
}

#[test]
fn missing_workspace_member_fails() {
    let a = package("a", "0.1.0", vec![], vec![lib("a")]);
    let meta = metadata(vec![a], vec![], &["a", "ghost"]);
    assert!(matches!(PackageGraph::build(&meta), Err(Error::WorkspaceMemberNotFound { .. })));
}

#[test]
fn registry_sources() {
    let mut a = package("a", "0.1.0", vec![], vec![lib("a")]);
    a.source = Some(s("registry+https://github.com/rust-lang/crates.io-index"));
    let mut b = package("b", "0.1.0", vec![], vec![lib("b")]);
    b.source = Some(s("git+https://example.com/b"));
    let c = package("c", "0.1.0", vec![], vec![lib("c")]);
    let g = PackageGraph::build(&metadata(vec![a, b, c], vec![], &[])).expect("graph builds");
    assert_eq!(g.packages[0].source, PackageSource::CratesIo);
    assert_eq!(g.packages[1].source, PackageSource::External(s("git+https://example.com/b")));
    assert_eq!(g.packages[2].source, PackageSource::Path(s("c")));
}

#[test]
fn topological_order_follows_acyclic_edges() {
    // 2 -> 1 -> 0, and 2 -> 0
    let succ = vec![vec![], vec![0], vec![1, 0]];
    let t = TopoWithCycles::from_successors(succ);
    assert!(t.topo_ix(2) < t.topo_ix(1));
    assert!(t.topo_ix(1) < t.topo_ix(0));
    let mut nodes = vec![0, 2, 1];
    t.sort_nodes(&mut nodes);
    assert_eq!(nodes, vec![2, 1, 0]);
}

#[test]
fn topological_order_covers_cycles() {
    // 0 -> 1 -> 2 -> 0, 3 -> 0
    let succ = vec![vec![1], vec![2], vec![0], vec![0]];
    let t = TopoWithCycles::from_successors(succ);
    let mut ranks: Vec<usize> = (0..4).map(|v| t.topo_ix(v)).collect();
    assert!(t.topo_ix(3) < t.topo_ix(0));
    ranks.sort();
    assert_eq!(ranks, vec![0, 1, 2, 3]);
    // a cycle with no root at all is still ordered in full
    let t = TopoWithCycles::from_successors(vec![vec![1], vec![0]]);
    let mut ranks = vec![t.topo_ix(0), t.topo_ix(1)];
    ranks.sort();
    assert_eq!(ranks, vec![0, 1]);
}

#[test]
fn topological_order_of_a_graph() {
    let a = package("a", "0.1.0", vec![dep("b", "^0.1", DependencyKind::Normal)], vec![lib("a")]);
    let b = package("b", "0.1.0", vec![], vec![lib("b")]);
    let meta = metadata(vec![a, b], vec![node("a", vec![edge("b", "b", vec![])])], &[]);
    let g = PackageGraph::build(&meta).expect("graph builds");
    let t = TopoWithCycles::new(&g);
    assert!(t.topo_ix(0) < t.topo_ix(1));
}

#[test]
fn workspace_members_are_ordered_by_path() {
    let z = package("zeta", "0.1.0", vec![], vec![lib("zeta")]);
    let a = package("alpha", "0.1.0", vec![], vec![lib("alpha")]);
    let m = package("mid", "0.1.0", vec![], vec![lib("mid")]);
    let mut meta = metadata(vec![z, a, m], vec![], &["zeta", "alpha", "mid"]);
    meta.workspace_default_members = vec![s("mid-id")];
    let g = PackageGraph::build(&meta).expect("graph builds");
    let paths: Vec<&str> = g.workspace.members.iter().map(|(p, _)| p.as_str()).collect();
    assert_eq!(paths, vec!["alpha", "mid", "zeta"]);
    let ids: Vec<usize> = g.workspace.members.iter().map(|(_, i)| *i).collect();
    assert_eq!(ids, vec![1, 2, 0]);
    assert_eq!(g.workspace.default_members, vec![2]);
}

#[test]
fn default_member_must_be_a_member() {
    let a = package("a", "0.1.0", vec![], vec![lib("a")]);
    let b = package("b", "0.1.0", vec![], vec![lib("b")]);
    let mut meta = metadata(vec![a, b], vec![], &["a"]);
    meta.workspace_default_members = vec![s("b-id")];
    assert!(matches!(PackageGraph::build(&meta), Err(Error::DefaultMemberNotMember { .. })));
}

#[test]
fn member_outside_root_uses_best_effort_path() {
    let mut a = package("a", "0.1.0", vec![], vec![lib("a")]);
    a.manifest_path = s("/elsewhere/a/Cargo.toml");
    let meta = metadata(vec![a], vec![], &["a"]);
    let g = PackageGraph::build(&meta).expect("graph builds");
    assert_eq!(g.packages[0].source, PackageSource::Workspace(s("../elsewhere/a")));
}

#[test]
fn empty_metadata_builds_empty_graph() {
    let meta = metadata(vec![], vec![], &[]);
    let g = PackageGraph::build(&meta).expect("graph builds");
    assert!(g.packages.is_empty());
    assert!(g.links.is_empty());
    assert!(g.workspace.members.is_empty());
    assert_eq!(g.workspace.root, "/ws");
}

#[test]
fn unresolved_metadata_has_no_links() {
    let a = package("a", "0.1.0", vec![dep("b", "^0.1", DependencyKind::Normal)], vec![lib("a")]);
    let b = package("b", "0.1.0", vec![], vec![lib("b")]);
    let mut meta = metadata(vec![a, b], vec![], &[]);
    meta.resolve = None;
    let g = PackageGraph::build(&meta).expect("graph builds");
    assert_eq!(g.packages.len(), 2);
    assert!(g.links.is_empty());
}

#[test]
fn repeated_edges_to_one_package_merge_into_one_link() {
    let mut normal = dep("b", "^0.1", DependencyKind::Normal);
    normal.rename = Some(s("b1"));
    let mut build = dep("b", "^0.1", DependencyKind::Build);
    build.rename = Some(s("b2"));
    let a = package("a", "0.1.0", vec![normal, build], vec![lib("a")]);
    let b = package("b", "0.1.0", vec![], vec![lib("b")]);
    let meta = metadata(
        vec![a, b],
        vec![node("a", vec![edge("b1", "b", vec![]), edge("b2", "b", vec![])])],
        &[],
    );
    let g = PackageGraph::build(&meta).expect("graph builds");
    assert_eq!(g.links.len(), 1);
    // the later edge's declarations make the link
    assert_eq!(g.links[0].resolved_name, "b2");
    assert!(g.links[0].build.required.build_if.always);
}
