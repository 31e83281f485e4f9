use guppy_graph::cli::{parse_direction, BaseFilterOptions, DependencyDirection, FilterOptions, Kind, QueryError, QueryOptions};
use guppy_graph::errors::{ExpressionParseDiagnostic, ExpressionParseError, ExpressionParseErrorKind, IntoMietteDiagnostic, PlainStringParseDiagnostic, TargetSpecError};
use guppy_graph::generate::{parse_count, GenerateHakariOpts, GenerateMode, GenerateOpts, GenerateSummariesOpts, ItemAction};
use guppy_graph::graph::PackageGraph;
use guppy_graph::metadata::{Dependency, DependencyKind, Metadata, Node, NodeDep, Package, Target};
use guppy_graph::platform::{parse_target_spec, TargetSpec};

fn s(x: &str) -> String {
    x.to_string()
}

fn package(name: &str, deps: Vec<Dependency>) -> Package {
    Package {
        name: s(name),
        version: s("1.0.0"),
        id: format!("{name}-id"),
        source: if name == "ext" { Some(s("registry+https://github.com/rust-lang/crates.io-index")) } else { None },
        manifest_path: format!("/ws/{name}/Cargo.toml"),
        dependencies: deps,
        targets: vec![Target {
            name: s(name),
            kind: vec![s("lib")],
            crate_types: vec![s("lib")],
            required_features: vec![],
            src_path: format!("/ws/{name}/src/lib.rs"),
            edition: s("2021"),
            doctest: true,
        }],
        features: vec![],
        publish: None,
        edition: s("2021"),
        rust_version: None,
    }
}

fn dep(name: &str) -> Dependency {
    Dependency {
        name: s(name),
        rename: None,
        req: s("1"),
        kind: DependencyKind::Normal,
        target: None,
        optional: false,
        uses_default_features: true,
        features: vec![],
    }
}

/// `app` (member) -> `lib1` (member) -> `ext` (registry)
fn graph() -> PackageGraph {
    let meta = Metadata {
        packages: vec![package("app", vec![dep("lib1")]), package("lib1", vec![dep("ext")]), package("ext", vec![])],
        resolve: Some(vec![
            Node { id: s("app-id"), deps: vec![NodeDep { name: s("lib1"), pkg: s("lib1-id"), dep_kinds: vec![] }] },
            Node { id: s("lib1-id"), deps: vec![NodeDep { name: s("ext"), pkg: s("ext-id"), dep_kinds: vec![] }] },
        ]),
        workspace_members: vec![s("app-id"), s("lib1-id")],
        workspace_default_members: vec![s("app-id")],
        workspace_root: s("/ws"),
        target_directory: s("/ws/target"),
    };
    PackageGraph::build(&meta).expect("graph builds")
}

#[test]
fn kinds_of_traversal() {
    let g = graph();
    let inner = &g.links[0];
    let outer = &g.links[1];
    assert_eq!((inner.from, inner.to), (0, 1));
    assert_eq!((outer.from, outer.to), (1, 2));
    assert!(Kind::All.should_traverse(&g, outer));
    assert!(Kind::ThirdParty.should_traverse(&g, outer));
    assert!(Kind::DirectThirdParty.should_traverse(&g, outer));
    assert!(Kind::Workspace.should_traverse(&g, inner));
    assert!(!Kind::Workspace.should_traverse(&g, outer));
    assert_eq!(g.workspace.default_members, vec![0]);
}

#[test]
fn query_options() {
    let g = graph();
    let q = QueryOptions { direction: DependencyDirection::Reverse, roots: vec![s("ext")] };
    let r = q.apply(&g).expect("roots given");
    assert_eq!(r.roots, vec![2]);
    assert_eq!(r.direction, DependencyDirection::Reverse);
    let q = QueryOptions { direction: DependencyDirection::Reverse, roots: vec![] };
    assert_eq!(q.apply(&g).unwrap_err(), QueryError::ReverseWithoutRoots);
    let q = QueryOptions { direction: parse_direction(false), roots: vec![] };
    assert_eq!(q.apply(&g).expect("forward").roots, vec![0, 1]);
    assert_eq!(parse_direction(true), DependencyDirection::Reverse);
}

#[test]
fn filter_options() {
    let g = graph();
    let base = BaseFilterOptions { omit_edges_into: vec![s("ext")], kind: Kind::All };
    assert_eq!(base.omitted_package_ids(&g), vec![2]);
    let f = FilterOptions { base_opts: base, include_dev: true, include_build: false, target: None };
    assert!(f.eval(false, true, false));
    assert!(!f.eval(false, false, true));
    assert!(f.keeps(&g, &g.links[0], true, false, false));
    assert!(!f.keeps(&g, &g.links[1], true, false, false));
}

#[test]
fn default_counts() {
    assert_eq!(GenerateSummariesOpts::default_count(), 8);
    assert_eq!(GenerateHakariOpts::default_count(), 4);
    assert_eq!(parse_count("123"), Some(123));
    assert_eq!(parse_count(""), None);
    assert_eq!(parse_count("1x"), None);
    assert_eq!(parse_count("99999999999999999999999"), None);
}

#[test]
fn generate_decisions() {
    let check = GenerateOpts { mode: GenerateMode::Check, fixtures: vec![] };
    assert_eq!(check.item_action(true), ItemAction::Report);
    assert_eq!(check.item_action(false), ItemAction::Skip);
    assert_eq!(check.outcome(2), Err(2));
    assert_eq!(check.outcome(0), Ok(0));
    let force = GenerateOpts { mode: GenerateMode::Force, fixtures: vec![] };
    assert!(force.force());
    assert_eq!(force.item_action(false), ItemAction::Write);
    let generate = GenerateOpts { mode: GenerateMode::Generate, fixtures: vec![] };
    assert_eq!(generate.item_action(true), ItemAction::Write);
    assert_eq!(generate.item_action(false), ItemAction::Skip);
    assert_eq!(generate.outcome(3), Ok(3));
}

#[test]
fn expression_error_span_inside_cfg() {
    let e = ExpressionParseError::new("cfg()", 0, 0, ExpressionParseErrorKind::Empty);
    assert_eq!(e.span, (4, 4));
    let e = ExpressionParseError::new("target_os = \"macos", 12, 18, ExpressionParseErrorKind::UnclosedQuotes);
    assert_eq!(e.span, (12, 18));
}

#[test]
fn target_spec_parsing() {
    assert!(matches!(parse_target_spec("cfg(unix)"), Ok(TargetSpec::Expression(t)) if t == "cfg(unix)"));
    assert!(matches!(parse_target_spec("x86_64-unknown-linux-gnu"), Ok(TargetSpec::PlainString(_))));
    match parse_target_spec("cfg()") {
        Err(TargetSpecError::InvalidExpression(e)) => {
            assert_eq!(e.input, "cfg()");
            assert!(matches!(e.kind, ExpressionParseErrorKind::Empty));
            assert_eq!(e.span, (4, 4));
            let d = e.into_diagnostic();
            assert_eq!(d.0.input, "cfg()");
        }
        other => panic!("unexpected {other:?}"),
    }
    match parse_target_spec("foo bar") {
        Err(TargetSpecError::InvalidTargetSpecString(e)) => {
            assert_eq!(e.char_index, 3);
            assert_eq!(e.character, ' ');
            assert_eq!(e.span(), (3, 1));
            let d = PlainStringParseDiagnostic::new(e);
            assert_eq!(d.input, "foo bar");
        }
        other => panic!("unexpected {other:?}"),
    }
    match parse_target_spec("aé b") {
        Err(TargetSpecError::InvalidTargetSpecString(e)) => {
            assert_eq!(e.char_index, 1);
            assert_eq!(e.span(), (1, 2));
        }
        other => panic!("unexpected {other:?}"),
    }
}

#[test]
fn diagnostic_wraps_error() {
    let e = ExpressionParseError::new("cfg(", 0, 0, ExpressionParseErrorKind::UnclosedParens);
    let d = ExpressionParseDiagnostic::new(e);
    assert_eq!(d.0.input, "cfg(");
}
