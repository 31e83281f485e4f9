use camino::Utf8PathBuf;
use guppy_graph::features::NamedFeatureDep;
use guppy_graph::graph::{create_path, PackageSource};
use guppy_graph::paths::{convert_forward_slashes, find_relative_path_utf8};

#[test]
fn test_parse_named_feature_dependency() {
    assert_eq!(
        NamedFeatureDep::from_cargo_string("dep/bar"),
        NamedFeatureDep::dep_named_feature("dep", "bar", false),
    );
    assert_eq!(
        NamedFeatureDep::from_cargo_string("dep?/bar"),
        NamedFeatureDep::dep_named_feature("dep", "bar", true),
    );
    assert_eq!(
        NamedFeatureDep::from_cargo_string("dep:bar"),
        NamedFeatureDep::optional_dependency("bar"),
    );
    assert_eq!(
        NamedFeatureDep::from_cargo_string("foo-bar"),
        NamedFeatureDep::named_feature("foo-bar"),
    );
}

#[test]
fn test_create_path() {
    assert_eq!(
        create_path("/data/foo", "/data/bar"),
        PackageSource::Path("../foo".into())
    );
    assert_eq!(
        create_path("/tmp/foo", "/data/bar"),
        PackageSource::Path("../../tmp/foo".into())
    );
}

#[test]
fn test_create_path_windows() {
    // Relative paths are stored with forward slashes.
    assert_eq!(
        create_path("C:\\data\\foo", "C:\\data\\bar"),
        PackageSource::Path("../foo".into())
    );
    // Paths that span drives cannot be stored as relative.
    assert_eq!(
        create_path("D:\\tmp\\foo", "C:\\data\\bar"),
        PackageSource::Path("D:\\tmp\\foo".into())
    );
}

#[test]
fn test_convert_forward_slashes() {
    let components = vec!["..", "..", "foo", "bar", "baz.txt"];
    let path: Utf8PathBuf = components.into_iter().collect();
    let path = convert_forward_slashes(path.as_str());
    assert_eq!(path.as_str(), "../../foo/bar/baz.txt");
}

#[test]
fn build_test_workspace_path_out_of_pocket() {
    let path_workspace_root = "/workspace/a/b/.cargo/workspace";
    let path_manifest = "/workspace/a/b/Crate/Cargo.toml";

    let expected_relative_path = r"../../Crate/Cargo.toml";

    let relative_path = find_relative_path_utf8(path_workspace_root, path_manifest);
    assert_eq!(convert_forward_slashes(&relative_path), expected_relative_path);
}

#[test]
fn build_path_out_of_root_helper_test_workspace_path_out_of_pocket() {
    let path_workspace_root = "/workspace/a/b/.cargo/workspace";
    let path_manifest = "/workspace/a/b/Crate/Cargo.toml";

    let expected_relative_path = "../../Crate/Cargo.toml";

    let relative_path = find_relative_path_utf8(path_workspace_root, path_manifest);
    assert_eq!(relative_path, expected_relative_path);
}
