use guppy_graph::paths::{find_relative_path_utf8, resolve_relative_path};

#[test]
fn windows_sibling_directory() {
    assert_eq!(resolve_relative_path("C:\\data\\foo", "C:\\data\\bar").as_deref(), Some("../foo"));
}

#[test]
fn windows_descendant_and_ancestor() {
    assert_eq!(resolve_relative_path("C:\\data\\foo\\bar", "C:\\data").as_deref(), Some("foo/bar"));
    assert_eq!(resolve_relative_path("C:\\data", "C:\\data\\foo\\bar").as_deref(), Some("../.."));
}

#[test]
fn windows_self_is_dot_with_or_without_trailing_slash() {
    assert_eq!(resolve_relative_path("C:\\foo\\", "C:\\foo\\").as_deref(), Some("."));
    assert_eq!(resolve_relative_path("C:\\foo", "C:\\foo").as_deref(), Some("."));
    assert_eq!(resolve_relative_path("C:\\foo\\", "C:\\foo").as_deref(), Some("."));
}

#[test]
fn windows_trailing_slash_does_not_change_result() {
    assert_eq!(
        resolve_relative_path("C:\\a\\b\\", "C:\\a\\c"),
        resolve_relative_path("C:\\a\\b", "C:\\a\\c\\")
    );
}

#[test]
fn windows_drive_letters_compare_case_insensitively() {
    assert_eq!(resolve_relative_path("c:\\data\\foo", "C:\\data\\bar").as_deref(), Some("../foo"));
}

#[test]
fn windows_different_drives_are_unrelated() {
    assert_eq!(resolve_relative_path("D:\\tmp\\foo", "C:\\data\\bar"), None);
}

#[test]
fn unc_paths_on_same_share() {
    assert_eq!(
        resolve_relative_path("\\\\server\\share\\a\\b", "\\\\server\\share\\a\\c").as_deref(),
        Some("../b")
    );
}

#[test]
fn unc_different_share_or_server_is_unrelated() {
    assert_eq!(resolve_relative_path("\\\\server\\one\\a", "\\\\server\\two\\a"), None);
    assert_eq!(resolve_relative_path("\\\\alpha\\share\\a", "\\\\beta\\share\\a"), None);
}

#[test]
fn unc_server_compares_case_sensitively() {
    assert_eq!(resolve_relative_path("\\\\Server\\share\\a", "\\\\server\\share\\a"), None);
}

#[test]
fn verbatim_unc_and_verbatim_disk() {
    assert_eq!(
        resolve_relative_path("\\\\?\\UNC\\server\\share\\x\\y", "\\\\?\\UNC\\server\\share\\x").as_deref(),
        Some("y")
    );
    assert_eq!(resolve_relative_path("\\\\?\\C:\\x\\y", "\\\\?\\C:\\z").as_deref(), Some("../x/y"));
    // the verbatim and the plain drive forms are different roots
    assert_eq!(resolve_relative_path("\\\\?\\C:\\x", "C:\\x"), None);
}

#[test]
fn mixed_styles_are_unrelated() {
    assert_eq!(resolve_relative_path("C:\\data", "/data"), None);
    assert_eq!(resolve_relative_path("/data", "C:\\data"), None);
}

#[test]
fn posix_paths() {
    assert_eq!(resolve_relative_path("/data/foo", "/data/bar").as_deref(), Some("../foo"));
    assert_eq!(resolve_relative_path("/foo/bar/baz", "/foo/bar").as_deref(), Some("baz"));
}

#[test]
fn best_effort_relative_path_when_to_is_shorter() {
    assert_eq!(find_relative_path_utf8("/a/b/c", "/a"), "");
    assert_eq!(find_relative_path_utf8("/a/x/c", "/a/y"), "../../y");
}
