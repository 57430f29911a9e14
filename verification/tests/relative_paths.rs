use reference_table::calculate_relative_path;

#[test]
fn test_same_directory() {
    let src_file = "/path/to/dir/file.md";
    let target_file = "/path/to/dir/another_file.md";
    assert_eq!(
        calculate_relative_path(&src_file, &target_file),
        "./another_file.md"
    );
}

#[test]
fn test_path_from_nested_to_parent() {
    let src_file = "/path/to/dir/subdir/file.md";
    let target_file = "/path/to/dir/file.md";
    assert_eq!(calculate_relative_path(&src_file, &target_file), "../file.md");
}

#[test]
fn test_path_from_parent_to_nested() {
    let src_file = "/path/to/dir/file.md";
    let target_file = "/path/to/dir/subdir/file.md";
    assert_eq!(
        calculate_relative_path(&src_file, &target_file),
        "./subdir/file.md"
    );
}

#[test]
fn test_sibling_directories() {
    let src_file = "/path/to/dir1/file.md";
    let target_file = "/path/to/dir2/file.md";
    assert_eq!(
        calculate_relative_path(&src_file, &target_file),
        "../dir2/file.md"
    );
}

#[test]
fn test_deeply_nested_path() {
    let src_file = "/file.md";
    let target_file = "/path/to/nested/dir/file.md";
    assert_eq!(
        calculate_relative_path(&src_file, &target_file),
        "./path/to/nested/dir/file.md"
    );
}

#[test]
fn test_root_to_nested() {
    let src_file = "/root_file.md";
    let target_file = "/path/to/nested/file.md";
    assert_eq!(
        calculate_relative_path(&src_file, &target_file),
        "./path/to/nested/file.md"
    );
}

#[test]
fn test_nested_to_root() {
    let src_file = "/path/to/nested/dir/file.md";
    let target_file = "/root_file.md";
    assert_eq!(
        calculate_relative_path(&src_file, &target_file),
        "../../../../root_file.md"
    );
}

#[test]
fn test_same_path() {
    let src_file = "/path/to/dir/file.md";
    let target_file = "/path/to/dir/file.md";
    assert_eq!(calculate_relative_path(&src_file, &target_file), "");
}

#[test]
fn identical_paths_give_empty_string() {
    assert_eq!(calculate_relative_path("/a/b/file.md", "/a/b/file.md"), "");
    assert_eq!(calculate_relative_path("docs/x.md", "docs/x.md"), "");
}

#[test]
fn same_directory_target() {
    assert_eq!(
        calculate_relative_path("/a/b/file.md", "/a/b/other.md"),
        "./other.md"
    );
}

#[test]
fn target_in_parent_directory() {
    assert_eq!(
        calculate_relative_path("/a/b/sub/file.md", "/a/b/file.md"),
        "../file.md"
    );
}

#[test]
fn target_in_subdirectory() {
    assert_eq!(
        calculate_relative_path("/a/b/file.md", "/a/b/sub/file.md"),
        "./sub/file.md"
    );
}

#[test]
fn target_in_sibling_directory() {
    assert_eq!(
        calculate_relative_path("/a/b1/file.md", "/a/b2/file.md"),
        "../b2/file.md"
    );
}

#[test]
fn root_level_source_to_nested_target() {
    assert_eq!(
        calculate_relative_path("/file.md", "/a/b/c/file.md"),
        "./a/b/c/file.md"
    );
}

#[test]
fn root_relative_inputs_without_leading_slash() {
    assert_eq!(
        calculate_relative_path("ch2/doc.md", "chapter1/file.md"),
        "../chapter1/file.md"
    );
    assert_eq!(calculate_relative_path("intro.md", "guide/index.md"), "./guide/index.md");
}

#[test]
fn ascent_only_target() {
    assert_eq!(
        calculate_relative_path("/a/b/c/file.md", "/a/file2.md"),
        "../../file2.md"
    );
}
