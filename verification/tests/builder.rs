use get_dir::config::{get_project_root, get_project_root_directory};
use get_dir::fs_model::{is_target_exists, is_targets_exist, node_at_exec, search_targets};
use get_dir::{DirTarget, FileTarget, FsDir, GetDir, SearchError, Target};

fn dir(name: &str, files: &[&str], dirs: Vec<FsDir>) -> FsDir {
    FsDir {
        name: name.to_string(),
        files: files.iter().map(|f| f.to_string()).collect(),
        dirs,
        listable: true,
    }
}

fn path(parts: &[&str]) -> Vec<String> {
    parts.iter().map(|s| s.to_string()).collect()
}

#[test]
fn test_new_defaults() {
    let config = GetDir::new();
    assert_eq!(config.dir, path(&[]));
    assert_eq!(config.depth, usize::MAX);
    assert!(config.targets.is_empty());
}

#[test]
fn test_default_matches_new() {
    let config: GetDir = Default::default();
    assert_eq!(config.dir, path(&[]));
    assert_eq!(config.depth, usize::MAX);
    assert!(config.targets.is_empty());
}

#[test]
fn test_builder_applies_calls_in_order() {
    let config = GetDir::new()
        .directory(path(&["a"]))
        .dir(path(&["b", "c"]))
        .depth(7)
        .target(Target::Dir(DirTarget::new("one")))
        .targets(vec![
            Target::File(FileTarget::new("two")),
            Target::Dir(DirTarget::new("three")),
        ]);

    assert_eq!(config.dir, path(&["b", "c"]));
    assert_eq!(config.depth, 7);
    assert_eq!(
        config.targets,
        vec![
            Target::Dir(DirTarget::new("one")),
            Target::File(FileTarget::new("two")),
            Target::Dir(DirTarget::new("three")),
        ]
    );
}

#[test]
fn test_target_equality_is_by_kind_and_name() {
    assert_eq!(
        Target::Dir(DirTarget::new("src")),
        Target::Dir(DirTarget::new("src"))
    );
    assert_ne!(
        Target::Dir(DirTarget::new("src")),
        Target::File(FileTarget::new("src"))
    );
    assert_ne!(
        Target::File(FileTarget::new("a")),
        Target::File(FileTarget::new("b"))
    );
    let original = Target::File(FileTarget::new("Cargo.lock"));
    assert_eq!(original.clone(), original);
}

#[test]
fn test_matcher_checks_direct_children_only() {
    let tree = dir(
        "",
        &["top.txt"],
        vec![dir("sub", &["deep.txt"], vec![])],
    );

    assert!(is_target_exists(&tree, &Target::File(FileTarget::new("top.txt"))));
    assert!(is_target_exists(&tree, &Target::Dir(DirTarget::new("sub"))));
    // Nested entries never match: containment is direct only.
    assert!(!is_target_exists(&tree, &Target::File(FileTarget::new("deep.txt"))));
    // A name of the wrong kind does not match.
    assert!(!is_target_exists(&tree, &Target::Dir(DirTarget::new("top.txt"))));
    assert!(!is_target_exists(&tree, &Target::File(FileTarget::new("sub"))));
    // A missing child is no error, just false.
    assert!(!is_target_exists(&tree, &Target::File(FileTarget::new("absent"))));
}

#[test]
fn test_any_matcher_is_or_over_targets() {
    let tree = dir("", &["b.txt"], vec![]);
    let none: Vec<Target> = vec![];
    let miss = vec![Target::File(FileTarget::new("a.txt"))];
    let hit_second = vec![
        Target::File(FileTarget::new("a.txt")),
        Target::File(FileTarget::new("b.txt")),
    ];

    assert!(!is_targets_exist(&tree, &none));
    assert!(!is_targets_exist(&tree, &miss));
    assert!(is_targets_exist(&tree, &hit_second));
    assert_eq!(search_targets(&tree, &none), false);
    assert_eq!(search_targets(&tree, &hit_second), true);
}

#[test]
fn test_node_resolution() {
    let tree = dir("", &[], vec![dir("a", &[], vec![dir("b", &["f"], vec![])])]);

    let node = node_at_exec(&tree, &path(&["a", "b"])).unwrap();
    assert_eq!(node.files, path(&["f"]));
    assert!(node_at_exec(&tree, &path(&["a", "missing"])).is_none());
    assert!(node_at_exec(&tree, &path(&[])).is_some());
}

#[test]
fn test_project_root_found_by_either_marker() {
    let by_lock = dir(
        "",
        &["Cargo.lock"],
        vec![dir("crates", &[], vec![dir("lib", &[], vec![])])],
    );
    assert_eq!(
        get_project_root_directory(&by_lock, path(&["crates", "lib"])),
        Ok(path(&[]))
    );

    let by_target_dir = dir(
        "",
        &[],
        vec![
            dir("target", &[], vec![]),
            dir("crates", &[], vec![dir("lib", &[], vec![])]),
        ],
    );
    assert_eq!(
        get_project_root_directory(&by_target_dir, path(&["crates", "lib"])),
        Ok(path(&[]))
    );
    assert_eq!(
        get_project_root(&by_target_dir, path(&["crates", "lib"])),
        path(&[])
    );
}

#[test]
fn test_project_root_not_found() {
    let tree = dir("", &[], vec![dir("a", &[], vec![])]);
    assert_eq!(
        get_project_root_directory(&tree, path(&["a"])),
        Err(SearchError::NotFound)
    );
}

#[test]
fn test_not_found_error_message() {
    let err = SearchError::NotFound;
    assert_eq!(err, err.clone());
    assert_eq!(err.message(), "entity not found");
}
