use get_dir::{DirTarget, FileTarget, FsDir, GetDir, SearchError, Target};

fn dir(name: &str, files: &[&str], dirs: Vec<FsDir>) -> FsDir {
    FsDir {
        name: name.to_string(),
        files: files.iter().map(|f| f.to_string()).collect(),
        dirs,
        listable: true,
    }
}

fn path(parts: &[&str]) -> Vec<String> {
    parts.iter().map(|s| s.to_string()).collect()
}

/// A tree shaped like a small workspace:
/// `/{Cargo.toml, Cargo.lock, LICENSE, package/{Cargo.toml, src/{lib.rs, util.rs}}, target/}`.
fn workspace() -> FsDir {
    dir(
        "",
        &["Cargo.toml", "Cargo.lock", "LICENSE"],
        vec![
            dir(
                "package",
                &["Cargo.toml"],
                vec![dir("src", &["lib.rs", "util.rs"], vec![])],
            ),
            dir("target", &[], vec![]),
        ],
    )
}

#[test]
fn test_get_dir_by_target_dir() {
    let tree = workspace();
    let found = GetDir::new()
        .target(Target::Dir(DirTarget::new("src")))
        .run(&tree)
        .unwrap();

    assert_eq!(found, path(&["package"]));
}

#[test]
fn test_get_dir_by_target_file() {
    let tree = workspace();
    let found = GetDir::new()
        .target(Target::File(FileTarget::new("Cargo.toml")))
        .run(&tree)
        .unwrap();

    assert_eq!(found, path(&[]));
}

#[test]
fn test_get_dir_by_target_reverse_dir() {
    let tree = workspace();
    let found = GetDir::new()
        .dir(path(&["package", "src"]))
        .target(Target::Dir(DirTarget::new("target")))
        .run_reverse(&tree)
        .unwrap();

    assert_eq!(found, path(&[]));
}

#[test]
fn test_get_dir_by_target_reverse_file() {
    let tree = workspace();
    let found = GetDir::new()
        .dir(path(&["package", "src"]))
        .target(Target::File(FileTarget::new("LICENSE")))
        .run_reverse(&tree)
        .unwrap();

    assert_eq!(found, path(&[]));
}

#[test]
fn test_get_dir_by_target_file_in_specific_dir() {
    let tree = workspace();
    let found = GetDir::new()
        .dir(path(&["package"]))
        .target(Target::File(FileTarget::new("lib.rs")))
        .run(&tree)
        .unwrap();

    assert_eq!(found, path(&["package", "src"]));
}

#[test]
fn test_get_dir_with_depth_limit() {
    let tree = workspace();
    let target = Target::File(FileTarget::new("lib.rs"));

    let shallow = GetDir::new()
        .dir(path(&["package"]))
        .depth(1)
        .target(target.clone())
        .run(&tree);
    assert_eq!(shallow, Err(SearchError::NotFound));

    let deep = GetDir::new()
        .dir(path(&["package"]))
        .depth(2)
        .target(target)
        .run(&tree);
    assert_eq!(deep, Ok(path(&["package", "src"])));
}

#[test]
fn test_get_dir_reverse_with_depth_limit() {
    let tree = workspace();
    let target = Target::File(FileTarget::new("Cargo.lock"));

    let shallow = GetDir::new()
        .dir(path(&["package"]))
        .depth(1)
        .target(target.clone())
        .run_reverse(&tree);
    assert_eq!(shallow, Err(SearchError::NotFound));

    let deep = GetDir::new()
        .dir(path(&["package"]))
        .depth(2)
        .target(target)
        .run_reverse(&tree);
    assert_eq!(deep, Ok(path(&[])));
}

#[test]
fn test_breadth_first_prefers_shallowest_match() {
    // A deep match under the first child must lose to a shallow match
    // under the second child.
    let tree = dir(
        "",
        &[],
        vec![
            dir("a", &[], vec![dir("b", &[], vec![dir("marker", &[], vec![])])]),
            dir("marker", &[], vec![]),
        ],
    );
    let found = GetDir::new()
        .target(Target::Dir(DirTarget::new("marker")))
        .run(&tree)
        .unwrap();

    // The root itself contains `marker`, so the root wins over `a/b`.
    assert_eq!(found, path(&[]));
}

#[test]
fn test_sibling_order_follows_listing_order() {
    // Two siblings match at the same depth: the first in listing order wins.
    let tree = dir(
        "",
        &[],
        vec![
            dir("one", &["hit"], vec![]),
            dir("two", &["hit"], vec![]),
        ],
    );
    let found = GetDir::new()
        .target(Target::File(FileTarget::new("hit")))
        .run(&tree)
        .unwrap();

    assert_eq!(found, path(&["one"]));
}

#[test]
fn test_unlistable_branch_is_skipped_not_fatal() {
    // The subtree under `closed` holds a match but cannot be listed; the
    // search must still find the match under `open`.
    let closed = FsDir {
        name: "closed".to_string(),
        files: vec![],
        dirs: vec![dir("marker", &[], vec![])],
        listable: false,
    };
    let tree = dir(
        "",
        &[],
        vec![closed, dir("open", &[], vec![dir("marker", &[], vec![])])],
    );
    let found = GetDir::new()
        .target(Target::Dir(DirTarget::new("marker")))
        .run(&tree)
        .unwrap();

    // `closed` itself is probed (it directly contains `marker`), so it
    // matches even though it cannot be listed.
    assert_eq!(found, path(&["closed"]));

    // Once the target sits one level deeper, the unlistable branch
    // yields nothing and the open branch wins.
    let tree2 = dir(
        "",
        &[],
        vec![
            FsDir {
                name: "closed".to_string(),
                files: vec![],
                dirs: vec![dir("inner", &[], vec![dir("marker2", &[], vec![])])],
                listable: false,
            },
            dir("open", &[], vec![dir("inner", &[], vec![dir("marker2", &[], vec![])])]),
        ],
    );
    let found2 = GetDir::new()
        .target(Target::Dir(DirTarget::new("marker2")))
        .run(&tree2)
        .unwrap();
    assert_eq!(found2, path(&["open", "inner"]));
}

#[test]
fn test_empty_targets_always_not_found() {
    let tree = workspace();
    assert_eq!(GetDir::new().run(&tree), Err(SearchError::NotFound));
    assert_eq!(GetDir::new().run_reverse(&tree), Err(SearchError::NotFound));
    assert_eq!(
        GetDir::new().dir(path(&["package", "src"])).run(&tree),
        Err(SearchError::NotFound)
    );
    assert_eq!(
        GetDir::new().dir(path(&["package", "src"])).run_reverse(&tree),
        Err(SearchError::NotFound)
    );
}

#[test]
fn test_missing_start_directory_is_not_found() {
    let tree = workspace();
    let r = GetDir::new()
        .dir(path(&["no", "such", "dir"]))
        .target(Target::File(FileTarget::new("Cargo.toml")))
        .run(&tree);
    assert_eq!(r, Err(SearchError::NotFound));
}

#[test]
fn test_reverse_from_missing_start_probes_existing_ancestors() {
    // The starting path does not resolve, but its existing ancestors are
    // still probed on the way up.
    let tree = workspace();
    let r = GetDir::new()
        .dir(path(&["package", "ghost"]))
        .target(Target::File(FileTarget::new("Cargo.toml")))
        .run_reverse(&tree)
        .unwrap();
    assert_eq!(r, path(&["package"]));
}

#[test]
fn test_depth_zero_is_not_found() {
    let tree = workspace();
    let target = Target::File(FileTarget::new("Cargo.toml"));
    assert_eq!(
        GetDir::new().depth(0).target(target.clone()).run(&tree),
        Err(SearchError::NotFound)
    );
    assert_eq!(
        GetDir::new().depth(0).target(target).run_reverse(&tree),
        Err(SearchError::NotFound)
    );
}

#[test]
fn test_search_twice_is_idempotent() {
    let tree = workspace();
    let make = || {
        GetDir::new()
            .dir(path(&["package"]))
            .target(Target::File(FileTarget::new("lib.rs")))
    };
    let first = make().run(&tree);
    let second = make().run(&tree);
    assert_eq!(first, second);

    let up_first = make().run_reverse(&tree);
    let up_second = make().run_reverse(&tree);
    assert_eq!(up_first, up_second);
}

/// The tree `root/{Cargo.lock, src/lib.rs, target/}`.
fn anchored_root() -> FsDir {
    dir(
        "",
        &["Cargo.lock"],
        vec![dir("src", &["lib.rs"], vec![]), dir("target", &[], vec![])],
    )
}

#[test]
fn test_scenario_down_dir_and_up_file() {
    let tree = anchored_root();
    let down = GetDir::new()
        .target(Target::Dir(DirTarget::new("src")))
        .run(&tree)
        .unwrap();
    assert_eq!(down, path(&[]));

    let up = GetDir::new()
        .dir(path(&["src"]))
        .target(Target::File(FileTarget::new("Cargo.lock")))
        .run_reverse(&tree)
        .unwrap();
    assert_eq!(up, path(&[]));
}

#[test]
fn test_scenario_down_depth_boundary() {
    let tree = anchored_root();
    let target = Target::File(FileTarget::new("lib.rs"));

    let shallow = GetDir::new().depth(1).target(target.clone()).run(&tree);
    assert_eq!(shallow, Err(SearchError::NotFound));

    let deep = GetDir::new().depth(2).target(target).run(&tree);
    assert_eq!(deep, Ok(path(&["src"])));
}

#[test]
fn test_scenario_up_depth_boundary() {
    let tree = anchored_root();
    let target = Target::Dir(DirTarget::new("target"));

    let shallow = GetDir::new()
        .dir(path(&["src"]))
        .depth(1)
        .target(target.clone())
        .run_reverse(&tree);
    assert_eq!(shallow, Err(SearchError::NotFound));

    let deep = GetDir::new()
        .dir(path(&["src"]))
        .depth(2)
        .target(target)
        .run_reverse(&tree);
    assert_eq!(deep, Ok(path(&[])));
}

#[test]
fn test_reverse_prefers_closest_ancestor() {
    // Both `package` and the root contain `Cargo.toml`; the closer
    // ancestor wins.
    let tree = workspace();
    let found = GetDir::new()
        .dir(path(&["package", "src"]))
        .target(Target::File(FileTarget::new("Cargo.toml")))
        .run_reverse(&tree)
        .unwrap();
    assert_eq!(found, path(&["package"]));
}
