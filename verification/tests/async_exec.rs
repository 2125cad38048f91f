use get_dir::suspend::{DownAction, DownEvent, DownSearch, UpAction, UpSearch};
use get_dir::{DirTarget, FileTarget, FsDir, GetDir, GetDirAsyncExt, SearchError, Target};

fn dir(name: &str, files: &[&str], dirs: Vec<FsDir>) -> FsDir {
    FsDir {
        name: name.to_string(),
        files: files.iter().map(|f| f.to_string()).collect(),
        dirs,
        listable: true,
    }
}

fn path(parts: &[&str]) -> Vec<String> {
    parts.iter().map(|s| s.to_string()).collect()
}

fn workspace() -> FsDir {
    dir(
        "",
        &["Cargo.toml", "Cargo.lock", "LICENSE"],
        vec![
            dir(
                "package",
                &["Cargo.toml"],
                vec![dir("src", &["lib.rs", "util.rs"], vec![])],
            ),
            dir("target", &[], vec![]),
        ],
    )
}

#[test]
fn test_run_async_matches_run() {
    let tree = workspace();
    let cases: Vec<(Vec<String>, usize, Target)> = vec![
        (path(&[]), usize::MAX, Target::Dir(DirTarget::new("src"))),
        (path(&[]), usize::MAX, Target::File(FileTarget::new("Cargo.toml"))),
        (path(&["package"]), 1, Target::File(FileTarget::new("lib.rs"))),
        (path(&["package"]), 2, Target::File(FileTarget::new("lib.rs"))),
        (path(&["no", "such"]), usize::MAX, Target::File(FileTarget::new("lib.rs"))),
        (path(&[]), usize::MAX, Target::Dir(DirTarget::new("absent"))),
    ];
    for (start, depth, target) in cases {
        let blocking = GetDir::new()
            .dir(start.clone())
            .depth(depth)
            .target(target.clone())
            .run(&tree);
        let suspended = GetDir::new()
            .dir(start)
            .depth(depth)
            .target(target)
            .run_async(&tree);
        assert_eq!(blocking, suspended);
    }
}

#[test]
fn test_run_reverse_async_matches_run_reverse() {
    let tree = workspace();
    let cases: Vec<(Vec<String>, usize, Target)> = vec![
        (path(&["package", "src"]), usize::MAX, Target::Dir(DirTarget::new("target"))),
        (path(&["package", "src"]), usize::MAX, Target::File(FileTarget::new("LICENSE"))),
        (path(&["package"]), 1, Target::File(FileTarget::new("Cargo.lock"))),
        (path(&["package"]), 2, Target::File(FileTarget::new("Cargo.lock"))),
        (path(&["package", "src"]), usize::MAX, Target::Dir(DirTarget::new("absent"))),
    ];
    for (start, depth, target) in cases {
        let blocking = GetDir::new()
            .dir(start.clone())
            .depth(depth)
            .target(target.clone())
            .run_reverse(&tree);
        let suspended = GetDir::new()
            .dir(start)
            .depth(depth)
            .target(target)
            .run_reverse_async(&tree);
        assert_eq!(blocking, suspended);
    }
}

#[test]
fn test_async_matches_blocking_on_anchored_scenarios() {
    // The tree `root/{Cargo.lock, src/lib.rs, target/}`, under every
    // scenario configuration: both execution contracts must agree
    // exactly.
    let tree = dir(
        "",
        &["Cargo.lock"],
        vec![dir("src", &["lib.rs"], vec![]), dir("target", &[], vec![])],
    );
    let down_cases: Vec<(Vec<String>, usize, Target)> = vec![
        (path(&[]), usize::MAX, Target::Dir(DirTarget::new("src"))),
        (path(&[]), 1, Target::File(FileTarget::new("lib.rs"))),
        (path(&[]), 2, Target::File(FileTarget::new("lib.rs"))),
    ];
    for (start, depth, target) in down_cases {
        let blocking = GetDir::new()
            .dir(start.clone())
            .depth(depth)
            .target(target.clone())
            .run(&tree);
        let suspended = GetDir::new()
            .dir(start)
            .depth(depth)
            .target(target)
            .run_async(&tree);
        assert_eq!(blocking, suspended);
    }
    let up_cases: Vec<(Vec<String>, usize, Target)> = vec![
        (path(&["src"]), usize::MAX, Target::File(FileTarget::new("Cargo.lock"))),
        (path(&["src"]), 1, Target::Dir(DirTarget::new("target"))),
        (path(&["src"]), 2, Target::Dir(DirTarget::new("target"))),
    ];
    for (start, depth, target) in up_cases {
        let blocking = GetDir::new()
            .dir(start.clone())
            .depth(depth)
            .target(target.clone())
            .run_reverse(&tree);
        let suspended = GetDir::new()
            .dir(start)
            .depth(depth)
            .target(target)
            .run_reverse_async(&tree);
        assert_eq!(blocking, suspended);
    }
}

#[test]
fn test_run_async_empty_targets_not_found() {
    let tree = workspace();
    assert_eq!(GetDir::new().run_async(&tree), Err(SearchError::NotFound));
    assert_eq!(
        GetDir::new().run_reverse_async(&tree),
        Err(SearchError::NotFound)
    );
}

#[test]
fn test_down_machine_finds_match_by_probes() {
    // One directory, one matching file: the machine asks for the probe
    // and announces the hit.
    let cfg = GetDir::new().target(Target::File(FileTarget::new("Cargo.lock")));
    let (mut machine, first) = DownSearch::begin(cfg);
    match first {
        DownAction::ProbeFile { path: p, name } => {
            assert_eq!(p, path(&[]));
            assert_eq!(name, "Cargo.lock".to_string());
        }
        _ => panic!("expected a file probe first"),
    }
    let outcome = machine.step(DownEvent::Probed(true));
    match outcome {
        DownAction::Found { path: p } => assert_eq!(p, path(&[])),
        _ => panic!("expected the search to finish"),
    }
}

#[test]
fn test_down_machine_walks_listing_then_children() {
    // A miss on the start directory with depth left: the machine lists
    // the start, then probes the children it was given, in order.
    let cfg = GetDir::new().target(Target::Dir(DirTarget::new("marker")));
    let (mut machine, first) = DownSearch::begin(cfg);
    assert!(matches!(first, DownAction::ProbeDir { .. }));
    let second = machine.step(DownEvent::Probed(false));
    match second {
        DownAction::List { path: p } => assert_eq!(p, path(&[])),
        _ => panic!("expected a listing request"),
    }
    let third = machine.step(DownEvent::Listed(Some(path(&["a", "b"]))));
    match third {
        DownAction::ProbeDir { path: p, name } => {
            assert_eq!(p, path(&["a"]));
            assert_eq!(name, "marker".to_string());
        }
        _ => panic!("expected a probe of the first child"),
    }
    let fourth = machine.step(DownEvent::Probed(false));
    // Depth is unbounded, so the machine next asks to list `a`.
    match fourth {
        DownAction::List { path: p } => assert_eq!(p, path(&["a"])),
        _ => panic!("expected a listing of the first child"),
    }
    // The listing fails: the branch ends, `b` comes up.
    let fifth = machine.step(DownEvent::Listed(None));
    match fifth {
        DownAction::ProbeDir { path: p, .. } => assert_eq!(p, path(&["b"])),
        _ => panic!("expected a probe of the second child"),
    }
    let sixth = machine.step(DownEvent::Probed(true));
    match sixth {
        DownAction::Found { path: p } => assert_eq!(p, path(&["b"])),
        _ => panic!("expected the search to finish on the second child"),
    }
}

#[test]
fn test_down_machine_exhausts_queue_to_not_found() {
    let cfg = GetDir::new()
        .depth(1)
        .target(Target::File(FileTarget::new("absent")));
    let (mut machine, first) = DownSearch::begin(cfg);
    assert!(matches!(first, DownAction::ProbeFile { .. }));
    // Depth 1 forbids listing: a miss on the start ends the search.
    let outcome = machine.step(DownEvent::Probed(false));
    assert!(matches!(outcome, DownAction::NotFound));
}

#[test]
fn test_down_machine_empty_targets_finishes_at_once() {
    let (_, first) = DownSearch::begin(GetDir::new());
    assert!(matches!(first, DownAction::NotFound));
}

#[test]
fn test_up_machine_walks_ancestors() {
    let cfg = GetDir::new()
        .dir(path(&["a", "b"]))
        .target(Target::File(FileTarget::new("anchor")));
    let (mut machine, first) = UpSearch::begin(cfg);
    match first {
        UpAction::ProbeFile { path: p, name } => {
            assert_eq!(p, path(&["a", "b"]));
            assert_eq!(name, "anchor".to_string());
        }
        _ => panic!("expected a probe of the start directory"),
    }
    let second = machine.step(false);
    match second {
        UpAction::ProbeFile { path: p, .. } => assert_eq!(p, path(&["a"])),
        _ => panic!("expected a probe of the parent"),
    }
    let third = machine.step(true);
    match third {
        UpAction::Found { path: p } => assert_eq!(p, path(&["a"])),
        _ => panic!("expected the search to finish on the parent"),
    }
}

#[test]
fn test_up_machine_stops_at_level_bound() {
    let cfg = GetDir::new()
        .dir(path(&["a", "b"]))
        .depth(1)
        .target(Target::Dir(DirTarget::new("anchor")));
    let (mut machine, first) = UpSearch::begin(cfg);
    assert!(matches!(first, UpAction::ProbeDir { .. }));
    let outcome = machine.step(false);
    assert!(matches!(outcome, UpAction::NotFound));
}

#[test]
fn test_up_machine_stops_at_root() {
    let cfg = GetDir::new().target(Target::Dir(DirTarget::new("anchor")));
    let (mut machine, first) = UpSearch::begin(cfg);
    match first {
        UpAction::ProbeDir { path: p, .. } => assert_eq!(p, path(&[])),
        _ => panic!("expected a probe of the root"),
    }
    let outcome = machine.step(false);
    assert!(matches!(outcome, UpAction::NotFound));
}
