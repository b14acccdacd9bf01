use domino::error::DominoError;
use domino::path::FilePath;
use domino::resolve::{
    alias_target, create_resolve_options, relative_candidates, relative_probes,
    simple_resolve_relative, source_probe, tsconfig_probe,
};
use domino::types::Project;
use domino::workspace::rush::{
    get_projects, is_rush_workspace, manifest_path, rush_json_path, Manifest, RushJson,
    RushProject, RushSource,
};
use domino::workspace::{discover_projects, Discovery, WorkspaceKind, WorkspaceMarkers};

fn project(name: &str, root: &str) -> Project {
    Project {
        name: name.to_string(),
        source_root: FilePath::new(root),
        ts_config: None,
        implicit_dependencies: vec![],
        targets: vec![],
    }
}

/// The alias of the only project, where these directories exist below `/tmp/x`.
fn target(name: &str, root: &str, directories: &[&str]) -> String {
    let cwd = FilePath::new("/tmp/x");
    let projects = vec![project(name, root)];
    let directories: Vec<String> = directories.iter().map(|d| format!("/tmp/x/{}", d)).collect();
    let opts = create_resolve_options(&cwd, &projects, &directories, false);
    alias_target(&opts, name).unwrap()
}

#[test]
fn test_alias_prefers_src_when_it_exists() {
    let target = target("@scope/my-lib", "packages/my-lib", &["packages/my-lib", "packages/my-lib/src"]);

    assert!(
        target.ends_with("packages/my-lib/src"),
        "Expected alias to point at src/ subdir, got: {}",
        target
    );
}

#[test]
fn test_alias_falls_back_when_no_src_dir() {
    let target = target("@scope/my-lib", "packages/my-lib", &["packages/my-lib"]);

    assert!(
        target.ends_with("packages/my-lib"),
        "Expected alias to fall back to project root (no src/), got: {}",
        target
    );
    assert!(
        !target.ends_with("packages/my-lib/src"),
        "Should NOT point at non-existent src/ subdir, got: {}",
        target
    );
}

#[test]
fn test_alias_skips_src_heuristic_when_source_root_already_ends_in_src() {
    let target = target(
        "@scope/my-lib",
        "packages/my-lib/src",
        &["packages/my-lib/src", "packages/my-lib/src/src"],
    );

    assert!(
        target.ends_with("packages/my-lib/src"),
        "Expected alias to use source_root as-is (already ends in src), got: {}",
        target
    );
    assert!(
        !target.ends_with("src/src"),
        "Should not double-nest src/, got: {}",
        target
    );
}

#[test]
fn test_no_panic_when_source_root_does_not_exist() {
    let target = target("@scope/ghost", "packages/ghost", &[]);

    assert!(
        target.ends_with("packages/ghost"),
        "Expected alias to fall back to (non-existent) project root, got: {}",
        target
    );
}

#[test]
fn resolve_options_are_complete() {
    let cwd = FilePath::new("/tmp/x/");
    let projects = vec![project("a", "/opt/a"), project("b", "libs/b"), project("b", "other")];
    assert_eq!(source_probe(&cwd, &projects[0]), "/opt/a/src");
    assert_eq!(source_probe(&cwd, &projects[1]), "/tmp/x/libs/b/src");
    assert_eq!(tsconfig_probe(&cwd), "/tmp/x/tsconfig.base.json");
    let opts = create_resolve_options(&cwd, &projects, &vec!["/opt/a/src".to_string()], true);
    assert_eq!(opts.extensions, vec![".ts", ".tsx", ".js", ".jsx", ".d.ts"]);
    assert_eq!(opts.extension_alias.len(), 2);
    assert_eq!(opts.extension_alias[0].0, ".js");
    assert_eq!(opts.extension_alias[0].1, vec![".ts", ".tsx", ".js"]);
    assert_eq!(opts.extension_alias[1].0, ".jsx");
    assert_eq!(opts.extension_alias[1].1, vec![".tsx", ".jsx"]);
    assert_eq!(opts.condition_names, vec!["import", "require", "types", "default"]);
    assert_eq!(opts.main_fields, vec!["main", "module", "types"]);
    assert_eq!(opts.main_files, vec!["index"]);
    let tsconfig = opts.tsconfig.as_ref().unwrap();
    assert_eq!(tsconfig.config_file, "/tmp/x/tsconfig.base.json");
    assert!(tsconfig.follow_references);
    assert_eq!(alias_target(&opts, "a"), Some("/opt/a/src".to_string()));
    assert_eq!(alias_target(&opts, "b"), Some("/tmp/x/libs/b".to_string()));
    assert_eq!(alias_target(&opts, "c"), None);
    assert!(create_resolve_options(&cwd, &projects, &vec![], false).tsconfig.is_none());
}

#[test]
fn relative_candidates_in_order() {
    assert_eq!(
        relative_candidates("/w/a", "./b"),
        vec![
            "/w/a/./b.ts",
            "/w/a/./b.tsx",
            "/w/a/./b.js",
            "/w/a/./b.jsx",
            "/w/a/./b/index.ts",
            "/w/a/./b/index.tsx",
            "/w/a/./b/index.js",
            "/w/a/./b/index.jsx",
        ]
    );
    assert_eq!(relative_candidates("/w/a", "./b.js")[..3], ["/w/a/./b.ts", "/w/a/./b.tsx", "/w/a/./b.js.ts"]);
    assert_eq!(relative_candidates("/w/a", "./b.jsx")[..2], ["/w/a/./b.tsx", "/w/a/./b.jsx.ts"]);
    assert_eq!(relative_candidates("/w/a", ".js")[..1], ["/w/a/.ts"]);
    assert!(relative_candidates("/w/a", "lodash").is_empty());
}

fn resolve(specifier: &str, existing: &[&str]) -> Option<String> {
    let existing: Vec<String> = existing.iter().map(|p| p.to_string()).collect();
    simple_resolve_relative(&FilePath::new("/w"), &FilePath::new("/w/a"), specifier, &existing)
        .map(|p| p.as_str().to_string())
}

#[test]
fn relative_specifiers_resolve_to_the_first_existing_candidate() {
    assert_eq!(resolve("./b", &["/w/a/./b/index.js", "/w/a/./b.tsx"]), Some("a/./b.tsx".to_string()));
    assert_eq!(resolve("./b", &["/w/a/./b/index.js"]), Some("a/./b/index.js".to_string()));
    assert_eq!(resolve("./b.js", &["/w/a/./b.ts", "/w/a/./b.tsx"]), Some("a/./b.ts".to_string()));
    assert_eq!(resolve("./b.js", &["/w/a/./b.tsx"]), Some("a/./b.tsx".to_string()));
    assert_eq!(resolve("./b.jsx", &["/w/a/./b.ts", "/w/a/./b.tsx"]), Some("a/./b.tsx".to_string()));
    assert_eq!(resolve("../c/b", &["/w/a/../c/b.ts"]), Some("a/../c/b.ts".to_string()));
    assert_eq!(resolve("./b", &[]), None);
    assert_eq!(resolve("b", &["/w/a/b.ts"]), None);
}

#[test]
fn candidates_outside_the_workspace_do_not_count() {
    let cwd = FilePath::new("/w");
    let context = FilePath::new("/v/a");
    let probes = relative_probes(&cwd, &context, "./b");
    assert_eq!(probes[0], "/v/a/./b.ts");
    assert!(simple_resolve_relative(&cwd, &context, "./b", &probes).is_none());

    // A relative context is probed below the workspace, but is not below it.
    let context = FilePath::new("a");
    let probes = relative_probes(&cwd, &context, "./b");
    assert_eq!(probes[0], "/w/a/./b.ts");
    assert!(simple_resolve_relative(&cwd, &context, "./b", &probes).is_none());
}

fn rush_fixture() -> RushSource {
    RushSource::Loaded {
        content: RushJson {
            projects: vec![
                RushProject {
                    package_name: "@myorg/app-service".to_string(),
                    project_folder: "services/app".to_string(),
                },
                RushProject {
                    package_name: "@myorg/shared-lib".to_string(),
                    project_folder: "packages/shared".to_string(),
                },
            ],
        },
    }
}

fn named(name: &str) -> Manifest {
    Manifest::Named { name: name.to_string() }
}

#[test]
fn test_is_rush_workspace() {
    let dir = FilePath::new("/tmp/x");
    let existing = vec!["/tmp/x/rush.json".to_string()];
    assert_eq!(rush_json_path(&dir), "/tmp/x/rush.json");
    assert!(is_rush_workspace(&dir, &existing));
}

#[test]
fn test_is_not_rush_workspace() {
    let dir = FilePath::new("/tmp/x");
    assert!(!is_rush_workspace(&dir, &vec![]));
    assert!(!is_rush_workspace(&dir, &vec!["/tmp/rush.json".to_string()]));
}

#[test]
fn test_get_projects() {
    let manifests = vec![named("@myorg/app-service"), named("@myorg/shared-lib")];
    let projects = get_projects(rush_fixture(), &manifests).unwrap();

    assert_eq!(projects.len(), 2);

    assert_eq!(projects[0].name, "@myorg/app-service");
    assert!(projects[0].source_root == FilePath::new("services/app"));

    assert_eq!(projects[1].name, "@myorg/shared-lib");
    assert!(projects[1].source_root == FilePath::new("packages/shared"));
}

#[test]
fn test_get_projects_missing_package_json_falls_back() {
    let source = RushSource::Loaded {
        content: RushJson {
            projects: vec![RushProject {
                package_name: "@myorg/missing-pkg".to_string(),
                project_folder: "packages/missing".to_string(),
            }],
        },
    };
    let projects = get_projects(source, &vec![Manifest::Missing]).unwrap();
    assert_eq!(projects.len(), 1);
    assert_eq!(projects[0].name, "@myorg/missing-pkg");
}

#[test]
fn manifests_give_the_canonical_name() {
    let projects = get_projects(rush_fixture(), &vec![named("real-name"), Manifest::Malformed]).unwrap();
    assert_eq!(projects[0].name, "real-name");
    assert_eq!(projects[1].name, "@myorg/shared-lib");
    assert!(projects[0].ts_config.is_none());
    assert!(projects[0].implicit_dependencies.is_empty());
    assert!(projects[0].targets.is_empty());
    let projects = get_projects(rush_fixture(), &vec![Manifest::Unreadable]).unwrap();
    assert_eq!(projects[0].name, "@myorg/app-service");
    assert_eq!(projects[1].name, "@myorg/shared-lib");
    let folder = RushProject { package_name: "p".to_string(), project_folder: "packages/p".to_string() };
    assert_eq!(manifest_path(&FilePath::new("/tmp/x"), &folder), "/tmp/x/packages/p/package.json");
}

#[test]
fn unreadable_rush_json_is_an_error() {
    let r = get_projects(RushSource::Unreadable { reason: "not found".to_string() }, &vec![]);
    assert!(matches!(r, Err(DominoError::Io(m)) if m == "not found"));
    let r = get_projects(RushSource::Malformed { reason: "line 1".to_string() }, &vec![]);
    assert!(matches!(r, Err(DominoError::Parse(m)) if m == "Failed to parse rush.json: line 1"));
}

fn kind(nx: bool, rush: bool, turbo: bool, workspaces: bool) -> Option<WorkspaceKind> {
    match discover_projects(WorkspaceMarkers { nx, rush, turbo, workspaces }) {
        Discovery::Ask { kind } => Some(kind),
        Discovery::Done { projects } => {
            assert!(projects.is_empty());
            None
        }
    }
}

#[test]
fn first_marker_decides_the_workspace() {
    assert_eq!(kind(true, true, true, true), Some(WorkspaceKind::Nx));
    assert_eq!(kind(false, true, true, true), Some(WorkspaceKind::Rush));
    assert_eq!(kind(false, false, true, true), Some(WorkspaceKind::Turbo));
    assert_eq!(kind(false, false, false, true), Some(WorkspaceKind::Workspaces));
    assert_eq!(kind(false, false, false, false), None);
}
