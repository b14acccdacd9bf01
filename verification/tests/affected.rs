use domino::affected::{
    add_implicit_dependencies, find_affected, find_affected_with_report, needs_analysis,
};
use domino::error::DominoError;
use domino::git::parse_diff;
use domino::index::{
    AssetFacts, FileFacts, NodeFacts, Position, SymbolFacts, WorkspaceIndex,
};
use domino::path::FilePath;
use domino::propagate::{process_changed_line, process_changed_symbol};
use domino::resolve::simple_resolve_relative;
use domino::state::AffectedState;
use domino::types::{
    AffectCause, AffectedResult, AssetReference, ChangedFile, Export, Import, Project, Reference,
    TrueAffectedConfig,
};

fn path(text: &str) -> FilePath {
    FilePath::new(text)
}

fn strings(names: &[&str]) -> Vec<String> {
    names.iter().map(|n| n.to_string()).collect()
}

fn project(name: &str, root: &str, dependencies: &[&str]) -> Project {
    Project {
        name: name.to_string(),
        source_root: path(root),
        ts_config: None,
        implicit_dependencies: strings(dependencies),
        targets: vec![],
    }
}

fn monorepo() -> TrueAffectedConfig {
    TrueAffectedConfig {
        cwd: path("/work/monorepo"),
        base: "main".to_string(),
        root_ts_config: Some(path("tsconfig.json")),
        projects: vec![
            project("proj1", "proj1", &[]),
            project("proj2", "proj2", &[]),
            project("proj3", "proj3", &["proj1"]),
        ],
        include_patterns: vec![],
        ignored_paths: vec![],
    }
}

fn owner_of(file: &str) -> Option<String> {
    let first = file.split('/').next().unwrap();
    if matches!(first, "proj1" | "proj2" | "proj3" | "lib" | "app") {
        Some(first.to_string())
    } else {
        None
    }
}

fn source(file: &str) -> FileFacts {
    FileFacts {
        path: path(file),
        is_source: true,
        is_analyzed: true,
        owner: owner_of(file),
        imports: vec![],
        exports: vec![],
    }
}

fn asset(file: &str) -> FileFacts {
    FileFacts {
        path: path(file),
        is_source: false,
        is_analyzed: false,
        owner: owner_of(file),
        imports: vec![],
        exports: vec![],
    }
}

fn import(local: &str, module: &str) -> Import {
    Import {
        imported_name: "default".to_string(),
        local_name: local.to_string(),
        from_module: module.to_string(),
        resolved_file: None,
        is_type_only: false,
        is_dynamic: false,
    }
}

fn export(exported: &str, local: Option<&str>, from: Option<&str>) -> Export {
    Export {
        exported_name: exported.to_string(),
        local_name: local.map(|n| n.to_string()),
        re_export_from: from.map(|n| n.to_string()),
    }
}

fn node(file: &str, line: usize, column: usize, names: &[&str]) -> NodeFacts {
    NodeFacts {
        file: path(file),
        position: Position { line, column },
        symbols: Ok(strings(names)),
    }
}

fn place(line: usize, column: usize) -> Position {
    Position { line, column }
}

fn reference(file: &str, line: usize, column: usize) -> Reference {
    Reference { file_path: path(file), line, column }
}

fn symbol(
    file: &str,
    name: &str,
    is_exported: bool,
    local: &[(usize, usize)],
    cross: &[(&str, usize, usize)],
    users: &[&str],
) -> SymbolFacts {
    SymbolFacts {
        file: path(file),
        name: name.to_string(),
        is_exported,
        local_references: Ok(local.iter().map(|p| place(p.0, p.1)).collect()),
        cross_file_references: Ok(cross.iter().map(|r| reference(r.0, r.1, r.2)).collect()),
        exported_users: Ok(strings(users)),
    }
}

fn references(asset: &str, places: &[(&str, usize, usize)]) -> AssetFacts {
    AssetFacts {
        path: path(asset),
        references: Ok(
            places
                .iter()
                .map(|p| AssetReference {
                    source_file: path(p.0),
                    line: p.1,
                    column: p.2,
                    matched_path: asset.to_string(),
                })
                .collect(),
        ),
    }
}

fn workspace(
    files: Vec<FileFacts>,
    nodes: Vec<NodeFacts>,
    symbols: Vec<SymbolFacts>,
    assets: Vec<AssetFacts>,
) -> WorkspaceIndex {
    WorkspaceIndex { files, nodes, symbols, assets }
}

fn changed(file: &str, lines: &[usize]) -> ChangedFile {
    ChangedFile { file_path: path(file), changed_lines: lines.to_vec() }
}

/// The section that git prints for a file with changes at these new lines.
fn section(file: &str, lines: &[usize]) -> String {
    let mut text = format!(
        "diff --git a/{f} b/{f}\nindex 1234567..abcdefg 100644\n--- a/{f}\n+++ b/{f}\n",
        f = file
    );
    for line in lines {
        text.push_str(&format!("@@ -{l} +{l} @@\n-old\n+new\n", l = line));
    }
    text
}

fn affected_by(diff: &str, ws: WorkspaceIndex) -> Vec<String> {
    find_affected(&monorepo(), parse_diff(diff), Ok(ws))
        .expect("Failed to find affected projects")
        .affected_projects
}

/// proj1 is used by proj2; anotherFn of proj2 is used by nobody that is known.
fn base_workspace() -> WorkspaceIndex {
    workspace(
        vec![source("proj1/index.ts"), source("proj2/index.ts"), source("proj3/index.ts")],
        vec![
            node("proj1/index.ts", 2, 0, &["proj1"]),
            node("proj1/index.ts", 6, 0, &["unusedFn"]),
            node("proj2/index.ts", 6, 2, &["proj2"]),
            node("proj2/index.ts", 7, 0, &["proj2"]),
            node("proj2/index.ts", 11, 0, &["anotherFn"]),
            node("proj2/index.ts", 14, 0, &["Decorator"]),
            node("proj2/index.ts", 19, 1, &["MyClass"]),
            node("proj2/index.ts", 22, 4, &["MyClass"]),
        ],
        vec![
            symbol(
                "proj1/index.ts",
                "proj1",
                true,
                &[],
                &[("proj2/index.ts", 6, 2), ("proj2/index.ts", 22, 4)],
                &[],
            ),
            symbol("proj1/index.ts", "unusedFn", true, &[], &[], &[]),
            symbol("proj2/index.ts", "proj2", true, &[], &[], &[]),
            symbol("proj2/index.ts", "anotherFn", true, &[], &[], &[]),
            symbol("proj2/index.ts", "Decorator", false, &[(19, 1)], &[], &["MyClass"]),
            symbol("proj2/index.ts", "MyClass", true, &[], &[], &[]),
        ],
        vec![],
    )
}

fn contains(affected: &[String], name: &str) -> bool {
    affected.contains(&name.to_string())
}

#[test]
fn test_add_implicit_dependencies() {
    let projects = vec![
        project("app", "apps/app", &["lib1", "lib2"]),
        project("lib1", "libs/lib1", &[]),
        project("lib2", "libs/lib2", &[]),
    ];

    let mut affected = AffectedState::new(false);
    affected.mark("lib1".to_string(), None);

    add_implicit_dependencies(&projects, &mut affected);

    assert!(affected.list().contains(&"lib1".to_string()));
    assert!(affected.list().contains(&"app".to_string()));
}

#[test]
fn implicit_dependencies_count_once() {
    let projects = vec![project("b", "b", &["a"]), project("c", "c", &["b"])];
    let mut affected = AffectedState::new(true);
    affected.mark("a".to_string(), None);

    add_implicit_dependencies(&projects, &mut affected);

    let mut names = affected.list();
    names.sort();
    assert_eq!(names, vec!["a", "b"]);
    let report = affected.into_report().unwrap();
    assert_eq!(report.projects.len(), 2);
    assert_eq!(report.projects[0].name, "a");
    assert!(report.projects[0].causes.is_empty());
    assert_eq!(report.projects[1].name, "b");
    assert!(report.projects[1].causes == vec![AffectCause::ImplicitDependency { depends_on: "a".to_string() }]);
}

#[test]
fn test_basic_cross_file_reference() {
    let affected = affected_by(&section("proj1/index.ts", &[2]), base_workspace());

    assert!(contains(&affected, "proj1"));
    assert!(contains(&affected, "proj3"));
    assert!(contains(&affected, "proj2"));
}

#[test]
fn test_unused_function_change() {
    let affected = affected_by(&section("proj1/index.ts", &[6]), base_workspace());

    assert!(contains(&affected, "proj1"));
    assert!(contains(&affected, "proj3"));
}

#[test]
fn test_implicit_dependencies() {
    let affected = affected_by(&section("proj1/index.ts", &[6]), base_workspace());

    assert_eq!(affected, vec!["proj1", "proj3"]);
}

#[test]
fn test_re_export_chain() {
    let mut ws = base_workspace();
    ws.files[1].exports = vec![export("proj1", None, Some("@monorepo/proj1"))];
    let affected = affected_by(&section("proj1/index.ts", &[2]), ws);

    assert!(contains(&affected, "proj1"));
    assert!(contains(&affected, "proj3"));
}

#[test]
fn test_transitive_dependencies() {
    let mut ws = base_workspace();
    ws.symbols[3].cross_file_references = Ok(vec![reference("proj3/index.ts", 4, 2)]);
    let affected = affected_by(&section("proj2/index.ts", &[11]), ws);

    assert!(contains(&affected, "proj2"));
    assert!(contains(&affected, "proj3"));
}

#[test]
fn test_multiple_changes() {
    let diff = format!(
        "{}{}",
        section("proj1/index.ts", &[2]),
        section("proj2/index.ts", &[7, 11])
    );
    let affected = affected_by(&diff, base_workspace());

    let mut sorted_affected = affected.clone();
    sorted_affected.sort();
    assert_eq!(sorted_affected, vec!["proj1", "proj2", "proj3"]);
}

#[test]
fn test_no_changes() {
    let affected = affected_by("", base_workspace());

    assert!(affected.is_empty());
}

#[test]
fn test_internal_function_affecting_exported_component() {
    let ws = workspace(
        vec![source("proj1/utils.ts"), source("proj2/index.ts")],
        vec![
            node("proj1/utils.ts", 4, 0, &["helperFn"]),
            node("proj2/index.ts", 8, 9, &["proj2"]),
        ],
        vec![
            symbol("proj1/utils.ts", "helperFn", false, &[], &[], &["PublicAPI"]),
            symbol("proj1/utils.ts", "PublicAPI", true, &[], &[("proj2/index.ts", 8, 9)], &[]),
        ],
        vec![],
    );
    let affected = affected_by(&section("proj1/utils.ts", &[4]), ws);

    assert!(contains(&affected, "proj1"), "proj1 should be affected");
    assert!(
        contains(&affected, "proj2"),
        "proj2 should be affected when internal function used by imported API changes"
    );
    assert!(
        contains(&affected, "proj3"),
        "proj3 should be affected (implicit dependency)"
    );
}

#[test]
fn test_decorator_change() {
    let affected = affected_by(&section("proj2/index.ts", &[14]), base_workspace());

    assert_eq!(affected, vec!["proj2"]);
}

#[test]
fn test_interface_property_reorder() {
    let ws = workspace(
        vec![source("proj1/index.ts"), source("proj2/index.ts")],
        vec![
            node("proj1/index.ts", 4, 0, &["MyOptions"]),
            node("proj1/index.ts", 9, 38, &["useMyOptions"]),
            node("proj2/index.ts", 11, 9, &["MyComponent"]),
        ],
        vec![
            symbol("proj1/index.ts", "MyOptions", true, &[(9, 38)], &[], &[]),
            symbol("proj1/index.ts", "useMyOptions", true, &[], &[("proj2/index.ts", 11, 9)], &[]),
        ],
        vec![],
    );
    let affected = affected_by(&section("proj1/index.ts", &[4]), ws);

    let mut sorted_affected = affected.clone();
    sorted_affected.sort();
    assert_eq!(
        sorted_affected,
        vec!["proj1", "proj2", "proj3"],
        "Interface property reorder should affect all projects that transitively use it"
    );
}

#[test]
fn test_object_literal_property_reorder() {
    // The changed lines lie in a call at the top level: no symbol is found there.
    let ws = workspace(
        vec![source("proj1/theme.ts"), source("proj2/index.ts")],
        vec![
            node("proj1/theme.ts", 20, 0, &[]),
            node("proj2/index.ts", 3, 0, &["proj2"]),
        ],
        vec![symbol("proj1/theme.ts", "colors", false, &[], &[("proj2/index.ts", 3, 0)], &[])],
        vec![],
    );
    let affected = affected_by(&section("proj1/theme.ts", &[20]), ws);

    let mut sorted_affected = affected.clone();
    sorted_affected.sort();
    assert_eq!(
        sorted_affected,
        vec!["proj1", "proj3"],
        "Object literal property reorder should only affect owning project and implicit deps, not consumers"
    );
}

#[test]
fn test_dynamic_import_detection() {
    let ws = workspace(
        vec![source("proj1/index.ts"), source("proj2/lazy-loader.tsx")],
        vec![node("proj1/index.ts", 2, 0, &["proj1"])],
        vec![symbol(
            "proj1/index.ts",
            "proj1",
            true,
            &[],
            &[("proj2/lazy-loader.tsx", 0, 0)],
            &[],
        )],
        vec![],
    );
    let affected = affected_by(&section("proj1/index.ts", &[2]), ws);

    assert!(contains(&affected, "proj1"), "proj1 should be affected (changed)");
    assert!(
        contains(&affected, "proj2"),
        "proj2 should be affected (has dynamic import from proj1)"
    );
    assert!(
        contains(&affected, "proj3"),
        "proj3 should be affected (implicit dependency on proj1)"
    );
}

#[test]
fn test_multiple_dynamic_imports() {
    let ws = workspace(
        vec![source("proj1/index.ts"), source("proj3/dynamic-loader.tsx")],
        vec![node("proj1/index.ts", 2, 0, &["proj1"])],
        vec![symbol(
            "proj1/index.ts",
            "proj1",
            true,
            &[],
            &[("proj3/dynamic-loader.tsx", 0, 0), ("proj3/dynamic-loader.tsx", 0, 0)],
            &[],
        )],
        vec![],
    );
    let affected = affected_by(&section("proj1/index.ts", &[2]), ws);

    assert!(contains(&affected, "proj1"), "proj1 should be affected");
    assert!(
        contains(&affected, "proj3"),
        "proj3 should be affected (has dynamic imports from proj1)"
    );
}

#[test]
fn test_dynamic_import_only_affects_when_changed() {
    let affected = affected_by(&section("proj2/index.ts", &[7, 11]), base_workspace());

    assert!(contains(&affected, "proj2"), "proj2 should be affected (it changed)");
    assert!(
        !contains(&affected, "proj1"),
        "proj1 should NOT be affected (it didn't change)"
    );
}

#[test]
fn whole_file_references_follow_exports_but_not_re_exports() {
    let mut ws = workspace(
        vec![
            source("proj1/index.ts"),
            source("proj2/lazy.ts"),
            source("proj3/index.ts"),
            source("lib/index.ts"),
        ],
        vec![node("proj1/index.ts", 2, 0, &["proj1"])],
        vec![
            symbol("proj1/index.ts", "proj1", true, &[], &[("proj2/lazy.ts", 0, 0)], &[]),
            symbol("proj2/lazy.ts", "Loader", true, &[], &[("proj3/index.ts", 1, 4)], &[]),
            symbol("proj2/lazy.ts", "passed", true, &[], &[("lib/index.ts", 1, 4)], &[]),
        ],
        vec![],
    );
    ws.files[1].exports = vec![
        export("default", Some("Loader"), None),
        export("passed", None, Some("./other")),
    ];
    let affected = affected_by(&section("proj1/index.ts", &[2]), ws);

    assert_eq!(affected, vec!["proj1", "proj2", "proj3"]);
    assert!(!contains(&affected, "lib"));
}

/// The class HeroComponent of proj1 names its template by a path, without an
/// import, and proj2 imports the class.
fn template_workspace() -> WorkspaceIndex {
    let mut component = source("proj1/hero.component.ts");
    component.imports = vec![import("Component", "@angular/core")];
    component.exports = vec![export("HeroComponent", None, None)];
    workspace(
        vec![component, asset("proj1/hero.component.html"), source("proj2/index.ts")],
        vec![node("proj1/hero.component.ts", 5, 15, &["HeroComponent"])],
        vec![symbol(
            "proj1/hero.component.ts",
            "HeroComponent",
            true,
            &[],
            &[("proj2/index.ts", 5, 9)],
            &[],
        )],
        vec![references("proj1/hero.component.html", &[("proj1/hero.component.ts", 5, 15)])],
    )
}

#[test]
fn test_html_template_change_affects_angular_component() {
    let affected = affected_by(&section("proj1/hero.component.html", &[1]), template_workspace());

    assert!(
        contains(&affected, "proj1"),
        "proj1 should be affected (html template changed)"
    );
    assert!(
        contains(&affected, "proj2"),
        "proj2 should be affected (imports component using the template)"
    );
    assert!(
        contains(&affected, "proj3"),
        "proj3 should be affected (implicit dependency on proj1)"
    );
}

/// An asset of proj1, imported there under `local`, which `users` use and proj2
/// imports in turn.
fn asset_workspace(
    asset_file: &str,
    module: &str,
    file: &str,
    local: &str,
    users: &[&str],
) -> WorkspaceIndex {
    let mut importing = source(file);
    importing.imports = vec![import(local, module)];
    let mut symbols = vec![symbol(file, local, false, &[], &[], users)];
    for user in users {
        symbols.push(symbol(file, user, true, &[], &[("proj2/index.ts", 8, 9)], &[]));
    }
    workspace(
        vec![importing, asset(asset_file), source("proj2/index.ts")],
        vec![node("proj2/index.ts", 8, 9, &["proj2"])],
        symbols,
        vec![references(asset_file, &[(file, 1, 0)])],
    )
}

/// `proj1/button.ts` imports a stylesheet without a name, at a place inside no
/// symbol; proj2 imports what the file exports.
fn stylesheet_workspace() -> WorkspaceIndex {
    let mut button = source("proj1/button.ts");
    button.exports = vec![export("renderButton", None, None), export("icon", None, Some("./icon"))];
    workspace(
        vec![
            button,
            asset("proj1/styles.css"),
            source("proj2/index.ts"),
            source("lib/index.ts"),
        ],
        vec![node("proj1/button.ts", 1, 7, &[]), node("proj2/index.ts", 8, 9, &["proj2"])],
        vec![
            symbol("proj1/button.ts", "renderButton", true, &[], &[("proj2/index.ts", 8, 9)], &[]),
            symbol("proj1/button.ts", "icon", true, &[], &[("lib/index.ts", 1, 9)], &[]),
        ],
        vec![references("proj1/styles.css", &[("proj1/button.ts", 1, 7)])],
    )
}

#[test]
fn test_css_stylesheet_change_affects_importing_file() {
    let affected = affected_by(&section("proj1/styles.css", &[2, 3]), stylesheet_workspace());

    assert!(
        contains(&affected, "proj1"),
        "proj1 should be affected (css file changed)"
    );
    assert!(
        contains(&affected, "proj2"),
        "proj2 should be affected (imports function from file using the CSS)"
    );
}

#[test]
fn test_json_config_change_affects_importing_file() {
    let ws = asset_workspace(
        "proj1/config.json",
        "./config.json",
        "proj1/api.ts",
        "config",
        &["getApiUrl", "getTimeout"],
    );
    let affected = affected_by(&section("proj1/config.json", &[2]), ws);

    assert!(
        contains(&affected, "proj1"),
        "proj1 should be affected (json config changed)"
    );
    assert!(
        contains(&affected, "proj2"),
        "proj2 should be affected (imports function from file using the JSON)"
    );
}

#[test]
fn test_unreferenced_asset_only_affects_owning_project() {
    let ws = workspace(vec![asset("proj1/unused-logo.png")], vec![], vec![], vec![]);
    let affected = affected_by(&section("proj1/unused-logo.png", &[1]), ws);

    assert!(
        contains(&affected, "proj1"),
        "proj1 should be affected (owns the file)"
    );
    assert!(
        !contains(&affected, "proj2"),
        "proj2 should NOT be affected (doesn't reference the asset)"
    );
    assert!(
        contains(&affected, "proj3"),
        "proj3 should be affected (implicit dependency on proj1)"
    );
}

#[test]
fn test_asset_outside_projects_is_ignored() {
    let ws = workspace(vec![asset("shared-assets/logo.svg")], vec![], vec![], vec![]);
    let affected = affected_by(&section("shared-assets/logo.svg", &[1]), ws);

    assert!(
        affected.is_empty(),
        "No projects should be affected when asset is outside all project roots"
    );
}

#[test]
fn test_asset_change_traces_through_exported_symbol() {
    let ws = asset_workspace(
        "proj1/animation.json",
        "./animation.json",
        "proj1/animation-component.ts",
        "animationData",
        &["AnimationComponent"],
    );
    let affected = affected_by(&section("proj1/animation.json", &[1]), ws);

    assert!(
        contains(&affected, "proj1"),
        "proj1 should be affected (owns the asset file)"
    );
    assert!(
        contains(&affected, "proj2"),
        "proj2 should be affected (imports component that uses the asset)"
    );
}

#[test]
fn test_asset_chain_with_intermediate_constant() {
    let file = "proj1/data-component.ts";
    let mut component = source(file);
    component.imports = vec![import("data", "./data.json")];
    component.exports = vec![export("DataComponent", None, None), export("getDataLength", None, None)];
    let ws = workspace(
        vec![component, asset("proj1/data.json"), source("proj2/index.ts")],
        vec![
            node(file, 3, 32, &["dataText"]),
            node(file, 4, 22, &["processedData"]),
            node(file, 7, 9, &["DataComponent"]),
            node(file, 11, 9, &["getDataLength"]),
        ],
        vec![
            symbol(file, "data", false, &[(3, 32)], &[], &[]),
            symbol(file, "dataText", false, &[(4, 22)], &[], &[]),
            symbol(file, "processedData", false, &[(7, 9), (11, 9)], &[], &[]),
            symbol(file, "DataComponent", true, &[], &[("proj2/index.ts", 8, 22)], &[]),
            symbol(file, "getDataLength", true, &[], &[("proj2/index.ts", 8, 47)], &[]),
        ],
        vec![references("proj1/data.json", &[(file, 1, 0)])],
    );
    let affected = affected_by(&section("proj1/data.json", &[1]), ws);

    assert!(contains(&affected, "proj1"), "proj1 should be affected");
    assert!(
        contains(&affected, "proj2"),
        "proj2 should be affected via asset → constant → export chain"
    );
}

#[test]
fn asset_import_without_exported_users_is_followed_itself() {
    let mut importing = source("proj1/api.ts");
    importing.imports = vec![import("other", "./other.json"), import("config", "./config.json")];
    let ws = workspace(
        vec![importing, asset("proj1/config.json"), source("proj2/index.ts")],
        vec![],
        vec![symbol("proj1/api.ts", "config", true, &[], &[("proj2/index.ts", 3, 1)], &[])],
        vec![references("proj1/config.json", &[("proj1/api.ts", 1, 0)])],
    );
    let affected = affected_by(&section("proj1/config.json", &[1]), ws);

    assert_eq!(affected, vec!["proj1", "proj2", "proj3"]);
}

#[test]
fn failed_query_for_users_of_an_asset_stops_there() {
    let mut ws = asset_workspace(
        "proj1/config.json",
        "./config.json",
        "proj1/api.ts",
        "config",
        &["getApiUrl"],
    );
    ws.symbols[0].exported_users = Err("no syntax tree".to_string());
    let affected = affected_by(&section("proj1/config.json", &[1]), ws);

    assert_eq!(affected, vec!["proj1", "proj3"]);
}

#[test]
fn asset_acts_through_the_symbol_that_names_it() {
    let result = reported(vec![changed("proj1/hero.component.html", &[1])], template_workspace());
    assert_eq!(result.affected_projects, vec!["proj1", "proj2", "proj3"]);
    let report = result.report.unwrap();
    assert!(report.projects[0].causes.contains(&AffectCause::AssetChange {
        asset_file: path("proj1/hero.component.html"),
        referenced_in: path("proj1/hero.component.ts"),
        line: 5,
    }));
    assert!(report.projects[1].causes == vec![AffectCause::ImportedSymbol {
        source_project: "proj1".to_string(),
        symbol: "HeroComponent".to_string(),
        via_file: path("proj2/index.ts"),
        source_file: path("proj1/hero.component.ts"),
    }]);
}

#[test]
fn asset_import_without_a_name_acts_through_the_exports() {
    // What the file only passes on is not followed.
    let affected = affected_by(&section("proj1/styles.css", &[2]), stylesheet_workspace());
    assert_eq!(affected, vec!["proj1", "proj2", "proj3"]);

    // A place that nothing is known of holds no symbol either.
    let mut ws = stylesheet_workspace();
    ws.nodes.remove(0);
    let affected = affected_by(&section("proj1/styles.css", &[2]), ws);
    assert_eq!(affected, vec!["proj1", "proj2", "proj3"]);
}

#[test]
fn failed_query_for_the_place_of_an_asset_stops_there() {
    let mut ws = template_workspace();
    ws.nodes[0].symbols = Err("no syntax tree".to_string());
    let affected = affected_by(&section("proj1/hero.component.html", &[1]), ws);
    assert_eq!(affected, vec!["proj1", "proj3"]);
}

#[test]
fn binary_asset_affects_its_owner() {
    let ws = workspace(vec![asset("proj2/logo.png")], vec![], vec![], vec![]);
    let diff = "diff --git a/proj2/logo.png b/proj2/logo.png\nindex 1..2 100644\nBinary files a/proj2/logo.png and b/proj2/logo.png differ\n";
    let result = find_affected_with_report(&monorepo(), parse_diff(diff), Ok(ws)).unwrap();

    assert_eq!(result.affected_projects, vec!["proj2"]);
    let report = result.report.unwrap();
    assert_eq!(report.projects.len(), 1);
    assert_eq!(report.projects[0].causes.len(), 1);
    assert!(matches!(
        &report.projects[0].causes[0],
        AffectCause::DirectChange { file, symbol: None, line: 0 } if *file == path("proj2/logo.png")
    ));
}

#[test]
fn test_uncommitted_source_file_change_is_detected() {
    let affected = affected_by(&section("proj1/index.ts", &[2, 5]), base_workspace());

    assert!(
        contains(&affected, "proj1"),
        "proj1 should be affected by uncommitted source file change"
    );
}

#[test]
fn test_uncommitted_asset_change_is_detected() {
    let ws = asset_workspace(
        "proj1/logo.svg",
        "./logo.svg",
        "proj1/logo-component.ts",
        "logo",
        &["LogoComponent"],
    );
    let affected = affected_by(&section("proj1/logo.svg", &[1]), ws);

    assert!(
        contains(&affected, "proj1"),
        "proj1 should be affected by uncommitted asset change"
    );
}

#[test]
fn test_staged_but_uncommitted_change_is_detected() {
    let affected = affected_by(&section("proj1/index.ts", &[2]), base_workspace());

    assert!(
        contains(&affected, "proj1"),
        "proj1 should be affected by staged but uncommitted change"
    );
}

#[test]
fn test_reexport_path_change_affects_project() {
    let ws = workspace(
        vec![source("proj1/utils.ts"), source("proj2/index.ts")],
        vec![node("proj2/index.ts", 4, 0, &[])],
        vec![],
        vec![],
    );
    let affected = affected_by(&section("proj2/index.ts", &[4]), ws);

    assert!(
        contains(&affected, "proj2"),
        "proj2 should be affected when a re-export specifier changes. Got: {:?}",
        affected
    );
}

#[test]
fn test_renamed_file_detected() {
    let diff = "diff --git a/proj1/old-name.ts b/proj1/new-name.ts\nsimilarity index 60%\nrename from proj1/old-name.ts\nrename to proj1/new-name.ts\nindex 1..2 100644\n--- a/proj1/old-name.ts\n+++ b/proj1/new-name.ts\n@@ -2 +2 @@ export function renamedFn() {\n-  return 'original';\n+  return 'modified after rename';\n";
    let ws = workspace(
        vec![source("proj1/new-name.ts")],
        vec![node("proj1/new-name.ts", 2, 0, &["renamedFn"])],
        vec![symbol("proj1/new-name.ts", "renamedFn", true, &[], &[], &[])],
        vec![],
    );
    let affected = affected_by(diff, ws);

    assert!(
        contains(&affected, "proj1"),
        "proj1 should be affected when a renamed file has changes. Got: {:?}",
        affected
    );
}

#[test]
fn test_renamed_file_cross_project_reference() {
    let diff = "diff --git a/proj1/feature.ts b/proj1/renamed-feature.ts\nsimilarity index 60%\nrename from proj1/feature.ts\nrename to proj1/renamed-feature.ts\nindex 1..2 100644\n--- a/proj1/feature.ts\n+++ b/proj1/renamed-feature.ts\n@@ -2 +2 @@ export function featureFn() {\n-  return 'feature';\n+  return 'feature-modified';\n";
    let ws = workspace(
        vec![source("proj1/renamed-feature.ts"), source("proj2/index.ts")],
        vec![node("proj1/renamed-feature.ts", 2, 0, &["featureFn"])],
        vec![symbol("proj1/renamed-feature.ts", "featureFn", true, &[], &[], &[])],
        vec![],
    );
    let affected = affected_by(diff, ws);

    assert!(
        contains(&affected, "proj1"),
        "proj1 should be affected when a renamed file has changes. Got: {:?}",
        affected
    );
}

fn lib_and_app() -> TrueAffectedConfig {
    TrueAffectedConfig {
        cwd: path("/tmp/monorepo"),
        base: "main".to_string(),
        root_ts_config: None,
        projects: vec![project("lib", "lib", &[]), project("app", "app", &[])],
        include_patterns: vec![],
        ignored_paths: vec![],
    }
}

/// `app/src/index.ts` refers to `name` of the file that `specifier` resolves to.
fn extension_case(specifier: &str, file: &str, changed_line: usize, name: &str) -> Vec<String> {
    let cwd = path("/tmp/monorepo");
    let context = path("/tmp/monorepo/app/src");
    let existing = vec![format!("/tmp/monorepo/app/src/../../{}", file)];
    let resolved = simple_resolve_relative(&cwd, &context, specifier, &existing)
        .expect("the specifier should resolve");
    assert!(resolved == path(&format!("app/src/../../{}", file)));

    let ws = workspace(
        vec![source(file), source("app/src/index.ts")],
        vec![
            node(file, changed_line, 0, &[name]),
            node("app/src/index.ts", 5, 2, &["main"]),
        ],
        vec![
            symbol(file, name, true, &[], &[("app/src/index.ts", 5, 2)], &[]),
            symbol("app/src/index.ts", "main", true, &[], &[], &[]),
        ],
        vec![],
    );
    find_affected(&lib_and_app(), parse_diff(&section(file, &[changed_line])), Ok(ws))
        .expect("find_affected failed")
        .affected_projects
}

#[test]
fn test_js_to_ts_extension_resolution() {
    let affected = extension_case("../../lib/src/utils.js", "lib/src/utils.ts", 2, "helper");

    assert!(
        contains(&affected, "lib"),
        "lib should be affected (file was changed). Got: {:?}",
        affected
    );
    assert!(
        contains(&affected, "app"),
        "app should be affected (imports lib/src/utils.ts via .js extension). Got: {:?}",
        affected
    );
}

#[test]
fn test_jsx_to_tsx_extension_resolution() {
    let affected = extension_case("../../lib/src/Widget.jsx", "lib/src/Widget.tsx", 1, "Widget");

    assert!(
        contains(&affected, "lib"),
        "lib should be affected (file was changed). Got: {:?}",
        affected
    );
    assert!(
        contains(&affected, "app"),
        "app should be affected (imports lib/src/Widget.tsx via .jsx extension). Got: {:?}",
        affected
    );
}

#[test]
fn cycles_are_followed_once() {
    let ws = workspace(
        vec![source("proj1/a.ts"), source("proj2/b.ts")],
        vec![
            node("proj1/a.ts", 1, 0, &["a"]),
            node("proj1/a.ts", 9, 1, &["a"]),
            node("proj2/b.ts", 4, 1, &["b"]),
        ],
        vec![
            symbol("proj1/a.ts", "a", true, &[(9, 1)], &[("proj2/b.ts", 4, 1)], &[]),
            symbol("proj2/b.ts", "b", true, &[], &[("proj1/a.ts", 9, 1)], &[]),
        ],
        vec![],
    );
    let mut state = AffectedState::new(true);
    assert!(process_changed_symbol(&ws, &path("proj1/a.ts"), &"a".to_string(), &mut state).is_ok());

    let mut names = state.list();
    names.sort();
    assert_eq!(names, vec!["proj1", "proj2"]);
    let report = state.into_report().unwrap();
    assert_eq!(report.projects.len(), 2);
    assert_eq!(report.projects[0].causes.len(), 1);
    assert!(matches!(
        &report.projects[0].causes[0],
        AffectCause::ImportedSymbol { source_project, symbol, via_file, source_file }
            if source_project == "proj2"
                && symbol == "b"
                && *via_file == path("proj1/a.ts")
                && *source_file == path("proj2/b.ts")
    ));
}

#[test]
fn failed_query_keeps_what_was_marked_before() {
    let mut ws = workspace(
        vec![source("proj1/a.ts"), source("proj2/b.ts"), source("proj3/c.ts")],
        vec![
            node("proj1/a.ts", 1, 0, &["first", "second"]),
            NodeFacts {
                file: path("proj1/a.ts"),
                position: place(2, 0),
                symbols: Err("unreadable".to_string()),
            },
        ],
        vec![
            symbol("proj1/a.ts", "first", true, &[], &[("proj2/b.ts", 1, 1)], &[]),
            symbol("proj1/a.ts", "second", true, &[], &[("proj3/c.ts", 1, 1)], &[]),
        ],
        vec![],
    );
    ws.symbols[1].local_references = Err("out of date".to_string());

    let mut state = AffectedState::new(false);
    let outcome = process_changed_line(&ws, &path("proj1/a.ts"), 1, &mut state);
    assert_eq!(outcome, Err("out of date".to_string()));
    assert_eq!(state.list(), vec!["proj2"]);

    let mut state = AffectedState::new(false);
    let outcome = process_changed_line(&ws, &path("proj1/a.ts"), 2, &mut state);
    assert_eq!(outcome, Err("unreadable".to_string()));
    assert!(state.list().is_empty());

    let mut state = AffectedState::new(false);
    let outcome = process_changed_line(&ws, &path("proj1/a.ts"), 3, &mut state);
    assert_eq!(outcome, Ok(()));
    assert!(state.list().is_empty());
}

#[test]
fn failed_cross_reference_query_stops() {
    let mut ws = base_workspace();
    ws.symbols[0].cross_file_references = Err("no index".to_string());
    let affected = affected_by(&section("proj1/index.ts", &[2]), ws);
    assert_eq!(affected, vec!["proj1", "proj3"]);
}

#[test]
fn unanalyzed_source_file_is_skipped() {
    let mut ws = base_workspace();
    ws.files[0].is_analyzed = false;
    let affected = affected_by(&section("proj1/index.ts", &[2]), ws);
    assert!(affected.is_empty());
}

#[test]
fn failed_asset_query_still_affects_the_owner() {
    let mut ws = asset_workspace("proj1/a.json", "./a.json", "proj1/a.ts", "a", &["A"]);
    ws.assets[0].references = Err("unreadable".to_string());
    let affected = affected_by(&section("proj1/a.json", &[1]), ws);
    assert_eq!(affected, vec!["proj1", "proj3"]);
}

fn reported(files: Vec<ChangedFile>, ws: WorkspaceIndex) -> AffectedResult {
    find_affected_with_report(&monorepo(), Ok(files), Ok(ws)).unwrap()
}

#[test]
fn report_gives_sorted_reasons_once() {
    let files = vec![
        changed("proj2/index.ts", &[11, 11, 3]),
        changed("proj1/index.ts", &[2]),
    ];
    let result = reported(files, base_workspace());
    assert_eq!(result.affected_projects, vec!["proj1", "proj2", "proj3"]);
    let report = result.report.unwrap();
    let names: Vec<&str> = report.projects.iter().map(|p| p.name.as_str()).collect();
    assert_eq!(names, vec!["proj1", "proj2", "proj3"]);

    let causes = &report.projects[1].causes;
    assert_eq!(causes.len(), 3);
    assert!(matches!(
        &causes[0],
        AffectCause::DirectChange { file, symbol: None, line: 3 } if *file == path("proj2/index.ts")
    ));
    assert!(matches!(
        &causes[1],
        AffectCause::DirectChange { symbol: Some(name), line: 11, .. } if name == "anotherFn"
    ));
    assert!(matches!(
        &causes[2],
        AffectCause::ImportedSymbol { source_project, symbol, .. }
            if source_project == "proj1" && symbol == "proj1"
    ));
    assert!(matches!(
        &report.projects[2].causes[0],
        AffectCause::ImplicitDependency { depends_on } if depends_on == "proj1"
    ));
}

#[test]
fn report_names_asset_changes() {
    let ws = asset_workspace("proj1/a.json", "./a.json", "proj2/index.ts", "a", &[]);
    let result = reported(vec![changed("proj1/a.json", &[4])], ws);
    assert_eq!(result.affected_projects, vec!["proj1", "proj2", "proj3"]);
    let report = result.report.unwrap();
    assert!(matches!(
        &report.projects[0].causes[0],
        AffectCause::DirectChange { symbol: None, line: 4, .. }
    ));
    assert!(matches!(
        &report.projects[1].causes[0],
        AffectCause::AssetChange { asset_file, referenced_in, line: 1 }
            if *asset_file == path("proj1/a.json") && *referenced_in == path("proj2/index.ts")
    ));
}

#[test]
fn reference_from_a_file_without_owner_gives_no_reason() {
    // The symbol lies outside every project: proj2 is affected, but no project
    // can be named as the source.
    let ws = workspace(
        vec![source("shared/a.ts"), source("proj2/b.ts")],
        vec![node("shared/a.ts", 1, 0, &["a"])],
        vec![symbol("shared/a.ts", "a", true, &[], &[("proj2/b.ts", 1, 1)], &[])],
        vec![],
    );
    let result = reported(vec![changed("shared/a.ts", &[1])], ws);
    assert_eq!(result.affected_projects, vec!["proj2"]);
    let report = result.report.unwrap();
    assert_eq!(report.projects.len(), 1);
    assert_eq!(report.projects[0].name, "proj2");
    assert!(report.projects[0].causes.is_empty());
}

#[test]
fn source_file_without_lines_is_a_reason_for_its_owner() {
    let result = reported(vec![changed("proj2/index.ts", &[])], base_workspace());
    assert_eq!(result.affected_projects, vec!["proj2"]);
    let report = result.report.unwrap();
    assert_eq!(report.projects.len(), 1);
    assert_eq!(report.projects[0].name, "proj2");
    let cause = AffectCause::DirectChange { file: path("proj2/index.ts"), symbol: None, line: 0 };
    assert!(report.projects[0].causes == vec![cause]);
}

#[test]
fn report_lists_every_affected_project() {
    let files = vec![changed("proj1/index.ts", &[2]), changed("proj2/index.ts", &[])];
    let result = reported(files, base_workspace());
    let report = result.report.unwrap();
    let names: Vec<String> = report.projects.iter().map(|p| p.name.clone()).collect();
    assert_eq!(names, result.affected_projects);
    assert!(report.projects.iter().all(|p| !p.causes.is_empty()));
}

#[test]
fn changes_add_up() {
    let one = vec![changed("proj1/index.ts", &[2])];
    let two = vec![changed("proj2/index.ts", &[11]), changed("proj3/index.ts", &[])];
    let run = |files: Vec<ChangedFile>| {
        find_affected(&monorepo(), Ok(files), Ok(base_workspace()))
            .unwrap()
            .affected_projects
    };
    let mut sum = run(one.clone());
    sum.extend(run(two.clone()));
    sum.sort();
    sum.dedup();
    let mut files = one;
    files.extend(two);
    assert_eq!(run(files), sum);
}

#[test]
fn reasons_keep_the_spelling_of_paths() {
    let result = reported(
        vec![changed("proj2//index.ts", &[3]), changed("proj2/index.ts", &[3])],
        base_workspace(),
    );
    let report = result.report.unwrap();
    assert_eq!(report.projects[0].causes.len(), 1);
    assert!(matches!(
        &report.projects[0].causes[0],
        AffectCause::DirectChange { file, symbol: None, line: 3 } if file.as_str() == "proj2//index.ts"
    ));
}

#[test]
fn marking_adds_to_what_was_there() {
    let ws = base_workspace();
    let mut state = AffectedState::new(true);
    let earlier = AffectCause::ImplicitDependency { depends_on: "x".to_string() };
    state.mark("proj2".to_string(), Some(earlier.clone()));
    assert!(process_changed_line(&ws, &path("proj1/index.ts"), 2, &mut state).is_ok());
    let report = state.into_report().unwrap();
    assert_eq!(report.projects[0].name, "proj2");
    assert!(report.projects[0].causes.contains(&earlier));
    assert!(report.projects[0].causes.iter().any(|c| matches!(c, AffectCause::ImportedSymbol { .. })));
}

#[test]
fn report_leaves_the_list_alone() {
    let files = vec![changed("proj1/index.ts", &[2, 6])];
    let plain = find_affected(&monorepo(), Ok(files.clone()), Ok(base_workspace())).unwrap();
    let with_report = reported(files, base_workspace());
    assert!(plain.report.is_none());
    assert_eq!(plain.affected_projects, with_report.affected_projects);
}

#[test]
fn more_changes_affect_more_and_order_is_irrelevant() {
    let one = changed("proj1/index.ts", &[6]);
    let two = changed("proj2/index.ts", &[11]);
    let run = |files: Vec<ChangedFile>| {
        find_affected(&monorepo(), Ok(files), Ok(base_workspace()))
            .unwrap()
            .affected_projects
    };
    let fewer = run(vec![one.clone()]);
    let more = run(vec![one.clone(), two.clone()]);
    assert!(fewer.iter().all(|name| more.contains(name)));
    assert_eq!(more, run(vec![two.clone(), one, two]));
}

#[test]
fn errors_are_handed_on() {
    let failed: Result<Vec<ChangedFile>, DominoError> = Err(DominoError::Other("git".to_string()));
    assert!(!needs_analysis(&failed));
    let r = find_affected(&monorepo(), failed, Ok(base_workspace()));
    assert!(matches!(r, Err(DominoError::Other(m)) if m == "git"));

    let files = Ok(vec![changed("proj1/index.ts", &[2])]);
    assert!(needs_analysis(&files));
    let r = find_affected(&monorepo(), files, Err(DominoError::Io("disk".to_string())));
    assert!(matches!(r, Err(DominoError::Io(m)) if m == "disk"));

    // Without changes the workspace is not looked at.
    let nothing: Result<Vec<ChangedFile>, DominoError> = Ok(vec![]);
    assert!(!needs_analysis(&nothing));
    let r = find_affected_with_report(&monorepo(), nothing, Err(DominoError::Io("x".to_string())));
    let result = r.unwrap();
    assert!(result.affected_projects.is_empty());
    assert!(result.report.is_none());
}

#[test]
fn same_path_in_another_spelling_is_the_same_file() {
    let ws = base_workspace();
    let mut state = AffectedState::new(false);
    assert!(process_changed_line(&ws, &path("proj1//index.ts"), 2, &mut state).is_ok());
    assert_eq!(state.list(), vec!["proj2"]);
}
