use domino::affected::find_affected;
use domino::error::DominoError;
use domino::git::{
    branch_candidates, branch_probe, detect_default_branch, file_change, get_base_commit,
    get_changed_files, get_diff, get_merge_base, parse_diff, start_action, succeeded,
    CommandOutput, GitAction, GitStage,
};
use domino::index::{FileFacts, WorkspaceIndex};
use domino::path::FilePath;
use domino::types::{ChangedFile, Project, TrueAffectedConfig};

#[test]
fn test_parse_diff() {
    let diff = r#"diff --git a/libs/core/src/utils.ts b/libs/core/src/utils.ts
index 1234567..abcdefg 100644
--- a/libs/core/src/utils.ts
+++ b/libs/core/src/utils.ts
@@ -15,0 +16,1 @@ export function findRootNode() {
+  return node.getParent();
@@ -45,1 +46,1 @@ export function getPackageName() {
-  return projects.find(p => p.path === path);
+  return projects.find(({ sourceRoot }) => path.includes(sourceRoot));
diff --git a/libs/nx/src/cli.ts b/libs/nx/src/cli.ts
index 9876543..fedcba9 100644
--- a/libs/nx/src/cli.ts
+++ b/libs/nx/src/cli.ts
@@ -102,0 +103,2 @@ export async function run(): Promise<void> {
+  // New code
+  console.log('test');
"#;

    let result = parse_diff(diff).unwrap();
    assert_eq!(result.len(), 2);

    assert_eq!(result[0].file_path.as_str(), "libs/core/src/utils.ts");
    assert_eq!(result[0].changed_lines, vec![16, 46]);

    assert_eq!(result[1].file_path.as_str(), "libs/nx/src/cli.ts");
    assert_eq!(result[1].changed_lines, vec![103]);
}

#[test]
fn test_parse_diff_empty() {
    let diff = "";
    let result = parse_diff(diff).unwrap();
    assert_eq!(result.len(), 0);
}

#[test]
fn test_parse_diff_renamed_file() {
    let diff = r#"diff --git a/libs/old-dir/provider.ts b/libs/new-dir/provider.ts
similarity index 95%
rename from libs/old-dir/provider.ts
rename to libs/new-dir/provider.ts
index 1234567..abcdefg 100644
--- a/libs/old-dir/provider.ts
+++ b/libs/new-dir/provider.ts
@@ -10,1 +10,1 @@ export class Provider {
-  return 'old';
+  return 'new';
"#;

    let result = parse_diff(diff).unwrap();
    assert_eq!(result.len(), 1);

    assert_eq!(result[0].file_path.as_str(), "libs/new-dir/provider.ts");
    assert_eq!(result[0].changed_lines, vec![10]);
}

#[test]
fn test_parse_diff_renamed_file_with_changes() {
    let diff = r#"diff --git a/src/quotes/helper.ts b/src/quote-page/helper.ts
similarity index 80%
rename from src/quotes/helper.ts
rename to src/quote-page/helper.ts
index 1234567..abcdefg 100644
--- a/src/quotes/helper.ts
+++ b/src/quote-page/helper.ts
@@ -5,1 +5,1 @@ export function getQuote() {
-  return fetchQuote();
+  return fetchPlatformicQuote();
@@ -20,0 +20,3 @@ export function formatQuote() {
+  // New validation logic
+  validateQuote();
+  return formatted;
"#;

    let result = parse_diff(diff).unwrap();
    assert_eq!(result.len(), 1);

    assert_eq!(result[0].file_path.as_str(), "src/quote-page/helper.ts");
    assert_eq!(result[0].changed_lines, vec![5, 20]);
}

#[test]
fn test_parse_diff_mixed_renamed_and_normal() {
    let diff = r#"diff --git a/src/old/component.ts b/src/new/component.ts
similarity index 90%
rename from src/old/component.ts
rename to src/new/component.ts
index 1234567..abcdefg 100644
--- a/src/old/component.ts
+++ b/src/new/component.ts
@@ -3,1 +3,1 @@
-  old code
+  new code
diff --git a/src/index.ts b/src/index.ts
index 9876543..fedcba9 100644
--- a/src/index.ts
+++ b/src/index.ts
@@ -1,1 +1,1 @@
-export { Component } from './old/component';
+export { Component } from './new/component';
"#;

    let result = parse_diff(diff).unwrap();
    assert_eq!(result.len(), 2);

    assert_eq!(result[0].file_path.as_str(), "src/new/component.ts");
    assert_eq!(result[1].file_path.as_str(), "src/index.ts");
}

#[test]
fn test_parse_diff_rename_only() {
    let diff = r#"diff --git a/src/old/name.ts b/src/new/name.ts
similarity index 100%
rename from src/old/name.ts
rename to src/new/name.ts
"#;

    let result = parse_diff(diff).unwrap();
    assert_eq!(result.len(), 1);
    assert_eq!(result[0].file_path.as_str(), "src/new/name.ts");
    assert_eq!(result[0].changed_lines, vec![1]);
}

#[test]
fn test_parse_diff_copy_only() {
    let diff = r#"diff --git a/src/original.ts b/src/copied.ts
similarity index 100%
copy from src/original.ts
copy to src/copied.ts
"#;

    let result = parse_diff(diff).unwrap();
    assert_eq!(result.len(), 1);
    assert_eq!(result[0].file_path.as_str(), "src/copied.ts");
    assert_eq!(result[0].changed_lines, vec![1]);
}

#[test]
fn quoted_paths_lose_their_quotes() {
    let diff = "diff --git \"a/src/with space.ts\" \"b/src/with space.ts\"\n@@ -1 +1 @@\n-a\n+b\n";
    let result = parse_diff(diff).unwrap();
    assert_eq!(result.len(), 1);
    assert_eq!(result[0].file_path.as_str(), "src/with space.ts");
    assert_eq!(result[0].changed_lines, vec![1]);
}

#[test]
fn deleted_lines_are_counted_at_their_new_place() {
    let diff = "diff --git a/x.ts b/x.ts\r\n@@ -7,3 +6,0 @@ fn\r\n-a\r\n-b\r\n-c\r\n";
    let result = parse_diff(diff).unwrap();
    assert_eq!(result[0].changed_lines, vec![6]);
}

#[test]
fn lines_are_counted_from_one() {
    // Lines deleted at the top of a file, and a file deleted whole.
    let diff = "diff --git a/x.ts b/x.ts\n@@ -1,2 +0,0 @@\n-a\n-b\n";
    let result = parse_diff(diff).unwrap();
    assert_eq!(result.len(), 1);
    assert_eq!(result[0].changed_lines, vec![1]);

    let file = change("", Some(Some("a.ts")), &[Some("0"), Some("000"), Some("+0"), Some("4")]).unwrap();
    assert_eq!(file.changed_lines, vec![1, 1, 1, 4]);
}

#[test]
fn renamed_binary_files_are_changed_entirely() {
    let diff = "diff --git a/old.png b/new.png\nsimilarity index 90%\nrename from old.png\nrename to new.png\nindex 1..2 100644\nBinary files a/old.png and b/new.png differ\n";
    let result = parse_diff(diff).unwrap();
    assert_eq!(result.len(), 1);
    assert_eq!(result[0].file_path.as_str(), "new.png");
    assert!(result[0].changed_lines.is_empty());

    // Moved without a change, it is reported at its first line.
    let diff = "diff --git a/old.png b/new.png\nsimilarity index 100%\nrename from old.png\nrename to new.png\n";
    let result = parse_diff(diff).unwrap();
    assert_eq!(result[0].changed_lines, vec![1]);
}

#[test]
fn diffs_one_after_the_other_are_read_one_by_one() {
    let first = "noise\ndiff --git a/x.ts b/x.ts\n@@ -1 +1 @@\n-a\n+b\n";
    let second = "diff --git a/y.ts b/y.ts\n@@ -3 +3,2 @@\n-a\n+b\n+c\ndiff --git a/z.ts b/z.ts\n@@ -0,0 +9 @@\n+a\n";
    let read = |diff: &str| -> Vec<(String, Vec<usize>)> {
        parse_diff(diff)
            .unwrap()
            .iter()
            .map(|f| (f.file_path.as_str().to_string(), f.changed_lines.clone()))
            .collect()
    };
    let mut both = read(first);
    both.extend(read(second));
    assert_eq!(both.len(), 3);
    assert_eq!(read(&format!("{}{}", first, second)), both);
}

#[test]
fn sections_without_lines_or_path_are_dropped() {
    let diff = "diff --git a/run.sh b/run.sh\nold mode 100644\nnew mode 100755\n";
    assert_eq!(parse_diff(diff).unwrap().len(), 0);
    assert_eq!(parse_diff("diff --git nonsense\n@@ -1 +1 @@\n").unwrap().len(), 0);
    assert_eq!(parse_diff("no diff at all @@ -1 +1 @@").unwrap().len(), 0);
}

#[test]
fn binary_files_are_changed_entirely() {
    let diff = "diff --git a/logo.png b/logo.png\nindex 1..2 100644\nBinary files a/logo.png and b/logo.png differ\n";
    let result = parse_diff(diff).unwrap();
    assert_eq!(result.len(), 1);
    assert_eq!(result[0].file_path.as_str(), "logo.png");
    assert!(result[0].changed_lines.is_empty());
}

fn change(section: &str, header: Option<Option<&str>>, starts: &[Option<&str>]) -> Option<ChangedFile> {
    file_change(
        section,
        header.map(|g| g.map(|t| t.to_string())),
        starts.iter().map(|g| g.map(|t| t.to_string())).collect(),
    )
}

#[test]
fn section_is_read_from_its_matches() {
    let file = change("", Some(Some(" \"a b.ts ")), &[Some("12"), None, Some("+7"), Some("x")]).unwrap();
    assert_eq!(file.file_path.as_str(), "a b.ts");
    assert_eq!(file.changed_lines, vec![12, 7]);

    // A number that does not fit, or that is not written in ASCII digits, is left out.
    let starts = [Some("99999999999999999999999"), Some("\u{0663}"), Some("")];
    assert!(change("", Some(Some("a.ts")), &starts).is_none());

    assert!(change("", None, &[Some("1")]).is_none());
    assert!(change("", Some(None), &[Some("1")]).is_none());
}

#[test]
fn moved_sections_take_the_first_new_path() {
    let section = "x\nrename to rename to copy to  b.ts \ncopy to c.ts\n";
    let file = change(section, Some(Some("a.ts")), &[]).unwrap();
    assert_eq!(file.file_path.as_str(), "b.ts");
    assert_eq!(file.changed_lines, vec![1]);

    // Without a listed path a section says nothing, even where it was moved.
    assert!(change(section, None, &[]).is_none());
}

fn output(success: bool, stdout: &str, stderr: &str) -> Result<CommandOutput, String> {
    Ok(CommandOutput {
        success,
        stdout: stdout.as_bytes().to_vec(),
        stderr: stderr.as_bytes().to_vec(),
    })
}

fn other(e: DominoError) -> String {
    match e {
        DominoError::Other(m) => m,
        _ => panic!("another kind of error"),
    }
}

#[test]
fn default_branch_is_the_first_that_exists() {
    let candidates = branch_candidates();
    assert_eq!(candidates, vec!["origin/main", "origin/master"]);
    assert_eq!(branch_probe(&candidates[1]), vec!["rev-parse", "--verify", "origin/master"]);
    assert_eq!(detect_default_branch(&vec![true]), "origin/main");
    assert_eq!(detect_default_branch(&vec![false, true]), "origin/master");
    assert_eq!(detect_default_branch(&vec![false, false]), "origin/main");
    assert_eq!(detect_default_branch(&vec![]), "origin/main");
    assert!(succeeded(&output(true, "", "")));
    assert!(!succeeded(&output(false, "x", "")));
    assert!(!succeeded(&Err("no git".to_string())));
}

#[test]
fn merge_base_is_trimmed_or_missing() {
    assert_eq!(get_merge_base(&output(true, " abc123 \n", "")).unwrap(), Some("abc123".to_string()));
    assert_eq!(get_merge_base(&output(true, " \n", "")).unwrap(), None);
    assert_eq!(get_merge_base(&output(false, "abc123\n", "")).unwrap(), None);
    let e = get_merge_base(&Err("no git".to_string())).unwrap_err();
    assert_eq!(other(e), "Failed to execute git merge-base: no git");
}

#[test]
fn base_commit_errors_name_the_base() {
    assert_eq!(get_base_commit("main", &output(true, "abc\n", "")).unwrap(), "abc");
    let e = get_base_commit("main", &output(false, "", "unknown revision")).unwrap_err();
    assert_eq!(other(e), "Git rev-parse failed for 'main': unknown revision");
    let e = get_base_commit("main", &Err("no git".to_string())).unwrap_err();
    assert_eq!(other(e), "Failed to execute git rev-parse: no git");
}

#[test]
fn diff_errors_name_the_base() {
    assert_eq!(get_diff("abc", &output(true, " text\n", "")).unwrap(), " text\n");
    let e = get_diff("abc", &output(false, "", "bad object")).unwrap_err();
    assert_eq!(other(e), "Git diff failed for base 'abc': bad object");
    let e = get_diff("abc", &Err("no git".to_string())).unwrap_err();
    assert_eq!(other(e), "Failed to execute git diff: no git");
}

#[test]
fn invalid_bytes_are_replaced() {
    let run = Ok(CommandOutput { success: true, stdout: vec![b'a', 0xff, b'b'], stderr: vec![] });
    assert_eq!(get_diff("abc", &run).unwrap(), "a\u{fffd}b");
}

fn command(action: GitAction) -> (GitStage, Vec<String>) {
    match action {
        GitAction::Run { stage, args } => (stage, args),
        GitAction::Done { .. } => panic!("no command"),
    }
}

fn files(action: GitAction) -> Result<Vec<ChangedFile>, DominoError> {
    match action {
        GitAction::Done { files } => files,
        GitAction::Run { .. } => panic!("not done"),
    }
}

#[test]
fn changed_files_come_from_the_merge_base() {
    let (stage, args) = command(start_action("main", "HEAD"));
    assert_eq!(args, vec!["merge-base", "main", "HEAD"]);
    let (stage, args) = command(get_changed_files("main", &stage, &output(true, "abc\n", "")));
    assert_eq!(args, vec!["diff", "abc", "--unified=0", "--relative"]);
    assert!(matches!(&stage, GitStage::Diff { base } if base == "abc"));
    let diff = "diff --git a/x.ts b/x.ts\n@@ -1 +2 @@\n";
    let found = files(get_changed_files("main", &stage, &output(true, diff, ""))).unwrap();
    assert_eq!(found.len(), 1);
    assert_eq!(found[0].file_path.as_str(), "x.ts");
    assert_eq!(found[0].changed_lines, vec![2]);
}

#[test]
fn changed_files_fall_back_to_the_base() {
    let (stage, _) = command(start_action("main", "HEAD"));
    let (stage, args) = command(get_changed_files("main", &stage, &output(false, "", "no")));
    assert_eq!(args, vec!["rev-parse", "main"]);
    let (stage, args) = command(get_changed_files("main", &stage, &output(true, "def\n", "")));
    assert_eq!(args, vec!["diff", "def", "--unified=0", "--relative"]);
    let e = files(get_changed_files("main", &stage, &output(false, "", "bad"))).unwrap_err();
    assert_eq!(other(e), "Git diff failed for base 'def': bad");
}

#[test]
fn failures_end_the_search() {
    let (stage, _) = command(start_action("main", "HEAD"));
    let e = files(get_changed_files("main", &stage, &Err("x".to_string()))).unwrap_err();
    assert_eq!(other(e), "Failed to execute git merge-base: x");
    let e = files(get_changed_files("main", &GitStage::RevParse, &output(false, "", "y"))).unwrap_err();
    assert_eq!(other(e), "Git rev-parse failed for 'main': y");
}

fn project(name: &str, dependencies: &[&str]) -> Project {
    Project {
        name: name.to_string(),
        source_root: FilePath::new(name),
        ts_config: None,
        implicit_dependencies: dependencies.iter().map(|d| d.to_string()).collect(),
        targets: vec![],
    }
}

#[test]
fn test_three_dot_diff_behavior() {
    // The feature branch left main at `fork` and changed proj1; main has changed
    // proj2 since. The diff that is asked for is against the fork.
    let (stage, args) = command(start_action("main", "HEAD"));
    assert_eq!(args, vec!["merge-base", "main", "HEAD"]);
    let (stage, args) = command(get_changed_files("main", &stage, &output(true, "fork\n", "")));
    assert_eq!(args[1], "fork");
    let diff = "diff --git a/proj1/index.ts b/proj1/index.ts\n@@ -2 +2 @@ export function proj1() {\n-  return 'proj1';\n+  return 'proj1-feature-change';\n";
    let changed = files(get_changed_files("main", &stage, &output(true, diff, "")));

    let facts = |file: &str, owner: &str| FileFacts {
        path: FilePath::new(file),
        is_source: true,
        is_analyzed: true,
        owner: Some(owner.to_string()),
        imports: vec![],
        exports: vec![],
    };
    let ws = WorkspaceIndex {
        files: vec![facts("proj1/index.ts", "proj1"), facts("proj2/index.ts", "proj2")],
        nodes: vec![],
        symbols: vec![],
        assets: vec![],
    };
    let config = TrueAffectedConfig {
        cwd: FilePath::new("/work/monorepo"),
        base: "main".to_string(),
        root_ts_config: Some(FilePath::new("tsconfig.json")),
        projects: vec![project("proj1", &[]), project("proj2", &[]), project("proj3", &["proj1"])],
        include_patterns: vec![],
        ignored_paths: vec![],
    };
    let affected = find_affected(&config, changed, Ok(ws)).unwrap().affected_projects;

    assert!(affected.contains(&"proj1".to_string()), "proj1 should be affected");
    assert!(
        affected.contains(&"proj3".to_string()),
        "proj3 should be affected (implicit dep)"
    );
    assert!(
        !affected.contains(&"proj2".to_string()),
        "proj2 should NOT be affected (change is on main, not in feature branch)"
    );
}
