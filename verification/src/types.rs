//! The values that the analysis reads and returns.

use crate::path::{FilePath, PathView};
use vstd::prelude::*;

verus! {

/// A project in the workspace.
#[derive(Debug, Clone)]
pub struct Project {
    /// Project name
    pub name: String,
    /// Path to the project source root
    pub source_root: FilePath,
    /// Path to the project's tsconfig.json (optional)
    pub ts_config: Option<FilePath>,
    /// The projects that this one depends on implicitly: it counts as affected
    /// when one of them is.
    pub implicit_dependencies: Vec<String>,
    /// Available targets (Nx only)
    pub targets: Vec<String>,
}

/// A file with changed lines.
#[derive(Debug, Clone)]
pub struct ChangedFile {
    /// Path to the file (relative to the workspace root)
    pub file_path: FilePath,
    /// Line numbers that changed (1-indexed). Empty for binary files (the
    /// entire file counts as changed).
    pub changed_lines: Vec<usize>,
}

/// A reference to a symbol in the code.
#[derive(Debug, Clone)]
pub struct Reference {
    /// File where the reference is located
    pub file_path: FilePath,
    /// Line number (1-indexed); zero, together with a zero column, where the
    /// whole file refers to the symbol.
    pub line: usize,
    /// Column number (0-indexed)
    pub column: usize,
}

/// A reference to a non-source asset in a source file.
#[derive(Debug, Clone)]
pub struct AssetReference {
    /// The source file containing the reference
    pub source_file: FilePath,
    /// Line number where the reference appears (1-indexed)
    pub line: usize,
    /// Column number of the reference start (0-indexed)
    pub column: usize,
    /// The matched path string from the source file (useful for debugging)
    pub matched_path: String,
}

/// Import information.
#[derive(Debug, Clone)]
pub struct Import {
    /// The imported symbol name (from the source file)
    pub imported_name: String,
    /// The local name (in the importing file)
    pub local_name: String,
    /// The module specifier (e.g., "./utils" or "lodash")
    pub from_module: String,
    /// The resolved file path (after module resolution)
    pub resolved_file: Option<FilePath>,
    /// Whether this is a type-only import
    pub is_type_only: bool,
    /// Whether this import comes from a dynamic import() expression
    pub is_dynamic: bool,
}

/// Export information.
#[derive(Debug, Clone)]
pub struct Export {
    /// The exported symbol name
    pub exported_name: String,
    /// The local name (if different from the exported name)
    pub local_name: Option<String>,
    /// If this is a re-export, the module it is re-exported from
    pub re_export_from: Option<String>,
}

/// Configuration for the analysis.
#[derive(Debug, Clone)]
pub struct TrueAffectedConfig {
    /// Current working directory
    pub cwd: FilePath,
    /// Base branch to compare against
    pub base: String,
    /// Root tsconfig path
    pub root_ts_config: Option<FilePath>,
    /// Projects in the workspace
    pub projects: Vec<Project>,
    /// Additional file patterns to take in
    pub include_patterns: Vec<String>,
    /// Paths to ignore
    pub ignored_paths: Vec<String>,
}

/// Result of the analysis.
#[derive(Debug, Clone)]
pub struct AffectedResult {
    /// List of affected project names
    pub affected_projects: Vec<String>,
    /// Detailed report with causality information (optional)
    pub report: Option<AffectedReport>,
}

/// Detailed report of affected projects with causality information.
#[derive(Debug, Clone)]
pub struct AffectedReport {
    /// Information about each affected project
    pub projects: Vec<AffectedProjectInfo>,
}

/// Information about why a project is affected.
#[derive(Debug, Clone)]
pub struct AffectedProjectInfo {
    /// Project name
    pub name: String,
    /// Reasons why this project is affected
    pub causes: Vec<AffectCause>,
}

/// Reason why a project is affected.
#[derive(Debug, Clone, PartialEq, Eq)]
pub enum AffectCause {
    /// Direct change to a file in this project
    DirectChange {
        /// File that was changed
        file: FilePath,
        /// Symbol that was changed (if identified)
        symbol: Option<String>,
        /// Line number where the change occurred
        line: usize,
    },
    /// Imported a changed symbol from another project
    ImportedSymbol {
        /// Source project that was changed
        source_project: String,
        /// The symbol that was imported
        symbol: String,
        /// File where the import occurs
        via_file: FilePath,
        /// Original file where the symbol was changed
        source_file: FilePath,
    },
    /// Re-exported a changed symbol
    ReExported {
        /// File that re-exports the symbol
        through_file: FilePath,
        /// The symbol being re-exported
        symbol: String,
        /// Original source file
        source_file: FilePath,
    },
    /// Implicit dependency on another affected project
    ImplicitDependency {
        /// Project this depends on
        depends_on: String,
    },
    /// Asset file changed and is referenced by source code
    AssetChange {
        /// The asset file that changed
        asset_file: FilePath,
        /// Source file that references the asset
        referenced_in: FilePath,
        /// Line where the reference appears
        line: usize,
    },
}

/// The content of an `AffectCause`: paths with their spelling, names by their
/// characters.
pub enum Cause {
    DirectChange { file: PathView, symbol: Option<Seq<char>>, line: usize },
    ImportedSymbol {
        source_project: Seq<char>,
        symbol: Seq<char>,
        via_file: PathView,
        source_file: PathView,
    },
    ReExported { through_file: PathView, symbol: Seq<char>, source_file: PathView },
    ImplicitDependency { depends_on: Seq<char> },
    AssetChange { asset_file: PathView, referenced_in: PathView, line: usize },
}

/// The content of an optional string.
pub open spec fn optional_text(s: Option<String>) -> Option<Seq<char>> {
    match s {
        Some(t) => Some(t@),
        None => None,
    }
}

impl View for AffectCause {
    type V = Cause;

    open spec fn view(&self) -> Cause {
        match *self {
            AffectCause::DirectChange { file, symbol, line } => Cause::DirectChange {
                file: file.full(),
                symbol: optional_text(symbol),
                line,
            },
            AffectCause::ImportedSymbol { source_project, symbol, via_file, source_file } =>
                Cause::ImportedSymbol {
                source_project: source_project@,
                symbol: symbol@,
                via_file: via_file.full(),
                source_file: source_file.full(),
            },
            AffectCause::ReExported { through_file, symbol, source_file } => Cause::ReExported {
                through_file: through_file.full(),
                symbol: symbol@,
                source_file: source_file.full(),
            },
            AffectCause::ImplicitDependency { depends_on } => Cause::ImplicitDependency {
                depends_on: depends_on@,
            },
            AffectCause::AssetChange { asset_file, referenced_in, line } => Cause::AssetChange {
                asset_file: asset_file.full(),
                referenced_in: referenced_in.full(),
                line,
            },
        }
    }
}

/// The contents of a list of causes.
pub open spec fn cause_views(v: Seq<AffectCause>) -> Seq<Cause> {
    v.map_values(|c: AffectCause| c@)
}

/// The content of a cause is that of its fields, each under its own name.
pub proof fn cause_content_is_that_of_its_fields(c: AffectCause)
    ensures
        match c {
            AffectCause::DirectChange { file, symbol, line } => c@ matches Cause::DirectChange {
                file: f,
                symbol: s,
                line: l,
            } && f == file.full() && l == line && match symbol {
                Some(name) => s == Some(name@),
                None => s is None,
            },
            AffectCause::ImportedSymbol { source_project, symbol, via_file, source_file } =>
                c@ matches Cause::ImportedSymbol {
                source_project: p,
                symbol: s,
                via_file: v,
                source_file: f,
            } && p == source_project@ && s == symbol@ && v == via_file.full() && f
                == source_file.full(),
            AffectCause::ReExported { through_file, symbol, source_file } =>
                c@ matches Cause::ReExported { through_file: t, symbol: s, source_file: f } && t
                == through_file.full() && s == symbol@ && f == source_file.full(),
            AffectCause::ImplicitDependency { depends_on } =>
                c@ matches Cause::ImplicitDependency { depends_on: d } && d == depends_on@,
            AffectCause::AssetChange { asset_file, referenced_in, line } =>
                c@ matches Cause::AssetChange { asset_file: a, referenced_in: r, line: l } && a
                == asset_file.full() && r == referenced_in.full() && l == line,
        },
{
}

/// The contents of a list of causes are those of each, in order.
pub proof fn causes_are_viewed_in_order(v: Seq<AffectCause>)
    ensures
        cause_views(v).len() == v.len(),
        forall|i: int| 0 <= i < v.len() ==> #[trigger] cause_views(v)[i] == v[i]@,
{
}

} // verus!
