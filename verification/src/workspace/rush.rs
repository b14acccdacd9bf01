//! The projects of a Rush workspace, as its rush.json and the manifests of the
//! packages name them.

use crate::error::{DominoError, ErrorView};
use crate::path::{components, join, joined, FilePath};
use crate::text::{concat, has_text, texts};
use crate::types::Project;
use vstd::prelude::*;

verus! {

/// The content of a rush.json.
#[derive(Debug, Clone)]
pub struct RushJson {
    /// The projects it lists
    pub projects: Vec<RushProject>,
}

/// A project in a rush.json.
#[derive(Debug, Clone)]
pub struct RushProject {
    /// The name of the package
    pub package_name: String,
    /// The folder of the project
    pub project_folder: String,
}

/// What became of reading a rush.json.
#[derive(Debug)]
pub enum RushSource {
    /// The file could not be read, for this reason.
    Unreadable { reason: String },
    /// It could not be parsed, for this reason.
    Malformed { reason: String },
    /// It was read.
    Loaded { content: RushJson },
}

/// What became of reading a package.json.
#[derive(Debug, Clone)]
pub enum Manifest {
    /// There is none.
    Missing,
    /// It could not be read.
    Unreadable,
    /// It could not be parsed.
    Malformed,
    /// It was read, and names the package.
    Named { name: String },
}

/// The path of the rush.json of a workspace.
pub fn rush_json_path(cwd: &FilePath) -> (r: String)
    ensures
        r@ == joined(cwd.text(), "rush.json"@),
{
    join(cwd.as_str(), "rush.json")
}

/// The path of the manifest of a project.
pub fn manifest_path(cwd: &FilePath, project: &RushProject) -> (r: String)
    ensures
        r@ == joined(joined(cwd.text(), project.project_folder@), "package.json"@),
{
    join(join(cwd.as_str(), project.project_folder.as_str()).as_str(), "package.json")
}

/// Whether a directory is a Rush workspace: among the paths that exist is that
/// of its rush.json.
pub fn is_rush_workspace(cwd: &FilePath, existing: &Vec<String>) -> (r: bool)
    ensures
        r == texts(existing@).contains(joined(cwd.text(), "rush.json"@)),
{
    has_text(existing, rush_json_path(cwd).as_str())
}

/// The name of a project: that of its manifest where there is one that can be
/// read, else the one in the rush.json.
pub open spec fn canonical_name(project: RushProject, manifest: Manifest) -> Seq<char> {
    match manifest {
        Manifest::Named { name } => name@,
        _ => project.package_name@,
    }
}

/// The manifest of the project at place `i`: a list that ends early leaves the
/// others missing.
pub open spec fn manifest_at(manifests: Seq<Manifest>, i: int) -> Manifest {
    if i < manifests.len() {
        manifests[i]
    } else {
        Manifest::Missing
    }
}

/// Whether `p` is the project of this name and folder, with nothing else known
/// of it.
pub open spec fn is_bare_project(p: Project, name: Seq<char>, folder: Seq<char>) -> bool {
    &&& p.name@ == name
    &&& p.source_root.text() == folder
    &&& p.source_root@ == components(folder)
    &&& p.ts_config is None
    &&& p.implicit_dependencies@.len() == 0
    &&& p.targets@.len() == 0
}

/// Whether `projects` are those of a rush.json, in its order.
pub open spec fn lists(
    projects: Seq<Project>,
    listed: Seq<RushProject>,
    manifests: Seq<Manifest>,
) -> bool {
    &&& projects.len() == listed.len()
    &&& forall|i: int|
        0 <= i < listed.len() ==> is_bare_project(
            #[trigger] projects[i],
            canonical_name(listed[i], manifest_at(manifests, i)),
            listed[i].project_folder@,
        )
}

fn pick_name(project: &RushProject, manifests: &Vec<Manifest>, i: usize) -> (r: String)
    ensures
        r@ == canonical_name(*project, manifest_at(manifests@, i as int)),
{
    if i < manifests.len() {
        if let Manifest::Named { name } = &manifests[i] {
            return name.clone();
        }
    }
    project.package_name.clone()
}

/// The projects of a Rush workspace, given its rush.json and the manifests of
/// the projects that it lists, in its order.
pub fn get_projects(source: RushSource, manifests: &Vec<Manifest>) -> (r: Result<
    Vec<Project>,
    DominoError,
>)
    ensures
        match source {
            RushSource::Unreadable { reason } => r matches Err(e) && e@ == ErrorView::Io(reason@),
            RushSource::Malformed { reason } => r matches Err(e) && e@ == ErrorView::Parse(
                "Failed to parse rush.json: "@ + reason@,
            ),
            RushSource::Loaded { content } => r matches Ok(projects) && lists(
                projects@,
                content.projects@,
                manifests@,
            ),
        },
{
    match source {
        RushSource::Unreadable { reason } => Err(DominoError::Io(reason)),
        RushSource::Malformed { reason } => Err(
            DominoError::Parse(concat("Failed to parse rush.json: ", reason.as_str())),
        ),
        RushSource::Loaded { content } => {
            let listed = &content.projects;
            let mut projects: Vec<Project> = Vec::new();
            let mut i: usize = 0;
            while i < listed.len()
                invariant
                    i <= listed@.len(),
                    projects@.len() == i,
                    forall|k: int|
                        0 <= k < i ==> is_bare_project(
                            #[trigger] projects@[k],
                            canonical_name(listed@[k], manifest_at(manifests@, k)),
                            listed@[k].project_folder@,
                        ),
                decreases listed@.len() - i,
            {
                projects.push(
                    Project {
                        name: pick_name(&listed[i], manifests, i),
                        source_root: FilePath::new(listed[i].project_folder.as_str()),
                        ts_config: None,
                        implicit_dependencies: Vec::new(),
                        targets: Vec::new(),
                    },
                );
                i += 1;
            }
            Ok(projects)
        },
    }
}

/// The projects of a rush.json are those that it lists, in its order, each with its
/// folder as its root. A project goes by the name in its manifest where that could be
/// read, else by the one in the rush.json.
pub proof fn listed_projects_go_by_their_manifests(
    projects: Seq<Project>,
    listed: Seq<RushProject>,
    manifests: Seq<Manifest>,
)
    requires
        lists(projects, listed, manifests),
    ensures
        projects.len() == listed.len(),
        forall|i: int|
            0 <= i < listed.len() ==> {
                let p = #[trigger] projects[i];
                &&& p.source_root.text() == listed[i].project_folder@
                &&& p.source_root@ == components(listed[i].project_folder@)
                &&& p.ts_config is None && p.implicit_dependencies@.len() == 0 && p.targets@.len()
                    == 0
                &&& i >= manifests.len() || !(manifests[i] is Named) ==> p.name@
                    == listed[i].package_name@
                &&& i < manifests.len() && manifests[i] is Named ==> p.name@
                    == manifests[i]->name@
            },
{
}

} // verus!
