//! Which tool manages the workspace, and so where its projects are listed.

pub mod rush;

use crate::types::Project;
use vstd::prelude::*;

verus! {

/// The tools whose workspaces are understood.
#[derive(Debug, Clone, Copy, PartialEq, Eq, Structural)]
pub enum WorkspaceKind {
    /// Nx
    Nx,
    /// Rush (rush.json)
    Rush,
    /// Turbo (turbo.json)
    Turbo,
    /// Generic workspaces (npm/yarn/pnpm/bun)
    Workspaces,
}

/// Which tools left their mark on a directory.
#[derive(Debug, Clone, Copy)]
pub struct WorkspaceMarkers {
    pub nx: bool,
    pub rush: bool,
    pub turbo: bool,
    pub workspaces: bool,
}

impl WorkspaceMarkers {
    /// Whether there is a mark of `kind`.
    pub open spec fn has(self, kind: WorkspaceKind) -> bool {
        match kind {
            WorkspaceKind::Nx => self.nx,
            WorkspaceKind::Rush => self.rush,
            WorkspaceKind::Turbo => self.turbo,
            WorkspaceKind::Workspaces => self.workspaces,
        }
    }
}

/// How early a tool is considered.
pub open spec fn precedence(kind: WorkspaceKind) -> nat {
    match kind {
        WorkspaceKind::Nx => 0,
        WorkspaceKind::Rush => 1,
        WorkspaceKind::Turbo => 2,
        WorkspaceKind::Workspaces => 3,
    }
}

/// How the projects are found.
#[derive(Debug)]
pub enum Discovery {
    /// This tool lists them.
    Ask { kind: WorkspaceKind },
    /// They are known.
    Done { projects: Vec<Project> },
}

/// How to find the projects of a workspace: the first tool that left its mark
/// lists them. Without any mark there are none.
pub fn discover_projects(markers: WorkspaceMarkers) -> (r: Discovery)
    ensures
        match r {
            Discovery::Ask { kind } => markers.has(kind) && forall|other: WorkspaceKind| #[trigger]
                markers.has(other) ==> precedence(kind) <= precedence(other),
            Discovery::Done { projects } => projects@.len() == 0 && forall|other: WorkspaceKind|
                !#[trigger] markers.has(other),
        },
        r matches Discovery::Ask { kind: WorkspaceKind::Nx } <==> markers.nx,
        r matches Discovery::Ask { kind: WorkspaceKind::Rush } <==> !markers.nx && markers.rush,
        r matches Discovery::Ask { kind: WorkspaceKind::Turbo } <==> !markers.nx && !markers.rush
            && markers.turbo,
        r matches Discovery::Ask { kind: WorkspaceKind::Workspaces } <==> !markers.nx
            && !markers.rush && !markers.turbo && markers.workspaces,
{
    if markers.nx {
        Discovery::Ask { kind: WorkspaceKind::Nx }
    } else if markers.rush {
        Discovery::Ask { kind: WorkspaceKind::Rush }
    } else if markers.turbo {
        Discovery::Ask { kind: WorkspaceKind::Turbo }
    } else if markers.workspaces {
        Discovery::Ask { kind: WorkspaceKind::Workspaces }
    } else {
        Discovery::Done { projects: Vec::new() }
    }
}

} // verus!
