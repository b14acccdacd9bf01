//! The affected projects of a change: from the changed files, through the
//! symbols and assets that they touch, to the projects and the reasons.

use crate::error::DominoError;
use crate::index::{asset_row, WorkspaceIndex};
use crate::order::{ascending_names, condensed, name_order_is_determined, sort_names};
use crate::path::{last_name, FilePath, PathView};
use crate::propagate::{
    growth_adds_up, line_trace, no_marks_no_growth, process_changed_line, process_changed_symbol,
    symbol_trace,
};
use crate::state::{causes_for, packages_of, report_names, AffectedState};
use crate::text::{chars_of, contains, has_text, holds, texts};
use crate::trace::{exported_names, list_exports, visit, Mark};
use crate::types::{
    cause_views, optional_text, AffectCause, AffectedReport, AffectedResult, AssetReference, Cause,
    ChangedFile, Import, Project, TrueAffectedConfig,
};
use vstd::prelude::*;

verus! {

/// The reasons that a changed line gives its own project: one for each symbol
/// on it, or one without a symbol where none is known.
pub open spec fn direct_marks(
    ws: WorkspaceIndex,
    package: Seq<char>,
    file: PathView,
    line: usize,
) -> Seq<Mark> {
    match ws.symbols_at(file.parts, line, 0) {
        Ok(names) if names.len() > 0 => names.map_values(
            |n: Seq<char>|
                Mark {
                    package,
                    cause: Some(Cause::DirectChange { file, symbol: Some(n), line }),
                },
        ),
        _ => seq![
            Mark { package, cause: Some(Cause::DirectChange { file, symbol: None, line }) },
        ],
    }
}

/// The reasons that changed lines give their own project.
pub open spec fn direct_list_marks(
    ws: WorkspaceIndex,
    package: Seq<char>,
    file: PathView,
    lines: Seq<usize>,
) -> Seq<Mark>
    decreases lines.len(),
{
    if lines.len() == 0 {
        seq![]
    } else {
        direct_list_marks(ws, package, file, lines.drop_last()) + direct_marks(
            ws,
            package,
            file,
            lines.last(),
        )
    }
}

/// What the symbols on changed lines reach.
pub open spec fn line_list_marks(
    ws: WorkspaceIndex,
    file: PathView,
    lines: Seq<usize>,
) -> Seq<Mark>
    decreases lines.len(),
{
    if lines.len() == 0 {
        seq![]
    } else {
        line_list_marks(ws, file, lines.drop_last()) + line_trace(ws, file, lines.last()).marks
    }
}

/// The reasons that changed lines without known symbols give their own project:
/// one for each line.
pub open spec fn plain_list_marks(
    package: Seq<char>,
    file: PathView,
    lines: Seq<usize>,
) -> Seq<Mark> {
    lines.map_values(
        |line: usize|
            Mark { package, cause: Some(Cause::DirectChange { file, symbol: None, line }) },
    )
}

/// The reason that a file without changed lines, which counts as changed
/// entirely, gives its own project: a change at line zero.
pub open spec fn entire_marks(package: Seq<char>, file: PathView) -> Seq<Mark> {
    plain_list_marks(package, file, seq![0usize])
}

/// What a changed source file marks: its owner, and what the symbols on the
/// changed lines reach. A file that the analysis does not cover marks nothing.
pub open spec fn source_marks(ws: WorkspaceIndex, f: ChangedFile) -> Seq<Mark> {
    let file = f.file_path.full();
    let lines = f.changed_lines@;
    if !ws.is_analyzed(file.parts) {
        seq![]
    } else {
        let own = match ws.owner(file.parts) {
            Some(package) => seq![Mark { package, cause: None }] + if lines.len() == 0 {
                entire_marks(package, file)
            } else {
                direct_list_marks(ws, package, file, lines)
            },
            None => seq![],
        };
        own + line_list_marks(ws, file, lines)
    }
}

/// The name of an asset without its directories.
pub open spec fn asset_name(asset: Seq<Seq<char>>) -> Seq<char> {
    match last_name(asset) {
        Some(n) => n,
        None => seq![],
    }
}

/// The local name of the first import from a module whose specifier holds
/// `name`.
pub open spec fn first_import(imports: Seq<Import>, name: Seq<char>) -> Option<Seq<char>>
    decreases imports.len(),
{
    if imports.len() == 0 {
        None
    } else if contains(imports[0].from_module@, name) {
        Some(imports[0].local_name@)
    } else {
        first_import(imports.drop_first(), name)
    }
}

/// The symbols through which a change of `asset` acts where `r` refers to it. An
/// import of the asset acts through the exported symbols that use it, or by the
/// imported name itself where none does. Any other reference, such as the path of
/// a template, acts through the symbols that it stands in; one that stands in
/// none, such as an import without a name, acts through all that the file
/// declares and exports.
pub open spec fn reference_symbols(
    ws: WorkspaceIndex,
    asset: Seq<Seq<char>>,
    r: AssetReference,
) -> Seq<Seq<char>> {
    let file = r.source_file@;
    match first_import(ws.imports(file), asset_name(asset)) {
        Some(local) => match ws.exported_users(file, local) {
            Err(_) => seq![],
            Ok(names) => if names.len() == 0 {
                seq![local]
            } else {
                names
            },
        },
        None => match ws.symbols_at(file, r.line, r.column) {
            Err(_) => seq![],
            Ok(names) => if names.len() == 0 {
                exported_names(ws.exports(file))
            } else {
                names
            },
        },
    }
}

/// What the symbols `names` of `file` reach, each followed for itself.
pub open spec fn symbol_list_marks(
    ws: WorkspaceIndex,
    file: PathView,
    names: Seq<Seq<char>>,
) -> Seq<Mark>
    decreases names.len(),
{
    if names.len() == 0 {
        seq![]
    } else {
        symbol_list_marks(ws, file, names.drop_last()) + symbol_trace(
            ws,
            visit(file, names.last()),
        ).marks
    }
}

/// What a reference to a changed asset marks: the owner of the file that holds
/// it, and what the symbols there reach through which the asset acts.
pub open spec fn asset_reference_marks(
    ws: WorkspaceIndex,
    asset: PathView,
    r: AssetReference,
) -> Seq<Mark> {
    let file = r.source_file.full();
    let own = match ws.owner(file.parts) {
        Some(package) => seq![
            Mark {
                package,
                cause: Some(
                    Cause::AssetChange { asset_file: asset, referenced_in: file, line: r.line },
                ),
            },
        ],
        None => seq![],
    };
    own + symbol_list_marks(ws, file, reference_symbols(ws, asset.parts, r))
}

/// What the references to a changed asset mark.
pub open spec fn asset_reference_list_marks(
    ws: WorkspaceIndex,
    asset: PathView,
    refs: Seq<AssetReference>,
) -> Seq<Mark>
    decreases refs.len(),
{
    if refs.len() == 0 {
        seq![]
    } else {
        asset_reference_list_marks(ws, asset, refs.drop_last()) + asset_reference_marks(
            ws,
            asset,
            refs.last(),
        )
    }
}

/// What a changed asset marks: its owner, and what the references to it mark.
pub open spec fn asset_marks(ws: WorkspaceIndex, f: ChangedFile) -> Seq<Mark> {
    let asset = f.file_path.full();
    let lines = f.changed_lines@;
    let own = match ws.owner(asset.parts) {
        Some(package) => seq![Mark { package, cause: None }] + if lines.len() == 0 {
            entire_marks(package, asset)
        } else {
            plain_list_marks(package, asset, lines)
        },
        None => seq![],
    };
    own + match asset_row(ws.assets@, asset.parts) {
        Some(row) => match row.references {
            Ok(refs) => asset_reference_list_marks(ws, asset, refs@),
            Err(_) => seq![],
        },
        None => seq![],
    }
}

/// What a changed file marks.
pub open spec fn file_marks(ws: WorkspaceIndex, f: ChangedFile) -> Seq<Mark> {
    if ws.is_source(f.file_path@) {
        source_marks(ws, f)
    } else {
        asset_marks(ws, f)
    }
}

/// What those of the changed files mark that are source files, or that are not.
pub open spec fn partial_marks(
    ws: WorkspaceIndex,
    files: Seq<ChangedFile>,
    sources: bool,
) -> Seq<Mark>
    decreases files.len(),
{
    if files.len() == 0 {
        seq![]
    } else {
        partial_marks(ws, files.drop_last(), sources) + if ws.is_source(files.last().file_path@)
            == sources {
            file_marks(ws, files.last())
        } else {
            seq![]
        }
    }
}

/// What changed files mark: the source files first, then the assets.
pub open spec fn changed_marks(ws: WorkspaceIndex, files: Seq<ChangedFile>) -> Seq<Mark> {
    partial_marks(ws, files, true) + partial_marks(ws, files, false)
}

/// What the implicit dependencies `deps` of the project `name` mark: the
/// project, for each of them that is affected.
pub open spec fn dependent_marks(
    name: Seq<char>,
    deps: Seq<Seq<char>>,
    affected: Set<Seq<char>>,
) -> Seq<Mark>
    decreases deps.len(),
{
    if deps.len() == 0 {
        seq![]
    } else {
        dependent_marks(name, deps.drop_last(), affected) + if affected.contains(deps.last()) {
            seq![
                Mark {
                    package: name,
                    cause: Some(Cause::ImplicitDependency { depends_on: deps.last() }),
                },
            ]
        } else {
            seq![]
        }
    }
}

/// What the implicit dependencies of all projects mark. Only what is affected
/// beforehand counts: a project marked here makes no further one affected.
pub open spec fn implicit_marks(projects: Seq<Project>, affected: Set<Seq<char>>) -> Seq<Mark>
    decreases projects.len(),
{
    if projects.len() == 0 {
        seq![]
    } else {
        implicit_marks(projects.drop_last(), affected) + dependent_marks(
            projects.last().name@,
            texts(projects.last().implicit_dependencies@),
            affected,
        )
    }
}

/// All that a change marks.
pub open spec fn all_marks(
    projects: Seq<Project>,
    ws: WorkspaceIndex,
    files: Seq<ChangedFile>,
) -> Seq<Mark> {
    let changed = changed_marks(ws, files);
    changed + implicit_marks(projects, packages_of(changed))
}

fn mark_direct_changes(
    ws: &WorkspaceIndex,
    package: &String,
    file: &FilePath,
    line: usize,
    state: &mut AffectedState,
)
    requires
        old(state).well_formed(),
    ensures
        final(state).grown(*old(state), direct_marks(*ws, package@, file.full(), line)),
{
    let ghost start = *state;
    let ghost marks = direct_marks(*ws, package@, file.full(), line);
    if let Some(row) = ws.find_node(file, line, 0) {
        if let Ok(names) = &row.symbols {
            if names.len() > 0 {
                let mut i: usize = 0;
                proof {
                    no_marks_no_growth(*state);
                    assert(marks.take(0) =~= seq![]);
                }
                while i < names.len()
                    invariant
                        start.well_formed(),
                        i <= names@.len(),
                        marks.len() == names@.len(),
                        forall|k: int|
                            0 <= k < names@.len() ==> #[trigger] marks[k] == (Mark {
                                package: package@,
                                cause: Some(
                                    Cause::DirectChange {
                                        file: file.full(),
                                        symbol: Some(names@[k]@),
                                        line,
                                    },
                                ),
                            }),
                        state.grown(start, marks.take(i as int)),
                    decreases names@.len() - i,
                {
                    let ghost before = *state;
                    state.mark(
                        package.clone(),
                        Some(
                            AffectCause::DirectChange {
                                file: file.clone(),
                                symbol: Some(names[i].clone()),
                                line,
                            },
                        ),
                    );
                    proof {
                        growth_adds_up(
                            start,
                            before,
                            *state,
                            marks.take(i as int),
                            seq![marks[i as int]],
                        );
                        assert(marks.take(i + 1) =~= marks.take(i as int) + seq![marks[i as int]]);
                    }
                    i += 1;
                }
                proof {
                    assert(marks.take(i as int) =~= marks);
                }
                return ;
            }
        }
    }
    state.mark(
        package.clone(),
        Some(AffectCause::DirectChange { file: file.clone(), symbol: None, line }),
    );
}

fn mark_direct_lines(
    ws: &WorkspaceIndex,
    package: &String,
    file: &FilePath,
    lines: &Vec<usize>,
    state: &mut AffectedState,
)
    requires
        old(state).well_formed(),
    ensures
        final(state).grown(*old(state), direct_list_marks(*ws, package@, file.full(), lines@)),
{
    let ghost start = *state;
    let mut i: usize = 0;
    proof {
        no_marks_no_growth(*state);
    }
    while i < lines.len()
        invariant
            start.well_formed(),
            i <= lines@.len(),
            state.grown(
                start,
                direct_list_marks(*ws, package@, file.full(), lines@.take(i as int)),
            ),
        decreases lines@.len() - i,
    {
        let ghost before = *state;
        mark_direct_changes(ws, package, file, lines[i], state);
        proof {
            let a = direct_list_marks(*ws, package@, file.full(), lines@.take(i as int));
            let b = direct_marks(*ws, package@, file.full(), lines@[i as int]);
            growth_adds_up(start, before, *state, a, b);
            assert(lines@.take(i + 1).drop_last() =~= lines@.take(i as int));
        }
        i += 1;
    }
    proof {
        assert(lines@.take(i as int) =~= lines@);
    }
}

fn mark_entire_file(package: &String, file: &FilePath, state: &mut AffectedState)
    requires
        old(state).well_formed(),
    ensures
        final(state).grown(*old(state), entire_marks(package@, file.full())),
{
    let whole: Vec<usize> = vec![0];
    proof {
        assert(whole@ =~= seq![0usize]);
    }
    mark_plain_lines(package, file, &whole, state);
}

fn mark_source_file(ws: &WorkspaceIndex, f: &ChangedFile, state: &mut AffectedState)
    requires
        old(state).well_formed(),
    ensures
        final(state).grown(*old(state), source_marks(*ws, *f)),
{
    let ghost start = *state;
    proof {
        no_marks_no_growth(*state);
    }
    let file = &f.file_path;
    let analyzed = match ws.find_file(file) {
        Some(row) => row.is_analyzed,
        None => false,
    };
    if !analyzed {
        return ;
    }
    let lines = &f.changed_lines;
    let ghost mut own: Seq<Mark> = seq![];
    if let Some(package) = ws.owner_of(file) {
        state.mark(package.clone(), None);
        let ghost before = *state;
        let ghost first = seq![Mark { package: package@, cause: None }];
        if lines.len() == 0 {
            mark_entire_file(&package, file, state);
        } else {
            mark_direct_lines(ws, &package, file, lines, state);
        }
        proof {
            let direct = if lines@.len() == 0 {
                entire_marks(package@, file.full())
            } else {
                direct_list_marks(*ws, package@, file.full(), lines@)
            };
            growth_adds_up(start, before, *state, first, direct);
            own = first + direct;
        }
    }
    let ghost first = own;
    let mut i: usize = 0;
    proof {
        assert(first + line_list_marks(*ws, file.full(), lines@.take(0)) =~= first);
    }
    while i < lines.len()
        invariant
            start.well_formed(),
            i <= lines@.len(),
            state.grown(start, first + line_list_marks(*ws, file.full(), lines@.take(i as int))),
        decreases lines@.len() - i,
    {
        let ghost before = *state;
        // A line that cannot be followed to its end does not keep the others
        // from being followed.
        let _ = process_changed_line(ws, file, lines[i], state);
        proof {
            let a = line_list_marks(*ws, file.full(), lines@.take(i as int));
            let b = line_trace(*ws, file.full(), lines@[i as int]).marks;
            growth_adds_up(start, before, *state, first + a, b);
            assert(lines@.take(i + 1).drop_last() =~= lines@.take(i as int));
            assert(first + a + b =~= first + line_list_marks(*ws, file.full(), lines@.take(i + 1)));
        }
        i += 1;
    }
    proof {
        assert(lines@.take(i as int) =~= lines@);
    }
}

fn find_import(imports: &Vec<Import>, name: &Vec<char>) -> (r: Option<String>)
    ensures
        optional_text(r) == first_import(imports@, name@),
{
    let mut i: usize = 0;
    proof {
        assert(imports@.skip(0) =~= imports@);
    }
    while i < imports.len()
        invariant
            i <= imports@.len(),
            first_import(imports@, name@) == first_import(imports@.skip(i as int), name@),
        decreases imports@.len() - i,
    {
        proof {
            assert(imports@.skip(i as int).drop_first() =~= imports@.skip(i + 1));
        }
        let module = chars_of(imports[i].from_module.as_str());
        if holds(&module, name) {
            return Some(imports[i].local_name.clone());
        }
        i += 1;
    }
    None
}

fn copy_names(names: &Vec<String>) -> (r: Vec<String>)
    ensures
        texts(r@) == texts(names@),
{
    let mut r: Vec<String> = Vec::new();
    let mut i: usize = 0;
    proof {
        assert(texts(r@) =~= texts(names@).take(0));
    }
    while i < names.len()
        invariant
            i <= names@.len(),
            texts(r@) == texts(names@).take(i as int),
        decreases names@.len() - i,
    {
        let ghost before = r@;
        r.push(names[i].clone());
        proof {
            assert(texts(r@) =~= texts(before).push(names@[i as int]@));
            assert(texts(names@).take(i + 1) =~= texts(names@).take(i as int).push(
                names@[i as int]@,
            ));
        }
        i += 1;
    }
    proof {
        assert(texts(names@).take(i as int) =~= texts(names@));
    }
    r
}

/// The name itself where there are no users of it, else the users.
fn users_or_name(users: Option<&Vec<String>>, name: String) -> (r: Vec<String>)
    ensures
        texts(r@) == match users {
            Some(users) if users@.len() > 0 => texts(users@),
            _ => seq![name@],
        },
{
    if let Some(users) = users {
        if users.len() > 0 {
            return copy_names(users);
        }
    }
    let mut r: Vec<String> = Vec::new();
    r.push(name);
    proof {
        assert(texts(r@) =~= seq![name@]);
    }
    r
}

/// The symbols through which a change of `asset` acts where `reference` refers to
/// it.
fn symbols_for_reference(
    ws: &WorkspaceIndex,
    asset: &FilePath,
    reference: &AssetReference,
) -> (r: Vec<String>)
    ensures
        texts(r@) == reference_symbols(*ws, asset@, *reference),
{
    let file = &reference.source_file;
    let name = match asset.file_name() {
        Some(n) => chars_of(n.as_str()),
        None => Vec::new(),
    };
    let none: Vec<String> = Vec::new();
    proof {
        assert(name@ =~= asset_name(asset@));
        assert(texts(none@) =~= seq![]);
    }
    let row = ws.find_file(file);
    let local = match row {
        Some(row) => find_import(&row.imports, &name),
        None => None,
    };
    match local {
        Some(local) => match ws.find_symbol(file, &local) {
            Some(symbol) => match &symbol.exported_users {
                Err(_) => none,
                Ok(users) => users_or_name(Some(users), local),
            },
            None => users_or_name(None, local),
        },
        None => {
            if let Some(node) = ws.find_node(file, reference.line, reference.column) {
                match &node.symbols {
                    Err(_) => {
                        return none;
                    },
                    Ok(names) => {
                        if names.len() > 0 {
                            return copy_names(names);
                        }
                    },
                }
            }
            match row {
                Some(row) => list_exports(&row.exports),
                None => none,
            }
        },
    }
}

fn mark_asset_reference(
    ws: &WorkspaceIndex,
    asset: &FilePath,
    reference: &AssetReference,
    state: &mut AffectedState,
)
    requires
        old(state).well_formed(),
    ensures
        final(state).grown(*old(state), asset_reference_marks(*ws, asset.full(), *reference)),
{
    let ghost start = *state;
    let file = &reference.source_file;
    let ghost mut own: Seq<Mark> = seq![];
    proof {
        no_marks_no_growth(*state);
    }
    if let Some(package) = ws.owner_of(file) {
        let cause = AffectCause::AssetChange {
            asset_file: asset.clone(),
            referenced_in: file.clone(),
            line: reference.line,
        };
        proof {
            own = seq![Mark { package: package@, cause: Some(cause@) }];
        }
        state.mark(package, Some(cause));
    }
    let ghost first = own;
    let names = symbols_for_reference(ws, asset, reference);
    let ghost all = texts(names@);
    let mut i: usize = 0;
    proof {
        assert(first + symbol_list_marks(*ws, file.full(), all.take(0)) =~= first);
    }
    while i < names.len()
        invariant
            start.well_formed(),
            i <= names@.len(),
            all == texts(names@),
            state.grown(start, first + symbol_list_marks(*ws, file.full(), all.take(i as int))),
        decreases names@.len() - i,
    {
        let ghost before = *state;
        // A symbol that cannot be followed to its end does not keep the others
        // from being followed.
        let _ = process_changed_symbol(ws, file, &names[i], state);
        proof {
            let a = symbol_list_marks(*ws, file.full(), all.take(i as int));
            let b = symbol_trace(*ws, visit(file.full(), names@[i as int]@)).marks;
            growth_adds_up(start, before, *state, first + a, b);
            assert(all.take(i + 1).drop_last() =~= all.take(i as int));
            assert(all.take(i + 1).last() == names@[i as int]@);
            assert(first + a + b =~= first + symbol_list_marks(*ws, file.full(), all.take(i + 1)));
        }
        i += 1;
    }
    proof {
        assert(all.take(i as int) =~= all);
    }
}

fn mark_plain_lines(
    package: &String,
    file: &FilePath,
    lines: &Vec<usize>,
    state: &mut AffectedState,
)
    requires
        old(state).well_formed(),
    ensures
        final(state).grown(*old(state), plain_list_marks(package@, file.full(), lines@)),
{
    let ghost start = *state;
    let ghost marks = plain_list_marks(package@, file.full(), lines@);
    let mut i: usize = 0;
    proof {
        no_marks_no_growth(*state);
        assert(marks.take(0) =~= seq![]);
    }
    while i < lines.len()
        invariant
            start.well_formed(),
            i <= lines@.len(),
            marks == plain_list_marks(package@, file.full(), lines@),
            state.grown(start, marks.take(i as int)),
        decreases lines@.len() - i,
    {
        let ghost before = *state;
        state.mark(
            package.clone(),
            Some(AffectCause::DirectChange { file: file.clone(), symbol: None, line: lines[i] }),
        );
        proof {
            growth_adds_up(start, before, *state, marks.take(i as int), seq![marks[i as int]]);
            assert(marks.take(i + 1) =~= marks.take(i as int) + seq![marks[i as int]]);
        }
        i += 1;
    }
    proof {
        assert(marks.take(i as int) =~= marks);
    }
}

fn mark_asset_file(ws: &WorkspaceIndex, f: &ChangedFile, state: &mut AffectedState)
    requires
        old(state).well_formed(),
    ensures
        final(state).grown(*old(state), asset_marks(*ws, *f)),
{
    let ghost start = *state;
    let asset = &f.file_path;
    let ghost mut own: Seq<Mark> = seq![];
    proof {
        no_marks_no_growth(*state);
    }
    if let Some(package) = ws.owner_of(asset) {
        state.mark(package.clone(), None);
        let ghost before = *state;
        let ghost first = seq![Mark { package: package@, cause: None }];
        if f.changed_lines.len() == 0 {
            mark_entire_file(&package, asset, state);
        } else {
            mark_plain_lines(&package, asset, &f.changed_lines, state);
        }
        proof {
            let direct = if f.changed_lines@.len() == 0 {
                entire_marks(package@, asset.full())
            } else {
                plain_list_marks(package@, asset.full(), f.changed_lines@)
            };
            growth_adds_up(start, before, *state, first, direct);
            own = first + direct;
        }
    }
    let ghost first = own;
    proof {
        assert(first + Seq::<Mark>::empty() =~= first);
    }
    if let Some(row) = ws.find_asset(asset) {
        if let Ok(refs) = &row.references {
            let mut i: usize = 0;
            proof {
                assert(first + asset_reference_list_marks(*ws, asset.full(), refs@.take(0)) =~= first);
            }
            while i < refs.len()
                invariant
                    start.well_formed(),
                    i <= refs@.len(),
                    state.grown(
                        start,
                        first + asset_reference_list_marks(*ws, asset.full(), refs@.take(i as int)),
                    ),
                decreases refs@.len() - i,
            {
                let ghost before = *state;
                mark_asset_reference(ws, asset, &refs[i], state);
                proof {
                    let a = asset_reference_list_marks(*ws, asset.full(), refs@.take(i as int));
                    let b = asset_reference_marks(*ws, asset.full(), refs@[i as int]);
                    growth_adds_up(start, before, *state, first + a, b);
                    assert(refs@.take(i + 1).drop_last() =~= refs@.take(i as int));
                    assert(first + a + b =~= first + asset_reference_list_marks(
                        *ws,
                        asset.full(),
                        refs@.take(i + 1),
                    ));
                }
                i += 1;
            }
            proof {
                assert(refs@.take(i as int) =~= refs@);
            }
        }
    }
}

/// Marks the projects that depend implicitly on a project marked before.
pub fn add_implicit_dependencies(projects: &Vec<Project>, state: &mut AffectedState)
    requires
        old(state).well_formed(),
    ensures
        final(state).grown(*old(state), implicit_marks(projects@, old(state).packages())),
{
    let ghost start = *state;
    let ghost affected = start.packages();
    let names = state.list();
    let mut i: usize = 0;
    proof {
        no_marks_no_growth(*state);
    }
    while i < projects.len()
        invariant
            start.well_formed(),
            i <= projects@.len(),
            forall|n: Seq<char>| #[trigger] texts(names@).contains(n) <==> affected.contains(n),
            state.grown(start, implicit_marks(projects@.take(i as int), affected)),
        decreases projects@.len() - i,
    {
        let project = &projects[i];
        let deps = &project.implicit_dependencies;
        let ghost all = texts(deps@);
        let ghost earlier = implicit_marks(projects@.take(i as int), affected);
        let mut j: usize = 0;
        proof {
            assert(earlier + dependent_marks(project.name@, all.take(0), affected) =~= earlier);
        }
        while j < deps.len()
            invariant
                start.well_formed(),
                j <= deps@.len(),
                all == texts(deps@),
                forall|n: Seq<char>| #[trigger] texts(names@).contains(n) <==> affected.contains(n),
                state.grown(
                    start,
                    earlier + dependent_marks(project.name@, all.take(j as int), affected),
                ),
            decreases deps@.len() - j,
        {
            let ghost before = *state;
            let ghost a = dependent_marks(project.name@, all.take(j as int), affected);
            proof {
                assert(all.take(j + 1).drop_last() =~= all.take(j as int));
                assert(all.take(j + 1).last() == deps@[j as int]@);
            }
            if has_text(&names, deps[j].as_str()) {
                let cause = AffectCause::ImplicitDependency { depends_on: deps[j].clone() };
                let ghost b = seq![Mark { package: project.name@, cause: Some(cause@) }];
                state.mark(project.name.clone(), Some(cause));
                proof {
                    growth_adds_up(start, before, *state, earlier + a, b);
                    assert(earlier + a + b =~= earlier + dependent_marks(
                        project.name@,
                        all.take(j + 1),
                        affected,
                    ));
                }
            } else {
                proof {
                    assert(a + Seq::<Mark>::empty() =~= a);
                }
            }
            j += 1;
        }
        proof {
            assert(all.take(j as int) =~= all);
            assert(projects@.take(i + 1).drop_last() =~= projects@.take(i as int));
        }
        i += 1;
    }
    proof {
        assert(projects@.take(i as int) =~= projects@);
    }
}

/// Whether a report shows what the marks say of these projects: each of them in
/// turn, with its reasons in ascending order, each once. A project has no reason
/// only where none is known.
pub open spec fn report_shows(
    report: AffectedReport,
    names: Seq<Seq<char>>,
    marks: Seq<Mark>,
) -> bool {
    &&& report_names(report.projects@) == names
    &&& forall|i: int|
        0 <= i < report.projects@.len() ==> condensed(
            cause_views((#[trigger] report.projects@[i]).causes@),
            causes_for(marks, report.projects@[i].name@),
        )
}

/// Whether `r` shows what the marks say: the marked projects in ascending
/// order, and the report of all of them where one is wanted.
pub open spec fn result_shows(r: AffectedResult, marks: Seq<Mark>, reporting: bool) -> bool {
    &&& ascending_names(texts(r.affected_projects@))
    &&& forall|n: Seq<char>| #[trigger]
        texts(r.affected_projects@).contains(n) <==> packages_of(marks).contains(n)
    &&& match r.report {
        Some(report) => reporting && report_shows(report, texts(r.affected_projects@), marks),
        None => !reporting,
    }
}

/// Whether `r` is the answer for these changed files and this workspace. An
/// error in getting either is handed on; where nothing changed, the workspace
/// is not looked at and there is no report.
pub open spec fn answers(
    r: Result<AffectedResult, DominoError>,
    projects: Seq<Project>,
    changed: Result<Vec<ChangedFile>, DominoError>,
    workspace: Result<WorkspaceIndex, DominoError>,
    reporting: bool,
) -> bool {
    match changed {
        Err(e) => r == Err::<AffectedResult, DominoError>(e),
        Ok(files) => if files@.len() == 0 {
            r matches Ok(result) && result.affected_projects@.len() == 0 && result.report is None
        } else {
            match workspace {
                Err(e) => r == Err::<AffectedResult, DominoError>(e),
                Ok(ws) => r matches Ok(result) && result_shows(
                    result,
                    all_marks(projects, ws, files@),
                    reporting,
                ),
            }
        },
    }
}

/// Whether the workspace has to be analyzed: not where the changed files could
/// not be found, nor where there are none.
pub fn needs_analysis(changed_files: &Result<Vec<ChangedFile>, DominoError>) -> (r: bool)
    ensures
        r == (changed_files matches Ok(files) && files@.len() > 0),
{
    match changed_files {
        Ok(files) => files.len() > 0,
        Err(_) => false,
    }
}

/// Marks what those of the changed files mark that are source files, or that are
/// not.
fn mark_some_files(
    ws: &WorkspaceIndex,
    files: &Vec<ChangedFile>,
    sources: bool,
    state: &mut AffectedState,
)
    requires
        old(state).well_formed(),
    ensures
        final(state).grown(*old(state), partial_marks(*ws, files@, sources)),
{
    let ghost start = *state;
    let mut i: usize = 0;
    proof {
        no_marks_no_growth(*state);
    }
    while i < files.len()
        invariant
            start.well_formed(),
            i <= files@.len(),
            state.grown(start, partial_marks(*ws, files@.take(i as int), sources)),
        decreases files@.len() - i,
    {
        let ghost before = *state;
        let ghost earlier = partial_marks(*ws, files@.take(i as int), sources);
        let file = &files[i];
        let is_source = match ws.find_file(&file.file_path) {
            Some(row) => row.is_source,
            None => false,
        };
        proof {
            assert(files@.take(i + 1).drop_last() =~= files@.take(i as int));
            assert(earlier + Seq::<Mark>::empty() =~= earlier);
        }
        if is_source == sources {
            if is_source {
                mark_source_file(ws, file, state);
            } else {
                mark_asset_file(ws, file, state);
            }
            proof {
                growth_adds_up(start, before, *state, earlier, file_marks(*ws, *file));
            }
        }
        i += 1;
    }
    proof {
        assert(files@.take(i as int) =~= files@);
    }
}

/// Marks what the changed files mark.
fn mark_changed_files(ws: &WorkspaceIndex, files: &Vec<ChangedFile>, state: &mut AffectedState)
    requires
        old(state).well_formed(),
    ensures
        final(state).grown(*old(state), changed_marks(*ws, files@)),
{
    let ghost start = *state;
    mark_some_files(ws, files, true, state);
    let ghost middle = *state;
    mark_some_files(ws, files, false, state);
    proof {
        growth_adds_up(
            start,
            middle,
            *state,
            partial_marks(*ws, files@, true),
            partial_marks(*ws, files@, false),
        );
    }
}

fn find_affected_internal(
    config: &TrueAffectedConfig,
    changed_files: Result<Vec<ChangedFile>, DominoError>,
    workspace: Result<WorkspaceIndex, DominoError>,
    reporting: bool,
) -> (r: Result<AffectedResult, DominoError>)
    ensures
        answers(r, config.projects@, changed_files, workspace, reporting),
{
    let files = match changed_files {
        Ok(files) => files,
        Err(e) => {
            return Err(e);
        },
    };
    if files.len() == 0 {
        return Ok(AffectedResult { affected_projects: Vec::new(), report: None });
    }
    let ws = match workspace {
        Ok(ws) => ws,
        Err(e) => {
            return Err(e);
        },
    };
    let mut state = AffectedState::new(reporting);
    let ghost start = state;
    let ghost changed = changed_marks(ws, files@);
    mark_changed_files(&ws, &files, &mut state);
    let ghost middle = state;
    proof {
        assert(state.packages() =~= packages_of(changed));
    }
    add_implicit_dependencies(&config.projects, &mut state);
    let ghost marks = all_marks(config.projects@, ws, files@);
    proof {
        growth_adds_up(
            start,
            middle,
            state,
            changed,
            implicit_marks(config.projects@, packages_of(changed)),
        );
        assert(state.packages() =~= packages_of(marks));
        if reporting {
            assert forall|n: Seq<char>| #[trigger] state.causes(n) == causes_for(marks, n) by {
                assert(start.causes(n) + causes_for(marks, n) =~= causes_for(marks, n));
            }
        }
    }
    let ghost last = state;
    let affected_projects = sort_names(state.list());
    let report = state.into_report();
    proof {
        if let Some(report) = &report {
            let shown = report_names(report.projects@);
            let listed = texts(affected_projects@);
            assert forall|n: Seq<char>| #[trigger] shown.contains(n) <==> listed.contains(n) by {
                assert(shown.contains(n) <==> last.packages().contains(n));
            }
            name_order_is_determined(shown, listed);
        }
    }
    Ok(AffectedResult { affected_projects, report })
}

/// The projects that a change affects.
pub fn find_affected(
    config: &TrueAffectedConfig,
    changed_files: Result<Vec<ChangedFile>, DominoError>,
    workspace: Result<WorkspaceIndex, DominoError>,
) -> (r: Result<AffectedResult, DominoError>)
    ensures
        answers(r, config.projects@, changed_files, workspace, false),
{
    find_affected_internal(config, changed_files, workspace, false)
}

/// The projects that a change affects, with the reasons.
pub fn find_affected_with_report(
    config: &TrueAffectedConfig,
    changed_files: Result<Vec<ChangedFile>, DominoError>,
    workspace: Result<WorkspaceIndex, DominoError>,
) -> (r: Result<AffectedResult, DominoError>)
    ensures
        answers(r, config.projects@, changed_files, workspace, true),
{
    find_affected_internal(config, changed_files, workspace, true)
}

} // verus!
