//! What holds of every analysis: which projects a change affects, which it
//! leaves alone, and how the two kinds of result relate.

use crate::affected::{
    all_marks, answers, asset_marks, asset_name, asset_reference_list_marks, asset_reference_marks,
    changed_marks, dependent_marks, direct_list_marks, direct_marks, entire_marks, file_marks,
    first_import, implicit_marks, line_list_marks, partial_marks, plain_list_marks,
    reference_symbols, report_shows, result_shows, source_marks, symbol_list_marks,
};
use crate::error::DominoError;
use crate::index::{asset_row, WorkspaceIndex};
use crate::order::{
    condensed, condensed_causes_are_determined, lemma_condensed_is_not_empty, lex_less,
    lex_order_is_irreflexive, name_order_is_determined, text_key,
};
use crate::path::PathView;
use crate::propagate::{line_tasks, line_trace, marks_add_up, symbol_trace};
use crate::reach::{
    affected_from, cross_references, finds, is_route, line_affects_the_referring,
    line_asks_for_its_symbols, line_gives_reasons, reaches, references_are_owned, refers,
    symbol_affects_the_referring, symbol_gives_reasons, wish, Wish,
};
use crate::state::{causes_for, packages_of, report_names};
use crate::text::texts;
use crate::trace::{exported_names, visit, Key, Mark, Task};
use crate::types::{
    cause_views, AffectedReport, AffectedResult, AssetReference, Cause, ChangedFile, Project,
};
use vstd::prelude::*;

verus! {

/// Whether one of the changed lines reaches a file of `package`.
pub open spec fn lines_affect(
    ws: WorkspaceIndex,
    file: PathView,
    lines: Seq<usize>,
    package: Seq<char>,
) -> bool {
    exists|i: int|
        0 <= i < lines.len() && packages_of(
            line_trace(ws, file, #[trigger] lines[i]).marks,
        ).contains(package)
}

/// Whether one of the symbols reaches a file of `package`.
pub open spec fn symbols_affect(
    ws: WorkspaceIndex,
    file: PathView,
    names: Seq<Seq<char>>,
    package: Seq<char>,
) -> bool {
    exists|i: int|
        0 <= i < names.len() && packages_of(
            symbol_trace(ws, visit(file, #[trigger] names[i])).marks,
        ).contains(package)
}

/// The references to an asset, as far as they are known.
pub open spec fn asset_references(
    ws: WorkspaceIndex,
    asset: Seq<Seq<char>>,
) -> Seq<AssetReference> {
    match asset_row(ws.assets@, asset) {
        Some(row) => match row.references {
            Ok(refs) => refs@,
            Err(_) => seq![],
        },
        None => seq![],
    }
}

/// Whether a reference to the changed asset affects `package`: it stands in one
/// of its files, or reaches one through the symbols that use the asset.
pub open spec fn reference_affects(
    ws: WorkspaceIndex,
    asset: Seq<Seq<char>>,
    r: AssetReference,
    package: Seq<char>,
) -> bool {
    ws.owner(r.source_file@) == Some(package) || symbols_affect(
        ws,
        r.source_file.full(),
        reference_symbols(ws, asset, r),
        package,
    )
}

/// Whether one of the references to the changed asset affects `package`.
pub open spec fn references_affect(
    ws: WorkspaceIndex,
    asset: Seq<Seq<char>>,
    refs: Seq<AssetReference>,
    package: Seq<char>,
) -> bool {
    exists|i: int| 0 <= i < refs.len() && reference_affects(ws, asset, #[trigger] refs[i], package)
}

/// Whether a changed file affects `package` by itself: a source file that the
/// analysis covers affects its owner and what its changed lines reach; an asset
/// affects its owner and what refers to it.
pub open spec fn file_affects(ws: WorkspaceIndex, f: ChangedFile, package: Seq<char>) -> bool {
    let file = f.file_path@;
    if ws.is_source(file) {
        ws.is_analyzed(file) && (ws.owner(file) == Some(package) || lines_affect(
            ws,
            f.file_path.full(),
            f.changed_lines@,
            package,
        ))
    } else {
        ws.owner(file) == Some(package) || references_affect(
            ws,
            file,
            asset_references(ws, file),
            package,
        )
    }
}

/// Whether one of the changed files affects `package` by itself.
pub open spec fn change_affects(
    ws: WorkspaceIndex,
    files: Seq<ChangedFile>,
    package: Seq<char>,
) -> bool {
    exists|i: int| 0 <= i < files.len() && file_affects(ws, #[trigger] files[i], package)
}

/// Whether a project of this name depends implicitly on one that the changed
/// files affect by themselves.
pub open spec fn depends_on_change(
    projects: Seq<Project>,
    ws: WorkspaceIndex,
    files: Seq<ChangedFile>,
    package: Seq<char>,
) -> bool {
    exists|i: int, j: int|
        0 <= i < projects.len() && 0 <= j < projects[i].implicit_dependencies@.len()
            && projects[i].name@ == package && change_affects(
            ws,
            files,
            (#[trigger] projects[i].implicit_dependencies@[j])@,
        )
}

proof fn lemma_one_mark(mark: Mark, p: Seq<char>)
    ensures
        packages_of(seq![mark]).contains(p) <==> mark.package == p,
{
    assert(seq![mark][0].package == mark.package);
}

proof fn lemma_same_package(marks: Seq<Mark>, package: Seq<char>, p: Seq<char>)
    requires
        forall|i: int| 0 <= i < marks.len() ==> (#[trigger] marks[i]).package == package,
    ensures
        packages_of(marks).contains(p) ==> p == package,
{
}

proof fn lemma_direct_list(
    ws: WorkspaceIndex,
    package: Seq<char>,
    file: PathView,
    lines: Seq<usize>,
    p: Seq<char>,
)
    ensures
        packages_of(direct_list_marks(ws, package, file, lines)).contains(p) ==> p == package,
    decreases lines.len(),
{
    if lines.len() > 0 {
        let a = direct_list_marks(ws, package, file, lines.drop_last());
        let b = direct_marks(ws, package, file, lines.last());
        lemma_direct_list(ws, package, file, lines.drop_last(), p);
        lemma_same_package(b, package, p);
        marks_add_up(a, b);
    }
}

proof fn lemma_line_list(
    ws: WorkspaceIndex,
    file: PathView,
    lines: Seq<usize>,
    p: Seq<char>,
)
    ensures
        packages_of(line_list_marks(ws, file, lines)).contains(p) <==> lines_affect(
            ws,
            file,
            lines,
            p,
        ),
    decreases lines.len(),
{
    if lines.len() > 0 {
        let rest = lines.drop_last();
        let n = lines.len() - 1;
        lemma_line_list(ws, file, rest, p);
        marks_add_up(line_list_marks(ws, file, rest), line_trace(ws, file, lines.last()).marks);
        if lines_affect(ws, file, rest, p) {
            let i = choose|i: int|
                0 <= i < rest.len() && packages_of(
                    line_trace(ws, file, #[trigger] rest[i]).marks,
                ).contains(p);
            assert(lines[i] == rest[i]);
        }
        if lines_affect(ws, file, lines, p) {
            let i = choose|i: int|
                0 <= i < lines.len() && packages_of(
                    line_trace(ws, file, #[trigger] lines[i]).marks,
                ).contains(p);
            if i < n {
                assert(rest[i] == lines[i]);
            }
        }
        assert(lines[n] == lines.last());
    }
}

proof fn lemma_symbol_list(
    ws: WorkspaceIndex,
    file: PathView,
    names: Seq<Seq<char>>,
    p: Seq<char>,
)
    ensures
        packages_of(symbol_list_marks(ws, file, names)).contains(p) <==> symbols_affect(
            ws,
            file,
            names,
            p,
        ),
    decreases names.len(),
{
    if names.len() > 0 {
        let rest = names.drop_last();
        let n = names.len() - 1;
        lemma_symbol_list(ws, file, rest, p);
        marks_add_up(
            symbol_list_marks(ws, file, rest),
            symbol_trace(ws, visit(file, names.last())).marks,
        );
        if symbols_affect(ws, file, rest, p) {
            let i = choose|i: int|
                0 <= i < rest.len() && packages_of(
                    symbol_trace(ws, visit(file, #[trigger] rest[i])).marks,
                ).contains(p);
            assert(names[i] == rest[i]);
        }
        if symbols_affect(ws, file, names, p) {
            let i = choose|i: int|
                0 <= i < names.len() && packages_of(
                    symbol_trace(ws, visit(file, #[trigger] names[i])).marks,
                ).contains(p);
            if i < n {
                assert(rest[i] == names[i]);
            }
        }
        assert(names[n] == names.last());
    }
}

proof fn lemma_reference(ws: WorkspaceIndex, asset: PathView, r: AssetReference, p: Seq<char>)
    ensures
        packages_of(asset_reference_marks(ws, asset, r)).contains(p) <==> reference_affects(
            ws,
            asset.parts,
            r,
            p,
        ),
{
    let file = r.source_file.full();
    let names = reference_symbols(ws, asset.parts, r);
    let later = symbol_list_marks(ws, file, names);
    lemma_symbol_list(ws, file, names, p);
    let all = asset_reference_marks(ws, asset, r);
    if ws.owner(file.parts) is Some {
        let own = seq![all[0]];
        assert(all =~= own + later);
        marks_add_up(own, later);
        lemma_one_mark(all[0], p);
    } else {
        assert(all =~= later);
    }
}

proof fn lemma_reference_list(
    ws: WorkspaceIndex,
    asset: PathView,
    refs: Seq<AssetReference>,
    p: Seq<char>,
)
    ensures
        packages_of(asset_reference_list_marks(ws, asset, refs)).contains(p) <==> references_affect(
            ws,
            asset.parts,
            refs,
            p,
        ),
    decreases refs.len(),
{
    if refs.len() > 0 {
        let rest = refs.drop_last();
        let n = refs.len() - 1;
        lemma_reference_list(ws, asset, rest, p);
        lemma_reference(ws, asset, refs.last(), p);
        marks_add_up(
            asset_reference_list_marks(ws, asset, rest),
            asset_reference_marks(ws, asset, refs.last()),
        );
        if references_affect(ws, asset.parts, rest, p) {
            let i = choose|i: int|
                0 <= i < rest.len() && reference_affects(ws, asset.parts, #[trigger] rest[i], p);
            assert(refs[i] == rest[i]);
        }
        if references_affect(ws, asset.parts, refs, p) {
            let i = choose|i: int|
                0 <= i < refs.len() && reference_affects(ws, asset.parts, #[trigger] refs[i], p);
            if i < n {
                assert(rest[i] == refs[i]);
            }
        }
        assert(refs[n] == refs.last());
    }
}

proof fn lemma_file(ws: WorkspaceIndex, f: ChangedFile, p: Seq<char>)
    ensures
        packages_of(file_marks(ws, f)).contains(p) <==> file_affects(ws, f, p),
{
    let file = f.file_path.full();
    let lines = f.changed_lines@;
    if ws.is_source(file.parts) {
        if ws.is_analyzed(file.parts) {
            let later = line_list_marks(ws, file, lines);
            lemma_line_list(ws, file, lines, p);
            match ws.owner(file.parts) {
                Some(package) => {
                    let first = seq![Mark { package, cause: None }];
                    let direct = if lines.len() == 0 {
                        entire_marks(package, file)
                    } else {
                        direct_list_marks(ws, package, file, lines)
                    };
                    marks_add_up(first, direct);
                    marks_add_up(first + direct, later);
                    lemma_one_mark(first[0], p);
                    if lines.len() == 0 {
                        lemma_same_package(direct, package, p);
                    } else {
                        lemma_direct_list(ws, package, file, lines, p);
                    }
                    assert(source_marks(ws, f) == first + direct + later);
                },
                None => {
                    assert(source_marks(ws, f) =~= later);
                },
            }
        }
    } else {
        let refs = asset_references(ws, file.parts);
        let later = asset_reference_list_marks(ws, file, refs);
        lemma_reference_list(ws, file, refs, p);
        match ws.owner(file.parts) {
            Some(package) => {
                let first = seq![Mark { package, cause: None }];
                let direct = if lines.len() == 0 {
                    entire_marks(package, file)
                } else {
                    plain_list_marks(package, file, lines)
                };
                marks_add_up(first, direct);
                marks_add_up(first + direct, later);
                lemma_one_mark(first[0], p);
                lemma_same_package(direct, package, p);
                assert(asset_marks(ws, f) =~= first + direct + later);
            },
            None => {
                assert(asset_marks(ws, f) =~= later);
            },
        }
    }
}

/// Whether a source file, or one that is none, affects `package` by itself.
spec fn partly_affects(
    ws: WorkspaceIndex,
    files: Seq<ChangedFile>,
    sources: bool,
    package: Seq<char>,
) -> bool {
    exists|i: int|
        0 <= i < files.len() && ws.is_source((#[trigger] files[i]).file_path@) == sources
            && file_affects(ws, files[i], package)
}

proof fn lemma_partial(
    ws: WorkspaceIndex,
    files: Seq<ChangedFile>,
    sources: bool,
    package: Seq<char>,
)
    ensures
        packages_of(partial_marks(ws, files, sources)).contains(package) <==> partly_affects(
            ws,
            files,
            sources,
            package,
        ),
    decreases files.len(),
{
    if files.len() > 0 {
        let rest = files.drop_last();
        let n = files.len() - 1;
        let earlier = partial_marks(ws, rest, sources);
        lemma_partial(ws, rest, sources, package);
        lemma_file(ws, files.last(), package);
        marks_add_up(earlier, file_marks(ws, files.last()));
        assert(earlier + Seq::<Mark>::empty() =~= earlier);
        if partly_affects(ws, rest, sources, package) {
            let i = choose|i: int|
                0 <= i < rest.len() && ws.is_source((#[trigger] rest[i]).file_path@) == sources
                    && file_affects(ws, rest[i], package);
            assert(files[i] == rest[i]);
        }
        if partly_affects(ws, files, sources, package) {
            let i = choose|i: int|
                0 <= i < files.len() && ws.is_source((#[trigger] files[i]).file_path@) == sources
                    && file_affects(ws, files[i], package);
            if i < n {
                assert(rest[i] == files[i]);
            }
        }
        assert(files[n] == files.last());
    }
}

/// What the changed files mark is what they affect, each by itself.
pub proof fn changed_files_affect(ws: WorkspaceIndex, files: Seq<ChangedFile>, package: Seq<char>)
    ensures
        packages_of(changed_marks(ws, files)).contains(package) <==> change_affects(
            ws,
            files,
            package,
        ),
{
    lemma_partial(ws, files, true, package);
    lemma_partial(ws, files, false, package);
    marks_add_up(partial_marks(ws, files, true), partial_marks(ws, files, false));
    if change_affects(ws, files, package) {
        let i = choose|i: int|
            0 <= i < files.len() && file_affects(ws, #[trigger] files[i], package);
        assert(partly_affects(ws, files, ws.is_source(files[i].file_path@), package));
    }
    if partly_affects(ws, files, true, package) {
        let i = choose|i: int|
            0 <= i < files.len() && ws.is_source((#[trigger] files[i]).file_path@) == true
                && file_affects(ws, files[i], package);
        assert(file_affects(ws, files[i], package));
    }
    if partly_affects(ws, files, false, package) {
        let i = choose|i: int|
            0 <= i < files.len() && ws.is_source((#[trigger] files[i]).file_path@) == false
                && file_affects(ws, files[i], package);
        assert(file_affects(ws, files[i], package));
    }
}

proof fn lemma_dependent(
    name: Seq<char>,
    deps: Seq<Seq<char>>,
    affected: Set<Seq<char>>,
    p: Seq<char>,
)
    ensures
        packages_of(dependent_marks(name, deps, affected)).contains(p) <==> name == p && exists|
            j: int,
        |
            0 <= j < deps.len() && affected.contains(#[trigger] deps[j]),
    decreases deps.len(),
{
    if deps.len() > 0 {
        let rest = deps.drop_last();
        let n = deps.len() - 1;
        lemma_dependent(name, rest, affected, p);
        let a = dependent_marks(name, rest, affected);
        let all = dependent_marks(name, deps, affected);
        if affected.contains(deps.last()) {
            let b = seq![all.last()];
            assert(all =~= a + b);
            marks_add_up(a, b);
            lemma_one_mark(all.last(), p);
            assert(affected.contains(deps[n]));
        } else {
            assert(all =~= a);
        }
        if exists|j: int| 0 <= j < rest.len() && affected.contains(#[trigger] rest[j]) {
            let j = choose|j: int| 0 <= j < rest.len() && affected.contains(#[trigger] rest[j]);
            assert(deps[j] == rest[j]);
        }
        if exists|j: int| 0 <= j < deps.len() && affected.contains(#[trigger] deps[j]) {
            let j = choose|j: int| 0 <= j < deps.len() && affected.contains(#[trigger] deps[j]);
            if j < n {
                assert(rest[j] == deps[j]);
            }
        }
    }
}

/// The projects that depend implicitly on an affected one are marked, and no
/// others.
pub proof fn implicit_dependents_are_marked(
    projects: Seq<Project>,
    affected: Set<Seq<char>>,
    package: Seq<char>,
)
    ensures
        packages_of(implicit_marks(projects, affected)).contains(package) <==> exists|
            i: int,
            j: int,
        |
            0 <= i < projects.len() && 0 <= j < projects[i].implicit_dependencies@.len()
                && projects[i].name@ == package && affected.contains(
                (#[trigger] projects[i].implicit_dependencies@[j])@,
            ),
    decreases projects.len(),
{
    if projects.len() > 0 {
        let rest = projects.drop_last();
        let n = projects.len() - 1;
        let name = projects.last().name@;
        let deps = texts(projects.last().implicit_dependencies@);
        implicit_dependents_are_marked(rest, affected, package);
        lemma_dependent(name, deps, affected, package);
        marks_add_up(implicit_marks(rest, affected), dependent_marks(name, deps, affected));
        assert(projects[n] == projects.last());
        if name == package && exists|j: int|
            0 <= j < deps.len() && affected.contains(#[trigger] deps[j]) {
            let j = choose|j: int| 0 <= j < deps.len() && affected.contains(#[trigger] deps[j]);
            assert(affected.contains(projects[n].implicit_dependencies@[j]@));
        }
        if exists|i: int, j: int|
            0 <= i < rest.len() && 0 <= j < rest[i].implicit_dependencies@.len() && rest[i].name@
                == package && affected.contains((#[trigger] rest[i].implicit_dependencies@[j])@) {
            let (i, j) = choose|i: int, j: int|
                0 <= i < rest.len() && 0 <= j < rest[i].implicit_dependencies@.len()
                    && rest[i].name@ == package && affected.contains(
                    (#[trigger] rest[i].implicit_dependencies@[j])@,
                );
            assert(affected.contains(projects[i].implicit_dependencies@[j]@));
        }
        if exists|i: int, j: int|
            0 <= i < projects.len() && 0 <= j < projects[i].implicit_dependencies@.len()
                && projects[i].name@ == package && affected.contains(
                (#[trigger] projects[i].implicit_dependencies@[j])@,
            ) {
            let (i, j) = choose|i: int, j: int|
                0 <= i < projects.len() && 0 <= j < projects[i].implicit_dependencies@.len()
                    && projects[i].name@ == package && affected.contains(
                    (#[trigger] projects[i].implicit_dependencies@[j])@,
                );
            if i < n {
                assert(affected.contains(rest[i].implicit_dependencies@[j]@));
            } else {
                assert(affected.contains(deps[j]));
            }
        }
    }
}

/// A project is affected exactly where a changed file affects it by itself, or
/// where it depends implicitly on a project that one does. Implicit dependencies
/// count once: what depends on such a dependent is not affected by that.
pub proof fn affected_projects_are_determined(
    projects: Seq<Project>,
    ws: WorkspaceIndex,
    files: Seq<ChangedFile>,
    package: Seq<char>,
)
    ensures
        packages_of(all_marks(projects, ws, files)).contains(package) <==> change_affects(
            ws,
            files,
            package,
        ) || depends_on_change(projects, ws, files, package),
{
    let changed = changed_marks(ws, files);
    let affected = packages_of(changed);
    marks_add_up(changed, implicit_marks(projects, affected));
    changed_files_affect(ws, files, package);
    implicit_dependents_are_marked(projects, affected, package);
    assert forall|n: Seq<char>| #[trigger] affected.contains(n) <==> change_affects(
        ws,
        files,
        n,
    ) by {
        changed_files_affect(ws, files, n);
    }
    if depends_on_change(projects, ws, files, package) {
        let (i, j) = choose|i: int, j: int|
            0 <= i < projects.len() && 0 <= j < projects[i].implicit_dependencies@.len()
                && projects[i].name@ == package && change_affects(
                ws,
                files,
                (#[trigger] projects[i].implicit_dependencies@[j])@,
            );
        assert(affected.contains(projects[i].implicit_dependencies@[j]@));
    }
}

/// Where no query fails, changed lines affect exactly the projects whose files
/// refer to a symbol that a chain of uses leads to from one of them.
pub proof fn lines_affect_by_use(
    ws: WorkspaceIndex,
    file: PathView,
    lines: Seq<usize>,
    package: Seq<char>,
)
    requires
        forall|i: int|
            0 <= i < lines.len() ==> line_trace(ws, file, #[trigger] lines[i]).failure is None,
    ensures
        lines_affect(ws, file, lines, package) <==> exists|i: int|
            0 <= i < lines.len() && affected_from(
                ws,
                line_tasks(ws, file, #[trigger] lines[i]),
                package,
            ),
{
    assert forall|i: int| 0 <= i < lines.len() implies (packages_of(
        line_trace(ws, file, #[trigger] lines[i]).marks,
    ).contains(package) <==> affected_from(ws, line_tasks(ws, file, lines[i]), package)) by {
        line_affects_the_referring(ws, file, lines[i], package);
    }
}

/// A changed line of an analyzed source file affects each project whose files refer to
/// a symbol that a chain of uses leads to from one on that line, where no query fails.
pub proof fn changed_line_affects_the_users(
    r: AffectedResult,
    projects: Seq<Project>,
    ws: WorkspaceIndex,
    files: Seq<ChangedFile>,
    reporting: bool,
    i: int,
    line: usize,
    route: Seq<Key>,
    package: Seq<char>,
)
    requires
        result_shows(r, all_marks(projects, ws, files), reporting),
        0 <= i < files.len(),
        ws.is_source(files[i].file_path@),
        ws.is_analyzed(files[i].file_path@),
        files[i].changed_lines@.contains(line),
        line_trace(ws, files[i].file_path.full(), line).failure is None,
        is_route(ws, route),
        route[0].0 == files[i].file_path@,
        finds(ws.symbols_at(files[i].file_path@, line, 0), route[0].1),
        refers(ws, package, route.last()),
    ensures
        texts(r.affected_projects@).contains(package),
{
    let file = files[i].file_path.full();
    let lines = files[i].changed_lines@;
    let k = choose|k: int| 0 <= k < lines.len() && lines[k] == line;
    let todo = line_tasks(ws, file, line);
    line_asks_for_its_symbols(ws, file, line, Wish::Follow(route[0]));
    assert(reaches(ws, todo, route.last()));
    line_affects_the_referring(ws, file, line, package);
    assert(packages_of(line_trace(ws, file, lines[k]).marks).contains(package));
    assert(lines_affect(ws, file, lines, package));
    assert(file_affects(ws, files[i], package));
    affected_projects_are_determined(projects, ws, files, package);
}

/// Where no query fails, symbols affect exactly the projects whose files refer to
/// a symbol that a chain of uses leads to from one of them.
pub proof fn symbols_affect_by_use(
    ws: WorkspaceIndex,
    file: PathView,
    names: Seq<Seq<char>>,
    package: Seq<char>,
)
    requires
        forall|i: int|
            0 <= i < names.len() ==> symbol_trace(
                ws,
                visit(file, #[trigger] names[i]),
            ).failure is None,
    ensures
        symbols_affect(ws, file, names, package) <==> exists|i: int|
            0 <= i < names.len() && affected_from(
                ws,
                seq![Task::Visit(visit(file, #[trigger] names[i]))],
                package,
            ),
{
    assert forall|i: int| 0 <= i < names.len() implies (packages_of(
        symbol_trace(ws, visit(file, #[trigger] names[i])).marks,
    ).contains(package) <==> affected_from(
        ws,
        seq![Task::Visit(visit(file, names[i]))],
        package,
    )) by {
        symbol_affects_the_referring(ws, visit(file, names[i]), package);
    }
}

/// Where no query fails, a reference to a changed asset affects exactly the owner
/// of the file that holds it and the projects whose files refer to a symbol that a
/// chain of uses leads to from one through which the asset acts there.
pub proof fn assets_affect_by_use(
    ws: WorkspaceIndex,
    asset: Seq<Seq<char>>,
    r: AssetReference,
    package: Seq<char>,
)
    requires
        forall|i: int|
            0 <= i < reference_symbols(ws, asset, r).len() ==> symbol_trace(
                ws,
                visit(r.source_file.full(), #[trigger] reference_symbols(ws, asset, r)[i]),
            ).failure is None,
    ensures
        reference_affects(ws, asset, r, package) <==> ws.owner(r.source_file@) == Some(package)
            || exists|i: int|
            0 <= i < reference_symbols(ws, asset, r).len() && affected_from(
                ws,
                seq![
                    Task::Visit(
                        visit(r.source_file.full(), #[trigger] reference_symbols(ws, asset, r)[i]),
                    ),
                ],
                package,
            ),
{
    symbols_affect_by_use(ws, r.source_file.full(), reference_symbols(ws, asset, r), package);
}

proof fn lemma_asset_acts_through(
    r: AffectedResult,
    projects: Seq<Project>,
    ws: WorkspaceIndex,
    files: Seq<ChangedFile>,
    reporting: bool,
    i: int,
    k: int,
    name: Seq<char>,
    package: Seq<char>,
)
    requires
        result_shows(r, all_marks(projects, ws, files), reporting),
        0 <= i < files.len(),
        !ws.is_source(files[i].file_path@),
        0 <= k < asset_references(ws, files[i].file_path@).len(),
        ({
            let reference = asset_references(ws, files[i].file_path@)[k];
            let v = visit(reference.source_file.full(), name);
            &&& reference_symbols(ws, files[i].file_path@, reference).contains(name)
            &&& symbol_trace(ws, v).failure is None
            &&& refers(ws, package, v.key())
        }),
    ensures
        texts(r.affected_projects@).contains(package),
{
    let asset = files[i].file_path@;
    let refs = asset_references(ws, asset);
    let reference = refs[k];
    let v = visit(reference.source_file.full(), name);
    let names = reference_symbols(ws, asset, reference);
    let n = choose|n: int| 0 <= n < names.len() && names[n] == name;
    let todo = seq![Task::Visit(v)];
    let route = seq![v.key()];
    assert(wish(todo[0]) == Wish::Follow(route[0]));
    assert(is_route(ws, route) && route.last() == v.key());
    assert(reaches(ws, todo, v.key()));
    symbol_affects_the_referring(ws, v, package);
    assert(packages_of(symbol_trace(ws, visit(reference.source_file.full(), names[n])).marks).contains(
        package,
    ));
    assert(reference_affects(ws, asset, refs[k], package));
    assert(file_affects(ws, files[i], package));
    affected_projects_are_determined(projects, ws, files, package);
}

/// A changed asset that a symbol names without an import, as a component names its
/// template, affects the projects that refer to that symbol.
pub proof fn asset_acts_through_what_names_it(
    r: AffectedResult,
    projects: Seq<Project>,
    ws: WorkspaceIndex,
    files: Seq<ChangedFile>,
    reporting: bool,
    i: int,
    k: int,
    name: Seq<char>,
    package: Seq<char>,
)
    requires
        result_shows(r, all_marks(projects, ws, files), reporting),
        0 <= i < files.len(),
        !ws.is_source(files[i].file_path@),
        0 <= k < asset_references(ws, files[i].file_path@).len(),
        ({
            let reference = asset_references(ws, files[i].file_path@)[k];
            let source = reference.source_file@;
            let v = visit(reference.source_file.full(), name);
            &&& first_import(ws.imports(source), asset_name(files[i].file_path@)) is None
            &&& finds(ws.symbols_at(source, reference.line, reference.column), name)
            &&& symbol_trace(ws, v).failure is None
            &&& refers(ws, package, v.key())
        }),
    ensures
        texts(r.affected_projects@).contains(package),
{
    lemma_asset_acts_through(r, projects, ws, files, reporting, i, k, name, package);
}

/// A changed asset that a file imports affects the projects that refer to any of the
/// exported symbols that use the import.
pub proof fn asset_acts_through_every_user_of_its_import(
    r: AffectedResult,
    projects: Seq<Project>,
    ws: WorkspaceIndex,
    files: Seq<ChangedFile>,
    reporting: bool,
    i: int,
    k: int,
    local: Seq<char>,
    name: Seq<char>,
    package: Seq<char>,
)
    requires
        result_shows(r, all_marks(projects, ws, files), reporting),
        0 <= i < files.len(),
        !ws.is_source(files[i].file_path@),
        0 <= k < asset_references(ws, files[i].file_path@).len(),
        ({
            let reference = asset_references(ws, files[i].file_path@)[k];
            let source = reference.source_file@;
            let v = visit(reference.source_file.full(), name);
            &&& first_import(ws.imports(source), asset_name(files[i].file_path@)) == Some(local)
            &&& finds(ws.exported_users(source, local), name)
            &&& symbol_trace(ws, v).failure is None
            &&& refers(ws, package, v.key())
        }),
    ensures
        texts(r.affected_projects@).contains(package),
{
    lemma_asset_acts_through(r, projects, ws, files, reporting, i, k, name, package);
}

/// A changed asset that a file imports without a name affects the projects that
/// refer to what the file declares and exports.
pub proof fn nameless_import_acts_through_the_exports(
    r: AffectedResult,
    projects: Seq<Project>,
    ws: WorkspaceIndex,
    files: Seq<ChangedFile>,
    reporting: bool,
    i: int,
    k: int,
    name: Seq<char>,
    package: Seq<char>,
)
    requires
        result_shows(r, all_marks(projects, ws, files), reporting),
        0 <= i < files.len(),
        !ws.is_source(files[i].file_path@),
        0 <= k < asset_references(ws, files[i].file_path@).len(),
        ({
            let reference = asset_references(ws, files[i].file_path@)[k];
            let source = reference.source_file@;
            let v = visit(reference.source_file.full(), name);
            &&& first_import(ws.imports(source), asset_name(files[i].file_path@)) is None
            &&& ws.symbols_at(source, reference.line, reference.column) matches Ok(names)
            &&& names.len() == 0
            &&& exported_names(ws.exports(source)).contains(name)
            &&& symbol_trace(ws, v).failure is None
            &&& refers(ws, package, v.key())
        }),
    ensures
        texts(r.affected_projects@).contains(package),
{
    lemma_asset_acts_through(r, projects, ws, files, reporting, i, k, name, package);
}

/// A changed file affects the project that it belongs to; a source file does so
/// where the analysis covers it.
pub proof fn changed_file_affects_its_owner(
    r: AffectedResult,
    projects: Seq<Project>,
    ws: WorkspaceIndex,
    files: Seq<ChangedFile>,
    reporting: bool,
    i: int,
    package: Seq<char>,
)
    requires
        result_shows(r, all_marks(projects, ws, files), reporting),
        0 <= i < files.len(),
        ws.owner(files[i].file_path@) == Some(package),
        ws.is_source(files[i].file_path@) ==> ws.is_analyzed(files[i].file_path@),
    ensures
        texts(r.affected_projects@).contains(package),
{
    affected_projects_are_determined(projects, ws, files, package);
    assert(file_affects(ws, files[i], package));
}

/// A project that depends implicitly on the owner of a changed file is affected
/// with it.
pub proof fn changed_file_affects_implicit_dependents(
    r: AffectedResult,
    projects: Seq<Project>,
    ws: WorkspaceIndex,
    files: Seq<ChangedFile>,
    reporting: bool,
    i: int,
    project: int,
    dependency: int,
)
    requires
        result_shows(r, all_marks(projects, ws, files), reporting),
        0 <= i < files.len(),
        ws.is_source(files[i].file_path@) ==> ws.is_analyzed(files[i].file_path@),
        0 <= project < projects.len(),
        0 <= dependency < projects[project].implicit_dependencies@.len(),
        ws.owner(files[i].file_path@) == Some(
            projects[project].implicit_dependencies@[dependency]@,
        ),
    ensures
        texts(r.affected_projects@).contains(projects[project].name@),
{
    let name = projects[project].name@;
    let owner = projects[project].implicit_dependencies@[dependency]@;
    affected_projects_are_determined(projects, ws, files, name);
    assert(file_affects(ws, files[i], owner));
    assert(change_affects(ws, files, owner));
    assert(depends_on_change(projects, ws, files, name));
}

/// More changed files never take a project off the list.
pub proof fn more_changes_affect_more(
    fewer: AffectedResult,
    more: AffectedResult,
    projects: Seq<Project>,
    ws: WorkspaceIndex,
    files: Seq<ChangedFile>,
    all_files: Seq<ChangedFile>,
    reporting: bool,
    package: Seq<char>,
)
    requires
        result_shows(fewer, all_marks(projects, ws, files), reporting),
        result_shows(more, all_marks(projects, ws, all_files), reporting),
        forall|f: ChangedFile| #[trigger] files.contains(f) ==> all_files.contains(f),
        texts(fewer.affected_projects@).contains(package),
    ensures
        texts(more.affected_projects@).contains(package),
{
    assert forall|n: Seq<char>| #[trigger] change_affects(ws, files, n) implies change_affects(
        ws,
        all_files,
        n,
    ) by {
        let i = choose|i: int| 0 <= i < files.len() && file_affects(ws, #[trigger] files[i], n);
        assert(files.contains(files[i]));
        let k = choose|k: int| 0 <= k < all_files.len() && all_files[k] == files[i];
        assert(file_affects(ws, all_files[k], n));
    }
    affected_projects_are_determined(projects, ws, files, package);
    affected_projects_are_determined(projects, ws, all_files, package);
    if depends_on_change(projects, ws, files, package) {
        let (i, j) = choose|i: int, j: int|
            0 <= i < projects.len() && 0 <= j < projects[i].implicit_dependencies@.len()
                && projects[i].name@ == package && change_affects(
                ws,
                files,
                (#[trigger] projects[i].implicit_dependencies@[j])@,
            );
        assert(change_affects(ws, all_files, projects[i].implicit_dependencies@[j]@));
    }
}

/// Neither the order of the changed files nor how often one is listed makes a
/// difference to which projects are affected, or to how they are listed.
pub proof fn order_of_changes_is_irrelevant(
    a: AffectedResult,
    b: AffectedResult,
    projects: Seq<Project>,
    ws: WorkspaceIndex,
    files: Seq<ChangedFile>,
    other_files: Seq<ChangedFile>,
    reporting: bool,
)
    requires
        result_shows(a, all_marks(projects, ws, files), reporting),
        result_shows(b, all_marks(projects, ws, other_files), reporting),
        forall|f: ChangedFile| #[trigger] files.contains(f) <==> other_files.contains(f),
    ensures
        texts(a.affected_projects@) == texts(b.affected_projects@),
{
    let x = texts(a.affected_projects@);
    let y = texts(b.affected_projects@);
    assert forall|n: Seq<char>| #[trigger] x.contains(n) <==> y.contains(n) by {
        if x.contains(n) {
            more_changes_affect_more(a, b, projects, ws, files, other_files, reporting, n);
        }
        if y.contains(n) {
            assert forall|f: ChangedFile| #[trigger]
                other_files.contains(f) implies files.contains(f) by {}
            more_changes_affect_more(b, a, projects, ws, other_files, files, reporting, n);
        }
    }
    name_order_is_determined(x, y);
}

/// Asking for a report changes nothing about which projects are listed.
pub proof fn report_leaves_the_list_alone(
    plain: AffectedResult,
    reported: AffectedResult,
    marks: Seq<Mark>,
)
    requires
        result_shows(plain, marks, false),
        result_shows(reported, marks, true),
    ensures
        texts(plain.affected_projects@) == texts(reported.affected_projects@),
{
    let x = texts(plain.affected_projects@);
    let y = texts(reported.affected_projects@);
    assert forall|n: Seq<char>| #[trigger] x.contains(n) <==> y.contains(n) by {
        assert(y.contains(n) <==> packages_of(marks).contains(n));
    }
    name_order_is_determined(x, y);
}

/// The changed files contribute independently: the projects that two lists of
/// them affect together are those that either affects.
pub proof fn changes_add_up(
    first: Vec<ChangedFile>,
    second: Vec<ChangedFile>,
    both: Vec<ChangedFile>,
    projects: Seq<Project>,
    ws: WorkspaceIndex,
    a: AffectedResult,
    b: AffectedResult,
    ab: AffectedResult,
    reporting: bool,
    package: Seq<char>,
)
    requires
        both@ == first@ + second@,
        answers(Ok(a), projects, Ok(first), Ok(ws), reporting),
        answers(Ok(b), projects, Ok(second), Ok(ws), reporting),
        answers(Ok(ab), projects, Ok(both), Ok(ws), reporting),
    ensures
        texts(ab.affected_projects@).contains(package) <==> texts(a.affected_projects@).contains(
            package,
        ) || texts(b.affected_projects@).contains(package),
{
    lemma_answer_lists(first, projects, ws, a, reporting, package);
    lemma_answer_lists(second, projects, ws, b, reporting, package);
    lemma_answer_lists(both, projects, ws, ab, reporting, package);
    assert forall|n: Seq<char>| #[trigger]
        change_affects(ws, both@, n) <==> change_affects(ws, first@, n) || change_affects(
            ws,
            second@,
            n,
        ) by {
        lemma_change_sum(ws, first@, second@, n);
    }
    if depends_on_change(projects, ws, both@, package) {
        let (i, j) = choose|i: int, j: int|
            0 <= i < projects.len() && 0 <= j < projects[i].implicit_dependencies@.len()
                && projects[i].name@ == package && change_affects(
                ws,
                both@,
                (#[trigger] projects[i].implicit_dependencies@[j])@,
            );
        let dependency = projects[i].implicit_dependencies@[j]@;
        assert(change_affects(ws, both@, dependency));
        if change_affects(ws, first@, dependency) {
            assert(depends_on_change(projects, ws, first@, package));
        } else {
            assert(depends_on_change(projects, ws, second@, package));
        }
    }
    if depends_on_change(projects, ws, first@, package) {
        let (i, j) = choose|i: int, j: int|
            0 <= i < projects.len() && 0 <= j < projects[i].implicit_dependencies@.len()
                && projects[i].name@ == package && change_affects(
                ws,
                first@,
                (#[trigger] projects[i].implicit_dependencies@[j])@,
            );
        assert(change_affects(ws, both@, projects[i].implicit_dependencies@[j]@));
    }
    if depends_on_change(projects, ws, second@, package) {
        let (i, j) = choose|i: int, j: int|
            0 <= i < projects.len() && 0 <= j < projects[i].implicit_dependencies@.len()
                && projects[i].name@ == package && change_affects(
                ws,
                second@,
                (#[trigger] projects[i].implicit_dependencies@[j])@,
            );
        assert(change_affects(ws, both@, projects[i].implicit_dependencies@[j]@));
    }
}

/// An answer lists what the changed files affect, also where there are none.
proof fn lemma_answer_lists(
    files: Vec<ChangedFile>,
    projects: Seq<Project>,
    ws: WorkspaceIndex,
    r: AffectedResult,
    reporting: bool,
    package: Seq<char>,
)
    requires
        answers(Ok(r), projects, Ok(files), Ok(ws), reporting),
    ensures
        texts(r.affected_projects@).contains(package) <==> change_affects(ws, files@, package)
            || depends_on_change(projects, ws, files@, package),
{
    affected_projects_are_determined(projects, ws, files@, package);
}

proof fn lemma_change_sum(
    ws: WorkspaceIndex,
    first: Seq<ChangedFile>,
    second: Seq<ChangedFile>,
    n: Seq<char>,
)
    ensures
        change_affects(ws, first + second, n) <==> change_affects(ws, first, n) || change_affects(
            ws,
            second,
            n,
        ),
{
    let both = first + second;
    if change_affects(ws, both, n) {
        let i = choose|i: int| 0 <= i < both.len() && file_affects(ws, #[trigger] both[i], n);
        if i < first.len() {
            assert(file_affects(ws, first[i], n));
        } else {
            assert(file_affects(ws, second[i - first.len()], n));
        }
    }
    if change_affects(ws, first, n) {
        let i = choose|i: int| 0 <= i < first.len() && file_affects(ws, #[trigger] first[i], n);
        assert(file_affects(ws, both[i], n));
    }
    if change_affects(ws, second, n) {
        let i = choose|i: int| 0 <= i < second.len() && file_affects(ws, #[trigger] second[i], n);
        assert(file_affects(ws, both[i + first.len()], n));
    }
}

/// A report informs about each affected project, in the order of the list, and
/// about no other.
pub proof fn every_affected_project_is_reported(
    r: AffectedResult,
    marks: Seq<Mark>,
    report: AffectedReport,
)
    requires
        result_shows(r, marks, true),
        r.report == Some(report),
    ensures
        report_names(report.projects@) == texts(r.affected_projects@),
{
}

/// Two reports of the same projects and marks agree line by line.
pub proof fn report_is_determined(
    a: AffectedReport,
    b: AffectedReport,
    names: Seq<Seq<char>>,
    marks: Seq<Mark>,
)
    requires
        report_shows(a, names, marks),
        report_shows(b, names, marks),
    ensures
        a.projects@.len() == b.projects@.len(),
        forall|i: int|
            0 <= i < a.projects@.len() ==> (#[trigger] a.projects@[i]).name@ == b.projects@[i].name@
                && cause_views(a.projects@[i].causes@) == cause_views(b.projects@[i].causes@),
{
    let x = report_names(a.projects@);
    let y = report_names(b.projects@);
    assert(a.projects@.len() == x.len() == y.len() == b.projects@.len());
    assert forall|i: int| 0 <= i < a.projects@.len() implies (#[trigger] a.projects@[i]).name@
        == b.projects@[i].name@ && cause_views(a.projects@[i].causes@) == cause_views(
        b.projects@[i].causes@,
    ) by {
        assert(x[i] == a.projects@[i].name@);
        assert(y[i] == b.projects@[i].name@);
        condensed_causes_are_determined(
            cause_views(a.projects@[i].causes@),
            cause_views(b.projects@[i].causes@),
            causes_for(marks, x[i]),
        );
    }
}

/// Whether every marked project has a reason among the marks.
pub open spec fn explained(marks: Seq<Mark>) -> bool {
    forall|p: Seq<char>| #[trigger]
        packages_of(marks).contains(p) ==> causes_for(marks, p).len() > 0
}

proof fn lemma_explained_sum(a: Seq<Mark>, b: Seq<Mark>)
    requires
        explained(a),
        explained(b),
    ensures
        explained(a + b),
{
    marks_add_up(a, b);
    assert forall|p: Seq<char>| #[trigger] packages_of(a + b).contains(p) implies causes_for(
        a + b,
        p,
    ).len() > 0 by {
        assert(causes_for(a + b, p) == causes_for(a, p) + causes_for(b, p));
        if packages_of(a).contains(p) {
            assert(causes_for(a, p).len() > 0);
        } else {
            assert(packages_of(b).contains(p));
        }
    }
}

proof fn lemma_reason(marks: Seq<Mark>, i: int)
    requires
        0 <= i < marks.len(),
        marks[i].cause is Some,
    ensures
        causes_for(marks, marks[i].package).len() > 0,
    decreases marks.len(),
{
    if i < marks.len() - 1 {
        assert(marks.drop_last()[i] == marks[i]);
        lemma_reason(marks.drop_last(), i);
    }
}

proof fn lemma_explained_causes(marks: Seq<Mark>)
    requires
        forall|i: int| 0 <= i < marks.len() ==> (#[trigger] marks[i]).cause is Some,
    ensures
        explained(marks),
{
    assert forall|p: Seq<char>| #[trigger] packages_of(marks).contains(p) implies causes_for(
        marks,
        p,
    ).len() > 0 by {
        let i = choose|i: int| 0 <= i < marks.len() && #[trigger] marks[i].package == p;
        lemma_reason(marks, i);
    }
}

proof fn lemma_direct_explained(
    ws: WorkspaceIndex,
    package: Seq<char>,
    file: PathView,
    lines: Seq<usize>,
)
    ensures
        forall|i: int|
            0 <= i < direct_list_marks(ws, package, file, lines).len() ==> (
            #[trigger] direct_list_marks(ws, package, file, lines)[i]).cause is Some
                && direct_list_marks(ws, package, file, lines)[i].package == package,
        direct_list_marks(ws, package, file, lines).len() >= lines.len(),
    decreases lines.len(),
{
    if lines.len() > 0 {
        lemma_direct_explained(ws, package, file, lines.drop_last());
    }
}

/// The owner of a file is explained by the reasons that the file gives it.
proof fn lemma_explained_owner(package: Seq<char>, direct: Seq<Mark>)
    requires
        direct.len() > 0,
        forall|i: int|
            0 <= i < direct.len() ==> (#[trigger] direct[i]).cause is Some && direct[i].package
                == package,
    ensures
        explained(seq![Mark { package, cause: None }] + direct),
{
    let first = seq![Mark { package, cause: None }];
    let all = first + direct;
    assert forall|p: Seq<char>| #[trigger] packages_of(all).contains(p) implies causes_for(
        all,
        p,
    ).len() > 0 by {
        let i = choose|i: int| 0 <= i < all.len() && #[trigger] all[i].package == p;
        if i > 0 {
            assert(all[i] == direct[i - 1]);
        }
        assert(all[1] == direct[0]);
        lemma_reason(all, 1);
    }
}

proof fn lemma_lines_explained(ws: WorkspaceIndex, file: PathView, lines: Seq<usize>)
    requires
        references_are_owned(ws),
    ensures
        explained(line_list_marks(ws, file, lines)),
    decreases lines.len(),
{
    if lines.len() > 0 {
        lemma_lines_explained(ws, file, lines.drop_last());
        line_gives_reasons(ws, file, lines.last());
        lemma_explained_causes(line_trace(ws, file, lines.last()).marks);
        lemma_explained_sum(
            line_list_marks(ws, file, lines.drop_last()),
            line_trace(ws, file, lines.last()).marks,
        );
    }
}

proof fn lemma_symbols_explained(ws: WorkspaceIndex, file: PathView, names: Seq<Seq<char>>)
    requires
        references_are_owned(ws),
    ensures
        explained(symbol_list_marks(ws, file, names)),
    decreases names.len(),
{
    if names.len() > 0 {
        lemma_symbols_explained(ws, file, names.drop_last());
        symbol_gives_reasons(ws, visit(file, names.last()));
        lemma_explained_causes(symbol_trace(ws, visit(file, names.last())).marks);
        lemma_explained_sum(
            symbol_list_marks(ws, file, names.drop_last()),
            symbol_trace(ws, visit(file, names.last())).marks,
        );
    }
}

proof fn lemma_references_explained(
    ws: WorkspaceIndex,
    asset: PathView,
    refs: Seq<AssetReference>,
)
    requires
        references_are_owned(ws),
    ensures
        explained(asset_reference_list_marks(ws, asset, refs)),
    decreases refs.len(),
{
    if refs.len() > 0 {
        let file = refs.last().source_file.full();
        let names = reference_symbols(ws, asset.parts, refs.last());
        let all = asset_reference_marks(ws, asset, refs.last());
        let later = symbol_list_marks(ws, file, names);
        lemma_references_explained(ws, asset, refs.drop_last());
        lemma_symbols_explained(ws, file, names);
        if ws.owner(file.parts) is Some {
            let own = seq![all[0]];
            assert(all =~= own + later);
            lemma_explained_causes(own);
            lemma_explained_sum(own, later);
        } else {
            assert(all =~= later);
        }
        lemma_explained_sum(asset_reference_list_marks(ws, asset, refs.drop_last()), all);
    }
}

proof fn lemma_file_explained(ws: WorkspaceIndex, f: ChangedFile)
    requires
        references_are_owned(ws),
    ensures
        explained(file_marks(ws, f)),
{
    let file = f.file_path.full();
    let lines = f.changed_lines@;
    if ws.is_source(file.parts) {
        if ws.is_analyzed(file.parts) {
            let later = line_list_marks(ws, file, lines);
            lemma_lines_explained(ws, file, lines);
            match ws.owner(file.parts) {
                Some(package) => {
                    let direct = if lines.len() == 0 {
                        entire_marks(package, file)
                    } else {
                        direct_list_marks(ws, package, file, lines)
                    };
                    lemma_direct_explained(ws, package, file, lines);
                    lemma_explained_owner(package, direct);
                    lemma_explained_sum(seq![Mark { package, cause: None }] + direct, later);
                },
                None => {
                    assert(source_marks(ws, f) =~= later);
                },
            }
        }
    } else {
        let refs = asset_references(ws, file.parts);
        let later = asset_reference_list_marks(ws, file, refs);
        lemma_references_explained(ws, file, refs);
        match ws.owner(file.parts) {
            Some(package) => {
                let direct = if lines.len() == 0 {
                    entire_marks(package, file)
                } else {
                    plain_list_marks(package, file, lines)
                };
                lemma_explained_owner(package, direct);
                lemma_explained_sum(seq![Mark { package, cause: None }] + direct, later);
                assert(asset_marks(ws, f) =~= seq![Mark { package, cause: None }] + direct + later);
            },
            None => {
                assert(asset_marks(ws, f) =~= later);
            },
        }
    }
}

proof fn lemma_changes_explained(ws: WorkspaceIndex, files: Seq<ChangedFile>, sources: bool)
    requires
        references_are_owned(ws),
    ensures
        explained(partial_marks(ws, files, sources)),
    decreases files.len(),
{
    if files.len() > 0 {
        let rest = files.drop_last();
        let earlier = partial_marks(ws, rest, sources);
        lemma_changes_explained(ws, rest, sources);
        lemma_file_explained(ws, files.last());
        lemma_explained_sum(earlier, file_marks(ws, files.last()));
        assert(earlier + Seq::<Mark>::empty() =~= earlier);
    }
}

proof fn lemma_dependents_explained(
    name: Seq<char>,
    deps: Seq<Seq<char>>,
    affected: Set<Seq<char>>,
)
    ensures
        forall|i: int|
            0 <= i < dependent_marks(name, deps, affected).len() ==> (#[trigger] dependent_marks(
                name,
                deps,
                affected,
            )[i]).cause is Some,
    decreases deps.len(),
{
    if deps.len() > 0 {
        lemma_dependents_explained(name, deps.drop_last(), affected);
    }
}

proof fn lemma_implicit_explained(projects: Seq<Project>, affected: Set<Seq<char>>)
    ensures
        explained(implicit_marks(projects, affected)),
    decreases projects.len(),
{
    if projects.len() > 0 {
        let name = projects.last().name@;
        let deps = texts(projects.last().implicit_dependencies@);
        lemma_implicit_explained(projects.drop_last(), affected);
        lemma_dependents_explained(name, deps, affected);
        lemma_explained_causes(dependent_marks(name, deps, affected));
        lemma_explained_sum(
            implicit_marks(projects.drop_last(), affected),
            dependent_marks(name, deps, affected),
        );
    }
}

/// Where every symbol that a project refers to lies in a project, a report gives
/// a reason for each affected project.
pub proof fn every_affected_project_is_explained(
    r: AffectedResult,
    projects: Seq<Project>,
    ws: WorkspaceIndex,
    files: Seq<ChangedFile>,
    report: AffectedReport,
    i: int,
)
    requires
        result_shows(r, all_marks(projects, ws, files), true),
        r.report == Some(report),
        references_are_owned(ws),
        0 <= i < report.projects@.len(),
    ensures
        report.projects@[i].causes@.len() > 0,
{
    let marks = all_marks(projects, ws, files);
    let changed = changed_marks(ws, files);
    lemma_changes_explained(ws, files, true);
    lemma_changes_explained(ws, files, false);
    lemma_explained_sum(partial_marks(ws, files, true), partial_marks(ws, files, false));
    lemma_implicit_explained(projects, packages_of(changed));
    lemma_explained_sum(changed, implicit_marks(projects, packages_of(changed)));
    let name = report.projects@[i].name@;
    let names = report_names(report.projects@);
    assert(names[i] == name);
    assert(names.contains(name));
    assert(packages_of(marks).contains(name));
    let all = causes_for(marks, name);
    let shown = cause_views(report.projects@[i].causes@);
    assert(condensed(shown, all));
    lemma_condensed_is_not_empty(shown, all);
}

/// A changed file that counts is a reason for its owner to be affected: where no
/// lines are known, the reason is a change at line zero.
pub proof fn changed_file_is_a_reason_for_its_owner(
    ws: WorkspaceIndex,
    f: ChangedFile,
    package: Seq<char>,
)
    requires
        ws.owner(f.file_path@) == Some(package),
        ws.is_source(f.file_path@) ==> ws.is_analyzed(f.file_path@),
    ensures
        causes_for(file_marks(ws, f), package).len() > 0,
        f.changed_lines@.len() == 0 ==> causes_for(file_marks(ws, f), package)[0]
            == (Cause::DirectChange { file: f.file_path.full(), symbol: None, line: 0 }),
{
    let file = f.file_path.full();
    let lines = f.changed_lines@;
    let all = file_marks(ws, f);
    let first = seq![Mark { package, cause: None }];
    let direct = if lines.len() == 0 {
        entire_marks(package, file)
    } else if ws.is_source(file.parts) {
        direct_list_marks(ws, package, file, lines)
    } else {
        plain_list_marks(package, file, lines)
    };
    lemma_direct_explained(ws, package, file, lines);
    let later = all.skip((1 + direct.len()) as int);
    assert(all =~= first + direct + later);
    marks_add_up(first, direct);
    marks_add_up(first + direct, later);
    assert(first.drop_last() =~= seq![]);
    assert(causes_for(first.drop_last(), package) =~= seq![]);
    assert(causes_for(first, package) =~= seq![]);
    lemma_reason(direct, 0);
    if lines.len() == 0 {
        assert(direct.drop_last() =~= seq![]);
        assert(causes_for(direct.drop_last(), package) =~= seq![]);
        assert(causes_for(direct, package)[0] == direct[0].cause->Some_0);
    }
    assert(causes_for(all, package) == causes_for(first, package) + causes_for(direct, package)
        + causes_for(later, package));
}

/// Every affected name is that of a project in the configuration or of the
/// owner of some file.
pub proof fn affected_projects_are_known(
    projects: Seq<Project>,
    ws: WorkspaceIndex,
    files: Seq<ChangedFile>,
    package: Seq<char>,
)
    requires
        packages_of(all_marks(projects, ws, files)).contains(package),
    ensures
        (exists|i: int| 0 <= i < projects.len() && (#[trigger] projects[i]).name@ == package) || (
        exists|file: Seq<Seq<char>>| #[trigger] ws.owner(file) == Some(package)),
{
    affected_projects_are_determined(projects, ws, files, package);
    if change_affects(ws, files, package) {
        let i = choose|i: int|
            0 <= i < files.len() && file_affects(ws, #[trigger] files[i], package);
        let f = files[i];
        let file = f.file_path@;
        if ws.owner(file) != Some(package) {
            if ws.is_source(file) {
                let lines = f.changed_lines@;
                let k = choose|k: int|
                    0 <= k < lines.len() && packages_of(
                        line_trace(ws, f.file_path.full(), #[trigger] lines[k]).marks,
                    ).contains(package);
                line_affects_the_referring(ws, f.file_path.full(), lines[k], package);
                lemma_affected_is_owner(
                    ws,
                    line_tasks(ws, f.file_path.full(), lines[k]),
                    package,
                );
            } else {
                let refs = asset_references(ws, file);
                let k = choose|k: int|
                    0 <= k < refs.len() && reference_affects(ws, file, #[trigger] refs[k], package);
                let source = refs[k].source_file@;
                let full = refs[k].source_file.full();
                if ws.owner(source) != Some(package) {
                    let names = reference_symbols(ws, file, refs[k]);
                    let n = choose|n: int|
                        0 <= n < names.len() && packages_of(
                            symbol_trace(ws, visit(full, #[trigger] names[n])).marks,
                        ).contains(package);
                    symbol_affects_the_referring(ws, visit(full, names[n]), package);
                    lemma_affected_is_owner(
                        ws,
                        seq![Task::Visit(visit(full, names[n]))],
                        package,
                    );
                }
            }
        }
    }
}

proof fn lemma_affected_is_owner(ws: WorkspaceIndex, todo: Seq<Task>, package: Seq<char>)
    requires
        affected_from(ws, todo, package),
    ensures
        exists|file: Seq<Seq<char>>| #[trigger] ws.owner(file) == Some(package),
{
    let key = choose|key: Key| #[trigger] reaches(ws, todo, key) && refers(ws, package, key);
    let refs = cross_references(ws, key);
    let i = choose|i: int|
        0 <= i < refs.len() && ws.owner((#[trigger] refs[i]).file_path@) == Some(package);
    assert(ws.owner(refs[i].file_path@) == Some(package));
}

/// An asset that nothing refers to affects its owner and no other project by
/// itself; outside every project it affects none.
pub proof fn unreferenced_asset_affects_its_owner_only(
    ws: WorkspaceIndex,
    f: ChangedFile,
    package: Seq<char>,
)
    requires
        !ws.is_source(f.file_path@),
        asset_references(ws, f.file_path@).len() == 0,
    ensures
        file_affects(ws, f, package) <==> ws.owner(f.file_path@) == Some(package),
{
}

/// A source file that the analysis does not cover affects nothing.
pub proof fn unanalyzed_source_file_affects_nothing(
    ws: WorkspaceIndex,
    f: ChangedFile,
    package: Seq<char>,
)
    requires
        ws.is_source(f.file_path@),
        !ws.is_analyzed(f.file_path@),
    ensures
        !file_affects(ws, f, package),
        file_marks(ws, f).len() == 0,
{
}

/// An error in finding the changed files, or in the analysis, is the answer. Where
/// nothing changed, nothing is affected, whatever came of the analysis, and there is no
/// report; any other change has one where it is asked for.
pub proof fn errors_are_the_answer(
    r: Result<AffectedResult, DominoError>,
    projects: Seq<Project>,
    changed: Result<Vec<ChangedFile>, DominoError>,
    workspace: Result<WorkspaceIndex, DominoError>,
    reporting: bool,
)
    requires
        answers(r, projects, changed, workspace, reporting),
    ensures
        changed matches Err(e) ==> r == Err::<AffectedResult, DominoError>(e),
        changed matches Ok(files) && files@.len() == 0 ==> (r matches Ok(result)
            && result.affected_projects@.len() == 0 && result.report is None),
        changed matches Ok(files) && files@.len() > 0 && workspace is Err ==> (r matches Err(e)
            && workspace == Err::<WorkspaceIndex, DominoError>(e)),
        changed matches Ok(files) && files@.len() > 0 && workspace is Ok ==> (r matches Ok(result)
            && (result.report is Some <==> reporting)),
{
}

/// The affected projects are listed in ascending order, each once.
pub proof fn affected_projects_ascend(
    r: AffectedResult,
    marks: Seq<Mark>,
    reporting: bool,
    i: int,
    j: int,
)
    requires
        result_shows(r, marks, reporting),
        0 <= i < j < r.affected_projects@.len(),
    ensures
        lex_less(text_key(r.affected_projects@[i]@), text_key(r.affected_projects@[j]@)),
        r.affected_projects@[i]@ != r.affected_projects@[j]@,
{
    let names = texts(r.affected_projects@);
    assert(names[i] == r.affected_projects@[i]@);
    assert(names[j] == r.affected_projects@[j]@);
    lex_order_is_irreflexive(text_key(names[i]));
}

} // verus!
