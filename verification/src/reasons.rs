//! What holds of the reasons: which of them a change gives a project, and that it
//! gives no others.

use crate::affected::{
    all_marks, asset_marks, asset_name, asset_reference_list_marks, asset_reference_marks,
    changed_marks, dependent_marks, direct_list_marks, direct_marks, entire_marks, file_marks,
    first_import, implicit_marks, line_list_marks, partial_marks, plain_list_marks,
    reference_symbols, result_shows, source_marks, symbol_list_marks,
};
use crate::index::{names_view, symbol_row, Position, WorkspaceIndex};
use crate::laws::{
    affected_projects_are_determined, asset_references, change_affects, file_affects,
    reference_affects,
};
use crate::order::{condensed, condensed_shows_each_cause_once, same_cause};
use crate::path::PathView;
use crate::propagate::{line_tasks, line_trace, marks_add_up, symbol_trace};
use crate::reach::{
    affected_from, cross_references, finds, line_affects_the_referring,
    reached_symbols_give_their_marks, reaches, reaches_mark, reasons_come_from_reached_symbols,
    symbol_affects_the_referring,
};
use crate::state::{causes_for, packages_of};
use crate::text::{contains, texts};
use crate::trace::{
    cross_tasks, declared_name, exported_names, import_cause, local_tasks, other_visits,
    reference_tasks, symbol_tasks, trace, visit, visits, Key, Mark, Task, Visit,
};
use crate::types::{
    cause_views, AffectedReport, AffectedResult, AssetReference, Cause, ChangedFile, Export, Import,
    Project, Reference,
};
use vstd::prelude::*;

verus! {

/// Whether one of the marks gives `package` the reason `cause`.
pub open spec fn gives(marks: Seq<Mark>, package: Seq<char>, cause: Cause) -> bool {
    exists|i: int|
        0 <= i < marks.len() && (#[trigger] marks[i]).package == package && marks[i].cause == Some(
            cause,
        )
}

/// The reasons for a project are those that marks give it, and the marked projects are
/// those that marks name.
pub proof fn marks_give_their_reasons(marks: Seq<Mark>, package: Seq<char>, cause: Cause)
    ensures
        causes_for(marks, package).contains(cause) <==> gives(marks, package, cause),
        packages_of(marks).contains(package) <==> exists|i: int|
            0 <= i < marks.len() && (#[trigger] marks[i]).package == package,
    decreases marks.len(),
{
    if marks.len() > 0 {
        let rest = marks.drop_last();
        let n = marks.len() - 1;
        marks_give_their_reasons(rest, package, cause);
        let earlier = causes_for(rest, package);
        assert(marks[n] == marks.last());
        if gives(rest, package, cause) {
            let i = choose|i: int|
                0 <= i < rest.len() && (#[trigger] rest[i]).package == package && rest[i].cause
                    == Some(cause);
            assert(marks[i] == rest[i]);
        }
        if gives(marks, package, cause) {
            let i = choose|i: int|
                0 <= i < marks.len() && (#[trigger] marks[i]).package == package && marks[i].cause
                    == Some(cause);
            if i < n {
                assert(rest[i] == marks[i]);
            }
        }
        if let Some(last) = marks.last().cause {
            if marks.last().package == package {
                lemma_push_contains(earlier, last, cause);
            }
        }
    }
}

proof fn lemma_push_contains<A>(s: Seq<A>, a: A, b: A)
    ensures
        s.push(a).contains(b) <==> s.contains(b) || a == b,
{
    let all = s.push(a);
    if all.contains(b) {
        let i = choose|i: int| 0 <= i < all.len() && all[i] == b;
        if i < s.len() {
            assert(s[i] == b);
        }
    }
    if s.contains(b) {
        let i = choose|i: int| 0 <= i < s.len() && s[i] == b;
        assert(all[i] == b);
    }
    assert(all[s.len() as int] == a);
}

proof fn lemma_gives_sum(a: Seq<Mark>, b: Seq<Mark>, package: Seq<char>, cause: Cause)
    ensures
        gives(a + b, package, cause) <==> gives(a, package, cause) || gives(b, package, cause),
{
    let ab = a + b;
    if gives(ab, package, cause) {
        let i = choose|i: int|
            0 <= i < ab.len() && (#[trigger] ab[i]).package == package && ab[i].cause == Some(
                cause,
            );
        if i < a.len() {
            assert(a[i] == ab[i]);
        } else {
            assert(b[i - a.len()] == ab[i]);
        }
    }
    if gives(a, package, cause) {
        let i = choose|i: int|
            0 <= i < a.len() && (#[trigger] a[i]).package == package && a[i].cause == Some(cause);
        assert(ab[i] == a[i]);
    }
    if gives(b, package, cause) {
        let i = choose|i: int|
            0 <= i < b.len() && (#[trigger] b[i]).package == package && b[i].cause == Some(cause);
        assert(ab[i + a.len()] == b[i]);
    }
}

proof fn lemma_gives_one(mark: Mark, package: Seq<char>, cause: Cause)
    ensures
        gives(seq![mark], package, cause) <==> mark.package == package && mark.cause == Some(cause),
{
    assert(seq![mark][0] == mark);
}

proof fn lemma_dependent_reasons(
    name: Seq<char>,
    deps: Seq<Seq<char>>,
    affected: Set<Seq<char>>,
    package: Seq<char>,
    cause: Cause,
)
    ensures
        gives(dependent_marks(name, deps, affected), package, cause) <==> package == name && (
        cause matches Cause::ImplicitDependency { depends_on } && deps.contains(depends_on)
            && affected.contains(depends_on)),
    decreases deps.len(),
{
    if deps.len() > 0 {
        let rest = deps.drop_last();
        let d = deps.last();
        lemma_dependent_reasons(name, rest, affected, package, cause);
        assert(deps =~= rest.push(d));
        if let Cause::ImplicitDependency { depends_on } = cause {
            lemma_push_contains(rest, d, depends_on);
        }
        let mark = Mark { package: name, cause: Some(Cause::ImplicitDependency { depends_on: d }) };
        let last = if affected.contains(d) {
            seq![mark]
        } else {
            seq![]
        };
        lemma_gives_sum(dependent_marks(name, rest, affected), last, package, cause);
        lemma_gives_one(mark, package, cause);
    }
}

/// Whether a project of this name lists `dependency` among its implicit dependencies.
pub open spec fn depends_implicitly(
    projects: Seq<Project>,
    name: Seq<char>,
    dependency: Seq<char>,
) -> bool {
    exists|i: int|
        0 <= i < projects.len() && (#[trigger] projects[i]).name@ == name && texts(
            projects[i].implicit_dependencies@,
        ).contains(dependency)
}

/// Implicit dependencies give a project exactly these reasons: each dependency that it
/// lists and that is affected.
pub proof fn implicit_reasons_name_affected_dependencies(
    projects: Seq<Project>,
    affected: Set<Seq<char>>,
    package: Seq<char>,
    cause: Cause,
)
    ensures
        causes_for(implicit_marks(projects, affected), package).contains(cause) <==> (
        cause matches Cause::ImplicitDependency { depends_on } && affected.contains(depends_on)
            && depends_implicitly(projects, package, depends_on)),
        gives(implicit_marks(projects, affected), package, cause) <==> (
        cause matches Cause::ImplicitDependency { depends_on } && affected.contains(depends_on)
            && depends_implicitly(projects, package, depends_on)),
    decreases projects.len(),
{
    marks_give_their_reasons(implicit_marks(projects, affected), package, cause);
    if projects.len() > 0 {
        let rest = projects.drop_last();
        let p = projects.last();
        let n = projects.len() - 1;
        let deps = texts(p.implicit_dependencies@);
        implicit_reasons_name_affected_dependencies(rest, affected, package, cause);
        lemma_dependent_reasons(p.name@, deps, affected, package, cause);
        lemma_gives_sum(
            implicit_marks(rest, affected),
            dependent_marks(p.name@, deps, affected),
            package,
            cause,
        );
        assert(projects[n] == p);
        if let Cause::ImplicitDependency { depends_on } = cause {
            if depends_implicitly(rest, package, depends_on) {
                let i = choose|i: int|
                    0 <= i < rest.len() && (#[trigger] rest[i]).name@ == package && texts(
                        rest[i].implicit_dependencies@,
                    ).contains(depends_on);
                assert(projects[i] == rest[i]);
            }
            if depends_implicitly(projects, package, depends_on) {
                let i = choose|i: int|
                    0 <= i < projects.len() && (#[trigger] projects[i]).name@ == package && texts(
                        projects[i].implicit_dependencies@,
                    ).contains(depends_on);
                if i < n {
                    assert(rest[i] == projects[i]);
                }
            }
        }
    }
}

/// Whether a changed file is itself a reason: one for each changed line, and on a line
/// of a source file one for each symbol found there; where nothing is known of lines,
/// one at line zero.
pub open spec fn is_direct_reason(ws: WorkspaceIndex, f: ChangedFile, cause: Cause) -> bool {
    let path = f.file_path.full();
    &&& cause matches Cause::DirectChange { file, symbol, line }
    &&& file == path
    &&& if f.changed_lines@.len() == 0 {
        symbol is None && line == 0
    } else {
        f.changed_lines@.contains(line) && match symbol {
            Some(name) => ws.is_source(path.parts) && finds(ws.symbols_at(path.parts, line, 0), name),
            None => ws.is_source(path.parts) ==> match ws.symbols_at(path.parts, line, 0) {
                Ok(names) => names.len() == 0,
                Err(_) => true,
            },
        }
    }
}

proof fn lemma_direct_line(
    ws: WorkspaceIndex,
    owner: Seq<char>,
    path: PathView,
    line: usize,
    package: Seq<char>,
    cause: Cause,
)
    ensures
        gives(direct_marks(ws, owner, path, line), package, cause) <==> package == owner && (
        cause matches Cause::DirectChange { file, symbol, line: l } && file == path && l == line
            && match symbol {
            Some(name) => finds(ws.symbols_at(path.parts, line, 0), name),
            None => match ws.symbols_at(path.parts, line, 0) {
                Ok(names) => names.len() == 0,
                Err(_) => true,
            },
        }),
{
    let marks = direct_marks(ws, owner, path, line);
    match ws.symbols_at(path.parts, line, 0) {
        Ok(names) if names.len() > 0 => {
            assert forall|i: int| 0 <= i < names.len() implies #[trigger] marks[i] == (Mark {
                package: owner,
                cause: Some(Cause::DirectChange { file: path, symbol: Some(names[i]), line }),
            }) by {}
            if gives(marks, package, cause) {
                let i = choose|i: int|
                    0 <= i < marks.len() && (#[trigger] marks[i]).package == package
                        && marks[i].cause == Some(cause);
                assert(names.contains(names[i]));
            }
            if package == owner {
                if let Cause::DirectChange { file, symbol: Some(name), line: l } = cause {
                    if file == path && l == line && names.contains(name) {
                        let i = choose|i: int| 0 <= i < names.len() && names[i] == name;
                        assert(marks[i].package == package);
                    }
                }
            }
        },
        _ => {
            let mark = Mark {
                package: owner,
                cause: Some(Cause::DirectChange { file: path, symbol: None, line }),
            };
            assert(marks =~= seq![mark]);
            lemma_gives_one(mark, package, cause);
        },
    }
}

proof fn lemma_direct_lines(
    ws: WorkspaceIndex,
    owner: Seq<char>,
    path: PathView,
    lines: Seq<usize>,
    package: Seq<char>,
    cause: Cause,
)
    ensures
        gives(direct_list_marks(ws, owner, path, lines), package, cause) <==> package == owner && (
        cause matches Cause::DirectChange { file, symbol, line } && file == path && lines.contains(
            line,
        ) && match symbol {
            Some(name) => finds(ws.symbols_at(path.parts, line, 0), name),
            None => match ws.symbols_at(path.parts, line, 0) {
                Ok(names) => names.len() == 0,
                Err(_) => true,
            },
        }),
    decreases lines.len(),
{
    if lines.len() > 0 {
        let rest = lines.drop_last();
        lemma_direct_lines(ws, owner, path, rest, package, cause);
        lemma_direct_line(ws, owner, path, lines.last(), package, cause);
        lemma_gives_sum(
            direct_list_marks(ws, owner, path, rest),
            direct_marks(ws, owner, path, lines.last()),
            package,
            cause,
        );
        assert(lines =~= rest.push(lines.last()));
        if let Cause::DirectChange { line, .. } = cause {
            lemma_push_contains(rest, lines.last(), line);
        }
    }
}

proof fn lemma_plain_lines(
    owner: Seq<char>,
    path: PathView,
    lines: Seq<usize>,
    package: Seq<char>,
    cause: Cause,
)
    ensures
        gives(plain_list_marks(owner, path, lines), package, cause) <==> package == owner && (
        cause matches Cause::DirectChange { file, symbol, line } && file == path && symbol is None
            && lines.contains(line)),
{
    let marks = plain_list_marks(owner, path, lines);
    if gives(marks, package, cause) {
        let i = choose|i: int|
            0 <= i < marks.len() && (#[trigger] marks[i]).package == package && marks[i].cause
                == Some(cause);
        assert(lines.contains(lines[i]));
    }
    if package == owner {
        if let Cause::DirectChange { file, symbol: None, line } = cause {
            if file == path && lines.contains(line) {
                let i = choose|i: int| 0 <= i < lines.len() && lines[i] == line;
                assert(marks[i].package == package && marks[i].cause == Some(cause));
            }
        }
    }
}

/// What a reference to `v` in another file marks: the owner of that file.
proof fn lemma_reference_mark(ws: WorkspaceIndex, v: Visit, r: Reference, m: Mark)
    ensures
        reference_tasks(ws, v, r).contains(Task::Mark(m)) <==> ws.owner(r.file_path@) == Some(
            m.package,
        ) && m.cause == import_cause(ws, v, r.file_path.full()),
{
    let file = r.file_path.full();
    let all = reference_tasks(ws, v, r);
    let follow = if r.line == 0 && r.column == 0 {
        visits(file, exported_names(ws.exports(r.file_path@)))
    } else {
        match ws.symbols_at(r.file_path@, r.line, r.column) {
            Ok(names) => visits(file, names),
            Err(_) => seq![],
        }
    };
    assert forall|i: int| 0 <= i < follow.len() implies !(#[trigger] follow[i] is Mark) by {}
    match ws.owner(r.file_path@) {
        Some(package) => {
            let mark = Mark { package, cause: import_cause(ws, v, file) };
            assert(all == seq![Task::Mark(mark)] + follow);
            assert(all[0] == Task::Mark(mark));
            if all.contains(Task::Mark(m)) {
                let i = choose|i: int| 0 <= i < all.len() && all[i] == Task::Mark(m);
                if i > 0 {
                    assert(follow[i - 1] is Mark);
                }
            }
        },
        None => {
            assert(all =~= follow);
        },
    }
}

proof fn lemma_sum_contains<A>(a: Seq<A>, b: Seq<A>, x: A)
    ensures
        (a + b).contains(x) <==> a.contains(x) || b.contains(x),
{
    let ab = a + b;
    if ab.contains(x) {
        let i = choose|i: int| 0 <= i < ab.len() && ab[i] == x;
        if i < a.len() {
            assert(a[i] == x);
        } else {
            assert(b[i - a.len()] == x);
        }
    }
    if a.contains(x) {
        let i = choose|i: int| 0 <= i < a.len() && a[i] == x;
        assert(ab[i] == x);
    }
    if b.contains(x) {
        let i = choose|i: int| 0 <= i < b.len() && b[i] == x;
        assert(ab[i + a.len()] == x);
    }
}

proof fn lemma_cross_marks(ws: WorkspaceIndex, v: Visit, refs: Seq<Reference>, m: Mark)
    ensures
        cross_tasks(ws, v, refs).contains(Task::Mark(m)) <==> exists|i: int|
            0 <= i < refs.len() && ws.owner((#[trigger] refs[i]).file_path@) == Some(m.package)
                && m.cause == import_cause(ws, v, refs[i].file_path.full()),
    decreases refs.len(),
{
    if refs.len() > 0 {
        let rest = refs.drop_last();
        let n = refs.len() - 1;
        lemma_cross_marks(ws, v, rest, m);
        lemma_reference_mark(ws, v, refs.last(), m);
        lemma_sum_contains(
            cross_tasks(ws, v, rest),
            reference_tasks(ws, v, refs.last()),
            Task::Mark(m),
        );
        assert(refs[n] == refs.last());
        if exists|i: int|
            0 <= i < rest.len() && ws.owner((#[trigger] rest[i]).file_path@) == Some(m.package)
                && m.cause == import_cause(ws, v, rest[i].file_path.full()) {
            let i = choose|i: int|
                0 <= i < rest.len() && ws.owner((#[trigger] rest[i]).file_path@) == Some(m.package)
                    && m.cause == import_cause(ws, v, rest[i].file_path.full());
            assert(refs[i] == rest[i]);
        }
        if exists|i: int|
            0 <= i < refs.len() && ws.owner((#[trigger] refs[i]).file_path@) == Some(m.package)
                && m.cause == import_cause(ws, v, refs[i].file_path.full()) {
            let i = choose|i: int|
                0 <= i < refs.len() && ws.owner((#[trigger] refs[i]).file_path@) == Some(m.package)
                    && m.cause == import_cause(ws, v, refs[i].file_path.full());
            if i < n {
                assert(rest[i] == refs[i]);
            }
        }
    }
}

proof fn lemma_other_visits_mark_nothing(v: Visit, names: Seq<Seq<char>>, m: Mark)
    ensures
        !other_visits(v, names).contains(Task::Mark(m)),
    decreases names.len(),
{
    if names.len() > 0 {
        lemma_other_visits_mark_nothing(v, names.drop_last(), m);
        if names.last() != v.name {
            lemma_push_contains(
                other_visits(v, names.drop_last()),
                Task::Visit(visit(v.file, names.last())),
                Task::Mark(m),
            );
        }
    }
}

proof fn lemma_local_marks_nothing(
    ws: WorkspaceIndex,
    v: Visit,
    refs: Seq<Position>,
    m: Mark,
)
    ensures
        !local_tasks(ws, v, refs).contains(Task::Mark(m)),
    decreases refs.len(),
{
    if refs.len() > 0 {
        let rest = refs.drop_last();
        lemma_local_marks_nothing(ws, v, rest, m);
        let last = match ws.symbols_at(v.file.parts, refs.last().line, refs.last().column) {
            Ok(names) => other_visits(v, names),
            Err(e) => seq![Task::Fail(e)],
        };
        if let Ok(names) = ws.symbols_at(v.file.parts, refs.last().line, refs.last().column) {
            lemma_other_visits_mark_nothing(v, names, m);
        }
        lemma_sum_contains(local_tasks(ws, v, rest), last, Task::Mark(m));
    }
}

/// Following a symbol marks exactly the owners of the files that refer to it. The
/// reason is an import of that symbol, from the project that owns its file, in the file
/// that refers to it; there is none where no project owns its file.
pub proof fn imports_are_the_reason(ws: WorkspaceIndex, v: Visit, m: Mark)
    ensures
        symbol_tasks(ws, v).contains(Task::Mark(m)) <==> exists|i: int|
            0 <= i < cross_references(ws, v.key()).len() && ws.owner(
                (#[trigger] cross_references(ws, v.key())[i]).file_path@,
            ) == Some(m.package) && m.cause == match ws.owner(v.file.parts) {
                Some(source_project) => Some(
                    Cause::ImportedSymbol {
                        source_project,
                        symbol: v.name,
                        via_file: cross_references(ws, v.key())[i].file_path.full(),
                        source_file: v.file,
                    },
                ),
                None => None,
            },
{
    let refs = cross_references(ws, v.key());
    let t = Task::Mark(m);
    lemma_cross_marks(ws, v, refs, m);
    match symbol_row(ws.symbols@, v.file.parts, v.name) {
        None => {},
        Some(row) => {
            let local = match row.local_references {
                Ok(refs) => local_tasks(ws, v, refs@),
                Err(e) => seq![Task::Fail(e@)],
            };
            if let Ok(refs) = row.local_references {
                lemma_local_marks_nothing(ws, v, refs@, m);
            }
            assert(!local.contains(t));
            match row.cross_file_references {
                Err(e) => {
                    lemma_sum_contains(local, seq![Task::Fail(e@)], t);
                },
                Ok(list) => {
                    let inner = if list@.len() == 0 && !row.is_exported {
                        match names_view(row.exported_users) {
                            Ok(names) => visits(v.file, names),
                            Err(e) => seq![Task::Fail(e)],
                        }
                    } else {
                        seq![]
                    };
                    assert(!inner.contains(t));
                    lemma_sum_contains(inner, cross_tasks(ws, v, list@), t);
                    lemma_sum_contains(local, inner + cross_tasks(ws, v, list@), t);
                },
            }
        },
    }
}

/// Whether a mark is one that an import of a symbol gives.
spec fn is_import_mark(m: Mark) -> bool {
    m.cause matches Some(cause) ==> cause is ImportedSymbol
}

proof fn lemma_trace_gives_imports(ws: WorkspaceIndex, todo: Seq<Task>, m: Mark)
    requires
        trace(ws, todo, Set::empty()).marks.contains(m),
        forall|i: int| 0 <= i < todo.len() ==> !(#[trigger] todo[i] is Mark),
    ensures
        is_import_mark(m),
{
    reasons_come_from_reached_symbols(ws, todo, m);
    if todo.contains(Task::Mark(m)) {
        let i = choose|i: int| 0 <= i < todo.len() && todo[i] == Task::Mark(m);
        assert(todo[i] is Mark);
    }
    assert(reaches_mark(ws, todo, m));
    let v = choose|v: Visit| #[trigger]
        symbol_tasks(ws, v).contains(Task::Mark(m)) && reaches(ws, todo, v.key());
    imports_are_the_reason(ws, v, m);
}

proof fn lemma_line_gives_imports(
    ws: WorkspaceIndex,
    path: PathView,
    lines: Seq<usize>,
    package: Seq<char>,
    cause: Cause,
)
    ensures
        gives(line_list_marks(ws, path, lines), package, cause) ==> cause is ImportedSymbol,
    decreases lines.len(),
{
    if lines.len() > 0 {
        let rest = lines.drop_last();
        let marks = line_trace(ws, path, lines.last()).marks;
        lemma_line_gives_imports(ws, path, rest, package, cause);
        lemma_gives_sum(line_list_marks(ws, path, rest), marks, package, cause);
        if gives(marks, package, cause) {
            let i = choose|i: int|
                0 <= i < marks.len() && (#[trigger] marks[i]).package == package && marks[i].cause
                    == Some(cause);
            assert(marks.contains(marks[i]));
            lemma_trace_gives_imports(ws, line_tasks(ws, path, lines.last()), marks[i]);
        }
    }
}

proof fn lemma_symbol_gives_imports(
    ws: WorkspaceIndex,
    path: PathView,
    names: Seq<Seq<char>>,
    package: Seq<char>,
    cause: Cause,
)
    ensures
        gives(symbol_list_marks(ws, path, names), package, cause) ==> cause is ImportedSymbol,
    decreases names.len(),
{
    if names.len() > 0 {
        let rest = names.drop_last();
        let v = visit(path, names.last());
        let marks = symbol_trace(ws, v).marks;
        lemma_symbol_gives_imports(ws, path, rest, package, cause);
        lemma_gives_sum(symbol_list_marks(ws, path, rest), marks, package, cause);
        if gives(marks, package, cause) {
            let i = choose|i: int|
                0 <= i < marks.len() && (#[trigger] marks[i]).package == package && marks[i].cause
                    == Some(cause);
            assert(marks.contains(marks[i]));
            lemma_trace_gives_imports(ws, seq![Task::Visit(v)], marks[i]);
        }
    }
}

/// Whether a reference to a changed asset is the reason `cause`.
pub open spec fn is_asset_reason(asset: PathView, r: AssetReference, cause: Cause) -> bool {
    cause == (Cause::AssetChange {
        asset_file: asset,
        referenced_in: r.source_file.full(),
        line: r.line,
    })
}

proof fn lemma_references_give(
    ws: WorkspaceIndex,
    asset: PathView,
    refs: Seq<AssetReference>,
    package: Seq<char>,
    cause: Cause,
)
    requires
        !(cause is ImportedSymbol),
    ensures
        gives(asset_reference_list_marks(ws, asset, refs), package, cause) <==> exists|i: int|
            0 <= i < refs.len() && ws.owner((#[trigger] refs[i]).source_file@) == Some(package)
                && is_asset_reason(asset, refs[i], cause),
    decreases refs.len(),
{
    if refs.len() > 0 {
        let rest = refs.drop_last();
        let r = refs.last();
        let n = refs.len() - 1;
        let file = r.source_file.full();
        lemma_references_give(ws, asset, rest, package, cause);
        let later = symbol_list_marks(ws, file, reference_symbols(ws, asset.parts, r));
        lemma_symbol_gives_imports(
            ws,
            file,
            reference_symbols(ws, asset.parts, r),
            package,
            cause,
        );
        let own = match ws.owner(file.parts) {
            Some(owner) => {
                let mark = Mark {
                    package: owner,
                    cause: Some(
                        Cause::AssetChange { asset_file: asset, referenced_in: file, line: r.line },
                    ),
                };
                lemma_gives_one(mark, package, cause);
                seq![mark]
            },
            None => seq![],
        };
        assert(asset_reference_marks(ws, asset, r) =~= own + later);
        lemma_gives_sum(own, later, package, cause);
        lemma_gives_sum(
            asset_reference_list_marks(ws, asset, rest),
            asset_reference_marks(ws, asset, r),
            package,
            cause,
        );
        assert(refs[n] == r);
        assert forall|i: int| 0 <= i < rest.len() implies #[trigger] rest[i] == refs[i] by {}
        if exists|i: int|
            0 <= i < rest.len() && ws.owner((#[trigger] rest[i]).source_file@) == Some(package)
                && is_asset_reason(asset, rest[i], cause) {
            let i = choose|i: int|
                0 <= i < rest.len() && ws.owner((#[trigger] rest[i]).source_file@) == Some(package)
                    && is_asset_reason(asset, rest[i], cause);
            assert(refs[i] == rest[i]);
        }
        if exists|i: int|
            0 <= i < refs.len() && ws.owner((#[trigger] refs[i]).source_file@) == Some(package)
                && is_asset_reason(asset, refs[i], cause) {
            let i = choose|i: int|
                0 <= i < refs.len() && ws.owner((#[trigger] refs[i]).source_file@) == Some(package)
                    && is_asset_reason(asset, refs[i], cause);
            if i < n {
                assert(rest[i] == refs[i]);
            }
        }
    }
}

/// Whether a changed file gives `package` the reason `cause`, other than by imports.
pub open spec fn file_gives(
    ws: WorkspaceIndex,
    f: ChangedFile,
    package: Seq<char>,
    cause: Cause,
) -> bool {
    let path = f.file_path@;
    ||| ws.owner(path) == Some(package) && (ws.is_source(path) ==> ws.is_analyzed(path))
        && is_direct_reason(ws, f, cause)
    ||| !ws.is_source(path) && exists|i: int|
        0 <= i < asset_references(ws, path).len() && ws.owner(
            (#[trigger] asset_references(ws, path)[i]).source_file@,
        ) == Some(package) && is_asset_reason(
            f.file_path.full(),
            asset_references(ws, path)[i],
            cause,
        )
}

proof fn lemma_own_gives(
    owner: Seq<char>,
    direct: Seq<Mark>,
    later: Seq<Mark>,
    package: Seq<char>,
    cause: Cause,
)
    ensures
        gives(seq![Mark { package: owner, cause: None }] + direct + later, package, cause) <==> gives(
            direct,
            package,
            cause,
        ) || gives(later, package, cause),
{
    let mark = Mark { package: owner, cause: None };
    lemma_gives_one(mark, package, cause);
    lemma_gives_sum(seq![mark], direct, package, cause);
    lemma_gives_sum(seq![mark] + direct, later, package, cause);
}

proof fn lemma_file_gives(ws: WorkspaceIndex, f: ChangedFile, package: Seq<char>, cause: Cause)
    requires
        !(cause is ImportedSymbol),
    ensures
        gives(file_marks(ws, f), package, cause) <==> file_gives(ws, f, package, cause),
{
    let path = f.file_path.full();
    let lines = f.changed_lines@;
    let zero = seq![0usize];
    assert(zero[0] == 0);
    if ws.is_source(path.parts) {
        if ws.is_analyzed(path.parts) {
            let later = line_list_marks(ws, path, lines);
            lemma_line_gives_imports(ws, path, lines, package, cause);
            match ws.owner(path.parts) {
                Some(owner) => {
                    let direct = if lines.len() == 0 {
                        entire_marks(owner, path)
                    } else {
                        direct_list_marks(ws, owner, path, lines)
                    };
                    lemma_plain_lines(owner, path, zero, package, cause);
                    lemma_direct_lines(ws, owner, path, lines, package, cause);
                    lemma_own_gives(owner, direct, later, package, cause);
                    assert(source_marks(ws, f) == seq![Mark { package: owner, cause: None }]
                        + direct + later);
                },
                None => {
                    assert(source_marks(ws, f) =~= later);
                },
            }
        }
    } else {
        let refs = asset_references(ws, path.parts);
        let later = asset_reference_list_marks(ws, path, refs);
        lemma_references_give(ws, path, refs, package, cause);
        assert(asset_reference_list_marks(ws, path, seq![]) =~= seq![]);
        match ws.owner(path.parts) {
            Some(owner) => {
                let direct = if lines.len() == 0 {
                    entire_marks(owner, path)
                } else {
                    plain_list_marks(owner, path, lines)
                };
                lemma_plain_lines(owner, path, zero, package, cause);
                lemma_plain_lines(owner, path, lines, package, cause);
                lemma_own_gives(owner, direct, later, package, cause);
                assert(asset_marks(ws, f) == seq![Mark { package: owner, cause: None }] + direct
                    + later);
            },
            None => {
                assert(asset_marks(ws, f) =~= later);
            },
        }
    }
}

proof fn lemma_partial_gives(
    ws: WorkspaceIndex,
    files: Seq<ChangedFile>,
    sources: bool,
    package: Seq<char>,
    cause: Cause,
)
    requires
        !(cause is ImportedSymbol),
    ensures
        gives(partial_marks(ws, files, sources), package, cause) <==> exists|i: int|
            0 <= i < files.len() && ws.is_source((#[trigger] files[i]).file_path@) == sources
                && file_gives(ws, files[i], package, cause),
    decreases files.len(),
{
    if files.len() > 0 {
        let rest = files.drop_last();
        let f = files.last();
        let n = files.len() - 1;
        lemma_partial_gives(ws, rest, sources, package, cause);
        lemma_file_gives(ws, f, package, cause);
        let last = if ws.is_source(f.file_path@) == sources {
            file_marks(ws, f)
        } else {
            seq![]
        };
        lemma_gives_sum(partial_marks(ws, rest, sources), last, package, cause);
        assert(files[n] == f);
        if exists|i: int|
            0 <= i < rest.len() && ws.is_source((#[trigger] rest[i]).file_path@) == sources
                && file_gives(ws, rest[i], package, cause) {
            let i = choose|i: int|
                0 <= i < rest.len() && ws.is_source((#[trigger] rest[i]).file_path@) == sources
                    && file_gives(ws, rest[i], package, cause);
            assert(files[i] == rest[i]);
        }
        if exists|i: int|
            0 <= i < files.len() && ws.is_source((#[trigger] files[i]).file_path@) == sources
                && file_gives(ws, files[i], package, cause) {
            let i = choose|i: int|
                0 <= i < files.len() && ws.is_source((#[trigger] files[i]).file_path@) == sources
                    && file_gives(ws, files[i], package, cause);
            if i < n {
                assert(rest[i] == files[i]);
            }
        }
    }
}

/// The reasons of a change, imports aside, are exactly these: a changed file of the
/// project itself, a reference of the project to a changed asset, and an implicit
/// dependency on a project that the change affects.
pub proof fn reasons_are_what_changed(
    projects: Seq<Project>,
    ws: WorkspaceIndex,
    files: Seq<ChangedFile>,
    package: Seq<char>,
    cause: Cause,
)
    requires
        !(cause is ImportedSymbol),
    ensures
        causes_for(all_marks(projects, ws, files), package).contains(cause) <==> (exists|i: int|
            0 <= i < files.len() && file_gives(ws, #[trigger] files[i], package, cause)) || (
        cause matches Cause::ImplicitDependency { depends_on } && packages_of(
            changed_marks(ws, files),
        ).contains(depends_on) && depends_implicitly(projects, package, depends_on)),
{
    let changed = changed_marks(ws, files);
    let a = partial_marks(ws, files, true);
    let b = partial_marks(ws, files, false);
    marks_give_their_reasons(all_marks(projects, ws, files), package, cause);
    implicit_reasons_name_affected_dependencies(projects, packages_of(changed), package, cause);
    lemma_gives_sum(changed, implicit_marks(projects, packages_of(changed)), package, cause);
    lemma_gives_sum(a, b, package, cause);
    lemma_partial_gives(ws, files, true, package, cause);
    lemma_partial_gives(ws, files, false, package, cause);
    if exists|i: int| 0 <= i < files.len() && file_gives(ws, #[trigger] files[i], package, cause) {
        let i = choose|i: int|
            0 <= i < files.len() && file_gives(ws, #[trigger] files[i], package, cause);
        assert(ws.is_source(files[i].file_path@) == true || ws.is_source(files[i].file_path@)
            == false);
    }
}

/// The import of an asset is the first whose specifier holds the name of the asset.
pub proof fn first_import_holds_the_name(imports: Seq<Import>, name: Seq<char>)
    ensures
        first_import(imports, name) is None <==> forall|i: int|
            0 <= i < imports.len() ==> !contains((#[trigger] imports[i]).from_module@, name),
        forall|i: int|
            0 <= i < imports.len() && contains((#[trigger] imports[i]).from_module@, name) && (
            forall|j: int|
                0 <= j < i ==> !contains((#[trigger] imports[j]).from_module@, name))
                ==> first_import(imports, name) == Some(imports[i].local_name@),
    decreases imports.len(),
{
    if imports.len() > 0 && !contains(imports[0].from_module@, name) {
        let rest = imports.drop_first();
        first_import_holds_the_name(rest, name);
        assert forall|i: int| 0 <= i < rest.len() implies #[trigger] rest[i] == imports[i + 1] by {}
        assert forall|i: int|
            0 <= i < imports.len() && contains((#[trigger] imports[i]).from_module@, name) && (
            forall|j: int|
                0 <= j < i ==> !contains(
                    (#[trigger] imports[j]).from_module@,
                    name,
                )) implies first_import(imports, name) == Some(imports[i].local_name@) by {
            assert(i > 0);
            assert(rest[i - 1] == imports[i]);
            assert forall|j: int| 0 <= j < i - 1 implies !contains(
                (#[trigger] rest[j]).from_module@,
                name,
            ) by {
                assert(rest[j] == imports[j + 1]);
            }
        }
        if first_import(imports, name) is None {
            assert forall|i: int| 0 <= i < imports.len() implies !contains(
                (#[trigger] imports[i]).from_module@,
                name,
            ) by {
                if i > 0 {
                    assert(rest[i - 1] == imports[i]);
                }
            }
        } else {
            assert(exists|i: int|
                0 <= i < rest.len() && contains((#[trigger] rest[i]).from_module@, name));
            let i = choose|i: int|
                0 <= i < rest.len() && contains((#[trigger] rest[i]).from_module@, name);
            assert(contains(imports[i + 1].from_module@, name));
        }
    }
}

/// An asset goes by its last component: the directories do not matter.
pub proof fn asset_goes_by_its_file_name(dir: Seq<Seq<char>>, name: Seq<char>)
    requires
        name != seq!['/'],
        name != seq!['.'],
        name != seq!['.', '.'],
    ensures
        asset_name(dir.push(name)) == name,
{
    assert(dir.push(name).last() == name);
}

/// A file declares and exports exactly the names of its exports that it does not only
/// pass on: the local name of each, or the exported one where there is no other.
pub proof fn exported_names_are_declared(exports: Seq<Export>, name: Seq<char>)
    ensures
        exported_names(exports).contains(name) <==> exists|i: int|
            0 <= i < exports.len() && (#[trigger] exports[i]).re_export_from is None
                && match exports[i].local_name {
                Some(local) => local@ == name,
                None => exports[i].exported_name@ == name,
            },
    decreases exports.len(),
{
    if exports.len() > 0 {
        let rest = exports.drop_last();
        let n = exports.len() - 1;
        let e = exports.last();
        exported_names_are_declared(rest, name);
        if e.re_export_from is None {
            lemma_push_contains(exported_names(rest), declared_name(e), name);
        }
        assert(exports[n] == e);
        assert forall|i: int| 0 <= i < n implies #[trigger] rest[i] == exports[i] by {}
        if exported_names(rest).contains(name) {
            let i = choose|i: int|
                0 <= i < rest.len() && (#[trigger] rest[i]).re_export_from is None
                    && match rest[i].local_name {
                    Some(local) => local@ == name,
                    None => rest[i].exported_name@ == name,
                };
            assert(exports[i] == rest[i]);
        }
        if exists|i: int|
            0 <= i < exports.len() && (#[trigger] exports[i]).re_export_from is None
                && match exports[i].local_name {
                Some(local) => local@ == name,
                None => exports[i].exported_name@ == name,
            } {
            let i = choose|i: int|
                0 <= i < exports.len() && (#[trigger] exports[i]).re_export_from is None
                    && match exports[i].local_name {
                    Some(local) => local@ == name,
                    None => exports[i].exported_name@ == name,
                };
            if i < n {
                assert(rest[i] == exports[i]);
            }
        }
    }
}

/// A changed asset that a file imports acts through every exported symbol there that
/// uses the import, and through no other. Where none uses it, it acts through the
/// imported name; where the users cannot be found, through nothing.
pub proof fn imported_asset_acts_through_every_user(
    ws: WorkspaceIndex,
    asset: Seq<Seq<char>>,
    r: AssetReference,
    local: Seq<char>,
    name: Seq<char>,
)
    requires
        first_import(ws.imports(r.source_file@), asset_name(asset)) == Some(local),
    ensures
        reference_symbols(ws, asset, r).contains(name) <==> match ws.exported_users(
            r.source_file@,
            local,
        ) {
            Ok(users) => users.contains(name) || (users.len() == 0 && name == local),
            Err(_) => false,
        },
{
    assert(seq![local][0] == local);
    assert(seq![local].contains(name) <==> name == local);
}

/// A changed asset that a file refers to without an import acts through every symbol
/// that the reference stands in, and through no other. Where it stands in none, it acts
/// through all that the file declares and exports; where that cannot be found, through
/// nothing.
pub proof fn named_asset_acts_through_its_surroundings(
    ws: WorkspaceIndex,
    asset: Seq<Seq<char>>,
    r: AssetReference,
    name: Seq<char>,
)
    requires
        first_import(ws.imports(r.source_file@), asset_name(asset)) is None,
    ensures
        reference_symbols(ws, asset, r).contains(name) <==> match ws.symbols_at(
            r.source_file@,
            r.line,
            r.column,
        ) {
            Ok(names) => names.contains(name) || (names.len() == 0 && exists|i: int|
                0 <= i < ws.exports(r.source_file@).len() && (#[trigger] ws.exports(
                    r.source_file@,
                )[i]).re_export_from is None && match ws.exports(r.source_file@)[i].local_name {
                    Some(local) => local@ == name,
                    None => ws.exports(r.source_file@)[i].exported_name@ == name,
                }),
            Err(_) => false,
        },
{
    exported_names_are_declared(ws.exports(r.source_file@), name);
}

/// Where no query fails, each file of a project that refers to a reached symbol is a
/// reason for the project: it imports that symbol from the project that owns it.
pub proof fn reached_symbols_are_reasons(
    ws: WorkspaceIndex,
    todo: Seq<Task>,
    key: Key,
    i: int,
    source_project: Seq<char>,
    package: Seq<char>,
)
    requires
        trace(ws, todo, Set::empty()).failure is None,
        reaches(ws, todo, key),
        ws.owner(key.0) == Some(source_project),
        0 <= i < cross_references(ws, key).len(),
        ws.owner(cross_references(ws, key)[i].file_path@) == Some(package),
    ensures
        exists|source_file: PathView|
            source_file.parts == key.0 && #[trigger] causes_for(
                trace(ws, todo, Set::empty()).marks,
                package,
            ).contains(
                Cause::ImportedSymbol {
                    source_project,
                    symbol: key.1,
                    via_file: cross_references(ws, key)[i].file_path.full(),
                    source_file,
                },
            ),
{
    let marks = trace(ws, todo, Set::empty()).marks;
    reached_symbols_give_their_marks(ws, todo, key);
    let v = choose|v: Visit| #[trigger]
        v.key() == key && forall|m: Mark| #[trigger]
            symbol_tasks(ws, v).contains(Task::Mark(m)) ==> marks.contains(m);
    let cause = Cause::ImportedSymbol {
        source_project,
        symbol: key.1,
        via_file: cross_references(ws, key)[i].file_path.full(),
        source_file: v.file,
    };
    let m = Mark { package, cause: Some(cause) };
    assert(v.key() == key);
    imports_are_the_reason(ws, v, m);
    assert(cross_references(ws, v.key())[i].file_path@ == cross_references(ws, key)[i].file_path@);
    assert(symbol_tasks(ws, v).contains(Task::Mark(m)));
    let n = choose|n: int| 0 <= n < marks.len() && marks[n] == m;
    assert(marks[n].package == package && marks[n].cause == Some(cause));
    marks_give_their_reasons(marks, package, cause);
    assert(causes_for(marks, package).contains(cause));
}

/// A project is given the import of a symbol as a reason only where the symbol is
/// reached and a file of the project refers to it.
pub proof fn import_reasons_are_reached(
    ws: WorkspaceIndex,
    todo: Seq<Task>,
    package: Seq<char>,
    cause: Cause,
)
    requires
        forall|i: int| 0 <= i < todo.len() ==> !(#[trigger] todo[i] is Mark),
        causes_for(trace(ws, todo, Set::empty()).marks, package).contains(cause),
    ensures
        cause matches Cause::ImportedSymbol { source_project, symbol, via_file, source_file } && {
            let key = (source_file.parts, symbol);
            &&& reaches(ws, todo, key)
            &&& ws.owner(source_file.parts) == Some(source_project)
            &&& exists|i: int|
                0 <= i < cross_references(ws, key).len() && (#[trigger] cross_references(
                    ws,
                    key,
                )[i]).file_path.full() == via_file && ws.owner(
                    cross_references(ws, key)[i].file_path@,
                ) == Some(package)
        },
{
    let marks = trace(ws, todo, Set::empty()).marks;
    marks_give_their_reasons(marks, package, cause);
    let n = choose|n: int|
        0 <= n < marks.len() && (#[trigger] marks[n]).package == package && marks[n].cause == Some(
            cause,
        );
    let m = marks[n];
    assert(marks.contains(m));
    reasons_come_from_reached_symbols(ws, todo, m);
    if todo.contains(Task::Mark(m)) {
        let i = choose|i: int| 0 <= i < todo.len() && todo[i] == Task::Mark(m);
        assert(todo[i] is Mark);
    }
    let v = choose|v: Visit| #[trigger]
        symbol_tasks(ws, v).contains(Task::Mark(m)) && reaches(ws, todo, v.key());
    imports_are_the_reason(ws, v, m);
    let i = choose|i: int|
        0 <= i < cross_references(ws, v.key()).len() && ws.owner(
            (#[trigger] cross_references(ws, v.key())[i]).file_path@,
        ) == Some(m.package) && m.cause == match ws.owner(v.file.parts) {
            Some(source_project) => Some(
                Cause::ImportedSymbol {
                    source_project,
                    symbol: v.name,
                    via_file: cross_references(ws, v.key())[i].file_path.full(),
                    source_file: v.file,
                },
            ),
            None => None,
        };
    assert(cross_references(ws, v.key())[i].file_path.full()
        == cross_references(ws, v.key())[i].file_path.full());
}

/// A report gives each project exactly its reasons, imports aside: each cause that it
/// lists is a changed file of the project, a reference of it to a changed asset, or an
/// implicit dependency of it on a project that the change affects; and each of these is
/// listed, the spelling of paths aside.
pub proof fn report_lists_what_changed(
    r: AffectedResult,
    projects: Seq<Project>,
    ws: WorkspaceIndex,
    files: Seq<ChangedFile>,
    report: AffectedReport,
    i: int,
    cause: Cause,
)
    requires
        result_shows(r, all_marks(projects, ws, files), true),
        r.report == Some(report),
        0 <= i < report.projects@.len(),
        !(cause is ImportedSymbol),
    ensures
        ({
            let name = report.projects@[i].name@;
            let shown = cause_views(report.projects@[i].causes@);
            let given = (exists|k: int|
                0 <= k < files.len() && file_gives(ws, #[trigger] files[k], name, cause)) || (
            cause matches Cause::ImplicitDependency { depends_on } && packages_of(
                changed_marks(ws, files),
            ).contains(depends_on) && depends_implicitly(projects, name, depends_on));
            &&& shown.contains(cause) ==> given
            &&& given ==> exists|k: int| 0 <= k < shown.len() && same_cause(#[trigger] shown[k], cause)
            &&& cause is ImplicitDependency ==> (shown.contains(cause) <==> given)
        }),
{
    let name = report.projects@[i].name@;
    let shown = cause_views(report.projects@[i].causes@);
    let all = causes_for(all_marks(projects, ws, files), name);
    assert(condensed(shown, all));
    reasons_are_what_changed(projects, ws, files, name, cause);
    condensed_shows_each_cause_once(shown, all, cause);
    if all.contains(cause) && cause is ImplicitDependency {
        let k = choose|k: int| 0 <= k < shown.len() && same_cause(#[trigger] shown[k], cause);
        assert(shown[k] == cause);
    }
}

/// Whether a changed file reaches `package`: the project owns it, or a file of the
/// project uses what stands on a changed line, or it refers to the changed asset or uses
/// a symbol through which the asset acts.
pub open spec fn file_reaches(ws: WorkspaceIndex, f: ChangedFile, package: Seq<char>) -> bool {
    let path = f.file_path@;
    let refs = asset_references(ws, path);
    ||| ws.owner(path) == Some(package) && (ws.is_source(path) ==> ws.is_analyzed(path))
    ||| ws.is_source(path) && ws.is_analyzed(path) && exists|k: int|
        0 <= k < f.changed_lines@.len() && affected_from(
            ws,
            line_tasks(ws, f.file_path.full(), #[trigger] f.changed_lines@[k]),
            package,
        )
    ||| !ws.is_source(path) && exists|k: int|
        0 <= k < refs.len() && ws.owner((#[trigger] refs[k]).source_file@) == Some(package)
    ||| !ws.is_source(path) && exists|k: int, name: Seq<char>|
        0 <= k < refs.len() && #[trigger] reference_symbols(ws, path, refs[k]).contains(name)
            && affected_from(
            ws,
            seq![Task::Visit(visit(refs[k].source_file.full(), name))],
            package,
        )
}

/// No project is listed without a cause: a changed file reaches it, or it depends
/// implicitly on a project that one reaches.
pub proof fn listed_projects_are_reached(
    r: AffectedResult,
    projects: Seq<Project>,
    ws: WorkspaceIndex,
    files: Seq<ChangedFile>,
    reporting: bool,
    package: Seq<char>,
)
    requires
        result_shows(r, all_marks(projects, ws, files), reporting),
        texts(r.affected_projects@).contains(package),
    ensures
        exists|i: int, q: Seq<char>|
            0 <= i < files.len() && #[trigger] file_reaches(ws, files[i], q) && (q == package
                || depends_implicitly(projects, package, q)),
{
    affected_projects_are_determined(projects, ws, files, package);
    let q = if change_affects(ws, files, package) {
        package
    } else {
        let (i, j) = choose|i: int, j: int|
            0 <= i < projects.len() && 0 <= j < projects[i].implicit_dependencies@.len()
                && projects[i].name@ == package && change_affects(
                ws,
                files,
                (#[trigger] projects[i].implicit_dependencies@[j])@,
            );
        let deps = texts(projects[i].implicit_dependencies@);
        assert(deps[j] == projects[i].implicit_dependencies@[j]@);
        assert(deps.contains(deps[j]));
        assert(projects[i].name@ == package);
        projects[i].implicit_dependencies@[j]@
    };
    let i = choose|i: int| 0 <= i < files.len() && file_affects(ws, #[trigger] files[i], q);
    let f = files[i];
    let path = f.file_path@;
    let full = f.file_path.full();
    if ws.owner(path) != Some(q) {
        if ws.is_source(path) {
            let lines = f.changed_lines@;
            let k = choose|k: int|
                0 <= k < lines.len() && packages_of(
                    line_trace(ws, full, #[trigger] lines[k]).marks,
                ).contains(q);
            line_affects_the_referring(ws, full, lines[k], q);
            assert(affected_from(ws, line_tasks(ws, full, f.changed_lines@[k]), q));
        } else {
            let refs = asset_references(ws, path);
            let k = choose|k: int|
                0 <= k < refs.len() && reference_affects(ws, path, #[trigger] refs[k], q);
            if ws.owner(refs[k].source_file@) != Some(q) {
                let names = reference_symbols(ws, path, refs[k]);
                let source = refs[k].source_file.full();
                let n = choose|n: int|
                    0 <= n < names.len() && packages_of(
                        symbol_trace(ws, visit(source, #[trigger] names[n])).marks,
                    ).contains(q);
                symbol_affects_the_referring(ws, visit(source, names[n]), q);
                assert(reference_symbols(ws, path, refs[k]).contains(names[n]));
            }
        }
    }
    assert(file_reaches(ws, files[i], q));
}

/// A project that depends implicitly on one that the changed files reach is listed with
/// it.
pub proof fn implicit_dependents_are_listed(
    r: AffectedResult,
    projects: Seq<Project>,
    ws: WorkspaceIndex,
    files: Seq<ChangedFile>,
    reporting: bool,
    dependency: Seq<char>,
    package: Seq<char>,
)
    requires
        result_shows(r, all_marks(projects, ws, files), reporting),
        packages_of(changed_marks(ws, files)).contains(dependency),
        depends_implicitly(projects, package, dependency),
    ensures
        texts(r.affected_projects@).contains(dependency),
        texts(r.affected_projects@).contains(package),
{
    let changed = changed_marks(ws, files);
    let implicit = implicit_marks(projects, packages_of(changed));
    let cause = Cause::ImplicitDependency { depends_on: dependency };
    marks_add_up(changed, implicit);
    implicit_reasons_name_affected_dependencies(
        projects,
        packages_of(changed),
        package,
        cause,
    );
    marks_give_their_reasons(implicit, package, cause);
}

proof fn lemma_partial_sum(
    ws: WorkspaceIndex,
    a: Seq<ChangedFile>,
    b: Seq<ChangedFile>,
    sources: bool,
)
    ensures
        partial_marks(ws, a + b, sources) == partial_marks(ws, a, sources) + partial_marks(
            ws,
            b,
            sources,
        ),
    decreases b.len(),
{
    if b.len() == 0 {
        assert(a + b =~= a);
        assert(partial_marks(ws, a, sources) + partial_marks(ws, b, sources) =~= partial_marks(
            ws,
            a,
            sources,
        ));
    } else {
        let ab = a + b;
        assert(ab.drop_last() =~= a + b.drop_last());
        assert(ab.last() == b.last());
        lemma_partial_sum(ws, a, b.drop_last(), sources);
        assert(partial_marks(ws, ab, sources) =~= partial_marks(ws, a, sources) + partial_marks(
            ws,
            b,
            sources,
        ));
    }
}

proof fn lemma_no_partial_marks(ws: WorkspaceIndex, files: Seq<ChangedFile>, sources: bool)
    requires
        forall|i: int|
            0 <= i < files.len() ==> ws.is_source((#[trigger] files[i]).file_path@) != sources,
    ensures
        partial_marks(ws, files, sources).len() == 0,
    decreases files.len(),
{
    if files.len() > 0 {
        assert(files[files.len() - 1] == files.last());
        lemma_no_partial_marks(ws, files.drop_last(), sources);
    }
}

/// Changed source files are gone through before changed assets, and either kind in the
/// order of the files.
pub proof fn sources_come_before_assets(
    ws: WorkspaceIndex,
    sources: Seq<ChangedFile>,
    more: Seq<ChangedFile>,
    assets: Seq<ChangedFile>,
)
    requires
        forall|i: int| 0 <= i < sources.len() ==> ws.is_source((#[trigger] sources[i]).file_path@),
        forall|i: int| 0 <= i < more.len() ==> ws.is_source((#[trigger] more[i]).file_path@),
        forall|i: int| 0 <= i < assets.len() ==> !ws.is_source((#[trigger] assets[i]).file_path@),
    ensures
        changed_marks(ws, sources + more) == changed_marks(ws, sources) + changed_marks(ws, more),
        changed_marks(ws, sources + assets) == changed_marks(ws, sources) + changed_marks(ws, assets),
        changed_marks(ws, assets + sources) == changed_marks(ws, sources) + changed_marks(ws, assets),
{
    lemma_partial_sum(ws, sources, more, true);
    lemma_partial_sum(ws, sources, more, false);
    lemma_partial_sum(ws, sources, assets, true);
    lemma_partial_sum(ws, sources, assets, false);
    lemma_partial_sum(ws, assets, sources, true);
    lemma_partial_sum(ws, assets, sources, false);
    lemma_no_partial_marks(ws, sources, false);
    lemma_no_partial_marks(ws, more, false);
    lemma_no_partial_marks(ws, assets, true);
    let s = partial_marks(ws, sources, true);
    let m = partial_marks(ws, more, true);
    let a = partial_marks(ws, assets, false);
    assert(changed_marks(ws, sources) =~= s);
    assert(changed_marks(ws, more) =~= m);
    assert(changed_marks(ws, assets) =~= a);
    assert(changed_marks(ws, sources + more) =~= s + m);
    assert(changed_marks(ws, sources + assets) =~= s + a);
    assert(changed_marks(ws, assets + sources) =~= s + a);
}

} // verus!
