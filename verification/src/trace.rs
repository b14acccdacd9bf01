//! Following a changed symbol through a workspace: which symbols it reaches and
//! which projects that marks as affected.

use crate::index::{names_view, symbol_row, Position, SymbolFacts, WorkspaceIndex};
use crate::path::{FilePath, PathView};
use crate::text::texts;
use crate::types::{AffectCause, Cause, Export, Reference};
use vstd::prelude::*;

verus! {

/// A symbol: the components of its file and its name.
pub type Key = (Seq<Seq<char>>, Seq<char>);

/// A symbol as it was come across: the path of its file as it was spelled there,
/// and its name.
pub struct Visit {
    pub file: PathView,
    pub name: Seq<char>,
}

/// The symbol `name` of `file`.
pub open spec fn visit(file: PathView, name: Seq<char>) -> Visit {
    Visit { file, name }
}

impl Visit {
    /// The symbol.
    pub open spec fn key(self) -> Key {
        (self.file.parts, self.name)
    }
}

/// A project that counts as affected, and why, where a reason is known.
pub struct Mark {
    pub package: Seq<char>,
    pub cause: Option<Cause>,
}

/// One thing to do while a symbol is followed.
pub enum Task {
    /// Follow a symbol, unless it was followed before.
    Visit(Visit),
    /// Count a project as affected.
    Mark(Mark),
    /// Give up: a query failed.
    Fail(Seq<char>),
}

/// One thing to do while a symbol is followed.
#[derive(Debug)]
pub enum Step {
    /// Follow a symbol, unless it was followed before.
    Visit { file: FilePath, symbol: String },
    /// Count a project as affected.
    Mark { package: String, cause: Option<AffectCause> },
    /// Give up: a query failed.
    Fail { reason: String },
}

/// The content of an optional cause.
pub open spec fn optional_cause(c: Option<AffectCause>) -> Option<Cause> {
    match c {
        Some(c) => Some(c@),
        None => None,
    }
}

impl View for Step {
    type V = Task;

    open spec fn view(&self) -> Task {
        match *self {
            Step::Visit { file, symbol } => Task::Visit(
                visit(file.full(), symbol@),
            ),
            Step::Mark { package, cause } => Task::Mark(
                Mark { package: package@, cause: optional_cause(cause) },
            ),
            Step::Fail { reason } => Task::Fail(reason@),
        }
    }
}

/// The contents of a list of steps.
pub open spec fn tasks(v: Seq<Step>) -> Seq<Task> {
    v.map_values(|s: Step| s@)
}

/// Follow each of the symbols `names` of `file`.
pub open spec fn visits(file: PathView, names: Seq<Seq<char>>) -> Seq<Task> {
    names.map_values(|n: Seq<char>| Task::Visit(visit(file, n)))
}

/// Follow each of the symbols `names` of the file of `v`, other than `v`.
pub open spec fn other_visits(v: Visit, names: Seq<Seq<char>>) -> Seq<Task>
    decreases names.len(),
{
    if names.len() == 0 {
        seq![]
    } else if names.last() == v.name {
        other_visits(v, names.drop_last())
    } else {
        other_visits(v, names.drop_last()).push(
            Task::Visit(visit(v.file, names.last())),
        )
    }
}

/// What the references to `v` in its own file ask for: to follow the symbols
/// that contain them.
pub open spec fn local_tasks(ws: WorkspaceIndex, v: Visit, refs: Seq<Position>) -> Seq<Task>
    decreases refs.len(),
{
    if refs.len() == 0 {
        seq![]
    } else {
        local_tasks(ws, v, refs.drop_last()) + match ws.symbols_at(
            v.file.parts,
            refs.last().line,
            refs.last().column,
        ) {
            Ok(names) => other_visits(v, names),
            Err(e) => seq![Task::Fail(e)],
        }
    }
}

/// The name under which an export's own file declares it.
pub open spec fn declared_name(e: Export) -> Seq<char> {
    match e.local_name {
        Some(n) => n@,
        None => e.exported_name@,
    }
}

/// The names of what a file declares and exports; what it re-exports is left out.
pub open spec fn exported_names(exports: Seq<Export>) -> Seq<Seq<char>>
    decreases exports.len(),
{
    if exports.len() == 0 {
        seq![]
    } else if exports.last().re_export_from is Some {
        exported_names(exports.drop_last())
    } else {
        exported_names(exports.drop_last()).push(declared_name(exports.last()))
    }
}

/// Follow what `file` declares and exports.
pub open spec fn export_visits(file: PathView, exports: Seq<Export>) -> Seq<Task> {
    visits(file, exported_names(exports))
}

/// Why a reference to `v` in another file affects that file's project.
pub open spec fn import_cause(ws: WorkspaceIndex, v: Visit, via: PathView) -> Option<Cause> {
    match ws.owner(v.file.parts) {
        Some(source) => Some(
            Cause::ImportedSymbol {
                source_project: source,
                symbol: v.name,
                via_file: via,
                source_file: v.file,
            },
        ),
        None => None,
    }
}

/// What a reference to `v` in another file asks for: the owner of that file is
/// affected, and the symbol there that contains the reference is followed. A
/// reference without a place stands for the whole file: all that it exports is
/// followed.
pub open spec fn reference_tasks(ws: WorkspaceIndex, v: Visit, r: Reference) -> Seq<Task> {
    let mark = match ws.owner(r.file_path@) {
        Some(package) => seq![
            Task::Mark(Mark { package, cause: import_cause(ws, v, r.file_path.full()) }),
        ],
        None => seq![],
    };
    let follow = if r.line == 0 && r.column == 0 {
        export_visits(r.file_path.full(), ws.exports(r.file_path@))
    } else {
        match ws.symbols_at(r.file_path@, r.line, r.column) {
            Ok(names) => visits(r.file_path.full(), names),
            Err(_) => seq![],
        }
    };
    mark + follow
}

/// What the references to `v` in other files ask for.
pub open spec fn cross_tasks(ws: WorkspaceIndex, v: Visit, refs: Seq<Reference>) -> Seq<Task>
    decreases refs.len(),
{
    if refs.len() == 0 {
        seq![]
    } else {
        cross_tasks(ws, v, refs.drop_last()) + reference_tasks(ws, v, refs.last())
    }
}

/// All that following `v` asks for, in order. A symbol that is not exported and
/// that no other file refers to acts through the exported symbols of its file
/// that use it.
pub open spec fn symbol_tasks(ws: WorkspaceIndex, v: Visit) -> Seq<Task> {
    match symbol_row(ws.symbols@, v.file.parts, v.name) {
        None => seq![],
        Some(row) => {
            let local = match row.local_references {
                Ok(refs) => local_tasks(ws, v, refs@),
                Err(e) => seq![Task::Fail(e@)],
            };
            let cross = match row.cross_file_references {
                Ok(refs) => {
                    let inner = if refs@.len() == 0 && !row.is_exported {
                        match names_view(row.exported_users) {
                            Ok(names) => visits(v.file, names),
                            Err(e) => seq![Task::Fail(e)],
                        }
                    } else {
                        seq![]
                    };
                    inner + cross_tasks(ws, v, refs@)
                },
                Err(e) => seq![Task::Fail(e@)],
            };
            local + cross
        },
    }
}

/// How many rows are about symbols that were not followed yet.
pub open spec fn unvisited(rows: Seq<SymbolFacts>, visited: Set<Key>) -> nat
    decreases rows.len(),
{
    if rows.len() == 0 {
        0
    } else {
        unvisited(rows.drop_first(), visited) + if visited.contains((rows[0].file@, rows[0].name@)) {
            0nat
        } else {
            1nat
        }
    }
}

/// Following a symbol leaves fewer symbols to follow.
pub proof fn visit_lowers_unvisited(rows: Seq<SymbolFacts>, visited: Set<Key>, key: Key)
    requires
        !visited.contains(key),
    ensures
        unvisited(rows, visited.insert(key)) <= unvisited(rows, visited),
        symbol_row(rows, key.0, key.1) is Some ==> unvisited(rows, visited.insert(key))
            < unvisited(rows, visited),
    decreases rows.len(),
{
    if rows.len() > 0 {
        visit_lowers_unvisited(rows.drop_first(), visited, key);
    }
}

/// What came of a list of tasks: the projects marked on the way, the symbols
/// followed, and the failure that ended it, if one did.
pub struct Outcome {
    pub marks: Seq<Mark>,
    pub visited: Set<Key>,
    pub failure: Option<Seq<char>>,
}

/// Working off `todo` from the front: a symbol not in `visited` is replaced by
/// what following it asks for; a failure ends the work.
pub open spec fn trace(ws: WorkspaceIndex, todo: Seq<Task>, visited: Set<Key>) -> Outcome
    decreases unvisited(ws.symbols@, visited), todo.len(),
{
    if todo.len() == 0 {
        Outcome { marks: seq![], visited, failure: None }
    } else {
        let rest = todo.drop_first();
        match todo[0] {
            Task::Fail(e) => Outcome { marks: seq![], visited, failure: Some(e) },
            Task::Mark(m) => {
                let later = trace(ws, rest, visited);
                Outcome { marks: seq![m] + later.marks, ..later }
            },
            Task::Visit(v) => {
                let key = v.key();
                proof {
                    if !visited.contains(key) {
                        visit_lowers_unvisited(ws.symbols@, visited, key);
                    }
                }
                if visited.contains(key) {
                    trace(ws, rest, visited)
                } else if symbol_row(ws.symbols@, key.0, key.1) is Some {
                    trace(ws, symbol_tasks(ws, v) + rest, visited.insert(key))
                } else {
                    trace(ws, rest, visited.insert(key))
                }
            },
        }
    }
}

fn push_visit(r: &mut Vec<Step>, file: &FilePath, symbol: &String)
    ensures
        tasks(final(r)@) == tasks(old(r)@).push(Task::Visit(visit(file.full(), symbol@))),
{
    let ghost before = r@;
    r.push(Step::Visit { file: file.clone(), symbol: symbol.clone() });
    proof {
        assert(tasks(r@) =~= tasks(before).push(Task::Visit(visit(file.full(), symbol@))));
    }
}

fn push_failure(r: &mut Vec<Step>, reason: &String)
    ensures
        tasks(final(r)@) == tasks(old(r)@) + seq![Task::Fail(reason@)],
{
    let ghost before = r@;
    r.push(Step::Fail { reason: reason.clone() });
    proof {
        assert(tasks(r@) =~= tasks(before) + seq![Task::Fail(reason@)]);
    }
}

/// Adds a visit of each of the symbols `names` of `file`.
pub(crate) fn push_visits(r: &mut Vec<Step>, file: &FilePath, names: &Vec<String>)
    ensures
        tasks(final(r)@) == tasks(old(r)@) + visits(file.full(), texts(names@)),
{
    let ghost start = tasks(r@);
    let ghost all = visits(file.full(), texts(names@));
    let mut i: usize = 0;
    proof {
        assert(start + all.take(0) =~= start);
    }
    while i < names.len()
        invariant
            i <= names@.len(),
            all == visits(file.full(), texts(names@)),
            tasks(r@) == start + all.take(i as int),
        decreases names@.len() - i,
    {
        push_visit(r, file, &names[i]);
        proof {
            assert(start + all.take(i + 1) =~= (start + all.take(i as int)).push(all[i as int]));
        }
        i += 1;
    }
    proof {
        assert(all.take(i as int) =~= all);
    }
}

fn push_other_visits(r: &mut Vec<Step>, file: &FilePath, symbol: &String, names: &Vec<String>)
    ensures
        tasks(final(r)@) == tasks(old(r)@) + other_visits(visit(file.full(), symbol@), texts(names@)),
{
    let ghost start = tasks(r@);
    let ghost v = visit(file.full(), symbol@);
    let ghost all = texts(names@);
    let mut i: usize = 0;
    proof {
        assert(all.take(0) =~= seq![]);
        assert(start + other_visits(v, all.take(0)) =~= start);
    }
    while i < names.len()
        invariant
            i <= names@.len(),
            v == visit(file.full(), symbol@),
            all == texts(names@),
            tasks(r@) == start + other_visits(v, all.take(i as int)),
        decreases names@.len() - i,
    {
        proof {
            assert(all.take(i + 1).drop_last() =~= all.take(i as int));
            assert(all.take(i + 1).last() == names@[i as int]@);
        }
        if names[i] != *symbol {
            push_visit(r, file, &names[i]);
            proof {
                assert(start + other_visits(v, all.take(i + 1)) =~= (start + other_visits(
                    v,
                    all.take(i as int),
                )).push(Task::Visit(visit(file.full(), names@[i as int]@))));
            }
        }
        i += 1;
    }
    proof {
        assert(all.take(i as int) =~= all);
    }
}

fn push_local_steps(
    r: &mut Vec<Step>,
    ws: &WorkspaceIndex,
    file: &FilePath,
    symbol: &String,
    refs: &Vec<Position>,
)
    ensures
        tasks(final(r)@) == tasks(old(r)@) + local_tasks(*ws, visit(file.full(), symbol@), refs@),
{
    let ghost start = tasks(r@);
    let ghost v = visit(file.full(), symbol@);
    let mut i: usize = 0;
    proof {
        assert(refs@.take(0) =~= seq![]);
        assert(start + local_tasks(*ws, v, refs@.take(0)) =~= start);
    }
    while i < refs.len()
        invariant
            i <= refs@.len(),
            v == visit(file.full(), symbol@),
            tasks(r@) == start + local_tasks(*ws, v, refs@.take(i as int)),
        decreases refs@.len() - i,
    {
        let ghost before = tasks(r@);
        proof {
            assert(refs@.take(i + 1).drop_last() =~= refs@.take(i as int));
            assert(refs@.take(i + 1).last() == refs@[i as int]);
        }
        match ws.find_node(file, refs[i].line, refs[i].column) {
            Some(row) => match &row.symbols {
                Ok(names) => {
                    push_other_visits(r, file, symbol, names);
                },
                Err(e) => {
                    push_failure(r, e);
                },
            },
            None => {
                proof {
                    assert(before + other_visits(v, seq![]) =~= before);
                }
            },
        }
        proof {
            let pos = refs@[i as int];
            let step = match ws.symbols_at(v.file.parts, pos.line, pos.column) {
                Ok(names) => other_visits(v, names),
                Err(e) => seq![Task::Fail(e)],
            };
            assert(start + local_tasks(*ws, v, refs@.take(i + 1)) =~= before + step);
        }
        i += 1;
    }
    proof {
        assert(refs@.take(i as int) =~= refs@);
    }
}

/// The names of what a file declares and exports.
pub(crate) fn list_exports(exports: &Vec<Export>) -> (r: Vec<String>)
    ensures
        texts(r@) == exported_names(exports@),
{
    let mut r: Vec<String> = Vec::new();
    let mut i: usize = 0;
    proof {
        assert(texts(r@) =~= exported_names(exports@.take(0)));
    }
    while i < exports.len()
        invariant
            i <= exports@.len(),
            texts(r@) == exported_names(exports@.take(i as int)),
        decreases exports@.len() - i,
    {
        let export = &exports[i];
        proof {
            assert(exports@.take(i + 1).drop_last() =~= exports@.take(i as int));
            assert(exports@.take(i + 1).last() == *export);
        }
        if export.re_export_from.is_none() {
            let ghost before = r@;
            let name = match &export.local_name {
                Some(name) => name.clone(),
                None => export.exported_name.clone(),
            };
            r.push(name);
            proof {
                assert(texts(r@) =~= texts(before).push(declared_name(*export)));
            }
        }
        i += 1;
    }
    proof {
        assert(exports@.take(i as int) =~= exports@);
    }
    r
}

fn push_reference_steps(
    r: &mut Vec<Step>,
    ws: &WorkspaceIndex,
    file: &FilePath,
    symbol: &String,
    reference: &Reference,
)
    ensures
        tasks(final(r)@) == tasks(old(r)@) + reference_tasks(*ws, visit(file.full(), symbol@), *reference),
{
    let ghost start = tasks(r@);
    let ghost v = visit(file.full(), symbol@);
    let ghost before = r@;
    let ghost mut mark: Seq<Task> = seq![];
    if let Some(package) = ws.owner_of(&reference.file_path) {
        let cause = match ws.owner_of(file) {
            Some(source_project) => Some(
                AffectCause::ImportedSymbol {
                    source_project,
                    symbol: symbol.clone(),
                    via_file: reference.file_path.clone(),
                    source_file: file.clone(),
                },
            ),
            None => None,
        };
        proof {
            mark = seq![Task::Mark(Mark { package: package@, cause: optional_cause(cause) })];
            assert(optional_cause(cause) == import_cause(*ws, v, reference.file_path.full()));
        }
        r.push(Step::Mark { package, cause });
        proof {
            assert(tasks(r@) =~= start + mark);
        }
    } else {
        proof {
            assert(tasks(r@) =~= start + mark);
        }
    }
    let ghost marked = tasks(r@);
    let ghost mut follow: Seq<Task> = seq![];
    if reference.line == 0 && reference.column == 0 {
        match ws.find_file(&reference.file_path) {
            Some(row) => {
                push_visits(r, &reference.file_path, &list_exports(&row.exports));
            },
            None => {
                proof {
                    assert(marked + export_visits(reference.file_path.full(), seq![]) =~= marked);
                }
            },
        }
        proof {
            follow = export_visits(reference.file_path.full(), ws.exports(reference.file_path@));
        }
    } else {
        match ws.find_node(&reference.file_path, reference.line, reference.column) {
            Some(row) => match &row.symbols {
                Ok(names) => {
                    push_visits(r, &reference.file_path, names);
                    proof {
                        follow = visits(reference.file_path.full(), texts(names@));
                    }
                },
                Err(_) => {},
            },
            None => {
                proof {
                    follow = visits(reference.file_path.full(), seq![]);
                    assert(follow =~= seq![]);
                }
            },
        }
    }
    proof {
        assert(tasks(r@) =~= marked + follow);
        assert(start + (mark + follow) =~= start + mark + follow);
    }
}

fn push_cross_steps(
    r: &mut Vec<Step>,
    ws: &WorkspaceIndex,
    file: &FilePath,
    symbol: &String,
    refs: &Vec<Reference>,
)
    ensures
        tasks(final(r)@) == tasks(old(r)@) + cross_tasks(*ws, visit(file.full(), symbol@), refs@),
{
    let ghost start = tasks(r@);
    let ghost v = visit(file.full(), symbol@);
    let mut i: usize = 0;
    proof {
        assert(refs@.take(0) =~= seq![]);
        assert(start + cross_tasks(*ws, v, refs@.take(0)) =~= start);
    }
    while i < refs.len()
        invariant
            i <= refs@.len(),
            v == visit(file.full(), symbol@),
            tasks(r@) == start + cross_tasks(*ws, v, refs@.take(i as int)),
        decreases refs@.len() - i,
    {
        let ghost before = tasks(r@);
        proof {
            assert(refs@.take(i + 1).drop_last() =~= refs@.take(i as int));
            assert(refs@.take(i + 1).last() == refs@[i as int]);
        }
        push_reference_steps(r, ws, file, symbol, &refs[i]);
        proof {
            assert(start + cross_tasks(*ws, v, refs@.take(i + 1)) =~= before + reference_tasks(
                *ws,
                v,
                refs@[i as int],
            ));
        }
        i += 1;
    }
    proof {
        assert(refs@.take(i as int) =~= refs@);
    }
}

/// All that following a symbol asks for, in order.
pub fn symbol_steps(ws: &WorkspaceIndex, file: &FilePath, symbol: &String) -> (r: Vec<Step>)
    ensures
        tasks(r@) == symbol_tasks(*ws, visit(file.full(), symbol@)),
{
    let ghost v = visit(file.full(), symbol@);
    let mut r: Vec<Step> = Vec::new();
    proof {
        assert(tasks(r@) =~= seq![]);
    }
    match ws.find_symbol(file, symbol) {
        None => r,
        Some(row) => {
            match &row.local_references {
                Ok(refs) => {
                    push_local_steps(&mut r, ws, file, symbol, refs);
                },
                Err(e) => {
                    push_failure(&mut r, e);
                },
            }
            let ghost local = match &row.local_references {
                Ok(refs) => local_tasks(*ws, v, refs@),
                Err(e) => seq![Task::Fail(e@)],
            };
            proof {
                assert(tasks(r@) =~= local);
            }
            match &row.cross_file_references {
                Ok(refs) => {
                    let ghost mut inner: Seq<Task> = seq![];
                    if refs.len() == 0 && !row.is_exported {
                        match &row.exported_users {
                            Ok(names) => {
                                push_visits(&mut r, file, names);
                                proof {
                                    inner = visits(v.file, texts(names@));
                                }
                            },
                            Err(e) => {
                                push_failure(&mut r, e);
                                proof {
                                    inner = seq![Task::Fail(e@)];
                                }
                            },
                        }
                    }
                    proof {
                        assert(tasks(r@) =~= local + inner);
                    }
                    push_cross_steps(&mut r, ws, file, symbol, refs);
                    proof {
                        assert(tasks(r@) =~= local + (inner + cross_tasks(*ws, v, refs@)));
                    }
                },
                Err(e) => {
                    push_failure(&mut r, e);
                },
            }
            r
        },
    }
}

/// Uses are gone through in order: those in the file of the symbol, then those in other
/// files, each list from its start.
pub proof fn uses_are_gone_through_in_order(
    ws: WorkspaceIndex,
    v: Visit,
    a: Seq<Position>,
    b: Seq<Position>,
    c: Seq<Reference>,
    d: Seq<Reference>,
)
    ensures
        local_tasks(ws, v, a + b) == local_tasks(ws, v, a) + local_tasks(ws, v, b),
        cross_tasks(ws, v, c + d) == cross_tasks(ws, v, c) + cross_tasks(ws, v, d),
        symbol_row(ws.symbols@, v.file.parts, v.name) matches Some(row) ==> {
            &&& row.local_references matches Err(e) ==> symbol_tasks(ws, v).len() > 0
                && symbol_tasks(ws, v)[0] == Task::Fail(e@)
            &&& row.local_references matches Ok(refs) ==> local_tasks(ws, v, refs@).is_prefix_of(
                symbol_tasks(ws, v),
            )
            &&& row.cross_file_references matches Err(e) ==> symbol_tasks(ws, v).len() > 0
                && symbol_tasks(ws, v).last() == Task::Fail(e@)
            &&& row.cross_file_references matches Ok(refs) ==> cross_tasks(
                ws,
                v,
                refs@,
            ).is_suffix_of(symbol_tasks(ws, v))
        },
        symbol_row(ws.symbols@, v.file.parts, v.name) is None ==> symbol_tasks(ws, v).len() == 0,
    decreases b.len() + d.len(),
{
    if b.len() > 0 {
        let ab = a + b;
        assert(ab.drop_last() =~= a + b.drop_last());
        assert(ab.last() == b.last());
        uses_are_gone_through_in_order(ws, v, a, b.drop_last(), c, seq![]);
        assert(local_tasks(ws, v, ab) =~= local_tasks(ws, v, a) + local_tasks(ws, v, b));
    } else {
        assert(a + b =~= a);
        assert(local_tasks(ws, v, a) + local_tasks(ws, v, b) =~= local_tasks(ws, v, a));
    }
    if d.len() > 0 {
        let cd = c + d;
        assert(cd.drop_last() =~= c + d.drop_last());
        assert(cd.last() == d.last());
        uses_are_gone_through_in_order(ws, v, a, seq![], c, d.drop_last());
        assert(cross_tasks(ws, v, cd) =~= cross_tasks(ws, v, c) + cross_tasks(ws, v, d));
    } else {
        assert(c + d =~= c);
        assert(cross_tasks(ws, v, c) + cross_tasks(ws, v, d) =~= cross_tasks(ws, v, c));
    }
    if let Some(row) = symbol_row(ws.symbols@, v.file.parts, v.name) {
        let all = symbol_tasks(ws, v);
        if let Ok(refs) = row.local_references {
            let local = local_tasks(ws, v, refs@);
            assert(all.take(local.len() as int) =~= local);
        }
        if let Ok(refs) = row.cross_file_references {
            let cross = cross_tasks(ws, v, refs@);
            assert(all.skip(all.len() - cross.len()) =~= cross);
        }
    }
}

/// A reference from another file first marks the owner of that file.
pub proof fn referring_project_is_marked_first(ws: WorkspaceIndex, v: Visit, r: Reference)
    ensures
        cross_tasks(ws, v, seq![r]) == reference_tasks(ws, v, r),
        ws.owner(r.file_path@) matches Some(package) ==> reference_tasks(ws, v, r).len() > 0
            && reference_tasks(ws, v, r)[0] is Mark && reference_tasks(ws, v, r)[0]->Mark_0.package
            == package,
{
    let one = seq![r];
    assert(one.drop_last() =~= seq![]);
    assert(cross_tasks(ws, v, one.drop_last()) =~= seq![]);
    assert(cross_tasks(ws, v, one) =~= reference_tasks(ws, v, r));
}

/// The symbols at a place are followed in order; at a use in the file of a symbol, that
/// symbol is left out.
pub proof fn names_are_followed_in_order(v: Visit, a: Seq<Seq<char>>, b: Seq<Seq<char>>)
    ensures
        visits(v.file, a + b) == visits(v.file, a) + visits(v.file, b),
        forall|i: int|
            0 <= i < a.len() ==> #[trigger] visits(v.file, a)[i] == Task::Visit(
                Visit { file: v.file, name: a[i] },
            ),
        other_visits(v, a + b) == other_visits(v, a) + other_visits(v, b),
        other_visits(v, seq![v.name]).len() == 0,
        !a.contains(v.name) ==> other_visits(v, a) == visits(v.file, a),
    decreases a.len() + b.len(),
{
    let ab = a + b;
    assert(visits(v.file, ab) =~= visits(v.file, a) + visits(v.file, b));
    if b.len() > 0 {
        assert(ab.drop_last() =~= a + b.drop_last());
        assert(ab.last() == b.last());
        names_are_followed_in_order(v, a, b.drop_last());
        assert(other_visits(v, ab) =~= other_visits(v, a) + other_visits(v, b));
    } else {
        assert(ab =~= a);
        assert(other_visits(v, a) + other_visits(v, b) =~= other_visits(v, a));
    }
    let one = seq![v.name];
    assert(one.drop_last() =~= seq![]);
    assert(one.last() == v.name);
    assert(other_visits(v, one.drop_last()) =~= seq![]);
    if !a.contains(v.name) {
        if a.len() > 0 {
            let rest = a.drop_last();
            assert(a.contains(a[a.len() - 1]));
            assert(!rest.contains(v.name)) by {
                if rest.contains(v.name) {
                    let i = choose|i: int| 0 <= i < rest.len() && rest[i] == v.name;
                    assert(a[i] == v.name);
                }
            }
            names_are_followed_in_order(v, rest, seq![]);
            assert(visits(v.file, a) =~= visits(v.file, rest).push(
                Task::Visit(visit(v.file, a.last())),
            ));
        } else {
            assert(other_visits(v, a) =~= visits(v.file, a));
        }
    }
}

} // verus!
