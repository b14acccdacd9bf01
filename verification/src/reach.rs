//! What following symbols amounts to: exactly the symbols that a chain of uses
//! leads to are followed, and exactly the projects that refer to one of them are
//! affected.

use crate::index::{names_view, symbol_row, Position, SymbolFacts, WorkspaceIndex};
use crate::path::PathView;
use crate::propagate::{line_tasks, line_trace, marks_add_up, symbol_trace};
use crate::state::packages_of;
use crate::text::texts;
use crate::trace::{
    cross_tasks, declared_name, export_visits, exported_names, import_cause, local_tasks,
    other_visits, reference_tasks, symbol_tasks, trace, unvisited, visit_lowers_unvisited, visits,
    Key, Mark, Outcome, Task, Visit,
};
use crate::types::{Export, Reference};
use vstd::prelude::*;

verus! {

/// The references to `key` in other files.
pub open spec fn cross_references(ws: WorkspaceIndex, key: Key) -> Seq<Reference> {
    match symbol_row(ws.symbols@, key.0, key.1) {
        Some(row) => match row.cross_file_references {
            Ok(refs) => refs@,
            Err(_) => seq![],
        },
        None => seq![],
    }
}

/// Whether a query for names succeeded and found `name`.
pub open spec fn finds(r: Result<Seq<Seq<char>>, Seq<char>>, name: Seq<char>) -> bool {
    r matches Ok(names) && names.contains(name)
}

/// Whether one of the places in `file` stands inside `name`.
pub open spec fn some_inside(
    ws: WorkspaceIndex,
    file: Seq<Seq<char>>,
    places: Seq<Position>,
    name: Seq<char>,
) -> bool {
    exists|i: int|
        0 <= i < places.len() && finds(
            ws.symbols_at(file, (#[trigger] places[i]).line, places[i].column),
            name,
        )
}

/// Whether what stands at one of the places in `file` cannot be found, for the
/// reason `e`.
pub open spec fn some_unknown(
    ws: WorkspaceIndex,
    file: Seq<Seq<char>>,
    places: Seq<Position>,
    e: Seq<char>,
) -> bool {
    exists|i: int|
        0 <= i < places.len() && ws.symbols_at(
            file,
            (#[trigger] places[i]).line,
            places[i].column,
        ) == Err::<Seq<Seq<char>>, Seq<char>>(e)
}

/// Whether a reference to a symbol in its own file stands inside `name`.
pub open spec fn used_inside(ws: WorkspaceIndex, key: Key, name: Seq<char>) -> bool {
    &&& symbol_row(ws.symbols@, key.0, key.1) matches Some(row)
    &&& row.local_references matches Ok(refs)
    &&& some_inside(ws, key.0, refs@, name)
}

/// Whether a symbol stays inside its file: other files do not refer to it, and it
/// is not exported.
pub open spec fn stays_inside(ws: WorkspaceIndex, key: Key) -> bool {
    &&& symbol_row(ws.symbols@, key.0, key.1) matches Some(row)
    &&& row.cross_file_references matches Ok(refs)
    &&& refs@.len() == 0
    &&& !row.is_exported
}

/// Whether the reference `r` stands inside the symbol `name` of its file, or
/// stands for the whole file, which declares and exports `name`.
pub open spec fn stands_inside(ws: WorkspaceIndex, r: Reference, name: Seq<char>) -> bool {
    if r.line == 0 && r.column == 0 {
        exists|i: int|
            0 <= i < ws.exports(r.file_path@).len() && (#[trigger] ws.exports(
                r.file_path@,
            )[i]).re_export_from is None && declared_name(ws.exports(r.file_path@)[i]) == name
    } else {
        finds(ws.symbols_at(r.file_path@, r.line, r.column), name)
    }
}

/// Whether another file refers to `a` inside `b`.
pub open spec fn referred_inside(ws: WorkspaceIndex, a: Key, b: Key) -> bool {
    exists|i: int|
        0 <= i < cross_references(ws, a).len() && (#[trigger] cross_references(
            ws,
            a,
        )[i]).file_path@ == b.0 && stands_inside(ws, cross_references(ws, a)[i], b.1)
}

/// Whether a change of `a` spreads to `b`, in one of three ways: `b` is another
/// symbol of its file that uses it; `a` stays inside its file and `b` is an
/// exported symbol there that uses it; or `b` refers to it from another file.
pub open spec fn leads_to(ws: WorkspaceIndex, a: Key, b: Key) -> bool {
    ||| b.0 == a.0 && b.1 != a.1 && used_inside(ws, a, b.1)
    ||| b.0 == a.0 && stays_inside(ws, a) && finds(ws.exported_users(a.0, a.1), b.1)
    ||| referred_inside(ws, a, b)
}

/// Whether a file that belongs to `package` refers to the symbol.
pub open spec fn refers(ws: WorkspaceIndex, package: Seq<char>, key: Key) -> bool {
    exists|i: int|
        0 <= i < cross_references(ws, key).len() && ws.owner(
            (#[trigger] cross_references(ws, key)[i]).file_path@,
        ) == Some(package)
}

/// Whether a query about the symbol failed, for the reason `e`: where it is used,
/// what stands there, or what uses it where it stays inside its file.
pub open spec fn fails(ws: WorkspaceIndex, key: Key, e: Seq<char>) -> bool {
    &&& symbol_row(ws.symbols@, key.0, key.1) matches Some(row)
    &&& {
        ||| match row.local_references {
            Ok(refs) => some_unknown(ws, key.0, refs@, e),
            Err(reason) => reason@ == e,
        }
        ||| row.cross_file_references matches Err(reason) && reason@ == e
        ||| stays_inside(ws, key) && names_view(row.exported_users) == Err::<
            Seq<Seq<char>>,
            Seq<char>,
        >(e)
    }
}

/// What a task comes to, whatever spelling and reason it carries.
pub enum Wish {
    /// To follow a symbol
    Follow(Key),
    /// To count a project as affected
    Affect(Seq<char>),
    /// To give up for a reason
    GiveUp(Seq<char>),
}

/// What `task` comes to.
pub open spec fn wish(task: Task) -> Wish {
    match task {
        Task::Visit(v) => Wish::Follow(v.key()),
        Task::Mark(m) => Wish::Affect(m.package),
        Task::Fail(e) => Wish::GiveUp(e),
    }
}

/// Whether one of the tasks comes to `w`.
pub open spec fn wanted(todo: Seq<Task>, w: Wish) -> bool {
    exists|i: int| 0 <= i < todo.len() && wish(#[trigger] todo[i]) == w
}

/// Whether following `key` comes to `w`.
pub open spec fn wants(ws: WorkspaceIndex, key: Key, w: Wish) -> bool {
    match w {
        Wish::Follow(b) => leads_to(ws, key, b),
        Wish::Affect(package) => refers(ws, package, key),
        Wish::GiveUp(e) => fails(ws, key, e),
    }
}

/// Whether each symbol of `route` leads to the next.
pub open spec fn is_route(ws: WorkspaceIndex, route: Seq<Key>) -> bool {
    route.len() > 0 && forall|i: int|
        0 < i < route.len() ==> leads_to(ws, route[i - 1], #[trigger] route[i])
}

/// Whether a chain of symbols leads from one that `todo` asks for to `key`.
pub open spec fn reaches(ws: WorkspaceIndex, todo: Seq<Task>, key: Key) -> bool {
    exists|route: Seq<Key>| #[trigger]
        is_route(ws, route) && wanted(todo, Wish::Follow(route[0])) && route.last() == key
}

/// Whether `todo`, or a symbol that it reaches, comes to `w`.
pub open spec fn reaches_wish(ws: WorkspaceIndex, todo: Seq<Task>, w: Wish) -> bool {
    wanted(todo, w) || exists|k: Key| #[trigger] reaches(ws, todo, k) && wants(ws, k, w)
}

proof fn lemma_wanted_sum(a: Seq<Task>, b: Seq<Task>, w: Wish)
    ensures
        wanted(a + b, w) <==> wanted(a, w) || wanted(b, w),
{
    let ab = a + b;
    if wanted(ab, w) {
        let i = choose|i: int| 0 <= i < ab.len() && wish(#[trigger] ab[i]) == w;
        if i < a.len() {
            assert(wish(a[i]) == w);
        } else {
            assert(wish(b[i - a.len()]) == w);
        }
    }
    if wanted(a, w) {
        let i = choose|i: int| 0 <= i < a.len() && wish(#[trigger] a[i]) == w;
        assert(wish(ab[i]) == w);
    }
    if wanted(b, w) {
        let i = choose|i: int| 0 <= i < b.len() && wish(#[trigger] b[i]) == w;
        assert(wish(ab[i + a.len()]) == w);
    }
}

proof fn lemma_wanted_one(t: Task, w: Wish)
    ensures
        wanted(seq![t], w) <==> wish(t) == w,
{
    assert(seq![t][0] == t);
    if wish(t) == w {
        assert(wish(seq![t][0]) == w);
    }
}

proof fn lemma_wanted_first(todo: Seq<Task>, w: Wish)
    requires
        todo.len() > 0,
    ensures
        wanted(todo, w) <==> wish(todo[0]) == w || wanted(todo.drop_first(), w),
{
    assert(todo =~= seq![todo[0]] + todo.drop_first());
    lemma_wanted_sum(seq![todo[0]], todo.drop_first(), w);
    lemma_wanted_one(todo[0], w);
}

proof fn lemma_wanted_last(todo: Seq<Task>, w: Wish)
    requires
        todo.len() > 0,
    ensures
        wanted(todo, w) <==> wanted(todo.drop_last(), w) || wish(todo.last()) == w,
{
    assert(todo =~= todo.drop_last() + seq![todo.last()]);
    lemma_wanted_sum(todo.drop_last(), seq![todo.last()], w);
    lemma_wanted_one(todo.last(), w);
}

proof fn lemma_contains_last<A>(s: Seq<A>, a: A)
    requires
        s.len() > 0,
    ensures
        s.contains(a) <==> a == s.last() || s.drop_last().contains(a),
{
    if s.contains(a) {
        let i = choose|i: int| 0 <= i < s.len() && s[i] == a;
        if i < s.len() - 1 {
            assert(s.drop_last()[i] == a);
        }
    }
    if s.drop_last().contains(a) {
        let i = choose|i: int| 0 <= i < s.drop_last().len() && s.drop_last()[i] == a;
        assert(s[i] == a);
    }
    assert(s[s.len() - 1] == s.last());
}

proof fn lemma_visits(file: PathView, names: Seq<Seq<char>>, w: Wish)
    ensures
        wanted(visits(file, names), w) <==> (w matches Wish::Follow(k) && k.0 == file.parts
            && names.contains(k.1)),
{
    let all = visits(file, names);
    if wanted(all, w) {
        let i = choose|i: int| 0 <= i < all.len() && wish(#[trigger] all[i]) == w;
        assert(names.contains(names[i]));
    }
    if let Wish::Follow(k) = w {
        if k.0 == file.parts && names.contains(k.1) {
            let i = choose|i: int| 0 <= i < names.len() && names[i] == k.1;
            assert(wish(all[i]) == w);
        }
    }
}

proof fn lemma_other_visits(v: Visit, names: Seq<Seq<char>>, w: Wish)
    ensures
        wanted(other_visits(v, names), w) <==> (w matches Wish::Follow(k) && k.0 == v.file.parts
            && k.1 != v.name && names.contains(k.1)),
    decreases names.len(),
{
    if names.len() > 0 {
        lemma_other_visits(v, names.drop_last(), w);
        if let Wish::Follow(k) = w {
            lemma_contains_last(names, k.1);
        }
        if names.last() != v.name {
            let all = other_visits(v, names);
            lemma_wanted_last(all, w);
            assert(all.drop_last() =~= other_visits(v, names.drop_last()));
        }
    }
}

/// Whether a file declares and exports `name`.
spec fn exports_name(exports: Seq<Export>, name: Seq<char>) -> bool {
    exists|i: int|
        0 <= i < exports.len() && (#[trigger] exports[i]).re_export_from is None && declared_name(
            exports[i],
        ) == name
}

proof fn lemma_exports_last(exports: Seq<Export>, name: Seq<char>)
    requires
        exports.len() > 0,
    ensures
        exports_name(exports, name) <==> exports_name(exports.drop_last(), name) || (
        exports.last().re_export_from is None && declared_name(exports.last()) == name),
{
    let rest = exports.drop_last();
    if exports_name(exports, name) {
        let i = choose|i: int|
            0 <= i < exports.len() && (#[trigger] exports[i]).re_export_from is None
                && declared_name(exports[i]) == name;
        if i < rest.len() {
            assert(rest[i] == exports[i]);
        }
    }
    if exports_name(rest, name) {
        let i = choose|i: int|
            0 <= i < rest.len() && (#[trigger] rest[i]).re_export_from is None && declared_name(
                rest[i],
            ) == name;
        assert(exports[i] == rest[i]);
    }
    assert(exports[exports.len() - 1] == exports.last());
}

proof fn lemma_exported_names(exports: Seq<Export>, name: Seq<char>)
    ensures
        exported_names(exports).contains(name) <==> exports_name(exports, name),
    decreases exports.len(),
{
    if exports.len() > 0 {
        lemma_exported_names(exports.drop_last(), name);
        lemma_exports_last(exports, name);
        if exports.last().re_export_from is None {
            let all = exported_names(exports);
            lemma_contains_last(all, name);
            assert(all.drop_last() =~= exported_names(exports.drop_last()));
        }
    }
}

proof fn lemma_export_visits(file: PathView, exports: Seq<Export>, w: Wish)
    ensures
        wanted(export_visits(file, exports), w) <==> (w matches Wish::Follow(k) && k.0 == file.parts
            && exports_name(exports, k.1)),
{
    lemma_visits(file, exported_names(exports), w);
    if let Wish::Follow(k) = w {
        lemma_exported_names(exports, k.1);
    }
}

proof fn lemma_inside_last(
    ws: WorkspaceIndex,
    file: Seq<Seq<char>>,
    places: Seq<Position>,
    text: Seq<char>,
)
    requires
        places.len() > 0,
    ensures
        some_inside(ws, file, places, text) <==> some_inside(ws, file, places.drop_last(), text)
            || finds(ws.symbols_at(file, places.last().line, places.last().column), text),
        some_unknown(ws, file, places, text) <==> some_unknown(ws, file, places.drop_last(), text)
            || ws.symbols_at(file, places.last().line, places.last().column) == Err::<
            Seq<Seq<char>>,
            Seq<char>,
        >(text),
{
    let rest = places.drop_last();
    let n = places.len() - 1;
    assert(places[n] == places.last());
    assert forall|i: int| 0 <= i < n implies #[trigger] rest[i] == places[i] by {}
    if some_inside(ws, file, places, text) {
        let i = choose|i: int|
            0 <= i < places.len() && finds(
                ws.symbols_at(file, (#[trigger] places[i]).line, places[i].column),
                text,
            );
        if i < n {
            assert(rest[i] == places[i]);
        }
    }
    if some_inside(ws, file, rest, text) {
        let i = choose|i: int|
            0 <= i < rest.len() && finds(
                ws.symbols_at(file, (#[trigger] rest[i]).line, rest[i].column),
                text,
            );
        assert(rest[i] == places[i]);
    }
    if some_unknown(ws, file, places, text) {
        let i = choose|i: int|
            0 <= i < places.len() && ws.symbols_at(
                file,
                (#[trigger] places[i]).line,
                places[i].column,
            ) == Err::<Seq<Seq<char>>, Seq<char>>(text);
        if i < n {
            assert(rest[i] == places[i]);
        }
    }
    if some_unknown(ws, file, rest, text) {
        let i = choose|i: int|
            0 <= i < rest.len() && ws.symbols_at(
                file,
                (#[trigger] rest[i]).line,
                rest[i].column,
            ) == Err::<Seq<Seq<char>>, Seq<char>>(text);
        assert(rest[i] == places[i]);
    }
}

proof fn lemma_local_tasks(ws: WorkspaceIndex, v: Visit, refs: Seq<Position>, w: Wish)
    ensures
        wanted(local_tasks(ws, v, refs), w) <==> match w {
            Wish::Follow(k) => k.0 == v.file.parts && k.1 != v.name && some_inside(
                ws,
                v.file.parts,
                refs,
                k.1,
            ),
            Wish::Affect(_) => false,
            Wish::GiveUp(e) => some_unknown(ws, v.file.parts, refs, e),
        },
    decreases refs.len(),
{
    if refs.len() > 0 {
        let rest = refs.drop_last();
        let pos = refs.last();
        let found = ws.symbols_at(v.file.parts, pos.line, pos.column);
        let step = match found {
            Ok(names) => other_visits(v, names),
            Err(e) => seq![Task::Fail(e)],
        };
        lemma_local_tasks(ws, v, rest, w);
        lemma_wanted_sum(local_tasks(ws, v, rest), step, w);
        match found {
            Ok(names) => {
                lemma_other_visits(v, names, w);
            },
            Err(e) => {
                lemma_wanted_one(Task::Fail(e), w);
            },
        }
        match w {
            Wish::Follow(k) => {
                lemma_inside_last(ws, v.file.parts, refs, k.1);
            },
            Wish::GiveUp(e) => {
                lemma_inside_last(ws, v.file.parts, refs, e);
            },
            Wish::Affect(_) => {},
        }
    }
}

/// What one reference comes to.
proof fn lemma_reference_tasks(ws: WorkspaceIndex, v: Visit, r: Reference, w: Wish)
    ensures
        wanted(reference_tasks(ws, v, r), w) <==> match w {
            Wish::Follow(k) => k.0 == r.file_path@ && stands_inside(ws, r, k.1),
            Wish::Affect(package) => ws.owner(r.file_path@) == Some(package),
            Wish::GiveUp(_) => false,
        },
{
    let file = r.file_path.full();
    let mark = match ws.owner(r.file_path@) {
        Some(package) => seq![Task::Mark(Mark { package, cause: import_cause(ws, v, file) })],
        None => seq![],
    };
    let follow = if r.line == 0 && r.column == 0 {
        export_visits(file, ws.exports(r.file_path@))
    } else {
        match ws.symbols_at(r.file_path@, r.line, r.column) {
            Ok(names) => visits(file, names),
            Err(_) => seq![],
        }
    };
    assert(reference_tasks(ws, v, r) == mark + follow);
    lemma_wanted_sum(mark, follow, w);
    lemma_export_visits(file, ws.exports(r.file_path@), w);
    if let Ok(names) = ws.symbols_at(r.file_path@, r.line, r.column) {
        lemma_visits(file, names, w);
    }
    if let Some(package) = ws.owner(r.file_path@) {
        lemma_wanted_one(
            Task::Mark(Mark { package, cause: import_cause(ws, v, file) }),
            w,
        );
    }
}

proof fn lemma_cross_tasks(ws: WorkspaceIndex, v: Visit, refs: Seq<Reference>, w: Wish)
    ensures
        wanted(cross_tasks(ws, v, refs), w) <==> exists|i: int|
            0 <= i < refs.len() && wanted(reference_tasks(ws, v, #[trigger] refs[i]), w),
    decreases refs.len(),
{
    if refs.len() > 0 {
        let rest = refs.drop_last();
        lemma_cross_tasks(ws, v, rest, w);
        lemma_wanted_sum(cross_tasks(ws, v, rest), reference_tasks(ws, v, refs.last()), w);
        assert(refs[refs.len() - 1] == refs.last());
        if exists|i: int|
            0 <= i < rest.len() && wanted(reference_tasks(ws, v, #[trigger] rest[i]), w) {
            let i = choose|i: int|
                0 <= i < rest.len() && wanted(reference_tasks(ws, v, #[trigger] rest[i]), w);
            assert(refs[i] == rest[i]);
        }
        if exists|i: int|
            0 <= i < refs.len() && wanted(reference_tasks(ws, v, #[trigger] refs[i]), w) {
            let i = choose|i: int|
                0 <= i < refs.len() && wanted(reference_tasks(ws, v, #[trigger] refs[i]), w);
            if i < rest.len() {
                assert(refs[i] == rest[i]);
            }
        }
    }
}

proof fn lemma_cross_wishes(ws: WorkspaceIndex, v: Visit, w: Wish)
    ensures
        wanted(cross_tasks(ws, v, cross_references(ws, v.key())), w) <==> match w {
            Wish::Follow(b) => referred_inside(ws, v.key(), b),
            Wish::Affect(package) => refers(ws, package, v.key()),
            Wish::GiveUp(_) => false,
        },
{
    let refs = cross_references(ws, v.key());
    lemma_cross_tasks(ws, v, refs, w);
    if wanted(cross_tasks(ws, v, refs), w) {
        let i = choose|i: int|
            0 <= i < refs.len() && wanted(reference_tasks(ws, v, #[trigger] refs[i]), w);
        lemma_reference_tasks(ws, v, refs[i], w);
    }
    match w {
        Wish::Follow(b) => {
            if referred_inside(ws, v.key(), b) {
                let i = choose|i: int|
                    0 <= i < refs.len() && (#[trigger] refs[i]).file_path@ == b.0 && stands_inside(
                        ws,
                        refs[i],
                        b.1,
                    );
                lemma_reference_tasks(ws, v, refs[i], w);
            }
        },
        Wish::Affect(package) => {
            if refers(ws, package, v.key()) {
                let i = choose|i: int|
                    0 <= i < refs.len() && ws.owner((#[trigger] refs[i]).file_path@) == Some(
                        package,
                    );
                lemma_reference_tasks(ws, v, refs[i], w);
            }
        },
        Wish::GiveUp(_) => {},
    }
}

/// The tasks that following a symbol asks for come to exactly what its uses say:
/// the symbols that its change spreads to, the projects that refer to it, and the
/// failures of the queries about it.
pub proof fn changes_spread_by_use(ws: WorkspaceIndex, v: Visit, w: Wish)
    ensures
        wanted(symbol_tasks(ws, v), w) <==> wants(ws, v.key(), w),
{
    let key = v.key();
    if let Some(row) = symbol_row(ws.symbols@, key.0, key.1) {
        let local = match row.local_references {
            Ok(refs) => local_tasks(ws, v, refs@),
            Err(e) => seq![Task::Fail(e@)],
        };
        let inner = match row.cross_file_references {
            Ok(refs) => if refs@.len() == 0 && !row.is_exported {
                match names_view(row.exported_users) {
                    Ok(names) => visits(v.file, names),
                    Err(e) => seq![Task::Fail(e)],
                }
            } else {
                seq![]
            },
            Err(e) => seq![Task::Fail(e@)],
        };
        let outer = cross_tasks(ws, v, cross_references(ws, key));
        assert(symbol_tasks(ws, v) =~= local + (inner + outer));
        lemma_wanted_sum(local, inner + outer, w);
        lemma_wanted_sum(inner, outer, w);
        lemma_cross_wishes(ws, v, w);
        match row.local_references {
            Ok(refs) => {
                lemma_local_tasks(ws, v, refs@, w);
            },
            Err(e) => {
                lemma_wanted_one(Task::Fail(e@), w);
            },
        }
        match row.cross_file_references {
            Ok(refs) => match names_view(row.exported_users) {
                Ok(names) => {
                    lemma_visits(v.file, names, w);
                },
                Err(e) => {
                    lemma_wanted_one(Task::Fail(e), w);
                },
            },
            Err(e) => {
                lemma_wanted_one(Task::Fail(e@), w);
            },
        }
    } else {
        assert(cross_references(ws, key).len() == 0);
    }
}

/// Whether `todo`, or a symbol in `keys`, comes to `w`.
spec fn asked(ws: WorkspaceIndex, todo: Seq<Task>, keys: Set<Key>, w: Wish) -> bool {
    wanted(todo, w) || exists|k: Key| #[trigger] keys.contains(k) && wants(ws, k, w)
}

/// Whether `r` accounts for everything that `todo` asks for, `visited` aside.
#[verifier::opaque]
spec fn accounts(ws: WorkspaceIndex, todo: Seq<Task>, visited: Set<Key>, r: Outcome) -> bool {
    let fresh = r.visited.difference(visited);
    &&& visited.subset_of(r.visited)
    &&& forall|p: Seq<char>| #[trigger]
        packages_of(r.marks).contains(p) ==> asked(ws, todo, fresh, Wish::Affect(p))
    &&& match r.failure {
        Some(e) => asked(ws, todo, fresh, Wish::GiveUp(e)),
        None => forall|w: Wish| #[trigger]
            asked(ws, todo, fresh, w) ==> match w {
                Wish::Follow(k) => r.visited.contains(k),
                Wish::Affect(p) => packages_of(r.marks).contains(p),
                Wish::GiveUp(_) => false,
            },
    }
}

/// A symbol that was not followed yet may be replaced by what following it asks
/// for.
proof fn lemma_accounts_visit(
    ws: WorkspaceIndex,
    todo: Seq<Task>,
    visited: Set<Key>,
    v: Visit,
    r: Outcome,
)
    requires
        todo.len() > 0,
        todo[0] == Task::Visit(v),
        !visited.contains(v.key()),
        accounts(ws, symbol_tasks(ws, v) + todo.drop_first(), visited.insert(v.key()), r),
    ensures
        accounts(ws, todo, visited, r),
{
    reveal(accounts);
    let key = v.key();
    let rest = todo.drop_first();
    let own = symbol_tasks(ws, v);
    let inner = own + rest;
    let fresh = r.visited.difference(visited);
    let later = r.visited.difference(visited.insert(key));
    assert(r.visited.contains(key)) by {
        assert(visited.insert(key).contains(key));
    }
    assert(fresh.contains(key));
    assert forall|w: Wish| asked(ws, inner, later, w) implies asked(ws, todo, fresh, w) by {
        lemma_wanted_sum(own, rest, w);
        lemma_wanted_first(todo, w);
        changes_spread_by_use(ws, v, w);
        if wanted(inner, w) {
            if wanted(own, w) {
                assert(fresh.contains(key) && wants(ws, key, w));
            }
        } else {
            let k = choose|k: Key| #[trigger] later.contains(k) && wants(ws, k, w);
            assert(fresh.contains(k));
        }
    }
    assert forall|w: Wish| #[trigger] asked(ws, todo, fresh, w) implies asked(ws, inner, later, w)
        || w == Wish::Follow(key) by {
        lemma_wanted_sum(own, rest, w);
        lemma_wanted_first(todo, w);
        changes_spread_by_use(ws, v, w);
        if !wanted(todo, w) {
            let k = choose|k: Key| #[trigger] fresh.contains(k) && wants(ws, k, w);
            if k != key {
                assert(later.contains(k));
            }
        }
    }
}

proof fn lemma_accounts_mark(
    ws: WorkspaceIndex,
    todo: Seq<Task>,
    visited: Set<Key>,
    m: Mark,
    later: Outcome,
    r: Outcome,
)
    requires
        todo.len() > 0,
        todo[0] == Task::Mark(m),
        accounts(ws, todo.drop_first(), visited, later),
        r.marks == seq![m] + later.marks,
        r.visited == later.visited,
        r.failure == later.failure,
    ensures
        accounts(ws, todo, visited, r),
{
    reveal(accounts);
    let rest = todo.drop_first();
    let fresh = r.visited.difference(visited);
    assert forall|w: Wish| #[trigger] asked(ws, todo, fresh, w) <==> asked(ws, rest, fresh, w) || w
        == Wish::Affect(m.package) by {
        lemma_wanted_first(todo, w);
    }
    marks_add_up(seq![m], later.marks);
    assert forall|p: Seq<char>| #[trigger]
        packages_of(r.marks).contains(p) <==> p == m.package || packages_of(later.marks).contains(
            p,
        ) by {
        assert(seq![m][0].package == m.package);
    }
}

proof fn lemma_accounts_seen(
    ws: WorkspaceIndex,
    todo: Seq<Task>,
    visited: Set<Key>,
    v: Visit,
    r: Outcome,
)
    requires
        todo.len() > 0,
        todo[0] == Task::Visit(v),
        visited.contains(v.key()),
        accounts(ws, todo.drop_first(), visited, r),
    ensures
        accounts(ws, todo, visited, r),
{
    reveal(accounts);
    let rest = todo.drop_first();
    let fresh = r.visited.difference(visited);
    assert forall|w: Wish| #[trigger] asked(ws, todo, fresh, w) <==> asked(ws, rest, fresh, w) || w
        == Wish::Follow(v.key()) by {
        lemma_wanted_first(todo, w);
    }
}

proof fn lemma_trace_accounts(ws: WorkspaceIndex, todo: Seq<Task>, visited: Set<Key>)
    ensures
        accounts(ws, todo, visited, trace(ws, todo, visited)),
    decreases unvisited(ws.symbols@, visited), todo.len(),
{
    let r = trace(ws, todo, visited);
    if todo.len() == 0 {
        reveal(accounts);
        assert(r.visited.difference(visited) =~= Set::empty());
    } else {
        let rest = todo.drop_first();
        match todo[0] {
            Task::Fail(e) => {
                reveal(accounts);
                lemma_wanted_first(todo, Wish::GiveUp(e));
            },
            Task::Mark(m) => {
                lemma_trace_accounts(ws, rest, visited);
                let later = trace(ws, rest, visited);
                lemma_accounts_mark(ws, todo, visited, m, later, r);
            },
            Task::Visit(v) => {
                let key = v.key();
                if visited.contains(key) {
                    lemma_trace_accounts(ws, rest, visited);
                    lemma_accounts_seen(ws, todo, visited, v, r);
                } else {
                    visit_lowers_unvisited(ws.symbols@, visited, key);
                    if symbol_row(ws.symbols@, key.0, key.1) is None {
                        assert(symbol_tasks(ws, v) + rest =~= rest);
                        lemma_trace_accounts(ws, rest, visited.insert(key));
                    } else {
                        lemma_trace_accounts(ws, symbol_tasks(ws, v) + rest, visited.insert(key));
                    }
                    lemma_accounts_visit(ws, todo, visited, v, r);
                }
            },
        }
    }
}

proof fn lemma_reaches_more(ws: WorkspaceIndex, fewer: Seq<Task>, todo: Seq<Task>, key: Key)
    requires
        reaches(ws, fewer, key),
        forall|w: Wish| wanted(fewer, w) ==> wanted(todo, w),
    ensures
        reaches(ws, todo, key),
{
    let route = choose|route: Seq<Key>| #[trigger]
        is_route(ws, route) && wanted(fewer, Wish::Follow(route[0])) && route.last() == key;
    assert(is_route(ws, route) && wanted(todo, Wish::Follow(route[0])) && route.last() == key);
}

proof fn lemma_reaches_through(ws: WorkspaceIndex, todo: Seq<Task>, v: Visit, key: Key)
    requires
        wanted(todo, Wish::Follow(v.key())),
        reaches(ws, symbol_tasks(ws, v), key),
    ensures
        reaches(ws, todo, key),
{
    let own = symbol_tasks(ws, v);
    let route = choose|route: Seq<Key>| #[trigger]
        is_route(ws, route) && wanted(own, Wish::Follow(route[0])) && route.last() == key;
    changes_spread_by_use(ws, v, Wish::Follow(route[0]));
    let longer = seq![v.key()] + route;
    assert forall|i: int| 0 < i < longer.len() implies leads_to(
        ws,
        longer[i - 1],
        #[trigger] longer[i],
    ) by {
        if i > 1 {
            assert(leads_to(ws, route[i - 2], route[i - 1]));
        }
    }
    assert(is_route(ws, longer));
    assert(longer[0] == v.key());
    assert(longer.last() == key);
}

proof fn lemma_reaches_start(ws: WorkspaceIndex, todo: Seq<Task>, key: Key)
    requires
        wanted(todo, Wish::Follow(key)),
    ensures
        reaches(ws, todo, key),
{
    let route = seq![key];
    assert(is_route(ws, route));
    assert(route[0] == key);
    assert(route.last() == key);
}

/// What is reached after a symbol was replaced by what following it asks for was
/// reached before.
proof fn lemma_reaches_unfolded(ws: WorkspaceIndex, todo: Seq<Task>, v: Visit, key: Key)
    requires
        todo.len() > 0,
        todo[0] == Task::Visit(v),
        reaches(ws, symbol_tasks(ws, v) + todo.drop_first(), key),
    ensures
        reaches(ws, todo, key),
{
    let own = symbol_tasks(ws, v);
    let rest = todo.drop_first();
    let inner = own + rest;
    let route = choose|route: Seq<Key>| #[trigger]
        is_route(ws, route) && wanted(inner, Wish::Follow(route[0])) && route.last() == key;
    lemma_wanted_sum(own, rest, Wish::Follow(route[0]));
    lemma_wanted_first(todo, Wish::Follow(v.key()));
    if wanted(own, Wish::Follow(route[0])) {
        assert(reaches(ws, own, key));
        lemma_reaches_through(ws, todo, v, key);
    } else {
        assert(reaches(ws, rest, key));
        assert forall|w: Wish| wanted(rest, w) implies wanted(todo, w) by {
            lemma_wanted_first(todo, w);
        }
        lemma_reaches_more(ws, rest, todo, key);
    }
}

proof fn lemma_reaches_rest(ws: WorkspaceIndex, todo: Seq<Task>, key: Key)
    requires
        todo.len() > 0,
        reaches(ws, todo.drop_first(), key),
    ensures
        reaches(ws, todo, key),
{
    assert forall|w: Wish| wanted(todo.drop_first(), w) implies wanted(todo, w) by {
        lemma_wanted_first(todo, w);
    }
    lemma_reaches_more(ws, todo.drop_first(), todo, key);
}

proof fn lemma_followed_is_reached(ws: WorkspaceIndex, todo: Seq<Task>, visited: Set<Key>, key: Key)
    requires
        trace(ws, todo, visited).visited.contains(key),
        !visited.contains(key),
    ensures
        reaches(ws, todo, key),
    decreases unvisited(ws.symbols@, visited), todo.len(),
{
    if todo.len() > 0 {
        let rest = todo.drop_first();
        match todo[0] {
            Task::Fail(e) => {},
            Task::Mark(m) => {
                lemma_followed_is_reached(ws, rest, visited, key);
                lemma_reaches_rest(ws, todo, key);
            },
            Task::Visit(v) => {
                let first = v.key();
                if visited.contains(first) {
                    lemma_followed_is_reached(ws, rest, visited, key);
                    lemma_reaches_rest(ws, todo, key);
                } else if key == first {
                    lemma_wanted_first(todo, Wish::Follow(key));
                    lemma_reaches_start(ws, todo, key);
                } else {
                    visit_lowers_unvisited(ws.symbols@, visited, first);
                    let inner = symbol_tasks(ws, v) + rest;
                    if symbol_row(ws.symbols@, first.0, first.1) is None {
                        assert(inner =~= rest);
                    }
                    lemma_followed_is_reached(ws, inner, visited.insert(first), key);
                    lemma_reaches_unfolded(ws, todo, v, key);
                }
            },
        }
    }
}

/// Whether a mark comes from following a symbol that `todo` reaches.
pub open spec fn reaches_mark(ws: WorkspaceIndex, todo: Seq<Task>, m: Mark) -> bool {
    exists|v: Visit| #[trigger]
        symbol_tasks(ws, v).contains(Task::Mark(m)) && reaches(ws, todo, v.key())
}

proof fn lemma_mark_is_reached(ws: WorkspaceIndex, todo: Seq<Task>, visited: Set<Key>, m: Mark)
    requires
        trace(ws, todo, visited).marks.contains(m),
    ensures
        todo.contains(Task::Mark(m)) || reaches_mark(ws, todo, m),
    decreases unvisited(ws.symbols@, visited), todo.len(),
{
    if todo.len() > 0 {
        let rest = todo.drop_first();
        assert forall|t: Task| rest.contains(t) implies todo.contains(t) by {
            let i = choose|i: int| 0 <= i < rest.len() && rest[i] == t;
            assert(todo[i + 1] == t);
        }
        match todo[0] {
            Task::Fail(e) => {},
            Task::Mark(first) => {
                assert(todo.contains(todo[0]));
                let later = trace(ws, rest, visited).marks;
                let marks = seq![first] + later;
                let i = choose|i: int| 0 <= i < marks.len() && marks[i] == m;
                if i > 0 {
                    assert(later[i - 1] == m);
                    lemma_mark_is_reached(ws, rest, visited, m);
                    lemma_reached_mark_rest(ws, todo, m);
                }
            },
            Task::Visit(v) => {
                let first = v.key();
                if visited.contains(first) {
                    lemma_mark_is_reached(ws, rest, visited, m);
                    lemma_reached_mark_rest(ws, todo, m);
                } else {
                    visit_lowers_unvisited(ws.symbols@, visited, first);
                    let own = symbol_tasks(ws, v);
                    let inner = own + rest;
                    if symbol_row(ws.symbols@, first.0, first.1) is None {
                        assert(inner =~= rest);
                    }
                    lemma_mark_is_reached(ws, inner, visited.insert(first), m);
                    if inner.contains(Task::Mark(m)) {
                        let i = choose|i: int| 0 <= i < inner.len() && inner[i] == Task::Mark(m);
                        if i < own.len() {
                            assert(own[i] == Task::Mark(m));
                            lemma_wanted_first(todo, Wish::Follow(first));
                            lemma_reaches_start(ws, todo, first);
                            assert(symbol_tasks(ws, v).contains(Task::Mark(m)));
                        } else {
                            assert(rest[i - own.len()] == Task::Mark(m));
                        }
                    } else {
                        let u = choose|u: Visit| #[trigger]
                            symbol_tasks(ws, u).contains(Task::Mark(m)) && reaches(
                                ws,
                                inner,
                                u.key(),
                            );
                        lemma_reaches_unfolded(ws, todo, v, u.key());
                    }
                }
            },
        }
    }
}

proof fn lemma_reached_mark_rest(ws: WorkspaceIndex, todo: Seq<Task>, m: Mark)
    requires
        todo.len() > 0,
    ensures
        reaches_mark(ws, todo.drop_first(), m) ==> reaches_mark(ws, todo, m),
{
    if reaches_mark(ws, todo.drop_first(), m) {
        let u = choose|u: Visit| #[trigger]
            symbol_tasks(ws, u).contains(Task::Mark(m)) && reaches(
                ws,
                todo.drop_first(),
                u.key(),
            );
        lemma_reaches_rest(ws, todo, u.key());
    }
}

proof fn lemma_route_is_followed(ws: WorkspaceIndex, todo: Seq<Task>, route: Seq<Key>, n: int)
    requires
        trace(ws, todo, Set::empty()).failure is None,
        is_route(ws, route),
        wanted(todo, Wish::Follow(route[0])),
        0 <= n < route.len(),
    ensures
        trace(ws, todo, Set::empty()).visited.contains(route[n]),
    decreases n,
{
    let none = Set::<Key>::empty();
    let r = trace(ws, todo, none);
    lemma_trace_accounts(ws, todo, none);
    reveal(accounts);
    let fresh = r.visited.difference(none);
    if n == 0 {
        assert(asked(ws, todo, fresh, Wish::Follow(route[0])));
    } else {
        lemma_route_is_followed(ws, todo, route, n - 1);
        assert(leads_to(ws, route[n - 1], route[n]));
        assert(fresh.contains(route[n - 1]));
        assert(wants(ws, route[n - 1], Wish::Follow(route[n])));
        assert(asked(ws, todo, fresh, Wish::Follow(route[n])));
    }
}

/// Where no query fails, the symbols followed are exactly those that a chain of
/// uses leads to: none is missed, and none is added, however the uses loop.
pub proof fn followed_symbols_are_the_reached(ws: WorkspaceIndex, todo: Seq<Task>, key: Key)
    requires
        trace(ws, todo, Set::empty()).failure is None,
    ensures
        trace(ws, todo, Set::empty()).visited.contains(key) <==> reaches(ws, todo, key),
{
    if trace(ws, todo, Set::empty()).visited.contains(key) {
        lemma_followed_is_reached(ws, todo, Set::empty(), key);
    }
    if reaches(ws, todo, key) {
        let route = choose|route: Seq<Key>| #[trigger]
            is_route(ws, route) && wanted(todo, Wish::Follow(route[0])) && route.last() == key;
        lemma_route_is_followed(ws, todo, route, route.len() - 1);
    }
}

/// Following symbols affects no project but those that a reached symbol comes to,
/// even where a failure cuts it short; without a failure it affects all of these.
pub proof fn affected_projects_are_the_reached(
    ws: WorkspaceIndex,
    todo: Seq<Task>,
    package: Seq<char>,
)
    ensures
        packages_of(trace(ws, todo, Set::empty()).marks).contains(package) ==> reaches_wish(
            ws,
            todo,
            Wish::Affect(package),
        ),
        trace(ws, todo, Set::empty()).failure is None ==> (packages_of(
            trace(ws, todo, Set::empty()).marks,
        ).contains(package) <==> reaches_wish(ws, todo, Wish::Affect(package))),
{
    let none = Set::<Key>::empty();
    let r = trace(ws, todo, none);
    let fresh = r.visited.difference(none);
    let w = Wish::Affect(package);
    lemma_trace_accounts(ws, todo, none);
    reveal(accounts);
    if packages_of(r.marks).contains(package) {
        assert(asked(ws, todo, fresh, w));
        if !wanted(todo, w) {
            let k = choose|k: Key| #[trigger] fresh.contains(k) && wants(ws, k, w);
            lemma_followed_is_reached(ws, todo, none, k);
            assert(reaches(ws, todo, k) && wants(ws, k, w));
        }
    }
    if r.failure is None && reaches_wish(ws, todo, w) {
        if !wanted(todo, w) {
            let k = choose|k: Key| #[trigger] reaches(ws, todo, k) && wants(ws, k, w);
            followed_symbols_are_the_reached(ws, todo, k);
            assert(fresh.contains(k));
        }
        assert(asked(ws, todo, fresh, w));
    }
}

/// Every reason that following symbols gives names a symbol that was reached: it
/// comes from following one, unless `todo` gives it itself.
pub proof fn reasons_come_from_reached_symbols(ws: WorkspaceIndex, todo: Seq<Task>, mark: Mark)
    requires
        trace(ws, todo, Set::empty()).marks.contains(mark),
    ensures
        todo.contains(Task::Mark(mark)) || reaches_mark(ws, todo, mark),
{
    lemma_mark_is_reached(ws, todo, Set::empty(), mark);
}

/// Following symbols fails exactly where a reached symbol runs into a failed
/// query, and with the reason of one of these.
pub proof fn failures_are_the_reached(ws: WorkspaceIndex, todo: Seq<Task>)
    ensures
        trace(ws, todo, Set::empty()).failure matches Some(e) ==> reaches_wish(
            ws,
            todo,
            Wish::GiveUp(e),
        ),
        trace(ws, todo, Set::empty()).failure is None ==> forall|e: Seq<char>|
            !#[trigger] reaches_wish(ws, todo, Wish::GiveUp(e)),
{
    let none = Set::<Key>::empty();
    let r = trace(ws, todo, none);
    let fresh = r.visited.difference(none);
    lemma_trace_accounts(ws, todo, none);
    reveal(accounts);
    if let Some(e) = r.failure {
        let w = Wish::GiveUp(e);
        assert(asked(ws, todo, fresh, w));
        if !wanted(todo, w) {
            let k = choose|k: Key| #[trigger] fresh.contains(k) && wants(ws, k, w);
            lemma_followed_is_reached(ws, todo, none, k);
            assert(reaches(ws, todo, k) && wants(ws, k, w));
        }
    } else {
        assert forall|e: Seq<char>| !#[trigger] reaches_wish(ws, todo, Wish::GiveUp(e)) by {
            let w = Wish::GiveUp(e);
            if reaches_wish(ws, todo, w) {
                if !wanted(todo, w) {
                    let k = choose|k: Key| #[trigger] reaches(ws, todo, k) && wants(ws, k, w);
                    followed_symbols_are_the_reached(ws, todo, k);
                    assert(fresh.contains(k));
                }
                assert(asked(ws, todo, fresh, w));
            }
        }
    }
}

/// Whether `package` is affected through a chain of uses that starts with a symbol
/// that `todo` asks for.
pub open spec fn affected_from(ws: WorkspaceIndex, todo: Seq<Task>, package: Seq<char>) -> bool {
    exists|key: Key| #[trigger] reaches(ws, todo, key) && refers(ws, package, key)
}

proof fn lemma_affected_from(ws: WorkspaceIndex, todo: Seq<Task>, package: Seq<char>)
    requires
        !wanted(todo, Wish::Affect(package)),
    ensures
        reaches_wish(ws, todo, Wish::Affect(package)) <==> affected_from(ws, todo, package),
{
    let w = Wish::Affect(package);
    if reaches_wish(ws, todo, w) {
        let k = choose|k: Key| #[trigger] reaches(ws, todo, k) && wants(ws, k, w);
        assert(refers(ws, package, k));
    }
    if affected_from(ws, todo, package) {
        let k = choose|k: Key| #[trigger] reaches(ws, todo, k) && refers(ws, package, k);
        assert(wants(ws, k, w));
    }
}

proof fn lemma_line_marks_nothing(ws: WorkspaceIndex, file: PathView, line: usize, w: Wish)
    ensures
        w is Affect ==> !wanted(line_tasks(ws, file, line), w),
{
    match ws.symbols_at(file.parts, line, 0) {
        Ok(names) => {
            lemma_visits(file, names, w);
        },
        Err(e) => {
            lemma_wanted_one(Task::Fail(e), w);
        },
    }
}

/// A changed line affects no project but those whose files refer to a symbol
/// that a chain of uses leads to from the line. Where no query fails on the way,
/// it affects all of these.
pub proof fn line_affects_the_referring(
    ws: WorkspaceIndex,
    file: PathView,
    line: usize,
    package: Seq<char>,
)
    ensures
        packages_of(line_trace(ws, file, line).marks).contains(package) ==> affected_from(
            ws,
            line_tasks(ws, file, line),
            package,
        ),
        line_trace(ws, file, line).failure is None ==> (packages_of(
            line_trace(ws, file, line).marks,
        ).contains(package) <==> affected_from(ws, line_tasks(ws, file, line), package)),
{
    let todo = line_tasks(ws, file, line);
    lemma_line_marks_nothing(ws, file, line, Wish::Affect(package));
    lemma_affected_from(ws, todo, package);
    affected_projects_are_the_reached(ws, todo, package);
}

/// A changed symbol affects no project but those whose files refer to a symbol
/// that a chain of uses leads to from it. Where no query fails on the way, it
/// affects all of these.
pub proof fn symbol_affects_the_referring(ws: WorkspaceIndex, v: Visit, package: Seq<char>)
    ensures
        packages_of(symbol_trace(ws, v).marks).contains(package) ==> affected_from(
            ws,
            seq![Task::Visit(v)],
            package,
        ),
        symbol_trace(ws, v).failure is None ==> (packages_of(
            symbol_trace(ws, v).marks,
        ).contains(package) <==> affected_from(ws, seq![Task::Visit(v)], package)),
{
    let todo = seq![Task::Visit(v)];
    lemma_wanted_one(Task::Visit(v), Wish::Affect(package));
    lemma_affected_from(ws, todo, package);
    affected_projects_are_the_reached(ws, todo, package);
}

/// A symbol that nothing uses affects no project: neither its own file nor
/// another refers to it, and no exported symbol uses it.
pub proof fn unused_symbol_affects_nothing(ws: WorkspaceIndex, v: Visit)
    requires
        symbol_row(ws.symbols@, v.file.parts, v.name) matches Some(row) ==> {
            &&& row.local_references matches Ok(refs) && refs@.len() == 0
            &&& row.cross_file_references matches Ok(refs) && refs@.len() == 0
            &&& row.exported_users matches Ok(names) && names@.len() == 0
        },
    ensures
        symbol_trace(ws, v).marks.len() == 0,
        symbol_trace(ws, v).failure is None,
{
    let todo = seq![Task::Visit(v)];
    let none = Set::<Key>::empty();
    assert(todo.drop_first() =~= seq![]);
    assert(symbol_tasks(ws, v) =~= seq![]) by {
        if let Some(row) = symbol_row(ws.symbols@, v.file.parts, v.name) {
            if let Ok(names) = row.exported_users {
                assert(visits(v.file, texts(names@)) =~= seq![]);
            }
        }
    }
    assert(symbol_tasks(ws, v) + todo.drop_first() =~= seq![]);
    assert(trace(ws, seq![], none.insert(v.key())).marks.len() == 0);
}

/// Whether every symbol that a file of some project refers to lies in a project
/// itself.
pub open spec fn references_are_owned(ws: WorkspaceIndex) -> bool {
    forall|package: Seq<char>, key: Key| #[trigger]
        refers(ws, package, key) ==> ws.owner(key.0) is Some
}

/// A mark that following a symbol asks for carries a reason where the symbol lies
/// in a project.
proof fn lemma_mark_has_cause(ws: WorkspaceIndex, v: Visit, m: Mark)
    requires
        symbol_tasks(ws, v).contains(Task::Mark(m)),
        ws.owner(v.file.parts) is Some,
    ensures
        m.cause is Some,
{
    let key = v.key();
    if let Some(row) = symbol_row(ws.symbols@, key.0, key.1) {
        let refs = cross_references(ws, key);
        let outer = cross_tasks(ws, v, refs);
        let all = symbol_tasks(ws, v);
        let front = all.take(all.len() - outer.len());
        assert(all =~= front + outer) by {
            match row.cross_file_references {
                Ok(r) => {
                    assert(all.skip(all.len() - outer.len()) =~= outer);
                },
                Err(e) => {},
            }
        }
        let i = choose|i: int| 0 <= i < all.len() && all[i] == Task::Mark(m);
        if i >= front.len() {
            assert(outer[i - front.len()] == Task::Mark(m));
            lemma_cross_mark_has_cause(ws, v, refs, i - front.len());
        } else {
            let w = Wish::Affect(m.package);
            assert(wish(front[i]) == w);
            lemma_front_marks_nothing(ws, v, front, w);
        }
    }
}

/// What precedes the references in other files marks nothing.
proof fn lemma_front_marks_nothing(ws: WorkspaceIndex, v: Visit, front: Seq<Task>, w: Wish)
    requires
        w is Affect,
        symbol_row(ws.symbols@, v.file.parts, v.name) is Some,
        symbol_tasks(ws, v) == front + cross_tasks(ws, v, cross_references(ws, v.key())),
    ensures
        !wanted(front, w),
{
    let row = symbol_row(ws.symbols@, v.file.parts, v.name)->Some_0;
    let local = match row.local_references {
        Ok(refs) => local_tasks(ws, v, refs@),
        Err(e) => seq![Task::Fail(e@)],
    };
    let inner = match row.cross_file_references {
        Ok(refs) => if refs@.len() == 0 && !row.is_exported {
            match names_view(row.exported_users) {
                Ok(names) => visits(v.file, names),
                Err(e) => seq![Task::Fail(e)],
            }
        } else {
            seq![]
        },
        Err(e) => seq![Task::Fail(e@)],
    };
    let outer = cross_tasks(ws, v, cross_references(ws, v.key()));
    assert(symbol_tasks(ws, v) =~= local + (inner + outer));
    assert((local + inner) + outer =~= local + (inner + outer));
    assert(front =~= (front + outer).take(front.len() as int));
    assert(local + inner =~= ((local + inner) + outer).take((local + inner).len() as int));
    assert(front =~= local + inner);
    lemma_wanted_sum(local, inner, w);
    match row.local_references {
        Ok(refs) => {
            lemma_local_tasks(ws, v, refs@, w);
        },
        Err(e) => {
            lemma_wanted_one(Task::Fail(e@), w);
        },
    }
    match row.cross_file_references {
        Ok(refs) => match names_view(row.exported_users) {
            Ok(names) => {
                lemma_visits(v.file, names, w);
            },
            Err(e) => {
                lemma_wanted_one(Task::Fail(e), w);
            },
        },
        Err(e) => {
            lemma_wanted_one(Task::Fail(e@), w);
        },
    }
}

proof fn lemma_cross_mark_has_cause(ws: WorkspaceIndex, v: Visit, refs: Seq<Reference>, i: int)
    requires
        ws.owner(v.file.parts) is Some,
        0 <= i < cross_tasks(ws, v, refs).len(),
        cross_tasks(ws, v, refs)[i] is Mark,
    ensures
        cross_tasks(ws, v, refs)[i]->Mark_0.cause is Some,
    decreases refs.len(),
{
    if refs.len() > 0 {
        let rest = refs.drop_last();
        let earlier = cross_tasks(ws, v, rest);
        let last = reference_tasks(ws, v, refs.last());
        assert(cross_tasks(ws, v, refs) == earlier + last);
        if i < earlier.len() {
            lemma_cross_mark_has_cause(ws, v, rest, i);
        } else {
            let r = refs.last();
            let n = i - earlier.len();
            assert(last[n] is Mark);
            if ws.owner(r.file_path@) is None || n > 0 {
                let file = r.file_path.full();
                let k = if ws.owner(r.file_path@) is Some {
                    n - 1
                } else {
                    n
                };
                let follow = if r.line == 0 && r.column == 0 {
                    export_visits(file, ws.exports(r.file_path@))
                } else {
                    match ws.symbols_at(r.file_path@, r.line, r.column) {
                        Ok(names) => visits(file, names),
                        Err(_) => seq![],
                    }
                };
                assert(last[n] == follow[k]);
                let w = wish(follow[k]);
                lemma_export_visits(file, ws.exports(r.file_path@), w);
                if let Ok(names) = ws.symbols_at(r.file_path@, r.line, r.column) {
                    lemma_visits(file, names, w);
                }
                assert(wanted(follow, w));
            }
        }
    }
}

/// Where the symbols in use lie in projects, every mark on the way has a cause.
proof fn lemma_marks_have_causes(ws: WorkspaceIndex, todo: Seq<Task>)
    requires
        forall|w: Wish| w is Affect ==> !wanted(todo, w),
        references_are_owned(ws),
    ensures
        forall|i: int|
            0 <= i < trace(ws, todo, Set::empty()).marks.len() ==> (#[trigger] trace(
                ws,
                todo,
                Set::empty(),
            ).marks[i]).cause is Some,
{
    let marks = trace(ws, todo, Set::empty()).marks;
    assert forall|i: int| 0 <= i < marks.len() implies (#[trigger] marks[i]).cause is Some by {
        let m = marks[i];
        let w = Wish::Affect(m.package);
        assert(marks.contains(m));
        lemma_mark_is_reached(ws, todo, Set::empty(), m);
        if todo.contains(Task::Mark(m)) {
            let k = choose|k: int| 0 <= k < todo.len() && todo[k] == Task::Mark(m);
            assert(wish(todo[k]) == w);
            assert(wanted(todo, w));
        }
        let v = choose|v: Visit| #[trigger]
            symbol_tasks(ws, v).contains(Task::Mark(m)) && reaches(ws, todo, v.key());
        let own = symbol_tasks(ws, v);
        let k = choose|k: int| 0 <= k < own.len() && own[k] == Task::Mark(m);
        assert(wish(own[k]) == w);
        changes_spread_by_use(ws, v, w);
        assert(refers(ws, m.package, v.key()));
        lemma_mark_has_cause(ws, v, m);
    }
}

/// Where the symbols in use lie in projects, a changed line gives a reason for
/// every project that it affects.
pub proof fn line_gives_reasons(ws: WorkspaceIndex, file: PathView, line: usize)
    requires
        references_are_owned(ws),
    ensures
        forall|i: int|
            0 <= i < line_trace(ws, file, line).marks.len() ==> (#[trigger] line_trace(
                ws,
                file,
                line,
            ).marks[i]).cause is Some,
{
    assert forall|w: Wish| w is Affect implies !wanted(line_tasks(ws, file, line), w) by {
        lemma_line_marks_nothing(ws, file, line, w);
    }
    lemma_marks_have_causes(ws, line_tasks(ws, file, line));
}

/// Where the symbols in use lie in projects, a changed symbol gives a reason for
/// every project that it affects.
pub proof fn symbol_gives_reasons(ws: WorkspaceIndex, v: Visit)
    requires
        references_are_owned(ws),
    ensures
        forall|i: int|
            0 <= i < symbol_trace(ws, v).marks.len() ==> (#[trigger] symbol_trace(
                ws,
                v,
            ).marks[i]).cause is Some,
{
    assert forall|w: Wish| w is Affect implies !wanted(seq![Task::Visit(v)], w) by {
        lemma_wanted_one(Task::Visit(v), w);
    }
    lemma_marks_have_causes(ws, seq![Task::Visit(v)]);
}

/// A changed line asks to follow exactly the symbols found on it, or to give up where
/// they cannot be found.
pub proof fn line_asks_for_its_symbols(ws: WorkspaceIndex, file: PathView, line: usize, w: Wish)
    ensures
        wanted(line_tasks(ws, file, line), w) <==> match w {
            Wish::Follow(key) => key.0 == file.parts && finds(
                ws.symbols_at(file.parts, line, 0),
                key.1,
            ),
            Wish::Affect(_) => false,
            Wish::GiveUp(e) => ws.symbols_at(file.parts, line, 0) == Err::<
                Seq<Seq<char>>,
                Seq<char>,
            >(e),
        },
{
    match ws.symbols_at(file.parts, line, 0) {
        Ok(names) => {
            lemma_visits(file, names, w);
        },
        Err(e) => {
            lemma_wanted_one(Task::Fail(e), w);
        },
    }
}

/// Tasks are worked off in order: a mark is kept whatever comes of the rest, a failure
/// ends the work, and a symbol is followed at once unless it was followed before.
pub proof fn tasks_are_worked_off_in_order(
    ws: WorkspaceIndex,
    mark: Mark,
    reason: Seq<char>,
    v: Visit,
    rest: Seq<Task>,
    visited: Set<Key>,
)
    ensures
        ({
            let r = trace(ws, seq![Task::Mark(mark)] + rest, visited);
            let later = trace(ws, rest, visited);
            r.marks == seq![mark] + later.marks && r.visited == later.visited && r.failure
                == later.failure
        }),
        ({
            let r = trace(ws, seq![Task::Fail(reason)] + rest, visited);
            r.marks.len() == 0 && r.visited == visited && r.failure == Some(reason)
        }),
        visited.contains(v.key()) ==> trace(ws, seq![Task::Visit(v)] + rest, visited) == trace(
            ws,
            rest,
            visited,
        ),
        !visited.contains(v.key()) ==> trace(ws, seq![Task::Visit(v)] + rest, visited) == trace(
            ws,
            symbol_tasks(ws, v) + rest,
            visited.insert(v.key()),
        ),
        ({
            let r = trace(ws, seq![], visited);
            r.marks.len() == 0 && r.visited == visited && r.failure is None
        }),
{
    let a = seq![Task::Mark(mark)] + rest;
    let b = seq![Task::Fail(reason)] + rest;
    let c = seq![Task::Visit(v)] + rest;
    assert(a.drop_first() =~= rest && a[0] == Task::Mark(mark));
    assert(b.drop_first() =~= rest && b[0] == Task::Fail(reason));
    assert(c.drop_first() =~= rest && c[0] == Task::Visit(v));
    if symbol_row(ws.symbols@, v.key().0, v.key().1) is None {
        assert(symbol_tasks(ws, v) + rest =~= rest);
    }
}

/// Where no query fails, everything that following a symbol marks is marked for each
/// symbol that is followed.
proof fn lemma_followed_marks(ws: WorkspaceIndex, todo: Seq<Task>, visited: Set<Key>, key: Key)
    requires
        trace(ws, todo, visited).failure is None,
        trace(ws, todo, visited).visited.contains(key),
        !visited.contains(key),
    ensures
        exists|v: Visit| #[trigger]
            v.key() == key && forall|m: Mark| #[trigger]
                symbol_tasks(ws, v).contains(Task::Mark(m)) ==> trace(
                    ws,
                    todo,
                    visited,
                ).marks.contains(m),
    decreases unvisited(ws.symbols@, visited), todo.len(),
{
    let r = trace(ws, todo, visited);
    if todo.len() > 0 {
        let rest = todo.drop_first();
        match todo[0] {
            Task::Fail(e) => {},
            Task::Mark(first) => {
                lemma_followed_marks(ws, rest, visited, key);
                let later = trace(ws, rest, visited).marks;
                let v = choose|v: Visit| #[trigger]
                    v.key() == key && forall|m: Mark| #[trigger]
                        symbol_tasks(ws, v).contains(Task::Mark(m)) ==> later.contains(m);
                assert forall|m: Mark| #[trigger]
                    symbol_tasks(ws, v).contains(Task::Mark(m)) implies r.marks.contains(m) by {
                    let i = choose|i: int| 0 <= i < later.len() && later[i] == m;
                    assert(r.marks[i + 1] == m);
                }
                assert(v.key() == key);
            },
            Task::Visit(v) => {
                let first = v.key();
                if visited.contains(first) {
                    lemma_followed_marks(ws, rest, visited, key);
                } else {
                    visit_lowers_unvisited(ws.symbols@, visited, first);
                    let own = symbol_tasks(ws, v);
                    let inner = own + rest;
                    if symbol_row(ws.symbols@, first.0, first.1) is None {
                        assert(inner =~= rest);
                    }
                    if key == first {
                        assert forall|m: Mark| #[trigger]
                            symbol_tasks(ws, v).contains(Task::Mark(m)) implies r.marks.contains(
                            m,
                        ) by {
                            let i = choose|i: int| 0 <= i < own.len() && own[i] == Task::Mark(m);
                            assert(inner[i] == Task::Mark(m));
                            lemma_asked_mark_is_made(ws, inner, visited.insert(first), i);
                        }
                        assert(v.key() == key);
                    } else {
                        lemma_followed_marks(ws, inner, visited.insert(first), key);
                    }
                }
            },
        }
    }
}

proof fn lemma_asked_mark_is_made(ws: WorkspaceIndex, todo: Seq<Task>, visited: Set<Key>, i: int)
    requires
        trace(ws, todo, visited).failure is None,
        0 <= i < todo.len(),
        todo[i] is Mark,
    ensures
        trace(ws, todo, visited).marks.contains(todo[i]->Mark_0),
    decreases unvisited(ws.symbols@, visited), todo.len(),
{
    let r = trace(ws, todo, visited);
    let rest = todo.drop_first();
    let m = todo[i]->Mark_0;
    match todo[0] {
        Task::Fail(e) => {},
        Task::Mark(first) => {
            if i == 0 {
                assert(r.marks[0] == m);
            } else {
                assert(rest[i - 1] == todo[i]);
                lemma_asked_mark_is_made(ws, rest, visited, i - 1);
                let later = trace(ws, rest, visited).marks;
                let k = choose|k: int| 0 <= k < later.len() && later[k] == m;
                assert(r.marks[k + 1] == m);
            }
        },
        Task::Visit(v) => {
            assert(rest[i - 1] == todo[i]);
            if visited.contains(v.key()) {
                lemma_asked_mark_is_made(ws, rest, visited, i - 1);
            } else {
                visit_lowers_unvisited(ws.symbols@, visited, v.key());
                let own = symbol_tasks(ws, v);
                let inner = own + rest;
                if symbol_row(ws.symbols@, v.key().0, v.key().1) is None {
                    assert(inner =~= rest);
                    assert(own.len() == 0);
                }
                assert(inner[own.len() + i - 1] == todo[i]);
                lemma_asked_mark_is_made(ws, inner, visited.insert(v.key()), own.len() + i - 1);
            }
        },
    }
}

/// Where no query fails, each symbol that is reached is followed, and everything that
/// following it marks is marked.
pub proof fn reached_symbols_give_their_marks(ws: WorkspaceIndex, todo: Seq<Task>, key: Key)
    requires
        trace(ws, todo, Set::empty()).failure is None,
        reaches(ws, todo, key),
    ensures
        exists|v: Visit| #[trigger]
            v.key() == key && forall|m: Mark| #[trigger]
                symbol_tasks(ws, v).contains(Task::Mark(m)) ==> trace(
                    ws,
                    todo,
                    Set::empty(),
                ).marks.contains(m),
{
    followed_symbols_are_the_reached(ws, todo, key);
    lemma_followed_marks(ws, todo, Set::empty(), key);
}

/// Following a symbol leads exactly to these: to the other symbols that it stands in
/// within its file; to those of the exported symbols that use it, where it is not
/// exported and no other file refers to it; to the symbols of other files that refer to
/// it; and to all that a file declares and exports that refers to it as a whole.
pub proof fn symbol_leads_where_it_is_used(ws: WorkspaceIndex, v: Visit, row: SymbolFacts, b: Key)
    requires
        symbol_row(ws.symbols@, v.file.parts, v.name) == Some(row),
    ensures
        wanted(symbol_tasks(ws, v), Wish::Follow(b)) <==> {
            ||| b.0 == v.file.parts && b.1 != v.name && row.local_references is Ok && exists|i: int|
                0 <= i < row.local_references->Ok_0@.len() && ws.symbols_at(
                    v.file.parts,
                    (#[trigger] row.local_references->Ok_0@[i]).line,
                    row.local_references->Ok_0@[i].column,
                ) is Ok && ws.symbols_at(
                    v.file.parts,
                    row.local_references->Ok_0@[i].line,
                    row.local_references->Ok_0@[i].column,
                )->Ok_0.contains(b.1)
            ||| b.0 == v.file.parts && !row.is_exported && row.cross_file_references is Ok
                && row.cross_file_references->Ok_0@.len() == 0 && row.exported_users is Ok && texts(
                row.exported_users->Ok_0@,
            ).contains(b.1)
            ||| row.cross_file_references is Ok && exists|i: int|
                0 <= i < row.cross_file_references->Ok_0@.len() && ({
                    let r = #[trigger] row.cross_file_references->Ok_0@[i];
                    let exports = ws.exports(r.file_path@);
                    &&& r.file_path@ == b.0
                    &&& r.line == 0 && r.column == 0 ==> exists|k: int|
                        0 <= k < exports.len() && (#[trigger] exports[k]).re_export_from is None
                            && match exports[k].local_name {
                            Some(local) => local@ == b.1,
                            None => exports[k].exported_name@ == b.1,
                        }
                    &&& r.line != 0 || r.column != 0 ==> ws.symbols_at(
                        r.file_path@,
                        r.line,
                        r.column,
                    ) is Ok && ws.symbols_at(r.file_path@, r.line, r.column)->Ok_0.contains(b.1)
                })
        },
{
    let key = v.key();
    changes_spread_by_use(ws, v, Wish::Follow(b));
    assert(wants(ws, key, Wish::Follow(b)) == leads_to(ws, key, b));
    let local = row.local_references;
    let cross = row.cross_file_references;
    let refs = cross_references(ws, key);
    if used_inside(ws, key, b.1) {
        let places = local->Ok_0@;
        let i = choose|i: int|
            0 <= i < places.len() && finds(
                ws.symbols_at(key.0, (#[trigger] places[i]).line, places[i].column),
                b.1,
            );
        assert(row.local_references->Ok_0@[i] == places[i]);
    }
    if local is Ok && exists|i: int|
        0 <= i < local->Ok_0@.len() && ws.symbols_at(
            key.0,
            (#[trigger] local->Ok_0@[i]).line,
            local->Ok_0@[i].column,
        ) is Ok && ws.symbols_at(
            key.0,
            local->Ok_0@[i].line,
            local->Ok_0@[i].column,
        )->Ok_0.contains(b.1) {
        let places = local->Ok_0@;
        let i = choose|i: int|
            0 <= i < places.len() && ws.symbols_at(
                key.0,
                (#[trigger] places[i]).line,
                places[i].column,
            ) is Ok && ws.symbols_at(key.0, places[i].line, places[i].column)->Ok_0.contains(b.1);
        assert(finds(ws.symbols_at(key.0, places[i].line, places[i].column), b.1));
        assert(some_inside(ws, key.0, places, b.1));
    }
    if cross is Ok {
        assert(refs == cross->Ok_0@);
        assert forall|i: int| 0 <= i < refs.len() implies (stands_inside(
            ws,
            #[trigger] refs[i],
            b.1,
        ) <==> ({
            let r = refs[i];
            let exports = ws.exports(r.file_path@);
            &&& r.line == 0 && r.column == 0 ==> exists|k: int|
                0 <= k < exports.len() && (#[trigger] exports[k]).re_export_from is None
                    && match exports[k].local_name {
                    Some(local) => local@ == b.1,
                    None => exports[k].exported_name@ == b.1,
                }
            &&& r.line != 0 || r.column != 0 ==> ws.symbols_at(r.file_path@, r.line, r.column) is Ok
                && ws.symbols_at(r.file_path@, r.line, r.column)->Ok_0.contains(b.1)
        })) by {
            let r = refs[i];
            let exports = ws.exports(r.file_path@);
            if r.line == 0 && r.column == 0 {
                if stands_inside(ws, r, b.1) {
                    let k = choose|k: int|
                        0 <= k < exports.len() && (#[trigger] exports[k]).re_export_from is None
                            && declared_name(exports[k]) == b.1;
                    assert(exports[k].re_export_from is None);
                }
            }
        }
    }
}

/// Following a symbol fails for exactly these reasons: its uses in its file cannot be
/// found, or what one of them stands in cannot; its uses in other files cannot be found;
/// or, where it is not exported and no other file refers to it, its users cannot.
pub proof fn symbol_fails_where_its_queries_do(
    ws: WorkspaceIndex,
    v: Visit,
    row: SymbolFacts,
    e: Seq<char>,
)
    requires
        symbol_row(ws.symbols@, v.file.parts, v.name) == Some(row),
    ensures
        wanted(symbol_tasks(ws, v), Wish::GiveUp(e)) <==> {
            ||| row.local_references is Err && row.local_references->Err_0@ == e
            ||| row.local_references is Ok && exists|i: int|
                0 <= i < row.local_references->Ok_0@.len() && ws.symbols_at(
                    v.file.parts,
                    (#[trigger] row.local_references->Ok_0@[i]).line,
                    row.local_references->Ok_0@[i].column,
                ) == Err::<Seq<Seq<char>>, Seq<char>>(e)
            ||| row.cross_file_references is Err && row.cross_file_references->Err_0@ == e
            ||| row.cross_file_references is Ok && row.cross_file_references->Ok_0@.len() == 0
                && !row.is_exported && row.exported_users is Err && row.exported_users->Err_0@ == e
        },
{
    changes_spread_by_use(ws, v, Wish::GiveUp(e));
    if row.local_references is Ok {
        let places = row.local_references->Ok_0@;
        if some_unknown(ws, v.file.parts, places, e) {
            let i = choose|i: int|
                0 <= i < places.len() && ws.symbols_at(
                    v.file.parts,
                    (#[trigger] places[i]).line,
                    places[i].column,
                ) == Err::<Seq<Seq<char>>, Seq<char>>(e);
            assert(row.local_references->Ok_0@[i] == places[i]);
        }
    }
}

} // verus!
