//! Propagating a change: the symbols that it reaches are followed and the
//! projects on the way are marked.

use crate::fx::{insert_visited, new_visited, visited_in};
use crate::index::{symbol_row, WorkspaceIndex};
use crate::path::{FilePath, PathView};
use crate::state::{causes_for, packages_of, AffectedState};
use crate::trace::{
    optional_cause, push_visits, symbol_steps, tasks, trace, unvisited, visit,
    visit_lowers_unvisited, visits, Mark, Outcome, Step, Task, Visit,
};
use crate::types::Cause;
use rustc_hash::FxHashSet;
use vstd::prelude::*;

verus! {

/// Marks add up: the projects of two lists together are those of either, and the
/// reasons for a project are those of the first, then those of the second.
pub proof fn marks_add_up(a: Seq<Mark>, b: Seq<Mark>)
    ensures
        packages_of(a + b) == packages_of(a).union(packages_of(b)),
        forall|n: Seq<char>| #[trigger]
            causes_for(a + b, n) == causes_for(a, n) + causes_for(b, n),
{
    let ab = a + b;
    assert forall|p: Seq<char>|
        packages_of(ab).contains(p) <==> packages_of(a).contains(p) || packages_of(b).contains(
            p,
        ) by {
        if packages_of(ab).contains(p) {
            let i = choose|i: int| 0 <= i < ab.len() && #[trigger] ab[i].package == p;
            if i < a.len() {
                assert(a[i].package == p);
            } else {
                assert(b[i - a.len()].package == p);
            }
        }
        if packages_of(a).contains(p) {
            let i = choose|i: int| 0 <= i < a.len() && #[trigger] a[i].package == p;
            assert(ab[i].package == p);
        }
        if packages_of(b).contains(p) {
            let i = choose|i: int| 0 <= i < b.len() && #[trigger] b[i].package == p;
            assert(ab[i + a.len()].package == p);
        }
    }
    assert(packages_of(ab) =~= packages_of(a).union(packages_of(b)));
    assert forall|n: Seq<char>| #[trigger]
        causes_for(ab, n) == causes_for(a, n) + causes_for(b, n) by {
        lemma_causes_add_up(a, b, n);
    }
}

proof fn lemma_causes_add_up(a: Seq<Mark>, b: Seq<Mark>, n: Seq<char>)
    ensures
        causes_for(a + b, n) == causes_for(a, n) + causes_for(b, n),
    decreases b.len(),
{
    if b.len() == 0 {
        assert(a + b =~= a);
        assert(causes_for(a, n) + Seq::<Cause>::empty() =~= causes_for(a, n));
    } else {
        let ab = a + b;
        assert(ab.drop_last() =~= a + b.drop_last());
        assert(ab.last() == b.last());
        lemma_causes_add_up(a, b.drop_last(), n);
        let x = causes_for(a, n);
        let y = causes_for(b.drop_last(), n);
        if let Some(cause) = b.last().cause {
            assert((x + y).push(cause) =~= x + y.push(cause));
        }
    }
}

/// A state that grows by one list of marks and then by another has grown by
/// both.
pub proof fn growth_adds_up(
    first: AffectedState,
    second: AffectedState,
    third: AffectedState,
    a: Seq<Mark>,
    b: Seq<Mark>,
)
    requires
        second.grown(first, a),
        third.grown(second, b),
    ensures
        third.grown(first, a + b),
{
    marks_add_up(a, b);
    assert(third.packages() =~= first.packages().union(packages_of(a + b)));
    if third.reporting() {
        assert forall|n: Seq<char>| #[trigger]
            third.causes(n) == first.causes(n) + causes_for(a + b, n) by {
            assert(second.causes(n) == first.causes(n) + causes_for(a, n));
            assert(first.causes(n) + causes_for(a, n) + causes_for(b, n) =~= first.causes(n) + (
            causes_for(a, n) + causes_for(b, n)));
        }
    }
}

/// A state grows by no marks when nothing happens to it.
pub proof fn no_marks_no_growth(state: AffectedState)
    requires
        state.well_formed(),
    ensures
        state.grown(state, seq![]),
{
    assert(packages_of(seq![]) =~= Set::<Seq<char>>::empty());
    assert(state.packages() =~= state.packages().union(packages_of(seq![])));
    assert forall|n: Seq<char>| #[trigger]
        state.causes(n) == state.causes(n) + causes_for(seq![], n) by {
        assert(state.causes(n) + Seq::<Cause>::empty() =~= state.causes(n));
    }
}

/// A state that grows loses no project, and no reason: what was there before
/// stays in front of what is added.
pub proof fn growth_keeps_what_was_there(
    before: AffectedState,
    after: AffectedState,
    marks: Seq<Mark>,
    package: Seq<char>,
)
    requires
        after.grown(before, marks),
    ensures
        before.packages().contains(package) ==> after.packages().contains(package),
        after.reporting() ==> before.causes(package).is_prefix_of(after.causes(package)),
{
    if after.reporting() {
        assert(after.causes(package) == before.causes(package) + causes_for(marks, package));
        assert(before.causes(package) =~= after.causes(package).take(
            before.causes(package).len() as int,
        ));
    }
}

/// Puts `steps` on top of the stack `todo`, the first of them uppermost.
fn stack_up(todo: &mut Vec<Step>, steps: Vec<Step>)
    ensures
        tasks(final(todo)@).reverse() == tasks(steps@) + tasks(old(todo)@).reverse(),
{
    let ghost start = tasks(todo@);
    let ghost all = tasks(steps@);
    let mut rest = steps;
    proof {
        assert(all.take(all.len() as int) =~= all);
        assert(all.skip(all.len() as int) + start.reverse() =~= tasks(todo@).reverse());
    }
    while rest.len() > 0
        invariant
            rest@.len() <= all.len(),
            tasks(rest@) == all.take(rest@.len() as int),
            tasks(todo@).reverse() == all.skip(rest@.len() as int) + start.reverse(),
        decreases rest@.len(),
    {
        let ghost n = rest@.len();
        let ghost old_rest = rest@;
        let ghost old_todo = todo@;
        if let Some(step) = rest.pop() {
            let ghost view = step@;
            todo.push(step);
            proof {
                assert(tasks(old_rest)[n - 1] == view);
                assert(all.take(n as int)[n - 1] == view);
                assert(tasks(rest@) =~= all.take(n - 1));
                assert(tasks(todo@) =~= tasks(old_todo).push(view));
                assert(tasks(todo@).reverse() =~= seq![view] + tasks(old_todo).reverse());
                assert(all.skip(n - 1) =~= seq![view] + all.skip(n as int));
                assert(tasks(todo@).reverse() =~= all.skip(n - 1) + start.reverse());
            }
        }
    }
    proof {
        assert(all.skip(0) =~= all);
    }
}

/// Works off `steps`, as `trace` says: the projects marked on the way are added
/// to `state`, the symbols followed to `visited`.
pub(crate) fn run_steps(
    ws: &WorkspaceIndex,
    steps: Vec<Step>,
    visited: &mut FxHashSet<(Vec<String>, String)>,
    state: &mut AffectedState,
) -> (r: Result<(), String>)
    requires
        old(state).well_formed(),
    ensures
        ({
            let outcome = trace(*ws, tasks(steps@), visited_in(*old(visited)));
            &&& visited_in(*final(visited)) == outcome.visited
            &&& final(state).grown(*old(state), outcome.marks)
            &&& match r {
                Ok(_) => outcome.failure is None,
                Err(e) => outcome.failure == Some(e@),
            }
        }),
{
    let ghost whole = trace(*ws, tasks(steps@), visited_in(*visited));
    let ghost start = *state;
    let ghost mut done: Seq<Mark> = seq![];
    let mut todo: Vec<Step> = Vec::new();
    stack_up(&mut todo, steps);
    proof {
        no_marks_no_growth(*state);
        assert(tasks(steps@) + tasks(Seq::<Step>::empty()).reverse() =~= tasks(steps@));
        let rest = trace(*ws, tasks(todo@).reverse(), visited_in(*visited));
        assert(done + rest.marks =~= rest.marks);
    }
    while todo.len() > 0
        invariant
            start == *old(state),
            whole == trace(*ws, tasks(steps@), visited_in(*old(visited))),
            state.grown(start, done),
            ({
                let rest = trace(*ws, tasks(todo@).reverse(), visited_in(*visited));
                &&& whole.marks == done + rest.marks
                &&& whole.visited == rest.visited
                &&& whole.failure == rest.failure
            }),
        decreases
            unvisited(ws.symbols@, visited_in(*visited)),
            todo@.len(),
    {
        let ghost before = todo@;
        let ghost seen = visited_in(*visited);
        let ghost list = tasks(before).reverse();
        let ghost rest = trace(*ws, list, seen);
        if let Some(step) = todo.pop() {
            proof {
                assert(tasks(before)[before.len() - 1] == step@);
                assert(list[0] == step@);
                assert(list.drop_first() =~= tasks(todo@).reverse());
            }
            match step {
                Step::Fail { reason } => {
                    proof {
                        assert(done + rest.marks =~= done);
                    }
                    return Err(reason);
                },
                Step::Mark { package, cause } => {
                    let ghost earlier = *state;
                    let ghost mark = Mark {
                        package: package@,
                        cause: optional_cause(cause),
                    };
                    state.mark(package, cause);
                    proof {
                        growth_adds_up(start, earlier, *state, done, seq![mark]);
                        let later = trace(*ws, list.drop_first(), seen);
                        assert(done + rest.marks =~= (done + seq![mark]) + later.marks);
                        done = done + seq![mark];
                    }
                },
                Step::Visit { file, symbol } => {
                    let ghost v = visit(file.full(), symbol@);
                    let ghost key = v.key();
                    let parts = file.components();
                    if insert_visited(visited, parts, symbol.clone()) {
                        proof {
                            visit_lowers_unvisited(ws.symbols@, seen, key);
                        }
                        let more = symbol_steps(ws, &file, &symbol);
                        let ghost popped = todo@;
                        stack_up(&mut todo, more);
                        proof {
                            if symbol_row(ws.symbols@, key.0, key.1) is None {
                                assert(tasks(todo@).reverse() =~= list.drop_first());
                                assert(tasks(todo@).reverse().len() == tasks(popped).reverse().len());
                            }
                        }
                    } else {
                        proof {
                            assert(seen.insert(key) =~= seen);
                        }
                    }
                },
            }
        }
    }
    proof {
        assert(tasks(todo@).reverse() =~= seq![]);
        assert(done + Seq::<Mark>::empty() =~= done);
    }
    Ok(())
}

/// What a changed line asks for: to follow the symbols found on it.
pub open spec fn line_tasks(ws: WorkspaceIndex, file: PathView, line: usize) -> Seq<Task> {
    match ws.symbols_at(file.parts, line, 0) {
        Ok(names) => visits(file, names),
        Err(e) => seq![Task::Fail(e)],
    }
}

/// What comes of following one symbol.
pub open spec fn symbol_trace(ws: WorkspaceIndex, v: Visit) -> Outcome {
    trace(ws, seq![Task::Visit(v)], Set::empty())
}

/// What comes of a changed line.
pub open spec fn line_trace(ws: WorkspaceIndex, file: PathView, line: usize) -> Outcome {
    trace(ws, line_tasks(ws, file, line), Set::empty())
}

/// Follows a changed symbol and marks the projects that it reaches. A failed
/// query ends the work; the projects marked before it stay marked.
pub fn process_changed_symbol(
    ws: &WorkspaceIndex,
    file: &FilePath,
    symbol: &String,
    state: &mut AffectedState,
) -> (r: Result<(), String>)
    requires
        old(state).well_formed(),
    ensures
        final(state).grown(*old(state), symbol_trace(*ws, visit(file.full(), symbol@)).marks),
        match r {
            Ok(_) => symbol_trace(*ws, visit(file.full(), symbol@)).failure is None,
            Err(e) => symbol_trace(*ws, visit(file.full(), symbol@)).failure == Some(e@),
        },
{
    let mut steps: Vec<Step> = Vec::new();
    steps.push(Step::Visit { file: file.clone(), symbol: symbol.clone() });
    proof {
        assert(tasks(steps@) =~= seq![Task::Visit(visit(file.full(), symbol@))]);
    }
    let mut visited = new_visited();
    run_steps(ws, steps, &mut visited, state)
}

/// Follows the symbols on a changed line and marks the projects that they
/// reach. A symbol that two of them reach is followed once.
pub fn process_changed_line(
    ws: &WorkspaceIndex,
    file: &FilePath,
    line: usize,
    state: &mut AffectedState,
) -> (r: Result<(), String>)
    requires
        old(state).well_formed(),
    ensures
        final(state).grown(*old(state), line_trace(*ws, file.full(), line).marks),
        match r {
            Ok(_) => line_trace(*ws, file.full(), line).failure is None,
            Err(e) => line_trace(*ws, file.full(), line).failure == Some(e@),
        },
{
    let mut steps: Vec<Step> = Vec::new();
    match ws.find_node(file, line, 0) {
        Some(row) => match &row.symbols {
            Ok(names) => {
                push_visits(&mut steps, file, names);
            },
            Err(e) => {
                steps.push(Step::Fail { reason: e.clone() });
            },
        },
        None => {},
    }
    proof {
        assert(tasks(Seq::<Step>::empty()) =~= seq![]);
        assert(tasks(steps@) =~= line_tasks(*ws, file.full(), line));
    }
    let mut visited = new_visited();
    run_steps(ws, steps, &mut visited, state)
}

} // verus!
