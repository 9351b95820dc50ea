//! Whether the lowering of a program comes to an end.
use crate::common::ids::{HandlerId, StmtId};
use crate::ir::core_ir::{CoreModel, CoreProgram, StmtKind, StmtModel, StmtNode};
use crate::passes::linearize::lowering::{Linearizer, Mode, ResumeContext, Task};
use vstd::prelude::*;

verus! {

// ---------------------------------------------------------------------------
// Depths
// ---------------------------------------------------------------------------

/// What comes to an end within some depth comes to an end within a greater one.
pub proof fn lemma_settles_deeper(p: CoreModel, task: Task, depth: nat, more: nat)
    requires
        crate::passes::linearize::lowering::settles(p, task, depth),
        depth <= more,
    ensures
        crate::passes::linearize::lowering::settles(p, task, more),
    decreases depth,
{
    assert forall|other: Task| #[trigger]
        crate::passes::linearize::lowering::needs(p, task, other) implies
        crate::passes::linearize::lowering::settles(p, other, (more - 1) as nat) by {
        lemma_settles_deeper(p, other, (depth - 1) as nat, (more - 1) as nat);
    }
}

/// Lowerings that come to an end do so within one depth.
proof fn lemma_common_depth(p: CoreModel, tasks: Seq<Task>) -> (depth: nat)
    requires
        all_end(p, tasks),
    ensures
        forall|i: int|
            0 <= i < tasks.len() ==> crate::passes::linearize::lowering::settles(
                p,
                #[trigger] tasks[i],
                depth,
            ),
    decreases tasks.len(),
{
    if tasks.len() == 0 {
        0
    } else {
        let rest = tasks.drop_last();
        assert forall|i: int| 0 <= i < rest.len() implies crate::passes::linearize::lowering::ends(
            p,
            #[trigger] rest[i],
        ) by {
            assert(rest[i] == tasks[i]);
        }
        let first = lemma_common_depth(p, rest);
        let last = tasks.last();
        assert(crate::passes::linearize::lowering::ends(p, tasks[tasks.len() - 1]));
        let depth = choose|depth: nat|
            crate::passes::linearize::lowering::settles(p, last, depth);
        let both = if first >= depth {
            first
        } else {
            depth
        };
        assert forall|i: int| 0 <= i < tasks.len() implies
            crate::passes::linearize::lowering::settles(p, #[trigger] tasks[i], both) by {
            if i < rest.len() {
                assert(rest[i] == tasks[i]);
                lemma_settles_deeper(p, tasks[i], first, both);
            } else {
                lemma_settles_deeper(p, tasks[i], depth, both);
            }
        }
        both
    }
}

/// Some lowerings all come to an end.
pub open spec fn all_end(p: CoreModel, tasks: Seq<Task>) -> bool {
    forall|i: int|
        0 <= i < tasks.len() ==> crate::passes::linearize::lowering::ends(p, #[trigger] tasks[i])
}

/// A lowering comes to an end exactly where all that it lowers on the way does.
pub proof fn lemma_ends_iff(p: CoreModel, task: Task, needed: Seq<Task>)
    requires
        forall|other: Task| #[trigger]
            needed.contains(other) <==> crate::passes::linearize::lowering::needs(p, task, other),
    ensures
        crate::passes::linearize::lowering::ends(p, task) <==> all_end(p, needed),
{
    if crate::passes::linearize::lowering::ends(p, task) {
        crate::passes::linearize::lowering::lemma_needs(p, task);
        assert forall|i: int| 0 <= i < needed.len() implies
            crate::passes::linearize::lowering::ends(p, #[trigger] needed[i]) by {
            assert(needed.contains(needed[i]));
        }
    }
    if all_end(p, needed) {
        let depth = lemma_common_depth(p, needed);
        assert forall|other: Task| #[trigger]
            crate::passes::linearize::lowering::needs(p, task, other) implies
            crate::passes::linearize::lowering::settles(p, other, depth) by {
            assert(needed.contains(other));
            let i = choose|i: int| 0 <= i < needed.len() && needed[i] == other;
            assert(crate::passes::linearize::lowering::settles(p, needed[i], depth));
        }
        assert(crate::passes::linearize::lowering::settles(p, task, depth + 1));
    }
}

/// No statement of a program installs a handler that exists, with nothing after
/// what it handles.
pub open spec fn weaves_nothing(p: CoreModel) -> bool {
    forall|s: StmtId| #[trigger]
        p.has_stmt(s) ==> !(p.stmt(s) matches StmtModel::Handle { handler, next: None, .. }
            && p.has_handler(handler))
}

proof fn lemma_settles_by_rank(p: CoreModel, s: StmtId)
    requires
        p.acyclic(),
        p.closed(),
        p.has_stmt(s),
        weaves_nothing(p),
    ensures
        crate::passes::linearize::lowering::settles(
            p,
            Task { stmt: s, mode: Mode::Plain },
            p.stmt_rank(s) + 1,
        ),
    decreases p.stmt_rank(s),
{
    let task = Task { stmt: s, mode: Mode::Plain };
    assert forall|other: Task| #[trigger]
        crate::passes::linearize::lowering::needs(p, task, other) implies
        crate::passes::linearize::lowering::settles(p, other, p.stmt_rank(s)) by {
        assert(p.stmt(s).has_part(other.stmt));
        crate::ir::core_ir::lemma_stmt_rank(p, s, other.stmt);
        lemma_settles_by_rank(p, other.stmt);
        assert(other == (Task { stmt: other.stmt, mode: Mode::Plain }));
        lemma_settles_deeper(p, other, p.stmt_rank(other.stmt) + 1, p.stmt_rank(s));
    }
}

/// The lowering of a program that weaves no handler in comes to an end.
pub proof fn lemma_unwoven_ends(p: CoreModel)
    requires
        p.acyclic(),
        p.closed(),
        weaves_nothing(p),
    ensures
        crate::passes::linearize::lowering::program_ends(p),
{
    assert forall|f: crate::common::ids::FuncId|
        crate::passes::function_graph::function_reached(p, f.0) && p.has_function(f) implies
        crate::passes::linearize::lowering::ends(
        p,
        Task { stmt: #[trigger] p.function(f).body, mode: Mode::Plain },
    ) by {
        lemma_settles_by_rank(p, p.function(f).body);
    }
}

// ---------------------------------------------------------------------------
// Deciding it
// ---------------------------------------------------------------------------

fn one(task: Task) -> (found: Vec<Task>)
    ensures
        found@ == seq![task],
        forall|other: Task| #[trigger] found@.contains(other) <==> other == task,
{
    let mut found: Vec<Task> = Vec::new();
    found.push(task);
    assert(found@[0] == task);
    found
}

/// The parts of a statement, to be lowered in some mode.
fn parts_in(node: &StmtNode, mode: Mode) -> (found: Vec<Task>)
    ensures
        forall|other: Task| #[trigger]
            found@.contains(other) <==> other.mode == mode && node.kind@.has_part(other.stmt),
{
    let parts = node.child_stmts();
    let mut found: Vec<Task> = Vec::new();
    let mut i: usize = 0;
    while i < parts.len()
        invariant
            i <= parts@.len(),
            found@.len() == i,
            forall|j: int| #![trigger found@[j]] #![trigger parts@[j]]
                0 <= j < i ==> found@[j] == (Task { stmt: parts@[j], mode }),
        decreases parts@.len() - i,
    {
        found.push(Task { stmt: parts[i], mode });
        i += 1;
    }
    proof {
        assert forall|other: Task| #[trigger]
            found@.contains(other) <==> other.mode == mode && node.kind@.has_part(other.stmt) by {
            if found@.contains(other) {
                let j = choose|j: int| 0 <= j < found@.len() && found@[j] == other;
                assert(parts@.contains(parts@[j]));
            }
            if other.mode == mode && node.kind@.has_part(other.stmt) {
                assert(parts@.contains(other.stmt));
                let j = choose|j: int| 0 <= j < parts@.len() && parts@[j] == other.stmt;
                assert(found@[j] == other);
            }
        }
    }
    found
}

/// What the lowering of a statement under a handler lowers.
fn needed_under(
    program: &CoreProgram,
    stmt: StmtId,
    h: HandlerId,
    context: Option<ResumeContext>,
) -> (found: Vec<Task>)
    requires
        program@.acyclic(),
        program@.closed(),
        crate::passes::linearize::lowering::fits(
            program@,
            Task { stmt, mode: Mode::Under(h, context) },
        ),
    ensures
        forall|other: Task| #[trigger]
            found@.contains(other) <==> crate::passes::linearize::lowering::needs(
                program@,
                Task { stmt, mode: Mode::Under(h, context) },
                other,
            ),
{
    let node = &program.stmts[stmt.0];
    let def = &program.handlers[h.0];
    assert(program@.stmt(stmt) == node.kind@);
    assert(program@.handler(h) == def@);
    let mode = Mode::Under(h, context);
    match &node.kind {
        StmtKind::Return(_) => one(Task { stmt: def.return_body, mode: Mode::Plain }),
        StmtKind::Perform { result, effect, operation, next, .. } => {
            if *effect != def.effect {
                return parts_in(node, mode);
            }
            match Linearizer::find_clause(program, h, *operation) {
                Some(clause) => {
                    let known = crate::passes::linearize::analysis::analyze_clause_resume(
                        program,
                        clause,
                    );
                    let clause_convention =
                        crate::passes::linearize::analysis::classify_clause_convention(
                        clause,
                        known,
                    );
                    let inner = match clause.resume_param {
                        None => None,
                        Some(resume_var) => Some(
                            ResumeContext {
                                resume_var,
                                perform_result: *result,
                                continuation: *next,
                                clause_convention,
                            },
                        ),
                    };
                    one(Task { stmt: clause.body, mode: Mode::Under(h, inner) })
                },
                None => one(Task { stmt: *next, mode }),
            }
        },
        StmtKind::Resume { result, resume, next, .. } => {
            match context {
                Some(active) if active.resume_var == *resume => {
                    let mut found = one(
                        Task { stmt: active.continuation, mode: Mode::Under(h, None) },
                    );
                    let direct = match active.clause_convention {
                        crate::passes::linearize::analysis::ClauseConvention::Direct => true,
                        _ => false,
                    };
                    let hands_over = direct
                        && crate::passes::linearize::analysis::is_identity_return_of_var(
                        program,
                        *next,
                        *result,
                    );
                    if !hands_over {
                        let ghost before = found@;
                        let last = Task { stmt: *next, mode: Mode::Under(h, None) };
                        found.push(last);
                        proof {
                            assert forall|other: Task| #[trigger]
                                found@.contains(other) <==> before.contains(other) || other
                                == last by {
                                assert(found@[0] == before[0]);
                                assert(found@[1] == last);
                                assert(before.contains(before[0]));
                            }
                        }
                    }
                    found
                },
                _ => one(Task { stmt: *next, mode }),
            }
        },
        StmtKind::Handle { .. } => one(Task { stmt, mode: Mode::Plain }),
        _ => parts_in(node, mode),
    }
}

/// What the lowering of a statement lowers on the way.
fn needed(program: &CoreProgram, task: Task) -> (found: Vec<Task>)
    requires
        program@.acyclic(),
        program@.closed(),
        crate::passes::linearize::lowering::fits(program@, task),
    ensures
        forall|other: Task| #[trigger]
            found@.contains(other) <==> crate::passes::linearize::lowering::needs(
                program@,
                task,
                other,
            ),
{
    match task.mode {
        Mode::Under(h, context) => needed_under(program, task.stmt, h, context),
        Mode::Plain => {
            let node = &program.stmts[task.stmt.0];
            assert(program@.stmt(task.stmt) == node.kind@);
            if let StmtKind::Handle { handler, body, next: None } = &node.kind {
                if handler.0 < program.handlers.len() {
                    return one(Task { stmt: *body, mode: Mode::Under(*handler, None) });
                }
            }
            parts_in(node, Mode::Plain)
        },
    }
}

/// What a lowering leads to can itself be lowered.
pub proof fn lemma_needed_fits(p: CoreModel, task: Task, other: Task)
    requires
        p.closed(),
        crate::passes::linearize::lowering::fits(p, task),
        crate::passes::linearize::lowering::needs(p, task, other),
    ensures
        crate::passes::linearize::lowering::fits(p, other),
{
    let stmt = p.stmt(task.stmt);
    assert(forall|part: StmtId| #[trigger] stmt.has_part(part) ==> p.has_stmt(part));
    if let StmtModel::Handle { body, .. } = stmt {
        assert(stmt.has_part(body));
    }
    if let Mode::Under(h, context) = task.mode {
        if let StmtModel::Perform { operation, next, .. } = stmt {
            assert(stmt.has_part(next));
            let def = p.handler(h);
            if exists|i: int| crate::passes::linearize::lowering::is_clause(def, operation, i) {
                let i = choose|i: int|
                    crate::passes::linearize::lowering::is_clause(def, operation, i);
                assert(p.has_stmt(def.clauses[i].body));
            }
        }
        if let StmtModel::Resume { next, .. } = stmt {
            assert(stmt.has_part(next));
        }
        assert(p.has_stmt(p.handler(h).return_body));
    }
}

fn has_task(tasks: &Vec<Task>, task: Task) -> (b: bool)
    ensures
        b == tasks@.contains(task),
{
    let mut i: usize = 0;
    while i < tasks.len()
        invariant
            i <= tasks@.len(),
            forall|j: int| 0 <= j < i ==> tasks@[j] != task,
        decreases tasks@.len() - i,
    {
        if tasks[i] == task {
            return true;
        }
        i += 1;
    }
    false
}

/// Each of the lowerings on the way to one, if it ends, ends after it.
pub open spec fn leads_to(p: CoreModel, path: Seq<Task>, task: Task) -> bool {
    forall|i: int|
        0 <= i < path.len() && crate::passes::linearize::lowering::ends(p, #[trigger] path[i])
            ==> crate::passes::linearize::lowering::ends(p, task)
            && crate::passes::linearize::lowering::depth(p, task)
            < crate::passes::linearize::lowering::depth(p, path[i])
}

/// Whether the lowering of a statement comes to an end, given those that are on
/// the way to it and those that are known to end.
fn task_ends(
    program: &CoreProgram,
    task: Task,
    path: &mut Vec<Task>,
    known: &mut Vec<Task>,
) -> (b: bool)
    requires
        program@.acyclic(),
        program@.closed(),
        crate::passes::linearize::lowering::fits(program@, task),
        leads_to(program@, old(path)@, task),
        all_end(program@, old(known)@),
    ensures
        b == crate::passes::linearize::lowering::ends(program@, task),
        final(path)@ == old(path)@,
        all_end(program@, final(known)@),
    decreases usize::MAX - old(path)@.len(),
{
    let ghost p = program@;
    let ghost before = path@;
    if has_task(known, task) {
        return true;
    }
    if has_task(path, task) {
        proof {
            let i = choose|i: int| 0 <= i < before.len() && before[i] == task;
            assert(before[i] == task);
        }
        return false;
    }
    path.push(task);
    let height: usize = path.len();
    let others = needed(program, task);
    proof {
        lemma_ends_iff(p, task, others@);
    }
    let mut i: usize = 0;
    while i < others.len()
        invariant
            p == program@,
            p.acyclic(),
            p.closed(),
            crate::passes::linearize::lowering::fits(p, task),
            leads_to(p, before, task),
            before == old(path)@,
            path@ == before.push(task),
            path@.len() == height,
            all_end(p, known@),
            forall|other: Task| #[trigger]
                others@.contains(other) <==> crate::passes::linearize::lowering::needs(
                    p,
                    task,
                    other,
                ),
            crate::passes::linearize::lowering::ends(p, task) <==> all_end(p, others@),
            i <= others@.len(),
            forall|j: int|
                0 <= j < i ==> crate::passes::linearize::lowering::ends(p, #[trigger] others@[j]),
        decreases others@.len() - i,
    {
        let other = others[i];
        proof {
            assert(others@.contains(others@[i as int]));
            lemma_needed_fits(p, task, other);
            crate::passes::linearize::lowering::lemma_needs(p, task);
            assert forall|k: int|
                0 <= k < path@.len() && crate::passes::linearize::lowering::ends(
                    p,
                    #[trigger] path@[k],
                ) implies crate::passes::linearize::lowering::ends(p, other)
                && crate::passes::linearize::lowering::depth(p, other)
                < crate::passes::linearize::lowering::depth(p, path@[k]) by {
                if k < before.len() {
                    assert(path@[k] == before[k]);
                }
            }
        }
        let settled = task_ends(program, other, path, known);
        if !settled {
            path.pop();
            assert(path@ =~= before);
            return false;
        }
        i += 1;
    }
    path.pop();
    assert(path@ =~= before);
    known.push(task);
    true
}

/// Whether the lowering of every function that a program can come to call comes
/// to an end.
pub fn lowering_ends(program: &CoreProgram) -> (b: bool)
    requires
        program@.acyclic(),
        program@.closed(),
    ensures
        b == crate::passes::linearize::lowering::program_ends(program@),
{
    let ghost p = program@;
    let found = crate::passes::function_graph::collect_reachable_functions(program);
    let mut known: Vec<Task> = Vec::new();
    let mut i: usize = 0;
    while i < found.len()
        invariant
            p == program@,
            p.acyclic(),
            p.closed(),
            crate::passes::linearize::lowering::is_reachable_list(p, found@),
            i <= found@.len(),
            all_end(p, known@),
            forall|j: int|
                0 <= j < i && p.has_function(#[trigger] found@[j]) ==>
                crate::passes::linearize::lowering::ends(
                    p,
                    Task { stmt: p.function(found@[j]).body, mode: Mode::Plain },
                ),
        decreases found@.len() - i,
    {
        let f = found[i];
        if let Some(function) = program.function(f) {
            let task = Task { stmt: function.body, mode: Mode::Plain };
            proof {
                assert(found@.contains(found@[i as int]));
                assert(p.function(f).body == function.body);
            }
            let mut path: Vec<Task> = Vec::new();
            let settled = task_ends(program, task, &mut path, &mut known);
            if !settled {
                return false;
            }
        }
        i += 1;
    }
    proof {
        assert forall|f: crate::common::ids::FuncId|
            crate::passes::function_graph::function_reached(p, f.0) && p.has_function(f) implies
            crate::passes::linearize::lowering::ends(
            p,
            Task { stmt: #[trigger] p.function(f).body, mode: Mode::Plain },
        ) by {
            assert(found@.contains(f));
            let j = choose|j: int| 0 <= j < found@.len() && found@[j] == f;
            assert(p.has_function(found@[j]));
        }
    }
    true
}

} // verus!
