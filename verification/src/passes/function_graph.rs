//! Which functions a program can come to call.
use crate::common::ids::{ExprId, FuncId, StmtId};
use crate::ir::core_ir::{
    copy_exprs, CoreModel, CoreProgram, ExprKind, ExprModel, ExprNodeModel, FunctionDecl, StmtKind,
    StmtModel, StmtNodeModel,
};
use std::collections::HashSet;
use vstd::prelude::*;

verus! {

/// A statement leads to its parts.
pub open spec fn stmt_edge(p: CoreModel) -> spec_fn(usize, usize) -> bool {
    |a: usize, b: usize| p.has_stmt(StmtId(a)) && p.stmt(StmtId(a)).has_part(StmtId(b))
}

/// An expression leads to its parts.
pub open spec fn expr_edge(p: CoreModel) -> spec_fn(usize, usize) -> bool {
    |a: usize, b: usize| p.has_expr(ExprId(a)) && p.expr(ExprId(a)).has_part(ExprId(b))
}

/// A statement that can be reached from another.
pub open spec fn stmt_reached(p: CoreModel, root: StmtId, s: usize) -> bool {
    crate::common::reach::reaches(stmt_edge(p), set![root.0], s)
}

/// An expression of a statement that can be reached from another.
pub open spec fn roots_of(p: CoreModel, root: StmtId) -> Set<usize> {
    Set::new(
        |e: usize|
            exists|s: usize| #[trigger]
                stmt_reached(p, root, s) && p.has_stmt(StmtId(s)) && p.stmt(StmtId(s)).has_expr(
                    ExprId(e),
                ),
    )
}

/// An expression, or a part of one, of a statement that can be reached.
pub open spec fn expr_reached(p: CoreModel, root: StmtId, e: usize) -> bool {
    crate::common::reach::reaches(expr_edge(p), roots_of(p, root), e)
}

/// Whether an expression is itself a call of a function.
pub open spec fn expr_is_call(p: CoreModel, e: usize, callee: FuncId) -> bool {
    p.has_expr(ExprId(e)) && (p.expr(ExprId(e)) matches ExprModel::PureCall { callee: c, .. } && c
        == callee)
}

/// Whether a statement is itself a call of a function.
pub open spec fn stmt_is_call(p: CoreModel, s: usize, callee: FuncId) -> bool {
    p.has_stmt(StmtId(s)) && (p.stmt(StmtId(s)) matches StmtModel::Call { callee: c, .. } && c
        == callee)
}

/// Whether the code that starts at a statement calls a function.
pub open spec fn code_calls(p: CoreModel, root: StmtId, callee: FuncId) -> bool {
    ||| exists|s: usize| #[trigger] stmt_reached(p, root, s) && stmt_is_call(p, s, callee)
    ||| exists|e: usize| #[trigger] expr_reached(p, root, e) && expr_is_call(p, e, callee)
}

/// A function leads to those that its body calls.
pub open spec fn call_edge(p: CoreModel) -> spec_fn(usize, usize) -> bool {
    |a: usize, b: usize|
        p.has_function(FuncId(a)) && code_calls(p, p.function(FuncId(a)).body, FuncId(b))
}

/// The functions that a program starts from.
pub open spec fn entry_set(p: CoreModel) -> Set<usize> {
    Set::new(|f: usize| p.entrypoints.contains(FuncId(f)))
}

/// Whether a program can come to call a function.
pub open spec fn function_reached(p: CoreModel, f: usize) -> bool {
    crate::common::reach::reaches(call_edge(p), entry_set(p), f)
}

/// The statements seen so far, once one more and all that it leads to have been
/// seen: the statement first, then its parts, the last one first. Nothing is seen
/// twice.
pub open spec fn visit(p: CoreModel, s: usize, found: Seq<usize>) -> Seq<usize>
    decreases p.stmt_rank(StmtId(s)), 1nat, 0nat,
    when p.acyclic()
{
    if found.contains(s) {
        found
    } else if p.has_stmt(StmtId(s)) {
        visit_parts(p, s, p.stmt(StmtId(s)).parts().len(), found.push(s))
    } else {
        found.push(s)
    }
}

/// The statements seen so far, once the first parts of a statement have been
/// seen, the last of them first.
pub open spec fn visit_parts(p: CoreModel, s: usize, first: nat, found: Seq<usize>) -> Seq<usize>
    decreases p.stmt_rank(StmtId(s)), 0nat, first,
    when p.acyclic()
{
    let parts = p.stmt(StmtId(s)).parts();
    if p.has_stmt(StmtId(s)) && 0 < first <= parts.len() {
        proof {
            lemma_part_below(p, StmtId(s), first - 1);
        }
        visit_parts(p, s, (first - 1) as nat, visit(p, parts[first - 1].0, found))
    } else {
        found
    }
}

/// A listed part of a statement is one, and stands below it.
pub proof fn lemma_part_below(p: CoreModel, s: StmtId, i: int)
    requires
        p.acyclic(),
        p.has_stmt(s),
        0 <= i < p.stmt(s).parts().len(),
    ensures
        p.stmt(s).has_part(p.stmt(s).parts()[i]),
        p.stmt_rank(p.stmt(s).parts()[i]) < p.stmt_rank(s),
{
    let part = p.stmt(s).parts()[i];
    match p.stmt(s) {
        StmtModel::Match { arms, default, .. } => {
            if i < arms.len() {
                assert(arms[i].body == part);
            }
        },
        _ => {},
    }
    assert(p.stmt(s).has_part(part));
    crate::passes::linearize::analysis::lemma_stmt_ranks(p, s);
}

/// What is seen once everything on a stack has been seen, from the top down.
spec fn unwound(p: CoreModel, stack: Seq<usize>, found: Seq<usize>) -> Seq<usize>
    decreases stack.len(),
{
    if stack.len() == 0 {
        found
    } else {
        unwound(p, stack.drop_last(), visit(p, stack.last(), found))
    }
}

/// To put the parts of a statement on a stack is to see them before the rest.
proof fn lemma_unwound_parts(
    p: CoreModel,
    stack: Seq<usize>,
    s: usize,
    first: nat,
    found: Seq<usize>,
)
    requires
        p.acyclic(),
        p.has_stmt(StmtId(s)),
        first <= p.stmt(StmtId(s)).parts().len(),
    ensures
        unwound(p, stack + places(p.stmt(StmtId(s)).parts().take(first as int)), found) == unwound(
            p,
            stack,
            visit_parts(p, s, first, found),
        ),
    decreases first,
{
    let parts = p.stmt(StmtId(s)).parts();
    let full = stack + places(parts.take(first as int));
    if first == 0 {
        assert(full =~= stack);
    } else {
        let last = parts[first - 1].0;
        assert(full.drop_last() =~= stack + places(parts.take(first - 1)));
        assert(full.last() == last);
        lemma_unwound_parts(p, stack, s, (first - 1) as nat, visit(p, last, found));
    }
}

/// The places of some statements.
pub open spec fn places(stmts: Seq<StmtId>) -> Seq<usize> {
    stmts.map_values(|s: StmtId| s.0)
}

/// Whether a list leads nowhere but to itself.
pub open spec fn leads_inside(p: CoreModel, found: Seq<usize>) -> bool {
    forall|a: usize, b: usize|
        found.contains(a) && #[trigger] stmt_edge(p)(a, b) ==> found.contains(b)
}

/// Sees a statement and all that it leads to.
pub fn visit_stmts(
    program: &CoreProgram,
    root: StmtId,
    seen: &mut HashSet<usize>,
    found: &mut Vec<usize>,
)
    requires
        old(seen)@.finite(),
        forall|s: usize| #[trigger] old(found)@.contains(s) <==> old(seen)@.contains(s),
        leads_inside(program@, old(found)@),
    ensures
        final(seen)@.finite(),
        forall|s: usize| #[trigger] final(found)@.contains(s) <==> final(seen)@.contains(s),
        leads_inside(program@, final(found)@),
        forall|s: usize| #[trigger]
            final(found)@.contains(s) <==> (old(found)@.contains(s) || stmt_reached(
                program@,
                root,
                s,
            )),
        old(found)@.no_duplicates() ==> final(found)@.no_duplicates(),
        program@.acyclic() ==> final(found)@ == visit(program@, root.0, old(found)@),
{
    let ghost p = program@;
    let ghost edge = stmt_edge(p);
    let ghost roots = set![root.0];
    let ghost given = found@;
    let mut stack: Vec<usize> = Vec::new();
    stack.push(root.0);
    proof {
        crate::common::reach::lemma_reaches_root(edge, roots, root.0);
        assert(stack@[0] == root.0);
        assert(stack@.drop_last() =~= Seq::empty());
        assert(unwound(p, stack@, found@) == unwound(
            p,
            Seq::empty(),
            visit(p, root.0, found@),
        ));
    }
    while stack.len() > 0
        invariant
            p == program@,
            edge == stmt_edge(p),
            roots == set![root.0],
            given == old(found)@,
            seen@.finite(),
            forall|s: usize| #[trigger] found@.contains(s) <==> seen@.contains(s),
            forall|s: usize| #[trigger] given.contains(s) ==> seen@.contains(s),
            seen@.contains(root.0) || stack@.contains(root.0),
            forall|s: usize| #[trigger]
                seen@.contains(s) ==> given.contains(s) || stmt_reached(p, root, s),
            forall|s: usize| #[trigger] stack@.contains(s) ==> stmt_reached(p, root, s),
            forall|a: usize, b: usize|
                seen@.contains(a) && #[trigger] edge(a, b) ==> seen@.contains(b) || stack@.contains(
                    b,
                ),
            given.no_duplicates() ==> found@.no_duplicates(),
            p.acyclic() ==> unwound(p, stack@, found@) == visit(p, root.0, given),
        decreases crate::common::reach::position_count() - seen@.len(), stack@.len(),
    {
        let ghost stack_before = stack@;
        let ghost seen_before = seen@;
        let ghost found_before = found@;
        let id: usize = stack[stack.len() - 1];
        stack.pop();
        proof {
            assert(stack_before =~= stack@.push(id));
            assert(stack_before.drop_last() =~= stack@);
            crate::common::reach::lemma_popped(stack_before, stack@, id);
        }
        if seen.insert(id) {
            found.push(id);
            proof {
                crate::common::reach::lemma_position_bound(seen@);
                crate::common::reach::lemma_pushed(found_before, id);
                assert(!seen_before.contains(id));
                assert(!found_before.contains(id));
                if given.no_duplicates() {
                    assert forall|i: int, j: int|
                        0 <= i < j < found@.len() implies found@[i] != found@[j] by {
                        assert(found_before.contains(found_before[i]));
                    }
                }
            }
            if let Some(node) = program.stmt(StmtId::new(id)) {
                let children = node.child_stmts();
                let ghost stack_middle = stack@;
                push_stmts(&mut stack, &children);
                proof {
                    let parts = p.stmt(StmtId(id)).parts();
                    assert(parts == children@);
                    assert(given.contains(id) ==> seen_before.contains(id));
                    assert forall|s: usize| #[trigger] stack@.contains(s) implies stmt_reached(
                        p,
                        root,
                        s,
                    ) by {
                        if !stack_middle.contains(s) {
                            assert(children@.contains(StmtId(s)));
                            assert(edge(id, s));
                            crate::common::reach::lemma_reaches_step(edge, roots, id, s);
                        }
                    }
                    assert forall|a: usize, b: usize|
                        seen@.contains(a) && #[trigger] edge(a, b) implies seen@.contains(b)
                        || stack@.contains(b) by {
                        if a == id {
                            assert(children@.contains(StmtId(b)));
                        } else if !seen_before.contains(b) {
                            assert(stack_before.contains(b));
                        }
                    }
                    if p.acyclic() {
                        assert(parts.take(parts.len() as int) =~= parts);
                        lemma_unwound_parts(p, stack_middle, id, parts.len(), found@);
                    }
                }
            }
        } else {
            assert(seen@ =~= seen_before);
        }
    }
    proof {
        assert(stack@ =~= Seq::empty());
        assert forall|s: usize| #[trigger] stmt_reached(p, root, s) implies seen@.contains(s) by {
            crate::common::reach::lemma_closed_holds_reached(edge, roots, seen@, s);
        }
    }
}

/// The statements that can be reached from one.
pub fn reach_stmts(program: &CoreProgram, root: StmtId) -> (found: Vec<usize>)
    ensures
        forall|s: usize| #[trigger] found@.contains(s) <==> stmt_reached(program@, root, s),
        program@.acyclic() ==> found@ == visit(program@, root.0, Seq::empty()),
{
    let mut seen: HashSet<usize> = HashSet::new();
    let mut found: Vec<usize> = Vec::new();
    assert(found@ =~= Seq::empty());
    visit_stmts(program, root, &mut seen, &mut found);
    found
}

/// The expressions that can be reached from some.
fn reach_exprs(program: &CoreProgram, starts: Vec<usize>) -> (found: Vec<usize>)
    ensures
        forall|e: usize| #[trigger]
            found@.contains(e) <==> crate::common::reach::reaches(
                expr_edge(program@),
                starts@.to_set(),
                e,
            ),
{
    let ghost p = program@;
    let ghost edge = expr_edge(p);
    let ghost roots = starts@.to_set();
    let mut seen: HashSet<usize> = HashSet::new();
    let mut found: Vec<usize> = Vec::new();
    let mut stack: Vec<usize> = starts;
    proof {
        assert forall|e: usize| #[trigger] stack@.contains(e) implies crate::common::reach::reaches(
            edge,
            roots,
            e,
        ) by {
            crate::common::reach::lemma_reaches_root(edge, roots, e);
        }
    }
    while stack.len() > 0
        invariant
            p == program@,
            edge == expr_edge(p),
            seen@.finite(),
            forall|e: usize| #[trigger] found@.contains(e) <==> seen@.contains(e),
            forall|e: usize| #[trigger]
                roots.contains(e) ==> seen@.contains(e) || stack@.contains(e),
            forall|e: usize| #[trigger]
                seen@.contains(e) ==> crate::common::reach::reaches(edge, roots, e),
            forall|e: usize| #[trigger]
                stack@.contains(e) ==> crate::common::reach::reaches(edge, roots, e),
            forall|a: usize, b: usize|
                seen@.contains(a) && #[trigger] edge(a, b) ==> seen@.contains(b) || stack@.contains(
                    b,
                ),
        decreases crate::common::reach::position_count() - seen@.len(), stack@.len(),
    {
        let ghost stack_before = stack@;
        let ghost seen_before = seen@;
        let id: usize = stack[stack.len() - 1];
        stack.pop();
        proof {
            assert(stack_before =~= stack@.push(id));
            crate::common::reach::lemma_popped(stack_before, stack@, id);
        }
        if seen.insert(id) {
            let ghost found_before = found@;
            found.push(id);
            proof {
                crate::common::reach::lemma_position_bound(seen@);
                crate::common::reach::lemma_pushed(found_before, id);
            }
            if let Some(node) = program.expr(ExprId::new(id)) {
                let children = node.child_exprs();
                let ghost stack_middle = stack@;
                push_exprs(&mut stack, &children);
                proof {
                    assert forall|e: usize| #[trigger]
                        stack@.contains(e) implies crate::common::reach::reaches(edge, roots, e) by {
                        if !stack_middle.contains(e) {
                            assert(children@.contains(ExprId(e)));
                            assert(edge(id, e));
                            crate::common::reach::lemma_reaches_step(edge, roots, id, e);
                        }
                    }
                    assert forall|a: usize, b: usize|
                        seen@.contains(a) && #[trigger] edge(a, b) implies seen@.contains(b)
                        || stack@.contains(b) by {
                        if a == id {
                            assert(children@.contains(ExprId(b)));
                        } else if !seen_before.contains(b) {
                            assert(stack_before.contains(b));
                        }
                    }
                }
            }
        } else {
            assert(seen@ =~= seen_before);
        }
    }
    proof {
        assert forall|e: usize| #[trigger]
            crate::common::reach::reaches(edge, roots, e) implies seen@.contains(e) by {
            crate::common::reach::lemma_closed_holds_reached(edge, roots, seen@, e);
        }
    }
    found
}

/// The functions that the code from a statement on calls, in order.
fn collect_stmt_callees(program: &CoreProgram, root: StmtId) -> (callees: Vec<usize>)
    ensures
        crate::common::sorted::ascending(callees@),
        forall|f: usize| #[trigger]
            callees@.contains(f) <==> code_calls(program@, root, FuncId(f)),
{
    let ghost p = program@;
    let stmts = reach_stmts(program, root);
    let mut callees: Vec<usize> = Vec::new();
    let mut starts: Vec<usize> = Vec::new();
    let mut i: usize = 0;
    while i < stmts.len()
        invariant
            p == program@,
            i <= stmts@.len(),
            crate::common::sorted::ascending(callees@),
            forall|f: usize| #[trigger]
                callees@.contains(f) <==> (exists|j: int| #![trigger stmts@[j]]
                    0 <= j < i && stmt_is_call(p, stmts@[j], FuncId(f))),
            forall|e: usize| #[trigger]
                starts@.contains(e) <==> (exists|j: int| #![trigger stmts@[j]]
                    0 <= j < i && p.has_stmt(StmtId(stmts@[j])) && p.stmt(
                        StmtId(stmts@[j]),
                    ).has_expr(ExprId(e))),
        decreases stmts@.len() - i,
    {
        let ghost callees_before = callees@;
        let ghost starts_before = starts@;
        if let Some(node) = program.stmt(StmtId::new(stmts[i])) {
            if let StmtKind::Call { callee, .. } = &node.kind {
                crate::common::sorted::insert_sorted(&mut callees, callee.0);
            }
            let parts = node.child_exprs();
            push_exprs(&mut starts, &parts);
            proof {
                assert forall|e: usize| #[trigger] starts@.contains(e) <==> (exists|j: int|
                    #![trigger stmts@[j]]
                    0 <= j < i + 1 && p.has_stmt(StmtId(stmts@[j])) && p.stmt(
                        StmtId(stmts@[j]),
                    ).has_expr(ExprId(e))) by {
                    if starts@.contains(e) {
                        if starts_before.contains(e) {
                            let j = choose|j: int| #![trigger stmts@[j]]
                                0 <= j < i && p.has_stmt(StmtId(stmts@[j])) && p.stmt(
                                    StmtId(stmts@[j]),
                                ).has_expr(ExprId(e));
                            assert(stmts@[j] == stmts@[j]);
                        } else {
                            assert(parts@.contains(ExprId(e)));
                            assert(stmts@[i as int] == stmts@[i as int]);
                        }
                    }
                    if exists|j: int| #![trigger stmts@[j]]
                        0 <= j < i + 1 && p.has_stmt(StmtId(stmts@[j])) && p.stmt(
                            StmtId(stmts@[j]),
                        ).has_expr(ExprId(e)) {
                        let j = choose|j: int| #![trigger stmts@[j]]
                            0 <= j < i + 1 && p.has_stmt(StmtId(stmts@[j])) && p.stmt(
                                StmtId(stmts@[j]),
                            ).has_expr(ExprId(e));
                        if j == i {
                            assert(parts@.contains(ExprId(e)));
                        } else {
                            assert(starts_before.contains(e));
                        }
                    }
                }
            }
        }
        proof {
            assert forall|f: usize| #[trigger] callees@.contains(f) <==> (exists|j: int|
                #![trigger stmts@[j]]
                0 <= j < i + 1 && stmt_is_call(p, stmts@[j], FuncId(f))) by {
                if callees@.contains(f) {
                    if callees_before.contains(f) {
                        let j = choose|j: int| #![trigger stmts@[j]]
                            0 <= j < i && stmt_is_call(p, stmts@[j], FuncId(f));
                        assert(stmts@[j] == stmts@[j]);
                    } else {
                        assert(stmt_is_call(p, stmts@[i as int], FuncId(f)));
                    }
                }
                if exists|j: int| #![trigger stmts@[j]]
                    0 <= j < i + 1 && stmt_is_call(p, stmts@[j], FuncId(f)) {
                    let j = choose|j: int| #![trigger stmts@[j]]
                        0 <= j < i + 1 && stmt_is_call(p, stmts@[j], FuncId(f));
                    if j < i {
                        assert(callees_before.contains(f));
                    }
                }
            }
        }
        i += 1;
    }
    proof {
        assert(starts@.to_set() =~= roots_of(p, root)) by {
            assert forall|e: usize| #[trigger]
                starts@.to_set().contains(e) <==> roots_of(p, root).contains(e) by {
                if starts@.contains(e) {
                    let j = choose|j: int| #![trigger stmts@[j]]
                        0 <= j < i && p.has_stmt(StmtId(stmts@[j])) && p.stmt(
                            StmtId(stmts@[j]),
                        ).has_expr(ExprId(e));
                    assert(stmts@.contains(stmts@[j]));
                    assert(stmt_reached(p, root, stmts@[j]));
                }
                if roots_of(p, root).contains(e) {
                    let s = choose|s: usize| #[trigger]
                        stmt_reached(p, root, s) && p.has_stmt(StmtId(s)) && p.stmt(
                            StmtId(s),
                        ).has_expr(ExprId(e));
                    assert(stmts@.contains(s));
                    let j = choose|j: int| 0 <= j < stmts@.len() && stmts@[j] == s;
                    assert(stmts@[j] == s);
                }
            }
        }
        assert forall|f: usize| #[trigger] callees@.contains(f) <==> (exists|s: usize| #[trigger]
            stmt_reached(p, root, s) && stmt_is_call(p, s, FuncId(f))) by {
            if callees@.contains(f) {
                let j = choose|j: int| #![trigger stmts@[j]]
                    0 <= j < i && stmt_is_call(p, stmts@[j], FuncId(f));
                assert(stmts@.contains(stmts@[j]));
                assert(stmt_reached(p, root, stmts@[j]));
            }
            if exists|s: usize| #[trigger]
                stmt_reached(p, root, s) && stmt_is_call(p, s, FuncId(f)) {
                let s = choose|s: usize| #[trigger]
                    stmt_reached(p, root, s) && stmt_is_call(p, s, FuncId(f));
                assert(stmts@.contains(s));
                let j = choose|j: int| 0 <= j < stmts@.len() && stmts@[j] == s;
                assert(stmts@[j] == s);
            }
        }
    }
    let exprs = reach_exprs(program, starts);
    let ghost stmt_callees = callees@;
    let mut i: usize = 0;
    while i < exprs.len()
        invariant
            p == program@,
            i <= exprs@.len(),
            crate::common::sorted::ascending(callees@),
            forall|f: usize| #[trigger]
                callees@.contains(f) <==> (stmt_callees.contains(f) || exists|j: int|
                    #![trigger exprs@[j]]
                    0 <= j < i && expr_is_call(p, exprs@[j], FuncId(f))),
        decreases exprs@.len() - i,
    {
        let ghost callees_before = callees@;
        if let Some(node) = program.expr(ExprId::new(exprs[i])) {
            if let ExprKind::PureCall { callee, .. } = &node.kind {
                crate::common::sorted::insert_sorted(&mut callees, callee.0);
            }
        }
        proof {
            assert forall|f: usize| #[trigger]
                callees@.contains(f) <==> (stmt_callees.contains(f) || exists|j: int|
                    #![trigger exprs@[j]]
                    0 <= j < i + 1 && expr_is_call(p, exprs@[j], FuncId(f))) by {
                if callees@.contains(f) && !stmt_callees.contains(f) {
                    if callees_before.contains(f) {
                        let j = choose|j: int| #![trigger exprs@[j]]
                            0 <= j < i && expr_is_call(p, exprs@[j], FuncId(f));
                        assert(exprs@[j] == exprs@[j]);
                    } else {
                        assert(expr_is_call(p, exprs@[i as int], FuncId(f)));
                    }
                }
                if exists|j: int| #![trigger exprs@[j]]
                    0 <= j < i + 1 && expr_is_call(p, exprs@[j], FuncId(f)) {
                    let j = choose|j: int| #![trigger exprs@[j]]
                        0 <= j < i + 1 && expr_is_call(p, exprs@[j], FuncId(f));
                    if j < i {
                        assert(callees_before.contains(f));
                    }
                }
            }
        }
        i += 1;
    }
    proof {
        assert forall|f: usize| #[trigger]
            callees@.contains(f) <==> code_calls(p, root, FuncId(f)) by {
            if callees@.contains(f) && !stmt_callees.contains(f) {
                let j = choose|j: int| #![trigger exprs@[j]]
                    0 <= j < i && expr_is_call(p, exprs@[j], FuncId(f));
                assert(exprs@.contains(exprs@[j]));
                assert(expr_reached(p, root, exprs@[j]));
            }
            if exists|e: usize| #[trigger]
                expr_reached(p, root, e) && expr_is_call(p, e, FuncId(f)) {
                let e = choose|e: usize| #[trigger]
                    expr_reached(p, root, e) && expr_is_call(p, e, FuncId(f));
                assert(exprs@.contains(e));
                let j = choose|j: int| 0 <= j < exprs@.len() && exprs@[j] == e;
                assert(exprs@[j] == e);
            }
        }
    }
    callees
}

/// The functions that a program can come to call, in order.
pub fn collect_reachable_functions(program: &CoreProgram) -> (found: Vec<FuncId>)
    ensures
        forall|i: int, j: int| 0 <= i < j < found@.len() ==> (#[trigger] found@[i]).0 < (
        #[trigger] found@[j]).0,
        forall|f: FuncId| #[trigger] found@.contains(f) <==> function_reached(program@, f.0),
{
    let ghost p = program@;
    let ghost edge = call_edge(p);
    let ghost roots = entry_set(p);
    let mut seen: Vec<usize> = Vec::new();
    let mut stack: Vec<usize> = Vec::new();
    let mut i: usize = 0;
    while i < program.entrypoints.len()
        invariant
            i <= program.entrypoints@.len(),
            stack@.len() == i,
            forall|j: int| 0 <= j < i ==> #[trigger] stack@[j] == program.entrypoints@[j].0,
        decreases program.entrypoints@.len() - i,
    {
        stack.push(program.entrypoints[i].0);
        i += 1;
    }
    proof {
        assert forall|f: usize| #[trigger] stack@.contains(f) <==> roots.contains(f) by {
            if stack@.contains(f) {
                let k = choose|k: int| 0 <= k < stack@.len() && stack@[k] == f;
                assert(program.entrypoints@[k] == FuncId(f));
            }
            if roots.contains(f) {
                let k = choose|k: int|
                    0 <= k < program.entrypoints@.len() && program.entrypoints@[k] == FuncId(f);
                assert(stack@[k] == f);
            }
        }
        assert forall|f: usize| #[trigger] stack@.contains(f) implies function_reached(p, f) by {
            crate::common::reach::lemma_reaches_root(edge, roots, f);
        }
    }
    while stack.len() > 0
        invariant
            p == program@,
            edge == call_edge(p),
            roots == entry_set(p),
            crate::common::sorted::ascending(seen@),
            forall|f: usize| #[trigger]
                roots.contains(f) ==> seen@.contains(f) || stack@.contains(f),
            forall|f: usize| #[trigger] seen@.contains(f) ==> function_reached(p, f),
            forall|f: usize| #[trigger] stack@.contains(f) ==> function_reached(p, f),
            forall|a: usize, b: usize|
                seen@.contains(a) && #[trigger] edge(a, b) ==> seen@.contains(b) || stack@.contains(
                    b,
                ),
        decreases
                crate::common::reach::position_count() - seen@.to_set().len(),
                stack@.len(),
    {
        let ghost stack_before = stack@;
        let ghost seen_before = seen@;
        let id: usize = stack[stack.len() - 1];
        stack.pop();
        proof {
            assert(stack_before =~= stack@.push(id));
            crate::common::reach::lemma_popped(stack_before, stack@, id);
        }
        if crate::common::sorted::insert_sorted(&mut seen, id) {
            proof {
                seen@.lemma_cardinality_of_set();
                seen_before.lemma_cardinality_of_set();
                assert(seen@.to_set() =~= seen_before.to_set().insert(id));
                crate::common::reach::lemma_position_bound(seen@.to_set());
            }
            if let Some(function) = program.function(FuncId::new(id)) {
                let callees = collect_stmt_callees(program, function.body);
                let ghost stack_middle = stack@;
                push_all(&mut stack, &callees);
                proof {
                    assert forall|f: usize| #[trigger] stack@.contains(f) implies function_reached(
                        p,
                        f,
                    ) by {
                        if !stack_middle.contains(f) {
                            assert(callees@.contains(f));
                            assert(edge(id, f));
                            crate::common::reach::lemma_reaches_step(edge, roots, id, f);
                        }
                    }
                    assert forall|a: usize, b: usize|
                        seen@.contains(a) && #[trigger] edge(a, b) implies seen@.contains(b)
                        || stack@.contains(b) by {
                        if a == id {
                            assert(callees@.contains(b));
                        } else if !seen_before.contains(b) {
                            assert(stack_before.contains(b));
                        }
                    }
                }
            }
        }
    }
    let mut found: Vec<FuncId> = Vec::new();
    let mut i: usize = 0;
    while i < seen.len()
        invariant
            i <= seen@.len(),
            found@.len() == i,
            forall|j: int| 0 <= j < i ==> (#[trigger] found@[j]).0 == seen@[j],
        decreases seen@.len() - i,
    {
        found.push(FuncId::new(seen[i]));
        i += 1;
    }
    proof {
        assert forall|f: FuncId| #[trigger] found@.contains(f) <==> function_reached(p, f.0) by {
            if found@.contains(f) {
                let k = choose|k: int| 0 <= k < found@.len() && found@[k] == f;
                assert(seen@[k] == f.0);
                assert(seen@.contains(f.0));
            }
            if function_reached(p, f.0) {
                crate::common::reach::lemma_closed_holds_reached(edge, roots, seen@.to_set(), f.0);
                let k = choose|k: int| 0 <= k < seen@.len() && seen@[k] == f.0;
                assert(found@[k] == f);
            }
        }
    }
    found
}

fn push_all(stack: &mut Vec<usize>, items: &Vec<usize>)
    ensures
        forall|x: usize| #[trigger]
            final(stack)@.contains(x) <==> (old(stack)@.contains(x) || items@.contains(x)),
{
    let mut i: usize = 0;
    while i < items.len()
        invariant
            i <= items@.len(),
            forall|x: usize| #[trigger]
                stack@.contains(x) <==> (old(stack)@.contains(x) || items@.take(
                    i as int,
                ).contains(x)),
        decreases items@.len() - i,
    {
        let ghost before = stack@;
        stack.push(items[i]);
        proof {
            crate::common::reach::lemma_pushed(before, items@[i as int]);
            crate::common::reach::lemma_pushed(items@.take(i as int), items@[i as int]);
            assert(items@.take(i as int + 1) =~= items@.take(i as int).push(items@[i as int]));
        }
        i += 1;
    }
    assert(items@.take(i as int) =~= items@);
}

fn push_stmts(stack: &mut Vec<usize>, items: &Vec<StmtId>)
    ensures
        forall|x: usize| #[trigger]
            final(stack)@.contains(x) <==> (old(stack)@.contains(x) || items@.contains(StmtId(x))),
        final(stack)@ == old(stack)@ + places(items@),
{
    let mut i: usize = 0;
    while i < items.len()
        invariant
            i <= items@.len(),
            stack@.len() == old(stack)@.len() + i,
            forall|j: int| 0 <= j < old(stack)@.len() ==> #[trigger] stack@[j] == old(stack)@[j],
            forall|j: int| 0 <= j < i ==> stack@[old(stack)@.len() + j] == (#[trigger] items@[j]).0,
        decreases items@.len() - i,
    {
        stack.push(items[i].0);
        i += 1;
    }
    proof {
        let n = old(stack)@.len() as int;
        assert(stack@ =~= old(stack)@ + places(items@));
        assert forall|x: usize| #[trigger] stack@.contains(x) <==> (old(stack)@.contains(x)
            || items@.contains(StmtId(x))) by {
            if stack@.contains(x) {
                let k = choose|k: int| 0 <= k < stack@.len() && stack@[k] == x;
                if k < n {
                    assert(old(stack)@[k] == x);
                } else {
                    assert(items@[k - n].0 == x);
                }
            }
            if old(stack)@.contains(x) {
                let k = choose|k: int| 0 <= k < n && old(stack)@[k] == x;
                assert(stack@[k] == x);
            }
            if items@.contains(StmtId(x)) {
                let k = choose|k: int| 0 <= k < items@.len() && items@[k] == StmtId(x);
                assert(stack@[n + k] == x);
            }
        }
    }
}

fn push_exprs(stack: &mut Vec<usize>, items: &Vec<ExprId>)
    ensures
        forall|x: usize| #[trigger]
            final(stack)@.contains(x) <==> (old(stack)@.contains(x) || items@.contains(ExprId(x))),
{
    let mut i: usize = 0;
    while i < items.len()
        invariant
            i <= items@.len(),
            stack@.len() == old(stack)@.len() + i,
            forall|j: int| 0 <= j < old(stack)@.len() ==> #[trigger] stack@[j] == old(stack)@[j],
            forall|j: int| 0 <= j < i ==> stack@[old(stack)@.len() + j] == (#[trigger] items@[j]).0,
        decreases items@.len() - i,
    {
        stack.push(items[i].0);
        i += 1;
    }
    proof {
        let n = old(stack)@.len() as int;
        assert forall|x: usize| #[trigger] stack@.contains(x) <==> (old(stack)@.contains(x)
            || items@.contains(ExprId(x))) by {
            if stack@.contains(x) {
                let k = choose|k: int| 0 <= k < stack@.len() && stack@[k] == x;
                if k < n {
                    assert(old(stack)@[k] == x);
                } else {
                    assert(items@[k - n].0 == x);
                }
            }
            if old(stack)@.contains(x) {
                let k = choose|k: int| 0 <= k < n && old(stack)@[k] == x;
                assert(stack@[k] == x);
            }
            if items@.contains(ExprId(x)) {
                let k = choose|k: int| 0 <= k < items@.len() && items@[k] == ExprId(x);
                assert(stack@[n + k] == x);
            }
        }
    }
}

// ---------------------------------------------------------------------------
// Leaving out what is never called
// ---------------------------------------------------------------------------

/// How many of the first functions can come to be called.
pub open spec fn kept_before(p: CoreModel, first: nat) -> nat
    decreases first,
{
    if first == 0 {
        0
    } else if function_reached(p, (first - 1) as usize) {
        kept_before(p, (first - 1) as nat) + 1
    } else {
        kept_before(p, (first - 1) as nat)
    }
}

/// Where the functions move to once those that are never called are left out:
/// the others keep their order.
pub open spec fn kept_map(p: CoreModel) -> Seq<Option<FuncId>> {
    Seq::new(
        p.functions.len(),
        |f: int|
            if function_reached(p, f as usize) {
                Some(FuncId(kept_before(p, f as nat) as usize))
            } else {
                None
            },
    )
}

/// The new name of a function; one that is left out has none.
pub open spec fn renamed(remap: Seq<Option<FuncId>>, f: FuncId) -> FuncId {
    match crate::pipeline::reason::remapped(remap, f) {
        Some(g) => g,
        None => FuncId::invalid(),
    }
}

pub open spec fn renamed_expr(remap: Seq<Option<FuncId>>, e: ExprModel) -> ExprModel {
    match e {
        ExprModel::PureCall { callee, args } => ExprModel::PureCall {
            callee: renamed(remap, callee),
            args,
        },
        _ => e,
    }
}

pub open spec fn renamed_stmt(remap: Seq<Option<FuncId>>, s: StmtModel) -> StmtModel {
    match s {
        StmtModel::Call { result, callee, args, effects, next } => StmtModel::Call {
            result,
            callee: renamed(remap, callee),
            args,
            effects,
            next,
        },
        _ => s,
    }
}

/// The program without the functions that are never called.
pub open spec fn is_pruned(p: CoreModel, q: CoreModel) -> bool {
    let remap = kept_map(p);
    &&& q == (CoreModel {
        exprs: p.exprs.map_values(
            |e: ExprNodeModel| ExprNodeModel { kind: renamed_expr(remap, e.kind), ..e },
        ),
        stmts: p.stmts.map_values(
            |s: StmtNodeModel| StmtNodeModel { kind: renamed_stmt(remap, s.kind), ..s },
        ),
        entrypoints: p.entrypoints.map_values(|f: FuncId| renamed(remap, f)),
        functions: q.functions,
        ..p
    })
    &&& q.functions.len() == kept_before(p, p.functions.len())
    &&& forall|f: int|
        0 <= f < p.functions.len() && function_reached(p, f as usize)
            ==> q.functions[kept_before(p, f as nat) as int] == #[trigger] p.functions[f]
}

/// Of fewer functions no more are kept; a function that is kept counts.
pub proof fn lemma_kept_before(p: CoreModel, a: nat, b: nat)
    requires
        a <= b,
    ensures
        kept_before(p, a) <= kept_before(p, b) <= kept_before(p, a) + (b - a),
        a < b && function_reached(p, a as usize) && a <= usize::MAX ==> kept_before(p, a)
            < kept_before(p, b),
    decreases b - a,
{
    if a < b {
        lemma_kept_before(p, a + 1, b);
    }
}

/// Every function moves to a place in the pruned program.
pub proof fn lemma_kept_in_bounds(p: CoreModel, f: FuncId)
    requires
        p.functions.len() <= usize::MAX,
        crate::pipeline::reason::remapped(kept_map(p), f) is Some,
    ensures
        crate::pipeline::reason::remapped(kept_map(p), f) matches Some(g) ==> g.0 < kept_before(
            p,
            p.functions.len(),
        ),
        kept_before(p, p.functions.len()) <= p.functions.len(),
{
    lemma_kept_before(p, f.0 as nat, p.functions.len());
    lemma_kept_before(p, 0, p.functions.len());
}

fn rename(remap: &Vec<Option<FuncId>>, f: FuncId) -> (g: FuncId)
    ensures
        g == renamed(remap@, f),
{
    if f.0 < remap.len() {
        match remap[f.0] {
            Some(g) => g,
            None => FuncId::invalid(),
        }
    } else {
        FuncId::invalid()
    }
}

fn rename_calls(program: CoreProgram, remap: &Vec<Option<FuncId>>) -> (out: CoreProgram)
    ensures
        out@ == (CoreModel {
            exprs: program@.exprs.map_values(
                |e: ExprNodeModel| ExprNodeModel { kind: renamed_expr(remap@, e.kind), ..e },
            ),
            stmts: program@.stmts.map_values(
                |s: StmtNodeModel| StmtNodeModel { kind: renamed_stmt(remap@, s.kind), ..s },
            ),
            entrypoints: program@.entrypoints.map_values(|f: FuncId| renamed(remap@, f)),
            ..program@
        }),
{
    let ghost p = program@;
    let mut program = program;
    let expr_count: usize = program.exprs.len();
    let mut i: usize = 0;
    while i < expr_count
        invariant
            i <= expr_count,
            expr_count == p.exprs.len(),
            program@ == (CoreModel { exprs: program@.exprs, ..p }),
            program@.exprs.len() == expr_count,
            forall|k: int|
                0 <= k < expr_count ==> #[trigger] program@.exprs[k] == (if k < i {
                    ExprNodeModel { kind: renamed_expr(remap@, p.exprs[k].kind), ..p.exprs[k] }
                } else {
                    p.exprs[k]
                }),
        decreases expr_count - i,
    {
        assert(program@.exprs[i as int] == program.exprs@[i as int]@);
        let change = match &program.exprs[i].kind {
            ExprKind::PureCall { callee, args } => Some(
                ExprKind::PureCall { callee: rename(remap, *callee), args: copy_exprs(args) },
            ),
            _ => None,
        };
        if let Some(kind) = change {
            program.set_expr(ExprId::new(i), kind);
        }
        i += 1;
    }
    let stmt_count: usize = program.stmts.len();
    let ghost middle = program@;
    let mut i: usize = 0;
    while i < stmt_count
        invariant
            i <= stmt_count,
            stmt_count == p.stmts.len(),
            middle.stmts == p.stmts,
            program@ == (CoreModel { stmts: program@.stmts, ..middle }),
            program@.stmts.len() == stmt_count,
            forall|k: int|
                0 <= k < stmt_count ==> #[trigger] program@.stmts[k] == (if k < i {
                    StmtNodeModel { kind: renamed_stmt(remap@, p.stmts[k].kind), ..p.stmts[k] }
                } else {
                    p.stmts[k]
                }),
        decreases stmt_count - i,
    {
        assert(program@.stmts[i as int] == program.stmts@[i as int]@);
        let change = match &program.stmts[i].kind {
            StmtKind::Call { result, callee, args, effects, next } => Some(
                StmtKind::Call {
                    result: *result,
                    callee: rename(remap, *callee),
                    args: copy_exprs(args),
                    effects: effects.clone(),
                    next: *next,
                },
            ),
            _ => None,
        };
        if let Some(kind) = change {
            program.set_stmt(StmtId::new(i), kind);
        }
        i += 1;
    }
    let mut entrypoints: Vec<FuncId> = Vec::new();
    let mut i: usize = 0;
    while i < program.entrypoints.len()
        invariant
            i <= program.entrypoints@.len(),
            entrypoints@.len() == i,
            forall|k: int|
                0 <= k < i ==> #[trigger] entrypoints@[k] == renamed(
                    remap@,
                    program.entrypoints@[k],
                ),
        decreases program.entrypoints@.len() - i,
    {
        entrypoints.push(rename(remap, program.entrypoints[i]));
        i += 1;
    }
    let ghost last = program@;
    program.set_entrypoints(entrypoints);
    proof {
        assert(program@.exprs =~= p.exprs.map_values(
            |e: ExprNodeModel| ExprNodeModel { kind: renamed_expr(remap@, e.kind), ..e },
        ));
        assert(program@.stmts =~= p.stmts.map_values(
            |s: StmtNodeModel| StmtNodeModel { kind: renamed_stmt(remap@, s.kind), ..s },
        ));
        assert(program@.entrypoints =~= p.entrypoints.map_values(
            |f: FuncId| renamed(remap@, f),
        ));
    }
    program
}

/// A function stands where it belongs once others are left out.
spec fn placed(p: CoreModel, functions: Seq<FunctionDecl>, f: int) -> bool {
    kept_before(p, f as nat) < functions.len() && functions[kept_before(p, f as nat) as int]@
        == p.functions[f]
}

/// Leaves out the functions that are never called, and says where the others
/// have moved to.
pub fn prune_unreachable_functions(program: CoreProgram) -> (out: (
    CoreProgram,
    Vec<Option<FuncId>>,
))
    ensures
        is_pruned(program@, out.0@),
        out.1@ == kept_map(program@),
{
    let ghost p = program@;
    let reachable = collect_reachable_functions(&program);
    let mut remap: Vec<Option<FuncId>> = Vec::new();
    let mut functions: Vec<FunctionDecl> = Vec::new();
    let mut next: usize = 0;
    let count: usize = program.functions.len();
    let mut i: usize = 0;
    while i < count
        invariant
            i <= count,
            p == program@,
            count == program.functions@.len(),
            forall|a: int, b: int| 0 <= a < b < reachable@.len() ==> (#[trigger] reachable@[a]).0
                < (#[trigger] reachable@[b]).0,
            forall|f: FuncId| #[trigger] reachable@.contains(f) <==> function_reached(p, f.0),
            next <= reachable@.len(),
            forall|k: int| 0 <= k < next ==> (#[trigger] reachable@[k]).0 < i,
            forall|k: int| next <= k < reachable@.len() ==> (#[trigger] reachable@[k]).0 >= i,
            remap@.len() == i,
            forall|f: int| 0 <= f < i ==> #[trigger] remap@[f] == kept_map(p)[f],
            functions@.len() == kept_before(p, i as nat),
            kept_before(p, i as nat) <= i,
            forall|f: int|
                0 <= f < i && function_reached(p, f as usize) ==> #[trigger] placed(
                    p,
                    functions@,
                    f,
                ),
        decreases count - i,
    {
        let ghost before = functions@;
        let here = next < reachable.len() && reachable[next].0 == i;
        proof {
            if here {
                assert(reachable@.contains(reachable@[next as int]));
                assert(function_reached(p, i));
            } else if function_reached(p, i) {
                assert(reachable@.contains(FuncId(i)));
                let k = choose|k: int| 0 <= k < reachable@.len() && reachable@[k] == FuncId(i);
                assert(k >= next);
                assert(reachable@[next as int].0 >= i);
                if k > next {
                    assert(reachable@[next as int].0 < reachable@[k].0);
                }
            }
            assert(here == function_reached(p, i));
        }
        if here {
            remap.push(Some(FuncId::new(functions.len())));
            functions.push(program.functions[i].clone());
            next += 1;
        } else {
            remap.push(None);
        }
        proof {
            assert(p.functions[i as int] == program.functions@[i as int]@);
            assert forall|f: int|
                0 <= f < i + 1 && function_reached(p, f as usize) implies #[trigger] placed(
                p,
                functions@,
                f,
            ) by {
                if f < i {
                    assert(placed(p, before, f));
                } else {
                    assert(kept_before(p, f as nat) == before.len());
                }
            }
        }
        i += 1;
    }
    assert(remap@ =~= kept_map(p));
    let mut out = rename_calls(program, &remap);
    out.functions = functions;
    proof {
        assert forall|f: int|
            0 <= f < p.functions.len() && function_reached(p, f as usize) implies out@.functions[
        kept_before(p, f as nat) as int] == #[trigger] p.functions[f] by {
            assert(placed(p, functions@, f));
        }
    }
    (out, remap)
}

/// Leaving functions out brings no cycle and no dangling part in.
pub proof fn lemma_pruned_sound(p: CoreModel, q: CoreModel)
    requires
        is_pruned(p, q),
        p.functions.len() <= usize::MAX,
        p.acyclic(),
        p.closed(),
    ensures
        q.acyclic(),
        q.closed(),
{
    let er = choose|rank: spec_fn(ExprId) -> nat| #[trigger] p.expr_ranking(rank);
    let sr = choose|rank: spec_fn(StmtId) -> nat| #[trigger] p.stmt_ranking(rank);
    assert(q.expr_ranking(er) && q.exprs_closed()) by {
        assert forall|e: ExprId, part: ExprId| #![trigger q.expr(e).has_part(part)]
            q.has_expr(e) && q.expr(e).has_part(part) implies er(part) < er(e) && q.has_expr(
            part,
        ) by {
            assert(p.expr(e).has_part(part));
        }
    }
    assert(q.stmt_ranking(sr) && q.stmts_closed()) by {
        assert forall|s: StmtId, part: StmtId| #![trigger q.stmt(s).has_part(part)]
            q.has_stmt(s) && q.stmt(s).has_part(part) implies sr(part) < sr(s) && q.has_stmt(
            part,
        ) by {
            assert(p.stmt(s).has_part(part));
        }
        assert forall|s: StmtId, part: ExprId| #![trigger q.stmt(s).has_expr(part)]
            q.has_stmt(s) && q.stmt(s).has_expr(part) implies q.has_expr(part) by {
            assert(p.stmt(s).has_expr(part));
        }
    }
    assert(q.functions_closed()) by {
        assert forall|g: FuncId| #![trigger q.function(g)] q.has_function(g) implies q.has_stmt(
            q.function(g).body,
        ) by {
            let f = lemma_kept_source(p, p.functions.len(), g.0 as nat);
            assert(q.functions[kept_before(p, f as nat) as int] == p.functions[f as int]);
            assert(p.has_stmt(p.function(FuncId(f as usize)).body));
        }
    }
    assert(q.handlers_closed()) by {
        assert forall|h: crate::common::ids::HandlerId| #![trigger q.handler(h)]
            q.has_handler(h) implies q.has_stmt(q.handler(h).return_body) by {
            assert(p.has_stmt(p.handler(h).return_body));
        }
        assert forall|h: crate::common::ids::HandlerId, i: int|
            #![trigger q.handler(h).clauses[i]]
            q.has_handler(h) && 0 <= i < q.handler(h).clauses.len() implies q.has_stmt(
            q.handler(h).clauses[i].body,
        ) by {
            assert(p.has_stmt(p.handler(h).clauses[i].body));
        }
    }
}

/// Every place of the pruned program is taken by a function that was kept.
proof fn lemma_kept_source(p: CoreModel, first: nat, place: nat) -> (f: nat)
    requires
        place < kept_before(p, first),
        first <= usize::MAX,
    ensures
        f < first,
        function_reached(p, f as usize),
        kept_before(p, f) == place,
    decreases first,
{
    let last = (first - 1) as nat;
    if place < kept_before(p, last) {
        lemma_kept_source(p, last, place)
    } else {
        last
    }
}

} // verus!
