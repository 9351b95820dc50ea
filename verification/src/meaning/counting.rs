//! Reference counts come out even.
use crate::common::ids::{ExprId, StmtId, VarId};
use crate::ir::core_ir::{CoreModel, ExprModel, StmtModel};
use crate::passes::arc_insert::{ArcFlow, ArcOpKind, ArcPlannedOp};
use crate::pipeline::phases::SemanticTables;
use vstd::prelude::*;

verus! {

/// How often an operation is planned at a statement: once, or not at all.
pub open spec fn planned(ops: Seq<ArcPlannedOp>, stmt: StmtId, kind: ArcOpKind) -> int {
    if ops.contains(ArcPlannedOp { stmt, kind }) {
        1
    } else {
        0
    }
}

/// A call in an expression is handed a variable.
pub open spec fn hands(p: CoreModel, e: ExprId, var: VarId) -> bool {
    exists|call: ExprId, i: int|
        {
            &&& crate::common::reach::reaches(
                crate::passes::function_graph::expr_edge(p),
                set![e.0],
                call.0,
            )
            &&& #[trigger] hands_as(p, call, var, i)
        }
}

/// An argument of a call is a variable.
pub open spec fn hands_as(p: CoreModel, call: ExprId, var: VarId, i: int) -> bool {
    &&& p.has_expr(call)
    &&& p.expr(call) matches ExprModel::PureCall { args, .. }
    &&& 0 <= i < args.len()
    &&& p.has_expr(args[i])
    &&& p.expr(args[i]) == ExprModel::Var(var)
}

proof fn lemma_occurs(list: Seq<VarId>, var: VarId)
    ensures
        crate::passes::arc_insert::occurrences(list, var) > 0 <==> list.contains(var),
    decreases list.len(),
{
    if list.len() > 0 {
        lemma_occurs(list.drop_last(), var);
        if list.contains(var) && list.last() != var {
            let i = choose|i: int| 0 <= i < list.len() && list[i] == var;
            assert(list.drop_last()[i] == var);
        }
        if list.drop_last().contains(var) {
            let i = choose|i: int| 0 <= i < list.drop_last().len() && list.drop_last()[i] == var;
            assert(list[i] == var);
        }
        if list.last() == var {
            assert(list[list.len() - 1] == var);
        }
    }
}

proof fn lemma_joined(a: Seq<VarId>, b: Seq<VarId>, var: VarId)
    ensures
        (a + b).contains(var) <==> a.contains(var) || b.contains(var),
{
    if (a + b).contains(var) {
        let i = choose|i: int| 0 <= i < (a + b).len() && (a + b)[i] == var;
        if i < a.len() {
            assert(a[i] == var);
        } else {
            assert(b[i - a.len()] == var);
        }
    }
    if a.contains(var) {
        let i = choose|i: int| 0 <= i < a.len() && a[i] == var;
        assert((a + b)[i] == var);
    }
    if b.contains(var) {
        let i = choose|i: int| 0 <= i < b.len() && b[i] == var;
        assert((a + b)[i + a.len()] == var);
    }
}

/// Counting finds a variable among those handed to calls just where a call, at
/// any depth, is handed it.
pub proof fn lemma_handed(p: CoreModel, e: ExprId, var: VarId)
    requires
        p.acyclic(),
        p.has_expr(e),
        p.exprs_closed(),
    ensures
        crate::passes::arc_insert::call_vars(p, e).contains(var) <==> hands(p, e, var),
    decreases p.expr_rank(e), 1nat, 0nat,
{
    crate::passes::linearize::analysis::lemma_expr_ranks(p, e);
    let edge = crate::passes::function_graph::expr_edge(p);
    let kind = p.expr(e);
    assert(ExprId(e.0) == e);
    assert forall|part: ExprId| #[trigger] kind.has_part(part) && hands(p, part, var) implies hands(
        p,
        e,
        var,
    ) by {
        assert(ExprId(part.0) == part);
        let (call, i) = choose|call: ExprId, i: int|
            {
                &&& crate::common::reach::reaches(edge, set![part.0], call.0)
                &&& #[trigger] hands_as(p, call, var, i)
            };
        crate::meaning::resuming::lemma_reaches_through(edge, e.0, part.0, call.0);
    }
    crate::common::reach::lemma_reaches_root(edge, set![e.0], e.0);
    if hands(p, e, var) {
        let (call, i) = choose|call: ExprId, i: int|
            {
                &&& crate::common::reach::reaches(edge, set![e.0], call.0)
                &&& #[trigger] hands_as(p, call, var, i)
            };
        if call != e {
            let part = lemma_reaches_first(edge, e.0, call.0);
            assert(kind.has_part(ExprId(part)));
            assert(hands(p, ExprId(part), var));
        }
    }
    match kind {
        ExprModel::Unary { expr, .. } => {
            assert(kind.has_part(expr));
            lemma_handed(p, expr, var);
        },
        ExprModel::Binary { lhs, rhs, .. } => {
            assert(kind.has_part(lhs));
            assert(kind.has_part(rhs));
            lemma_handed(p, lhs, var);
            lemma_handed(p, rhs, var);
            lemma_joined(
                crate::passes::arc_insert::call_vars(p, lhs),
                crate::passes::arc_insert::call_vars(p, rhs),
                var,
            );
        },
        ExprModel::PureCall { args, .. } => {
            lemma_handed_parts(p, e, var, args.len());
            lemma_handed_list(p, e, var);
        },
        ExprModel::MakeStruct { fields, .. } => {
            lemma_handed_parts(p, e, var, fields.len());
            lemma_handed_list(p, e, var);
        },
        ExprModel::MakeEnum { fields, .. } => {
            lemma_handed_parts(p, e, var, fields.len());
            lemma_handed_list(p, e, var);
        },
        _ => {},
    }
}

/// An expression with a list of parts hands a variable on just where one of them
/// does, or is the variable and the expression a call.
proof fn lemma_handed_list(p: CoreModel, e: ExprId, var: VarId)
    requires
        p.acyclic(),
        p.has_expr(e),
        p.expr(e) is PureCall || p.expr(e) is MakeStruct || p.expr(e) is MakeEnum,
    ensures
        hands(p, e, var) <==> exists|i: int|
            0 <= i < crate::passes::arc_insert::expr_list(p.expr(e)).len() && #[trigger] handed_at(
                p,
                e,
                var,
                i,
            ),
{
    let edge = crate::passes::function_graph::expr_edge(p);
    let list = crate::passes::arc_insert::expr_list(p.expr(e));
    assert(ExprId(e.0) == e);
    crate::common::reach::lemma_reaches_root(edge, set![e.0], e.0);
    if exists|i: int| 0 <= i < list.len() && #[trigger] handed_at(p, e, var, i) {
        let i = choose|i: int| 0 <= i < list.len() && #[trigger] handed_at(p, e, var, i);
        if hands(p, list[i], var) {
            let (call, k) = choose|call: ExprId, k: int|
                {
                    &&& crate::common::reach::reaches(edge, set![list[i].0], call.0)
                    &&& #[trigger] hands_as(p, call, var, k)
                };
            assert(list.contains(list[i]));
            assert(p.expr(e).has_part(list[i]));
            assert(ExprId(list[i].0) == list[i]);
            crate::meaning::resuming::lemma_reaches_through(edge, e.0, list[i].0, call.0);
            assert(hands_as(p, call, var, k));
        } else {
            assert(hands_as(p, e, var, i));
        }
    }
    if hands(p, e, var) {
        let (call, k) = choose|call: ExprId, k: int|
            {
                &&& crate::common::reach::reaches(edge, set![e.0], call.0)
                &&& #[trigger] hands_as(p, call, var, k)
            };
        if call == e {
            assert(handed_at(p, e, var, k));
        } else {
            let b = lemma_reaches_first(edge, e.0, call.0);
            let part = ExprId(b);
            assert(p.expr(e).has_part(part));
            assert(list.contains(part));
            let i = choose|i: int| 0 <= i < list.len() && list[i] == part;
            assert(hands_as(p, call, var, k));
            assert(hands(p, part, var));
            assert(handed_at(p, e, var, i));
        }
    }
}

/// What is reached otherwise than at once is reached through a first edge.
pub proof fn lemma_reaches_first(
    edge: spec_fn(usize, usize) -> bool,
    a: usize,
    c: usize,
) -> (b: usize)
    requires
        crate::common::reach::reaches(edge, set![a], c),
        a != c,
    ensures
        edge(a, b),
        crate::common::reach::reaches(edge, set![b], c),
{
    let path = choose|path: Seq<usize>| crate::common::reach::leads(edge, set![a], c, path);
    assert(path[0] == a);
    let b = path[1];
    let rest = path.subrange(1, path.len() as int);
    assert forall|i: int| #![trigger rest[i]] 0 <= i < rest.len() - 1 implies edge(
        rest[i],
        rest[i + 1],
    ) by {
        assert(rest[i] == path[i + 1]);
        assert(rest[i + 1] == path[i + 2]);
    }
    assert(rest.last() == path.last());
    assert(edge(path[0], path[1]));
    assert(crate::common::reach::leads(edge, set![b], c, rest));
    b
}

/// An argument or field of an expression is handed to it as a variable, or hands
/// the variable on itself.
pub open spec fn handed_at(p: CoreModel, e: ExprId, var: VarId, i: int) -> bool {
    let part = crate::passes::arc_insert::expr_list(p.expr(e))[i];
    p.expr(e) is PureCall && p.has_expr(part) && p.expr(part) == ExprModel::Var(var) || hands(
        p,
        part,
        var,
    )
}

proof fn lemma_handed_parts(p: CoreModel, e: ExprId, var: VarId, first: nat)
    requires
        p.acyclic(),
        p.has_expr(e),
        p.exprs_closed(),
        p.expr(e) is PureCall || p.expr(e) is MakeStruct || p.expr(e) is MakeEnum,
        first <= crate::passes::arc_insert::expr_list(p.expr(e)).len(),
    ensures
        crate::passes::arc_insert::parts_call_vars(p, e, first).contains(var) <==> exists|i: int|
            0 <= i < first && #[trigger] handed_at(p, e, var, i),
    decreases p.expr_rank(e), 0nat, first,
{
    let list = crate::passes::arc_insert::expr_list(p.expr(e));
    if first > 0 {
        let n = (first - 1) as nat;
        let last = list[first - 1];
        crate::passes::linearize::analysis::lemma_expr_ranks(p, e);
        assert(list.contains(last));
        assert(p.expr(e).has_part(last));
        lemma_handed_parts(p, e, var, n);
        lemma_handed(p, last, var);
        let before = crate::passes::arc_insert::parts_call_vars(p, e, n);
        let own = if p.expr(e) is PureCall {
            crate::passes::arc_insert::as_var(p, last)
        } else {
            Seq::empty()
        };
        let inner = crate::passes::arc_insert::call_vars(p, last);
        lemma_joined(before + own, inner, var);
        lemma_joined(before, own, var);
        assert(own.contains(var) <==> (p.expr(e) is PureCall && p.has_expr(last) && p.expr(last)
            == ExprModel::Var(var))) by {
            if p.expr(e) is PureCall && p.has_expr(last) && p.expr(last) is Var {
                assert(own[0] == p.expr(last)->Var_0);
                assert(own =~= seq![p.expr(last)->Var_0]);
            }
        }
        assert(handed_at(p, e, var, n as int) <==> own.contains(var) || inner.contains(var));
    }
}

/// How many references to what a variable holds a statement gives away: one to
/// each call that is handed the variable, and one to a new name for it that is
/// used later.
pub open spec fn given_away(
    p: CoreModel,
    flow: ArcFlow,
    s: StmtId,
    var: VarId,
) -> int {
    let to_calls = crate::passes::arc_insert::call_uses(p, p.stmt(s), var) as int;
    let to_name: int = match p.stmt(s) {
        StmtModel::Let { binding, value, .. } => if p.has_expr(value) && p.expr(value)
            == ExprModel::Var(var) && !flow.last_use(s, binding) {
            1
        } else {
            0
        },
        _ => 0,
    };
    to_calls + to_name
}

/// A variable that holds one reference before a statement that hands it to one
/// call at most holds one after it, or none where the statement is the last to
/// use it: what is planned makes up for what is given away.
pub proof fn lemma_counts_come_out_even(
    p: CoreModel,
    sema: SemanticTables,
    flow: ArcFlow,
    ops: Seq<ArcPlannedOp>,
    s: StmtId,
    var: VarId,
)
    requires
        p.acyclic(),
        forall|x: ArcPlannedOp| #[trigger]
            ops.contains(x) <==> crate::passes::arc_insert::wanted(p, sema, flow, x),
        p.has_stmt(s),
        flow.reachable@.contains(s),
        crate::passes::arc_insert::managed(sema, var),
        crate::passes::arc_insert::call_uses(p, p.stmt(s), var) <= 1,
        p.stmt(s) matches StmtModel::Let { binding, .. } ==> binding != var
            && crate::passes::arc_insert::managed(sema, binding),
    ensures
        1 + planned(ops, s, ArcOpKind::Retain { var }) - given_away(p, flow, s, var) - planned(
            ops,
            s,
            ArcOpKind::Release { var },
        ) == (if flow.last_use(s, var) {
            0int
        } else {
            1int
        }),
{
    let retain = ArcPlannedOp { stmt: s, kind: ArcOpKind::Retain { var } };
    let release = ArcPlannedOp { stmt: s, kind: ArcOpKind::Release { var } };
    assert(ops.contains(retain) <==> crate::passes::arc_insert::wanted(p, sema, flow, retain));
    assert(ops.contains(release) <==> crate::passes::arc_insert::wanted(p, sema, flow, release));
    if let StmtModel::Let { binding, value, .. } = p.stmt(s) {
        if p.has_expr(value) && p.expr(value) == ExprModel::Var(var) {
            assert(crate::passes::arc_insert::call_vars(p, value) =~= Seq::empty());
            let list = crate::passes::arc_insert::stmt_exprs(p.stmt(s));
            assert(list =~= seq![value]);
            reveal_with_fuel(crate::passes::arc_insert::list_call_vars, 2);
            assert(crate::passes::arc_insert::list_call_vars(p, list, 1, false) =~= Seq::empty());
            assert(crate::passes::arc_insert::call_uses(p, p.stmt(s), var) == 0);
        }
    }
}

/// A new name for what another variable holds, of which nothing later makes use,
/// holds no reference and is not released; any other variable that a statement
/// gives a value to holds one, and is released there just where nothing makes use
/// of it later.
pub proof fn lemma_new_name_even(
    p: CoreModel,
    sema: SemanticTables,
    flow: ArcFlow,
    ops: Seq<ArcPlannedOp>,
    s: StmtId,
)
    requires
        p.acyclic(),
        forall|x: ArcPlannedOp| #[trigger]
            ops.contains(x) <==> crate::passes::arc_insert::wanted(p, sema, flow, x),
        p.has_stmt(s),
        p.stmt(s) is Let,
        flow.reachable@.contains(s),
        crate::passes::arc_insert::managed(sema, p.stmt(s)->Let_binding),
        crate::passes::arc_insert::uses(p, p.stmt(s), p.stmt(s)->Let_binding) == 0,
        p.has_expr(p.stmt(s)->Let_value) && p.expr(p.stmt(s)->Let_value) is Var ==> p.expr(
            p.stmt(s)->Let_value,
        )->Var_0 != p.stmt(s)->Let_binding,
    ensures
        ({
            let var = p.stmt(s)->Let_binding;
            let value = p.stmt(s)->Let_value;
            let unused = p.has_expr(value) && p.expr(value) is Var && flow.last_use(s, var);
            let held: int = if unused {
                0
            } else {
                1
            };
            held - planned(ops, s, ArcOpKind::Release { var }) == (if flow.last_use(s, var) {
                0int
            } else {
                1int
            })
        }),
{
    let var = p.stmt(s)->Let_binding;
    let release = ArcPlannedOp { stmt: s, kind: ArcOpKind::Release { var } };
    assert(ops.contains(release) <==> crate::passes::arc_insert::wanted(p, sema, flow, release));
}

/// A statement counts as handing a variable to a call just where it is a call
/// that takes the variable, or a call in one of its expressions takes it.
pub proof fn lemma_handed_by_statement(p: CoreModel, s: StmtModel, var: VarId, first: nat)
    requires
        p.acyclic(),
        p.exprs_closed(),
        forall|e: ExprId| #[trigger] s.has_expr(e) ==> p.has_expr(e),
        first <= crate::passes::arc_insert::stmt_exprs(s).len(),
    ensures
        crate::passes::arc_insert::list_call_vars(
            p,
            crate::passes::arc_insert::stmt_exprs(s),
            first,
            s is Call,
        ).contains(var) <==> exists|i: int| 0 <= i < first && #[trigger] taken_at(p, s, var, i),
        first == crate::passes::arc_insert::stmt_exprs(s).len() ==> (
        crate::passes::arc_insert::call_uses(p, s, var) > 0 <==> exists|i: int|
            0 <= i < first && #[trigger] taken_at(p, s, var, i)),
    decreases first,
{
    let list = crate::passes::arc_insert::stmt_exprs(s);
    let all = crate::passes::arc_insert::list_call_vars(p, list, first, s is Call);
    lemma_occurs(all, var);
    if first > 0 {
        let n = (first - 1) as nat;
        let last = list[first - 1];
        assert(list.contains(last));
        assert(s.has_expr(last));
        lemma_handed_by_statement(p, s, var, n);
        lemma_handed(p, last, var);
        let before = crate::passes::arc_insert::list_call_vars(p, list, n, s is Call);
        let own = if s is Call {
            crate::passes::arc_insert::as_var(p, last)
        } else {
            Seq::empty()
        };
        lemma_joined(before + own, crate::passes::arc_insert::call_vars(p, last), var);
        lemma_joined(before, own, var);
        assert(own.contains(var) <==> (s is Call && p.expr(last) == ExprModel::Var(var))) by {
            if s is Call && p.expr(last) is Var {
                assert(own[0] == p.expr(last)->Var_0);
                assert(own =~= seq![p.expr(last)->Var_0]);
            }
        }
        assert(taken_at(p, s, var, n as int) <==> own.contains(var)
            || crate::passes::arc_insert::call_vars(p, last).contains(var));
    }
}

/// An expression of a statement is a variable that the statement calls with, or
/// hands the variable on.
pub open spec fn taken_at(p: CoreModel, s: StmtModel, var: VarId, i: int) -> bool {
    let e = s.expr_parts()[i];
    s is Call && p.expr(e) == ExprModel::Var(var) || hands(p, e, var)
}

} // verus!
