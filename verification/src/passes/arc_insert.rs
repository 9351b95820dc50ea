//! Which reference counts are to be raised and lowered, and where.
use crate::common::densemap::DenseMap;
use crate::common::ids::{ExprId, StmtId, VarId};
use crate::ir::core_ir::{copy_exprs, CoreModel, CoreProgram, ExprKind, ExprModel, StmtKind, StmtModel};
use crate::pipeline::phases::{ArcResidualOp, ArcResidualOpKind, ArcResidualPlan, SemanticTables};
use crate::sema::ownership::OwnershipClass;
use std::collections::HashSet;
use vstd::prelude::*;

verus! {

#[derive(Clone, Copy, PartialEq, Eq, Debug, Structural)]
pub enum ArcOpKind {
    Retain { var: VarId },
    Release { var: VarId },
}

#[derive(Clone, Copy, PartialEq, Eq, Debug, Structural)]
pub struct ArcPlannedOp {
    pub stmt: StmtId,
    pub kind: ArcOpKind,
}

#[derive(Clone, Copy, PartialEq, Eq, Debug, Default, Structural)]
pub struct ArcInsertStats {
    pub retain_ops: u32,
    pub release_ops: u32,
}

#[derive(Clone, Debug)]
pub struct ArcInsertionPlan {
    pub ops: Vec<ArcPlannedOp>,
    pub stats: ArcInsertStats,
}

/// What is known of the flow of variables through a program: which statements
/// can be reached, where variables are used for the last time, which are still
/// live after a statement, and which are copies of one another.
#[derive(Debug)]
pub struct ArcFlow {
    pub reachable: Vec<StmtId>,
    pub last_uses: DenseMap<Vec<VarId>>,
    pub live_out: DenseMap<Vec<VarId>>,
    pub copy_alias_edges: Vec<(VarId, VarId)>,
}

impl ArcFlow {
    pub open spec fn last_use(self, s: StmtId, var: VarId) -> bool {
        self.last_uses@.contains_key(s.0) && self.last_uses@[s.0]@.contains(var)
    }

    pub open spec fn live_after(self, s: StmtId, var: VarId) -> bool {
        self.live_out@.contains_key(s.0) && self.live_out@[s.0]@.contains(var)
    }

    /// One variable is a copy of another.
    pub open spec fn alias_edge(self) -> spec_fn(usize, usize) -> bool {
        |a: usize, b: usize|
            self.copy_alias_edges@.contains((VarId(a), VarId(b)))
                || self.copy_alias_edges@.contains((VarId(b), VarId(a)))
    }
}

// ---------------------------------------------------------------------------
// What is wanted
// ---------------------------------------------------------------------------

pub open spec fn var_class(sema: SemanticTables, var: VarId) -> OwnershipClass {
    if sema.ownership_of_var@.contains_key(var.0) {
        sema.ownership_of_var@[var.0]
    } else {
        OwnershipClass::BorrowedView
    }
}

pub open spec fn managed(sema: SemanticTables, var: VarId) -> bool {
    var_class(sema, var) is RcManaged
}

/// How often a variable occurs in a list.
pub open spec fn occurrences(list: Seq<VarId>, var: VarId) -> nat
    decreases list.len(),
{
    if list.len() == 0 {
        0
    } else {
        occurrences(list.drop_last(), var) + if list.last() == var {
            1nat
        } else {
            0nat
        }
    }
}

/// The arguments or fields of an expression that has a list of them.
pub open spec fn expr_list(e: ExprModel) -> Seq<ExprId> {
    match e {
        ExprModel::PureCall { args, .. } => args,
        ExprModel::MakeStruct { fields, .. } => fields,
        ExprModel::MakeEnum { fields, .. } => fields,
        _ => Seq::empty(),
    }
}

/// Every use of a variable in an expression, in order.
pub open spec fn expr_vars(p: CoreModel, e: ExprId) -> Seq<VarId>
    decreases p.expr_rank(e), 1nat, 0nat,
    when p.acyclic()
{
    proof {
        crate::passes::linearize::analysis::lemma_expr_ranks(p, e);
    }
    if !p.has_expr(e) {
        Seq::empty()
    } else {
        match p.expr(e) {
            ExprModel::Var(var) => seq![var],
            ExprModel::Unary { expr, .. } => expr_vars(p, expr),
            ExprModel::Binary { lhs, rhs, .. } => expr_vars(p, lhs) + expr_vars(p, rhs),
            ExprModel::Literal(_) | ExprModel::Error(_) => Seq::empty(),
            _ => parts_vars(p, e, expr_list(p.expr(e)).len()),
        }
    }
}

/// Every use of a variable in the first arguments or fields, in order.
pub open spec fn parts_vars(p: CoreModel, e: ExprId, first: nat) -> Seq<VarId>
    decreases p.expr_rank(e), 0nat, first,
    when p.acyclic()
{
    let list = expr_list(p.expr(e));
    if first == 0 || first > list.len() || !p.has_expr(e) {
        Seq::empty()
    } else {
        proof {
            crate::passes::linearize::analysis::lemma_expr_ranks(p, e);
            assert(list.contains(list[first - 1]));
            assert(p.expr(e).has_part(list[first - 1]));
        }
        parts_vars(p, e, (first - 1) as nat) + expr_vars(p, list[first - 1])
    }
}

/// The variable that an expression is, if it is one.
pub open spec fn as_var(p: CoreModel, e: ExprId) -> Seq<VarId> {
    if p.has_expr(e) && p.expr(e) is Var {
        seq![p.expr(e)->Var_0]
    } else {
        Seq::empty()
    }
}

/// Every variable that is itself an argument of a call in an expression.
pub open spec fn call_vars(p: CoreModel, e: ExprId) -> Seq<VarId>
    decreases p.expr_rank(e), 1nat, 0nat,
    when p.acyclic()
{
    proof {
        crate::passes::linearize::analysis::lemma_expr_ranks(p, e);
    }
    if !p.has_expr(e) {
        Seq::empty()
    } else {
        match p.expr(e) {
            ExprModel::Unary { expr, .. } => call_vars(p, expr),
            ExprModel::Binary { lhs, rhs, .. } => call_vars(p, lhs) + call_vars(p, rhs),
            ExprModel::Var(_) | ExprModel::Literal(_) | ExprModel::Error(_) => Seq::empty(),
            _ => parts_call_vars(p, e, expr_list(p.expr(e)).len()),
        }
    }
}

pub open spec fn parts_call_vars(p: CoreModel, e: ExprId, first: nat) -> Seq<VarId>
    decreases p.expr_rank(e), 0nat, first,
    when p.acyclic()
{
    let list = expr_list(p.expr(e));
    if first == 0 || first > list.len() || !p.has_expr(e) {
        Seq::empty()
    } else {
        proof {
            crate::passes::linearize::analysis::lemma_expr_ranks(p, e);
            assert(list.contains(list[first - 1]));
            assert(p.expr(e).has_part(list[first - 1]));
        }
        parts_call_vars(p, e, (first - 1) as nat) + if p.expr(e) is PureCall {
            as_var(p, list[first - 1])
        } else {
            Seq::empty()
        } + call_vars(p, list[first - 1])
    }
}

/// The expressions of a statement, in order.
pub open spec fn stmt_exprs(s: StmtModel) -> Seq<ExprId> {
    match s {
        StmtModel::Return(e) => seq![e],
        StmtModel::Let { value, .. } => seq![value],
        StmtModel::Call { args, .. } => args,
        StmtModel::If { cond, .. } => seq![cond],
        StmtModel::Match { scrutinee, .. } => seq![scrutinee],
        StmtModel::Perform { args, .. } => args,
        StmtModel::Resume { arg, .. } => seq![arg],
        _ => Seq::empty(),
    }
}

/// Every use of a variable in the first of some expressions.
pub open spec fn list_vars(p: CoreModel, list: Seq<ExprId>, first: nat) -> Seq<VarId>
    decreases first,
{
    if first == 0 || first > list.len() {
        Seq::empty()
    } else {
        list_vars(p, list, (first - 1) as nat) + expr_vars(p, list[first - 1])
    }
}

/// Every variable that is itself an argument of a call: of one in an expression
/// of the list and, where the list is that of a call, of that call.
pub open spec fn list_call_vars(
    p: CoreModel,
    list: Seq<ExprId>,
    first: nat,
    is_call: bool,
) -> Seq<VarId>
    decreases first,
{
    if first == 0 || first > list.len() {
        Seq::empty()
    } else {
        list_call_vars(p, list, (first - 1) as nat, is_call) + if is_call {
            as_var(p, list[first - 1])
        } else {
            Seq::empty()
        } + call_vars(p, list[first - 1])
    }
}

pub open spec fn uses(p: CoreModel, s: StmtModel, var: VarId) -> nat {
    occurrences(list_vars(p, stmt_exprs(s), stmt_exprs(s).len()), var)
}

pub open spec fn call_uses(p: CoreModel, s: StmtModel, var: VarId) -> nat {
    occurrences(list_call_vars(p, stmt_exprs(s), stmt_exprs(s).len(), s is Call), var)
}

/// Another counted variable that is live after a statement is, through copies,
/// the same value.
pub open spec fn live_alias(
    flow: ArcFlow,
    sema: SemanticTables,
    s: StmtId,
    var: VarId,
) -> bool {
    exists|other: usize|
        {
            &&& #[trigger] crate::common::reach::reaches(flow.alias_edge(), set![var.0], other)
            &&& other != var.0
            &&& flow.live_after(s, VarId(other))
            &&& managed(sema, VarId(other))
        }
}

/// A call takes a counted variable over: it is used once, as an argument, for
/// the last time, and under no other name.
pub open spec fn moves_to_callee(
    p: CoreModel,
    sema: SemanticTables,
    flow: ArcFlow,
    s: StmtId,
    var: VarId,
) -> bool {
    &&& managed(sema, var)
    &&& call_uses(p, p.stmt(s), var) == 1
    &&& uses(p, p.stmt(s), var) == 1
    &&& flow.last_use(s, var)
    &&& !live_alias(flow, sema, s, var)
}

/// The variable that a statement gives a new name, if it does.
pub open spec fn alias_source(p: CoreModel, s: StmtModel) -> Option<VarId> {
    match s {
        StmtModel::Let { value, .. } => if p.has_expr(value) && p.expr(value) is Var {
            Some(p.expr(value)->Var_0)
        } else {
            None
        },
        _ => None,
    }
}

/// A new name that is never used again.
pub open spec fn drops_binding(
    p: CoreModel,
    sema: SemanticTables,
    flow: ArcFlow,
    s: StmtId,
    var: VarId,
) -> bool {
    &&& alias_source(p, p.stmt(s)) is Some
    &&& p.stmt(s)->Let_binding == var
    &&& managed(sema, var)
    &&& flow.last_use(s, var)
}

/// A new name takes the old one's place.
pub open spec fn moves_source(
    p: CoreModel,
    sema: SemanticTables,
    flow: ArcFlow,
    s: StmtId,
    var: VarId,
) -> bool {
    &&& alias_source(p, p.stmt(s)) == Some(var)
    &&& !drops_binding(p, sema, flow, s, p.stmt(s)->Let_binding)
    &&& managed(sema, var)
    &&& managed(sema, p.stmt(s)->Let_binding)
    &&& flow.last_use(s, var)
}

/// A new name shares the value with the old one.
pub open spec fn copies_source(
    p: CoreModel,
    sema: SemanticTables,
    flow: ArcFlow,
    s: StmtId,
    var: VarId,
) -> bool {
    &&& alias_source(p, p.stmt(s)) == Some(var)
    &&& !drops_binding(p, sema, flow, s, p.stmt(s)->Let_binding)
    &&& !moves_source(p, sema, flow, s, var)
    &&& managed(sema, var)
}

/// Whether an operation belongs in the plan.
pub open spec fn wanted(
    p: CoreModel,
    sema: SemanticTables,
    flow: ArcFlow,
    op: ArcPlannedOp,
) -> bool {
    let s = op.stmt;
    &&& flow.reachable@.contains(s)
    &&& p.has_stmt(s)
    &&& wanted_at(p, sema, flow, s, op.kind)
}

pub open spec fn wanted_at(
    p: CoreModel,
    sema: SemanticTables,
    flow: ArcFlow,
    s: StmtId,
    kind: ArcOpKind,
) -> bool {
    match kind {
        ArcOpKind::Retain { var } => {
            ||| call_uses(p, p.stmt(s), var) > 0 && managed(sema, var) && !moves_to_callee(
                p,
                sema,
                flow,
                s,
                var,
            )
            ||| copies_source(p, sema, flow, s, var)
        },
        ArcOpKind::Release { var } => {
            &&& flow.last_use(s, var)
            &&& managed(sema, var)
            &&& !moves_to_callee(p, sema, flow, s, var)
            &&& !moves_source(p, sema, flow, s, var)
            &&& !drops_binding(p, sema, flow, s, var)
        },
    }
}

/// One operation stands before another: by statement, retains first, then by
/// variable.
pub open spec fn op_before(a: ArcPlannedOp, b: ArcPlannedOp) -> bool {
    let x = op_rank(a.kind);
    let y = op_rank(b.kind);
    a.stmt.0 < b.stmt.0 || (a.stmt.0 == b.stmt.0 && (x < y || (x == y && op_var(a.kind).0 < op_var(
        b.kind,
    ).0)))
}

pub open spec fn op_rank(kind: ArcOpKind) -> int {
    if kind is Retain {
        0
    } else {
        1
    }
}

pub open spec fn op_var(kind: ArcOpKind) -> VarId {
    match kind {
        ArcOpKind::Retain { var } => var,
        ArcOpKind::Release { var } => var,
    }
}

pub open spec fn ops_ordered(ops: Seq<ArcPlannedOp>) -> bool {
    forall|i: int, j: int| 0 <= i < j < ops.len() ==> op_before(#[trigger] ops[i], #[trigger] ops[j])
}

/// How many of the operations raise a count.
pub open spec fn retain_count(ops: Seq<ArcPlannedOp>) -> nat
    decreases ops.len(),
{
    if ops.len() == 0 {
        0
    } else {
        retain_count(ops.drop_last()) + if ops.last().kind is Retain {
            1nat
        } else {
            0nat
        }
    }
}

pub open spec fn capped(n: int) -> int {
    if n <= u32::MAX {
        n
    } else {
        u32::MAX as int
    }
}

/// The statistics that go with a list of operations.
pub open spec fn counts(ops: Seq<ArcPlannedOp>, stats: ArcInsertStats) -> bool {
    stats.retain_ops == capped(retain_count(ops) as int) && stats.release_ops == capped(
        ops.len() - retain_count(ops),
    )
}

// ---------------------------------------------------------------------------
// Planning
// ---------------------------------------------------------------------------

fn ownership_of_var(sema: &SemanticTables, var: VarId) -> (class: OwnershipClass)
    ensures
        class == var_class(*sema, var),
{
    match sema.ownership_of_var.get(var.0) {
        Some(class) => *class,
        None => OwnershipClass::BorrowedView,
    }
}

pub fn is_managed(sema: &SemanticTables, var: VarId) -> (b: bool)
    ensures
        b == managed(*sema, var),
{
    match ownership_of_var(sema, var) {
        OwnershipClass::RcManaged => true,
        _ => false,
    }
}

fn parts_expr_vars(
    program: &CoreProgram,
    Ghost(owner): Ghost<ExprId>,
    list: &Vec<ExprId>,
    out: &mut Vec<VarId>,
)
    requires
        program@.acyclic(),
        program@.has_expr(owner),
        expr_list(program@.expr(owner)) == list@,
    ensures
        final(out)@ == old(out)@ + parts_vars(program@, owner, list@.len()),
    decreases program@.expr_rank(owner), 0nat,
{
    let ghost p = program@;
    let ghost start = out@;
    let mut i: usize = 0;
    assert(start + parts_vars(p, owner, 0) =~= start);
    while i < list.len()
        invariant
            p == program@,
            p.acyclic(),
            p.has_expr(owner),
            expr_list(p.expr(owner)) == list@,
            i <= list@.len(),
            out@ == start + parts_vars(p, owner, i as nat),
        decreases list@.len() - i,
    {
        proof {
            assert(list@.contains(list@[i as int]));
            assert(p.expr(owner).has_part(list@[i as int]));
            crate::ir::core_ir::lemma_expr_rank(p, owner, list@[i as int]);
        }
        collect_expr_vars(program, list[i], out);
        assert(out@ =~= start + parts_vars(p, owner, (i + 1) as nat));
        i += 1;
    }
}

fn collect_expr_vars(program: &CoreProgram, expr_id: ExprId, out: &mut Vec<VarId>)
    requires
        program@.acyclic(),
    ensures
        final(out)@ == old(out)@ + expr_vars(program@, expr_id),
    decreases program@.expr_rank(expr_id), 1nat,
{
    proof {
        crate::passes::linearize::analysis::lemma_expr_ranks(program@, expr_id);
    }
    let ghost start = out@;
    if let Some(node) = program.expr(expr_id) {
        match &node.kind {
            ExprKind::Var(var) => out.push(*var),
            ExprKind::Unary { expr, .. } => collect_expr_vars(program, *expr, out),
            ExprKind::Binary { lhs, rhs, .. } => {
                collect_expr_vars(program, *lhs, out);
                collect_expr_vars(program, *rhs, out);
            },
            ExprKind::PureCall { args, .. } => parts_expr_vars(program, Ghost(expr_id), args, out),
            ExprKind::MakeStruct { fields, .. } => parts_expr_vars(
                program,
                Ghost(expr_id),
                fields,
                out,
            ),
            ExprKind::MakeEnum { fields, .. } => parts_expr_vars(
                program,
                Ghost(expr_id),
                fields,
                out,
            ),
            ExprKind::Literal(_) | ExprKind::Error(_) => {},
        }
    }
    assert(out@ =~= start + expr_vars(program@, expr_id));
}

fn push_if_var(program: &CoreProgram, expr_id: ExprId, out: &mut Vec<VarId>)
    ensures
        final(out)@ == old(out)@ + as_var(program@, expr_id),
{
    let ghost start = out@;
    if let Some(node) = program.expr(expr_id) {
        if let ExprKind::Var(var) = &node.kind {
            out.push(*var);
        }
    }
    assert(out@ =~= start + as_var(program@, expr_id));
}

fn parts_call_arg_vars(
    program: &CoreProgram,
    Ghost(owner): Ghost<ExprId>,
    list: &Vec<ExprId>,
    is_call: bool,
    out: &mut Vec<VarId>,
)
    requires
        program@.acyclic(),
        program@.has_expr(owner),
        expr_list(program@.expr(owner)) == list@,
        is_call == program@.expr(owner) is PureCall,
    ensures
        final(out)@ == old(out)@ + parts_call_vars(program@, owner, list@.len()),
    decreases program@.expr_rank(owner), 0nat,
{
    let ghost p = program@;
    let ghost start = out@;
    let mut i: usize = 0;
    assert(start + parts_call_vars(p, owner, 0) =~= start);
    while i < list.len()
        invariant
            p == program@,
            p.acyclic(),
            p.has_expr(owner),
            expr_list(p.expr(owner)) == list@,
            is_call == p.expr(owner) is PureCall,
            i <= list@.len(),
            out@ == start + parts_call_vars(p, owner, i as nat),
        decreases list@.len() - i,
    {
        proof {
            assert(list@.contains(list@[i as int]));
            assert(p.expr(owner).has_part(list@[i as int]));
            crate::ir::core_ir::lemma_expr_rank(p, owner, list@[i as int]);
        }
        if is_call {
            push_if_var(program, list[i], out);
        }
        collect_call_arg_vars(program, list[i], out);
        assert(out@ =~= start + parts_call_vars(p, owner, (i + 1) as nat));
        i += 1;
    }
}

fn collect_call_arg_vars(program: &CoreProgram, expr_id: ExprId, out: &mut Vec<VarId>)
    requires
        program@.acyclic(),
    ensures
        final(out)@ == old(out)@ + call_vars(program@, expr_id),
    decreases program@.expr_rank(expr_id), 1nat,
{
    proof {
        crate::passes::linearize::analysis::lemma_expr_ranks(program@, expr_id);
    }
    let ghost start = out@;
    if let Some(node) = program.expr(expr_id) {
        match &node.kind {
            ExprKind::Unary { expr, .. } => collect_call_arg_vars(program, *expr, out),
            ExprKind::Binary { lhs, rhs, .. } => {
                collect_call_arg_vars(program, *lhs, out);
                collect_call_arg_vars(program, *rhs, out);
            },
            ExprKind::PureCall { args, .. } => parts_call_arg_vars(
                program,
                Ghost(expr_id),
                args,
                true,
                out,
            ),
            ExprKind::MakeStruct { fields, .. } => parts_call_arg_vars(
                program,
                Ghost(expr_id),
                fields,
                false,
                out,
            ),
            ExprKind::MakeEnum { fields, .. } => parts_call_arg_vars(
                program,
                Ghost(expr_id),
                fields,
                false,
                out,
            ),
            ExprKind::Var(_) | ExprKind::Literal(_) | ExprKind::Error(_) => {},
        }
    }
    assert(out@ =~= start + call_vars(program@, expr_id));
}

/// The expressions of a statement, in order.
fn exprs_of(kind: &StmtKind) -> (list: Vec<ExprId>)
    ensures
        list@ == stmt_exprs(kind@),
{
    let mut list: Vec<ExprId> = Vec::new();
    match kind {
        StmtKind::Return(e) => list.push(*e),
        StmtKind::Let { value, .. } => list.push(*value),
        StmtKind::Call { args, .. } => {
            list = copy_exprs(args);
        },
        StmtKind::If { cond, .. } => list.push(*cond),
        StmtKind::Match { scrutinee, .. } => list.push(*scrutinee),
        StmtKind::Perform { args, .. } => {
            list = copy_exprs(args);
        },
        StmtKind::Resume { arg, .. } => list.push(*arg),
        _ => {},
    }
    assert(list@ =~= stmt_exprs(kind@));
    list
}

/// Every use of a variable in a statement, and every one that is itself an
/// argument of a call.
fn collect_stmt_vars(program: &CoreProgram, kind: &StmtKind) -> (lists: (Vec<VarId>, Vec<VarId>))
    requires
        program@.acyclic(),
    ensures
        lists.0@ == list_vars(program@, stmt_exprs(kind@), stmt_exprs(kind@).len()),
        lists.1@ == list_call_vars(
            program@,
            stmt_exprs(kind@),
            stmt_exprs(kind@).len(),
            kind@ is Call,
        ),
{
    let ghost p = program@;
    let list = exprs_of(kind);
    let is_call = match kind {
        StmtKind::Call { .. } => true,
        _ => false,
    };
    let mut vars: Vec<VarId> = Vec::new();
    let mut call_vars: Vec<VarId> = Vec::new();
    let mut i: usize = 0;
    while i < list.len()
        invariant
            p == program@,
            p.acyclic(),
            i <= list@.len(),
            vars@ =~= list_vars(p, list@, i as nat),
            call_vars@ =~= list_call_vars(p, list@, i as nat, is_call),
        decreases list@.len() - i,
    {
        collect_expr_vars(program, list[i], &mut vars);
        if is_call {
            push_if_var(program, list[i], &mut call_vars);
        }
        collect_call_arg_vars(program, list[i], &mut call_vars);
        i += 1;
    }
    (vars, call_vars)
}

fn count_var(list: &Vec<VarId>, var: VarId) -> (n: usize)
    ensures
        n == occurrences(list@, var),
{
    let mut n: usize = 0;
    let mut i: usize = 0;
    assert(list@.take(0) =~= Seq::<VarId>::empty());
    while i < list.len()
        invariant
            i <= list@.len(),
            n <= i,
            n == occurrences(list@.take(i as int), var),
        decreases list@.len() - i,
    {
        proof {
            let more = list@.take(i as int + 1);
            assert(more.drop_last() =~= list@.take(i as int));
            assert(more.last() == list@[i as int]);
        }
        if list[i] == var {
            n += 1;
        }
        i += 1;
    }
    assert(list@.take(i as int) =~= list@);
    n
}

/// A variable occurs where it is counted.
proof fn lemma_occurs(list: Seq<VarId>, var: VarId)
    ensures
        occurrences(list, var) > 0 <==> list.contains(var),
    decreases list.len(),
{
    if list.len() > 0 {
        let rest = list.drop_last();
        lemma_occurs(rest, var);
        if rest.contains(var) {
            let k = choose|k: int| 0 <= k < rest.len() && rest[k] == var;
            assert(list[k] == var);
        }
        if list.last() == var {
            assert(list[list.len() - 1] == var);
        }
        if list.contains(var) && list.last() != var {
            let k = choose|k: int| 0 <= k < list.len() && list[k] == var;
            assert(rest[k] == var);
        }
    }
}

pub fn contains_var(list: &Vec<VarId>, var: VarId) -> (found: bool)
    ensures
        found == list@.contains(var),
{
    let mut i: usize = 0;
    while i < list.len()
        invariant
            i <= list@.len(),
            forall|k: int| 0 <= k < i ==> list@[k] != var,
        decreases list@.len() - i,
    {
        if list[i] == var {
            assert(list@[i as int] == var);
            return true;
        }
        i += 1;
    }
    false
}

fn is_last_use(flow: &ArcFlow, s: StmtId, var: VarId) -> (b: bool)
    ensures
        b == flow.last_use(s, var),
{
    match flow.last_uses.get(s.0) {
        Some(list) => contains_var(list, var),
        None => false,
    }
}

fn is_live_after(flow: &ArcFlow, s: StmtId, var: VarId) -> (b: bool)
    ensures
        b == flow.live_after(s, var),
{
    match flow.live_out.get(s.0) {
        Some(list) => contains_var(list, var),
        None => false,
    }
}

/// Puts the variables that are copies of one on a stack.
fn push_neighbors(flow: &ArcFlow, current: usize, stack: &mut Vec<usize>)
    ensures
        forall|x: usize| #[trigger]
            final(stack)@.contains(x) <==> (old(stack)@.contains(x) || flow.alias_edge()(
                current,
                x,
            )),
{
    let ghost edges = flow.copy_alias_edges@;
    let ghost start = stack@;
    let mut i: usize = 0;
    while i < flow.copy_alias_edges.len()
        invariant
            i <= edges.len(),
            edges == flow.copy_alias_edges@,
            start == old(stack)@,
            forall|x: usize| #[trigger]
                stack@.contains(x) <==> (start.contains(x) || exists|k: int| #![trigger edges[k]]
                    0 <= k < i && (edges[k] == (VarId(current), VarId(x)) || edges[k] == (
                    VarId(x),
                    VarId(current),
                ))),
        decreases edges.len() - i,
    {
        let (lhs, rhs) = flow.copy_alias_edges[i];
        let ghost first = stack@;
        if lhs.0 == current {
            stack.push(rhs.0);
        }
        let ghost second = stack@;
        if rhs.0 == current {
            stack.push(lhs.0);
        }
        proof {
            crate::common::reach::lemma_pushed(first, rhs.0);
            crate::common::reach::lemma_pushed(second, lhs.0);
            assert forall|x: usize| #[trigger] stack@.contains(x) <==> (start.contains(x)
                || exists|k: int| #![trigger edges[k]]
                0 <= k < i + 1 && (edges[k] == (VarId(current), VarId(x)) || edges[k] == (
                VarId(x),
                VarId(current),
            ))) by {
                if stack@.contains(x) && !first.contains(x) {
                    assert(edges[i as int] == (VarId(current), VarId(x)) || edges[i as int] == (
                    VarId(x),
                    VarId(current),
                ));
                }
                if exists|k: int| #![trigger edges[k]]
                    0 <= k < i + 1 && (edges[k] == (VarId(current), VarId(x)) || edges[k] == (
                    VarId(x),
                    VarId(current),
                )) {
                    let k = choose|k: int| #![trigger edges[k]]
                        0 <= k < i + 1 && (edges[k] == (VarId(current), VarId(x)) || edges[k] == (
                        VarId(x),
                        VarId(current),
                    ));
                    if k < i {
                        assert(first.contains(x));
                    }
                }
            }
        }
        i += 1;
    }
    proof {
        assert forall|x: usize| #[trigger] stack@.contains(x) <==> (start.contains(x)
            || flow.alias_edge()(current, x)) by {
            if edges.contains((VarId(current), VarId(x))) {
                let k = choose|k: int|
                    0 <= k < edges.len() && edges[k] == (VarId(current), VarId(x));
                assert(edges[k] == (VarId(current), VarId(x)));
            }
            if edges.contains((VarId(x), VarId(current))) {
                let k = choose|k: int|
                    0 <= k < edges.len() && edges[k] == (VarId(x), VarId(current));
                assert(edges[k] == (VarId(x), VarId(current)));
            }
        }
    }
}

fn has_live_alias_after_stmt(
    flow: &ArcFlow,
    sema: &SemanticTables,
    s: StmtId,
    var: VarId,
) -> (found: bool)
    ensures
        found == live_alias(*flow, *sema, s, var),
{
    let ghost edge = flow.alias_edge();
    let ghost roots = set![var.0];
    let mut seen: HashSet<usize> = HashSet::new();
    let mut stack: Vec<usize> = Vec::new();
    stack.push(var.0);
    proof {
        crate::common::reach::lemma_reaches_root(edge, roots, var.0);
        assert(stack@[0] == var.0);
    }
    while stack.len() > 0
        invariant
            edge == flow.alias_edge(),
            roots == set![var.0],
            seen@.finite(),
            seen@.contains(var.0) || stack@.contains(var.0),
            forall|x: usize| #[trigger]
                seen@.contains(x) ==> !(x != var.0 && flow.live_after(s, VarId(x)) && managed(
                    *sema,
                    VarId(x),
                )),
            forall|x: usize| #[trigger]
                stack@.contains(x) ==> crate::common::reach::reaches(edge, roots, x),
            forall|x: usize| #[trigger]
                seen@.contains(x) ==> crate::common::reach::reaches(edge, roots, x),
            forall|a: usize, b: usize|
                seen@.contains(a) && #[trigger] edge(a, b) ==> seen@.contains(b) || stack@.contains(
                    b,
                ),
        decreases crate::common::reach::position_count() - seen@.len(), stack@.len(),
    {
        let ghost stack_before = stack@;
        let ghost seen_before = seen@;
        let id: usize = stack[stack.len() - 1];
        stack.pop();
        proof {
            assert(stack_before =~= stack@.push(id));
            crate::common::reach::lemma_popped(stack_before, stack@, id);
        }
        if id != var.0 && is_live_after(flow, s, VarId::new(id)) && is_managed(
            sema,
            VarId::new(id),
        ) {
            return true;
        }
        if seen.insert(id) {
            let ghost stack_middle = stack@;
            push_neighbors(flow, id, &mut stack);
            proof {
                crate::common::reach::lemma_position_bound(seen@);
                assert forall|x: usize| #[trigger]
                    stack@.contains(x) implies crate::common::reach::reaches(edge, roots, x) by {
                    if !stack_middle.contains(x) {
                        assert(edge(id, x));
                        crate::common::reach::lemma_reaches_step(edge, roots, id, x);
                    }
                }
                assert forall|a: usize, b: usize|
                    seen@.contains(a) && #[trigger] edge(a, b) implies seen@.contains(b)
                    || stack@.contains(b) by {
                    if a != id && !seen_before.contains(b) {
                        assert(stack_before.contains(b));
                    }
                }
            }
        } else {
            assert(seen@ =~= seen_before);
        }
    }
    proof {
        if live_alias(*flow, *sema, s, var) {
            let other = choose|other: usize|
                {
                    &&& #[trigger] crate::common::reach::reaches(
                        flow.alias_edge(),
                        set![var.0],
                        other,
                    )
                    &&& other != var.0
                    &&& flow.live_after(s, VarId(other))
                    &&& managed(*sema, VarId(other))
                };
            crate::common::reach::lemma_closed_holds_reached(edge, roots, seen@, other);
        }
    }
    false
}

/// What becomes of a counted variable that is an argument of a call.
#[derive(Clone, Copy, PartialEq, Eq, Debug, Structural)]
pub enum CallArgTransferDecision {
    MoveToCallee,
    RetainCopy,
}

pub fn decide_call_arg_transfer(
    ownership: OwnershipClass,
    call_arg_uses: usize,
    stmt_uses: usize,
    is_last_use: bool,
    has_live_alias: bool,
) -> (decision: CallArgTransferDecision)
    ensures
        decision is MoveToCallee <==> ownership is RcManaged && call_arg_uses == 1 && stmt_uses == 1
            && is_last_use && !has_live_alias,
{
    if ownership == OwnershipClass::RcManaged && call_arg_uses == 1 && stmt_uses == 1
        && is_last_use && !has_live_alias {
        CallArgTransferDecision::MoveToCallee
    } else {
        CallArgTransferDecision::RetainCopy
    }
}

/// What becomes of a variable that gets a new name.
#[derive(Clone, Copy, PartialEq, Eq, Debug, Structural)]
pub enum AliasCopyDecision {
    Noop,
    DropDeadBinding,
    MoveSource,
    RetainCopy,
}

pub fn decide_alias_copy(
    source_ownership: OwnershipClass,
    binding_ownership: OwnershipClass,
    binding_dies: bool,
    source_dies: bool,
) -> (decision: AliasCopyDecision)
    ensures
        decision is DropDeadBinding <==> binding_ownership is RcManaged && binding_dies,
        decision is MoveSource <==> !(binding_ownership is RcManaged && binding_dies)
            && source_ownership is RcManaged && binding_ownership is RcManaged && source_dies,
        decision is RetainCopy <==> !(binding_ownership is RcManaged && binding_dies)
            && source_ownership is RcManaged && !(binding_ownership is RcManaged && source_dies),
{
    if source_ownership != OwnershipClass::RcManaged && binding_ownership
        != OwnershipClass::RcManaged {
        return AliasCopyDecision::Noop;
    }
    if binding_ownership == OwnershipClass::RcManaged && binding_dies {
        return AliasCopyDecision::DropDeadBinding;
    }
    if source_ownership == OwnershipClass::RcManaged && binding_ownership
        == OwnershipClass::RcManaged && source_dies {
        return AliasCopyDecision::MoveSource;
    }
    if source_ownership == OwnershipClass::RcManaged {
        AliasCopyDecision::RetainCopy
    } else {
        AliasCopyDecision::Noop
    }
}

fn is_op_before(a: ArcPlannedOp, b: ArcPlannedOp) -> (before: bool)
    ensures
        before == op_before(a, b),
{
    let (x, v) = kind_key(a.kind);
    let (y, w) = kind_key(b.kind);
    a.stmt.0 < b.stmt.0 || (a.stmt.0 == b.stmt.0 && (x < y || (x == y && v.0 < w.0)))
}

fn kind_key(kind: ArcOpKind) -> (key: (u8, VarId))
    ensures
        key.0 == op_rank(kind),
        key.1 == op_var(kind),
{
    match kind {
        ArcOpKind::Retain { var } => (0, var),
        ArcOpKind::Release { var } => (1, var),
    }
}

/// Puts an operation where the order wants it, unless it is there already.
fn push_op(ops: &mut Vec<ArcPlannedOp>, op: ArcPlannedOp)
    requires
        ops_ordered(old(ops)@),
    ensures
        ops_ordered(final(ops)@),
        forall|x: ArcPlannedOp| #[trigger]
            final(ops)@.contains(x) <==> (old(ops)@.contains(x) || x == op),
{
    let mut at: usize = 0;
    while at < ops.len() && is_op_before(ops[at], op)
        invariant
            at <= ops@.len(),
            ops@ == old(ops)@,
            forall|i: int| 0 <= i < at ==> op_before(#[trigger] ops@[i], op),
        decreases ops@.len() - at,
    {
        at += 1;
    }
    let ghost before = ops@;
    if at < ops.len() && ops[at] == op {
        assert(before[at as int] == op);
        assert(before.contains(op));
    } else {
        ops.insert(at, op);
        proof {
            let after = ops@;
            if at < before.len() {
                lemma_op_total(before[at as int], op);
            }
            assert(after[at as int] == op);
            assert forall|x: ArcPlannedOp| #[trigger] after.contains(x) <==> (before.contains(x)
                || x == op) by {
                if before.contains(x) {
                    let k = choose|k: int| 0 <= k < before.len() && before[k] == x;
                    if k < at {
                        assert(after[k] == x);
                    } else {
                        assert(after[k + 1] == x);
                    }
                }
                if after.contains(x) && x != op {
                    let k = choose|k: int| 0 <= k < after.len() && after[k] == x;
                    if k < at {
                        assert(before[k] == x);
                    } else {
                        assert(before[k - 1] == x);
                    }
                }
            }
            assert forall|i: int, j: int| 0 <= i < j < after.len() implies op_before(
                #[trigger] after[i],
                #[trigger] after[j],
            ) by {
                if j < at {
                    assert(op_before(before[i], before[j]));
                } else if i > at {
                    assert(op_before(before[i - 1], before[j - 1]));
                } else if i < at && j > at {
                    assert(op_before(before[i], before[j - 1]));
                } else if i == at {
                    if j - 1 > at {
                        assert(op_before(before[at as int], before[j - 1]));
                    }
                }
            }
        }
    }
}

/// Of two different operations one stands before the other.
pub proof fn lemma_op_total(a: ArcPlannedOp, b: ArcPlannedOp)
    ensures
        a == b || op_before(a, b) || op_before(b, a),
        !(op_before(a, b) && op_before(b, a)),
        !op_before(a, a),
{
}

fn add_call_retains(
    program: &CoreProgram,
    sema: &SemanticTables,
    flow: &ArcFlow,
    s: StmtId,
    vars: &Vec<VarId>,
    call_vars: &Vec<VarId>,
    ops: &mut Vec<ArcPlannedOp>,
)
    requires
        program@.acyclic(),
        program@.has_stmt(s),
        ops_ordered(old(ops)@),
        vars@ == list_vars(
            program@,
            stmt_exprs(program@.stmt(s)),
            stmt_exprs(program@.stmt(s)).len(),
        ),
        call_vars@ == list_call_vars(
            program@,
            stmt_exprs(program@.stmt(s)),
            stmt_exprs(program@.stmt(s)).len(),
            program@.stmt(s) is Call,
        ),
    ensures
        ops_ordered(final(ops)@),
        forall|x: ArcPlannedOp| #[trigger]
            final(ops)@.contains(x) <==> (old(ops)@.contains(x) || (x.stmt == s && (
            x.kind matches ArcOpKind::Retain { var } && call_uses(program@, program@.stmt(s), var)
                > 0 && managed(*sema, var) && !moves_to_callee(
                program@,
                *sema,
                *flow,
                s,
                var,
            )))),
{
    let ghost p = program@;
    let ghost start = ops@;
    let mut i: usize = 0;
    while i < call_vars.len()
        invariant
            p == program@,
            i <= call_vars@.len(),
            ops_ordered(ops@),
            vars@ == list_vars(p, stmt_exprs(p.stmt(s)), stmt_exprs(p.stmt(s)).len()),
            call_vars@ == list_call_vars(
                p,
                stmt_exprs(p.stmt(s)),
                stmt_exprs(p.stmt(s)).len(),
                p.stmt(s) is Call,
            ),
            forall|x: ArcPlannedOp| #[trigger]
                ops@.contains(x) <==> (start.contains(x) || (x.stmt == s && (
                x.kind matches ArcOpKind::Retain { var } && call_vars@.take(i as int).contains(var)
                    && managed(*sema, var) && !moves_to_callee(p, *sema, *flow, s, var)))),
        decreases call_vars@.len() - i,
    {
        let var = call_vars[i];
        proof {
            crate::common::reach::lemma_pushed(call_vars@.take(i as int), var);
            assert(call_vars@.take(i as int + 1) =~= call_vars@.take(i as int).push(var));
        }
        let ownership = ownership_of_var(sema, var);
        if ownership == OwnershipClass::RcManaged {
            let decision = decide_call_arg_transfer(
                ownership,
                count_var(call_vars, var),
                count_var(vars, var),
                is_last_use(flow, s, var),
                has_live_alias_after_stmt(flow, sema, s, var),
            );
            if decision == CallArgTransferDecision::RetainCopy {
                push_op(ops, ArcPlannedOp { stmt: s, kind: ArcOpKind::Retain { var } });
            }
        }
        i += 1;
    }
    proof {
        assert(call_vars@.take(i as int) =~= call_vars@);
        assert forall|var: VarId| #[trigger]
            call_vars@.contains(var) <==> call_uses(p, p.stmt(s), var) > 0 by {
            lemma_occurs(call_vars@, var);
        }
    }
}

fn add_alias_retain(
    program: &CoreProgram,
    sema: &SemanticTables,
    flow: &ArcFlow,
    s: StmtId,
    ops: &mut Vec<ArcPlannedOp>,
) -> (settled: (Option<VarId>, Option<VarId>))
    requires
        program@.has_stmt(s),
        ops_ordered(old(ops)@),
    ensures
        ops_ordered(final(ops)@),
        forall|x: ArcPlannedOp| #[trigger]
            final(ops)@.contains(x) <==> (old(ops)@.contains(x) || (x.stmt == s && (
            x.kind matches ArcOpKind::Retain { var } && copies_source(
                program@,
                *sema,
                *flow,
                s,
                var,
            )))),
        forall|var: VarId|
            settled.0 == Some(var) <==> #[trigger] moves_source(program@, *sema, *flow, s, var),
        forall|var: VarId|
            settled.1 == Some(var) <==> #[trigger] drops_binding(program@, *sema, *flow, s, var),
{
    let ghost p = program@;
    if let Some(node) = program.stmt(s) {
        if let StmtKind::Let { binding, value, .. } = &node.kind {
            if let Some(expr) = program.expr(*value) {
                if let ExprKind::Var(source) = &expr.kind {
                    let decision = decide_alias_copy(
                        ownership_of_var(sema, *source),
                        ownership_of_var(sema, *binding),
                        is_last_use(flow, s, *binding),
                        is_last_use(flow, s, *source),
                    );
                    match decision {
                        AliasCopyDecision::Noop => {},
                        AliasCopyDecision::DropDeadBinding => {
                            return (None, Some(*binding));
                        },
                        AliasCopyDecision::MoveSource => {
                            return (Some(*source), None);
                        },
                        AliasCopyDecision::RetainCopy => {
                            push_op(
                                ops,
                                ArcPlannedOp {
                                    stmt: s,
                                    kind: ArcOpKind::Retain { var: *source },
                                },
                            );
                        },
                    }
                }
            }
        }
    }
    (None, None)
}

fn is_moved_to_callee(
    sema: &SemanticTables,
    flow: &ArcFlow,
    s: StmtId,
    var: VarId,
    vars: &Vec<VarId>,
    call_vars: &Vec<VarId>,
    Ghost(p): Ghost<CoreModel>,
) -> (b: bool)
    requires
        vars@ == list_vars(p, stmt_exprs(p.stmt(s)), stmt_exprs(p.stmt(s)).len()),
        call_vars@ == list_call_vars(
            p,
            stmt_exprs(p.stmt(s)),
            stmt_exprs(p.stmt(s)).len(),
            p.stmt(s) is Call,
        ),
    ensures
        b == moves_to_callee(p, *sema, *flow, s, var),
{
    let decision = decide_call_arg_transfer(
        ownership_of_var(sema, var),
        count_var(call_vars, var),
        count_var(vars, var),
        is_last_use(flow, s, var),
        has_live_alias_after_stmt(flow, sema, s, var),
    );
    decision == CallArgTransferDecision::MoveToCallee
}

fn add_releases(
    sema: &SemanticTables,
    flow: &ArcFlow,
    s: StmtId,
    vars: &Vec<VarId>,
    call_vars: &Vec<VarId>,
    settled: (Option<VarId>, Option<VarId>),
    ops: &mut Vec<ArcPlannedOp>,
    Ghost(p): Ghost<CoreModel>,
)
    requires
        ops_ordered(old(ops)@),
        vars@ == list_vars(p, stmt_exprs(p.stmt(s)), stmt_exprs(p.stmt(s)).len()),
        call_vars@ == list_call_vars(
            p,
            stmt_exprs(p.stmt(s)),
            stmt_exprs(p.stmt(s)).len(),
            p.stmt(s) is Call,
        ),
        forall|var: VarId|
            settled.0 == Some(var) <==> #[trigger] moves_source(p, *sema, *flow, s, var),
        forall|var: VarId|
            settled.1 == Some(var) <==> #[trigger] drops_binding(p, *sema, *flow, s, var),
    ensures
        ops_ordered(final(ops)@),
        forall|x: ArcPlannedOp| #[trigger]
            final(ops)@.contains(x) <==> (old(ops)@.contains(x) || (x.stmt == s && x.kind is Release
                && wanted_at(p, *sema, *flow, s, x.kind))),
{
    let ghost start = ops@;
    if let Some(list) = flow.last_uses.get(s.0) {
        let mut i: usize = 0;
        while i < list.len()
            invariant
                i <= list@.len(),
                start == old(ops)@,
                ops_ordered(ops@),
                flow.last_uses@.contains_key(s.0),
                *list == flow.last_uses@[s.0],
                vars@ == list_vars(p, stmt_exprs(p.stmt(s)), stmt_exprs(p.stmt(s)).len()),
                call_vars@ == list_call_vars(
                    p,
                    stmt_exprs(p.stmt(s)),
                    stmt_exprs(p.stmt(s)).len(),
                    p.stmt(s) is Call,
                ),
                forall|var: VarId|
                    settled.0 == Some(var) <==> #[trigger] moves_source(p, *sema, *flow, s, var),
                forall|var: VarId|
                    settled.1 == Some(var) <==> #[trigger] drops_binding(
                        p,
                        *sema,
                        *flow,
                        s,
                        var,
                    ),
                forall|x: ArcPlannedOp| #[trigger]
                    ops@.contains(x) <==> (start.contains(x) || (x.stmt == s && (
                    x.kind matches ArcOpKind::Release { var } && list@.take(i as int).contains(var)
                        && wanted_at(p, *sema, *flow, s, x.kind)))),
            decreases list@.len() - i,
        {
            let var = list[i];
            proof {
                crate::common::reach::lemma_pushed(list@.take(i as int), var);
                assert(list@.take(i as int + 1) =~= list@.take(i as int).push(var));
                assert(list@.contains(var));
                assert(flow.last_use(s, var));
                assert(settled.0 == Some(var) <==> moves_source(p, *sema, *flow, s, var));
                assert(settled.1 == Some(var) <==> drops_binding(p, *sema, *flow, s, var));
            }
            let moved = is_moved_to_callee(sema, flow, s, var, vars, call_vars, Ghost(p));
            if !moved && settled.0 != Some(var) && settled.1 != Some(var) && is_managed(sema, var) {
                push_op(ops, ArcPlannedOp { stmt: s, kind: ArcOpKind::Release { var } });
            }
            i += 1;
        }
        assert(list@.take(i as int) =~= list@);
    }
}

/// The operations that a statement wants.
fn plan_stmt(
    program: &CoreProgram,
    sema: &SemanticTables,
    flow: &ArcFlow,
    s: StmtId,
    ops: &mut Vec<ArcPlannedOp>,
)
    requires
        program@.acyclic(),
        ops_ordered(old(ops)@),
    ensures
        ops_ordered(final(ops)@),
        forall|x: ArcPlannedOp| #[trigger]
            final(ops)@.contains(x) <==> (old(ops)@.contains(x) || (x.stmt == s
                && program@.has_stmt(s) && wanted_at(program@, *sema, *flow, s, x.kind))),
{
    if let Some(node) = program.stmt(s) {
        let (vars, call_vars) = collect_stmt_vars(program, &node.kind);
        add_call_retains(program, sema, flow, s, &vars, &call_vars, ops);
        let settled = add_alias_retain(program, sema, flow, s, ops);
        add_releases(sema, flow, s, &vars, &call_vars, settled, ops, Ghost(program@));
    }
}

/// How many operations raise and lower a count.
pub fn count_ops(ops: &Vec<ArcPlannedOp>) -> (stats: ArcInsertStats)
    ensures
        counts(ops@, stats),
{
    let mut retain_ops: u32 = 0;
    let mut release_ops: u32 = 0;
    let mut i: usize = 0;
    assert(ops@.take(0) =~= Seq::<ArcPlannedOp>::empty());
    while i < ops.len()
        invariant
            i <= ops@.len(),
            retain_ops == capped(retain_count(ops@.take(i as int)) as int),
            release_ops == capped(i - retain_count(ops@.take(i as int))),
            retain_count(ops@.take(i as int)) <= i,
        decreases ops@.len() - i,
    {
        proof {
            let more = ops@.take(i as int + 1);
            assert(more.drop_last() =~= ops@.take(i as int));
            assert(more.last() == ops@[i as int]);
        }
        match ops[i].kind {
            ArcOpKind::Retain { .. } => {
                retain_ops = retain_ops.saturating_add(1);
            },
            ArcOpKind::Release { .. } => {
                release_ops = release_ops.saturating_add(1);
            },
        }
        i += 1;
    }
    assert(ops@.take(i as int) =~= ops@);
    ArcInsertStats { retain_ops, release_ops }
}

/// The plan for a program: every operation that is wanted, in order, each once.
pub fn plan(program: &CoreProgram, sema: &SemanticTables, flow: &ArcFlow) -> (plan:
    ArcInsertionPlan)
    requires
        program@.acyclic(),
    ensures
        ops_ordered(plan.ops@),
        forall|x: ArcPlannedOp| #[trigger]
            plan.ops@.contains(x) <==> wanted(program@, *sema, *flow, x),
        counts(plan.ops@, plan.stats),
{
    let ghost p = program@;
    let mut ops: Vec<ArcPlannedOp> = Vec::new();
    let mut i: usize = 0;
    while i < flow.reachable.len()
        invariant
            p == program@,
            p.acyclic(),
            i <= flow.reachable@.len(),
            ops_ordered(ops@),
            forall|x: ArcPlannedOp| #[trigger]
                ops@.contains(x) <==> (flow.reachable@.take(i as int).contains(x.stmt)
                    && p.has_stmt(x.stmt) && wanted_at(p, *sema, *flow, x.stmt, x.kind)),
        decreases flow.reachable@.len() - i,
    {
        let s = flow.reachable[i];
        proof {
            crate::common::reach::lemma_pushed(flow.reachable@.take(i as int), s);
            assert(flow.reachable@.take(i as int + 1) =~= flow.reachable@.take(i as int).push(s));
        }
        plan_stmt(program, sema, flow, s, &mut ops);
        i += 1;
    }
    assert(flow.reachable@.take(i as int) =~= flow.reachable@);
    let stats = count_ops(&ops);
    ArcInsertionPlan { ops, stats }
}

/// An operation as the residual program carries it.
pub open spec fn residual_op(op: ArcPlannedOp) -> ArcResidualOp {
    ArcResidualOp {
        stmt: op.stmt,
        kind: match op.kind {
            ArcOpKind::Retain { var } => ArcResidualOpKind::Retain { var },
            ArcOpKind::Release { var } => ArcResidualOpKind::Release { var },
        },
    }
}

pub fn to_residual_plan(plan: &ArcInsertionPlan) -> (residual: ArcResidualPlan)
    ensures
        residual.ops@ == plan.ops@.map_values(|op: ArcPlannedOp| residual_op(op)),
{
    let mut ops: Vec<ArcResidualOp> = Vec::new();
    let mut i: usize = 0;
    while i < plan.ops.len()
        invariant
            i <= plan.ops@.len(),
            ops@.len() == i,
            forall|k: int| 0 <= k < i ==> #[trigger] ops@[k] == residual_op(plan.ops@[k]),
        decreases plan.ops@.len() - i,
    {
        let op = plan.ops[i];
        ops.push(
            ArcResidualOp {
                stmt: op.stmt,
                kind: match op.kind {
                    ArcOpKind::Retain { var } => ArcResidualOpKind::Retain { var },
                    ArcOpKind::Release { var } => ArcResidualOpKind::Release { var },
                },
            },
        );
        i += 1;
    }
    assert(ops@ =~= plan.ops@.map_values(|op: ArcPlannedOp| residual_op(op)));
    ArcResidualPlan { ops }
}

/// No variable that a statement hands over or drops is released there as well.
pub proof fn lemma_no_release_of_moved(
    p: CoreModel,
    sema: SemanticTables,
    flow: ArcFlow,
    s: StmtId,
    var: VarId,
)
    requires
        moves_to_callee(p, sema, flow, s, var) || moves_source(p, sema, flow, s, var) || drops_binding(p, sema, flow, s, var),
    ensures
        !wanted(p, sema, flow, (ArcPlannedOp { stmt: s, kind: ArcOpKind::Release { var } })),
{
}

/// Only counted variables are retained or released.
pub proof fn lemma_only_managed(
    p: CoreModel,
    sema: SemanticTables,
    flow: ArcFlow,
    op: ArcPlannedOp,
)
    requires
        wanted(p, sema, flow, op),
    ensures
        managed(sema, op_var(op.kind)),
{
}

/// A plan in the planner's order is in the order that the residual program asks
/// for.
pub proof fn lemma_residual_order(ops: Seq<ArcPlannedOp>)
    requires
        ops_ordered(ops),
    ensures
        crate::passes::comptime_check::ops_ordered(
            ops.map_values(|op: ArcPlannedOp| residual_op(op)),
        ),
{
    let out = ops.map_values(|op: ArcPlannedOp| residual_op(op));
    assert forall|i: int| 0 < i < out.len() implies crate::passes::comptime_check::op_before(
        out[i - 1],
        #[trigger] out[i],
    ) by {
        assert(op_before(ops[i - 1], ops[i]));
    }
}

} // verus!
