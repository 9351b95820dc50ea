//! Why an expression or a variable is known at run time only: the reason is
//! carried from what it depends on.
use crate::common::densemap::DenseMap;
use crate::common::ids::{ExprId, StmtId, VarId};
use crate::ir::core_ir::{CoreModel, CoreProgram, ExprKind, ExprModel, StmtKind, StmtModel};
use crate::pipeline::reason::{Reason, Stage};
use std::collections::HashSet;
use vstd::prelude::*;

verus! {

/// The stages of expressions and of variables.
#[verifier::ext_equal]
pub struct Stages {
    pub exprs: Map<usize, Stage>,
    pub vars: Map<usize, Stage>,
}

/// Why an expression is known at run time only, if it is.
pub open spec fn reason_of(exprs: Map<usize, Stage>, e: ExprId) -> Option<Reason> {
    if exprs.contains_key(e.0) {
        match exprs[e.0] {
            Stage::Ct => None,
            Stage::Rt(reason) => Some(reason),
        }
    } else {
        None
    }
}

/// The first of two reasons that there is.
pub open spec fn either(a: Option<Reason>, b: Option<Reason>) -> Option<Reason> {
    match a {
        Some(reason) => Some(reason),
        None => b,
    }
}

/// The reason of the first expression of a list that has one.
pub open spec fn first_reason(exprs: Map<usize, Stage>, list: Seq<ExprId>, first: nat) -> Option<
    Reason,
>
    decreases first,
{
    if first == 0 {
        None
    } else {
        either(
            first_reason(exprs, list, (first - 1) as nat),
            reason_of(exprs, list[first - 1]),
        )
    }
}

/// The first reason that a statement gives, in the order of evaluation; of the
/// arms of a match the last one comes first.
pub open spec fn stmt_reason(p: CoreModel, exprs: Map<usize, Stage>, s: StmtId) -> Option<Reason>
    decreases p.stmt_rank(s), 1nat, 0nat,
    when p.acyclic()
{
    proof {
        crate::passes::linearize::analysis::lemma_stmt_ranks(p, s);
    }
    if p.has_stmt(s) {
        match p.stmt(s) {
            StmtModel::Return(expr) => reason_of(exprs, expr),
            StmtModel::Let { value, next, .. } => either(
                reason_of(exprs, value),
                stmt_reason(p, exprs, next),
            ),
            StmtModel::Val { value, next, .. } => either(
                stmt_reason(p, exprs, value),
                stmt_reason(p, exprs, next),
            ),
            StmtModel::Call { args, next, .. } => either(
                first_reason(exprs, args, args.len()),
                stmt_reason(p, exprs, next),
            ),
            StmtModel::Perform { args, next, .. } => either(
                first_reason(exprs, args, args.len()),
                stmt_reason(p, exprs, next),
            ),
            StmtModel::Resume { arg, next, .. } => either(
                reason_of(exprs, arg),
                stmt_reason(p, exprs, next),
            ),
            StmtModel::If { cond, then_branch, else_branch } => if reason_of(exprs, cond) is Some {
                Some(Reason::BranchOnRuntime(cond))
            } else {
                either(
                    stmt_reason(p, exprs, then_branch),
                    stmt_reason(p, exprs, else_branch),
                )
            },
            StmtModel::Match { scrutinee, arms, default } => either(
                reason_of(exprs, scrutinee),
                either(
                    arms_reason(p, exprs, s, arms.len()),
                    match default {
                        Some(default) => stmt_reason(p, exprs, default),
                        None => None,
                    },
                ),
            ),
            StmtModel::Handle { body, next, .. } => either(
                stmt_reason(p, exprs, body),
                match next {
                    Some(next) => stmt_reason(p, exprs, next),
                    None => None,
                },
            ),
            StmtModel::Stage { body, next, .. } => either(
                stmt_reason(p, exprs, body),
                match next {
                    Some(next) => stmt_reason(p, exprs, next),
                    None => None,
                },
            ),
            StmtModel::Hole { .. } => None,
            StmtModel::Error(_) => None,
        }
    } else {
        None
    }
}

/// The first reason that the first arms of a match give, from the last to the
/// first.
pub open spec fn arms_reason(
    p: CoreModel,
    exprs: Map<usize, Stage>,
    s: StmtId,
    first: nat,
) -> Option<Reason>
    decreases p.stmt_rank(s), 0nat, first,
    when p.acyclic()
{
    if first > 0 && p.has_stmt(s) && p.stmt(s) is Match && first <= p.stmt(s)->arms.len() {
        proof {
            crate::passes::linearize::analysis::lemma_stmt_ranks(p, s);
            crate::ir::core_ir::lemma_arm_is_part(p.stmt(s), first - 1);
        }
        either(
            stmt_reason(p, exprs, p.stmt(s)->arms[first - 1].body),
            arms_reason(p, exprs, s, (first - 1) as nat),
        )
    } else {
        None
    }
}

/// A reason is recorded only where none, or an unspecific one, stands.
pub open spec fn refined(stages: Map<usize, Stage>, at: usize, reason: Reason) -> Map<
    usize,
    Stage,
> {
    if !stages.contains_key(at) || stages[at] == Stage::Rt(Reason::UnclassifiedRuntime) {
        stages.insert(at, Stage::Rt(reason))
    } else {
        stages
    }
}

/// The variable that a statement gives a value, and why it is known at run time
/// only.
pub open spec fn var_reason(p: CoreModel, exprs: Map<usize, Stage>, s: StmtModel) -> Option<(
    VarId,
    Reason,
)> {
    let found = match s {
        StmtModel::Let { binding, value, .. } => Some((binding, reason_of(exprs, value))),
        StmtModel::Val { binding, value, .. } => Some((binding, stmt_reason(p, exprs, value))),
        StmtModel::Call { result, args, .. } => Some(
            (result, first_reason(exprs, args, args.len())),
        ),
        StmtModel::Perform { result: Some(result), args, .. } => Some(
            (result, first_reason(exprs, args, args.len())),
        ),
        StmtModel::Resume { result, arg, .. } => Some((result, reason_of(exprs, arg))),
        _ => None,
    };
    match found {
        Some((var, Some(reason))) => Some((var, reason)),
        _ => None,
    }
}

/// The variables that the first statements give a value.
pub open spec fn vars_refined(p: CoreModel, t: Stages, first: nat) -> Stages
    decreases first,
{
    if first == 0 {
        t
    } else {
        let rest = vars_refined(p, t, (first - 1) as nat);
        match var_reason(p, rest.exprs, p.stmts[first - 1].kind) {
            Some((var, reason)) => Stages { vars: refined(rest.vars, var.0, reason), ..rest },
            None => rest,
        }
    }
}

/// Why an expression is known at run time only, by its parts.
pub open spec fn expr_reason(t: Stages, e: ExprModel) -> Option<Reason> {
    match e {
        ExprModel::Var(var) => if t.vars.contains_key(var.0) && t.vars[var.0] is Rt {
            Some(Reason::DependsOnVar(var))
        } else {
            None
        },
        ExprModel::Unary { expr, .. } => reason_of(t.exprs, expr),
        ExprModel::Binary { lhs, rhs, .. } => either(
            reason_of(t.exprs, lhs),
            reason_of(t.exprs, rhs),
        ),
        ExprModel::PureCall { args, .. } => first_reason(t.exprs, args, args.len()),
        ExprModel::MakeStruct { fields, .. } => first_reason(t.exprs, fields, fields.len()),
        ExprModel::MakeEnum { fields, .. } => first_reason(t.exprs, fields, fields.len()),
        ExprModel::Literal(_) => None,
        ExprModel::Error(_) => None,
    }
}

/// The first expressions, one after the other.
pub open spec fn exprs_refined(p: CoreModel, t: Stages, first: nat) -> Stages
    decreases first,
{
    if first == 0 {
        t
    } else {
        let rest = exprs_refined(p, t, (first - 1) as nat);
        match expr_reason(rest, p.exprs[first - 1].kind) {
            Some(reason) => Stages {
                exprs: refined(rest.exprs, (first - 1) as usize, reason),
                ..rest
            },
            None => rest,
        }
    }
}

/// One round: the variables, then the expressions.
pub open spec fn round(p: CoreModel, t: Stages) -> Stages {
    exprs_refined(p, vars_refined(p, t, p.stmts.len()), p.exprs.len())
}

pub open spec fn rounds(p: CoreModel, t: Stages, n: nat) -> Stages
    decreases n,
{
    if n == 0 {
        t
    } else {
        round(p, rounds(p, t, (n - 1) as nat))
    }
}

/// How many rounds there are: one for each expression and each statement, and
/// at least one.
pub open spec fn round_limit(p: CoreModel) -> nat {
    let n = p.exprs.len() + p.stmts.len();
    if n == 0 {
        1
    } else if n > usize::MAX {
        usize::MAX as nat
    } else {
        n
    }
}

proof fn lemma_rounds_stay(p: CoreModel, t: Stages, m: nat, n: nat)
    requires
        m <= n,
        round(p, rounds(p, t, m)) == rounds(p, t, m),
    ensures
        rounds(p, t, n) == rounds(p, t, m),
    decreases n - m,
{
    if m < n {
        lemma_rounds_stay(p, t, m, (n - 1) as nat);
    }
}

// ---------------------------------------------------------------------------
// The rounds
// ---------------------------------------------------------------------------

fn stage_reason_of_expr(exprs: &DenseMap<Stage>, e: ExprId) -> (reason: Option<Reason>)
    ensures
        reason == reason_of(exprs@, e),
{
    match exprs.get(e.0) {
        Some(Stage::Rt(reason)) => Some(*reason),
        _ => None,
    }
}

fn first_reason_of(exprs: &DenseMap<Stage>, list: &Vec<ExprId>) -> (reason: Option<Reason>)
    ensures
        reason == first_reason(exprs@, list@, list@.len()),
{
    let mut i: usize = 0;
    while i < list.len()
        invariant
            i <= list@.len(),
            first_reason(exprs@, list@, i as nat) is None,
        decreases list@.len() - i,
    {
        if let Some(reason) = stage_reason_of_expr(exprs, list[i]) {
            proof {
                assert(first_reason(exprs@, list@, (i + 1) as nat) == Some(reason));
                lemma_first_reason_stays(exprs@, list@, (i + 1) as nat, list@.len());
            }
            return Some(reason);
        }
        i += 1;
    }
    None
}

proof fn lemma_first_reason_stays(exprs: Map<usize, Stage>, list: Seq<ExprId>, m: nat, n: nat)
    requires
        m <= n,
        first_reason(exprs, list, m) is Some,
    ensures
        first_reason(exprs, list, n) == first_reason(exprs, list, m),
    decreases n - m,
{
    if m < n {
        lemma_first_reason_stays(exprs, list, m, (n - 1) as nat);
    }
}

/// Statements that give no reason.
spec fn clean(p: CoreModel, exprs: Map<usize, Stage>, set: Set<usize>) -> bool {
    forall|s: usize| #[trigger] set.contains(s) ==> stmt_reason(p, exprs, StmtId(s)) is None
}

fn find_stmt_runtime_reason(
    program: &CoreProgram,
    exprs: &DenseMap<Stage>,
    s: StmtId,
    seen: &mut HashSet<usize>,
) -> (found: Option<Reason>)
    requires
        program@.acyclic(),
        clean(program@, exprs@, old(seen)@),
    ensures
        clean(program@, exprs@, final(seen)@),
        found == stmt_reason(program@, exprs@, s),
    decreases program@.stmt_rank(s), 1nat,
{
    broadcast use vstd::std_specs::hash::group_hash_axioms;

    if seen.contains(&s.0) || s.0 >= program.stmts.len() {
        return None;
    }
    proof {
        crate::passes::linearize::analysis::lemma_stmt_ranks(program@, s);
    }
    let ghost model = program@.stmt(s);
    let found = match &program.stmts[s.0].kind {
        StmtKind::Return(expr) => stage_reason_of_expr(exprs, *expr),
        StmtKind::Let { value, next, .. } => {
            assert(model.has_part(*next));
            match stage_reason_of_expr(exprs, *value) {
                Some(reason) => Some(reason),
                None => find_stmt_runtime_reason(program, exprs, *next, seen),
            }
        },
        StmtKind::Val { value, next, .. } => {
            assert(model.has_part(*value) && model.has_part(*next));
            match find_stmt_runtime_reason(program, exprs, *value, seen) {
                Some(reason) => Some(reason),
                None => find_stmt_runtime_reason(program, exprs, *next, seen),
            }
        },
        StmtKind::Call { args, next, .. } => {
            assert(model.has_part(*next));
            match first_reason_of(exprs, args) {
                Some(reason) => Some(reason),
                None => find_stmt_runtime_reason(program, exprs, *next, seen),
            }
        },
        StmtKind::Perform { args, next, .. } => {
            assert(model.has_part(*next));
            match first_reason_of(exprs, args) {
                Some(reason) => Some(reason),
                None => find_stmt_runtime_reason(program, exprs, *next, seen),
            }
        },
        StmtKind::Resume { arg, next, .. } => {
            assert(model.has_part(*next));
            match stage_reason_of_expr(exprs, *arg) {
                Some(reason) => Some(reason),
                None => find_stmt_runtime_reason(program, exprs, *next, seen),
            }
        },
        StmtKind::If { cond, then_branch, else_branch } => {
            assert(model.has_part(*then_branch) && model.has_part(*else_branch));
            if stage_reason_of_expr(exprs, *cond).is_some() {
                Some(Reason::BranchOnRuntime(*cond))
            } else {
                match find_stmt_runtime_reason(program, exprs, *then_branch, seen) {
                    Some(reason) => Some(reason),
                    None => find_stmt_runtime_reason(program, exprs, *else_branch, seen),
                }
            }
        },
        StmtKind::Match { scrutinee, arms, default } => {
            assert(model is Match && model->arms == crate::common::views(arms@));
            match stage_reason_of_expr(exprs, *scrutinee) {
                Some(reason) => Some(reason),
                None => {
                    let from_arms = find_arms_runtime_reason(program, exprs, s, arms.len(), seen);
                    match from_arms {
                        Some(reason) => Some(reason),
                        None => match default {
                            Some(default) => {
                                assert(model.has_part(*default));
                                find_stmt_runtime_reason(program, exprs, *default, seen)
                            },
                            None => None,
                        },
                    }
                },
            }
        },
        StmtKind::Handle { body, next, .. } | StmtKind::Stage { body, next, .. } => {
            assert(model.has_part(*body));
            match find_stmt_runtime_reason(program, exprs, *body, seen) {
                Some(reason) => Some(reason),
                None => match next {
                    Some(next) => {
                        assert(model.has_part(*next));
                        find_stmt_runtime_reason(program, exprs, *next, seen)
                    },
                    None => None,
                },
            }
        },
        StmtKind::Hole { .. } | StmtKind::Error(_) => None,
    };
    assert(found == stmt_reason(program@, exprs@, s));
    if found.is_none() {
        seen.insert(s.0);
    }
    found
}

fn find_arms_runtime_reason(
    program: &CoreProgram,
    exprs: &DenseMap<Stage>,
    s: StmtId,
    count: usize,
    seen: &mut HashSet<usize>,
) -> (found: Option<Reason>)
    requires
        program@.acyclic(),
        program@.has_stmt(s),
        program@.stmt(s) is Match,
        count <= program@.stmt(s)->arms.len(),
        clean(program@, exprs@, old(seen)@),
    ensures
        clean(program@, exprs@, final(seen)@),
        found == arms_reason(program@, exprs@, s, count as nat),
    decreases program@.stmt_rank(s), 0nat,
{
    let mut i: usize = count;
    while i > 0
        invariant
            program@.acyclic(),
            program@.has_stmt(s),
            program@.stmt(s) is Match,
            i <= count <= program@.stmt(s)->arms.len(),
            clean(program@, exprs@, seen@),
            arms_reason(program@, exprs@, s, count as nat) == arms_reason(
                program@,
                exprs@,
                s,
                i as nat,
            ),
        decreases i,
    {
        proof {
            crate::passes::linearize::analysis::lemma_stmt_ranks(program@, s);
            crate::ir::core_ir::lemma_arm_is_part(program@.stmt(s), i - 1);
        }
        if let StmtKind::Match { arms, .. } = &program.stmts[s.0].kind {
            let body = arms[i - 1].body;
            assert(program@.stmt(s)->arms[i - 1].body == body);
            if let Some(reason) = find_stmt_runtime_reason(program, exprs, body, seen) {
                return Some(reason);
            }
        }
        i -= 1;
    }
    None
}

/// Records a reason. Tells whether one could be recorded.
fn refine_stage(stages: &mut DenseMap<Stage>, at: usize, reason: Reason) -> (changed: bool)
    ensures
        final(stages)@ == refined(old(stages)@, at, reason),
        !changed ==> final(stages)@ == old(stages)@,
{
    let open = match stages.get(at) {
        Some(Stage::Rt(Reason::UnclassifiedRuntime)) => true,
        Some(_) => false,
        None => true,
    };
    if open {
        stages.insert(at, Stage::Rt(reason));
    }
    open
}

fn propagate_var_reasons(
    program: &CoreProgram,
    exprs: &DenseMap<Stage>,
    vars: &mut DenseMap<Stage>,
) -> (changed: bool)
    requires
        program@.acyclic(),
    ensures
        (Stages { exprs: exprs@, vars: final(vars)@ }) == vars_refined(
            program@,
            Stages { exprs: exprs@, vars: old(vars)@ },
            program@.stmts.len(),
        ),
        !changed ==> final(vars)@ == old(vars)@,
{
    broadcast use vstd::std_specs::hash::group_hash_axioms;

    let ghost start = Stages { exprs: exprs@, vars: vars@ };
    let mut changed = false;
    let mut seen: HashSet<usize> = HashSet::new();
    let mut i: usize = 0;
    while i < program.stmts.len()
        invariant
            i <= program.stmts@.len(),
            program@.acyclic(),
            start.exprs == exprs@,
            clean(program@, exprs@, seen@),
            (Stages { exprs: exprs@, vars: vars@ }) == vars_refined(program@, start, i as nat),
            !changed ==> vars@ == start.vars,
        decreases program.stmts@.len() - i,
    {
        assert(program@.stmts[i as int].kind == program.stmts@[i as int].kind@);
        let ghost model = program@.stmts[i as int].kind;
        let found = match &program.stmts[i].kind {
            StmtKind::Let { binding, value, .. } => match stage_reason_of_expr(exprs, *value) {
                Some(reason) => Some((*binding, reason)),
                None => None,
            },
            StmtKind::Val { binding, value, .. } => match find_stmt_runtime_reason(
                program,
                exprs,
                *value,
                &mut seen,
            ) {
                Some(reason) => Some((*binding, reason)),
                None => None,
            },
            StmtKind::Call { result, args, .. } => match first_reason_of(exprs, args) {
                Some(reason) => Some((*result, reason)),
                None => None,
            },
            StmtKind::Perform { result, args, .. } => match result {
                Some(result) => match first_reason_of(exprs, args) {
                    Some(reason) => Some((*result, reason)),
                    None => None,
                },
                None => None,
            },
            StmtKind::Resume { result, arg, .. } => match stage_reason_of_expr(exprs, *arg) {
                Some(reason) => Some((*result, reason)),
                None => None,
            },
            _ => None,
        };
        assert(found == var_reason(program@, exprs@, model));
        if let Some((var, reason)) = found {
            if refine_stage(vars, var.0, reason) {
                changed = true;
            }
        }
        i += 1;
    }
    changed
}

fn infer_expr_runtime_reason(
    exprs: &DenseMap<Stage>,
    vars: &DenseMap<Stage>,
    kind: &ExprKind,
) -> (found: Option<Reason>)
    ensures
        found == expr_reason(Stages { exprs: exprs@, vars: vars@ }, kind@),
{
    match kind {
        ExprKind::Var(var) => match vars.get(var.0) {
            Some(Stage::Rt(_)) => Some(Reason::DependsOnVar(*var)),
            _ => None,
        },
        ExprKind::Unary { expr, .. } => stage_reason_of_expr(exprs, *expr),
        ExprKind::Binary { lhs, rhs, .. } => match stage_reason_of_expr(exprs, *lhs) {
            Some(reason) => Some(reason),
            None => stage_reason_of_expr(exprs, *rhs),
        },
        ExprKind::PureCall { args, .. } => first_reason_of(exprs, args),
        ExprKind::MakeStruct { fields, .. } => first_reason_of(exprs, fields),
        ExprKind::MakeEnum { fields, .. } => first_reason_of(exprs, fields),
        ExprKind::Literal(_) | ExprKind::Error(_) => None,
    }
}

fn propagate_expr_reasons(
    program: &CoreProgram,
    exprs: &mut DenseMap<Stage>,
    vars: &DenseMap<Stage>,
) -> (changed: bool)
    ensures
        (Stages { exprs: final(exprs)@, vars: vars@ }) == exprs_refined(
            program@,
            Stages { exprs: old(exprs)@, vars: vars@ },
            program@.exprs.len(),
        ),
        !changed ==> final(exprs)@ == old(exprs)@,
{
    let ghost start = Stages { exprs: exprs@, vars: vars@ };
    let mut changed = false;
    let mut i: usize = 0;
    while i < program.exprs.len()
        invariant
            i <= program.exprs@.len(),
            start.vars == vars@,
            (Stages { exprs: exprs@, vars: vars@ }) == exprs_refined(program@, start, i as nat),
            !changed ==> exprs@ == start.exprs,
        decreases program.exprs@.len() - i,
    {
        assert(program@.exprs[i as int].kind == program.exprs@[i as int].kind@);
        if let Some(reason) = infer_expr_runtime_reason(exprs, vars, &program.exprs[i].kind) {
            if refine_stage(exprs, i, reason) {
                changed = true;
            }
        }
        i += 1;
    }
    changed
}

/// Carries reasons, round after round.
pub(crate) fn propagate_runtime_reasons(
    program: &CoreProgram,
    exprs: &mut DenseMap<Stage>,
    vars: &mut DenseMap<Stage>,
)
    requires
        program@.acyclic(),
    ensures
        (Stages { exprs: final(exprs)@, vars: final(vars)@ }) == rounds(
            program@,
            Stages { exprs: old(exprs)@, vars: old(vars)@ },
            round_limit(program@),
        ),
{
    let ghost start = Stages { exprs: exprs@, vars: vars@ };
    let total = program.exprs.len().saturating_add(program.stmts.len());
    let limit: usize = if total == 0 {
        1
    } else {
        total
    };
    assert(limit == round_limit(program@));
    let mut i: usize = 0;
    let mut changed = true;
    while i < limit && changed
        invariant
            i <= limit,
            limit == round_limit(program@),
            program@.acyclic(),
            (Stages { exprs: exprs@, vars: vars@ }) == rounds(program@, start, i as nat),
            !changed ==> round(program@, rounds(program@, start, i as nat)) == rounds(
                program@,
                start,
                i as nat,
            ),
        decreases limit - i,
    {
        let ghost before = Stages { exprs: exprs@, vars: vars@ };
        let vars_changed = propagate_var_reasons(program, exprs, vars);
        let exprs_changed = propagate_expr_reasons(program, exprs, vars);
        changed = vars_changed || exprs_changed;
        proof {
            let after = Stages { exprs: exprs@, vars: vars@ };
            assert(after == round(program@, before));
            if !changed {
                assert(after =~= before);
            }
        }
        i += 1;
    }
    proof {
        if !changed {
            lemma_rounds_stay(program@, start, i as nat, limit as nat);
        }
    }
}

// ---------------------------------------------------------------------------
// Laws
// ---------------------------------------------------------------------------

/// What is ready at compile time stays so, and nothing loses its stage.
pub open spec fn advances(before: Map<usize, Stage>, after: Map<usize, Stage>) -> bool {
    forall|k: usize|
        #![trigger before.contains_key(k)]
        #![trigger after.contains_key(k)]
        before.contains_key(k) ==> {
            &&& after.contains_key(k)
            &&& before[k] is Ct ==> after[k] is Ct
            &&& before[k] is Rt ==> after[k] is Rt
        }
}

proof fn lemma_vars_refined_advances(p: CoreModel, t: Stages, first: nat)
    ensures
        advances(t.vars, vars_refined(p, t, first).vars),
        vars_refined(p, t, first).exprs == t.exprs,
    decreases first,
{
    if first > 0 {
        lemma_vars_refined_advances(p, t, (first - 1) as nat);
    }
}

proof fn lemma_exprs_refined_advances(p: CoreModel, t: Stages, first: nat)
    ensures
        advances(t.exprs, exprs_refined(p, t, first).exprs),
        exprs_refined(p, t, first).vars == t.vars,
    decreases first,
{
    if first > 0 {
        lemma_exprs_refined_advances(p, t, (first - 1) as nat);
    }
}

/// Carrying reasons moves nothing between compile time and run time.
pub proof fn lemma_rounds_advance(p: CoreModel, t: Stages, n: nat)
    ensures
        advances(t.exprs, rounds(p, t, n).exprs),
        advances(t.vars, rounds(p, t, n).vars),
    decreases n,
{
    if n > 0 {
        lemma_rounds_advance(p, t, (n - 1) as nat);
        let mid = rounds(p, t, (n - 1) as nat);
        lemma_vars_refined_advances(p, mid, p.stmts.len());
        lemma_exprs_refined_advances(p, vars_refined(p, mid, p.stmts.len()), p.exprs.len());
    }
}

} // verus!
