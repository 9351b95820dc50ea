//! Where a value that is known at run time only comes from, step by step.
use crate::common::densemap::DenseMap;
use crate::common::ids::{ExprId, FuncId, StmtId, VarId};
use crate::common::text::{push_index, push_text};
use crate::ir::core_ir::{CoreModel, CoreProgram, ExprKind, ExprModel, StmtKind, StmtModel};
use crate::pipeline::reason::{Reason, Stage};
use crate::pipeline::tables::BtaTables;
use std::collections::HashSet;
use vstd::prelude::*;

verus! {

/// What a variable gets its value from.
#[derive(Clone, Copy, PartialEq, Eq, Debug, Structural)]
pub enum VarSource {
    Param { func: FuncId, param_index: u16 },
    Expr(ExprId),
    Stmt(StmtId),
}

/// Where the search has come to.
#[derive(Clone, Copy, PartialEq, Eq, Debug, Structural)]
pub enum Cursor {
    Expr(ExprId),
    Var(VarId),
}

// ---------------------------------------------------------------------------
// Where variables get their values
// ---------------------------------------------------------------------------

/// The sources after the first parameters of a function: the first function that
/// has a variable as a parameter counts.
pub open spec fn with_params(
    sources: Map<usize, VarSource>,
    func: int,
    params: Seq<VarId>,
    first: nat,
) -> Map<usize, VarSource>
    decreases first,
{
    if first == 0 {
        sources
    } else {
        let rest = with_params(sources, func, params, (first - 1) as nat);
        let var = params[first - 1].0;
        if rest.contains_key(var) {
            rest
        } else {
            rest.insert(
                var,
                VarSource::Param {
                    func: FuncId(func as usize),
                    param_index: (first - 1) as u16,
                },
            )
        }
    }
}

/// The sources after the parameters of the first functions.
pub open spec fn from_functions(p: CoreModel, first: nat) -> Map<usize, VarSource>
    decreases first,
{
    if first == 0 {
        Map::empty()
    } else {
        let params = p.functions[first - 1].params;
        with_params(from_functions(p, (first - 1) as nat), first - 1, params, params.len())
    }
}

/// The variable that a statement binds, and what it gets its value from.
pub open spec fn bound_by(s: StmtModel, at: int) -> Option<(VarId, VarSource)> {
    match s {
        StmtModel::Let { binding, value, .. } => Some((binding, VarSource::Expr(value))),
        StmtModel::Val { binding, value, .. } => Some((binding, VarSource::Stmt(value))),
        StmtModel::Call { result, .. } => Some((result, VarSource::Stmt(StmtId(at as usize)))),
        StmtModel::Perform { result: Some(result), .. } => Some(
            (result, VarSource::Stmt(StmtId(at as usize))),
        ),
        StmtModel::Resume { result, .. } => Some((result, VarSource::Stmt(StmtId(at as usize)))),
        _ => None,
    }
}

/// The sources after the first statements: the last one that binds a variable
/// counts.
pub open spec fn from_stmts(p: CoreModel, first: nat) -> Map<usize, VarSource>
    decreases first,
{
    if first == 0 {
        from_functions(p, p.functions.len())
    } else {
        let rest = from_stmts(p, (first - 1) as nat);
        match bound_by(p.stmts[first - 1].kind, first - 1) {
            Some((var, source)) => rest.insert(var.0, source),
            None => rest,
        }
    }
}

/// What the variables of a program get their values from.
pub open spec fn sources(p: CoreModel) -> Map<usize, VarSource> {
    from_stmts(p, p.stmts.len())
}

fn add_params(map: &mut DenseMap<VarSource>, func: usize, params: &Vec<VarId>)
    ensures
        final(map)@ == with_params(old(map)@, func as int, params@, params@.len()),
{
    let ghost before = map@;
    let mut i: usize = 0;
    while i < params.len()
        invariant
            i <= params@.len(),
            map@ == with_params(before, func as int, params@, i as nat),
        decreases params@.len() - i,
    {
        let var = params[i].0;
        if !map.contains_key(var) {
            map.insert(
                var,
                VarSource::Param { func: FuncId(func), param_index: #[verifier::truncate] (i as u16)
                },
            );
        }
        i += 1;
    }
}

fn var_sources(program: &CoreProgram) -> (map: DenseMap<VarSource>)
    ensures
        map@ == sources(program@),
{
    let ghost p = program@;
    let mut map: DenseMap<VarSource> = DenseMap::new();
    let mut f: usize = 0;
    while f < program.functions.len()
        invariant
            f <= program.functions@.len(),
            p == program@,
            map@ == from_functions(p, f as nat),
        decreases program.functions@.len() - f,
    {
        assert(p.functions[f as int] == program.functions@[f as int]@);
        add_params(&mut map, f, &program.functions[f].params);
        f += 1;
    }
    let mut i: usize = 0;
    while i < program.stmts.len()
        invariant
            i <= program.stmts@.len(),
            p == program@,
            map@ == from_stmts(p, i as nat),
        decreases program.stmts@.len() - i,
    {
        assert(p.stmts[i as int] == program.stmts@[i as int]@);
        match &program.stmts[i].kind {
            StmtKind::Let { binding, value, .. } => {
                map.insert(binding.0, VarSource::Expr(*value));
            },
            StmtKind::Val { binding, value, .. } => {
                map.insert(binding.0, VarSource::Stmt(*value));
            },
            StmtKind::Call { result, .. } => {
                map.insert(result.0, VarSource::Stmt(StmtId(i)));
            },
            StmtKind::Perform { result, .. } => {
                if let Some(result) = result {
                    map.insert(result.0, VarSource::Stmt(StmtId(i)));
                }
            },
            StmtKind::Resume { result, .. } => {
                map.insert(result.0, VarSource::Stmt(StmtId(i)));
            },
            _ => {},
        }
        i += 1;
    }
    map
}

// ---------------------------------------------------------------------------
// The first expression that is known at run time only
// ---------------------------------------------------------------------------

/// Whether an expression is known at run time only.
pub open spec fn is_runtime(exprs: Map<usize, Stage>, e: ExprId) -> bool {
    exprs.contains_key(e.0) && exprs[e.0] is Rt
}

/// The first of two expressions that there is.
pub open spec fn either(a: Option<ExprId>, b: Option<ExprId>) -> Option<ExprId> {
    match a {
        Some(e) => Some(e),
        None => b,
    }
}

/// An expression, if it is known at run time only.
pub open spec fn if_runtime(exprs: Map<usize, Stage>, e: ExprId) -> Option<ExprId> {
    if is_runtime(exprs, e) {
        Some(e)
    } else {
        None
    }
}

/// The first of the first expressions of a list that is known at run time only.
pub open spec fn first_runtime(
    exprs: Map<usize, Stage>,
    list: Seq<ExprId>,
    first: nat,
) -> Option<ExprId>
    decreases first,
{
    if first == 0 {
        None
    } else {
        either(
            first_runtime(exprs, list, (first - 1) as nat),
            if_runtime(exprs, list[first - 1]),
        )
    }
}

/// The first expression in a statement that is known at run time only; of the
/// arms of a match the last one comes first.
pub open spec fn stmt_runtime(p: CoreModel, exprs: Map<usize, Stage>, s: StmtId) -> Option<ExprId>
    decreases p.stmt_rank(s), 1nat, 0nat,
    when p.acyclic()
{
    proof {
        crate::passes::linearize::analysis::lemma_stmt_ranks(p, s);
    }
    if p.has_stmt(s) {
        match p.stmt(s) {
            StmtModel::Return(expr) => if_runtime(exprs, expr),
            StmtModel::Let { value, next, .. } => either(
                if_runtime(exprs, value),
                stmt_runtime(p, exprs, next),
            ),
            StmtModel::Val { value, next, .. } => either(
                stmt_runtime(p, exprs, value),
                stmt_runtime(p, exprs, next),
            ),
            StmtModel::Call { args, next, .. } => either(
                first_runtime(exprs, args, args.len()),
                stmt_runtime(p, exprs, next),
            ),
            StmtModel::Perform { args, next, .. } => either(
                first_runtime(exprs, args, args.len()),
                stmt_runtime(p, exprs, next),
            ),
            StmtModel::Resume { arg, next, .. } => either(
                if_runtime(exprs, arg),
                stmt_runtime(p, exprs, next),
            ),
            StmtModel::If { cond, then_branch, else_branch } => either(
                if_runtime(exprs, cond),
                either(
                    stmt_runtime(p, exprs, then_branch),
                    stmt_runtime(p, exprs, else_branch),
                ),
            ),
            StmtModel::Match { scrutinee, arms, default } => either(
                if_runtime(exprs, scrutinee),
                either(
                    arms_runtime(p, exprs, s, arms.len()),
                    match default {
                        Some(default) => stmt_runtime(p, exprs, default),
                        None => None,
                    },
                ),
            ),
            StmtModel::Handle { body, next, .. } => either(
                stmt_runtime(p, exprs, body),
                match next {
                    Some(next) => stmt_runtime(p, exprs, next),
                    None => None,
                },
            ),
            StmtModel::Stage { body, next, .. } => either(
                stmt_runtime(p, exprs, body),
                match next {
                    Some(next) => stmt_runtime(p, exprs, next),
                    None => None,
                },
            ),
            StmtModel::Hole { .. } => None,
            StmtModel::Error(_) => None,
        }
    } else {
        None
    }
}

/// The first expression in the first arms of a match that is known at run time
/// only, from the last arm to the first.
pub open spec fn arms_runtime(
    p: CoreModel,
    exprs: Map<usize, Stage>,
    s: StmtId,
    first: nat,
) -> Option<ExprId>
    decreases p.stmt_rank(s), 0nat, first,
    when p.acyclic()
{
    if first > 0 && p.has_stmt(s) && p.stmt(s) is Match && first <= p.stmt(s)->arms.len() {
        proof {
            crate::passes::linearize::analysis::lemma_stmt_ranks(p, s);
            crate::ir::core_ir::lemma_arm_is_part(p.stmt(s), first - 1);
        }
        either(
            stmt_runtime(p, exprs, p.stmt(s)->arms[first - 1].body),
            arms_runtime(p, exprs, s, (first - 1) as nat),
        )
    } else {
        None
    }
}

fn is_runtime_expr(exprs: &DenseMap<Stage>, e: ExprId) -> (runtime: bool)
    ensures
        runtime == is_runtime(exprs@, e),
{
    match exprs.get(e.0) {
        Some(Stage::Rt(_)) => true,
        _ => false,
    }
}

proof fn lemma_first_runtime_stays(exprs: Map<usize, Stage>, list: Seq<ExprId>, m: nat, n: nat)
    requires
        m <= n,
        first_runtime(exprs, list, m) is Some,
    ensures
        first_runtime(exprs, list, n) == first_runtime(exprs, list, m),
    decreases n - m,
{
    if m < n {
        lemma_first_runtime_stays(exprs, list, m, (n - 1) as nat);
    }
}

fn first_runtime_of(exprs: &DenseMap<Stage>, list: &Vec<ExprId>) -> (found: Option<ExprId>)
    ensures
        found == first_runtime(exprs@, list@, list@.len()),
{
    let mut i: usize = 0;
    while i < list.len()
        invariant
            i <= list@.len(),
            first_runtime(exprs@, list@, i as nat) is None,
        decreases list@.len() - i,
    {
        if is_runtime_expr(exprs, list[i]) {
            proof {
                assert(first_runtime(exprs@, list@, (i + 1) as nat) == Some(list@[i as int]));
                lemma_first_runtime_stays(exprs@, list@, (i + 1) as nat, list@.len());
            }
            return Some(list[i]);
        }
        i += 1;
    }
    None
}

/// Statements in which every expression is known at compile time.
spec fn clean(p: CoreModel, exprs: Map<usize, Stage>, set: Set<usize>) -> bool {
    forall|s: usize| #[trigger] set.contains(s) ==> stmt_runtime(p, exprs, StmtId(s)) is None
}

fn first_runtime_expr_in_stmt(
    program: &CoreProgram,
    exprs: &DenseMap<Stage>,
    s: StmtId,
    seen: &mut HashSet<usize>,
) -> (found: Option<ExprId>)
    requires
        program@.acyclic(),
        clean(program@, exprs@, old(seen)@),
    ensures
        clean(program@, exprs@, final(seen)@),
        found == stmt_runtime(program@, exprs@, s),
    decreases program@.stmt_rank(s), 1nat,
{
    broadcast use vstd::std_specs::hash::group_hash_axioms;

    if seen.contains(&s.0) || s.0 >= program.stmts.len() {
        return None;
    }
    proof {
        crate::passes::linearize::analysis::lemma_stmt_ranks(program@, s);
    }
    let ghost model = program@.stmt(s);
    let found = match &program.stmts[s.0].kind {
        StmtKind::Return(expr) => if is_runtime_expr(exprs, *expr) {
            Some(*expr)
        } else {
            None
        },
        StmtKind::Let { value, next, .. } => {
            assert(model.has_part(*next));
            if is_runtime_expr(exprs, *value) {
                Some(*value)
            } else {
                first_runtime_expr_in_stmt(program, exprs, *next, seen)
            }
        },
        StmtKind::Val { value, next, .. } => {
            assert(model.has_part(*value) && model.has_part(*next));
            match first_runtime_expr_in_stmt(program, exprs, *value, seen) {
                Some(e) => Some(e),
                None => first_runtime_expr_in_stmt(program, exprs, *next, seen),
            }
        },
        StmtKind::Call { args, next, .. } => {
            assert(model.has_part(*next));
            match first_runtime_of(exprs, args) {
                Some(e) => Some(e),
                None => first_runtime_expr_in_stmt(program, exprs, *next, seen),
            }
        },
        StmtKind::Perform { args, next, .. } => {
            assert(model.has_part(*next));
            match first_runtime_of(exprs, args) {
                Some(e) => Some(e),
                None => first_runtime_expr_in_stmt(program, exprs, *next, seen),
            }
        },
        StmtKind::Resume { arg, next, .. } => {
            assert(model.has_part(*next));
            if is_runtime_expr(exprs, *arg) {
                Some(*arg)
            } else {
                first_runtime_expr_in_stmt(program, exprs, *next, seen)
            }
        },
        StmtKind::If { cond, then_branch, else_branch } => {
            assert(model.has_part(*then_branch) && model.has_part(*else_branch));
            if is_runtime_expr(exprs, *cond) {
                Some(*cond)
            } else {
                match first_runtime_expr_in_stmt(program, exprs, *then_branch, seen) {
                    Some(e) => Some(e),
                    None => first_runtime_expr_in_stmt(program, exprs, *else_branch, seen),
                }
            }
        },
        StmtKind::Match { scrutinee, arms, default } => {
            assert(model is Match && model->arms == crate::common::views(arms@));
            if is_runtime_expr(exprs, *scrutinee) {
                Some(*scrutinee)
            } else {
                match first_runtime_expr_in_arms(program, exprs, s, arms.len(), seen) {
                    Some(e) => Some(e),
                    None => match default {
                        Some(default) => {
                            assert(model.has_part(*default));
                            first_runtime_expr_in_stmt(program, exprs, *default, seen)
                        },
                        None => None,
                    },
                }
            }
        },
        StmtKind::Handle { body, next, .. } | StmtKind::Stage { body, next, .. } => {
            assert(model.has_part(*body));
            match first_runtime_expr_in_stmt(program, exprs, *body, seen) {
                Some(e) => Some(e),
                None => match next {
                    Some(next) => {
                        assert(model.has_part(*next));
                        first_runtime_expr_in_stmt(program, exprs, *next, seen)
                    },
                    None => None,
                },
            }
        },
        StmtKind::Hole { .. } | StmtKind::Error(_) => None,
    };
    assert(found == stmt_runtime(program@, exprs@, s));
    if found.is_none() {
        seen.insert(s.0);
    }
    found
}

fn first_runtime_expr_in_arms(
    program: &CoreProgram,
    exprs: &DenseMap<Stage>,
    s: StmtId,
    count: usize,
    seen: &mut HashSet<usize>,
) -> (found: Option<ExprId>)
    requires
        program@.acyclic(),
        program@.has_stmt(s),
        program@.stmt(s) is Match,
        count <= program@.stmt(s)->arms.len(),
        clean(program@, exprs@, old(seen)@),
    ensures
        clean(program@, exprs@, final(seen)@),
        found == arms_runtime(program@, exprs@, s, count as nat),
    decreases program@.stmt_rank(s), 0nat,
{
    let mut i: usize = count;
    while i > 0
        invariant
            program@.acyclic(),
            program@.has_stmt(s),
            program@.stmt(s) is Match,
            i <= count <= program@.stmt(s)->arms.len(),
            clean(program@, exprs@, seen@),
            arms_runtime(program@, exprs@, s, count as nat) == arms_runtime(
                program@,
                exprs@,
                s,
                i as nat,
            ),
        decreases i,
    {
        proof {
            crate::passes::linearize::analysis::lemma_stmt_ranks(program@, s);
            crate::ir::core_ir::lemma_arm_is_part(program@.stmt(s), i - 1);
        }
        if let StmtKind::Match { arms, .. } = &program.stmts[s.0].kind {
            let body = arms[i - 1].body;
            assert(program@.stmt(s)->arms[i - 1].body == body);
            if let Some(e) = first_runtime_expr_in_stmt(program, exprs, body, seen) {
                return Some(e);
            }
        }
        i -= 1;
    }
    None
}

// ---------------------------------------------------------------------------
// The steps
// ---------------------------------------------------------------------------

/// What a search reads: the program, and the stages of its expressions and
/// variables.
pub struct Search {
    pub p: CoreModel,
    pub exprs: Map<usize, Stage>,
    pub vars: Map<usize, Stage>,
}

/// A number, at least two characters wide.
pub open spec fn padded(n: nat) -> Seq<char> {
    if n < 10 {
        " "@ + crate::common::text::decimal(n)
    } else {
        crate::common::text::decimal(n)
    }
}

/// A line of the search.
pub open spec fn step_line(step: nat, what: Seq<char>, id: usize, why: Seq<char>) -> Seq<char> {
    padded(step + 1) + what + crate::common::text::decimal(id as nat) + ": "@ + why
}

impl Search {
    /// What an expression gets from its parts that is known at run time only.
    pub open spec fn from_parts(self, e: ExprId) -> Option<Cursor> {
        if self.p.has_expr(e) {
            let found = match self.p.expr(e) {
                ExprModel::Var(_) => None,
                ExprModel::Unary { expr, .. } => if_runtime(self.exprs, expr),
                ExprModel::Binary { lhs, rhs, .. } => either(
                    if_runtime(self.exprs, lhs),
                    if_runtime(self.exprs, rhs),
                ),
                ExprModel::PureCall { args, .. } => first_runtime(self.exprs, args, args.len()),
                ExprModel::MakeStruct { fields, .. } => first_runtime(
                    self.exprs,
                    fields,
                    fields.len(),
                ),
                ExprModel::MakeEnum { fields, .. } => first_runtime(
                    self.exprs,
                    fields,
                    fields.len(),
                ),
                ExprModel::Literal(_) => None,
                ExprModel::Error(_) => None,
            };
            match self.p.expr(e) {
                ExprModel::Var(var) => Some(Cursor::Var(var)),
                _ => match found {
                    Some(part) => Some(Cursor::Expr(part)),
                    None => None,
                },
            }
        } else {
            None
        }
    }

    /// Where a reason leads to.
    pub open spec fn next(self, reason: Reason, e: Option<ExprId>) -> Option<Cursor> {
        match reason {
            Reason::DependsOnVar(var) => Some(Cursor::Var(var)),
            Reason::BranchOnRuntime(expr) => Some(Cursor::Expr(expr)),
            Reason::UnclassifiedRuntime => match e {
                Some(e) => self.from_parts(e),
                None => None,
            },
            _ => None,
        }
    }

    /// What one step says, and where it leads to.
    pub open spec fn step(self, cursor: Cursor, step: nat) -> (Option<Seq<char>>, Option<Cursor>) {
        match cursor {
            Cursor::Expr(e) => if is_runtime(self.exprs, e) {
                let reason = self.exprs[e.0]->Rt_0;
                (
                    Some(step_line(step, ". e"@, e.0, reason.sentence())),
                    self.next(reason, Some(e)),
                )
            } else {
                (None, None)
            },
            Cursor::Var(v) => if self.vars.contains_key(v.0) && self.vars[v.0] is Rt {
                let reason = self.vars[v.0]->Rt_0;
                (
                    Some(step_line(step, ". v"@, v.0, reason.sentence())),
                    self.next(reason, None),
                )
            } else if sources(self.p).contains_key(v.0) {
                match sources(self.p)[v.0] {
                    VarSource::Param { func, param_index } => (
                        Some(
                            step_line(
                                step,
                                ". v"@,
                                v.0,
                                (Reason::Parameter { func, index: param_index }).sentence(),
                            ),
                        ),
                        None,
                    ),
                    VarSource::Expr(e) => (None, Some(Cursor::Expr(e))),
                    VarSource::Stmt(s) => (
                        None,
                        match stmt_runtime(self.p, self.exprs, s) {
                            Some(e) => Some(Cursor::Expr(e)),
                            None => None,
                        },
                    ),
                }
            } else {
                (None, None)
            },
        }
    }

    /// The lines from a step on: the search ends where it comes back to an
    /// expression or a variable, where nothing leads further, or at the limit.
    pub open spec fn lines_from(
        self,
        cursor: Cursor,
        step: nat,
        limit: nat,
        seen_exprs: Set<usize>,
        seen_vars: Set<usize>,
    ) -> Seq<Seq<char>>
        decreases limit - step,
    {
        let seen = match cursor {
            Cursor::Expr(e) => seen_exprs.contains(e.0),
            Cursor::Var(v) => seen_vars.contains(v.0),
        };
        if step >= limit || seen {
            Seq::empty()
        } else {
            let (line, next) = self.step(cursor, step);
            let first = match line {
                Some(line) => seq![line],
                None => Seq::empty(),
            };
            let exprs = match cursor {
                Cursor::Expr(e) => seen_exprs.insert(e.0),
                Cursor::Var(_) => seen_exprs,
            };
            let vars = match cursor {
                Cursor::Expr(_) => seen_vars,
                Cursor::Var(v) => seen_vars.insert(v.0),
            };
            match next {
                Some(next) => first + self.lines_from(next, step + 1, limit, exprs, vars),
                None => first,
            }
        }
    }

    /// All lines of a search: at least one step is made.
    pub open spec fn lines(self, root: ExprId, limit: usize) -> Seq<Seq<char>> {
        self.lines_from(
            Cursor::Expr(root),
            0,
            if limit == 0 {
                1
            } else {
                limit as nat
            },
            Set::empty(),
            Set::empty(),
        )
    }
}

pub open spec fn search(program: CoreModel, bta: BtaTables) -> Search {
    Search { p: program, exprs: bta.stage_of_expr@, vars: bta.stage_of_var@ }
}

fn format_step(step: usize, what: &str, id: usize, why: &str) -> (text: String)
    requires
        step < usize::MAX,
    ensures
        text@ == step_line(step as nat, what@, id, why@),
{
    let mut text = String::new();
    if step + 1 < 10 {
        push_text(&mut text, " ");
    }
    push_index(&mut text, step + 1);
    assert(text@ =~= padded(step as nat + 1));
    push_text(&mut text, what);
    push_index(&mut text, id);
    push_text(&mut text, ": ");
    push_text(&mut text, why);
    assert(text@ =~= step_line(step as nat, what@, id, why@));
    text
}

fn infer_runtime_dependency_from_expr(program: &CoreProgram, bta: &BtaTables, e: ExprId) -> (next:
    Option<Cursor>)
    ensures
        next == search(program@, *bta).from_parts(e),
{
    if e.0 >= program.exprs.len() {
        return None;
    }
    let exprs = &bta.stage_of_expr;
    assert(program@.expr(e) == program.exprs@[e.0 as int].kind@);
    let found = match &program.exprs[e.0].kind {
        ExprKind::Var(var) => return Some(Cursor::Var(*var)),
        ExprKind::Unary { expr, .. } => if is_runtime_expr(exprs, *expr) {
            Some(*expr)
        } else {
            None
        },
        ExprKind::Binary { lhs, rhs, .. } => if is_runtime_expr(exprs, *lhs) {
            Some(*lhs)
        } else if is_runtime_expr(exprs, *rhs) {
            Some(*rhs)
        } else {
            None
        },
        ExprKind::PureCall { args, .. } => first_runtime_of(exprs, args),
        ExprKind::MakeStruct { fields, .. } => first_runtime_of(exprs, fields),
        ExprKind::MakeEnum { fields, .. } => first_runtime_of(exprs, fields),
        ExprKind::Literal(_) | ExprKind::Error(_) => None,
    };
    match found {
        Some(part) => Some(Cursor::Expr(part)),
        None => None,
    }
}

fn next_from_reason(
    reason: Reason,
    program: &CoreProgram,
    bta: &BtaTables,
    current: Option<ExprId>,
) -> (next: Option<Cursor>)
    ensures
        next == search(program@, *bta).next(reason, current),
{
    match reason {
        Reason::DependsOnVar(var) => Some(Cursor::Var(var)),
        Reason::BranchOnRuntime(expr) => Some(Cursor::Expr(expr)),
        Reason::UnclassifiedRuntime => match current {
            Some(e) => infer_runtime_dependency_from_expr(program, bta, e),
            None => None,
        },
        _ => None,
    }
}

fn take_step(
    program: &CoreProgram,
    bta: &BtaTables,
    map: &DenseMap<VarSource>,
    cursor: Cursor,
    step: usize,
) -> (done: (Option<String>, Option<Cursor>))
    requires
        program@.acyclic(),
        map@ == sources(program@),
        step < usize::MAX,
    ensures
        done.0 is Some <==> search(program@, *bta).step(cursor, step as nat).0 is Some,
        done.0 matches Some(line) ==> search(program@, *bta).step(cursor, step as nat).0 == Some(
            line@,
        ),
        done.1 == search(program@, *bta).step(cursor, step as nat).1,
{
    match cursor {
        Cursor::Expr(e) => match bta.stage_of_expr.get(e.0) {
            Some(Stage::Rt(reason)) => {
                let why = reason.describe_runtime();
                let line = format_step(step, ". e", e.0, why.as_str());
                (Some(line), next_from_reason(*reason, program, bta, Some(e)))
            },
            _ => (None, None),
        },
        Cursor::Var(v) => {
            if let Some(Stage::Rt(reason)) = bta.stage_of_var.get(v.0) {
                let why = reason.describe_runtime();
                let line = format_step(step, ". v", v.0, why.as_str());
                return (Some(line), next_from_reason(*reason, program, bta, None));
            }
            match map.get(v.0) {
                Some(VarSource::Param { func, param_index }) => {
                    let reason = Reason::Parameter { func: *func, index: *param_index };
                    let why = reason.describe_runtime();
                    (Some(format_step(step, ". v", v.0, why.as_str())), None)
                },
                Some(VarSource::Expr(e)) => (None, Some(Cursor::Expr(*e))),
                Some(VarSource::Stmt(s)) => {
                    let mut seen: HashSet<usize> = HashSet::new();
                    proof {
                        assert(seen@ =~= Set::empty());
                        assert(clean(program@, bta.stage_of_expr@, seen@));
                    }
                    match first_runtime_expr_in_stmt(program, &bta.stage_of_expr, *s, &mut seen) {
                        Some(e) => (None, Some(Cursor::Expr(e))),
                        None => (None, None),
                    }
                },
                None => (None, None),
            }
        },
    }
}

/// Tells, line by line, where a value that is known at run time only comes from:
/// at most so many lines.
pub fn runtime_provenance_lines(
    program: &CoreProgram,
    bta: &BtaTables,
    root: ExprId,
    limit: usize,
) -> (lines: Vec<String>)
    requires
        program@.acyclic(),
    ensures
        crate::common::views(lines@) == search(program@, *bta).lines(root, limit),
{
    broadcast use vstd::std_specs::hash::group_hash_axioms;

    let ghost all = search(program@, *bta).lines(root, limit);
    let map = var_sources(program);
    let bound: usize = if limit == 0 {
        1
    } else {
        limit
    };
    let mut seen_exprs: HashSet<usize> = HashSet::new();
    let mut seen_vars: HashSet<usize> = HashSet::new();
    let mut lines: Vec<String> = Vec::new();
    let mut cursor = Cursor::Expr(root);
    let mut step: usize = 0;
    proof {
        assert(seen_exprs@ =~= Set::empty());
        assert(seen_vars@ =~= Set::empty());
        assert(crate::common::views(lines@) =~= Seq::empty());
        assert(all =~= crate::common::views(lines@) + all);
    }
    while step < bound
        invariant
            program@.acyclic(),
            map@ == sources(program@),
            step <= bound,
            all == search(program@, *bta).lines(root, limit),
            all == crate::common::views(lines@) + search(program@, *bta).lines_from(
                cursor,
                step as nat,
                bound as nat,
                seen_exprs@,
                seen_vars@,
            ),
        decreases bound - step,
    {
        broadcast use vstd::std_specs::hash::group_hash_axioms;
        broadcast use crate::common::lemma_views_push;

        let ghost before = crate::common::views(lines@);
        let ghost old_exprs = seen_exprs@;
        let ghost old_vars = seen_vars@;
        let fresh = match cursor {
            Cursor::Expr(e) => seen_exprs.insert(e.0),
            Cursor::Var(v) => seen_vars.insert(v.0),
        };
        if !fresh {
            assert(all =~= before);
            return lines;
        }
        let (line, next) = take_step(program, bta, &map, cursor, step);
        let ghost rest = search(program@, *bta).lines_from(
            cursor,
            step as nat,
            bound as nat,
            old_exprs,
            old_vars,
        );
        if let Some(line) = line {
            lines.push(line);
        }
        match next {
            Some(next) => {
                proof {
                    let more = search(program@, *bta).lines_from(
                        next,
                        step as nat + 1,
                        bound as nat,
                        seen_exprs@,
                        seen_vars@,
                    );
                    assert(before + rest =~= crate::common::views(lines@) + more);
                }
                cursor = next;
            },
            None => {
                assert(all =~= crate::common::views(lines@));
                return lines;
            },
        }
        step += 1;
    }
    assert(all =~= crate::common::views(lines@));
    lines
}

// ---------------------------------------------------------------------------
// Laws
// ---------------------------------------------------------------------------

proof fn lemma_lines_from_len(
    search: Search,
    cursor: Cursor,
    step: nat,
    limit: nat,
    seen_exprs: Set<usize>,
    seen_vars: Set<usize>,
)
    requires
        step <= limit,
    ensures
        search.lines_from(cursor, step, limit, seen_exprs, seen_vars).len() <= limit - step,
    decreases limit - step,
{
    if step < limit {
        let (line, next) = search.step(cursor, step);
        let exprs = match cursor {
            Cursor::Expr(e) => seen_exprs.insert(e.0),
            Cursor::Var(_) => seen_exprs,
        };
        let vars = match cursor {
            Cursor::Expr(_) => seen_vars,
            Cursor::Var(v) => seen_vars.insert(v.0),
        };
        if let Some(next) = next {
            lemma_lines_from_len(search, next, step + 1, limit, exprs, vars);
        }
    }
}

/// There are at most as many lines as were asked for, and at least room for one;
/// the first line is about the root, and there is none just where the root is
/// not known to be a run-time value.
pub proof fn lemma_lines(search: Search, root: ExprId, limit: usize)
    ensures
        search.lines(root, limit).len() <= if limit == 0 {
            1
        } else {
            limit as nat
        },
        search.lines(root, limit).len() == 0 <==> !is_runtime(search.exprs, root),
        is_runtime(search.exprs, root) ==> search.lines(root, limit)[0] == step_line(
            0,
            ". e"@,
            root.0,
            search.exprs[root.0]->Rt_0.sentence(),
        ),
{
    lemma_lines_from_len(
        search,
        Cursor::Expr(root),
        0,
        if limit == 0 {
            1
        } else {
            limit as nat
        },
        Set::empty(),
        Set::empty(),
    );
}

} // verus!
