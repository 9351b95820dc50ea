//! How a handler clause uses its resumption: how often, and whether in tail
//! position.
use crate::common::ids::{ExprId, StmtId, VarId};
use crate::ir::core_ir::{
    ClauseModel, CoreModel, CoreProgram, ExprKind, ExprModel, HandlerClause, MatchArm,
    StmtKind, StmtModel,
};
use std::collections::{HashMap, HashSet};
use vstd::prelude::*;

verus! {

/// How a matching clause is entered.
#[derive(Clone, Copy, PartialEq, Eq, Debug, Structural)]
pub enum ClauseConvention {
    Pure,
    Direct,
    Control,
}

/// A bound on a number of uses.
#[derive(Clone, Copy, PartialEq, Eq, Debug, Structural)]
pub enum ResumeUseBound {
    Zero,
    One,
    Many,
}

#[derive(Clone, Copy, PartialEq, Eq, Debug, Structural)]
pub enum ResumeQualifier {
    Abortive,
    Affine,
    Linear,
    Multi,
}

#[derive(Clone, Copy, PartialEq, Eq, Debug, Structural)]
pub struct ClauseResumeAnalysis {
    pub qualifier: ResumeQualifier,
    pub min_uses: ResumeUseBound,
    pub max_uses: ResumeUseBound,
    pub tail_resumptive: bool,
}

/// Between how many and how many uses every path makes.
#[derive(Clone, Copy, PartialEq, Eq, Debug, Structural)]
pub struct ResumeUseRange {
    pub min: ResumeUseBound,
    pub max: ResumeUseBound,
}

impl ResumeUseBound {
    /// The count that the bound stands for, where two stands for any larger one.
    pub open spec fn count(self) -> nat {
        match self {
            ResumeUseBound::Zero => 0,
            ResumeUseBound::One => 1,
            ResumeUseBound::Many => 2,
        }
    }

    /// The bound that stands for a count.
    pub open spec fn of(count: nat) -> Self {
        if count == 0 {
            ResumeUseBound::Zero
        } else if count == 1 {
            ResumeUseBound::One
        } else {
            ResumeUseBound::Many
        }
    }

    /// The uses of two pieces of code that run one after the other.
    pub fn plus(self, other: Self) -> (sum: Self)
        ensures
            sum == Self::of(self.count() + other.count()),
    {
        match (self, other) {
            (ResumeUseBound::Zero, _) => other,
            (_, ResumeUseBound::Zero) => self,
            _ => ResumeUseBound::Many,
        }
    }

    pub fn max(self, other: Self) -> (bound: Self)
        ensures
            bound == (if self.count() >= other.count() { self } else { other }),
    {
        match (self, other) {
            (ResumeUseBound::Many, _) => self,
            (_, ResumeUseBound::Many) => other,
            (ResumeUseBound::One, _) => self,
            (_, ResumeUseBound::One) => other,
            _ => self,
        }
    }

    pub fn min(self, other: Self) -> (bound: Self)
        ensures
            bound == (if self.count() <= other.count() { self } else { other }),
    {
        match (self, other) {
            (ResumeUseBound::Zero, _) => self,
            (_, ResumeUseBound::Zero) => other,
            (ResumeUseBound::One, _) => self,
            (_, ResumeUseBound::One) => other,
            _ => self,
        }
    }

    pub fn is_many(self) -> (b: bool)
        ensures
            b == (self is Many),
    {
        matches!(self, ResumeUseBound::Many)
    }

    pub open spec fn text(self) -> Seq<char> {
        match self {
            ResumeUseBound::Zero => "zero"@,
            ResumeUseBound::One => "one"@,
            ResumeUseBound::Many => "many"@,
        }
    }

    pub fn as_str(self) -> (text: &'static str)
        ensures
            text@ == self.text(),
    {
        match self {
            ResumeUseBound::Zero => "zero",
            ResumeUseBound::One => "one",
            ResumeUseBound::Many => "many",
        }
    }
}

impl ResumeQualifier {
    pub open spec fn text(self) -> Seq<char> {
        match self {
            ResumeQualifier::Abortive => "Abortive"@,
            ResumeQualifier::Affine => "Affine"@,
            ResumeQualifier::Linear => "Linear"@,
            ResumeQualifier::Multi => "Multi"@,
        }
    }

    pub fn as_str(self) -> (text: &'static str)
        ensures
            text@ == self.text(),
    {
        match self {
            ResumeQualifier::Abortive => "Abortive",
            ResumeQualifier::Affine => "Affine",
            ResumeQualifier::Linear => "Linear",
            ResumeQualifier::Multi => "Multi",
        }
    }
}

impl ResumeUseRange {
    pub open spec fn exactly(count: nat) -> Self {
        ResumeUseRange { min: ResumeUseBound::of(count), max: ResumeUseBound::of(count) }
    }

    pub open spec fn then_range(self, other: Self) -> Self {
        ResumeUseRange {
            min: ResumeUseBound::of(self.min.count() + other.min.count()),
            max: ResumeUseBound::of(self.max.count() + other.max.count()),
        }
    }

    pub open spec fn either(self, other: Self) -> Self {
        ResumeUseRange {
            min: if self.min.count() <= other.min.count() {
                self.min
            } else {
                other.min
            },
            max: if self.max.count() >= other.max.count() {
                self.max
            } else {
                other.max
            },
        }
    }

    pub fn zero() -> (range: Self)
        ensures
            range == Self::exactly(0),
    {
        ResumeUseRange { min: ResumeUseBound::Zero, max: ResumeUseBound::Zero }
    }

    pub fn one() -> (range: Self)
        ensures
            range == Self::exactly(1),
    {
        ResumeUseRange { min: ResumeUseBound::One, max: ResumeUseBound::One }
    }

    /// Nothing is known of the uses.
    pub fn many() -> (range: Self)
        ensures
            range == (ResumeUseRange { min: ResumeUseBound::Zero, max: ResumeUseBound::Many }),
    {
        ResumeUseRange { min: ResumeUseBound::Zero, max: ResumeUseBound::Many }
    }

    /// One piece of code, then another.
    pub fn plus(self, other: Self) -> (range: Self)
        ensures
            range == self.then_range(other),
    {
        ResumeUseRange { min: self.min.plus(other.min), max: self.max.plus(other.max) }
    }

    /// One piece of code or another.
    pub fn join(self, other: Self) -> (range: Self)
        ensures
            range == self.either(other),
    {
        ResumeUseRange { min: self.min.min(other.min), max: self.max.max(other.max) }
    }
}

// ---------------------------------------------------------------------------
// Mentions of a variable
// ---------------------------------------------------------------------------

/// Whether an expression mentions a variable.
pub open spec fn expr_mentions(p: CoreModel, e: ExprId, var: VarId) -> bool
    decreases p.expr_rank(e),
    when p.acyclic()
{
    proof {
        lemma_expr_ranks(p, e);
    }
    p.has_expr(e) && match p.expr(e) {
        ExprModel::Var(found) => found == var,
        ExprModel::Literal(_) | ExprModel::Error(_) => false,
        ExprModel::Unary { expr, .. } => expr_mentions(p, expr, var),
        ExprModel::Binary { lhs, rhs, .. } => expr_mentions(p, lhs, var) || expr_mentions(
            p,
            rhs,
            var,
        ),
        ExprModel::PureCall { args, .. } => exists|i: int| #![trigger args[i]]
            0 <= i < args.len() && expr_mentions(p, args[i], var),
        ExprModel::MakeStruct { fields, .. } => exists|i: int| #![trigger fields[i]]
            0 <= i < fields.len() && expr_mentions(p, fields[i], var),
        ExprModel::MakeEnum { fields, .. } => exists|i: int| #![trigger fields[i]]
            0 <= i < fields.len() && expr_mentions(p, fields[i], var),
    }
}

/// Whether one of some expressions mentions a variable.
pub open spec fn any_mentions(p: CoreModel, es: Seq<ExprId>, var: VarId) -> bool {
    exists|i: int| #![trigger es[i]] 0 <= i < es.len() && expr_mentions(p, es[i], var)
}

/// Whether a statement, or one that it leads to, mentions a variable in an
/// expression or resumes through it.
pub open spec fn stmt_mentions(p: CoreModel, s: StmtId, var: VarId) -> bool
    decreases p.stmt_rank(s),
    when p.acyclic()
{
    proof {
        lemma_stmt_ranks(p, s);
    }
    p.has_stmt(s) && match p.stmt(s) {
        StmtModel::Return(expr) => expr_mentions(p, expr, var),
        StmtModel::Let { value, next, .. } => expr_mentions(p, value, var) || stmt_mentions(
            p,
            next,
            var,
        ),
        StmtModel::Val { value, next, .. } => stmt_mentions(p, value, var) || stmt_mentions(
            p,
            next,
            var,
        ),
        StmtModel::Call { args, next, .. } => any_mentions(p, args, var) || stmt_mentions(
            p,
            next,
            var,
        ),
        StmtModel::Perform { args, next, .. } => any_mentions(p, args, var) || stmt_mentions(
            p,
            next,
            var,
        ),
        StmtModel::Resume { resume, arg, next, .. } => resume == var || expr_mentions(p, arg, var)
            || stmt_mentions(p, next, var),
        StmtModel::If { cond, then_branch, else_branch } => expr_mentions(p, cond, var)
            || stmt_mentions(p, then_branch, var) || stmt_mentions(p, else_branch, var),
        StmtModel::Match { scrutinee, arms, default } => {
            ||| expr_mentions(p, scrutinee, var)
            ||| exists|i: int| #![trigger arms[i]]
                0 <= i < arms.len() && stmt_mentions(p, arms[i].body, var)
            ||| default matches Some(d) && stmt_mentions(p, d, var)
        },
        StmtModel::Handle { body, next, .. } => stmt_mentions(p, body, var) || (next matches Some(n)
            && stmt_mentions(p, n, var)),
        StmtModel::Stage { body, next, .. } => stmt_mentions(p, body, var) || (next matches Some(n)
            && stmt_mentions(p, n, var)),
        StmtModel::Hole { .. } | StmtModel::Error(_) => false,
    }
}

/// Every part of an expression stands below it.
pub proof fn lemma_expr_ranks(p: CoreModel, e: ExprId)
    ensures
        forall|part: ExprId| #![trigger p.expr_rank(part)]
            p.acyclic() && p.has_expr(e) && p.expr(e).has_part(part) ==> p.expr_rank(part)
                < p.expr_rank(e),
{
    assert forall|part: ExprId| #![trigger p.expr_rank(part)]
        p.acyclic() && p.has_expr(e) && p.expr(e).has_part(part) implies p.expr_rank(part)
        < p.expr_rank(e) by {
        crate::ir::core_ir::lemma_expr_rank(p, e, part);
    }
}

/// Every part of a statement stands below it.
pub proof fn lemma_stmt_ranks(p: CoreModel, s: StmtId)
    ensures
        forall|part: StmtId| #![trigger p.stmt_rank(part)]
            p.acyclic() && p.has_stmt(s) && p.stmt(s).has_part(part) ==> p.stmt_rank(part)
                < p.stmt_rank(s),
{
    assert forall|part: StmtId| #![trigger p.stmt_rank(part)]
        p.acyclic() && p.has_stmt(s) && p.stmt(s).has_part(part) implies p.stmt_rank(part)
        < p.stmt_rank(s) by {
        crate::ir::core_ir::lemma_stmt_rank(p, s, part);
    }
}

/// The expressions of a set mention the variable nowhere.
pub open spec fn silent_exprs(p: CoreModel, var: VarId, set: Set<usize>) -> bool {
    forall|e: usize| #[trigger] set.contains(e) ==> !expr_mentions(p, ExprId(e), var)
}

/// The statements of a set mention the variable nowhere.
pub open spec fn silent_stmts(p: CoreModel, var: VarId, set: Set<usize>) -> bool {
    forall|s: usize| #[trigger] set.contains(s) ==> !stmt_mentions(p, StmtId(s), var)
}

fn search_exprs(
    program: &CoreProgram,
    exprs: &Vec<ExprId>,
    var: VarId,
    Ghost(owner): Ghost<ExprId>,
    silent: &mut HashSet<usize>,
) -> (found: bool)
    requires
        program@.acyclic(),
        program@.has_expr(owner),
        forall|i: int| 0 <= i < exprs@.len() ==> program@.expr(owner).has_part(#[trigger] exprs@[i]),
        silent_exprs(program@, var, old(silent)@),
    ensures
        silent_exprs(program@, var, final(silent)@),
        found == any_mentions(program@, exprs@, var),
    decreases program@.expr_rank(owner), 0nat,
{
    let mut i: usize = 0;
    while i < exprs.len()
        invariant
            program@.acyclic(),
            program@.has_expr(owner),
            forall|i: int|
                0 <= i < exprs@.len() ==> program@.expr(owner).has_part(#[trigger] exprs@[i]),
            silent_exprs(program@, var, silent@),
            forall|j: int| 0 <= j < i ==> !expr_mentions(program@, #[trigger] exprs@[j], var),
            i <= exprs@.len(),
        decreases exprs@.len() - i,
    {
        proof {
            lemma_expr_ranks(program@, owner);
        }
        if search_expr(program, exprs[i], var, silent) {
            assert(expr_mentions(program@, exprs@[i as int], var));
            return true;
        }
        i += 1;
    }
    false
}

fn search_expr(
    program: &CoreProgram,
    expr_id: ExprId,
    var: VarId,
    silent: &mut HashSet<usize>,
) -> (found: bool)
    requires
        program@.acyclic(),
        silent_exprs(program@, var, old(silent)@),
    ensures
        silent_exprs(program@, var, final(silent)@),
        found == expr_mentions(program@, expr_id, var),
    decreases program@.expr_rank(expr_id), 1nat,
{
    proof {
        lemma_expr_ranks(program@, expr_id);
    }
    if silent.contains(&expr_id.0) {
        return false;
    }
    let found = match program.expr(expr_id) {
        None => false,
        Some(node) => match &node.kind {
            ExprKind::Var(mentioned) => *mentioned == var,
            ExprKind::Unary { expr, .. } => search_expr(program, *expr, var, silent),
            ExprKind::Binary { lhs, rhs, .. } => search_expr(program, *lhs, var, silent)
                || search_expr(program, *rhs, var, silent),
            ExprKind::PureCall { args, .. } => search_exprs(
                program,
                args,
                var,
                Ghost(expr_id),
                silent,
            ),
            ExprKind::MakeStruct { fields, .. } => search_exprs(
                program,
                fields,
                var,
                Ghost(expr_id),
                silent,
            ),
            ExprKind::MakeEnum { fields, .. } => search_exprs(
                program,
                fields,
                var,
                Ghost(expr_id),
                silent,
            ),
            ExprKind::Literal(_) | ExprKind::Error(_) => false,
        },
    };
    if !found {
        silent.insert(expr_id.0);
    }
    found
}

/// Whether an expression mentions a variable.
pub fn expr_mentions_var(program: &CoreProgram, root: ExprId, var: VarId) -> (found: bool)
    requires
        program@.acyclic(),
    ensures
        found == expr_mentions(program@, root, var),
{
    let mut silent: HashSet<usize> = HashSet::new();
    search_expr(program, root, var, &mut silent)
}

fn any_mentions_var(program: &CoreProgram, exprs: &Vec<ExprId>, var: VarId) -> (found: bool)
    requires
        program@.acyclic(),
    ensures
        found == any_mentions(program@, exprs@, var),
{
    let mut i: usize = 0;
    while i < exprs.len()
        invariant
            program@.acyclic(),
            forall|j: int| 0 <= j < i ==> !expr_mentions(program@, #[trigger] exprs@[j], var),
            i <= exprs@.len(),
        decreases exprs@.len() - i,
    {
        if expr_mentions_var(program, exprs[i], var) {
            assert(expr_mentions(program@, exprs@[i as int], var));
            return true;
        }
        i += 1;
    }
    false
}

fn search_arms(
    program: &CoreProgram,
    arms: &Vec<MatchArm>,
    var: VarId,
    Ghost(owner): Ghost<StmtId>,
    silent: &mut HashSet<usize>,
) -> (found: bool)
    requires
        program@.acyclic(),
        program@.has_stmt(owner),
        program@.stmt(owner) is Match,
        program@.stmt(owner)->arms == crate::common::views(arms@),
        silent_stmts(program@, var, old(silent)@),
    ensures
        silent_stmts(program@, var, final(silent)@),
        found == (exists|i: int| #![trigger program@.stmt(owner)->arms[i]]
            0 <= i < arms@.len() && stmt_mentions(
                program@,
                program@.stmt(owner)->arms[i].body,
                var,
            )),
    decreases program@.stmt_rank(owner), 0nat,
{
    let mut i: usize = 0;
    while i < arms.len()
        invariant
            program@.acyclic(),
            program@.has_stmt(owner),
            program@.stmt(owner) is Match,
            program@.stmt(owner)->arms == crate::common::views(arms@),
            silent_stmts(program@, var, silent@),
            i <= arms@.len(),
            forall|j: int| #![trigger program@.stmt(owner)->arms[j]]
                0 <= j < i ==> !stmt_mentions(program@, program@.stmt(owner)->arms[j].body, var),
        decreases arms@.len() - i,
    {
        proof {
            crate::ir::core_ir::lemma_arm_is_part(program@.stmt(owner), i as int);
            crate::ir::core_ir::lemma_stmt_rank(program@, owner, program@.stmt(owner)->arms[i as int].body);
        }
        if search_stmt(program, arms[i].body, var, silent) {
            return true;
        }
        i += 1;
    }
    false
}

fn search_stmt(
    program: &CoreProgram,
    stmt_id: StmtId,
    var: VarId,
    silent: &mut HashSet<usize>,
) -> (found: bool)
    requires
        program@.acyclic(),
        silent_stmts(program@, var, old(silent)@),
    ensures
        silent_stmts(program@, var, final(silent)@),
        found == stmt_mentions(program@, stmt_id, var),
    decreases program@.stmt_rank(stmt_id), 1nat,
{
    proof {
        lemma_stmt_ranks(program@, stmt_id);
    }
    if silent.contains(&stmt_id.0) {
        return false;
    }
    let found = match program.stmt(stmt_id) {
        None => false,
        Some(node) => match &node.kind {
            StmtKind::Return(expr) => expr_mentions_var(program, *expr, var),
            StmtKind::Let { value, next, .. } => expr_mentions_var(program, *value, var)
                || search_stmt(program, *next, var, silent),
            StmtKind::Val { value, next, .. } => search_stmt(program, *value, var, silent)
                || search_stmt(program, *next, var, silent),
            StmtKind::Call { args, next, .. } => any_mentions_var(program, args, var)
                || search_stmt(program, *next, var, silent),
            StmtKind::Perform { args, next, .. } => any_mentions_var(program, args, var)
                || search_stmt(program, *next, var, silent),
            StmtKind::Resume { resume, arg, next, .. } => *resume == var || expr_mentions_var(
                program,
                *arg,
                var,
            ) || search_stmt(program, *next, var, silent),
            StmtKind::If { cond, then_branch, else_branch } => expr_mentions_var(
                program,
                *cond,
                var,
            ) || search_stmt(program, *then_branch, var, silent) || search_stmt(
                program,
                *else_branch,
                var,
                silent,
            ),
            StmtKind::Match { scrutinee, arms, default } => expr_mentions_var(
                program,
                *scrutinee,
                var,
            ) || search_arms(program, arms, var, Ghost(stmt_id), silent) || match default {
                Some(next) => search_stmt(program, *next, var, silent),
                None => false,
            },
            StmtKind::Handle { body, next, .. } => search_stmt(program, *body, var, silent)
                || match next {
                Some(next) => search_stmt(program, *next, var, silent),
                None => false,
            },
            StmtKind::Stage { body, next, .. } => search_stmt(program, *body, var, silent)
                || match next {
                Some(next) => search_stmt(program, *next, var, silent),
                None => false,
            },
            StmtKind::Hole { .. } | StmtKind::Error(_) => false,
        },
    };
    if !found {
        silent.insert(stmt_id.0);
    }
    found
}

/// Whether a statement, or one that it leads to, mentions a variable.
pub fn stmt_mentions_var(program: &CoreProgram, root: StmtId, var: VarId) -> (found: bool)
    requires
        program@.acyclic(),
    ensures
        found == stmt_mentions(program@, root, var),
{
    let mut silent: HashSet<usize> = HashSet::new();
    search_stmt(program, root, var, &mut silent)
}

// ---------------------------------------------------------------------------
// Uses of the resumption
// ---------------------------------------------------------------------------

/// Whether a statement returns a variable and does nothing else.
pub open spec fn returns_var(p: CoreModel, s: StmtId, var: VarId) -> bool {
    &&& p.has_stmt(s)
    &&& p.stmt(s) matches StmtModel::Return(e)
    &&& p.has_expr(e)
    &&& p.expr(e) == ExprModel::Var(var)
}

/// Whether every path through a statement ends by resuming, and the resumption
/// is used nowhere else.
pub open spec fn tail_resumptive(p: CoreModel, s: StmtId, resume: VarId) -> bool
    decreases p.stmt_rank(s),
    when p.acyclic()
{
    proof {
        lemma_stmt_ranks(p, s);
    }
    p.has_stmt(s) && match p.stmt(s) {
        StmtModel::Return(_) => false,
        StmtModel::Let { value, next, .. } => !expr_mentions(p, value, resume) && tail_resumptive(
            p,
            next,
            resume,
        ),
        StmtModel::Val { binding, value, next } => if returns_var(p, next, binding) {
            tail_resumptive(p, value, resume)
        } else {
            !stmt_mentions(p, value, resume) && tail_resumptive(p, next, resume)
        },
        StmtModel::Call { .. } | StmtModel::Perform { .. } => false,
        StmtModel::Resume { result, resume: used, arg, next } => used == resume && !expr_mentions(
            p,
            arg,
            resume,
        ) && returns_var(p, next, result),
        StmtModel::If { cond, then_branch, else_branch } => !expr_mentions(p, cond, resume)
            && tail_resumptive(p, then_branch, resume) && tail_resumptive(p, else_branch, resume),
        StmtModel::Match { scrutinee, arms, default } => {
            &&& !expr_mentions(p, scrutinee, resume)
            &&& forall|i: int| #![trigger arms[i]]
                0 <= i < arms.len() ==> tail_resumptive(p, arms[i].body, resume)
            &&& default matches Some(d) ==> tail_resumptive(p, d, resume)
        },
        StmtModel::Handle { .. } | StmtModel::Stage { .. } => false,
        StmtModel::Hole { .. } | StmtModel::Error(_) => true,
    }
}

/// How often the paths through one of the first arms of a match resume, where
/// no arm at all resumes never.
pub open spec fn arms_range(p: CoreModel, s: StmtId, first: nat, resume: VarId) -> ResumeUseRange
    decreases p.stmt_rank(s), 0nat, first,
    when p.acyclic() && p.has_stmt(s) && p.stmt(s) is Match && first <= p.stmt(s)->arms.len()
{
    if first == 0 {
        ResumeUseRange::exactly(0)
    } else {
        proof {
            crate::ir::core_ir::lemma_arm_is_part(p.stmt(s), first - 1);
            lemma_stmt_ranks(p, s);
        }
        arms_range(p, s, (first - 1) as nat, resume).either(
            use_range(p, p.stmt(s)->arms[first - 1].body, resume),
        )
    }
}

/// How often the paths through a statement resume.
pub open spec fn use_range(p: CoreModel, s: StmtId, resume: VarId) -> ResumeUseRange
    decreases p.stmt_rank(s), 1nat, 0nat,
    when p.acyclic()
{
    proof {
        lemma_stmt_ranks(p, s);
    }
    if !p.has_stmt(s) {
        ResumeUseRange { min: ResumeUseBound::Zero, max: ResumeUseBound::Many }
    } else {
        match p.stmt(s) {
            StmtModel::Return(_)
            | StmtModel::Hole { .. }
            | StmtModel::Error(_) => ResumeUseRange::exactly(0),
            StmtModel::Let { next, .. } => use_range(p, next, resume),
            StmtModel::Call { next, .. } => use_range(p, next, resume),
            StmtModel::Perform { next, .. } => use_range(p, next, resume),
            StmtModel::Val { value, next, .. } => use_range(p, value, resume).then_range(
                use_range(p, next, resume),
            ),
            StmtModel::Resume { resume: used, next, .. } => ResumeUseRange::exactly(
                if used == resume {
                    1
                } else {
                    0
                },
            ).then_range(use_range(p, next, resume)),
            StmtModel::If { then_branch, else_branch, .. } => use_range(
                p,
                then_branch,
                resume,
            ).either(use_range(p, else_branch, resume)),
            StmtModel::Match { arms, default, .. } => {
                let all = arms_range(p, s, arms.len(), resume);
                match default {
                    Some(d) => all.either(use_range(p, d, resume)),
                    None => all,
                }
            },
            StmtModel::Handle { body, next, .. } => match next {
                Some(n) => use_range(p, body, resume).then_range(use_range(p, n, resume)),
                None => use_range(p, body, resume),
            },
            StmtModel::Stage { body, next, .. } => match next {
                Some(n) => use_range(p, body, resume).then_range(use_range(p, n, resume)),
                None => use_range(p, body, resume),
            },
        }
    }
}

/// What is known of how a clause uses its resumption.
pub open spec fn clause_resume(p: CoreModel, clause: ClauseModel) -> ClauseResumeAnalysis {
    match clause.resume_param {
        None => ClauseResumeAnalysis {
            qualifier: ResumeQualifier::Abortive,
            min_uses: ResumeUseBound::Zero,
            max_uses: ResumeUseBound::Zero,
            tail_resumptive: true,
        },
        Some(resume) => {
            let range = use_range(p, clause.body, resume);
            ClauseResumeAnalysis {
                qualifier: if range.max is Many {
                    ResumeQualifier::Multi
                } else if range.max is Zero {
                    ResumeQualifier::Abortive
                } else if range.min is One {
                    ResumeQualifier::Linear
                } else {
                    ResumeQualifier::Affine
                },
                min_uses: range.min,
                max_uses: range.max,
                tail_resumptive: tail_resumptive(p, clause.body, resume),
            }
        },
    }
}

/// How a clause is entered: directly where it resumes at most once, and only in
/// tail position.
pub open spec fn convention_for(
    clause: ClauseModel,
    known: ClauseResumeAnalysis,
) -> ClauseConvention {
    if clause.resume_param is None {
        ClauseConvention::Pure
    } else if known.qualifier is Multi {
        ClauseConvention::Control
    } else if known.qualifier is Abortive || known.tail_resumptive {
        ClauseConvention::Direct
    } else {
        ClauseConvention::Control
    }
}

/// How a clause is entered, by what its body shows.
pub open spec fn clause_convention(p: CoreModel, clause: ClauseModel) -> ClauseConvention {
    convention_for(clause, clause_resume(p, clause))
}

/// Whether a statement returns a variable and does nothing else.
pub fn is_identity_return_of_var(program: &CoreProgram, stmt_id: StmtId, var: VarId) -> (b: bool)
    ensures
        b == returns_var(program@, stmt_id, var),
{
    match program.stmt(stmt_id) {
        None => false,
        Some(node) => match &node.kind {
            StmtKind::Return(expr_id) => match program.expr(*expr_id) {
                None => false,
                Some(expr) => match &expr.kind {
                    ExprKind::Var(bound) => *bound == var,
                    _ => false,
                },
            },
            _ => false,
        },
    }
}

/// What the memo of the tail search holds is right.
pub open spec fn tail_memo(p: CoreModel, resume: VarId, memo: Map<usize, bool>) -> bool {
    forall|s: usize| #[trigger] memo.contains_key(s) ==> memo[s] == tail_resumptive(
        p,
        StmtId(s),
        resume,
    )
}

fn are_tail_resumptive_arms(
    program: &CoreProgram,
    arms: &Vec<MatchArm>,
    resume_var: VarId,
    Ghost(owner): Ghost<StmtId>,
    memo: &mut HashMap<usize, bool>,
) -> (b: bool)
    requires
        program@.acyclic(),
        program@.has_stmt(owner),
        program@.stmt(owner) is Match,
        program@.stmt(owner)->arms == crate::common::views(arms@),
        tail_memo(program@, resume_var, old(memo)@),
    ensures
        tail_memo(program@, resume_var, final(memo)@),
        b == (forall|i: int| #![trigger program@.stmt(owner)->arms[i]]
            0 <= i < arms@.len() ==> tail_resumptive(
                program@,
                program@.stmt(owner)->arms[i].body,
                resume_var,
            )),
    decreases program@.stmt_rank(owner), 0nat,
{
    let mut i: usize = 0;
    while i < arms.len()
        invariant
            program@.acyclic(),
            program@.has_stmt(owner),
            program@.stmt(owner) is Match,
            program@.stmt(owner)->arms == crate::common::views(arms@),
            tail_memo(program@, resume_var, memo@),
            i <= arms@.len(),
            forall|j: int| #![trigger program@.stmt(owner)->arms[j]]
                0 <= j < i ==> tail_resumptive(
                    program@,
                    program@.stmt(owner)->arms[j].body,
                    resume_var,
                ),
        decreases arms@.len() - i,
    {
        proof {
            crate::ir::core_ir::lemma_arm_is_part(program@.stmt(owner), i as int);
            crate::ir::core_ir::lemma_stmt_rank(program@, owner, program@.stmt(owner)->arms[i as int].body);
        }
        if !is_tail_resumptive_stmt(program, arms[i].body, resume_var, memo) {
            return false;
        }
        i += 1;
    }
    true
}

fn is_tail_resumptive_stmt(
    program: &CoreProgram,
    stmt_id: StmtId,
    resume_var: VarId,
    memo: &mut HashMap<usize, bool>,
) -> (b: bool)
    requires
        program@.acyclic(),
        tail_memo(program@, resume_var, old(memo)@),
    ensures
        tail_memo(program@, resume_var, final(memo)@),
        b == tail_resumptive(program@, stmt_id, resume_var),
    decreases program@.stmt_rank(stmt_id), 1nat,
{
    proof {
        lemma_stmt_ranks(program@, stmt_id);
    }
    if let Some(known) = memo.get(&stmt_id.0) {
        return *known;
    }
    let is_tail = match program.stmt(stmt_id) {
        None => false,
        Some(node) => match &node.kind {
            StmtKind::Return(_) => false,
            StmtKind::Let { value, next, .. } => !expr_mentions_var(program, *value, resume_var)
                && is_tail_resumptive_stmt(program, *next, resume_var, memo),
            StmtKind::Val { binding, value, next } => if is_identity_return_of_var(
                program,
                *next,
                *binding,
            ) {
                is_tail_resumptive_stmt(program, *value, resume_var, memo)
            } else {
                !stmt_mentions_var(program, *value, resume_var) && is_tail_resumptive_stmt(
                    program,
                    *next,
                    resume_var,
                    memo,
                )
            },
            StmtKind::Call { .. } | StmtKind::Perform { .. } => false,
            StmtKind::Resume { result, resume, arg, next } => *resume == resume_var
                && !expr_mentions_var(program, *arg, resume_var) && is_identity_return_of_var(
                program,
                *next,
                *result,
            ),
            StmtKind::If { cond, then_branch, else_branch } => !expr_mentions_var(
                program,
                *cond,
                resume_var,
            ) && is_tail_resumptive_stmt(program, *then_branch, resume_var, memo)
                && is_tail_resumptive_stmt(program, *else_branch, resume_var, memo),
            StmtKind::Match { scrutinee, arms, default } => !expr_mentions_var(
                program,
                *scrutinee,
                resume_var,
            ) && are_tail_resumptive_arms(program, arms, resume_var, Ghost(stmt_id), memo)
                && match default {
                Some(next) => is_tail_resumptive_stmt(program, *next, resume_var, memo),
                None => true,
            },
            StmtKind::Handle { .. } | StmtKind::Stage { .. } => false,
            StmtKind::Hole { .. } | StmtKind::Error(_) => true,
        },
    };
    memo.insert(stmt_id.0, is_tail);
    is_tail
}

/// Whether every path through a clause body ends by resuming, and the
/// resumption is used nowhere else.
pub fn is_tail_resumptive_clause(program: &CoreProgram, body: StmtId, resume_var: VarId) -> (b: bool)
    requires
        program@.acyclic(),
    ensures
        b == tail_resumptive(program@, body, resume_var),
{
    let mut memo: HashMap<usize, bool> = HashMap::new();
    is_tail_resumptive_stmt(program, body, resume_var, &mut memo)
}

/// What the memo of the use counts holds is right.
pub open spec fn range_memo(p: CoreModel, resume: VarId, memo: Map<usize, ResumeUseRange>) -> bool {
    forall|s: usize| #[trigger] memo.contains_key(s) ==> memo[s] == use_range(p, StmtId(s), resume)
}

fn arms_resume_use_range(
    program: &CoreProgram,
    arms: &Vec<MatchArm>,
    resume_var: VarId,
    Ghost(owner): Ghost<StmtId>,
    memo: &mut HashMap<usize, ResumeUseRange>,
) -> (range: ResumeUseRange)
    requires
        program@.acyclic(),
        program@.has_stmt(owner),
        program@.stmt(owner) is Match,
        program@.stmt(owner)->arms == crate::common::views(arms@),
        range_memo(program@, resume_var, old(memo)@),
    ensures
        range_memo(program@, resume_var, final(memo)@),
        range == arms_range(program@, owner, arms@.len(), resume_var),
    decreases program@.stmt_rank(owner), 0nat,
{
    let mut all = ResumeUseRange::zero();
    let mut i: usize = 0;
    while i < arms.len()
        invariant
            program@.acyclic(),
            program@.has_stmt(owner),
            program@.stmt(owner) is Match,
            program@.stmt(owner)->arms == crate::common::views(arms@),
            range_memo(program@, resume_var, memo@),
            i <= arms@.len(),
            all == arms_range(program@, owner, i as nat, resume_var),
        decreases arms@.len() - i,
    {
        proof {
            crate::ir::core_ir::lemma_arm_is_part(program@.stmt(owner), i as int);
            crate::ir::core_ir::lemma_stmt_rank(program@, owner, program@.stmt(owner)->arms[i as int].body);
        }
        let one = clause_resume_use_range_stmt(program, arms[i].body, resume_var, memo);
        all = all.join(one);
        i += 1;
    }
    all
}

fn clause_resume_use_range_stmt(
    program: &CoreProgram,
    stmt_id: StmtId,
    resume_var: VarId,
    memo: &mut HashMap<usize, ResumeUseRange>,
) -> (range: ResumeUseRange)
    requires
        program@.acyclic(),
        range_memo(program@, resume_var, old(memo)@),
    ensures
        range_memo(program@, resume_var, final(memo)@),
        range == use_range(program@, stmt_id, resume_var),
    decreases program@.stmt_rank(stmt_id), 1nat,
{
    proof {
        lemma_stmt_ranks(program@, stmt_id);
    }
    if let Some(known) = memo.get(&stmt_id.0) {
        return *known;
    }
    let range = match program.stmt(stmt_id) {
        None => ResumeUseRange::many(),
        Some(node) => match &node.kind {
            StmtKind::Return(_) | StmtKind::Hole { .. } | StmtKind::Error(_) => {
                ResumeUseRange::zero()
            },
            StmtKind::Let { next, .. } => clause_resume_use_range_stmt(
                program,
                *next,
                resume_var,
                memo,
            ),
            StmtKind::Call { next, .. } => clause_resume_use_range_stmt(
                program,
                *next,
                resume_var,
                memo,
            ),
            StmtKind::Perform { next, .. } => clause_resume_use_range_stmt(
                program,
                *next,
                resume_var,
                memo,
            ),
            StmtKind::Val { value, next, .. } => {
                let first = clause_resume_use_range_stmt(program, *value, resume_var, memo);
                let second = clause_resume_use_range_stmt(program, *next, resume_var, memo);
                first.plus(second)
            },
            StmtKind::Resume { resume, next, .. } => {
                let this_resume = if *resume == resume_var {
                    ResumeUseRange::one()
                } else {
                    ResumeUseRange::zero()
                };
                this_resume.plus(clause_resume_use_range_stmt(program, *next, resume_var, memo))
            },
            StmtKind::If { then_branch, else_branch, .. } => {
                let first = clause_resume_use_range_stmt(program, *then_branch, resume_var, memo);
                let second = clause_resume_use_range_stmt(program, *else_branch, resume_var, memo);
                first.join(second)
            },
            StmtKind::Match { arms, default, .. } => {
                let all = arms_resume_use_range(program, arms, resume_var, Ghost(stmt_id), memo);
                match default {
                    Some(next) => all.join(
                        clause_resume_use_range_stmt(program, *next, resume_var, memo),
                    ),
                    None => all,
                }
            },
            StmtKind::Handle { body, next, .. } => {
                let first = clause_resume_use_range_stmt(program, *body, resume_var, memo);
                match next {
                    Some(next) => first.plus(
                        clause_resume_use_range_stmt(program, *next, resume_var, memo),
                    ),
                    None => first,
                }
            },
            StmtKind::Stage { body, next, .. } => {
                let first = clause_resume_use_range_stmt(program, *body, resume_var, memo);
                match next {
                    Some(next) => first.plus(
                        clause_resume_use_range_stmt(program, *next, resume_var, memo),
                    ),
                    None => first,
                }
            },
        },
    };
    memo.insert(stmt_id.0, range);
    range
}

/// How often the paths through a clause body resume.
pub fn clause_resume_use_range(
    program: &CoreProgram,
    root: StmtId,
    resume_var: VarId,
) -> (range: ResumeUseRange)
    requires
        program@.acyclic(),
    ensures
        range == use_range(program@, root, resume_var),
{
    let mut memo: HashMap<usize, ResumeUseRange> = HashMap::new();
    clause_resume_use_range_stmt(program, root, resume_var, &mut memo)
}

/// How a clause uses its resumption.
pub fn analyze_clause_resume(program: &CoreProgram, clause: &HandlerClause) -> (
    known: ClauseResumeAnalysis)
    requires
        program@.acyclic(),
    ensures
        known == clause_resume(program@, clause@),
{
    match clause.resume_param {
        None => ClauseResumeAnalysis {
            qualifier: ResumeQualifier::Abortive,
            min_uses: ResumeUseBound::Zero,
            max_uses: ResumeUseBound::Zero,
            tail_resumptive: true,
        },
        Some(resume_var) => {
            let range = clause_resume_use_range(program, clause.body, resume_var);
            let tail_resumptive = is_tail_resumptive_clause(program, clause.body, resume_var);
            let qualifier = if range.max.is_many() {
                ResumeQualifier::Multi
            } else if matches!(range.max, ResumeUseBound::Zero) {
                ResumeQualifier::Abortive
            } else if matches!(range.min, ResumeUseBound::One) {
                ResumeQualifier::Linear
            } else {
                ResumeQualifier::Affine
            };
            ClauseResumeAnalysis {
                qualifier,
                min_uses: range.min,
                max_uses: range.max,
                tail_resumptive,
            }
        },
    }
}

/// How a clause is entered.
pub fn classify_clause_convention(
    clause: &HandlerClause,
    resume: ClauseResumeAnalysis,
) -> (convention: ClauseConvention)
    ensures
        convention == convention_for(clause@, resume),
{
    if clause.resume_param.is_none() {
        return ClauseConvention::Pure;
    }
    match resume.qualifier {
        ResumeQualifier::Multi => ClauseConvention::Control,
        ResumeQualifier::Abortive => ClauseConvention::Direct,
        ResumeQualifier::Affine | ResumeQualifier::Linear => {
            if resume.tail_resumptive {
                ClauseConvention::Direct
            } else {
                ClauseConvention::Control
            }
        },
    }
}

/// Code that resumes only in tail position resumes at most once on every path:
/// it is never counted as resuming many times.
pub proof fn lemma_tail_resumptive_resumes_once(p: CoreModel, s: StmtId, resume: VarId)
    requires
        p.acyclic(),
        p.stmts_closed(),
        tail_resumptive(p, s, resume),
    ensures
        use_range(p, s, resume).max != ResumeUseBound::Many,
    decreases p.stmt_rank(s),
{
    lemma_stmt_ranks(p, s);
    match p.stmt(s) {
        StmtModel::Let { next, .. } => {
            lemma_tail_resumptive_resumes_once(p, next, resume);
        },
        StmtModel::Val { binding, value, next } => {
            if returns_var(p, next, binding) {
                lemma_tail_resumptive_resumes_once(p, value, resume);
                lemma_stmt_ranks(p, next);
                assert(use_range(p, next, resume) == ResumeUseRange::exactly(0));
            } else {
                lemma_tail_resumptive_resumes_once(p, next, resume);
                assert(p.stmt(s).has_part(value));
                lemma_silent_never_resumes(p, value, resume);
            }
        },
        StmtModel::Resume { result, resume: used, arg, next } => {
            assert(use_range(p, next, resume) == ResumeUseRange::exactly(0));
        },
        StmtModel::If { cond, then_branch, else_branch } => {
            lemma_tail_resumptive_resumes_once(p, then_branch, resume);
            lemma_tail_resumptive_resumes_once(p, else_branch, resume);
        },
        StmtModel::Match { scrutinee, arms, default } => {
            assert forall|i: int| #![trigger arms[i]] 0 <= i < arms.len() implies use_range(
                p,
                arms[i].body,
                resume,
            ).max != ResumeUseBound::Many by {
                crate::ir::core_ir::lemma_arm_is_part(p.stmt(s), i);
                lemma_tail_resumptive_resumes_once(p, arms[i].body, resume);
            }
            lemma_arms_not_many(p, s, arms.len(), resume);
            if let Some(d) = default {
                lemma_tail_resumptive_resumes_once(p, d, resume);
            }
        },
        _ => {},
    }
}

/// Arms none of which resumes more than once do not together.
proof fn lemma_arms_not_many(p: CoreModel, s: StmtId, first: nat, resume: VarId)
    requires
        p.acyclic(),
        p.has_stmt(s),
        p.stmt(s) is Match,
        first <= p.stmt(s)->arms.len(),
        forall|i: int| #![trigger p.stmt(s)->arms[i]]
            0 <= i < p.stmt(s)->arms.len() ==> use_range(p, p.stmt(s)->arms[i].body, resume).max
                != ResumeUseBound::Many,
    ensures
        arms_range(p, s, first, resume).max != ResumeUseBound::Many,
    decreases first,
{
    if first > 0 {
        lemma_arms_not_many(p, s, (first - 1) as nat, resume);
    }
}

/// Code that never mentions the resumption never resumes through it.
pub proof fn lemma_silent_never_resumes(p: CoreModel, s: StmtId, resume: VarId)
    requires
        p.acyclic(),
        p.stmts_closed(),
        p.has_stmt(s),
        !stmt_mentions(p, s, resume),
    ensures
        use_range(p, s, resume) == ResumeUseRange::exactly(0),
    decreases p.stmt_rank(s),
{
    lemma_stmt_ranks(p, s);
    assert(forall|part: StmtId| p.stmt(s).has_part(part) ==> p.has_stmt(part));
    match p.stmt(s) {
        StmtModel::Let { next, .. } => lemma_silent_never_resumes(p, next, resume),
        StmtModel::Call { next, .. } => lemma_silent_never_resumes(p, next, resume),
        StmtModel::Perform { next, .. } => lemma_silent_never_resumes(p, next, resume),
        StmtModel::Resume { next, .. } => lemma_silent_never_resumes(p, next, resume),
        StmtModel::Val { value, next, .. } => {
            lemma_silent_never_resumes(p, value, resume);
            lemma_silent_never_resumes(p, next, resume);
        },
        StmtModel::If { then_branch, else_branch, .. } => {
            lemma_silent_never_resumes(p, then_branch, resume);
            lemma_silent_never_resumes(p, else_branch, resume);
        },
        StmtModel::Match { arms, default, .. } => {
            assert forall|i: int| #![trigger arms[i]] 0 <= i < arms.len() implies use_range(
                p,
                arms[i].body,
                resume,
            ) == ResumeUseRange::exactly(0) by {
                crate::ir::core_ir::lemma_arm_is_part(p.stmt(s), i);
                lemma_silent_never_resumes(p, arms[i].body, resume);
            }
            lemma_arms_zero(p, s, arms.len(), resume);
            if let Some(d) = default {
                lemma_silent_never_resumes(p, d, resume);
            }
        },
        StmtModel::Handle { body, next, .. } => {
            lemma_silent_never_resumes(p, body, resume);
            if let Some(n) = next {
                lemma_silent_never_resumes(p, n, resume);
            }
        },
        StmtModel::Stage { body, next, .. } => {
            lemma_silent_never_resumes(p, body, resume);
            if let Some(n) = next {
                lemma_silent_never_resumes(p, n, resume);
            }
        },
        _ => {},
    }
}

/// Arms none of which resumes do not resume.
proof fn lemma_arms_zero(p: CoreModel, s: StmtId, first: nat, resume: VarId)
    requires
        p.acyclic(),
        p.has_stmt(s),
        p.stmt(s) is Match,
        first <= p.stmt(s)->arms.len(),
        forall|i: int| #![trigger p.stmt(s)->arms[i]]
            0 <= i < p.stmt(s)->arms.len() ==> use_range(p, p.stmt(s)->arms[i].body, resume)
                == ResumeUseRange::exactly(0),
    ensures
        arms_range(p, s, first, resume) == ResumeUseRange::exactly(0),
    decreases first,
{
    if first > 0 {
        lemma_arms_zero(p, s, (first - 1) as nat, resume);
    }
}

} // verus!
