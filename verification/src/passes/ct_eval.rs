//! Calls at compile time: pure functions are run on known arguments.
use crate::common::densemap::DenseMap;
use crate::common::ids::{ExprId, FuncId, StmtId, VarId};
use crate::ir::core_ir::{
    BinaryOp, CoreModel, CoreProgram, ExprKind, ExprModel, Literal, LiteralModel, StageDirective,
    StmtKind, StmtModel,
};
use crate::passes::ct_common::{
    eval_binary, eval_unary, normalize_literal, rebuild_branch_decisions,
};
use crate::passes::ct_propagate::{remember, CtModel, Machine, QueryCache};
use crate::pipeline::compiler::TargetSpec;
use crate::pipeline::ct_query_cache::CtQueryCacheSnapshot;
use crate::pipeline::phases::{CtPropagated, Monomorphized};
use crate::pipeline::tables::{CtEvalStats, CtFileDep, CtPropagationTables};
use vstd::prelude::*;

verus! {

/// How deeply calls may be nested.
pub const MAX_CALL_EVAL_DEPTH: usize = 32;

/// A program, the machine that runs it, and the values that are known already.
pub struct Run {
    pub p: CoreModel,
    pub machine: Machine,
    pub cache: Map<usize, LiteralModel>,
}

/// What a variable is bound to: the last binding counts.
pub open spec fn bound_to(env: Seq<(VarId, LiteralModel)>, first: int, var: VarId) -> Option<
    LiteralModel,
>
    decreases first,
{
    if first <= 0 {
        None
    } else if env[first - 1].0 == var {
        Some(env[first - 1].1)
    } else {
        bound_to(env, first - 1, var)
    }
}

/// The parameters of a function, bound to arguments.
pub open spec fn bindings(params: Seq<VarId>, args: Seq<LiteralModel>) -> Seq<
    (VarId, LiteralModel),
> {
    Seq::new(params.len(), |i: int| (params[i], args[i]))
}

impl Run {
    /// The value of an expression, under bindings, within some calls.
    pub open spec fn expr(
        self,
        stack: Seq<FuncId>,
        e: ExprId,
        env: Seq<(VarId, LiteralModel)>,
    ) -> Option<LiteralModel>
        decreases (33 - stack.len()) as nat, 0nat, self.p.expr_rank(e) + 1, 0nat,
        when self.p.acyclic() && stack.len() <= MAX_CALL_EVAL_DEPTH
    {
        proof {
            crate::passes::linearize::analysis::lemma_expr_ranks(self.p, e);
        }
        if self.cache.contains_key(e.0) {
            Some(self.cache[e.0])
        } else if self.p.has_expr(e) {
            match self.p.expr(e) {
                ExprModel::Literal(value) => Some(
                    crate::passes::ct_common::normal(value, self.machine.bits),
                ),
                ExprModel::Var(var) => bound_to(env, env.len() as int, var),
                ExprModel::Unary { op, expr } => match self.expr(stack, expr, env) {
                    Some(value) => crate::passes::ct_common::fold_unary(
                        self.machine.bits,
                        op,
                        value,
                    ),
                    None => None,
                },
                ExprModel::Binary { op, lhs, rhs } => match (
                    self.expr(stack, lhs, env),
                    self.expr(stack, rhs, env),
                ) {
                    (Some(left), Some(right)) => crate::passes::ct_common::fold_binary(
                        self.machine.bits,
                        self.machine.host,
                        op,
                        left,
                        right,
                    ),
                    _ => None,
                },
                ExprModel::PureCall { callee, args } => match self.args(
                    stack,
                    e,
                    args.len(),
                    env,
                ) {
                    Some(values) => self.call(stack, callee, values),
                    None => None,
                },
                _ => None,
            }
        } else {
            None
        }
    }

    /// The values of the first arguments of a call.
    pub open spec fn args(
        self,
        stack: Seq<FuncId>,
        e: ExprId,
        first: nat,
        env: Seq<(VarId, LiteralModel)>,
    ) -> Option<Seq<LiteralModel>>
        decreases (33 - stack.len()) as nat, 0nat, self.p.expr_rank(e), first,
        when self.p.acyclic() && stack.len() <= MAX_CALL_EVAL_DEPTH
    {
        if first > 0 && self.p.has_expr(e) && self.p.expr(e) is PureCall && first <= self.p.expr(
            e,
        )->args.len() {
            proof {
                crate::passes::linearize::analysis::lemma_expr_ranks(self.p, e);
                assert(self.p.expr(e)->args.contains(self.p.expr(e)->args[first - 1]));
            }
            match (
                self.args(stack, e, (first - 1) as nat, env),
                self.expr(stack, self.p.expr(e)->args[first - 1], env),
            ) {
                (Some(values), Some(value)) => Some(values.push(value)),
                _ => None,
            }
        } else {
            Some(Seq::empty())
        }
    }

    /// The value that a function returns for arguments. A function with effects
    /// is not run, nor one that is being run, nor one too deep.
    pub open spec fn call(
        self,
        stack: Seq<FuncId>,
        callee: FuncId,
        args: Seq<LiteralModel>,
    ) -> Option<LiteralModel>
        decreases (33 - stack.len()) as nat, 0nat, 0nat, 0nat,
        when self.p.acyclic() && stack.len() <= MAX_CALL_EVAL_DEPTH
    {
        if self.p.has_function(callee) && self.p.function(callee).declared_effects.len() == 0
            && self.p.function(callee).params.len() == args.len() && !stack.contains(callee)
            && stack.len() < MAX_CALL_EVAL_DEPTH {
            match self.stmt(
                stack.push(callee),
                self.p.function(callee).body,
                bindings(self.p.function(callee).params, args),
            ) {
                Some((value, _)) => Some(value),
                None => None,
            }
        } else {
            None
        }
    }

    /// The value that a statement returns, and the bindings that it leaves.
    pub open spec fn stmt(
        self,
        stack: Seq<FuncId>,
        s: StmtId,
        env: Seq<(VarId, LiteralModel)>,
    ) -> Option<(LiteralModel, Seq<(VarId, LiteralModel)>)>
        decreases (33 - stack.len()) as nat, 1nat, self.p.stmt_rank(s), 0nat,
        when self.p.acyclic() && stack.len() <= MAX_CALL_EVAL_DEPTH
    {
        proof {
            crate::passes::linearize::analysis::lemma_stmt_ranks(self.p, s);
        }
        if self.p.has_stmt(s) {
            match self.p.stmt(s) {
                StmtModel::Return(expr) => match self.expr(stack, expr, env) {
                    Some(value) => Some((value, env)),
                    None => None,
                },
                StmtModel::Let { binding, value, next } => match self.expr(stack, value, env) {
                    Some(value) => self.stmt(stack, next, env.push((binding, value))),
                    None => None,
                },
                StmtModel::Val { binding, value, next } => match self.stmt(stack, value, env) {
                    Some((value, left)) => self.stmt(stack, next, left.push((binding, value))),
                    None => None,
                },
                StmtModel::If { cond, then_branch, else_branch } => match self.expr(
                    stack,
                    cond,
                    env,
                ) {
                    Some(LiteralModel::Bool(taken)) => match self.stmt(
                        stack,
                        if taken {
                            then_branch
                        } else {
                            else_branch
                        },
                        env,
                    ) {
                        Some((value, _)) => Some((value, env)),
                        None => None,
                    },
                    _ => None,
                },
                StmtModel::Stage { stage, body, next } => if stage is Comptime {
                    match self.stmt(stack, body, env) {
                        Some((value, _)) => match next {
                            Some(next) => self.stmt(stack, next, env),
                            None => Some((value, env)),
                        },
                        None => None,
                    }
                } else {
                    None
                },
                _ => None,
            }
        } else {
            None
        }
    }
}

// ---------------------------------------------------------------------------
// Running
// ---------------------------------------------------------------------------

type Env = Vec<(VarId, Literal)>;

spec fn env_model(env: Seq<(VarId, Literal)>) -> Seq<(VarId, LiteralModel)> {
    env.map_values(|binding: (VarId, Literal)| (binding.0, binding.1@))
}

proof fn lemma_env_push(env: Seq<(VarId, Literal)>, var: VarId, value: Literal)
    ensures
        env_model(env.push((var, value))) == env_model(env).push((var, value@)),
{
    assert(env_model(env.push((var, value))) =~= env_model(env).push((var, value@)));
}

fn bind(env: &mut Env, var: VarId, value: Literal)
    ensures
        env_model(final(env)@) == env_model(old(env)@).push((var, value@)),
        final(env)@ == old(env)@.push((var, value)),
{
    proof {
        lemma_env_push(env@, var, value);
    }
    env.push((var, value));
}

fn find_binding(env: &Env, var: VarId) -> (found: Option<Literal>)
    ensures
        crate::passes::ct_common::model_of(found) == bound_to(
            env_model(env@),
            env@.len() as int,
            var,
        ),
{
    let ghost model = env_model(env@);
    let mut i: usize = env.len();
    while i > 0
        invariant
            i <= env@.len(),
            model == env_model(env@),
            bound_to(model, env@.len() as int, var) == bound_to(model, i as int, var),
        decreases i,
    {
        assert(model[i - 1] == (env@[i - 1].0, env@[i - 1].1@));
        if env[i - 1].0 == var {
            return Some(env[i - 1].1.clone());
        }
        i -= 1;
    }
    None
}

/// Goes back to the bindings that there were.
fn unwind(env: &mut Env, count: usize)
    requires
        count <= old(env)@.len(),
    ensures
        final(env)@ == old(env)@.take(count as int),
{
    let ghost before = env@;
    while env.len() > count
        invariant
            count <= env@.len() <= before.len(),
            env@ == before.take(env@.len() as int),
        decreases env@.len(),
    {
        env.pop();
        assert(env@ =~= before.take(env@.len() as int));
    }
}

fn on_stack(stack: &Vec<FuncId>, f: FuncId) -> (found: bool)
    ensures
        found == stack@.contains(f),
{
    let mut i: usize = 0;
    while i < stack.len()
        invariant
            i <= stack@.len(),
            forall|j: int| 0 <= j < i ==> (#[trigger] stack@[j]) != f,
        decreases stack@.len() - i,
    {
        if stack[i] == f {
            return true;
        }
        i += 1;
    }
    false
}

struct CallEvaluator<'a, H> {
    program: &'a CoreProgram,
    cache: &'a DenseMap<Literal>,
    target: TargetSpec,
    host: &'a H,
}

impl<'a, H: Fn(BinaryOp, u64, u64) -> u64> CallEvaluator<'a, H> {
    spec fn run(self) -> Run {
        Run {
            p: self.program@,
            machine: crate::passes::ct_propagate::machine_of(self.target, *self.host),
            cache: crate::passes::ct_propagate::models(self.cache@),
        }
    }

    spec fn ready(self, stack: Seq<FuncId>) -> bool {
        &&& self.program@.acyclic()
        &&& crate::passes::ct_common::answers(*self.host)
        &&& stack.len() <= MAX_CALL_EVAL_DEPTH
    }

    fn eval_call(&self, stack: &mut Vec<FuncId>, callee: FuncId, args: Vec<Literal>) -> (out: Option<
        Literal,
    >)
        requires
            self.ready(old(stack)@),
        ensures
            final(stack)@ == old(stack)@,
            crate::passes::ct_common::model_of(out) == self.run().call(
                old(stack)@,
                callee,
                crate::common::views(args@),
            ),
        decreases (33 - old(stack)@.len()) as nat, 0nat, 0nat, 0nat,
    {
        let function = match self.program.function(callee) {
            Some(function) => function,
            None => {
                return None;
            },
        };
        if !function.declared_effects.is_empty() || function.params.len() != args.len() {
            return None;
        }
        if on_stack(stack, callee) || stack.len() >= MAX_CALL_EVAL_DEPTH {
            return None;
        }
        let ghost values = crate::common::views(args@);
        let mut env: Env = Vec::new();
        let mut i: usize = 0;
        while i < args.len()
            invariant
                i <= args@.len() == function.params@.len(),
                values == crate::common::views(args@),
                env_model(env@) == bindings(function.params@, values).take(i as int),
            decreases args@.len() - i,
        {
            assert(values[i as int] == args@[i as int]@);
            bind(&mut env, function.params[i], args[i].clone());
            assert(env_model(env@) =~= bindings(function.params@, values).take(i as int + 1));
            i += 1;
        }
        assert(env_model(env@) =~= bindings(function.params@, values));
        let ghost outer = stack@;
        stack.push(callee);
        let out = self.eval_stmt(stack, function.body, &mut env);
        stack.pop();
        assert(stack@ =~= outer);
        out
    }

    fn eval_stmt(&self, stack: &mut Vec<FuncId>, s: StmtId, env: &mut Env) -> (out: Option<Literal>)
        requires
            self.ready(old(stack)@),
        ensures
            final(stack)@ == old(stack)@,
            match self.run().stmt(old(stack)@, s, env_model(old(env)@)) {
                Some((value, left)) => {
                    &&& out is Some
                    &&& (out->0)@ == value
                    &&& env_model(final(env)@) == left
                },
                None => out is None,
            },
            out is Some ==> old(env)@.len() <= final(env)@.len() && final(env)@.take(
                old(env)@.len() as int,
            ) == old(env)@,
        decreases (33 - old(stack)@.len()) as nat, 1nat, self.program@.stmt_rank(s), 0nat,
    {
        if s.0 >= self.program.stmts.len() {
            return None;
        }
        proof {
            crate::passes::linearize::analysis::lemma_stmt_ranks(self.program@, s);
        }
        let ghost model = self.program@.stmt(s);
        let ghost before = env@;
        match &self.program.stmts[s.0].kind {
            StmtKind::Return(expr) => {
                assert(before.take(before.len() as int) =~= before);
                self.eval_expr(stack, *expr, env)
            },
            StmtKind::Let { binding, value, next } => {
                assert(model.has_part(*next));
                match self.eval_expr(stack, *value, env) {
                    Some(value) => {
                        bind(env, *binding, value);
                        let ghost bound = env@;
                        let out = self.eval_stmt(stack, *next, env);
                        assert(out is Some ==> env@.take(before.len() as int) =~= env@.take(
                            bound.len() as int,
                        ).take(before.len() as int));
                        assert(bound.take(before.len() as int) =~= before);
                        out
                    },
                    None => None,
                }
            },
            StmtKind::Val { binding, value, next } => {
                assert(model.has_part(*value) && model.has_part(*next));
                match self.eval_stmt(stack, *value, env) {
                    Some(value) => {
                        let ghost inner = env@;
                        bind(env, *binding, value);
                        let ghost bound = env@;
                        let out = self.eval_stmt(stack, *next, env);
                        assert(out is Some ==> env@.take(before.len() as int) =~= env@.take(
                            bound.len() as int,
                        ).take(before.len() as int));
                        assert(bound.take(before.len() as int) =~= inner.take(before.len() as int));
                        out
                    },
                    None => None,
                }
            },
            StmtKind::If { cond, then_branch, else_branch } => {
                assert(model.has_part(*then_branch) && model.has_part(*else_branch));
                match self.eval_expr(stack, *cond, env) {
                    Some(Literal::Bool(taken)) => {
                        let branch = if taken {
                            *then_branch
                        } else {
                            *else_branch
                        };
                        let count = env.len();
                        let out = self.eval_stmt(stack, branch, env);
                        if out.is_some() {
                            unwind(env, count);
                            assert(env@ =~= before);
                            assert(before.take(before.len() as int) =~= before);
                        }
                        out
                    },
                    _ => None,
                }
            },
            StmtKind::Stage { stage, body, next } => {
                assert(model.has_part(*body));
                match stage {
                    StageDirective::Comptime => {},
                    StageDirective::Runtime => {
                        return None;
                    },
                }
                let count = env.len();
                match self.eval_stmt(stack, *body, env) {
                    Some(value) => {
                        unwind(env, count);
                        assert(env@ =~= before);
                        assert(before.take(before.len() as int) =~= before);
                        match next {
                            Some(next) => {
                                assert(model.has_part(*next));
                                self.eval_stmt(stack, *next, env)
                            },
                            None => Some(value),
                        }
                    },
                    None => None,
                }
            },
            _ => None,
        }
    }

    fn eval_args(
        &self,
        stack: &mut Vec<FuncId>,
        Ghost(owner): Ghost<ExprId>,
        args: &Vec<ExprId>,
        env: &Env,
    ) -> (out: Option<Vec<Literal>>)
        requires
            self.ready(old(stack)@),
            self.program@.has_expr(owner),
            self.program@.expr(owner) is PureCall,
            self.program@.expr(owner)->args == args@,
        ensures
            final(stack)@ == old(stack)@,
            match self.run().args(old(stack)@, owner, args@.len(), env_model(env@)) {
                Some(values) => out is Some && crate::common::views((out->0)@) == values,
                None => out is None,
            },
        decreases (33 - old(stack)@.len()) as nat, 0nat, self.program@.expr_rank(owner), 1nat,
    {
        broadcast use crate::common::lemma_views_push;

        let ghost outer = stack@;
        let mut values: Vec<Literal> = Vec::new();
        let mut i: usize = 0;
        assert(crate::common::views(values@) =~= Seq::empty());
        while i < args.len()
            invariant
                i <= args@.len(),
                self.ready(outer),
                stack@ == outer,
                outer == old(stack)@,
                self.program@.has_expr(owner),
                self.program@.expr(owner) is PureCall,
                self.program@.expr(owner)->args == args@,
                self.run().args(outer, owner, i as nat, env_model(env@)) == Some(
                    crate::common::views(values@),
                ),
            decreases args@.len() - i,
        {
            broadcast use crate::common::lemma_views_push;

            proof {
                assert(args@.contains(args@[i as int]));
                crate::ir::core_ir::lemma_expr_rank(self.program@, owner, args@[i as int]);
            }
            match self.eval_expr(stack, args[i], env) {
                Some(value) => {
                    values.push(value);
                },
                None => {
                    proof {
                        assert(self.run().args(outer, owner, (i + 1) as nat, env_model(env@)) is None);
                        self.lemma_args_fail(
                            outer,
                            owner,
                            (i + 1) as nat,
                            args@.len(),
                            env_model(env@),
                        );
                    }
                    return None;
                },
            }
            i += 1;
        }
        Some(values)
    }

    proof fn lemma_args_fail(
        self,
        stack: Seq<FuncId>,
        owner: ExprId,
        m: nat,
        n: nat,
        env: Seq<(VarId, LiteralModel)>,
    )
        requires
            self.ready(stack),
            self.program@.has_expr(owner),
            self.program@.expr(owner) is PureCall,
            0 < m <= n <= self.program@.expr(owner)->args.len(),
            self.run().args(stack, owner, m, env) is None,
        ensures
            self.run().args(stack, owner, n, env) is None,
        decreases n - m,
    {
        if m < n {
            self.lemma_args_fail(stack, owner, m, (n - 1) as nat, env);
        }
    }

    fn eval_expr(&self, stack: &mut Vec<FuncId>, e: ExprId, env: &Env) -> (out: Option<Literal>)
        requires
            self.ready(old(stack)@),
        ensures
            final(stack)@ == old(stack)@,
            crate::passes::ct_common::model_of(out) == self.run().expr(
                old(stack)@,
                e,
                env_model(env@),
            ),
        decreases (33 - old(stack)@.len()) as nat, 0nat, self.program@.expr_rank(e) + 1, 0nat,
    {
        if let Some(cached) = self.cache.get(e.0) {
            return Some(cached.clone());
        }
        proof {
            crate::passes::linearize::analysis::lemma_expr_ranks(self.program@, e);
        }
        let node = match self.program.expr(e) {
            Some(node) => node,
            None => {
                return None;
            },
        };
        let ghost model = self.program@.expr(e);
        match &node.kind {
            ExprKind::Literal(value) => Some(normalize_literal(value, self.target)),
            ExprKind::Var(var) => find_binding(env, *var),
            ExprKind::Unary { op, expr } => {
                assert(model.has_part(*expr));
                match self.eval_expr(stack, *expr, env) {
                    Some(value) => eval_unary(*op, &value, self.target),
                    None => None,
                }
            },
            ExprKind::Binary { op, lhs, rhs } => {
                assert(model.has_part(*lhs) && model.has_part(*rhs));
                match self.eval_expr(stack, *lhs, env) {
                    Some(left) => match self.eval_expr(stack, *rhs, env) {
                        Some(right) => eval_binary(*op, &left, &right, self.target, self.host),
                        None => None,
                    },
                    None => None,
                }
            },
            ExprKind::PureCall { callee, args } => match self.eval_args(
                stack,
                Ghost(e),
                args,
                env,
            ) {
                Some(values) => self.eval_call(stack, *callee, values),
                None => None,
            },
            ExprKind::MakeStruct { .. } | ExprKind::MakeEnum { .. } | ExprKind::Error(_) => None,
        }
    }
}

// ---------------------------------------------------------------------------
// All calls whose arguments are known
// ---------------------------------------------------------------------------

/// The known values of the first expressions of a list, if all are known.
pub open spec fn known_values(
    cache: Map<usize, LiteralModel>,
    list: Seq<ExprId>,
    first: nat,
) -> Option<Seq<LiteralModel>>
    decreases first,
{
    if first == 0 {
        Some(Seq::empty())
    } else {
        match known_values(cache, list, (first - 1) as nat) {
            Some(values) => if cache.contains_key(list[first - 1].0) {
                Some(values.push(cache[list[first - 1].0]))
            } else {
                None
            },
            None => None,
        }
    }
}

/// How far the running of calls has come.
#[verifier::ext_equal]
pub struct Folding {
    pub cache: Map<usize, LiteralModel>,
    pub iterations: u32,
    pub attempts: u32,
    pub inserts: u32,
}

/// The value of a call whose arguments are known.
pub open spec fn call_value(
    machine: Machine,
    p: CoreModel,
    cache: Map<usize, LiteralModel>,
    e: ExprModel,
) -> Option<LiteralModel> {
    match e {
        ExprModel::PureCall { callee, args } => match known_values(cache, args, args.len()) {
            Some(values) => (Run { p, machine, cache }).call(Seq::empty(), callee, values),
            None => None,
        },
        _ => None,
    }
}

/// One expression is looked at.
pub open spec fn tried(machine: Machine, p: CoreModel, at: Folding, i: usize) -> Folding {
    let e = p.exprs[i as int].kind;
    if at.cache.contains_key(i) || !(e is PureCall) {
        at
    } else {
        let found = call_value(machine, p, at.cache, e);
        Folding {
            cache: match found {
                Some(value) => at.cache.insert(i, value),
                None => at.cache,
            },
            attempts: crate::passes::ct_propagate::more(at.attempts),
            inserts: crate::passes::ct_propagate::more_if(at.inserts, found is Some),
            ..at
        }
    }
}

pub open spec fn all_tried(machine: Machine, p: CoreModel, at: Folding, first: nat) -> Folding
    decreases first,
{
    if first == 0 {
        at
    } else {
        tried(machine, p, all_tried(machine, p, at, (first - 1) as nat), (first - 1) as usize)
    }
}

/// One pass over all expressions.
pub open spec fn call_pass(machine: Machine, p: CoreModel, at: Folding) -> Folding {
    all_tried(
        machine,
        p,
        Folding { iterations: crate::passes::ct_propagate::more(at.iterations), ..at },
        p.exprs.len(),
    )
}

/// Passes, until one finds nothing new; at most so many.
pub open spec fn call_passes(machine: Machine, p: CoreModel, at: Folding, limit: nat) -> Folding
    decreases limit,
{
    if limit == 0 {
        at
    } else {
        let next = call_pass(machine, p, at);
        if next.cache == at.cache {
            next
        } else {
            call_passes(machine, p, next, (limit - 1) as nat)
        }
    }
}

/// All calls that can be run.
pub open spec fn calls_folded(
    machine: Machine,
    p: CoreModel,
    cache: Map<usize, LiteralModel>,
) -> Folding {
    call_passes(
        machine,
        p,
        Folding { cache, iterations: 0, attempts: 0, inserts: 0 },
        crate::passes::ct_propagate::pass_limit(p),
    )
}

fn known_args(cache: &DenseMap<Literal>, list: &Vec<ExprId>) -> (out: Option<Vec<Literal>>)
    ensures
        match known_values(crate::passes::ct_propagate::models(cache@), list@, list@.len()) {
            Some(values) => out is Some && crate::common::views((out->0)@) == values,
            None => out is None,
        },
{
    broadcast use crate::common::lemma_views_push;

    let ghost models = crate::passes::ct_propagate::models(cache@);
    let mut values: Vec<Literal> = Vec::new();
    let mut i: usize = 0;
    assert(crate::common::views(values@) =~= Seq::empty());
    while i < list.len()
        invariant
            i <= list@.len(),
            models == crate::passes::ct_propagate::models(cache@),
            known_values(models, list@, i as nat) == Some(crate::common::views(values@)),
        decreases list@.len() - i,
    {
        broadcast use crate::common::lemma_views_push;

        match cache.get(list[i].0) {
            Some(value) => {
                assert(models[list@[i as int].0] == value@);
                values.push(value.clone());
            },
            None => {
                proof {
                    assert(known_values(models, list@, (i + 1) as nat) is None);
                    lemma_known_fail(models, list@, (i + 1) as nat, list@.len());
                }
                return None;
            },
        }
        i += 1;
    }
    Some(values)
}

proof fn lemma_known_fail(cache: Map<usize, LiteralModel>, list: Seq<ExprId>, m: nat, n: nat)
    requires
        m <= n,
        known_values(cache, list, m) is None,
    ensures
        known_values(cache, list, n) is None,
    decreases n - m,
{
    if m < n {
        lemma_known_fail(cache, list, m, (n - 1) as nat);
    }
}

/// How much running calls took.
pub struct CallFoldStats {
    pub iterations: u32,
    pub attempts: u32,
    pub inserts: u32,
}

spec fn folding(cache: DenseMap<Literal>, stats: CallFoldStats) -> Folding {
    Folding {
        cache: crate::passes::ct_propagate::models(cache@),
        iterations: stats.iterations,
        attempts: stats.attempts,
        inserts: stats.inserts,
    }
}

/// Looks at one expression. Tells whether its value is new.
fn try_call<H: Fn(BinaryOp, u64, u64) -> u64>(
    program: &CoreProgram,
    i: usize,
    target: TargetSpec,
    host: &H,
    cache: &mut DenseMap<Literal>,
    stats: &mut CallFoldStats,
) -> (changed: bool)
    requires
        program@.acyclic(),
        i < program@.exprs.len(),
        crate::passes::ct_common::answers(*host),
    ensures
        folding(*final(cache), *final(stats)) == tried(
            crate::passes::ct_propagate::machine_of(target, *host),
            program@,
            folding(*old(cache), *old(stats)),
            i,
        ),
        changed ==> !folding(*old(cache), *old(stats)).cache.contains_key(i) && folding(
            *final(cache),
            *final(stats),
        ).cache.contains_key(i),
        !changed ==> folding(*final(cache), *final(stats)).cache == folding(
            *old(cache),
            *old(stats),
        ).cache,
{
    let ghost before = folding(*cache, *stats);
    if cache.contains_key(i) {
        return false;
    }
    assert(program@.exprs[i as int].kind == program.exprs@[i as int].kind@);
    if let ExprKind::PureCall { callee, args } = &program.exprs[i].kind {
        stats.attempts = stats.attempts.saturating_add(1);
        let mut found: Option<Literal> = None;
        if let Some(values) = known_args(cache, args) {
            let evaluator = CallEvaluator { program, cache: &*cache, target, host };
            let mut stack: Vec<FuncId> = Vec::new();
            assert(stack@ =~= Seq::empty());
            found = evaluator.eval_call(&mut stack, *callee, values);
        }
        assert(crate::passes::ct_common::model_of(found) == call_value(
            crate::passes::ct_propagate::machine_of(target, *host),
            program@,
            before.cache,
            program@.exprs[i as int].kind,
        ));
        match found {
            Some(value) => {
                remember(cache, i, value);
                stats.inserts = stats.inserts.saturating_add(1);
                true
            },
            None => false,
        }
    } else {
        false
    }
}

/// Runs all calls whose arguments are known, and enters their values.
pub fn fold_known_pure_calls<H: Fn(BinaryOp, u64, u64) -> u64>(
    program: &CoreProgram,
    target: TargetSpec,
    host: &H,
    cache: &mut DenseMap<Literal>,
) -> (stats: CallFoldStats)
    requires
        program@.acyclic(),
        crate::passes::ct_common::answers(*host),
    ensures
        (Folding {
            cache: crate::passes::ct_propagate::models(final(cache)@),
            iterations: stats.iterations,
            attempts: stats.attempts,
            inserts: stats.inserts,
        }) == calls_folded(
            crate::passes::ct_propagate::machine_of(target, *host),
            program@,
            crate::passes::ct_propagate::models(old(cache)@),
        ),
{
    let ghost machine = crate::passes::ct_propagate::machine_of(target, *host);
    let mut stats = CallFoldStats { iterations: 0, attempts: 0, inserts: 0 };
    let ghost start = folding(*cache, stats);
    let limit = program.exprs.len().saturating_add(1);
    let mut left: usize = limit;
    let mut changed = true;
    assert(limit == crate::passes::ct_propagate::pass_limit(program@));
    while left > 0 && changed
        invariant
            left <= limit,
            limit == crate::passes::ct_propagate::pass_limit(program@),
            program@.acyclic(),
            crate::passes::ct_common::answers(*host),
            machine == crate::passes::ct_propagate::machine_of(target, *host),
            changed ==> call_passes(machine, program@, folding(*cache, stats), left as nat)
                == call_passes(machine, program@, start, limit as nat),
            !changed ==> folding(*cache, stats) == call_passes(
                machine,
                program@,
                start,
                limit as nat,
            ),
        decreases left,
    {
        let ghost before = folding(*cache, stats);
        stats.iterations = stats.iterations.saturating_add(1);
        let ghost begun = folding(*cache, stats);
        changed = false;
        let mut i: usize = 0;
        while i < program.exprs.len()
            invariant
                i <= program.exprs@.len(),
                program@.acyclic(),
                crate::passes::ct_common::answers(*host),
                machine == crate::passes::ct_propagate::machine_of(target, *host),
                folding(*cache, stats) == all_tried(machine, program@, begun, i as nat),
                begun.cache.submap_of(folding(*cache, stats).cache),
                changed <==> folding(*cache, stats).cache != begun.cache,
            decreases program.exprs@.len() - i,
        {
            let ghost now = folding(*cache, stats).cache;
            if try_call(program, i, target, host, cache, &mut stats) {
                changed = true;
                assert(folding(*cache, stats).cache.contains_key(i));
                assert(!begun.cache.contains_key(i)) by {
                    if begun.cache.contains_key(i) {
                        assert(begun.cache.dom().contains(i));
                        assert(now.dom().contains(i));
                    }
                }
            }
            i += 1;
        }
        assert(folding(*cache, stats) == call_pass(machine, program@, before));
        left -= 1;
    }
    stats
}

// ---------------------------------------------------------------------------
// Laws
// ---------------------------------------------------------------------------

proof fn lemma_all_tried_keep(machine: Machine, p: CoreModel, at: Folding, first: nat)
    ensures
        at.cache.submap_of(all_tried(machine, p, at, first).cache),
    decreases first,
{
    if first > 0 {
        lemma_all_tried_keep(machine, p, at, (first - 1) as nat);
        let mid = all_tried(machine, p, at, (first - 1) as nat);
        let end = all_tried(machine, p, at, first);
        assert forall|k: usize| #[trigger] at.cache.dom().contains(k) implies end.cache.dom().contains(k)
            && end.cache[k] == at.cache[k] by {
            assert(mid.cache.dom().contains(k));
        }
    }
}

proof fn lemma_call_passes_keep(machine: Machine, p: CoreModel, at: Folding, limit: nat)
    ensures
        at.cache.submap_of(call_passes(machine, p, at, limit).cache),
    decreases limit,
{
    if limit > 0 {
        let next = call_pass(machine, p, at);
        lemma_all_tried_keep(
            machine,
            p,
            Folding { iterations: crate::passes::ct_propagate::more(at.iterations), ..at },
            p.exprs.len(),
        );
        if next.cache != at.cache {
            lemma_call_passes_keep(machine, p, next, (limit - 1) as nat);
            let end = call_passes(machine, p, at, limit);
            assert(at.cache.submap_of(next.cache));
            assert(end == call_passes(machine, p, next, (limit - 1) as nat));
            assert(next.cache.submap_of(end.cache));
            assert forall|k: usize| #[trigger] at.cache.dom().contains(k) implies end.cache.dom().contains(
                k,
            ) && end.cache[k] == at.cache[k] by {
                assert(next.cache.dom().contains(k));
                assert(next.cache[k] == at.cache[k]);
                assert(end.cache.dom().contains(k));
            }
        }
    }
}

/// Running calls changes no value that is known already.
pub proof fn lemma_calls_keep(machine: Machine, p: CoreModel, cache: Map<usize, LiteralModel>)
    ensures
        cache.submap_of(calls_folded(machine, p, cache).cache),
{
    lemma_call_passes_keep(
        machine,
        p,
        Folding { cache, iterations: 0, attempts: 0, inserts: 0 },
        crate::passes::ct_propagate::pass_limit(p),
    );
}

// ---------------------------------------------------------------------------
// The pass
// ---------------------------------------------------------------------------

/// The sum of two counts, or the largest number where it is larger.
pub open spec fn sum_capped(a: u32, b: u32) -> u32 {
    if a + b > u32::MAX {
        u32::MAX
    } else {
        (a + b) as u32
    }
}

/// What is known after calls have been run as well.
pub open spec fn with_calls(machine: Machine, p: CoreModel, ct: CtModel) -> CtModel {
    let calls = calls_folded(machine, p, ct.cache);
    CtModel {
        cache: calls.cache,
        decisions: crate::passes::ct_propagate::decided(calls.cache),
        stats: CtEvalStats {
            iterations: sum_capped(ct.stats.iterations, calls.iterations),
            eval_attempts: sum_capped(ct.stats.eval_attempts, calls.attempts),
            cache_inserts: sum_capped(ct.stats.cache_inserts, calls.inserts),
            ..ct.stats
        },
        ..ct
    }
}

/// Evaluates what can be evaluated at compile time, calls as well. The files are
/// those that the program reads; what was kept is used where it still holds, and
/// else what is to be kept is handed back.
pub fn run_with_query_cache<H: Fn(BinaryOp, u64, u64) -> u64>(
    mono: Monomorphized,
    target: TargetSpec,
    host: &H,
    file_deps: Vec<CtFileDep>,
    query: QueryCache,
) -> (out: (CtPropagated, Option<CtQueryCacheSnapshot>))
    requires
        mono.program@.acyclic(),
        crate::passes::ct_common::answers(*host),
        crate::passes::ct_common::effects_declared(mono.program@),
    ensures
        out.0.program == mono.program,
        out.0.diagnostics == mono.diagnostics,
        out.0.sema == mono.sema,
        out.0.mono == mono.mono,
        crate::passes::ct_propagate::ct_model(out.0.ct) == with_calls(
            crate::passes::ct_propagate::machine_of(target, *host),
            mono.program@,
            crate::passes::ct_propagate::found(
                crate::passes::ct_propagate::machine_of(target, *host),
                mono.program@,
                target,
                crate::common::views(file_deps@),
                crate::passes::ct_propagate::kept(query),
            ),
        ),
        crate::passes::ct_propagate::snapshot_model(out.1) == crate::passes::ct_propagate::to_keep(
            crate::passes::ct_propagate::machine_of(target, *host),
            mono.program@,
            target,
            crate::common::views(file_deps@),
            query,
        ),
{
    let (seeded, snapshot) = crate::passes::ct_propagate::run_with_query_cache(
        mono,
        target,
        host,
        file_deps,
        query,
    );
    let ghost before = crate::passes::ct_propagate::ct_model(seeded.ct);
    let (program, diagnostics, sema, mono, ct) = seeded.into_parts();
    let mut ct_cache = ct.ct_cache;
    let calls = fold_known_pure_calls(&program, target, host, &mut ct_cache);
    let mut eval_stats = ct.eval_stats;
    eval_stats.iterations = eval_stats.iterations.saturating_add(calls.iterations);
    eval_stats.eval_attempts = eval_stats.eval_attempts.saturating_add(calls.attempts);
    eval_stats.cache_inserts = eval_stats.cache_inserts.saturating_add(calls.inserts);
    let branch_decisions = rebuild_branch_decisions(&ct_cache);
    let ct = CtPropagationTables {
        ct_cache,
        branch_decisions,
        file_deps: ct.file_deps,
        cache_key: ct.cache_key,
        eval_stats,
    };
    proof {
        assert(ct.branch_decisions@ =~= crate::passes::ct_propagate::decided(
            crate::passes::ct_propagate::models(ct.ct_cache@),
        ));
        assert(crate::passes::ct_propagate::ct_model(ct) =~= with_calls(
            crate::passes::ct_propagate::machine_of(target, *host),
            program@,
            before,
        ));
    }
    (CtPropagated::new(program, diagnostics, sema, mono, ct), snapshot)
}

/// Evaluates what can be evaluated at compile time, calls as well, and keeps
/// nothing.
pub fn run<H: Fn(BinaryOp, u64, u64) -> u64>(
    mono: Monomorphized,
    target: TargetSpec,
    host: &H,
    file_deps: Vec<CtFileDep>,
) -> (out: CtPropagated)
    requires
        mono.program@.acyclic(),
        crate::passes::ct_common::answers(*host),
        crate::passes::ct_common::effects_declared(mono.program@),
    ensures
        out.program == mono.program,
        out.diagnostics == mono.diagnostics,
        out.sema == mono.sema,
        out.mono == mono.mono,
        crate::passes::ct_propagate::ct_model(out.ct) == with_calls(
            crate::passes::ct_propagate::machine_of(target, *host),
            mono.program@,
            crate::passes::ct_propagate::found(
                crate::passes::ct_propagate::machine_of(target, *host),
                mono.program@,
                target,
                crate::common::views(file_deps@),
                None,
            ),
        ),
{
    let (out, _) = run_with_query_cache(mono, target, host, file_deps, QueryCache::Off);
    out
}

} // verus!
