//! Core code does what the code of the syntax tree does that it was made from.
use crate::common::ids::{ExprId, StmtId, SymbolId, VarId};
use crate::frontend::ast;
use crate::ir::core_ir::CoreModel;
use crate::meaning::values::{Arithmetic, Value};
use crate::meaning::worlds::{Event, Outcome, World};
use crate::passes::lowering::{Locals, LowerEnv};
use vstd::prelude::*;

verus! {

/// No name stands for a variable from some number on.
pub open spec fn below(locals: Locals, count: nat) -> bool {
    forall|name: usize| #[trigger] locals.contains_key(name) ==> locals[name].0 < count
}

/// Names that are bound to variables in a row, over others.
proof fn lemma_named(locals: Locals, vars: Map<usize, Value>, count: nat, v: Value, name: SymbolId)
    requires
        below(locals, count),
        count <= usize::MAX,
    ensures
        crate::meaning::lowering::named(locals, vars.insert(count as usize, v))
            == crate::meaning::lowering::named(locals, vars),
        crate::meaning::lowering::named(
            locals.insert(name.0, VarId(count as usize)),
            vars.insert(count as usize, v),
        ) == crate::meaning::lowering::named(locals, vars).insert(name.0, v),
{
    assert(crate::meaning::lowering::named(locals, vars.insert(count as usize, v))
        =~= crate::meaning::lowering::named(locals, vars));
    assert(crate::meaning::lowering::named(
        locals.insert(name.0, VarId(count as usize)),
        vars.insert(count as usize, v),
    ) =~= crate::meaning::lowering::named(locals, vars).insert(name.0, v));
}

/// Core expressions in a row have the values of expressions of the tree.
proof fn lemma_lowered_all(
    m: Arithmetic,
    env: LowerEnv,
    core: CoreModel,
    locals: Locals,
    es: Seq<ast::Expr>,
    ids: Seq<ExprId>,
    vars: Map<usize, Value>,
    first: nat,
)
    requires
        core.acyclic(),
        crate::meaning::lowering::names_functions(env, core),
        crate::passes::lowering::exprs_are(env, core, locals, es, ids),
        first <= es.len(),
    ensures
        crate::meaning::core_values::core_all(m, core, vars, ids).take(first as int)
            == crate::meaning::source_values::source_all(
            m,
            env,
            crate::meaning::lowering::named(locals, vars),
            es,
            first,
        ),
        first == es.len() ==> crate::meaning::core_values::core_all(m, core, vars, ids)
            == crate::meaning::source_values::source_all(
            m,
            env,
            crate::meaning::lowering::named(locals, vars),
            es,
            first,
        ),
    decreases first,
{
    let all = crate::meaning::core_values::core_all(m, core, vars, ids);
    if first > 0 {
        lemma_lowered_all(m, env, core, locals, es, ids, vars, (first - 1) as nat);
        assert(crate::passes::lowering::expr_is(
            env,
            core,
            locals,
            es[first - 1],
            ids[first - 1],
        ));
        crate::meaning::lowering::lemma_lowered_value(
            m,
            env,
            core,
            locals,
            es[first - 1],
            ids[first - 1],
            vars,
        );
        assert(all.take(first as int) =~= all.take(first - 1).push(all[first - 1]));
    } else {
        assert(all.take(0) =~= Seq::empty());
    }
    if first == es.len() {
        assert(all.take(first as int) =~= all);
    }
}

/// The core statement for a block does what the block does.
#[verifier::rlimit(100)]
#[verifier::spinoff_prover]
pub proof fn lemma_block_does_the_same(
    w: World,
    env: LowerEnv,
    core: CoreModel,
    locals: Locals,
    vars: Map<usize, Value>,
    seen: Seq<Event>,
    block: ast::BlockExpr,
    base: nat,
    at: nat,
    id: StmtId,
)
    requires
        core.acyclic(),
        crate::meaning::lowering::names_functions(env, core),
        crate::passes::lowering::block_from(env, core, locals, block, base, at, id),
        at <= block.statements@.len(),
        below(
            crate::passes::lowering::locals_before(env, block, locals, base, at),
            base + crate::passes::lowering::vars_before(env, block, at),
        ),
        base + crate::passes::lowering::block_vars(env, block) <= usize::MAX,
    ensures
        crate::meaning::open_run::open_run(w, core, vars, seen, id)
            == crate::meaning::source_run::source_block(
            w,
            env,
            crate::meaning::lowering::named(
                crate::passes::lowering::locals_before(env, block, locals, base, at),
                vars,
            ),
            seen,
            block,
            at,
        ),
    decreases block, 0nat, block.statements@.len() - at,
{
    let m = w.arithmetic;
    let here = crate::passes::lowering::locals_before(env, block, locals, base, at);
    let count = base + crate::passes::lowering::vars_before(env, block, at);
    lemma_vars_grow(env, block, at, block.statements@.len());
    if at < block.statements@.len() {
        let stmt = block.statements@[at as int];
        lemma_vars_grow(env, block, at + 1, block.statements@.len());
        let next = crate::passes::lowering::next_of(core.stmt(id));
        let after = crate::passes::lowering::locals_before(env, block, locals, base, at + 1);
        assert(crate::passes::lowering::vars_before(env, block, at + 1)
            == crate::passes::lowering::vars_before(env, block, at)
            + crate::passes::lowering::stmt_vars(env, stmt));
        let o = crate::meaning::source_run::source_step(
            w,
            env,
            crate::meaning::lowering::named(here, vars),
            seen,
            stmt,
        );
        lemma_step_does_the_same(w, env, core, here, vars, seen, stmt, count, id);
        let bound = if stmt is Perform {
            vars
        } else {
            vars.insert(count as usize, o.value)
        };
        if !(stmt is Perform) {
            lemma_named(here, vars, count, o.value, SymbolId(0));
            if let ast::Stmt::Let { name, .. } = stmt {
                lemma_named(here, vars, count, o.value, name);
            }
        }
        lemma_block_does_the_same(
            w,
            env,
            core,
            locals,
            bound,
            o.seen,
            block,
            base,
            at + 1,
            next,
        );
    } else {
        match block.tail {
            Some(tail) => {
                if env.performs(*tail) {
                    let value = core.stmt(id)->Val_value;
                    let last = core.stmt(id)->Val_next;
                    lemma_performed_does_the_same(
                        w,
                        env,
                        core,
                        here,
                        vars,
                        seen,
                        *tail,
                        count,
                        value,
                    );
                    let o = crate::meaning::open_run::open_run(w, core, vars, seen, value);
                    let result = core.stmt(id)->Val_binding;
                    lemma_returned(
                        w,
                        core,
                        vars.insert(result.0, o.value),
                        o.seen,
                        last,
                        result,
                        tail.span,
                    );
                } else {
                    let value = core.stmt(id)->Return_0;
                    crate::meaning::lowering::lemma_lowered_value(
                        m,
                        env,
                        core,
                        here,
                        *tail,
                        value,
                        vars,
                    );
                }
            },
            None => {},
        }
    }
}

/// A statement that returns a variable comes to what it holds.
proof fn lemma_returned(
    w: World,
    core: CoreModel,
    vars: Map<usize, Value>,
    seen: Seq<Event>,
    id: StmtId,
    var: VarId,
    span: crate::common::span::Span,
)
    requires
        core.acyclic(),
        crate::passes::lowering::returns_var(core, id, var, span),
    ensures
        crate::meaning::open_run::open_run(w, core, vars, seen, id).value
            == crate::meaning::core_values::value_of(vars, var),
        crate::meaning::open_run::open_run(w, core, vars, seen, id).seen == seen,
{
}

/// Later statements bring more variables in.
proof fn lemma_vars_grow(env: LowerEnv, block: ast::BlockExpr, a: nat, b: nat)
    requires
        a <= b <= block.statements@.len(),
    ensures
        crate::passes::lowering::vars_before(env, block, a)
            <= crate::passes::lowering::vars_before(env, block, b),
    decreases b,
{
    if a < b {
        lemma_vars_grow(env, block, a, (b - 1) as nat);
    }
}

/// The core statement for a statement does what the statement does, binds what it
/// comes to, and goes on.
proof fn lemma_step_does_the_same(
    w: World,
    env: LowerEnv,
    core: CoreModel,
    here: Locals,
    vars: Map<usize, Value>,
    seen: Seq<Event>,
    stmt: ast::Stmt,
    count: nat,
    id: StmtId,
)
    requires
        core.acyclic(),
        crate::meaning::lowering::names_functions(env, core),
        core.has_stmt(id),
        crate::passes::lowering::step_is(env, core, here, stmt, count, core.stmts[id.0 as int]),
        below(here, count),
        count + crate::passes::lowering::stmt_vars(env, stmt) <= usize::MAX,
    ensures
        ({
            let o = crate::meaning::source_run::source_step(
                w,
                env,
                crate::meaning::lowering::named(here, vars),
                seen,
                stmt,
            );
            crate::meaning::open_run::open_run(w, core, vars, seen, id)
                == crate::meaning::open_run::open_run(
                w,
                core,
                if stmt is Perform {
                    vars
                } else {
                    vars.insert(count as usize, o.value)
                },
                o.seen,
                crate::passes::lowering::next_of(core.stmt(id)),
            )
        }),
    decreases stmt, 0nat, 0nat,
{
    let m = w.arithmetic;
    match stmt {
        ast::Stmt::Let { value, .. } => {
            lemma_bound_does_the_same(w, env, core, here, vars, seen, value, count, id);
        },
        ast::Stmt::Expr { value, .. } => {
            lemma_bound_does_the_same(w, env, core, here, vars, seen, value, count, id);
        },
        ast::Stmt::Perform { args, .. } => {
            lemma_lowered_all(
                m,
                env,
                core,
                here,
                args@,
                core.stmt(id)->Perform_args,
                vars,
                args@.len(),
            );
        },
        ast::Stmt::Error(_) => {},
    }
}

proof fn lemma_bound_does_the_same(
    w: World,
    env: LowerEnv,
    core: CoreModel,
    here: Locals,
    vars: Map<usize, Value>,
    seen: Seq<Event>,
    value: ast::Expr,
    count: nat,
    id: StmtId,
)
    requires
        core.acyclic(),
        crate::meaning::lowering::names_functions(env, core),
        core.has_stmt(id),
        crate::passes::lowering::binds(env, core, here, value, count, core.stmt(id)),
        below(here, count),
        count + 1 + crate::passes::lowering::value_vars(env, value) <= usize::MAX,
    ensures
        ({
            let o = crate::meaning::source_run::source_does(
                w,
                env,
                crate::meaning::lowering::named(here, vars),
                seen,
                value,
            );
            crate::meaning::open_run::open_run(w, core, vars, seen, id)
                == crate::meaning::open_run::open_run(
                w,
                core,
                vars.insert(count as usize, o.value),
                o.seen,
                crate::passes::lowering::next_of(core.stmt(id)),
            )
        }),
    decreases value, 2nat, 0nat,
{
    if env.performs(value) {
        lemma_performed_does_the_same(
            w,
            env,
            core,
            here,
            vars,
            seen,
            value,
            count + 1,
            core.stmt(id)->Val_value,
        );
    } else {
        crate::meaning::lowering::lemma_lowered_value(
            w.arithmetic,
            env,
            core,
            here,
            value,
            core.stmt(id)->Let_value,
            vars,
        );
    }
}

/// The core statement for an expression that performs effects does what the
/// expression does.
#[verifier::rlimit(100)]
#[verifier::spinoff_prover]
pub proof fn lemma_performed_does_the_same(
    w: World,
    env: LowerEnv,
    core: CoreModel,
    here: Locals,
    vars: Map<usize, Value>,
    seen: Seq<Event>,
    e: ast::Expr,
    count: nat,
    id: StmtId,
)
    requires
        core.acyclic(),
        crate::meaning::lowering::names_functions(env, core),
        crate::passes::lowering::performed_is(env, core, here, e, count, id),
        below(here, count),
        count + crate::passes::lowering::performed_vars(env, e) <= usize::MAX,
    ensures
        crate::meaning::open_run::open_run(w, core, vars, seen, id)
            == crate::meaning::source_run::source_does(
            w,
            env,
            crate::meaning::lowering::named(here, vars),
            seen,
            e,
        ),
    decreases e, 1nat, 0nat,
{
    let m = w.arithmetic;
    match e.kind {
        ast::ExprKind::StageBlock { stage, block } => {
            let inside = seen.push(Event::Stage(core.stmt(id)->stage));
            lemma_block_does_the_same(
                w,
                env,
                core,
                here,
                vars,
                inside,
                block,
                count,
                0,
                core.stmt(id)->Stage_body,
            );
        },
        ast::ExprKind::Call { callee, args } => {
            lemma_lowered_all(
                m,
                env,
                core,
                here,
                args@,
                core.stmt(id)->Call_args,
                vars,
                args@.len(),
            );
            let o = crate::meaning::source_run::source_does(
                w,
                env,
                crate::meaning::lowering::named(here, vars),
                seen,
                e,
            );
            let result = core.stmt(id)->Call_result;
            lemma_returned(
                w,
                core,
                vars.insert(result.0, o.value),
                o.seen,
                core.stmt(id)->Call_next,
                result,
                e.span,
            );
        },
        ast::ExprKind::Handle { body, effect, clauses } => {
            let h = core.stmt(id)->handler;
            let effect = crate::meaning::open_run::effect_of(core, h);
            let operations = crate::meaning::open_run::clauses_of(core, h);
            assert forall|i: int| 0 <= i < clauses@.len() implies #[trigger] operations[i] == (
                clauses@[i].operation,
                clauses@[i].params@.len(),
            ) by {
                assert(crate::passes::lowering::clause_is(
                    env,
                    core,
                    here,
                    e,
                    count + 1,
                    i,
                    core.handler(h).clauses[i],
                ));
            }
            assert(operations =~= crate::meaning::source_run::clauses_for(clauses@));
            let inside = seen.push(Event::Install { effect, operations });
            lemma_handled_does_the_same(
                w,
                env,
                core,
                here,
                vars,
                inside,
                *body,
                count + 1 + crate::passes::lowering::clause_vars(env, e, clauses@.len()),
                core.stmt(id)->Handle_body,
            );
        },
        _ => {},
    }
}

proof fn lemma_handled_does_the_same(
    w: World,
    env: LowerEnv,
    core: CoreModel,
    here: Locals,
    vars: Map<usize, Value>,
    seen: Seq<Event>,
    e: ast::Expr,
    count: nat,
    id: StmtId,
)
    requires
        core.acyclic(),
        crate::meaning::lowering::names_functions(env, core),
        crate::passes::lowering::handled_is(env, core, here, e, count, id),
        below(here, count),
        count + crate::passes::lowering::handled_vars(env, e) <= usize::MAX,
    ensures
        crate::meaning::open_run::open_run(w, core, vars, seen, id)
            == crate::meaning::source_run::source_handled(
            w,
            env,
            crate::meaning::lowering::named(here, vars),
            seen,
            e,
        ),
    decreases e, 2nat, 0nat,
{
    if env.performs(e) {
        lemma_performed_does_the_same(w, env, core, here, vars, seen, e, count, id);
    } else {
        match e.kind {
            ast::ExprKind::Block(block) => {
                lemma_block_does_the_same(w, env, core, here, vars, seen, block, count, 0, id);
            },
            _ => {
                crate::meaning::lowering::lemma_lowered_value(
                    w.arithmetic,
                    env,
                    core,
                    here,
                    e,
                    core.stmt(id)->Return_0,
                    vars,
                );
            },
        }
    }
}

/// Variables bound to values, in order, over others.
pub open spec fn with_values(
    vars: Map<usize, Value>,
    params: Seq<VarId>,
    args: Seq<Value>,
    first: nat,
) -> Map<usize, Value>
    decreases first,
{
    if first == 0 {
        vars
    } else {
        with_values(vars, params, args, (first - 1) as nat).insert(
            params[first - 1].0,
            args[first - 1],
        )
    }
}

/// Names bound to values, in order, over others.
pub open spec fn with_names(
    names: Map<usize, Value>,
    params: Seq<SymbolId>,
    args: Seq<Value>,
    first: nat,
) -> Map<usize, Value>
    decreases first,
{
    if first == 0 {
        names
    } else {
        with_names(names, params, args, (first - 1) as nat).insert(
            params[first - 1].0,
            args[first - 1],
        )
    }
}

proof fn lemma_bound_names(
    locals: Locals,
    vars: Map<usize, Value>,
    names: Seq<SymbolId>,
    base: nat,
    args: Seq<Value>,
    first: nat,
)
    requires
        below(locals, base),
        first <= names.len() == args.len(),
        base + names.len() <= usize::MAX,
    ensures
        below(crate::passes::lowering::bind_from(locals, names, base, first), base + first),
        crate::meaning::lowering::named(
            crate::passes::lowering::bind_from(locals, names, base, first),
            with_values(
                vars,
                crate::passes::lowering::vars_from(base, names.len()),
                args,
                first,
            ),
        ) == with_names(crate::meaning::lowering::named(locals, vars), names, args, first),
    decreases first,
{
    if first > 0 {
        let n = (first - 1) as nat;
        lemma_bound_names(locals, vars, names, base, args, n);
        let before = crate::passes::lowering::bind_from(locals, names, base, n);
        let params = crate::passes::lowering::vars_from(base, names.len());
        lemma_named(
            before,
            with_values(vars, params, args, n),
            base + n,
            args[n as int],
            names[n as int],
        );
        assert(params[n as int] == VarId((base + n) as usize));
    }
}

/// A clause of a core handler does, with values for what it takes, what the
/// clause of the tree does with them; and the handler gives what is returned
/// back as it is.
pub proof fn lemma_clause_does_the_same(
    w: World,
    env: LowerEnv,
    core: CoreModel,
    here: Locals,
    vars: Map<usize, Value>,
    seen: Seq<Event>,
    e: ast::Expr,
    count: nat,
    id: StmtId,
    i: int,
    args: Seq<Value>,
    given: Value,
)
    requires
        core.acyclic(),
        crate::meaning::lowering::names_functions(env, core),
        e.kind is Handle,
        crate::passes::lowering::performed_is(env, core, here, e, count, id),
        below(here, count),
        count + crate::passes::lowering::performed_vars(env, e) <= usize::MAX,
        0 <= i < e.kind->clauses@.len(),
        args.len() == e.kind->clauses@[i].params@.len(),
    ensures
        ({
            let source = e.kind->clauses@[i];
            let handler = core.handler(core.stmt(id)->handler);
            let clause = handler.clauses[i];
            &&& clause.operation == source.operation
            &&& clause.params.len() == args.len()
            &&& crate::meaning::open_run::open_run(
                w,
                core,
                with_values(vars, clause.params, args, args.len()),
                seen,
                clause.body,
            ) == crate::meaning::source_run::source_block(
                w,
                env,
                with_names(
                    crate::meaning::lowering::named(here, vars),
                    source.params@,
                    args,
                    args.len(),
                ),
                seen,
                source.body,
                0,
            )
            &&& crate::meaning::open_run::open_run(
                w,
                core,
                vars.insert(handler.return_param.0, given),
                seen,
                handler.return_body,
            ) == (Outcome { value: given, seen })
        }),
{
    let source = e.kind->clauses@[i];
    let handler = core.handler(core.stmt(id)->handler);
    let clause = handler.clauses[i];
    let total = e.kind->clauses@.len();
    assert(crate::passes::lowering::clause_is(env, core, here, e, count + 1, i, clause));
    lemma_clauses_grow(env, e, i as nat + 1, total);
    let base = count + 1 + crate::passes::lowering::clause_vars(env, e, i as nat);
    lemma_bound_names(here, vars, source.params@, base, args, args.len());
    let locals = crate::passes::lowering::bind_from(here, source.params@, base, args.len());
    lemma_block_does_the_same(
        w,
        env,
        core,
        locals,
        with_values(vars, clause.params, args, args.len()),
        seen,
        source.body,
        base + args.len(),
        0,
        clause.body,
    );
    lemma_returned(
        w,
        core,
        vars.insert(handler.return_param.0, given),
        seen,
        handler.return_body,
        handler.return_param,
        e.span,
    );
}

proof fn lemma_clauses_grow(env: LowerEnv, e: ast::Expr, a: nat, b: nat)
    requires
        e.kind is Handle,
        a <= b <= e.kind->clauses@.len(),
    ensures
        crate::passes::lowering::clause_vars(env, e, a) <= crate::passes::lowering::clause_vars(
            env,
            e,
            b,
        ),
    decreases b,
{
    if a < b {
        lemma_clauses_grow(env, e, a, (b - 1) as nat);
    }
}

/// A name stands for the last function that has it.
pub proof fn lemma_last_of_a_name(functions: Seq<ast::FunctionItem>, first: nat, name: SymbolId)
    requires
        first <= functions.len() <= usize::MAX,
    ensures
        ({
            let named = crate::passes::lowering::functions_named(functions, first);
            &&& named.contains_key(name.0) <==> exists|i: int|
                0 <= i < first && (#[trigger] functions[i]).name == name
            &&& named.contains_key(name.0) ==> {
                let f = named[name.0];
                &&& f.0 < first
                &&& functions[f.0 as int].name == name
                &&& forall|j: int| f.0 < j < first ==> (#[trigger] functions[j]).name != name
            }
        }),
    decreases first,
{
    if first > 0 {
        lemma_last_of_a_name(functions, (first - 1) as nat, name);
        assert(functions[first - 1] == functions[first - 1]);
        if functions[first - 1].name.0 == name.0 {
            assert(functions[first - 1].name == name);
        }
    }
}

/// In a program that was made from a tree, names stand for functions of those
/// names.
pub proof fn lemma_program_names(ast: ast::Program, wanted: Seq<SymbolId>, core: CoreModel)
    requires
        crate::passes::lowering::program_is(ast, wanted, core),
        core.functions.len() <= usize::MAX,
    ensures
        crate::meaning::lowering::names_functions(
            crate::passes::lowering::program_env(ast, core),
            core,
        ),
{
    let functions = crate::passes::lowering::functions_in(ast.items@, ast.items@.len());
    let env = crate::passes::lowering::program_env(ast, core);
    assert forall|name: usize| #[trigger] env.functions.contains_key(name) implies core.has_function(
        env.functions[name],
    ) && core.function(env.functions[name]).name == SymbolId(name) by {
        lemma_last_of_a_name(functions, functions.len(), SymbolId(name));
        let f = env.functions[name];
        assert(crate::passes::lowering::header_is(
            env.effects,
            functions,
            f.0 as int,
            core.functions[f.0 as int],
        ));
    }
}

proof fn lemma_counts_grow(
    env: LowerEnv,
    functions: Seq<ast::FunctionItem>,
    a: nat,
    b: nat,
)
    requires
        a <= b <= functions.len(),
    ensures
        crate::passes::lowering::params_before(functions, a)
            <= crate::passes::lowering::params_before(functions, b),
        crate::passes::lowering::bodies_before(env, functions, a)
            <= crate::passes::lowering::bodies_before(env, functions, b),
    decreases b,
{
    if a < b {
        lemma_counts_grow(env, functions, a, (b - 1) as nat);
    }
}

proof fn lemma_below_more(locals: Locals, a: nat, b: nat)
    requires
        below(locals, a),
        a <= b,
    ensures
        below(locals, b),
{
}

/// A core function does, with some arguments, what the function of the tree does
/// with them.
pub proof fn lemma_function_does_the_same(
    w: World,
    ast: ast::Program,
    wanted: Seq<SymbolId>,
    core: CoreModel,
    i: int,
    args: Seq<Value>,
    seen: Seq<Event>,
)
    requires
        core.acyclic(),
        crate::passes::lowering::program_is(ast, wanted, core),
        core.functions.len() <= usize::MAX,
        0 <= i < core.functions.len(),
        args.len() == core.functions[i].params.len(),
        ({
            let functions = crate::passes::lowering::functions_in(ast.items@, ast.items@.len());
            let env = crate::passes::lowering::program_env(ast, core);
            crate::passes::lowering::params_before(functions, functions.len())
                + crate::passes::lowering::bodies_before(env, functions, functions.len())
                <= usize::MAX
        }),
    ensures
        ({
            let source = crate::passes::lowering::functions_in(ast.items@, ast.items@.len())[i];
            let env = crate::passes::lowering::program_env(ast, core);
            let function = core.functions[i];
            &&& function.name == source.name
            &&& source.params@.len() == args.len()
            &&& crate::meaning::open_run::open_run(
                w,
                core,
                with_values(Map::empty(), function.params, args, args.len()),
                seen,
                function.body,
            ) == crate::meaning::source_run::source_block(
                w,
                env,
                with_names(
                    Map::empty(),
                    crate::passes::lowering::names_of(source.params@),
                    args,
                    args.len(),
                ),
                seen,
                source.body,
                0,
            )
        }),
{
    let functions = crate::passes::lowering::functions_in(ast.items@, ast.items@.len());
    let env = crate::passes::lowering::program_env(ast, core);
    let source = functions[i];
    let function = core.functions[i];
    let total = functions.len();
    lemma_program_names(ast, wanted, core);
    assert(crate::passes::lowering::header_is(env.effects, functions, i, function));
    assert(crate::passes::lowering::body_is(env, core, functions, i, function.body));
    lemma_counts_grow(env, functions, i as nat + 1, total);
    let names = crate::passes::lowering::names_of(source.params@);
    let low = crate::passes::lowering::params_before(functions, i as nat);
    let none = Map::<usize, VarId>::empty();
    lemma_bound_names(none, Map::empty(), names, low, args, args.len());
    assert(crate::meaning::lowering::named(none, Map::empty()) =~= Map::empty());
    let locals = crate::passes::lowering::bind_from(none, names, low, args.len());
    let base = crate::passes::lowering::params_before(functions, total)
        + crate::passes::lowering::bodies_before(env, functions, i as nat);
    lemma_below_more(locals, low + args.len(), base);
    lemma_block_does_the_same(
        w,
        env,
        core,
        locals,
        with_values(Map::empty(), function.params, args, args.len()),
        seen,
        source.body,
        base,
        0,
        function.body,
    );
}

} // verus!
