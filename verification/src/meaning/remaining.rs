//! What is left of a program for run time does what the program does.
use crate::common::ids::{ExprId, FuncId, HandlerId, StmtId, SymbolId};
use crate::ir::core_ir::{CoreModel, ExprModel, MatchArmModel, StmtModel};
use crate::meaning::values::{Arithmetic, Value};
use crate::meaning::worlds::{Event, World};
use crate::pipeline::phases::CtPropagationTables;
use crate::sema::effect::SortedEffectRow;
use vstd::prelude::*;

verus! {

/// What the tables say is so, whatever the variables are.
pub open spec fn tables_right(m: Arithmetic, p: CoreModel, ct: CtPropagationTables) -> bool {
    &&& forall|vars: Map<usize, Value>, e: ExprId|
        p.has_expr(e) && ct.ct_cache@.contains_key(e.0)
            ==> #[trigger] crate::meaning::core_values::core_value(m, p, vars, e)
            == crate::meaning::core_values::literal_value(m, ct.ct_cache@[e.0]@)
    &&& forall|vars: Map<usize, Value>, e: ExprId|
        p.has_expr(e) && ct.branch_decisions@.contains_key(e.0)
            && !(ct.branch_decisions@[e.0] is Unknown)
            ==> #[trigger] crate::meaning::core_values::core_value(m, p, vars, e) == Value::Bool(
            ct.branch_decisions@[e.0] is LiveTrue,
        )
}

/// An arm that is chosen before run time takes no field of what is matched.
pub open spec fn chosen_takes_nothing(p: CoreModel) -> bool {
    forall|s: StmtId, i: int|
        p.has_stmt(s) && p.stmt(s) is Match && p.has_expr(p.stmt(s)->scrutinee) && p.expr(
            p.stmt(s)->scrutinee,
        ) is MakeEnum && #[trigger] crate::meaning::worlds::is_first(
            crate::meaning::core_run::core_tags(p.stmt(s)->arms),
            p.expr(p.stmt(s)->scrutinee)->variant,
            i,
        ) ==> p.stmt(s)->arms[i].binders.len() == 0
}

/// An expression of what is left has the value that it had.
pub proof fn lemma_left_value(
    m: Arithmetic,
    p: CoreModel,
    ct: CtPropagationTables,
    q: CoreModel,
    vars: Map<usize, Value>,
    e: ExprId,
)
    requires
        p.acyclic(),
        q.acyclic(),
        p.exprs_closed(),
        p.has_expr(e),
        p.exprs.len() <= usize::MAX,
        q.exprs == crate::passes::residualize::embedded(p, ct).exprs,
        forall|f: FuncId| #[trigger]
            crate::meaning::core_values::name_of(q, f) == crate::meaning::core_values::name_of(
                p,
                f,
            ),
        tables_right(m, p, ct),
    ensures
        crate::meaning::core_values::core_value(m, q, vars, e)
            == crate::meaning::core_values::core_value(m, p, vars, e),
    decreases p.expr_rank(e), 1nat, 0nat,
{
    crate::passes::linearize::analysis::lemma_expr_ranks(p, e);
    assert(e.0 as int as usize == e.0);
    if !ct.ct_cache@.contains_key(e.0) {
        assert(q.expr(e) == p.expr(e));
        match p.expr(e) {
            ExprModel::Unary { expr, .. } => {
                assert(p.expr(e).has_part(expr));
                lemma_left_value(m, p, ct, q, vars, expr);
            },
            ExprModel::Binary { lhs, rhs, .. } => {
                assert(p.expr(e).has_part(lhs));
                assert(p.expr(e).has_part(rhs));
                lemma_left_value(m, p, ct, q, vars, lhs);
                lemma_left_value(m, p, ct, q, vars, rhs);
            },
            ExprModel::PureCall { callee, args } => {
                assert(crate::meaning::core_values::name_of(q, callee)
                    == crate::meaning::core_values::name_of(p, callee));
                lemma_left_parts(m, p, ct, q, vars, e, args.len());
            },
            ExprModel::MakeStruct { fields, .. } => {
                lemma_left_parts(m, p, ct, q, vars, e, fields.len());
            },
            ExprModel::MakeEnum { fields, .. } => {
                lemma_left_parts(m, p, ct, q, vars, e, fields.len());
            },
            _ => {},
        }
    }
}

proof fn lemma_left_parts(
    m: Arithmetic,
    p: CoreModel,
    ct: CtPropagationTables,
    q: CoreModel,
    vars: Map<usize, Value>,
    e: ExprId,
    first: nat,
)
    requires
        p.acyclic(),
        q.acyclic(),
        p.exprs_closed(),
        p.has_expr(e),
        p.exprs.len() <= usize::MAX,
        q.exprs == crate::passes::residualize::embedded(p, ct).exprs,
        forall|f: FuncId| #[trigger]
            crate::meaning::core_values::name_of(q, f) == crate::meaning::core_values::name_of(
                p,
                f,
            ),
        tables_right(m, p, ct),
        q.expr(e) == p.expr(e),
        first <= p.expr(e).parts().len(),
    ensures
        crate::meaning::core_values::core_parts(m, q, vars, e, first)
            == crate::meaning::core_values::core_parts(m, p, vars, e, first),
    decreases p.expr_rank(e), 0nat, first,
{
    if first > 0 {
        crate::passes::linearize::analysis::lemma_expr_ranks(p, e);
        crate::meaning::core_values::lemma_parts(p.expr(e), first - 1);
        lemma_left_parts(m, p, ct, q, vars, e, (first - 1) as nat);
        lemma_left_value(m, p, ct, q, vars, p.expr(e).parts()[first - 1]);
    }
}

/// Expressions in a row keep their values too.
proof fn lemma_left_all(
    m: Arithmetic,
    p: CoreModel,
    ct: CtPropagationTables,
    q: CoreModel,
    vars: Map<usize, Value>,
    s: StmtId,
    es: Seq<ExprId>,
)
    requires
        p.acyclic(),
        q.acyclic(),
        p.closed(),
        p.has_stmt(s),
        p.stmt(s) is Call || p.stmt(s) is Perform,
        p.stmt(s).expr_parts() == es,
        p.exprs.len() <= usize::MAX,
        q.exprs == crate::passes::residualize::embedded(p, ct).exprs,
        forall|f: FuncId| #[trigger]
            crate::meaning::core_values::name_of(q, f) == crate::meaning::core_values::name_of(
                p,
                f,
            ),
        tables_right(m, p, ct),
    ensures
        crate::meaning::core_values::core_all(m, q, vars, es)
            == crate::meaning::core_values::core_all(m, p, vars, es),
{
    let left = crate::meaning::core_values::core_all(m, q, vars, es);
    let right = crate::meaning::core_values::core_all(m, p, vars, es);
    assert forall|i: int| 0 <= i < es.len() implies left[i] == right[i] by {
        assert(es.contains(es[i]));
        assert(p.stmt(s).has_expr(es[i]));
        lemma_left_value(m, p, ct, q, vars, es[i]);
    }
    assert(left =~= right);
}

/// The first arm of a variant is the one that is looked for.
proof fn lemma_first_arm(arms: Seq<MatchArmModel>, tag: SymbolId, from: int)
    requires
        0 <= from <= arms.len(),
        forall|j: int| 0 <= j < from ==> (#[trigger] arms[j]).tag != tag,
    ensures
        match crate::passes::residualize::arm_from(arms, tag, from) {
            Some(body) => {
                let tags = crate::meaning::core_run::core_tags(arms);
                &&& exists|i: int| crate::meaning::worlds::is_first(tags, tag, i)
                &&& arms[choose|i: int| crate::meaning::worlds::is_first(tags, tag, i)].body == body
            },
            None => !exists|i: int|
                crate::meaning::worlds::is_first(
                    crate::meaning::core_run::core_tags(arms),
                    tag,
                    i,
                ),
        },
    decreases arms.len() - from,
{
    let tags = crate::meaning::core_run::core_tags(arms);
    if from < arms.len() {
        if arms[from].tag == tag {
            assert forall|j: int| 0 <= j < from implies #[trigger] tags[j] != tag by {
                assert(arms[j].tag != tag);
            }
            assert(crate::meaning::worlds::is_first(tags, tag, from));
            let k = choose|i: int| crate::meaning::worlds::is_first(tags, tag, i);
            assert(crate::meaning::worlds::is_first(tags, tag, k));
            if k < from {
                assert(tags[k] != tag);
            }
            if from < k {
                assert(tags[from] != tag);
            }
        } else {
            lemma_first_arm(arms, tag, from + 1);
        }
    } else {
        if exists|i: int| crate::meaning::worlds::is_first(tags, tag, i) {
            let k = choose|i: int| crate::meaning::worlds::is_first(tags, tag, i);
            assert(crate::meaning::worlds::is_first(tags, tag, k));
            assert(arms[k].tag != tag);
        }
    }
}

/// Code does the same before and after what is known is put in and the branches
/// that are known not to be taken are cut away.
#[verifier::rlimit(100)]
#[verifier::spinoff_prover]
pub proof fn lemma_left_does_the_same(
    w: World,
    p: CoreModel,
    ct: CtPropagationTables,
    effects: Seq<SortedEffectRow>,
    vars: Map<usize, Value>,
    seen: Seq<Event>,
    s: StmtId,
)
    requires
        p.acyclic(),
        p.closed(),
        p.exprs.len() <= usize::MAX,
        p.stmts.len() <= usize::MAX,
        p.has_stmt(s),
        crate::passes::residualize::code_reached(p, s.0),
        tables_right(w.arithmetic, p, ct),
        chosen_takes_nothing(p),
    ensures
        crate::meaning::open_run::open_run(
            w,
            crate::passes::residualize::residual_program(p, ct, effects),
            vars,
            seen,
            crate::passes::residualize::resolve(
                crate::passes::residualize::embedded(p, ct),
                ct,
                s,
            ),
        ) == crate::meaning::open_run::open_run(w, p, vars, seen, s),
    decreases p.stmt_rank(s),
{
    let m = w.arithmetic;
    let e = crate::passes::residualize::embedded(p, ct);
    let q = crate::passes::residualize::residual_program(p, ct, effects);
    crate::passes::residualize::lemma_embedded_acyclic(p, ct);
    crate::passes::residualize::lemma_residual_acyclic(p, ct, effects);
    crate::passes::linearize::analysis::lemma_stmt_ranks(p, s);
    lemma_names(p, ct, effects);
    lemma_reached_same(p, ct);
    assert forall|part: StmtId| #[trigger] p.stmt(s).has_part(part) implies p.has_stmt(part)
        && crate::passes::residualize::code_reached(p, part.0) by {
        assert(StmtId(s.0) == s && StmtId(part.0) == part);
        crate::common::reach::lemma_reaches_step(
            crate::passes::function_graph::stmt_edge(p),
            crate::passes::residualize::code_roots(p),
            s.0,
            part.0,
        );
    }
    match crate::passes::residualize::live_child(e, ct, e.stmt(s)) {
        Some(child) => {
            crate::passes::residualize::lemma_live_child(e, ct, e.stmt(s));
            assert(p.stmt(s).has_part(child));
            lemma_left_does_the_same(w, p, ct, effects, vars, seen, child);
            match p.stmt(s) {
                StmtModel::If { cond, .. } => {
                    assert(p.stmt(s).has_expr(cond));
                    assert(cond.0 as int as usize == cond.0);
                    assert(crate::meaning::core_values::core_value(m, p, vars, cond)
                        == Value::Bool(
                        crate::passes::residualize::live_branch(e, ct, cond)->0,
                    ));
                },
                StmtModel::Match { scrutinee, arms, .. } => {
                    assert(p.stmt(s).has_expr(scrutinee));
                    assert(scrutinee.0 as int as usize == scrutinee.0);
                    assert(p.expr(scrutinee) == e.expr(scrutinee));
                    lemma_first_arm(arms, p.expr(scrutinee)->variant, 0);
                },
                _ => {},
            }
        },
        None => {
            lemma_left_stmt(p, ct, effects, s);
            match p.stmt(s) {
                StmtModel::Return(x) => {
                    assert(p.stmt(s).has_expr(x));
                    lemma_left_value(m, p, ct, q, vars, x);
                },
                StmtModel::Let { binding, value, next } => {
                    assert(p.stmt(s).has_expr(value));
                    assert(p.stmt(s).has_part(next));
                    lemma_left_value(m, p, ct, q, vars, value);
                    let v = crate::meaning::core_values::core_value(m, p, vars, value);
                    lemma_left_does_the_same(
                        w,
                        p,
                        ct,
                        effects,
                        vars.insert(binding.0, v),
                        seen,
                        next,
                    );
                },
                StmtModel::Val { binding, value, next } => {
                    assert(p.stmt(s).has_part(value));
                    assert(p.stmt(s).has_part(next));
                    lemma_left_does_the_same(w, p, ct, effects, vars, seen, value);
                    let o = crate::meaning::open_run::open_run(w, p, vars, seen, value);
                    lemma_left_does_the_same(
                        w,
                        p,
                        ct,
                        effects,
                        vars.insert(binding.0, o.value),
                        o.seen,
                        next,
                    );
                },
                StmtModel::Call { result, callee, args, next, .. } => {
                    assert(p.stmt(s).has_part(next));
                    lemma_left_all(m, p, ct, q, vars, s, args);
                    let more = seen.push(
                        Event::Call {
                            callee: crate::meaning::core_values::name_of(p, callee),
                            args: crate::meaning::core_values::core_all(m, p, vars, args),
                        },
                    );
                    lemma_left_does_the_same(
                        w,
                        p,
                        ct,
                        effects,
                        vars.insert(result.0, (w.answer)(more)),
                        more,
                        next,
                    );
                },
                StmtModel::If { cond, then_branch, else_branch } => {
                    assert(p.stmt(s).has_expr(cond));
                    assert(p.stmt(s).has_part(then_branch));
                    assert(p.stmt(s).has_part(else_branch));
                    lemma_left_value(m, p, ct, q, vars, cond);
                    lemma_left_does_the_same(w, p, ct, effects, vars, seen, then_branch);
                    lemma_left_does_the_same(w, p, ct, effects, vars, seen, else_branch);
                },
                StmtModel::Match { scrutinee, arms, default } => {
                    assert(p.stmt(s).has_expr(scrutinee));
                    lemma_left_value(m, p, ct, q, vars, scrutinee);
                    let value = crate::meaning::core_values::core_value(m, p, vars, scrutinee);
                    let tags = crate::meaning::core_run::core_tags(arms);
                    assert(crate::meaning::core_run::core_tags(q.stmt(s)->arms) =~= tags);
                    crate::meaning::worlds::lemma_arm_of(tags, value);
                    match crate::meaning::worlds::arm_of(tags, value) {
                        Some(i) => {
                            crate::ir::core_ir::lemma_arm_is_part(p.stmt(s), i);
                            lemma_left_does_the_same(
                                w,
                                p,
                                ct,
                                effects,
                                crate::meaning::worlds::with_fields(
                                    vars,
                                    arms[i].binders,
                                    value,
                                    arms[i].binders.len(),
                                ),
                                seen,
                                arms[i].body,
                            );
                        },
                        None => {
                            if let Some(part) = default {
                                assert(p.stmt(s).has_part(part));
                                lemma_left_does_the_same(w, p, ct, effects, vars, seen, part);
                            }
                        },
                    }
                },
                StmtModel::Perform { result, effect, operation, args, next } => {
                    assert(p.stmt(s).has_part(next));
                    lemma_left_all(m, p, ct, q, vars, s, args);
                    let more = seen.push(
                        Event::Perform {
                            effect,
                            operation,
                            args: crate::meaning::core_values::core_all(m, p, vars, args),
                        },
                    );
                    lemma_left_does_the_same(
                        w,
                        p,
                        ct,
                        effects,
                        crate::meaning::worlds::bind_option(vars, result, (w.answer)(more)),
                        more,
                        next,
                    );
                },
                StmtModel::Resume { result, resume, arg, next } => {
                    assert(p.stmt(s).has_part(next));
                    assert(p.stmt(s).has_expr(arg));
                    lemma_left_value(m, p, ct, q, vars, arg);
                    let more = seen.push(
                        Event::Resume {
                            of: crate::meaning::core_values::value_of(vars, resume),
                            with: crate::meaning::core_values::core_value(m, p, vars, arg),
                        },
                    );
                    lemma_left_does_the_same(
                        w,
                        p,
                        ct,
                        effects,
                        vars.insert(result.0, (w.answer)(more)),
                        more,
                        next,
                    );
                },
                StmtModel::Handle { handler, body, next } => {
                    assert(p.stmt(s).has_part(body));
                    let effect = crate::meaning::open_run::effect_of(p, handler);
                    let operations = crate::meaning::open_run::clauses_of(p, handler);
                    assert(crate::meaning::open_run::clauses_of(q, handler) =~= operations);
                    let inside = seen.push(Event::Install { effect, operations });
                    lemma_left_does_the_same(w, p, ct, effects, vars, inside, body);
                    let o = crate::meaning::open_run::open_run(w, p, vars, inside, body);
                    if let Some(next) = next {
                        assert(p.stmt(s).has_part(next));
                        lemma_left_does_the_same(
                            w,
                            p,
                            ct,
                            effects,
                            vars,
                            o.seen.push(Event::Remove { effect, operations }),
                            next,
                        );
                    }
                },
                StmtModel::Stage { stage, body, next } => {
                    assert(p.stmt(s).has_part(body));
                    let inside = seen.push(Event::Stage(stage));
                    lemma_left_does_the_same(w, p, ct, effects, vars, inside, body);
                    let o = crate::meaning::open_run::open_run(w, p, vars, inside, body);
                    if let Some(next) = next {
                        assert(p.stmt(s).has_part(next));
                        lemma_left_does_the_same(w, p, ct, effects, vars, o.seen, next);
                    }
                },
                _ => {},
            }
        },
    }
}

/// Functions keep their names.
proof fn lemma_names(p: CoreModel, ct: CtPropagationTables, effects: Seq<SortedEffectRow>)
    ensures
        forall|f: FuncId| #[trigger]
            crate::meaning::core_values::name_of(
                crate::passes::residualize::residual_program(p, ct, effects),
                f,
            ) == crate::meaning::core_values::name_of(p, f),
        crate::passes::residualize::residual_program(p, ct, effects).exprs
            == crate::passes::residualize::embedded(p, ct).exprs,
{
}

/// Putting in what is known changes nothing about which code is reached.
proof fn lemma_reached_same(p: CoreModel, ct: CtPropagationTables)
    ensures
        forall|s: usize|
            crate::passes::residualize::code_reached(p, s)
                ==> #[trigger] crate::passes::residualize::code_reached(
                crate::passes::residualize::embedded(p, ct),
                s,
            ),
{
    let e = crate::passes::residualize::embedded(p, ct);
    let edge = crate::passes::function_graph::stmt_edge(e);
    let roots = crate::passes::residualize::code_roots(e);
    assert forall|s: usize|
        crate::passes::residualize::code_reached(
            p,
            s,
        ) implies #[trigger] crate::passes::residualize::code_reached(e, s) by {
        let path = choose|path: Seq<usize>|
            crate::common::reach::leads(
                crate::passes::function_graph::stmt_edge(p),
                crate::passes::residualize::code_roots(p),
                s,
                path,
            );
        let root = path[0];
        assert(roots.contains(root)) by {
            if exists|f: FuncId| #![trigger p.function(f)]
                p.has_function(f) && p.function(f).body.0 == root {
                let f = choose|f: FuncId| #![trigger p.function(f)]
                    p.has_function(f) && p.function(f).body.0 == root;
                assert(e.has_function(f) && e.function(f).body.0 == root);
            } else if exists|h: HandlerId| #![trigger p.handler(h)]
                p.has_handler(h) && p.handler(h).return_body.0 == root {
                let h = choose|h: HandlerId| #![trigger p.handler(h)]
                    p.has_handler(h) && p.handler(h).return_body.0 == root;
                assert(e.has_handler(h) && e.handler(h).return_body.0 == root);
            } else {
                let (h, i) = choose|h: HandlerId, i: int| #![trigger p.handler(h).clauses[i]]
                    p.has_handler(h) && 0 <= i < p.handler(h).clauses.len() && p.handler(
                        h,
                    ).clauses[i].body.0 == root;
                assert(e.has_handler(h) && e.handler(h).clauses[i].body.0 == root);
            }
        }
        assert(crate::common::reach::leads(edge, roots, s, path));
    }
}

/// A statement that is left has what is left of its parts in their places.
proof fn lemma_left_stmt(
    p: CoreModel,
    ct: CtPropagationTables,
    effects: Seq<SortedEffectRow>,
    s: StmtId,
)
    requires
        p.has_stmt(s),
        crate::passes::residualize::code_reached(
            crate::passes::residualize::embedded(p, ct),
            s.0,
        ),
        crate::passes::residualize::live_child(
            crate::passes::residualize::embedded(p, ct),
            ct,
            p.stmt(s),
        ) is None,
    ensures
        ({
            let q = crate::passes::residualize::residual_program(p, ct, effects);
            let e = crate::passes::residualize::embedded(p, ct);
            let to = crate::passes::residualize::relinked(e, ct, p.stmt(s));
            &&& q.has_stmt(s)
            &&& match to {
                StmtModel::Call { result, callee, args, next, .. } => {
                    &&& q.stmt(s) matches StmtModel::Call {
                        result: r2,
                        callee: c2,
                        args: a2,
                        next: n2,
                        ..
                    }
                    &&& r2 == result
                    &&& c2 == callee
                    &&& a2 == args
                    &&& n2 == next
                },
                _ => q.stmt(s) == to,
            }
        }),
{
    assert(s.0 as int as usize == s.0);
}

/// Every function of what is left does what it did.
pub proof fn lemma_function_left(
    w: World,
    p: CoreModel,
    ct: CtPropagationTables,
    effects: Seq<SortedEffectRow>,
    vars: Map<usize, Value>,
    seen: Seq<Event>,
    f: FuncId,
)
    requires
        p.acyclic(),
        p.closed(),
        p.exprs.len() <= usize::MAX,
        p.stmts.len() <= usize::MAX,
        p.has_function(f),
        tables_right(w.arithmetic, p, ct),
        chosen_takes_nothing(p),
    ensures
        ({
            let q = crate::passes::residualize::residual_program(p, ct, effects);
            &&& q.functions.len() == p.functions.len()
            &&& q.function(f).name == p.function(f).name
            &&& q.function(f).params == p.function(f).params
            &&& crate::meaning::open_run::open_run(w, q, vars, seen, q.function(f).body)
                == crate::meaning::open_run::open_run(w, p, vars, seen, p.function(f).body)
        }),
{
    let s = p.function(f).body;
    crate::common::reach::lemma_reaches_root(
        crate::passes::function_graph::stmt_edge(p),
        crate::passes::residualize::code_roots(p),
        s.0,
    );
    lemma_left_does_the_same(w, p, ct, effects, vars, seen, s);
}

/// So does every clause of every handler, and what a handler does with what is
/// returned.
pub proof fn lemma_handler_left(
    w: World,
    p: CoreModel,
    ct: CtPropagationTables,
    effects: Seq<SortedEffectRow>,
    vars: Map<usize, Value>,
    seen: Seq<Event>,
    h: HandlerId,
    i: int,
)
    requires
        p.acyclic(),
        p.closed(),
        p.exprs.len() <= usize::MAX,
        p.stmts.len() <= usize::MAX,
        p.has_handler(h),
        0 <= i < p.handler(h).clauses.len(),
        tables_right(w.arithmetic, p, ct),
        chosen_takes_nothing(p),
    ensures
        ({
            let q = crate::passes::residualize::residual_program(p, ct, effects);
            let a = p.handler(h);
            let b = q.handler(h);
            &&& b.effect == a.effect
            &&& b.return_param == a.return_param
            &&& b.clauses.len() == a.clauses.len()
            &&& b.clauses[i].operation == a.clauses[i].operation
            &&& b.clauses[i].params == a.clauses[i].params
            &&& b.clauses[i].resume_param == a.clauses[i].resume_param
            &&& crate::meaning::open_run::open_run(w, q, vars, seen, b.clauses[i].body)
                == crate::meaning::open_run::open_run(w, p, vars, seen, a.clauses[i].body)
            &&& crate::meaning::open_run::open_run(w, q, vars, seen, b.return_body)
                == crate::meaning::open_run::open_run(w, p, vars, seen, a.return_body)
        }),
{
    let a = p.handler(h);
    assert(p.handler(h).clauses[i].body.0 == a.clauses[i].body.0);
    let edge = crate::passes::function_graph::stmt_edge(p);
    let roots = crate::passes::residualize::code_roots(p);
    crate::common::reach::lemma_reaches_root(edge, roots, a.clauses[i].body.0);
    crate::common::reach::lemma_reaches_root(edge, roots, a.return_body.0);
    lemma_left_does_the_same(w, p, ct, effects, vars, seen, a.clauses[i].body);
    lemma_left_does_the_same(w, p, ct, effects, vars, seen, a.return_body);
}

} // verus!
