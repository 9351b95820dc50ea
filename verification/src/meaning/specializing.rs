//! Copies do what they are copies of, and programs do the same once functions
//! are left out.
use crate::common::ids::{ExprId, FuncId, HandlerId, StmtId};
use crate::ir::core_ir::{CoreModel, ExprModel, StmtModel};
use crate::meaning::mirror::Pairs;
use crate::meaning::values::Value;
use crate::meaning::worlds::{Event, Outcome, World};
use crate::passes::handler_specialize::candidates::CandidateModel;
use crate::passes::handler_specialize::cloner::CloneModel;
use crate::passes::handler_specialize::rewrite::RewriteModel;
use crate::passes::handler_specialize::specialize::SpecialModel;
use vstd::prelude::*;

verus! {

/// Nodes and their copies.
spec fn copied(c: CloneModel) -> Pairs {
    Pairs {
        exprs: |a: ExprId, b: ExprId| c.expr_map.contains_key(a.0) && b == c.expr_map[a.0],
        stmts: |a: StmtId, b: StmtId| c.stmt_map.contains_key(a.0) && b == c.stmt_map[a.0],
    }
}

proof fn lemma_copied_mirror(c: CloneModel, p: CoreModel)
    requires
        c.copies(p),
        crate::meaning::core_values::name_of(p, c.from) == crate::meaning::core_values::name_of(
            p,
            c.to,
        ),
    ensures
        copied(c).mirror(p, c.program),
{
    let pairs = copied(c);
    let q = c.program;
    assert(forall|f: FuncId| #[trigger]
        crate::meaning::core_values::name_of(q, f) == crate::meaning::core_values::name_of(p, f));
    assert forall|a: ExprId, b: ExprId| #[trigger] pairs.expr(a, b) implies pairs.expr_mirrors(
        p,
        q,
        a,
        b,
    ) by {
        let i = c.expr_to(a).0 - p.exprs.len();
        assert(ExprId(a.0) == a);
        assert(c.expr_copied(p, i));
        match p.expr(a) {
            ExprModel::Unary { expr, .. } => {
                assert(p.expr(a).has_part(expr));
            },
            ExprModel::Binary { lhs, rhs, .. } => {
                assert(p.expr(a).has_part(lhs));
                assert(p.expr(a).has_part(rhs));
            },
            ExprModel::PureCall { callee, args } => {
                assert(crate::meaning::core_values::name_of(q, c.callee(callee))
                    == crate::meaning::core_values::name_of(p, c.callee(callee)));
                assert forall|k: int| 0 <= k < args.len() implies #[trigger] pairs.expr(
                    args[k],
                    c.list_to(args)[k],
                ) by {
                    assert(p.expr(a).has_part(args[k]));
                }
            },
            ExprModel::MakeStruct { fields, .. } => {
                assert forall|k: int| 0 <= k < fields.len() implies #[trigger] pairs.expr(
                    fields[k],
                    c.list_to(fields)[k],
                ) by {
                    assert(p.expr(a).has_part(fields[k]));
                }
            },
            ExprModel::MakeEnum { fields, .. } => {
                assert forall|k: int| 0 <= k < fields.len() implies #[trigger] pairs.expr(
                    fields[k],
                    c.list_to(fields)[k],
                ) by {
                    assert(p.expr(a).has_part(fields[k]));
                }
            },
            _ => {},
        }
    }
    assert forall|a: StmtId, b: StmtId| #[trigger] pairs.stmt(a, b) implies pairs.stmt_mirrors(
        p,
        q,
        a,
        b,
    ) by {
        lemma_copied_stmt(c, p, a, b);
    }
}

proof fn lemma_copied_stmt(c: CloneModel, p: CoreModel, a: StmtId, b: StmtId)
    requires
        c.copies(p),
        crate::meaning::core_values::name_of(p, c.from) == crate::meaning::core_values::name_of(
            p,
            c.to,
        ),
        copied(c).stmt(a, b),
    ensures
        copied(c).stmt_mirrors(p, c.program, a, b),
{
    let pairs = copied(c);
    let q = c.program;
    let i = c.stmt_to(a).0 - p.stmts.len();
    assert(StmtId(a.0) == a);
    assert(c.stmt_copied(p, i));
    let s = p.stmt(a);
    assert(forall|f: FuncId| #[trigger]
        crate::meaning::core_values::name_of(q, f) == crate::meaning::core_values::name_of(p, f));
    assert forall|part: StmtId| #[trigger] s.has_part(part) implies pairs.stmt(
        part,
        c.stmt_to(part),
    ) by {}
    assert forall|part: ExprId| #[trigger] s.has_expr(part) implies pairs.expr(
        part,
        c.expr_to(part),
    ) by {}
    match s {
        StmtModel::Return(e) => {
            assert(s.has_expr(e));
        },
        StmtModel::Let { value, next, .. } => {
            assert(s.has_expr(value));
            assert(s.has_part(next));
        },
        StmtModel::Val { value, next, .. } => {
            assert(s.has_part(value));
            assert(s.has_part(next));
        },
        StmtModel::Call { callee, args, next, .. } => {
            assert(s.has_part(next));
            assert(crate::meaning::core_values::name_of(q, c.callee(callee))
                == crate::meaning::core_values::name_of(p, c.callee(callee)));
            assert forall|k: int| 0 <= k < args.len() implies #[trigger] pairs.expr(
                args[k],
                c.list_to(args)[k],
            ) by {
                assert(s.has_expr(args[k]));
            }
        },
        StmtModel::If { cond, then_branch, else_branch } => {
            assert(s.has_expr(cond));
            assert(s.has_part(then_branch));
            assert(s.has_part(else_branch));
        },
        StmtModel::Match { scrutinee, arms, default } => {
            assert(s.has_expr(scrutinee));
            assert forall|k: int| 0 <= k < arms.len() implies s.has_part(
                (#[trigger] arms[k]).body,
            ) by {
                crate::ir::core_ir::lemma_arm_is_part(s, k);
            }
            if let Some(part) = default {
                assert(s.has_part(part));
            }
        },
        StmtModel::Perform { args, next, .. } => {
            assert(s.has_part(next));
            assert forall|k: int| 0 <= k < args.len() implies #[trigger] pairs.expr(
                args[k],
                c.list_to(args)[k],
            ) by {
                assert(s.has_expr(args[k]));
            }
        },
        StmtModel::Resume { arg, next, .. } => {
            assert(s.has_expr(arg));
            assert(s.has_part(next));
        },
        StmtModel::Handle { body, next, .. } => {
            assert(s.has_part(body));
            if let Some(part) = next {
                assert(s.has_part(part));
            }
        },
        StmtModel::Stage { body, next, .. } => {
            assert(s.has_part(body));
            if let Some(part) = next {
                assert(s.has_part(part));
            }
        },
        _ => {},
    }
}

/// A copy of code does what the code does: calls that go to the copy of a
/// function go to one of the same name.
pub proof fn lemma_copy_does_the_same(
    w: World,
    c: CloneModel,
    p: CoreModel,
    vars: Map<usize, Value>,
    seen: Seq<Event>,
    s: StmtId,
)
    requires
        c.copies(p),
        p.acyclic(),
        p.closed(),
        crate::meaning::core_values::name_of(p, c.from) == crate::meaning::core_values::name_of(
            p,
            c.to,
        ),
        c.stmt_map.contains_key(s.0),
    ensures
        crate::meaning::open_run::open_run(w, p, vars, seen, s)
            == crate::meaning::open_run::open_run(w, c.program, vars, seen, c.stmt_to(s)),
{
    lemma_copied_mirror(c, p);
    crate::passes::handler_specialize::cloner::lemma_copies_sound(c, p);
    crate::meaning::mirror::lemma_mirrored_does_the_same(
        w,
        p,
        c.program,
        copied(c),
        vars,
        seen,
        s,
        c.stmt_to(s),
    );
}

/// Every node of a program with itself.
spec fn itself(p: CoreModel) -> Pairs {
    Pairs {
        exprs: |a: ExprId, b: ExprId| p.has_expr(a) && a == b,
        stmts: |a: StmtId, b: StmtId| p.has_stmt(a) && a == b,
    }
}

/// Code does the same in a program that has all nodes of another, its handlers,
/// and functions of the same names.
proof fn lemma_in_more(
    w: World,
    p: CoreModel,
    q: CoreModel,
    vars: Map<usize, Value>,
    seen: Seq<Event>,
    s: StmtId,
)
    requires
        p.acyclic(),
        q.acyclic(),
        p.closed(),
        p.has_stmt(s),
        q.exprs == p.exprs,
        q.stmts.len() >= p.stmts.len(),
        forall|i: int| 0 <= i < p.stmts.len() ==> #[trigger] q.stmts[i] == p.stmts[i],
        q.handlers == p.handlers,
        forall|f: FuncId| #[trigger]
            crate::meaning::core_values::name_of(q, f) == crate::meaning::core_values::name_of(
                p,
                f,
            ),
    ensures
        crate::meaning::open_run::open_run(w, p, vars, seen, s)
            == crate::meaning::open_run::open_run(w, q, vars, seen, s),
{
    let pairs = itself(p);
    assert forall|a: ExprId, b: ExprId| #[trigger] pairs.expr(a, b) implies pairs.expr_mirrors(
        p,
        q,
        a,
        b,
    ) by {
        if let ExprModel::PureCall { callee, .. } = p.expr(a) {
            assert(crate::meaning::core_values::name_of(q, callee)
                == crate::meaning::core_values::name_of(p, callee));
        }
        lemma_paired_expr(p, q, pairs, a);
    }
    assert forall|a: StmtId, b: StmtId| #[trigger] pairs.stmt(a, b) implies pairs.stmt_mirrors(
        p,
        q,
        a,
        b,
    ) by {
        assert(q.stmts[a.0 as int] == p.stmts[a.0 as int]);
        if let StmtModel::Call { callee, .. } = p.stmt(a) {
            assert(crate::meaning::core_values::name_of(q, callee)
                == crate::meaning::core_values::name_of(p, callee));
        }
        lemma_paired_stmt(p, q, pairs, a);
    }
    crate::meaning::mirror::lemma_mirrored_does_the_same(w, p, q, pairs, vars, seen, s, s);
}

/// A function that is made for a handler does what the function that it is made
/// from does, with the handler installed round it.
pub proof fn lemma_made_for_handler(
    w: World,
    a: SpecialModel,
    c: CandidateModel,
    b: SpecialModel,
    clone: CloneModel,
    vars: Map<usize, Value>,
    seen: Seq<Event>,
)
    requires
        a.program.acyclic(),
        a.program.closed(),
        a.program.has_function(c.callee),
        a.program.functions.len() <= usize::MAX,
        clone.program.stmts.len() <= usize::MAX,
        b.program.acyclic(),
        crate::passes::handler_specialize::specialize::creation(a, c, b, clone),
    ensures
        ({
            let id = FuncId(a.program.functions.len() as usize);
            let old = a.program.function(c.callee);
            let made = b.program.function(id);
            let p = crate::passes::handler_specialize::specialize::with_placeholder(
                a.program,
                c.callee,
            );
            let effect = crate::meaning::open_run::effect_of(a.program, c.handler);
            let operations = crate::meaning::open_run::clauses_of(a.program, c.handler);
            let o = crate::meaning::open_run::open_run(
                w,
                p,
                vars,
                seen.push(Event::Install { effect, operations }),
                old.body,
            );
            &&& b.program.has_function(id)
            &&& made.name == old.name
            &&& made.params == old.params
            &&& crate::meaning::open_run::open_run(w, b.program, vars, seen, made.body) == (
            Outcome { value: o.value, seen: o.seen.push(Event::Remove { effect, operations }) })
        }),
{
    let id = FuncId(a.program.functions.len() as usize);
    let old = a.program.function(c.callee);
    let p = crate::passes::handler_specialize::specialize::with_placeholder(a.program, c.callee);
    let q = clone.program;
    let made = b.program.function(id);
    assert(p.functions[id.0 as int] == old);
    assert(p.function(c.callee) == old);
    assert(p.closed()) by {
        assert(p.functions_closed()) by {
            assert forall|f: FuncId| #![trigger p.function(f)]
                p.has_function(f) implies p.has_stmt(p.function(f).body) by {
                if f.0 < a.program.functions.len() {
                    assert(p.function(f) == a.program.function(f));
                } else {
                    assert(p.function(f) == a.program.function(c.callee));
                }
            }
        }
        assert(p.handlers_closed()) by {
            assert forall|h: HandlerId| #![trigger p.handler(h)]
                p.has_handler(h) implies p.has_stmt(p.handler(h).return_body) by {
                assert(p.handler(h) == a.program.handler(h));
            }
            assert forall|h: HandlerId, i: int| #![trigger p.handler(h).clauses[i]]
                p.has_handler(h) && 0 <= i < p.handler(h).clauses.len() implies p.has_stmt(
                p.handler(h).clauses[i].body,
            ) by {
                assert(a.program.handler(h).clauses[i] == p.handler(h).clauses[i]);
            }
        }
        assert(p.exprs_closed()) by {
            assert forall|e: ExprId, part: ExprId| #![trigger p.expr(e).has_part(part)]
                p.has_expr(e) && p.expr(e).has_part(part) implies p.has_expr(part) by {
                assert(a.program.expr(e).has_part(part));
            }
        }
        assert(p.stmts_closed()) by {
            assert forall|s: StmtId, part: StmtId| #![trigger p.stmt(s).has_part(part)]
                p.has_stmt(s) && p.stmt(s).has_part(part) implies p.has_stmt(part) by {
                assert(a.program.stmt(s).has_part(part));
            }
            assert forall|s: StmtId, part: ExprId| #![trigger p.stmt(s).has_expr(part)]
                p.has_stmt(s) && p.stmt(s).has_expr(part) implies p.has_expr(part) by {
                assert(a.program.stmt(s).has_expr(part));
            }
        }
    }
    assert(p.acyclic()) by {
        let er = choose|rank: spec_fn(ExprId) -> nat| #[trigger] a.program.expr_ranking(rank);
        let sr = choose|rank: spec_fn(StmtId) -> nat| #[trigger] a.program.stmt_ranking(rank);
        assert(p.expr_ranking(er)) by {
            assert forall|e: ExprId, part: ExprId| #![trigger p.expr(e).has_part(part)]
                p.has_expr(e) && p.expr(e).has_part(part) implies er(part) < er(e) by {
                assert(a.program.expr(e).has_part(part));
            }
        }
        assert(p.stmt_ranking(sr)) by {
            assert forall|s: StmtId, part: StmtId| #![trigger p.stmt(s).has_part(part)]
                p.has_stmt(s) && p.stmt(s).has_part(part) implies sr(part) < sr(s) by {
                assert(a.program.stmt(s).has_part(part));
            }
        }
    }
    crate::passes::handler_specialize::cloner::lemma_copies_sound(clone, p);
    let effect = crate::meaning::open_run::effect_of(a.program, c.handler);
    let operations = crate::meaning::open_run::clauses_of(a.program, c.handler);
    let inside = seen.push(Event::Install { effect, operations });
    let body = clone.stmt_to(old.body);
    lemma_copy_does_the_same(w, clone, p, vars, inside, old.body);
    assert forall|f: FuncId| #[trigger] crate::meaning::core_values::name_of(b.program, f)
        == crate::meaning::core_values::name_of(q, f) by {
        if f.0 < a.program.functions.len() {
            assert(b.program.functions[f.0 as int] == a.program.functions[f.0 as int]);
            assert(q.functions[f.0 as int] == a.program.functions[f.0 as int]);
        }
    }
    assert(StmtId(old.body.0) == old.body);
    lemma_in_more(w, q, b.program, vars, inside, body);
    assert(b.program.stmt(made.body) == (StmtModel::Handle {
        handler: c.handler,
        body,
        next: None,
    }));
    assert(crate::meaning::open_run::clauses_of(b.program, c.handler) =~= operations);
}

/// Statements and what they are rewritten to.
spec fn rewritten_pairs(
    r: RewriteModel,
    p: CoreModel,
    handle: StmtId,
    body: StmtId,
    f: FuncId,
) -> Pairs {
    Pairs {
        exprs: itself(p).exprs,
        stmts: |x: StmtId, y: StmtId|
            {
                &&& p.has_stmt(x)
                &&& p.stmt_rank(x) < p.stmt_rank(handle)
                &&& {
                    ||| x == y
                    ||| crate::passes::handler_specialize::wrapper::wraps(p, x, f) && {
                        ||| r.map.contains_key(x.0) && y == r.map[x.0]
                        ||| x == body && y == handle
                    }
                }
            },
    }
}

proof fn lemma_arm_wraps(p: CoreModel, s: StmtId, first: nat, f: FuncId, i: int)
    requires
        p.acyclic(),
        p.has_stmt(s),
        p.stmt(s) is Match,
        first <= p.stmt(s)->arms.len(),
        0 <= i < first,
        crate::passes::handler_specialize::wrapper::arms_wrap(p, s, first, f),
    ensures
        crate::passes::handler_specialize::wrapper::wraps(p, p.stmt(s)->arms[i].body, f),
    decreases first,
{
    if i < first - 1 {
        lemma_arm_wraps(p, s, (first - 1) as nat, f, i);
    }
}

/// Where a call of the function that was made for a handler takes the place of
/// the handler, the code does what the handled code did: the call is one by the
/// same name.
#[verifier::spinoff_prover]
#[verifier::rlimit(60)]
pub proof fn lemma_call_in_place(
    w: World,
    a: SpecialModel,
    c: CandidateModel,
    id: FuncId,
    b: SpecialModel,
    r: RewriteModel,
    vars: Map<usize, Value>,
    seen: Seq<Event>,
)
    requires
        a.program.acyclic(),
        a.program.closed(),
        a.awaits(c),
        crate::passes::handler_specialize::wrapper::wraps(a.program, c.body_stmt, c.callee),
        crate::meaning::core_values::name_of(a.program, c.callee)
            == crate::meaning::core_values::name_of(a.program, id),
        crate::passes::handler_specialize::specialize::replacement(a, c, id, b, r),
    ensures
        crate::meaning::open_run::open_run(w, b.program, vars, seen, c.handle_stmt)
            == crate::meaning::open_run::open_run(w, a.program, vars, seen, c.body_stmt),
{
    let p = a.program;
    let q = b.program;
    let handle = c.handle_stmt;
    let body = c.body_stmt;
    let f = c.callee;
    let pairs = rewritten_pairs(r, p, handle, body, f);
    crate::passes::handler_specialize::rewrite::lemma_wrapper_rewritable(p, body, f);
    assert(p.stmt(handle).has_part(body));
    crate::ir::core_ir::lemma_stmt_rank(p, handle, body);
    crate::passes::handler_specialize::rewrite::lemma_replaced_sound(r, p, handle, body, q);
    assert forall|g: FuncId| #[trigger] crate::meaning::core_values::name_of(q, g)
        == crate::meaning::core_values::name_of(p, g) by {}
    assert forall|x: ExprId, y: ExprId| #[trigger] pairs.expr(x, y) implies pairs.expr_mirrors(
        p,
        q,
        x,
        y,
    ) by {
        if let ExprModel::PureCall { callee, .. } = p.expr(x) {
            assert(crate::meaning::core_values::name_of(q, callee)
                == crate::meaning::core_values::name_of(p, callee));
        }
        lemma_paired_expr(p, q, pairs, x);
    }
    assert forall|x: StmtId, y: StmtId| #[trigger] pairs.stmt(x, y) implies pairs.stmt_mirrors(
        p,
        q,
        x,
        y,
    ) by {
        assert forall|part: StmtId| #[trigger] p.stmt(x).has_part(part) implies pairs.stmt(
            part,
            part,
        ) by {
            crate::ir::core_ir::lemma_stmt_rank(p, x, part);
        }
        if x == y {
            assert(q.stmts[x.0 as int] == p.stmts[x.0 as int]);
            if let StmtModel::Call { callee, .. } = p.stmt(x) {
                assert(crate::meaning::core_values::name_of(q, callee)
                    == crate::meaning::core_values::name_of(p, callee));
            }
            lemma_paired_stmt(p, q, pairs, x);
        } else {
            if r.map.contains_key(x.0) && y == r.map[x.0] {
                let i = r.to(x).0 - p.stmts.len();
                assert(StmtId(x.0) == x);
                assert(r.stmt_rewritten(p, i));
                assert(q.stmt(y) == r.rewritten(p.stmt(x)));
            } else {
                assert(q.stmt(y) == r.rewritten(p.stmt(x)));
            }
            lemma_rewritten_mirrors(r, p, q, handle, body, f, x, y);
        }
    }
    assert(pairs.stmt(body, handle));
    crate::meaning::mirror::lemma_mirrored_does_the_same(
        w,
        p,
        q,
        pairs,
        vars,
        seen,
        body,
        handle,
    );
}

proof fn lemma_rewritten_mirrors(
    r: RewriteModel,
    p: CoreModel,
    q: CoreModel,
    handle: StmtId,
    body: StmtId,
    f: FuncId,
    x: StmtId,
    y: StmtId,
)
    requires
        p.acyclic(),
        p.closed(),
        p.has_stmt(x),
        q.has_stmt(y),
        q.stmt(y) == r.rewritten(p.stmt(x)),
        crate::passes::handler_specialize::wrapper::wraps(p, x, f),
        forall|part: StmtId| #[trigger]
            crate::passes::handler_specialize::rewrite::on_the_way(p.stmt(x), part)
                ==> r.map.contains_key(part.0),
        p.stmt_rank(x) < p.stmt_rank(handle),
        crate::meaning::core_values::name_of(p, f) == crate::meaning::core_values::name_of(
            q,
            r.callee,
        ),
    ensures
        rewritten_pairs(r, p, handle, body, f).stmt_mirrors(p, q, x, y),
{
    let pairs = rewritten_pairs(r, p, handle, body, f);
    let s = p.stmt(x);
    assert forall|part: StmtId| #[trigger] s.has_part(part) implies pairs.stmt(part, part)
        && p.stmt_rank(part) < p.stmt_rank(handle) && p.has_stmt(part) by {
        crate::ir::core_ir::lemma_stmt_rank(p, x, part);
    }
    assert forall|part: ExprId| #[trigger] s.has_expr(part) implies pairs.expr(part, part) by {
        assert(p.stmt(x).has_expr(part));
    }
    crate::passes::linearize::analysis::lemma_stmt_ranks(p, x);
    match s {
        StmtModel::Let { value, next, .. } => {
            assert(s.has_expr(value));
            assert(s.has_part(next));
            assert(crate::passes::handler_specialize::rewrite::on_the_way(s, next));
        },
        StmtModel::Val { value, next, .. } => {
            assert(s.has_part(value));
            assert(s.has_part(next));
            assert(crate::passes::handler_specialize::rewrite::on_the_way(s, value));
        },
        StmtModel::Call { args, next, .. } => {
            assert(s.has_part(next));
            assert forall|k: int| 0 <= k < args.len() implies #[trigger] pairs.expr(
                args[k],
                args[k],
            ) by {
                assert(s.has_expr(args[k]));
            }
        },
        StmtModel::If { cond, then_branch, else_branch } => {
            assert(s.has_expr(cond));
            assert(s.has_part(then_branch));
            assert(s.has_part(else_branch));
            assert(crate::passes::handler_specialize::rewrite::on_the_way(s, then_branch));
            assert(crate::passes::handler_specialize::rewrite::on_the_way(s, else_branch));
        },
        StmtModel::Match { scrutinee, arms, default } => {
            assert(s.has_expr(scrutinee));
            assert forall|k: int| 0 <= k < arms.len() implies pairs.stmt(
                (#[trigger] arms[k]).body,
                r.map[arms[k].body.0],
            ) by {
                crate::ir::core_ir::lemma_arm_is_part(s, k);
                assert(crate::passes::handler_specialize::rewrite::on_the_way(s, arms[k].body));
                lemma_arm_wraps(p, x, arms.len(), f, k);
            }
            if let Some(part) = default {
                assert(s.has_part(part));
                assert(crate::passes::handler_specialize::rewrite::on_the_way(s, part));
            }
        },
        StmtModel::Stage { body, next, .. } => {
            assert(s.has_part(body));
            assert(crate::passes::handler_specialize::rewrite::on_the_way(s, body));
            if let Some(part) = next {
                assert(s.has_part(part));
                assert(crate::passes::handler_specialize::rewrite::on_the_way(s, part));
            }
        },
        _ => {},
    }
}

/// What a function reaches, with itself.
spec fn reached_pairs(p: CoreModel, root: StmtId) -> Pairs {
    Pairs {
        exprs: |a: ExprId, b: ExprId|
            a == b && p.has_expr(a) && crate::passes::function_graph::expr_reached(p, root, a.0),
        stmts: |a: StmtId, b: StmtId|
            a == b && p.has_stmt(a) && crate::passes::function_graph::stmt_reached(p, root, a.0),
    }
}

/// A function that is called keeps its name where others are left out.
proof fn lemma_kept_name(p: CoreModel, q: CoreModel, f: FuncId, g: FuncId)
    requires
        crate::passes::function_graph::is_pruned(p, q),
        p.functions.len() <= usize::MAX,
        p.has_function(f),
        crate::passes::function_graph::function_reached(p, f.0),
        crate::passes::function_graph::code_calls(p, p.function(f).body, g),
    ensures
        crate::meaning::core_values::name_of(
            q,
            crate::passes::function_graph::renamed(
                crate::passes::function_graph::kept_map(p),
                g,
            ),
        ) == crate::meaning::core_values::name_of(p, g),
{
    assert(FuncId(f.0) == f && FuncId(g.0) == g);
    crate::common::reach::lemma_reaches_step(
        crate::passes::function_graph::call_edge(p),
        crate::passes::function_graph::entry_set(p),
        f.0,
        g.0,
    );
    crate::passes::function_graph::lemma_kept_before(p, 0, p.functions.len());
    if p.has_function(g) {
        assert(crate::passes::function_graph::kept_map(p)[g.0 as int] == Some(
            FuncId(crate::passes::function_graph::kept_before(p, g.0 as nat) as usize),
        ));
        crate::passes::function_graph::lemma_kept_before(p, g.0 as nat, p.functions.len());
        assert(q.functions[crate::passes::function_graph::kept_before(p, g.0 as nat) as int]
            == p.functions[g.0 as int]);
    }
}

/// A function that a program can come to call does the same where those that it
/// cannot come to call are left out.
#[verifier::spinoff_prover]
#[verifier::rlimit(60)]
pub proof fn lemma_kept_does_the_same(
    w: World,
    p: CoreModel,
    q: CoreModel,
    f: FuncId,
    vars: Map<usize, Value>,
    seen: Seq<Event>,
)
    requires
        crate::passes::function_graph::is_pruned(p, q),
        p.acyclic(),
        p.closed(),
        p.functions.len() <= usize::MAX,
        p.has_function(f),
        crate::passes::function_graph::function_reached(p, f.0),
    ensures
        ({
            let g = crate::passes::function_graph::renamed(
                crate::passes::function_graph::kept_map(p),
                f,
            );
            &&& q.has_function(g)
            &&& q.function(g).name == p.function(f).name
            &&& q.function(g).params == p.function(f).params
            &&& crate::meaning::open_run::open_run(w, q, vars, seen, q.function(g).body)
                == crate::meaning::open_run::open_run(w, p, vars, seen, p.function(f).body)
        }),
{
    let remap = crate::passes::function_graph::kept_map(p);
    let body = p.function(f).body;
    let g = crate::passes::function_graph::renamed(remap, f);
    crate::passes::function_graph::lemma_pruned_sound(p, q);
    crate::passes::function_graph::lemma_kept_before(p, 0, p.functions.len());
    crate::passes::function_graph::lemma_kept_before(p, f.0 as nat, p.functions.len());
    assert(remap[f.0 as int] == Some(
        FuncId(crate::passes::function_graph::kept_before(p, f.0 as nat) as usize),
    ));
    assert(q.functions[crate::passes::function_graph::kept_before(p, f.0 as nat) as int]
        == p.functions[f.0 as int]);
    let pairs = reached_pairs(p, body);
    let edge = crate::passes::function_graph::stmt_edge(p);
    crate::common::reach::lemma_reaches_root(edge, set![body.0], body.0);
    assert forall|a: ExprId, b: ExprId| #[trigger] pairs.expr(a, b) implies pairs.expr_mirrors(
        p,
        q,
        a,
        b,
    ) by {
        assert(ExprId(a.0) == a);
        assert forall|part: ExprId| #[trigger] p.expr(a).has_part(part) implies pairs.expr(
            part,
            part,
        ) by {
            assert(ExprId(part.0) == part);
            crate::common::reach::lemma_reaches_step(
                crate::passes::function_graph::expr_edge(p),
                crate::passes::function_graph::roots_of(p, body),
                a.0,
                part.0,
            );
        }
        assert(q.expr(a) == crate::passes::function_graph::renamed_expr(remap, p.expr(a)));
        if let ExprModel::PureCall { callee, .. } = p.expr(a) {
            assert(crate::passes::function_graph::expr_is_call(p, a.0, callee));
            lemma_kept_name(p, q, f, callee);
        }
        lemma_paired_expr(p, q, pairs, a);
    }
    assert forall|a: StmtId, b: StmtId| #[trigger] pairs.stmt(a, b) implies pairs.stmt_mirrors(
        p,
        q,
        a,
        b,
    ) by {
        assert(StmtId(a.0) == a);
        assert forall|part: StmtId| #[trigger] p.stmt(a).has_part(part) implies pairs.stmt(
            part,
            part,
        ) by {
            assert(StmtId(part.0) == part);
            crate::common::reach::lemma_reaches_step(edge, set![body.0], a.0, part.0);
        }
        assert forall|part: ExprId| #[trigger] p.stmt(a).has_expr(part) implies pairs.expr(
            part,
            part,
        ) by {
            assert(ExprId(part.0) == part);
            assert(crate::passes::function_graph::stmt_reached(p, body, a.0));
            crate::common::reach::lemma_reaches_root(
                crate::passes::function_graph::expr_edge(p),
                crate::passes::function_graph::roots_of(p, body),
                part.0,
            );
        }
        assert(q.stmt(a) == crate::passes::function_graph::renamed_stmt(remap, p.stmt(a)));
        if let StmtModel::Call { callee, .. } = p.stmt(a) {
            assert(crate::passes::function_graph::stmt_is_call(p, a.0, callee));
            lemma_kept_name(p, q, f, callee);
        }
        lemma_paired_stmt(p, q, pairs, a);
    }
    assert(pairs.stmt(body, body));
    crate::meaning::mirror::lemma_mirrored_does_the_same(w, p, q, pairs, vars, seen, body, body);
}

/// An expression mirrors itself, but for the callee, where its parts are paired
/// with themselves.
proof fn lemma_paired_expr(p: CoreModel, q: CoreModel, pairs: Pairs, a: ExprId)
    requires
        p.has_expr(a),
        q.has_expr(a),
        forall|part: ExprId| #[trigger] p.expr(a).has_part(part) ==> pairs.expr(part, part),
        match p.expr(a) {
            ExprModel::PureCall { callee, args } => {
                &&& q.expr(a) matches ExprModel::PureCall { callee: c2, args: a2 }
                &&& a2 == args
                &&& crate::meaning::core_values::name_of(q, c2)
                    == crate::meaning::core_values::name_of(p, callee)
            },
            e => q.expr(a) == e,
        },
    ensures
        pairs.expr_mirrors(p, q, a, a),
{
    let e = p.expr(a);
    match e {
        ExprModel::Unary { expr, .. } => {
            assert(p.expr(a).has_part(expr));
        },
        ExprModel::Binary { lhs, rhs, .. } => {
            assert(p.expr(a).has_part(lhs));
            assert(p.expr(a).has_part(rhs));
        },
        ExprModel::PureCall { args, .. } => {
            assert forall|k: int| 0 <= k < args.len() implies #[trigger] pairs.expr(
                args[k],
                args[k],
            ) by {
                assert(p.expr(a).has_part(args[k]));
            }
        },
        ExprModel::MakeStruct { fields, .. } => {
            assert forall|k: int| 0 <= k < fields.len() implies #[trigger] pairs.expr(
                fields[k],
                fields[k],
            ) by {
                assert(p.expr(a).has_part(fields[k]));
            }
        },
        ExprModel::MakeEnum { fields, .. } => {
            assert forall|k: int| 0 <= k < fields.len() implies #[trigger] pairs.expr(
                fields[k],
                fields[k],
            ) by {
                assert(p.expr(a).has_part(fields[k]));
            }
        },
        _ => {},
    }
}

/// A statement mirrors itself, but for the callee, where its parts are paired
/// with themselves.
proof fn lemma_paired_stmt(p: CoreModel, q: CoreModel, pairs: Pairs, a: StmtId)
    requires
        p.has_stmt(a),
        q.has_stmt(a),
        q.handlers == p.handlers,
        forall|part: StmtId| #[trigger] p.stmt(a).has_part(part) ==> pairs.stmt(part, part),
        forall|part: ExprId| #[trigger] p.stmt(a).has_expr(part) ==> pairs.expr(part, part),
        match p.stmt(a) {
            StmtModel::Call { result, callee, args, next, .. } => {
                &&& q.stmt(a) matches StmtModel::Call {
                    result: r2,
                    callee: c2,
                    args: a2,
                    next: n2,
                    ..
                }
                &&& r2 == result
                &&& a2 == args
                &&& n2 == next
                &&& crate::meaning::core_values::name_of(q, c2)
                    == crate::meaning::core_values::name_of(p, callee)
            },
            s => q.stmt(a) == s,
        },
    ensures
        pairs.stmt_mirrors(p, q, a, a),
{
    let s = p.stmt(a);
    match s {
        StmtModel::Return(e) => {
            assert(s.has_expr(e));
        },
        StmtModel::Let { value, next, .. } => {
            assert(s.has_expr(value));
            assert(s.has_part(next));
        },
        StmtModel::Val { value, next, .. } => {
            assert(s.has_part(value));
            assert(s.has_part(next));
        },
        StmtModel::Call { args, next, .. } => {
            assert(s.has_part(next));
            assert forall|k: int| 0 <= k < args.len() implies #[trigger] pairs.expr(
                args[k],
                args[k],
            ) by {
                assert(s.has_expr(args[k]));
            }
        },
        StmtModel::If { cond, then_branch, else_branch } => {
            assert(s.has_expr(cond));
            assert(s.has_part(then_branch));
            assert(s.has_part(else_branch));
        },
        StmtModel::Match { scrutinee, arms, default } => {
            assert(s.has_expr(scrutinee));
            assert forall|k: int| 0 <= k < arms.len() implies s.has_part(
                (#[trigger] arms[k]).body,
            ) by {
                crate::ir::core_ir::lemma_arm_is_part(s, k);
            }
            if let Some(part) = default {
                assert(s.has_part(part));
            }
        },
        StmtModel::Perform { args, next, .. } => {
            assert(s.has_part(next));
            assert forall|k: int| 0 <= k < args.len() implies #[trigger] pairs.expr(
                args[k],
                args[k],
            ) by {
                assert(s.has_expr(args[k]));
            }
        },
        StmtModel::Resume { arg, next, .. } => {
            assert(s.has_expr(arg));
            assert(s.has_part(next));
        },
        StmtModel::Handle { handler, body, next } => {
            assert(s.has_part(body));
            assert(p.handler(handler) == q.handler(handler));
            if let Some(part) = next {
                assert(s.has_part(part));
            }
        },
        StmtModel::Stage { body, next, .. } => {
            assert(s.has_part(body));
            if let Some(part) = next {
                assert(s.has_part(part));
            }
        },
        _ => {},
    }
}

} // verus!
