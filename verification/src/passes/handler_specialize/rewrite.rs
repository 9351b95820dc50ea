//! Copies of wrappers in which the wrapped call goes to another function.
use crate::common::ids::{ExprId, FuncId, StmtId};
use crate::ir::core_ir::{
    copy_vars, CoreModel, CoreProgram, MatchArm, MatchArmModel, StmtKind, StmtModel, StmtNode,
    StmtNodeModel,
};
use crate::passes::handler_specialize::wrapper::is_forwarding_tail_of_var;
use std::collections::HashMap;
use vstd::prelude::*;

verus! {

/// Whether every way through a statement comes to a call, and only hands its
/// result on.
pub open spec fn rewritable(p: CoreModel, s: StmtId) -> bool
    decreases p.stmt_rank(s), 1nat, 0nat,
    when p.acyclic()
{
    proof {
        crate::passes::linearize::analysis::lemma_stmt_ranks(p, s);
    }
    p.has_stmt(s) && match p.stmt(s) {
        StmtModel::Call { .. } => true,
        StmtModel::Let { next, .. } => rewritable(p, next),
        StmtModel::Val { binding, value, next } =>
            crate::passes::handler_specialize::wrapper::forwards(p, next, binding) && rewritable(
            p,
            value,
        ),
        StmtModel::If { then_branch, else_branch, .. } => rewritable(p, then_branch) && rewritable(
            p,
            else_branch,
        ),
        StmtModel::Match { arms, default, .. } => arms_rewritable(p, s, arms.len()) && match default {
            Some(default) => rewritable(p, default),
            None => true,
        },
        StmtModel::Stage { body, next, .. } => rewritable(p, body) && match next {
            Some(next) => rewritable(p, next),
            None => true,
        },
        _ => false,
    }
}

/// The same of the first arms of a statement.
pub open spec fn arms_rewritable(p: CoreModel, s: StmtId, first: nat) -> bool
    decreases p.stmt_rank(s), 0nat, first,
    when p.acyclic()
{
    if first == 0 || !p.has_stmt(s) || !(p.stmt(s) is Match) || first > p.stmt(s)->arms.len() {
        true
    } else {
        proof {
            crate::ir::core_ir::lemma_arm_is_part(p.stmt(s), first - 1);
            crate::passes::linearize::analysis::lemma_stmt_ranks(p, s);
        }
        arms_rewritable(p, s, (first - 1) as nat) && rewritable(p, p.stmt(s)->arms[first - 1].body)
    }
}

/// A statement that wraps a call of one function can be rewritten.
pub proof fn lemma_wrapper_rewritable(p: CoreModel, s: StmtId, f: FuncId)
    requires
        p.acyclic(),
        crate::passes::handler_specialize::wrapper::wraps(p, s, f),
    ensures
        rewritable(p, s),
    decreases p.stmt_rank(s), 1nat, 0nat,
{
    crate::passes::linearize::analysis::lemma_stmt_ranks(p, s);
    match p.stmt(s) {
        StmtModel::Let { next, .. } => lemma_wrapper_rewritable(p, next, f),
        StmtModel::Val { value, .. } => lemma_wrapper_rewritable(p, value, f),
        StmtModel::If { then_branch, else_branch, .. } => {
            lemma_wrapper_rewritable(p, then_branch, f);
            lemma_wrapper_rewritable(p, else_branch, f);
        },
        StmtModel::Match { arms, default, .. } => {
            lemma_arms_rewritable(p, s, arms.len(), f);
            if default is Some {
                lemma_wrapper_rewritable(p, default->0, f);
            }
        },
        StmtModel::Stage { body, next, .. } => {
            lemma_wrapper_rewritable(p, body, f);
            if next is Some {
                lemma_wrapper_rewritable(p, next->0, f);
            }
        },
        _ => {},
    }
}

proof fn lemma_arms_rewritable(p: CoreModel, s: StmtId, first: nat, f: FuncId)
    requires
        p.acyclic(),
        p.has_stmt(s),
        p.stmt(s) is Match,
        first <= p.stmt(s)->arms.len(),
        crate::passes::handler_specialize::wrapper::arms_wrap(p, s, first, f),
    ensures
        arms_rewritable(p, s, first),
    decreases p.stmt_rank(s), 0nat, first,
{
    if first > 0 {
        crate::ir::core_ir::lemma_arm_is_part(p.stmt(s), first - 1);
        crate::passes::linearize::analysis::lemma_stmt_ranks(p, s);
        lemma_arms_rewritable(p, s, (first - 1) as nat, f);
        lemma_wrapper_rewritable(p, p.stmt(s)->arms[first - 1].body, f);
    }
}

// ---------------------------------------------------------------------------
// What a rewritten wrapper is
// ---------------------------------------------------------------------------

/// The parts of a statement on the way to the wrapped call.
pub open spec fn on_the_way(s: StmtModel, part: StmtId) -> bool {
    match s {
        StmtModel::Let { next, .. } => part == next,
        StmtModel::Val { value, .. } => part == value,
        StmtModel::If { .. } | StmtModel::Match { .. } | StmtModel::Stage { .. } => s.has_part(
            part,
        ),
        _ => false,
    }
}

/// Rewritten statements: what was rewritten, in the order in which the results
/// were added, and where the results stand.
pub struct RewriteModel {
    pub program: CoreModel,
    pub stmts: Seq<usize>,
    pub map: Map<usize, StmtId>,
    /// The function that the wrapped calls go to.
    pub callee: FuncId,
}

impl RewriteModel {
    pub open spec fn to(self, s: StmtId) -> StmtId {
        self.map[s.0]
    }

    pub open spec fn option_to(self, s: Option<StmtId>) -> Option<StmtId> {
        match s {
            Some(s) => Some(self.to(s)),
            None => None,
        }
    }

    /// The rewritten form of a statement.
    pub open spec fn rewritten(self, s: StmtModel) -> StmtModel {
        match s {
            StmtModel::Call { result, args, effects, next, .. } => StmtModel::Call {
                result,
                callee: self.callee,
                args,
                effects,
                next,
            },
            StmtModel::Let { binding, value, next } => StmtModel::Let {
                binding,
                value,
                next: self.to(next),
            },
            StmtModel::Val { binding, value, next } => StmtModel::Val {
                binding,
                value: self.to(value),
                next,
            },
            StmtModel::If { cond, then_branch, else_branch } => StmtModel::If {
                cond,
                then_branch: self.to(then_branch),
                else_branch: self.to(else_branch),
            },
            StmtModel::Match { scrutinee, arms, default } => StmtModel::Match {
                scrutinee,
                arms: arms.map_values(
                    |arm: MatchArmModel| MatchArmModel { body: self.to(arm.body), ..arm },
                ),
                default: self.option_to(default),
            },
            StmtModel::Stage { stage, body, next } => StmtModel::Stage {
                stage,
                body: self.to(body),
                next: self.option_to(next),
            },
            _ => s,
        }
    }

    pub open spec fn below(self, s: StmtModel, bound: int) -> bool {
        forall|part: StmtId| #[trigger]
            on_the_way(s, part) ==> self.map.contains_key(part.0) && self.to(part).0 < bound
    }

    pub open spec fn stmt_rewritten(self, p: CoreModel, i: int) -> bool {
        let at = p.stmts.len() + i;
        let s = StmtId(self.stmts[i]);
        &&& p.has_stmt(s)
        &&& rewritable(p, s)
        &&& self.map.contains_key(s.0)
        &&& self.to(s).0 == at
        &&& self.program.stmts[at] == (StmtNodeModel {
            kind: self.rewritten(p.stmt(s)),
            ..p.stmts[s.0 as int]
        })
        &&& self.below(p.stmt(s), at)
    }

    /// The program is the given one with rewritten statements added after its
    /// own, and nothing else.
    pub open spec fn extends(self, p: CoreModel) -> bool {
        &&& self.program == (CoreModel { stmts: self.program.stmts, ..p })
        &&& self.program.stmts.len() == p.stmts.len() + self.stmts.len()
        &&& forall|i: int| 0 <= i < p.stmts.len() ==> #[trigger] self.program.stmts[i]
            == p.stmts[i]
        &&& forall|i: int| 0 <= i < self.stmts.len() ==> #[trigger] self.stmt_rewritten(p, i)
        &&& forall|s: usize| #[trigger]
            self.map.contains_key(s) ==> self.to(StmtId(s)).0 >= p.stmts.len() && self.to(
                StmtId(s),
            ).0 < self.program.stmts.len() && self.stmts[self.to(StmtId(s)).0 - p.stmts.len()]
                == s
    }

    pub open spec fn grew_from(self, earlier: RewriteModel) -> bool {
        &&& self.callee == earlier.callee
        &&& forall|s: usize| #[trigger]
            earlier.map.contains_key(s) ==> self.map.contains_key(s) && self.map[s]
                == earlier.map[s]
    }
}

proof fn lemma_rewritten_grows(a: RewriteModel, b: RewriteModel, s: StmtModel, bound: int)
    requires
        b.grew_from(a),
        a.below(s, bound),
    ensures
        b.rewritten(s) == a.rewritten(s),
        b.below(s, bound),
{
    assert forall|part: StmtId| #[trigger] on_the_way(s, part) implies b.map.contains_key(part.0)
        && b.to(part) == a.to(part) by {
        assert(a.map.contains_key(part.0));
    }
    match s {
        StmtModel::Let { next, .. } => {
            assert(on_the_way(s, next));
        },
        StmtModel::Val { value, .. } => {
            assert(on_the_way(s, value));
        },
        StmtModel::If { then_branch, else_branch, .. } => {
            assert(on_the_way(s, then_branch));
            assert(on_the_way(s, else_branch));
        },
        StmtModel::Match { arms, default, .. } => {
            assert(b.rewritten(s)->arms =~= a.rewritten(s)->arms) by {
                assert forall|i: int| 0 <= i < arms.len() implies #[trigger] b.rewritten(s)->arms[i]
                    == a.rewritten(s)->arms[i] by {
                    crate::ir::core_ir::lemma_arm_is_part(s, i);
                    assert(on_the_way(s, arms[i].body));
                }
            }
            if default is Some {
                assert(on_the_way(s, default->0));
            }
        },
        StmtModel::Stage { body, next, .. } => {
            assert(on_the_way(s, body));
            if next is Some {
                assert(on_the_way(s, next->0));
            }
        },
        _ => {},
    }
}

/// A part of a rewritten statement is a part of the statement, or the rewritten
/// form of one.
proof fn lemma_rewritten_part(r: RewriteModel, s: StmtModel, part: StmtId) -> (source: StmtId)
    requires
        r.rewritten(s).has_part(part),
    ensures
        s.has_part(source),
        part == source || (on_the_way(s, source) && part == r.to(source)),
{
    match s {
        StmtModel::Let { next, .. } => next,
        StmtModel::Val { value, next, .. } => if part == next {
            next
        } else {
            value
        },
        StmtModel::If { then_branch, else_branch, .. } => if part == r.to(then_branch) {
            then_branch
        } else {
            else_branch
        },
        StmtModel::Match { arms, default, .. } => {
            let out = r.rewritten(s)->arms;
            if exists|i: int| 0 <= i < out.len() && (#[trigger] out[i]).body == part {
                let i = choose|i: int| 0 <= i < out.len() && (#[trigger] out[i]).body == part;
                crate::ir::core_ir::lemma_arm_is_part(s, i);
                arms[i].body
            } else {
                default->0
            }
        },
        StmtModel::Stage { body, next, .. } => if part == r.to(body) {
            body
        } else {
            next->0
        },
        _ => part,
    }
}

proof fn lemma_rewritten_exprs(r: RewriteModel, s: StmtModel, part: ExprId)
    ensures
        r.rewritten(s).has_expr(part) == s.has_expr(part),
{
}

/// Rewriting a wrapper, and putting the result in the place of the statement
/// that installs a handler round it, brings no cycle and no dangling part in.
pub proof fn lemma_replaced_sound(
    r: RewriteModel,
    p: CoreModel,
    handle: StmtId,
    body: StmtId,
    q: CoreModel,
)
    requires
        r.extends(p),
        p.acyclic(),
        p.closed(),
        q == r.program || (p.has_stmt(handle) && p.stmt(handle).has_part(body) && r.below(
            p.stmt(body),
            r.program.stmts.len() as int,
        ) && q == (CoreModel {
            stmts: r.program.stmts.update(
                handle.0 as int,
                StmtNodeModel {
                    kind: r.rewritten(p.stmt(body)),
                    ..r.program.stmts[handle.0 as int]
                },
            ),
            ..r.program
        })),
    ensures
        q.acyclic(),
        q.closed(),
{
    let sb = p.stmts.len() as int;
    let er = |e: ExprId| p.expr_rank(e);
    let sr = |s: StmtId|
        if sb <= s.0 < r.program.stmts.len() {
            p.stmt_rank(StmtId(r.stmts[s.0 - sb]))
        } else {
            p.stmt_rank(s)
        };
    if q != r.program {
        assert(p.has_stmt(body));
        crate::ir::core_ir::lemma_stmt_rank(p, handle, body);
    }
    assert(q.expr_ranking(er) && q.exprs_closed()) by {
        assert forall|e: ExprId, part: ExprId| #![trigger q.expr(e).has_part(part)]
            q.has_expr(e) && q.expr(e).has_part(part) implies er(part) < er(e) && q.has_expr(
            part,
        ) by {
            assert(p.expr(e).has_part(part));
            crate::ir::core_ir::lemma_expr_rank(p, e, part);
        }
    }
    assert(q.stmt_ranking(sr) && q.stmts_closed()) by {
        assert forall|s: StmtId, part: StmtId| #![trigger q.stmt(s).has_part(part)]
            q.has_stmt(s) && q.stmt(s).has_part(part) implies sr(part) < sr(s) && q.has_stmt(
            part,
        ) by {
            let from = if s.0 >= sb {
                StmtId(r.stmts[s.0 - sb])
            } else if s == handle && q != r.program {
                body
            } else {
                s
            };
            if s.0 >= sb {
                assert(r.stmt_rewritten(p, s.0 - sb));
            }
            if from != s || s.0 >= sb {
                let source = lemma_rewritten_part(r, p.stmt(from), part);
                assert(p.has_stmt(source));
                crate::ir::core_ir::lemma_stmt_rank(p, from, source);
                if part != source {
                    assert(r.map.contains_key(source.0));
                    assert(r.stmts[part.0 - sb] == source.0);
                }
            } else {
                assert(r.program.stmts[s.0 as int] == p.stmts[s.0 as int]);
                if q.stmt(s) == p.stmt(s) {
                    assert(p.stmt(s).has_part(part));
                    crate::ir::core_ir::lemma_stmt_rank(p, s, part);
                } else {
                    let source = lemma_rewritten_part(r, p.stmt(body), part);
                    assert(p.has_stmt(source));
                    crate::ir::core_ir::lemma_stmt_rank(p, body, source);
                    if part != source {
                        assert(r.map.contains_key(source.0));
                        assert(r.stmts[part.0 - sb] == source.0);
                    }
                }
            }
        }
        assert forall|s: StmtId, part: ExprId| #![trigger q.stmt(s).has_expr(part)]
            q.has_stmt(s) && q.stmt(s).has_expr(part) implies q.has_expr(part) by {
            if s.0 >= sb {
                assert(r.stmt_rewritten(p, s.0 - sb));
                let src = StmtId(r.stmts[s.0 - sb]);
                lemma_rewritten_exprs(r, p.stmt(src), part);
                assert(p.stmt(src).has_expr(part));
            } else {
                assert(r.program.stmts[s.0 as int] == p.stmts[s.0 as int]);
                if q.stmt(s) == p.stmt(s) {
                    assert(p.stmt(s).has_expr(part));
                } else {
                    lemma_rewritten_exprs(r, p.stmt(body), part);
                    assert(p.stmt(body).has_expr(part));
                }
            }
        }
    }
    assert(q.functions_closed()) by {
        assert forall|f: FuncId| #![trigger q.function(f)] q.has_function(f) implies q.has_stmt(
            q.function(f).body,
        ) by {
            assert(p.has_stmt(p.function(f).body));
        }
    }
    assert(q.handlers_closed()) by {
        assert forall|h: crate::common::ids::HandlerId| #![trigger q.handler(h)]
            q.has_handler(h) implies q.has_stmt(q.handler(h).return_body) by {
            assert(p.has_stmt(p.handler(h).return_body));
        }
        assert forall|h: crate::common::ids::HandlerId, i: int|
            #![trigger q.handler(h).clauses[i]]
            q.has_handler(h) && 0 <= i < q.handler(h).clauses.len() implies q.has_stmt(
            q.handler(h).clauses[i].body,
        ) by {
            assert(p.has_stmt(p.handler(h).clauses[i].body));
        }
    }
}

/// Adding rewritten statements does not change what a statement hands on.
proof fn lemma_forwards_kept(
    r: RewriteModel,
    p: CoreModel,
    s: StmtId,
    var: crate::common::ids::VarId,
)
    requires
        r.extends(p),
        p.acyclic(),
        p.closed(),
        r.program.acyclic(),
        p.has_stmt(s),
    ensures
        crate::passes::handler_specialize::wrapper::forwards(r.program, s, var)
            == crate::passes::handler_specialize::wrapper::forwards(p, s, var),
    decreases p.stmt_rank(s), 1nat, 0nat,
{
    let q = r.program;
    crate::passes::linearize::analysis::lemma_stmt_ranks(p, s);
    assert(q.stmts[s.0 as int] == p.stmts[s.0 as int]);
    let k = p.stmt(s);
    match k {
        StmtModel::Let { binding, next, .. } => {
            assert(k.has_part(next));
            lemma_forwards_kept(r, p, next, binding);
        },
        StmtModel::Val { binding, value, next } => {
            assert(k.has_part(next) && k.has_part(value));
            lemma_forwards_kept(r, p, value, var);
            lemma_forwards_kept(r, p, next, binding);
        },
        StmtModel::If { then_branch, else_branch, .. } => {
            assert(k.has_part(then_branch) && k.has_part(else_branch));
            lemma_forwards_kept(r, p, then_branch, var);
            lemma_forwards_kept(r, p, else_branch, var);
        },
        StmtModel::Match { arms, default, .. } => {
            lemma_arms_kept(r, p, s, arms.len(), var);
            if default is Some {
                assert(k.has_part(default->0));
                lemma_forwards_kept(r, p, default->0, var);
            }
        },
        StmtModel::Stage { body, next, .. } => {
            assert(k.has_part(body));
            lemma_forwards_kept(r, p, body, var);
            if next is Some {
                assert(k.has_part(next->0));
                lemma_forwards_kept(r, p, next->0, var);
            }
        },
        _ => {},
    }
}

proof fn lemma_arms_kept(
    r: RewriteModel,
    p: CoreModel,
    s: StmtId,
    first: nat,
    var: crate::common::ids::VarId,
)
    requires
        r.extends(p),
        p.acyclic(),
        p.closed(),
        r.program.acyclic(),
        p.has_stmt(s),
        p.stmt(s) is Match,
        first <= p.stmt(s)->arms.len(),
    ensures
        crate::passes::handler_specialize::wrapper::arms_forward(r.program, s, first, var)
            == crate::passes::handler_specialize::wrapper::arms_forward(p, s, first, var),
    decreases p.stmt_rank(s), 0nat, first,
{
    assert(r.program.stmts[s.0 as int] == p.stmts[s.0 as int]);
    if first > 0 {
        crate::ir::core_ir::lemma_arm_is_part(p.stmt(s), first - 1);
        crate::passes::linearize::analysis::lemma_stmt_ranks(p, s);
        lemma_arms_kept(r, p, s, (first - 1) as nat, var);
        lemma_forwards_kept(r, p, p.stmt(s)->arms[first - 1].body, var);
    }
}

// ---------------------------------------------------------------------------
// What is rewritten, and in which order
// ---------------------------------------------------------------------------

/// The statements that have been rewritten, after one more: once, after those
/// on the way to the wrapped call, and only where it can be.
pub open spec fn rewrite_order(p: CoreModel, done: Seq<usize>, s: StmtId) -> Seq<usize>
    decreases p.stmt_rank(s), 2nat, 0nat,
    when p.acyclic()
{
    if done.contains(s.0) || !p.has_stmt(s) {
        done
    } else if rewritable(p, s) {
        parts_order(p, done, s).push(s.0)
    } else {
        parts_order(p, done, s)
    }
}

/// The same after the parts of a statement on the way to the wrapped call, up to
/// the first that cannot be rewritten.
pub open spec fn parts_order(p: CoreModel, done: Seq<usize>, s: StmtId) -> Seq<usize>
    decreases p.stmt_rank(s), 1nat, 0nat,
    when p.acyclic()
{
    proof {
        crate::passes::linearize::analysis::lemma_stmt_ranks(p, s);
    }
    if !p.has_stmt(s) {
        done
    } else {
        match p.stmt(s) {
            StmtModel::Let { next, .. } => rewrite_order(p, done, next),
            StmtModel::Val { binding, value, next } =>
                if crate::passes::handler_specialize::wrapper::forwards(p, next, binding) {
                    rewrite_order(p, done, value)
                } else {
                    done
                },
            StmtModel::If { then_branch, else_branch, .. } => {
                let first = rewrite_order(p, done, then_branch);
                if rewritable(p, then_branch) {
                    rewrite_order(p, first, else_branch)
                } else {
                    first
                }
            },
            StmtModel::Match { arms, default, .. } => {
                let first = arms_order(p, done, s, arms.len());
                match default {
                    Some(default) => if arms_rewritable(p, s, arms.len()) {
                        rewrite_order(p, first, default)
                    } else {
                        first
                    },
                    None => first,
                }
            },
            StmtModel::Stage { body, next, .. } => {
                let first = rewrite_order(p, done, body);
                match next {
                    Some(next) => if rewritable(p, body) {
                        rewrite_order(p, first, next)
                    } else {
                        first
                    },
                    None => first,
                }
            },
            _ => done,
        }
    }
}

/// The same after the bodies of the first arms of a match, up to the first that
/// cannot be rewritten.
pub open spec fn arms_order(p: CoreModel, done: Seq<usize>, s: StmtId, first: nat) -> Seq<usize>
    decreases p.stmt_rank(s), 0nat, first,
    when p.acyclic()
{
    if first == 0 || !p.has_stmt(s) || !(p.stmt(s) is Match) || first > p.stmt(s)->arms.len() {
        done
    } else {
        proof {
            crate::ir::core_ir::lemma_arm_is_part(p.stmt(s), first - 1);
            crate::passes::linearize::analysis::lemma_stmt_ranks(p, s);
        }
        let before = arms_order(p, done, s, (first - 1) as nat);
        if arms_rewritable(p, s, (first - 1) as nat) {
            rewrite_order(p, before, p.stmt(s)->arms[first - 1].body)
        } else {
            before
        }
    }
}

/// Once an arm cannot be rewritten, no later one is looked at.
proof fn lemma_later_arms(p: CoreModel, done: Seq<usize>, s: StmtId, first: nat, more: nat)
    requires
        p.acyclic(),
        first <= more,
        !arms_rewritable(p, s, first),
        p.has_stmt(s),
        p.stmt(s) is Match,
        more <= p.stmt(s)->arms.len(),
    ensures
        !arms_rewritable(p, s, more),
        arms_order(p, done, s, more) == arms_order(p, done, s, first),
    decreases more,
{
    if first < more {
        lemma_later_arms(p, done, s, first, (more - 1) as nat);
    }
}

/// What has an entry is what has been rewritten.
proof fn lemma_rewritten_listed(r: RewriteModel, p: CoreModel)
    requires
        r.extends(p),
    ensures
        forall|s: usize| #[trigger] r.map.contains_key(s) <==> r.stmts.contains(s),
{
    assert forall|s: usize| #[trigger] r.map.contains_key(s) <==> r.stmts.contains(s) by {
        if r.stmts.contains(s) {
            let i = choose|i: int| 0 <= i < r.stmts.len() && r.stmts[i] == s;
            assert(r.stmt_rewritten(p, i));
        }
        if r.map.contains_key(s) {
            assert(r.stmts[r.to(StmtId(s)).0 - p.stmts.len()] == s);
        }
    }
}

// ---------------------------------------------------------------------------
// Rewriting
// ---------------------------------------------------------------------------

/// Rewrites statements, each once.
pub struct Rewriter {
    pub program: CoreProgram,
    pub callee: FuncId,
    pub cache: HashMap<usize, StmtId>,
    pub stmts: Ghost<Seq<usize>>,
    pub source: Ghost<CoreModel>,
}

impl Rewriter {
    pub open spec fn model(self) -> RewriteModel {
        RewriteModel {
            program: self.program@,
            stmts: self.stmts@,
            map: self.cache@,
            callee: self.callee,
        }
    }

    pub open spec fn ready(self) -> bool {
        &&& self.source@.acyclic()
        &&& self.source@.closed()
        &&& self.model().extends(self.source@)
    }

    pub open spec fn stepped(self, earlier: Self) -> bool {
        &&& self.ready()
        &&& self.source == earlier.source
        &&& self.model().grew_from(earlier.model())
    }

    pub open spec fn within(self, earlier: Self, bound: nat) -> bool {
        forall|s: usize| #[trigger]
            self.cache@.contains_key(s) ==> earlier.cache@.contains_key(s)
                || self.source@.stmt_rank(StmtId(s)) < bound
    }

    pub fn new(program: CoreProgram, callee: FuncId) -> (rewriter: Self)
        requires
            program@.acyclic(),
            program@.closed(),
        ensures
            rewriter.ready(),
            rewriter.source@ == program@,
            rewriter.callee == callee,
            rewriter.stmts@ == Seq::<usize>::empty(),
    {
        let ghost p = program@;
        let rewriter = Rewriter {
            program,
            callee,
            cache: HashMap::new(),
            stmts: Ghost(Seq::empty()),
            source: Ghost(p),
        };
        assert(rewriter.model().extends(p));
        rewriter
    }

    fn rewrite_part(&mut self, Ghost(owner): Ghost<StmtId>, part: StmtId) -> (to: Option<StmtId>)
        requires
            old(self).ready(),
            old(self).source@.has_stmt(owner),
            old(self).source@.stmt(owner).has_part(part),
        ensures
            final(self).stepped(*old(self)),
            final(self).within(*old(self), old(self).source@.stmt_rank(owner)),
            final(self).stmts@ == rewrite_order(old(self).source@, old(self).stmts@, part),
            to is Some <==> rewritable(old(self).source@, part),
            to matches Some(s) ==> final(self).cache@.contains_key(part.0) && s == final(self).model().to(part),
        decreases old(self).source@.stmt_rank(owner), 0nat,
    {
        proof {
            crate::ir::core_ir::lemma_stmt_rank(self.source@, owner, part);
        }
        self.build_rewritten_stmt(part)
    }

    #[verifier::spinoff_prover]
    fn rewrite_arms(&mut self, Ghost(owner): Ghost<StmtId>, arms: &Vec<MatchArm>) -> (out: Option<
        Vec<MatchArm>,
    >)
        requires
            old(self).ready(),
            old(self).source@.has_stmt(owner),
            old(self).source@.stmt(owner) is Match,
            old(self).source@.stmt(owner)->arms == crate::common::views(arms@),
        ensures
            final(self).stepped(*old(self)),
            final(self).within(*old(self), old(self).source@.stmt_rank(owner)),
            final(self).stmts@ == arms_order(
                old(self).source@,
                old(self).stmts@,
                owner,
                arms@.len(),
            ),
            out is Some <==> arms_rewritable(old(self).source@, owner, arms@.len()),
            out matches Some(out) ==> {
                &&& out@.len() == arms@.len()
                &&& forall|i: int|
                    0 <= i < arms@.len() ==> final(self).cache@.contains_key(
                        (#[trigger] arms@[i]).body.0,
                    ) && out@[i]@ == (MatchArmModel {
                        body: final(self).model().to(arms@[i].body),
                        ..arms@[i]@
                    })
            },
        decreases old(self).source@.stmt_rank(owner), 1nat,
    {
        let ghost p = self.source@;
        let mut out: Vec<MatchArm> = Vec::new();
        let mut i: usize = 0;
        while i < arms.len()
            invariant
                p == self.source@,
                self.stepped(*old(self)),
                self.within(*old(self), p.stmt_rank(owner)),
                p.has_stmt(owner),
                p.stmt(owner) is Match,
                p.stmt(owner)->arms == crate::common::views(arms@),
                i <= arms@.len(),
                out@.len() == i,
                arms_rewritable(p, owner, i as nat),
                self.stmts@ == arms_order(p, old(self).stmts@, owner, i as nat),
                forall|j: int|
                    0 <= j < i ==> self.cache@.contains_key((#[trigger] arms@[j]).body.0)
                        && out@[j]@ == (MatchArmModel {
                        body: self.model().to(arms@[j].body),
                        ..arms@[j]@
                    }),
            decreases arms@.len() - i,
        {
            let ghost before = self.model();
            proof {
                crate::ir::core_ir::lemma_arm_is_part(p.stmt(owner), i as int);
                assert(p.stmt(owner)->arms[i as int] == arms@[i as int]@);
            }
            let body = self.rewrite_part(Ghost(owner), arms[i].body);
            match body {
                None => {
                    proof {
                        assert(!arms_rewritable(p, owner, (i + 1) as nat));
                        lemma_later_arms(p, old(self).stmts@, owner, (i + 1) as nat, arms@.len());
                    }
                    return None;
                },
                Some(body) => {
                    let ghost done = out@;
                    out.push(
                        MatchArm {
                            tag: arms[i].tag,
                            binders: copy_vars(&arms[i].binders),
                            body,
                            span: arms[i].span,
                        },
                    );
                    proof {
                        assert forall|j: int| 0 <= j < i + 1 implies self.cache@.contains_key(
                            (#[trigger] arms@[j]).body.0,
                        ) && out@[j]@ == (MatchArmModel {
                            body: self.model().to(arms@[j].body),
                            ..arms@[j]@
                        }) by {
                            if j < i {
                                assert(out@[j] == done[j]);
                                assert(before.map.contains_key(arms@[j].body.0));
                            }
                        }
                    }
                },
            }
            i += 1;
        }
        Some(out)
    }

    /// The form that a statement takes once it is rewritten, with everything on
    /// the way to the wrapped call rewritten.
    #[verifier::rlimit(100)]
    #[verifier::spinoff_prover]
    pub fn build_rewritten_body(&mut self, body: StmtId) -> (kind: Option<StmtKind>)
        requires
            old(self).ready(),
            old(self).source@.has_stmt(body),
        ensures
            final(self).stepped(*old(self)),
            final(self).within(*old(self), old(self).source@.stmt_rank(body)),
            final(self).stmts@ == parts_order(old(self).source@, old(self).stmts@, body),
            kind is Some <==> rewritable(old(self).source@, body),
            kind matches Some(kind) ==> kind@ == final(self).model().rewritten(
                old(self).source@.stmt(body),
            ) && final(self).model().below(
                old(self).source@.stmt(body),
                final(self).program@.stmts.len() as int,
            ),
        decreases old(self).source@.stmt_rank(body), 2nat,
    {
        let ghost p = self.source@;
        assert(self.program@.stmts[body.0 as int] == p.stmts[body.0 as int]);
        let node = self.program.stmts[body.0].kind.clone();
        let ghost s = p.stmt(body);
        assert(node@ == s);
        match node {
            StmtKind::Call { result, args, effects, next, .. } => Some(
                StmtKind::Call { result, callee: self.callee, args, effects, next },
            ),
            StmtKind::Let { binding, value, next } => match self.rewrite_part(Ghost(body), next) {
                None => None,
                Some(to) => Some(StmtKind::Let { binding, value, next: to }),
            },
            StmtKind::Val { binding, value, next } => {
                assert(s.has_part(next));
                let tail = self.is_tail(next, binding);
                if !tail {
                    return None;
                }
                match self.rewrite_part(Ghost(body), value) {
                    None => None,
                    Some(to) => Some(StmtKind::Val { binding, value: to, next }),
                }
            },
            StmtKind::If { cond, then_branch, else_branch } => {
                let first = match self.rewrite_part(Ghost(body), then_branch) {
                    None => {
                        return None;
                    },
                    Some(to) => to,
                };
                let ghost middle = self.model();
                match self.rewrite_part(Ghost(body), else_branch) {
                    None => None,
                    Some(second) => {
                        assert(middle.map.contains_key(then_branch.0));
                        Some(StmtKind::If { cond, then_branch: first, else_branch: second })
                    },
                }
            },
            StmtKind::Match { scrutinee, arms, default } => {
                let out = match self.rewrite_arms(Ghost(body), &arms) {
                    None => {
                        return None;
                    },
                    Some(out) => out,
                };
                let ghost middle = self.model();
                let rest = match default {
                    None => None,
                    Some(default) => match self.rewrite_part(Ghost(body), default) {
                        None => {
                            return None;
                        },
                        Some(to) => Some(to),
                    },
                };
                proof {
                    let views = crate::common::views(arms@);
                    assert forall|k: int| 0 <= k < arms@.len() implies self.cache@.contains_key(
                        (#[trigger] arms@[k]).body.0,
                    ) && out@[k]@ == (MatchArmModel {
                        body: self.model().to(arms@[k].body),
                        ..arms@[k]@
                    }) by {
                        assert(middle.map.contains_key(arms@[k].body.0));
                    }
                    assert(crate::common::views(out@) =~= self.model().rewritten(s)->arms);
                    assert forall|part: StmtId| #[trigger]
                        on_the_way(s, part) implies self.cache@.contains_key(part.0) && self.model().to(
                        part,
                    ).0 < self.program@.stmts.len() by {
                        if default != Some(part) {
                            let k = choose|k: int|
                                0 <= k < views.len() && (#[trigger] views[k]).body == part;
                            assert(views[k] == arms@[k]@);
                            assert(self.cache@.contains_key(arms@[k].body.0));
                        }
                        assert(self.model().map.contains_key(part.0));
                    }
                }
                Some(StmtKind::Match { scrutinee, arms: out, default: rest })
            },
            StmtKind::Stage { stage, body: inner, next } => {
                let first = match self.rewrite_part(Ghost(body), inner) {
                    None => {
                        return None;
                    },
                    Some(to) => to,
                };
                let ghost middle = self.model();
                match next {
                    None => Some(StmtKind::Stage { stage, body: first, next: None }),
                    Some(next) => match self.rewrite_part(Ghost(body), next) {
                        None => None,
                        Some(second) => {
                            assert(middle.map.contains_key(inner.0));
                            Some(StmtKind::Stage { stage, body: first, next: Some(second) })
                        },
                    },
                }
            },
            _ => None,
        }
    }

    /// Whether a statement of the source only hands a value on.
    fn is_tail(&self, next: StmtId, binding: crate::common::ids::VarId) -> (b: bool)
        requires
            self.ready(),
            self.source@.has_stmt(next),
        ensures
            b == crate::passes::handler_specialize::wrapper::forwards(
                self.source@,
                next,
                binding,
            ),
    {
        proof {
            let r = self.model();
            lemma_replaced_sound(r, self.source@, next, next, r.program);
            lemma_forwards_kept(r, self.source@, next, binding);
        }
        is_forwarding_tail_of_var(&self.program, next, binding)
    }

    pub fn build_rewritten_stmt(&mut self, stmt_id: StmtId) -> (to: Option<StmtId>)
        requires
            old(self).ready(),
            old(self).source@.has_stmt(stmt_id),
        ensures
            final(self).stepped(*old(self)),
            final(self).within(*old(self), old(self).source@.stmt_rank(stmt_id) + 1),
            final(self).stmts@ == rewrite_order(old(self).source@, old(self).stmts@, stmt_id),
            to is Some <==> rewritable(old(self).source@, stmt_id),
            to matches Some(s) ==> final(self).cache@.contains_key(stmt_id.0) && s == final(self).model().to(stmt_id),
        decreases old(self).source@.stmt_rank(stmt_id), 3nat,
    {
        let ghost p = self.source@;
        proof {
            lemma_rewritten_listed(self.model(), p);
        }
        if let Some(cached) = self.cache.get(&stmt_id.0) {
            proof {
                assert(self.model().stmt_rewritten(p, cached.0 - p.stmts.len()));
            }
            return Some(*cached);
        }
        assert(!self.model().map.contains_key(stmt_id.0));
        assert(!self.stmts@.contains(stmt_id.0));
        match self.build_rewritten_body(stmt_id) {
            None => None,
            Some(kind) => Some(self.add_stmt(stmt_id, kind)),
        }
    }

    #[verifier::spinoff_prover]
    fn add_stmt(&mut self, source: StmtId, kind: StmtKind) -> (to: StmtId)
        requires
            old(self).ready(),
            old(self).source@.has_stmt(source),
            !old(self).cache@.contains_key(source.0),
            rewritable(old(self).source@, source),
            kind@ == old(self).model().rewritten(old(self).source@.stmt(source)),
            old(self).model().below(
                old(self).source@.stmt(source),
                old(self).program@.stmts.len() as int,
            ),
        ensures
            final(self).stepped(*old(self)),
            final(self).within(*old(self), old(self).source@.stmt_rank(source) + 1),
            final(self).cache@.contains_key(source.0),
            final(self).stmts@ == old(self).stmts@.push(source.0),
            to == final(self).model().to(source),
    {
        let ghost a = self.model();
        let ghost p = self.source@;
        assert(a.program.stmts[source.0 as int] == p.stmts[source.0 as int]);
        let span = self.program.stmts[source.0].span;
        let to = self.program.push_stmt(StmtNode { span, kind });
        self.cache.insert(source.0, to);
        self.stmts = Ghost(self.stmts@.push(source.0));
        proof {
            let b = self.model();
            let base = p.stmts.len() as int;
            assert(b.grew_from(a));
            assert(b.program.stmts =~= a.program.stmts.push(b.program.stmts[to.0 as int]));
            lemma_rewritten_grows(a, b, p.stmt(source), to.0 as int);
            assert forall|i: int| 0 <= i < b.stmts.len() implies #[trigger] b.stmt_rewritten(
                p,
                i,
            ) by {
                if i < a.stmts.len() {
                    assert(a.stmt_rewritten(p, i));
                    lemma_rewritten_grows(a, b, p.stmt(StmtId(a.stmts[i])), base + i);
                }
            }
            assert forall|s: usize| #[trigger] b.map.contains_key(s) implies b.to(
                StmtId(s),
            ).0 >= base && b.to(StmtId(s)).0 < b.program.stmts.len() && b.stmts[b.to(StmtId(s)).0
                - base] == s by {
                if s != source.0 {
                    assert(a.map.contains_key(s));
                }
            }
        }
        to
    }
}

} // verus!
