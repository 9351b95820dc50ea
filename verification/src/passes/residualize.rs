//! Leaves of a program what happens at run time: values known at compile time
//! are embedded as literals, branches known not to be taken are cut away, and
//! effect annotations move from the functions to the call sites.
use crate::common::densemap::DenseMap;
use crate::common::ids::{EffectLabelId, ExprId, FuncId, HandlerId, StmtId, SymbolId};
use crate::common::sorted::insert_sorted;
use crate::ir::core_ir::{
    copy_vars, ClauseModel, CoreModel, CoreProgram, ExprKind, ExprModel, ExprNodeModel,
    FunctionModel, HandlerModel, Literal, MatchArm, MatchArmModel, StmtKind, StmtModel,
    StmtNodeModel,
};
use crate::pipeline::phases::{
    BranchDecision, BtaClassified, CtPropagationTables, ResidualTables, Residualized,
};
use crate::sema::effect::SortedEffectRow;
use std::collections::HashMap;
use vstd::prelude::*;

verus! {

// ---------------------------------------------------------------------------
// What becomes of a program
// ---------------------------------------------------------------------------

/// The program with every expression whose value is known replaced by it.
pub open spec fn embedded(p: CoreModel, ct: CtPropagationTables) -> CoreModel {
    CoreModel {
        exprs: Seq::new(
            p.exprs.len(),
            |i: int|
                if ct.ct_cache@.contains_key(i as usize) {
                    ExprNodeModel {
                        kind: ExprModel::Literal(ct.ct_cache@[i as usize]@),
                        ..p.exprs[i]
                    }
                } else {
                    p.exprs[i]
                },
        ),
        ..p
    }
}

/// The branch that a condition is known to choose. A recorded decision counts
/// before a known value, and a known value before the condition's own text.
pub open spec fn live_branch(p: CoreModel, ct: CtPropagationTables, cond: ExprId) -> Option<bool> {
    if ct.branch_decisions@.contains_key(cond.0) {
        match ct.branch_decisions@[cond.0] {
            BranchDecision::LiveTrue => Some(true),
            BranchDecision::LiveFalse => Some(false),
            BranchDecision::Unknown => None,
        }
    } else if ct.ct_cache@.contains_key(cond.0) && ct.ct_cache@[cond.0] is Bool {
        Some(ct.ct_cache@[cond.0]->Bool_0)
    } else if p.has_expr(cond) && p.expr(cond) is Literal && p.expr(cond)->Literal_0 is Bool {
        Some(p.expr(cond)->Literal_0->Bool_0)
    } else {
        None
    }
}

/// The variant that a scrutinee is known to be.
pub open spec fn known_variant(p: CoreModel, scrutinee: ExprId) -> Option<SymbolId> {
    if p.has_expr(scrutinee) && p.expr(scrutinee) is MakeEnum {
        Some(p.expr(scrutinee)->variant)
    } else {
        None
    }
}

/// The body of the first arm for a variant, from a position on.
pub open spec fn arm_from(arms: Seq<MatchArmModel>, tag: SymbolId, from: int) -> Option<StmtId>
    decreases arms.len() - from,
{
    if from < 0 || from >= arms.len() {
        None
    } else if arms[from].tag == tag {
        Some(arms[from].body)
    } else {
        arm_from(arms, tag, from + 1)
    }
}

/// The part of a statement that it is known to come down to.
pub open spec fn live_child(p: CoreModel, ct: CtPropagationTables, s: StmtModel) -> Option<StmtId> {
    match s {
        StmtModel::If { cond, then_branch, else_branch } => match live_branch(p, ct, cond) {
            Some(taken) => Some(
                if taken {
                    then_branch
                } else {
                    else_branch
                },
            ),
            None => None,
        },
        StmtModel::Match { scrutinee, arms, default } => match known_variant(p, scrutinee) {
            Some(tag) => match arm_from(arms, tag, 0) {
                Some(body) => Some(body),
                None => default,
            },
            None => None,
        },
        _ => None,
    }
}

proof fn lemma_arm_from(s: StmtModel, tag: SymbolId, from: int)
    requires
        s is Match,
        0 <= from,
        arm_from(s->arms, tag, from) is Some,
    ensures
        s.has_part(arm_from(s->arms, tag, from)->0),
    decreases s->arms.len() - from,
{
    if s->arms[from].tag == tag {
        crate::ir::core_ir::lemma_arm_is_part(s, from);
    } else {
        lemma_arm_from(s, tag, from + 1);
    }
}

/// What a statement is known to come down to is one of its parts.
pub proof fn lemma_live_child(p: CoreModel, ct: CtPropagationTables, s: StmtModel)
    ensures
        live_child(p, ct, s) is Some ==> s.has_part(live_child(p, ct, s)->0),
{
    if live_child(p, ct, s) is Some && s is Match {
        let tag = known_variant(p, s->scrutinee)->0;
        if arm_from(s->arms, tag, 0) is Some {
            lemma_arm_from(s, tag, 0);
        }
    }
}

/// What is left of a statement: itself, or what it is known to come down to.
pub open spec fn resolve(p: CoreModel, ct: CtPropagationTables, s: StmtId) -> StmtId
    decreases p.stmt_rank(s),
    when p.acyclic()
{
    proof {
        crate::passes::linearize::analysis::lemma_stmt_ranks(p, s);
        lemma_live_child(p, ct, p.stmt(s));
    }
    if p.has_stmt(s) {
        match live_child(p, ct, p.stmt(s)) {
            Some(child) => resolve(p, ct, child),
            None => s,
        }
    } else {
        s
    }
}

pub open spec fn resolve_option(
    p: CoreModel,
    ct: CtPropagationTables,
    s: Option<StmtId>,
) -> Option<StmtId> {
    match s {
        Some(s) => Some(resolve(p, ct, s)),
        None => None,
    }
}

/// A statement whose parts are replaced by what is left of them.
pub open spec fn relinked(p: CoreModel, ct: CtPropagationTables, s: StmtModel) -> StmtModel {
    match s {
        StmtModel::Return(_) | StmtModel::Hole { .. } | StmtModel::Error(_) => s,
        StmtModel::Let { binding, value, next } => StmtModel::Let {
            binding,
            value,
            next: resolve(p, ct, next),
        },
        StmtModel::Val { binding, value, next } => StmtModel::Val {
            binding,
            value: resolve(p, ct, value),
            next: resolve(p, ct, next),
        },
        StmtModel::Call { result, callee, args, effects, next } => StmtModel::Call {
            result,
            callee,
            args,
            effects,
            next: resolve(p, ct, next),
        },
        StmtModel::If { cond, then_branch, else_branch } => StmtModel::If {
            cond,
            then_branch: resolve(p, ct, then_branch),
            else_branch: resolve(p, ct, else_branch),
        },
        StmtModel::Match { scrutinee, arms, default } => StmtModel::Match {
            scrutinee,
            arms: arms.map_values(
                |arm: MatchArmModel| MatchArmModel { body: resolve(p, ct, arm.body), ..arm },
            ),
            default: resolve_option(p, ct, default),
        },
        StmtModel::Perform { result, effect, operation, args, next } => StmtModel::Perform {
            result,
            effect,
            operation,
            args,
            next: resolve(p, ct, next),
        },
        StmtModel::Resume { result, resume, arg, next } => StmtModel::Resume {
            result,
            resume,
            arg,
            next: resolve(p, ct, next),
        },
        StmtModel::Handle { handler, body, next } => StmtModel::Handle {
            handler,
            body: resolve(p, ct, body),
            next: resolve_option(p, ct, next),
        },
        StmtModel::Stage { stage, body, next } => StmtModel::Stage {
            stage,
            body: resolve(p, ct, body),
            next: resolve_option(p, ct, next),
        },
    }
}

/// The statement that stands at a position afterwards, where code leads there.
/// One that came down to a part of it stays as it was: nothing refers to it.
pub open spec fn settled(p: CoreModel, ct: CtPropagationTables, s: StmtModel) -> StmtModel {
    if live_child(p, ct, s) is Some {
        s
    } else {
        relinked(p, ct, s)
    }
}

/// The bodies of the functions and of the handlers.
pub open spec fn code_roots(p: CoreModel) -> Set<usize> {
    Set::new(
        |s: usize|
            {
                ||| exists|f: FuncId| #![trigger p.function(f)]
                    p.has_function(f) && p.function(f).body.0 == s
                ||| exists|h: HandlerId| #![trigger p.handler(h)]
                    p.has_handler(h) && p.handler(h).return_body.0 == s
                ||| exists|h: HandlerId, i: int| #![trigger p.handler(h).clauses[i]]
                    p.has_handler(h) && 0 <= i < p.handler(h).clauses.len() && p.handler(
                        h,
                    ).clauses[i].body.0 == s
            },
    )
}

/// Whether code leads to a statement.
pub open spec fn code_reached(p: CoreModel, s: usize) -> bool {
    crate::common::reach::reaches(
        crate::passes::function_graph::stmt_edge(p),
        code_roots(p),
        s,
    )
}

/// The program with every branch that is known not to be taken cut away.
pub open spec fn pruned(p: CoreModel, ct: CtPropagationTables) -> CoreModel {
    CoreModel {
        stmts: Seq::new(
            p.stmts.len(),
            |i: int|
                if code_reached(p, i as usize) {
                    StmtNodeModel { kind: settled(p, ct, p.stmts[i].kind), ..p.stmts[i] }
                } else {
                    p.stmts[i]
                },
        ),
        functions: p.functions.map_values(
            |f: FunctionModel| FunctionModel { body: resolve(p, ct, f.body), ..f },
        ),
        handlers: p.handlers.map_values(
            |h: HandlerModel|
                HandlerModel {
                    return_body: resolve(p, ct, h.return_body),
                    clauses: h.clauses.map_values(
                        |c: ClauseModel| ClauseModel { body: resolve(p, ct, c.body), ..c },
                    ),
                    ..h
                },
        ),
        ..p
    }
}

// ---------------------------------------------------------------------------
// Rewriting statements
// ---------------------------------------------------------------------------

/// Rewrites statements, each once.
struct StmtRewriter<'a> {
    program: CoreProgram,
    ct: &'a CtPropagationTables,
    /// What is left of the statements that have been rewritten.
    memo: HashMap<usize, StmtId>,
    /// The program before any statement was rewritten.
    source: Ghost<CoreModel>,
}

impl<'a> StmtRewriter<'a> {
    spec fn node_at(self, i: int) -> StmtNodeModel {
        let p = self.source@;
        if self.memo@.contains_key(i as usize) {
            StmtNodeModel { kind: settled(p, *self.ct, p.stmts[i].kind), ..p.stmts[i] }
        } else {
            p.stmts[i]
        }
    }

    spec fn ready(self) -> bool {
        let p = self.source@;
        &&& p.acyclic()
        &&& p.stmts.len() <= usize::MAX
        &&& self.program@.exprs == p.exprs
        &&& self.program@.stmts.len() == p.stmts.len()
        &&& forall|i: int|
            0 <= i < p.stmts.len() ==> #[trigger] self.program@.stmts[i] == self.node_at(i)
        &&& forall|s: usize| #[trigger]
            self.memo@.contains_key(s) ==> self.memo@[s] == resolve(p, *self.ct, StmtId(s))
                && code_reached(p, s)
        &&& forall|s: usize, part: StmtId|
            self.memo@.contains_key(s) && p.has_stmt(StmtId(s)) && #[trigger] p.stmt(
                StmtId(s),
            ).has_part(part) ==> self.memo@.contains_key(part.0)
    }

    spec fn stepped(self, earlier: Self) -> bool {
        &&& self.ct == earlier.ct
        &&& self.source == earlier.source
        &&& self.program@ == (CoreModel { stmts: self.program@.stmts, ..earlier.program@ })
        &&& forall|s: usize| #[trigger]
            earlier.memo@.contains_key(s) ==> self.memo@.contains_key(s)
    }

    /// Records the rewritten form of a statement that stays.
    fn settle(&mut self, id: StmtId, kind: StmtKind) -> (to: StmtId)
        requires
            old(self).ready(),
            old(self).source@.has_stmt(id),
            code_reached(old(self).source@, id.0),
            live_child(old(self).source@, *old(self).ct, old(self).source@.stmt(id)) is None,
            kind@ == relinked(old(self).source@, *old(self).ct, old(self).source@.stmt(id)),
            forall|part: StmtId| #[trigger]
                old(self).source@.stmt(id).has_part(part) ==> old(self).memo@.contains_key(part.0),
        ensures
            final(self).ready(),
            final(self).stepped(*old(self)),
            final(self).memo@.contains_key(id.0),
            to == resolve(old(self).source@, *old(self).ct, id),
    {
        let ghost before = *self;
        self.program.set_stmt(id, kind);
        self.memo.insert(id.0, id);
        proof {
            let p = self.source@;
            assert forall|i: int| 0 <= i < p.stmts.len() implies #[trigger] self.program@.stmts[i]
                == self.node_at(i) by {
                assert(before.program@.stmts[i] == before.node_at(i));
                if i != id.0 {
                    assert((i as usize) != id.0);
                    assert(self.memo@.contains_key(i as usize) == before.memo@.contains_key(
                        i as usize,
                    ));
                }
            }
        }
        id
    }

    /// Records what a statement that does not stay comes down to.
    fn redirect(&mut self, id: StmtId, live: StmtId)
        requires
            old(self).ready(),
            old(self).source@.has_stmt(id),
            code_reached(old(self).source@, id.0),
            live_child(old(self).source@, *old(self).ct, old(self).source@.stmt(id)) is Some,
            live == resolve(
                old(self).source@,
                *old(self).ct,
                live_child(old(self).source@, *old(self).ct, old(self).source@.stmt(id))->0,
            ),
            forall|part: StmtId| #[trigger]
                old(self).source@.stmt(id).has_part(part) ==> old(self).memo@.contains_key(part.0),
        ensures
            final(self).ready(),
            final(self).stepped(*old(self)),
            final(self).memo@.contains_key(id.0),
            live == resolve(old(self).source@, *old(self).ct, id),
    {
        let ghost before = *self;
        self.memo.insert(id.0, live);
        proof {
            let p = self.source@;
            assert forall|i: int| 0 <= i < p.stmts.len() implies #[trigger] self.program@.stmts[i]
                == self.node_at(i) by {
                assert(before.program@.stmts[i] == before.node_at(i));
                if i != id.0 {
                    assert((i as usize) != id.0);
                    assert(self.memo@.contains_key(i as usize) == before.memo@.contains_key(
                        i as usize,
                    ));
                }
            }
        }
    }

    fn rewrite_part(&mut self, Ghost(owner): Ghost<StmtId>, part: StmtId) -> (to: StmtId)
        requires
            old(self).ready(),
            old(self).source@.has_stmt(owner),
            code_reached(old(self).source@, owner.0),
            old(self).source@.stmt(owner).has_part(part),
        ensures
            final(self).ready(),
            final(self).stepped(*old(self)),
            final(self).memo@.contains_key(part.0),
            to == resolve(old(self).source@, *old(self).ct, part),
        decreases old(self).source@.stmt_rank(owner), 0nat,
    {
        proof {
            let p = self.source@;
            let edge = crate::passes::function_graph::stmt_edge(p);
            assert(edge(owner.0, part.0));
            crate::common::reach::lemma_reaches_step(edge, code_roots(p), owner.0, part.0);
            crate::ir::core_ir::lemma_stmt_rank(p, owner, part);
        }
        self.rewrite_stmt(part)
    }

    fn rewrite_optional_part(&mut self, Ghost(owner): Ghost<StmtId>, part: Option<StmtId>) -> (to:
        Option<StmtId>)
        requires
            old(self).ready(),
            old(self).source@.has_stmt(owner),
            code_reached(old(self).source@, owner.0),
            part matches Some(s) ==> old(self).source@.stmt(owner).has_part(s),
        ensures
            final(self).ready(),
            final(self).stepped(*old(self)),
            part matches Some(s) ==> final(self).memo@.contains_key(s.0),
            to == resolve_option(old(self).source@, *old(self).ct, part),
        decreases old(self).source@.stmt_rank(owner), 1nat,
    {
        match part {
            Some(s) => Some(self.rewrite_part(Ghost(owner), s)),
            None => None,
        }
    }

    fn rewrite_arms(&mut self, Ghost(owner): Ghost<StmtId>, arms: &Vec<MatchArm>) -> (out: Vec<
        MatchArm,
    >)
        requires
            old(self).ready(),
            old(self).source@.has_stmt(owner),
            code_reached(old(self).source@, owner.0),
            old(self).source@.stmt(owner) is Match,
            old(self).source@.stmt(owner)->arms == crate::common::views(arms@),
        ensures
            final(self).ready(),
            final(self).stepped(*old(self)),
            forall|i: int|
                0 <= i < arms@.len() ==> final(self).memo@.contains_key(
                    (#[trigger] arms@[i]).body.0,
                ),
            crate::common::views(out@) == crate::common::views(arms@).map_values(
                |arm: MatchArmModel|
                    MatchArmModel {
                        body: resolve(old(self).source@, *old(self).ct, arm.body),
                        ..arm
                    },
            ),
        decreases old(self).source@.stmt_rank(owner), 1nat,
    {
        let mut out: Vec<MatchArm> = Vec::new();
        let mut i: usize = 0;
        while i < arms.len()
            invariant
                i <= arms@.len(),
                self.ready(),
                self.stepped(*old(self)),
                self.source@.has_stmt(owner),
                code_reached(self.source@, owner.0),
                self.source@.stmt(owner) is Match,
                self.source@.stmt(owner)->arms == crate::common::views(arms@),
                old(self).source@.stmt_rank(owner) == self.source@.stmt_rank(owner),
                out@.len() == i,
                forall|j: int|
                    0 <= j < i ==> self.memo@.contains_key((#[trigger] arms@[j]).body.0),
                forall|j: int|
                    0 <= j < i ==> (#[trigger] out@[j])@ == (MatchArmModel {
                        body: resolve(self.source@, *self.ct, arms@[j].body),
                        ..arms@[j]@
                    }),
            decreases arms@.len() - i,
        {
            proof {
                crate::ir::core_ir::lemma_arm_is_part(self.source@.stmt(owner), i as int);
                assert(self.source@.stmt(owner)->arms[i as int] == arms@[i as int]@);
            }
            let body = self.rewrite_part(Ghost(owner), arms[i].body);
            out.push(
                MatchArm {
                    tag: arms[i].tag,
                    binders: copy_vars(&arms[i].binders),
                    body,
                    span: arms[i].span,
                },
            );
            i += 1;
        }
        proof {
            let want = crate::common::views(arms@).map_values(
                |arm: MatchArmModel|
                    MatchArmModel { body: resolve(self.source@, *self.ct, arm.body), ..arm },
            );
            assert(crate::common::views(out@) =~= want);
        }
        out
    }

    #[verifier::rlimit(60)]
    #[verifier::spinoff_prover]
    fn rewrite_stmt(&mut self, id: StmtId) -> (to: StmtId)
        requires
            old(self).ready(),
            code_reached(old(self).source@, id.0),
        ensures
            final(self).ready(),
            final(self).stepped(*old(self)),
            final(self).memo@.contains_key(id.0),
            to == resolve(old(self).source@, *old(self).ct, id),
        decreases old(self).source@.stmt_rank(id), 2nat,
    {
        let ghost p = self.source@;
        if let Some(mapped) = self.memo.get(&id.0) {
            return *mapped;
        }
        let kind = match self.program.stmt(id) {
            None => {
                let ghost before = *self;
                self.memo.insert(id.0, id);
                proof {
                    assert forall|i: int|
                        0 <= i < p.stmts.len() implies #[trigger] self.program@.stmts[i]
                        == self.node_at(i) by {
                        assert(before.program@.stmts[i] == before.node_at(i));
                        assert((i as usize) != id.0);
                        assert(self.memo@.contains_key(i as usize) == before.memo@.contains_key(
                            i as usize,
                        ));
                    }
                }
                return id;
            },
            Some(node) => {
                assert(self.program@.stmts[id.0 as int] == self.node_at(id.0 as int));
                node.kind.clone()
            },
        };
        assert(kind@ == p.stmt(id));
        match kind {
            StmtKind::Return(_) | StmtKind::Hole { .. } | StmtKind::Error(_) => self.settle(
                id,
                kind,
            ),
            StmtKind::Let { binding, value, next } => {
                let next = self.rewrite_part(Ghost(id), next);
                self.settle(id, StmtKind::Let { binding, value, next })
            },
            StmtKind::Val { binding, value, next } => {
                let value = self.rewrite_part(Ghost(id), value);
                let next = self.rewrite_part(Ghost(id), next);
                self.settle(id, StmtKind::Val { binding, value, next })
            },
            StmtKind::Call { result, callee, args, effects, next } => {
                let next = self.rewrite_part(Ghost(id), next);
                self.settle(id, StmtKind::Call { result, callee, args, effects, next })
            },
            StmtKind::Resume { result, resume, arg, next } => {
                let next = self.rewrite_part(Ghost(id), next);
                self.settle(id, StmtKind::Resume { result, resume, arg, next })
            },
            StmtKind::Perform { result, effect, operation, args, next } => {
                let next = self.rewrite_part(Ghost(id), next);
                self.settle(id, StmtKind::Perform { result, effect, operation, args, next })
            },
            StmtKind::If { cond, then_branch, else_branch } => {
                let then_branch = self.rewrite_part(Ghost(id), then_branch);
                let else_branch = self.rewrite_part(Ghost(id), else_branch);
                match self.pick_if_branch(cond, then_branch, else_branch) {
                    Some(live) => {
                        self.redirect(id, live);
                        live
                    },
                    None => self.settle(id, StmtKind::If { cond, then_branch, else_branch }),
                }
            },
            StmtKind::Match { scrutinee, arms, default } => {
                let out = self.rewrite_arms(Ghost(id), &arms);
                let new_default = self.rewrite_optional_part(Ghost(id), default);
                proof {
                    lemma_arm_from_mapped(
                        p,
                        *self.ct,
                        crate::common::views(arms@),
                        crate::common::views(out@),
                        0,
                    );
                    assert forall|part: StmtId| #[trigger]
                        p.stmt(id).has_part(part) implies self.memo@.contains_key(part.0) by {
                        if default != Some(part) {
                            let views = crate::common::views(arms@);
                            let k = choose|k: int|
                                0 <= k < views.len() && (#[trigger] views[k]).body == part;
                            assert(views[k] == arms@[k]@);
                            assert(self.memo@.contains_key(arms@[k].body.0));
                        }
                    }
                }
                match self.pick_match_branch(scrutinee, &out, new_default) {
                    Some(live) => {
                        self.redirect(id, live);
                        live
                    },
                    None => self.settle(
                        id,
                        StmtKind::Match { scrutinee, arms: out, default: new_default },
                    ),
                }
            },
            StmtKind::Handle { handler, body, next } => {
                let body = self.rewrite_part(Ghost(id), body);
                let next = self.rewrite_optional_part(Ghost(id), next);
                self.settle(id, StmtKind::Handle { handler, body, next })
            },
            StmtKind::Stage { stage, body, next } => {
                let body = self.rewrite_part(Ghost(id), body);
                let next = self.rewrite_optional_part(Ghost(id), next);
                self.settle(id, StmtKind::Stage { stage, body, next })
            },
        }
    }

    /// The branch that is known to be taken.
    fn pick_if_branch(&self, cond: ExprId, then_branch: StmtId, else_branch: StmtId) -> (live:
        Option<StmtId>)
        requires
            self.ready(),
        ensures
            live == (match live_branch(self.source@, *self.ct, cond) {
                Some(taken) => Some(
                    if taken {
                        then_branch
                    } else {
                        else_branch
                    },
                ),
                None => None,
            }),
    {
        if let Some(decision) = self.ct.branch_decisions.get(cond.0) {
            return match *decision {
                BranchDecision::LiveTrue => Some(then_branch),
                BranchDecision::LiveFalse => Some(else_branch),
                BranchDecision::Unknown => None,
            };
        }
        if let Some(Literal::Bool(value)) = self.ct.ct_cache.get(cond.0) {
            return Some(
                if *value {
                    then_branch
                } else {
                    else_branch
                },
            );
        }
        if let Some(node) = self.program.expr(cond) {
            assert(node@ == self.source@.exprs[cond.0 as int]);
            if let ExprKind::Literal(Literal::Bool(value)) = &node.kind {
                return Some(
                    if *value {
                        then_branch
                    } else {
                        else_branch
                    },
                );
            }
        }
        None
    }

    /// The arm that is known to be taken.
    fn pick_match_branch(
        &self,
        scrutinee: ExprId,
        arms: &Vec<MatchArm>,
        default: Option<StmtId>,
    ) -> (live: Option<StmtId>)
        requires
            self.ready(),
        ensures
            live == (match known_variant(self.source@, scrutinee) {
                Some(tag) => match arm_from(crate::common::views(arms@), tag, 0) {
                    Some(body) => Some(body),
                    None => default,
                },
                None => None,
            }),
    {
        let variant = match self.program.expr(scrutinee) {
            None => {
                return None;
            },
            Some(node) => {
                assert(node@ == self.source@.exprs[scrutinee.0 as int]);
                match &node.kind {
                    ExprKind::MakeEnum { variant, .. } => *variant,
                    _ => {
                        return None;
                    },
                }
            },
        };
        let ghost views = crate::common::views(arms@);
        let mut i: usize = 0;
        while i < arms.len()
            invariant
                i <= arms@.len(),
                views == crate::common::views(arms@),
                arm_from(views, variant, 0) == arm_from(views, variant, i as int),
                known_variant(self.source@, scrutinee) == Some(variant),
            decreases arms@.len() - i,
        {
            assert(views[i as int] == arms@[i as int]@);
            if arms[i].tag == variant {
                return Some(arms[i].body);
            }
            i += 1;
        }
        default
    }

    fn rewrite_function_roots(&mut self)
        requires
            old(self).ready(),
            old(self).program@.functions == old(self).source@.functions,
        ensures
            final(self).ready(),
            final(self).ct == old(self).ct,
            final(self).source == old(self).source,
            final(self).program@ == (CoreModel {
                stmts: final(self).program@.stmts,
                functions: pruned(old(self).source@, *old(self).ct).functions,
                ..old(self).program@
            }),
            forall|s: usize| #[trigger]
                old(self).memo@.contains_key(s) ==> final(self).memo@.contains_key(s),
            forall|f: FuncId| #![trigger old(self).source@.function(f)]
                old(self).source@.has_function(f) ==> final(self).memo@.contains_key(
                    old(self).source@.function(f).body.0,
                ),
    {
        let ghost p = self.source@;
        let ghost ct = *self.ct;
        let mut i: usize = 0;
        while i < self.program.functions.len()
            invariant
                p == self.source@,
                ct == *self.ct,
                self.ready(),
                self.ct == old(self).ct,
                self.source == old(self).source,
                i <= p.functions.len(),
                self.program@.functions.len() == p.functions.len(),
                self.program@ == (CoreModel {
                    stmts: self.program@.stmts,
                    functions: self.program@.functions,
                    ..old(self).program@
                }),
                forall|j: int|
                    0 <= j < i ==> #[trigger] self.program@.functions[j] == (FunctionModel {
                        body: resolve(p, ct, p.functions[j].body),
                        ..p.functions[j]
                    }),
                forall|j: int|
                    i <= j < p.functions.len() ==> #[trigger] self.program@.functions[j]
                        == p.functions[j],
                forall|s: usize| #[trigger]
                    old(self).memo@.contains_key(s) ==> self.memo@.contains_key(s),
                forall|f: FuncId| #![trigger p.function(f)]
                    f.0 < i ==> self.memo@.contains_key(p.function(f).body.0),
            decreases p.functions.len() - i,
        {
            let root = self.program.functions[i].body;
            proof {
                assert(self.program@.functions[i as int] == p.functions[i as int]);
                assert(p.function(FuncId(i)).body == root);
                assert(p.has_function(FuncId(i)));
                assert(code_roots(p).contains(root.0));
                crate::common::reach::lemma_reaches_root(
                    crate::passes::function_graph::stmt_edge(p),
                    code_roots(p),
                    root.0,
                );
            }
            let rewritten = self.rewrite_stmt(root);
            self.program.set_function_body(FuncId::new(i), rewritten);
            i += 1;
        }
        proof {
            assert(self.program@.functions =~= pruned(p, ct).functions);
        }
    }

    fn rewrite_handler(&mut self, h: usize)
        requires
            old(self).ready(),
            h < old(self).program@.handlers.len(),
            old(self).program@.handlers.len() == old(self).source@.handlers.len(),
            old(self).program@.handlers[h as int] == old(self).source@.handlers[h as int],
        ensures
            final(self).ready(),
            final(self).ct == old(self).ct,
            final(self).source == old(self).source,
            final(self).program@ == (CoreModel {
                stmts: final(self).program@.stmts,
                handlers: old(self).program@.handlers.update(
                    h as int,
                    pruned(old(self).source@, *old(self).ct).handlers[h as int],
                ),
                ..old(self).program@
            }),
            forall|s: usize| #[trigger]
                old(self).memo@.contains_key(s) ==> final(self).memo@.contains_key(s),
            final(self).memo@.contains_key(
                old(self).source@.handlers[h as int].return_body.0,
            ),
            forall|i: int|
                0 <= i < old(self).source@.handlers[h as int].clauses.len()
                    ==> final(self).memo@.contains_key(
                    (#[trigger] old(self).source@.handlers[h as int].clauses[i]).body.0,
                ),
    {
        let ghost p = self.source@;
        let ghost ct = *self.ct;
        let ghost edge = crate::passes::function_graph::stmt_edge(p);
        let ghost def = p.handlers[h as int];
        let return_body = self.program.handlers[h].return_body;
        proof {
            assert(p.handler(HandlerId(h)) == def);
            assert(p.has_handler(HandlerId(h)));
            assert(def.return_body == return_body);
            assert(code_roots(p).contains(return_body.0));
            crate::common::reach::lemma_reaches_root(edge, code_roots(p), return_body.0);
        }
        let rewritten_return = self.rewrite_stmt(return_body);
        assert(self.program@.handlers[h as int] == def);
        self.program.handlers[h].return_body = rewritten_return;
        let ghost middle = self.program@;
        assert(middle.handlers =~= old(self).program@.handlers.update(
            h as int,
            HandlerModel { return_body: rewritten_return, ..def },
        ));
        let mut i: usize = 0;
        while i < self.program.handlers[h].clauses.len()
            invariant
                p == self.source@,
                ct == *self.ct,
                edge == crate::passes::function_graph::stmt_edge(p),
                def == p.handlers[h as int],
                p.has_handler(HandlerId(h)),
                p.handler(HandlerId(h)) == def,
                self.ready(),
                self.ct == old(self).ct,
                self.source == old(self).source,
                h < self.program@.handlers.len(),
                self.program@.handlers.len() == old(self).program@.handlers.len(),
                i <= def.clauses.len(),
                self.program@ == (CoreModel {
                    stmts: self.program@.stmts,
                    handlers: self.program@.handlers,
                    ..old(self).program@
                }),
                forall|k: int|
                    0 <= k < self.program@.handlers.len() && k != h
                        ==> #[trigger] self.program@.handlers[k] == old(self).program@.handlers[k],
                self.program@.handlers[h as int] == (HandlerModel {
                    return_body: resolve(p, ct, def.return_body),
                    clauses: self.program@.handlers[h as int].clauses,
                    ..def
                }),
                self.program@.handlers[h as int].clauses.len() == def.clauses.len(),
                forall|j: int|
                    0 <= j < i ==> #[trigger] self.program@.handlers[h as int].clauses[j] == (
                    ClauseModel { body: resolve(p, ct, def.clauses[j].body), ..def.clauses[j] }),
                forall|j: int|
                    i <= j < def.clauses.len()
                        ==> #[trigger] self.program@.handlers[h as int].clauses[j]
                        == def.clauses[j],
                forall|s: usize| #[trigger]
                    old(self).memo@.contains_key(s) ==> self.memo@.contains_key(s),
                self.memo@.contains_key(def.return_body.0),
                forall|j: int|
                    0 <= j < i ==> self.memo@.contains_key((#[trigger] def.clauses[j]).body.0),
            decreases def.clauses.len() - i,
        {
            let ghost before = self.program@;
            let body = self.program.handlers[h].clauses[i].body;
            proof {
                assert(before.handlers[h as int].clauses[i as int] == def.clauses[i as int]);
                assert(before.handlers[h as int] == self.program.handlers@[h as int]@);
                assert(before.handlers[h as int].clauses[i as int]
                    == self.program.handlers@[h as int].clauses@[i as int]@);
                assert(p.handler(HandlerId(h)).clauses[i as int].body == body);
                assert(code_roots(p).contains(body.0));
                crate::common::reach::lemma_reaches_root(edge, code_roots(p), body.0);
            }
            let rewritten = self.rewrite_stmt(body);
            let ghost held = self.program.handlers@[h as int];
            assert(self.program@.handlers == before.handlers);
            self.program.handlers[h].clauses[i].body = rewritten;
            proof {
                let now = self.program.handlers@[h as int];
                assert(now.clauses@ == held.clauses@.update(i as int, now.clauses@[i as int]));
                assert(crate::common::views(now.clauses@) =~= crate::common::views(
                    held.clauses@,
                ).update(
                    i as int,
                    ClauseModel { body: rewritten, ..held.clauses@[i as int]@ },
                ));
                assert forall|k: int|
                    0 <= k < self.program@.handlers.len() && k != h implies #[trigger]
                self.program@.handlers[k] == before.handlers[k] by {
                    assert(self.program@.handlers[k] == self.program.handlers@[k]@);
                }
            }
            i += 1;
        }
        proof {
            let want = old(self).program@.handlers.update(
                h as int,
                pruned(p, ct).handlers[h as int],
            );
            assert(self.program@.handlers[h as int].clauses =~= pruned(p, ct).handlers[h as int].clauses);
            assert(self.program@.handlers =~= want);
        }
    }

    fn rewrite_handler_roots(&mut self)
        requires
            old(self).ready(),
            old(self).program@.handlers == old(self).source@.handlers,
        ensures
            final(self).ready(),
            final(self).ct == old(self).ct,
            final(self).source == old(self).source,
            final(self).program@ == (CoreModel {
                stmts: final(self).program@.stmts,
                handlers: pruned(old(self).source@, *old(self).ct).handlers,
                ..old(self).program@
            }),
            forall|s: usize| #[trigger]
                old(self).memo@.contains_key(s) ==> final(self).memo@.contains_key(s),
            forall|h: HandlerId| #![trigger old(self).source@.handler(h)]
                old(self).source@.has_handler(h) ==> final(self).memo@.contains_key(
                    old(self).source@.handler(h).return_body.0,
                ),
            forall|h: HandlerId, i: int| #![trigger old(self).source@.handler(h).clauses[i]]
                old(self).source@.has_handler(h) && 0 <= i < old(self).source@.handler(
                    h,
                ).clauses.len() ==> final(self).memo@.contains_key(
                    old(self).source@.handler(h).clauses[i].body.0,
                ),
    {
        let ghost p = self.source@;
        let ghost ct = *self.ct;
        let mut i: usize = 0;
        while i < self.program.handlers.len()
            invariant
                p == self.source@,
                ct == *self.ct,
                self.ready(),
                self.ct == old(self).ct,
                self.source == old(self).source,
                i <= p.handlers.len(),
                self.program@.handlers.len() == p.handlers.len(),
                self.program@ == (CoreModel {
                    stmts: self.program@.stmts,
                    handlers: self.program@.handlers,
                    ..old(self).program@
                }),
                forall|j: int|
                    0 <= j < i ==> #[trigger] self.program@.handlers[j] == pruned(
                        p,
                        ct,
                    ).handlers[j],
                forall|j: int|
                    i <= j < p.handlers.len() ==> #[trigger] self.program@.handlers[j]
                        == p.handlers[j],
                forall|s: usize| #[trigger]
                    old(self).memo@.contains_key(s) ==> self.memo@.contains_key(s),
                forall|h: HandlerId| #![trigger p.handler(h)]
                    h.0 < i ==> self.memo@.contains_key(p.handler(h).return_body.0),
                forall|h: HandlerId, k: int| #![trigger p.handler(h).clauses[k]]
                    h.0 < i && 0 <= k < p.handler(h).clauses.len() ==> self.memo@.contains_key(
                        p.handler(h).clauses[k].body.0,
                    ),
            decreases p.handlers.len() - i,
        {
            self.rewrite_handler(i);
            i += 1;
        }
        proof {
            assert(self.program@.handlers =~= pruned(p, ct).handlers);
        }
    }
}

/// Replacing the bodies of arms does not change which arm is the first for a
/// variant.
proof fn lemma_arm_from_mapped(
    p: CoreModel,
    ct: CtPropagationTables,
    arms: Seq<MatchArmModel>,
    out: Seq<MatchArmModel>,
    from: int,
)
    requires
        0 <= from,
        out == arms.map_values(
            |arm: MatchArmModel| MatchArmModel { body: resolve(p, ct, arm.body), ..arm },
        ),
    ensures
        forall|tag: SymbolId| #[trigger]
            arm_from(out, tag, from) == resolve_option(p, ct, arm_from(arms, tag, from)),
    decreases arms.len() - from,
{
    if from < arms.len() {
        lemma_arm_from_mapped(p, ct, arms, out, from + 1);
        assert forall|tag: SymbolId| #[trigger] arm_from(out, tag, from) == resolve_option(
            p,
            ct,
            arm_from(arms, tag, from),
        ) by {
            assert(arm_from(out, tag, from + 1) == resolve_option(
                p,
                ct,
                arm_from(arms, tag, from + 1),
            ));
        }
    }
}

/// Embedding values takes no cycle in: a literal has no parts.
pub proof fn lemma_embedded_acyclic(p: CoreModel, ct: CtPropagationTables)
    requires
        p.acyclic(),
        p.exprs.len() <= usize::MAX,
    ensures
        embedded(p, ct).acyclic(),
{
    let q = embedded(p, ct);
    let er = choose|rank: spec_fn(ExprId) -> nat| #[trigger] p.expr_ranking(rank);
    let sr = choose|rank: spec_fn(StmtId) -> nat| #[trigger] p.stmt_ranking(rank);
    assert(q.expr_ranking(er)) by {
        assert forall|e: ExprId, part: ExprId| #![trigger q.expr(e).has_part(part)]
            q.has_expr(e) && q.expr(e).has_part(part) implies er(part) < er(e) by {
            assert(p.expr(e).has_part(part));
        }
    }
    assert(q.stmt_ranking(sr)) by {
        assert forall|s: StmtId, part: StmtId| #![trigger q.stmt(s).has_part(part)]
            q.has_stmt(s) && q.stmt(s).has_part(part) implies sr(part) < sr(s) by {
            assert(p.stmt(s).has_part(part));
        }
    }
}

/// How many statements a program has: no more than there are positions.
fn count_stmts(program: &CoreProgram) -> (count: Ghost<usize>)
    ensures
        count@ == program@.stmts.len(),
{
    let n: usize = program.stmts.len();
    Ghost(n)
}

/// Embeds the values that are known, and cuts away the branches that are known
/// not to be taken.
fn apply_ct_residualization(program: CoreProgram, ct: &CtPropagationTables) -> (out: CoreProgram)
    requires
        program@.acyclic(),
    ensures
        out@ == pruned(embedded(program@, *ct), *ct),
{
    let ghost p0 = program@;
    let mut program = program;
    let bound = ct.ct_cache.bound();
    let expr_count: usize = program.exprs.len();
    let mut i: usize = 0;
    while i < bound
        invariant
            i <= bound,
            bound == ct.ct_cache.slots@.len(),
            program@ == (CoreModel { exprs: program@.exprs, ..p0 }),
            program@.exprs.len() == p0.exprs.len(),
            p0.exprs.len() == expr_count,
            forall|j: int|
                0 <= j < p0.exprs.len() ==> #[trigger] program@.exprs[j] == (if j < i {
                    embedded(p0, *ct).exprs[j]
                } else {
                    p0.exprs[j]
                }),
        decreases bound - i,
    {
        if let Some(value) = ct.ct_cache.get(i) {
            if i < expr_count {
                program.set_expr(ExprId::new(i), ExprKind::Literal(value.clone()));
            }
        }
        i += 1;
    }
    let ghost p = embedded(p0, *ct);
    proof {
        assert(program@.exprs =~= p.exprs) by {
            assert forall|j: int| 0 <= j < p0.exprs.len() implies #[trigger] program@.exprs[j]
                == p.exprs[j] by {
                if j >= bound {
                    assert(!ct.ct_cache@.contains_key(j as usize));
                }
            }
        }
        assert(program@ == p);
        lemma_embedded_acyclic(p0, *ct);
    }
    let stmt_count: Ghost<usize> = count_stmts(&program);
    let mut rewriter = StmtRewriter {
        program,
        ct,
        memo: HashMap::new(),
        source: Ghost(p),
    };
    proof {
        assert(rewriter.program@.stmts.len() == stmt_count@);
        assert(rewriter.ready());
    }
    rewriter.rewrite_function_roots();
    rewriter.rewrite_handler_roots();
    proof {
        let memo = rewriter.memo@.dom();
        let edge = crate::passes::function_graph::stmt_edge(p);
        assert(code_roots(p).subset_of(memo)) by {
            assert forall|s: usize| #[trigger] code_roots(p).contains(s) implies memo.contains(
                s,
            ) by {
                if exists|f: FuncId| #![trigger p.function(f)]
                    p.has_function(f) && p.function(f).body.0 == s {
                } else if exists|h: HandlerId| #![trigger p.handler(h)]
                    p.has_handler(h) && p.handler(h).return_body.0 == s {
                } else {
                }
            }
        }
        assert(rewriter.program@.stmts =~= pruned(p, *ct).stmts) by {
            assert forall|i: int| 0 <= i < p.stmts.len() implies #[trigger]
            rewriter.program@.stmts[i] == pruned(p, *ct).stmts[i] by {
                assert(rewriter.program@.stmts[i] == rewriter.node_at(i));
                if code_reached(p, i as usize) {
                    crate::common::reach::lemma_closed_holds_reached(
                        edge,
                        code_roots(p),
                        memo,
                        i as usize,
                    );
                }
            }
        }
        assert(rewriter.program@ =~= pruned(p, *ct));
    }
    rewriter.program
}

// ---------------------------------------------------------------------------
// Effect rows
// ---------------------------------------------------------------------------

/// What the body of a function does, as the type checker found it.
pub open spec fn summary_row(p: CoreModel, effects: Seq<SortedEffectRow>, f: FuncId) -> Seq<
    EffectLabelId,
> {
    if p.has_function(f) && p.function(f).body.0 < effects.len() {
        effects[p.function(f).body.0 as int]@
    } else {
        Seq::empty()
    }
}

/// A statement leads to its parts, and one that installs a handler to the
/// bodies of that handler.
pub open spec fn run_edge(p: CoreModel) -> spec_fn(usize, usize) -> bool {
    |a: usize, b: usize|
        p.has_stmt(StmtId(a)) && (p.stmt(StmtId(a)).has_part(StmtId(b)) || installs(
            p,
            p.stmt(StmtId(a)),
            StmtId(b),
        ))
}

/// Whether a statement installs a handler with the given body.
pub open spec fn installs(p: CoreModel, s: StmtModel, body: StmtId) -> bool {
    match s {
        StmtModel::Handle { handler, .. } => p.has_handler(handler) && handler_body(
            p.handler(handler),
            body,
        ),
        _ => false,
    }
}

pub open spec fn handler_body(def: HandlerModel, body: StmtId) -> bool {
    ||| def.return_body == body
    ||| exists|i: int| 0 <= i < def.clauses.len() && (#[trigger] def.clauses[i]).body == body
}

/// The bodies of the functions.
pub open spec fn body_set(p: CoreModel) -> Set<usize> {
    Set::new(
        |s: usize|
            exists|f: FuncId| #![trigger p.function(f)]
                p.has_function(f) && p.function(f).body.0 == s,
    )
}

/// Whether a function can come to run a statement.
pub open spec fn runs(p: CoreModel, s: usize) -> bool {
    crate::common::reach::reaches(run_edge(p), body_set(p), s)
}

/// A call with the effects that its callee's body has.
pub open spec fn with_row(p: CoreModel, effects: Seq<SortedEffectRow>, s: StmtModel) -> StmtModel {
    match s {
        StmtModel::Call { result, callee, args, next, .. } => StmtModel::Call {
            result,
            callee,
            args,
            effects: summary_row(p, effects, callee),
            next,
        },
        _ => s,
    }
}

/// The program whose calls carry the effects of their callees, where a function
/// can come to run them.
pub open spec fn with_rows(p: CoreModel, effects: Seq<SortedEffectRow>) -> CoreModel {
    CoreModel {
        stmts: Seq::new(
            p.stmts.len(),
            |i: int|
                if runs(p, i as usize) {
                    StmtNodeModel { kind: with_row(p, effects, p.stmts[i].kind), ..p.stmts[i] }
                } else {
                    p.stmts[i]
                },
        ),
        ..p
    }
}

/// The program whose functions declare no effects.
pub open spec fn erased(p: CoreModel) -> CoreModel {
    CoreModel {
        functions: p.functions.map_values(
            |f: FunctionModel|
                FunctionModel { declared_effects: Seq::<EffectLabelId>::empty(), ..f },
        ),
        ..p
    }
}

/// What is left of a program for run time.
pub open spec fn residual_program(
    p: CoreModel,
    ct: CtPropagationTables,
    effects: Seq<SortedEffectRow>,
) -> CoreModel {
    erased(with_rows(pruned(embedded(p, ct), ct), effects))
}

fn collect_function_effect_summary(
    program: &CoreProgram,
    stmt_effects: &Vec<SortedEffectRow>,
) -> (summary: DenseMap<SortedEffectRow>)
    ensures
        forall|f: usize| #[trigger]
            summary@.contains_key(f) <==> program@.has_function(FuncId(f)),
        forall|f: usize| #[trigger]
            summary@.contains_key(f) ==> summary@[f]@ == summary_row(
                program@,
                stmt_effects@,
                FuncId(f),
            ),
{
    let mut summary: DenseMap<SortedEffectRow> = DenseMap::new();
    let mut i: usize = 0;
    while i < program.functions.len()
        invariant
            i <= program.functions@.len(),
            forall|f: usize| #[trigger] summary@.contains_key(f) <==> f < i,
            forall|f: usize| #[trigger]
                summary@.contains_key(f) ==> summary@[f]@ == summary_row(
                    program@,
                    stmt_effects@,
                    FuncId(f),
                ),
        decreases program.functions@.len() - i,
    {
        let body = program.functions[i].body;
        assert(program@.functions[i as int] == program.functions@[i as int]@);
        let row = if body.0 < stmt_effects.len() {
            stmt_effects[body.0].clone()
        } else {
            SortedEffectRow::empty()
        };
        summary.insert(i, row);
        i += 1;
    }
    summary
}

/// The bodies of a handler, for visiting.
fn push_handler_bodies(program: &CoreProgram, handler: HandlerId, stack: &mut Vec<usize>)
    ensures
        forall|x: usize| #[trigger]
            final(stack)@.contains(x) <==> (old(stack)@.contains(x) || (program@.has_handler(
                handler,
            ) && handler_body(program@.handler(handler), StmtId(x)))),
{
    if let Some(def) = program.handler(handler) {
        let ghost before = stack@;
        stack.push(def.return_body.0);
        proof {
            crate::common::reach::lemma_pushed(before, def.return_body.0);
        }
        let mut i: usize = 0;
        while i < def.clauses.len()
            invariant
                i <= def.clauses@.len(),
                forall|x: usize| #[trigger]
                    stack@.contains(x) <==> (before.contains(x) || x == def.return_body.0
                        || exists|j: int| 0 <= j < i && (#[trigger] def.clauses@[j]).body.0 == x),
            decreases def.clauses@.len() - i,
        {
            let ghost middle = stack@;
            stack.push(def.clauses[i].body.0);
            proof {
                crate::common::reach::lemma_pushed(middle, def.clauses@[i as int].body.0);
            }
            i += 1;
        }
        proof {
            let model = program@.handler(handler);
            assert forall|x: usize| #[trigger] stack@.contains(x) <==> (before.contains(x)
                || handler_body(model, StmtId(x))) by {
                if exists|j: int|
                    0 <= j < def.clauses@.len() && (#[trigger] def.clauses@[j]).body.0 == x {
                    let j = choose|j: int|
                        0 <= j < def.clauses@.len() && (#[trigger] def.clauses@[j]).body.0 == x;
                    assert(model.clauses[j].body == StmtId(x));
                }
                if exists|j: int|
                    0 <= j < model.clauses.len() && (#[trigger] model.clauses[j]).body == StmtId(
                        x,
                    ) {
                    let j = choose|j: int|
                        0 <= j < model.clauses.len() && (#[trigger] model.clauses[j]).body
                            == StmtId(x);
                    assert(def.clauses@[j].body.0 == x);
                }
            }
        }
    }
}

fn push_parts(stack: &mut Vec<usize>, parts: &Vec<StmtId>)
    ensures
        forall|x: usize| #[trigger]
            final(stack)@.contains(x) <==> (old(stack)@.contains(x) || parts@.contains(StmtId(x))),
{
    let mut i: usize = 0;
    while i < parts.len()
        invariant
            i <= parts@.len(),
            forall|x: usize| #[trigger]
                stack@.contains(x) <==> (old(stack)@.contains(x) || parts@.take(
                    i as int,
                ).contains(StmtId(x))),
        decreases parts@.len() - i,
    {
        let ghost before = stack@;
        stack.push(parts[i].0);
        proof {
            crate::common::reach::lemma_pushed(before, parts@[i as int].0);
            crate::common::reach::lemma_pushed(parts@.take(i as int), parts@[i as int]);
            assert(parts@.take(i as int + 1) =~= parts@.take(i as int).push(parts@[i as int]));
        }
        i += 1;
    }
    assert(parts@.take(i as int) =~= parts@);
}

/// The statements that a function can come to run, ascending.
pub fn collect_reachable_stmts(program: &CoreProgram) -> (found: Vec<usize>)
    ensures
        crate::common::sorted::ascending(found@),
        forall|s: usize| #[trigger] found@.contains(s) <==> runs(program@, s),
{
    let ghost p = program@;
    let ghost edge = run_edge(p);
    let ghost roots = body_set(p);
    let mut seen: Vec<usize> = Vec::new();
    let mut stack: Vec<usize> = Vec::new();
    let mut i: usize = 0;
    while i < program.functions.len()
        invariant
            p == program@,
            i <= program.functions@.len(),
            stack@.len() == i,
            forall|j: int|
                0 <= j < i ==> #[trigger] stack@[j] == program.functions@[j].body.0,
        decreases program.functions@.len() - i,
    {
        stack.push(program.functions[i].body.0);
        i += 1;
    }
    proof {
        assert forall|s: usize| #[trigger] stack@.contains(s) <==> roots.contains(s) by {
            if stack@.contains(s) {
                let k = choose|k: int| 0 <= k < stack@.len() && stack@[k] == s;
                assert(p.function(FuncId(k as usize)) == program.functions@[k]@);
                assert(p.has_function(FuncId(k as usize)));
            }
            if roots.contains(s) {
                let f = choose|f: FuncId| #![trigger p.function(f)]
                    p.has_function(f) && p.function(f).body.0 == s;
                assert(p.function(f) == program.functions@[f.0 as int]@);
                assert(stack@[f.0 as int] == s);
            }
        }
        assert forall|s: usize| #[trigger] stack@.contains(s) implies runs(p, s) by {
            crate::common::reach::lemma_reaches_root(edge, roots, s);
        }
    }
    while stack.len() > 0
        invariant
            p == program@,
            edge == run_edge(p),
            roots == body_set(p),
            crate::common::sorted::ascending(seen@),
            forall|s: usize| #[trigger]
                roots.contains(s) ==> seen@.contains(s) || stack@.contains(s),
            forall|s: usize| #[trigger] seen@.contains(s) ==> runs(p, s),
            forall|s: usize| #[trigger] stack@.contains(s) ==> runs(p, s),
            forall|a: usize, b: usize|
                seen@.contains(a) && #[trigger] edge(a, b) ==> seen@.contains(b) || stack@.contains(
                    b,
                ),
        decreases
                crate::common::reach::position_count() - seen@.to_set().len(),
                stack@.len(),
    {
        let ghost stack_before = stack@;
        let ghost seen_before = seen@;
        let id: usize = stack[stack.len() - 1];
        stack.pop();
        proof {
            assert(stack_before =~= stack@.push(id));
            crate::common::reach::lemma_popped(stack_before, stack@, id);
        }
        if insert_sorted(&mut seen, id) {
            proof {
                seen@.lemma_cardinality_of_set();
                seen_before.lemma_cardinality_of_set();
                assert(seen@.to_set() =~= seen_before.to_set().insert(id));
                crate::common::reach::lemma_position_bound(seen@.to_set());
            }
            if let Some(node) = program.stmt(StmtId::new(id)) {
                let children = node.child_stmts();
                let ghost stack_first = stack@;
                push_parts(&mut stack, &children);
                let ghost stack_middle = stack@;
                if let StmtKind::Handle { handler, .. } = &node.kind {
                    push_handler_bodies(program, *handler, &mut stack);
                }
                proof {
                    let model = p.stmt(StmtId(id));
                    assert forall|s: usize| #[trigger] stack@.contains(s) <==> (
                    stack_first.contains(s) || edge(id, s)) by {
                        assert(stack_middle.contains(s) <==> (stack_first.contains(s)
                            || children@.contains(StmtId(s))));
                        assert(children@.contains(StmtId(s)) <==> model.has_part(StmtId(s)));
                    }
                    assert forall|s: usize| #[trigger] stack@.contains(s) implies runs(p, s) by {
                        if !stack_first.contains(s) {
                            crate::common::reach::lemma_reaches_step(edge, roots, id, s);
                        }
                    }
                    assert forall|a: usize, b: usize|
                        seen@.contains(a) && #[trigger] edge(a, b) implies seen@.contains(b)
                        || stack@.contains(b) by {
                        if a == id {
                            assert(stack@.contains(b));
                        } else if !seen_before.contains(b) {
                            assert(stack_before.contains(b));
                        }
                    }
                }
            }
        }
    }
    proof {
        assert forall|s: usize| #[trigger] runs(p, s) implies seen@.contains(s) by {
            crate::common::reach::lemma_closed_holds_reached(edge, roots, seen@.to_set(), s);
        }
    }
    seen
}

/// Puts the effects of the callees on the calls.
fn rewrite_call_effect_rows(
    program: CoreProgram,
    summaries: &DenseMap<SortedEffectRow>,
    Ghost(effects): Ghost<Seq<SortedEffectRow>>,
) -> (out: CoreProgram)
    requires
        forall|f: usize| #[trigger]
            summaries@.contains_key(f) <==> program@.has_function(FuncId(f)),
        forall|f: usize| #[trigger]
            summaries@.contains_key(f) ==> summaries@[f]@ == summary_row(
                program@,
                effects,
                FuncId(f),
            ),
    ensures
        out@ == with_rows(program@, effects),
{
    let ghost p = program@;
    let reachable = collect_reachable_stmts(&program);
    let mut program = program;
    let mut i: usize = 0;
    let stmt_count: Ghost<usize> = count_stmts(&program);
    assert(p.stmts.len() == stmt_count@);
    while i < reachable.len()
        invariant
            i <= reachable@.len(),
            crate::common::sorted::ascending(reachable@),
            forall|s: usize| #[trigger] reachable@.contains(s) <==> runs(p, s),
            forall|f: usize| #[trigger]
                summaries@.contains_key(f) <==> p.has_function(FuncId(f)),
            forall|f: usize| #[trigger]
                summaries@.contains_key(f) ==> summaries@[f]@ == summary_row(
                    p,
                    effects,
                    FuncId(f),
                ),
            p.stmts.len() <= usize::MAX,
            program@ == (CoreModel { stmts: program@.stmts, ..p }),
            program@.stmts.len() == p.stmts.len(),
            forall|k: int|
                0 <= k < p.stmts.len() ==> #[trigger] program@.stmts[k] == (
                if reachable@.take(i as int).contains(k as usize) {
                    with_rows(p, effects).stmts[k]
                } else {
                    p.stmts[k]
                }),
        decreases reachable@.len() - i,
    {
        let id = StmtId::new(reachable[i]);
        let ghost before = program@;
        let ghost part = reachable@.take(i as int);
        proof {
            assert(reachable@.contains(id.0));
            crate::common::reach::lemma_pushed(part, id.0);
            assert(reachable@.take(i as int + 1) =~= part.push(id.0));
            if part.contains(id.0) {
                let k = choose|k: int| 0 <= k < part.len() && part[k] == id.0;
                assert(reachable@[k] < reachable@[i as int]);
            }
        }
        let rewritten = match program.stmt(id) {
            None => None,
            Some(node) => {
                assert(program@.stmts[id.0 as int] == p.stmts[id.0 as int]);
                match &node.kind {
                    StmtKind::Call { result, callee, args, next, .. } => {
                        let row = match summaries.get(callee.0) {
                            Some(row) => row.clone(),
                            None => SortedEffectRow::empty(),
                        };
                        assert(row@ =~= summary_row(p, effects, *callee));
                        Some(
                            StmtKind::Call {
                                result: *result,
                                callee: *callee,
                                args: crate::ir::core_ir::copy_exprs(args),
                                effects: row,
                                next: *next,
                            },
                        )
                    },
                    _ => None,
                }
            },
        };
        if let Some(kind) = rewritten {
            program.set_stmt(id, kind);
        }
        proof {
            assert forall|k: int| 0 <= k < p.stmts.len() implies #[trigger] program@.stmts[k] == (
            if reachable@.take(i as int + 1).contains(k as usize) {
                with_rows(p, effects).stmts[k]
            } else {
                p.stmts[k]
            }) by {
                assert(before.stmts[k] == (if part.contains(k as usize) {
                    with_rows(p, effects).stmts[k]
                } else {
                    p.stmts[k]
                }));
                if k == id.0 {
                    assert(runs(p, k as usize));
                } else {
                    assert((k as usize) != id.0);
                }
            }
        }
        i += 1;
    }
    proof {
        assert(reachable@.take(i as int) =~= reachable@);
        assert(program@.stmts =~= with_rows(p, effects).stmts);
        assert(program@ =~= with_rows(p, effects));
    }
    program
}

fn erase_function_effect_annotations(program: CoreProgram) -> (out: CoreProgram)
    ensures
        out@ == erased(program@),
{
    let ghost p = program@;
    let mut program = program;
    let mut i: usize = 0;
    while i < program.functions.len()
        invariant
            i <= program.functions@.len(),
            program@ == (CoreModel { functions: program@.functions, ..p }),
            program@.functions.len() == p.functions.len(),
            forall|j: int|
                0 <= j < p.functions.len() ==> #[trigger] program@.functions[j] == (if j < i {
                    erased(p).functions[j]
                } else {
                    p.functions[j]
                }),
        decreases program.functions@.len() - i,
    {
        let ghost before = program;
        program.functions[i].declared_effects = SortedEffectRow::empty();
        proof {
            assert forall|j: int| 0 <= j < p.functions.len() implies #[trigger] program@.functions[j]
                == (if j < i + 1 {
                erased(p).functions[j]
            } else {
                p.functions[j]
            }) by {
                assert(before@.functions[j] == before.functions@[j]@);
                assert(program@.functions[j] == program.functions@[j]@);
                if j == i {
                    assert(before@.functions[j] == p.functions[j]);
                    assert(program@.functions[j].declared_effects =~= Seq::<
                        EffectLabelId,
                    >::empty());
                } else {
                    assert(program.functions@[j] == before.functions@[j]);
                }
            }
            assert(program@.exprs == before@.exprs);
        }
        i += 1;
    }
    assert(program@.functions =~= erased(p).functions);
    assert(program@ =~= erased(p));
    program
}

// ---------------------------------------------------------------------------
// Laws
// ---------------------------------------------------------------------------

/// What is left of a statement is never something that is known to come down to
/// a part of itself, stands no higher than the statement, and exists where the
/// statement exists.
pub proof fn lemma_resolve(p: CoreModel, ct: CtPropagationTables, s: StmtId)
    requires
        p.acyclic(),
    ensures
        p.has_stmt(resolve(p, ct, s)) ==> live_child(
            p,
            ct,
            p.stmt(resolve(p, ct, s)),
        ) is None,
        p.stmt_rank(resolve(p, ct, s)) <= p.stmt_rank(s),
        p.stmts_closed() && p.has_stmt(s) ==> p.has_stmt(resolve(p, ct, s)),
    decreases p.stmt_rank(s),
{
    if p.has_stmt(s) {
        lemma_live_child(p, ct, p.stmt(s));
        match live_child(p, ct, p.stmt(s)) {
            Some(child) => {
                crate::ir::core_ir::lemma_stmt_rank(p, s, child);
                lemma_resolve(p, ct, child);
            },
            None => {},
        }
    }
}

/// The parts of a rewritten statement are what is left of the parts of the
/// statement.
pub proof fn lemma_relinked_part(
    p: CoreModel,
    ct: CtPropagationTables,
    s: StmtModel,
    part: StmtId,
) -> (source: StmtId)
    requires
        p.acyclic(),
        relinked(p, ct, s).has_part(part),
    ensures
        s.has_part(source),
        part == resolve(p, ct, source),
{
    match s {
        StmtModel::Let { next, .. } => next,
        StmtModel::Val { value, next, .. } => if part == resolve(p, ct, next) {
            next
        } else {
            value
        },
        StmtModel::Call { next, .. } => next,
        StmtModel::If { then_branch, else_branch, .. } => if part == resolve(p, ct, then_branch) {
            then_branch
        } else {
            else_branch
        },
        StmtModel::Match { arms, default, .. } => {
            let out = relinked(p, ct, s)->arms;
            if exists|i: int| 0 <= i < out.len() && (#[trigger] out[i]).body == part {
                let i = choose|i: int| 0 <= i < out.len() && (#[trigger] out[i]).body == part;
                crate::ir::core_ir::lemma_arm_is_part(s, i);
                arms[i].body
            } else {
                default->0
            }
        },
        StmtModel::Perform { next, .. } => next,
        StmtModel::Resume { next, .. } => next,
        StmtModel::Handle { body, next, .. } => if part == resolve(p, ct, body) {
            body
        } else {
            next->0
        },
        StmtModel::Stage { body, next, .. } => if part == resolve(p, ct, body) {
            body
        } else {
            next->0
        },
        _ => part,
    }
}

/// No statement that code leads to refers, once branches are cut away, to one
/// that is known to come down to a part of itself.
pub proof fn lemma_no_dead_branch(
    p: CoreModel,
    ct: CtPropagationTables,
    s: StmtId,
    part: StmtId,
)
    requires
        p.acyclic(),
        p.has_stmt(s),
        code_reached(p, s.0),
        live_child(p, ct, p.stmt(s)) is None,
        pruned(p, ct).stmt(s).has_part(part),
        p.has_stmt(part),
    ensures
        live_child(p, ct, p.stmt(part)) is None,
{
    let source = lemma_relinked_part(p, ct, p.stmt(s), part);
    lemma_resolve(p, ct, source);
}

/// A part of a statement of what is left is a part of the statement before, or
/// what is left of one.
proof fn lemma_residual_part(
    p0: CoreModel,
    ct: CtPropagationTables,
    effects: Seq<SortedEffectRow>,
    s: StmtId,
    part: StmtId,
) -> (source: StmtId)
    requires
        p0.acyclic(),
        p0.exprs.len() <= usize::MAX,
        p0.has_stmt(s),
        residual_program(p0, ct, effects).stmt(s).has_part(part),
    ensures
        p0.stmt(s).has_part(source),
        part == source || part == resolve(embedded(p0, ct), ct, source),
{
    let p = embedded(p0, ct);
    lemma_embedded_acyclic(p0, ct);
    let q = pruned(p, ct);
    assert(q.stmt(s).has_part(part));
    if code_reached(p, s.0) && live_child(p, ct, p.stmt(s)) is None {
        lemma_relinked_part(p, ct, p.stmt(s), part)
    } else {
        part
    }
}

/// What is left of a program without cycles has none.
pub proof fn lemma_residual_acyclic(
    p0: CoreModel,
    ct: CtPropagationTables,
    effects: Seq<SortedEffectRow>,
)
    requires
        p0.acyclic(),
        p0.exprs.len() <= usize::MAX,
    ensures
        residual_program(p0, ct, effects).acyclic(),
{
    let p = embedded(p0, ct);
    let q = residual_program(p0, ct, effects);
    lemma_embedded_acyclic(p0, ct);
    let er = |e: ExprId| p.expr_rank(e);
    let sr = |s: StmtId| p.stmt_rank(s);
    assert(q.expr_ranking(er)) by {
        assert forall|e: ExprId, part: ExprId| #![trigger q.expr(e).has_part(part)]
            q.has_expr(e) && q.expr(e).has_part(part) implies er(part) < er(e) by {
            assert(p.expr(e).has_part(part));
            crate::ir::core_ir::lemma_expr_rank(p, e, part);
        }
    }
    assert(q.stmt_ranking(sr)) by {
        assert forall|s: StmtId, part: StmtId| #![trigger q.stmt(s).has_part(part)]
            q.has_stmt(s) && q.stmt(s).has_part(part) implies sr(part) < sr(s) by {
            let source = lemma_residual_part(p0, ct, effects, s, part);
            assert(p.stmt(s).has_part(source));
            crate::ir::core_ir::lemma_stmt_rank(p, s, source);
            lemma_resolve(p, ct, source);
        }
    }
}

/// What is left of a program without dangling parts has none.
pub proof fn lemma_residual_closed(
    p0: CoreModel,
    ct: CtPropagationTables,
    effects: Seq<SortedEffectRow>,
)
    requires
        p0.acyclic(),
        p0.exprs.len() <= usize::MAX,
        p0.closed(),
    ensures
        residual_program(p0, ct, effects).closed(),
{
    let p = embedded(p0, ct);
    let q = residual_program(p0, ct, effects);
    lemma_embedded_acyclic(p0, ct);
    assert(p.stmts_closed()) by {
        assert forall|s: StmtId, part: StmtId| #![trigger p.stmt(s).has_part(part)]
            p.has_stmt(s) && p.stmt(s).has_part(part) implies p.has_stmt(part) by {
            assert(p0.stmt(s).has_part(part));
        }
        assert forall|s: StmtId, part: ExprId| #![trigger p.stmt(s).has_expr(part)]
            p.has_stmt(s) && p.stmt(s).has_expr(part) implies p.has_expr(part) by {
            assert(p0.stmt(s).has_expr(part));
        }
    }
    assert(q.exprs_closed()) by {
        assert forall|e: ExprId, part: ExprId| #![trigger q.expr(e).has_part(part)]
            q.has_expr(e) && q.expr(e).has_part(part) implies q.has_expr(part) by {
            assert(p0.expr(e).has_part(part));
        }
    }
    assert(q.stmts_closed()) by {
        assert forall|s: StmtId, part: StmtId| #![trigger q.stmt(s).has_part(part)]
            q.has_stmt(s) && q.stmt(s).has_part(part) implies q.has_stmt(part) by {
            let source = lemma_residual_part(p0, ct, effects, s, part);
            assert(p.stmt(s).has_part(source));
            lemma_resolve(p, ct, source);
        }
        assert forall|s: StmtId, part: ExprId| #![trigger q.stmt(s).has_expr(part)]
            q.has_stmt(s) && q.stmt(s).has_expr(part) implies q.has_expr(part) by {
            assert(p.stmt(s).has_expr(part));
        }
    }
    assert(q.functions_closed()) by {
        assert forall|f: FuncId| #![trigger q.function(f)] q.has_function(f) implies q.has_stmt(
            q.function(f).body,
        ) by {
            assert(p0.has_stmt(p0.function(f).body));
            lemma_resolve(p, ct, p0.function(f).body);
        }
    }
    assert(q.handlers_closed()) by {
        assert forall|h: HandlerId| #![trigger q.handler(h)] q.has_handler(h) implies q.has_stmt(
            q.handler(h).return_body,
        ) by {
            assert(p0.has_stmt(p0.handler(h).return_body));
            lemma_resolve(p, ct, p0.handler(h).return_body);
        }
        assert forall|h: HandlerId, i: int| #![trigger q.handler(h).clauses[i]]
            q.has_handler(h) && 0 <= i < q.handler(h).clauses.len() implies q.has_stmt(
            q.handler(h).clauses[i].body,
        ) by {
            assert(p0.has_stmt(p0.handler(h).clauses[i].body));
            lemma_resolve(p, ct, p0.handler(h).clauses[i].body);
        }
    }
}

/// Leaves of a program what happens at run time, with a summary of what each
/// function does.
pub fn run(bta: BtaClassified) -> (out: Residualized)
    requires
        bta.program@.acyclic(),
    ensures
        out.program@ == residual_program(
            bta.program@,
            bta.ct,
            bta.sema.effects_of_stmt@,
        ),
        out.diagnostics == bta.diagnostics,
        out.sema == bta.sema,
        out.mono == bta.mono,
        out.ct == bta.ct,
        out.bta == bta.bta,
        out.residual.only_summary(),
        forall|f: usize| #[trigger]
            out.residual.function_effect_summary@.contains_key(f) <==> out.program@.has_function(
                FuncId(f),
            ),
        forall|f: usize| #[trigger]
            out.residual.function_effect_summary@.contains_key(f)
                ==> out.residual.function_effect_summary@[f]@ == summary_row(
                out.program@,
                bta.sema.effects_of_stmt@,
                FuncId(f),
            ),
{
    let ghost p = bta.program@;
    let (program, diagnostics, sema, mono, ct, tables) = bta.into_parts();
    let program = apply_ct_residualization(program, &ct);
    let ghost q = program@;
    let summary = collect_function_effect_summary(&program, &sema.effects_of_stmt);
    let program = rewrite_call_effect_rows(program, &summary, Ghost(sema.effects_of_stmt@));
    let program = erase_function_effect_annotations(program);
    proof {
        assert forall|f: usize| #[trigger] summary@.contains_key(f) implies summary@[f]@
            == summary_row(program@, sema.effects_of_stmt@, FuncId(f)) by {
            assert(program@.function(FuncId(f)).body == q.function(FuncId(f)).body);
        }
    }
    Residualized::new(
        program,
        diagnostics,
        sema,
        mono,
        ct,
        tables,
        ResidualTables::from_summary(summary),
    )
}

} // verus!
