//! What is searched for in code is found just where it is there.
use crate::common::ids::{ExprId, StmtId};
use crate::ir::core_ir::{CoreModel, StmtModel};
use crate::pipeline::reason::{Reason, Stage};
use vstd::prelude::*;

verus! {

/// An expression stands right in a statement that code leads to.
pub open spec fn in_code(p: CoreModel, s: StmtId, e: ExprId) -> bool {
    exists|t: usize| #[trigger]
        crate::common::reach::reaches(
            crate::passes::function_graph::stmt_edge(p),
            set![s.0],
            t,
        ) && p.has_stmt(StmtId(t)) && p.stmt(StmtId(t)).has_expr(e)
}

proof fn lemma_in_itself(p: CoreModel, s: StmtId, e: ExprId)
    requires
        p.has_stmt(s),
        p.stmt(s).has_expr(e),
    ensures
        in_code(p, s, e),
{
    assert(StmtId(s.0) == s);
    crate::common::reach::lemma_reaches_root(
        crate::passes::function_graph::stmt_edge(p),
        set![s.0],
        s.0,
    );
}

proof fn lemma_in_part(p: CoreModel, s: StmtId, part: StmtId, e: ExprId)
    requires
        p.has_stmt(s),
        p.stmt(s).has_part(part),
        in_code(p, part, e),
    ensures
        in_code(p, s, e),
{
    let edge = crate::passes::function_graph::stmt_edge(p);
    let t = choose|t: usize| #[trigger]
        crate::common::reach::reaches(edge, set![part.0], t) && p.has_stmt(StmtId(t)) && p.stmt(
            StmtId(t),
        ).has_expr(e);
    assert(StmtId(s.0) == s && StmtId(part.0) == part);
    crate::meaning::resuming::lemma_reaches_through(edge, s.0, part.0, t);
}

/// An expression that stands in code stands right in the statement, or in one of
/// its parts.
proof fn lemma_where(p: CoreModel, s: StmtId, e: ExprId) -> (part: Option<StmtId>)
    requires
        in_code(p, s, e),
    ensures
        match part {
            Some(part) => p.has_stmt(s) && p.stmt(s).has_part(part) && in_code(p, part, e),
            None => p.has_stmt(s) && p.stmt(s).has_expr(e),
        },
{
    let edge = crate::passes::function_graph::stmt_edge(p);
    let t = choose|t: usize| #[trigger]
        crate::common::reach::reaches(edge, set![s.0], t) && p.has_stmt(StmtId(t)) && p.stmt(
            StmtId(t),
        ).has_expr(e);
    assert(StmtId(s.0) == s);
    if t == s.0 {
        None
    } else {
        let b = crate::meaning::counting::lemma_reaches_first(edge, s.0, t);
        assert(p.stmt(s).has_part(StmtId(b)));
        assert(in_code(p, StmtId(b), e));
        Some(StmtId(b))
    }
}

proof fn lemma_first_runtime(exprs: Map<usize, Stage>, list: Seq<ExprId>, first: nat)
    requires
        first <= list.len(),
    ensures
        match crate::pipeline::provenance::first_runtime(exprs, list, first) {
            Some(r) => exists|i: int|
                0 <= i < first && crate::pipeline::provenance::if_runtime(
                    exprs,
                    #[trigger] list[i],
                ) == Some(r) && forall|j: int|
                    0 <= j < i ==> crate::pipeline::provenance::if_runtime(
                        exprs,
                        #[trigger] list[j],
                    ) is None,
            None => forall|i: int| 0 <= i < first ==> crate::pipeline::provenance::if_runtime(
                exprs,
                #[trigger] list[i],
            ) is None,
        },
    decreases first,
{
    if first > 0 {
        lemma_first_runtime(exprs, list, (first - 1) as nat);
        assert(list[first - 1] == list[first - 1]);
    }
}

/// The expression that is found to be known at run time only is one, and stands in
/// the code; where none is found, none stands there.
#[verifier::spinoff_prover]
#[verifier::rlimit(60)]
pub proof fn lemma_runtime_found(p: CoreModel, exprs: Map<usize, Stage>, s: StmtId)
    requires
        p.acyclic(),
    ensures
        match crate::pipeline::provenance::stmt_runtime(p, exprs, s) {
            Some(r) => exists|e: ExprId|
                #[trigger] in_code(p, s, e) && r == e && exprs.contains_key(e.0) && exprs[e.0] is Rt,
            None => forall|e: ExprId|
                #[trigger] in_code(p, s, e)
                    ==> crate::pipeline::provenance::if_runtime(exprs, e) is None,
        },
    decreases p.stmt_rank(s), 1nat, 0nat,
{
    crate::passes::linearize::analysis::lemma_stmt_ranks(p, s);
    if p.has_stmt(s) {
        let own = p.stmt(s).expr_parts();
        assert forall|i: int| 0 <= i < own.len() implies in_code(p, s, #[trigger] own[i]) by {
            assert(own.contains(own[i]));
            lemma_in_itself(p, s, own[i]);
        }
        lemma_first_runtime(exprs, own, own.len());
        match p.stmt(s) {
            StmtModel::Let { next, .. } | StmtModel::Call { next, .. } | StmtModel::Perform {
                next,
                ..
            } | StmtModel::Resume { next, .. } => {
                lemma_runtime_in_part(p, exprs, s, next);
            },
            StmtModel::Val { value, next, .. } => {
                lemma_runtime_in_part(p, exprs, s, value);
                lemma_runtime_in_part(p, exprs, s, next);
            },
            StmtModel::If { then_branch, else_branch, .. } => {
                lemma_runtime_in_part(p, exprs, s, then_branch);
                lemma_runtime_in_part(p, exprs, s, else_branch);
            },
            StmtModel::Match { arms, default, .. } => {
                lemma_runtime_in_arms(p, exprs, s, arms.len());
                if let Some(part) = default {
                    lemma_runtime_in_part(p, exprs, s, part);
                }
            },
            StmtModel::Handle { body, next, .. } => {
                lemma_runtime_in_part(p, exprs, s, body);
                if let Some(part) = next {
                    lemma_runtime_in_part(p, exprs, s, part);
                }
            },
            StmtModel::Stage { body, next, .. } => {
                lemma_runtime_in_part(p, exprs, s, body);
                if let Some(part) = next {
                    lemma_runtime_in_part(p, exprs, s, part);
                }
            },
            _ => {},
        }
        match crate::pipeline::provenance::stmt_runtime(p, exprs, s) {
            Some(r) => {
                match p.stmt(s) {
                    StmtModel::Return(e) => {
                        assert(own[0] == e);
                    },
                    StmtModel::Let { value, .. } => {
                        assert(own[0] == value);
                    },
                    StmtModel::If { cond, .. } => {
                        assert(own[0] == cond);
                    },
                    StmtModel::Match { scrutinee, .. } => {
                        assert(own[0] == scrutinee);
                    },
                    StmtModel::Resume { arg, .. } => {
                        assert(own[0] == arg);
                    },
                    _ => {},
                }
            },
            None => {
                assert forall|e: ExprId| #[trigger]
                    in_code(p, s, e) implies crate::pipeline::provenance::if_runtime(exprs, e) is None by {
                    match lemma_where(p, s, e) {
                        None => {
                            match p.stmt(s) {
                                StmtModel::Call { args, .. } => {
                                    let i = choose|i: int| 0 <= i < args.len() && args[i] == e;
                                    assert(own[i] == e);
                                },
                                StmtModel::Perform { args, .. } => {
                                    let i = choose|i: int| 0 <= i < args.len() && args[i] == e;
                                    assert(own[i] == e);
                                },
                                _ => {},
                            }
                        },
                        Some(part) => {
                            assert(crate::pipeline::provenance::stmt_runtime(
                                p,
                                exprs,
                                part,
                            ) is None) by {
                                if let StmtModel::Match { arms, .. } = p.stmt(s) {
                                    if p.stmt(s)->default != Some(part) {
                                        let i = choose|i: int|
                                            0 <= i < arms.len()
                                                && (#[trigger] arms[i]).body == part;
                                        assert(arms[i].body == part);
                                    }
                                }
                            }
                            lemma_runtime_in_part(p, exprs, s, part);
                        },
                    }
                }
            },
        }
    } else {
        assert forall|e: ExprId| #[trigger] in_code(p, s, e) implies false by {
            let part = lemma_where(p, s, e);
        }
    }
}

proof fn lemma_runtime_in_part(p: CoreModel, exprs: Map<usize, Stage>, s: StmtId, part: StmtId)
    requires
        p.acyclic(),
        p.has_stmt(s),
        p.stmt(s).has_part(part),
        p.stmt_rank(part) < p.stmt_rank(s),
    ensures
        match crate::pipeline::provenance::stmt_runtime(p, exprs, part) {
            Some(r) => exists|e: ExprId|
                #[trigger] in_code(p, s, e) && r == e && exprs.contains_key(e.0) && exprs[e.0] is Rt,
            None => forall|e: ExprId|
                #[trigger] in_code(p, part, e)
                    ==> crate::pipeline::provenance::if_runtime(exprs, e) is None,
        },
    decreases p.stmt_rank(s), 0nat, 0nat,
{
    lemma_runtime_found(p, exprs, part);
    if let Some(r) = crate::pipeline::provenance::stmt_runtime(p, exprs, part) {
        let e = choose|e: ExprId|
            #[trigger] in_code(p, part, e) && r == e && exprs.contains_key(e.0) && exprs[e.0] is Rt;
        lemma_in_part(p, s, part, e);
    }
}

proof fn lemma_runtime_in_arms(p: CoreModel, exprs: Map<usize, Stage>, s: StmtId, first: nat)
    requires
        p.acyclic(),
        p.has_stmt(s),
        p.stmt(s) is Match,
        first <= p.stmt(s)->arms.len(),
    ensures
        match crate::pipeline::provenance::arms_runtime(p, exprs, s, first) {
            Some(r) => exists|e: ExprId|
                #[trigger] in_code(p, s, e) && r == e && exprs.contains_key(e.0) && exprs[e.0] is Rt,
            None => forall|i: int|
                0 <= i < first ==> crate::pipeline::provenance::stmt_runtime(
                    p,
                    exprs,
                    (#[trigger] p.stmt(s)->arms[i]).body,
                ) is None,
        },
    decreases p.stmt_rank(s), 0nat, first + 1,
{
    if first > 0 {
        crate::passes::linearize::analysis::lemma_stmt_ranks(p, s);
        crate::ir::core_ir::lemma_arm_is_part(p.stmt(s), first - 1);
        lemma_runtime_in_arms(p, exprs, s, (first - 1) as nat);
        lemma_runtime_in_part(p, exprs, s, p.stmt(s)->arms[first - 1].body);
    }
}

proof fn lemma_first_reason(exprs: Map<usize, Stage>, list: Seq<ExprId>, first: nat)
    requires
        first <= list.len(),
    ensures
        match crate::passes::bta::reasons::first_reason(exprs, list, first) {
            Some(r) => exists|i: int|
                0 <= i < first && crate::passes::bta::reasons::reason_of(
                    exprs,
                    #[trigger] list[i],
                ) == Some(r) && forall|j: int|
                    0 <= j < i ==> crate::passes::bta::reasons::reason_of(
                        exprs,
                        #[trigger] list[j],
                    ) is None,
            None => forall|i: int| 0 <= i < first ==> crate::passes::bta::reasons::reason_of(
                exprs,
                #[trigger] list[i],
            ) is None,
        },
    decreases first,
{
    if first > 0 {
        lemma_first_reason(exprs, list, (first - 1) as nat);
        assert(list[first - 1] == list[first - 1]);
    }
}

/// The reason that is found is that of an expression in the code, or that the code
/// branches on one that has a reason; where none is found, no expression has one.
#[verifier::spinoff_prover]
#[verifier::rlimit(60)]
pub proof fn lemma_reason_found(p: CoreModel, exprs: Map<usize, Stage>, s: StmtId)
    requires
        p.acyclic(),
    ensures
        match crate::passes::bta::reasons::stmt_reason(p, exprs, s) {
            Some(r) => exists|e: ExprId|
                #[trigger] in_code(p, s, e) && (
                    crate::passes::bta::reasons::reason_of(exprs, e) == Some(r)
                    || r == Reason::BranchOnRuntime(e)
                    && crate::passes::bta::reasons::reason_of(exprs, e) is Some
                ),
            None => forall|e: ExprId|
                #[trigger] in_code(p, s, e)
                    ==> crate::passes::bta::reasons::reason_of(exprs, e) is None,
        },
    decreases p.stmt_rank(s), 1nat, 0nat,
{
    crate::passes::linearize::analysis::lemma_stmt_ranks(p, s);
    if p.has_stmt(s) {
        let own = p.stmt(s).expr_parts();
        assert forall|i: int| 0 <= i < own.len() implies in_code(p, s, #[trigger] own[i]) by {
            assert(own.contains(own[i]));
            lemma_in_itself(p, s, own[i]);
        }
        lemma_first_reason(exprs, own, own.len());
        match p.stmt(s) {
            StmtModel::Let { next, .. } | StmtModel::Call { next, .. } | StmtModel::Perform {
                next,
                ..
            } | StmtModel::Resume { next, .. } => {
                lemma_reason_in_part(p, exprs, s, next);
            },
            StmtModel::Val { value, next, .. } => {
                lemma_reason_in_part(p, exprs, s, value);
                lemma_reason_in_part(p, exprs, s, next);
            },
            StmtModel::If { then_branch, else_branch, .. } => {
                lemma_reason_in_part(p, exprs, s, then_branch);
                lemma_reason_in_part(p, exprs, s, else_branch);
            },
            StmtModel::Match { arms, default, .. } => {
                lemma_reason_in_arms(p, exprs, s, arms.len());
                if let Some(part) = default {
                    lemma_reason_in_part(p, exprs, s, part);
                }
            },
            StmtModel::Handle { body, next, .. } => {
                lemma_reason_in_part(p, exprs, s, body);
                if let Some(part) = next {
                    lemma_reason_in_part(p, exprs, s, part);
                }
            },
            StmtModel::Stage { body, next, .. } => {
                lemma_reason_in_part(p, exprs, s, body);
                if let Some(part) = next {
                    lemma_reason_in_part(p, exprs, s, part);
                }
            },
            _ => {},
        }
        match crate::passes::bta::reasons::stmt_reason(p, exprs, s) {
            Some(r) => {
                match p.stmt(s) {
                    StmtModel::Return(e) => {
                        assert(own[0] == e);
                    },
                    StmtModel::Let { value, .. } => {
                        assert(own[0] == value);
                    },
                    StmtModel::If { cond, .. } => {
                        assert(own[0] == cond);
                    },
                    StmtModel::Match { scrutinee, .. } => {
                        assert(own[0] == scrutinee);
                    },
                    StmtModel::Resume { arg, .. } => {
                        assert(own[0] == arg);
                    },
                    _ => {},
                }
            },
            None => {
                assert forall|e: ExprId| #[trigger]
                    in_code(p, s, e) implies crate::passes::bta::reasons::reason_of(exprs, e) is None by {
                    match lemma_where(p, s, e) {
                        None => {
                            match p.stmt(s) {
                                StmtModel::Call { args, .. } => {
                                    let i = choose|i: int| 0 <= i < args.len() && args[i] == e;
                                    assert(own[i] == e);
                                },
                                StmtModel::Perform { args, .. } => {
                                    let i = choose|i: int| 0 <= i < args.len() && args[i] == e;
                                    assert(own[i] == e);
                                },
                                _ => {},
                            }
                        },
                        Some(part) => {
                            assert(crate::passes::bta::reasons::stmt_reason(
                                p,
                                exprs,
                                part,
                            ) is None) by {
                                if let StmtModel::Match { arms, .. } = p.stmt(s) {
                                    if p.stmt(s)->default != Some(part) {
                                        let i = choose|i: int|
                                            0 <= i < arms.len()
                                                && (#[trigger] arms[i]).body == part;
                                        assert(arms[i].body == part);
                                    }
                                }
                            }
                            lemma_reason_in_part(p, exprs, s, part);
                        },
                    }
                }
            },
        }
    } else {
        assert forall|e: ExprId| #[trigger] in_code(p, s, e) implies false by {
            let part = lemma_where(p, s, e);
        }
    }
}

proof fn lemma_reason_in_part(p: CoreModel, exprs: Map<usize, Stage>, s: StmtId, part: StmtId)
    requires
        p.acyclic(),
        p.has_stmt(s),
        p.stmt(s).has_part(part),
        p.stmt_rank(part) < p.stmt_rank(s),
    ensures
        match crate::passes::bta::reasons::stmt_reason(p, exprs, part) {
            Some(r) => exists|e: ExprId|
                #[trigger] in_code(p, s, e) && (
                    crate::passes::bta::reasons::reason_of(exprs, e) == Some(r)
                    || r == Reason::BranchOnRuntime(e)
                    && crate::passes::bta::reasons::reason_of(exprs, e) is Some
                ),
            None => forall|e: ExprId|
                #[trigger] in_code(p, part, e)
                    ==> crate::passes::bta::reasons::reason_of(exprs, e) is None,
        },
    decreases p.stmt_rank(s), 0nat, 0nat,
{
    lemma_reason_found(p, exprs, part);
    if let Some(r) = crate::passes::bta::reasons::stmt_reason(p, exprs, part) {
        let e = choose|e: ExprId|
            #[trigger] in_code(p, part, e) && (
                crate::passes::bta::reasons::reason_of(exprs, e) == Some(r)
                || r == Reason::BranchOnRuntime(e)
                && crate::passes::bta::reasons::reason_of(exprs, e) is Some
            );
        lemma_in_part(p, s, part, e);
    }
}

proof fn lemma_reason_in_arms(p: CoreModel, exprs: Map<usize, Stage>, s: StmtId, first: nat)
    requires
        p.acyclic(),
        p.has_stmt(s),
        p.stmt(s) is Match,
        first <= p.stmt(s)->arms.len(),
    ensures
        match crate::passes::bta::reasons::arms_reason(p, exprs, s, first) {
            Some(r) => exists|e: ExprId|
                #[trigger] in_code(p, s, e) && (
                    crate::passes::bta::reasons::reason_of(exprs, e) == Some(r)
                    || r == Reason::BranchOnRuntime(e)
                    && crate::passes::bta::reasons::reason_of(exprs, e) is Some
                ),
            None => forall|i: int|
                0 <= i < first ==> crate::passes::bta::reasons::stmt_reason(
                    p,
                    exprs,
                    (#[trigger] p.stmt(s)->arms[i]).body,
                ) is None,
        },
    decreases p.stmt_rank(s), 0nat, first + 1,
{
    if first > 0 {
        crate::passes::linearize::analysis::lemma_stmt_ranks(p, s);
        crate::ir::core_ir::lemma_arm_is_part(p.stmt(s), first - 1);
        lemma_reason_in_arms(p, exprs, s, (first - 1) as nat);
        lemma_reason_in_part(p, exprs, s, p.stmt(s)->arms[first - 1].body);
    }
}

} // verus!
