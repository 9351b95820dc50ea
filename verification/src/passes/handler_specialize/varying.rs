//! Functions that call themselves under handlers of more than one shape.
use crate::common::ids::{FuncId, HandlerId, StmtId};
use crate::ir::core_ir::{CoreModel, CoreProgram, MatchArm, StmtKind, StmtModel};
use crate::passes::handler_specialize::shape::{shape_for_handler, HandlerShape, HandlerShapeKey};
use std::collections::HashSet;
use vstd::prelude::*;

verus! {

/// What is looked for: a call of this function right under a handler of any
/// other shape than this.
pub struct Sought {
    pub callee: FuncId,
    pub shape: HandlerShape,
}

/// Whether a statement, under the handler that was installed last, comes to what
/// is looked for. Under a handler that does not exist nothing is looked for any
/// further.
pub open spec fn varies(p: CoreModel, s: StmtId, nearest: Option<HandlerId>, sought: Sought) -> bool
    decreases p.stmt_rank(s), 1nat, 0nat,
    when p.acyclic()
{
    proof {
        crate::passes::linearize::analysis::lemma_stmt_ranks(p, s);
    }
    p.has_stmt(s) && match p.stmt(s) {
        StmtModel::Call { callee, next, .. } => if callee == sought.callee && nearest is Some {
            p.has_handler(nearest->0) && (
            crate::passes::handler_specialize::shape::handler_shape(p, p.handler(nearest->0))
                != sought.shape || varies(p, next, nearest, sought))
        } else {
            varies(p, next, nearest, sought)
        },
        StmtModel::Handle { handler, body, next } => varies(p, body, Some(handler), sought)
            || match next {
            Some(next) => varies(p, next, nearest, sought),
            None => false,
        },
        StmtModel::Let { next, .. } => varies(p, next, nearest, sought),
        StmtModel::Val { value, next, .. } => varies(p, value, nearest, sought) || varies(
            p,
            next,
            nearest,
            sought,
        ),
        StmtModel::If { then_branch, else_branch, .. } => varies(p, then_branch, nearest, sought)
            || varies(p, else_branch, nearest, sought),
        StmtModel::Match { arms, default, .. } => arms_vary(p, s, arms.len(), nearest, sought)
            || match default {
            Some(default) => varies(p, default, nearest, sought),
            None => false,
        },
        StmtModel::Perform { next, .. } => varies(p, next, nearest, sought),
        StmtModel::Resume { next, .. } => varies(p, next, nearest, sought),
        StmtModel::Stage { body, next, .. } => varies(p, body, nearest, sought) || match next {
            Some(next) => varies(p, next, nearest, sought),
            None => false,
        },
        StmtModel::Return(_) | StmtModel::Hole { .. } | StmtModel::Error(_) => false,
    }
}

/// The same of the first arms of a statement.
pub open spec fn arms_vary(
    p: CoreModel,
    s: StmtId,
    first: nat,
    nearest: Option<HandlerId>,
    sought: Sought,
) -> bool
    decreases p.stmt_rank(s), 0nat, first,
    when p.acyclic()
{
    if first == 0 || !p.has_stmt(s) || !(p.stmt(s) is Match) || first > p.stmt(s)->arms.len() {
        false
    } else {
        proof {
            crate::ir::core_ir::lemma_arm_is_part(p.stmt(s), first - 1);
            crate::passes::linearize::analysis::lemma_stmt_ranks(p, s);
        }
        arms_vary(p, s, (first - 1) as nat, nearest, sought) || varies(
            p,
            p.stmt(s)->arms[first - 1].body,
            nearest,
            sought,
        )
    }
}

/// Statements that are known not to vary under a handler.
spec fn settled(
    p: CoreModel,
    seen: Set<usize>,
    nearest: Option<HandlerId>,
    sought: Sought,
) -> bool {
    forall|s: usize| #[trigger] seen.contains(s) ==> !varies(p, StmtId(s), nearest, sought)
}

fn search_arms(
    program: &CoreProgram,
    Ghost(owner): Ghost<StmtId>,
    arms: &Vec<MatchArm>,
    nearest: Option<HandlerId>,
    callee: FuncId,
    shape: &HandlerShapeKey,
    seen: &mut HashSet<usize>,
) -> (found: bool)
    requires
        program@.acyclic(),
        settled(program@, old(seen)@, nearest, (Sought { callee, shape: shape@ })),
        program@.has_stmt(owner),
        program@.stmt(owner) is Match,
        program@.stmt(owner)->arms == crate::common::views(arms@),
    ensures
        settled(program@, final(seen)@, nearest, (Sought { callee, shape: shape@ })),
        found == arms_vary(
            program@,
            owner,
            arms@.len(),
            nearest,
            (Sought { callee, shape: shape@ }),
        ),
    decreases program@.stmt_rank(owner), 0nat,
{
    let ghost p = program@;
    let ghost sought = Sought { callee, shape: shape@ };
    let mut found = false;
    let mut i: usize = 0;
    while i < arms.len()
        invariant
            p == program@,
            sought == (Sought { callee, shape: shape@ }),
            p.acyclic(),
            settled(p, seen@, nearest, sought),
            p.has_stmt(owner),
            p.stmt(owner) is Match,
            p.stmt(owner)->arms == crate::common::views(arms@),
            i <= arms@.len(),
            found == arms_vary(p, owner, i as nat, nearest, sought),
        decreases arms@.len() - i,
    {
        proof {
            crate::ir::core_ir::lemma_arm_is_part(p.stmt(owner), i as int);
            assert(p.stmt(owner)->arms[i as int] == arms@[i as int]@);
            crate::ir::core_ir::lemma_stmt_rank(p, owner, arms@[i as int].body);
        }
        found = found || search_stmt(program, arms[i].body, nearest, callee, shape, seen);
        i += 1;
    }
    found
}

#[verifier::rlimit(60)]
#[verifier::spinoff_prover]
fn search_stmt(
    program: &CoreProgram,
    stmt_id: StmtId,
    nearest: Option<HandlerId>,
    callee: FuncId,
    shape: &HandlerShapeKey,
    seen: &mut HashSet<usize>,
) -> (found: bool)
    requires
        program@.acyclic(),
        settled(program@, old(seen)@, nearest, (Sought { callee, shape: shape@ })),
    ensures
        settled(program@, final(seen)@, nearest, (Sought { callee, shape: shape@ })),
        found == varies(program@, stmt_id, nearest, (Sought { callee, shape: shape@ })),
    decreases program@.stmt_rank(stmt_id), 1nat,
{
    let ghost p = program@;
    let ghost sought = Sought { callee, shape: shape@ };
    proof {
        crate::passes::linearize::analysis::lemma_stmt_ranks(p, stmt_id);
    }
    if seen.contains(&stmt_id.0) {
        return false;
    }
    let found = match program.stmt(stmt_id) {
        None => false,
        Some(node) => match &node.kind {
            StmtKind::Return(_) | StmtKind::Hole { .. } | StmtKind::Error(_) => false,
            StmtKind::Call { callee: called, next, .. } => match nearest {
                Some(handler) => if *called == callee {
                    match shape_for_handler(program, handler) {
                        None => false,
                        Some(held) => !held.is_same(shape) || search_stmt(
                            program,
                            *next,
                            nearest,
                            callee,
                            shape,
                            seen,
                        ),
                    }
                } else {
                    search_stmt(program, *next, nearest, callee, shape, seen)
                },
                None => search_stmt(program, *next, nearest, callee, shape, seen),
            },
            StmtKind::Handle { handler, body, next } => {
                let mut inner: HashSet<usize> = HashSet::new();
                search_stmt(program, *body, Some(*handler), callee, shape, &mut inner)
                    || match next {
                    Some(next) => search_stmt(program, *next, nearest, callee, shape, seen),
                    None => false,
                }
            },
            StmtKind::Let { next, .. } => search_stmt(
                program,
                *next,
                nearest,
                callee,
                shape,
                seen,
            ),
            StmtKind::Val { value, next, .. } => search_stmt(
                program,
                *value,
                nearest,
                callee,
                shape,
                seen,
            ) || search_stmt(program, *next, nearest, callee, shape, seen),
            StmtKind::If { then_branch, else_branch, .. } => search_stmt(
                program,
                *then_branch,
                nearest,
                callee,
                shape,
                seen,
            ) || search_stmt(program, *else_branch, nearest, callee, shape, seen),
            StmtKind::Match { arms, default, .. } => search_arms(
                program,
                Ghost(stmt_id),
                arms,
                nearest,
                callee,
                shape,
                seen,
            ) || match default {
                Some(default) => search_stmt(program, *default, nearest, callee, shape, seen),
                None => false,
            },
            StmtKind::Perform { next, .. } => search_stmt(
                program,
                *next,
                nearest,
                callee,
                shape,
                seen,
            ),
            StmtKind::Resume { next, .. } => search_stmt(
                program,
                *next,
                nearest,
                callee,
                shape,
                seen,
            ),
            StmtKind::Stage { body, next, .. } => search_stmt(
                program,
                *body,
                nearest,
                callee,
                shape,
                seen,
            ) || match next {
                Some(next) => search_stmt(program, *next, nearest, callee, shape, seen),
                None => false,
            },
        },
    };
    if !found {
        seen.insert(stmt_id.0);
    }
    found
}

/// Whether a function comes to call itself right under a handler of any other
/// shape than the given one.
pub fn has_varying_recursive_wrapper_shapes(
    program: &CoreProgram,
    callee: FuncId,
    expected_shape: &HandlerShapeKey,
) -> (found: bool)
    requires
        program@.acyclic(),
    ensures
        found == (program@.has_function(callee) && varies(
            program@,
            program@.function(callee).body,
            None,
            (Sought { callee, shape: expected_shape@ }),
        )),
{
    match program.function(callee) {
        None => false,
        Some(function) => {
            let mut seen: HashSet<usize> = HashSet::new();
            search_stmt(program, function.body, None, callee, expected_shape, &mut seen)
        },
    }
}

} // verus!
