//! Statements that do nothing but call one function and hand its result on.
use crate::common::ids::{ExprId, FuncId, StmtId, VarId};
use crate::ir::core_ir::{
    CoreModel, CoreProgram, ExprKind, ExprModel, MatchArm, StmtKind, StmtModel,
};
use std::collections::HashMap;
use vstd::prelude::*;

verus! {

/// Whether an expression is just a variable.
pub open spec fn is_var(p: CoreModel, e: ExprId, var: VarId) -> bool {
    p.has_expr(e) && p.expr(e) == ExprModel::Var(var)
}

fn is_var_expr(program: &CoreProgram, e: ExprId, var: VarId) -> (b: bool)
    ensures
        b == is_var(program@, e, var),
{
    match program.expr(e) {
        Some(node) => match &node.kind {
            ExprKind::Var(found) => *found == var,
            _ => false,
        },
        None => false,
    }
}

// ---------------------------------------------------------------------------
// Handing a value on
// ---------------------------------------------------------------------------

/// Whether every way through a statement does nothing but return the value of a
/// variable.
pub open spec fn forwards(p: CoreModel, s: StmtId, var: VarId) -> bool
    decreases p.stmt_rank(s), 1nat, 0nat,
    when p.acyclic()
{
    proof {
        crate::passes::linearize::analysis::lemma_stmt_ranks(p, s);
    }
    p.has_stmt(s) && match p.stmt(s) {
        StmtModel::Return(e) => is_var(p, e, var),
        StmtModel::Let { binding, value, next } => is_var(p, value, var) && forwards(
            p,
            next,
            binding,
        ),
        StmtModel::Val { binding, value, next } => forwards(p, value, var) && forwards(
            p,
            next,
            binding,
        ),
        StmtModel::If { then_branch, else_branch, .. } => forwards(p, then_branch, var)
            && forwards(p, else_branch, var),
        StmtModel::Match { arms, default, .. } => match default {
            Some(default) => arms_forward(p, s, arms.len(), var) && forwards(p, default, var),
            None => false,
        },
        StmtModel::Stage { body, next, .. } => forwards(p, body, var) && match next {
            Some(next) => forwards(p, next, var),
            None => true,
        },
        _ => false,
    }
}

/// The same of the first arms of a statement.
pub open spec fn arms_forward(p: CoreModel, s: StmtId, first: nat, var: VarId) -> bool
    decreases p.stmt_rank(s), 0nat, first,
    when p.acyclic()
{
    if first == 0 || !p.has_stmt(s) || !(p.stmt(s) is Match) || first > p.stmt(s)->arms.len() {
        true
    } else {
        proof {
            crate::ir::core_ir::lemma_arm_is_part(p.stmt(s), first - 1);
            crate::passes::linearize::analysis::lemma_stmt_ranks(p, s);
        }
        arms_forward(p, s, (first - 1) as nat, var) && forwards(
            p,
            p.stmt(s)->arms[first - 1].body,
            var,
        )
    }
}

fn all_arms_forward(
    program: &CoreProgram,
    Ghost(owner): Ghost<StmtId>,
    arms: &Vec<MatchArm>,
    var: VarId,
) -> (b: bool)
    requires
        program@.acyclic(),
        program@.has_stmt(owner),
        program@.stmt(owner) is Match,
        program@.stmt(owner)->arms == crate::common::views(arms@),
    ensures
        b == arms_forward(program@, owner, arms@.len(), var),
    decreases program@.stmt_rank(owner), 0nat,
{
    let ghost p = program@;
    let mut all = true;
    let mut i: usize = 0;
    while i < arms.len()
        invariant
            p == program@,
            p.acyclic(),
            p.has_stmt(owner),
            p.stmt(owner) is Match,
            p.stmt(owner)->arms == crate::common::views(arms@),
            i <= arms@.len(),
            all == arms_forward(p, owner, i as nat, var),
        decreases arms@.len() - i,
    {
        proof {
            crate::ir::core_ir::lemma_arm_is_part(p.stmt(owner), i as int);
            assert(p.stmt(owner)->arms[i as int] == arms@[i as int]@);
            crate::ir::core_ir::lemma_stmt_rank(p, owner, arms@[i as int].body);
        }
        all = all && is_forwarding_tail_of_var(program, arms[i].body, var);
        i += 1;
    }
    all
}

/// Whether a statement does nothing but return the value of a variable.
pub fn is_forwarding_tail_of_var(program: &CoreProgram, stmt_id: StmtId, source_var: VarId) -> (b:
    bool)
    requires
        program@.acyclic(),
    ensures
        b == forwards(program@, stmt_id, source_var),
    decreases program@.stmt_rank(stmt_id), 1nat,
{
    proof {
        crate::passes::linearize::analysis::lemma_stmt_ranks(program@, stmt_id);
    }
    match program.stmt(stmt_id) {
        None => false,
        Some(node) => match &node.kind {
            StmtKind::Return(e) => is_var_expr(program, *e, source_var),
            StmtKind::Let { binding, value, next } => is_var_expr(program, *value, source_var)
                && is_forwarding_tail_of_var(program, *next, *binding),
            StmtKind::Val { binding, value, next } => is_forwarding_tail_of_var(
                program,
                *value,
                source_var,
            ) && is_forwarding_tail_of_var(program, *next, *binding),
            StmtKind::If { then_branch, else_branch, .. } => is_forwarding_tail_of_var(
                program,
                *then_branch,
                source_var,
            ) && is_forwarding_tail_of_var(program, *else_branch, source_var),
            StmtKind::Match { arms, default, .. } => match default {
                None => false,
                Some(default) => all_arms_forward(program, Ghost(stmt_id), arms, source_var)
                    && is_forwarding_tail_of_var(program, *default, source_var),
            },
            StmtKind::Stage { body, next, .. } => is_forwarding_tail_of_var(
                program,
                *body,
                source_var,
            ) && match next {
                Some(next) => is_forwarding_tail_of_var(program, *next, source_var),
                None => true,
            },
            _ => false,
        },
    }
}

// ---------------------------------------------------------------------------
// Wrapping a call
// ---------------------------------------------------------------------------

/// Whether every way through a statement comes to a call of one function, and
/// only hands its result on.
pub open spec fn wraps(p: CoreModel, s: StmtId, f: FuncId) -> bool
    decreases p.stmt_rank(s), 1nat, 0nat,
    when p.acyclic()
{
    proof {
        crate::passes::linearize::analysis::lemma_stmt_ranks(p, s);
    }
    p.has_stmt(s) && match p.stmt(s) {
        StmtModel::Call { callee, .. } => callee == f,
        StmtModel::Let { next, .. } => wraps(p, next, f),
        StmtModel::Val { binding, value, next } => forwards(p, next, binding) && wraps(
            p,
            value,
            f,
        ),
        StmtModel::If { then_branch, else_branch, .. } => wraps(p, then_branch, f) && wraps(
            p,
            else_branch,
            f,
        ),
        StmtModel::Match { arms, default, .. } => {
            &&& arms.len() > 0 || default is Some
            &&& arms_wrap(p, s, arms.len(), f)
            &&& match default {
                Some(default) => wraps(p, default, f),
                None => true,
            }
        },
        StmtModel::Stage { body, next, .. } => wraps(p, body, f) && match next {
            Some(next) => wraps(p, next, f),
            None => true,
        },
        _ => false,
    }
}

/// The same of the first arms of a statement.
pub open spec fn arms_wrap(p: CoreModel, s: StmtId, first: nat, f: FuncId) -> bool
    decreases p.stmt_rank(s), 0nat, first,
    when p.acyclic()
{
    if first == 0 || !p.has_stmt(s) || !(p.stmt(s) is Match) || first > p.stmt(s)->arms.len() {
        true
    } else {
        proof {
            crate::ir::core_ir::lemma_arm_is_part(p.stmt(s), first - 1);
            crate::passes::linearize::analysis::lemma_stmt_ranks(p, s);
        }
        arms_wrap(p, s, (first - 1) as nat, f) && wraps(p, p.stmt(s)->arms[first - 1].body, f)
    }
}

/// What some arms wrap, the last of them wraps, and those before it.
proof fn lemma_last_arm(p: CoreModel, s: StmtId, first: nat, f: FuncId)
    requires
        p.acyclic(),
        p.has_stmt(s),
        p.stmt(s) is Match,
        0 < first <= p.stmt(s)->arms.len(),
    ensures
        arms_wrap(p, s, first, f) == (arms_wrap(p, s, (first - 1) as nat, f) && wraps(
            p,
            p.stmt(s)->arms[first - 1].body,
            f,
        )),
{
}

/// A statement wraps a call of one function at most.
pub proof fn lemma_wraps_one(p: CoreModel, s: StmtId, f: FuncId, g: FuncId)
    requires
        p.acyclic(),
        wraps(p, s, f),
        wraps(p, s, g),
    ensures
        f == g,
    decreases p.stmt_rank(s),
{
    crate::passes::linearize::analysis::lemma_stmt_ranks(p, s);
    match p.stmt(s) {
        StmtModel::Let { next, .. } => lemma_wraps_one(p, next, f, g),
        StmtModel::Val { value, .. } => lemma_wraps_one(p, value, f, g),
        StmtModel::If { then_branch, .. } => lemma_wraps_one(p, then_branch, f, g),
        StmtModel::Match { arms, default, .. } => {
            if arms.len() > 0 {
                crate::ir::core_ir::lemma_arm_is_part(p.stmt(s), arms.len() - 1);
                lemma_last_arm(p, s, arms.len(), f);
                lemma_last_arm(p, s, arms.len(), g);
                lemma_wraps_one(p, arms[arms.len() - 1].body, f, g);
            } else {
                lemma_wraps_one(p, default->0, f, g);
            }
        },
        StmtModel::Stage { body, .. } => lemma_wraps_one(p, body, f, g),
        _ => {},
    }
}

/// The function that a statement wraps a call of, if it wraps one.
pub open spec fn wraps_what(p: CoreModel, s: StmtId, callee: Option<FuncId>) -> bool {
    match callee {
        Some(f) => wraps(p, s, f),
        None => forall|f: FuncId| !#[trigger] wraps(p, s, f),
    }
}

/// What has been found of statements.
pub struct WrapperCache {
    pub found: HashMap<usize, Option<FuncId>>,
}

impl WrapperCache {
    pub open spec fn sound(self, p: CoreModel) -> bool {
        forall|s: usize| #[trigger]
            self.found@.contains_key(s) ==> wraps_what(p, StmtId(s), self.found@[s])
    }

    pub fn new() -> (cache: Self)
        ensures
            forall|p: CoreModel| #[trigger] cache.sound(p),
    {
        WrapperCache { found: HashMap::new() }
    }
}

fn same_callee(lhs: Option<FuncId>, rhs: Option<FuncId>) -> (callee: Option<FuncId>)
    ensures
        callee == (if lhs == rhs {
            lhs
        } else {
            None
        }),
{
    match (lhs, rhs) {
        (Some(f), Some(g)) => if f == g {
            Some(f)
        } else {
            None
        },
        _ => None,
    }
}

/// What the arms of a statement wrap, starting from what is wrapped before
/// them: nothing yet, or one function.
enum ArmCallee {
    Open,
    One(FuncId),
    Mixed,
}

impl ArmCallee {
    spec fn after_arms(self, p: CoreModel, s: StmtId, first: nat) -> bool {
        match self {
            ArmCallee::Open => first == 0,
            ArmCallee::One(f) => first > 0 && arms_wrap(p, s, first, f),
            ArmCallee::Mixed => forall|f: FuncId| !#[trigger] arms_wrap(p, s, first, f),
        }
    }
}

fn arms_callee(
    program: &CoreProgram,
    Ghost(owner): Ghost<StmtId>,
    arms: &Vec<MatchArm>,
    cache: &mut WrapperCache,
) -> (callee: ArmCallee)
    requires
        program@.acyclic(),
        old(cache).sound(program@),
        program@.has_stmt(owner),
        program@.stmt(owner) is Match,
        program@.stmt(owner)->arms == crate::common::views(arms@),
    ensures
        final(cache).sound(program@),
        callee.after_arms(program@, owner, arms@.len()),
    decreases program@.stmt_rank(owner), 0nat,
{
    let ghost p = program@;
    let mut callee = ArmCallee::Open;
    let mut i: usize = 0;
    while i < arms.len()
        invariant
            p == program@,
            p.acyclic(),
            cache.sound(p),
            p.has_stmt(owner),
            p.stmt(owner) is Match,
            p.stmt(owner)->arms == crate::common::views(arms@),
            i <= arms@.len(),
            callee.after_arms(p, owner, i as nat),
        decreases arms@.len() - i,
    {
        let ghost before = callee;
        proof {
            crate::ir::core_ir::lemma_arm_is_part(p.stmt(owner), i as int);
            assert(p.stmt(owner)->arms[i as int] == arms@[i as int]@);
            crate::ir::core_ir::lemma_stmt_rank(p, owner, arms@[i as int].body);
        }
        let found = wrapper_call_callee(program, arms[i].body, cache);
        callee = match (callee, found) {
            (ArmCallee::Open, Some(f)) => ArmCallee::One(f),
            (ArmCallee::One(f), Some(g)) => if f == g {
                ArmCallee::One(f)
            } else {
                ArmCallee::Mixed
            },
            _ => ArmCallee::Mixed,
        };
        proof {
            let body = arms@[i as int].body;
            let more = (i + 1) as nat;
            if let ArmCallee::One(f) = callee {
                lemma_last_arm(p, owner, more, f);
            }
            if callee is Mixed {
                assert forall|f: FuncId| !#[trigger] arms_wrap(p, owner, more, f) by {
                    lemma_last_arm(p, owner, more, f);
                    if arms_wrap(p, owner, more, f) {
                        assert(arms_wrap(p, owner, i as nat, f));
                        assert(wraps(p, body, f));
                        match (before, found) {
                            (ArmCallee::One(g), Some(h)) => {
                                lemma_wraps_one(p, body, f, h);
                                lemma_last_arm(p, owner, i as nat, f);
                                lemma_last_arm(p, owner, i as nat, g);
                                lemma_wraps_one(p, p.stmt(owner)->arms[i as int - 1].body, f, g);
                            },
                            _ => {},
                        }
                    }
                }
            }
        }
        i += 1;
    }
    callee
}

/// The function that a statement wraps a call of, if it wraps one.
#[verifier::rlimit(60)]
#[verifier::spinoff_prover]
pub fn wrapper_call_callee(
    program: &CoreProgram,
    stmt_id: StmtId,
    cache: &mut WrapperCache,
) -> (callee: Option<FuncId>)
    requires
        program@.acyclic(),
        old(cache).sound(program@),
    ensures
        final(cache).sound(program@),
        wraps_what(program@, stmt_id, callee),
    decreases program@.stmt_rank(stmt_id), 1nat,
{
    let ghost p = program@;
    proof {
        crate::passes::linearize::analysis::lemma_stmt_ranks(p, stmt_id);
    }
    if let Some(cached) = cache.found.get(&stmt_id.0) {
        return *cached;
    }
    let resolved = match program.stmt(stmt_id) {
        None => None,
        Some(node) => match &node.kind {
            StmtKind::Call { callee, .. } => Some(*callee),
            StmtKind::Let { next, .. } => {
                let found = wrapper_call_callee(program, *next, cache);
                proof {
                    lemma_one(p, stmt_id, *next, found);
                }
                found
            },
            StmtKind::Val { binding, value, next } => if is_forwarding_tail_of_var(
                program,
                *next,
                *binding,
            ) {
                let found = wrapper_call_callee(program, *value, cache);
                proof {
                    lemma_one(p, stmt_id, *value, found);
                }
                found
            } else {
                None
            },
            StmtKind::If { then_branch, else_branch, .. } => {
                let lhs = wrapper_call_callee(program, *then_branch, cache);
                let rhs = wrapper_call_callee(program, *else_branch, cache);
                proof {
                    lemma_two(p, stmt_id, *then_branch, *else_branch, lhs, rhs);
                }
                same_callee(lhs, rhs)
            },
            StmtKind::Match { arms, default, .. } => {
                let callee = arms_callee(program, Ghost(stmt_id), arms, cache);
                let rest = match default {
                    None => None,
                    Some(default) => wrapper_call_callee(program, *default, cache),
                };
                proof {
                    lemma_match(p, stmt_id, callee, rest);
                }
                match (callee, default.is_some()) {
                    (ArmCallee::Open, true) => rest,
                    (ArmCallee::One(f), true) => same_callee(Some(f), rest),
                    (ArmCallee::One(f), false) => Some(f),
                    _ => None,
                }
            },
            StmtKind::Stage { body, next, .. } => {
                let first = wrapper_call_callee(program, *body, cache);
                match next {
                    None => {
                        proof {
                            lemma_one(p, stmt_id, *body, first);
                        }
                        first
                    },
                    Some(next) => {
                        let rest = wrapper_call_callee(program, *next, cache);
                        proof {
                            lemma_two(p, stmt_id, *body, *next, first, rest);
                        }
                        same_callee(first, rest)
                    },
                }
            },
            _ => None,
        },
    };
    cache.found.insert(stmt_id.0, resolved);
    resolved
}

/// What a statement with arms wraps.
proof fn lemma_match(p: CoreModel, s: StmtId, callee: ArmCallee, rest: Option<FuncId>)
    requires
        p.acyclic(),
        p.has_stmt(s),
        p.stmt(s) is Match,
        callee.after_arms(p, s, p.stmt(s)->arms.len()),
        p.stmt(s)->default is Some ==> wraps_what(p, p.stmt(s)->default->0, rest),
    ensures
        forall|f: FuncId| #[trigger]
            wraps(p, s, f) <==> (match (callee, p.stmt(s)->default is Some) {
                (ArmCallee::Open, true) => rest == Some(f),
                (ArmCallee::One(g), true) => f == g && rest == Some(f),
                (ArmCallee::One(g), false) => f == g,
                _ => false,
            }),
{
    let n = p.stmt(s)->arms.len();
    let default = p.stmt(s)->default;
    assert forall|f: FuncId| #[trigger] wraps(p, s, f) <==> (match (callee, default is Some) {
        (ArmCallee::Open, true) => rest == Some(f),
        (ArmCallee::One(g), true) => f == g && rest == Some(f),
        (ArmCallee::One(g), false) => f == g,
        _ => false,
    }) by {
        assert(wraps(p, s, f) <==> (n > 0 || default is Some) && arms_wrap(p, s, n, f) && (
        default is Some ==> wraps(p, default->0, f)));
        if default is Some && wraps(p, default->0, f) {
            assert(rest is Some);
            lemma_wraps_one(p, default->0, f, rest->0);
        }
        match callee {
            ArmCallee::One(g) => {
                if arms_wrap(p, s, n, f) {
                    lemma_last_arm(p, s, n, f);
                    lemma_last_arm(p, s, n, g);
                    lemma_wraps_one(p, p.stmt(s)->arms[n - 1].body, f, g);
                }
            },
            ArmCallee::Open => {
                assert(arms_wrap(p, s, 0, f));
            },
            ArmCallee::Mixed => {},
        }
    }
}

/// What a statement with two parts that both have to wrap the same call wraps.
proof fn lemma_two(
    p: CoreModel,
    s: StmtId,
    a: StmtId,
    b: StmtId,
    lhs: Option<FuncId>,
    rhs: Option<FuncId>,
)
    requires
        p.acyclic(),
        p.has_stmt(s),
        p.stmt(s) is If && p.stmt(s)->then_branch == a && p.stmt(s)->else_branch == b || p.stmt(
            s,
        ) is Stage && p.stmt(s)->Stage_body == a && p.stmt(s)->Stage_next == Some(b),
        wraps_what(p, a, lhs),
        wraps_what(p, b, rhs),
    ensures
        wraps_what(
            p,
            s,
            if lhs == rhs {
                lhs
            } else {
                None
            },
        ),
{
    assert forall|f: FuncId| #[trigger] wraps(p, s, f) <==> lhs == Some(f) && rhs == Some(f) by {
        assert(wraps(p, s, f) <==> wraps(p, a, f) && wraps(p, b, f));
        if wraps(p, a, f) && wraps(p, b, f) {
            lemma_wraps_one(p, a, f, lhs->0);
            lemma_wraps_one(p, b, f, rhs->0);
        }
    }
}

/// What a statement with one part that counts wraps.
proof fn lemma_one(p: CoreModel, s: StmtId, a: StmtId, found: Option<FuncId>)
    requires
        p.acyclic(),
        p.has_stmt(s),
        p.stmt(s) is Let && p.stmt(s)->Let_next == a || p.stmt(s) is Val && p.stmt(s)->Val_value
            == a && forwards(p, p.stmt(s)->Val_next, p.stmt(s)->Val_binding) || p.stmt(
            s,
        ) is Stage && p.stmt(s)->Stage_body == a && p.stmt(s)->Stage_next is None,
        wraps_what(p, a, found),
    ensures
        wraps_what(p, s, found),
{
    assert forall|f: FuncId| #[trigger] wraps(p, s, f) <==> wraps(p, a, f) by {}
}

} // verus!
