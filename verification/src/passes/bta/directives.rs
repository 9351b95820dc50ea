//! Stages that the text of a program asks for.
use crate::common::densemap::DenseMap;
use crate::common::ids::{ExprId, StmtId};
use crate::ir::core_ir::{CoreModel, CoreProgram, Literal, StageDirective, StmtKind, StmtModel};
use crate::pipeline::reason::{Reason, Stage};
use std::collections::HashSet;
use vstd::prelude::*;

verus! {

/// How far a walk through statements has come: the stages so far, and which
/// statements it has been at, under which directive. The expressions whose value
/// has been found stay what they are.
#[verifier::ext_equal]
pub struct Walk {
    pub cached: Set<usize>,
    pub exprs: Map<usize, Stage>,
    pub seen: Set<(usize, Option<StageDirective>)>,
}

/// The stage that a directive asks for.
pub open spec fn forced_stage(directive: StageDirective) -> Stage {
    match directive {
        StageDirective::Comptime => Stage::Ct,
        StageDirective::Runtime => Stage::Rt(Reason::UserForcedRuntime),
    }
}

/// Whether a directive gives an expression its stage. One whose value has been
/// found is ready at compile time, whatever a runtime directive asks.
pub open spec fn gives_stage(
    cached: Set<usize>,
    e: ExprId,
    forced: Option<StageDirective>,
) -> bool {
    match forced {
        Some(StageDirective::Comptime) => true,
        Some(StageDirective::Runtime) => !cached.contains(e.0),
        None => false,
    }
}

/// An expression right in a statement gets the stage of the directive around it.
pub open spec fn mark(w: Walk, e: ExprId, forced: Option<StageDirective>) -> Walk {
    if gives_stage(w.cached, e, forced) {
        Walk { exprs: w.exprs.insert(e.0, forced_stage(forced->0)), ..w }
    } else {
        w
    }
}

pub open spec fn mark_all(
    w: Walk,
    exprs: Seq<ExprId>,
    first: nat,
    forced: Option<StageDirective>,
) -> Walk
    decreases first,
{
    if first == 0 {
        w
    } else {
        mark(mark_all(w, exprs, (first - 1) as nat, forced), exprs[first - 1], forced)
    }
}

/// A walk through a statement, in the order of the text, under a directive.
/// Nothing is walked twice under one directive.
pub open spec fn walk(p: CoreModel, s: StmtId, forced: Option<StageDirective>, w: Walk) -> Walk
    decreases p.stmt_rank(s), 1nat, 0nat,
    when p.acyclic()
{
    proof {
        crate::passes::linearize::analysis::lemma_stmt_ranks(p, s);
    }
    if w.seen.contains((s.0, forced)) {
        w
    } else {
        let here = Walk { seen: w.seen.insert((s.0, forced)), ..w };
        if p.has_stmt(s) {
            match p.stmt(s) {
                StmtModel::Return(expr) => mark(here, expr, forced),
                StmtModel::Let { value, next, .. } => walk(
                    p,
                    next,
                    forced,
                    mark(here, value, forced),
                ),
                StmtModel::Val { value, next, .. } => walk(
                    p,
                    next,
                    forced,
                    walk(p, value, forced, here),
                ),
                StmtModel::Call { args, next, .. } => walk(
                    p,
                    next,
                    forced,
                    mark_all(here, args, args.len(), forced),
                ),
                StmtModel::Resume { arg, next, .. } => walk(
                    p,
                    next,
                    forced,
                    mark(here, arg, forced),
                ),
                StmtModel::If { cond, then_branch, else_branch } => walk(
                    p,
                    else_branch,
                    forced,
                    walk(p, then_branch, forced, mark(here, cond, forced)),
                ),
                StmtModel::Match { scrutinee, arms, default } => {
                    let through = walk_arms(
                        p,
                        s,
                        arms.len(),
                        forced,
                        mark(here, scrutinee, forced),
                    );
                    match default {
                        Some(default) => walk(p, default, forced, through),
                        None => through,
                    }
                },
                StmtModel::Perform { args, next, .. } => walk(
                    p,
                    next,
                    forced,
                    mark_all(here, args, args.len(), forced),
                ),
                StmtModel::Handle { body, next, .. } => {
                    let through = walk(p, body, forced, here);
                    match next {
                        Some(next) => walk(p, next, forced, through),
                        None => through,
                    }
                },
                StmtModel::Stage { stage, body, next } => {
                    let through = walk(p, body, Some(stage), here);
                    match next {
                        Some(next) => walk(p, next, forced, through),
                        None => through,
                    }
                },
                StmtModel::Hole { .. } => here,
                StmtModel::Error(_) => here,
            }
        } else {
            here
        }
    }
}

/// A walk through the first arms of a match.
pub open spec fn walk_arms(
    p: CoreModel,
    s: StmtId,
    first: nat,
    forced: Option<StageDirective>,
    w: Walk,
) -> Walk
    decreases p.stmt_rank(s), 0nat, first,
    when p.acyclic()
{
    if first > 0 && p.has_stmt(s) && p.stmt(s) is Match && first <= p.stmt(s)->arms.len() {
        proof {
            crate::passes::linearize::analysis::lemma_stmt_ranks(p, s);
            crate::ir::core_ir::lemma_arm_is_part(p.stmt(s), first - 1);
        }
        walk(
            p,
            p.stmt(s)->arms[first - 1].body,
            forced,
            walk_arms(p, s, (first - 1) as nat, forced, w),
        )
    } else {
        w
    }
}

/// A walk through the bodies of the first functions.
pub open spec fn walk_functions(p: CoreModel, first: nat, w: Walk) -> Walk
    decreases first,
{
    if first == 0 {
        w
    } else {
        walk(p, p.functions[first - 1].body, None, walk_functions(p, (first - 1) as nat, w))
    }
}

// ---------------------------------------------------------------------------
// The walk
// ---------------------------------------------------------------------------

/// Which statements have been walked, under each directive.
struct Visited {
    plain: HashSet<usize>,
    comptime: HashSet<usize>,
    runtime: HashSet<usize>,
}

impl View for Visited {
    type V = Set<(usize, Option<StageDirective>)>;

    closed spec fn view(&self) -> Set<(usize, Option<StageDirective>)> {
        Set::new(
            |key: (usize, Option<StageDirective>)|
                match key.1 {
                    None => self.plain@.contains(key.0),
                    Some(StageDirective::Comptime) => self.comptime@.contains(key.0),
                    Some(StageDirective::Runtime) => self.runtime@.contains(key.0),
                },
        )
    }
}

impl Visited {
    fn new() -> (visited: Self)
        ensures
            visited@ == Set::<(usize, Option<StageDirective>)>::empty(),
    {
        broadcast use vstd::std_specs::hash::group_hash_axioms;

        let visited = Visited {
            plain: HashSet::new(),
            comptime: HashSet::new(),
            runtime: HashSet::new(),
        };
        assert(visited@ =~= Set::empty());
        visited
    }

    /// Adds a statement. Tells whether it is new.
    fn insert(&mut self, s: StmtId, forced: Option<StageDirective>) -> (added: bool)
        ensures
            final(self)@ == old(self)@.insert((s.0, forced)),
            added == !old(self)@.contains((s.0, forced)),
    {
        broadcast use vstd::std_specs::hash::group_hash_axioms;

        let ghost before = *self;
        let added = match forced {
            None => self.plain.insert(s.0),
            Some(StageDirective::Comptime) => self.comptime.insert(s.0),
            Some(StageDirective::Runtime) => self.runtime.insert(s.0),
        };
        assert(self@ =~= before@.insert((s.0, forced)));
        added
    }
}

spec fn at(cache: DenseMap<Literal>, stages: DenseMap<Stage>, visited: Visited) -> Walk {
    Walk { cached: cache@.dom(), exprs: stages@, seen: visited@ }
}

fn apply_forced_expr(
    cache: &DenseMap<Literal>,
    stages: &mut DenseMap<Stage>,
    e: ExprId,
    forced: Option<StageDirective>,
)
    ensures
        final(stages)@ == if gives_stage(cache@.dom(), e, forced) {
            old(stages)@.insert(e.0, forced_stage(forced->0))
        } else {
            old(stages)@
        },
{
    match forced {
        Some(StageDirective::Comptime) => {
            stages.insert(e.0, Stage::Ct);
        },
        Some(StageDirective::Runtime) => {
            if !cache.contains_key(e.0) {
                stages.insert(e.0, Stage::Rt(Reason::UserForcedRuntime));
            }
        },
        None => {},
    }
}

fn apply_forced_exprs(
    cache: &DenseMap<Literal>,
    stages: &mut DenseMap<Stage>,
    exprs: &Vec<ExprId>,
    forced: Option<StageDirective>,
    Ghost(seen): Ghost<Set<(usize, Option<StageDirective>)>>,
)
    ensures
        (Walk { cached: cache@.dom(), exprs: final(stages)@, seen }) == mark_all(
            Walk { cached: cache@.dom(), exprs: old(stages)@, seen },
            exprs@,
            exprs@.len(),
            forced,
        ),
{
    let ghost start = Walk { cached: cache@.dom(), exprs: stages@, seen };
    let mut i: usize = 0;
    while i < exprs.len()
        invariant
            i <= exprs@.len(),
            (Walk { cached: cache@.dom(), exprs: stages@, seen }) == mark_all(start, exprs@, i as nat, forced),
        decreases exprs@.len() - i,
    {
        apply_forced_expr(cache, stages, exprs[i], forced);
        i += 1;
    }
}

fn apply_stage_directives(
    program: &CoreProgram,
    stmt_id: StmtId,
    forced: Option<StageDirective>,
    cache: &DenseMap<Literal>,
    stages: &mut DenseMap<Stage>,
    visited: &mut Visited,
)
    requires
        program@.acyclic(),
    ensures
        at(*cache, *final(stages), *final(visited)) == walk(
            program@,
            stmt_id,
            forced,
            at(*cache, *old(stages), *old(visited)),
        ),
    decreases program@.stmt_rank(stmt_id), 1nat,
{
    let ghost start = at(*cache, *stages, *visited);
    if !visited.insert(stmt_id, forced) {
        assert(at(*cache, *stages, *visited) =~= start);
        return;
    }
    if stmt_id.0 >= program.stmts.len() {
        return;
    }
    proof {
        crate::passes::linearize::analysis::lemma_stmt_ranks(program@, stmt_id);
    }
    let ghost s = program@.stmt(stmt_id);
    match &program.stmts[stmt_id.0].kind {
        StmtKind::Return(expr) => {
            apply_forced_expr(cache, stages, *expr, forced);
        },
        StmtKind::Let { value, next, .. } => {
            assert(s.has_part(*next));
            apply_forced_expr(cache, stages, *value, forced);
            apply_stage_directives(program, *next, forced, cache, stages, visited);
        },
        StmtKind::Val { value, next, .. } => {
            assert(s.has_part(*value) && s.has_part(*next));
            apply_stage_directives(program, *value, forced, cache, stages, visited);
            apply_stage_directives(program, *next, forced, cache, stages, visited);
        },
        StmtKind::Call { args, next, .. } => {
            assert(s.has_part(*next));
            apply_forced_exprs(cache, stages, args, forced, Ghost(visited@));
            apply_stage_directives(program, *next, forced, cache, stages, visited);
        },
        StmtKind::Resume { arg, next, .. } => {
            assert(s.has_part(*next));
            apply_forced_expr(cache, stages, *arg, forced);
            apply_stage_directives(program, *next, forced, cache, stages, visited);
        },
        StmtKind::If { cond, then_branch, else_branch } => {
            assert(s.has_part(*then_branch) && s.has_part(*else_branch));
            apply_forced_expr(cache, stages, *cond, forced);
            apply_stage_directives(program, *then_branch, forced, cache, stages, visited);
            apply_stage_directives(program, *else_branch, forced, cache, stages, visited);
        },
        StmtKind::Match { scrutinee, arms, default } => {
            apply_forced_expr(cache, stages, *scrutinee, forced);
            let ghost here = at(*cache, *stages, *visited);
            let mut i: usize = 0;
            assert(s is Match && s->arms == crate::common::views(arms@));
            while i < arms.len()
                invariant
                    i <= arms@.len(),
                    program@.acyclic(),
                    program@.has_stmt(stmt_id),
                    s == program@.stmt(stmt_id),
                    s is Match,
                    s->arms == crate::common::views(arms@),
                    at(*cache, *stages, *visited) == walk_arms(
                        program@,
                        stmt_id,
                        i as nat,
                        forced,
                        here,
                    ),
                decreases arms@.len() - i,
            {
                proof {
                    crate::passes::linearize::analysis::lemma_stmt_ranks(program@, stmt_id);
                    crate::ir::core_ir::lemma_arm_is_part(s, i as int);
                    assert(s->arms[i as int].body == arms@[i as int].body);
                }
                apply_stage_directives(program, arms[i].body, forced, cache, stages, visited);
                i += 1;
            }
            if let Some(default) = default {
                assert(s.has_part(*default));
                apply_stage_directives(program, *default, forced, cache, stages, visited);
            }
        },
        StmtKind::Perform { args, next, .. } => {
            assert(s.has_part(*next));
            apply_forced_exprs(cache, stages, args, forced, Ghost(visited@));
            apply_stage_directives(program, *next, forced, cache, stages, visited);
        },
        StmtKind::Handle { body, next, .. } => {
            assert(s.has_part(*body));
            apply_stage_directives(program, *body, forced, cache, stages, visited);
            if let Some(next) = next {
                assert(s.has_part(*next));
                apply_stage_directives(program, *next, forced, cache, stages, visited);
            }
        },
        StmtKind::Stage { stage, body, next } => {
            assert(s.has_part(*body));
            apply_stage_directives(program, *body, Some(*stage), cache, stages, visited);
            if let Some(next) = next {
                assert(s.has_part(*next));
                apply_stage_directives(program, *next, forced, cache, stages, visited);
            }
        },
        StmtKind::Hole { .. } | StmtKind::Error(_) => {},
    }
}

/// Walks the bodies of all functions.
pub(crate) fn apply_all_directives(
    program: &CoreProgram,
    cache: &DenseMap<Literal>,
    stages: &mut DenseMap<Stage>,
)
    requires
        program@.acyclic(),
    ensures
        final(stages)@ == walk_functions(
            program@,
            program@.functions.len(),
            Walk { cached: cache@.dom(), exprs: old(stages)@, seen: Set::empty() },
        ).exprs,
{
    let ghost start = Walk { cached: cache@.dom(), exprs: stages@, seen: Set::empty() };
    let mut visited = Visited::new();
    let mut f: usize = 0;
    while f < program.functions.len()
        invariant
            f <= program.functions@.len(),
            program@.acyclic(),
            at(*cache, *stages, visited) == walk_functions(program@, f as nat, start),
        decreases program.functions@.len() - f,
    {
        assert(program@.functions[f as int].body == program.functions@[f as int].body);
        apply_stage_directives(program, program.functions[f].body, None, cache, stages, &mut visited);
        f += 1;
    }
}

// ---------------------------------------------------------------------------
// Laws
// ---------------------------------------------------------------------------

/// A walk from one state to another forgets nothing, and does not take an
/// expression whose value has been found from compile time.
pub open spec fn keeps(e: ExprId, before: Walk, after: Walk) -> bool {
    &&& after.cached == before.cached
    &&& before.exprs.dom().subset_of(after.exprs.dom())
    &&& before.cached.contains(e.0) && before.exprs.contains_key(e.0) && before.exprs[e.0] is Ct
        ==> after.exprs[e.0] is Ct
}

proof fn lemma_keeps_trans(e: ExprId, a: Walk, b: Walk, c: Walk)
    requires
        keeps(e, a, b),
        keeps(e, b, c),
    ensures
        keeps(e, a, c),
{
    if a.exprs.contains_key(e.0) {
        assert(b.exprs.dom().contains(e.0));
    }
}

proof fn lemma_mark_keeps(e: ExprId, part: ExprId, forced: Option<StageDirective>, w: Walk)
    ensures
        keeps(e, w, mark(w, part, forced)),
{
}

proof fn lemma_mark_all_keeps(
    e: ExprId,
    exprs: Seq<ExprId>,
    first: nat,
    forced: Option<StageDirective>,
    w: Walk,
)
    requires
        first <= exprs.len(),
    ensures
        keeps(e, w, mark_all(w, exprs, first, forced)),
    decreases first,
{
    if first > 0 {
        lemma_mark_all_keeps(e, exprs, (first - 1) as nat, forced, w);
        let mid = mark_all(w, exprs, (first - 1) as nat, forced);
        lemma_mark_keeps(e, exprs[first - 1], forced, mid);
        lemma_keeps_trans(e, w, mid, mark_all(w, exprs, first, forced));
    }
}

proof fn lemma_walk_keeps(
    p: CoreModel,
    e: ExprId,
    s: StmtId,
    forced: Option<StageDirective>,
    w: Walk,
)
    requires
        p.acyclic(),
    ensures
        keeps(e, w, walk(p, s, forced, w)),
    decreases p.stmt_rank(s), 1nat, 0nat,
{
    crate::passes::linearize::analysis::lemma_stmt_ranks(p, s);
    let end = walk(p, s, forced, w);
    if !w.seen.contains((s.0, forced)) {
        let here = Walk { seen: w.seen.insert((s.0, forced)), ..w };
        assert(keeps(e, w, here));
        if p.has_stmt(s) {
            match p.stmt(s) {
                StmtModel::Return(expr) => {
                    lemma_mark_keeps(e, expr, forced, here);
                    lemma_keeps_trans(e, w, here, end);
                },
                StmtModel::Let { value, next, .. } => {
                    let mid = mark(here, value, forced);
                    lemma_mark_keeps(e, value, forced, here);
                    lemma_walk_keeps(p, e, next, forced, mid);
                    lemma_keeps_trans(e, w, here, mid);
                    lemma_keeps_trans(e, w, mid, end);
                },
                StmtModel::Val { value, next, .. } => {
                    let mid = walk(p, value, forced, here);
                    lemma_walk_keeps(p, e, value, forced, here);
                    lemma_walk_keeps(p, e, next, forced, mid);
                    lemma_keeps_trans(e, w, here, mid);
                    lemma_keeps_trans(e, w, mid, end);
                },
                StmtModel::Call { args, next, .. } => {
                    let mid = mark_all(here, args, args.len(), forced);
                    lemma_mark_all_keeps(e, args, args.len(), forced, here);
                    lemma_walk_keeps(p, e, next, forced, mid);
                    lemma_keeps_trans(e, w, here, mid);
                    lemma_keeps_trans(e, w, mid, end);
                },
                StmtModel::Perform { args, next, .. } => {
                    let mid = mark_all(here, args, args.len(), forced);
                    lemma_mark_all_keeps(e, args, args.len(), forced, here);
                    lemma_walk_keeps(p, e, next, forced, mid);
                    lemma_keeps_trans(e, w, here, mid);
                    lemma_keeps_trans(e, w, mid, end);
                },
                StmtModel::Resume { arg, next, .. } => {
                    let mid = mark(here, arg, forced);
                    lemma_mark_keeps(e, arg, forced, here);
                    lemma_walk_keeps(p, e, next, forced, mid);
                    lemma_keeps_trans(e, w, here, mid);
                    lemma_keeps_trans(e, w, mid, end);
                },
                StmtModel::If { cond, then_branch, else_branch } => {
                    let mid = mark(here, cond, forced);
                    let then_end = walk(p, then_branch, forced, mid);
                    lemma_mark_keeps(e, cond, forced, here);
                    lemma_walk_keeps(p, e, then_branch, forced, mid);
                    lemma_walk_keeps(p, e, else_branch, forced, then_end);
                    lemma_keeps_trans(e, w, here, mid);
                    lemma_keeps_trans(e, w, mid, then_end);
                    lemma_keeps_trans(e, w, then_end, end);
                },
                StmtModel::Match { scrutinee, arms, default } => {
                    let mid = mark(here, scrutinee, forced);
                    let through = walk_arms(p, s, arms.len(), forced, mid);
                    lemma_mark_keeps(e, scrutinee, forced, here);
                    lemma_walk_arms_keeps(p, e, s, arms.len(), forced, mid);
                    lemma_keeps_trans(e, w, here, mid);
                    lemma_keeps_trans(e, w, mid, through);
                    if let Some(default) = default {
                        lemma_walk_keeps(p, e, default, forced, through);
                        lemma_keeps_trans(e, w, through, end);
                    }
                },
                StmtModel::Handle { body, next, .. } => {
                    let through = walk(p, body, forced, here);
                    lemma_walk_keeps(p, e, body, forced, here);
                    lemma_keeps_trans(e, w, here, through);
                    if let Some(next) = next {
                        lemma_walk_keeps(p, e, next, forced, through);
                        lemma_keeps_trans(e, w, through, end);
                    }
                },
                StmtModel::Stage { stage, body, next } => {
                    let through = walk(p, body, Some(stage), here);
                    lemma_walk_keeps(p, e, body, Some(stage), here);
                    lemma_keeps_trans(e, w, here, through);
                    if let Some(next) = next {
                        lemma_walk_keeps(p, e, next, forced, through);
                        lemma_keeps_trans(e, w, through, end);
                    }
                },
                StmtModel::Hole { .. } => {},
                StmtModel::Error(_) => {},
            }
        }
    }
}

proof fn lemma_walk_arms_keeps(
    p: CoreModel,
    e: ExprId,
    s: StmtId,
    first: nat,
    forced: Option<StageDirective>,
    w: Walk,
)
    requires
        p.acyclic(),
    ensures
        keeps(e, w, walk_arms(p, s, first, forced, w)),
    decreases p.stmt_rank(s), 0nat, first,
{
    if first > 0 && p.has_stmt(s) && p.stmt(s) is Match && first <= p.stmt(s)->arms.len() {
        crate::passes::linearize::analysis::lemma_stmt_ranks(p, s);
        crate::ir::core_ir::lemma_arm_is_part(p.stmt(s), first - 1);
        let mid = walk_arms(p, s, (first - 1) as nat, forced, w);
        lemma_walk_arms_keeps(p, e, s, (first - 1) as nat, forced, w);
        lemma_walk_keeps(p, e, p.stmt(s)->arms[first - 1].body, forced, mid);
        lemma_keeps_trans(e, w, mid, walk_arms(p, s, first, forced, w));
    }
}

/// An expression that is ready at compile time stays so, unless it stands right
/// in a statement that is walked under a runtime directive; and no expression
/// loses its stage.
pub proof fn lemma_directives_keep(p: CoreModel, e: ExprId, first: nat, w: Walk)
    requires
        p.acyclic(),
    ensures
        keeps(e, w, walk_functions(p, first, w)),
    decreases first,
{
    if first > 0 {
        let mid = walk_functions(p, (first - 1) as nat, w);
        lemma_directives_keep(p, e, (first - 1) as nat, w);
        lemma_walk_keeps(p, e, p.functions[first - 1].body, None, mid);
        lemma_keeps_trans(e, w, mid, walk_functions(p, first, w));
    }
}

} // verus!
