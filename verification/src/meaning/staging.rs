//! Which stage code has, by the marks round it and by what it rests on.
use crate::common::ids::{EffectLabelId, ExprId, FuncId, StmtId};
use crate::ir::core_ir::{CoreModel, ExprModel, StageDirective, StmtModel};
use crate::passes::bta::directives::Walk;
use crate::pipeline::reason::{Reason, Stage};
use crate::sema::effect::EffectProperties;
use vstd::prelude::*;

verus! {

/// A statement, and the mark round it that is nearest.
pub struct Marked {
    pub stmt: StmtId,
    pub mark: Option<StageDirective>,
}

/// One statement is part of another, and has the mark that the other puts round
/// it, or else that of the other.
pub open spec fn inside(p: CoreModel, a: Marked, b: Marked) -> bool {
    &&& p.has_stmt(a.stmt)
    &&& p.stmt(a.stmt).has_part(b.stmt)
    &&& match p.stmt(a.stmt) {
        StmtModel::Stage { stage, body, next } => {
            ||| b.stmt == body && b.mark == Some(stage)
            ||| next == Some(b.stmt) && b.mark == a.mark
        },
        _ => b.mark == a.mark,
    }
}

pub open spec fn leads(p: CoreModel, a: Marked, b: Marked, path: Seq<Marked>) -> bool {
    &&& path.len() > 0
    &&& path[0] == a
    &&& path.last() == b
    &&& forall|i: int| #![trigger path[i]] 0 <= i < path.len() - 1 ==> inside(
        p,
        path[i],
        path[i + 1],
    )
}

/// One statement with its mark is part of another, at any depth.
pub open spec fn within(p: CoreModel, a: Marked, b: Marked) -> bool {
    exists|path: Seq<Marked>| leads(p, a, b, path)
}

proof fn lemma_within_itself(p: CoreModel, a: Marked)
    ensures
        within(p, a, a),
{
    assert(leads(p, a, a, seq![a]));
}

proof fn lemma_within_more(p: CoreModel, a: Marked, b: Marked, c: Marked)
    requires
        inside(p, a, b),
        within(p, b, c),
    ensures
        within(p, a, c),
{
    let path = choose|path: Seq<Marked>| leads(p, b, c, path);
    let longer = seq![a] + path;
    assert forall|i: int| #![trigger longer[i]] 0 <= i < longer.len() - 1 implies inside(
        p,
        longer[i],
        longer[i + 1],
    ) by {
        if i > 0 {
            assert(longer[i] == path[i - 1]);
            assert(longer[i + 1] == path[i]);
        }
    }
    assert(longer[0] == a);
    assert(longer.last() == path.last());
    assert(leads(p, a, c, longer));
}

/// The stage that a mark asks for: compile time, or run time because the text
/// says so.
pub open spec fn asked(mark: StageDirective) -> Stage {
    match mark {
        StageDirective::Comptime => Stage::Ct,
        StageDirective::Runtime => Stage::Rt(Reason::UserForcedRuntime),
    }
}

/// A mark round a statement asks for the stage of an expression in it.
pub open spec fn asks(
    p: CoreModel,
    cached: Set<usize>,
    at: Marked,
    e: ExprId,
    stage: Stage,
) -> bool {
    &&& p.has_stmt(at.stmt)
    &&& p.stmt(at.stmt).has_expr(e)
    &&& at.mark matches Some(mark)
    &&& asked(mark) == stage
    &&& mark is Runtime ==> !cached.contains(e.0)
}

/// An expression has the stage that it had, or one that a mark round it asks for.
pub open spec fn explained(
    p: CoreModel,
    root: Marked,
    before: Walk,
    after: Walk,
    e: ExprId,
) -> bool {
    &&& after.cached == before.cached
    &&& {
        ||| after.exprs.contains_key(e.0) == before.exprs.contains_key(e.0) && after.exprs[e.0]
            == before.exprs[e.0]
        ||| after.exprs.contains_key(e.0) && exists|at: Marked| #[trigger]
            within(p, root, at) && asks(p, before.cached, at, e, after.exprs[e.0])
    }
}

proof fn lemma_explained_mark(p: CoreModel, root: Marked, w: Walk, part: ExprId, e: ExprId)
    requires
        p.has_stmt(root.stmt),
        p.stmt(root.stmt).has_expr(part),
    ensures
        explained(
            p,
            root,
            w,
            crate::passes::bta::directives::mark(w, part, root.mark),
            e,
        ),
{
    lemma_within_itself(p, root);
    let after = crate::passes::bta::directives::mark(w, part, root.mark);
    if e == part && crate::passes::bta::directives::gives_stage(w.cached, part, root.mark) {
        assert(asks(p, w.cached, root, e, after.exprs[e.0]));
    } else if e.0 == part.0 {
        assert(e == part);
    }
}

proof fn lemma_explained_then(
    p: CoreModel,
    root: Marked,
    a: Walk,
    b: Walk,
    c: Walk,
    e: ExprId,
)
    requires
        explained(p, root, a, b, e),
        explained(p, root, b, c, e),
    ensures
        explained(p, root, a, c, e),
{
}

proof fn lemma_explained_part(
    p: CoreModel,
    root: Marked,
    part: Marked,
    a: Walk,
    b: Walk,
    e: ExprId,
)
    requires
        inside(p, root, part),
        explained(p, part, a, b, e),
    ensures
        explained(p, root, a, b, e),
{
    if !(b.exprs.contains_key(e.0) == a.exprs.contains_key(e.0) && b.exprs[e.0] == a.exprs[e.0]) {
        let at = choose|at: Marked| #[trigger]
            within(p, part, at) && asks(p, a.cached, at, e, b.exprs[e.0]);
        lemma_within_more(p, root, part, at);
    }
}

proof fn lemma_explained_all(
    p: CoreModel,
    root: Marked,
    w: Walk,
    list: Seq<ExprId>,
    first: nat,
    e: ExprId,
)
    requires
        p.has_stmt(root.stmt),
        p.stmt(root.stmt) is Call || p.stmt(root.stmt) is Perform,
        p.stmt(root.stmt).expr_parts() == list,
        first <= list.len(),
    ensures
        explained(
            p,
            root,
            w,
            crate::passes::bta::directives::mark_all(w, list, first, root.mark),
            e,
        ),
    decreases first,
{
    if first > 0 {
        let n = (first - 1) as nat;
        lemma_explained_all(p, root, w, list, n, e);
        let mid = crate::passes::bta::directives::mark_all(w, list, n, root.mark);
        assert(list.contains(list[first - 1]));
        assert(p.stmt(root.stmt).has_expr(list[first - 1]));
        lemma_explained_mark(p, root, mid, list[first - 1], e);
        lemma_explained_then(
            p,
            root,
            w,
            mid,
            crate::passes::bta::directives::mark_all(w, list, first, root.mark),
            e,
        );
    }
}

/// The stage of every expression after a walk is the one that it had, or one that
/// the nearest mark round a statement that it stands in asks for.
#[verifier::spinoff_prover]
#[verifier::rlimit(60)]
pub proof fn lemma_stage_is_asked_for(
    p: CoreModel,
    s: StmtId,
    forced: Option<StageDirective>,
    w: Walk,
    e: ExprId,
)
    requires
        p.acyclic(),
    ensures
        explained(
            p,
            (Marked { stmt: s, mark: forced }),
            w,
            crate::passes::bta::directives::walk(p, s, forced, w),
            e,
        ),
    decreases p.stmt_rank(s), 1nat, 0nat,
{
    crate::passes::linearize::analysis::lemma_stmt_ranks(p, s);
    let root = Marked { stmt: s, mark: forced };
    if !w.seen.contains((s.0, forced)) && p.has_stmt(s) {
        let here = Walk { seen: w.seen.insert((s.0, forced)), ..w };
        let end = crate::passes::bta::directives::walk(p, s, forced, w);
        match p.stmt(s) {
            StmtModel::Return(x) => {
                lemma_explained_mark(p, root, here, x, e);
            },
            StmtModel::Let { value, next, .. } => {
                lemma_explained_mark(p, root, here, value, e);
                let mid = crate::passes::bta::directives::mark(here, value, forced);
                lemma_part_explained(p, s, forced, next, forced, mid, e);
                lemma_explained_then(p, root, here, mid, end, e);
            },
            StmtModel::Val { value, next, .. } => {
                let mid = crate::passes::bta::directives::walk(p, value, forced, here);
                lemma_part_explained(p, s, forced, value, forced, here, e);
                lemma_part_explained(p, s, forced, next, forced, mid, e);
                lemma_explained_then(p, root, here, mid, end, e);
            },
            StmtModel::Call { args, next, .. } => {
                lemma_explained_all(p, root, here, args, args.len(), e);
                let mid = crate::passes::bta::directives::mark_all(
                    here,
                    args,
                    args.len(),
                    forced,
                );
                lemma_part_explained(p, s, forced, next, forced, mid, e);
                lemma_explained_then(p, root, here, mid, end, e);
            },
            StmtModel::Perform { args, next, .. } => {
                lemma_explained_all(p, root, here, args, args.len(), e);
                let mid = crate::passes::bta::directives::mark_all(
                    here,
                    args,
                    args.len(),
                    forced,
                );
                lemma_part_explained(p, s, forced, next, forced, mid, e);
                lemma_explained_then(p, root, here, mid, end, e);
            },
            StmtModel::Resume { arg, next, .. } => {
                lemma_explained_mark(p, root, here, arg, e);
                let mid = crate::passes::bta::directives::mark(here, arg, forced);
                lemma_part_explained(p, s, forced, next, forced, mid, e);
                lemma_explained_then(p, root, here, mid, end, e);
            },
            StmtModel::If { cond, then_branch, else_branch } => {
                lemma_explained_mark(p, root, here, cond, e);
                let one = crate::passes::bta::directives::mark(here, cond, forced);
                let two = crate::passes::bta::directives::walk(p, then_branch, forced, one);
                lemma_part_explained(p, s, forced, then_branch, forced, one, e);
                lemma_part_explained(p, s, forced, else_branch, forced, two, e);
                lemma_explained_then(p, root, here, one, two, e);
                lemma_explained_then(p, root, here, two, end, e);
            },
            StmtModel::Match { scrutinee, arms, default } => {
                lemma_explained_mark(p, root, here, scrutinee, e);
                let one = crate::passes::bta::directives::mark(here, scrutinee, forced);
                let two = crate::passes::bta::directives::walk_arms(
                    p,
                    s,
                    arms.len(),
                    forced,
                    one,
                );
                lemma_arms_explained(p, s, arms.len(), forced, one, e);
                lemma_explained_then(p, root, here, one, two, e);
                if let Some(part) = default {
                    lemma_part_explained(p, s, forced, part, forced, two, e);
                    lemma_explained_then(p, root, here, two, end, e);
                }
            },
            StmtModel::Handle { body, next, .. } => {
                let mid = crate::passes::bta::directives::walk(p, body, forced, here);
                lemma_part_explained(p, s, forced, body, forced, here, e);
                if let Some(part) = next {
                    lemma_part_explained(p, s, forced, part, forced, mid, e);
                    lemma_explained_then(p, root, here, mid, end, e);
                }
            },
            StmtModel::Stage { stage, body, next } => {
                let mid = crate::passes::bta::directives::walk(p, body, Some(stage), here);
                lemma_part_explained(p, s, forced, body, Some(stage), here, e);
                if let Some(part) = next {
                    lemma_part_explained(p, s, forced, part, forced, mid, e);
                    lemma_explained_then(p, root, here, mid, end, e);
                }
            },
            _ => {},
        }
    }
}

proof fn lemma_part_explained(
    p: CoreModel,
    s: StmtId,
    forced: Option<StageDirective>,
    part: StmtId,
    mark: Option<StageDirective>,
    w: Walk,
    e: ExprId,
)
    requires
        p.acyclic(),
        inside(p, Marked { stmt: s, mark: forced }, Marked { stmt: part, mark }),
        p.stmt_rank(part) < p.stmt_rank(s),
    ensures
        explained(
            p,
            (Marked { stmt: s, mark: forced }),
            w,
            crate::passes::bta::directives::walk(p, part, mark, w),
            e,
        ),
    decreases p.stmt_rank(s), 0nat, 0nat,
{
    lemma_stage_is_asked_for(p, part, mark, w, e);
    lemma_explained_part(
        p,
        Marked { stmt: s, mark: forced },
        Marked { stmt: part, mark },
        w,
        crate::passes::bta::directives::walk(p, part, mark, w),
        e,
    );
}

proof fn lemma_arms_explained(
    p: CoreModel,
    s: StmtId,
    first: nat,
    forced: Option<StageDirective>,
    w: Walk,
    e: ExprId,
)
    requires
        p.acyclic(),
        p.has_stmt(s),
        p.stmt(s) is Match,
        first <= p.stmt(s)->arms.len(),
    ensures
        explained(
            p,
            (Marked { stmt: s, mark: forced }),
            w,
            crate::passes::bta::directives::walk_arms(p, s, first, forced, w),
            e,
        ),
    decreases p.stmt_rank(s), 0nat, first + 1,
{
    if first > 0 {
        let n = (first - 1) as nat;
        let root = Marked { stmt: s, mark: forced };
        let body = p.stmt(s)->arms[first - 1].body;
        crate::passes::linearize::analysis::lemma_stmt_ranks(p, s);
        crate::ir::core_ir::lemma_arm_is_part(p.stmt(s), first - 1);
        lemma_arms_explained(p, s, n, forced, w, e);
        let mid = crate::passes::bta::directives::walk_arms(p, s, n, forced, w);
        lemma_part_explained(p, s, forced, body, forced, mid, e);
        lemma_explained_then(
            p,
            root,
            w,
            mid,
            crate::passes::bta::directives::walk_arms(p, s, first, forced, w),
            e,
        );
    }
}

// ---------------------------------------------------------------------------
// Effects that cannot wait
// ---------------------------------------------------------------------------

/// The effect of a row that is found to block is the first that cannot be
/// suspended; where none is found, all can.
pub proof fn lemma_first_that_blocks(
    row: Seq<EffectLabelId>,
    properties: Map<usize, EffectProperties>,
    first: nat,
)
    requires
        first <= row.len(),
    ensures
        match crate::passes::bta::blocking(row, properties, first) {
            Some(label) => exists|i: int|
                {
                    &&& 0 <= i < first
                    &&& #[trigger] row[i] == label
                    &&& !suspends(properties, label)
                    &&& forall|j: int| 0 <= j < i ==> suspends(properties, #[trigger] row[j])
                },
            None => forall|i: int| 0 <= i < first ==> suspends(properties, #[trigger] row[i]),
        },
    decreases first,
{
    if first > 0 {
        lemma_first_that_blocks(row, properties, (first - 1) as nat);
        assert(row[first - 1] == row[first - 1]);
    }
}

/// An effect is declared to be one that can be suspended.
pub open spec fn suspends(properties: Map<usize, EffectProperties>, label: EffectLabelId) -> bool {
    properties.contains_key(label.0) && properties[label.0].thunkable
}

// ---------------------------------------------------------------------------
// Every mark is heeded
// ---------------------------------------------------------------------------

/// An expression has a stage that a mark can ask for.
pub open spec fn is_marked(w: Walk, e: ExprId) -> bool {
    w.exprs.contains_key(e.0) && (w.exprs[e.0] == Stage::Ct || w.exprs[e.0] == Stage::Rt(
        Reason::UserForcedRuntime,
    ))
}

/// What a mark round a statement asks for has been heeded, and its parts have
/// been come to.
spec fn heeded(p: CoreModel, w: Walk, at: Marked) -> bool {
    &&& forall|part: Marked| #[trigger]
        inside(p, at, part) ==> w.seen.contains((part.stmt.0, part.mark))
    &&& forall|e: ExprId, stage: Stage| #[trigger]
        asks(p, w.cached, at, e, stage) ==> is_marked(w, e)
}

spec fn all_heeded(p: CoreModel, w: Walk, open: Set<(usize, Option<StageDirective>)>) -> bool {
    forall|t: usize, mark: Option<StageDirective>| #[trigger]
        w.seen.contains((t, mark)) && !open.contains((t, mark)) ==> heeded(
            p,
            w,
            Marked { stmt: StmtId(t), mark },
        )
}

spec fn goes_on(a: Walk, b: Walk) -> bool {
    &&& a.cached == b.cached
    &&& a.seen.subset_of(b.seen)
    &&& forall|e: ExprId| #[trigger] is_marked(a, e) ==> is_marked(b, e)
}

proof fn lemma_mark_goes_on(
    p: CoreModel,
    w: Walk,
    part: ExprId,
    forced: Option<StageDirective>,
    open: Set<(usize, Option<StageDirective>)>,
)
    requires
        all_heeded(p, w, open),
    ensures
        goes_on(w, crate::passes::bta::directives::mark(w, part, forced)),
        all_heeded(p, crate::passes::bta::directives::mark(w, part, forced), open),
        crate::passes::bta::directives::mark(w, part, forced).seen == w.seen,
        crate::passes::bta::directives::gives_stage(w.cached, part, forced) ==> is_marked(
            crate::passes::bta::directives::mark(w, part, forced),
            part,
        ),
{
    let after = crate::passes::bta::directives::mark(w, part, forced);
    assert forall|e: ExprId| #[trigger] is_marked(w, e) implies is_marked(after, e) by {}
    lemma_heeded_on(p, w, after, open);
}

proof fn lemma_heeded_on(
    p: CoreModel,
    a: Walk,
    b: Walk,
    open: Set<(usize, Option<StageDirective>)>,
)
    requires
        all_heeded(p, a, open),
        goes_on(a, b),
        b.seen == a.seen,
    ensures
        all_heeded(p, b, open),
{
    assert forall|t: usize, mark: Option<StageDirective>| #[trigger]
        b.seen.contains((t, mark)) && !open.contains((t, mark)) implies heeded(
        p,
        b,
        Marked { stmt: StmtId(t), mark },
    ) by {
        let at = Marked { stmt: StmtId(t), mark };
        assert(heeded(p, a, at));
        assert forall|e: ExprId, stage: Stage| #[trigger]
            asks(p, b.cached, at, e, stage) implies is_marked(b, e) by {
            assert(asks(p, a.cached, at, e, stage));
            assert(is_marked(a, e));
        }
    }
}

proof fn lemma_goes_on_then(a: Walk, b: Walk, c: Walk)
    requires
        goes_on(a, b),
        goes_on(b, c),
    ensures
        goes_on(a, c),
{
    assert forall|e: ExprId| #[trigger] is_marked(a, e) implies is_marked(c, e) by {
        assert(is_marked(b, e));
    }
}

proof fn lemma_mark_all_goes_on(
    p: CoreModel,
    w: Walk,
    list: Seq<ExprId>,
    first: nat,
    forced: Option<StageDirective>,
    open: Set<(usize, Option<StageDirective>)>,
)
    requires
        all_heeded(p, w, open),
        first <= list.len(),
    ensures
        goes_on(w, crate::passes::bta::directives::mark_all(w, list, first, forced)),
        all_heeded(p, crate::passes::bta::directives::mark_all(w, list, first, forced), open),
        crate::passes::bta::directives::mark_all(w, list, first, forced).seen == w.seen,
        forall|i: int|
            0 <= i < first && crate::passes::bta::directives::gives_stage(w.cached, list[i], forced)
                ==> is_marked(
                    crate::passes::bta::directives::mark_all(w, list, first, forced),
                    #[trigger] list[i],
                ),
    decreases first,
{
    if first > 0 {
        let n = (first - 1) as nat;
        lemma_mark_all_goes_on(p, w, list, n, forced, open);
        let mid = crate::passes::bta::directives::mark_all(w, list, n, forced);
        lemma_mark_goes_on(p, mid, list[first - 1], forced, open);
        lemma_goes_on_then(
            w,
            mid,
            crate::passes::bta::directives::mark_all(w, list, first, forced),
        );
    }
}

/// A walk comes to every part, and heeds every mark that it comes to.
#[verifier::spinoff_prover]
#[verifier::rlimit(100)]
proof fn lemma_walk_heeds(
    p: CoreModel,
    s: StmtId,
    forced: Option<StageDirective>,
    w: Walk,
    open: Set<(usize, Option<StageDirective>)>,
)
    requires
        p.acyclic(),
        all_heeded(p, w, open),
    ensures
        goes_on(w, crate::passes::bta::directives::walk(p, s, forced, w)),
        all_heeded(p, crate::passes::bta::directives::walk(p, s, forced, w), open),
        crate::passes::bta::directives::walk(p, s, forced, w).seen.contains((s.0, forced)),
    decreases p.stmt_rank(s), 1nat, 0nat,
{
    crate::passes::linearize::analysis::lemma_stmt_ranks(p, s);
    if !w.seen.contains((s.0, forced)) {
        let here = Walk { seen: w.seen.insert((s.0, forced)), ..w };
        let more = open.insert((s.0, forced));
        let at = Marked { stmt: s, mark: forced };
        let end = crate::passes::bta::directives::walk(p, s, forced, w);
        assert(StmtId(s.0) == s);
        assert(goes_on(w, here));
        assert(all_heeded(p, here, more)) by {
            assert forall|t: usize, mark: Option<StageDirective>| #[trigger]
                here.seen.contains((t, mark)) && !more.contains((t, mark)) implies heeded(
                p,
                here,
                Marked { stmt: StmtId(t), mark },
            ) by {
                let one = Marked { stmt: StmtId(t), mark };
                assert(w.seen.contains((t, mark)));
                assert(heeded(p, w, one));
                assert forall|e: ExprId, stage: Stage| #[trigger]
                    asks(p, here.cached, one, e, stage) implies is_marked(here, e) by {
                    assert(asks(p, w.cached, one, e, stage));
                    assert(is_marked(w, e));
                }
            }
        }
        if p.has_stmt(s) {
            match p.stmt(s) {
                StmtModel::Return(x) => {
                    lemma_mark_goes_on(p, here, x, forced, more);
                },
                StmtModel::Let { value, next, .. } => {
                    lemma_mark_goes_on(p, here, value, forced, more);
                    let mid = crate::passes::bta::directives::mark(here, value, forced);
                    lemma_walk_heeds(p, next, forced, mid, more);
                    lemma_goes_on_then(here, mid, end);
                },
                StmtModel::Resume { arg, next, .. } => {
                    lemma_mark_goes_on(p, here, arg, forced, more);
                    let mid = crate::passes::bta::directives::mark(here, arg, forced);
                    lemma_walk_heeds(p, next, forced, mid, more);
                    lemma_goes_on_then(here, mid, end);
                },
                StmtModel::Call { args, next, .. } => {
                    lemma_mark_all_goes_on(p, here, args, args.len(), forced, more);
                    let mid = crate::passes::bta::directives::mark_all(
                        here,
                        args,
                        args.len(),
                        forced,
                    );
                    lemma_walk_heeds(p, next, forced, mid, more);
                    lemma_goes_on_then(here, mid, end);
                },
                StmtModel::Perform { args, next, .. } => {
                    lemma_mark_all_goes_on(p, here, args, args.len(), forced, more);
                    let mid = crate::passes::bta::directives::mark_all(
                        here,
                        args,
                        args.len(),
                        forced,
                    );
                    lemma_walk_heeds(p, next, forced, mid, more);
                    lemma_goes_on_then(here, mid, end);
                },
                StmtModel::Val { value, next, .. } => {
                    lemma_walk_heeds(p, value, forced, here, more);
                    let mid = crate::passes::bta::directives::walk(p, value, forced, here);
                    lemma_walk_heeds(p, next, forced, mid, more);
                    lemma_goes_on_then(here, mid, end);
                },
                StmtModel::If { cond, then_branch, else_branch } => {
                    lemma_mark_goes_on(p, here, cond, forced, more);
                    let one = crate::passes::bta::directives::mark(here, cond, forced);
                    lemma_walk_heeds(p, then_branch, forced, one, more);
                    let two = crate::passes::bta::directives::walk(p, then_branch, forced, one);
                    lemma_walk_heeds(p, else_branch, forced, two, more);
                    lemma_goes_on_then(here, one, two);
                    lemma_goes_on_then(here, two, end);
                    lemma_goes_on_then(one, two, end);
                },
                StmtModel::Match { scrutinee, arms, default } => {
                    lemma_mark_goes_on(p, here, scrutinee, forced, more);
                    let one = crate::passes::bta::directives::mark(here, scrutinee, forced);
                    lemma_arms_heed(p, s, arms.len(), forced, one, more);
                    let two = crate::passes::bta::directives::walk_arms(
                        p,
                        s,
                        arms.len(),
                        forced,
                        one,
                    );
                    lemma_goes_on_then(here, one, two);
                    if let Some(part) = default {
                        lemma_walk_heeds(p, part, forced, two, more);
                        lemma_goes_on_then(here, two, end);
                        lemma_goes_on_then(one, two, end);
                    }
                },
                StmtModel::Handle { body, next, .. } => {
                    lemma_walk_heeds(p, body, forced, here, more);
                    let mid = crate::passes::bta::directives::walk(p, body, forced, here);
                    if let Some(part) = next {
                        lemma_walk_heeds(p, part, forced, mid, more);
                        lemma_goes_on_then(here, mid, end);
                    }
                },
                StmtModel::Stage { stage, body, next } => {
                    lemma_walk_heeds(p, body, Some(stage), here, more);
                    let mid = crate::passes::bta::directives::walk(p, body, Some(stage), here);
                    if let Some(part) = next {
                        lemma_walk_heeds(p, part, forced, mid, more);
                        lemma_goes_on_then(here, mid, end);
                    }
                },
                _ => {},
            }
        }
        lemma_goes_on_then(w, here, end);
        assert(heeded(p, end, at)) by {
            assert forall|part: Marked| #[trigger] inside(p, at, part) implies end.seen.contains(
                (part.stmt.0, part.mark),
            ) by {
                if let StmtModel::Match { arms, default, .. } = p.stmt(s) {
                    if default != Some(part.stmt) {
                        let i = choose|i: int|
                            0 <= i < arms.len() && (#[trigger] arms[i]).body == part.stmt;
                        assert(arms[i].body == part.stmt);
                    }
                }
            }
            assert forall|e: ExprId, stage: Stage| #[trigger]
                asks(p, end.cached, at, e, stage) implies is_marked(end, e) by {
                match p.stmt(s) {
                    StmtModel::Call { args, .. } => {
                        let i = choose|i: int| 0 <= i < args.len() && args[i] == e;
                        assert(args[i] == e);
                    },
                    StmtModel::Perform { args, .. } => {
                        let i = choose|i: int| 0 <= i < args.len() && args[i] == e;
                        assert(args[i] == e);
                    },
                    _ => {},
                }
            }
        }
        assert forall|t: usize, mark: Option<StageDirective>| #[trigger]
            end.seen.contains((t, mark)) && !open.contains((t, mark)) implies heeded(
            p,
            end,
            Marked { stmt: StmtId(t), mark },
        ) by {
            if (t, mark) != (s.0, forced) {
                assert(!more.contains((t, mark)));
            }
        }
    }
}

proof fn lemma_arms_heed(
    p: CoreModel,
    s: StmtId,
    first: nat,
    forced: Option<StageDirective>,
    w: Walk,
    open: Set<(usize, Option<StageDirective>)>,
)
    requires
        p.acyclic(),
        p.has_stmt(s),
        p.stmt(s) is Match,
        first <= p.stmt(s)->arms.len(),
        all_heeded(p, w, open),
    ensures
        goes_on(w, crate::passes::bta::directives::walk_arms(p, s, first, forced, w)),
        all_heeded(p, crate::passes::bta::directives::walk_arms(p, s, first, forced, w), open),
        forall|i: int|
            0 <= i < first ==> crate::passes::bta::directives::walk_arms(
                p,
                s,
                first,
                forced,
                w,
            ).seen.contains(
                ((#[trigger] p.stmt(s)->arms[i]).body.0, forced),
            ),
    decreases p.stmt_rank(s), 0nat, first,
{
    if first > 0 {
        let n = (first - 1) as nat;
        crate::passes::linearize::analysis::lemma_stmt_ranks(p, s);
        crate::ir::core_ir::lemma_arm_is_part(p.stmt(s), first - 1);
        lemma_arms_heed(p, s, n, forced, w, open);
        let mid = crate::passes::bta::directives::walk_arms(p, s, n, forced, w);
        lemma_walk_heeds(p, p.stmt(s)->arms[first - 1].body, forced, mid, open);
        lemma_goes_on_then(
            w,
            mid,
            crate::passes::bta::directives::walk_arms(p, s, first, forced, w),
        );
    }
}

proof fn lemma_functions_heed(p: CoreModel, first: nat, w: Walk)
    requires
        p.acyclic(),
        first <= p.functions.len(),
        all_heeded(p, w, Set::empty()),
    ensures
        goes_on(w, crate::passes::bta::directives::walk_functions(p, first, w)),
        all_heeded(p, crate::passes::bta::directives::walk_functions(p, first, w), Set::empty()),
        forall|f: int|
            0 <= f < first ==> crate::passes::bta::directives::walk_functions(p, first, w).seen.contains(
                ((#[trigger] p.functions[f]).body.0, None),
            ),
    decreases first,
{
    if first > 0 {
        let n = (first - 1) as nat;
        lemma_functions_heed(p, n, w);
        let mid = crate::passes::bta::directives::walk_functions(p, n, w);
        lemma_walk_heeds(p, p.functions[first - 1].body, None, mid, Set::empty());
        lemma_goes_on_then(w, mid, crate::passes::bta::directives::walk_functions(p, first, w));
    }
}

proof fn lemma_come_to(p: CoreModel, w: Walk, a: Marked, b: Marked, path: Seq<Marked>)
    requires
        all_heeded(p, w, Set::empty()),
        w.seen.contains((a.stmt.0, a.mark)),
        leads(p, a, b, path),
    ensures
        w.seen.contains((b.stmt.0, b.mark)),
    decreases path.len(),
{
    assert(StmtId(a.stmt.0) == a.stmt);
    assert(heeded(p, w, Marked { stmt: StmtId(a.stmt.0), mark: a.mark }));
    if path.len() > 1 {
        assert(inside(p, path[0], path[1]));
        let rest = path.subrange(1, path.len() as int);
        assert forall|i: int| #![trigger rest[i]] 0 <= i < rest.len() - 1 implies inside(
            p,
            rest[i],
            rest[i + 1],
        ) by {
            assert(rest[i] == path[i + 1]);
            assert(rest[i + 1] == path[i + 2]);
        }
        assert(rest.last() == path.last());
        assert(leads(p, path[1], b, rest));
        lemma_come_to(p, w, path[1], b, rest);
    }
}

/// Every mark in the body of a function is heeded: an expression right in a
/// statement that a mark stands round, and that the mark asks for a stage of, has
/// a stage that marks ask for.
pub proof fn lemma_every_mark_heeded(
    p: CoreModel,
    cached: Set<usize>,
    f: int,
    at: Marked,
    e: ExprId,
    stage: Stage,
)
    requires
        p.acyclic(),
        0 <= f < p.functions.len(),
        within(p, Marked { stmt: p.functions[f].body, mark: None }, at),
        asks(p, cached, at, e, stage),
    ensures
        ({
            let to = crate::passes::bta::directed(p, cached).exprs;
            to.contains_key(e.0) && (to[e.0] == Stage::Ct || to[e.0] == Stage::Rt(
                Reason::UserForcedRuntime,
            ))
        }),
{
    let w = Walk {
        cached,
        exprs: crate::passes::bta::initial(p, cached),
        seen: Set::empty(),
    };
    let end = crate::passes::bta::directives::walk_functions(p, p.functions.len(), w);
    lemma_functions_heed(p, p.functions.len(), w);
    let root = Marked { stmt: p.functions[f].body, mark: None };
    let path = choose|path: Seq<Marked>| leads(p, root, at, path);
    lemma_come_to(p, end, root, at, path);
    assert(StmtId(at.stmt.0) == at.stmt);
    assert(heeded(p, end, Marked { stmt: StmtId(at.stmt.0), mark: at.mark }));
    assert(asks(p, end.cached, at, e, stage));
}

// ---------------------------------------------------------------------------
// Calls that cannot be made, and results that have to wait
// ---------------------------------------------------------------------------

/// A function is for compile time only: it says so, or one of its effects does.
pub open spec fn only_early(
    p: CoreModel,
    properties: Map<usize, EffectProperties>,
    f: FuncId,
) -> bool {
    p.has_function(f) && (p.function(f).ct_only || exists|i: int|
        {
            let row = p.function(f).declared_effects;
            &&& 0 <= i < row.len()
            &&& early_effect(properties, #[trigger] p.function(f).declared_effects[i])
        })
}

pub open spec fn early_effect(
    properties: Map<usize, EffectProperties>,
    label: EffectLabelId,
) -> bool {
    properties.contains_key(label.0) && properties[label.0].ct_only
}

proof fn lemma_only_early(p: CoreModel, properties: Map<usize, EffectProperties>, f: FuncId)
    requires
        p.has_function(f),
    ensures
        only_early(p, properties, f) == crate::passes::bta::ct_only(p.function(f), properties),
{
    let row = p.function(f).declared_effects;
    if exists|i: int| 0 <= i < row.len() && early_effect(properties, #[trigger] row[i]) {
        let i = choose|i: int| 0 <= i < row.len() && early_effect(properties, #[trigger] row[i]);
        assert(properties.contains_key(row[i].0) && properties[row[i].0].ct_only);
    }
    if exists|i: int|
        0 <= i < row.len() && properties.contains_key((#[trigger] row[i]).0)
            && properties[row[i].0].ct_only {
        let i = choose|i: int|
            0 <= i < row.len() && properties.contains_key((#[trigger] row[i]).0)
                && properties[row[i].0].ct_only;
        assert(early_effect(properties, row[i]));
    }
}

proof fn lemma_enforced_one(
    p: CoreModel,
    properties: Map<usize, EffectProperties>,
    exprs: Map<usize, Stage>,
    first: nat,
    k: usize,
)
    requires
        first <= p.exprs.len() <= usize::MAX,
    ensures
        ({
            let all = crate::passes::bta::exprs_enforced(p, properties, exprs, first);
            let till = crate::passes::bta::exprs_enforced(p, properties, exprs, k as nat + 1);
            if k < first {
                all.contains_key(k) == till.contains_key(k) && all[k] == till[k]
            } else {
                all.contains_key(k) == exprs.contains_key(k) && all[k] == exprs[k]
            }
        }),
    decreases first,
{
    if first > 0 && k < first - 1 {
        lemma_enforced_one(p, properties, exprs, (first - 1) as nat, k);
    } else if first > 0 && k >= first {
        lemma_enforced_one(p, properties, exprs, (first - 1) as nat, k);
    }
}

/// A pure call of a function for compile time only, with an argument before it
/// that is not ready then, is known at run time only, and for that reason; no
/// other expression changes its stage.
pub proof fn lemma_refused_just_then(
    p: CoreModel,
    properties: Map<usize, EffectProperties>,
    exprs: Map<usize, Stage>,
    e: usize,
)
    requires
        e < p.exprs.len() <= usize::MAX,
        p.exprs[e as int].kind matches ExprModel::PureCall { args, .. } ==> forall|i: int|
            0 <= i < args.len() ==> (#[trigger] args[i]).0 < e,
    ensures
        ({
            let after = crate::passes::bta::exprs_enforced(p, properties, exprs, p.exprs.len());
            let refused = match p.exprs[e as int].kind {
                ExprModel::PureCall { callee, args } => only_early(p, properties, callee)
                    && exists|i: int|
                    0 <= i < args.len() && not_ready(after, #[trigger] args[i]),
                _ => false,
            };
            if refused {
                after.contains_key(e) && after[e] == Stage::Rt(
                    Reason::CtOnlyWithRuntimeArgs(p.exprs[e as int].kind->callee),
                )
            } else {
                after.contains_key(e) == exprs.contains_key(e) && after[e] == exprs[e]
            }
        }),
{
    let n = p.exprs.len();
    let after = crate::passes::bta::exprs_enforced(p, properties, exprs, n);
    let before = crate::passes::bta::exprs_enforced(p, properties, exprs, e as nat);
    let till = crate::passes::bta::exprs_enforced(p, properties, exprs, e as nat + 1);
    lemma_enforced_one(p, properties, exprs, n, e);
    lemma_enforced_one(p, properties, exprs, e as nat, e);
    if let ExprModel::PureCall { callee, args } = p.exprs[e as int].kind {
        if p.has_function(callee) {
            lemma_only_early(p, properties, callee);
        }
        assert forall|i: int| 0 <= i < args.len() implies not_ready(after, #[trigger] args[i])
            == !(before.contains_key(args[i].0) && before[args[i].0] is Ct) by {
            lemma_enforced_one(p, properties, exprs, n, args[i].0);
            lemma_enforced_one(p, properties, exprs, e as nat, args[i].0);
        }
        if crate::passes::bta::any_runtime(before, args) {
            let i = choose|i: int|
                0 <= i < args.len() && !(before.contains_key((#[trigger] args[i]).0)
                    && before[args[i].0] is Ct);
            assert(not_ready(after, args[i]));
        }
        if exists|i: int| 0 <= i < args.len() && not_ready(after, #[trigger] args[i]) {
            let i = choose|i: int| 0 <= i < args.len() && not_ready(after, #[trigger] args[i]);
            assert(!(before.contains_key(args[i].0) && before[args[i].0] is Ct));
        }
    }
}

/// An expression is not ready at compile time.
pub open spec fn not_ready(exprs: Map<usize, Stage>, e: ExprId) -> bool {
    !exprs.contains_key(e.0) || exprs[e.0] is Rt
}

/// A statement gives a variable a result that rests on an effect that cannot be
/// suspended.
pub open spec fn waits(
    properties: Map<usize, EffectProperties>,
    s: StmtModel,
    x: usize,
    label: EffectLabelId,
) -> bool {
    &&& !suspends(properties, label)
    &&& match s {
        StmtModel::Call { result, effects, .. } => result.0 == x && effects.contains(label),
        StmtModel::Perform { result: Some(result), effect, .. } => result.0 == x && effect
            == label,
        _ => false,
    }
}

/// A variable is known at run time only, because of an effect, just where some
/// statement gives it a result that rests on one that cannot be suspended; any
/// other keeps its stage.
pub proof fn lemma_waits_just_then(
    p: CoreModel,
    properties: Map<usize, EffectProperties>,
    vars: Map<usize, Stage>,
    first: nat,
    x: usize,
)
    requires
        first <= p.stmts.len(),
    ensures
        ({
            let after = crate::passes::bta::all_blocked(p, properties, vars, first);
            if exists|i: int, label: EffectLabelId|
                0 <= i < first && #[trigger] waits(properties, p.stmts[i].kind, x, label) {
                exists|i: int, label: EffectLabelId|
                    {
                        &&& 0 <= i < first
                        &&& #[trigger] waits(properties, p.stmts[i].kind, x, label)
                        &&& after.contains_key(x)
                        &&& after[x] == Stage::Rt(Reason::EffectNotDischarged(label))
                    }
            } else {
                after.contains_key(x) == vars.contains_key(x) && after[x] == vars[x]
            }
        }),
    decreases first,
{
    if first > 0 {
        let n = (first - 1) as nat;
        lemma_waits_just_then(p, properties, vars, n, x);
        let s = p.stmts[first - 1].kind;
        match s {
            StmtModel::Call { result, effects, .. } => {
                lemma_first_that_blocks(effects, properties, effects.len());
                match crate::passes::bta::blocking(effects, properties, effects.len()) {
                    Some(label) => {
                        assert(effects.contains(label));
                        if result.0 == x {
                            assert(waits(properties, p.stmts[first - 1].kind, x, label));
                        }
                    },
                    None => {
                        assert forall|label: EffectLabelId| !#[trigger] waits(
                            properties,
                            p.stmts[first - 1].kind,
                            x,
                            label,
                        ) by {
                            if effects.contains(label) {
                                let i = choose|i: int|
                                    0 <= i < effects.len() && effects[i] == label;
                                assert(suspends(properties, effects[i]));
                            }
                        }
                    },
                }
            },
            StmtModel::Perform { result: Some(result), effect, .. } => {
                let row = seq![effect];
                lemma_first_that_blocks(row, properties, 1);
                assert(row[0] == effect);
                if let Some(label) = crate::passes::bta::blocking(row, properties, 1) {
                    if result.0 == x {
                        assert(waits(properties, p.stmts[first - 1].kind, x, label));
                    }
                }
            },
            _ => {},
        }
        if exists|i: int, label: EffectLabelId|
            0 <= i < n && #[trigger] waits(properties, p.stmts[i].kind, x, label) {
            let (i, label) = choose|i: int, label: EffectLabelId|
                0 <= i < n && #[trigger] waits(properties, p.stmts[i].kind, x, label);
            assert(waits(properties, p.stmts[i].kind, x, label));
        }
    }
}

} // verus!
