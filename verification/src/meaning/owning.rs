//! What it means that a plan of operations on reference counts is found right.
use crate::common::ids::{LinearStmtId, VarId};
use crate::ir::linear::LinearStmtModel;
use crate::passes::arc_emit::ArcEmitPlan;
use crate::passes::arc_verify::Setting;
use crate::pipeline::phases::SemanticTables;
use vstd::prelude::*;

verus! {

/// How often a variable stands in a list.
pub open spec fn often(list: Seq<VarId>, var: VarId) -> int {
    list.filter(|v: VarId| v == var).len() as int
}

proof fn lemma_often(list: Seq<VarId>, var: VarId)
    ensures
        often(list, var) == crate::passes::arc_insert::occurrences(list, var),
    decreases list.len(),
{
    reveal(Seq::filter);
    if list.len() > 0 {
        lemma_often(list.drop_last(), var);
    }
}

/// The variables that a statement gives values to.
pub open spec fn gives_value(stmt: LinearStmtModel, var: VarId) -> bool {
    match stmt {
        LinearStmtModel::Let { binding, .. } => var == binding,
        LinearStmtModel::Val { binding, .. } => var == binding,
        LinearStmtModel::Call { result, .. } => var == result,
        LinearStmtModel::Perform { result: Some(result), .. } => var == result,
        LinearStmtModel::Match { arms, .. } => exists|i: int, j: int|
            #![trigger arms[i].binders[j]]
            0 <= i < arms.len() && 0 <= j < arms[i].binders.len() && arms[i].binders[j] == var,
        _ => false,
    }
}

proof fn lemma_gives_value(stmt: LinearStmtModel, var: VarId)
    ensures
        gives_value(stmt, var) == crate::passes::arc_verify::defines(stmt, var),
{
    if let LinearStmtModel::Match { arms, .. } = stmt {
        if gives_value(stmt, var) {
            let (i, j) = choose|i: int, j: int|
                #![trigger arms[i].binders[j]]
                0 <= i < arms.len() && 0 <= j < arms[i].binders.len() && arms[i].binders[j] == var;
            assert(arms[i].binders.contains(var));
        }
        if crate::passes::arc_verify::defines(stmt, var) {
            let i = choose|i: int|
                0 <= i < arms.len() && (#[trigger] arms[i]).binders.contains(var);
            let j = choose|j: int| 0 <= j < arms[i].binders.len() && arms[i].binders[j] == var;
            assert(arms[i].binders[j] == var);
        }
    }
}

/// How many references to what a variable holds come in at a statement.
pub open spec fn comes_in(g: Setting, s: usize, var: usize) -> int {
    often(g.plan.retains(LinearStmtId(s)), VarId(var)) + if crate::passes::arc_insert::managed(
        g.sema,
        VarId(var),
    ) && gives_value(g.p.stmt(LinearStmtId(s)), VarId(var)) {
        1int
    } else {
        0
    }
}

/// How many are owned on a path when some of its statements have been passed.
pub open spec fn owned(g: Setting, f: int, path: Seq<usize>, i: int, var: usize) -> int
    decreases i,
{
    if i <= 0 {
        if crate::passes::arc_insert::managed(g.sema, VarId(var))
            && g.p.functions[f].params.contains(VarId(var)) {
            1
        } else {
            0
        }
    } else {
        owned(g, f, path, i - 1, var) + comes_in(g, path[i - 1], var) - often(
            g.plan.releases(LinearStmtId(path[i - 1])),
            VarId(var),
        )
    }
}

proof fn lemma_step(g: Setting, s: usize, var: usize, credit: int)
    ensures
        g.spent(s, var) == often(g.plan.releases(LinearStmtId(s)), VarId(var)),
        g.spent(s, var) >= 0,
        comes_in(g, s, var) >= 0,
        g.gained(s, var, credit) <= credit + comes_in(g, s, var),
        0 <= credit <= 127 ==> g.gained(s, var, credit) >= credit,
        credit + comes_in(g, s, var) <= 127 ==> g.gained(s, var, credit) == credit + comes_in(
            g,
            s,
            var,
        ),
{
    lemma_often(g.plan.releases(LinearStmtId(s)), VarId(var));
    lemma_often(g.plan.retains(LinearStmtId(s)), VarId(var));
    lemma_gives_value(g.p.stmt(LinearStmtId(s)), VarId(var));
}

/// Where no release is found that is not owned, no path from the start of a
/// function ever releases more than it owns.
pub proof fn lemma_never_short(
    g: Setting,
    f: int,
    s: usize,
    path: Seq<usize>,
    i: int,
    var: usize,
)
    requires
        g.way(f, s, path),
        forall|t: usize| !#[trigger] g.underflows(t, var),
        0 <= i <= path.len(),
    ensures
        owned(g, f, path, i, var) >= 0,
{
    lemma_credit_below(g, f, s, path, i, var);
}

proof fn lemma_credit_below(
    g: Setting,
    f: int,
    s: usize,
    path: Seq<usize>,
    i: int,
    var: usize,
)
    requires
        g.way(f, s, path),
        forall|t: usize| !#[trigger] g.underflows(t, var),
        0 <= i <= path.len(),
    ensures
        0 <= g.carried(f, path, i, var) <= 127,
        g.carried(f, path, i, var) <= owned(g, f, path, i, var),
    decreases i,
{
    if i > 0 {
        lemma_credit_below(g, f, s, path, i - 1, var);
        let t = path[i - 1];
        let credit = g.carried(f, path, i - 1, var);
        lemma_step(g, t, var, credit);
        let walk = path.take(i);
        assert(g.way(f, t, walk)) by {
            assert forall|k: int| #![trigger walk[k]] 0 <= k < walk.len() - 1 implies (g.edge())(
                walk[k],
                walk[k + 1],
            ) by {
                assert(walk[k] == path[k]);
                assert(walk[k + 1] == path[k + 1]);
                assert((g.edge())(path[k], path[k + 1]));
            }
            assert(walk[0] == path[0]);
        }
        lemma_carried_same(g, f, walk, path, i - 1, var);
        assert(!g.underflows(t, var));
        assert(!g.short(t, var, g.carried(f, walk, walk.len() - 1, var)));
    }
}

proof fn lemma_carried_same(
    g: Setting,
    f: int,
    a: Seq<usize>,
    b: Seq<usize>,
    i: int,
    var: usize,
)
    requires
        i <= a.len(),
        i <= b.len(),
        forall|k: int| 0 <= k < i ==> a[k] == b[k],
    ensures
        g.carried(f, a, i, var) == g.carried(f, b, i, var),
    decreases i,
{
    if i > 0 {
        lemma_carried_same(g, f, a, b, i - 1, var);
    }
}

/// A release that is found not to be owned is one: the first one that is found
/// on a path, along which no more than a counter holds is owned, releases more
/// than is owned there.
pub proof fn lemma_short_is_short(
    g: Setting,
    f: int,
    path: Seq<usize>,
    i: int,
    var: usize,
)
    requires
        0 <= i < path.len(),
        forall|k: int|
            0 <= k <= i ==> #[trigger] owned(g, f, path, k, var) + comes_in(g, path[k], var)
                <= 127,
        forall|k: int|
            0 <= k < i ==> !g.short(path[k], var, #[trigger] g.carried(f, path, k, var)),
    ensures
        g.carried(f, path, i, var) == owned(g, f, path, i, var),
        g.short(path[i], var, g.carried(f, path, i, var)) <==> owned(g, f, path, i + 1, var) < 0,
    decreases i,
{
    if i > 0 {
        lemma_short_is_short(g, f, path, i - 1, var);
        let t = path[i - 1];
        assert(owned(g, f, path, i - 1, var) + comes_in(g, t, var) <= 127);
        lemma_step(g, t, var, g.carried(f, path, i - 1, var));
        assert(!g.short(t, var, g.carried(f, path, i - 1, var)));
        lemma_not_negative(g, f, path, i - 1, var);
    }
    lemma_not_negative(g, f, path, i, var);
    assert(owned(g, f, path, i, var) + comes_in(g, path[i], var) <= 127);
    lemma_step(g, path[i], var, g.carried(f, path, i, var));
}

proof fn lemma_not_negative(g: Setting, f: int, path: Seq<usize>, i: int, var: usize)
    requires
        0 <= i < path.len(),
        forall|k: int|
            0 <= k < i ==> !g.short(path[k], var, #[trigger] g.carried(f, path, k, var)),
    ensures
        0 <= g.carried(f, path, i, var) <= 127,
    decreases i,
{
    if i > 0 {
        lemma_not_negative(g, f, path, i - 1, var);
        lemma_step(g, path[i - 1], var, g.carried(f, path, i - 1, var));
        assert(!g.short(path[i - 1], var, g.carried(f, path, i - 1, var)));
    }
}

/// A list of variables in which none stands twice, and all are counted.
pub open spec fn fine(sema: SemanticTables, vars: Seq<VarId>) -> bool {
    &&& vars.no_duplicates()
    &&& forall|i: int|
        0 <= i < vars.len() ==> crate::passes::arc_insert::managed(sema, #[trigger] vars[i])
}

proof fn lemma_ops_fine(
    sema: SemanticTables,
    s: LinearStmtId,
    vars: Seq<VarId>,
    first: int,
    retain: bool,
)
    requires
        0 <= first <= vars.len(),
    ensures
        crate::passes::arc_verify::op_reports(sema, s, vars, first, retain).len() == 0
            <==> fine(sema, vars.take(first)),
    decreases first,
{
    if first > 0 {
        lemma_ops_fine(sema, s, vars, first - 1, retain);
        let less = vars.take(first - 1);
        let more = vars.take(first);
        let last = vars[first - 1];
        assert(more =~= less.push(last));
        if fine(sema, more) {
            assert forall|i: int| 0 <= i < less.len() implies crate::passes::arc_insert::managed(
                sema,
                #[trigger] less[i],
            ) by {
                assert(more[i] == less[i]);
            }
            assert(more[first - 1] == last);
            if less.contains(last) {
                let j = choose|j: int| 0 <= j < less.len() && less[j] == last;
                assert(more[j] == more[first - 1]);
            }
            assert(less.no_duplicates()) by {
                assert forall|i: int, j: int|
                    0 <= i < less.len() && 0 <= j < less.len() && i != j implies less[i]
                    != less[j] by {
                    assert(more[i] == less[i] && more[j] == less[j]);
                }
            }
        }
        if fine(sema, less) && !less.contains(last) && crate::passes::arc_insert::managed(
            sema,
            last,
        ) {
            assert forall|i: int| 0 <= i < more.len() implies crate::passes::arc_insert::managed(
                sema,
                #[trigger] more[i],
            ) by {
                if i < first - 1 {
                    assert(more[i] == less[i]);
                }
            }
            assert forall|i: int, j: int|
                0 <= i < more.len() && 0 <= j < more.len() && i != j implies more[i] != more[j] by {
                if i < first - 1 {
                    assert(less[i] == more[i]);
                }
                if j < first - 1 {
                    assert(less[j] == more[j]);
                }
            }
        }
    } else {
        assert(vars.take(0) =~= Seq::empty());
    }
}

proof fn lemma_no_conflict(
    s: LinearStmtId,
    retains: Seq<VarId>,
    releases: Seq<VarId>,
    first: int,
)
    requires
        0 <= first <= retains.len(),
    ensures
        crate::passes::arc_verify::conflict_reports(s, retains, releases, first).len() == 0
            <==> forall|i: int| 0 <= i < first ==> !releases.contains(#[trigger] retains[i]),
    decreases first,
{
    if first > 0 {
        lemma_no_conflict(s, retains, releases, first - 1);
        let last = retains[first - 1];
        if releases.contains(last) && retains.take(first - 1).contains(last) {
            let less = retains.take(first - 1);
            let j = choose|j: int| 0 <= j < less.len() && less[j] == last;
            assert(retains[j] == last);
        }
    }
}

/// Nothing is reported of the operations at a statement just where they are of
/// counted variables, none is there twice, and none is both retained and
/// released.
pub proof fn lemma_nothing_reported(sema: SemanticTables, plan: ArcEmitPlan, s: LinearStmtId)
    ensures
        crate::passes::arc_verify::stmt_reports(sema, plan, s).len() == 0 <==> {
            &&& fine(sema, plan.retains(s))
            &&& fine(sema, plan.releases(s))
            &&& forall|i: int|
                0 <= i < plan.retains(s).len() ==> !plan.releases(s).contains(
                    #[trigger] plan.retains(s)[i],
                )
        },
{
    let retains = plan.retains(s);
    let releases = plan.releases(s);
    lemma_ops_fine(sema, s, retains, retains.len() as int, true);
    lemma_ops_fine(sema, s, releases, releases.len() as int, false);
    lemma_no_conflict(s, retains, releases, retains.len() as int);
    assert(retains.take(retains.len() as int) =~= retains);
    assert(releases.take(releases.len() as int) =~= releases);
}

} // verus!
