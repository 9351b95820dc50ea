//! Leaving operations on reference counts out changes no count.
use crate::common::ids::{StmtId, VarId};
use crate::passes::arc_insert::{ArcOpKind, ArcPlannedOp};
use crate::passes::arc_opt::ArcCfg;
use vstd::prelude::*;

verus! {

proof fn lemma_uncancelled(ops: Seq<ArcPlannedOp>, first: int, op: ArcPlannedOp)
    requires
        0 <= first <= ops.len(),
    ensures
        crate::passes::arc_opt::uncancelled(ops, first).contains(op) <==> ops.take(first).contains(
            op,
        ) && !crate::passes::arc_opt::cancelled(ops, op),
    decreases first,
{
    let left = crate::passes::arc_opt::uncancelled(ops, first);
    if first > 0 {
        let before = crate::passes::arc_opt::uncancelled(ops, first - 1);
        lemma_uncancelled(ops, first - 1, op);
        lemma_one_more(ops, first, op);
        if left.contains(op) && !before.contains(op) {
            let i = choose|i: int| 0 <= i < left.len() && left[i] == op;
            assert(i < before.len() ==> before[i] == op);
        }
        if before.contains(op) {
            let i = choose|i: int| 0 <= i < before.len() && before[i] == op;
            assert(left[i] == op);
        }
        if ops[first - 1] == op && !crate::passes::arc_opt::cancelled(ops, op) {
            assert(left.last() == op);
            assert(left.contains(op));
        }
    } else {
        assert(ops.take(0) =~= Seq::empty());
    }
}

proof fn lemma_one_more(ops: Seq<ArcPlannedOp>, first: int, op: ArcPlannedOp)
    requires
        0 < first <= ops.len(),
    ensures
        ops.take(first).contains(op) <==> ops.take(first - 1).contains(op) || ops[first - 1] == op,
{
    let more = ops.take(first);
    let less = ops.take(first - 1);
    if more.contains(op) && ops[first - 1] != op {
        let i = choose|i: int| 0 <= i < more.len() && more[i] == op;
        assert(less[i] == op);
    }
    if less.contains(op) {
        let i = choose|i: int| 0 <= i < less.len() && less[i] == op;
        assert(more[i] == op);
    }
    if ops[first - 1] == op {
        assert(more[first - 1] == op);
    }
}

/// Leaving pairs out changes no count: at every statement a variable is retained
/// as often more than released as before.
pub proof fn lemma_pairs_change_no_count(ops: Seq<ArcPlannedOp>, s: StmtId, var: VarId)
    ensures
        ({
            let left = crate::passes::arc_opt::uncancelled(ops, ops.len() as int);
            let retain = ArcOpKind::Retain { var };
            let release = ArcOpKind::Release { var };
            crate::meaning::counting::planned(left, s, retain)
                - crate::meaning::counting::planned(left, s, release)
                == crate::meaning::counting::planned(ops, s, retain)
                - crate::meaning::counting::planned(ops, s, release)
        }),
{
    assert(ops.take(ops.len() as int) =~= ops);
    let n = ops.len() as int;
    lemma_uncancelled(ops, n, ArcPlannedOp { stmt: s, kind: ArcOpKind::Retain { var } });
    lemma_uncancelled(ops, n, ArcPlannedOp { stmt: s, kind: ArcOpKind::Release { var } });
}

/// As many retains, and as many releases, are counted as left out as are missing.
pub proof fn lemma_left_out_is_counted(ops: Seq<ArcPlannedOp>, first: int)
    requires
        0 <= first <= ops.len(),
    ensures
        ({
            let left = crate::passes::arc_opt::uncancelled(ops, first);
            let retains = crate::passes::arc_opt::cancelled_count(ops, first, true);
            let releases = crate::passes::arc_opt::cancelled_count(ops, first, false);
            &&& retains == crate::passes::arc_insert::retain_count(ops.take(first)) as int
                - crate::passes::arc_insert::retain_count(left) as int
            &&& retains + releases == first - left.len()
        }),
    decreases first,
{
    if first > 0 {
        lemma_left_out_is_counted(ops, first - 1);
        assert(ops.take(first).drop_last() =~= ops.take(first - 1));
        assert(ops.take(first).last() == ops[first - 1]);
        let left = crate::passes::arc_opt::uncancelled(ops, first);
        let before = crate::passes::arc_opt::uncancelled(ops, first - 1);
        if !crate::passes::arc_opt::cancelled(ops, ops[first - 1]) {
            assert(left.drop_last() =~= before);
            assert(left.last() == ops[first - 1]);
        }
    } else {
        assert(ops.take(0) =~= Seq::empty());
    }
}

proof fn lemma_necessary(cfg: ArcCfg, ops: Seq<ArcPlannedOp>, first: int, op: ArcPlannedOp)
    requires
        0 <= first <= ops.len(),
    ensures
        crate::passes::arc_opt::necessary(cfg, ops, first).contains(op) <==> ops.take(
            first,
        ).contains(op) && !crate::passes::arc_opt::redundant(cfg, ops, op),
    decreases first,
{
    let left = crate::passes::arc_opt::necessary(cfg, ops, first);
    if first > 0 {
        let before = crate::passes::arc_opt::necessary(cfg, ops, first - 1);
        lemma_necessary(cfg, ops, first - 1, op);
        lemma_one_more(ops, first, op);
        if left.contains(op) && !before.contains(op) {
            let i = choose|i: int| 0 <= i < left.len() && left[i] == op;
            assert(i < before.len() ==> before[i] == op);
        }
        if before.contains(op) {
            let i = choose|i: int| 0 <= i < before.len() && before[i] == op;
            assert(left[i] == op);
        }
        if ops[first - 1] == op && !crate::passes::arc_opt::redundant(cfg, ops, op) {
            assert(left.last() == op);
            assert(left.contains(op));
        }
    } else {
        assert(ops.take(0) =~= Seq::empty());
    }
}

/// What has been released along a walk does not depend on where the walk goes
/// then.
proof fn lemma_released_prefix(
    cfg: ArcCfg,
    ops: Seq<ArcPlannedOp>,
    a: Seq<usize>,
    b: Seq<usize>,
    k: int,
    var: VarId,
)
    requires
        k <= a.len(),
        k <= b.len(),
        forall|i: int| 0 <= i < k ==> a[i] == b[i],
    ensures
        crate::passes::arc_opt::released(cfg, ops, a, k, var) == crate::passes::arc_opt::released(
            cfg,
            ops,
            b,
            k,
            var,
        ),
    decreases k,
{
    if k > 0 {
        lemma_released_prefix(cfg, ops, a, b, k - 1, var);
    }
}

/// No variable is released where it is retained or given a value.
pub open spec fn releases_stand_alone(cfg: ArcCfg, ops: Seq<ArcPlannedOp>) -> bool {
    forall|s: StmtId, var: VarId|
        #![trigger crate::passes::arc_opt::has_release(ops, s, var)]
        crate::passes::arc_opt::has_release(ops, s, var) ==> !cfg.defines(s.0, var)
            && !crate::passes::arc_opt::has_retain(ops, s, var)
}

/// Leaving redundant releases out changes nothing on any walk: at each step of it
/// what has been released by then has been released.
pub proof fn lemma_redundant_changes_nothing(
    cfg: ArcCfg,
    ops: Seq<ArcPlannedOp>,
    path: Seq<usize>,
    to: usize,
    k: int,
    var: VarId,
)
    requires
        releases_stand_alone(cfg, ops),
        cfg.leads(to, path),
        k <= path.len(),
    ensures
        crate::passes::arc_opt::released(
            cfg,
            crate::passes::arc_opt::necessary(cfg, ops, ops.len() as int),
            path,
            k,
            var,
        ) == crate::passes::arc_opt::released(cfg, ops, path, k, var),
    decreases k,
{
    if k > 0 {
        lemma_redundant_changes_nothing(cfg, ops, path, to, k - 1, var);
        let left = crate::passes::arc_opt::necessary(cfg, ops, ops.len() as int);
        let s = StmtId(path[k - 1]);
        let retain = ArcPlannedOp { stmt: s, kind: ArcOpKind::Retain { var } };
        let release = ArcPlannedOp { stmt: s, kind: ArcOpKind::Release { var } };
        assert(ops.take(ops.len() as int) =~= ops);
        lemma_necessary(cfg, ops, ops.len() as int, retain);
        lemma_necessary(cfg, ops, ops.len() as int, release);
        assert(crate::passes::arc_opt::has_release(ops, s, var) == ops.contains(release));
        if ops.contains(release) && crate::passes::arc_opt::redundant(cfg, ops, release) {
            let walk = path.take(k);
            assert forall|i: int| #![trigger walk[i]] 0 <= i < walk.len() - 1 implies (cfg.edge())(
                walk[i],
                walk[i + 1],
            ) by {
                assert(walk[i] == path[i]);
                assert(walk[i + 1] == path[i + 1]);
                assert((cfg.edge())(path[i], path[i + 1]));
            }
            assert(walk[0] == path[0]);
            assert(walk.last() == path[k - 1]);
            assert(cfg.leads(path[k - 1], walk));
            assert(crate::passes::arc_opt::released(cfg, ops, walk, walk.len() - 1, var));
            lemma_released_prefix(cfg, ops, walk, path, k - 1, var);
        }
    }
}

} // verus!
