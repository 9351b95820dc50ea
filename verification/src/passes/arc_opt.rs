//! Reference-count operations that cancel out, or that come too late.
use crate::common::ids::{StmtId, VarId};
use crate::common::sorted::{
    contains_sorted, copy_list, insert_sorted, intersect_sorted, remove_sorted,
};
use crate::passes::arc_insert::{count_ops, ArcInsertionPlan, ArcOpKind, ArcPlannedOp};
use vstd::prelude::*;

verus! {

#[derive(Clone, Copy, PartialEq, Eq, Debug, Default, Structural)]
pub struct ArcOptStats {
    pub eliminated_move_pairs: u32,
    pub removed_retain_ops: u32,
    pub removed_release_ops: u32,
}

#[derive(Clone, Debug)]
pub struct ArcOptResult {
    pub plan: ArcInsertionPlan,
    pub stats: ArcOptStats,
}

/// Which operations are looked for.
#[derive(Clone, Copy, PartialEq, Eq, Debug, Structural)]
pub struct ArcOptLevel {
    /// A retain and a release of one variable at one statement.
    pub same_stmt_pair_elim: bool,
    /// A release of what has been released on every way.
    pub cfg_redundant_release_elim: bool,
}

/// What a statement defines, and which statements follow it.
#[derive(Clone, Debug)]
pub struct ArcStmtSummary {
    pub defs: Vec<VarId>,
    pub successors: Vec<StmtId>,
}

/// The order in which statements can run.
#[derive(Clone, Debug)]
pub struct ArcCfg {
    pub roots: Vec<StmtId>,
    pub reachable: Vec<StmtId>,
    pub summaries: Vec<Option<ArcStmtSummary>>,
}

impl ArcCfg {
    pub open spec fn has(self, s: usize) -> bool {
        s < self.summaries@.len()
    }

    pub open spec fn edge(self) -> spec_fn(usize, usize) -> bool {
        |a: usize, b: usize|
            self.has(a) && self.summaries@[a as int] is Some && (
            self.summaries@[a as int]->0).successors@.contains(StmtId(b)) && self.has(b)
    }

    pub open spec fn root_set(self) -> Set<usize> {
        Set::new(|s: usize| self.has(s) && self.roots@.contains(StmtId(s)))
    }

    pub open spec fn defines(self, s: usize, var: VarId) -> bool {
        self.has(s) && self.summaries@[s as int] is Some && (
        self.summaries@[s as int]->0).defs@.contains(var)
    }

    /// Whether a walk from a root leads to a statement.
    pub open spec fn leads(self, s: usize, path: Seq<usize>) -> bool {
        crate::common::reach::leads(self.edge(), self.root_set(), s, path)
    }
}

// ---------------------------------------------------------------------------
// What is left out
// ---------------------------------------------------------------------------

pub open spec fn has_retain(ops: Seq<ArcPlannedOp>, s: StmtId, var: VarId) -> bool {
    ops.contains(ArcPlannedOp { stmt: s, kind: ArcOpKind::Retain { var } })
}

pub open spec fn has_release(ops: Seq<ArcPlannedOp>, s: StmtId, var: VarId) -> bool {
    ops.contains(ArcPlannedOp { stmt: s, kind: ArcOpKind::Release { var } })
}

/// A variable is retained and released at one statement.
pub open spec fn cancelled(ops: Seq<ArcPlannedOp>, op: ArcPlannedOp) -> bool {
    let var = crate::passes::arc_insert::op_var(op.kind);
    has_retain(ops, op.stmt, var) && has_release(ops, op.stmt, var)
}

/// Those of the first operations that do not cancel out.
pub open spec fn uncancelled(ops: Seq<ArcPlannedOp>, first: int) -> Seq<ArcPlannedOp>
    decreases first,
{
    if first <= 0 {
        Seq::empty()
    } else if cancelled(ops, ops[first - 1]) {
        uncancelled(ops, first - 1)
    } else {
        uncancelled(ops, first - 1).push(ops[first - 1])
    }
}

/// How many of the first operations cancel out, of those that retain or of
/// those that release.
pub open spec fn cancelled_count(ops: Seq<ArcPlannedOp>, first: int, retains: bool) -> int
    decreases first,
{
    if first <= 0 {
        0
    } else {
        cancelled_count(ops, first - 1, retains) + if cancelled(ops, ops[first - 1]) && (
        ops[first - 1].kind is Retain) == retains {
            1int
        } else {
            0
        }
    }
}

/// How many pairs cancel out, as far as their retains are among the first
/// operations.
pub open spec fn pair_count(ops: Seq<ArcPlannedOp>, first: int) -> int
    decreases first,
{
    if first <= 0 {
        0
    } else {
        pair_count(ops, first - 1) + if cancelled(ops, ops[first - 1])
            && ops[first - 1].kind is Retain && !ops.take(first - 1).contains(ops[first - 1]) {
            1int
        } else {
            0
        }
    }
}

/// Whether a variable has been released, and not retained or defined since, when
/// a walk comes to its step with the given number.
pub open spec fn released(
    cfg: ArcCfg,
    ops: Seq<ArcPlannedOp>,
    path: Seq<usize>,
    k: int,
    var: VarId,
) -> bool
    decreases k,
{
    k > 0 && (has_release(ops, StmtId(path[k - 1]), var) || (released(cfg, ops, path, k - 1, var)
        && !cfg.defines(path[k - 1], var) && !has_retain(ops, StmtId(path[k - 1]), var)))
}

/// Whether a variable has been released on every walk to a statement.
pub open spec fn released_always(
    cfg: ArcCfg,
    ops: Seq<ArcPlannedOp>,
    s: usize,
    var: VarId,
) -> bool {
    forall|path: Seq<usize>| #[trigger]
        cfg.leads(s, path) ==> released(cfg, ops, path, path.len() - 1, var)
}

/// A release of what has been released already, whatever way was taken.
pub open spec fn redundant(cfg: ArcCfg, ops: Seq<ArcPlannedOp>, op: ArcPlannedOp) -> bool {
    &&& op.kind is Release
    &&& cfg.has(op.stmt.0)
    &&& crate::common::reach::reaches(cfg.edge(), cfg.root_set(), op.stmt.0)
    &&& released_always(cfg, ops, op.stmt.0, op.kind->Release_var)
}

/// Those of the first operations that are not redundant.
pub open spec fn necessary(cfg: ArcCfg, ops: Seq<ArcPlannedOp>, first: int) -> Seq<ArcPlannedOp>
    decreases first,
{
    if first <= 0 {
        Seq::empty()
    } else if redundant(cfg, ops, ops[first - 1]) {
        necessary(cfg, ops, first - 1)
    } else {
        necessary(cfg, ops, first - 1).push(ops[first - 1])
    }
}

pub open spec fn capped(n: int) -> int {
    if n <= u32::MAX {
        n
    } else {
        u32::MAX as int
    }
}

// ---------------------------------------------------------------------------
// Pairs at one statement
// ---------------------------------------------------------------------------

fn contains_op(ops: &Vec<ArcPlannedOp>, first: usize, op: ArcPlannedOp) -> (found: bool)
    requires
        first <= ops@.len(),
    ensures
        found == ops@.take(first as int).contains(op),
{
    let ghost part = ops@.take(first as int);
    let mut i: usize = 0;
    while i < first
        invariant
            i <= first <= ops@.len(),
            part == ops@.take(first as int),
            forall|k: int| 0 <= k < i ==> part[k] != op,
        decreases first - i,
    {
        if ops[i] == op {
            assert(part[i as int] == op);
            return true;
        }
        i += 1;
    }
    false
}

fn is_cancelled(ops: &Vec<ArcPlannedOp>, op: ArcPlannedOp) -> (b: bool)
    ensures
        b == cancelled(ops@, op),
{
    let var = match op.kind {
        ArcOpKind::Retain { var } => var,
        ArcOpKind::Release { var } => var,
    };
    let n = ops.len();
    assert(ops@.take(n as int) =~= ops@);
    contains_op(ops, n, ArcPlannedOp { stmt: op.stmt, kind: ArcOpKind::Retain { var } })
        && contains_op(ops, n, ArcPlannedOp { stmt: op.stmt, kind: ArcOpKind::Release { var } })
}

proof fn lemma_counts_bound(ops: Seq<ArcPlannedOp>, first: int)
    requires
        0 <= first,
    ensures
        0 <= cancelled_count(ops, first, true) <= first,
        0 <= cancelled_count(ops, first, false) <= first,
        0 <= pair_count(ops, first) <= first,
    decreases first,
{
    if first > 0 {
        lemma_counts_bound(ops, first - 1);
    }
}

fn eliminate_same_stmt_pairs(ops: &Vec<ArcPlannedOp>) -> (out: (Vec<ArcPlannedOp>, ArcOptStats))
    ensures
        out.0@ == uncancelled(ops@, ops@.len() as int),
        out.1.eliminated_move_pairs == capped(pair_count(ops@, ops@.len() as int)),
        out.1.removed_retain_ops == capped(cancelled_count(ops@, ops@.len() as int, true)),
        out.1.removed_release_ops == capped(cancelled_count(ops@, ops@.len() as int, false)),
{
    let mut kept: Vec<ArcPlannedOp> = Vec::new();
    let mut pairs: u32 = 0;
    let mut retains: u32 = 0;
    let mut releases: u32 = 0;
    let mut i: usize = 0;
    while i < ops.len()
        invariant
            i <= ops@.len(),
            kept@ == uncancelled(ops@, i as int),
            pairs == capped(pair_count(ops@, i as int)),
            retains == capped(cancelled_count(ops@, i as int, true)),
            releases == capped(cancelled_count(ops@, i as int, false)),
        decreases ops@.len() - i,
    {
        let op = ops[i];
        proof {
            lemma_counts_bound(ops@, i as int);
        }
        if is_cancelled(ops, op) {
            match op.kind {
                ArcOpKind::Retain { .. } => {
                    if !contains_op(ops, i, op) {
                        pairs = pairs.saturating_add(1);
                    }
                    retains = retains.saturating_add(1);
                },
                ArcOpKind::Release { .. } => {
                    releases = releases.saturating_add(1);
                },
            }
        } else {
            kept.push(op);
        }
        i += 1;
    }
    (
        kept,
        ArcOptStats {
            eliminated_move_pairs: pairs,
            removed_retain_ops: retains,
            removed_release_ops: releases,
        },
    )
}

// ---------------------------------------------------------------------------
// What has been released on every way
// ---------------------------------------------------------------------------

/// What is known to be released when a statement is reached; nothing where no
/// way to it has been followed yet.
type States = Vec<Option<Vec<usize>>>;

spec fn state_has(states: Seq<Option<Vec<usize>>>, s: int, var: VarId) -> bool {
    states[s] is Some && states[s]->0@.contains(var.0)
}

/// What is released after a statement, given what is before it.
spec fn flows(
    cfg: ArcCfg,
    ops: Seq<ArcPlannedOp>,
    before: Seq<usize>,
    s: usize,
    var: VarId,
) -> bool {
    has_release(ops, StmtId(s), var) || (before.contains(var.0) && !cfg.defines(s, var)
        && !has_retain(ops, StmtId(s), var))
}

/// What follows from the state of a statement has reached a statement after it.
spec fn settled_edge(
    cfg: ArcCfg,
    ops: Seq<ArcPlannedOp>,
    states: Seq<Option<Vec<usize>>>,
    before: Seq<usize>,
    s: usize,
    t: usize,
) -> bool {
    &&& states[t as int] is Some
    &&& forall|var: VarId| #[trigger]
        state_has(states, t as int, var) ==> flows(cfg, ops, before, s, var)
}

spec fn well_formed(
    cfg: ArcCfg,
    ops: Seq<ArcPlannedOp>,
    states: Seq<Option<Vec<usize>>>,
) -> bool {
    &&& states.len() == cfg.summaries@.len()
    &&& forall|s: int|
        0 <= s < states.len() && (#[trigger] states[s]) is Some
            ==> crate::common::sorted::ascending(states[s]->0@)
            && crate::common::reach::reaches(cfg.edge(), cfg.root_set(), s as usize)
    &&& forall|s: int, var: VarId|
        0 <= s < states.len() && states[s] is Some && released_always(cfg, ops, s as usize, var)
            ==> #[trigger] state_has(states, s, var)
}

spec fn waiting(
    cfg: ArcCfg,
    ops: Seq<ArcPlannedOp>,
    states: Seq<Option<Vec<usize>>>,
    work: Seq<usize>,
    except: Option<usize>,
) -> bool {
    &&& forall|s: usize| #[trigger] work.contains(s) ==> cfg.has(s) && states[s as int] is Some
    &&& forall|s: usize, t: usize|
        #![trigger cfg.edge()(s, t)]
        cfg.edge()(s, t) && states[s as int] is Some && !work.contains(s) && except != Some(s)
            ==> settled_edge(cfg, ops, states, states[s as int]->0@, s, t)
}

/// How many statements have not been reached.
spec fn blank_count(states: Seq<Option<Vec<usize>>>, first: int) -> int
    decreases first,
{
    if first <= 0 {
        0
    } else {
        blank_count(states, first - 1) + if states[first - 1] is None {
            1int
        } else {
            0
        }
    }
}

/// How much is known in all.
spec fn size_sum(states: Seq<Option<Vec<usize>>>, first: int) -> int
    decreases first,
{
    if first <= 0 {
        0
    } else {
        size_sum(states, first - 1) + match states[first - 1] {
            Some(list) => list@.len() as int,
            None => 0,
        }
    }
}

proof fn lemma_measure_update(
    states: Seq<Option<Vec<usize>>>,
    at: int,
    value: Vec<usize>,
    first: int,
)
    requires
        0 <= at < states.len(),
        0 <= first <= states.len(),
    ensures
        blank_count(states, first) >= 0,
        size_sum(states, first) >= 0,
        blank_count(states.update(at, Some(value)), first) == blank_count(states, first) - (if at
            < first && states[at] is None {
            1int
        } else {
            0
        }),
        size_sum(states.update(at, Some(value)), first) == size_sum(states, first) + (if at < first {
            value@.len() - match states[at] {
                Some(list) => list@.len() as int,
                None => 0,
            }
        } else {
            0
        }),
    decreases first,
{
    if first > 0 {
        lemma_measure_update(states, at, value, first - 1);
    }
}

/// A statement stands no lower than what one before it releases on every way.
proof fn lemma_always_flows(
    cfg: ArcCfg,
    ops: Seq<ArcPlannedOp>,
    s: usize,
    t: usize,
    var: VarId,
)
    requires
        cfg.edge()(s, t),
        released_always(cfg, ops, t, var),
    ensures
        has_release(ops, StmtId(s), var) || (released_always(cfg, ops, s, var) && !cfg.defines(
            s,
            var,
        ) && !has_retain(ops, StmtId(s), var)) || !crate::common::reach::reaches(
            cfg.edge(),
            cfg.root_set(),
            s,
        ),
{
    if crate::common::reach::reaches(cfg.edge(), cfg.root_set(), s) {
        let some = choose|path: Seq<usize>|
            crate::common::reach::leads(cfg.edge(), cfg.root_set(), s, path);
        assert(cfg.leads(s, some));
        assert forall|path: Seq<usize>| #[trigger] cfg.leads(s, path) implies (has_release(
            ops,
            StmtId(s),
            var,
        ) || (released(cfg, ops, path, path.len() - 1, var) && !cfg.defines(s, var)
            && !has_retain(ops, StmtId(s), var))) by {
            let longer = path.push(t);
            assert(cfg.leads(t, longer)) by {
                assert forall|i: int| #![trigger longer[i]]
                    0 <= i < longer.len() - 1 implies cfg.edge()(longer[i], longer[i + 1]) by {
                    assert(longer[i] == path[i]);
                    if i < path.len() - 1 {
                        assert(longer[i + 1] == path[i + 1]);
                    }
                }
            }
            assert(released(cfg, ops, longer, longer.len() - 1, var));
            lemma_released_prefix(cfg, ops, path, longer, path.len() - 1, var);
            assert(longer[longer.len() - 2] == s);
        }
    }
}

proof fn lemma_released_prefix(
    cfg: ArcCfg,
    ops: Seq<ArcPlannedOp>,
    path: Seq<usize>,
    longer: Seq<usize>,
    k: int,
    var: VarId,
)
    requires
        k < path.len(),
        path.len() <= longer.len(),
        forall|i: int| 0 <= i < path.len() ==> path[i] == longer[i],
    ensures
        released(cfg, ops, path, k, var) == released(cfg, ops, longer, k, var),
    decreases k,
{
    if k > 0 {
        lemma_released_prefix(cfg, ops, path, longer, k - 1, var);
    }
}

/// Once nothing waits any more, what is known at a statement has been released
/// on every walk to it.
proof fn lemma_settled_path(
    cfg: ArcCfg,
    ops: Seq<ArcPlannedOp>,
    states: Seq<Option<Vec<usize>>>,
    s: usize,
    path: Seq<usize>,
    k: int,
    var: VarId,
)
    requires
        well_formed(cfg, ops, states),
        waiting(cfg, ops, states, Seq::empty(), None),
        forall|r: usize| #[trigger]
            cfg.root_set().contains(r) ==> states[r as int] is Some && states[r as int]->0@.len()
                == 0,
        cfg.leads(s, path),
        0 <= k < path.len(),
    ensures
        states[path[k] as int] is Some,
        cfg.has(path[k]),
        state_has(states, path[k] as int, var) ==> released(cfg, ops, path, k, var),
    decreases k,
{
    if k == 0 {
        assert(cfg.root_set().contains(path[0]));
    } else {
        lemma_settled_path(cfg, ops, states, s, path, k - 1, var);
        assert(cfg.edge()(path[k - 1], path[k - 1 + 1]));
        assert(settled_edge(
            cfg,
            ops,
            states,
            states[path[k - 1] as int]->0@,
            path[k - 1],
            path[k],
        ));
        if state_has(states, path[k] as int, var) {
            assert(flows(cfg, ops, states[path[k - 1] as int]->0@, path[k - 1], var));
            if states[path[k - 1] as int]->0@.contains(var.0) {
                assert(state_has(states, path[k - 1] as int, var));
            }
        }
    }
}

/// What is released after a statement, given what is before it.
fn transfer(cfg: &ArcCfg, ops: &Vec<ArcPlannedOp>, before: &Vec<usize>, s: usize) -> (after: Vec<
    usize,
>)
    requires
        cfg.has(s),
        cfg.summaries@[s as int] is Some,
        crate::common::sorted::ascending(before@),
    ensures
        crate::common::sorted::ascending(after@),
        forall|var: VarId| #[trigger]
            after@.contains(var.0) <==> flows(*cfg, ops@, before@, s, var),
{
    let mut after = copy_list(before);
    let ghost summary = cfg.summaries@[s as int]->0;
    if let Some(held) = &cfg.summaries[s] {
        let mut i: usize = 0;
        while i < held.defs.len()
            invariant
                i <= held.defs@.len(),
                crate::common::sorted::ascending(after@),
                forall|x: usize| #[trigger]
                    after@.contains(x) <==> (before@.contains(x) && !held.defs@.take(
                        i as int,
                    ).contains(VarId(x))),
            decreases held.defs@.len() - i,
        {
            proof {
                crate::common::reach::lemma_pushed(held.defs@.take(i as int), held.defs@[i as int]);
                assert(held.defs@.take(i as int + 1) =~= held.defs@.take(i as int).push(
                    held.defs@[i as int],
                ));
            }
            remove_sorted(&mut after, held.defs[i].0);
            i += 1;
        }
        assert(held.defs@.take(i as int) =~= held.defs@);
    }
    let ghost killed = after@;
    assert forall|x: usize| #[trigger] killed.contains(x) <==> (before@.contains(x)
        && !cfg.defines(s, VarId(x))) by {}
    let mut i: usize = 0;
    while i < ops.len()
        invariant
            i <= ops@.len(),
            crate::common::sorted::ascending(after@),
            forall|x: usize| #[trigger]
                after@.contains(x) <==> (killed.contains(x) && !has_retain(
                    ops@.take(i as int),
                    StmtId(s),
                    VarId(x),
                )),
        decreases ops@.len() - i,
    {
        let op = ops[i];
        proof {
            crate::common::reach::lemma_pushed(ops@.take(i as int), op);
            assert(ops@.take(i as int + 1) =~= ops@.take(i as int).push(op));
        }
        if op.stmt.0 == s {
            if let ArcOpKind::Retain { var } = op.kind {
                remove_sorted(&mut after, var.0);
            }
        }
        i += 1;
    }
    assert(ops@.take(i as int) =~= ops@);
    let ghost unretained = after@;
    let mut i: usize = 0;
    while i < ops.len()
        invariant
            i <= ops@.len(),
            crate::common::sorted::ascending(after@),
            forall|x: usize| #[trigger]
                after@.contains(x) <==> (unretained.contains(x) || has_release(
                    ops@.take(i as int),
                    StmtId(s),
                    VarId(x),
                )),
        decreases ops@.len() - i,
    {
        let op = ops[i];
        proof {
            crate::common::reach::lemma_pushed(ops@.take(i as int), op);
            assert(ops@.take(i as int + 1) =~= ops@.take(i as int).push(op));
        }
        if op.stmt.0 == s {
            if let ArcOpKind::Release { var } = op.kind {
                insert_sorted(&mut after, var.0);
            }
        }
        i += 1;
    }
    assert(ops@.take(i as int) =~= ops@);
    assert forall|var: VarId| #[trigger] after@.contains(var.0) <==> flows(
        *cfg,
        ops@,
        before@,
        s,
        var,
    ) by {
        assert(VarId(var.0) == var);
        assert(killed.contains(var.0) <==> (before@.contains(var.0) && !cfg.defines(
            s,
            VarId(var.0),
        )));
    }
    after
}

/// Brings what is released after one statement to a statement that follows it.
/// Gives whether that changed anything.
fn merge_must_set(
    states: &mut States,
    work: &mut Vec<usize>,
    incoming: &Vec<usize>,
    s: usize,
    t: usize,
    Ghost(cfg): Ghost<ArcCfg>,
    Ghost(ops): Ghost<Seq<ArcPlannedOp>>,
    Ghost(before): Ghost<Seq<usize>>,
)
    requires
        well_formed(cfg, ops, old(states)@),
        cfg.edge()(s, t),
        crate::common::reach::reaches(cfg.edge(), cfg.root_set(), s),
        crate::common::sorted::ascending(incoming@),
        forall|var: VarId| #[trigger]
            incoming@.contains(var.0) <==> flows(cfg, ops, before, s, var),
        forall|var: VarId| #[trigger]
            released_always(cfg, ops, s, var) ==> before.contains(var.0),
        waiting(cfg, ops, old(states)@, old(work)@, Some(s)),
    ensures
        well_formed(cfg, ops, final(states)@),
        waiting(cfg, ops, final(states)@, final(work)@, Some(s)),
        settled_edge(cfg, ops, final(states)@, before, s, t),
        forall|u: usize| #[trigger]
            settled_edge(
                cfg,
                ops,
                old(states)@,
                before,
                s,
                u,
            ) && u < old(states)@.len() ==> settled_edge(
                cfg,
                ops,
                final(states)@,
                before,
                s,
                u,
            ),
        forall|k: int|
            0 <= k < old(states)@.len() && k != t ==> #[trigger] final(states)@[k] == old(
                states,
            )@[k],
        final(states)@[t as int] == old(states)@[t as int] || final(work)@.contains(t),
        final(states)@[t as int] is Some,
        old(states)@[t as int] is Some && old(states)@[t as int]->0@.len() == 0
            ==> final(states)@[t as int]->0@.len() == 0,
        forall|x: usize| #[trigger] old(work)@.contains(x) ==> final(work)@.contains(x),
        forall|x: usize| #[trigger]
            final(work)@.contains(x) ==> old(work)@.contains(x) || x == t,
        (final(states)@ == old(states)@ && final(work)@ == old(work)@) || (blank_count(
            final(states)@,
            final(states)@.len() as int,
        ) < blank_count(old(states)@, old(states)@.len() as int) || (blank_count(
            final(states)@,
            final(states)@.len() as int,
        ) == blank_count(old(states)@, old(states)@.len() as int) && size_sum(
            final(states)@,
            final(states)@.len() as int,
        ) < size_sum(old(states)@, old(states)@.len() as int))),
{
    let ghost st = states@;
    let ghost wk = work@;
    let merged = match &states[t] {
        None => copy_list(incoming),
        Some(current) => {
            let common = intersect_sorted(current, incoming);
            if common.len() == current.len() {
                assert(common@ == current@);
                proof {
                    assert forall|var: VarId| #[trigger] state_has(st, t as int, var) implies flows(
                        cfg,
                        ops,
                        before,
                        s,
                        var,
                    ) by {
                        assert(common@.contains(var.0));
                        assert(incoming@.contains(var.0));
                    }
                }
                return ;
            }
            common
        },
    };
    let ghost list = merged;
    proof {
        lemma_measure_update(st, t as int, merged, st.len() as int);
        crate::common::reach::lemma_pushed(wk, t);
        crate::common::reach::lemma_reaches_step(cfg.edge(), cfg.root_set(), s, t);
    }
    states[t] = Some(merged);
    work.push(t);
    proof {
        let now = states@;
        assert(now =~= st.update(t as int, Some(list)));
        assert forall|var: VarId| #[trigger] state_has(now, t as int, var) implies flows(
            cfg,
            ops,
            before,
            s,
            var,
        ) by {
            assert(incoming@.contains(var.0));
        }
        assert forall|u: usize, var: VarId| u < st.len() && #[trigger] state_has(
            now,
            u as int,
            var,
        ) && st[u as int] is Some implies state_has(st, u as int, var) by {}
        assert forall|x: int, var: VarId|
            0 <= x < now.len() && now[x] is Some && released_always(
                cfg,
                ops,
                x as usize,
                var,
            ) implies #[trigger] state_has(now, x, var) by {
            if x == t {
                lemma_always_flows(cfg, ops, s, t, var);
                assert(flows(cfg, ops, before, s, var));
                assert(incoming@.contains(var.0));
                if st[t as int] is Some {
                    assert(state_has(st, t as int, var));
                }
            } else {
                assert(state_has(st, x, var));
            }
        }
        assert forall|a: usize, b: usize|
            #![trigger cfg.edge()(a, b)]
            cfg.edge()(a, b) && now[a as int] is Some && !work@.contains(a) && Some(s) != Some(
                a,
            ) implies settled_edge(cfg, ops, now, now[a as int]->0@, a, b) by {
            assert(a != t);
            assert(settled_edge(cfg, ops, st, st[a as int]->0@, a, b));
            assert forall|var: VarId| #[trigger] state_has(now, b as int, var) implies flows(
                cfg,
                ops,
                now[a as int]->0@,
                a,
                var,
            ) by {
                assert(state_has(st, b as int, var));
            }
        }
        assert forall|u: usize| #[trigger]
            settled_edge(cfg, ops, st, before, s, u) && u < st.len() implies settled_edge(
            cfg,
            ops,
            now,
            before,
            s,
            u,
        ) by {
            assert forall|var: VarId| #[trigger] state_has(now, u as int, var) implies flows(
                cfg,
                ops,
                before,
                s,
                var,
            ) by {
                assert(state_has(st, u as int, var));
            }
        }
    }
}

/// Nothing is released on the way to a root that is no way at all.
proof fn lemma_root_clean(cfg: ArcCfg, ops: Seq<ArcPlannedOp>, r: usize, var: VarId)
    requires
        cfg.root_set().contains(r),
    ensures
        !released_always(cfg, ops, r, var),
{
    let path = seq![r];
    assert(cfg.leads(r, path));
    assert(!released(cfg, ops, path, path.len() - 1, var));
}

/// Every root is reached with nothing released.
spec fn roots_clean(cfg: ArcCfg, states: Seq<Option<Vec<usize>>>, roots: Seq<StmtId>) -> bool {
    forall|k: int|
        0 <= k < roots.len() && cfg.has((#[trigger] roots[k]).0) ==> states[roots[k].0 as int] is Some
            && states[roots[k].0 as int]->0@.len() == 0
}

fn start_states(cfg: &ArcCfg, Ghost(ops): Ghost<Seq<ArcPlannedOp>>) -> (out: (States, Vec<usize>))
    ensures
        well_formed(*cfg, ops, out.0@),
        waiting(*cfg, ops, out.0@, out.1@, None),
        roots_clean(*cfg, out.0@, cfg.roots@),
{
    let mut states: States = Vec::new();
    let mut work: Vec<usize> = Vec::new();
    while states.len() < cfg.summaries.len()
        invariant
            states@.len() <= cfg.summaries@.len(),
            forall|k: int| 0 <= k < states@.len() ==> (#[trigger] states@[k]) is None,
        decreases cfg.summaries@.len() - states@.len(),
    {
        states.push(None);
    }
    let mut i: usize = 0;
    while i < cfg.roots.len()
        invariant
            i <= cfg.roots@.len(),
            well_formed(*cfg, ops, states@),
            forall|s: int|
                0 <= s < states@.len() && (#[trigger] states@[s]) is Some ==> states@[s]->0@.len()
                    == 0 && work@.contains(s as usize),
            forall|s: usize| #[trigger]
                work@.contains(s) ==> cfg.has(s) && states@[s as int] is Some,
            forall|k: int|
                0 <= k < i && cfg.has((#[trigger] cfg.roots@[k]).0)
                    ==> states@[cfg.roots@[k].0 as int] is Some,
        decreases cfg.roots@.len() - i,
    {
        let r = cfg.roots[i].0;
        if r < states.len() && states[r].is_none() {
            let ghost st = states@;
            let ghost wk = work@;
            let empty: Vec<usize> = Vec::new();
            states[r] = Some(empty);
            work.push(r);
            proof {
                assert(cfg.roots@.contains(StmtId(r))) by {
                    assert(cfg.roots@[i as int] == StmtId(r));
                }
                assert(cfg.root_set().contains(r));
                crate::common::reach::lemma_reaches_root(cfg.edge(), cfg.root_set(), r);
                crate::common::reach::lemma_pushed(wk, r);
                assert forall|s: int, var: VarId|
                    0 <= s < states@.len() && states@[s] is Some && released_always(
                        *cfg,
                        ops,
                        s as usize,
                        var,
                    ) implies #[trigger] state_has(states@, s, var) by {
                    if s == r {
                        lemma_root_clean(*cfg, ops, r, var);
                    } else {
                        assert(state_has(st, s, var));
                    }
                }
                assert forall|s: int|
                    0 <= s < states@.len() && (
                    #[trigger] states@[s]) is Some implies states@[s]->0@.len() == 0
                    && work@.contains(s as usize) by {
                    if s != r {
                        assert(st[s] is Some);
                    }
                }
            }
        }
        i += 1;
    }
    (states, work)
}

/// What has been released, on every way, when each statement is reached.
#[verifier::rlimit(40)]
#[verifier::spinoff_prover]
fn released_states(cfg: &ArcCfg, ops: &Vec<ArcPlannedOp>) -> (states: States)
    ensures
        states@.len() == cfg.summaries@.len(),
        forall|s: usize, var: VarId|
            cfg.has(s) ==> (#[trigger] state_has(states@, s as int, var) <==> (
            crate::common::reach::reaches(cfg.edge(), cfg.root_set(), s) && released_always(
                *cfg,
                ops@,
                s,
                var,
            ))),
{
    let (mut states, mut work) = start_states(cfg, Ghost(ops@));
    while work.len() > 0
        invariant
            well_formed(*cfg, ops@, states@),
            waiting(*cfg, ops@, states@, work@, None),
            roots_clean(*cfg, states@, cfg.roots@),
        decreases
                blank_count(states@, states@.len() as int),
                size_sum(states@, states@.len() as int),
                work@.len(),
    {
        let ghost st = states@;
        let ghost wk = work@;
        let s: usize = work[work.len() - 1];
        work.pop();
        let ghost wk1 = work@;
        proof {
            assert(wk =~= work@.push(s));
            crate::common::reach::lemma_popped(wk, work@, s);
            assert(cfg.has(s) && states@[s as int] is Some);
            lemma_measure_nonneg(st, st.len() as int);
        }
        let before = match &states[s] {
            Some(list) => copy_list(list),
            None => Vec::new(),
        };
        assert(before@ == st[s as int]->0@);
        if let Some(summary) = &cfg.summaries[s] {
            let after = transfer(cfg, ops, &before, s);
            let mut i: usize = 0;
            proof {
                assert forall|var: VarId| #[trigger]
                    released_always(*cfg, ops@, s, var) implies before@.contains(var.0) by {
                    assert(state_has(st, s as int, var));
                }
            }
            while i < summary.successors.len()
                invariant
                    i <= summary.successors@.len(),
                    cfg.has(s),
                    cfg.summaries@[s as int] == Some(*summary),
                    well_formed(*cfg, ops@, states@),
                    waiting(*cfg, ops@, states@, work@, Some(s)),
                    roots_clean(*cfg, states@, cfg.roots@),
                    st.len() == states@.len(),
                    st[s as int] is Some,
                    before@ == st[s as int]->0@,
                    crate::common::reach::reaches(cfg.edge(), cfg.root_set(), s),
                    crate::common::sorted::ascending(after@),
                    forall|var: VarId| #[trigger]
                        after@.contains(var.0) <==> flows(*cfg, ops@, before@, s, var),
                    forall|var: VarId| #[trigger]
                        released_always(*cfg, ops@, s, var) ==> before@.contains(var.0),
                    states@[s as int] == st[s as int] || work@.contains(s),
                    forall|k: int|
                        0 <= k < i && cfg.has((#[trigger] summary.successors@[k]).0)
                            ==> settled_edge(
                            *cfg,
                            ops@,
                            states@,
                            before@,
                            s,
                            summary.successors@[k].0,
                        ),
                    (states@ == st && work@ == wk1) || blank_count(states@, states@.len() as int)
                        < blank_count(st, st.len() as int) || (blank_count(
                        states@,
                        states@.len() as int,
                    ) == blank_count(st, st.len() as int) && size_sum(
                        states@,
                        states@.len() as int,
                    ) < size_sum(st, st.len() as int)),
                decreases summary.successors@.len() - i,
            {
                let t = summary.successors[i].0;
                if t < states.len() {
                    let ghost mid = states@;
                    proof {
                        assert(summary.successors@.contains(StmtId(t))) by {
                            assert(summary.successors@[i as int] == StmtId(t));
                        }
                        assert(cfg.edge()(s, t));
                    }
                    merge_must_set(
                        &mut states,
                        &mut work,
                        &after,
                        s,
                        t,
                        Ghost(*cfg),
                        Ghost(ops@),
                        Ghost(before@),
                    );
                    proof {
                        assert forall|k: int|
                            0 <= k < i + 1 && cfg.has(
                                (#[trigger] summary.successors@[k]).0,
                            ) implies settled_edge(
                            *cfg,
                            ops@,
                            states@,
                            before@,
                            s,
                            summary.successors@[k].0,
                        ) by {
                            if k < i {
                                assert(settled_edge(
                                    *cfg,
                                    ops@,
                                    mid,
                                    before@,
                                    s,
                                    summary.successors@[k].0,
                                ));
                            }
                        }
                        assert forall|k: int|
                            0 <= k < cfg.roots@.len() && cfg.has(
                                (#[trigger] cfg.roots@[k]).0,
                            ) implies states@[cfg.roots@[k].0 as int] is Some
                            && states@[cfg.roots@[k].0 as int]->0@.len() == 0 by {
                            assert(mid[cfg.roots@[k].0 as int] is Some);
                        }
                    }
                }
                i += 1;
            }
            proof {
                assert forall|a: usize, b: usize|
                    #![trigger cfg.edge()(a, b)]
                    cfg.edge()(a, b) && states@[a as int] is Some && !work@.contains(
                        a,
                    ) implies settled_edge(
                    *cfg,
                    ops@,
                    states@,
                    states@[a as int]->0@,
                    a,
                    b,
                ) by {
                    if a == s {
                        assert(states@[s as int] == st[s as int]);
                        assert(summary.successors@.contains(StmtId(b)));
                        let k = choose|k: int|
                            0 <= k < summary.successors@.len() && summary.successors@[k] == StmtId(
                                b,
                            );
                        assert(settled_edge(
                            *cfg,
                            ops@,
                            states@,
                            before@,
                            s,
                            summary.successors@[k].0,
                        ));
                    }
                }
            }
        }
        proof {
            lemma_measure_nonneg(states@, states@.len() as int);
        }
    }
    proof {
        assert(work@ =~= Seq::<usize>::empty());
        assert forall|r: usize| #[trigger] cfg.root_set().contains(r) implies states@[r as int] is Some
            && states@[r as int]->0@.len() == 0 by {
            let k = choose|k: int| 0 <= k < cfg.roots@.len() && cfg.roots@[k] == StmtId(r);
            assert(cfg.has(cfg.roots@[k].0));
        }
        assert forall|s: usize, var: VarId| cfg.has(s) implies (#[trigger] state_has(
            states@,
            s as int,
            var,
        ) <==> (crate::common::reach::reaches(cfg.edge(), cfg.root_set(), s) && released_always(
            *cfg,
            ops@,
            s,
            var,
        ))) by {
            if state_has(states@, s as int, var) {
                assert(states@[s as int] is Some);
                assert forall|path: Seq<usize>| #[trigger] cfg.leads(s, path) implies released(
                    *cfg,
                    ops@,
                    path,
                    path.len() - 1,
                    var,
                ) by {
                    lemma_settled_path(*cfg, ops@, states@, s, path, path.len() - 1, var);
                }
            }
            if crate::common::reach::reaches(cfg.edge(), cfg.root_set(), s) && released_always(
                *cfg,
                ops@,
                s,
                var,
            ) {
                let path = choose|path: Seq<usize>|
                    crate::common::reach::leads(cfg.edge(), cfg.root_set(), s, path);
                assert(cfg.leads(s, path));
                lemma_settled_path(*cfg, ops@, states@, s, path, path.len() - 1, var);
            }
        }
    }
    states
}

proof fn lemma_measure_nonneg(states: Seq<Option<Vec<usize>>>, first: int)
    requires
        0 <= first <= states.len(),
    ensures
        blank_count(states, first) >= 0,
        size_sum(states, first) >= 0,
    decreases first,
{
    if first > 0 {
        lemma_measure_nonneg(states, first - 1);
    }
}

proof fn lemma_necessary_len(cfg: ArcCfg, ops: Seq<ArcPlannedOp>, first: int)
    requires
        0 <= first,
    ensures
        necessary(cfg, ops, first).len() <= first,
    decreases first,
{
    if first > 0 {
        lemma_necessary_len(cfg, ops, first - 1);
    }
}

/// Leaves out the releases of what has been released on every way.
fn eliminate_cfg_redundant_releases(cfg: &ArcCfg, ops: &Vec<ArcPlannedOp>) -> (out: (
    Vec<ArcPlannedOp>,
    u32,
))
    ensures
        out.0@ == necessary(*cfg, ops@, ops@.len() as int),
        out.1 == capped(ops@.len() - necessary(*cfg, ops@, ops@.len() as int).len()),
{
    let states = released_states(cfg, ops);
    let mut kept: Vec<ArcPlannedOp> = Vec::new();
    let mut removed: u32 = 0;
    let mut i: usize = 0;
    while i < ops.len()
        invariant
            i <= ops@.len(),
            states@.len() == cfg.summaries@.len(),
            forall|s: usize, var: VarId|
                cfg.has(s) ==> (#[trigger] state_has(states@, s as int, var) <==> (
                crate::common::reach::reaches(cfg.edge(), cfg.root_set(), s) && released_always(
                    *cfg,
                    ops@,
                    s,
                    var,
                ))),
            kept@ == necessary(*cfg, ops@, i as int),
            removed == capped(i - kept@.len()),
            kept@.len() <= i,
        decreases ops@.len() - i,
    {
        let op = ops[i];
        let mut late = false;
        if let ArcOpKind::Release { var } = op.kind {
            if op.stmt.0 < states.len() {
                if let Some(list) = &states[op.stmt.0] {
                    late = contains_sorted(list, var.0);
                }
                assert(late == state_has(states@, op.stmt.0 as int, var));
            }
        }
        assert(late == redundant(*cfg, ops@, op));
        if late {
            removed = removed.saturating_add(1);
        } else {
            kept.push(op);
        }
        i += 1;
    }
    (kept, removed)
}

// ---------------------------------------------------------------------------
// Optimizing a plan
// ---------------------------------------------------------------------------

/// The operations that are left once pairs have been looked for, or not.
pub open spec fn after_pairs(ops: Seq<ArcPlannedOp>, level: ArcOptLevel) -> Seq<ArcPlannedOp> {
    if level.same_stmt_pair_elim {
        uncancelled(ops, ops.len() as int)
    } else {
        ops
    }
}

/// The operations that are left in the end. Where no statement can be reached
/// nothing is known of the ways.
pub open spec fn after_all(
    cfg: Option<ArcCfg>,
    ops: Seq<ArcPlannedOp>,
    level: ArcOptLevel,
) -> Seq<ArcPlannedOp> {
    let left = after_pairs(ops, level);
    if level.cfg_redundant_release_elim && cfg is Some && (cfg->0).reachable@.len() > 0 {
        necessary(cfg->0, left, left.len() as int)
    } else {
        left
    }
}

/// What has been left out, by kind.
pub open spec fn opt_counts(
    cfg: Option<ArcCfg>,
    ops: Seq<ArcPlannedOp>,
    level: ArcOptLevel,
    stats: ArcOptStats,
) -> bool {
    let n = ops.len() as int;
    let left = after_pairs(ops, level);
    let late = left.len() - after_all(cfg, ops, level).len();
    if level.same_stmt_pair_elim {
        &&& stats.eliminated_move_pairs == capped(pair_count(ops, n))
        &&& stats.removed_retain_ops == capped(cancelled_count(ops, n, true))
        &&& stats.removed_release_ops == capped(cancelled_count(ops, n, false) + late)
    } else {
        &&& stats.eliminated_move_pairs == 0
        &&& stats.removed_retain_ops == 0
        &&& stats.removed_release_ops == capped(late)
    }
}

pub open spec fn optimized(
    cfg: Option<ArcCfg>,
    plan: ArcInsertionPlan,
    level: ArcOptLevel,
    result: ArcOptResult,
) -> bool {
    &&& result.plan.ops@ == after_all(cfg, plan.ops@, level)
    &&& crate::passes::arc_insert::counts(result.plan.ops@, result.plan.stats)
    &&& opt_counts(cfg, plan.ops@, level, result.stats)
}

fn optimize_internal(
    cfg: Option<&ArcCfg>,
    plan: ArcInsertionPlan,
    level: ArcOptLevel,
) -> (result: ArcOptResult)
    ensures
        optimized(
            match cfg {
                Some(cfg) => Some(*cfg),
                None => None,
            },
            plan,
            level,
            result,
        ),
{
    let ghost start = plan.ops@;
    let mut ops = plan.ops;
    let mut stats = ArcOptStats {
        eliminated_move_pairs: 0,
        removed_retain_ops: 0,
        removed_release_ops: 0,
    };
    if level.same_stmt_pair_elim {
        let (kept, counted) = eliminate_same_stmt_pairs(&ops);
        ops = kept;
        stats = counted;
    }
    let ghost left = ops@;
    proof {
        lemma_counts_bound(start, start.len() as int);
    }
    if level.cfg_redundant_release_elim {
        if let Some(cfg) = cfg {
            if ops.len() > 0 && cfg.reachable.len() > 0 {
                let (kept, removed) = eliminate_cfg_redundant_releases(cfg, &ops);
                proof {
                    lemma_necessary_len(*cfg, left, left.len() as int);
                }
                ops = kept;
                stats.removed_release_ops = stats.removed_release_ops.saturating_add(removed);
            }
        }
    }
    let counted = count_ops(&ops);
    proof {
        if left.len() == 0 {
            if let Some(cfg) = cfg {
                assert(necessary(*cfg, left, 0) =~= left);
            }
        }
        assert(left == after_pairs(start, level));
        assert(ops@ == after_all(
            match cfg {
                Some(cfg) => Some(*cfg),
                None => None,
            },
            start,
            level,
        ));
    }
    ArcOptResult { plan: ArcInsertionPlan { ops, stats: counted }, stats }
}

/// Leaves out the pairs that cancel out at one statement.
pub fn optimize(plan: ArcInsertionPlan) -> (result: ArcOptResult)
    ensures
        optimized(
            None,
            plan,
            (ArcOptLevel { same_stmt_pair_elim: true, cfg_redundant_release_elim: false }),
            result,
        ),
{
    optimize_internal(
        None,
        plan,
        ArcOptLevel { same_stmt_pair_elim: true, cfg_redundant_release_elim: false },
    )
}

/// Leaves out the pairs that cancel out, and the releases that come too late.
pub fn optimize_with_cfg(cfg: &ArcCfg, plan: ArcInsertionPlan) -> (result: ArcOptResult)
    ensures
        optimized(
            Some(*cfg),
            plan,
            (ArcOptLevel { same_stmt_pair_elim: true, cfg_redundant_release_elim: true }),
            result,
        ),
{
    optimize_internal(
        Some(cfg),
        plan,
        ArcOptLevel { same_stmt_pair_elim: true, cfg_redundant_release_elim: true },
    )
}

/// Leaves out what is asked for.
pub fn optimize_with_level(cfg: &ArcCfg, plan: ArcInsertionPlan, level: ArcOptLevel) -> (result:
    ArcOptResult)
    ensures
        optimized(Some(*cfg), plan, level, result),
{
    optimize_internal(Some(cfg), plan, level)
}

// ---------------------------------------------------------------------------
// Laws
// ---------------------------------------------------------------------------

/// Optimizing adds no operation.
pub proof fn lemma_no_new_op(
    cfg: Option<ArcCfg>,
    ops: Seq<ArcPlannedOp>,
    level: ArcOptLevel,
    op: ArcPlannedOp,
)
    requires
        after_all(cfg, ops, level).contains(op),
    ensures
        ops.contains(op),
{
    let left = after_pairs(ops, level);
    if level.cfg_redundant_release_elim && cfg is Some && (cfg->0).reachable@.len() > 0 {
        lemma_necessary_from(cfg->0, left, left.len() as int, op);
    }
    if level.same_stmt_pair_elim {
        lemma_uncancelled_from(ops, ops.len() as int, op);
    }
}

proof fn lemma_necessary_from(cfg: ArcCfg, ops: Seq<ArcPlannedOp>, first: int, op: ArcPlannedOp)
    requires
        0 <= first <= ops.len(),
        necessary(cfg, ops, first).contains(op),
    ensures
        ops.contains(op),
        !redundant(cfg, ops, op),
    decreases first,
{
    if first > 0 {
        let rest = necessary(cfg, ops, first - 1);
        if !redundant(cfg, ops, ops[first - 1]) {
            crate::common::reach::lemma_pushed(rest, ops[first - 1]);
        }
        if rest.contains(op) {
            lemma_necessary_from(cfg, ops, first - 1, op);
        } else {
            assert(ops[first - 1] == op);
        }
    }
}

proof fn lemma_uncancelled_from(ops: Seq<ArcPlannedOp>, first: int, op: ArcPlannedOp)
    requires
        0 <= first <= ops.len(),
        uncancelled(ops, first).contains(op),
    ensures
        ops.contains(op),
        !cancelled(ops, op),
    decreases first,
{
    if first > 0 {
        let rest = uncancelled(ops, first - 1);
        if !cancelled(ops, ops[first - 1]) {
            crate::common::reach::lemma_pushed(rest, ops[first - 1]);
        }
        if rest.contains(op) {
            lemma_uncancelled_from(ops, first - 1, op);
        } else {
            assert(ops[first - 1] == op);
        }
    }
}

/// Once pairs have been looked for, no variable is both retained and released at
/// one statement.
pub proof fn lemma_no_pair_left(
    cfg: Option<ArcCfg>,
    ops: Seq<ArcPlannedOp>,
    level: ArcOptLevel,
    s: StmtId,
    var: VarId,
)
    requires
        level.same_stmt_pair_elim,
    ensures
        !(has_retain(after_all(cfg, ops, level), s, var) && has_release(
            after_all(cfg, ops, level),
            s,
            var,
        )),
{
    let retain = ArcPlannedOp { stmt: s, kind: ArcOpKind::Retain { var } };
    let release = ArcPlannedOp { stmt: s, kind: ArcOpKind::Release { var } };
    let left = after_pairs(ops, level);
    if after_all(cfg, ops, level).contains(retain) && after_all(cfg, ops, level).contains(
        release,
    ) {
        if level.cfg_redundant_release_elim && cfg is Some && (cfg->0).reachable@.len() > 0 {
            lemma_necessary_from(cfg->0, left, left.len() as int, retain);
            lemma_necessary_from(cfg->0, left, left.len() as int, release);
        }
        lemma_uncancelled_from(ops, ops.len() as int, retain);
        lemma_uncancelled_from(ops, ops.len() as int, release);
    }
}

} // verus!
