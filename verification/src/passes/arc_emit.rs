//! The reference-count operations to emit, in a fixed order.
use crate::common::densemap::DenseMap;
use crate::common::ids::{LinearStmtId, VarId};
use crate::common::sorted::insert_sorted;
use crate::ir::linear::LinearProgram;
use vstd::prelude::*;

verus! {

#[derive(Clone, Copy, PartialEq, Eq, Debug, Structural)]
pub struct ArcEmitStats {
    pub planned_retain_ops: u32,
    pub planned_release_ops: u32,
    pub eliminated_move_pairs: u32,
    pub optimized_retain_ops: u32,
    pub optimized_release_ops: u32,
}

impl ArcEmitStats {
    /// Nothing counted yet.
    pub open spec fn zero() -> Self {
        ArcEmitStats {
            planned_retain_ops: 0,
            planned_release_ops: 0,
            eliminated_move_pairs: 0,
            optimized_retain_ops: 0,
            optimized_release_ops: 0,
        }
    }
}

impl Default for ArcEmitStats {
    fn default() -> (stats: Self)
        ensures
            stats == Self::zero(),
    {
        ArcEmitStats {
            planned_retain_ops: 0,
            planned_release_ops: 0,
            eliminated_move_pairs: 0,
            optimized_retain_ops: 0,
            optimized_release_ops: 0,
        }
    }
}

/// The variables to retain before, and to release after, each statement.
#[derive(Debug)]
pub struct ArcEmitPlan {
    pub pre_retain_by_stmt: DenseMap<Vec<VarId>>,
    pub post_release_by_stmt: DenseMap<Vec<VarId>>,
    pub stats: ArcEmitStats,
}

/// What a map gives for a statement; nothing where it has no entry.
pub open spec fn entry(map: Map<usize, Vec<VarId>>, s: LinearStmtId) -> Seq<VarId> {
    if map.contains_key(s.0) {
        map[s.0]@
    } else {
        Seq::empty()
    }
}

/// In increasing order, with no repetition.
pub open spec fn in_order(vars: Seq<VarId>) -> bool {
    forall|i: int, j: int| 0 <= i < j < vars.len() ==> (#[trigger] vars[i]).0 < (#[trigger] vars[j]).0
}

/// The variables of a list, each once, in increasing order.
pub open spec fn arranged(vars: Seq<VarId>, list: Seq<VarId>) -> bool {
    &&& in_order(vars)
    &&& forall|var: VarId| #[trigger] vars.contains(var) <==> list.contains(var)
}

/// Adds up the lengths of the entries of the first statements, as far as the
/// counter goes.
pub open spec fn tally(map: Map<usize, Vec<VarId>>, first: nat) -> u32
    decreases first,
{
    if first == 0 {
        0
    } else {
        let before = tally(map, (first - 1) as nat);
        let more = entry(map, LinearStmtId((first - 1) as usize)).len() as u32;
        if before + more > u32::MAX {
            u32::MAX
        } else {
            (before + more) as u32
        }
    }
}

impl ArcEmitPlan {
    /// What is retained before a statement.
    pub open spec fn retains(self, s: LinearStmtId) -> Seq<VarId> {
        entry(self.pre_retain_by_stmt@, s)
    }

    /// What is released after a statement.
    pub open spec fn releases(self, s: LinearStmtId) -> Seq<VarId> {
        entry(self.post_release_by_stmt@, s)
    }
}

impl Default for ArcEmitPlan {
    fn default() -> (plan: Self)
        ensures
            plan.pre_retain_by_stmt@ == Map::<usize, Vec<VarId>>::empty(),
            plan.post_release_by_stmt@ == Map::<usize, Vec<VarId>>::empty(),
            plan.stats == ArcEmitStats::zero(),
    {
        ArcEmitPlan {
            pre_retain_by_stmt: DenseMap::new(),
            post_release_by_stmt: DenseMap::new(),
            stats: ArcEmitStats::default(),
        }
    }
}

/// Puts the variables of a list in order, each once.
fn arrange(list: &Vec<VarId>) -> (vars: Vec<VarId>)
    ensures
        arranged(vars@, list@),
{
    let mut indices: Vec<usize> = Vec::new();
    let mut i: usize = 0;
    while i < list.len()
        invariant
            i <= list@.len(),
            crate::common::sorted::ascending(indices@),
            forall|x: usize| #[trigger]
                indices@.contains(x) <==> list@.take(i as int).contains(VarId(x)),
        decreases list@.len() - i,
    {
        let ghost seen = list@.take(i as int);
        insert_sorted(&mut indices, list[i].0);
        proof {
            assert(list@.take(i as int + 1) =~= seen.push(list@[i as int]));
            crate::common::reach::lemma_pushed(seen, list@[i as int]);
        }
        i += 1;
    }
    assert(list@.take(i as int) =~= list@);
    let mut vars: Vec<VarId> = Vec::new();
    let mut k: usize = 0;
    while k < indices.len()
        invariant
            k <= indices@.len(),
            vars@.len() == k,
            forall|j: int| 0 <= j < k ==> (#[trigger] vars@[j]) == VarId(indices@[j]),
        decreases indices@.len() - k,
    {
        vars.push(VarId(indices[k]));
        k += 1;
    }
    proof {
        assert forall|var: VarId| #[trigger] vars@.contains(var) <==> list@.contains(var) by {
            assert(indices@.contains(var.0) <==> list@.contains(VarId(var.0)));
            if vars@.contains(var) {
                let j = choose|j: int| 0 <= j < vars@.len() && vars@[j] == var;
                assert(indices@[j] == var.0);
            }
            if indices@.contains(var.0) {
                let j = choose|j: int| 0 <= j < indices@.len() && indices@[j] == var.0;
                assert(vars@[j] == var);
            }
        }
    }
    vars
}

proof fn lemma_tally_same(a: Map<usize, Vec<VarId>>, b: Map<usize, Vec<VarId>>, first: nat)
    requires
        first <= usize::MAX,
        forall|k: usize| k < first ==> entry(a, LinearStmtId(k)) == #[trigger] entry(
            b,
            LinearStmtId(k),
        ),
    ensures
        tally(a, first) == tally(b, first),
    decreases first,
{
    if first > 0 {
        lemma_tally_same(a, b, (first - 1) as nat);
        assert(entry(a, LinearStmtId((first - 1) as usize)) == entry(
            b,
            LinearStmtId((first - 1) as usize),
        ));
    }
}

/// Enters a list for a statement, unless it is empty, and counts it.
fn plan_stmt(map: &mut DenseMap<Vec<VarId>>, at: usize, list: &Vec<VarId>, count: &mut u32)
    requires
        forall|k: usize| #[trigger] old(map)@.contains_key(k) ==> k < at,
        *old(count) == tally(old(map)@, at as nat),
        at < usize::MAX,
    ensures
        forall|k: usize| #[trigger] final(map)@.contains_key(k) ==> k <= at,
        forall|k: usize| k < at ==> #[trigger] entry(final(map)@, LinearStmtId(k)) == entry(
            old(map)@,
            LinearStmtId(k),
        ),
        arranged(entry(final(map)@, LinearStmtId(at)), list@),
        *final(count) == tally(final(map)@, (at + 1) as nat),
{
    let ghost before = map@;
    let ghost counted = *count;
    if list.len() > 0 {
        let vars = arrange(list);
        proof {
            assert(list@.contains(list@[0]));
            assert(vars@.contains(list@[0]));
        }
        *count = (*count).saturating_add(vars.len() as u32);
        map.insert(at, vars);
    } else {
        assert(entry(map@, LinearStmtId(at)) =~= Seq::empty());
        assert(!before.contains_key(at));
    }
    proof {
        assert forall|k: usize| k < at implies entry(map@, LinearStmtId(k)) == #[trigger] entry(
            before,
            LinearStmtId(k),
        ) by {}
        lemma_tally_same(map@, before, at as nat);
        assert(entry(map@, LinearStmtId(((at + 1) - 1) as usize)).len() as u32 == entry(
            map@,
            LinearStmtId(at),
        ).len() as u32);
    }
}

impl ArcEmitPlan {
    /// No operation at all.
    pub fn disabled() -> (plan: Self)
        ensures
            forall|s: LinearStmtId| (#[trigger] plan.retains(s)).len() == 0,
            forall|s: LinearStmtId| (#[trigger] plan.releases(s)).len() == 0,
            plan.stats == ArcEmitStats::zero(),
    {
        ArcEmitPlan::default()
    }

    /// The operations that the statements of a program carry.
    pub fn build(program: &LinearProgram) -> (plan: Self)
        ensures
            forall|s: LinearStmtId|
                program@.has_stmt(s) ==> arranged(
                    #[trigger] plan.retains(s),
                    program@.stmts[s.0 as int].pre_retain,
                ),
            forall|s: LinearStmtId|
                program@.has_stmt(s) ==> arranged(
                    #[trigger] plan.releases(s),
                    program@.stmts[s.0 as int].post_release,
                ),
            forall|s: LinearStmtId|
                !program@.has_stmt(s) ==> (#[trigger] plan.retains(s)).len() == 0,
            forall|s: LinearStmtId|
                !program@.has_stmt(s) ==> (#[trigger] plan.releases(s)).len() == 0,
            plan.stats == (ArcEmitStats {
                planned_retain_ops: tally(plan.pre_retain_by_stmt@, program@.stmts.len()),
                planned_release_ops: tally(plan.post_release_by_stmt@, program@.stmts.len()),
                eliminated_move_pairs: 0,
                optimized_retain_ops: tally(plan.pre_retain_by_stmt@, program@.stmts.len()),
                optimized_release_ops: tally(plan.post_release_by_stmt@, program@.stmts.len()),
            }),
    {
        let mut plan = ArcEmitPlan::default();
        let mut retained: u32 = 0;
        let mut released: u32 = 0;
        let mut i: usize = 0;
        while i < program.stmts.len()
            invariant
                i <= program.stmts@.len(),
                program@.stmts.len() == program.stmts@.len(),
                plan.stats == ArcEmitStats::zero(),
                forall|k: usize| #[trigger] plan.pre_retain_by_stmt@.contains_key(k) ==> k < i,
                forall|k: usize| #[trigger] plan.post_release_by_stmt@.contains_key(k) ==> k < i,
                forall|k: usize|
                    k < i ==> arranged(
                        #[trigger] entry(plan.pre_retain_by_stmt@, LinearStmtId(k)),
                        program@.stmts[k as int].pre_retain,
                    ),
                forall|k: usize|
                    k < i ==> arranged(
                        #[trigger] entry(plan.post_release_by_stmt@, LinearStmtId(k)),
                        program@.stmts[k as int].post_release,
                    ),
                retained == tally(plan.pre_retain_by_stmt@, i as nat),
                released == tally(plan.post_release_by_stmt@, i as nat),
            decreases program.stmts@.len() - i,
        {
            let stmt = &program.stmts[i];
            assert(stmt@ == program@.stmts[i as int]);
            plan_stmt(&mut plan.pre_retain_by_stmt, i, &stmt.arc_ops.pre_retain, &mut retained);
            plan_stmt(&mut plan.post_release_by_stmt, i, &stmt.arc_ops.post_release, &mut released);
            i += 1;
        }
        plan.stats = ArcEmitStats {
            planned_retain_ops: retained,
            planned_release_ops: released,
            eliminated_move_pairs: 0,
            optimized_retain_ops: retained,
            optimized_release_ops: released,
        };
        proof {
            assert forall|s: LinearStmtId| program@.has_stmt(s) implies arranged(
                #[trigger] plan.retains(s),
                program@.stmts[s.0 as int].pre_retain,
            ) by {
                assert(plan.retains(s) == entry(plan.pre_retain_by_stmt@, LinearStmtId(s.0)));
            }
            assert forall|s: LinearStmtId| program@.has_stmt(s) implies arranged(
                #[trigger] plan.releases(s),
                program@.stmts[s.0 as int].post_release,
            ) by {
                assert(plan.releases(s) == entry(plan.post_release_by_stmt@, LinearStmtId(s.0)));
            }
        }
        plan
    }

    pub fn pre_retain_vars(&self, stmt_id: LinearStmtId) -> (vars: &[VarId])
        ensures
            vars@ == self.retains(stmt_id),
    {
        match self.pre_retain_by_stmt.get(stmt_id.0) {
            Some(vars) => vars.as_slice(),
            None => &[],
        }
    }

    pub fn post_release_vars(&self, stmt_id: LinearStmtId) -> (vars: &[VarId])
        ensures
            vars@ == self.releases(stmt_id),
    {
        match self.post_release_by_stmt.get(stmt_id.0) {
            Some(vars) => vars.as_slice(),
            None => &[],
        }
    }
}

/// A list can be put in order in one way only.
pub proof fn lemma_arranged_once(a: Seq<VarId>, b: Seq<VarId>, list: Seq<VarId>)
    requires
        arranged(a, list),
        arranged(b, list),
    ensures
        a == b,
{
    let index = |var: VarId| var.0;
    let x = a.map_values(index);
    let y = b.map_values(index);
    assert forall|i: usize| x.contains(i) <==> y.contains(i) by {
        lemma_index_member(a, i);
        lemma_index_member(b, i);
        assert(a.contains(VarId(i)) <==> list.contains(VarId(i)));
        assert(b.contains(VarId(i)) <==> list.contains(VarId(i)));
    }
    crate::common::sorted::lemma_ascending_unique(x, y);
    assert forall|i: int| 0 <= i < a.len() implies a[i] == b[i] by {
        assert(x[i] == y[i]);
    }
    assert(x.len() == y.len());
    assert(a =~= b);
}

proof fn lemma_index_member(vars: Seq<VarId>, i: usize)
    ensures
        vars.map_values(|var: VarId| var.0).contains(i) <==> vars.contains(VarId(i)),
{
    let x = vars.map_values(|var: VarId| var.0);
    if x.contains(i) {
        let k = choose|k: int| 0 <= k < x.len() && x[k] == i;
        assert(vars[k] == VarId(i));
    }
    if vars.contains(VarId(i)) {
        let k = choose|k: int| 0 <= k < vars.len() && vars[k] == VarId(i);
        assert(x[k] == i);
    }
}

} // verus!
