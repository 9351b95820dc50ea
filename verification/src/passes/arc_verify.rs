//! Checks that a plan of reference-count operations is sound: it names counted
//! variables only, each once at a statement, and releases nothing that is not
//! owned, on any path.
use crate::common::diagnostics::{DiagnosticBag, DiagnosticModel};
use crate::common::ids::{LinearStmtId, VarId};
use crate::common::sorted::insert_sorted;
use crate::common::span::Span;
use crate::common::text::two_numbers;
use crate::ir::linear::{LinearModel, LinearProgram, LinearStmt, LinearStmtModel};
use crate::passes::arc_emit::ArcEmitPlan;
use crate::passes::arc_insert::is_managed;
use crate::pipeline::tables::SemanticTables;
use std::collections::VecDeque;
use vstd::prelude::*;

verus! {

#[derive(Clone, Copy, PartialEq, Eq, Debug, Structural)]
pub struct ArcVerifyStats {
    pub checked_stmts: u32,
    pub checked_retain_ops: u32,
    pub checked_release_ops: u32,
    pub state_edges_checked: u32,
    pub errors: u32,
}

impl Default for ArcVerifyStats {
    fn default() -> (stats: Self)
        ensures
            stats == (ArcVerifyStats {
                checked_stmts: 0,
                checked_retain_ops: 0,
                checked_release_ops: 0,
                state_edges_checked: 0,
                errors: 0,
            }),
    {
        ArcVerifyStats {
            checked_stmts: 0,
            checked_retain_ops: 0,
            checked_release_ops: 0,
            state_edges_checked: 0,
            errors: 0,
        }
    }
}

// ---------------------------------------------------------------------------
// What is reported at a statement
// ---------------------------------------------------------------------------


/// An error about a statement and a variable, in this order.
pub open spec fn stmt_first(
    code: Seq<char>,
    before: Seq<char>,
    s: LinearStmtId,
    var: VarId,
    after: Seq<char>,
) -> DiagnosticModel {
    DiagnosticModel::error(
        code,
        before + crate::common::text::decimal(s.0 as nat) + " var v"@
            + crate::common::text::decimal(var.0 as nat) + after,
        Span::spec_synthetic(),
    )
}

/// An error about a variable and a statement, in this order.
pub open spec fn var_first(
    code: Seq<char>,
    before: Seq<char>,
    s: LinearStmtId,
    var: VarId,
) -> DiagnosticModel {
    DiagnosticModel::error(
        code,
        before + crate::common::text::decimal(var.0 as nat) + " at linear stmt s"@
            + crate::common::text::decimal(s.0 as nat) + ""@,
        Span::spec_synthetic(),
    )
}

/// What is reported about one operation of a list: that it came before, or else
/// that its variable is not counted.
pub open spec fn op_report(
    sema: SemanticTables,
    s: LinearStmtId,
    vars: Seq<VarId>,
    i: int,
    retain: bool,
) -> Seq<DiagnosticModel> {
    if vars.take(i).contains(vars[i]) {
        if retain {
            seq![
                stmt_first(
                    "ARC_VERIFY_DUP_RETAIN"@,
                    "duplicate ARC retain op planned for linear stmt s"@,
                    s,
                    vars[i],
                    ""@,
                ),
            ]
        } else {
            seq![
                stmt_first(
                    "ARC_VERIFY_DUP_RELEASE"@,
                    "duplicate ARC release op planned for linear stmt s"@,
                    s,
                    vars[i],
                    ""@,
                ),
            ]
        }
    } else if !crate::passes::arc_insert::managed(sema, vars[i]) {
        if retain {
            seq![
                var_first(
                    "ARC_VERIFY_NON_MANAGED_OP"@,
                    "ARC retain planned for non-managed var v"@,
                    s,
                    vars[i],
                ),
            ]
        } else {
            seq![
                var_first(
                    "ARC_VERIFY_NON_MANAGED_OP"@,
                    "ARC release planned for non-managed var v"@,
                    s,
                    vars[i],
                ),
            ]
        }
    } else {
        Seq::empty()
    }
}

/// What is reported about the first operations of a list.
pub open spec fn op_reports(
    sema: SemanticTables,
    s: LinearStmtId,
    vars: Seq<VarId>,
    first: int,
    retain: bool,
) -> Seq<DiagnosticModel>
    decreases first,
{
    if first <= 0 {
        Seq::empty()
    } else {
        op_reports(sema, s, vars, first - 1, retain) + op_report(sema, s, vars, first - 1, retain)
    }
}

/// What is reported about variables that are both retained and released: each
/// once, in the order in which they are first retained.
pub open spec fn conflict_reports(
    s: LinearStmtId,
    retains: Seq<VarId>,
    releases: Seq<VarId>,
    first: int,
) -> Seq<DiagnosticModel>
    decreases first,
{
    if first <= 0 {
        Seq::empty()
    } else {
        let rest = conflict_reports(s, retains, releases, first - 1);
        let var = retains[first - 1];
        if !retains.take(first - 1).contains(var) && releases.contains(var) {
            rest.push(
                stmt_first(
                    "ARC_VERIFY_CONFLICTING_OPS"@,
                    "ARC retain+release both planned for linear stmt s"@,
                    s,
                    var,
                    " after optimization"@,
                ),
            )
        } else {
            rest
        }
    }
}

/// What is reported about a statement.
pub open spec fn stmt_reports(
    sema: SemanticTables,
    plan: ArcEmitPlan,
    s: LinearStmtId,
) -> Seq<DiagnosticModel> {
    let retains = plan.retains(s);
    let releases = plan.releases(s);
    op_reports(sema, s, retains, retains.len() as int, true) + op_reports(
        sema,
        s,
        releases,
        releases.len() as int,
        false,
    ) + conflict_reports(s, retains, releases, retains.len() as int)
}

/// What is reported about the first statements, one after the other.
pub open spec fn site_reports(
    sema: SemanticTables,
    plan: ArcEmitPlan,
    first: int,
) -> Seq<DiagnosticModel>
    decreases first,
{
    if first <= 0 {
        Seq::empty()
    } else {
        site_reports(sema, plan, first - 1) + stmt_reports(
            sema,
            plan,
            LinearStmtId((first - 1) as usize),
        )
    }
}

/// Whether one of the first variables of a list is the given one.
fn holds(vars: &[VarId], to: usize, var: VarId) -> (found: bool)
    requires
        to <= vars@.len(),
    ensures
        found == vars@.take(to as int).contains(var),
{
    let mut i: usize = 0;
    while i < to
        invariant
            i <= to <= vars@.len(),
            forall|j: int| 0 <= j < i ==> (#[trigger] vars@[j]) != var,
        decreases to - i,
    {
        if vars[i] == var {
            assert(vars@.take(to as int)[i as int] == var);
            return true;
        }
        i += 1;
    }
    assert(!vars@.take(to as int).contains(var)) by {
        if vars@.take(to as int).contains(var) {
            let j = choose|j: int| 0 <= j < to && vars@.take(to as int)[j] == var;
            assert(vars@[j] == var);
        }
    }
    false
}

fn report(diagnostics: &mut DiagnosticBag, errors: &mut u32, code: &'static str, message: &str)
    ensures
        final(diagnostics)@ == old(diagnostics)@.push(
            DiagnosticModel::error(code@, message@, Span::spec_synthetic()),
        ),
        *final(errors) == crate::passes::arc_opt::capped(*old(errors) + 1),
{
    diagnostics.error(code, message, Span::synthetic());
    *errors = (*errors).saturating_add(1);
}

fn verify_op(
    sema: &SemanticTables,
    s: LinearStmtId,
    vars: &[VarId],
    i: usize,
    retain: bool,
    diagnostics: &mut DiagnosticBag,
    errors: &mut u32,
)
    requires
        i < vars@.len(),
    ensures
        final(diagnostics)@ == old(diagnostics)@ + op_report(*sema, s, vars@, i as int, retain),
        *final(errors) == crate::passes::arc_opt::capped(
            *old(errors) + op_report(*sema, s, vars@, i as int, retain).len(),
        ),
{
    let var = vars[i];
    if holds(vars, i, var) {
        if retain {
            let message = two_numbers(
                "duplicate ARC retain op planned for linear stmt s",
                s.0,
                " var v",
                var.0,
                "",
            );
            report(diagnostics, errors, "ARC_VERIFY_DUP_RETAIN", message.as_str());
        } else {
            let message = two_numbers(
                "duplicate ARC release op planned for linear stmt s",
                s.0,
                " var v",
                var.0,
                "",
            );
            report(diagnostics, errors, "ARC_VERIFY_DUP_RELEASE", message.as_str());
        }
    } else if !is_managed(sema, var) {
        if retain {
            let message = two_numbers(
                "ARC retain planned for non-managed var v",
                var.0,
                " at linear stmt s",
                s.0,
                "",
            );
            report(diagnostics, errors, "ARC_VERIFY_NON_MANAGED_OP", message.as_str());
        } else {
            let message = two_numbers(
                "ARC release planned for non-managed var v",
                var.0,
                " at linear stmt s",
                s.0,
                "",
            );
            report(diagnostics, errors, "ARC_VERIFY_NON_MANAGED_OP", message.as_str());
        }
    }
    assert(diagnostics@ =~= old(diagnostics)@ + op_report(*sema, s, vars@, i as int, retain));
}

fn verify_list(
    sema: &SemanticTables,
    s: LinearStmtId,
    vars: &[VarId],
    retain: bool,
    diagnostics: &mut DiagnosticBag,
    errors: &mut u32,
)
    ensures
        final(diagnostics)@ == old(diagnostics)@ + op_reports(
            *sema,
            s,
            vars@,
            vars@.len() as int,
            retain,
        ),
        *final(errors) == crate::passes::arc_opt::capped(
            *old(errors) + op_reports(*sema, s, vars@, vars@.len() as int, retain).len(),
        ),
{
    let ghost before = diagnostics@;
    let ghost counted = *errors;
    let mut i: usize = 0;
    assert(diagnostics@ =~= before + op_reports(*sema, s, vars@, 0, retain));
    while i < vars.len()
        invariant
            i <= vars@.len(),
            diagnostics@ == before + op_reports(*sema, s, vars@, i as int, retain),
            *errors == crate::passes::arc_opt::capped(
                counted + op_reports(*sema, s, vars@, i as int, retain).len(),
            ),
        decreases vars@.len() - i,
    {
        verify_op(sema, s, vars, i, retain, diagnostics, errors);
        assert(diagnostics@ =~= before + op_reports(*sema, s, vars@, i as int + 1, retain));
        i += 1;
    }
}

fn verify_conflicts(
    s: LinearStmtId,
    retains: &[VarId],
    releases: &[VarId],
    diagnostics: &mut DiagnosticBag,
    errors: &mut u32,
)
    ensures
        final(diagnostics)@ == old(diagnostics)@ + conflict_reports(
            s,
            retains@,
            releases@,
            retains@.len() as int,
        ),
        *final(errors) == crate::passes::arc_opt::capped(
            *old(errors) + conflict_reports(s, retains@, releases@, retains@.len() as int).len(),
        ),
{
    let ghost before = diagnostics@;
    let ghost counted = *errors;
    let mut i: usize = 0;
    assert(diagnostics@ =~= before + conflict_reports(s, retains@, releases@, 0));
    while i < retains.len()
        invariant
            i <= retains@.len(),
            diagnostics@ == before + conflict_reports(s, retains@, releases@, i as int),
            *errors == crate::passes::arc_opt::capped(
                counted + conflict_reports(s, retains@, releases@, i as int).len(),
            ),
        decreases retains@.len() - i,
    {
        let var = retains[i];
        assert(releases@.take(releases@.len() as int) =~= releases@);
        if !holds(retains, i, var) && holds(releases, releases.len(), var) {
            let message = two_numbers(
                "ARC retain+release both planned for linear stmt s",
                s.0,
                " var v",
                var.0,
                " after optimization",
            );
            report(diagnostics, errors, "ARC_VERIFY_CONFLICTING_OPS", message.as_str());
        }
        assert(diagnostics@ =~= before + conflict_reports(s, retains@, releases@, i as int + 1));
        i += 1;
    }
}

fn verify_stmt(
    sema: &SemanticTables,
    plan: &ArcEmitPlan,
    s: LinearStmtId,
    diagnostics: &mut DiagnosticBag,
    errors: &mut u32,
)
    ensures
        final(diagnostics)@ == old(diagnostics)@ + stmt_reports(*sema, *plan, s),
        *final(errors) == crate::passes::arc_opt::capped(
            *old(errors) + stmt_reports(*sema, *plan, s).len(),
        ),
{
    let retains = plan.pre_retain_vars(s);
    let releases = plan.post_release_vars(s);
    verify_list(sema, s, retains, true, diagnostics, errors);
    verify_list(sema, s, releases, false, diagnostics, errors);
    verify_conflicts(s, retains, releases, diagnostics, errors);
    assert(diagnostics@ =~= old(diagnostics)@ + stmt_reports(*sema, *plan, s));
}

// ---------------------------------------------------------------------------
// What is owned on a path
// ---------------------------------------------------------------------------


/// Whether a statement gives a variable its value.
pub open spec fn defines(stmt: LinearStmtModel, var: VarId) -> bool {
    match stmt {
        LinearStmtModel::Let { binding, .. } => binding == var,
        LinearStmtModel::Val { binding, .. } => binding == var,
        LinearStmtModel::Call { result, .. } => result == var,
        LinearStmtModel::Perform { result, .. } => result == Some(var),
        LinearStmtModel::Match { arms, .. } => exists|i: int|
            0 <= i < arms.len() && (#[trigger] arms[i]).binders.contains(var),
        _ => false,
    }
}

/// A credit with more added, up to what a counter holds.
pub open spec fn credited(credit: int, more: int) -> int {
    if credit + more > 127 {
        127
    } else {
        credit + more
    }
}

/// A credit with some taken off; all that is missing counts as one.
pub open spec fn debited(credit: int, less: int) -> int {
    if credit - less < -1 {
        -1
    } else {
        credit - less
    }
}

/// A program with its ownership classes and a plan.
pub struct Setting {
    pub p: LinearModel,
    pub sema: SemanticTables,
    pub plan: ArcEmitPlan,
}

impl Setting {
    /// The credit of a variable once a statement has retained and defined.
    pub open spec fn gained(self, s: usize, var: usize, credit: int) -> int {
        let retained = credited(
            credit,
            crate::passes::arc_insert::occurrences(
                self.plan.retains(LinearStmtId(s)),
                VarId(var),
            ) as int,
        );
        if crate::passes::arc_insert::managed(self.sema, VarId(var)) && defines(
            self.p.stmt(LinearStmtId(s)),
            VarId(var),
        ) {
            credited(retained, 1)
        } else {
            retained
        }
    }

    /// How often a statement releases a variable.
    pub open spec fn spent(self, s: usize, var: usize) -> int {
        crate::passes::arc_insert::occurrences(
            self.plan.releases(LinearStmtId(s)),
            VarId(var),
        ) as int
    }

    /// The credit of a variable after a statement.
    pub open spec fn after(self, s: usize, var: usize, credit: int) -> int {
        debited(self.gained(s, var, credit), self.spent(s, var))
    }

    /// A statement releases a variable more often than it is owned.
    pub open spec fn short(self, s: usize, var: usize, credit: int) -> bool {
        self.spent(s, var) > 0 && self.gained(s, var, credit) < self.spent(s, var)
    }

    /// The credit of a variable where a function starts.
    pub open spec fn seed(self, f: int, var: usize) -> int {
        if crate::passes::arc_insert::managed(self.sema, VarId(var))
            && self.p.functions[f].params.contains(VarId(var)) {
            1
        } else {
            0
        }
    }

    /// One statement is part of another.
    pub open spec fn edge(self) -> spec_fn(usize, usize) -> bool {
        |a: usize, b: usize|
            self.p.has_stmt(LinearStmtId(a)) && self.p.stmt(LinearStmtId(a)).has_part(
                LinearStmtId(b),
            )
    }

    /// A path from the body of a function to a statement.
    pub open spec fn way(self, f: int, s: usize, path: Seq<usize>) -> bool {
        &&& 0 <= f < self.p.functions.len()
        &&& crate::common::reach::is_path(self.edge(), path)
        &&& path[0] == self.p.functions[f].body.0
        &&& path.last() == s
    }

    /// The credit of a variable on arrival at some place of a path.
    pub open spec fn carried(self, f: int, path: Seq<usize>, i: int, var: usize) -> int
        decreases i,
    {
        if i <= 0 {
            self.seed(f, var)
        } else {
            self.after(path[i - 1], var, self.carried(f, path, i - 1, var))
        }
    }

    /// Some path leads to a statement with a certain credit.
    pub open spec fn attains(self, s: usize, var: usize, credit: int) -> bool {
        exists|f: int, path: Seq<usize>| #[trigger]
            self.way(f, s, path) && self.carried(f, path, path.len() - 1, var) == credit
    }

    /// On some path a statement releases a variable that is not owned.
    pub open spec fn underflows(self, s: usize, var: usize) -> bool {
        exists|f: int, path: Seq<usize>| #[trigger]
            self.way(f, s, path) && self.short(
                s,
                var,
                self.carried(f, path, path.len() - 1, var),
            )
    }

    /// Bodies and parts are all there.
    pub open spec fn closed(self) -> bool {
        &&& forall|f: int|
            0 <= f < self.p.functions.len() ==> self.p.has_stmt(
                (#[trigger] self.p.functions[f]).body,
            )
        &&& forall|s: LinearStmtId, part: LinearStmtId|
            #![trigger self.p.stmt(s).has_part(part)]
            self.p.has_stmt(s) && self.p.stmt(s).has_part(part) ==> self.p.has_stmt(part)
    }
}

proof fn lemma_carried_bounds(g: Setting, f: int, path: Seq<usize>, i: int, var: usize)
    ensures
        -1 <= g.carried(f, path, i, var) <= 127,
    decreases i,
{
    if i > 0 {
        lemma_carried_bounds(g, f, path, i - 1, var);
    }
}

proof fn lemma_carried_prefix(
    g: Setting,
    f: int,
    path: Seq<usize>,
    more: Seq<usize>,
    i: int,
    var: usize,
)
    requires
        i <= path.len(),
        path.len() <= more.len(),
        forall|k: int| 0 <= k < path.len() ==> path[k] == more[k],
    ensures
        g.carried(f, path, i, var) == g.carried(f, more, i, var),
    decreases i,
{
    if i > 0 {
        lemma_carried_prefix(g, f, path, more, i - 1, var);
        assert(path[i - 1] == more[i - 1]);
    }
}

proof fn lemma_attains_start(g: Setting, f: int, var: usize)
    requires
        0 <= f < g.p.functions.len(),
    ensures
        g.attains(g.p.functions[f].body.0, var, g.seed(f, var)),
{
    let path = seq![g.p.functions[f].body.0];
    assert(g.way(f, g.p.functions[f].body.0, path));
    assert(g.carried(f, path, path.len() - 1, var) == g.seed(f, var));
}

proof fn lemma_attains_step(g: Setting, s: usize, t: usize, var: usize, credit: int)
    requires
        g.attains(s, var, credit),
        g.edge()(s, t),
    ensures
        g.attains(t, var, g.after(s, var, credit)),
{
    let (f, path) = choose|f: int, path: Seq<usize>| #[trigger]
        g.way(f, s, path) && g.carried(f, path, path.len() - 1, var) == credit;
    let more = path.push(t);
    assert forall|i: int| #![trigger more[i]] 0 <= i < more.len() - 1 implies g.edge()(
        more[i],
        more[i + 1],
    ) by {
        assert(more[i] == path[i]);
        if i < path.len() - 1 {
            assert(more[i + 1] == path[i + 1]);
        }
    }
    assert(g.way(f, t, more));
    lemma_carried_prefix(g, f, path, more, path.len() - 1, var);
    assert(more[more.len() - 1 - 1] == s);
    assert(g.carried(f, more, more.len() - 1, var) == g.after(s, var, credit));
}

// ---------------------------------------------------------------------------
// Following all paths at once
// ---------------------------------------------------------------------------

/// For each statement that has been reached, the least credit of each of the
/// variables.
type Credits = Vec<Option<Vec<i8>>>;

spec fn blanks(states: Seq<Option<Vec<i8>>>, first: int) -> int
    decreases first,
{
    if first <= 0 {
        0
    } else {
        blanks(states, first - 1) + if states[first - 1] is None {
            1int
        } else {
            0
        }
    }
}

spec fn sum(state: Seq<i8>, first: int) -> int
    decreases first,
{
    if first <= 0 {
        0
    } else {
        sum(state, first - 1) + state[first - 1] + 1
    }
}

spec fn total(states: Seq<Option<Vec<i8>>>, first: int) -> int
    decreases first,
{
    if first <= 0 {
        0
    } else {
        total(states, first - 1) + match states[first - 1] {
            Some(state) => sum(state@, state@.len() as int),
            None => 0,
        }
    }
}

/// Every state has a credit for each variable.
spec fn fits(g: Setting, vars: Seq<usize>, states: Seq<Option<Vec<i8>>>) -> bool {
    &&& states.len() == g.p.stmts.len()
    &&& forall|s: int|
        0 <= s < states.len() && (#[trigger] states[s]) is Some ==> {
            &&& (states[s]->0)@.len() == vars.len()
            &&& forall|k: int| 0 <= k < vars.len() ==> -1 <= #[trigger] (states[s]->0)@[k]
        }
}

/// The credit of a variable at a statement.
spec fn held(states: Seq<Option<Vec<i8>>>, s: int, k: int) -> int {
    (states[s]->0)@[k] as int
}

spec fn sound(g: Setting, vars: Seq<usize>, states: Seq<Option<Vec<i8>>>) -> bool {
    forall|s: int, k: int|
        0 <= s < states.len() && states[s] is Some && 0 <= k < vars.len() ==> g.attains(
            s as usize,
            vars[k],
            #[trigger] held(states, s, k),
        )
}

/// A part starts with no more than its whole leaves.
spec fn settled(
    g: Setting,
    vars: Seq<usize>,
    states: Seq<Option<Vec<i8>>>,
    from: Seq<i8>,
    s: usize,
    t: usize,
) -> bool {
    &&& states[t as int] is Some
    &&& forall|k: int|
        0 <= k < vars.len() ==> #[trigger] held(states, t as int, k) <= g.after(
            s,
            vars[k],
            from[k] as int,
        )
}

/// What goes short at a statement has been noted.
spec fn noted(
    g: Setting,
    vars: Seq<usize>,
    pairs: Seq<(usize, usize)>,
    from: Seq<i8>,
    s: usize,
) -> bool {
    forall|k: int|
        #![trigger vars[k]]
        0 <= k < vars.len() && g.short(s, vars[k], from[k] as int) ==> pairs.contains((s, vars[k]))
}

/// All but the waiting statements have been dealt with.
spec fn waiting(
    g: Setting,
    vars: Seq<usize>,
    states: Seq<Option<Vec<i8>>>,
    pairs: Seq<(usize, usize)>,
    work: Seq<usize>,
    skipped: Option<usize>,
) -> bool {
    &&& forall|s: usize| #[trigger]
        work.contains(s) ==> s < states.len() && states[s as int] is Some
    &&& forall|s: usize, t: usize| #[trigger]
        g.edge()(s, t) && states[s as int] is Some && !work.contains(s) && skipped != Some(s)
            ==> settled(g, vars, states, (states[s as int]->0)@, s, t)
    &&& forall|s: usize|
        #![trigger states[s as int]]
        s < states.len() && states[s as int] is Some && !work.contains(s) && skipped != Some(s)
            ==> noted(g, vars, pairs, (states[s as int]->0)@, s)
}

/// What has been noted is true, and noted once.
spec fn truthful(g: Setting, pairs: Seq<(usize, usize)>) -> bool {
    &&& pairs.no_duplicates()
    &&& forall|s: usize, var: usize| #[trigger]
        pairs.contains((s, var)) ==> g.underflows(s, var)
}

/// Every function starts with no more than its parameters.
spec fn seeded(
    g: Setting,
    vars: Seq<usize>,
    states: Seq<Option<Vec<i8>>>,
    first: int,
) -> bool {
    &&& forall|f: int|
        0 <= f < first ==> states[(#[trigger] g.p.functions[f]).body.0 as int] is Some
    &&& forall|f: int, k: int|
        0 <= f < first && 0 <= k < vars.len() ==> #[trigger] held(
            states,
            g.p.functions[f].body.0 as int,
            k,
        ) <= g.seed(f, vars[k])
}

proof fn lemma_measure_nonneg(states: Seq<Option<Vec<i8>>>, g: Setting, vars: Seq<usize>, first: int)
    requires
        fits(g, vars, states),
        first <= states.len(),
    ensures
        blanks(states, first) >= 0,
        total(states, first) >= 0,
    decreases first,
{
    if first > 0 {
        lemma_measure_nonneg(states, g, vars, first - 1);
        if let Some(state) = states[first - 1] {
            lemma_sum_nonneg(state@, state@.len() as int);
        }
    }
}

proof fn lemma_sum_nonneg(state: Seq<i8>, first: int)
    requires
        first <= state.len(),
        forall|k: int| 0 <= k < state.len() ==> -1 <= #[trigger] state[k],
    ensures
        sum(state, first) >= 0,
    decreases first,
{
    if first > 0 {
        lemma_sum_nonneg(state, first - 1);
    }
}

/// Lowering credits lowers their sum.
proof fn lemma_sum_lower(old_state: Seq<i8>, new_state: Seq<i8>, first: int)
    requires
        0 <= first <= old_state.len(),
        old_state.len() == new_state.len(),
        forall|k: int| 0 <= k < old_state.len() ==> #[trigger] new_state[k] <= old_state[k],
    ensures
        sum(new_state, first) <= sum(old_state, first),
        (exists|k: int| 0 <= k < first && #[trigger] new_state[k] < old_state[k]) ==> sum(
            new_state,
            first,
        ) < sum(old_state, first),
    decreases first,
{
    if first > 0 {
        lemma_sum_lower(old_state, new_state, first - 1);
        if exists|k: int| 0 <= k < first && #[trigger] new_state[k] < old_state[k] {
            let k = choose|k: int| 0 <= k < first && #[trigger] new_state[k] < old_state[k];
            if k < first - 1 {
                assert(new_state[k] < old_state[k]);
            }
        }
        assert(new_state[first - 1] <= old_state[first - 1]);
    }
}

/// What replacing one state does to the measures.
proof fn lemma_measure_update(
    before: Seq<Option<Vec<i8>>>,
    t: int,
    state: Vec<i8>,
    first: int,
)
    requires
        0 <= t < before.len(),
        first <= before.len(),
    ensures
        blanks(before.update(t, Some(state)), first) == blanks(before, first) - if t < first
            && before[t] is None {
            1int
        } else {
            0
        },
        total(before.update(t, Some(state)), first) == total(before, first) + if t < first {
            sum(state@, state@.len() as int) - match before[t] {
                Some(earlier) => sum(earlier@, earlier@.len() as int),
                None => 0,
            }
        } else {
            0
        },
    decreases first,
{
    if first > 0 {
        lemma_measure_update(before, t, state, first - 1);
    }
}

spec fn smaller(new: Seq<Option<Vec<i8>>>, earlier: Seq<Option<Vec<i8>>>) -> bool {
    let n = earlier.len() as int;
    ||| blanks(new, n) < blanks(earlier, n)
    ||| blanks(new, n) == blanks(earlier, n) && total(new, n) < total(earlier, n)
}

/// Lowers the state of a statement to what comes in. Tells whether that changed
/// it.
fn merge_in_state(states: &mut Credits, t: usize, incoming: &Vec<i8>) -> (changed: bool)
    requires
        t < old(states)@.len(),
        old(states)@[t as int] matches Some(state) ==> state@.len() == incoming@.len(),
    ensures
        final(states)@.len() == old(states)@.len(),
        forall|s: int|
            0 <= s < old(states)@.len() && s != t ==> #[trigger] final(states)@[s] == old(
                states,
            )@[s],
        final(states)@[t as int] is Some,
        (final(states)@[t as int]->0)@.len() == incoming@.len(),
        forall|k: int|
            0 <= k < incoming@.len() ==> {
                &&& #[trigger] held(final(states)@, t as int, k) <= incoming@[k]
                &&& old(states)@[t as int] is Some ==> held(final(states)@, t as int, k) <= held(
                    old(states)@,
                    t as int,
                    k,
                )
                &&& held(final(states)@, t as int, k) == incoming@[k] || (old(
                    states,
                )@[t as int] is Some && held(final(states)@, t as int, k) == held(
                    old(states)@,
                    t as int,
                    k,
                ))
            },
        !changed ==> final(states)@ == old(states)@,
        changed ==> smaller(final(states)@, old(states)@),
        changed && old(states)@[t as int] is Some ==> exists|k: int|
            0 <= k < incoming@.len() && incoming@[k] < #[trigger] held(
                old(states)@,
                t as int,
                k,
            ),
{
    let ghost before = states@;
    let n = incoming.len();
    let mut merged: Vec<i8> = Vec::new();
    let mut changed = false;
    let current = match &states[t] {
        None => None,
        Some(state) => Some(state),
    };
    let mut k: usize = 0;
    while k < n
        invariant
            k <= n == incoming@.len(),
            t < before.len(),
            current is Some <==> before[t as int] is Some,
            current matches Some(state) ==> *state == before[t as int]->0,
            before[t as int] matches Some(state) ==> state@.len() == n,
            merged@.len() == k,
            forall|j: int|
                0 <= j < k ==> {
                    &&& #[trigger] merged@[j] <= incoming@[j]
                    &&& before[t as int] is Some ==> merged@[j] <= (before[t as int]->0)@[j]
                    &&& merged@[j] == incoming@[j] || (before[t as int] is Some && merged@[j] == (
                    before[t as int]->0)@[j])
                },
            changed ==> before[t as int] is Some,
            changed <==> before[t as int] is Some && exists|j: int|
                0 <= j < k && #[trigger] merged@[j] < (before[t as int]->0)@[j],
        decreases n - k,
    {
        let ghost earlier = merged@;
        let credit = incoming[k];
        let mut least = credit;
        if let Some(state) = current {
            let own = state[k];
            if own <= credit {
                least = own;
            } else {
                changed = true;
            }
        }
        merged.push(least);
        proof {
            assert(forall|j: int| 0 <= j < k ==> #[trigger] merged@[j] == earlier[j]);
            if before[t as int] is Some {
                let own = (before[t as int]->0)@;
                if exists|j: int| 0 <= j < k && #[trigger] earlier[j] < own[j] {
                    let j = choose|j: int| 0 <= j < k && #[trigger] earlier[j] < own[j];
                    assert(merged@[j] < own[j]);
                }
                if changed && !(exists|j: int| 0 <= j < k && #[trigger] earlier[j] < own[j]) {
                    assert(merged@[k as int] < own[k as int]);
                }
                if exists|j: int| 0 <= j < k + 1 && #[trigger] merged@[j] < own[j] {
                    let j = choose|j: int| 0 <= j < k + 1 && #[trigger] merged@[j] < own[j];
                    if j < k {
                        assert(earlier[j] < own[j]);
                    }
                }
            }
        }
        k += 1;
    }
    proof {
        if changed {
            let own = (before[t as int]->0)@;
            let j = choose|j: int| 0 <= j < k && #[trigger] merged@[j] < own[j];
            assert(incoming@[j] < held(before, t as int, j));
        }
    }
    let blank = current.is_none();
    if blank || changed {
        states[t] = Some(merged);
        proof {
            assert(states@ =~= before.update(t as int, Some(merged)));
            lemma_measure_update(before, t as int, merged, before.len() as int);
            if let Some(state) = before[t as int] {
                lemma_sum_lower(state@, merged@, n as int);
            }
            assert forall|j: int| 0 <= j < n implies #[trigger] held(states@, t as int, j)
                == merged@[j] by {}
        }
    } else {
        proof {
            let own = before[t as int]->0;
            assert forall|j: int| 0 <= j < n implies #[trigger] held(states@, t as int, j)
                == merged@[j] by {
                assert(!(merged@[j] < own@[j]));
            }
        }
    }
    blank || changed
}

/// The report of a release that is not owned.
pub open spec fn underflow_report(pair: (usize, usize)) -> DiagnosticModel {
    DiagnosticModel::error(
        "ARC_VERIFY_RELEASE_UNDERFLOW"@,
        "possible release-underflow: linear stmt s"@ + crate::common::text::decimal(pair.0 as nat)
            + " releases var v"@ + crate::common::text::decimal(pair.1 as nat)
            + " without ownership credit on some path"@,
        Span::spec_synthetic(),
    )
}

pub open spec fn underflow_reports(pairs: Seq<(usize, usize)>) -> Seq<DiagnosticModel> {
    pairs.map_values(|pair: (usize, usize)| underflow_report(pair))
}

/// The counted variables that a statement defines, each once.
fn managed_defs_for_stmt(sema: &SemanticTables, stmt: &LinearStmt) -> (defs: Vec<VarId>)
    ensures
        defs@.no_duplicates(),
        forall|var: VarId| #[trigger]
            defs@.contains(var) <==> (crate::passes::arc_insert::managed(*sema, var) && defines(
                stmt@,
                var,
            )),
{
    let mut defs: Vec<VarId> = Vec::new();
    match stmt {
        LinearStmt::Let { binding, .. } | LinearStmt::Val { binding, .. } => {
            add_managed(sema, &mut defs, *binding);
        },
        LinearStmt::PureCall { result, .. } | LinearStmt::DirectCall { result, .. }
        | LinearStmt::ControlCall { result, .. } => {
            add_managed(sema, &mut defs, *result);
        },
        LinearStmt::Perform { result, .. } => {
            if let Some(result) = result {
                add_managed(sema, &mut defs, *result);
            }
        },
        LinearStmt::Match { arms, .. } => {
            let ghost models = crate::common::views(arms@);
            let mut i: usize = 0;
            while i < arms.len()
                invariant
                    i <= arms@.len(),
                    models == crate::common::views(arms@),
                    defs@.no_duplicates(),
                    forall|var: VarId| #[trigger]
                        defs@.contains(var) <==> (crate::passes::arc_insert::managed(*sema, var)
                            && exists|k: int|
                            0 <= k < i && (#[trigger] models[k]).binders.contains(var)),
                decreases arms@.len() - i,
            {
                let binders = &arms[i].binders;
                let ghost earlier = defs@;
                assert(models[i as int].binders == binders@);
                let mut j: usize = 0;
                while j < binders.len()
                    invariant
                        j <= binders@.len(),
                        defs@.no_duplicates(),
                        forall|var: VarId| #[trigger]
                            defs@.contains(var) <==> (earlier.contains(var) || (
                            crate::passes::arc_insert::managed(*sema, var) && binders@.take(
                                j as int,
                            ).contains(var))),
                    decreases binders@.len() - j,
                {
                    let ghost seen = binders@.take(j as int);
                    add_managed(sema, &mut defs, binders[j]);
                    proof {
                        assert(binders@.take(j as int + 1) =~= seen.push(binders@[j as int]));
                        crate::common::reach::lemma_pushed(seen, binders@[j as int]);
                    }
                    j += 1;
                }
                assert(binders@.take(j as int) =~= binders@);
                assert forall|var: VarId| #[trigger] defs@.contains(var) <==> (
                crate::passes::arc_insert::managed(*sema, var) && exists|k: int|
                    0 <= k < i + 1 && (#[trigger] models[k]).binders.contains(var)) by {
                    assert(earlier.contains(var) <==> (crate::passes::arc_insert::managed(
                        *sema,
                        var,
                    ) && exists|k: int|
                        0 <= k < i && (#[trigger] models[k]).binders.contains(var)));
                    if binders@.contains(var) {
                        assert(models[i as int].binders.contains(var));
                    }
                    if exists|k: int| 0 <= k < i && (#[trigger] models[k]).binders.contains(var) {
                        let k = choose|k: int|
                            0 <= k < i && (#[trigger] models[k]).binders.contains(var);
                        assert(models[k].binders.contains(var));
                    }
                }
                i += 1;
            }
            assert(stmt@->Match_arms == models);
            assert forall|var: VarId| #[trigger] defs@.contains(var) <==> (
            crate::passes::arc_insert::managed(*sema, var) && defines(stmt@, var)) by {
                if defines(stmt@, var) {
                    let k = choose|k: int|
                        0 <= k < models.len() && (#[trigger] models[k]).binders.contains(var);
                    assert(models[k].binders.contains(var));
                }
                if exists|k: int| 0 <= k < i && (#[trigger] models[k]).binders.contains(var) {
                    let k = choose|k: int|
                        0 <= k < i && (#[trigger] models[k]).binders.contains(var);
                    assert(stmt@->Match_arms[k].binders.contains(var));
                }
            }
        },
        LinearStmt::Return(_) | LinearStmt::If { .. } | LinearStmt::Handle { .. }
        | LinearStmt::Stage { .. } | LinearStmt::Hole | LinearStmt::Error => {},
    }
    defs
}

fn add_managed(sema: &SemanticTables, defs: &mut Vec<VarId>, var: VarId)
    requires
        old(defs)@.no_duplicates(),
    ensures
        final(defs)@.no_duplicates(),
        forall|x: VarId| #[trigger]
            final(defs)@.contains(x) <==> (old(defs)@.contains(x) || (x == var
                && crate::passes::arc_insert::managed(*sema, var))),
{
    assert(defs@.take(defs@.len() as int) =~= defs@);
    if is_managed(sema, var) && !holds(defs.as_slice(), defs.len(), var) {
        proof {
            crate::common::reach::lemma_pushed(defs@, var);
        }
        defs.push(var);
    }
}

// ---------------------------------------------------------------------------
// The variables that matter
// ---------------------------------------------------------------------------

/// Every variable that a statement retains, defines or releases is there.
spec fn covers_stmt(g: Setting, vars: Seq<usize>, s: LinearStmtId) -> bool {
    &&& forall|var: VarId| #[trigger] g.plan.retains(s).contains(var) ==> vars.contains(var.0)
    &&& forall|var: VarId| #[trigger] g.plan.releases(s).contains(var) ==> vars.contains(var.0)
    &&& forall|var: VarId|
        crate::passes::arc_insert::managed(g.sema, var) && #[trigger] defines(g.p.stmt(s), var)
            ==> vars.contains(var.0)
}

spec fn covers(g: Setting, vars: Seq<usize>) -> bool {
    forall|s: LinearStmtId| #[trigger] g.p.has_stmt(s) ==> covers_stmt(g, vars, s)
}

fn add_all(vars: &mut Vec<usize>, more: &[VarId])
    requires
        crate::common::sorted::ascending(old(vars)@),
    ensures
        crate::common::sorted::ascending(final(vars)@),
        forall|x: usize| #[trigger] old(vars)@.contains(x) ==> final(vars)@.contains(x),
        forall|var: VarId| #[trigger] more@.contains(var) ==> final(vars)@.contains(var.0),
{
    let ghost before = vars@;
    let mut i: usize = 0;
    while i < more.len()
        invariant
            i <= more@.len(),
            crate::common::sorted::ascending(vars@),
            forall|x: usize| #[trigger] before.contains(x) ==> vars@.contains(x),
            forall|j: int| 0 <= j < i ==> vars@.contains((#[trigger] more@[j]).0),
        decreases more@.len() - i,
    {
        insert_sorted(vars, more[i].0);
        i += 1;
    }
}

/// All variables that can have a credit.
fn collect_vars(program: &LinearProgram, sema: &SemanticTables, plan: &ArcEmitPlan) -> (vars: Vec<
    usize,
>)
    ensures
        crate::common::sorted::ascending(vars@),
        covers(Setting { p: program@, sema: *sema, plan: *plan }, vars@),
        covers_params(Setting { p: program@, sema: *sema, plan: *plan }, vars@),
{
    let ghost g = Setting { p: program@, sema: *sema, plan: *plan };
    let mut vars: Vec<usize> = Vec::new();
    let mut f: usize = 0;
    while f < program.functions.len()
        invariant
            f <= program.functions@.len(),
            g == (Setting { p: program@, sema: *sema, plan: *plan }),
            crate::common::sorted::ascending(vars@),
            forall|j: int, var: VarId|
                0 <= j < f && crate::passes::arc_insert::managed(g.sema, var)
                    && #[trigger] g.p.functions[j].params.contains(var) ==> vars@.contains(var.0),
        decreases program.functions@.len() - f,
    {
        let params = &program.functions[f].params;
        assert(g.p.functions[f as int] == program.functions@[f as int]@);
        let ghost before = vars@;
        let mut i: usize = 0;
        while i < params.len()
            invariant
                i <= params@.len(),
                g.sema == *sema,
                crate::common::sorted::ascending(vars@),
                forall|x: usize| #[trigger] before.contains(x) ==> vars@.contains(x),
                forall|j: int|
                    0 <= j < i && crate::passes::arc_insert::managed(
                        g.sema,
                        #[trigger] params@[j],
                    ) ==> vars@.contains(params@[j].0),
            decreases params@.len() - i,
        {
            if is_managed(sema, params[i]) {
                insert_sorted(&mut vars, params[i].0);
            }
            i += 1;
        }
        proof {
            assert forall|j: int, var: VarId|
                0 <= j < f + 1 && crate::passes::arc_insert::managed(g.sema, var)
                    && #[trigger] g.p.functions[j].params.contains(var) implies vars@.contains(
                var.0,
            ) by {
                if j < f {
                    assert(before.contains(var.0));
                } else {
                    let k = choose|k: int| 0 <= k < params@.len() && params@[k] == var;
                    assert(crate::passes::arc_insert::managed(g.sema, params@[k]));
                }
            }
        }
        f += 1;
    }
    assert(covers_params(g, vars@));
    let mut s: usize = 0;
    while s < program.stmts.len()
        invariant
            s <= program.stmts@.len(),
            g == (Setting { p: program@, sema: *sema, plan: *plan }),
            crate::common::sorted::ascending(vars@),
            covers_params(g, vars@),
            forall|k: usize| k < s ==> #[trigger] covers_stmt(g, vars@, LinearStmtId(k)),
        decreases program.stmts@.len() - s,
    {
        let ghost before = vars@;
        let id = LinearStmtId::new(s);
        add_all(&mut vars, plan.pre_retain_vars(id));
        add_all(&mut vars, plan.post_release_vars(id));
        let defs = managed_defs_for_stmt(sema, &program.stmts[s].kind);
        add_all(&mut vars, defs.as_slice());
        proof {
            assert(g.p.stmt(id) == program.stmts@[s as int].kind@);
            assert(covers_stmt(g, vars@, id)) by {
                assert forall|var: VarId|
                    crate::passes::arc_insert::managed(g.sema, var) && #[trigger] defines(
                        g.p.stmt(id),
                        var,
                    ) implies vars@.contains(var.0) by {
                    assert(defs@.contains(var));
                }
            }
            assert forall|k: usize| k < s + 1 implies #[trigger] covers_stmt(
                g,
                vars@,
                LinearStmtId(k),
            ) by {
                if k < s {
                    assert(covers_stmt(g, before, LinearStmtId(k)));
                }
            }
        }
        s += 1;
    }
    assert forall|id: LinearStmtId| #[trigger] g.p.has_stmt(id) implies covers_stmt(
        g,
        vars@,
        id,
    ) by {
        assert(covers_stmt(g, vars@, LinearStmtId(id.0)));
    }
    vars
}

fn position(vars: &Vec<usize>, var: usize) -> (at: usize)
    requires
        vars@.contains(var),
    ensures
        at < vars@.len(),
        vars@[at as int] == var,
{
    let mut i: usize = 0;
    while i < vars.len()
        invariant
            i <= vars@.len(),
            forall|j: int| 0 <= j < i ==> vars@[j] != var,
            vars@.contains(var),
        decreases vars@.len() - i,
    {
        if vars[i] == var {
            return i;
        }
        i += 1;
    }
    assert(false);
    i
}

// ---------------------------------------------------------------------------
// One statement
// ---------------------------------------------------------------------------

proof fn lemma_occurrences_step(list: Seq<VarId>, i: int, var: VarId)
    requires
        0 <= i < list.len(),
    ensures
        crate::passes::arc_insert::occurrences(list.take(i + 1), var)
            == crate::passes::arc_insert::occurrences(list.take(i), var) + (if list[i] == var {
            1nat
        } else {
            0nat
        }),
{
    assert(list.take(i + 1).drop_last() =~= list.take(i));
    assert(list.take(i + 1).last() == list[i]);
}

proof fn lemma_occurrences_prefix(list: Seq<VarId>, i: int, var: VarId)
    requires
        0 <= i <= list.len(),
    ensures
        crate::passes::arc_insert::occurrences(list.take(i), var)
            <= crate::passes::arc_insert::occurrences(list, var),
    decreases list.len() - i,
{
    if i < list.len() {
        lemma_occurrences_step(list, i, var);
        lemma_occurrences_prefix(list, i + 1, var);
    } else {
        assert(list.take(i) =~= list);
    }
}

proof fn lemma_occurs(list: Seq<VarId>, var: VarId)
    ensures
        crate::passes::arc_insert::occurrences(list, var) > 0 ==> list.contains(var),
    decreases list.len(),
{
    if list.len() > 0 {
        lemma_occurs(list.drop_last(), var);
        if list.last() == var {
            assert(list[list.len() - 1] == var);
        } else if list.drop_last().contains(var) {
            let k = choose|k: int| 0 <= k < list.drop_last().len() && list.drop_last()[k] == var;
            assert(list[k] == var);
        }
    }
}

// ---------------------------------------------------------------------------
// The order of the search
// ---------------------------------------------------------------------------

/// A search along all paths: the least credit of each variable at each statement
/// that has been come to, the statements that wait, the releases noted so far, and
/// how many edges have been walked.
pub struct Search {
    pub credits: Seq<Option<spec_fn(usize) -> int>>,
    pub work: Seq<usize>,
    pub pairs: Seq<(usize, usize)>,
    pub edges: nat,
}

/// The credit of a variable at a statement.
pub open spec fn credit_at(
    credits: Seq<Option<spec_fn(usize) -> int>>,
    s: int,
    var: usize,
) -> int {
    (credits[s]->0)(var)
}

impl Search {
    /// Nothing has been come to yet.
    pub open spec fn start(p: LinearModel) -> Self {
        Search {
            credits: Seq::new(p.stmts.len(), |s: int| None),
            work: Seq::empty(),
            pairs: Seq::empty(),
            edges: 0,
        }
    }

    /// Whether credits that come to a statement lower what is known there.
    pub open spec fn lowers(self, t: usize, credits: spec_fn(usize) -> int) -> bool {
        self.credits[t as int] is None || exists|var: usize|
            credits(var) < #[trigger] credit_at(self.credits, t as int, var)
    }

    /// Credits come to a statement: it waits again if they lower what is known.
    pub open spec fn hand(self, t: usize, credits: spec_fn(usize) -> int) -> Self {
        if self.lowers(t, credits) {
            let least: spec_fn(usize) -> int = match self.credits[t as int] {
                None => credits,
                Some(own) => |var: usize|
                    if credits(var) < own(var) {
                        credits(var)
                    } else {
                        own(var)
                    },
            };
            Search {
                credits: self.credits.update(t as int, Some(least)),
                work: self.work.push(t),
                ..self
            }
        } else {
            self
        }
    }

    /// The first functions are come to.
    pub open spec fn functions(self, g: Setting, first: nat) -> Self
        decreases first,
    {
        if first == 0 {
            self
        } else {
            self.functions(g, (first - 1) as nat).hand(
                g.p.functions[first - 1].body.0,
                |var: usize| g.seed(first - 1, var),
            )
        }
    }

    /// The first releases of a statement: each that there is no credit for is
    /// noted once.
    pub open spec fn releases(
        self,
        g: Setting,
        s: usize,
        from: spec_fn(usize) -> int,
        first: nat,
    ) -> Self
        decreases first,
    {
        if first == 0 {
            self
        } else {
            let before = self.releases(g, s, from, (first - 1) as nat);
            let list = g.plan.releases(LinearStmtId(s));
            let var = list[first - 1].0;
            let left = debited(
                g.gained(s, var, from(var)),
                crate::passes::arc_insert::occurrences(
                    list.take(first as int),
                    VarId(var),
                ) as int,
            );
            if left < 0 && !before.pairs.contains((s, var)) {
                Search { pairs: before.pairs.push((s, var)), ..before }
            } else {
                before
            }
        }
    }

    /// What a statement leaves goes to its first parts.
    pub open spec fn parts(
        self,
        g: Setting,
        s: usize,
        from: spec_fn(usize) -> int,
        first: nat,
    ) -> Self
        decreases first,
    {
        if first == 0 {
            self
        } else {
            let before = self.parts(g, s, from, (first - 1) as nat);
            Search { edges: before.edges + 1, ..before }.hand(
                g.p.stmt(LinearStmtId(s)).parts()[first - 1].0,
                |var: usize| g.after(s, var, from(var)),
            )
        }
    }

    /// The statement that has waited longest is dealt with.
    pub open spec fn turn(self, g: Setting) -> Self {
        let s = self.work[0];
        let from = self.credits[s as int]->0;
        Search { work: self.work.subrange(1, self.work.len() as int), ..self }.releases(
            g,
            s,
            from,
            g.plan.releases(LinearStmtId(s)).len(),
        ).parts(g, s, from, g.p.stmt(LinearStmtId(s)).parts().len())
    }

    /// Some turns, as long as a statement waits.
    pub open spec fn turns(self, g: Setting, count: nat) -> Self
        decreases count,
    {
        if count == 0 {
            self
        } else {
            let before = self.turns(g, (count - 1) as nat);
            if before.work.len() == 0 {
                before
            } else {
                before.turn(g)
            }
        }
    }
}

impl Setting {
    /// The search after some turns.
    pub open spec fn search(self, turns: nat) -> Search {
        Search::start(self.p).functions(self, self.p.functions.len()).turns(self, turns)
    }
}

/// The states are those of a search, as far as the variables at hand go; all
/// others have no credit.
spec fn shows(
    vars: Seq<usize>,
    states: Seq<Option<Vec<i8>>>,
    credits: Seq<Option<spec_fn(usize) -> int>>,
) -> bool {
    &&& credits.len() == states.len()
    &&& forall|x: int| #![trigger states[x]] #![trigger credits[x]]
        0 <= x < states.len() ==> (credits[x] is Some <==> states[x] is Some)
    &&& forall|x: int, k: int|
        0 <= x < states.len() && states[x] is Some && 0 <= k < vars.len() ==> credit_at(
            credits,
            x,
            vars[k],
        ) == #[trigger] held(states, x, k)
    &&& forall|x: int, var: usize|
        0 <= x < states.len() && states[x] is Some && !vars.contains(var) ==> #[trigger] credit_at(
            credits,
            x,
            var,
        ) == 0
}

/// Credits are those of a state, as far as the variables at hand go.
spec fn shows_state(vars: Seq<usize>, state: Seq<i8>, credits: spec_fn(usize) -> int) -> bool {
    &&& forall|k: int| 0 <= k < vars.len() ==> credits(#[trigger] vars[k]) == state[k]
    &&& forall|var: usize| !vars.contains(var) ==> #[trigger] credits(var) == 0
}

/// The variables at hand hold every parameter that counts.
spec fn covers_params(g: Setting, vars: Seq<usize>) -> bool {
    forall|f: int, var: VarId|
        0 <= f < g.p.functions.len() && crate::passes::arc_insert::managed(g.sema, var)
            && #[trigger] g.p.functions[f].params.contains(var) ==> vars.contains(var.0)
}

/// What a merge does is what the search does.
proof fn lemma_merged(
    vars: Seq<usize>,
    before: Seq<Option<Vec<i8>>>,
    after: Seq<Option<Vec<i8>>>,
    search: Search,
    t: usize,
    incoming: Seq<i8>,
    credits: spec_fn(usize) -> int,
    changed: bool,
)
    requires
        shows(vars, before, search.credits),
        shows_state(vars, incoming, credits),
        t < before.len(),
        after.len() == before.len(),
        incoming.len() == vars.len(),
        before[t as int] matches Some(state) ==> state@.len() == vars.len(),
        forall|s: int| 0 <= s < before.len() && s != t ==> #[trigger] after[s] == before[s],
        after[t as int] is Some,
        forall|k: int|
            0 <= k < incoming.len() ==> {
                &&& #[trigger] held(after, t as int, k) <= incoming[k]
                &&& before[t as int] is Some ==> held(after, t as int, k) <= held(
                    before,
                    t as int,
                    k,
                )
                &&& held(after, t as int, k) == incoming[k] || (before[t as int] is Some && held(
                    after,
                    t as int,
                    k,
                ) == held(before, t as int, k))
            },
        !changed ==> after == before,
        changed && before[t as int] is Some ==> exists|k: int|
            0 <= k < incoming.len() && incoming[k] < #[trigger] held(before, t as int, k),
    ensures
        changed <==> search.lowers(t, credits),
        shows(vars, after, search.hand(t, credits).credits),
        search.hand(t, credits).work == (if changed {
            search.work.push(t)
        } else {
            search.work
        }),
        search.hand(t, credits).pairs == search.pairs,
        search.hand(t, credits).edges == search.edges,
{
    let own = search.credits;
    if changed && before[t as int] is Some {
        let k = choose|k: int|
            0 <= k < incoming.len() && incoming[k] < #[trigger] held(before, t as int, k);
        assert(credits(vars[k]) == incoming[k]);
        assert(credits(vars[k]) < credit_at(own, t as int, vars[k]));
    }
    if !changed && search.lowers(t, credits) {
        assert(before[t as int] is Some);
        let var = choose|var: usize| credits(var) < #[trigger] credit_at(own, t as int, var);
        if vars.contains(var) {
            let k = choose|k: int| 0 <= k < vars.len() && vars[k] == var;
            assert(credits(vars[k]) == incoming[k]);
            assert(held(after, t as int, k) <= incoming[k]);
        }
    }
    let next = search.hand(t, credits).credits;
    if changed {
        assert forall|x: int, k: int|
            0 <= x < after.len() && after[x] is Some && 0 <= k < vars.len() implies credit_at(
            next,
            x,
            vars[k],
        ) == #[trigger] held(after, x, k) by {
            if x == t {
                assert(credits(vars[k]) == incoming[k]);
                if before[x] is Some {
                    assert(credit_at(own, x, vars[k]) == held(before, x, k));
                }
            } else {
                assert(after[x] == before[x]);
                assert(credit_at(own, x, vars[k]) == held(before, x, k));
            }
        }
        assert forall|x: int, var: usize|
            0 <= x < after.len() && after[x] is Some && !vars.contains(
                var,
            ) implies #[trigger] credit_at(next, x, var) == 0 by {
            if x == t {
                assert(credits(var) == 0);
                if before[x] is Some {
                    assert(credit_at(own, x, var) == 0);
                }
            } else {
                assert(after[x] == before[x]);
                assert(credit_at(own, x, var) == 0);
            }
        }
        assert forall|x: int| 0 <= x < after.len() implies (#[trigger] next[x] is Some
            <==> after[x] is Some) by {
            if x != t {
                assert(after[x] == before[x]);
                assert(next[x] == own[x]);
            }
        }
    }
}

/// Releases change nothing but what is noted.
proof fn lemma_releases_keep(
    search: Search,
    g: Setting,
    s: usize,
    from: spec_fn(usize) -> int,
    first: nat,
)
    ensures
        search.releases(g, s, from, first).credits == search.credits,
        search.releases(g, s, from, first).work == search.work,
        search.releases(g, s, from, first).edges == search.edges,
    decreases first,
{
    if first > 0 {
        lemma_releases_keep(search, g, s, from, (first - 1) as nat);
    }
}

/// A variable that is not at hand has no credit after a statement either.
proof fn lemma_not_at_hand(g: Setting, vars: Seq<usize>, s: usize, var: usize)
    requires
        covers(g, vars),
        g.p.has_stmt(LinearStmtId(s)),
        !vars.contains(var),
    ensures
        g.after(s, var, 0) == 0,
{
    let id = LinearStmtId(s);
    assert(covers_stmt(g, vars, id));
    assert(!g.plan.retains(id).contains(VarId(var)));
    assert(!g.plan.releases(id).contains(VarId(var)));
    lemma_occurs(g.plan.retains(id), VarId(var));
    lemma_occurs(g.plan.releases(id), VarId(var));
}

/// Adds one to the credit of each variable of a list, as often as it occurs.
fn credit_all(vars: &Vec<usize>, state: &mut Vec<i8>, list: &[VarId])
    requires
        crate::common::sorted::ascending(vars@),
        old(state)@.len() == vars@.len(),
        forall|var: VarId| #[trigger] list@.contains(var) ==> vars@.contains(var.0),
    ensures
        final(state)@.len() == vars@.len(),
        forall|k: int|
            0 <= k < vars@.len() ==> #[trigger] final(state)@[k] == credited(
                old(state)@[k] as int,
                crate::passes::arc_insert::occurrences(list@, VarId(vars@[k])) as int,
            ),
{
    let ghost before = state@;
    let mut i: usize = 0;
    assert(list@.take(0) =~= Seq::empty());
    while i < list.len()
        invariant
            i <= list@.len(),
            crate::common::sorted::ascending(vars@),
            state@.len() == vars@.len(),
            before.len() == vars@.len(),
            forall|var: VarId| #[trigger] list@.contains(var) ==> vars@.contains(var.0),
            forall|k: int|
                0 <= k < vars@.len() ==> #[trigger] state@[k] == credited(
                    before[k] as int,
                    crate::passes::arc_insert::occurrences(
                        list@.take(i as int),
                        VarId(vars@[k]),
                    ) as int,
                ),
        decreases list@.len() - i,
    {
        let ghost now = state@;
        assert(list@.contains(list@[i as int]));
        let at = position(vars, list[i].0);
        if state[at] < 127 {
            let more: i8 = state[at] + 1;
            state[at] = more;
        }
        proof {
            assert forall|k: int| 0 <= k < vars@.len() implies #[trigger] state@[k] == credited(
                before[k] as int,
                crate::passes::arc_insert::occurrences(
                    list@.take(i as int + 1),
                    VarId(vars@[k]),
                ) as int,
            ) by {
                lemma_occurrences_step(list@, i as int, VarId(vars@[k]));
                assert(now[k] == credited(
                    before[k] as int,
                    crate::passes::arc_insert::occurrences(
                        list@.take(i as int),
                        VarId(vars@[k]),
                    ) as int,
                ));
                if k != at {
                    assert(vars@[k] != vars@[at as int]);
                }
            }
        }
        i += 1;
    }
    assert(list@.take(i as int) =~= list@);
}

/// A list without repetition has each of its members once.
proof fn lemma_occurs_once(list: Seq<VarId>, var: VarId)
    requires
        list.no_duplicates(),
    ensures
        crate::passes::arc_insert::occurrences(list, var) == (if list.contains(var) {
            1nat
        } else {
            0nat
        }),
    decreases list.len(),
{
    if list.len() > 0 {
        let rest = list.drop_last();
        assert(rest.no_duplicates()) by {
            assert forall|i: int, j: int|
                0 <= i < rest.len() && 0 <= j < rest.len() && i != j implies rest[i] != rest[j] by {
                assert(list[i] != list[j]);
            }
        }
        lemma_occurs_once(rest, var);
        if rest.contains(var) {
            let k = choose|k: int| 0 <= k < rest.len() && rest[k] == var;
            assert(list[k] == var);
            assert(list[k] != list[list.len() - 1]);
        }
        if list.contains(var) && list.last() != var {
            let k = choose|k: int| 0 <= k < list.len() && list[k] == var;
            assert(rest[k] == var);
        }
    }
}

fn has_pair(pairs: &Vec<(usize, usize)>, pair: (usize, usize)) -> (found: bool)
    ensures
        found == pairs@.contains(pair),
{
    let mut i: usize = 0;
    while i < pairs.len()
        invariant
            i <= pairs@.len(),
            forall|j: int| 0 <= j < i ==> (#[trigger] pairs@[j]) != pair,
        decreases pairs@.len() - i,
    {
        if pairs[i].0 == pair.0 && pairs[i].1 == pair.1 {
            assert(pairs@[i as int] == pair);
            return true;
        }
        i += 1;
    }
    false
}

/// What has been reported is what has been noted.
spec fn told(
    base: Seq<DiagnosticModel>,
    start: int,
    pairs: Seq<(usize, usize)>,
    diagnostics: Seq<DiagnosticModel>,
    errors: u32,
) -> bool {
    &&& diagnostics == base + underflow_reports(pairs)
    &&& errors == crate::passes::arc_opt::capped(start + pairs.len())
}

/// Notes a pair, unless it has been noted.
fn note_pair(
    pairs: &mut Vec<(usize, usize)>,
    pair: (usize, usize),
    diagnostics: &mut DiagnosticBag,
    errors: &mut u32,
    Ghost(g): Ghost<Setting>,
    Ghost(base): Ghost<Seq<DiagnosticModel>>,
    Ghost(start): Ghost<int>,
)
    requires
        truthful(g, old(pairs)@),
        told(base, start, old(pairs)@, old(diagnostics)@, *old(errors)),
        g.underflows(pair.0, pair.1),
    ensures
        truthful(g, final(pairs)@),
        told(base, start, final(pairs)@, final(diagnostics)@, *final(errors)),
        forall|x: (usize, usize)| #[trigger]
            final(pairs)@.contains(x) <==> (old(pairs)@.contains(x) || x == pair),
        final(pairs)@ == (if old(pairs)@.contains(pair) {
            old(pairs)@
        } else {
            old(pairs)@.push(pair)
        }),
{
    let ghost before = pairs@;
    if !has_pair(pairs, pair) {
        let message = two_numbers(
            "possible release-underflow: linear stmt s",
            pair.0,
            " releases var v",
            pair.1,
            " without ownership credit on some path",
        );
        report(diagnostics, errors, "ARC_VERIFY_RELEASE_UNDERFLOW", message.as_str());
        pairs.push(pair);
        proof {
            crate::common::reach::lemma_pushed(before, pair);
            assert(underflow_reports(pairs@) =~= underflow_reports(before).push(
                underflow_report(pair),
            ));
            assert(diagnostics@ =~= base + underflow_reports(pairs@));
        }
    }
}

/// Takes one off the credit of each variable of a statement's releases, and
/// notes those that go short.
fn debit_all(
    vars: &Vec<usize>,
    state: &mut Vec<i8>,
    s: usize,
    list: &[VarId],
    pairs: &mut Vec<(usize, usize)>,
    diagnostics: &mut DiagnosticBag,
    errors: &mut u32,
    Ghost(g): Ghost<Setting>,
    Ghost(from): Ghost<Seq<i8>>,
    Ghost(base): Ghost<Seq<DiagnosticModel>>,
    Ghost(start): Ghost<int>,
    Ghost(search): Ghost<Search>,
    Ghost(credits): Ghost<spec_fn(usize) -> int>,
)
    requires
        crate::common::sorted::ascending(vars@),
        shows_state(vars@, from, credits),
        search.pairs == old(pairs)@,
        old(state)@.len() == vars@.len(),
        from.len() == vars@.len(),
        list@ == g.plan.releases(LinearStmtId(s)),
        forall|var: VarId| #[trigger] list@.contains(var) ==> vars@.contains(var.0),
        forall|k: int|
            0 <= k < vars@.len() ==> #[trigger] old(state)@[k] == g.gained(
                s,
                vars@[k],
                from[k] as int,
            ),
        forall|k: int|
            0 <= k < vars@.len() ==> g.attains(s, #[trigger] vars@[k], from[k] as int),
        forall|k: int| 0 <= k < vars@.len() ==> -1 <= #[trigger] old(state)@[k],
        truthful(g, old(pairs)@),
        told(base, start, old(pairs)@, old(diagnostics)@, *old(errors)),
    ensures
        final(state)@.len() == vars@.len(),
        forall|k: int|
            0 <= k < vars@.len() ==> #[trigger] final(state)@[k] == g.after(
                s,
                vars@[k],
                from[k] as int,
            ),
        truthful(g, final(pairs)@),
        told(base, start, final(pairs)@, final(diagnostics)@, *final(errors)),
        forall|x: (usize, usize)| #[trigger]
            old(pairs)@.contains(x) ==> final(pairs)@.contains(x),
        noted(g, vars@, final(pairs)@, from, s),
        final(pairs)@ == search.releases(g, s, credits, list@.len()).pairs,
{
    let ghost gained = state@;
    let ghost earlier = pairs@;
    let mut i: usize = 0;
    assert(list@.take(0) =~= Seq::empty());
    while i < list.len()
        invariant
            i <= list@.len(),
            crate::common::sorted::ascending(vars@),
            state@.len() == vars@.len(),
            from.len() == vars@.len(),
            gained.len() == vars@.len(),
            list@ == g.plan.releases(LinearStmtId(s)),
            forall|var: VarId| #[trigger] list@.contains(var) ==> vars@.contains(var.0),
            forall|k: int|
                0 <= k < vars@.len() ==> #[trigger] gained[k] == g.gained(
                    s,
                    vars@[k],
                    from[k] as int,
                ),
            forall|k: int|
                0 <= k < vars@.len() ==> g.attains(s, #[trigger] vars@[k], from[k] as int),
            forall|k: int| 0 <= k < vars@.len() ==> -1 <= #[trigger] gained[k],
            forall|k: int|
                0 <= k < vars@.len() ==> #[trigger] state@[k] == debited(
                    gained[k] as int,
                    crate::passes::arc_insert::occurrences(
                        list@.take(i as int),
                        VarId(vars@[k]),
                    ) as int,
                ),
            truthful(g, pairs@),
            told(base, start, pairs@, diagnostics@, *errors),
            shows_state(vars@, from, credits),
            pairs@ == search.releases(g, s, credits, i as nat).pairs,
            forall|x: (usize, usize)| #[trigger] earlier.contains(x) ==> pairs@.contains(x),
            forall|k: int|
                #![trigger vars@[k]]
                0 <= k < vars@.len() && crate::passes::arc_insert::occurrences(
                    list@.take(i as int),
                    VarId(vars@[k]),
                ) > 0 && gained[k] < crate::passes::arc_insert::occurrences(
                    list@.take(i as int),
                    VarId(vars@[k]),
                ) ==> pairs@.contains((s, vars@[k])),
        decreases list@.len() - i,
    {
        let ghost now = state@;
        let ghost so_far = pairs@;
        assert(list@.contains(list@[i as int]));
        let at = position(vars, list[i].0);
        if state[at] > -1 {
            let less: i8 = state[at] - 1;
            state[at] = less;
        }
        proof {
            assert forall|k: int| 0 <= k < vars@.len() implies #[trigger] state@[k] == debited(
                gained[k] as int,
                crate::passes::arc_insert::occurrences(
                    list@.take(i as int + 1),
                    VarId(vars@[k]),
                ) as int,
            ) by {
                lemma_occurrences_step(list@, i as int, VarId(vars@[k]));
                assert(now[k] == debited(
                    gained[k] as int,
                    crate::passes::arc_insert::occurrences(
                        list@.take(i as int),
                        VarId(vars@[k]),
                    ) as int,
                ));
                if k != at {
                    assert(vars@[k] != vars@[at as int]);
                }
            }
            lemma_occurrences_step(list@, i as int, VarId(vars@[at as int]));
            lemma_occurrences_prefix(list@, i as int + 1, VarId(vars@[at as int]));
            assert(state@[at as int] == debited(
                gained[at as int] as int,
                crate::passes::arc_insert::occurrences(
                    list@.take(i as int + 1),
                    VarId(vars@[at as int]),
                ) as int,
            ));
        }
        assert(credits(vars@[at as int]) == from[at as int]);
        if state[at] < 0 {
            proof {
                let var = vars@[at as int];
                let credit = from[at as int] as int;
                assert(g.attains(s, var, credit));
                assert(gained[at as int] == g.gained(s, var, credit));
                assert(g.short(s, var, credit));
                let (f, path) = choose|f: int, path: Seq<usize>| #[trigger]
                    g.way(f, s, path) && g.carried(f, path, path.len() - 1, var) == credit;
                assert(g.way(f, s, path));
                assert(g.underflows(s, var));
            }
            note_pair(
                pairs,
                (s, list[i].0),
                diagnostics,
                errors,
                Ghost(g),
                Ghost(base),
                Ghost(start),
            );
        }
        proof {
            assert forall|k: int|
                #![trigger vars@[k]]
                0 <= k < vars@.len() && crate::passes::arc_insert::occurrences(
                    list@.take(i as int + 1),
                    VarId(vars@[k]),
                ) > 0 && gained[k] < crate::passes::arc_insert::occurrences(
                    list@.take(i as int + 1),
                    VarId(vars@[k]),
                ) implies pairs@.contains((s, vars@[k])) by {
                lemma_occurrences_step(list@, i as int, VarId(vars@[k]));
                if k == at {
                    assert(state@[at as int] < 0);
                    assert(pairs@.contains((s, list@[i as int].0)));
                } else {
                    assert(vars@[k] != vars@[at as int]);
                    assert(so_far.contains((s, vars@[k])));
                }
            }
        }
        i += 1;
    }
    assert(list@.take(i as int) =~= list@);
}

/// What a statement does to the credits that it starts with.
fn step(
    program: &LinearProgram,
    sema: &SemanticTables,
    plan: &ArcEmitPlan,
    vars: &Vec<usize>,
    s: usize,
    state: &mut Vec<i8>,
    pairs: &mut Vec<(usize, usize)>,
    diagnostics: &mut DiagnosticBag,
    errors: &mut u32,
    Ghost(g): Ghost<Setting>,
    Ghost(base): Ghost<Seq<DiagnosticModel>>,
    Ghost(start): Ghost<int>,
    Ghost(search): Ghost<Search>,
    Ghost(credits): Ghost<spec_fn(usize) -> int>,
)
    requires
        shows_state(vars@, old(state)@, credits),
        search.pairs == old(pairs)@,
        g == (Setting { p: program@, sema: *sema, plan: *plan }),
        g.p.has_stmt(LinearStmtId(s)),
        crate::common::sorted::ascending(vars@),
        covers(g, vars@),
        old(state)@.len() == vars@.len(),
        forall|k: int| 0 <= k < vars@.len() ==> -1 <= #[trigger] old(state)@[k],
        forall|k: int|
            0 <= k < vars@.len() ==> g.attains(s, #[trigger] vars@[k], old(state)@[k] as int),
        truthful(g, old(pairs)@),
        told(base, start, old(pairs)@, old(diagnostics)@, *old(errors)),
    ensures
        final(state)@.len() == vars@.len(),
        forall|k: int|
            0 <= k < vars@.len() ==> #[trigger] final(state)@[k] == g.after(
                s,
                vars@[k],
                old(state)@[k] as int,
            ),
        truthful(g, final(pairs)@),
        told(base, start, final(pairs)@, final(diagnostics)@, *final(errors)),
        forall|x: (usize, usize)| #[trigger]
            old(pairs)@.contains(x) ==> final(pairs)@.contains(x),
        noted(g, vars@, final(pairs)@, old(state)@, s),
        final(pairs)@ == search.releases(
            g,
            s,
            credits,
            g.plan.releases(LinearStmtId(s)).len(),
        ).pairs,
{
    let ghost from = state@;
    let id = LinearStmtId::new(s);
    assert(covers_stmt(g, vars@, id));
    let defs = managed_defs_for_stmt(sema, &program.stmts[s].kind);
    assert(g.p.stmt(id) == program.stmts@[s as int].kind@);
    let retains = plan.pre_retain_vars(id);
    assert forall|var: VarId| #[trigger] retains@.contains(var) implies vars@.contains(var.0) by {
        assert(g.plan.retains(id).contains(var));
    }
    credit_all(vars, state, retains);
    let ghost retained = state@;
    assert forall|var: VarId| #[trigger] defs@.contains(var) implies vars@.contains(var.0) by {
        assert(defines(g.p.stmt(id), var));
    }
    credit_all(vars, state, defs.as_slice());
    proof {
        assert forall|k: int| 0 <= k < vars@.len() implies #[trigger] state@[k] == g.gained(
            s,
            vars@[k],
            from[k] as int,
        ) && -1 <= state@[k] by {
            lemma_occurs_once(defs@, VarId(vars@[k]));
            assert(retained[k] == credited(
                from[k] as int,
                crate::passes::arc_insert::occurrences(retains@, VarId(vars@[k])) as int,
            ));
            assert(-1 <= from[k]);
        }
    }
    let releases = plan.post_release_vars(id);
    assert forall|var: VarId| #[trigger] releases@.contains(var) implies vars@.contains(var.0) by {
        assert(g.plan.releases(id).contains(var));
    }
    debit_all(
        vars,
        state,
        s,
        releases,
        pairs,
        diagnostics,
        errors,
        Ghost(g),
        Ghost(from),
        Ghost(base),
        Ghost(start),
        Ghost(search),
        Ghost(credits),
    );
}

// ---------------------------------------------------------------------------
// The whole program
// ---------------------------------------------------------------------------

/// What a function starts with.
fn seed_state(sema: &SemanticTables, vars: &Vec<usize>, params: &Vec<VarId>) -> (state: Vec<i8>)
    ensures
        state@.len() == vars@.len(),
        forall|k: int|
            0 <= k < vars@.len() ==> #[trigger] state@[k] == (if crate::passes::arc_insert::managed(
                *sema,
                VarId(vars@[k]),
            ) && params@.contains(VarId(vars@[k])) {
                1int
            } else {
                0
            }),
{
    let mut state: Vec<i8> = Vec::new();
    let mut k: usize = 0;
    assert(params@.take(params@.len() as int) =~= params@);
    while k < vars.len()
        invariant
            k <= vars@.len(),
            state@.len() == k,
            params@.take(params@.len() as int) == params@,
            forall|j: int|
                0 <= j < k ==> #[trigger] state@[j] == (if crate::passes::arc_insert::managed(
                    *sema,
                    VarId(vars@[j]),
                ) && params@.contains(VarId(vars@[j])) {
                    1int
                } else {
                    0
                }),
        decreases vars@.len() - k,
    {
        let var = VarId(vars[k]);
        let own: i8 = if is_managed(sema, var) && holds(params.as_slice(), params.len(), var) {
            1
        } else {
            0
        };
        state.push(own);
        k += 1;
    }
    state
}

fn start_states(
    program: &LinearProgram,
    sema: &SemanticTables,
    vars: &Vec<usize>,
    Ghost(g): Ghost<Setting>,
) -> (out: (Credits, VecDeque<usize>))
    requires
        g.p == program@,
        g.sema == *sema,
        g.closed(),
        covers_params(g, vars@),
    ensures
        shows(
            vars@,
            out.0@,
            Search::start(g.p).functions(g, g.p.functions.len()).credits,
        ),
        out.1@ == Search::start(g.p).functions(g, g.p.functions.len()).work,
        Search::start(g.p).functions(g, g.p.functions.len()).pairs.len() == 0,
        Search::start(g.p).functions(g, g.p.functions.len()).edges == 0,
        fits(g, vars@, out.0@),
        sound(g, vars@, out.0@),
        seeded(g, vars@, out.0@, g.p.functions.len() as int),
        waiting(g, vars@, out.0@, Seq::empty(), out.1@, None),
{
    let mut states: Credits = Vec::new();
    let mut work: VecDeque<usize> = VecDeque::new();
    while states.len() < program.stmts.len()
        invariant
            states@.len() <= program.stmts@.len(),
            forall|k: int| 0 <= k < states@.len() ==> (#[trigger] states@[k]) is None,
        decreases program.stmts@.len() - states@.len(),
    {
        states.push(None);
    }
    assert(g.p.stmts.len() == program.stmts@.len());
    let ghost mut search = Search::start(g.p);
    let mut f: usize = 0;
    while f < program.functions.len()
        invariant
            f <= program.functions@.len(),
            g.p == program@,
            g.sema == *sema,
            g.closed(),
            covers_params(g, vars@),
            search == Search::start(g.p).functions(g, f as nat),
            shows(vars@, states@, search.credits),
            search.work == work@,
            search.pairs.len() == 0,
            search.edges == 0,
            fits(g, vars@, states@),
            sound(g, vars@, states@),
            seeded(g, vars@, states@, f as int),
            forall|s: usize|
                s < states@.len() && (#[trigger] states@[s as int]) is Some <==> work@.contains(s),
        decreases program.functions@.len() - f,
    {
        let function = &program.functions[f];
        assert(function@ == g.p.functions[f as int]);
        let ghost st = states@;
        let ghost wk = work@;
        let body = function.body.0;
        let seed = seed_state(sema, vars, &function.params);
        let changed = merge_in_state(&mut states, body, &seed);
        proof {
            let credits = |var: usize| g.seed(f as int, var);
            assert(shows_state(vars@, seed@, credits)) by {
                assert forall|k: int| 0 <= k < vars@.len() implies credits(#[trigger] vars@[k])
                    == seed@[k] by {
                    assert(seed@[k] == g.seed(f as int, vars@[k]));
                }
                assert forall|var: usize| !vars@.contains(var) implies #[trigger] credits(var)
                    == 0 by {
                    assert(g.p.functions[f as int].params.contains(VarId(var))
                        ==> !crate::passes::arc_insert::managed(g.sema, VarId(var)));
                }
            }
            lemma_merged(vars@, st, states@, search, body, seed@, credits, changed);
            search = search.hand(body, credits);
        }
        proof {
            assert forall|s: int, k: int|
                0 <= s < states@.len() && states@[s] is Some && 0 <= k
                    < vars@.len() implies g.attains(
                s as usize,
                vars@[k],
                #[trigger] held(states@, s, k),
            ) by {
                if s == body {
                    lemma_attains_start(g, f as int, vars@[k]);
                    assert(seed@[k] == g.seed(f as int, vars@[k]));
                    if st[s] is Some {
                        assert(g.attains(s as usize, vars@[k], held(st, s, k)));
                    }
                } else {
                    assert(states@[s] == st[s]);
                    assert(g.attains(s as usize, vars@[k], held(st, s, k)));
                }
            }
            assert forall|s: int|
                0 <= s < states@.len() && (#[trigger] states@[s]) is Some implies {
                &&& (states@[s]->0)@.len() == vars@.len()
                &&& forall|k: int| 0 <= k < vars@.len() ==> -1 <= #[trigger] (states@[s]->0)@[k]
            } by {
                if s == body {
                    assert forall|k: int| 0 <= k < vars@.len() implies -1
                        <= #[trigger] (states@[s]->0)@[k] by {
                        assert(held(states@, s, k) == (states@[s]->0)@[k]);
                        assert(seed@[k] >= 0);
                        if st[s] is Some {
                            assert(-1 <= (st[s]->0)@[k]);
                        }
                    }
                } else {
                    assert(states@[s] == st[s]);
                }
            }
            assert forall|j: int| 0 <= j < f + 1 implies states@[(
            #[trigger] g.p.functions[j]).body.0 as int] is Some by {
                let b = g.p.functions[j].body.0 as int;
                if b != body {
                    assert(st[b] is Some);
                    assert(g.p.has_stmt(g.p.functions[j].body));
                    assert(states@[b] == st[b]);
                }
            }
            assert forall|j: int, k: int|
                0 <= j < f + 1 && 0 <= k < vars@.len() implies #[trigger] held(
                states@,
                g.p.functions[j].body.0 as int,
                k,
            ) <= g.seed(j, vars@[k]) by {
                let b = g.p.functions[j].body.0 as int;
                assert(g.p.has_stmt(g.p.functions[j].body));
                if j < f {
                    assert(held(st, b, k) <= g.seed(j, vars@[k]));
                    if b != body {
                        assert(states@[b] == st[b]);
                    }
                } else {
                    assert(seed@[k] == g.seed(f as int, vars@[k]));
                }
            }
        }
        if changed {
            work.push_back(body);
            proof {
                crate::common::reach::lemma_pushed(wk, body);
            }
        }
        proof {
            assert forall|s: usize|
                s < states@.len() && (#[trigger] states@[s as int]) is Some <==> work@.contains(
                    s,
                ) by {
                if s < st.len() {
                    assert(s < st.len() && st[s as int] is Some <==> wk.contains(s));
                    if s != body {
                        assert(states@[s as int] == st[s as int]);
                    }
                } else {
                    assert(!wk.contains(s)) by {
                        if wk.contains(s) {
                            assert(s < st.len() && st[s as int] is Some);
                        }
                    }
                }
            }
        }
        f += 1;
    }
    (states, work)
}

/// A state that only lower credits have come into still settles what it settled.
proof fn lemma_settled_lower(
    g: Setting,
    vars: Seq<usize>,
    before: Seq<Option<Vec<i8>>>,
    after: Seq<Option<Vec<i8>>>,
    from: Seq<i8>,
    s: usize,
    t: usize,
)
    requires
        settled(g, vars, before, from, s, t),
        after[t as int] is Some,
        forall|k: int|
            0 <= k < vars.len() ==> #[trigger] held(after, t as int, k) <= held(
                before,
                t as int,
                k,
            ),
    ensures
        settled(g, vars, after, from, s, t),
{
    assert forall|k: int| 0 <= k < vars.len() implies #[trigger] held(after, t as int, k)
        <= g.after(s, vars[k], from[k] as int) by {
        assert(held(before, t as int, k) <= g.after(s, vars[k], from[k] as int));
    }
}

proof fn lemma_seeded_lower(
    g: Setting,
    vars: Seq<usize>,
    before: Seq<Option<Vec<i8>>>,
    after: Seq<Option<Vec<i8>>>,
)
    requires
        g.closed(),
        before.len() == g.p.stmts.len(),
        seeded(g, vars, before, g.p.functions.len() as int),
        forall|x: int, k: int|
            0 <= x < before.len() && before[x] is Some && 0 <= k < vars.len() ==> #[trigger] held(
                after,
                x,
                k,
            ) <= held(before, x, k),
        forall|x: int|
            0 <= x < before.len() && before[x] is Some ==> (#[trigger] after[x]) is Some,
    ensures
        seeded(g, vars, after, g.p.functions.len() as int),
{
    let n = g.p.functions.len() as int;
    assert forall|f: int| 0 <= f < n implies after[(
    #[trigger] g.p.functions[f]).body.0 as int] is Some by {
        assert(g.p.has_stmt(g.p.functions[f].body));
        assert(before[g.p.functions[f].body.0 as int] is Some);
    }
    assert forall|f: int, k: int| 0 <= f < n && 0 <= k < vars.len() implies #[trigger] held(
        after,
        g.p.functions[f].body.0 as int,
        k,
    ) <= g.seed(f, vars[k]) by {
        let b = g.p.functions[f].body.0 as int;
        assert(g.p.has_stmt(g.p.functions[f].body));
        assert(before[b] is Some);
        assert(held(before, b, k) <= g.seed(f, vars[k]));
        assert(held(after, b, k) <= held(before, b, k));
    }
}

/// Hands the credits that a statement leaves to one of its parts.
fn flow_to(
    vars: &Vec<usize>,
    states: &mut Credits,
    work: &mut VecDeque<usize>,
    s: usize,
    t: usize,
    after: &Vec<i8>,
    Ghost(g): Ghost<Setting>,
    Ghost(from): Ghost<Seq<i8>>,
    Ghost(pairs): Ghost<Seq<(usize, usize)>>,
    Ghost(search): Ghost<Search>,
    Ghost(credits): Ghost<spec_fn(usize) -> int>,
)
    requires
        shows(vars@, old(states)@, search.credits),
        search.work == old(work)@,
        shows_state(vars@, from, credits),
        covers(g, vars@),
        g.closed(),
        g.edge()(s, t),
        fits(g, vars@, old(states)@),
        sound(g, vars@, old(states)@),
        seeded(g, vars@, old(states)@, g.p.functions.len() as int),
        waiting(g, vars@, old(states)@, pairs, old(work)@, Some(s)),
        after@.len() == vars@.len(),
        from.len() == vars@.len(),
        forall|k: int|
            0 <= k < vars@.len() ==> #[trigger] after@[k] == g.after(s, vars@[k], from[k] as int),
        forall|k: int|
            0 <= k < vars@.len() ==> g.attains(s, #[trigger] vars@[k], from[k] as int),
    ensures
        fits(g, vars@, final(states)@),
        sound(g, vars@, final(states)@),
        seeded(g, vars@, final(states)@, g.p.functions.len() as int),
        waiting(g, vars@, final(states)@, pairs, final(work)@, Some(s)),
        settled(g, vars@, final(states)@, from, s, t),
        forall|x: usize|
            settled(g, vars@, old(states)@, from, s, x) && x < old(states)@.len()
                ==> #[trigger] settled(g, vars@, final(states)@, from, s, x),
        forall|x: int|
            0 <= x < old(states)@.len() && old(states)@[x] is Some ==> (
            #[trigger] final(states)@[x]) is Some,
        (final(states)@ == old(states)@ && final(work)@ == old(work)@) || smaller(
            final(states)@,
            old(states)@,
        ),
        final(states)@[s as int] == old(states)@[s as int] || final(work)@.contains(s),
        forall|x: usize| #[trigger] old(work)@.contains(x) ==> final(work)@.contains(x),
        shows(
            vars@,
            final(states)@,
            search.hand(t, |var: usize| g.after(s, var, credits(var))).credits,
        ),
        final(work)@ == search.hand(t, |var: usize| g.after(s, var, credits(var))).work,
        search.hand(t, |var: usize| g.after(s, var, credits(var))).pairs == search.pairs,
        search.hand(t, |var: usize| g.after(s, var, credits(var))).edges == search.edges,
{
    let ghost st = states@;
    let ghost wk = work@;
    assert(g.p.has_stmt(LinearStmtId(t))) by {
        assert(g.p.stmt(LinearStmtId(s)).has_part(LinearStmtId(t)));
    }
    let changed = merge_in_state(states, t, after);
    proof {
        let left = |var: usize| g.after(s, var, credits(var));
        assert(shows_state(vars@, after@, left)) by {
            assert forall|k: int| 0 <= k < vars@.len() implies left(#[trigger] vars@[k])
                == after@[k] by {
                assert(credits(vars@[k]) == from[k]);
                assert(after@[k] == g.after(s, vars@[k], from[k] as int));
            }
            assert forall|var: usize| !vars@.contains(var) implies #[trigger] left(var) == 0 by {
                assert(credits(var) == 0);
                lemma_not_at_hand(g, vars@, s, var);
            }
        }
        lemma_merged(vars@, st, states@, search, t, after@, left, changed);
    }
    if changed {
        work.push_back(t);
        proof {
            crate::common::reach::lemma_pushed(wk, t);
        }
    }
    proof {
        assert forall|x: int, k: int|
            0 <= x < states@.len() && states@[x] is Some && 0 <= k < vars@.len() implies g.attains(
            x as usize,
            vars@[k],
            #[trigger] held(states@, x, k),
        ) by {
            if x == t {
                assert(after@[k] == g.after(s, vars@[k], from[k] as int));
                lemma_attains_step(g, s, t, vars@[k], from[k] as int);
                if st[x] is Some {
                    assert(g.attains(x as usize, vars@[k], held(st, x, k)));
                }
            } else {
                assert(states@[x] == st[x]);
                assert(g.attains(x as usize, vars@[k], held(st, x, k)));
            }
        }
        assert forall|x: int| 0 <= x < states@.len() && (#[trigger] states@[x]) is Some implies {
            &&& (states@[x]->0)@.len() == vars@.len()
            &&& forall|k: int| 0 <= k < vars@.len() ==> -1 <= #[trigger] (states@[x]->0)@[k]
        } by {
            if x == t {
                assert forall|k: int| 0 <= k < vars@.len() implies -1
                    <= #[trigger] (states@[x]->0)@[k] by {
                    assert(held(states@, x, k) == (states@[x]->0)@[k]);
                    assert(after@[k] == g.after(s, vars@[k], from[k] as int));
                    if st[x] is Some {
                        assert(-1 <= (st[x]->0)@[k]);
                    }
                }
            } else {
                assert(states@[x] == st[x]);
            }
        }
        assert forall|x: int, k: int|
            0 <= x < st.len() && st[x] is Some && 0 <= k < vars@.len() implies #[trigger] held(
            states@,
            x,
            k,
        ) <= held(st, x, k) by {
            if x != t {
                assert(states@[x] == st[x]);
            }
        }
        assert forall|x: int| 0 <= x < st.len() && st[x] is Some implies (
        #[trigger] states@[x]) is Some by {
            if x != t {
                assert(states@[x] == st[x]);
            }
        }
        lemma_seeded_lower(g, vars@, st, states@);
        assert(settled(g, vars@, states@, from, s, t)) by {
            assert forall|k: int| 0 <= k < vars@.len() implies #[trigger] held(
                states@,
                t as int,
                k,
            ) <= g.after(s, vars@[k], from[k] as int) by {
                assert(after@[k] == g.after(s, vars@[k], from[k] as int));
            }
        }
        assert forall|x: usize|
            settled(g, vars@, st, from, s, x) && x < st.len() implies #[trigger] settled(
            g,
            vars@,
            states@,
            from,
            s,
            x,
        ) by {
            lemma_settled_lower(g, vars@, st, states@, from, s, x);
        }
        assert forall|a: usize, b: usize| #[trigger]
            g.edge()(a, b) && states@[a as int] is Some && !work@.contains(a) && Some(s) != Some(
                a,
            ) implies settled(g, vars@, states@, (states@[a as int]->0)@, a, b) by {
            assert(g.p.stmt(LinearStmtId(a)).has_part(LinearStmtId(b)));
            assert(g.p.has_stmt(LinearStmtId(b)));
            if a == t && changed {
                assert(work@.contains(a));
            } else {
                assert(states@[a as int] == st[a as int]);
                assert(!wk.contains(a));
                assert(settled(g, vars@, st, (st[a as int]->0)@, a, b));
                lemma_settled_lower(g, vars@, st, states@, (st[a as int]->0)@, a, b);
            }
        }
        assert forall|a: usize|
            #![trigger states@[a as int]]
            a < states@.len() && states@[a as int] is Some && !work@.contains(a) && Some(s)
                != Some(a) implies noted(g, vars@, pairs, (states@[a as int]->0)@, a) by {
            if a == t && changed {
                assert(work@.contains(a));
            } else {
                assert(states@[a as int] == st[a as int]);
                assert(!wk.contains(a));
                assert(noted(g, vars@, pairs, (st[a as int]->0)@, a));
            }
        }
        assert forall|a: usize| #[trigger] work@.contains(a) implies a < states@.len()
            && states@[a as int] is Some by {
            if a != t {
                assert(wk.contains(a));
                assert(states@[a as int] == st[a as int]);
            }
        }
    }
}

proof fn lemma_taken(before: Seq<usize>, after: Seq<usize>)
    requires
        before.len() > 0,
        after == before.subrange(1, before.len() as int),
    ensures
        before.contains(before[0]),
        forall|x: usize| #[trigger] before.contains(x) ==> after.contains(x) || x == before[0],
        forall|x: usize| #[trigger] after.contains(x) ==> before.contains(x),
{
    assert forall|x: usize| #[trigger] before.contains(x) implies after.contains(x) || x
        == before[0] by {
        let k = choose|k: int| 0 <= k < before.len() && before[k] == x;
        if k > 0 {
            assert(after[k - 1] == x);
        }
    }
    assert forall|x: usize| #[trigger] after.contains(x) implies before.contains(x) by {
        let k = choose|k: int| 0 <= k < after.len() && after[k] == x;
        assert(before[k + 1] == x);
    }
}

/// In the end the states bound what is carried on every path.
proof fn lemma_bounds_path(
    g: Setting,
    vars: Seq<usize>,
    states: Seq<Option<Vec<i8>>>,
    pairs: Seq<(usize, usize)>,
    f: int,
    s: usize,
    path: Seq<usize>,
    i: int,
    k: int,
)
    requires
        g.closed(),
        fits(g, vars, states),
        seeded(g, vars, states, g.p.functions.len() as int),
        waiting(g, vars, states, pairs, Seq::empty(), None),
        g.way(f, s, path),
        0 <= i < path.len(),
        0 <= k < vars.len(),
    ensures
        g.p.has_stmt(LinearStmtId(path[i])),
        states[path[i] as int] is Some,
        held(states, path[i] as int, k) <= g.carried(f, path, i, vars[k]),
    decreases i,
{
    if i == 0 {
        assert(g.p.has_stmt(g.p.functions[f].body));
        assert(held(states, g.p.functions[f].body.0 as int, k) <= g.seed(f, vars[k]));
    } else {
        lemma_bounds_path(g, vars, states, pairs, f, s, path, i - 1, k);
        let a = path[i - 1];
        let b = path[i - 1 + 1];
        assert(g.edge()(a, b));
        assert(g.p.stmt(LinearStmtId(a)).has_part(LinearStmtId(b)));
        assert(!Seq::<usize>::empty().contains(a));
        assert(settled(g, vars, states, (states[a as int]->0)@, a, b));
        assert(held(states, b as int, k) <= g.after(a, vars[k], held(states, a as int, k)));
        assert(g.after(a, vars[k], held(states, a as int, k)) <= g.after(
            a,
            vars[k],
            g.carried(f, path, i - 1, vars[k]),
        ));
    }
}

/// What has been noted in the end.
pub open spec fn all_underflows(
    p: LinearModel,
    sema: SemanticTables,
    plan: ArcEmitPlan,
    pairs: Seq<(usize, usize)>,
) -> bool {
    &&& pairs.no_duplicates()
    &&& forall|s: usize, var: usize| #[trigger]
        pairs.contains((s, var)) <==> (Setting { p, sema, plan }).underflows(s, var)
}

/// The search has come to its end: what it has noted, in order, and how many edges
/// it has walked, up to what a counter holds.
pub open spec fn searched(
    p: LinearModel,
    sema: SemanticTables,
    plan: ArcEmitPlan,
    pairs: Seq<(usize, usize)>,
    before: int,
    edges: u32,
) -> bool {
    exists|turns: nat|
        {
            let end = #[trigger] (Setting { p, sema, plan }).search(turns);
            &&& end.work.len() == 0
            &&& pairs == end.pairs
            &&& edges == crate::passes::arc_opt::capped(before + end.edges)
        }
}

#[verifier::rlimit(60)]
#[verifier::spinoff_prover]
fn verify_state_transitions(
    program: &LinearProgram,
    sema: &SemanticTables,
    plan: &ArcEmitPlan,
    diagnostics: &mut DiagnosticBag,
    errors: &mut u32,
    edges: &mut u32,
) -> (pairs: Vec<(usize, usize)>)
    requires
        (Setting { p: program@, sema: *sema, plan: *plan }).closed(),
    ensures
        all_underflows(program@, *sema, *plan, pairs@),
        final(diagnostics)@ == old(diagnostics)@ + underflow_reports(pairs@),
        *final(errors) == crate::passes::arc_opt::capped(*old(errors) + pairs@.len()),
        searched(program@, *sema, *plan, pairs@, *old(edges) as int, *final(edges)),
{
    let ghost g = Setting { p: program@, sema: *sema, plan: *plan };
    let ghost base = diagnostics@;
    let ghost start = *errors as int;
    let mut pairs: Vec<(usize, usize)> = Vec::new();
    let vars = collect_vars(program, sema, plan);
    let (mut states, mut work) = start_states(program, sema, &vars, Ghost(g));
    assert(diagnostics@ =~= base + underflow_reports(pairs@));
    assert(pairs@ =~= Seq::empty());
    let ghost walked = *edges as int;
    let ghost mut turns: nat = 0;
    assert(g.search(0).pairs =~= pairs@);
    while work.len() > 0
        invariant
            g == (Setting { p: program@, sema: *sema, plan: *plan }),
            shows(vars@, states@, g.search(turns).credits),
            g.search(turns).work == work@,
            g.search(turns).pairs == pairs@,
            *edges == crate::passes::arc_opt::capped(walked + g.search(turns).edges),
            g.closed(),
            crate::common::sorted::ascending(vars@),
            covers(g, vars@),
            fits(g, vars@, states@),
            sound(g, vars@, states@),
            seeded(g, vars@, states@, g.p.functions.len() as int),
            waiting(g, vars@, states@, pairs@, work@, None),
            truthful(g, pairs@),
            told(base, start, pairs@, diagnostics@, *errors),
        decreases
                blanks(states@, states@.len() as int),
                total(states@, states@.len() as int),
                work@.len(),
    {
        let ghost st = states@;
        let ghost wk = work@;
        let ghost whole = g.search(turns);
        proof {
            lemma_measure_nonneg(st, g, vars@, st.len() as int);
        }
        let s: usize = match work.pop_front() {
            Some(s) => s,
            None => 0,
        };
        let ghost wk1 = work@;
        proof {
            lemma_taken(wk, wk1);
            assert(s < states@.len() && states@[s as int] is Some);
        }
        let mut state: Vec<i8> = Vec::new();
        if let Some(own) = &states[s] {
            state = own.clone();
            assert(state@ =~= own@);
        }
        let ghost from = state@;
        proof {
            assert(from == (st[s as int]->0)@);
            assert forall|k: int| 0 <= k < vars@.len() implies g.attains(
                s,
                #[trigger] vars@[k],
                from[k] as int,
            ) by {
                assert(g.attains(s, vars@[k], held(st, s as int, k)));
            }
        }
        let ghost pairs0 = pairs@;
        let ghost credits = whole.credits[s as int]->0;
        let ghost taken = Search { work: wk1, ..whole };
        let ghost noticed = taken.releases(
            g,
            s,
            credits,
            g.plan.releases(LinearStmtId(s)).len(),
        );
        proof {
            assert(wk1 == wk.subrange(1, wk.len() as int));
            assert(shows_state(vars@, from, credits)) by {
                assert forall|k: int| 0 <= k < vars@.len() implies credits(#[trigger] vars@[k])
                    == from[k] by {
                    assert(credit_at(whole.credits, s as int, vars@[k]) == held(st, s as int, k));
                }
                assert forall|var: usize| !vars@.contains(var) implies #[trigger] credits(var)
                    == 0 by {
                    assert(credit_at(whole.credits, s as int, var) == 0);
                }
            }
            lemma_releases_keep(
                taken,
                g,
                s,
                credits,
                g.plan.releases(LinearStmtId(s)).len(),
            );
        }
        step(
            program,
            sema,
            plan,
            &vars,
            s,
            &mut state,
            &mut pairs,
            diagnostics,
            errors,
            Ghost(g),
            Ghost(base),
            Ghost(start),
            Ghost(taken),
            Ghost(credits),
        );
        let parts = program.stmts[s].kind.child_stmts();
        proof {
            assert(g.p.stmt(LinearStmtId(s)) == program.stmts@[s as int].kind@);
            assert forall|a: usize|
                #![trigger states@[a as int]]
                a < states@.len() && states@[a as int] is Some && !work@.contains(a) && Some(s)
                    != Some(a) implies noted(g, vars@, pairs@, (states@[a as int]->0)@, a) by {
                assert(!wk.contains(a));
                assert(noted(g, vars@, pairs0, (st[a as int]->0)@, a));
            }
            assert forall|a: usize, b: usize| #[trigger]
                g.edge()(a, b) && states@[a as int] is Some && !work@.contains(a) && Some(s)
                    != Some(a) implies settled(
                g,
                vars@,
                states@,
                (states@[a as int]->0)@,
                a,
                b,
            ) by {
                assert(!wk.contains(a));
            }
            assert(waiting(g, vars@, states@, pairs@, work@, Some(s)));
        }
        let mut i: usize = 0;
        while i < parts.len()
            invariant
                i <= parts@.len(),
                g == (Setting { p: program@, sema: *sema, plan: *plan }),
                covers(g, vars@),
                parts@ == g.p.stmt(LinearStmtId(s)).parts(),
                shows_state(vars@, from, credits),
                shows(vars@, states@, noticed.parts(g, s, credits, i as nat).credits),
                noticed.parts(g, s, credits, i as nat).work == work@,
                noticed.parts(g, s, credits, i as nat).pairs == pairs@,
                *edges == crate::passes::arc_opt::capped(
                    walked + noticed.parts(g, s, credits, i as nat).edges,
                ),
                g.closed(),
                g.p.has_stmt(LinearStmtId(s)),
                forall|part: LinearStmtId| #[trigger]
                    parts@.contains(part) <==> g.p.stmt(LinearStmtId(s)).has_part(part),
                fits(g, vars@, states@),
                sound(g, vars@, states@),
                seeded(g, vars@, states@, g.p.functions.len() as int),
                waiting(g, vars@, states@, pairs@, work@, Some(s)),
                noted(g, vars@, pairs@, from, s),
                from == (st[s as int]->0)@,
                st[s as int] is Some,
                state@.len() == vars@.len(),
                from.len() == vars@.len(),
                states@.len() == st.len(),
                forall|k: int|
                    0 <= k < vars@.len() ==> #[trigger] state@[k] == g.after(
                        s,
                        vars@[k],
                        from[k] as int,
                    ),
                forall|k: int|
                    0 <= k < vars@.len() ==> g.attains(s, #[trigger] vars@[k], from[k] as int),
                forall|j: int|
                    0 <= j < i ==> settled(g, vars@, states@, from, s, (#[trigger] parts@[j]).0),
                states@[s as int] == st[s as int] || work@.contains(s),
                (states@ == st && work@ == wk1) || smaller(states@, st),
            decreases parts@.len() - i,
        {
            let t = parts[i].0;
            let ghost mid = states@;
            proof {
                assert(parts@.contains(parts@[i as int]));
                assert(parts@[i as int] == LinearStmtId(t));
                assert(g.edge()(s, t));
            }
            *edges = (*edges).saturating_add(1);
            let ghost here = noticed.parts(g, s, credits, i as nat);
            let ghost here = Search { edges: here.edges + 1, ..here };
            flow_to(
                &vars,
                &mut states,
                &mut work,
                s,
                t,
                &state,
                Ghost(g),
                Ghost(from),
                Ghost(pairs@),
                Ghost(here),
                Ghost(credits),
            );
            assert(noticed.parts(g, s, credits, (i + 1) as nat) == here.hand(
                t,
                |var: usize| g.after(s, var, credits(var)),
            ));
            proof {
                assert forall|j: int| 0 <= j < i + 1 implies settled(
                    g,
                    vars@,
                    states@,
                    from,
                    s,
                    (#[trigger] parts@[j]).0,
                ) by {
                    if j < i {
                        assert(parts@.contains(parts@[j]));
                        assert(g.p.stmt(LinearStmtId(s)).has_part(parts@[j]));
                        assert(g.p.has_stmt(parts@[j]));
                        assert(settled(g, vars@, mid, from, s, parts@[j].0));
                    }
                }
            }
            i += 1;
        }
        proof {
            assert(g.search(turns + 1) == whole.turn(g));
            turns = turns + 1;
            lemma_measure_nonneg(states@, g, vars@, states@.len() as int);
            assert forall|a: usize, b: usize| #[trigger]
                g.edge()(a, b) && states@[a as int] is Some && !work@.contains(
                    a,
                ) implies settled(g, vars@, states@, (states@[a as int]->0)@, a, b) by {
                if a == s {
                    assert(states@[s as int] == st[s as int]);
                    assert(g.p.stmt(LinearStmtId(s)).has_part(LinearStmtId(b)));
                    assert(parts@.contains(LinearStmtId(b)));
                    let j = choose|j: int| 0 <= j < parts@.len() && parts@[j] == LinearStmtId(b);
                    assert(settled(g, vars@, states@, from, s, parts@[j].0));
                }
            }
            assert forall|a: usize|
                #![trigger states@[a as int]]
                a < states@.len() && states@[a as int] is Some && !work@.contains(
                    a,
                ) implies noted(g, vars@, pairs@, (states@[a as int]->0)@, a) by {}
        }
    }
    proof {
        assert(work@ =~= Seq::empty());
        assert(g.search(turns).work.len() == 0);
        assert(searched(program@, *sema, *plan, pairs@, walked, *edges));
        assert forall|s: usize, var: usize| #[trigger]
            pairs@.contains((s, var)) <==> g.underflows(s, var) by {
            if g.underflows(s, var) {
                let (f, path) = choose|f: int, path: Seq<usize>| #[trigger]
                    g.way(f, s, path) && g.short(
                        s,
                        var,
                        g.carried(f, path, path.len() - 1, var),
                    );
                lemma_occurs(g.plan.releases(LinearStmtId(s)), VarId(var));
                lemma_way_inside(g, f, s, path, path.len() - 1);
                assert(covers_stmt(g, vars@, LinearStmtId(s)));
                assert(g.plan.releases(LinearStmtId(s)).contains(VarId(var)));
                assert(vars@.contains(var));
                let k = choose|k: int| 0 <= k < vars@.len() && vars@[k] == var;
                lemma_bounds_path(g, vars@, states@, pairs@, f, s, path, path.len() - 1, k);
                assert(g.short(s, vars@[k], held(states@, s as int, k)));
                assert(noted(g, vars@, pairs@, (states@[s as int]->0)@, s));
            }
        }
    }
    pairs
}

proof fn lemma_way_inside(g: Setting, f: int, s: usize, path: Seq<usize>, i: int)
    requires
        g.closed(),
        g.way(f, s, path),
        0 <= i < path.len(),
    ensures
        g.p.has_stmt(LinearStmtId(path[i])),
    decreases i,
{
    if i == 0 {
        assert(g.p.has_stmt(g.p.functions[f].body));
    } else {
        assert(g.edge()(path[i - 1], path[i - 1 + 1]));
        assert(g.p.stmt(LinearStmtId(path[i - 1])).has_part(LinearStmtId(path[i])));
    }
}

/// Checks a plan. Each statement is looked at on its own, in order; then all
/// paths are followed, first come first served, and each release that some path
/// has no credit for is reported once, as it is come to.
pub fn verify(
    program: &LinearProgram,
    sema: &SemanticTables,
    plan: &ArcEmitPlan,
    diagnostics: &mut DiagnosticBag,
) -> (stats: ArcVerifyStats)
    requires
        (Setting { p: program@, sema: *sema, plan: *plan }).closed(),
    ensures
        exists|pairs: Seq<(usize, usize)>| #[trigger]
            all_underflows(program@, *sema, *plan, pairs) && searched(
                program@,
                *sema,
                *plan,
                pairs,
                0,
                stats.state_edges_checked,
            ) && final(diagnostics)@ == old(diagnostics)@ + site_reports(*sema, *plan, program@.stmts.len() as int) + underflow_reports(pairs)
                && stats.errors == crate::passes::arc_opt::capped(
                (site_reports(*sema, *plan, program@.stmts.len() as int).len() + pairs.len()) as int,
            ),
        stats.checked_stmts == crate::passes::arc_opt::capped(program@.stmts.len() as int),
        stats.checked_retain_ops == crate::passes::arc_emit::tally(
            plan.pre_retain_by_stmt@,
            program@.stmts.len(),
        ),
        stats.checked_release_ops == crate::passes::arc_emit::tally(
            plan.post_release_by_stmt@,
            program@.stmts.len(),
        ),
{
    let ghost before = diagnostics@;
    let mut stats = ArcVerifyStats::default();
    let mut i: usize = 0;
    assert(diagnostics@ =~= before + site_reports(*sema, *plan, 0));
    while i < program.stmts.len()
        invariant
            i <= program.stmts@.len(),
            diagnostics@ == before + site_reports(*sema, *plan, i as int),
            stats.errors == crate::passes::arc_opt::capped(
                site_reports(*sema, *plan, i as int).len() as int,
            ),
            stats.checked_stmts == crate::passes::arc_opt::capped(i as int),
            stats.checked_retain_ops == crate::passes::arc_emit::tally(
                plan.pre_retain_by_stmt@,
                i as nat,
            ),
            stats.checked_release_ops == crate::passes::arc_emit::tally(
                plan.post_release_by_stmt@,
                i as nat,
            ),
            stats.state_edges_checked == 0,
        decreases program.stmts@.len() - i,
    {
        let id = LinearStmtId::new(i);
        stats.checked_stmts = stats.checked_stmts.saturating_add(1);
        verify_stmt(sema, plan, id, diagnostics, &mut stats.errors);
        assert(diagnostics@ =~= before + site_reports(*sema, *plan, i as int + 1));
        stats.checked_retain_ops = stats.checked_retain_ops.saturating_add(
            plan.pre_retain_vars(id).len() as u32,
        );
        stats.checked_release_ops = stats.checked_release_ops.saturating_add(
            plan.post_release_vars(id).len() as u32,
        );
        i += 1;
    }
    let ghost sites = diagnostics@;
    let pairs = verify_state_transitions(
        program,
        sema,
        plan,
        diagnostics,
        &mut stats.errors,
        &mut stats.state_edges_checked,
    );
    assert(diagnostics@ == before + site_reports(*sema, *plan, program@.stmts.len() as int)
        + underflow_reports(pairs@));
    assert(all_underflows(program@, *sema, *plan, pairs@));
    stats
}

/// A list in order repeats nothing, so nothing in it is reported as a duplicate.
pub proof fn lemma_in_order_no_repeat(vars: Seq<VarId>, i: int)
    requires
        crate::passes::arc_emit::in_order(vars),
        0 <= i < vars.len(),
    ensures
        !vars.take(i).contains(vars[i]),
{
    if vars.take(i).contains(vars[i]) {
        let j = choose|j: int| 0 <= j < i && vars.take(i)[j] == vars[i];
        assert(vars[j].0 < vars[i].0);
    }
}

/// What is never released is never short.
pub proof fn lemma_no_release_no_underflow(
    p: LinearModel,
    sema: SemanticTables,
    plan: ArcEmitPlan,
    s: usize,
    var: usize,
)
    requires
        !plan.releases(LinearStmtId(s)).contains(VarId(var)),
    ensures
        !(Setting { p, sema, plan }).underflows(s, var),
{
    lemma_occurs(plan.releases(LinearStmtId(s)), VarId(var));
}

} // verus!
