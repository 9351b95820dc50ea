//! What must hold of the tables where the stages of evaluation at compile time
//! hand them on, and what is wrong where it does not.
use crate::common::densemap::DenseMap;
use crate::common::ids::{FuncId, VarId};
use crate::ir::core_ir::Literal;
use crate::pipeline::phases::{
    ArcResidualOp, ArcResidualOpKind, BorrowHazardKind, BorrowHotspot, BranchDecision,
    BtaClassified, ClauseDischarge, ConstantEntry, HandlerDischarge, Reason, Residualized, Stage,
};
use crate::pipeline::tables::is_same_constant;
use vstd::prelude::*;

verus! {

/// What is wrong with the tables.
#[derive(Clone, Copy, PartialEq, Eq, Debug, Structural)]
pub enum Fault {
    StageTableSize,
    KnownnessTableSize,
    TypeTableSize,
    ExprEffectTableSize,
    ExprOwnershipTableSize,
    StmtEffectTableSize,
    CtCacheKey,
    BranchDecisionKey,
    StageKey,
    KnownnessKey,
    DecisionWithoutLiteral,
    InconsistentDecision,
    HandlerTableSize,
    HandlerKey,
    ClauseKey,
    MissingClauses,
    ClauseArity,
    DeclaredEffects,
    MonoSource,
    MonoInstance,
    ExprReason,
    VarReason,
    HandlerReason,
    ClauseReason,
    SummaryKey,
    DuplicateConstant,
    ConstantEntryCap,
    ConstantUnitCap,
    ConstantAccounting,
    RetainCount,
    ReleaseCount,
    RetainAccounting,
    ReleaseAccounting,
    ArcPlanOrder,
    ArcPlanStmt,
    RetainPlanCount,
    ReleasePlanCount,
    OrcRootCount,
    OrcLinkCount,
    OrcLinkOrder,
    AliasFanoutCount,
    ProjectionCount,
    CallEscapeCount,
    HotspotInventory,
    HotspotOrder,
}

/// The first thing that is wrong, with the position or the identifier at which
/// it was found.
#[derive(Clone, Copy, PartialEq, Eq, Debug, Structural)]
pub struct InvariantViolation {
    pub fault: Fault,
    pub at: usize,
}

/// That a fault was found as such.
pub open spec fn says(r: Option<InvariantViolation>, fault: Fault) -> bool {
    r == Some(InvariantViolation { fault, at: 0 })
}

/// That a fault was found somewhere.
pub open spec fn finds(r: Option<InvariantViolation>, fault: Fault) -> bool {
    r is Some && r->0.fault == fault
}

fn fault(kind: Fault) -> (r: Option<InvariantViolation>)
    ensures
        says(r, kind),
{
    Some(InvariantViolation { fault: kind, at: 0 })
}

fn fault_at(kind: Fault, at: usize) -> (r: Option<InvariantViolation>)
    ensures
        finds(r, kind),
        r->0.at == at,
{
    Some(InvariantViolation { fault: kind, at })
}

// ---------------------------------------------------------------------------
// Tables
// ---------------------------------------------------------------------------

/// Every key of a table is below a bound.
pub open spec fn keys_below<V>(m: Map<usize, V>, bound: int) -> bool {
    forall|k: usize| #[trigger] m.contains_key(k) ==> k < bound
}

/// The first key of a table that is not below a bound.
pub open spec fn first_key<V>(m: Map<usize, V>, bound: int, at: usize) -> bool {
    &&& m.contains_key(at)
    &&& at >= bound
    &&& forall|k: usize| #[trigger] m.contains_key(k) && k < at ==> k < bound
}

fn find_key<V>(m: &DenseMap<V>, bound: usize) -> (found: Option<usize>)
    ensures
        match found {
            Some(at) => first_key(m@, bound as int, at) && !keys_below(m@, bound as int),
            None => keys_below(m@, bound as int),
        },
{
    let n = m.bound();
    let mut i: usize = bound;
    while i < n
        invariant
            bound <= i,
            n == m.slots@.len(),
            forall|k: usize| #[trigger] m@.contains_key(k) && k < i ==> k < bound,
        decreases n - i,
    {
        if m.contains_key(i) {
            return Some(i);
        }
        i += 1;
    }
    None
}

/// The function that a reason names is below a bound.
pub open spec fn reason_in_bounds(reason: Reason, count: int) -> bool {
    match reason {
        Reason::Parameter { func, .. } => func.0 < count,
        Reason::CtOnlyWithRuntimeArgs(func) => func.0 < count,
        _ => true,
    }
}

/// The function that a reason names.
pub open spec fn reason_names(reason: Reason, at: usize) -> bool {
    match reason {
        Reason::Parameter { func, .. } => func.0 == at,
        Reason::CtOnlyWithRuntimeArgs(func) => func.0 == at,
        _ => false,
    }
}

fn check_reason(reason: Reason, count: usize) -> (fault: Option<usize>)
    ensures
        match fault {
            Some(at) => !reason_in_bounds(reason, count as int) && reason_names(reason, at),
            None => reason_in_bounds(reason, count as int),
        },
{
    match reason {
        Reason::Parameter { func, .. } => if func.0 < count {
            None
        } else {
            Some(func.0)
        },
        Reason::CtOnlyWithRuntimeArgs(func) => if func.0 < count {
            None
        } else {
            Some(func.0)
        },
        _ => None,
    }
}

pub open spec fn optional_in_bounds(reason: Option<Reason>, count: int) -> bool {
    match reason {
        Some(reason) => reason_in_bounds(reason, count),
        None => true,
    }
}

pub open spec fn stage_reason(stage: Stage) -> Option<Reason> {
    match stage {
        Stage::Rt(reason) => Some(reason),
        Stage::Ct => None,
    }
}

/// The reasons of a table of stages name functions below a bound.
pub open spec fn stages_in_bounds(m: Map<usize, Stage>, count: int) -> bool {
    forall|k: usize| #[trigger]
        m.contains_key(k) ==> optional_in_bounds(stage_reason(m[k]), count)
}

/// The first entry whose reason names a function that is not, names this one.
pub open spec fn first_stage(m: Map<usize, Stage>, count: int, at: usize) -> bool {
    exists|k: usize|
        {
            &&& #[trigger] m.contains_key(k)
            &&& !optional_in_bounds(stage_reason(m[k]), count)
            &&& reason_names(stage_reason(m[k])->0, at)
            &&& forall|j: usize| #[trigger]
                m.contains_key(j) && j < k ==> optional_in_bounds(stage_reason(m[j]), count)
        }
}

fn check_stages(m: &DenseMap<Stage>, count: usize) -> (fault: Option<usize>)
    ensures
        match fault {
            Some(at) => first_stage(m@, count as int, at) && !stages_in_bounds(m@, count as int),
            None => stages_in_bounds(m@, count as int),
        },
{
    let n = m.bound();
    let mut i: usize = 0;
    while i < n
        invariant
            i <= n,
            n == m.slots@.len(),
            forall|k: usize| #[trigger]
                m@.contains_key(k) && k < i ==> optional_in_bounds(
                    stage_reason(m@[k]),
                    count as int,
                ),
        decreases n - i,
    {
        if let Some(stage) = m.get(i) {
            if let Stage::Rt(reason) = *stage {
                if let Some(at) = check_reason(reason, count) {
                    assert(m@.contains_key(i));
                    assert(stage_reason(m@[i]) == Some(reason));
                    return Some(at);
                }
            }
        }
        i += 1;
    }
    None
}

pub open spec fn discharges_in_bounds(m: Map<usize, HandlerDischarge>, count: int) -> bool {
    forall|k: usize| #[trigger] m.contains_key(k) ==> optional_in_bounds(m[k].reason, count)
}

/// The first entry whose reason names a function that is not, names this one.
pub open spec fn first_discharge(
    m: Map<usize, HandlerDischarge>,
    count: int,
    at: usize,
) -> bool {
    exists|k: usize|
        {
            &&& #[trigger] m.contains_key(k)
            &&& !optional_in_bounds(m[k].reason, count)
            &&& reason_names(m[k].reason->0, at)
            &&& forall|j: usize| #[trigger]
                m.contains_key(j) && j < k ==> optional_in_bounds(m[j].reason, count)
        }
}

fn check_discharges(m: &DenseMap<HandlerDischarge>, count: usize) -> (fault: Option<usize>)
    ensures
        match fault {
            Some(at) => first_discharge(m@, count as int, at) && !discharges_in_bounds(
                m@,
                count as int,
            ),
            None => discharges_in_bounds(m@, count as int),
        },
{
    let n = m.bound();
    let mut i: usize = 0;
    while i < n
        invariant
            i <= n,
            n == m.slots@.len(),
            forall|k: usize| #[trigger]
                m@.contains_key(k) && k < i ==> optional_in_bounds(m@[k].reason, count as int),
        decreases n - i,
    {
        if let Some(discharge) = m.get(i) {
            if let Some(reason) = discharge.reason {
                if let Some(at) = check_reason(reason, count) {
                    assert(m@.contains_key(i));
                    assert(m@[i].reason == Some(reason));
                    return Some(at);
                }
            }
        }
        i += 1;
    }
    None
}

/// The clause entries of a handler: as many as it has clauses, with reasons
/// that name functions below a bound.
pub open spec fn clauses_sound(
    m: Map<usize, Vec<ClauseDischarge>>,
    k: usize,
    arity: int,
    count: int,
) -> bool {
    &&& m[k]@.len() == arity
    &&& forall|i: int|
        0 <= i < m[k]@.len() ==> optional_in_bounds((#[trigger] m[k]@[i]).reason, count)
}

/// The first reason of a list of clauses that names a function that is not,
/// names this one.
pub open spec fn first_clause(clauses: Seq<ClauseDischarge>, count: int, at: usize) -> bool {
    exists|i: int|
        {
            &&& 0 <= i < clauses.len()
            &&& !optional_in_bounds((#[trigger] clauses[i]).reason, count)
            &&& reason_names(clauses[i].reason->0, at)
            &&& forall|j: int| 0 <= j < i ==> optional_in_bounds(clauses[j].reason, count)
        }
}

fn check_clauses(clauses: &Vec<ClauseDischarge>, count: usize) -> (fault: Option<usize>)
    ensures
        match fault {
            Some(at) => first_clause(clauses@, count as int, at) && exists|i: int|
                0 <= i < clauses@.len() && !optional_in_bounds(
                    (#[trigger] clauses@[i]).reason,
                    count as int,
                ),
            None => forall|i: int|
                0 <= i < clauses@.len() ==> optional_in_bounds(
                    (#[trigger] clauses@[i]).reason,
                    count as int,
                ),
        },
{
    let mut i: usize = 0;
    while i < clauses.len()
        invariant
            i <= clauses@.len(),
            forall|k: int|
                0 <= k < i ==> optional_in_bounds((#[trigger] clauses@[k]).reason, count as int),
        decreases clauses@.len() - i,
    {
        if let Some(reason) = clauses[i].reason {
            if let Some(at) = check_reason(reason, count) {
                assert(clauses@[i as int].reason == Some(reason));
                return Some(at);
            }
        }
        i += 1;
    }
    None
}

// ---------------------------------------------------------------------------
// After evaluation and classification
// ---------------------------------------------------------------------------

/// The tables have an entry for everything they speak of.
pub open spec fn sizes(c: BtaClassified, r: Option<InvariantViolation>) -> bool {
    let exprs = c.program.exprs@.len();
    if c.bta.stage_of_expr@.dom().len() != exprs {
        says(r, Fault::StageTableSize)
    } else if c.bta.knownness_of_expr@.dom().len() != exprs {
        says(r, Fault::KnownnessTableSize)
    } else if c.sema.type_of_expr@.len() != exprs {
        says(r, Fault::TypeTableSize)
    } else if c.sema.effects_of_expr@.len() != exprs {
        says(r, Fault::ExprEffectTableSize)
    } else if c.sema.ownership_of_expr@.len() != exprs {
        says(r, Fault::ExprOwnershipTableSize)
    } else if c.sema.effects_of_stmt@.len() != c.program.stmts@.len() {
        says(r, Fault::StmtEffectTableSize)
    } else {
        r is None
    }
}

fn check_sizes(c: &BtaClassified) -> (r: Option<InvariantViolation>)
    ensures
        sizes(*c, r),
{
    let exprs: usize = c.program.exprs.len();
    if c.bta.stage_of_expr.len() != exprs {
        fault(Fault::StageTableSize)
    } else if c.bta.knownness_of_expr.len() != exprs {
        fault(Fault::KnownnessTableSize)
    } else if c.sema.type_of_expr.len() != exprs {
        fault(Fault::TypeTableSize)
    } else if c.sema.effects_of_expr.len() != exprs {
        fault(Fault::ExprEffectTableSize)
    } else if c.sema.ownership_of_expr.len() != exprs {
        fault(Fault::ExprOwnershipTableSize)
    } else if c.sema.effects_of_stmt.len() != c.program.stmts.len() {
        fault(Fault::StmtEffectTableSize)
    } else {
        None
    }
}

/// The tables speak of nothing that is not there.
pub open spec fn keys(c: BtaClassified, r: Option<InvariantViolation>) -> bool {
    let exprs = c.program.exprs@.len() as int;
    if !keys_below(c.ct.ct_cache@, exprs) {
        finds(r, Fault::CtCacheKey) && first_key(c.ct.ct_cache@, exprs, r->0.at)
    } else if !keys_below(c.ct.branch_decisions@, exprs) {
        finds(r, Fault::BranchDecisionKey) && first_key(c.ct.branch_decisions@, exprs, r->0.at)
    } else if !keys_below(c.bta.stage_of_expr@, exprs) {
        finds(r, Fault::StageKey) && first_key(c.bta.stage_of_expr@, exprs, r->0.at)
    } else if !keys_below(c.bta.knownness_of_expr@, exprs) {
        finds(r, Fault::KnownnessKey) && first_key(c.bta.knownness_of_expr@, exprs, r->0.at)
    } else {
        r is None
    }
}

fn check_keys(c: &BtaClassified) -> (r: Option<InvariantViolation>)
    ensures
        keys(*c, r),
{
    let exprs: usize = c.program.exprs.len();
    if let Some(at) = find_key(&c.ct.ct_cache, exprs) {
        return fault_at(Fault::CtCacheKey, at);
    }
    if let Some(at) = find_key(&c.ct.branch_decisions, exprs) {
        return fault_at(Fault::BranchDecisionKey, at);
    }
    if let Some(at) = find_key(&c.bta.stage_of_expr, exprs) {
        return fault_at(Fault::StageKey, at);
    }
    if let Some(at) = find_key(&c.bta.knownness_of_expr, exprs) {
        return fault_at(Fault::KnownnessKey, at);
    }
    None
}

/// A decision that goes with the value of its condition.
pub open spec fn decision_sound(
    cache: Map<usize, Literal>,
    decisions: Map<usize, BranchDecision>,
    k: usize,
) -> bool {
    &&& cache.contains_key(k)
    &&& match decisions[k] {
        BranchDecision::LiveTrue => cache[k] == Literal::Bool(true),
        BranchDecision::LiveFalse => cache[k] == Literal::Bool(false),
        BranchDecision::Unknown => true,
    }
}

pub open spec fn decisions_sound(c: BtaClassified) -> bool {
    forall|k: usize| #[trigger]
        c.ct.branch_decisions@.contains_key(k) ==> decision_sound(
            c.ct.ct_cache@,
            c.ct.branch_decisions@,
            k,
        )
}

/// Every decision goes with the value of its condition.
pub open spec fn decisions(c: BtaClassified, r: Option<InvariantViolation>) -> bool {
    if decisions_sound(c) {
        r is None
    } else {
        &&& r is Some
        &&& c.ct.branch_decisions@.contains_key(r->0.at)
        &&& !decision_sound(c.ct.ct_cache@, c.ct.branch_decisions@, r->0.at)
        &&& r->0.fault == if c.ct.ct_cache@.contains_key(r->0.at) {
            Fault::InconsistentDecision
        } else {
            Fault::DecisionWithoutLiteral
        }
        &&& forall|k: usize| #[trigger]
            c.ct.branch_decisions@.contains_key(k) && k < r->0.at ==> decision_sound(
                c.ct.ct_cache@,
                c.ct.branch_decisions@,
                k,
            )
    }
}

fn check_decisions(c: &BtaClassified) -> (r: Option<InvariantViolation>)
    ensures
        decisions(*c, r),
{
    let n = c.ct.branch_decisions.bound();
    let mut i: usize = 0;
    while i < n
        invariant
            i <= n,
            n == c.ct.branch_decisions.slots@.len(),
            forall|k: usize| #[trigger]
                c.ct.branch_decisions@.contains_key(k) && k < i ==> decision_sound(
                    c.ct.ct_cache@,
                    c.ct.branch_decisions@,
                    k,
                ),
        decreases n - i,
    {
        if let Some(decision) = c.ct.branch_decisions.get(i) {
            match c.ct.ct_cache.get(i) {
                None => {
                    return fault_at(Fault::DecisionWithoutLiteral, i);
                },
                Some(literal) => {
                    let sound = match (*decision, literal) {
                        (BranchDecision::LiveTrue, Literal::Bool(value)) => *value,
                        (BranchDecision::LiveFalse, Literal::Bool(value)) => !*value,
                        (BranchDecision::Unknown, _) => true,
                        _ => false,
                    };
                    if !sound {
                        return fault_at(Fault::InconsistentDecision, i);
                    }
                },
            }
        }
        i += 1;
    }
    None
}

/// How many clauses a handler has; none where there is no such handler.
pub open spec fn clause_count(program: crate::ir::core_ir::CoreProgram, k: usize) -> int {
    if k < program.handlers@.len() {
        program.handlers@[k as int].clauses@.len() as int
    } else {
        0
    }
}

/// A handler has an entry for each of its clauses.
pub open spec fn handler_sound(c: BtaClassified, h: int) -> bool {
    &&& c.bta.clause_discharge@.contains_key(h as usize)
    &&& c.bta.clause_discharge@[h as usize]@.len() == c.program.handlers@[h].clauses@.len()
}

/// Every handler and every clause is classified.
pub open spec fn handlers(c: BtaClassified, r: Option<InvariantViolation>) -> bool {
    let count = c.program.handlers@.len() as int;
    if c.bta.handler_discharge@.dom().len() != count {
        says(r, Fault::HandlerTableSize)
    } else if !keys_below(c.bta.handler_discharge@, count) {
        finds(r, Fault::HandlerKey) && first_key(c.bta.handler_discharge@, count, r->0.at)
    } else if !keys_below(c.bta.clause_discharge@, count) {
        finds(r, Fault::ClauseKey) && first_key(c.bta.clause_discharge@, count, r->0.at)
    } else if exists|h: int| 0 <= h < count && !#[trigger] handler_sound(c, h) {
        &&& r is Some
        &&& r->0.at < count
        &&& !handler_sound(c, r->0.at as int)
        &&& r->0.fault == if c.bta.clause_discharge@.contains_key(r->0.at) {
            Fault::ClauseArity
        } else {
            Fault::MissingClauses
        }
        &&& forall|h: int| 0 <= h < r->0.at ==> #[trigger] handler_sound(c, h)
    } else {
        r is None
    }
}

fn check_handlers(c: &BtaClassified) -> (r: Option<InvariantViolation>)
    ensures
        handlers(*c, r),
{
    let count: usize = c.program.handlers.len();
    if c.bta.handler_discharge.len() != count {
        return fault(Fault::HandlerTableSize);
    }
    if let Some(at) = find_key(&c.bta.handler_discharge, count) {
        return fault_at(Fault::HandlerKey, at);
    }
    if let Some(at) = find_key(&c.bta.clause_discharge, count) {
        return fault_at(Fault::ClauseKey, at);
    }
    let mut i: usize = 0;
    while i < count
        invariant
            i <= count,
            count == c.program.handlers@.len(),
            c.bta.handler_discharge@.dom().len() == count,
            keys_below(c.bta.handler_discharge@, count as int),
            keys_below(c.bta.clause_discharge@, count as int),
            forall|h: int| 0 <= h < i ==> #[trigger] handler_sound(*c, h),
        decreases count - i,
    {
        match c.bta.clause_discharge.get(i) {
            None => {
                assert(!handler_sound(*c, i as int));
                return fault_at(Fault::MissingClauses, i);
            },
            Some(clauses) => {
                if clauses.len() != c.program.handlers[i].clauses.len() {
                    assert(!handler_sound(*c, i as int));
                    return fault_at(Fault::ClauseArity, i);
                }
                assert(handler_sound(*c, i as int));
            },
        }
        i += 1;
    }
    None
}

/// What is found wrong with a classified program: the first fault, or nothing.
pub open spec fn classified_outcome(c: BtaClassified, r: Option<InvariantViolation>) -> bool {
    if !sizes(c, None) {
        sizes(c, r)
    } else if !keys(c, None) {
        keys(c, r)
    } else if !decisions(c, None) {
        decisions(c, r)
    } else {
        handlers(c, r)
    }
}

/// A program with a fault is not one without.
pub proof fn lemma_fault_is_fault(c: BtaClassified, fault: InvariantViolation)
    requires
        classified_outcome(c, Some(fault)),
    ensures
        !classified_outcome(c, None),
{
}

/// Looks for what is wrong with a classified program.
pub fn check_evaluate_classify_invariants(classified: &BtaClassified) -> (r: Option<
    InvariantViolation,
>)
    ensures
        classified_outcome(*classified, r),
{
    let r = check_sizes(classified);
    if r.is_some() {
        return r;
    }
    let r = check_keys(classified);
    if r.is_some() {
        return r;
    }
    let r = check_decisions(classified);
    if r.is_some() {
        return r;
    }
    check_handlers(classified)
}

/// Where nothing is wrong with a classified program, every expression has a
/// stage and every clause of every handler an entry.
pub proof fn lemma_classified_complete(c: BtaClassified, e: usize, h: int)
    requires
        classified_outcome(c, None),
        c.program.exprs@.len() <= usize::MAX,
        c.bta.stage_of_expr@.dom().finite(),
    ensures
        e < c.program.exprs@.len() ==> c.bta.stage_of_expr@.contains_key(e),
        0 <= h < c.program.handlers@.len() ==> handler_sound(c, h),
{
    if e < c.program.exprs@.len() {
        crate::common::densemap::lemma_full(
            c.bta.stage_of_expr@,
            c.program.exprs@.len(),
            e,
        );
    }
}

// ---------------------------------------------------------------------------
// After residualization and specialization
// ---------------------------------------------------------------------------

/// No function declares effects any more, and the tables keep up with the
/// program.
pub open spec fn residual_sizes(c: Residualized, r: Option<InvariantViolation>) -> bool {
    let exprs = c.program.exprs@.len();
    if exists|f: int|
        0 <= f < c.program.functions@.len() && (
        #[trigger] c.program.functions@[f]).declared_effects@.len() != 0 {
        says(r, Fault::DeclaredEffects)
    } else if c.bta.stage_of_expr@.dom().len() != exprs {
        says(r, Fault::StageTableSize)
    } else if c.bta.knownness_of_expr@.dom().len() != exprs {
        says(r, Fault::KnownnessTableSize)
    } else if c.sema.type_of_expr@.len() != exprs {
        says(r, Fault::TypeTableSize)
    } else if c.sema.effects_of_expr@.len() != exprs {
        says(r, Fault::ExprEffectTableSize)
    } else if c.sema.ownership_of_expr@.len() != exprs {
        says(r, Fault::ExprOwnershipTableSize)
    } else if c.sema.effects_of_stmt@.len() != c.program.stmts@.len() {
        says(r, Fault::StmtEffectTableSize)
    } else {
        r is None
    }
}

fn check_residual_sizes(c: &Residualized) -> (r: Option<InvariantViolation>)
    ensures
        residual_sizes(*c, r),
{
    let mut f: usize = 0;
    while f < c.program.functions.len()
        invariant
            f <= c.program.functions@.len(),
            forall|g: int|
                0 <= g < f ==> (#[trigger] c.program.functions@[g]).declared_effects@.len() == 0,
        decreases c.program.functions@.len() - f,
    {
        if !c.program.functions[f].declared_effects.is_empty() {
            assert(c.program.functions@[f as int].declared_effects@.len() != 0);
            return fault(Fault::DeclaredEffects);
        }
        f += 1;
    }
    let exprs: usize = c.program.exprs.len();
    if c.bta.stage_of_expr.len() != exprs {
        fault(Fault::StageTableSize)
    } else if c.bta.knownness_of_expr.len() != exprs {
        fault(Fault::KnownnessTableSize)
    } else if c.sema.type_of_expr.len() != exprs {
        fault(Fault::TypeTableSize)
    } else if c.sema.effects_of_expr.len() != exprs {
        fault(Fault::ExprEffectTableSize)
    } else if c.sema.ownership_of_expr.len() != exprs {
        fault(Fault::ExprOwnershipTableSize)
    } else if c.sema.effects_of_stmt.len() != c.program.stmts.len() {
        fault(Fault::StmtEffectTableSize)
    } else {
        None
    }
}

/// Every function of every list of instances is below a bound.
pub open spec fn instances_below(m: Map<usize, Vec<FuncId>>, count: int) -> bool {
    forall|k: usize, i: int| #![trigger m[k]@[i]]
        m.contains_key(k) && 0 <= i < m[k]@.len() ==> m[k]@[i].0 < count
}

fn check_instances(m: &DenseMap<Vec<FuncId>>, count: usize) -> (found: Option<usize>)
    ensures
        match found {
            Some(at) => at >= count && exists|k: usize, i: int| #![trigger m@[k]@[i]]
                m@.contains_key(k) && 0 <= i < m@[k]@.len() && m@[k]@[i].0 == at,
            None => instances_below(m@, count as int),
        },
{
    let n = m.bound();
    let mut k: usize = 0;
    while k < n
        invariant
            k <= n,
            n == m.slots@.len(),
            forall|a: usize, i: int| #![trigger m@[a]@[i]]
                m@.contains_key(a) && a < k && 0 <= i < m@[a]@.len() ==> m@[a]@[i].0 < count,
        decreases n - k,
    {
        if let Some(list) = m.get(k) {
            let mut i: usize = 0;
            while i < list.len()
                invariant
                    i <= list@.len(),
                    m@.contains_key(k),
                    *list == m@[k],
                    forall|j: int| 0 <= j < i ==> (#[trigger] list@[j]).0 < count,
                decreases list@.len() - i,
            {
                if list[i].0 >= count {
                    assert(m@[k]@[i as int].0 >= count);
                    return Some(list[i].0);
                }
                i += 1;
            }
        }
        k += 1;
    }
    None
}

/// The tables speak of nothing that is not there any more.
pub open spec fn residual_keys(c: Residualized, r: Option<InvariantViolation>) -> bool {
    let exprs = c.program.exprs@.len() as int;
    let funcs = c.program.functions@.len() as int;
    let mono = c.mono.source_to_mono@;
    if !keys_below(c.ct.ct_cache@, exprs) {
        finds(r, Fault::CtCacheKey) && first_key(c.ct.ct_cache@, exprs, r->0.at)
    } else if !keys_below(c.ct.branch_decisions@, exprs) {
        finds(r, Fault::BranchDecisionKey) && first_key(c.ct.branch_decisions@, exprs, r->0.at)
    } else if !keys_below(mono, funcs) {
        finds(r, Fault::MonoSource) && first_key(mono, funcs, r->0.at)
    } else if !instances_below(mono, funcs) {
        finds(r, Fault::MonoInstance) && r->0.at >= funcs && exists|k: usize, i: int|
            #![trigger mono[k]@[i]]
            mono.contains_key(k) && 0 <= i < mono[k]@.len() && mono[k]@[i].0 == r->0.at
    } else if !keys_below(c.bta.stage_of_expr@, exprs) {
        finds(r, Fault::StageKey) && first_key(c.bta.stage_of_expr@, exprs, r->0.at)
    } else if !keys_below(c.bta.knownness_of_expr@, exprs) {
        finds(r, Fault::KnownnessKey) && first_key(c.bta.knownness_of_expr@, exprs, r->0.at)
    } else {
        r is None
    }
}

fn check_residual_keys(c: &Residualized) -> (r: Option<InvariantViolation>)
    ensures
        residual_keys(*c, r),
{
    let exprs: usize = c.program.exprs.len();
    let funcs: usize = c.program.functions.len();
    if let Some(at) = find_key(&c.ct.ct_cache, exprs) {
        return fault_at(Fault::CtCacheKey, at);
    }
    if let Some(at) = find_key(&c.ct.branch_decisions, exprs) {
        return fault_at(Fault::BranchDecisionKey, at);
    }
    if let Some(at) = find_key(&c.mono.source_to_mono, funcs) {
        return fault_at(Fault::MonoSource, at);
    }
    if let Some(at) = check_instances(&c.mono.source_to_mono, funcs) {
        return fault_at(Fault::MonoInstance, at);
    }
    if let Some(at) = find_key(&c.bta.stage_of_expr, exprs) {
        return fault_at(Fault::StageKey, at);
    }
    if let Some(at) = find_key(&c.bta.knownness_of_expr, exprs) {
        return fault_at(Fault::KnownnessKey, at);
    }
    None
}

pub open spec fn all_clauses_sound(c: Residualized) -> bool {
    forall|k: usize| #[trigger]
        c.bta.clause_discharge@.contains_key(k) ==> clauses_sound(
            c.bta.clause_discharge@,
            k,
            clause_count(c.program, k),
            c.program.functions@.len() as int,
        )
}

/// What is wrong with the clause entries of the first handler with which
/// anything is.
pub open spec fn clause_fault(c: Residualized, r: Option<InvariantViolation>) -> bool {
    let m = c.bta.clause_discharge@;
    let funcs = c.program.functions@.len() as int;
    exists|k: usize|
        {
            &&& #[trigger] m.contains_key(k)
            &&& !clauses_sound(m, k, clause_count(c.program, k), funcs)
            &&& forall|j: usize| #[trigger]
                m.contains_key(j) && j < k ==> clauses_sound(
                    m,
                    j,
                    clause_count(c.program, j),
                    funcs,
                )
            &&& if m[k]@.len() != clause_count(c.program, k) {
                finds(r, Fault::ClauseArity) && r->0.at == k
            } else {
                finds(r, Fault::ClauseReason) && first_clause(m[k]@, funcs, r->0.at)
            }
        }
}

/// The reasons name functions that are there, and the handlers' entries keep up
/// with the program.
pub open spec fn residual_reasons(c: Residualized, r: Option<InvariantViolation>) -> bool {
    let funcs = c.program.functions@.len() as int;
    let count = c.program.handlers@.len() as int;
    if !stages_in_bounds(c.bta.stage_of_expr@, funcs) {
        finds(r, Fault::ExprReason) && first_stage(c.bta.stage_of_expr@, funcs, r->0.at)
    } else if !stages_in_bounds(c.bta.stage_of_var@, funcs) {
        finds(r, Fault::VarReason) && first_stage(c.bta.stage_of_var@, funcs, r->0.at)
    } else if !keys_below(c.bta.handler_discharge@, count) {
        finds(r, Fault::HandlerKey) && first_key(c.bta.handler_discharge@, count, r->0.at)
    } else if !keys_below(c.bta.clause_discharge@, count) {
        finds(r, Fault::ClauseKey) && first_key(c.bta.clause_discharge@, count, r->0.at)
    } else if !discharges_in_bounds(c.bta.handler_discharge@, funcs) {
        finds(r, Fault::HandlerReason) && first_discharge(
            c.bta.handler_discharge@,
            funcs,
            r->0.at,
        )
    } else if !all_clauses_sound(c) {
        clause_fault(c, r)
    } else if !keys_below(c.residual.function_effect_summary@, funcs) {
        finds(r, Fault::SummaryKey) && first_key(
            c.residual.function_effect_summary@,
            funcs,
            r->0.at,
        )
    } else {
        r is None
    }
}

fn check_all_clauses(c: &Residualized) -> (r: Option<InvariantViolation>)
    ensures
        if all_clauses_sound(*c) {
            r is None
        } else {
            clause_fault(*c, r)
        },
{
    let funcs: usize = c.program.functions.len();
    let handler_count: usize = c.program.handlers.len();
    let n = c.bta.clause_discharge.bound();
    let ghost m = c.bta.clause_discharge@;
    let mut k: usize = 0;
    while k < n
        invariant
            k <= n,
            n == c.bta.clause_discharge.slots@.len(),
            m == c.bta.clause_discharge@,
            funcs == c.program.functions@.len(),
            handler_count == c.program.handlers@.len(),
            forall|j: usize| #[trigger]
                m.contains_key(j) && j < k ==> clauses_sound(
                    m,
                    j,
                    clause_count(c.program, j),
                    funcs as int,
                ),
        decreases n - k,
    {
        if let Some(clauses) = c.bta.clause_discharge.get(k) {
            let expected: usize = if k < handler_count {
                c.program.handlers[k].clauses.len()
            } else {
                0
            };
            assert(m.contains_key(k));
            assert(expected == clause_count(c.program, k));
            if clauses.len() != expected {
                assert(!clauses_sound(m, k, clause_count(c.program, k), funcs as int));
                return fault_at(Fault::ClauseArity, k);
            }
            if let Some(at) = check_clauses(clauses, funcs) {
                assert(!clauses_sound(m, k, clause_count(c.program, k), funcs as int));
                assert(!all_clauses_sound(*c));
                let r = fault_at(Fault::ClauseReason, at);
                assert(clause_fault(*c, r));
                return r;
            }
            assert(clauses_sound(m, k, clause_count(c.program, k), funcs as int));
        }
        k += 1;
    }
    None
}

fn check_residual_reasons(c: &Residualized) -> (r: Option<InvariantViolation>)
    ensures
        residual_reasons(*c, r),
{
    let funcs: usize = c.program.functions.len();
    let count: usize = c.program.handlers.len();
    if let Some(at) = check_stages(&c.bta.stage_of_expr, funcs) {
        return fault_at(Fault::ExprReason, at);
    }
    if let Some(at) = check_stages(&c.bta.stage_of_var, funcs) {
        return fault_at(Fault::VarReason, at);
    }
    if let Some(at) = find_key(&c.bta.handler_discharge, count) {
        return fault_at(Fault::HandlerKey, at);
    }
    if let Some(at) = find_key(&c.bta.clause_discharge, count) {
        return fault_at(Fault::ClauseKey, at);
    }
    if let Some(at) = check_discharges(&c.bta.handler_discharge, funcs) {
        return fault_at(Fault::HandlerReason, at);
    }
    let r = check_all_clauses(c);
    if r.is_some() {
        return r;
    }
    if let Some(at) = find_key(&c.residual.function_effect_summary, funcs) {
        return fault_at(Fault::SummaryKey, at);
    }
    None
}

// -- constants --------------------------------------------------------------

/// A constant that stands in the table once only, and is not too large.
pub open spec fn entry_new(entries: Seq<ConstantEntry>, i: int) -> bool {
    forall|j: int|
        0 <= j < i ==> !crate::pipeline::tables::same_constant(
            (#[trigger] entries[j]).key,
            entries[i].key,
        )
}

pub open spec fn entry_sound(entries: Seq<ConstantEntry>, cap: usize, i: int) -> bool {
    entry_new(entries, i) && entries[i].estimated_size_bytes <= cap
}

/// The size of the first entries together.
pub open spec fn size_sum(entries: Seq<ConstantEntry>, first: int) -> int
    decreases first,
{
    if first <= 0 {
        0
    } else {
        size_sum(entries, first - 1) + entries[first - 1].estimated_size_bytes
    }
}

/// The table of constants keeps its limits, and accounts for its size.
pub open spec fn constants(c: Residualized, r: Option<InvariantViolation>) -> bool {
    let table = c.residual.constant_table;
    let entries = table.entries@;
    if exists|i: int|
        0 <= i < entries.len() && !#[trigger] entry_sound(entries, table.entry_cap_bytes, i) {
        &&& r is Some
        &&& r->0.at < entries.len()
        &&& !entry_sound(entries, table.entry_cap_bytes, r->0.at as int)
        &&& r->0.fault == if entry_new(entries, r->0.at as int) {
            Fault::ConstantEntryCap
        } else {
            Fault::DuplicateConstant
        }
        &&& forall|i: int|
            0 <= i < r->0.at ==> #[trigger] entry_sound(entries, table.entry_cap_bytes, i)
    } else if table.total_size_bytes > table.unit_cap_bytes {
        says(r, Fault::ConstantUnitCap)
    } else if table.total_size_bytes > size_sum(entries, entries.len() as int) {
        says(r, Fault::ConstantAccounting)
    } else {
        r is None
    }
}

fn is_new_entry(entries: &Vec<ConstantEntry>, i: usize) -> (fresh: bool)
    requires
        i < entries@.len(),
    ensures
        fresh == entry_new(entries@, i as int),
{
    let mut j: usize = 0;
    while j < i
        invariant
            j <= i < entries@.len(),
            forall|k: int|
                0 <= k < j ==> !crate::pipeline::tables::same_constant(
                    (#[trigger] entries@[k]).key,
                    entries@[i as int].key,
                ),
        decreases i - j,
    {
        if is_same_constant(&entries[j].key, &entries[i].key) {
            assert(crate::pipeline::tables::same_constant(
                entries@[j as int].key,
                entries@[i as int].key,
            ));
            return false;
        }
        j += 1;
    }
    true
}

fn check_constants(c: &Residualized) -> (r: Option<InvariantViolation>)
    ensures
        constants(*c, r),
{
    let table = &c.residual.constant_table;
    let mut total: usize = 0;
    let mut i: usize = 0;
    while i < table.entries.len()
        invariant
            *table == c.residual.constant_table,
            i <= table.entries@.len(),
            total == (if size_sum(table.entries@, i as int) <= usize::MAX {
                size_sum(table.entries@, i as int)
            } else {
                usize::MAX as int
            }),
            size_sum(table.entries@, i as int) >= 0,
            forall|k: int|
                0 <= k < i ==> #[trigger] entry_sound(
                    table.entries@,
                    table.entry_cap_bytes,
                    k,
                ),
        decreases table.entries@.len() - i,
    {
        if !is_new_entry(&table.entries, i) {
            assert(!entry_sound(table.entries@, table.entry_cap_bytes, i as int));
            return fault_at(Fault::DuplicateConstant, i);
        }
        if table.entries[i].estimated_size_bytes > table.entry_cap_bytes {
            assert(!entry_sound(table.entries@, table.entry_cap_bytes, i as int));
            return fault_at(Fault::ConstantEntryCap, i);
        }
        assert(entry_sound(table.entries@, table.entry_cap_bytes, i as int));
        total = total.saturating_add(table.entries[i].estimated_size_bytes);
        i += 1;
    }
    if table.total_size_bytes > table.unit_cap_bytes {
        return fault(Fault::ConstantUnitCap);
    }
    if table.total_size_bytes > total {
        return fault(Fault::ConstantAccounting);
    }
    None
}

// -- reference counts -------------------------------------------------------

pub open spec fn op_order(op: ArcResidualOp) -> (usize, nat, usize) {
    match op.kind {
        ArcResidualOpKind::Retain { var } => (op.stmt.0, 0, var.0),
        ArcResidualOpKind::Release { var } => (op.stmt.0, 1, var.0),
    }
}

/// One operation stands before another: by statement, retains first, then by
/// variable.
pub open spec fn op_before(a: ArcResidualOp, b: ArcResidualOp) -> bool {
    let x = op_order(a);
    let y = op_order(b);
    x.0 < y.0 || (x.0 == y.0 && (x.1 < y.1 || (x.1 == y.1 && x.2 < y.2)))
}

fn arc_op_kind_order(kind: ArcResidualOpKind) -> (order: u8)
    ensures
        order == (if kind is Retain {
            0
        } else {
            1int
        }),
{
    match kind {
        ArcResidualOpKind::Retain { .. } => 0,
        ArcResidualOpKind::Release { .. } => 1,
    }
}

fn arc_op_var(kind: ArcResidualOpKind) -> (var: VarId)
    ensures
        var == (match kind {
            ArcResidualOpKind::Retain { var } => var,
            ArcResidualOpKind::Release { var } => var,
        }),
{
    match kind {
        ArcResidualOpKind::Retain { var } => var,
        ArcResidualOpKind::Release { var } => var,
    }
}

fn is_op_before(a: ArcResidualOp, b: ArcResidualOp) -> (before: bool)
    ensures
        before == op_before(a, b),
{
    let x = arc_op_kind_order(a.kind);
    let y = arc_op_kind_order(b.kind);
    a.stmt.0 < b.stmt.0 || (a.stmt.0 == b.stmt.0 && (x < y || (x == y && arc_op_var(a.kind).0
        < arc_op_var(b.kind).0)))
}

/// Every operation stands before the next.
pub open spec fn ops_ordered(ops: Seq<ArcResidualOp>) -> bool {
    forall|i: int| 0 < i < ops.len() ==> op_before(ops[i - 1], #[trigger] ops[i])
}

fn are_ops_ordered(ops: &Vec<ArcResidualOp>) -> (ordered: bool)
    ensures
        ordered == ops_ordered(ops@),
{
    let mut i: usize = 1;
    while i < ops.len()
        invariant
            1 <= i,
            forall|j: int|
                0 < j < i && j < ops@.len() ==> op_before(ops@[j - 1], #[trigger] ops@[j]),
        decreases ops@.len() - i,
    {
        if !is_op_before(ops[i - 1], ops[i]) {
            assert(!op_before(ops@[i as int - 1], ops@[i as int]));
            return false;
        }
        i += 1;
    }
    true
}

/// The first operation at a statement that is not there.
pub open spec fn first_stray(ops: Seq<ArcResidualOp>, stmts: int, at: usize) -> bool {
    &&& at >= stmts
    &&& exists|i: int|
        {
            &&& 0 <= i < ops.len()
            &&& (#[trigger] ops[i]).stmt.0 == at
            &&& forall|j: int| 0 <= j < i ==> (#[trigger] ops[j]).stmt.0 < stmts
        }
}

/// Every operation is at a statement that is there.
pub open spec fn ops_placed(ops: Seq<ArcResidualOp>, stmts: int) -> bool {
    forall|i: int| 0 <= i < ops.len() ==> (#[trigger] ops[i]).stmt.0 < stmts
}

fn find_stray(ops: &Vec<ArcResidualOp>, stmts: usize) -> (found: Option<usize>)
    ensures
        match found {
            Some(at) => first_stray(ops@, stmts as int, at) && !ops_placed(ops@, stmts as int),
            None => ops_placed(ops@, stmts as int),
        },
{
    let mut i: usize = 0;
    while i < ops.len()
        invariant
            i <= ops@.len(),
            forall|j: int| 0 <= j < i ==> (#[trigger] ops@[j]).stmt.0 < stmts,
        decreases ops@.len() - i,
    {
        if ops[i].stmt.0 >= stmts {
            assert(ops@[i as int].stmt.0 >= stmts);
            return Some(ops[i].stmt.0);
        }
        i += 1;
    }
    None
}

/// How many of the first operations retain.
pub open spec fn retains(ops: Seq<ArcResidualOp>, first: int) -> int
    decreases first,
{
    if first <= 0 {
        0
    } else {
        retains(ops, first - 1) + if ops[first - 1].kind is Retain {
            1int
        } else {
            0
        }
    }
}

pub open spec fn capped(n: int) -> int {
    if n <= u32::MAX {
        n
    } else {
        u32::MAX as int
    }
}

pub open spec fn less(a: u32, b: u32) -> int {
    if a >= b {
        a - b
    } else {
        0
    }
}

/// The operations that are left are those that were planned without those that
/// were removed, in order, at statements that are there.
pub open spec fn arc(c: Residualized, r: Option<InvariantViolation>) -> bool {
    let stats = c.residual.arc_stats;
    let ops = c.residual.arc_plan.ops@;
    let n = ops.len() as int;
    let stmts = c.program.stmts@.len();
    if stats.final_retain_ops > stats.planned_retain_ops {
        says(r, Fault::RetainCount)
    } else if stats.final_release_ops > stats.planned_release_ops {
        says(r, Fault::ReleaseCount)
    } else if less(stats.planned_retain_ops, stats.removed_retain_ops)
        != stats.final_retain_ops {
        says(r, Fault::RetainAccounting)
    } else if less(stats.planned_release_ops, stats.removed_release_ops)
        != stats.final_release_ops {
        says(r, Fault::ReleaseAccounting)
    } else if !ops_ordered(ops) {
        says(r, Fault::ArcPlanOrder)
    } else if !ops_placed(ops, stmts as int) {
        finds(r, Fault::ArcPlanStmt) && first_stray(ops, stmts as int, r->0.at)
    } else if capped(retains(ops, n)) != stats.final_retain_ops {
        says(r, Fault::RetainPlanCount)
    } else if capped(n - retains(ops, n)) != stats.final_release_ops {
        says(r, Fault::ReleasePlanCount)
    } else {
        r is None
    }
}

proof fn lemma_retains_bound(ops: Seq<ArcResidualOp>, first: int)
    requires
        0 <= first <= ops.len(),
    ensures
        0 <= retains(ops, first) <= first,
    decreases first,
{
    if first > 0 {
        lemma_retains_bound(ops, first - 1);
    }
}

fn count_ops(ops: &Vec<ArcResidualOp>) -> (counts: (u32, u32))
    ensures
        counts.0 == capped(retains(ops@, ops@.len() as int)),
        counts.1 == capped(ops@.len() - retains(ops@, ops@.len() as int)),
{
    let mut retained: u32 = 0;
    let mut released: u32 = 0;
    let mut i: usize = 0;
    while i < ops.len()
        invariant
            i <= ops@.len(),
            retained == capped(retains(ops@, i as int)),
            released == capped(i - retains(ops@, i as int)),
        decreases ops@.len() - i,
    {
        proof {
            lemma_retains_bound(ops@, i as int);
        }
        match ops[i].kind {
            ArcResidualOpKind::Retain { .. } => {
                retained = retained.saturating_add(1);
            },
            ArcResidualOpKind::Release { .. } => {
                released = released.saturating_add(1);
            },
        }
        i += 1;
    }
    (retained, released)
}

fn check_arc(c: &Residualized) -> (r: Option<InvariantViolation>)
    ensures
        arc(*c, r),
{
    let stats = c.residual.arc_stats;
    let ops = &c.residual.arc_plan.ops;
    if stats.final_retain_ops > stats.planned_retain_ops {
        return fault(Fault::RetainCount);
    }
    if stats.final_release_ops > stats.planned_release_ops {
        return fault(Fault::ReleaseCount);
    }
    if stats.planned_retain_ops.saturating_sub(stats.removed_retain_ops)
        != stats.final_retain_ops {
        return fault(Fault::RetainAccounting);
    }
    if stats.planned_release_ops.saturating_sub(stats.removed_release_ops)
        != stats.final_release_ops {
        return fault(Fault::ReleaseAccounting);
    }
    if !are_ops_ordered(ops) {
        return fault(Fault::ArcPlanOrder);
    }
    if let Some(at) = find_stray(ops, c.program.stmts.len()) {
        return fault_at(Fault::ArcPlanStmt, at);
    }
    let (retained, released) = count_ops(ops);
    if retained != stats.final_retain_ops {
        return fault(Fault::RetainPlanCount);
    }
    if released != stats.final_release_ops {
        return fault(Fault::ReleasePlanCount);
    }
    None
}

// -- cycles and borrows -----------------------------------------------------

pub open spec fn link_before(a: (VarId, VarId), b: (VarId, VarId)) -> bool {
    a.0.0 < b.0.0 || (a.0.0 == b.0.0 && a.1.0 < b.1.0)
}

pub open spec fn hazard_order(kind: BorrowHazardKind) -> int {
    match kind {
        BorrowHazardKind::AliasFanout => 0,
        BorrowHazardKind::Projection => 1,
        BorrowHazardKind::CallEscape => 2,
    }
}

pub open spec fn hotspot_before(a: BorrowHotspot, b: BorrowHotspot) -> bool {
    a.stmt.0 < b.stmt.0 || (a.stmt.0 == b.stmt.0 && hazard_order(a.kind) < hazard_order(b.kind))
}

fn hazard_rank(kind: BorrowHazardKind) -> (rank: u8)
    ensures
        rank == hazard_order(kind),
{
    match kind {
        BorrowHazardKind::AliasFanout => 0,
        BorrowHazardKind::Projection => 1,
        BorrowHazardKind::CallEscape => 2,
    }
}

pub open spec fn links_ordered(links: Seq<(VarId, VarId)>) -> bool {
    forall|i: int| 0 < i < links.len() ==> link_before(links[i - 1], #[trigger] links[i])
}

fn are_links_ordered(links: &Vec<(VarId, VarId)>) -> (ordered: bool)
    ensures
        ordered == links_ordered(links@),
{
    let mut i: usize = 1;
    while i < links.len()
        invariant
            1 <= i,
            forall|j: int|
                0 < j < i && j < links@.len() ==> link_before(links@[j - 1], #[trigger] links@[j]),
        decreases links@.len() - i,
    {
        let a = links[i - 1];
        let b = links[i];
        if !(a.0.0 < b.0.0 || (a.0.0 == b.0.0 && a.1.0 < b.1.0)) {
            assert(!link_before(links@[i as int - 1], links@[i as int]));
            return false;
        }
        i += 1;
    }
    true
}

pub open spec fn spots_ordered(spots: Seq<BorrowHotspot>) -> bool {
    forall|i: int| 0 < i < spots.len() ==> hotspot_before(spots[i - 1], #[trigger] spots[i])
}

fn are_spots_ordered(spots: &Vec<BorrowHotspot>) -> (ordered: bool)
    ensures
        ordered == spots_ordered(spots@),
{
    let mut i: usize = 1;
    while i < spots.len()
        invariant
            1 <= i,
            forall|j: int|
                0 < j < i && j < spots@.len() ==> hotspot_before(
                    spots@[j - 1],
                    #[trigger] spots@[j],
                ),
        decreases spots@.len() - i,
    {
        let a = spots[i - 1];
        let b = spots[i];
        if !(a.stmt.0 < b.stmt.0 || (a.stmt.0 == b.stmt.0 && hazard_rank(a.kind) < hazard_rank(
            b.kind,
        ))) {
            assert(!hotspot_before(spots@[i as int - 1], spots@[i as int]));
            return false;
        }
        i += 1;
    }
    true
}

/// The inventories are complete, sorted and without repetition.
pub open spec fn inventories(c: Residualized, r: Option<InvariantViolation>) -> bool {
    let orc = c.residual.orc_foundation;
    let hazards = c.residual.borrow_hazards;
    let links = orc.candidate_links@;
    let spots = hazards.hotspots@;
    if orc.candidate_root_count != orc.candidate_roots@.len() {
        says(r, Fault::OrcRootCount)
    } else if orc.candidate_link_count != links.len() {
        says(r, Fault::OrcLinkCount)
    } else if !links_ordered(links) {
        says(r, Fault::OrcLinkOrder)
    } else if hazards.alias_fanout_count != hazards.alias_fanout_sites@.len() {
        says(r, Fault::AliasFanoutCount)
    } else if hazards.projection_count != hazards.projection_sites@.len() {
        says(r, Fault::ProjectionCount)
    } else if hazards.call_escape_count != hazards.call_escape_sites@.len() {
        says(r, Fault::CallEscapeCount)
    } else if spots.len() != hazards.alias_fanout_sites@.len() + hazards.projection_sites@.len()
        + hazards.call_escape_sites@.len() {
        says(r, Fault::HotspotInventory)
    } else if !spots_ordered(spots) {
        says(r, Fault::HotspotOrder)
    } else {
        r is None
    }
}

fn check_inventories(c: &Residualized) -> (r: Option<InvariantViolation>)
    ensures
        inventories(*c, r),
{
    let orc = &c.residual.orc_foundation;
    let hazards = &c.residual.borrow_hazards;
    let links = &orc.candidate_links;
    let spots = &hazards.hotspots;
    if orc.candidate_root_count as usize != orc.candidate_roots.len() {
        return fault(Fault::OrcRootCount);
    }
    if orc.candidate_link_count as usize != links.len() {
        return fault(Fault::OrcLinkCount);
    }
    if !are_links_ordered(links) {
        return fault(Fault::OrcLinkOrder);
    }
    if hazards.alias_fanout_count as usize != hazards.alias_fanout_sites.len() {
        return fault(Fault::AliasFanoutCount);
    }
    if hazards.projection_count as usize != hazards.projection_sites.len() {
        return fault(Fault::ProjectionCount);
    }
    if hazards.call_escape_count as usize != hazards.call_escape_sites.len() {
        return fault(Fault::CallEscapeCount);
    }
    if spots.len() as u128 != hazards.alias_fanout_sites.len() as u128
        + hazards.projection_sites.len() as u128 + hazards.call_escape_sites.len() as u128 {
        return fault(Fault::HotspotInventory);
    }
    if !are_spots_ordered(spots) {
        return fault(Fault::HotspotOrder);
    }
    None
}

/// What is found wrong with a residual program: the first fault, or nothing.
pub open spec fn residual_outcome(c: Residualized, r: Option<InvariantViolation>) -> bool {
    if !residual_sizes(c, None) {
        residual_sizes(c, r)
    } else if !residual_keys(c, None) {
        residual_keys(c, r)
    } else if !residual_reasons(c, None) {
        residual_reasons(c, r)
    } else if !constants(c, None) {
        constants(c, r)
    } else if !arc(c, None) {
        arc(c, r)
    } else {
        inventories(c, r)
    }
}

/// Looks for what is wrong with a residual program.
pub fn check_residualize_specialize_invariants(residual: &Residualized) -> (r: Option<
    InvariantViolation,
>)
    ensures
        residual_outcome(*residual, r),
{
    let r = check_residual_sizes(residual);
    if r.is_some() {
        return r;
    }
    let r = check_residual_keys(residual);
    if r.is_some() {
        return r;
    }
    let r = check_residual_reasons(residual);
    if r.is_some() {
        return r;
    }
    let r = check_constants(residual);
    if r.is_some() {
        return r;
    }
    let r = check_arc(residual);
    if r.is_some() {
        return r;
    }
    check_inventories(residual)
}

proof fn lemma_ops_ordered(ops: Seq<ArcResidualOp>, i: int, j: int)
    requires
        ops_ordered(ops),
        0 <= i < j < ops.len(),
    ensures
        op_before(ops[i], ops[j]),
    decreases j,
{
    assert(op_before(ops[j - 1], ops[j]));
    if i < j - 1 {
        lemma_ops_ordered(ops, i, j - 1);
    }
}

/// Where nothing is wrong with a plan of reference-count operations, none occurs
/// twice.
#[verifier::spinoff_prover]
pub proof fn lemma_arc_plan_unique(c: Residualized, i: int, j: int)
    requires
        arc(c, None),
        0 <= i < j < c.residual.arc_plan.ops@.len(),
    ensures
        op_before(c.residual.arc_plan.ops@[i], c.residual.arc_plan.ops@[j]),
        c.residual.arc_plan.ops@[i] != c.residual.arc_plan.ops@[j],
{
    lemma_ops_ordered(c.residual.arc_plan.ops@, i, j);
}

} // verus!
