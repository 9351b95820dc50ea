//! Binding times: which expressions have a value at compile time.
pub mod directives;
pub mod reasons;

use crate::common::densemap::DenseMap;
use crate::common::diagnostics::{DiagnosticBag, DiagnosticModel};
use crate::common::ids::{EffectLabelId, ExprId, FuncId};
use crate::common::span::Span;
use crate::ir::core_ir::{
    CoreModel, CoreProgram, ExprKind, ExprModel, FunctionDecl, FunctionModel,
    StmtKind, StmtModel,
};
use crate::pipeline::phases::{BtaClassified, CtPropagated};
use crate::pipeline::reason::{numbered, Reason, Stage};
use crate::pipeline::tables::{BtaTables, SemanticTables};
use crate::sema::effect::{first_non_thunkable_effect, EffectProperties, SortedEffectRow};
use directives::{apply_all_directives, Walk};
use reasons::{propagate_runtime_reasons, Stages};
use std::collections::HashMap;
use vstd::prelude::*;

verus! {

// ---------------------------------------------------------------------------
// Effects that cannot wait
// ---------------------------------------------------------------------------

/// The first effect of a row that is not declared thunkable.
pub open spec fn blocking(
    row: Seq<EffectLabelId>,
    properties: Map<usize, EffectProperties>,
    first: nat,
) -> Option<EffectLabelId>
    decreases first,
{
    if first == 0 {
        None
    } else {
        match blocking(row, properties, (first - 1) as nat) {
            Some(label) => Some(label),
            None => if crate::sema::effect::label_thunkable(properties, row[first - 1]) {
                None
            } else {
                Some(row[first - 1])
            },
        }
    }
}

/// A result that rests on an effect that cannot be suspended is known at run
/// time only, because of that effect.
pub open spec fn blocked(
    properties: Map<usize, EffectProperties>,
    vars: Map<usize, Stage>,
    s: StmtModel,
) -> Map<usize, Stage> {
    match s {
        StmtModel::Call { result, effects, .. } => match blocking(
            effects,
            properties,
            effects.len(),
        ) {
            Some(label) => vars.insert(result.0, Stage::Rt(Reason::EffectNotDischarged(label))),
            None => vars,
        },
        StmtModel::Perform { result: Some(result), effect, .. } => match blocking(
            seq![effect],
            properties,
            1,
        ) {
            Some(label) => vars.insert(result.0, Stage::Rt(Reason::EffectNotDischarged(label))),
            None => vars,
        },
        _ => vars,
    }
}

pub open spec fn all_blocked(
    p: CoreModel,
    properties: Map<usize, EffectProperties>,
    vars: Map<usize, Stage>,
    first: nat,
) -> Map<usize, Stage>
    decreases first,
{
    if first == 0 {
        vars
    } else {
        blocked(
            properties,
            all_blocked(p, properties, vars, (first - 1) as nat),
            p.stmts[first - 1].kind,
        )
    }
}

proof fn lemma_blocking(
    row: Seq<EffectLabelId>,
    properties: Map<usize, EffectProperties>,
    at: nat,
    first: nat,
)
    requires
        at <= first <= row.len(),
        crate::sema::effect::row_thunkable(row.take(at as int), properties),
    ensures
        at == first ==> blocking(row, properties, first) is None,
        at < first && !crate::sema::effect::label_thunkable(properties, row[at as int])
            ==> blocking(row, properties, first) == Some(row[at as int]),
    decreases first,
{
    if first > 0 {
        if at < first {
            lemma_blocking(row, properties, at, (first - 1) as nat);
        } else {
            assert(row.take(first - 1) =~= row.take(at as int).take(first - 1));
            assert forall|i: int| 0 <= i < row.take(first - 1).len() implies
                crate::sema::effect::label_thunkable(
                properties,
                #[trigger] row.take(first - 1)[i],
            ) by {
                assert(row.take(at as int)[i] == row[i]);
            }
            lemma_blocking(row, properties, (first - 1) as nat, (first - 1) as nat);
            assert(row.take(at as int)[first - 1] == row[first - 1]);
        }
    }
}

fn blocking_effect(row: &SortedEffectRow, properties: &HashMap<usize, EffectProperties>) -> (found:
    Option<EffectLabelId>)
    ensures
        found == blocking(row@, properties@, row@.len()),
{
    let found = first_non_thunkable_effect(row, properties);
    proof {
        match found {
            None => {
                assert(row@.take(row@.len() as int) =~= row@);
                lemma_blocking(row@, properties@, row@.len(), row@.len());
            },
            Some(label) => {
                let i = choose|i: int|
                    #![trigger row@[i]]
                    0 <= i < row@.len() && row@[i] == label
                        && !crate::sema::effect::label_thunkable(properties@, label)
                        && crate::sema::effect::row_thunkable(row@.take(i), properties@);
                lemma_blocking(row@, properties@, i as nat, row@.len());
            },
        }
    }
    found
}

fn classify_non_thunkable_effects(
    program: &CoreProgram,
    sema: &SemanticTables,
    vars: &mut DenseMap<Stage>,
)
    ensures
        final(vars)@ == all_blocked(
            program@,
            sema.effect_properties@,
            old(vars)@,
            program@.stmts.len(),
        ),
{
    let ghost before = vars@;
    let mut i: usize = 0;
    while i < program.stmts.len()
        invariant
            i <= program.stmts@.len(),
            vars@ == all_blocked(program@, sema.effect_properties@, before, i as nat),
        decreases program.stmts@.len() - i,
    {
        assert(program@.stmts[i as int].kind == program.stmts@[i as int].kind@);
        match &program.stmts[i].kind {
            StmtKind::Call { result, effects, .. } => {
                if let Some(label) = blocking_effect(effects, &sema.effect_properties) {
                    vars.insert(result.0, Stage::Rt(Reason::EffectNotDischarged(label)));
                }
            },
            StmtKind::Perform { result, effect, .. } => {
                if let Some(result) = result {
                    let row = SortedEffectRow::singleton(*effect);
                    if let Some(label) = blocking_effect(&row, &sema.effect_properties) {
                        vars.insert(result.0, Stage::Rt(Reason::EffectNotDischarged(label)));
                    }
                }
            },
            _ => {},
        }
        i += 1;
    }
}

// ---------------------------------------------------------------------------
// Functions for compile time only
// ---------------------------------------------------------------------------

/// A function that may be called at compile time only: it says so, or one of
/// the effects that it declares does.
pub open spec fn ct_only(f: FunctionModel, properties: Map<usize, EffectProperties>) -> bool {
    f.ct_only || exists|i: int|
        0 <= i < f.declared_effects.len() && properties.contains_key(
            (#[trigger] f.declared_effects[i]).0,
        ) && properties[f.declared_effects[i].0].ct_only
}

/// Whether one of the first expressions of a list is not ready at compile time.
pub open spec fn any_runtime(exprs: Map<usize, Stage>, list: Seq<ExprId>) -> bool {
    exists|i: int|
        0 <= i < list.len() && !(exprs.contains_key((#[trigger] list[i]).0)
            && exprs[list[i].0] is Ct)
}

/// A call that cannot be made: the function is for compile time, an argument is
/// not.
pub open spec fn impossible(
    p: CoreModel,
    properties: Map<usize, EffectProperties>,
    exprs: Map<usize, Stage>,
    callee: FuncId,
    args: Seq<ExprId>,
) -> bool {
    &&& p.has_function(callee)
    &&& ct_only(p.function(callee), properties)
    &&& any_runtime(exprs, args)
}

pub open spec fn ct_only_report(callee: FuncId, span: Span) -> DiagnosticModel {
    DiagnosticModel::error(
        "BTA_CT_ONLY_RUNTIME_ARG"@,
        "ct-only function call f"@ + crate::common::text::decimal(callee.0 as nat)
            + " has runtime arguments; this call cannot be residualized"@,
        span,
    )
}

/// The stages of expressions after the first calls among them have been checked.
pub open spec fn exprs_enforced(
    p: CoreModel,
    properties: Map<usize, EffectProperties>,
    exprs: Map<usize, Stage>,
    first: nat,
) -> Map<usize, Stage>
    decreases first,
{
    if first == 0 {
        exprs
    } else {
        let rest = exprs_enforced(p, properties, exprs, (first - 1) as nat);
        match p.exprs[first - 1].kind {
            ExprModel::PureCall { callee, args } => if impossible(
                p,
                properties,
                rest,
                callee,
                args,
            ) {
                rest.insert((first - 1) as usize, Stage::Rt(Reason::CtOnlyWithRuntimeArgs(callee)))
            } else {
                rest
            },
            _ => rest,
        }
    }
}

pub open spec fn expr_reports(
    p: CoreModel,
    properties: Map<usize, EffectProperties>,
    exprs: Map<usize, Stage>,
    first: nat,
) -> Seq<DiagnosticModel>
    decreases first,
{
    if first == 0 {
        Seq::empty()
    } else {
        let rest = expr_reports(p, properties, exprs, (first - 1) as nat);
        match p.exprs[first - 1].kind {
            ExprModel::PureCall { callee, args } => if impossible(
                p,
                properties,
                exprs_enforced(p, properties, exprs, (first - 1) as nat),
                callee,
                args,
            ) {
                rest.push(ct_only_report(callee, p.exprs[first - 1].span))
            } else {
                rest
            },
            _ => rest,
        }
    }
}

/// The stages of variables after the first calls among the statements have been
/// checked.
pub open spec fn vars_enforced(
    p: CoreModel,
    properties: Map<usize, EffectProperties>,
    t: Stages,
    first: nat,
) -> Map<usize, Stage>
    decreases first,
{
    if first == 0 {
        t.vars
    } else {
        let rest = vars_enforced(p, properties, t, (first - 1) as nat);
        match p.stmts[first - 1].kind {
            StmtModel::Call { result, callee, args, .. } => if impossible(
                p,
                properties,
                t.exprs,
                callee,
                args,
            ) {
                rest.insert(result.0, Stage::Rt(Reason::CtOnlyWithRuntimeArgs(callee)))
            } else {
                rest
            },
            _ => rest,
        }
    }
}

pub open spec fn stmt_reports(
    p: CoreModel,
    properties: Map<usize, EffectProperties>,
    exprs: Map<usize, Stage>,
    first: nat,
) -> Seq<DiagnosticModel>
    decreases first,
{
    if first == 0 {
        Seq::empty()
    } else {
        let rest = stmt_reports(p, properties, exprs, (first - 1) as nat);
        match p.stmts[first - 1].kind {
            StmtModel::Call { callee, args, .. } => if impossible(
                p,
                properties,
                exprs,
                callee,
                args,
            ) {
                rest.push(ct_only_report(callee, p.stmts[first - 1].span))
            } else {
                rest
            },
            _ => rest,
        }
    }
}

fn is_ct_only_function(function: &FunctionDecl, sema: &SemanticTables) -> (b: bool)
    ensures
        b == ct_only(function@, sema.effect_properties@),
{
    broadcast use vstd::std_specs::hash::group_hash_axioms;

    if function.ct_only {
        return true;
    }
    let labels = &function.declared_effects.labels;
    let mut i: usize = 0;
    while i < labels.len()
        invariant
            i <= labels@.len(),
            labels@ == function@.declared_effects,
            !function@.ct_only,
            forall|j: int|
                0 <= j < i ==> !(sema.effect_properties@.contains_key(
                    (#[trigger] labels@[j]).0,
                ) && sema.effect_properties@[labels@[j].0].ct_only),
        decreases labels@.len() - i,
    {
        if let Some(property) = sema.effect_properties.get(&labels[i].0) {
            if property.ct_only {
                assert(function@.declared_effects[i as int] == labels@[i as int]);
                return true;
            }
        }
        i += 1;
    }
    false
}

fn has_runtime_arg(exprs: &DenseMap<Stage>, list: &Vec<ExprId>) -> (found: bool)
    ensures
        found == any_runtime(exprs@, list@),
{
    let mut i: usize = 0;
    while i < list.len()
        invariant
            i <= list@.len(),
            forall|j: int|
                0 <= j < i ==> exprs@.contains_key((#[trigger] list@[j]).0)
                    && exprs@[list@[j].0] is Ct,
        decreases list@.len() - i,
    {
        let ready = match exprs.get(list[i].0) {
            Some(Stage::Ct) => true,
            _ => false,
        };
        if !ready {
            assert(!(exprs@.contains_key(list@[i as int].0) && exprs@[list@[i as int].0] is Ct));
            return true;
        }
        i += 1;
    }
    false
}

fn is_impossible(
    program: &CoreProgram,
    sema: &SemanticTables,
    exprs: &DenseMap<Stage>,
    callee: FuncId,
    args: &Vec<ExprId>,
) -> (b: bool)
    ensures
        b == impossible(program@, sema.effect_properties@, exprs@, callee, args@),
{
    match program.function(callee) {
        Some(function) => is_ct_only_function(function, sema) && has_runtime_arg(exprs, args),
        None => false,
    }
}

fn report_ct_only(diagnostics: &mut DiagnosticBag, callee: FuncId, span: Span)
    ensures
        final(diagnostics)@ == old(diagnostics)@.push(ct_only_report(callee, span)),
{
    let message = numbered(
        "ct-only function call f",
        callee.0,
        " has runtime arguments; this call cannot be residualized",
    );
    diagnostics.error("BTA_CT_ONLY_RUNTIME_ARG", message.as_str(), span);
}

fn enforce_ct_only_exprs(
    program: &CoreProgram,
    sema: &SemanticTables,
    exprs: &mut DenseMap<Stage>,
    diagnostics: &mut DiagnosticBag,
)
    ensures
        final(exprs)@ == exprs_enforced(
            program@,
            sema.effect_properties@,
            old(exprs)@,
            program@.exprs.len(),
        ),
        final(diagnostics)@ == old(diagnostics)@ + expr_reports(
            program@,
            sema.effect_properties@,
            old(exprs)@,
            program@.exprs.len(),
        ),
{
    let ghost before = exprs@;
    let ghost said = diagnostics@;
    let ghost properties = sema.effect_properties@;
    let mut i: usize = 0;
    assert(diagnostics@ =~= said + expr_reports(program@, properties, before, 0));
    while i < program.exprs.len()
        invariant
            i <= program.exprs@.len(),
            properties == sema.effect_properties@,
            exprs@ == exprs_enforced(program@, properties, before, i as nat),
            diagnostics@ == said + expr_reports(program@, properties, before, i as nat),
        decreases program.exprs@.len() - i,
    {
        let node = &program.exprs[i];
        assert(program@.exprs[i as int] == node@);
        if let ExprKind::PureCall { callee, args } = &node.kind {
            if is_impossible(program, sema, exprs, *callee, args) {
                exprs.insert(i, Stage::Rt(Reason::CtOnlyWithRuntimeArgs(*callee)));
                report_ct_only(diagnostics, *callee, node.span);
            }
        }
        assert(diagnostics@ =~= said + expr_reports(program@, properties, before, (i + 1) as nat));
        i += 1;
    }
}

fn enforce_ct_only_stmts(
    program: &CoreProgram,
    sema: &SemanticTables,
    exprs: &DenseMap<Stage>,
    vars: &mut DenseMap<Stage>,
    diagnostics: &mut DiagnosticBag,
)
    ensures
        final(vars)@ == vars_enforced(
            program@,
            sema.effect_properties@,
            Stages { exprs: exprs@, vars: old(vars)@ },
            program@.stmts.len(),
        ),
        final(diagnostics)@ == old(diagnostics)@ + stmt_reports(
            program@,
            sema.effect_properties@,
            exprs@,
            program@.stmts.len(),
        ),
{
    let ghost before = Stages { exprs: exprs@, vars: vars@ };
    let ghost said = diagnostics@;
    let ghost properties = sema.effect_properties@;
    let mut i: usize = 0;
    assert(diagnostics@ =~= said + stmt_reports(program@, properties, exprs@, 0));
    while i < program.stmts.len()
        invariant
            i <= program.stmts@.len(),
            properties == sema.effect_properties@,
            before.exprs == exprs@,
            vars@ == vars_enforced(program@, properties, before, i as nat),
            diagnostics@ == said + stmt_reports(program@, properties, exprs@, i as nat),
        decreases program.stmts@.len() - i,
    {
        let node = &program.stmts[i];
        assert(program@.stmts[i as int] == node@);
        if let StmtKind::Call { result, callee, args, .. } = &node.kind {
            if is_impossible(program, sema, exprs, *callee, args) {
                vars.insert(result.0, Stage::Rt(Reason::CtOnlyWithRuntimeArgs(*callee)));
                report_ct_only(diagnostics, *callee, node.span);
            }
        }
        assert(diagnostics@ =~= said + stmt_reports(program@, properties, exprs@, (i + 1) as nat));
        i += 1;
    }
}

// ---------------------------------------------------------------------------
// The pass
// ---------------------------------------------------------------------------

/// Before anything else is known, an expression is ready at compile time where
/// its value has been found.
pub open spec fn initial(p: CoreModel, cached: Set<usize>) -> Map<usize, Stage> {
    Map::new(
        |e: usize| e < p.exprs.len(),
        |e: usize|
            if cached.contains(e) {
                Stage::Ct
            } else {
                Stage::Rt(Reason::UnclassifiedRuntime)
            },
    )
}

/// The walk that applies the directives of a program.
pub open spec fn directed(p: CoreModel, cached: Set<usize>) -> Walk {
    crate::passes::bta::directives::walk_functions(
        p,
        p.functions.len(),
        Walk { cached, exprs: initial(p, cached), seen: Set::empty() },
    )
}

/// The stages once directives have been applied and reasons carried.
pub open spec fn carried(p: CoreModel, cached: Set<usize>) -> Stages {
    crate::passes::bta::reasons::rounds(
        p,
        Stages { exprs: directed(p, cached).exprs, vars: Map::empty() },
        crate::passes::bta::reasons::round_limit(p),
    )
}

/// The stages in the end.
pub open spec fn staged(
    p: CoreModel,
    properties: Map<usize, EffectProperties>,
    cached: Set<usize>,
) -> Stages {
    let t = carried(p, cached);
    let exprs = exprs_enforced(p, properties, t.exprs, p.exprs.len());
    Stages {
        exprs,
        vars: vars_enforced(
            p,
            properties,
            Stages { exprs, vars: all_blocked(p, properties, t.vars, p.stmts.len()) },
            p.stmts.len(),
        ),
    }
}

/// What is reported.
pub open spec fn reports(
    p: CoreModel,
    properties: Map<usize, EffectProperties>,
    cached: Set<usize>,
) -> Seq<DiagnosticModel> {
    let exprs = carried(p, cached).exprs;
    expr_reports(p, properties, exprs, p.exprs.len()) + stmt_reports(
        p,
        properties,
        exprs_enforced(p, properties, exprs, p.exprs.len()),
        p.stmts.len(),
    )
}

/// Assigns every expression to compile time or to run time. An expression whose
/// value has been found is ready at compile time, unless it is a call that cannot
/// be made.
pub fn run(ct: CtPropagated) -> (out: BtaClassified)
    requires
        ct.program@.acyclic(),
    ensures
        out.program == ct.program,
        out.sema == ct.sema,
        out.mono == ct.mono,
        out.ct == ct.ct,
        out.bta.stage_of_expr@ == staged(
            ct.program@,
            ct.sema.effect_properties@,
            ct.ct.ct_cache@.dom(),
        ).exprs,
        out.bta.stage_of_var@ == staged(
            ct.program@,
            ct.sema.effect_properties@,
            ct.ct.ct_cache@.dom(),
        ).vars,
        forall|e: usize| #[trigger]
            ct.ct.ct_cache@.contains_key(e) && e < ct.program@.exprs.len() && !refused(
                ct.program@,
                ct.sema.effect_properties@,
                carried(ct.program@, ct.ct.ct_cache@.dom()).exprs,
                e,
            ) ==> out.bta.stage_of_expr@.contains_key(e) && out.bta.stage_of_expr@[e] is Ct,
        out.bta.knownness_of_expr@.dom() == Set::<usize>::empty(),
        out.bta.handler_discharge@.dom() == Set::<usize>::empty(),
        out.bta.clause_discharge@.dom() == Set::<usize>::empty(),
        out.diagnostics@ == ct.diagnostics@ + reports(
            ct.program@,
            ct.sema.effect_properties@,
            ct.ct.ct_cache@.dom(),
        ),
{
    let (program, mut diagnostics, sema, mono, ct_tables) = ct.into_parts();
    let ghost cached = ct_tables.ct_cache@.dom();
    let ghost said = diagnostics@;
    let mut exprs: DenseMap<Stage> = DenseMap::new();
    let mut vars: DenseMap<Stage> = DenseMap::new();
    let mut i: usize = 0;
    assert(exprs@ =~= initial(program@, cached).restrict(Set::new(|k: usize| k < 0)));
    while i < program.exprs.len()
        invariant
            i <= program.exprs@.len(),
            cached == ct_tables.ct_cache@.dom(),
            exprs@ == initial(program@, cached).restrict(Set::new(|k: usize| k < i)),
        decreases program.exprs@.len() - i,
    {
        if ct_tables.ct_cache.contains_key(i) {
            exprs.insert(i, Stage::Ct);
        } else {
            exprs.insert(i, Stage::Rt(Reason::UnclassifiedRuntime));
        }
        assert(exprs@ =~= initial(program@, cached).restrict(Set::new(|k: usize| k < i + 1)));
        i += 1;
    }
    assert(exprs@ =~= initial(program@, cached));
    apply_all_directives(&program, &ct_tables.ct_cache, &mut exprs);
    propagate_runtime_reasons(&program, &mut exprs, &mut vars);
    assert((Stages { exprs: exprs@, vars: vars@ }) == carried(program@, cached));
    classify_non_thunkable_effects(&program, &sema, &mut vars);
    enforce_ct_only_exprs(&program, &sema, &mut exprs, &mut diagnostics);
    enforce_ct_only_stmts(&program, &sema, &exprs, &mut vars, &mut diagnostics);
    assert(diagnostics@ =~= said + reports(program@, sema.effect_properties@, cached));
    proof {
        let properties = sema.effect_properties@;
        assert forall|e: usize| #[trigger]
            ct_tables.ct_cache@.contains_key(e) && e < program@.exprs.len() && !refused(
                program@,
                properties,
                carried(program@, cached).exprs,
                e,
            ) implies exprs@.contains_key(e) && exprs@[e] is Ct by {
            lemma_all_staged(program@, properties, cached, e);
            lemma_cached_is_ready(program@, properties, cached, e);
        }
    }
    let bta = BtaTables {
        stage_of_expr: exprs,
        stage_of_var: vars,
        knownness_of_expr: DenseMap::new(),
        handler_discharge: DenseMap::new(),
        clause_discharge: DenseMap::new(),
    };
    assert(bta.knownness_of_expr@.dom() =~= Set::<usize>::empty());
    assert(bta.handler_discharge@.dom() =~= Set::<usize>::empty());
    assert(bta.clause_discharge@.dom() =~= Set::<usize>::empty());
    BtaClassified::new(program, diagnostics, sema, mono, ct_tables, bta)
}

// ---------------------------------------------------------------------------
// Laws
// ---------------------------------------------------------------------------

/// An expression is a call that cannot be made.
pub open spec fn refused(
    p: CoreModel,
    properties: Map<usize, EffectProperties>,
    exprs: Map<usize, Stage>,
    e: usize,
) -> bool {
    match p.exprs[e as int].kind {
        ExprModel::PureCall { callee, args } => impossible(
            p,
            properties,
            exprs_enforced(p, properties, exprs, e as nat),
            callee,
            args,
        ),
        _ => false,
    }
}

proof fn lemma_enforced(
    p: CoreModel,
    properties: Map<usize, EffectProperties>,
    exprs: Map<usize, Stage>,
    e: usize,
    first: nat,
)
    requires
        first <= p.exprs.len() <= usize::MAX,
        exprs.contains_key(e),
    ensures
        exprs_enforced(p, properties, exprs, first).contains_key(e),
        exprs[e] is Rt ==> exprs_enforced(p, properties, exprs, first)[e] is Rt,
        !refused(p, properties, exprs, e) ==> exprs_enforced(p, properties, exprs, first)[e]
            == exprs[e],
    decreases first,
{
    if first > 0 {
        lemma_enforced(p, properties, exprs, e, (first - 1) as nat);
    }
}

/// Every expression of a program has a stage.
pub proof fn lemma_all_staged(
    p: CoreModel,
    properties: Map<usize, EffectProperties>,
    cached: Set<usize>,
    e: usize,
)
    requires
        p.acyclic(),
        e < p.exprs.len() <= usize::MAX,
    ensures
        staged(p, properties, cached).exprs.contains_key(e),
{
    let w = Walk { cached, exprs: initial(p, cached), seen: Set::empty() };
    assert(w.exprs.dom().contains(e));
    crate::passes::bta::directives::lemma_directives_keep(p, ExprId(e), p.functions.len(), w);
    let t = Stages { exprs: directed(p, cached).exprs, vars: Map::empty() };
    assert(t.exprs.contains_key(e));
    crate::passes::bta::reasons::lemma_rounds_advance(
        p,
        t,
        crate::passes::bta::reasons::round_limit(p),
    );
    lemma_enforced(p, properties, carried(p, cached).exprs, e, p.exprs.len());
}

/// An expression whose value has been found is ready at compile time, unless it
/// is itself a call that cannot be made.
pub proof fn lemma_cached_is_ready(
    p: CoreModel,
    properties: Map<usize, EffectProperties>,
    cached: Set<usize>,
    e: usize,
)
    requires
        p.acyclic(),
        e < p.exprs.len() <= usize::MAX,
        cached.contains(e),
        !refused(p, properties, carried(p, cached).exprs, e),
    ensures
        staged(p, properties, cached).exprs[e] is Ct,
{
    let w = Walk { cached, exprs: initial(p, cached), seen: Set::empty() };
    assert(w.exprs.contains_key(e));
    crate::passes::bta::directives::lemma_directives_keep(p, ExprId(e), p.functions.len(), w);
    let t = Stages { exprs: directed(p, cached).exprs, vars: Map::empty() };
    assert(t.exprs.dom().contains(e));
    assert(t.exprs.contains_key(e));
    crate::passes::bta::reasons::lemma_rounds_advance(
        p,
        t,
        crate::passes::bta::reasons::round_limit(p),
    );
    lemma_enforced(p, properties, carried(p, cached).exprs, e, p.exprs.len());
}

} // verus!
