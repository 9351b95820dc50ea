use cielo::common::densemap::DenseMap;
use cielo::common::diagnostics::DiagnosticBag;
use cielo::common::ids::{EffectLabelId, FuncId, SourceId, StmtId, SymbolId, TypeId, VarId};
use cielo::common::span::Span;
use cielo::ir::core_ir::{
    CoreProgram, ExprKind, ExprNode, FunctionDecl, HandlerClause, HandlerDef, Literal, StmtKind,
    StmtNode,
};
use cielo::passes::comptime_check::{
    check_evaluate_classify_invariants, check_residualize_specialize_invariants, Fault,
    InvariantViolation,
};
use cielo::pipeline::phases::{BtaClassified, Residualized};
use cielo::pipeline::reason::{Reason, Stage};
use cielo::pipeline::tables::{
    ArcResidualOp, ArcResidualOpKind, BorrowHazardKind, BorrowHotspot, BranchDecision, BtaTables,
    ClauseDischarge, ConstantEmbedStrategy, ConstantEntry, ConstantKey, CtCacheKey, CtEvalStats,
    CtPropagationTables, HandlerDischarge, Knownness, MonomorphizationSummary, ResidualTables,
    ScalarLiteralKey, SemanticTables,
};
use cielo::sema::effect::SortedEffectRow;

fn span() -> Span {
    Span::new(SourceId::new(0), 0, 0)
}

/// One expression, two statements, one function and one handler with a clause.
fn program() -> CoreProgram {
    let mut program = CoreProgram::new();
    let yes = program.push_expr(ExprNode {
        span: span(),
        kind: ExprKind::Literal(Literal::Bool(true)),
    });
    let end = program.push_stmt(StmtNode { span: span(), kind: StmtKind::Return(yes) });
    program.push_stmt(StmtNode { span: span(), kind: StmtKind::Return(yes) });
    program.add_function(FunctionDecl {
        name: SymbolId::new(0),
        params: vec![],
        param_types: vec![],
        return_type: TypeId::new(0),
        declared_effects: SortedEffectRow::empty(),
        body: end,
        ct_only: false,
        span: span(),
    });
    program.add_handler(HandlerDef {
        effect: EffectLabelId::new(0),
        return_param: VarId::new(0),
        return_body: end,
        clauses: vec![HandlerClause {
            operation: SymbolId::new(1),
            params: vec![],
            resume_param: None,
            body: end,
            span: span(),
        }],
        span: span(),
    });
    program
}

fn bta() -> BtaTables {
    let mut bta = BtaTables {
        stage_of_expr: DenseMap::new(),
        stage_of_var: DenseMap::new(),
        knownness_of_expr: DenseMap::new(),
        handler_discharge: DenseMap::new(),
        clause_discharge: DenseMap::new(),
    };
    bta.stage_of_expr.insert(0, Stage::Ct);
    bta.knownness_of_expr.insert(0, Knownness::KnownLocal);
    bta.handler_discharge.insert(0, HandlerDischarge { dischargeable: true, reason: None });
    bta.clause_discharge.insert(0, vec![ClauseDischarge { dischargeable: true, reason: None }]);
    bta
}

fn ct() -> CtPropagationTables {
    let mut ct_cache = DenseMap::new();
    ct_cache.insert(0, Literal::Bool(true));
    let mut branch_decisions = DenseMap::new();
    branch_decisions.insert(0, BranchDecision::LiveTrue);
    CtPropagationTables {
        ct_cache,
        branch_decisions,
        file_deps: vec![],
        cache_key: CtCacheKey::default(),
        eval_stats: CtEvalStats::default(),
    }
}

fn mono() -> MonomorphizationSummary {
    let mut source_to_mono = DenseMap::new();
    source_to_mono.insert(0, vec![FuncId::new(0)]);
    MonomorphizationSummary { source_to_mono }
}

fn classified() -> BtaClassified {
    BtaClassified::new(
        program(),
        DiagnosticBag::new(),
        SemanticTables::with_counts(1, 2),
        mono(),
        ct(),
        bta(),
    )
}

fn residual() -> Residualized {
    Residualized::new(
        program(),
        DiagnosticBag::new(),
        SemanticTables::with_counts(1, 2),
        mono(),
        ct(),
        bta(),
        ResidualTables::from_summary(DenseMap::new()),
    )
}

fn first<C: Fn(&mut BtaClassified)>(change: C) -> Option<InvariantViolation> {
    let mut program = classified();
    change(&mut program);
    check_evaluate_classify_invariants(&program)
}

fn second<C: Fn(&mut Residualized)>(change: C) -> Option<InvariantViolation> {
    let mut program = residual();
    change(&mut program);
    check_residualize_specialize_invariants(&program)
}

fn fault(found: Option<InvariantViolation>) -> Option<Fault> {
    found.map(|found| found.fault)
}

#[test]
fn a_sound_program_has_no_fault() {
    assert_eq!(first(|_| {}), None);
    assert_eq!(second(|_| {}), None);
}

#[test]
fn a_table_that_is_too_short_is_found() {
    assert_eq!(
        fault(first(|c| c.bta.stage_of_expr = DenseMap::new())),
        Some(Fault::StageTableSize)
    );
    assert_eq!(
        fault(first(|c| c.bta.knownness_of_expr = DenseMap::new())),
        Some(Fault::KnownnessTableSize)
    );
    assert_eq!(fault(first(|c| c.sema.type_of_expr = vec![])), Some(Fault::TypeTableSize));
    assert_eq!(
        fault(first(|c| c.sema.effects_of_expr = vec![])),
        Some(Fault::ExprEffectTableSize)
    );
    assert_eq!(
        fault(first(|c| c.sema.ownership_of_expr = vec![])),
        Some(Fault::ExprOwnershipTableSize)
    );
    assert_eq!(
        fault(first(|c| c.sema.effects_of_stmt = vec![])),
        Some(Fault::StmtEffectTableSize)
    );
}

#[test]
fn a_key_that_names_nothing_is_found() {
    assert_eq!(
        first(|c| c.ct.ct_cache.insert(7, Literal::Unit)),
        Some(InvariantViolation { fault: Fault::CtCacheKey, at: 7 })
    );
    assert_eq!(
        first(|c| c.ct.branch_decisions.insert(8, BranchDecision::Unknown)),
        Some(InvariantViolation { fault: Fault::BranchDecisionKey, at: 8 })
    );
    let moved = |c: &mut BtaClassified| {
        c.bta.stage_of_expr = DenseMap::new();
        c.bta.stage_of_expr.insert(4, Stage::Ct);
    };
    assert_eq!(first(moved), Some(InvariantViolation { fault: Fault::StageKey, at: 4 }));
    let moved = |c: &mut BtaClassified| {
        c.bta.knownness_of_expr = DenseMap::new();
        c.bta.knownness_of_expr.insert(5, Knownness::Unknown);
    };
    assert_eq!(first(moved), Some(InvariantViolation { fault: Fault::KnownnessKey, at: 5 }));
}

#[test]
fn a_decision_that_does_not_go_with_its_value_is_found() {
    assert_eq!(
        fault(first(|c| c.ct.ct_cache = DenseMap::new())),
        Some(Fault::DecisionWithoutLiteral)
    );
    assert_eq!(
        fault(first(|c| c.ct.branch_decisions.insert(0, BranchDecision::LiveFalse))),
        Some(Fault::InconsistentDecision)
    );
    assert_eq!(first(|c| c.ct.branch_decisions.insert(0, BranchDecision::Unknown)), None);
}

#[test]
fn handlers_that_are_not_classified_are_found() {
    assert_eq!(
        fault(first(|c| c.bta.handler_discharge = DenseMap::new())),
        Some(Fault::HandlerTableSize)
    );
    let moved = |c: &mut BtaClassified| {
        c.bta.handler_discharge = DenseMap::new();
        c.bta.handler_discharge.insert(3, HandlerDischarge { dischargeable: true, reason: None });
    };
    assert_eq!(fault(first(moved)), Some(Fault::HandlerKey));
    assert_eq!(
        fault(first(|c| c.bta.clause_discharge.insert(3, vec![]))),
        Some(Fault::ClauseKey)
    );
    assert_eq!(
        fault(first(|c| c.bta.clause_discharge = DenseMap::new())),
        Some(Fault::MissingClauses)
    );
    assert_eq!(
        fault(first(|c| c.bta.clause_discharge.insert(0, vec![]))),
        Some(Fault::ClauseArity)
    );
}

#[test]
fn an_effect_that_is_still_declared_is_found() {
    assert_eq!(
        fault(second(|c| {
            c.program.functions[0].declared_effects =
                SortedEffectRow::singleton(EffectLabelId::new(0));
        })),
        Some(Fault::DeclaredEffects)
    );
}

#[test]
fn residual_tables_that_do_not_fit_are_found() {
    assert_eq!(
        fault(second(|c| c.bta.stage_of_expr = DenseMap::new())),
        Some(Fault::StageTableSize)
    );
    assert_eq!(
        fault(second(|c| c.sema.ownership_of_expr = vec![])),
        Some(Fault::ExprOwnershipTableSize)
    );
    assert_eq!(
        fault(second(|c| c.mono.source_to_mono.insert(9, vec![FuncId::new(0)]))),
        Some(Fault::MonoSource)
    );
    assert_eq!(
        fault(second(|c| c.mono.source_to_mono.insert(0, vec![FuncId::new(9)]))),
        Some(Fault::MonoInstance)
    );
    assert_eq!(
        fault(second(|c| c.residual.function_effect_summary.insert(5, SortedEffectRow::empty()))),
        Some(Fault::SummaryKey)
    );
}

#[test]
fn reasons_that_name_no_function_are_found() {
    let gone = Reason::CtOnlyWithRuntimeArgs(FuncId::new(9));
    assert_eq!(
        fault(second(|c| c.bta.stage_of_expr.insert(0, Stage::Rt(gone)))),
        Some(Fault::ExprReason)
    );
    assert_eq!(
        fault(second(|c| {
            let reason = Reason::Parameter { func: FuncId::new(4), index: 0 };
            c.bta.stage_of_var.insert(7, Stage::Rt(reason));
        })),
        Some(Fault::VarReason)
    );
    assert_eq!(
        fault(second(|c| {
            let discharge = HandlerDischarge { dischargeable: false, reason: Some(gone) };
            c.bta.handler_discharge.insert(0, discharge);
        })),
        Some(Fault::HandlerReason)
    );
    assert_eq!(
        fault(second(|c| {
            let clause = ClauseDischarge { dischargeable: false, reason: Some(gone) };
            c.bta.clause_discharge.insert(0, vec![clause]);
        })),
        Some(Fault::ClauseReason)
    );
}

fn entry(value: i64, size: usize) -> ConstantEntry {
    ConstantEntry {
        key: ConstantKey::Scalar(ScalarLiteralKey::Int(value)),
        strategy: ConstantEmbedStrategy::Pooled,
        estimated_size_bytes: size,
    }
}

#[test]
fn faults_of_the_constants_are_found() {
    let table = |entries: Vec<ConstantEntry>, cap: usize, unit: usize, total: usize| {
        let mut program = residual();
        program.residual.constant_table.entries = entries;
        program.residual.constant_table.entry_cap_bytes = cap;
        program.residual.constant_table.unit_cap_bytes = unit;
        program.residual.constant_table.total_size_bytes = total;
        fault(check_residualize_specialize_invariants(&program))
    };
    assert_eq!(table(vec![entry(1, 8), entry(2, 8)], 8, 16, 16), None);
    assert_eq!(
        table(vec![entry(1, 8), entry(1, 8)], 8, 16, 16),
        Some(Fault::DuplicateConstant)
    );
    assert_eq!(table(vec![entry(1, 9)], 8, 16, 8), Some(Fault::ConstantEntryCap));
    assert_eq!(table(vec![entry(1, 8)], 8, 16, 17), Some(Fault::ConstantUnitCap));
    assert_eq!(table(vec![entry(1, 8)], 8, 16, 9), Some(Fault::ConstantAccounting));
}

fn op(stmt: usize, retain: bool, var: usize) -> ArcResidualOp {
    let var = VarId::new(var);
    ArcResidualOp {
        stmt: StmtId::new(stmt),
        kind: if retain {
            ArcResidualOpKind::Retain { var }
        } else {
            ArcResidualOpKind::Release { var }
        },
    }
}

#[test]
fn faults_of_the_counts_are_found() {
    let counts = |planned: (u32, u32), removed: (u32, u32), left: (u32, u32)| {
        fault(second(|c| {
            c.residual.arc_stats.planned_retain_ops = planned.0;
            c.residual.arc_stats.planned_release_ops = planned.1;
            c.residual.arc_stats.removed_retain_ops = removed.0;
            c.residual.arc_stats.removed_release_ops = removed.1;
            c.residual.arc_stats.final_retain_ops = left.0;
            c.residual.arc_stats.final_release_ops = left.1;
        }))
    };
    assert_eq!(counts((0, 0), (0, 0), (1, 0)), Some(Fault::RetainCount));
    assert_eq!(counts((0, 0), (0, 0), (0, 1)), Some(Fault::ReleaseCount));
    assert_eq!(counts((3, 0), (1, 0), (1, 0)), Some(Fault::RetainAccounting));
    assert_eq!(counts((0, 3), (0, 1), (0, 1)), Some(Fault::ReleaseAccounting));
    assert_eq!(counts((1, 0), (0, 0), (1, 0)), Some(Fault::RetainPlanCount));
    assert_eq!(counts((0, 1), (0, 0), (0, 1)), Some(Fault::ReleasePlanCount));
}

#[test]
fn faults_of_the_plan_are_found() {
    let plan = |ops: Vec<ArcResidualOp>| {
        let mut program = residual();
        program.residual.arc_plan.ops = ops;
        check_residualize_specialize_invariants(&program)
    };
    assert_eq!(
        fault(plan(vec![op(1, true, 0), op(0, true, 0)])),
        Some(Fault::ArcPlanOrder)
    );
    assert_eq!(
        fault(plan(vec![op(0, true, 0), op(0, true, 0)])),
        Some(Fault::ArcPlanOrder)
    );
    assert_eq!(fault(plan(vec![op(9, true, 0)])), Some(Fault::ArcPlanStmt));
}

#[test]
fn faults_of_the_inventories_are_found() {
    assert_eq!(
        fault(second(|c| c.residual.orc_foundation.candidate_root_count = 1)),
        Some(Fault::OrcRootCount)
    );
    assert_eq!(
        fault(second(|c| c.residual.orc_foundation.candidate_link_count = 1)),
        Some(Fault::OrcLinkCount)
    );
    assert_eq!(
        fault(second(|c| {
            let link = (VarId::new(1), VarId::new(2));
            c.residual.orc_foundation.candidate_links = vec![link, link];
            c.residual.orc_foundation.candidate_link_count = 2;
        })),
        Some(Fault::OrcLinkOrder)
    );
    assert_eq!(
        fault(second(|c| c.residual.borrow_hazards.alias_fanout_count = 1)),
        Some(Fault::AliasFanoutCount)
    );
    assert_eq!(
        fault(second(|c| c.residual.borrow_hazards.projection_count = 1)),
        Some(Fault::ProjectionCount)
    );
    assert_eq!(
        fault(second(|c| c.residual.borrow_hazards.call_escape_count = 1)),
        Some(Fault::CallEscapeCount)
    );
    let spot = BorrowHotspot { stmt: StmtId::new(0), kind: BorrowHazardKind::Projection };
    assert_eq!(
        fault(second(|c| c.residual.borrow_hazards.hotspots = vec![spot])),
        Some(Fault::HotspotInventory)
    );
    assert_eq!(
        fault(second(|c| {
            c.residual.borrow_hazards.projection_sites = vec![StmtId::new(0), StmtId::new(0)];
            c.residual.borrow_hazards.projection_count = 2;
            c.residual.borrow_hazards.hotspots = vec![spot, spot];
        })),
        Some(Fault::HotspotOrder)
    );
}
