use cielo::common::densemap::DenseMap;
use cielo::common::diagnostics::DiagnosticBag;
use cielo::common::ids::{
    EffectLabelId, ExprId, FuncId, HandlerId, SourceId, StmtId, SymbolId, TypeId, VarId,
};
use cielo::common::span::Span;
use cielo::ir::cfg::{CfgInstruction, CfgTerminator};
use cielo::ir::core_ir::{
    CoreProgram, EffectDecl, ExprKind, ExprNode, FunctionDecl, HandlerClause, HandlerDef, Literal,
    StmtKind, StmtNode,
};
use cielo::ir::linear::{LinearExpr, LinearProgram, LinearStmt};
use cielo::passes::c_emit::{self, CountedCfg};
use cielo::passes::linearize::analysis::{
    analyze_clause_resume, classify_clause_convention, clause_resume_use_range,
    is_tail_resumptive_clause, ClauseConvention, ResumeQualifier, ResumeUseBound,
};
use cielo::passes::handler_specialize::candidates::collect_specialize_candidates;
use cielo::passes::handler_specialize::specialize::{ensure_specialized, Specializer};
use cielo::passes::linearize::ending::lowering_ends;
use cielo::passes::linearize::lowering::{lower_program, Linearizer};
use cielo::passes::{bta, cfg_lower, ct_eval, function_graph, handler_specialize, linearize, residualize};
use cielo::pipeline::compiler::{Endianness, TargetSpec};
use cielo::pipeline::phases::{Monomorphized, Residualized};
use cielo::pipeline::tables::{
    ArcStats, MonomorphizationSummary, SemanticTables, SpecializationStats,
};
use cielo::sema::effect::SortedEffectRow;
use std::collections::HashMap;

fn span() -> Span {
    Span::new(SourceId::new(0), 0, 0)
}

fn var(n: usize) -> VarId {
    VarId::new(n)
}

fn expr(program: &mut CoreProgram, kind: ExprKind) -> ExprId {
    program.push_expr(ExprNode { span: span(), kind })
}

fn stmt(program: &mut CoreProgram, kind: StmtKind) -> StmtId {
    program.push_stmt(StmtNode { span: span(), kind })
}

fn read(program: &mut CoreProgram, n: usize) -> ExprId {
    expr(program, ExprKind::Var(var(n)))
}

fn function(program: &mut CoreProgram, name: usize, params: &[usize], body: StmtId) -> FuncId {
    program.add_function(FunctionDecl {
        name: SymbolId::new(name),
        params: params.iter().map(|n| var(*n)).collect(),
        param_types: vec![TypeId::new(0); params.len()],
        return_type: TypeId::new(0),
        declared_effects: SortedEffectRow::empty(),
        body,
        ct_only: false,
        span: span(),
    })
}

fn perform(program: &mut CoreProgram, result: usize, args: Vec<ExprId>, next: StmtId) -> StmtId {
    stmt(
        program,
        StmtKind::Perform {
            result: Some(var(result)),
            effect: EffectLabelId::new(0),
            operation: SymbolId::new(3),
            args,
            next,
        },
    )
}

fn clause(params: &[usize], resume: Option<usize>, body: StmtId) -> HandlerClause {
    HandlerClause {
        operation: SymbolId::new(3),
        params: params.iter().map(|n| var(*n)).collect(),
        resume_param: resume.map(var),
        body,
        span: span(),
    }
}

fn handler(program: &mut CoreProgram, clauses: Vec<HandlerClause>, return_body: StmtId) -> HandlerId {
    program.add_handler(HandlerDef {
        effect: EffectLabelId::new(0),
        return_param: var(90),
        return_body,
        clauses,
        span: span(),
    })
}

fn lower(program: &CoreProgram) -> (LinearProgram, Vec<&'static str>) {
    let mut diagnostics = DiagnosticBag::new();
    let linear = lower_program(program, &HashMap::new(), &mut diagnostics);
    (linear, diagnostics.items.iter().map(|item| item.code).collect())
}

#[test]
fn a_plain_function_is_lowered_as_it_is() {
    let mut program = CoreProgram::new();
    let one = expr(&mut program, ExprKind::Literal(Literal::Int(1)));
    let v = read(&mut program, 1);
    let end = stmt(&mut program, StmtKind::Return(v));
    let body = stmt(&mut program, StmtKind::Let { binding: var(1), value: one, next: end });
    let f = function(&mut program, 7, &[0], body);
    program.set_entrypoints(vec![f]);
    let (linear, codes) = lower(&program);
    assert!(codes.is_empty());
    assert_eq!(linear.functions.len(), 1);
    assert_eq!(linear.functions[0].name, SymbolId::new(7));
    assert_eq!(linear.functions[0].params, vec![var(0)]);
    assert_eq!(linear.entrypoints.len(), 1);
    match &linear.stmts[linear.functions[0].body.0].kind {
        LinearStmt::Let { binding, value, next } => {
            assert_eq!(*binding, var(1));
            assert!(matches!(linear.exprs[value.0], LinearExpr::Literal(Literal::Int(1))));
            assert!(matches!(linear.stmts[next.0].kind, LinearStmt::Return(_)));
        }
        _ => panic!("no binding"),
    }
}

#[test]
fn functions_that_are_never_called_are_left_out() {
    let mut program = CoreProgram::new();
    let one = expr(&mut program, ExprKind::Literal(Literal::Int(1)));
    let end = stmt(&mut program, StmtKind::Return(one));
    function(&mut program, 1, &[], end);
    let called = function(&mut program, 2, &[], end);
    let call = expr(&mut program, ExprKind::PureCall { callee: called, args: vec![] });
    let body = stmt(&mut program, StmtKind::Return(call));
    let main = function(&mut program, 3, &[], body);
    program.set_entrypoints(vec![main]);
    assert_eq!(
        function_graph::collect_reachable_functions(&program),
        vec![called, main]
    );
    let (linear, _) = lower(&program);
    let names: Vec<SymbolId> = linear.functions.iter().map(|f| f.name).collect();
    assert_eq!(names, vec![SymbolId::new(2), SymbolId::new(3)]);
    let (pruned, remap) = function_graph::prune_unreachable_functions(program);
    assert_eq!(remap, vec![None, Some(FuncId::new(0)), Some(FuncId::new(1))]);
    assert_eq!(pruned.functions.len(), 2);
    assert_eq!(pruned.entrypoints, vec![FuncId::new(1)]);
    assert!(matches!(
        pruned.exprs[call.0].kind,
        ExprKind::PureCall { callee, .. } if callee == FuncId::new(0)
    ));
}

#[test]
fn unknown_targets_are_reported() {
    let mut program = CoreProgram::new();
    let one = expr(&mut program, ExprKind::Literal(Literal::Int(1)));
    let end = stmt(&mut program, StmtKind::Return(one));
    let body = stmt(
        &mut program,
        StmtKind::Call {
            result: var(1),
            callee: FuncId::new(9),
            args: vec![],
            effects: SortedEffectRow::empty(),
            next: end,
        },
    );
    let f = function(&mut program, 1, &[], body);
    program.set_entrypoints(vec![f]);
    assert_eq!(lower(&program).1, vec!["LINEARIZE_UNKNOWN_CALLEE"]);
    let handle = stmt(
        &mut program,
        StmtKind::Handle { handler: HandlerId::new(4), body: end, next: None },
    );
    program.functions[0].body = handle;
    assert_eq!(lower(&program).1, vec!["LINEARIZE_UNKNOWN_HANDLER"]);
    let resume = stmt(
        &mut program,
        StmtKind::Resume { result: var(2), resume: var(3), arg: one, next: end },
    );
    program.functions[0].body = resume;
    assert_eq!(lower(&program).1, vec!["LINEARIZE_RESUME_OUTSIDE_HANDLER"]);
}

/// A handler whose clause resumes with its argument, round a body that performs
/// and returns what it gets.
fn handled(resume_in_tail: bool) -> CoreProgram {
    let mut program = CoreProgram::new();
    program.add_effect(EffectDecl { label: EffectLabelId::new(0), operations: vec![] });
    let one = expr(&mut program, ExprKind::Literal(Literal::Int(1)));
    let got = read(&mut program, 10);
    let give = stmt(&mut program, StmtKind::Return(got));
    let body = perform(&mut program, 10, vec![one], give);
    let argument = read(&mut program, 20);
    let after = if resume_in_tail { read(&mut program, 22) } else { one };
    let end = stmt(&mut program, StmtKind::Return(after));
    let resume = stmt(
        &mut program,
        StmtKind::Resume { result: var(22), resume: var(21), arg: argument, next: end },
    );
    let plain = read(&mut program, 90);
    let return_body = stmt(&mut program, StmtKind::Return(plain));
    let clauses = vec![clause(&[20], Some(21), resume)];
    let h = handler(&mut program, clauses, return_body);
    let whole = stmt(&mut program, StmtKind::Handle { handler: h, body, next: None });
    let f = function(&mut program, 1, &[], whole);
    program.set_entrypoints(vec![f]);
    program
}

#[test]
fn a_clause_that_resumes_last_is_direct() {
    let program = handled(true);
    let clause = &program.handlers[0].clauses[0];
    let known = analyze_clause_resume(&program, clause);
    assert_eq!(known.qualifier, ResumeQualifier::Linear);
    assert_eq!(known.min_uses, ResumeUseBound::One);
    assert_eq!(known.max_uses, ResumeUseBound::One);
    assert!(known.tail_resumptive);
    assert_eq!(classify_clause_convention(clause, known), ClauseConvention::Direct);
    let (linear, codes) = lower(&program);
    assert_eq!(codes, vec!["LINEARIZE_RESUME_QUALIFIER"]);
    let performs = linear
        .stmts
        .iter()
        .filter(|stmt| matches!(stmt.kind, LinearStmt::Perform { .. }))
        .count();
    assert_eq!(performs, 0);
}

#[test]
fn a_clause_that_goes_on_after_resuming_is_not_direct() {
    let program = handled(false);
    let clause = &program.handlers[0].clauses[0];
    let known = analyze_clause_resume(&program, clause);
    assert!(!known.tail_resumptive);
    assert_eq!(classify_clause_convention(clause, known), ClauseConvention::Control);
    assert!(!is_tail_resumptive_clause(&program, clause.body, var(21)));
}

#[test]
fn a_clause_that_never_resumes_is_abortive() {
    let mut program = CoreProgram::new();
    let one = expr(&mut program, ExprKind::Literal(Literal::Int(1)));
    let end = stmt(&mut program, StmtKind::Return(one));
    let range = clause_resume_use_range(&program, end, var(21));
    assert_eq!((range.min, range.max), (ResumeUseBound::Zero, ResumeUseBound::Zero));
    let known = analyze_clause_resume(&program, &clause(&[], Some(21), end));
    assert_eq!(known.qualifier, ResumeQualifier::Abortive);
}

#[test]
fn a_clause_that_resumes_twice_is_refused() {
    let mut program = handled(true);
    let one = ExprId::new(0);
    let last = stmt(&mut program, StmtKind::Return(one));
    let second = stmt(
        &mut program,
        StmtKind::Resume { result: var(31), resume: var(21), arg: one, next: last },
    );
    let first = stmt(
        &mut program,
        StmtKind::Resume { result: var(30), resume: var(21), arg: one, next: second },
    );
    program.handlers[0].clauses[0].body = first;
    let known = analyze_clause_resume(&program, &program.handlers[0].clauses[0]);
    assert_eq!(known.qualifier, ResumeQualifier::Multi);
    assert!(lower(&program).1.contains(&"LINEARIZE_MULTI_SHOT_RESUME"));
}

#[test]
fn an_operation_without_a_clause_is_reported() {
    let mut program = handled(true);
    program.handlers[0].clauses.clear();
    assert_eq!(lower(&program).1, vec!["LINEARIZE_MISSING_HANDLER_CLAUSE"]);
}

#[test]
fn a_resume_of_something_else_is_reported() {
    let mut program = handled(true);
    program.handlers[0].clauses[0].resume_param = Some(var(77));
    assert!(lower(&program).1.contains(&"LINEARIZE_RESUME_OUTSIDE_CLAUSE"));
}

#[test]
fn a_branch_becomes_blocks_that_meet_again() {
    let mut program = CoreProgram::new();
    let cond = read(&mut program, 0);
    let one = expr(&mut program, ExprKind::Literal(Literal::Int(1)));
    let v = read(&mut program, 1);
    let a = stmt(&mut program, StmtKind::Return(one));
    let b = stmt(&mut program, StmtKind::Return(cond));
    let choice = stmt(&mut program, StmtKind::If { cond, then_branch: a, else_branch: b });
    let end = stmt(&mut program, StmtKind::Return(v));
    let body = stmt(&mut program, StmtKind::Val { binding: var(1), value: choice, next: end });
    let f = function(&mut program, 1, &[0], body);
    program.set_entrypoints(vec![f]);
    let (linear, _) = lower(&program);
    let cfg = cfg_lower::lower_program(&linear);
    assert_eq!(cfg.functions.len(), 1);
    let start = match &cfg.blocks[cfg.functions[0].entry.0].terminator {
        CfgTerminator::Goto { target, .. } => *target,
        _ => panic!("no entry"),
    };
    let (left, right) = match &cfg.blocks[start.0].terminator {
        CfgTerminator::Branch { then_target, else_target, .. } => (*then_target, *else_target),
        _ => panic!("no branch"),
    };
    let target = |at: usize| match &cfg.blocks[at].terminator {
        CfgTerminator::Goto { target, args } => (*target, args.len()),
        _ => panic!("no jump"),
    };
    assert_eq!(target(left.0).0, target(right.0).0);
    assert_eq!(target(left.0).1, 1);
    let join = &cfg.blocks[target(left.0).0 .0];
    assert_eq!(join.params.len(), 1);
    assert_eq!(cfg.values[join.params[0].0], Some(var(1)));
    let last = match &join.terminator {
        CfgTerminator::Goto { target, .. } => *target,
        _ => panic!("no way on"),
    };
    assert!(matches!(cfg.blocks[last.0].terminator, CfgTerminator::Return(_)));
}

#[test]
fn a_handler_region_is_entered_and_left() {
    let mut program = handled(true);
    program.handlers[0].clauses.clear();
    let (linear, _) = lower(&program);
    let cfg = cfg_lower::lower_program(&linear);
    let enters = cfg
        .instructions
        .iter()
        .filter(|node| matches!(node.kind, CfgInstruction::HandlerEnter { .. }))
        .count();
    let exits = cfg
        .instructions
        .iter()
        .filter(|node| matches!(node.kind, CfgInstruction::HandlerExit { .. }))
        .count();
    assert_eq!(enters, exits);
}

fn host(_: cielo::ir::core_ir::BinaryOp, a: u64, _: u64) -> u64 {
    a
}

fn residual(program: CoreProgram) -> Residualized {
    let sema = SemanticTables::with_counts(program.exprs.len(), program.stmts.len());
    let mono = Monomorphized::new(
        program,
        DiagnosticBag::new(),
        sema,
        MonomorphizationSummary { source_to_mono: DenseMap::new() },
    );
    let target = TargetSpec::with_endianness(Endianness::Little);
    residualize::run(bta::run(ct_eval::run(mono, target, &host, vec![])))
}

#[test]
fn what_lowering_reports_comes_after_what_was_reported() {
    let mut before = residual(handled(true));
    before.diagnostics.error("FIRST", "first", span());
    let out = linearize::run(before);
    let codes: Vec<&str> = out.residual.diagnostics().items.iter().map(|item| item.code).collect();
    assert_eq!(codes, vec!["FIRST", "LINEARIZE_RESUME_QUALIFIER"]);
    assert_eq!(
        out.residual.diagnostics().items[1].message,
        "handler clause resume qualifier: Linear (min=one, max=one, tail=true)"
    );
}

#[test]
fn the_end_of_the_pipeline_takes_over_what_it_is_given() {
    for verify in [false, true] {
        let lowered = cfg_lower::run(linearize::run(residual(handled(true))));
        let said = lowered.linearized.residual.diagnostics().len();
        let again = cfg_lower::lower_program(&lowered.linearized.linear);
        let arc_stats = ArcStats { planned_retain_ops: 3, ..ArcStats::default() };
        let counted = CountedCfg {
            cfg: again,
            arc_stats,
            graph_errors: vec!["broken".to_owned()],
            live_after: DenseMap::new(),
        };
        let out = c_emit::run(lowered, counted, verify, "int main;".to_owned());
        assert_eq!(out.c_source, "int main;");
        assert_eq!(out.linearized.residual.residual().arc_stats, arc_stats);
        let more = out.linearized.residual.diagnostics().len() - said;
        assert_eq!(more, if verify { 1 } else { 0 });
    }
}

/// A function with an effect, called under a handler.
fn wrapped() -> CoreProgram {
    let mut program = CoreProgram::new();
    program.add_effect(EffectDecl { label: EffectLabelId::new(0), operations: vec![] });
    let one = expr(&mut program, ExprKind::Literal(Literal::Int(1)));
    let got = read(&mut program, 10);
    let give = stmt(&mut program, StmtKind::Return(got));
    let inner = perform(&mut program, 10, vec![one], give);
    let callee = function(&mut program, 1, &[], inner);
    let result = read(&mut program, 30);
    let end = stmt(&mut program, StmtKind::Return(result));
    let call = stmt(
        &mut program,
        StmtKind::Call {
            result: var(30),
            callee,
            args: vec![],
            effects: SortedEffectRow::singleton(EffectLabelId::new(0)),
            next: end,
        },
    );
    let argument = read(&mut program, 20);
    let clause_end = stmt(&mut program, StmtKind::Return(argument));
    let plain = read(&mut program, 90);
    let return_body = stmt(&mut program, StmtKind::Return(plain));
    let clauses = vec![clause(&[20], None, clause_end)];
    let h = handler(&mut program, clauses, return_body);
    let whole = stmt(&mut program, StmtKind::Handle { handler: h, body: call, next: None });
    let main = function(&mut program, 2, &[], whole);
    program.set_entrypoints(vec![main]);
    program
}

#[test]
fn a_call_under_a_handler_is_specialized() {
    let before = residual(wrapped());
    let exprs = before.program().exprs.len();
    let out = handler_specialize::run(before);
    let stats = out.residual().specialization_stats;
    assert_eq!(stats.candidates_seen, 1);
    assert_eq!(stats.created, 1);
    assert_eq!(stats.rewrites, 1);
    assert!(out.program().exprs.len() > exprs);
    assert_eq!(out.program().functions.len(), 2);
    for function in &out.program().functions {
        assert!(function.body.0 < out.program().stmts.len());
    }
    for entry in &out.program().entrypoints {
        assert!(entry.0 < out.program().functions.len());
    }
}

#[test]
fn a_program_without_handlers_is_not_specialized() {
    let mut program = CoreProgram::new();
    let one = expr(&mut program, ExprKind::Literal(Literal::Int(1)));
    let end = stmt(&mut program, StmtKind::Return(one));
    let f = function(&mut program, 1, &[], end);
    program.set_entrypoints(vec![f]);
    let out = handler_specialize::run(residual(program));
    assert_eq!(out.residual().specialization_stats.candidates_seen, 0);
    assert_eq!(out.program().exprs.len(), 1);
}

#[test]
fn a_pure_call_of_an_unknown_function_is_reported_once() {
    let mut program = CoreProgram::new();
    let call = expr(&mut program, ExprKind::PureCall { callee: FuncId::new(9), args: vec![] });
    let end = stmt(&mut program, StmtKind::Return(call));
    let body = stmt(&mut program, StmtKind::Let { binding: var(1), value: call, next: end });
    let f = function(&mut program, 1, &[], body);
    program.set_entrypoints(vec![f]);
    let (linear, codes) = lower(&program);
    assert_eq!(codes, vec!["LINEARIZE_UNKNOWN_CALLEE"]);
    assert_eq!(linear.exprs.len(), 1);
    assert!(matches!(
        linear.exprs[0],
        LinearExpr::PureCall { callee, .. } if callee == SymbolId::invalid()
    ));
}

#[test]
fn a_handled_operation_makes_no_more_than_it_needs() {
    let mut program = CoreProgram::new();
    let one = expr(&mut program, ExprKind::Literal(Literal::Int(1)));
    let two = expr(&mut program, ExprKind::Literal(Literal::Int(2)));
    let returned = read(&mut program, 90);
    let after = stmt(&mut program, StmtKind::Return(one));
    let body = stmt(
        &mut program,
        StmtKind::Perform {
            result: None,
            effect: EffectLabelId::new(0),
            operation: SymbolId::new(3),
            args: vec![],
            next: after,
        },
    );
    let answer = stmt(&mut program, StmtKind::Return(two));
    let return_body = stmt(&mut program, StmtKind::Return(returned));
    let h = handler(&mut program, vec![clause(&[], None, answer)], return_body);
    let whole = stmt(&mut program, StmtKind::Handle { handler: h, body, next: None });
    let f = function(&mut program, 1, &[], whole);
    program.set_entrypoints(vec![f]);
    let (linear, codes) = lower(&program);
    assert!(codes.is_empty());
    assert_eq!(linear.stmts.len(), 2);
    assert_eq!(linear.exprs.len(), 2);
    match &linear.stmts[linear.functions[0].body.0].kind {
        LinearStmt::Let { binding, value, next } => {
            assert_eq!(*binding, var(90));
            assert!(matches!(linear.exprs[value.0], LinearExpr::Literal(Literal::Int(2))));
            assert!(matches!(linear.stmts[next.0].kind, LinearStmt::Return(_)));
        }
        _ => panic!("no binding"),
    }
}

#[test]
fn a_shared_statement_is_lowered_once() {
    let mut program = CoreProgram::new();
    let cond = read(&mut program, 0);
    let end = stmt(&mut program, StmtKind::Return(cond));
    let body = stmt(&mut program, StmtKind::If { cond, then_branch: end, else_branch: end });
    let f = function(&mut program, 1, &[0], body);
    let g = function(&mut program, 2, &[0], body);
    program.set_entrypoints(vec![f, g]);
    let (linear, _) = lower(&program);
    assert_eq!(linear.stmts.len(), 2);
    assert_eq!(linear.exprs.len(), 1);
    assert_eq!(linear.functions[0].body, linear.functions[1].body);
    let cfg = cfg_lower::lower_program(&linear);
    assert_eq!(cfg.blocks.len(), 6);
    assert_eq!(cfg.exprs.len(), 1);
    assert_eq!(cfg.values.len(), 1);
    assert!(cfg.instructions.is_empty());
}

#[test]
fn a_bound_value_makes_three_blocks_and_an_entry() {
    let mut program = CoreProgram::new();
    let one = expr(&mut program, ExprKind::Literal(Literal::Int(1)));
    let v = read(&mut program, 1);
    let end = stmt(&mut program, StmtKind::Return(v));
    let value = stmt(&mut program, StmtKind::Return(one));
    let body = stmt(&mut program, StmtKind::Val { binding: var(1), value, next: end });
    let f = function(&mut program, 1, &[], body);
    program.set_entrypoints(vec![f]);
    let cfg = cfg_lower::lower_program(&lower(&program).0);
    assert_eq!(cfg.blocks.len(), 4);
    assert_eq!(cfg.values.len(), 1);
    assert_eq!(cfg.exprs.len(), 2);
}

/// Two calls of one function under one handler, in the branches of a choice.
fn wrapped_twice() -> (CoreProgram, StmtId, StmtId) {
    let mut program = wrapped();
    let first = program.functions[1].body;
    let (handler, body) = match program.stmts[first.0].kind {
        StmtKind::Handle { handler, body, .. } => (handler, body),
        _ => panic!("no handler"),
    };
    let second = stmt(&mut program, StmtKind::Handle { handler, body, next: None });
    let cond = read(&mut program, 40);
    let choice = stmt(
        &mut program,
        StmtKind::If { cond, then_branch: first, else_branch: second },
    );
    program.functions[1].body = choice;
    (program, first, second)
}

#[test]
fn candidates_come_in_the_order_in_which_they_are_looked_at() {
    let (program, first, second) = wrapped_twice();
    let found = handler_specialize::candidates::collect_specialize_candidates(&program);
    let order: Vec<StmtId> = found.iter().map(|candidate| candidate.handle_stmt).collect();
    assert_eq!(order, vec![second, first]);
}

#[test]
fn a_function_is_specialized_once_for_a_shape() {
    let (program, _, _) = wrapped_twice();
    let out = handler_specialize::run(residual(program));
    let stats = out.residual().specialization_stats;
    assert_eq!(stats.candidates_seen, 2);
    assert_eq!(stats.created, 1);
    assert_eq!(stats.reused_existing, 1);
    assert_eq!(stats.rewrites, 2);
}

#[test]
fn a_copy_holds_what_is_reached_and_nothing_else() {
    let mut program = wrapped();
    let dead = read(&mut program, 70);
    stmt(&mut program, StmtKind::Return(dead));
    let before = residual(program);
    let exprs = before.program().exprs.len();
    let stmts = before.program().stmts.len();
    let out = handler_specialize::run(before);
    assert_eq!(out.residual().specialization_stats.created, 1);
    assert_eq!(out.program().exprs.len(), exprs + 2);
    assert_eq!(out.program().stmts.len(), stmts + 3);
    assert!(matches!(
        out.program().exprs[exprs].kind,
        ExprKind::Literal(Literal::Int(1))
    ));
    assert!(matches!(out.program().exprs[exprs + 1].kind, ExprKind::Var(v) if v == var(10)));
    assert!(matches!(
        &out.program().stmts[stmts].kind,
        StmtKind::Return(e) if *e == ExprId::new(exprs + 1)
    ));
    assert!(matches!(
        &out.program().stmts[stmts + 1].kind,
        StmtKind::Perform { args, next, .. }
            if *args == vec![ExprId::new(exprs)] && *next == StmtId::new(stmts)
    ));
    assert!(matches!(
        &out.program().stmts[stmts + 2].kind,
        StmtKind::Handle { body, next: None, .. } if *body == StmtId::new(stmts + 1)
    ));
}

#[test]
fn only_what_leads_to_the_wrapped_call_is_rewritten() {
    let mut program = wrapped();
    let handle = program.functions[1].body;
    let (h, call) = match &program.stmts[handle.0].kind {
        StmtKind::Handle { handler, body, .. } => (*handler, *body),
        _ => panic!("no handler"),
    };
    let value = read(&mut program, 60);
    let bound = stmt(&mut program, StmtKind::Let { binding: var(61), value, next: call });
    program.stmts[handle.0].kind = StmtKind::Handle { handler: h, body: bound, next: None };
    program.functions[1].params.push(var(60));
    program.functions[1].param_types.push(TypeId::new(0));
    let before = residual(program);
    let stmts = before.program().stmts.len();
    let out = handler_specialize::run(before);
    assert_eq!(out.residual().specialization_stats.rewrites, 1);
    assert_eq!(out.program().stmts.len(), stmts + 4);
    assert!(matches!(
        &out.program().stmts[handle.0].kind,
        StmtKind::Let { next, .. } if *next == StmtId::new(stmts + 3)
    ));
    assert!(matches!(out.program().stmts[stmts + 3].kind, StmtKind::Call { .. }));
}

#[test]
fn a_second_candidate_of_a_shape_gets_the_first_copy() {
    let (program, _, _) = wrapped_twice();
    let candidates = collect_specialize_candidates(&program);
    let before = residual(program);
    let stats = SpecializationStats { candidates_seen: 1, ..SpecializationStats::default() };
    let state = Specializer {
        program: before.program,
        bta: before.bta,
        sema: before.sema,
        made: vec![],
        stats,
    };
    let (state, first) = ensure_specialized(state, &candidates[0]);
    let stmts = state.program.stmts.len();
    assert_eq!(first, Some(FuncId::new(2)));
    assert_eq!(state.stats.created, 1);
    let (state, second) = ensure_specialized(state, &candidates[1]);
    assert_eq!(second, first);
    assert_eq!(state.stats.created, 1);
    assert_eq!(state.stats.reused_existing, 1);
    assert_eq!(state.program.stmts.len(), stmts);
    assert_eq!(state.made.len(), 1);
}

#[test]
fn a_statement_is_lowered_once() {
    let program = handled(true);
    let properties = HashMap::new();
    let mut lowering = Linearizer {
        program: &program,
        properties: &properties,
        diagnostics: DiagnosticBag::new(),
        linear: LinearProgram::default(),
        expr_map: vec![None; program.exprs.len()],
        stmt_map: vec![None; program.stmts.len()],
    };
    let body = program.functions[0].body;
    let first = lowering.lower_stmt(body);
    let (stmts, said) = (lowering.linear.stmts.len(), lowering.diagnostics.items.len());
    let second = lowering.lower_stmt(body);
    assert_eq!(second, first);
    assert_eq!(lowering.linear.stmts.len(), stmts);
    assert_eq!(lowering.diagnostics.items.len(), said);
}

/// A handler whose clause performs the operation that it handles.
fn endless() -> CoreProgram {
    let mut program = handled(true);
    let end = program.handlers[0].return_body;
    let again = perform(&mut program, 40, vec![ExprId::new(0)], end);
    program.handlers[0].clauses[0].body = again;
    program
}

#[test]
fn a_handler_that_performs_what_it_handles_never_ends() {
    let program = endless();
    assert!(!lowering_ends(&program));
    let stmts = program.stmts.len();
    match linearize::try_run(residual(program)) {
        Ok(_) => panic!("no end"),
        Err(back) => assert_eq!(back.program().stmts.len(), stmts),
    }
}

#[test]
fn a_clause_that_performs_nothing_ends() {
    let program = handled(true);
    assert!(lowering_ends(&program));
    let whole = linearize::run(residual(handled(true)));
    match linearize::try_run(residual(program)) {
        Ok(out) => assert_eq!(out.linear.stmts.len(), whole.linear.stmts.len()),
        Err(_) => panic!("no end"),
    }
}

#[test]
fn a_clause_that_performs_what_is_handled_elsewhere_ends() {
    let mut program = handled(true);
    let end = program.handlers[0].return_body;
    let other = stmt(
        &mut program,
        StmtKind::Perform {
            result: None,
            effect: EffectLabelId::new(1),
            operation: SymbolId::new(4),
            args: vec![],
            next: end,
        },
    );
    program.handlers[0].clauses[0].body = other;
    assert!(lowering_ends(&program));
}

#[test]
fn a_clause_that_performs_after_a_choice_never_ends() {
    let mut program = endless();
    let again = program.handlers[0].clauses[0].body;
    let end = program.handlers[0].return_body;
    let choice = stmt(
        &mut program,
        StmtKind::If { cond: ExprId::new(0), then_branch: end, else_branch: again },
    );
    program.handlers[0].clauses[0].body = choice;
    assert!(!lowering_ends(&program));
    program.set_entrypoints(vec![]);
    assert!(lowering_ends(&program));
}
