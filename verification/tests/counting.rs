use cielo::common::densemap::DenseMap;
use cielo::common::diagnostics::DiagnosticBag;
use cielo::common::ids::{
    CfgValueId, FuncId, LinearFuncId, LinearStmtId,
    SourceId, StmtId, SymbolId, VarId,
};
use cielo::common::span::Span;
use cielo::ir::cfg::{
    CfgArcOp, CfgArcOpKind, CfgExpr, CfgMatchArm, CfgProgram, CfgProjectionMode, CfgTerminator,
};
use cielo::ir::core_ir::{CoreProgram, ExprKind, ExprNode, Literal, StmtKind, StmtNode};
use cielo::ir::linear::{LinearExpr, LinearFunction, LinearProgram, LinearStmt};
use cielo::passes::arc_emit::ArcEmitPlan;
use cielo::passes::arc_insert::{
    count_ops, decide_alias_copy, decide_call_arg_transfer, is_managed, plan, to_residual_plan,
    AliasCopyDecision, ArcFlow, ArcInsertStats, ArcInsertionPlan, ArcOpKind, ArcPlannedOp,
    CallArgTransferDecision,
};
use cielo::passes::arc_opt::{
    optimize, optimize_with_cfg, optimize_with_level, ArcCfg, ArcOptLevel, ArcStmtSummary,
};
use cielo::passes::arc_verify;
use cielo::passes::cfg_verify;
use cielo::pipeline::tables::{ArcResidualOpKind, SemanticTables};
use cielo::sema::ownership::OwnershipClass;

fn var(n: usize) -> VarId {
    VarId::new(n)
}

fn sema(managed: &[usize]) -> SemanticTables {
    let mut sema = SemanticTables::with_counts(0, 0);
    for n in managed {
        sema.ownership_of_var.insert(*n, OwnershipClass::RcManaged);
    }
    sema
}

fn retain(stmt: usize, n: usize) -> ArcPlannedOp {
    ArcPlannedOp { stmt: StmtId::new(stmt), kind: ArcOpKind::Retain { var: var(n) } }
}

fn release(stmt: usize, n: usize) -> ArcPlannedOp {
    ArcPlannedOp { stmt: StmtId::new(stmt), kind: ArcOpKind::Release { var: var(n) } }
}

fn planned(ops: Vec<ArcPlannedOp>) -> ArcInsertionPlan {
    let stats = count_ops(&ops);
    ArcInsertionPlan { ops, stats }
}

#[test]
fn an_argument_is_moved_only_if_nothing_else_needs_it() {
    let managed = OwnershipClass::RcManaged;
    let decide = decide_call_arg_transfer;
    assert_eq!(decide(managed, 1, 1, true, false), CallArgTransferDecision::MoveToCallee);
    assert_eq!(decide(managed, 2, 2, true, false), CallArgTransferDecision::RetainCopy);
    assert_eq!(decide(managed, 1, 2, true, false), CallArgTransferDecision::RetainCopy);
    assert_eq!(decide(managed, 1, 1, false, false), CallArgTransferDecision::RetainCopy);
    assert_eq!(decide(managed, 1, 1, true, true), CallArgTransferDecision::RetainCopy);
    assert_eq!(
        decide(OwnershipClass::Trivial, 1, 1, true, false),
        CallArgTransferDecision::RetainCopy
    );
}

#[test]
fn a_copy_is_decided_by_what_dies() {
    let managed = OwnershipClass::RcManaged;
    let plain = OwnershipClass::Trivial;
    assert_eq!(decide_alias_copy(plain, plain, true, true), AliasCopyDecision::Noop);
    assert_eq!(decide_alias_copy(managed, managed, true, true), AliasCopyDecision::DropDeadBinding);
    assert_eq!(decide_alias_copy(managed, managed, false, true), AliasCopyDecision::MoveSource);
    assert_eq!(decide_alias_copy(managed, managed, false, false), AliasCopyDecision::RetainCopy);
    assert_eq!(decide_alias_copy(managed, plain, true, true), AliasCopyDecision::RetainCopy);
    assert_eq!(decide_alias_copy(plain, managed, false, true), AliasCopyDecision::Noop);
}

#[test]
fn a_variable_is_managed_if_the_table_says_so() {
    let sema = sema(&[1]);
    assert!(is_managed(&sema, var(1)));
    assert!(!is_managed(&sema, var(2)));
}

/// `let v1 = v0; call(v1); return` with everything counted.
#[test]
fn a_plan_retains_copies_and_releases_at_the_last_use() {
    let span = Span::new(SourceId::new(0), 0, 0);
    let mut program = CoreProgram::new();
    let mut expr = |program: &mut CoreProgram, kind: ExprKind| {
        program.push_expr(ExprNode { span, kind })
    };
    let zero = expr(&mut program, ExprKind::Var(var(0)));
    let one = expr(&mut program, ExprKind::Var(var(1)));
    let call = expr(
        &mut program,
        ExprKind::PureCall { callee: FuncId::new(0), args: vec![one] },
    );
    let two = expr(&mut program, ExprKind::Binary {
        op: cielo::ir::core_ir::BinaryOp::Add,
        lhs: zero,
        rhs: call,
    });
    let end = program.push_stmt(StmtNode { span, kind: StmtKind::Return(two) });
    let bind = program.push_stmt(StmtNode {
        span,
        kind: StmtKind::Let { binding: var(1), value: zero, next: end },
    });
    let mut last_uses = DenseMap::new();
    last_uses.insert(end.0, vec![var(0), var(1)]);
    let mut live_out = DenseMap::new();
    live_out.insert(bind.0, vec![var(0), var(1)]);
    let flow = ArcFlow {
        reachable: vec![bind, end],
        last_uses,
        live_out,
        copy_alias_edges: vec![(var(0), var(1))],
    };
    let made = plan(&program, &sema(&[0, 1]), &flow);
    assert_eq!(made.ops, vec![release(0, 0), retain(1, 0)]);
    assert_eq!(made.stats, ArcInsertStats { retain_ops: 1, release_ops: 1 });
    let residual = to_residual_plan(&made);
    assert_eq!(residual.ops.len(), 2);
    assert_eq!(residual.ops[1].kind, ArcResidualOpKind::Retain { var: var(0) });
}

fn chain(defs: Vec<Vec<VarId>>) -> ArcCfg {
    let count = defs.len();
    ArcCfg {
        roots: vec![StmtId::new(0)],
        reachable: (0..count).map(StmtId::new).collect(),
        summaries: defs
            .into_iter()
            .enumerate()
            .map(|(at, defs)| {
                Some(ArcStmtSummary {
                    defs,
                    successors: if at + 1 < count { vec![StmtId::new(at + 1)] } else { vec![] },
                })
            })
            .collect(),
    }
}

#[test]
fn a_retain_and_a_release_at_one_statement_cancel() {
    let out = optimize(planned(vec![retain(0, 1), retain(0, 2), release(0, 1), release(1, 2)]));
    assert_eq!(out.plan.ops, vec![retain(0, 2), release(1, 2)]);
    assert_eq!(out.stats.eliminated_move_pairs, 1);
    assert_eq!(out.stats.removed_retain_ops, 1);
    assert_eq!(out.stats.removed_release_ops, 1);
    assert_eq!(out.plan.stats, ArcInsertStats { retain_ops: 1, release_ops: 1 });
}

#[test]
fn a_second_release_on_every_way_goes() {
    let cfg = chain(vec![vec![], vec![], vec![]]);
    let out = optimize_with_cfg(&cfg, planned(vec![release(0, 1), release(2, 1)]));
    assert_eq!(out.plan.ops, vec![release(0, 1)]);
    assert_eq!(out.stats.removed_release_ops, 1);
}

#[test]
fn a_release_of_something_new_stays() {
    let cfg = chain(vec![vec![], vec![var(1)], vec![]]);
    let out = optimize_with_cfg(&cfg, planned(vec![release(0, 1), release(2, 1)]));
    assert_eq!(out.plan.ops.len(), 2);
    let cfg = chain(vec![vec![], vec![], vec![]]);
    let ops = vec![release(0, 1), retain(1, 1), release(2, 1)];
    assert_eq!(optimize_with_cfg(&cfg, planned(ops)).plan.ops.len(), 3);
}

#[test]
fn a_release_on_one_way_only_stays() {
    let cfg = ArcCfg {
        roots: vec![StmtId::new(0)],
        reachable: (0..4).map(StmtId::new).collect(),
        summaries: vec![
            Some(ArcStmtSummary { defs: vec![], successors: vec![StmtId::new(1), StmtId::new(2)] }),
            Some(ArcStmtSummary { defs: vec![], successors: vec![StmtId::new(3)] }),
            Some(ArcStmtSummary { defs: vec![], successors: vec![StmtId::new(3)] }),
            Some(ArcStmtSummary { defs: vec![], successors: vec![] }),
        ],
    };
    let out = optimize_with_cfg(&cfg, planned(vec![release(1, 1), release(3, 1)]));
    assert_eq!(out.plan.ops.len(), 2);
    let both = planned(vec![release(1, 1), release(2, 1), release(3, 1)]);
    assert_eq!(optimize_with_cfg(&cfg, both).plan.ops.len(), 2);
}

#[test]
fn each_step_can_be_left_out() {
    let cfg = chain(vec![vec![], vec![]]);
    let ops = || planned(vec![retain(0, 2), release(0, 1), release(0, 2), release(1, 1)]);
    let level = |same: bool, redundant: bool| ArcOptLevel {
        same_stmt_pair_elim: same,
        cfg_redundant_release_elim: redundant,
    };
    assert_eq!(optimize_with_level(&cfg, ops(), level(false, false)).plan.ops.len(), 4);
    assert_eq!(optimize_with_level(&cfg, ops(), level(true, false)).plan.ops.len(), 2);
    assert_eq!(optimize_with_level(&cfg, ops(), level(false, true)).plan.ops.len(), 3);
    assert_eq!(optimize_with_level(&cfg, ops(), level(true, true)).plan.ops.len(), 1);
}

// ---------------------------------------------------------------------------
// Linear programs
// ---------------------------------------------------------------------------

/// `let v1 = 0; return v1` in a function of `v0`.
fn linear(retains: Vec<Vec<VarId>>, releases: Vec<Vec<VarId>>) -> LinearProgram {
    let mut program = LinearProgram::default();
    let zero = program.push_expr(LinearExpr::Literal(Literal::Int(0)));
    let one = program.push_expr(LinearExpr::Var(var(1)));
    let end = program.push_stmt(LinearStmt::Return(one));
    let body = program.push_stmt(LinearStmt::Let { binding: var(1), value: zero, next: end });
    program.push_function(LinearFunction {
        id: LinearFuncId::new(0),
        name: SymbolId::new(0),
        params: vec![var(0)],
        body,
    });
    for (at, vars) in retains.into_iter().enumerate() {
        program.stmts[at].arc_ops.pre_retain = vars;
    }
    for (at, vars) in releases.into_iter().enumerate() {
        program.stmts[at].arc_ops.post_release = vars;
    }
    program
}

fn codes(bag: &DiagnosticBag) -> Vec<&'static str> {
    bag.items.iter().map(|item| item.code).collect()
}

#[test]
fn operations_are_emitted_in_order_and_once() {
    let program = linear(
        vec![vec![var(3), var(1), var(3)], vec![]],
        vec![vec![], vec![var(2), var(0)]],
    );
    let plan = ArcEmitPlan::build(&program);
    assert_eq!(plan.pre_retain_vars(LinearStmtId::new(0)), &[var(1), var(3)]);
    assert_eq!(plan.post_release_vars(LinearStmtId::new(1)), &[var(0), var(2)]);
    assert!(plan.pre_retain_vars(LinearStmtId::new(1)).is_empty());
    assert!(plan.pre_retain_vars(LinearStmtId::new(77)).is_empty());
    assert_eq!(plan.stats.planned_retain_ops, 2);
    assert_eq!(plan.stats.optimized_release_ops, 2);
    let none = ArcEmitPlan::disabled();
    assert!(none.post_release_vars(LinearStmtId::new(1)).is_empty());
    assert_eq!(none.stats.planned_retain_ops, 0);
}

fn verify(plan: &ArcEmitPlan, managed: &[usize]) -> (Vec<&'static str>, u32) {
    let program = linear(vec![], vec![]);
    let mut diagnostics = DiagnosticBag::new();
    let stats = arc_verify::verify(&program, &sema(managed), plan, &mut diagnostics);
    assert_eq!(stats.checked_stmts, 2);
    (codes(&diagnostics), stats.errors)
}

fn emitted(retains: &[(usize, &[usize])], releases: &[(usize, &[usize])]) -> ArcEmitPlan {
    let mut plan = ArcEmitPlan::disabled();
    let list = |vars: &[usize]| vars.iter().map(|n| var(*n)).collect::<Vec<VarId>>();
    for (at, vars) in retains {
        plan.pre_retain_by_stmt.insert(*at, list(vars));
    }
    for (at, vars) in releases {
        plan.post_release_by_stmt.insert(*at, list(vars));
    }
    plan
}

#[test]
fn a_balanced_plan_is_sound() {
    assert_eq!(verify(&emitted(&[], &[(0, &[0, 1])]), &[0, 1]), (vec![], 0));
    assert_eq!(verify(&emitted(&[(1, &[0])], &[(1, &[1]), (0, &[0])]), &[0, 1]), (vec![], 0));
}

#[test]
fn faults_of_a_plan_are_reported() {
    assert_eq!(
        verify(&emitted(&[(0, &[0, 0])], &[]), &[0]),
        (vec!["ARC_VERIFY_DUP_RETAIN"], 1)
    );
    assert_eq!(
        verify(&emitted(&[(0, &[0, 0])], &[(0, &[1, 1])]), &[0, 1]).0,
        vec!["ARC_VERIFY_DUP_RETAIN", "ARC_VERIFY_DUP_RELEASE", "ARC_VERIFY_RELEASE_UNDERFLOW"]
    );
    assert_eq!(
        verify(&emitted(&[(0, &[5])], &[]), &[0]),
        (vec!["ARC_VERIFY_NON_MANAGED_OP"], 1)
    );
    assert_eq!(
        verify(&emitted(&[(0, &[0])], &[(0, &[0])]), &[0]),
        (vec!["ARC_VERIFY_CONFLICTING_OPS"], 1)
    );
    assert_eq!(
        verify(&emitted(&[], &[(0, &[3])]), &[3]),
        (vec!["ARC_VERIFY_RELEASE_UNDERFLOW"], 1)
    );
}

#[test]
fn an_underflow_is_told_in_words() {
    let program = linear(vec![], vec![]);
    let mut diagnostics = DiagnosticBag::new();
    arc_verify::verify(&program, &sema(&[3]), &emitted(&[], &[(0, &[3])]), &mut diagnostics);
    assert_eq!(
        diagnostics.items[0].message,
        "possible release-underflow: linear stmt s0 releases var v3 without ownership credit on some path"
    );
}

// ---------------------------------------------------------------------------
// Control-flow graphs
// ---------------------------------------------------------------------------

/// A match on a value; the field of its arm is moved out.
fn graph(projection: CfgProjectionMode) -> CfgProgram {
    let mut cfg = CfgProgram::default();
    let parent = cfg.push_value(Some(var(0)));
    let field = cfg.push_value(Some(var(1)));
    let read = cfg.push_expr(CfgExpr::Value(parent), None);
    let end = cfg.push_block(vec![], vec![], CfgTerminator::Return(read), None);
    let arm = cfg.push_block(vec![field], vec![], CfgTerminator::Return(read), None);
    cfg.push_block(
        vec![],
        vec![],
        CfgTerminator::Match {
            scrutinee: read,
            arms: vec![CfgMatchArm {
                tag: SymbolId::new(0),
                binders: vec![field],
                projections: vec![projection],
                target: arm,
            }],
            default: end,
        },
        None,
    );
    cfg
}

fn live(values: &[usize]) -> DenseMap<Vec<CfgValueId>> {
    let mut after = DenseMap::new();
    after.insert(2, values.iter().map(|n| CfgValueId::new(*n)).collect());
    after
}

fn check(cfg: &CfgProgram, live_after: &DenseMap<Vec<CfgValueId>>) -> (Vec<String>, [u32; 4]) {
    let mut diagnostics = DiagnosticBag::new();
    let stats = cfg_verify::verify(cfg, &sema(&[]), &vec![], live_after, &mut diagnostics);
    (
        diagnostics.items.iter().map(|item| format!("{}: {}", item.code, item.message)).collect(),
        [stats.checked_blocks, stats.checked_ops, stats.checked_moves, stats.errors],
    )
}

#[test]
fn a_field_may_be_moved_out_of_a_dead_parent() {
    let cfg = graph(CfgProjectionMode::Move);
    assert_eq!(check(&cfg, &live(&[1])), (vec![], [3, 0, 1, 0]));
    let cfg = graph(CfgProjectionMode::Borrow);
    assert_eq!(check(&cfg, &live(&[0])), (vec![], [3, 0, 0, 0]));
}

#[test]
fn a_field_may_not_be_moved_out_of_a_live_parent() {
    let cfg = graph(CfgProjectionMode::Move);
    assert_eq!(
        check(&cfg, &live(&[0])),
        (
            vec![
                "CFG_ARC_VERIFY_LIVE_PARENT_MOVE: field v1 moves out of a match scrutinee that remains live after b2".to_owned()
            ],
            [3, 0, 1, 1]
        )
    );
}

#[test]
fn operations_of_a_graph_are_checked() {
    let mut cfg = graph(CfgProjectionMode::Borrow);
    let op = |kind: CfgArcOpKind, value: usize| CfgArcOp { kind, value: CfgValueId::new(value) };
    cfg.blocks[0].entry_arc = vec![
        op(CfgArcOpKind::Release, 0),
        op(CfgArcOpKind::Release, 0),
        op(CfgArcOpKind::Retain, 0),
        op(CfgArcOpKind::Retain, 9),
    ];
    assert_eq!(
        check(&cfg, &live(&[])),
        (
            vec![
                "CFG_ARC_VERIFY_DUP_RELEASE: duplicate release of v0 at one CFG site".to_owned(),
                "CFG_ARC_VERIFY_INVALID_VALUE: ARC operation references invalid value v9".to_owned(),
            ],
            [3, 4, 0, 2]
        )
    );
}

#[test]
fn what_is_wrong_with_the_shape_is_reported_first() {
    let mut diagnostics = DiagnosticBag::new();
    let cfg = graph(CfgProjectionMode::Move);
    let stats = cfg_verify::verify(
        &cfg,
        &sema(&[]),
        &vec!["broken".to_owned()],
        &live(&[0]),
        &mut diagnostics,
    );
    assert_eq!(
        codes(&diagnostics),
        vec!["CFG_VERIFY_INVALID_GRAPH", "CFG_ARC_VERIFY_LIVE_PARENT_MOVE"]
    );
    assert_eq!(diagnostics.items[0].message, "broken");
    assert_eq!(stats.errors, 2);
}

#[test]
fn each_edge_is_counted_and_reports_come_in_the_order_of_the_search() {
    let mut program = LinearProgram::default();
    let value = program.push_expr(LinearExpr::Error);
    let left = program.push_stmt(LinearStmt::Return(value));
    let right = program.push_stmt(LinearStmt::Return(value));
    let body = program.push_stmt(LinearStmt::If {
        cond: value,
        then_branch: right,
        else_branch: left,
    });
    program.push_function(LinearFunction {
        id: LinearFuncId::new(0),
        name: SymbolId::new(0),
        params: vec![var(0)],
        body,
    });
    let plan = emitted(&[], &[(0, &[1]), (1, &[2, 1]), (2, &[0])]);
    let mut diagnostics = DiagnosticBag::new();
    let stats = arc_verify::verify(&program, &sema(&[0, 1, 2]), &plan, &mut diagnostics);
    assert_eq!(stats.state_edges_checked, 2);
    assert_eq!(stats.errors, 3);
    let messages: Vec<&str> = diagnostics.items.iter().map(|item| item.message.as_str()).collect();
    assert!(messages[0].contains("linear stmt s1 releases var v2"));
    assert!(messages[1].contains("linear stmt s1 releases var v1"));
    assert!(messages[2].contains("linear stmt s0 releases var v1"));
}
