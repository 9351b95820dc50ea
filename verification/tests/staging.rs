use cielo::common::densemap::DenseMap;
use cielo::common::ids::{
    EffectLabelId, ExprId, FuncId, HandlerId, SourceId, StmtId, TypeId, VarId,
};
use cielo::common::span::Span;
use cielo::ir::core_ir::{
    BinaryOp, CoreProgram, ExprKind, ExprNode, FunctionDecl, Literal, StmtKind, StmtNode,
};
use cielo::pipeline::provenance::runtime_provenance_lines;
use cielo::pipeline::reason::{Reason, Stage};
use cielo::pipeline::staging_diff::{
    collect_snapshot, decode_entries, diff_snapshots, encode_entries, SnapshotStage,
    StageSnapshotEntry,
};
use cielo::pipeline::tables::BtaTables;
use cielo::sema::effect::SortedEffectRow;
use cielo::common::ids::SymbolId;
use std::hash::{Hash, Hasher};

fn span(start: u32, end: u32) -> Span {
    Span::new(SourceId::new(0), start, end)
}

fn tables() -> BtaTables {
    BtaTables {
        stage_of_expr: DenseMap::new(),
        stage_of_var: DenseMap::new(),
        knownness_of_expr: DenseMap::new(),
        handler_discharge: DenseMap::new(),
        clause_discharge: DenseMap::new(),
    }
}

fn expr(program: &mut CoreProgram, start: u32, kind: ExprKind) -> ExprId {
    program.push_expr(ExprNode { span: span(start, start + 1), kind })
}

fn stmt(program: &mut CoreProgram, kind: StmtKind) -> StmtId {
    program.push_stmt(StmtNode { span: span(0, 0), kind })
}

fn entry(id: &str, stage: SnapshotStage, reason: &str, hash: u64) -> StageSnapshotEntry {
    StageSnapshotEntry {
        stable_id: id.to_owned(),
        stage,
        top_reason: reason.to_owned(),
        cause_hash: hash,
    }
}

#[test]
fn entries_name_the_expressions_that_have_a_stage() {
    let mut program = CoreProgram::new();
    for i in 0..11 {
        expr(&mut program, 10 * i, ExprKind::Literal(Literal::Unit));
    }
    let var = expr(&mut program, 200, ExprKind::Var(VarId::new(3)));
    let mut bta = tables();
    bta.stage_of_expr.insert(2, Stage::Ct);
    bta.stage_of_expr.insert(10, Stage::Ct);
    bta.stage_of_expr.insert(var.0, Stage::Rt(Reason::DependsOnVar(VarId::new(3))));
    let entries = collect_snapshot(&program, &bta);
    let ids: Vec<&str> = entries.iter().map(|entry| entry.stable_id.as_str()).collect();
    assert_eq!(ids, vec!["e10@100-101:lit", "e11@200-201:var", "e2@20-21:lit"]);
    assert_eq!(entries[0].stage, SnapshotStage::Ct);
    assert_eq!(entries[0].top_reason, "");
    assert_eq!(entries[1].stage, SnapshotStage::Rt);
    assert_eq!(entries[1].top_reason, "depends-v3");
    assert_ne!(entries[0].cause_hash, entries[1].cause_hash);
    assert_eq!(entries[0].cause_hash, entries[2].cause_hash);
}

#[test]
fn the_number_of_a_reason_is_that_of_std_hashing() {
    let mut program = CoreProgram::new();
    expr(&mut program, 0, ExprKind::Literal(Literal::Unit));
    let mut bta = tables();
    bta.stage_of_expr.insert(0, Stage::Rt(Reason::UserForcedRuntime));
    let mut hasher = std::collections::hash_map::DefaultHasher::new();
    "forced-runtime".hash(&mut hasher);
    assert_eq!(collect_snapshot(&program, &bta)[0].cause_hash, hasher.finish());
}

#[test]
fn every_reason_has_a_tag() {
    let all = [
        (Reason::UnclassifiedRuntime, "unclassified-runtime"),
        (Reason::Parameter { func: FuncId::new(1), index: 2 }, "param-f1-2"),
        (Reason::DependsOnVar(VarId::new(3)), "depends-v3"),
        (Reason::EffectNotDischarged(EffectLabelId::new(4)), "effect-e4"),
        (Reason::HandlerIsRuntime(HandlerId::new(5)), "handler-h5"),
        (Reason::BranchOnRuntime(ExprId::new(6)), "branch-e6"),
        (Reason::NotPersistable(TypeId::new(7)), "non-persistable-t7"),
        (Reason::UserForcedRuntime, "forced-runtime"),
        (Reason::CtOnlyWithRuntimeArgs(FuncId::new(8)), "ct-only-f8"),
    ];
    for (reason, tag) in all {
        assert_eq!(reason.stable_tag(), tag);
    }
}

#[test]
fn every_reason_has_a_sentence() {
    let all = [
        (Reason::UnclassifiedRuntime, "runtime classification has not been refined yet"),
        (Reason::Parameter { func: FuncId::new(1), index: 65535 }, "parameter #65536 of f1 is runtime"),
        (Reason::DependsOnVar(VarId::new(3)), "depends on v3 which is runtime"),
        (Reason::EffectNotDischarged(EffectLabelId::new(4)), "effect e4 is not thunkable/discharged"),
        (Reason::HandlerIsRuntime(HandlerId::new(5)), "handler h5 is runtime"),
        (Reason::BranchOnRuntime(ExprId::new(6)), "branch condition e6 is runtime"),
        (Reason::NotPersistable(TypeId::new(7)), "type t7 is not persistable"),
        (Reason::UserForcedRuntime, "explicitly marked @runtime"),
        (Reason::CtOnlyWithRuntimeArgs(FuncId::new(8)), "ct-only function f8 was called with runtime args"),
    ];
    for (reason, sentence) in all {
        assert_eq!(reason.describe_runtime(), sentence);
    }
}

#[test]
fn differences_are_told_in_the_order_of_names() {
    let before = vec![
        entry("z", SnapshotStage::Ct, "", 1),
        entry("a", SnapshotStage::Rt, "why", 2),
        entry("gone", SnapshotStage::Ct, "", 1),
        entry("same", SnapshotStage::Rt, "x", 3),
    ];
    let after = vec![
        entry("same", SnapshotStage::Rt, "y", 3),
        entry("a", SnapshotStage::Rt, "how", 9),
        entry("z", SnapshotStage::Rt, "late", 1),
        entry("new", SnapshotStage::Ct, "", 1),
    ];
    let diffs = diff_snapshots(&before, &after);
    assert_eq!(diffs.len(), 2);
    assert_eq!(diffs[0].stable_id, "a");
    assert_eq!(diffs[0].before, SnapshotStage::Rt);
    assert_eq!(diffs[0].before_reason, "why");
    assert_eq!(diffs[0].after_reason, "how");
    assert_eq!(diffs[1].stable_id, "z");
    assert_eq!(diffs[1].before, SnapshotStage::Ct);
    assert_eq!(diffs[1].after, SnapshotStage::Rt);
    assert!(diff_snapshots(&before, &before).is_empty());
}

#[test]
fn of_two_entries_with_one_name_the_last_counts() {
    let before = vec![entry("a", SnapshotStage::Ct, "", 1), entry("a", SnapshotStage::Rt, "r", 2)];
    assert!(diff_snapshots(&before, &vec![entry("a", SnapshotStage::Rt, "r", 2)]).is_empty());
    assert_eq!(diff_snapshots(&before, &vec![entry("a", SnapshotStage::Ct, "", 1)]).len(), 1);
}

#[test]
fn entries_are_read_back() {
    let entries = vec![
        entry("e1@0-1:lit", SnapshotStage::Ct, "", u64::MAX),
        entry("e2@0-1:var", SnapshotStage::Rt, "with\ttab", 7),
    ];
    let text = encode_entries(&entries);
    assert_eq!(text, "e1@0-1:lit\tct\t18446744073709551615\t\ne2@0-1:var\trt\t7\twith\ttab\n");
    assert_eq!(format!("{:?}", decode_entries(&text)), format!("{:?}", entries));
}

#[test]
fn lines_that_hold_no_entry_are_passed_over() {
    let read = decode_entries("a\tct\t1\nb\tzz\t1\tr\nc\trt\tx\tr\n");
    assert_eq!(read.len(), 1);
    assert_eq!(read[0].stable_id, "c");
    assert_eq!(read[0].cause_hash, 0);
}

/// A parameter `v0`, `let v1 = v0 + 1`, and a value `v2` of a block that returns
/// `v1`.
fn chain() -> (CoreProgram, BtaTables) {
    let mut program = CoreProgram::new();
    let param = expr(&mut program, 0, ExprKind::Var(VarId::new(0)));
    let one = expr(&mut program, 1, ExprKind::Literal(Literal::Int(1)));
    let sum = expr(&mut program, 2, ExprKind::Binary { op: BinaryOp::Add, lhs: param, rhs: one });
    let inner = expr(&mut program, 3, ExprKind::Var(VarId::new(1)));
    let outer = expr(&mut program, 4, ExprKind::Var(VarId::new(2)));
    let give = stmt(&mut program, StmtKind::Return(inner));
    let end = stmt(&mut program, StmtKind::Return(outer));
    let val = stmt(
        &mut program,
        StmtKind::Val { binding: VarId::new(2), value: give, next: end },
    );
    let body = stmt(
        &mut program,
        StmtKind::Let { binding: VarId::new(1), value: sum, next: val },
    );
    program.add_function(FunctionDecl {
        name: SymbolId::new(0),
        params: vec![VarId::new(0)],
        param_types: vec![TypeId::new(0)],
        return_type: TypeId::new(0),
        declared_effects: SortedEffectRow::empty(),
        body,
        ct_only: false,
        span: span(0, 0),
    });
    let mut bta = tables();
    bta.stage_of_expr.insert(param.0, Stage::Rt(Reason::UnclassifiedRuntime));
    bta.stage_of_expr.insert(one.0, Stage::Ct);
    bta.stage_of_expr.insert(sum.0, Stage::Rt(Reason::UnclassifiedRuntime));
    bta.stage_of_expr.insert(inner.0, Stage::Rt(Reason::DependsOnVar(VarId::new(1))));
    bta.stage_of_expr.insert(outer.0, Stage::Rt(Reason::DependsOnVar(VarId::new(2))));
    (program, bta)
}

#[test]
fn provenance_goes_back_to_a_parameter() {
    let (program, bta) = chain();
    assert_eq!(
        runtime_provenance_lines(&program, &bta, ExprId::new(4), 20),
        vec![
            " 1. e4: depends on v2 which is runtime",
            " 3. e3: depends on v1 which is runtime",
            " 5. e2: runtime classification has not been refined yet",
            " 6. e0: runtime classification has not been refined yet",
            " 7. v0: parameter #1 of f0 is runtime",
        ]
    );
}

#[test]
fn provenance_stops_at_the_limit() {
    let (program, bta) = chain();
    assert_eq!(runtime_provenance_lines(&program, &bta, ExprId::new(4), 0).len(), 1);
    assert_eq!(runtime_provenance_lines(&program, &bta, ExprId::new(4), 3).len(), 2);
}

#[test]
fn provenance_of_what_is_known_is_empty() {
    let (program, bta) = chain();
    assert!(runtime_provenance_lines(&program, &bta, ExprId::new(1), 5).is_empty());
    assert!(runtime_provenance_lines(&program, &bta, ExprId::new(77), 5).is_empty());
}

#[test]
fn provenance_does_not_go_round() {
    let (program, mut bta) = chain();
    bta.stage_of_var.insert(1, Stage::Rt(Reason::BranchOnRuntime(ExprId::new(3))));
    assert_eq!(
        runtime_provenance_lines(&program, &bta, ExprId::new(3), 20),
        vec![
            " 1. e3: depends on v1 which is runtime",
            " 2. v1: branch condition e3 is runtime",
        ]
    );
}

#[test]
fn a_step_past_the_ninth_is_not_padded() {
    let mut program = CoreProgram::new();
    let mut last = expr(&mut program, 0, ExprKind::Literal(Literal::Int(0)));
    let mut bta = tables();
    bta.stage_of_expr.insert(last.0, Stage::Rt(Reason::UserForcedRuntime));
    for _ in 0..10 {
        last = expr(
            &mut program,
            0,
            ExprKind::Unary { op: cielo::ir::core_ir::UnaryOp::Neg, expr: last },
        );
        bta.stage_of_expr.insert(last.0, Stage::Rt(Reason::UnclassifiedRuntime));
    }
    let lines = runtime_provenance_lines(&program, &bta, last, 50);
    assert_eq!(lines.len(), 11);
    assert_eq!(lines[9], "10. e1: runtime classification has not been refined yet");
    assert_eq!(lines[10], "11. e0: explicitly marked @runtime");
}

#[test]
fn every_reason_has_a_tag_of_its_own_that_is_one_field() {
    let mut reasons = vec![Reason::UnclassifiedRuntime, Reason::UserForcedRuntime];
    for n in [0, 1, 11, 111] {
        reasons.push(Reason::Parameter { func: FuncId::new(n), index: 11 });
        reasons.push(Reason::Parameter { func: FuncId::new(11), index: n as u16 + 12 });
        reasons.push(Reason::DependsOnVar(VarId::new(n)));
        reasons.push(Reason::EffectNotDischarged(EffectLabelId::new(n)));
        reasons.push(Reason::HandlerIsRuntime(HandlerId::new(n)));
        reasons.push(Reason::BranchOnRuntime(ExprId::new(n)));
        reasons.push(Reason::NotPersistable(TypeId::new(n)));
        reasons.push(Reason::CtOnlyWithRuntimeArgs(FuncId::new(n)));
    }
    let tags: Vec<String> = reasons.iter().map(|reason| reason.stable_tag()).collect();
    for (i, tag) in tags.iter().enumerate() {
        assert!(!tag.is_empty());
        assert!(!tag.contains('\t') && !tag.contains('\n'));
        assert!(!tags[..i].contains(tag));
    }
}
