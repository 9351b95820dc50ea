use cielo::common::densemap::DenseMap;
use cielo::common::diagnostics::{DiagnosticBag, ErrorNode};
use cielo::common::ids::{
    EffectLabelId, ExprId, FuncId, SourceId, StmtId, SymbolId, TypeId, VarId,
};
use cielo::common::span::Span;
use cielo::ir::core_ir::{
    BinaryOp, CoreProgram, EffectDecl, ExprKind, ExprNode, FunctionDecl, HandlerDef, Literal,
    StageDirective, StmtKind, StmtNode, UnaryOp,
};
use cielo::passes::comptime_check::Fault;
use cielo::passes::ct_common::{check_effects_declared, normalize_int, EffectSite};
use cielo::passes::ct_eval;
use cielo::passes::ct_files::FileRead;
use cielo::passes::ct_propagate::{compute_ct_cache, QueryCache};
use cielo::passes::{bta, comptime, residualize};
use cielo::pipeline::compiler::{Compiler, CompilerConfig, Endianness, TargetSpec};
use cielo::pipeline::phases::{BtaClassified, CtPropagated, Monomorphized};
use cielo::pipeline::reason::{Reason, Stage};
use cielo::pipeline::tables::{BranchDecision, MonomorphizationSummary, SemanticTables};
use cielo::sema::effect::{EffectProperties, SortedEffectRow};

fn span() -> Span {
    Span::new(SourceId::new(0), 0, 0)
}

fn target(bits: u8) -> TargetSpec {
    TargetSpec { word_size_bits: bits, endianness: Endianness::Little, pointer_alignment: 8 }
}

fn host(op: BinaryOp, a: u64, b: u64) -> u64 {
    let (a, b) = (f64::from_bits(a), f64::from_bits(b));
    let c = match op {
        BinaryOp::Add => a + b,
        BinaryOp::Sub => a - b,
        BinaryOp::Mul => a * b,
        BinaryOp::Div => a / b,
        _ => a % b,
    };
    c.to_bits()
}

fn expr(program: &mut CoreProgram, kind: ExprKind) -> ExprId {
    program.push_expr(ExprNode { span: span(), kind })
}

fn stmt(program: &mut CoreProgram, kind: StmtKind) -> StmtId {
    program.push_stmt(StmtNode { span: span(), kind })
}

fn number(program: &mut CoreProgram, value: i64) -> ExprId {
    expr(program, ExprKind::Literal(Literal::Int(value)))
}

fn function(program: &mut CoreProgram, params: &[usize], body: StmtId) -> FuncId {
    program.add_function(FunctionDecl {
        name: SymbolId::new(0),
        params: params.iter().map(|var| VarId::new(*var)).collect(),
        param_types: vec![TypeId::new(0); params.len()],
        return_type: TypeId::new(0),
        declared_effects: SortedEffectRow::empty(),
        body,
        ct_only: false,
        span: span(),
    })
}

fn mono(program: CoreProgram) -> Monomorphized {
    let sema = SemanticTables::with_counts(program.exprs.len(), program.stmts.len());
    Monomorphized::new(
        program,
        DiagnosticBag::new(),
        sema,
        MonomorphizationSummary { source_to_mono: DenseMap::new() },
    )
}

fn evaluate(program: CoreProgram) -> CtPropagated {
    ct_eval::run(mono(program), target(64), &host, vec![])
}

/// What two literals make together.
fn fold(op: BinaryOp, a: Literal, b: Literal, bits: u8) -> Option<String> {
    let mut program = CoreProgram::new();
    let lhs = expr(&mut program, ExprKind::Literal(a));
    let rhs = expr(&mut program, ExprKind::Literal(b));
    let both = expr(&mut program, ExprKind::Binary { op, lhs, rhs });
    let (cache, _) = compute_ct_cache(&program, target(bits), &host);
    cache.get(both.0).map(|literal| format!("{:?}", literal))
}

fn ints(op: BinaryOp, a: i64, b: i64, bits: u8) -> Option<String> {
    fold(op, Literal::Int(a), Literal::Int(b), bits)
}

fn floats(op: BinaryOp, a: f64, b: f64) -> Option<String> {
    fold(op, Literal::Float(a.to_bits()), Literal::Float(b.to_bits()), 64)
}

fn told(literal: Literal) -> Option<String> {
    Some(format!("{:?}", literal))
}

#[test]
fn integers_wrap_at_the_width_of_the_machine() {
    for bits in [0u8, 1, 7, 8, 16, 31, 32, 63, 64, 200] {
        let width = bits.clamp(1, 64) as u32;
        for value in [0i64, 1, -1, 127, 128, -128, -129, 255, 256, i64::MAX, i64::MIN] {
            let shift = 64 - width;
            assert_eq!(normalize_int(value, target(bits)), (value << shift) >> shift);
        }
    }
}

#[test]
fn integer_arithmetic_wraps() {
    assert_eq!(ints(BinaryOp::Add, 127, 1, 8), told(Literal::Int(-128)));
    assert_eq!(ints(BinaryOp::Sub, -128, 1, 8), told(Literal::Int(127)));
    assert_eq!(ints(BinaryOp::Mul, 16, 16, 8), told(Literal::Int(0)));
    assert_eq!(ints(BinaryOp::Add, i64::MAX, 1, 64), told(Literal::Int(i64::MIN)));
    assert_eq!(ints(BinaryOp::Mul, i64::MIN, -1, 64), told(Literal::Int(i64::MIN)));
    assert_eq!(ints(BinaryOp::Div, i64::MIN, -1, 64), told(Literal::Int(i64::MIN)));
    assert_eq!(ints(BinaryOp::Mod, i64::MIN, -1, 64), told(Literal::Int(0)));
    assert_eq!(ints(BinaryOp::Div, -7, 2, 64), told(Literal::Int(-3)));
    assert_eq!(ints(BinaryOp::Mod, -7, 2, 64), told(Literal::Int(-1)));
}

#[test]
fn nothing_is_divided_by_zero() {
    assert_eq!(ints(BinaryOp::Div, 1, 0, 64), None);
    assert_eq!(ints(BinaryOp::Mod, 1, 0, 64), None);
    assert_eq!(ints(BinaryOp::Div, 1, 256, 8), None);
    assert_eq!(floats(BinaryOp::Div, 1.0, 0.0), None);
    assert_eq!(floats(BinaryOp::Mod, 1.0, -0.0), None);
}

#[test]
fn floats_are_left_to_the_host() {
    assert_eq!(floats(BinaryOp::Add, 1.5, 2.25), told(Literal::Float(3.75f64.to_bits())));
    assert_eq!(floats(BinaryOp::Mod, 7.5, 2.0), told(Literal::Float(1.5f64.to_bits())));
    assert_eq!(floats(BinaryOp::Mul, f64::MAX, 2.0), None);
    assert_eq!(floats(BinaryOp::Add, f64::INFINITY, 1.0), None);
    assert_eq!(floats(BinaryOp::Add, f64::NAN, 1.0), None);
}

#[test]
fn floats_are_compared_as_std_compares_them() {
    let values = [0.0, -0.0, 1.0, -1.0, 1e300, -1e300, 5e-324, -5e-324];
    for a in values {
        for b in values {
            let both = [
                (BinaryOp::Lt, a < b),
                (BinaryOp::Le, a <= b),
                (BinaryOp::Gt, a > b),
                (BinaryOp::Ge, a >= b),
                (BinaryOp::Eq, a == b),
                (BinaryOp::Ne, a != b),
            ];
            for (op, expected) in both {
                assert_eq!(floats(op, a, b), told(Literal::Bool(expected)), "{} {:?} {}", a, op, b);
            }
        }
    }
    assert_eq!(floats(BinaryOp::Eq, f64::NAN, 1.0), None);
}

#[test]
fn other_literals_are_compared() {
    let yes = told(Literal::Bool(true));
    let no = told(Literal::Bool(false));
    assert_eq!(ints(BinaryOp::Lt, 127, 128, 8), no);
    assert_eq!(ints(BinaryOp::Eq, 0, 256, 8), yes);
    assert_eq!(fold(BinaryOp::Lt, Literal::Char('a'), Literal::Char('b'), 64), yes);
    assert_eq!(fold(BinaryOp::Ne, Literal::Bool(true), Literal::Bool(true), 64), no);
    assert_eq!(
        fold(BinaryOp::Eq, Literal::String("a".to_owned()), Literal::String("a".to_owned()), 64),
        yes
    );
    assert_eq!(fold(BinaryOp::Eq, Literal::Unit, Literal::Unit, 64), yes);
    assert_eq!(fold(BinaryOp::And, Literal::Bool(true), Literal::Bool(false), 64), no);
    assert_eq!(fold(BinaryOp::Or, Literal::Bool(true), Literal::Bool(false), 64), yes);
    assert_eq!(fold(BinaryOp::Lt, Literal::Bool(true), Literal::Bool(false), 64), None);
    assert_eq!(fold(BinaryOp::Eq, Literal::Int(1), Literal::Bool(true), 64), None);
    assert_eq!(fold(BinaryOp::And, Literal::Int(1), Literal::Int(1), 64), None);
}

#[test]
fn one_operand_is_enough_for_some() {
    let mut program = CoreProgram::new();
    let min = number(&mut program, i64::MIN);
    let neg = expr(&mut program, ExprKind::Unary { op: UnaryOp::Neg, expr: min });
    let yes = expr(&mut program, ExprKind::Literal(Literal::Bool(true)));
    let no = expr(&mut program, ExprKind::Unary { op: UnaryOp::Not, expr: yes });
    let half = expr(&mut program, ExprKind::Literal(Literal::Float(0.5f64.to_bits())));
    let minus = expr(&mut program, ExprKind::Unary { op: UnaryOp::Neg, expr: half });
    let odd = expr(&mut program, ExprKind::Unary { op: UnaryOp::Not, expr: half });
    let (cache, stats) = compute_ct_cache(&program, target(64), &host);
    assert!(matches!(cache.get(neg.0), Some(Literal::Int(i64::MIN))));
    assert!(matches!(cache.get(no.0), Some(Literal::Bool(false))));
    assert!(matches!(cache.get(minus.0), Some(Literal::Float(bits)) if *bits == (-0.5f64).to_bits()));
    assert!(cache.get(odd.0).is_none());
    assert_eq!(stats.iterations, 2);
    assert_eq!(stats.cache_inserts, 6);
    assert_eq!(stats.cache_hits, 6);
    assert_eq!(stats.eval_attempts, 8);
    assert_eq!(stats.folded_literals, 3);
    assert_eq!(stats.folded_unary, 3);
    assert_eq!(stats.folded_float_host, 1);
    assert_eq!(stats.miss_unsupported, 2);
}

#[test]
fn what_comes_later_is_found_in_a_later_pass() {
    let mut program = CoreProgram::new();
    let sum = expr(
        &mut program,
        ExprKind::Binary { op: BinaryOp::Add, lhs: ExprId::new(1), rhs: ExprId::new(2) },
    );
    number(&mut program, 20);
    number(&mut program, 22);
    let (cache, stats) = compute_ct_cache(&program, target(64), &host);
    assert!(matches!(cache.get(sum.0), Some(Literal::Int(42))));
    assert_eq!(stats.miss_missing_inputs, 1);
    assert_eq!(stats.iterations, 3);
}

/// `if p < 0 { -p } else { p }`, called with a number.
fn absolute(argument: i64) -> (CoreProgram, ExprId) {
    let mut program = CoreProgram::new();
    let p = expr(&mut program, ExprKind::Var(VarId::new(0)));
    let zero = number(&mut program, 0);
    let cond = expr(&mut program, ExprKind::Binary { op: BinaryOp::Lt, lhs: p, rhs: zero });
    let neg = expr(&mut program, ExprKind::Unary { op: UnaryOp::Neg, expr: p });
    let then_branch = stmt(&mut program, StmtKind::Return(neg));
    let else_branch = stmt(&mut program, StmtKind::Return(p));
    let body = stmt(&mut program, StmtKind::If { cond, then_branch, else_branch });
    let callee = function(&mut program, &[0], body);
    let argument = number(&mut program, argument);
    let call = expr(&mut program, ExprKind::PureCall { callee, args: vec![argument] });
    (program, call)
}

#[test]
fn calls_with_known_arguments_are_run() {
    let (program, call) = absolute(-7);
    let out = evaluate(program);
    assert!(matches!(out.ct().ct_cache.get(call.0), Some(Literal::Int(7))));
    let (program, call) = absolute(3);
    let out = evaluate(program);
    assert!(matches!(out.ct().ct_cache.get(call.0), Some(Literal::Int(3))));
}

#[test]
fn calls_that_cannot_be_run_are_left() {
    let (mut program, call) = absolute(-7);
    program.functions[0].declared_effects = SortedEffectRow::singleton(EffectLabelId::new(0));
    program.add_effect(EffectDecl { label: EffectLabelId::new(0), operations: vec![] });
    assert!(evaluate(program).ct().ct_cache.get(call.0).is_none());
    let (mut program, call) = absolute(-7);
    program.functions[0].params.push(VarId::new(9));
    assert!(evaluate(program).ct().ct_cache.get(call.0).is_none());
}

#[test]
fn a_function_that_calls_itself_is_not_run() {
    let mut program = CoreProgram::new();
    let inner = expr(&mut program, ExprKind::PureCall { callee: FuncId::new(0), args: vec![] });
    let body = stmt(&mut program, StmtKind::Return(inner));
    function(&mut program, &[], body);
    let out = evaluate(program);
    assert!(out.ct().ct_cache.get(inner.0).is_none());
}

/// Functions that each call the next one; the last one returns a number.
fn tower(height: usize) -> (CoreProgram, ExprId) {
    let mut program = CoreProgram::new();
    let first = expr(&mut program, ExprKind::PureCall { callee: FuncId::new(0), args: vec![] });
    for level in 0..height {
        let value = if level + 1 == height {
            number(&mut program, 5)
        } else {
            expr(
                &mut program,
                ExprKind::PureCall { callee: FuncId::new(level + 1), args: vec![] },
            )
        };
        let body = stmt(&mut program, StmtKind::Return(value));
        function(&mut program, &[], body);
    }
    (program, first)
}

#[test]
fn calls_may_be_nested_thirty_two_deep() {
    for (height, known) in [(1, true), (32, true)] {
        let (program, first) = tower(height);
        let mut cache = DenseMap::new();
        ct_eval::fold_known_pure_calls(&program, target(64), &host, &mut cache);
        assert_eq!(cache.get(first.0).is_some(), known, "{}", height);
    }
    let (program, first) = tower(33);
    let mut cache = DenseMap::new();
    let stats = ct_eval::fold_known_pure_calls(&program, target(64), &host, &mut cache);
    assert!(matches!(cache.get(first.0), Some(Literal::Int(5))));
    assert_eq!(stats.iterations, 3);
    assert_eq!(stats.inserts, 33);
}

#[test]
fn bindings_blocks_and_stages_are_run() {
    let mut program = CoreProgram::new();
    let one = number(&mut program, 1);
    let a = expr(&mut program, ExprKind::Var(VarId::new(1)));
    let b = expr(&mut program, ExprKind::Var(VarId::new(2)));
    let sum = expr(&mut program, ExprKind::Binary { op: BinaryOp::Add, lhs: a, rhs: b });
    let end = stmt(&mut program, StmtKind::Return(sum));
    let give = stmt(&mut program, StmtKind::Return(a));
    let val = stmt(&mut program, StmtKind::Val { binding: VarId::new(2), value: give, next: end });
    let bind = stmt(&mut program, StmtKind::Let { binding: VarId::new(1), value: one, next: val });
    let body = stmt(
        &mut program,
        StmtKind::Stage { stage: StageDirective::Comptime, body: bind, next: None },
    );
    let callee = function(&mut program, &[], body);
    let call = expr(&mut program, ExprKind::PureCall { callee, args: vec![] });
    let out = evaluate(program);
    assert!(matches!(out.ct().ct_cache.get(call.0), Some(Literal::Int(2))));
}

#[test]
fn a_runtime_stage_is_not_run() {
    let mut program = CoreProgram::new();
    let one = number(&mut program, 1);
    let give = stmt(&mut program, StmtKind::Return(one));
    let body = stmt(
        &mut program,
        StmtKind::Stage { stage: StageDirective::Runtime, body: give, next: None },
    );
    let callee = function(&mut program, &[], body);
    let call = expr(&mut program, ExprKind::PureCall { callee, args: vec![] });
    assert!(evaluate(program).ct().ct_cache.get(call.0).is_none());
}

#[test]
fn known_conditions_decide_branches() {
    let mut program = CoreProgram::new();
    let yes = expr(&mut program, ExprKind::Literal(Literal::Bool(true)));
    let no = expr(&mut program, ExprKind::Unary { op: UnaryOp::Not, expr: yes });
    let one = number(&mut program, 1);
    let out = evaluate(program);
    let decisions = &out.ct().branch_decisions;
    assert_eq!(decisions.get(yes.0), Some(&BranchDecision::LiveTrue));
    assert_eq!(decisions.get(no.0), Some(&BranchDecision::LiveFalse));
    assert_eq!(decisions.get(one.0), None);
}

#[test]
fn undeclared_effects_are_found() {
    let mut program = CoreProgram::new();
    program.add_effect(EffectDecl { label: EffectLabelId::new(0), operations: vec![] });
    let one = number(&mut program, 1);
    let end = stmt(&mut program, StmtKind::Return(one));
    assert!(check_effects_declared(&program).is_none());
    stmt(
        &mut program,
        StmtKind::Perform {
            result: None,
            effect: EffectLabelId::new(3),
            operation: SymbolId::new(0),
            args: vec![],
            next: end,
        },
    );
    let found = check_effects_declared(&program).unwrap();
    assert_eq!(found.site, EffectSite::Perform(1));
    assert_eq!(
        found.describe(),
        "compiler bug: unresolved/non-concrete effect at pre-staging boundary: stmt s1 perform effect references e3 but only 1 effect declarations exist"
    );
    stmt(
        &mut program,
        StmtKind::Call {
            result: VarId::new(0),
            callee: FuncId::new(0),
            args: vec![],
            effects: SortedEffectRow::singleton(EffectLabelId::new(4)),
            next: end,
        },
    );
    assert_eq!(check_effects_declared(&program).unwrap().site, EffectSite::Perform(1));
    program.stmts.remove(1);
    let found = check_effects_declared(&program).unwrap();
    assert_eq!(found.site, EffectSite::Call(1));
    assert!(found.describe().contains("stmt s1 call effect row references e4"));
    program.add_handler(HandlerDef {
        effect: EffectLabelId::new(5),
        return_param: VarId::new(0),
        return_body: end,
        clauses: vec![],
        span: span(),
    });
    let found = check_effects_declared(&program).unwrap();
    assert_eq!(found.site, EffectSite::Handler(0));
    assert!(found.describe().contains("handler h0 effect references e5"));
    let f = function(&mut program, &[], end);
    program.functions[f.0].declared_effects = SortedEffectRow::singleton(EffectLabelId::new(6));
    let found = check_effects_declared(&program).unwrap();
    assert_eq!(found.site, EffectSite::Function(0));
    assert!(found.describe().contains("function f0 declared_effects references e6"));
}

// ---------------------------------------------------------------------------
// Binding times
// ---------------------------------------------------------------------------

fn classify(program: CoreProgram) -> BtaClassified {
    bta::run(evaluate(program))
}

#[test]
fn reasons_are_carried_from_what_an_expression_depends_on() {
    let mut program = CoreProgram::new();
    let p = expr(&mut program, ExprKind::Var(VarId::new(0)));
    let one = number(&mut program, 1);
    let sum = expr(&mut program, ExprKind::Binary { op: BinaryOp::Add, lhs: one, rhs: p });
    let q = expr(&mut program, ExprKind::Var(VarId::new(1)));
    let end = stmt(&mut program, StmtKind::Return(q));
    let forced = stmt(&mut program, StmtKind::Return(p));
    let stage = stmt(
        &mut program,
        StmtKind::Stage { stage: StageDirective::Runtime, body: forced, next: Some(end) },
    );
    let body = stmt(
        &mut program,
        StmtKind::Let { binding: VarId::new(1), value: sum, next: stage },
    );
    function(&mut program, &[0], body);
    let out = classify(program);
    let stages = &out.bta().stage_of_expr;
    assert_eq!(stages.get(one.0), Some(&Stage::Ct));
    assert_eq!(stages.get(p.0), Some(&Stage::Rt(Reason::UserForcedRuntime)));
    assert_eq!(stages.get(sum.0), Some(&Stage::Rt(Reason::UserForcedRuntime)));
    assert_eq!(stages.get(q.0), Some(&Stage::Rt(Reason::DependsOnVar(VarId::new(1)))));
    assert_eq!(out.bta().stage_of_var.get(1), Some(&Stage::Rt(Reason::UserForcedRuntime)));
    assert_eq!(stages.len(), 4);
}

#[test]
fn a_branch_on_a_runtime_condition_gives_its_reason() {
    let mut program = CoreProgram::new();
    let cond = expr(&mut program, ExprKind::Var(VarId::new(0)));
    let one = number(&mut program, 1);
    let use_it = expr(&mut program, ExprKind::Var(VarId::new(1)));
    let end = stmt(&mut program, StmtKind::Return(use_it));
    let a = stmt(&mut program, StmtKind::Return(one));
    let b = stmt(&mut program, StmtKind::Return(one));
    let choice = stmt(&mut program, StmtKind::If { cond, then_branch: a, else_branch: b });
    let body = stmt(
        &mut program,
        StmtKind::Val { binding: VarId::new(1), value: choice, next: end },
    );
    function(&mut program, &[0], body);
    let out = classify(program);
    assert_eq!(
        out.bta().stage_of_var.get(1),
        Some(&Stage::Rt(Reason::BranchOnRuntime(cond)))
    );
}

#[test]
fn a_compile_time_function_wants_known_arguments() {
    let mut program = CoreProgram::new();
    let p = expr(&mut program, ExprKind::Var(VarId::new(0)));
    let one = number(&mut program, 1);
    let body = stmt(&mut program, StmtKind::Return(p));
    let callee = function(&mut program, &[0], body);
    program.functions[0].ct_only = true;
    let bad = expr(&mut program, ExprKind::PureCall { callee, args: vec![one, p] });
    let good = expr(&mut program, ExprKind::PureCall { callee, args: vec![one] });
    let out = classify(program);
    assert_eq!(
        out.bta().stage_of_expr.get(bad.0),
        Some(&Stage::Rt(Reason::CtOnlyWithRuntimeArgs(callee)))
    );
    assert_eq!(out.bta().stage_of_expr.get(good.0), Some(&Stage::Ct));
    assert_eq!(out.diagnostics().items.len(), 1);
    assert_eq!(out.diagnostics().items[0].code, "BTA_CT_ONLY_RUNTIME_ARG");
    assert_eq!(
        out.diagnostics().items[0].message,
        "ct-only function call f0 has runtime arguments; this call cannot be residualized"
    );
}

#[test]
fn an_effect_that_cannot_be_suspended_makes_its_result_runtime() {
    let mut program = CoreProgram::new();
    program.add_effect(EffectDecl { label: EffectLabelId::new(0), operations: vec![] });
    let one = number(&mut program, 1);
    let end = stmt(&mut program, StmtKind::Return(one));
    let body = stmt(
        &mut program,
        StmtKind::Perform {
            result: Some(VarId::new(4)),
            effect: EffectLabelId::new(0),
            operation: SymbolId::new(0),
            args: vec![one],
            next: end,
        },
    );
    function(&mut program, &[], body);
    let mut mono = mono(program);
    mono.sema.effect_properties.insert(0, EffectProperties { ct_only: false, thunkable: false });
    let out = bta::run(ct_eval::run(mono, target(64), &host, vec![]));
    assert_eq!(
        out.bta().stage_of_var.get(4),
        Some(&Stage::Rt(Reason::EffectNotDischarged(EffectLabelId::new(0))))
    );
}

// ---------------------------------------------------------------------------
// What is left to run
// ---------------------------------------------------------------------------

#[test]
fn known_values_are_put_in_place_and_dead_branches_go() {
    let mut program = CoreProgram::new();
    let one = number(&mut program, 1);
    let two = number(&mut program, 2);
    let cond = expr(&mut program, ExprKind::Binary { op: BinaryOp::Lt, lhs: one, rhs: two });
    let sum = expr(&mut program, ExprKind::Binary { op: BinaryOp::Add, lhs: one, rhs: two });
    let live = stmt(&mut program, StmtKind::Return(sum));
    let dead = stmt(&mut program, StmtKind::Return(one));
    let body = stmt(&mut program, StmtKind::If { cond, then_branch: live, else_branch: dead });
    let f = function(&mut program, &[], body);
    let out = residualize::run(classify(program));
    assert_eq!(out.program().functions[f.0].body, live);
    assert!(matches!(out.program().exprs[sum.0].kind, ExprKind::Literal(Literal::Int(3))));
    assert!(matches!(out.program().exprs[cond.0].kind, ExprKind::Literal(Literal::Bool(true))));
}

#[test]
fn unknown_branches_stay() {
    let mut program = CoreProgram::new();
    let cond = expr(&mut program, ExprKind::Var(VarId::new(0)));
    let one = number(&mut program, 1);
    let a = stmt(&mut program, StmtKind::Return(one));
    let b = stmt(&mut program, StmtKind::Return(cond));
    let body = stmt(&mut program, StmtKind::If { cond, then_branch: a, else_branch: b });
    let f = function(&mut program, &[0], body);
    let out = residualize::run(classify(program));
    assert_eq!(out.program().functions[f.0].body, body);
    assert!(matches!(out.program().stmts[body.0].kind, StmtKind::If { .. }));
}

#[test]
fn declared_effects_go_and_a_summary_stays() {
    let mut program = CoreProgram::new();
    program.add_effect(EffectDecl { label: EffectLabelId::new(0), operations: vec![] });
    let one = number(&mut program, 1);
    let end = stmt(&mut program, StmtKind::Return(one));
    let body = stmt(
        &mut program,
        StmtKind::Perform {
            result: None,
            effect: EffectLabelId::new(0),
            operation: SymbolId::new(0),
            args: vec![],
            next: end,
        },
    );
    let f = function(&mut program, &[], body);
    program.functions[f.0].declared_effects = SortedEffectRow::singleton(EffectLabelId::new(0));
    let mut classified = classify(program);
    classified.sema.effects_of_stmt[body.0] = SortedEffectRow::singleton(EffectLabelId::new(0));
    let out = residualize::run(classified);
    assert!(out.program().functions[f.0].declared_effects.is_empty());
    let row = out.residual().function_effect_summary.get(f.0).unwrap();
    assert_eq!(row.labels, vec![EffectLabelId::new(0)]);
}

// ---------------------------------------------------------------------------
// The pipeline
// ---------------------------------------------------------------------------

fn compiler() -> Compiler {
    Compiler::new(CompilerConfig { target: target(64), ct_query_cache_path: Some("kept".to_owned()) })
}

fn checked(program: CoreProgram) -> Monomorphized {
    let compiler = compiler();
    let built = compiler.bootstrap_core(program);
    compiler.monomorphize(compiler.typecheck(built))
}

#[test]
fn the_configuration_is_handed_back() {
    let config = compiler().config();
    assert_eq!(config.target, target(64));
    assert_eq!(config.ct_query_cache_path, Some("kept".to_owned()));
    let config = CompilerConfig::default();
    assert_eq!(config.target.word_size_bits, 64);
    assert_eq!(config.target.pointer_alignment, 8);
    assert_eq!(config.ct_query_cache_path, None);
}

#[test]
fn the_default_machine_orders_bytes_as_this_one() {
    let expected = if 1u16.to_ne_bytes() == 1u16.to_le_bytes() {
        Endianness::Little
    } else {
        Endianness::Big
    };
    assert_eq!(TargetSpec::default().endianness, expected);
    assert_eq!(TargetSpec::endianness_of([1, 0]), Endianness::Little);
    assert_eq!(TargetSpec::endianness_of([0, 1]), Endianness::Big);
}

#[test]
fn every_function_stands_for_itself() {
    let (program, _) = tower(3);
    let mono = checked(program);
    for f in 0..3 {
        assert_eq!(mono.mono().source_to_mono.get(f), Some(&vec![FuncId::new(f)]));
    }
    assert_eq!(mono.mono().source_to_mono.len(), 3);
}

#[test]
fn the_first_pipeline_goes_through() {
    let (program, call) = absolute(-7);
    let reads = vec![FileRead { path: "x".to_owned(), content: None }];
    let (out, kept) =
        compiler().run_v0_core_pipeline(checked(program), &host, &reads, QueryCache::On(None));
    assert!(matches!(out.program().exprs[call.0].kind, ExprKind::Literal(Literal::Int(7))));
    assert_eq!(out.ct().file_deps[0].content_hash, "missing");
    assert_eq!(kept.unwrap().file_deps[0].path, "x");
}

#[test]
fn the_second_pipeline_wants_every_expression_known() {
    let (program, _) = absolute(-7);
    let (out, _) = compiler().run_v1_core_pipeline(checked(program), &host, &vec![], QueryCache::Off);
    assert_eq!(out.err().unwrap().fault, Fault::KnownnessTableSize);
    let empty = CoreProgram::new();
    let (out, _) = compiler().run_v1_core_pipeline(checked(empty), &host, &vec![], QueryCache::Off);
    assert!(out.is_ok());
}

#[test]
fn the_stages_can_be_run_one_by_one() {
    let empty = CoreProgram::new();
    let (classified, kept) = comptime::evaluate_classify(
        checked(empty),
        target(64),
        &host,
        &vec![],
        QueryCache::On(None),
    );
    assert!(kept.is_some());
    let out = comptime::residualize_specialize(classified.unwrap());
    assert!(out.unwrap().program().exprs.is_empty());
}

#[test]
fn an_error_node_is_not_evaluated() {
    let mut program = CoreProgram::new();
    let bad = expr(
        &mut program,
        ExprKind::Error(ErrorNode { message: "bad".to_owned(), span: span() }),
    );
    assert!(evaluate(program).ct().ct_cache.get(bad.0).is_none());
}

#[test]
fn what_has_been_found_stays_ready_under_a_runtime_directive() {
    let mut program = CoreProgram::new();
    let one = number(&mut program, 1);
    let p = expr(&mut program, ExprKind::Var(VarId::new(0)));
    let known = stmt(&mut program, StmtKind::Return(one));
    let open = stmt(&mut program, StmtKind::Return(p));
    let second = stmt(
        &mut program,
        StmtKind::Stage { stage: StageDirective::Runtime, body: open, next: None },
    );
    let body = stmt(
        &mut program,
        StmtKind::Stage { stage: StageDirective::Runtime, body: known, next: Some(second) },
    );
    function(&mut program, &[0], body);
    let out = classify(program);
    assert_eq!(out.bta().stage_of_expr.get(one.0), Some(&Stage::Ct));
    assert_eq!(
        out.bta().stage_of_expr.get(p.0),
        Some(&Stage::Rt(Reason::UserForcedRuntime))
    );
}
