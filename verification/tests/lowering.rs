use cielo::common::diagnostics::{DiagnosticBag, ErrorNode};
use cielo::common::ids::{EffectLabelId, FuncId, SourceId, SymbolId};
use cielo::common::span::Span;
use cielo::frontend::ast::{
    BinOp, BlockExpr, EffectItem, EffectOperation, EnumItem, Expr, ExprKind, FunctionItem,
    HandlerClause, Item, Param, Program, StageMarker, Stmt, StructItem, UnaryOp, VariantItem,
};
use cielo::ir::core_ir::{self, CoreProgram, Literal, StageDirective, StmtKind};
use cielo::passes::lowering::{lower_program, LowerConfig, LowerOutput};
use cielo::pipeline::compiler::Compiler;
use cielo::pipeline::phases::Parsed;

fn span() -> Span {
    Span::new(SourceId::new(0), 0, 0)
}

fn name(n: usize) -> SymbolId {
    SymbolId::new(n)
}

fn expr(kind: ExprKind) -> Expr {
    Expr { kind, span: span() }
}

fn number(value: i64) -> Expr {
    expr(ExprKind::Int(value))
}

fn var(n: usize) -> Expr {
    expr(ExprKind::Var(name(n)))
}

fn call(callee: usize, args: Vec<Expr>) -> Expr {
    expr(ExprKind::Call { callee: Box::new(var(callee)), args })
}

fn block(statements: Vec<Stmt>, tail: Option<Expr>) -> BlockExpr {
    BlockExpr { statements, tail: tail.map(Box::new), span: span() }
}

fn param(n: usize) -> Param {
    Param { name: name(n), span: span() }
}

fn function(n: usize, params: &[usize], effects: &[usize], body: BlockExpr) -> Item {
    Item::Function(FunctionItem {
        name: name(n),
        params: params.iter().map(|p| param(*p)).collect(),
        effects: effects.iter().map(|e| name(*e)).collect(),
        body,
        span: span(),
    })
}

fn effect(n: usize, operations: &[(usize, usize)]) -> Item {
    Item::Effect(EffectItem {
        name: name(n),
        operations: operations
            .iter()
            .map(|(operation, arity)| EffectOperation {
                name: name(*operation),
                params: (0..*arity).map(param).collect(),
                span: span(),
            })
            .collect(),
        span: span(),
    })
}

fn lower(items: Vec<Item>) -> LowerOutput {
    lower_program(&Program { items }, LowerConfig::with_entrypoint(name(1)))
}

fn codes(bag: &DiagnosticBag) -> Vec<&'static str> {
    bag.items.iter().map(|item| item.code).collect()
}

fn perform(effect: usize, operation: usize, args: Vec<Expr>) -> Stmt {
    Stmt::Perform { effect: name(effect), operation: name(operation), args, span: span() }
}

fn body_of(program: &CoreProgram, f: usize) -> &StmtKind {
    &program.stmts[program.functions[f].body.0].kind
}

#[test]
fn a_function_is_lowered() {
    let sum = expr(ExprKind::Binary {
        op: BinOp::Add,
        lhs: Box::new(var(10)),
        rhs: Box::new(number(1)),
    });
    let out = lower(vec![function(1, &[10], &[], block(vec![], Some(sum)))]);
    assert!(out.diagnostics.is_empty());
    assert_eq!(out.program.entrypoints, vec![FuncId::new(0)]);
    let result = match body_of(&out.program, 0) {
        StmtKind::Return(e) => *e,
        _ => panic!("no return"),
    };
    match &out.program.exprs[result.0].kind {
        core_ir::ExprKind::Binary { op, lhs, rhs } => {
            assert_eq!(*op, core_ir::BinaryOp::Add);
            let first = out.program.functions[0].params[0];
            assert!(matches!(out.program.exprs[lhs.0].kind, core_ir::ExprKind::Var(v) if v == first));
            assert!(matches!(
                out.program.exprs[rhs.0].kind,
                core_ir::ExprKind::Literal(Literal::Int(1))
            ));
        }
        _ => panic!("no sum"),
    }
}

#[test]
fn a_block_without_a_tail_gives_nothing() {
    let out = lower(vec![function(1, &[], &[], block(vec![], None))]);
    let result = match body_of(&out.program, 0) {
        StmtKind::Return(e) => *e,
        _ => panic!("no return"),
    };
    assert!(matches!(
        out.program.exprs[result.0].kind,
        core_ir::ExprKind::Literal(Literal::Unit)
    ));
}

#[test]
fn bindings_and_stages_are_lowered() {
    let staged = expr(ExprKind::StageBlock {
        stage: StageMarker::Comptime,
        block: block(vec![], Some(number(3))),
    });
    let statements = vec![
        Stmt::Let { name: name(10), value: number(5), span: span() },
        Stmt::Let { name: name(11), value: staged, span: span() },
        Stmt::Expr { value: number(6), span: span() },
    ];
    let out = lower(vec![function(1, &[], &[], block(statements, Some(var(11))))]);
    assert!(out.diagnostics.is_empty(), "{:?}", out.diagnostics);
    let next = match body_of(&out.program, 0) {
        StmtKind::Let { next, .. } => *next,
        _ => panic!("no binding"),
    };
    let value = match &out.program.stmts[next.0].kind {
        StmtKind::Val { value, .. } => *value,
        _ => panic!("no block"),
    };
    assert!(matches!(
        out.program.stmts[value.0].kind,
        StmtKind::Stage { stage: StageDirective::Comptime, next: None, .. }
    ));
}

#[test]
fn a_branch_is_not_lowered_yet() {
    let choice = expr(ExprKind::If {
        cond: Box::new(expr(ExprKind::Bool(true))),
        then_block: block(vec![], Some(number(1))),
        else_block: None,
    });
    assert_eq!(reported(vec![], choice), vec!["LOWER_EXPR_UNSUPPORTED"]);
}

#[test]
fn an_operation_is_lowered_with_its_effect() {
    let out = lower(vec![
        effect(2, &[(3, 1)]),
        function(1, &[], &[2], block(vec![perform(2, 3, vec![number(1)])], Some(number(0)))),
    ]);
    assert!(out.diagnostics.is_empty(), "{:?}", out.diagnostics);
    assert_eq!(out.program.functions[0].declared_effects.labels, vec![EffectLabelId::new(0)]);
    assert!(matches!(
        body_of(&out.program, 0),
        StmtKind::Perform { effect, operation, .. }
            if *effect == EffectLabelId::new(0) && *operation == name(3)
    ));
}

#[test]
fn constructors_are_lowered() {
    let items = vec![
        Item::Struct(StructItem { name: name(5), fields: vec![param(0)], span: span() }),
        Item::Enum(EnumItem {
            name: name(6),
            variants: vec![VariantItem { name: name(7), fields: vec![], span: span() }],
            span: span(),
        }),
        function(
            1,
            &[],
            &[],
            block(
                vec![Stmt::Let { name: name(8), value: call(5, vec![number(1)]), span: span() }],
                Some(call(7, vec![])),
            ),
        ),
    ];
    let out = lower(items);
    assert!(out.diagnostics.is_empty(), "{:?}", out.diagnostics);
    let kinds: Vec<&core_ir::ExprKind> = out.program.exprs.iter().map(|e| &e.kind).collect();
    assert!(kinds
        .iter()
        .any(|kind| matches!(kind, core_ir::ExprKind::MakeStruct { ty, .. } if *ty == name(5))));
    assert!(kinds.iter().any(|kind| matches!(
        kind,
        core_ir::ExprKind::MakeEnum { ty, variant, .. } if *ty == name(6) && *variant == name(7)
    )));
}

/// The codes of what is reported for a function with this body.
fn reported(statements: Vec<Stmt>, tail: Expr) -> Vec<&'static str> {
    let out = lower(vec![
        effect(2, &[(3, 1)]),
        Item::Struct(StructItem { name: name(5), fields: vec![param(0)], span: span() }),
        Item::Enum(EnumItem {
            name: name(6),
            variants: vec![VariantItem { name: name(7), fields: vec![], span: span() }],
            span: span(),
        }),
        function(9, &[], &[2], block(vec![], Some(number(0)))),
        function(1, &[], &[], block(statements, Some(tail))),
    ]);
    codes(&out.diagnostics)
}

#[test]
fn unknown_names_are_reported() {
    assert_eq!(reported(vec![], var(99)), vec!["LOWER_UNKNOWN_VAR"]);
    let nested = expr(ExprKind::Unary { op: UnaryOp::Neg, expr: Box::new(call(99, vec![])) });
    assert_eq!(reported(vec![], nested), vec!["LOWER_UNKNOWN_FUNC"]);
    assert_eq!(
        reported(vec![perform(99, 3, vec![])], number(0)),
        vec!["LOWER_UNKNOWN_EFFECT"]
    );
    assert_eq!(
        reported(vec![perform(2, 99, vec![])], number(0)),
        vec!["LOWER_UNKNOWN_EFFECT_OP"]
    );
}

#[test]
fn an_unknown_effect_of_a_function_is_reported() {
    let out = lower(vec![function(1, &[], &[99], block(vec![], None))]);
    assert_eq!(codes(&out.diagnostics), vec!["LOWER_UNKNOWN_EFFECT_ANNOT"]);
}

#[test]
fn wrong_numbers_of_arguments_are_reported() {
    assert_eq!(
        reported(vec![perform(2, 3, vec![])], number(0)),
        vec!["LOWER_BAD_EFFECT_OP_ARITY"]
    );
    let minus = |e: Expr| expr(ExprKind::Unary { op: UnaryOp::Neg, expr: Box::new(e) });
    assert_eq!(reported(vec![], minus(call(5, vec![]))), vec!["LOWER_BAD_STRUCT_CTOR_ARITY"]);
    assert_eq!(
        reported(vec![], minus(call(7, vec![number(1)]))),
        vec!["LOWER_BAD_ENUM_CTOR_ARITY"]
    );
}

#[test]
fn what_does_not_fit_an_expression_is_reported() {
    let minus = |e: Expr| expr(ExprKind::Unary { op: UnaryOp::Neg, expr: Box::new(e) });
    assert_eq!(reported(vec![], minus(call(9, vec![]))), vec!["LOWER_EFFECTFUL_CALL_PURE_CTX"]);
    let odd = expr(ExprKind::Call { callee: Box::new(number(1)), args: vec![] });
    assert_eq!(reported(vec![], minus(odd)), vec!["LOWER_COMPLEX_CALLEE"]);
    let nested = expr(ExprKind::Block(block(vec![], Some(number(1)))));
    assert_eq!(reported(vec![], minus(nested)), vec!["LOWER_EXPR_UNSUPPORTED"]);
}

fn clause(operation: usize, params: &[usize]) -> HandlerClause {
    HandlerClause {
        operation: name(operation),
        params: params.iter().map(|p| name(*p)).collect(),
        body: block(vec![], Some(number(0))),
        span: span(),
    }
}

fn handle(effect: usize, clauses: Vec<HandlerClause>) -> Expr {
    expr(ExprKind::Handle { body: Box::new(number(1)), effect: name(effect), clauses })
}

#[test]
fn a_handler_is_lowered() {
    let out = lower(vec![
        effect(2, &[(3, 1)]),
        function(1, &[], &[], block(vec![], Some(handle(2, vec![clause(3, &[20])])))),
    ]);
    assert!(out.diagnostics.is_empty(), "{:?}", out.diagnostics);
    assert_eq!(out.program.handlers.len(), 1);
    assert_eq!(out.program.handlers[0].effect, EffectLabelId::new(0));
    assert_eq!(out.program.handlers[0].clauses.len(), 1);
    assert!(out
        .program
        .stmts
        .iter()
        .any(|stmt| matches!(stmt.kind, StmtKind::Handle { .. })));
}

#[test]
fn wrong_handlers_are_reported() {
    assert_eq!(
        reported(vec![], handle(99, vec![clause(3, &[20])])),
        vec!["LOWER_UNKNOWN_HANDLER_EFFECT"]
    );
    assert_eq!(
        reported(vec![], handle(2, vec![clause(99, &[])])),
        vec!["LOWER_UNKNOWN_HANDLER_OP"]
    );
    assert_eq!(
        reported(vec![], handle(2, vec![clause(3, &[])])),
        vec!["LOWER_BAD_HANDLER_CLAUSE_ARITY"]
    );
    assert_eq!(
        reported(vec![], handle(2, vec![clause(3, &[20]), clause(3, &[21])])),
        vec!["LOWER_DUP_HANDLER_CLAUSE"]
    );
}

#[test]
fn a_lowered_program_is_laid_out_bottom_up() {
    let choice = expr(ExprKind::If {
        cond: Box::new(expr(ExprKind::Bool(true))),
        then_block: block(vec![], Some(number(1))),
        else_block: None,
    });
    let out = lower(vec![
        effect(2, &[(3, 1)]),
        function(
            1,
            &[],
            &[],
            block(
                vec![Stmt::Let { name: name(8), value: choice, span: span() }],
                Some(handle(2, vec![clause(3, &[20])])),
            ),
        ),
    ]);
    for (at, stmt) in out.program.stmts.iter().enumerate() {
        for part in stmt.child_stmts() {
            assert!(part.0 < at);
        }
        for part in stmt.child_exprs() {
            assert!(part.0 < out.program.exprs.len());
        }
    }
    for (at, e) in out.program.exprs.iter().enumerate() {
        for part in e.child_exprs() {
            assert!(part.0 < at);
        }
    }
}

#[test]
fn what_was_reported_before_comes_first() {
    let mut said = DiagnosticBag::new();
    said.error("FIRST", "first", span());
    let ast = Program {
        items: vec![
            Item::Error(ErrorNode { message: "bad".to_owned(), span: span() }),
            function(1, &[], &[], block(vec![], Some(var(99)))),
        ],
    };
    let compiler = Compiler::default();
    let built = compiler.lower_parsed_to_core(Parsed::new(ast, said));
    assert_eq!(codes(built.diagnostics()), vec!["FIRST", "LOWER_UNKNOWN_VAR"]);
    assert!(built.program().entrypoints.is_empty());
    assert!(built.diagnostics().has_errors());
}

#[test]
fn the_program_that_is_built_is_the_one_that_lowering_gives() {
    let tree = || Program {
        items: vec![function(
            1,
            &[2],
            &[],
            block(
                vec![Stmt::Expr { value: call(1, vec![var(2)]), span: span() }],
                Some(expr(ExprKind::StageBlock {
                    stage: StageMarker::Comptime,
                    block: block(vec![], Some(number(4))),
                })),
            ),
        )],
    };
    let lowered = lower_program(&tree(), LowerConfig::default());
    let built = Compiler::default().lower_parsed_to_core(Parsed::new(tree(), DiagnosticBag::new()));
    assert_eq!(format!("{:?}", built.program()), format!("{:?}", lowered.program));
    assert_eq!(lowered.program.exprs.len(), 5);
    assert_eq!(lowered.program.stmts.len(), 6);
    assert_eq!(lowered.program.functions[0].body.0, 5);
    assert!(matches!(lowered.program.stmts[2].kind, StmtKind::Stage { .. }));
}
