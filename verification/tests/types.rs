use cielo::common::diagnostics::{DiagnosticBag, Severity};
use cielo::common::ids::{
    EffectLabelId, ExprId, FuncId, HandlerId, SourceId, StmtId, SymbolId, TypeId, VarId,
};
use cielo::common::span::Span;
use cielo::ir::core_ir::{
    BinaryOp, CoreProgram, CoreTypeRef, EffectDecl, EffectOpDecl, ExprKind, ExprNode,
    FunctionDecl, HandlerClause, HandlerDef, Literal, PrimitiveTypeRef, StmtKind, StmtNode,
};
use cielo::pipeline::tables::SemanticTables;
use cielo::sema::effect::{
    first_non_thunkable_effect, is_thunkable, EffectProperties, SortedEffectRow,
};
use cielo::sema::ownership::{classify_core_type_ref, classify_type_kind, OwnershipClass};
use cielo::sema::ty::{
    EnumVariant, FunctionType, Persistability, PrimitiveType, StructField, TypeKind, TypeStore,
};
use cielo::sema::typecheck::typecheck_core;
use std::collections::HashMap;

fn span() -> Span {
    Span::new(SourceId::new(0), 0, 0)
}

fn expr(program: &mut CoreProgram, kind: ExprKind) -> ExprId {
    program.push_expr(ExprNode { span: span(), kind })
}

fn stmt(program: &mut CoreProgram, kind: StmtKind) -> StmtId {
    program.push_stmt(StmtNode { span: span(), kind })
}

fn literal(program: &mut CoreProgram, literal: Literal) -> ExprId {
    expr(program, ExprKind::Literal(literal))
}

fn function(program: &mut CoreProgram, params: &[usize], body: StmtId) -> FuncId {
    program.add_function(FunctionDecl {
        name: SymbolId::new(0),
        params: params.iter().map(|var| VarId::new(*var)).collect(),
        param_types: vec![TypeId::invalid(); params.len()],
        return_type: TypeId::invalid(),
        declared_effects: SortedEffectRow::empty(),
        body,
        ct_only: false,
        span: span(),
    })
}

fn check(program: &CoreProgram) -> (SemanticTables, DiagnosticBag) {
    let mut diagnostics = DiagnosticBag::new();
    let sema = typecheck_core(program, &mut diagnostics);
    (sema, diagnostics)
}

fn codes(bag: &DiagnosticBag) -> Vec<&'static str> {
    bag.items.iter().map(|item| item.code).collect()
}

/// An effect with one operation on an integer that gives a truth value.
fn with_effect() -> CoreProgram {
    let mut program = CoreProgram::new();
    program.add_effect(EffectDecl {
        label: EffectLabelId::new(0),
        operations: vec![EffectOpDecl {
            name: SymbolId::new(3),
            param_types: vec![CoreTypeRef::Primitive(PrimitiveTypeRef::Int)],
            return_type: CoreTypeRef::Primitive(PrimitiveTypeRef::Bool),
        }],
    });
    program
}

fn perform(program: &mut CoreProgram, operation: usize, args: Vec<ExprId>, next: StmtId) -> StmtId {
    stmt(
        program,
        StmtKind::Perform {
            result: Some(VarId::new(7)),
            effect: EffectLabelId::new(0),
            operation: SymbolId::new(operation),
            args,
            next,
        },
    )
}

#[test]
fn literals_and_operators_have_types() {
    let mut program = CoreProgram::new();
    let one = literal(&mut program, Literal::Int(1));
    let half = literal(&mut program, Literal::Float(0.5f64.to_bits()));
    let less = expr(&mut program, ExprKind::Binary { op: BinaryOp::Lt, lhs: one, rhs: one });
    let sum = expr(&mut program, ExprKind::Binary { op: BinaryOp::Add, lhs: one, rhs: one });
    let yes = literal(&mut program, Literal::Bool(true));
    let (sema, diagnostics) = check(&program);
    assert!(diagnostics.is_empty());
    assert_eq!(sema.type_of_expr[sum.0], sema.type_of_expr[one.0]);
    assert_eq!(sema.type_of_expr[less.0], sema.type_of_expr[yes.0]);
    assert_ne!(sema.type_of_expr[one.0], sema.type_of_expr[half.0]);
    assert_eq!(sema.type_of_expr.len(), 5);
    assert_eq!(sema.effects_of_expr.len(), 5);
}

#[test]
fn a_binding_has_the_type_of_its_value() {
    let mut program = CoreProgram::new();
    let one = literal(&mut program, Literal::Int(1));
    let var = expr(&mut program, ExprKind::Var(VarId::new(4)));
    let end = stmt(&mut program, StmtKind::Return(var));
    let body = stmt(
        &mut program,
        StmtKind::Let { binding: VarId::new(4), value: one, next: end },
    );
    function(&mut program, &[], body);
    let (sema, diagnostics) = check(&program);
    assert!(diagnostics.is_empty());
    assert_eq!(sema.type_of_expr[var.0], sema.type_of_expr[one.0]);
}

#[test]
fn what_has_no_type_is_reported_as_a_warning() {
    let mut program = CoreProgram::new();
    let var = expr(&mut program, ExprKind::Var(VarId::new(4)));
    let (sema, diagnostics) = check(&program);
    assert_eq!(sema.type_of_expr[var.0], None);
    assert_eq!(codes(&diagnostics), vec!["TYPE_INFER_INCOMPLETE"]);
    assert_eq!(diagnostics.items[0].severity, Severity::Warning);
    assert!(!diagnostics.has_errors());
}

#[test]
fn an_operation_gives_its_effect_and_its_type() {
    let mut program = with_effect();
    let one = literal(&mut program, Literal::Int(1));
    let got = expr(&mut program, ExprKind::Var(VarId::new(7)));
    let yes = literal(&mut program, Literal::Bool(true));
    let end = stmt(&mut program, StmtKind::Return(got));
    let body = perform(&mut program, 3, vec![one], end);
    function(&mut program, &[], body);
    let (sema, diagnostics) = check(&program);
    assert!(diagnostics.is_empty(), "{:?}", diagnostics);
    assert_eq!(sema.effects_of_stmt[body.0].labels, vec![EffectLabelId::new(0)]);
    assert!(sema.effects_of_stmt[end.0].is_empty());
    assert_eq!(sema.type_of_expr[got.0], sema.type_of_expr[yes.0]);
}

#[test]
fn wrong_operations_are_reported() {
    let mut program = with_effect();
    let one = literal(&mut program, Literal::Int(1));
    let yes = literal(&mut program, Literal::Bool(true));
    let end = stmt(&mut program, StmtKind::Return(one));
    perform(&mut program, 9, vec![one], end);
    perform(&mut program, 3, vec![], end);
    perform(&mut program, 3, vec![yes], end);
    let (_, diagnostics) = check(&program);
    assert_eq!(
        codes(&diagnostics),
        vec!["TYPE_UNKNOWN_EFFECT_OP", "TYPE_BAD_EFFECT_OP_ARITY", "TYPE_EFFECT_ARG_MISMATCH"]
    );
}

fn handled(program: &mut CoreProgram, clauses: Vec<HandlerClause>, body: StmtId) -> StmtId {
    let end = stmt(program, StmtKind::Return(ExprId::new(0)));
    let handler = program.add_handler(HandlerDef {
        effect: EffectLabelId::new(0),
        return_param: VarId::new(8),
        return_body: end,
        clauses,
        span: span(),
    });
    assert_eq!(handler, HandlerId::new(0));
    stmt(program, StmtKind::Handle { handler, body, next: None })
}

fn clause(operation: usize, params: &[usize], body: StmtId) -> HandlerClause {
    HandlerClause {
        operation: SymbolId::new(operation),
        params: params.iter().map(|var| VarId::new(*var)).collect(),
        resume_param: None,
        body,
        span: span(),
    }
}

#[test]
fn a_handler_takes_its_effect_away() {
    let mut program = with_effect();
    let one = literal(&mut program, Literal::Int(1));
    let end = stmt(&mut program, StmtKind::Return(one));
    let body = perform(&mut program, 3, vec![one], end);
    let clauses = vec![clause(3, &[9], end)];
    let whole = handled(&mut program, clauses, body);
    function(&mut program, &[], whole);
    let (sema, diagnostics) = check(&program);
    assert!(diagnostics.is_empty(), "{:?}", diagnostics);
    assert_eq!(sema.effects_of_stmt[body.0].len(), 1);
    assert!(sema.effects_of_stmt[whole.0].is_empty());
}

#[test]
fn wrong_clauses_are_reported() {
    let mut program = with_effect();
    let one = literal(&mut program, Literal::Int(1));
    let end = stmt(&mut program, StmtKind::Return(one));
    let clauses = vec![clause(5, &[9], end), clause(3, &[], end)];
    handled(&mut program, clauses, end);
    let (_, diagnostics) = check(&program);
    assert_eq!(
        codes(&diagnostics),
        vec!["TYPE_UNKNOWN_HANDLER_OP", "TYPE_BAD_HANDLER_CLAUSE_ARITY"]
    );
}

#[test]
fn a_clause_parameter_of_another_type_is_reported() {
    let mut program = with_effect();
    let text = literal(&mut program, Literal::String("a".to_owned()));
    let end = stmt(&mut program, StmtKind::Return(text));
    stmt(
        &mut program,
        StmtKind::Let { binding: VarId::new(9), value: text, next: end },
    );
    let clauses = vec![clause(3, &[9], end)];
    handled(&mut program, clauses, end);
    let (_, diagnostics) = check(&program);
    assert_eq!(codes(&diagnostics), vec!["TYPE_HANDLER_PARAM_MISMATCH"]);
}

// ---------------------------------------------------------------------------
// Effect rows, ownership and types
// ---------------------------------------------------------------------------

fn row(labels: &[usize]) -> SortedEffectRow {
    SortedEffectRow::new(labels.iter().map(|label| EffectLabelId::new(*label)).collect())
}

#[test]
fn rows_are_ascending_and_hold_each_label_once() {
    assert_eq!(row(&[3, 1, 3, 2]).labels, row(&[1, 2, 3]).labels);
    assert_eq!(row(&[1, 3]).union(&row(&[2, 3])).labels, row(&[1, 2, 3]).labels);
    assert_eq!(row(&[1, 2, 3]).subtract(&row(&[2, 9])).labels, row(&[1, 3]).labels);
    assert!(row(&[1, 3]).contains(EffectLabelId::new(3)));
    assert!(!row(&[1, 3]).contains(EffectLabelId::new(2)));
    assert!(SortedEffectRow::empty().is_empty());
    assert_eq!(SortedEffectRow::singleton(EffectLabelId::new(5)).len(), 1);
}

#[test]
fn a_row_is_thunkable_if_every_label_is() {
    let mut properties = HashMap::new();
    properties.insert(1, EffectProperties { ct_only: false, thunkable: true });
    properties.insert(2, EffectProperties { ct_only: false, thunkable: false });
    assert!(is_thunkable(&row(&[]), &properties));
    assert!(is_thunkable(&row(&[1]), &properties));
    assert!(!is_thunkable(&row(&[1, 2]), &properties));
    assert_eq!(
        first_non_thunkable_effect(&row(&[1, 2]), &properties),
        Some(EffectLabelId::new(2))
    );
    assert_eq!(first_non_thunkable_effect(&row(&[1]), &properties), None);
}

#[test]
fn ownership_is_merged() {
    let all = [OwnershipClass::Trivial, OwnershipClass::RcManaged, OwnershipClass::BorrowedView];
    for a in all {
        assert_eq!(a.merge(a), a);
        for b in all {
            assert_eq!(a.merge(b), b.merge(a));
            for c in all {
                assert_eq!(a.merge(b).merge(c), a.merge(b.merge(c)));
            }
        }
    }
}

#[test]
fn types_are_owned_by_what_they_hold() {
    assert_eq!(
        classify_type_kind(&TypeKind::Primitive(PrimitiveType::Int)),
        OwnershipClass::Trivial
    );
    assert_eq!(
        classify_type_kind(&TypeKind::Primitive(PrimitiveType::String)),
        OwnershipClass::BorrowedView
    );
    assert_eq!(
        classify_type_kind(&TypeKind::Struct { name: SymbolId::new(0), fields: vec![] }),
        OwnershipClass::RcManaged
    );
    assert_eq!(classify_type_kind(&TypeKind::TypeParam(0)), OwnershipClass::BorrowedView);
    assert_eq!(classify_type_kind(&TypeKind::Error), OwnershipClass::BorrowedView);
    assert_eq!(
        classify_core_type_ref(&CoreTypeRef::Named(SymbolId::new(1))),
        OwnershipClass::RcManaged
    );
    assert_eq!(classify_core_type_ref(&CoreTypeRef::Unknown), OwnershipClass::BorrowedView);
    assert_eq!(
        classify_core_type_ref(&CoreTypeRef::Primitive(PrimitiveTypeRef::Bool)),
        OwnershipClass::Trivial
    );
    assert_eq!(classify_core_type_ref(&CoreTypeRef::Unit), OwnershipClass::Trivial);
}

#[test]
fn a_type_is_as_persistable_as_its_parts() {
    let mut store = TypeStore::new();
    assert!(store.is_empty());
    let number = store.intern(TypeKind::Primitive(PrimitiveType::Int));
    let text = store.intern(TypeKind::TypeParam(0));
    let function = store.intern(TypeKind::Function(FunctionType {
        params: vec![number],
        ret: number,
        effects: SortedEffectRow::empty(),
    }));
    let field = |ty: TypeId| StructField { name: SymbolId::new(0), ty };
    let plain = store.intern(TypeKind::Struct {
        name: SymbolId::new(1),
        fields: vec![field(number), field(number)],
    });
    let mixed = store.intern(TypeKind::Struct {
        name: SymbolId::new(2),
        fields: vec![field(number), field(text)],
    });
    let bad = store.intern(TypeKind::Enum {
        name: SymbolId::new(3),
        variants: vec![EnumVariant { name: SymbolId::new(4), fields: vec![text, function] }],
    });
    assert_eq!(store.persistability(number), Persistability::Trivial);
    assert_eq!(store.persistability(text), Persistability::Serializable);
    assert_eq!(store.persistability(function), Persistability::NonPersistable);
    assert_eq!(store.persistability(plain), Persistability::Trivial);
    assert_eq!(store.persistability(mixed), Persistability::Serializable);
    assert_eq!(store.persistability(bad), Persistability::NonPersistable);
    assert_eq!(store.persistability(TypeId::new(99)), Persistability::NonPersistable);
    assert_eq!(store.len(), 6);
}

#[test]
fn a_handler_performs_what_its_clauses_perform() {
    let mut program = with_effect();
    let one = literal(&mut program, Literal::Int(1));
    let end = stmt(&mut program, StmtKind::Return(one));
    let body = perform(&mut program, 3, vec![one], end);
    let inner = stmt(
        &mut program,
        StmtKind::Perform {
            result: None,
            effect: EffectLabelId::new(1),
            operation: SymbolId::new(6),
            args: vec![],
            next: end,
        },
    );
    let whole = handled(&mut program, vec![clause(3, &[9], inner)], body);
    function(&mut program, &[], whole);
    let (sema, _) = check(&program);
    assert_eq!(sema.effects_of_stmt[body.0].labels, vec![EffectLabelId::new(0)]);
    assert_eq!(sema.effects_of_stmt[inner.0].labels, vec![EffectLabelId::new(1)]);
    assert_eq!(sema.effects_of_stmt[whole.0].labels, vec![EffectLabelId::new(1)]);
}

#[test]
fn a_clause_that_leads_back_to_its_handler_has_a_row() {
    let mut program = with_effect();
    let one = literal(&mut program, Literal::Int(1));
    let end = stmt(&mut program, StmtKind::Return(one));
    let inner = stmt(
        &mut program,
        StmtKind::Perform {
            result: None,
            effect: EffectLabelId::new(1),
            operation: SymbolId::new(6),
            args: vec![],
            next: end,
        },
    );
    let body = perform(&mut program, 3, vec![one], inner);
    let whole = handled(&mut program, vec![clause(3, &[9], end)], body);
    program.handlers[0].clauses[0].body = whole;
    program.handlers[0].clauses[0].resume_param = Some(VarId::new(5));
    let resume = stmt(
        &mut program,
        StmtKind::Resume { result: VarId::new(6), resume: VarId::new(5), arg: one, next: end },
    );
    function(&mut program, &[], whole);
    let (sema, _) = check(&program);
    assert_eq!(sema.effects_of_stmt[whole.0].labels, vec![EffectLabelId::new(1)]);
    assert_eq!(sema.effects_of_stmt[resume.0].labels, vec![EffectLabelId::new(1)]);
}
