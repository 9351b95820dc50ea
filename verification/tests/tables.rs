use cielo::common::densemap::DenseMap;
use cielo::common::ids::{FuncId, SymbolId, VarId};
use cielo::common::sorted::{contains_sorted, insert_sorted, intersect_sorted, remove_sorted};
use cielo::ir::core_ir::Literal;
use cielo::pipeline::reason::{remap_func_id, remap_stage_reason, Reason, Stage};
use cielo::pipeline::tables::{
    is_finite, is_same_constant, BtaTables, ClauseDischarge, ConstantKey, CtorFieldKey,
    CtorLiteralKey, HandlerDischarge, MonomorphizationSummary, ResidualTables, ScalarLiteralKey,
};
use cielo::sema::effect::SortedEffectRow;

fn f(n: usize) -> FuncId {
    FuncId::new(n)
}

/// The second function goes; the third one takes its place.
fn remap() -> Vec<Option<FuncId>> {
    vec![Some(f(0)), None, Some(f(1))]
}

#[test]
fn a_dense_map_keeps_what_was_put_in_last() {
    let mut map = DenseMap::new();
    assert_eq!(map.len(), 0);
    map.insert(5, 'a');
    map.insert(2, 'b');
    map.insert(5, 'c');
    assert_eq!(map.get(5), Some(&'c'));
    assert_eq!(map.get(2), Some(&'b'));
    assert_eq!(map.get(3), None);
    assert_eq!(map.get(99), None);
    assert!(map.contains_key(2));
    assert_eq!(map.len(), 2);
    assert_eq!(map.bound(), 6);
}

#[test]
fn functions_move_and_go() {
    assert_eq!(remap_func_id(&remap(), f(2)), Some(f(1)));
    assert_eq!(remap_func_id(&remap(), f(1)), None);
    assert_eq!(remap_func_id(&remap(), f(9)), None);
}

#[test]
fn a_reason_follows_its_function() {
    let moved = |reason: Reason| reason.remap_func_ids(&remap());
    assert_eq!(
        moved(Reason::Parameter { func: f(2), index: 3 }),
        Reason::Parameter { func: f(1), index: 3 }
    );
    assert_eq!(moved(Reason::Parameter { func: f(1), index: 3 }), Reason::UnclassifiedRuntime);
    assert_eq!(moved(Reason::CtOnlyWithRuntimeArgs(f(2))), Reason::CtOnlyWithRuntimeArgs(f(1)));
    assert_eq!(moved(Reason::CtOnlyWithRuntimeArgs(f(7))), Reason::UnclassifiedRuntime);
    assert_eq!(moved(Reason::DependsOnVar(VarId::new(1))), Reason::DependsOnVar(VarId::new(1)));
    assert_eq!(remap_stage_reason(Stage::Ct, &remap()), Stage::Ct);
    assert_eq!(
        remap_stage_reason(Stage::Rt(Reason::CtOnlyWithRuntimeArgs(f(2))), &remap()),
        Stage::Rt(Reason::CtOnlyWithRuntimeArgs(f(1)))
    );
}

#[test]
fn the_table_of_functions_follows() {
    let mut source_to_mono = DenseMap::new();
    source_to_mono.insert(0, vec![f(0), f(2), f(1)]);
    source_to_mono.insert(1, vec![f(1)]);
    source_to_mono.insert(2, vec![f(2), f(0), f(2)]);
    let mut mono = MonomorphizationSummary { source_to_mono };
    mono.remap_func_ids(&remap());
    assert_eq!(mono.source_to_mono.get(0), Some(&vec![f(0), f(1)]));
    assert_eq!(mono.source_to_mono.get(1), Some(&vec![f(0), f(1)]));
    assert_eq!(mono.source_to_mono.get(2), None);
}

#[test]
fn stages_and_discharges_follow() {
    let lost = Reason::CtOnlyWithRuntimeArgs(f(1));
    let mut bta = BtaTables {
        stage_of_expr: DenseMap::new(),
        stage_of_var: DenseMap::new(),
        knownness_of_expr: DenseMap::new(),
        handler_discharge: DenseMap::new(),
        clause_discharge: DenseMap::new(),
    };
    bta.stage_of_expr.insert(4, Stage::Rt(lost));
    bta.stage_of_var.insert(5, Stage::Rt(Reason::Parameter { func: f(2), index: 0 }));
    bta.handler_discharge.insert(0, HandlerDischarge { dischargeable: false, reason: Some(lost) });
    bta.clause_discharge.insert(
        0,
        vec![ClauseDischarge { dischargeable: true, reason: None }, ClauseDischarge {
            dischargeable: false,
            reason: Some(Reason::CtOnlyWithRuntimeArgs(f(2))),
        }],
    );
    bta.remap_func_ids(&remap());
    assert_eq!(bta.stage_of_expr.get(4), Some(&Stage::Rt(Reason::UnclassifiedRuntime)));
    assert_eq!(
        bta.stage_of_var.get(5),
        Some(&Stage::Rt(Reason::Parameter { func: f(1), index: 0 }))
    );
    assert_eq!(
        bta.handler_discharge.get(0).unwrap().reason,
        Some(Reason::UnclassifiedRuntime)
    );
    let clauses = bta.clause_discharge.get(0).unwrap();
    assert_eq!(clauses[0].reason, None);
    assert_eq!(clauses[1].reason, Some(Reason::CtOnlyWithRuntimeArgs(f(1))));
}

#[test]
fn the_summary_follows() {
    let mut summary = DenseMap::new();
    summary.insert(0, SortedEffectRow::empty());
    summary.insert(1, SortedEffectRow::empty());
    summary.insert(2, SortedEffectRow::singleton(cielo::common::ids::EffectLabelId::new(4)));
    let mut tables = ResidualTables::from_summary(summary);
    tables.remap_func_ids(&remap());
    assert_eq!(tables.function_effect_summary.len(), 2);
    assert_eq!(tables.function_effect_summary.get(1).unwrap().len(), 1);
}

#[test]
fn literals_have_keys() {
    assert_eq!(ScalarLiteralKey::from_literal(&Literal::Int(4)), Some(ScalarLiteralKey::Int(4)));
    assert_eq!(
        ScalarLiteralKey::from_literal(&Literal::Bool(true)),
        Some(ScalarLiteralKey::Bool(true))
    );
    assert_eq!(
        ScalarLiteralKey::from_literal(&Literal::Char('x')),
        Some(ScalarLiteralKey::Char('x'))
    );
    assert_eq!(
        ScalarLiteralKey::from_literal(&Literal::Float(1.5f64.to_bits())),
        Some(ScalarLiteralKey::Float(1.5f64.to_bits()))
    );
    assert_eq!(ScalarLiteralKey::from_literal(&Literal::Float(f64::NAN.to_bits())), None);
    assert_eq!(ScalarLiteralKey::from_literal(&Literal::Unit), None);
    assert_eq!(ScalarLiteralKey::from_literal(&Literal::String("a".to_owned())), None);
    assert_eq!(
        CtorFieldKey::from_literal(&Literal::String("a".to_owned())),
        Some(CtorFieldKey::String("a".to_owned()))
    );
    assert_eq!(CtorFieldKey::from_literal(&Literal::Unit), Some(CtorFieldKey::Unit));
    assert_eq!(CtorFieldKey::from_literal(&Literal::Float(f64::INFINITY.to_bits())), None);
}

#[test]
fn finite_numbers_are_told_by_their_bits() {
    for value in [0.0, -0.0, 1.0, f64::MAX, f64::MIN, f64::MIN_POSITIVE, 5e-324] {
        assert!(is_finite(f64::to_bits(value)));
    }
    for value in [f64::INFINITY, f64::NEG_INFINITY, f64::NAN, -f64::NAN] {
        assert!(!is_finite(f64::to_bits(value)));
    }
}

#[test]
fn constants_are_compared_to_the_bottom() {
    let ctor = |field: CtorFieldKey| {
        ConstantKey::Ctor(CtorLiteralKey {
            ty: SymbolId::new(1),
            variant: SymbolId::new(2),
            fields: vec![field],
        })
    };
    let inner = |n: i64| {
        CtorFieldKey::Ctor(Box::new(CtorLiteralKey {
            ty: SymbolId::new(3),
            variant: SymbolId::new(4),
            fields: vec![CtorFieldKey::Int(n)],
        }))
    };
    assert!(is_same_constant(&ctor(inner(1)), &ctor(inner(1))));
    assert!(!is_same_constant(&ctor(inner(1)), &ctor(inner(2))));
    assert!(!is_same_constant(&ctor(CtorFieldKey::Unit), &ctor(inner(1))));
    assert!(!is_same_constant(
        &ConstantKey::String("a".to_owned()),
        &ConstantKey::Scalar(ScalarLiteralKey::Int(1))
    ));
}

#[test]
fn sorted_lists_stay_sorted() {
    let mut items = Vec::new();
    assert!(insert_sorted(&mut items, 5));
    assert!(insert_sorted(&mut items, 1));
    assert!(insert_sorted(&mut items, 3));
    assert!(!insert_sorted(&mut items, 3));
    assert_eq!(items, vec![1, 3, 5]);
    assert!(contains_sorted(&items, 5));
    assert!(!contains_sorted(&items, 4));
    assert_eq!(intersect_sorted(&items, &vec![0, 3, 5, 9]), vec![3, 5]);
    remove_sorted(&mut items, 3);
    remove_sorted(&mut items, 4);
    assert_eq!(items, vec![1, 5]);
}
