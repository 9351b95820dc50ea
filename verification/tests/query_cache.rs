use cielo::common::densemap::DenseMap;
use cielo::common::diagnostics::{DiagnosticBag, ErrorNode};
use cielo::common::ids::{ExprId, FuncId, SourceId, SymbolId, VarId};
use cielo::common::span::Span;
use cielo::ir::core_ir::{BinaryOp, CoreProgram, ExprKind, ExprNode, Literal, UnaryOp};
use cielo::passes::ct_propagate::{self, QueryCache};
use cielo::pipeline::compiler::{Endianness, TargetSpec};
use cielo::pipeline::ct_query_cache::{
    decode_snapshot, deps_match, encode_snapshot, fingerprint_program, normalized_file_deps,
    CtQueryCacheSnapshot,
};
use cielo::pipeline::phases::Monomorphized;
use cielo::pipeline::tables::{
    CtCacheKey, CtFileDep, MonomorphizationSummary, SemanticTables,
};
use std::hash::{Hash, Hasher};

fn span(start: u32, end: u32) -> Span {
    Span::new(SourceId::new(0), start, end)
}

fn node(kind: ExprKind) -> ExprNode {
    ExprNode { span: span(1, 2), kind }
}

fn dep(path: &str, hash: &str) -> CtFileDep {
    CtFileDep { path: path.to_owned(), content_hash: hash.to_owned() }
}

fn pairs(deps: &[CtFileDep]) -> Vec<(String, String)> {
    deps.iter().map(|dep| (dep.path.clone(), dep.content_hash.clone())).collect()
}

fn target() -> TargetSpec {
    TargetSpec::with_endianness(Endianness::Little)
}

fn host(op: BinaryOp, a: u64, b: u64) -> u64 {
    let (a, b) = (f64::from_bits(a), f64::from_bits(b));
    let c = match op {
        BinaryOp::Add => a + b,
        BinaryOp::Sub => a - b,
        BinaryOp::Mul => a * b,
        BinaryOp::Div => a / b,
        _ => a % b,
    };
    c.to_bits()
}

/// `1 + 2` and a conditional's condition.
fn program() -> CoreProgram {
    let mut program = CoreProgram::new();
    let one = program.push_expr(node(ExprKind::Literal(Literal::Int(1))));
    let two = program.push_expr(node(ExprKind::Literal(Literal::Int(2))));
    program.push_expr(node(ExprKind::Binary { op: BinaryOp::Add, lhs: one, rhs: two }));
    program.push_expr(node(ExprKind::Binary { op: BinaryOp::Lt, lhs: one, rhs: two }));
    program
}

fn mono(program: CoreProgram) -> Monomorphized {
    let sema = SemanticTables::with_counts(program.exprs.len(), program.stmts.len());
    Monomorphized::new(
        program,
        DiagnosticBag::new(),
        sema,
        MonomorphizationSummary { source_to_mono: DenseMap::new() },
    )
}

fn snapshot() -> CtQueryCacheSnapshot {
    let mut ct_cache = DenseMap::new();
    ct_cache.insert(7, Literal::String("x\ty".to_owned()));
    ct_cache.insert(2, Literal::Int(-3));
    CtQueryCacheSnapshot {
        cache_key: CtCacheKey {
            target_word_size_bits: 32,
            target_endianness: "big".to_owned(),
            target_pointer_alignment: 4,
            evaluator_policy: "policy".to_owned(),
            compiler_version: "9.9".to_owned(),
        },
        file_deps: vec![dep("b", "2"), dep("a", "9"), dep("a", "1")],
        program_fingerprint: 18446744073709551615,
        ct_cache,
    }
}

#[test]
fn snapshot_text_is_fixed() {
    let expected = "meta\tprogram_fingerprint\t18446744073709551615\n\
        key\ttarget_word_size_bits\t32\n\
        key\ttarget_endianness\tbig\n\
        key\ttarget_pointer_alignment\t4\n\
        key\tevaluator_policy\tpolicy\n\
        key\tcompiler_version\t9.9\n\
        dep\ta\t1\n\
        dep\ta\t9\n\
        dep\tb\t2\n\
        expr\t2\ti:-3\n\
        expr\t7\ts:780979\n";
    assert_eq!(encode_snapshot(&snapshot()), expected);
}

#[test]
fn snapshot_is_read_back_with_files_in_order() {
    let read = decode_snapshot(&encode_snapshot(&snapshot()));
    assert_eq!(read.program_fingerprint, u64::MAX);
    assert_eq!(read.cache_key.target_word_size_bits, 32);
    assert_eq!(read.cache_key.target_endianness, "big");
    assert_eq!(read.cache_key.target_pointer_alignment, 4);
    assert_eq!(read.cache_key.evaluator_policy, "policy");
    assert_eq!(read.cache_key.compiler_version, "9.9");
    assert_eq!(
        pairs(&read.file_deps),
        vec![
            ("a".to_owned(), "1".to_owned()),
            ("a".to_owned(), "9".to_owned()),
            ("b".to_owned(), "2".to_owned()),
        ]
    );
    assert_eq!(read.ct_cache.len(), 2);
    assert!(matches!(read.ct_cache.get(2), Some(Literal::Int(-3))));
    assert!(matches!(read.ct_cache.get(7), Some(Literal::String(text)) if text == "x\ty"));
}

#[test]
fn lines_that_say_nothing_are_passed_over() {
    let read = decode_snapshot(
        "nonsense\nmeta\tother\t5\nkey\tunknown\tx\nexpr\tx\tu\nexpr\t1\tz\nexpr\t3\tu\nother\t1\t2\ndep\tonly two",
    );
    assert_eq!(read.program_fingerprint, 0);
    assert_eq!(read.ct_cache.len(), 1);
    assert!(matches!(read.ct_cache.get(3), Some(Literal::Unit)));
    assert!(read.file_deps.is_empty());
    assert_eq!(read.cache_key.target_word_size_bits, 64);
    assert_eq!(read.cache_key.target_endianness, "little");
}

#[test]
fn numbers_that_cannot_be_read_are_zero() {
    let read = decode_snapshot(
        "meta\tprogram_fingerprint\tx\nkey\ttarget_word_size_bits\t256\nkey\ttarget_pointer_alignment\t\n",
    );
    assert_eq!(read.program_fingerprint, 0);
    assert_eq!(read.cache_key.target_word_size_bits, 0);
    assert_eq!(read.cache_key.target_pointer_alignment, 0);
}

#[test]
fn a_path_with_a_tab_is_not_read_back() {
    let mut odd = snapshot();
    odd.file_deps = vec![dep("a\tb", "1")];
    let read = decode_snapshot(&encode_snapshot(&odd));
    assert_eq!(pairs(&read.file_deps), vec![("a".to_owned(), "b\t1".to_owned())]);
}

#[test]
fn files_are_put_in_order() {
    let ordered = normalized_file_deps(vec![dep("b", "1"), dep("a", "2"), dep("a", "1"), dep("b", "1")]);
    assert_eq!(
        pairs(&ordered),
        vec![
            ("a".to_owned(), "1".to_owned()),
            ("a".to_owned(), "2".to_owned()),
            ("b".to_owned(), "1".to_owned()),
            ("b".to_owned(), "1".to_owned()),
        ]
    );
}

#[test]
fn lists_match_in_any_order_but_not_in_any_number() {
    assert!(deps_match(&vec![dep("a", "1"), dep("b", "2")], &vec![dep("b", "2"), dep("a", "1")]));
    assert!(!deps_match(&vec![dep("a", "1")], &vec![dep("a", "1"), dep("a", "1")]));
    assert!(!deps_match(&vec![dep("a", "1")], &vec![dep("a", "2")]));
    assert!(deps_match(&vec![], &vec![]));
}

#[test]
fn fingerprint_is_that_of_std_hashing() {
    let mut program = CoreProgram::new();
    let a = program.push_expr(node(ExprKind::Literal(Literal::Unit)));
    program.push_expr(node(ExprKind::Literal(Literal::Bool(true))));
    program.push_expr(node(ExprKind::Literal(Literal::Int(-5))));
    program.push_expr(node(ExprKind::Literal(Literal::Float(2.5f64.to_bits()))));
    program.push_expr(node(ExprKind::Literal(Literal::Char('q'))));
    program.push_expr(node(ExprKind::Literal(Literal::String("text".to_owned()))));
    program.push_expr(node(ExprKind::Var(VarId::new(3))));
    program.push_expr(node(ExprKind::Unary { op: UnaryOp::Not, expr: a }));
    program.push_expr(node(ExprKind::Binary { op: BinaryOp::Or, lhs: a, rhs: ExprId::new(1) }));
    program.push_expr(node(ExprKind::PureCall { callee: FuncId::new(4), args: vec![a] }));
    program.push_expr(node(ExprKind::MakeStruct { ty: SymbolId::new(5), fields: vec![a] }));
    program.push_expr(node(ExprKind::MakeEnum {
        ty: SymbolId::new(6),
        variant: SymbolId::new(7),
        fields: vec![],
    }));
    program.push_expr(node(ExprKind::Error(ErrorNode {
        message: "bad".to_owned(),
        span: span(8, 9),
    })));

    let mut hasher = std::collections::hash_map::DefaultHasher::new();
    let head = |hasher: &mut std::collections::hash_map::DefaultHasher, tag: &str| {
        1u32.hash(hasher);
        2u32.hash(hasher);
        tag.hash(hasher);
    };
    head(&mut hasher, "lit");
    0u8.hash(&mut hasher);
    head(&mut hasher, "lit");
    1u8.hash(&mut hasher);
    true.hash(&mut hasher);
    head(&mut hasher, "lit");
    2u8.hash(&mut hasher);
    (-5i64).hash(&mut hasher);
    head(&mut hasher, "lit");
    3u8.hash(&mut hasher);
    2.5f64.to_bits().hash(&mut hasher);
    head(&mut hasher, "lit");
    4u8.hash(&mut hasher);
    'q'.hash(&mut hasher);
    head(&mut hasher, "lit");
    5u8.hash(&mut hasher);
    "text".to_owned().hash(&mut hasher);
    head(&mut hasher, "var");
    3u32.hash(&mut hasher);
    head(&mut hasher, "un");
    std::mem::discriminant(&UnaryOp::Not).hash(&mut hasher);
    0u32.hash(&mut hasher);
    head(&mut hasher, "bin");
    std::mem::discriminant(&BinaryOp::Or).hash(&mut hasher);
    0u32.hash(&mut hasher);
    1u32.hash(&mut hasher);
    head(&mut hasher, "call");
    4u32.hash(&mut hasher);
    0u32.hash(&mut hasher);
    head(&mut hasher, "mk_struct");
    5u32.hash(&mut hasher);
    0u32.hash(&mut hasher);
    head(&mut hasher, "mk_enum");
    6u32.hash(&mut hasher);
    7u32.hash(&mut hasher);
    head(&mut hasher, "err");
    8u32.hash(&mut hasher);
    9u32.hash(&mut hasher);
    "bad".to_owned().hash(&mut hasher);
    assert_eq!(fingerprint_program(&program), hasher.finish());
}

#[test]
fn fingerprint_changes_with_the_expressions() {
    let mut other = program();
    assert_eq!(fingerprint_program(&program()), fingerprint_program(&other));
    other.exprs[0].kind = ExprKind::Literal(Literal::Int(3));
    assert_ne!(fingerprint_program(&program()), fingerprint_program(&other));
}

#[test]
fn what_one_run_keeps_the_next_one_uses() {
    let deps = || vec![dep("b", "2"), dep("a", "1")];
    let (first, kept) = ct_propagate::run_with_query_cache(
        mono(program()),
        target(),
        &host,
        deps(),
        QueryCache::On(None),
    );
    assert!(first.ct().eval_stats.cache_inserts > 0);
    assert!(matches!(first.ct().ct_cache.get(2), Some(Literal::Int(3))));
    let read = decode_snapshot(&encode_snapshot(&kept.unwrap()));
    let (second, again) = ct_propagate::run_with_query_cache(
        mono(program()),
        target(),
        &host,
        deps(),
        QueryCache::On(Some(read)),
    );
    assert!(again.is_none());
    assert_eq!(second.ct().eval_stats.iterations, 1);
    assert_eq!(second.ct().eval_stats.cache_hits, 4);
    assert_eq!(second.ct().eval_stats.cache_inserts, 0);
    assert_eq!(format!("{:?}", second.ct().ct_cache), format!("{:?}", first.ct().ct_cache));
    assert_eq!(
        format!("{:?}", second.ct().branch_decisions),
        format!("{:?}", first.ct().branch_decisions)
    );
    assert_eq!(pairs(&second.ct().file_deps), pairs(&first.ct().file_deps));
}

fn keeps_after_change(changed: CoreProgram, machine: TargetSpec, deps: Vec<CtFileDep>) -> bool {
    let (_, kept) = ct_propagate::run_with_query_cache(
        mono(program()),
        target(),
        &host,
        vec![dep("a", "1")],
        QueryCache::On(None),
    );
    let (_, again) = ct_propagate::run_with_query_cache(
        mono(changed),
        machine,
        &host,
        deps,
        QueryCache::On(kept),
    );
    again.is_some()
}

#[test]
fn what_does_not_hold_any_more_is_computed_anew() {
    assert!(!keeps_after_change(program(), target(), vec![dep("a", "1")]));
    let mut other = program();
    other.exprs[0].kind = ExprKind::Literal(Literal::Int(3));
    assert!(keeps_after_change(other, target(), vec![dep("a", "1")]));
    let narrow = TargetSpec { word_size_bits: 32, ..target() };
    assert!(keeps_after_change(program(), narrow, vec![dep("a", "1")]));
    let big = TargetSpec::with_endianness(Endianness::Big);
    assert!(keeps_after_change(program(), big, vec![dep("a", "1")]));
    assert!(keeps_after_change(program(), target(), vec![dep("a", "2")]));
    assert!(keeps_after_change(program(), target(), vec![]));
}

#[test]
fn nothing_is_kept_where_nothing_is_asked_for() {
    let (_, kept) = ct_propagate::run_with_query_cache(
        mono(program()),
        target(),
        &host,
        vec![],
        QueryCache::Off,
    );
    assert!(kept.is_none());
    let run = ct_propagate::run(mono(program()), target(), &host, vec![dep("b", "1"), dep("a", "1")]);
    assert_eq!(run.ct().file_deps[0].path, "a");
    assert_eq!(run.ct().cache_key.target_endianness, "little");
    assert_eq!(run.ct().cache_key.evaluator_policy, "v1-int-wrap-litnorm");
}
