use cielo::common::ids::{EffectLabelId, ExprId, SourceId, SymbolId};
use cielo::common::span::Span;
use cielo::ir::core_ir::{CoreProgram, ExprKind, ExprNode, Literal, StmtKind, StmtNode};
use cielo::passes::ct_files::{collect_file_deps, collect_file_names, FileRead};
use cielo::pipeline::tables::SemanticTables;
use cielo::sema::effect::EffectProperties;

fn span() -> Span {
    Span::new(SourceId::new(0), 0, 0)
}

fn read(path: &str, content: Option<&[u8]>) -> FileRead {
    FileRead { path: path.to_owned(), content: content.map(|bytes| bytes.to_vec()) }
}

#[test]
fn a_file_is_hashed() {
    let deps = collect_file_deps(&vec![read("empty", Some(b"")), read("text", Some(b"abc"))]);
    assert_eq!(deps[0].path, "empty");
    assert_eq!(
        deps[0].content_hash,
        "af1349b9f5f9a1a6a0404dea36dcc9499bcb25c9adc112b7cc9a93cae41f3262"
    );
    assert_eq!(deps[1].content_hash, blake3::hash(b"abc").to_hex().to_string());
}

#[test]
fn a_hash_is_that_of_the_bytes_in_pieces() {
    let bytes = vec![7u8; 40000];
    let mut hasher = blake3::Hasher::new();
    for piece in bytes.chunks(16 * 1024) {
        hasher.update(piece);
    }
    let deps = collect_file_deps(&vec![read("long", Some(&bytes))]);
    assert_eq!(deps[0].content_hash, hasher.finalize().to_hex().to_string());
    assert_eq!(deps[0].content_hash.len(), 64);
}

#[test]
fn a_file_that_cannot_be_read_is_missing() {
    let deps = collect_file_deps(&vec![read("gone", None)]);
    assert_eq!(deps[0].content_hash, "missing");
}

#[test]
fn a_file_is_there_once_and_files_are_in_order() {
    let deps = collect_file_deps(&vec![
        read("b", None),
        read("a", Some(b"1")),
        read("b", None),
        read("a", Some(b"2")),
    ]);
    let paths: Vec<&str> = deps.iter().map(|dep| dep.path.as_str()).collect();
    assert_eq!(paths, vec!["a", "a", "b"]);
}

fn program() -> CoreProgram {
    let mut program = CoreProgram::new();
    let literal = |literal: Literal| ExprNode { span: span(), kind: ExprKind::Literal(literal) };
    let path = program.push_expr(literal(Literal::String("data.txt".to_owned())));
    let number = program.push_expr(literal(Literal::Int(1)));
    let other = program.push_expr(literal(Literal::String("more.txt".to_owned())));
    let mut end = program.push_stmt(StmtNode { span: span(), kind: StmtKind::Return(number) });
    let mut perform = |program: &mut CoreProgram, effect: usize, args: Vec<ExprId>| {
        end = program.push_stmt(StmtNode {
            span: span(),
            kind: StmtKind::Perform {
                result: None,
                effect: EffectLabelId::new(effect),
                operation: SymbolId::new(0),
                args,
                next: end,
            },
        });
    };
    perform(&mut program, 0, vec![path]);
    perform(&mut program, 1, vec![other]);
    perform(&mut program, 0, vec![number]);
    perform(&mut program, 0, vec![]);
    perform(&mut program, 0, vec![other, path]);
    perform(&mut program, 2, vec![path]);
    perform(&mut program, 0, vec![ExprId::new(99)]);
    program
}

#[test]
fn files_are_named_by_operations_that_work_at_compile_time_only() {
    let program = program();
    let mut sema = SemanticTables::with_counts(program.exprs.len(), program.stmts.len());
    assert!(collect_file_names(&program, &sema).is_empty());
    sema.effect_properties.insert(0, EffectProperties { ct_only: true, thunkable: false });
    sema.effect_properties.insert(1, EffectProperties { ct_only: false, thunkable: true });
    assert_eq!(
        collect_file_names(&program, &sema),
        vec!["data.txt".to_owned(), "more.txt".to_owned()]
    );
}
