//! The files that a program reads at compile time.
use crate::common::text::push_text;
use crate::ir::core_ir::{CoreModel, CoreProgram, ExprKind, ExprModel, Literal, LiteralModel};
use crate::ir::core_ir::{StmtKind, StmtModel};
use crate::pipeline::file_deps::normalized_file_deps;
use crate::pipeline::tables::{CtFileDep, FileDepModel, SemanticTables};
use crate::sema::effect::EffectProperties;
use std::collections::HashMap;
use vstd::prelude::*;

verus! {

/// The hash of a file's bytes, in hexadecimal.
pub uninterp spec fn blake3_hex(bytes: Seq<u8>) -> Seq<char>;

/// A character of a hexadecimal number, in lower case.
pub open spec fn is_hex(c: char) -> bool {
    ('0' <= c && c <= '9') || ('a' <= c && c <= 'f')
}

/// `blake3::hash` and `Hash::to_hex`: the hash depends on the bytes alone, and
/// its text has sixty-four characters, each a digit or one of the letters `a` to
/// `f`. Which hash bytes have is not said.
#[verifier::external_body]
fn hash_bytes(bytes: &Vec<u8>) -> (text: String)
    ensures
        text@ == blake3_hex(bytes@),
        text@.len() == 64,
        forall|i: int| 0 <= i < 64 ==> is_hex(#[trigger] text@[i]),
{
    blake3::hash(bytes).to_hex().to_string()
}

/// A file that was looked for: its full path, and its bytes if it could be read.
#[derive(Debug)]
pub struct FileRead {
    pub path: String,
    pub content: Option<Vec<u8>>,
}

/// A file that was looked for, as a mathematical value.
pub struct FileReadModel {
    pub path: Seq<char>,
    pub content: Option<Seq<u8>>,
}

impl View for FileRead {
    type V = FileReadModel;

    open spec fn view(&self) -> FileReadModel {
        FileReadModel {
            path: self.path@,
            content: match self.content {
                Some(bytes) => Some(bytes@),
                None => None,
            },
        }
    }
}

// ---------------------------------------------------------------------------
// Which files
// ---------------------------------------------------------------------------

/// The file that a statement names: the first argument of an operation that
/// works at compile time only, if it is a text.
pub open spec fn named_file(
    p: CoreModel,
    properties: Map<usize, EffectProperties>,
    s: StmtModel,
) -> Option<Seq<char>> {
    match s {
        StmtModel::Perform { effect, args, .. } => if properties.contains_key(effect.0)
            && properties[effect.0].ct_only && args.len() > 0 && p.has_expr(args[0]) {
            match p.expr(args[0]) {
                ExprModel::Literal(LiteralModel::String(path)) => Some(path),
                _ => None,
            }
        } else {
            None
        },
        _ => None,
    }
}

/// The files that the first statements name.
pub open spec fn named_files(
    p: CoreModel,
    properties: Map<usize, EffectProperties>,
    first: nat,
) -> Seq<Seq<char>>
    decreases first,
{
    if first == 0 {
        Seq::empty()
    } else {
        let rest = named_files(p, properties, (first - 1) as nat);
        match named_file(p, properties, p.stmts[first - 1].kind) {
            Some(path) => rest.push(path),
            None => rest,
        }
    }
}

fn find_named_file<'a>(
    program: &'a CoreProgram,
    properties: &HashMap<usize, EffectProperties>,
    kind: &StmtKind,
) -> (path: Option<&'a String>)
    ensures
        match path {
            Some(path) => named_file(program@, properties@, kind@) == Some(path@),
            None => named_file(program@, properties@, kind@) is None,
        },
{
    broadcast use vstd::std_specs::hash::group_hash_axioms;

    if let StmtKind::Perform { effect, args, .. } = kind {
        let ct_only = match properties.get(&effect.0) {
            Some(found) => found.ct_only,
            None => false,
        };
        if ct_only && args.len() > 0 && args[0].0 < program.exprs.len() {
            assert(program@.expr(args@[0]) == program.exprs@[args@[0].0 as int].kind@);
            if let ExprKind::Literal(literal) = &program.exprs[args[0].0].kind {
                if let Literal::String(path) = literal {
                    return Some(path);
                }
            }
        }
    }
    None
}

/// The files that a program names, in the order of its statements.
pub fn collect_file_names(program: &CoreProgram, sema: &SemanticTables) -> (names: Vec<String>)
    ensures
        crate::common::views(names@) == named_files(
            program@,
            sema.effect_properties@,
            program@.stmts.len(),
        ),
{
    let ghost p = program@;
    let mut names: Vec<String> = Vec::new();
    let mut i: usize = 0;
    assert(crate::common::views(names@) =~= Seq::empty());
    while i < program.stmts.len()
        invariant
            i <= program.stmts@.len(),
            p == program@,
            crate::common::views(names@) == named_files(p, sema.effect_properties@, i as nat),
        decreases program.stmts@.len() - i,
    {
        broadcast use crate::common::lemma_views_push;

        assert(p.stmts[i as int] == program.stmts@[i as int]@);
        let found = find_named_file(program, &sema.effect_properties, &program.stmts[i].kind);
        if let Some(path) = found {
            names.push(path.clone());
        }
        i += 1;
    }
    names
}

// ---------------------------------------------------------------------------
// What they hold
// ---------------------------------------------------------------------------

/// The hash that stands for a file: a word where it could not be read.
pub open spec fn content_hash(content: Option<Seq<u8>>) -> Seq<char> {
    match content {
        Some(bytes) => blake3_hex(bytes),
        None => "missing"@,
    }
}

/// A file with its hash.
pub open spec fn dep_of(read: FileReadModel) -> FileDepModel {
    FileDepModel { path: read.path, content_hash: content_hash(read.content) }
}

/// What tells two files apart.
pub open spec fn dep_key(dep: FileDepModel) -> Seq<char> {
    dep.path + ":"@ + dep.content_hash
}

/// Whether a list has a file that is not told apart from another.
pub open spec fn has_dep(list: Seq<FileDepModel>, dep: FileDepModel) -> bool {
    exists|i: int| 0 <= i < list.len() && dep_key(#[trigger] list[i]) == dep_key(dep)
}

/// The first files, each once.
pub open spec fn deps_first(reads: Seq<FileReadModel>, first: nat) -> Seq<FileDepModel>
    decreases first,
{
    if first == 0 {
        Seq::empty()
    } else {
        let rest = deps_first(reads, (first - 1) as nat);
        let dep = dep_of(reads[first - 1]);
        if has_dep(rest, dep) {
            rest
        } else {
            rest.push(dep)
        }
    }
}

/// The files, each once and in order.
pub open spec fn deps_of(reads: Seq<FileReadModel>) -> Seq<FileDepModel> {
    crate::pipeline::file_deps::ordered(deps_first(reads, reads.len()))
}

fn hash_file_or_missing(content: &Option<Vec<u8>>) -> (hash: String)
    ensures
        hash@ == content_hash(
            match *content {
                Some(bytes) => Some(bytes@),
                None => None,
            },
        ),
{
    match content {
        Some(bytes) => hash_bytes(bytes),
        None => "missing".to_owned(),
    }
}

fn key_of(dep: &CtFileDep) -> (key: String)
    ensures
        key@ == dep_key(dep@),
{
    let mut key = dep.path.clone();
    push_text(&mut key, ":");
    push_text(&mut key, dep.content_hash.as_str());
    key
}

fn contains_dep(list: &Vec<CtFileDep>, dep: &CtFileDep) -> (found: bool)
    ensures
        found == has_dep(crate::common::views(list@), dep@),
{
    let ghost models = crate::common::views(list@);
    let key = key_of(dep);
    let mut i: usize = 0;
    while i < list.len()
        invariant
            i <= list@.len(),
            models == crate::common::views(list@),
            key@ == dep_key(dep@),
            forall|j: int| 0 <= j < i ==> dep_key(#[trigger] models[j]) != dep_key(dep@),
        decreases list@.len() - i,
    {
        assert(models[i as int] == list@[i as int]@);
        if key_of(&list[i]) == key {
            return true;
        }
        i += 1;
    }
    false
}

/// The files that were looked for, each once and in order, with the hashes of
/// what they hold.
pub fn collect_file_deps(reads: &Vec<FileRead>) -> (deps: Vec<CtFileDep>)
    ensures
        crate::common::views(deps@) == deps_of(crate::common::views(reads@)),
{
    let ghost models = crate::common::views(reads@);
    let mut deps: Vec<CtFileDep> = Vec::new();
    let mut i: usize = 0;
    assert(crate::common::views(deps@) =~= Seq::empty());
    while i < reads.len()
        invariant
            i <= reads@.len(),
            models == crate::common::views(reads@),
            crate::common::views(deps@) == deps_first(models, i as nat),
        decreases reads@.len() - i,
    {
        broadcast use crate::common::lemma_views_push;

        assert(models[i as int] == reads@[i as int]@);
        let dep = CtFileDep {
            path: reads[i].path.clone(),
            content_hash: hash_file_or_missing(&reads[i].content),
        };
        assert(dep@ =~= dep_of(models[i as int]));
        if !contains_dep(&deps, &dep) {
            deps.push(dep);
        }
        i += 1;
    }
    normalized_file_deps(deps)
}

// ---------------------------------------------------------------------------
// Laws
// ---------------------------------------------------------------------------

proof fn lemma_deps_first(reads: Seq<FileReadModel>, first: nat)
    requires
        first <= reads.len(),
    ensures
        forall|i: int, j: int|
            #![trigger deps_first(reads, first)[i], deps_first(reads, first)[j]]
            0 <= i < j < deps_first(reads, first).len() ==> dep_key(deps_first(reads, first)[i])
                != dep_key(deps_first(reads, first)[j]),
        forall|i: int|
            0 <= i < first ==> has_dep(deps_first(reads, first), dep_of(#[trigger] reads[i])),
    decreases first,
{
    if first > 0 {
        lemma_deps_first(reads, (first - 1) as nat);
        let rest = deps_first(reads, (first - 1) as nat);
        let out = deps_first(reads, first);
        let dep = dep_of(reads[first - 1]);
        assert forall|i: int| 0 <= i < first implies has_dep(out, dep_of(#[trigger] reads[i])) by {
            if i < first - 1 {
                assert(has_dep(rest, dep_of(reads[i])));
                let k = choose|k: int|
                    0 <= k < rest.len() && dep_key(#[trigger] rest[k]) == dep_key(
                        dep_of(reads[i]),
                    );
                assert(out[k] == rest[k]);
            } else if !has_dep(rest, dep) {
                assert(out[rest.len() as int] == dep);
            }
        }
        assert forall|i: int, j: int|
            #![trigger out[i], out[j]]
            0 <= i < j < out.len() implies dep_key(out[i]) != dep_key(out[j]) by {
            if j < rest.len() {
                assert(rest[i] == out[i] && rest[j] == out[j]);
            } else {
                assert(rest[i] == out[i]);
            }
        }
    }
}

/// Every file that was looked for is among the files, and none is there twice.
pub proof fn lemma_deps(reads: Seq<FileReadModel>)
    ensures
        deps_of(reads).no_duplicates(),
        forall|i: int| 0 <= i < reads.len() ==> has_dep(deps_of(reads), dep_of(#[trigger] reads[i])),
{
    let list = deps_first(reads, reads.len());
    let out = deps_of(reads);
    lemma_deps_first(reads, reads.len());
    crate::pipeline::file_deps::lemma_ordered(list);
    assert(list.no_duplicates()) by {
        assert forall|i: int, j: int|
            0 <= i < list.len() && 0 <= j < list.len() && i != j implies list[i] != list[j] by {
            if i < j {
                assert(dep_key(list[i]) != dep_key(list[j]));
            } else {
                assert(dep_key(list[j]) != dep_key(list[i]));
            }
        }
    }
    list.lemma_multiset_has_no_duplicates();
    assert(out.no_duplicates()) by {
        out.lemma_multiset_has_no_duplicates_conv();
    }
    assert forall|i: int| 0 <= i < reads.len() implies has_dep(
        out,
        dep_of(#[trigger] reads[i]),
    ) by {
        assert(has_dep(list, dep_of(reads[i])));
        let k = choose|k: int|
            0 <= k < list.len() && dep_key(#[trigger] list[k]) == dep_key(dep_of(reads[i]));
        assert(list.contains(list[k]));
        crate::pipeline::file_deps::lemma_ordered_contains(list, list[k]);
        let m = choose|m: int| 0 <= m < out.len() && out[m] == list[k];
        assert(dep_key(out[m]) == dep_key(dep_of(reads[i])));
    }
}

} // verus!
