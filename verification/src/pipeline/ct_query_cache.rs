//! Results found at compile time, kept from one run to the next.
use crate::common::chars::{chars_of, is_text, parse_number, text_of};
use crate::common::densemap::DenseMap;
use crate::common::text::{push_decimal, push_index, push_text};
use crate::common::tsv::{split_fields, split_lines};
use crate::ir::core_ir::{Literal, LiteralModel};
use crate::pipeline::file_deps::copy_deps;
use crate::pipeline::literal_text::{decode_literal, push_literal};
use crate::pipeline::tables::{CacheKeyModel, CtCacheKey, CtFileDep, FileDepModel};
use vstd::prelude::*;

pub use crate::pipeline::file_deps::{deps_match, normalized_file_deps};
pub use crate::pipeline::fingerprint::fingerprint_program;

verus! {

#[derive(Debug)]
pub struct CtQueryCacheSnapshot {
    pub cache_key: CtCacheKey,
    pub file_deps: Vec<CtFileDep>,
    pub program_fingerprint: u64,
    pub ct_cache: DenseMap<Literal>,
}

/// A snapshot as a mathematical value.
#[verifier::ext_equal]
pub struct QuerySnapshotModel {
    pub cache_key: CacheKeyModel,
    pub file_deps: Seq<FileDepModel>,
    pub program_fingerprint: u64,
    pub ct_cache: Map<usize, LiteralModel>,
}

impl View for CtQueryCacheSnapshot {
    type V = QuerySnapshotModel;

    open spec fn view(&self) -> QuerySnapshotModel {
        QuerySnapshotModel {
            cache_key: self.cache_key@,
            file_deps: crate::common::views(self.file_deps@),
            program_fingerprint: self.program_fingerprint,
            ct_cache: crate::passes::ct_propagate::models(self.ct_cache@),
        }
    }
}

/// A snapshot that holds nothing.
pub open spec fn empty_snapshot() -> QuerySnapshotModel {
    QuerySnapshotModel {
        cache_key: CacheKeyModel {
            target_word_size_bits: 64,
            target_endianness: "little"@,
            target_pointer_alignment: 8,
            evaluator_policy: crate::pipeline::tables::evaluator_policy(),
            compiler_version: crate::pipeline::tables::compiler_version(),
        },
        file_deps: Seq::empty(),
        program_fingerprint: 0,
        ct_cache: Map::empty(),
    }
}

impl Default for CtQueryCacheSnapshot {
    fn default() -> (snapshot: Self)
        ensures
            snapshot@ == empty_snapshot(),
    {
        let snapshot = CtQueryCacheSnapshot {
            cache_key: CtCacheKey::default(),
            file_deps: Vec::new(),
            program_fingerprint: 0,
            ct_cache: DenseMap::new(),
        };
        assert(snapshot@ =~= empty_snapshot());
        snapshot
    }
}

// ---------------------------------------------------------------------------
// Reading
// ---------------------------------------------------------------------------

/// The number that a text stands for; zero where it stands for none that fits.
pub open spec fn number_or_zero(text: Seq<char>, max: nat) -> nat {
    match crate::common::chars::number_up_to(text, max) {
        Some(n) => n,
        None => 0,
    }
}

/// A key after one of its parts has been read.
pub open spec fn key_with(key: CacheKeyModel, field: Seq<char>, value: Seq<char>) -> CacheKeyModel {
    if field == "target_word_size_bits"@ {
        CacheKeyModel { target_word_size_bits: number_or_zero(value, 255) as u8, ..key }
    } else if field == "target_endianness"@ {
        CacheKeyModel { target_endianness: value, ..key }
    } else if field == "target_pointer_alignment"@ {
        CacheKeyModel { target_pointer_alignment: number_or_zero(value, 255) as u8, ..key }
    } else if field == "evaluator_policy"@ {
        CacheKeyModel { evaluator_policy: value, ..key }
    } else if field == "compiler_version"@ {
        CacheKeyModel { compiler_version: value, ..key }
    } else {
        key
    }
}

/// A snapshot after a line of three fields has been read.
pub open spec fn with_fields(
    s: QuerySnapshotModel,
    a: Seq<char>,
    b: Seq<char>,
    c: Seq<char>,
) -> QuerySnapshotModel {
    if a == "meta"@ && b == "program_fingerprint"@ {
        QuerySnapshotModel { program_fingerprint: number_or_zero(c, u64::MAX as nat) as u64, ..s }
    } else if a == "key"@ {
        QuerySnapshotModel { cache_key: key_with(s.cache_key, b, c), ..s }
    } else if a == "dep"@ {
        QuerySnapshotModel {
            file_deps: s.file_deps.push(FileDepModel { path: b, content_hash: c }),
            ..s
        }
    } else if a == "expr"@ {
        match crate::common::chars::number_up_to(b, usize::MAX as nat) {
            Some(index) => match crate::pipeline::literal_text::literal_of(c) {
                Some(literal) => QuerySnapshotModel {
                    ct_cache: s.ct_cache.insert(index as usize, literal),
                    ..s
                },
                None => s,
            },
            None => s,
        }
    } else {
        s
    }
}

/// A snapshot after one more line has been read.
pub open spec fn with_line(s: QuerySnapshotModel, line: Seq<char>) -> QuerySnapshotModel {
    let parts = crate::common::tsv::fields(line, 3);
    if parts.len() == 3 {
        with_fields(s, parts[0], parts[1], parts[2])
    } else {
        s
    }
}

/// The snapshot that lines hold, with its files in the order of the lines.
pub open spec fn read(lines: Seq<Seq<char>>) -> QuerySnapshotModel
    decreases lines.len(),
{
    if lines.len() == 0 {
        empty_snapshot()
    } else {
        with_line(read(lines.drop_last()), lines.last())
    }
}

/// The snapshot that a text holds.
pub open spec fn snapshot_of(text: Seq<char>) -> QuerySnapshotModel {
    let all = read(crate::common::tsv::lines(text));
    QuerySnapshotModel {
        file_deps: crate::pipeline::file_deps::ordered(all.file_deps),
        ..all
    }
}

fn parse_or_zero(text: &Vec<char>, max: u64) -> (n: u64)
    ensures
        n == number_or_zero(text@, max as nat),
        n <= max,
{
    match parse_number(text, max) {
        Some(n) => n,
        None => 0,
    }
}

fn apply_cache_key_field(key: &mut CtCacheKey, field: &Vec<char>, value: &Vec<char>)
    ensures
        final(key)@ == key_with(old(key)@, field@, value@),
{
    if is_text(field, "target_word_size_bits") {
        key.target_word_size_bits = parse_or_zero(value, 255) as u8;
    } else if is_text(field, "target_endianness") {
        key.target_endianness = text_of(value);
    } else if is_text(field, "target_pointer_alignment") {
        key.target_pointer_alignment = parse_or_zero(value, 255) as u8;
    } else if is_text(field, "evaluator_policy") {
        key.evaluator_policy = text_of(value);
    } else if is_text(field, "compiler_version") {
        key.compiler_version = text_of(value);
    }
}

fn apply_expr(cache: &mut DenseMap<Literal>, index: &Vec<char>, literal: &Vec<char>)
    ensures
        crate::passes::ct_propagate::models(final(cache)@) == (match (
            crate::common::chars::number_up_to(index@, usize::MAX as nat),
            crate::pipeline::literal_text::literal_of(literal@),
        ) {
            (Some(index), Some(literal)) => crate::passes::ct_propagate::models(
                old(cache)@,
            ).insert(index as usize, literal),
            _ => crate::passes::ct_propagate::models(old(cache)@),
        }),
{
    let ghost before = cache@;
    if let Some(index) = parse_number(index, usize::MAX as u64) {
        if let Some(literal) = decode_literal(literal) {
            let ghost model = literal@;
            cache.insert(index as usize, literal);
            assert(crate::passes::ct_propagate::models(cache@)
                =~= crate::passes::ct_propagate::models(before).insert(index as usize, model));
        }
    }
}

fn apply_line(snapshot: &mut CtQueryCacheSnapshot, line: &Vec<char>)
    ensures
        final(snapshot)@ == with_line(old(snapshot)@, line@),
{
    broadcast use crate::common::lemma_views_push;

    let ghost before = snapshot@;
    let parts = split_fields(line, 3);
    assert(parts@.len() == crate::common::tsv::texts(parts@).len());
    if parts.len() != 3 {
        return;
    }
    let ghost texts = crate::common::tsv::texts(parts@);
    assert(texts[0] == parts@[0]@ && texts[1] == parts@[1]@ && texts[2] == parts@[2]@);
    if is_text(&parts[0], "meta") && is_text(&parts[1], "program_fingerprint") {
        snapshot.program_fingerprint = parse_or_zero(&parts[2], 0xffff_ffff_ffff_ffff);
    } else if is_text(&parts[0], "key") {
        apply_cache_key_field(&mut snapshot.cache_key, &parts[1], &parts[2]);
    } else if is_text(&parts[0], "dep") {
        let dep = CtFileDep { path: text_of(&parts[1]), content_hash: text_of(&parts[2]) };
        snapshot.file_deps.push(dep);
    } else if is_text(&parts[0], "expr") {
        apply_expr(&mut snapshot.ct_cache, &parts[1], &parts[2]);
    }
    assert(snapshot@ =~= with_fields(before, texts[0], texts[1], texts[2]));
}

/// Reads the snapshot that a text holds. Lines that say nothing of a snapshot
/// are passed over.
pub fn decode_snapshot(text: &str) -> (snapshot: CtQueryCacheSnapshot)
    ensures
        snapshot@ == snapshot_of(text@),
{
    let chars = chars_of(text);
    let lines = split_lines(&chars);
    let ghost all = crate::common::tsv::texts(lines@);
    let mut snapshot = CtQueryCacheSnapshot::default();
    let mut i: usize = 0;
    assert(all.take(0) =~= Seq::empty());
    while i < lines.len()
        invariant
            i <= lines@.len(),
            all == crate::common::tsv::texts(lines@),
            snapshot@ == read(all.take(i as int)),
        decreases lines@.len() - i,
    {
        assert(all[i as int] == lines@[i as int]@);
        apply_line(&mut snapshot, &lines[i]);
        assert(all.take(i as int + 1).drop_last() =~= all.take(i as int));
        i += 1;
    }
    assert(all.take(i as int) =~= all);
    let file_deps = normalized_file_deps(snapshot.file_deps);
    let out = CtQueryCacheSnapshot {
        cache_key: snapshot.cache_key,
        file_deps,
        program_fingerprint: snapshot.program_fingerprint,
        ct_cache: snapshot.ct_cache,
    };
    assert(out@ =~= snapshot_of(text@));
    out
}

// ---------------------------------------------------------------------------
// Writing
// ---------------------------------------------------------------------------

/// A line of three fields.
pub open spec fn line_of(a: Seq<char>, b: Seq<char>, c: Seq<char>) -> Seq<char> {
    a + seq!['\t'] + b + seq!['\t'] + c
}

/// The lines of a key, and before them that of the program's number.
pub open spec fn head_lines(s: QuerySnapshotModel) -> Seq<Seq<char>> {
    seq![
        line_of(
            "meta"@,
            "program_fingerprint"@,
            crate::common::text::decimal(s.program_fingerprint as nat),
        ),
        line_of(
            "key"@,
            "target_word_size_bits"@,
            crate::common::text::decimal(s.cache_key.target_word_size_bits as nat),
        ),
        line_of("key"@, "target_endianness"@, s.cache_key.target_endianness),
        line_of(
            "key"@,
            "target_pointer_alignment"@,
            crate::common::text::decimal(s.cache_key.target_pointer_alignment as nat),
        ),
        line_of("key"@, "evaluator_policy"@, s.cache_key.evaluator_policy),
        line_of("key"@, "compiler_version"@, s.cache_key.compiler_version),
    ]
}

/// The lines of the first files of a list.
pub open spec fn dep_lines(deps: Seq<FileDepModel>, first: nat) -> Seq<Seq<char>>
    decreases first,
{
    if first == 0 {
        Seq::empty()
    } else {
        dep_lines(deps, (first - 1) as nat).push(
            line_of("dep"@, deps[first - 1].path, deps[first - 1].content_hash),
        )
    }
}

/// The lines of the results for expressions below a bound.
pub open spec fn expr_lines(cache: Map<usize, LiteralModel>, below: nat) -> Seq<Seq<char>>
    decreases below,
{
    if below == 0 {
        Seq::empty()
    } else {
        let rest = expr_lines(cache, (below - 1) as nat);
        let key = (below - 1) as usize;
        if below - 1 <= usize::MAX && cache.contains_key(key) {
            rest.push(
                line_of(
                    "expr"@,
                    crate::common::text::decimal((below - 1) as nat),
                    crate::pipeline::literal_text::literal_text(cache[key]),
                ),
            )
        } else {
            rest
        }
    }
}

/// The lines that a snapshot is kept in: its key, its files in order, and its
/// results in the order of the expressions.
pub open spec fn snapshot_lines(s: QuerySnapshotModel) -> Seq<Seq<char>> {
    let deps = crate::pipeline::file_deps::ordered(s.file_deps);
    head_lines(s) + dep_lines(deps, deps.len()) + expr_lines(
        s.ct_cache,
        usize::MAX as nat + 1,
    )
}

/// The text that a snapshot is kept in.
pub open spec fn snapshot_text(s: QuerySnapshotModel) -> Seq<char> {
    crate::common::tsv::text_of_lines(snapshot_lines(s), 0)
}

/// Appends a line and its line feed.
fn push_line(out: &mut String, a: &str, b: &str, c: &str, Ghost(lines): Ghost<Seq<Seq<char>>>)
    requires
        old(out)@ == crate::common::tsv::text_of_lines(lines, 0),
    ensures
        final(out)@ == crate::common::tsv::text_of_lines(lines.push(line_of(a@, b@, c@)), 0),
{
    let ghost before = out@;
    push_text(out, a);
    out.push('\t');
    push_text(out, b);
    out.push('\t');
    push_text(out, c);
    out.push('\n');
    proof {
        crate::common::tsv::lemma_text_push(lines, line_of(a@, b@, c@), 0);
        assert(out@ =~= before + line_of(a@, b@, c@) + seq!['\n']);
    }
}

fn decimal_text(n: u64) -> (text: String)
    ensures
        text@ == crate::common::text::decimal(n as nat),
{
    let mut text = String::new();
    push_decimal(&mut text, n);
    assert(text@ =~= crate::common::text::decimal(n as nat));
    text
}

fn push_head(out: &mut String, snapshot: &CtQueryCacheSnapshot)
    requires
        old(out)@ == Seq::<char>::empty(),
    ensures
        final(out)@ == crate::common::tsv::text_of_lines(head_lines(snapshot@), 0),
{
    let key = &snapshot.cache_key;
    let ghost all = head_lines(snapshot@);
    let number = decimal_text(snapshot.program_fingerprint);
    assert(out@ =~= crate::common::tsv::text_of_lines(all.take(0), 0));
    push_line(out, "meta", "program_fingerprint", number.as_str(), Ghost(all.take(0)));
    assert(all.take(1) =~= all.take(0).push(all[0]));
    let bits = decimal_text(key.target_word_size_bits as u64);
    push_line(out, "key", "target_word_size_bits", bits.as_str(), Ghost(all.take(1)));
    assert(all.take(2) =~= all.take(1).push(all[1]));
    push_line(
        out,
        "key",
        "target_endianness",
        key.target_endianness.as_str(),
        Ghost(all.take(2)),
    );
    assert(all.take(3) =~= all.take(2).push(all[2]));
    let alignment = decimal_text(key.target_pointer_alignment as u64);
    push_line(out, "key", "target_pointer_alignment", alignment.as_str(), Ghost(all.take(3)));
    assert(all.take(4) =~= all.take(3).push(all[3]));
    push_line(out, "key", "evaluator_policy", key.evaluator_policy.as_str(), Ghost(all.take(4)));
    assert(all.take(5) =~= all.take(4).push(all[4]));
    push_line(out, "key", "compiler_version", key.compiler_version.as_str(), Ghost(all.take(5)));
    assert(all =~= all.take(5).push(all[5]));
}

proof fn lemma_expr_lines_stop(cache: Map<usize, LiteralModel>, bound: nat, below: nat)
    requires
        bound <= below,
        forall|k: usize| #[trigger] cache.contains_key(k) ==> k < bound,
    ensures
        expr_lines(cache, below) == expr_lines(cache, bound),
    decreases below,
{
    if bound < below {
        lemma_expr_lines_stop(cache, bound, (below - 1) as nat);
    }
}

/// The text that a snapshot is kept in.
pub fn encode_snapshot(snapshot: &CtQueryCacheSnapshot) -> (text: String)
    ensures
        text@ == snapshot_text(snapshot@),
{
    let ghost s = snapshot@;
    let ghost deps = crate::pipeline::file_deps::ordered(s.file_deps);
    let ghost cache = s.ct_cache;
    let mut text = String::new();
    push_head(&mut text, snapshot);

    let ghost head = head_lines(s);
    let list = normalized_file_deps(copy_deps(&snapshot.file_deps));
    let mut i: usize = 0;
    assert(head + dep_lines(deps, 0) =~= head);
    while i < list.len()
        invariant
            i <= list@.len(),
            deps == crate::common::views(list@),
            text@ == crate::common::tsv::text_of_lines(head + dep_lines(deps, i as nat), 0),
        decreases list@.len() - i,
    {
        assert(deps[i as int] == list@[i as int]@);
        let ghost lines = head + dep_lines(deps, i as nat);
        push_line(
            &mut text,
            "dep",
            list[i].path.as_str(),
            list[i].content_hash.as_str(),
            Ghost(lines),
        );
        i += 1;
        assert(head + dep_lines(deps, i as nat) =~= lines.push(
            line_of("dep"@, deps[i - 1].path, deps[i - 1].content_hash),
        ));
    }

    let ghost front = head + dep_lines(deps, deps.len());
    let bound = snapshot.ct_cache.bound();
    let mut k: usize = 0;
    assert(front + expr_lines(cache, 0) =~= front);
    while k < bound
        invariant
            k <= bound,
            bound == snapshot.ct_cache.slots@.len(),
            cache == crate::passes::ct_propagate::models(snapshot.ct_cache@),
            text@ == crate::common::tsv::text_of_lines(front + expr_lines(cache, k as nat), 0),
        decreases bound - k,
    {
        let ghost lines = front + expr_lines(cache, k as nat);
        if let Some(literal) = snapshot.ct_cache.get(k) {
            let mut index = String::new();
            push_index(&mut index, k);
            assert(index@ =~= crate::common::text::decimal(k as nat));
            let mut value = String::new();
            push_literal(&mut value, literal);
            assert(value@ =~= crate::pipeline::literal_text::literal_text(cache[k]));
            push_line(&mut text, "expr", index.as_str(), value.as_str(), Ghost(lines));
            assert(front + expr_lines(cache, k as nat + 1) =~= lines.push(
                line_of("expr"@, index@, value@),
            ));
        }
        k += 1;
    }
    proof {
        assert forall|k: usize| #[trigger] cache.contains_key(k) implies k < bound by {
            assert(snapshot.ct_cache@.contains_key(k));
        }
        lemma_expr_lines_stop(cache, bound as nat, usize::MAX as nat + 1);
    }
    text
}

// ---------------------------------------------------------------------------
// Laws
// ---------------------------------------------------------------------------

/// A file whose line can be read back: no tab or line feed in its path, and its
/// hash fits on a line.
pub open spec fn storable_dep(dep: FileDepModel) -> bool {
    &&& crate::common::tsv::free_of(dep.path, '\t')
    &&& crate::common::tsv::free_of(dep.path, '\n')
    &&& crate::common::tsv::is_line(dep.content_hash)
}

/// A snapshot whose texts fit on lines.
pub open spec fn storable(s: QuerySnapshotModel) -> bool {
    &&& crate::common::tsv::is_line(s.cache_key.target_endianness)
    &&& crate::common::tsv::is_line(s.cache_key.evaluator_policy)
    &&& crate::common::tsv::is_line(s.cache_key.compiler_version)
    &&& forall|i: int| 0 <= i < s.file_deps.len() ==> storable_dep(#[trigger] s.file_deps[i])
}

proof fn lemma_read_push(lines: Seq<Seq<char>>, line: Seq<char>)
    ensures
        read(lines.push(line)) == with_line(read(lines), line),
{
    assert(lines.push(line).drop_last() =~= lines);
}

/// A line of three fields is read as these.
proof fn lemma_with_line(s: QuerySnapshotModel, a: Seq<char>, b: Seq<char>, c: Seq<char>)
    requires
        crate::common::tsv::free_of(a, '\t'),
        crate::common::tsv::free_of(b, '\t'),
    ensures
        with_line(s, line_of(a, b, c)) == with_fields(s, a, b, c),
{
    crate::common::tsv::lemma_three_fields(a, b, c);
}

proof fn lemma_is_line(a: Seq<char>, b: Seq<char>, c: Seq<char>)
    requires
        crate::common::tsv::free_of(a, '\n'),
        crate::common::tsv::free_of(b, '\n'),
        crate::common::tsv::is_line(c),
    ensures
        crate::common::tsv::is_line(line_of(a, b, c)),
{
    let line = line_of(a, b, c);
    let x = a.len() as int;
    let y = x + 1 + b.len();
    assert forall|i: int| 0 <= i < line.len() implies (#[trigger] line[i]) != '\n' by {
        if i < x {
            assert(line[i] == a[i]);
        } else if x < i && i < y {
            assert(line[i] == b[i - x - 1]);
        } else if i > y {
            assert(line[i] == c[i - y - 1]);
        }
    }
    if c.len() > 0 {
        assert(line.last() == c.last());
    } else {
        assert(line.last() == '\t');
    }
}

/// The words that lines start with.
proof fn lemma_words()
    ensures
        "meta"@.len() == 4 && "key"@.len() == 3 && "dep"@.len() == 3 && "expr"@.len() == 4,
        "meta"@ != "expr"@ && "key"@ != "dep"@,
        crate::common::tsv::free_of("meta"@, '\t') && crate::common::tsv::free_of("meta"@, '\n'),
        crate::common::tsv::free_of("key"@, '\t') && crate::common::tsv::free_of("key"@, '\n'),
        crate::common::tsv::free_of("dep"@, '\t') && crate::common::tsv::free_of("dep"@, '\n'),
        crate::common::tsv::free_of("expr"@, '\t') && crate::common::tsv::free_of("expr"@, '\n'),
{
    reveal_strlit("meta");
    reveal_strlit("key");
    reveal_strlit("dep");
    reveal_strlit("expr");
    assert("meta"@[0] != "expr"@[0]);
    assert("key"@[0] != "dep"@[0]);
}

/// The words that name the parts of a key.
proof fn lemma_key_words()
    ensures
        "target_word_size_bits"@.len() == 21 && "target_endianness"@.len() == 17,
        "target_pointer_alignment"@.len() == 24,
        "evaluator_policy"@.len() == 16 && "compiler_version"@.len() == 16,
        "evaluator_policy"@ != "compiler_version"@,
        crate::common::tsv::free_of("program_fingerprint"@, '\t'),
        crate::common::tsv::free_of("program_fingerprint"@, '\n'),
        crate::common::tsv::free_of("target_word_size_bits"@, '\t'),
        crate::common::tsv::free_of("target_word_size_bits"@, '\n'),
        crate::common::tsv::free_of("target_endianness"@, '\t'),
        crate::common::tsv::free_of("target_endianness"@, '\n'),
        crate::common::tsv::free_of("target_pointer_alignment"@, '\t'),
        crate::common::tsv::free_of("target_pointer_alignment"@, '\n'),
        crate::common::tsv::free_of("evaluator_policy"@, '\t'),
        crate::common::tsv::free_of("evaluator_policy"@, '\n'),
        crate::common::tsv::free_of("compiler_version"@, '\t'),
        crate::common::tsv::free_of("compiler_version"@, '\n'),
{
    reveal_strlit("program_fingerprint");
    reveal_strlit("target_word_size_bits");
    reveal_strlit("target_endianness");
    reveal_strlit("target_pointer_alignment");
    reveal_strlit("evaluator_policy");
    reveal_strlit("compiler_version");
    assert("evaluator_policy"@[0] != "compiler_version"@[0]);
}

/// The text of a number is read back, and fits on a line.
proof fn lemma_number_line(n: nat, max: nat)
    requires
        n <= max,
    ensures
        crate::common::chars::number_up_to(crate::common::text::decimal(n), max) == Some(n),
        crate::common::tsv::is_line(crate::common::text::decimal(n)),
        crate::common::tsv::free_of(crate::common::text::decimal(n), '\t'),
{
    crate::common::chars::lemma_decimal_read_back(n);
    let text = crate::common::text::decimal(n);
    assert forall|i: int| 0 <= i < text.len() implies (#[trigger] text[i]) != '\n' && text[i]
        != '\t' && text[i] != '\r' by {
        assert(crate::common::chars::is_digit(text[i]));
    }
    assert(text.last() == text[text.len() - 1]);
}

proof fn lemma_read_head(s: QuerySnapshotModel)
    requires
        storable(s),
    ensures
        forall|i: int| 0 <= i < 6 ==> crate::common::tsv::is_line(#[trigger] head_lines(s)[i]),
        read(head_lines(s)) == (QuerySnapshotModel {
            file_deps: Seq::empty(),
            ct_cache: Map::empty(),
            ..s
        }),
{
    lemma_words();
    lemma_key_words();
    let all = head_lines(s);
    let number = crate::common::text::decimal(s.program_fingerprint as nat);
    let bits = crate::common::text::decimal(s.cache_key.target_word_size_bits as nat);
    let alignment = crate::common::text::decimal(s.cache_key.target_pointer_alignment as nat);
    lemma_number_line(s.program_fingerprint as nat, u64::MAX as nat);
    lemma_number_line(s.cache_key.target_word_size_bits as nat, 255);
    lemma_number_line(s.cache_key.target_pointer_alignment as nat, 255);
    lemma_is_line("meta"@, "program_fingerprint"@, number);
    lemma_is_line("key"@, "target_word_size_bits"@, bits);
    lemma_is_line("key"@, "target_endianness"@, s.cache_key.target_endianness);
    lemma_is_line("key"@, "target_pointer_alignment"@, alignment);
    lemma_is_line("key"@, "evaluator_policy"@, s.cache_key.evaluator_policy);
    lemma_is_line("key"@, "compiler_version"@, s.cache_key.compiler_version);
    let s0 = empty_snapshot();
    let s1 = QuerySnapshotModel { program_fingerprint: s.program_fingerprint, ..s0 };
    let k2 = CacheKeyModel {
        target_word_size_bits: s.cache_key.target_word_size_bits,
        ..s0.cache_key
    };
    let s2 = QuerySnapshotModel { cache_key: k2, ..s1 };
    let k3 = CacheKeyModel { target_endianness: s.cache_key.target_endianness, ..k2 };
    let s3 = QuerySnapshotModel { cache_key: k3, ..s1 };
    let k4 = CacheKeyModel {
        target_pointer_alignment: s.cache_key.target_pointer_alignment,
        ..k3
    };
    let s4 = QuerySnapshotModel { cache_key: k4, ..s1 };
    let k5 = CacheKeyModel { evaluator_policy: s.cache_key.evaluator_policy, ..k4 };
    let s5 = QuerySnapshotModel { cache_key: k5, ..s1 };
    let s6 = QuerySnapshotModel { cache_key: s.cache_key, ..s1 };
    assert(read(all.take(0)) == s0);
    lemma_read_push(all.take(0), all[0]);
    lemma_with_line(s0, "meta"@, "program_fingerprint"@, number);
    assert(all.take(0).push(all[0]) =~= all.take(1));
    assert(read(all.take(1)) == s1);
    lemma_read_push(all.take(1), all[1]);
    lemma_with_line(s1, "key"@, "target_word_size_bits"@, bits);
    assert(all.take(1).push(all[1]) =~= all.take(2));
    assert(read(all.take(2)) == s2);
    lemma_read_push(all.take(2), all[2]);
    lemma_with_line(s2, "key"@, "target_endianness"@, s.cache_key.target_endianness);
    assert(all.take(2).push(all[2]) =~= all.take(3));
    assert(read(all.take(3)) == s3);
    lemma_read_push(all.take(3), all[3]);
    lemma_with_line(s3, "key"@, "target_pointer_alignment"@, alignment);
    assert(all.take(3).push(all[3]) =~= all.take(4));
    assert(read(all.take(4)) == s4);
    lemma_read_push(all.take(4), all[4]);
    lemma_with_line(s4, "key"@, "evaluator_policy"@, s.cache_key.evaluator_policy);
    assert(all.take(4).push(all[4]) =~= all.take(5));
    assert(read(all.take(5)) == s5);
    lemma_read_push(all.take(5), all[5]);
    lemma_with_line(s5, "key"@, "compiler_version"@, s.cache_key.compiler_version);
    assert(all.take(5).push(all[5]) =~= all);
    assert(read(all) =~= s6);
}

proof fn lemma_read_deps(head: Seq<Seq<char>>, deps: Seq<FileDepModel>, first: nat)
    requires
        first <= deps.len(),
        forall|i: int| 0 <= i < deps.len() ==> storable_dep(#[trigger] deps[i]),
        read(head).file_deps.len() == 0,
    ensures
        forall|i: int|
            0 <= i < dep_lines(deps, first).len() ==> crate::common::tsv::is_line(
                #[trigger] dep_lines(deps, first)[i],
            ),
        read(head + dep_lines(deps, first)) == (QuerySnapshotModel {
            file_deps: deps.take(first as int),
            ..read(head)
        }),
    decreases first,
{
    if first == 0 {
        assert(head + dep_lines(deps, 0) =~= head);
        assert(read(head).file_deps =~= deps.take(0));
    } else {
        lemma_words();
        lemma_read_deps(head, deps, (first - 1) as nat);
        let before = head + dep_lines(deps, (first - 1) as nat);
        let dep = deps[first - 1];
        assert(storable_dep(dep));
        let line = line_of("dep"@, dep.path, dep.content_hash);
        lemma_is_line("dep"@, dep.path, dep.content_hash);
        lemma_with_line(read(before), "dep"@, dep.path, dep.content_hash);
        lemma_read_push(before, line);
        assert(head + dep_lines(deps, first) =~= before.push(line));
        assert(deps.take(first - 1).push(dep) =~= deps.take(first as int));
    }
}

proof fn lemma_read_exprs(front: Seq<Seq<char>>, cache: Map<usize, LiteralModel>, below: nat)
    requires
        below <= usize::MAX as nat + 1,
        read(front).ct_cache == Map::<usize, LiteralModel>::empty(),
    ensures
        forall|i: int|
            0 <= i < expr_lines(cache, below).len() ==> crate::common::tsv::is_line(
                #[trigger] expr_lines(cache, below)[i],
            ),
        read(front + expr_lines(cache, below)) == (QuerySnapshotModel {
            ct_cache: cache.restrict(Set::new(|k: usize| k < below)),
            ..read(front)
        }),
    decreases below,
{
    if below == 0 {
        assert(front + expr_lines(cache, 0) =~= front);
        assert(cache.restrict(Set::new(|k: usize| k < below)) =~= Map::empty());
    } else {
        lemma_words();
        lemma_read_exprs(front, cache, (below - 1) as nat);
        let before = front + expr_lines(cache, (below - 1) as nat);
        let key = (below - 1) as usize;
        let smaller = cache.restrict(Set::new(|k: usize| k < below - 1));
        let larger = cache.restrict(Set::new(|k: usize| k < below));
        if cache.contains_key(key) {
            let index = crate::common::text::decimal(key as nat);
            let value = crate::pipeline::literal_text::literal_text(cache[key]);
            crate::pipeline::literal_text::lemma_literal_text_plain(cache[key]);
            crate::pipeline::literal_text::lemma_literal_read_back(cache[key]);
            lemma_number_line(key as nat, usize::MAX as nat);
            assert(value.len() > 0 ==> value.last() == value[value.len() - 1]);
            lemma_is_line("expr"@, index, value);
            lemma_with_line(read(before), "expr"@, index, value);
            lemma_read_push(before, line_of("expr"@, index, value));
            assert(front + expr_lines(cache, below) =~= before.push(
                line_of("expr"@, index, value),
            ));
            assert(smaller.insert(key, cache[key]) =~= larger);
        } else {
            assert(smaller =~= larger);
        }
    }
}

/// What is read from the text of a snapshot is that snapshot, with its files in
/// order.
pub proof fn lemma_snapshot_read_back(s: QuerySnapshotModel)
    requires
        storable(s),
    ensures
        snapshot_of(snapshot_text(s)) == (QuerySnapshotModel {
            file_deps: crate::pipeline::file_deps::ordered(s.file_deps),
            ..s
        }),
{
    let deps = crate::pipeline::file_deps::ordered(s.file_deps);
    assert forall|i: int| 0 <= i < deps.len() implies storable_dep(#[trigger] deps[i]) by {
        assert(deps.contains(deps[i]));
        crate::pipeline::file_deps::lemma_ordered_contains(s.file_deps, deps[i]);
    }
    let head = head_lines(s);
    let front = head + dep_lines(deps, deps.len());
    let all = snapshot_lines(s);
    let exprs = expr_lines(s.ct_cache, usize::MAX as nat + 1);
    lemma_read_head(s);
    lemma_read_deps(head, deps, deps.len());
    lemma_read_exprs(front, s.ct_cache, usize::MAX as nat + 1);
    assert forall|i: int| 0 <= i < all.len() implies crate::common::tsv::is_line(
        #[trigger] all[i],
    ) by {
        if i < 6 {
            assert(all[i] == head[i]);
        } else if i < front.len() {
            assert(all[i] == dep_lines(deps, deps.len())[i - 6]);
        } else {
            assert(all[i] == exprs[i - front.len()]);
        }
    }
    crate::common::tsv::lemma_lines_read_back(all, 0);
    assert(all.skip(0) =~= all);
    assert(deps.take(deps.len() as int) =~= deps);
    assert(s.ct_cache.restrict(Set::new(|k: usize| k < usize::MAX as nat + 1)) =~= s.ct_cache);
    crate::pipeline::file_deps::lemma_ordered_twice(s.file_deps);
}

} // verus!
