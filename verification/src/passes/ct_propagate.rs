//! Constants: the values of expressions whose parts are literals.
use crate::common::densemap::DenseMap;
use crate::ir::core_ir::{
    BinaryOp, CoreModel, CoreProgram, ExprKind, ExprModel, Literal, LiteralModel,
};
use crate::passes::ct_common::{
    eval_binary, eval_unary, normalize_literal, rebuild_branch_decisions,
};
use crate::pipeline::compiler::{Endianness, TargetSpec};
use crate::pipeline::ct_query_cache::{CtQueryCacheSnapshot, QuerySnapshotModel};
use crate::pipeline::file_deps::{copy_deps, deps_match, normalized_file_deps};
use crate::pipeline::fingerprint::fingerprint_program;
use crate::pipeline::phases::{CtPropagated, Monomorphized};
use crate::pipeline::tables::{
    BranchDecision, CacheKeyModel, CtCacheKey, CtEvalStats, CtFileDep, CtPropagationTables,
    FileDepModel,
};
use vstd::prelude::*;

verus! {

/// How evaluation is done: the width of integers, and who computes with
/// floating-point numbers.
pub struct Machine {
    pub bits: nat,
    pub host: spec_fn(BinaryOp, u64, u64) -> u64,
}

/// The machine of a target.
pub open spec fn machine_of<H: Fn(BinaryOp, u64, u64) -> u64>(
    target: TargetSpec,
    host: H,
) -> Machine {
    Machine {
        bits: crate::passes::ct_common::word_bits(target),
        host: crate::passes::ct_common::answer(host),
    }
}

/// The models of the literals of a map.
pub open spec fn models(cache: Map<usize, Literal>) -> Map<usize, LiteralModel> {
    cache.map_values(|literal: Literal| literal@)
}

/// What trying to evaluate an expression comes to.
#[allow(inconsistent_fields)]
pub enum Outcome {
    Literal(LiteralModel),
    Unary(LiteralModel, bool),
    Binary(LiteralModel, bool),
    MissingInputs,
    Unsupported,
}

/// What an expression comes to, given the values of its parts. Where the
/// operands are floating-point numbers, the machine has computed.
pub open spec fn outcome(
    machine: Machine,
    cache: Map<usize, LiteralModel>,
    e: ExprModel,
) -> Outcome {
    match e {
        ExprModel::Literal(value) => Outcome::Literal(
            crate::passes::ct_common::normal(value, machine.bits),
        ),
        ExprModel::Unary { op, expr } => if !cache.contains_key(expr.0) {
            Outcome::MissingInputs
        } else {
            match crate::passes::ct_common::fold_unary(machine.bits, op, cache[expr.0]) {
                Some(value) => Outcome::Unary(value, cache[expr.0] is Float),
                None => Outcome::Unsupported,
            }
        },
        ExprModel::Binary { op, lhs, rhs } => if !cache.contains_key(lhs.0)
            || !cache.contains_key(rhs.0) {
            Outcome::MissingInputs
        } else {
            match crate::passes::ct_common::fold_binary(
                machine.bits,
                machine.host,
                op,
                cache[lhs.0],
                cache[rhs.0],
            ) {
                Some(value) => Outcome::Binary(value, cache[lhs.0] is Float),
                None => Outcome::Unsupported,
            }
        },
        _ => Outcome::Unsupported,
    }
}

/// The value that an outcome gives, if it gives one.
pub open spec fn value_of(found: Outcome) -> Option<LiteralModel> {
    match found {
        Outcome::Literal(value) => Some(value),
        Outcome::Unary(value, _) => Some(value),
        Outcome::Binary(value, _) => Some(value),
        Outcome::MissingInputs => None,
        Outcome::Unsupported => None,
    }
}

/// One more, as far as the counter goes.
pub open spec fn more(n: u32) -> u32 {
    if n < u32::MAX {
        (n + 1) as u32
    } else {
        u32::MAX
    }
}

/// One more where something holds.
pub open spec fn more_if(n: u32, holds: bool) -> u32 {
    if holds {
        more(n)
    } else {
        n
    }
}

/// How far evaluation has come.
#[verifier::ext_equal]
pub struct Progress {
    pub cache: Map<usize, LiteralModel>,
    pub stats: CtEvalStats,
}

/// One expression is looked at.
pub open spec fn visited(machine: Machine, p: CoreModel, at: Progress, i: usize) -> Progress {
    if at.cache.contains_key(i) {
        Progress {
            stats: CtEvalStats { cache_hits: more(at.stats.cache_hits), ..at.stats },
            ..at
        }
    } else {
        let found = outcome(machine, at.cache, p.exprs[i as int].kind);
        let hit = value_of(found) is Some;
        Progress {
            cache: match value_of(found) {
                Some(value) => at.cache.insert(i, value),
                None => at.cache,
            },
            stats: CtEvalStats {
                eval_attempts: more(at.stats.eval_attempts),
                cache_inserts: more_if(at.stats.cache_inserts, hit),
                folded_literals: more_if(at.stats.folded_literals, found is Literal),
                folded_unary: more_if(at.stats.folded_unary, found is Unary),
                folded_binary: more_if(at.stats.folded_binary, found is Binary),
                folded_float_host: more_if(
                    at.stats.folded_float_host,
                    match found {
                        Outcome::Unary(_, float) => float,
                        Outcome::Binary(_, float) => float,
                        _ => false,
                    },
                ),
                miss_missing_inputs: more_if(
                    at.stats.miss_missing_inputs,
                    found is MissingInputs,
                ),
                miss_unsupported: more_if(at.stats.miss_unsupported, found is Unsupported),
                ..at.stats
            },
        }
    }
}

/// The first expressions, one after the other.
pub open spec fn swept(machine: Machine, p: CoreModel, at: Progress, first: nat) -> Progress
    decreases first,
{
    if first == 0 {
        at
    } else {
        visited(machine, p, swept(machine, p, at, (first - 1) as nat), (first - 1) as usize)
    }
}

/// One pass over all expressions.
pub open spec fn passed(machine: Machine, p: CoreModel, at: Progress) -> Progress {
    swept(
        machine,
        p,
        Progress {
            stats: CtEvalStats { iterations: more(at.stats.iterations), ..at.stats },
            ..at
        },
        p.exprs.len(),
    )
}

/// Passes, until one finds nothing new; at most so many.
pub open spec fn passes(machine: Machine, p: CoreModel, at: Progress, limit: nat) -> Progress
    decreases limit,
{
    if limit == 0 {
        at
    } else {
        let next = passed(machine, p, at);
        if next.cache == at.cache {
            next
        } else {
            passes(machine, p, next, (limit - 1) as nat)
        }
    }
}

/// How many passes there may be.
pub open spec fn pass_limit(p: CoreModel) -> nat {
    if p.exprs.len() < usize::MAX {
        p.exprs.len() + 1
    } else {
        usize::MAX as nat
    }
}

/// All that can be found, and how it was found.
pub open spec fn propagated(machine: Machine, p: CoreModel) -> Progress {
    passes(
        machine,
        p,
        Progress { cache: Map::empty(), stats: zero_stats() },
        pass_limit(p),
    )
}

pub open spec fn zero_stats() -> CtEvalStats {
    CtEvalStats {
        iterations: 0,
        eval_attempts: 0,
        cache_hits: 0,
        cache_inserts: 0,
        folded_literals: 0,
        folded_unary: 0,
        folded_binary: 0,
        folded_float_host: 0,
        miss_missing_inputs: 0,
        miss_unsupported: 0,
    }
}

pub(crate) fn no_stats() -> (stats: CtEvalStats)
    ensures
        stats == zero_stats(),
{
    CtEvalStats {
        iterations: 0,
        eval_attempts: 0,
        cache_hits: 0,
        cache_inserts: 0,
        folded_literals: 0,
        folded_unary: 0,
        folded_binary: 0,
        folded_float_host: 0,
        miss_missing_inputs: 0,
        miss_unsupported: 0,
    }
}

// ---------------------------------------------------------------------------
// Evaluation
// ---------------------------------------------------------------------------

enum EvalOutcome {
    Literal(Literal),
    Unary(Literal, bool),
    Binary(Literal, bool),
    MissingInputs,
    Unsupported,
}

spec fn model_outcome(found: EvalOutcome) -> Outcome {
    match found {
        EvalOutcome::Literal(value) => Outcome::Literal(value@),
        EvalOutcome::Unary(value, float) => Outcome::Unary(value@, float),
        EvalOutcome::Binary(value, float) => Outcome::Binary(value@, float),
        EvalOutcome::MissingInputs => Outcome::MissingInputs,
        EvalOutcome::Unsupported => Outcome::Unsupported,
    }
}

fn is_float(value: &Literal) -> (b: bool)
    ensures
        b == (value@ is Float),
{
    match value {
        Literal::Float(_) => true,
        _ => false,
    }
}

fn eval_expr<H: Fn(BinaryOp, u64, u64) -> u64>(
    kind: &ExprKind,
    cache: &DenseMap<Literal>,
    target: TargetSpec,
    host: &H,
) -> (found: EvalOutcome)
    requires
        crate::passes::ct_common::answers(*host),
    ensures
        model_outcome(found) == outcome(machine_of(target, *host), models(cache@), kind@),
{
    match kind {
        ExprKind::Literal(value) => EvalOutcome::Literal(normalize_literal(value, target)),
        ExprKind::Unary { op, expr } => match cache.get(expr.0) {
            None => EvalOutcome::MissingInputs,
            Some(value) => {
                assert(models(cache@)[expr.0] == value@);
                match eval_unary(*op, value, target) {
                    Some(result) => EvalOutcome::Unary(result, is_float(value)),
                    None => EvalOutcome::Unsupported,
                }
            },
        },
        ExprKind::Binary { op, lhs, rhs } => match cache.get(lhs.0) {
            None => EvalOutcome::MissingInputs,
            Some(left) => match cache.get(rhs.0) {
                None => EvalOutcome::MissingInputs,
                Some(right) => {
                    assert(models(cache@)[lhs.0] == left@);
                    assert(models(cache@)[rhs.0] == right@);
                    match eval_binary(*op, left, right, target, host) {
                        Some(result) => EvalOutcome::Binary(result, is_float(left)),
                        None => EvalOutcome::Unsupported,
                    }
                },
            },
        },
        _ => EvalOutcome::Unsupported,
    }
}

fn bump(n: u32) -> (m: u32)
    ensures
        m == more(n),
{
    n.saturating_add(1)
}

/// Enters a value.
pub(crate) fn remember(cache: &mut DenseMap<Literal>, at: usize, value: Literal)
    ensures
        models(final(cache)@) == models(old(cache)@).insert(at, value@),
{
    let ghost before = cache@;
    cache.insert(at, value);
    assert(models(cache@) =~= models(before).insert(at, value@));
}

/// Looks at one expression. Tells whether its value is new.
fn visit<H: Fn(BinaryOp, u64, u64) -> u64>(
    program: &CoreProgram,
    i: usize,
    target: TargetSpec,
    host: &H,
    cache: &mut DenseMap<Literal>,
    stats: &mut CtEvalStats,
) -> (changed: bool)
    requires
        i < program@.exprs.len(),
        crate::passes::ct_common::answers(*host),
    ensures
        (Progress { cache: models(final(cache)@), stats: *final(stats) }) == visited(
            machine_of(target, *host),
            program@,
            Progress { cache: models(old(cache)@), stats: *old(stats) },
            i,
        ),
        changed <==> !models(old(cache)@).contains_key(i) && models(final(cache)@).contains_key(i),
        !changed ==> models(final(cache)@) == models(old(cache)@),
{
    if cache.contains_key(i) {
        stats.cache_hits = bump(stats.cache_hits);
        return false;
    }
    stats.eval_attempts = bump(stats.eval_attempts);
    assert(program@.exprs[i as int].kind == program.exprs@[i as int].kind@);
    match eval_expr(&program.exprs[i].kind, cache, target, host) {
        EvalOutcome::Literal(value) => {
            remember(cache, i, value);
            stats.cache_inserts = bump(stats.cache_inserts);
            stats.folded_literals = bump(stats.folded_literals);
            true
        },
        EvalOutcome::Unary(value, float) => {
            remember(cache, i, value);
            stats.cache_inserts = bump(stats.cache_inserts);
            stats.folded_unary = bump(stats.folded_unary);
            if float {
                stats.folded_float_host = bump(stats.folded_float_host);
            }
            true
        },
        EvalOutcome::Binary(value, float) => {
            remember(cache, i, value);
            stats.cache_inserts = bump(stats.cache_inserts);
            stats.folded_binary = bump(stats.folded_binary);
            if float {
                stats.folded_float_host = bump(stats.folded_float_host);
            }
            true
        },
        EvalOutcome::MissingInputs => {
            stats.miss_missing_inputs = bump(stats.miss_missing_inputs);
            false
        },
        EvalOutcome::Unsupported => {
            stats.miss_unsupported = bump(stats.miss_unsupported);
            false
        },
    }
}

/// Finds the values of all expressions that have one.
pub fn compute_ct_cache<H: Fn(BinaryOp, u64, u64) -> u64>(
    program: &CoreProgram,
    target: TargetSpec,
    host: &H,
) -> (out: (DenseMap<Literal>, CtEvalStats))
    requires
        crate::passes::ct_common::answers(*host),
    ensures
        (Progress { cache: models(out.0@), stats: out.1 }) == propagated(
            machine_of(target, *host),
            program@,
        ),
{
    let ghost machine = machine_of(target, *host);
    let mut cache: DenseMap<Literal> = DenseMap::new();
    let mut stats = no_stats();
    let limit = program.exprs.len().saturating_add(1);
    let ghost start = Progress { cache: Map::empty(), stats };
    let mut left: usize = limit;
    let mut changed = true;
    assert(models(cache@) =~= Map::empty());
    assert(limit == pass_limit(program@));
    while left > 0 && changed
        invariant
            left <= limit,
            limit == pass_limit(program@),
            crate::passes::ct_common::answers(*host),
            machine == machine_of(target, *host),
            changed ==> passes(
                machine,
                program@,
                Progress { cache: models(cache@), stats },
                left as nat,
            ) == passes(machine, program@, start, limit as nat),
            !changed ==> (Progress { cache: models(cache@), stats }) == passes(
                machine,
                program@,
                start,
                limit as nat,
            ),
        decreases left,
    {
        let ghost before = Progress { cache: models(cache@), stats };
        stats.iterations = bump(stats.iterations);
        let ghost begun = Progress { cache: models(cache@), stats };
        changed = false;
        let mut i: usize = 0;
        while i < program.exprs.len()
            invariant
                i <= program.exprs@.len(),
                crate::passes::ct_common::answers(*host),
                machine == machine_of(target, *host),
                (Progress { cache: models(cache@), stats }) == swept(
                    machine,
                    program@,
                    begun,
                    i as nat,
                ),
                begun.cache.submap_of(models(cache@)),
                changed <==> models(cache@) != begun.cache,
            decreases program.exprs@.len() - i,
        {
            let ghost now = models(cache@);
            if visit(program, i, target, host, &mut cache, &mut stats) {
                changed = true;
                assert(models(cache@).contains_key(i));
                assert(!now.contains_key(i));
                assert(!begun.cache.contains_key(i)) by {
                    if begun.cache.contains_key(i) {
                        assert(begun.cache.dom().contains(i));
                        assert(now.dom().contains(i));
                    }
                }
            }
            i += 1;
        }
        assert((Progress { cache: models(cache@), stats }) == passed(machine, program@, before));
        left -= 1;
    }
    (cache, stats)
}

// ---------------------------------------------------------------------------
// Laws
// ---------------------------------------------------------------------------

/// Every value that has been found follows from the values of the parts.
pub open spec fn explained(machine: Machine, p: CoreModel, cache: Map<usize, LiteralModel>) -> bool {
    forall|e: usize| #[trigger]
        cache.contains_key(e) ==> e < p.exprs.len() && value_of(
            outcome(machine, cache, p.exprs[e as int].kind),
        ) == Some(cache[e])
}

/// No further value can be found.
pub open spec fn exhausted(machine: Machine, p: CoreModel, cache: Map<usize, LiteralModel>) -> bool {
    forall|e: usize|
        e < p.exprs.len() && !(#[trigger] cache.contains_key(e)) ==> value_of(
            outcome(machine, cache, p.exprs[e as int].kind),
        ) is None
}

/// A new value changes no outcome that gave one.
proof fn lemma_outcome_stable(
    machine: Machine,
    cache: Map<usize, LiteralModel>,
    at: usize,
    value: LiteralModel,
    e: ExprModel,
)
    requires
        !cache.contains_key(at),
        value_of(outcome(machine, cache, e)) is Some,
    ensures
        outcome(machine, cache.insert(at, value), e) == outcome(machine, cache, e),
{
}

proof fn lemma_visit_explained(machine: Machine, p: CoreModel, at: Progress, i: usize)
    requires
        explained(machine, p, at.cache),
        i < p.exprs.len(),
    ensures
        explained(machine, p, visited(machine, p, at, i).cache),
        at.cache.submap_of(visited(machine, p, at, i).cache),
{
    let next = visited(machine, p, at, i).cache;
    if !at.cache.contains_key(i) {
        if let Some(value) = value_of(outcome(machine, at.cache, p.exprs[i as int].kind)) {
            assert forall|e: usize| #[trigger] next.contains_key(e) implies e < p.exprs.len()
                && value_of(outcome(machine, next, p.exprs[e as int].kind)) == Some(next[e]) by {
                if e != i {
                    assert(at.cache.contains_key(e));
                }
                lemma_outcome_stable(machine, at.cache, i, value, p.exprs[e as int].kind);
            }
        }
    }
}

proof fn lemma_swept_explained(machine: Machine, p: CoreModel, at: Progress, first: nat)
    requires
        explained(machine, p, at.cache),
        first <= p.exprs.len() <= usize::MAX,
    ensures
        explained(machine, p, swept(machine, p, at, first).cache),
        at.cache.submap_of(swept(machine, p, at, first).cache),
    decreases first,
{
    if first > 0 {
        lemma_swept_explained(machine, p, at, (first - 1) as nat);
        let mid = swept(machine, p, at, (first - 1) as nat);
        lemma_visit_explained(machine, p, mid, (first - 1) as usize);
        let end = visited(machine, p, mid, (first - 1) as usize);
        assert forall|k: usize| at.cache.dom().contains(k) implies #[trigger] end.cache.dom().contains(
            k,
        ) && end.cache[k] == at.cache[k] by {
            assert(mid.cache.dom().contains(k));
        }
    }
}

/// A sweep that finds nothing new leaves nothing to be found.
proof fn lemma_still_exhausted(machine: Machine, p: CoreModel, at: Progress, first: nat, e: usize)
    requires
        first <= p.exprs.len() <= usize::MAX,
        explained(machine, p, at.cache),
        swept(machine, p, at, first).cache == at.cache,
        e < first,
        !at.cache.contains_key(e),
    ensures
        value_of(outcome(machine, at.cache, p.exprs[e as int].kind)) is None,
    decreases first,
{
    let mid = swept(machine, p, at, (first - 1) as nat);
    lemma_swept_explained(machine, p, at, (first - 1) as nat);
    lemma_visit_explained(machine, p, mid, (first - 1) as usize);
    assert(mid.cache =~= at.cache) by {
        assert forall|k: usize| mid.cache.dom().contains(k) <==> at.cache.dom().contains(k) by {
            if mid.cache.dom().contains(k) {
                assert(visited(machine, p, mid, (first - 1) as usize).cache.dom().contains(k));
            }
        }
    }
    if e == first - 1 {
        if value_of(outcome(machine, at.cache, p.exprs[e as int].kind)) is Some {
            assert(visited(machine, p, mid, e).cache.contains_key(e));
        }
    } else {
        lemma_still_exhausted(machine, p, at, (first - 1) as nat, e);
    }
}

proof fn lemma_passes_lawful(machine: Machine, p: CoreModel, at: Progress, limit: nat)
    requires
        p.exprs.len() < usize::MAX,
        explained(machine, p, at.cache),
        at.cache.dom().finite(),
        limit > p.exprs.len() - at.cache.dom().len(),
    ensures
        explained(machine, p, passes(machine, p, at, limit).cache),
        exhausted(machine, p, passes(machine, p, at, limit).cache),
    decreases limit,
{
    let n = p.exprs.len();
    lemma_cache_size(machine, p, at.cache);
    let begun = Progress {
        stats: CtEvalStats { iterations: more(at.stats.iterations), ..at.stats },
        ..at
    };
    let next = passed(machine, p, at);
    lemma_swept_explained(machine, p, begun, n);
    if next.cache == at.cache {
        assert forall|e: usize|
            e < n && !(#[trigger] next.cache.contains_key(e)) implies value_of(
            outcome(machine, next.cache, p.exprs[e as int].kind),
        ) is None by {
            lemma_still_exhausted(machine, p, begun, n, e);
        }
    } else {
        lemma_cache_size(machine, p, next.cache);
        lemma_grew(at.cache, next.cache);
        lemma_passes_lawful(machine, p, next, (limit - 1) as nat);
    }
}

/// There is at most one value for each expression.
proof fn lemma_cache_size(machine: Machine, p: CoreModel, cache: Map<usize, LiteralModel>)
    requires
        explained(machine, p, cache),
        p.exprs.len() < usize::MAX,
    ensures
        cache.dom().finite(),
        cache.dom().len() <= p.exprs.len(),
{
    let n = p.exprs.len();
    let all = vstd::set_lib::set_int_range(0, n as int);
    vstd::set_lib::lemma_int_range(0, n as int);
    let back = |k: int| k as usize;
    let room = all.map(back);
    assert(vstd::relations::injective_on(back, all)) by {
        assert forall|a: int, b: int|
            all.contains(a) && all.contains(b) && #[trigger] back(a) == #[trigger] back(
                b,
            ) implies a == b by {}
    }
    vstd::set_lib::lemma_map_size(all, room, back);
    assert(room.finite());
    assert(cache.dom().subset_of(room)) by {
        assert forall|k: usize| cache.dom().contains(k) implies room.contains(k) by {
            assert(cache.contains_key(k));
            assert(all.contains(k as int));
            assert(back(k as int) == k);
        }
    }
    vstd::set_lib::lemma_len_subset(cache.dom(), room);
}

proof fn lemma_grew(before: Map<usize, LiteralModel>, after: Map<usize, LiteralModel>)
    requires
        before.submap_of(after),
        before != after,
        after.dom().finite(),
    ensures
        before.dom().finite(),
        before.dom().len() < after.dom().len(),
{
    assert(before.dom().subset_of(after.dom()));
    vstd::set_lib::lemma_len_subset(before.dom(), after.dom());
    if before.dom().len() == after.dom().len() {
        vstd::set_lib::lemma_subset_equality(before.dom(), after.dom());
        assert(before =~= after);
    }
}

/// Every value that is found follows from the literals of the program, and
/// every value that follows from them is found.
pub proof fn lemma_propagated(machine: Machine, p: CoreModel)
    requires
        p.exprs.len() < usize::MAX,
    ensures
        explained(machine, p, propagated(machine, p).cache),
        exhausted(machine, p, propagated(machine, p).cache),
{
    let start = Progress { cache: Map::<usize, LiteralModel>::empty(), stats: zero_stats() };
    lemma_passes_lawful(machine, p, start, pass_limit(p));
}

// ---------------------------------------------------------------------------
// The pass
// ---------------------------------------------------------------------------

/// What results for a target depend on besides the source.
pub open spec fn cache_key(target: TargetSpec) -> CacheKeyModel {
    CacheKeyModel {
        target_word_size_bits: target.word_size_bits,
        target_endianness: match target.endianness {
            Endianness::Little => "little"@,
            Endianness::Big => "big"@,
        },
        target_pointer_alignment: target.pointer_alignment,
        evaluator_policy: crate::pipeline::tables::evaluator_policy(),
        compiler_version: crate::pipeline::tables::compiler_version(),
    }
}

pub fn build_cache_key(target: TargetSpec) -> (key: CtCacheKey)
    ensures
        key@ == cache_key(target),
{
    CtCacheKey {
        target_word_size_bits: target.word_size_bits,
        target_endianness: match target.endianness {
            Endianness::Little => "little".to_owned(),
            Endianness::Big => "big".to_owned(),
        },
        target_pointer_alignment: target.pointer_alignment,
        evaluator_policy: "v1-int-wrap-litnorm".to_owned(),
        compiler_version: "0.1.0".to_owned(),
    }
}

/// Whether results are kept from one run to the next, and what was kept.
#[derive(Debug)]
pub enum QueryCache {
    Off,
    On(Option<CtQueryCacheSnapshot>),
}

/// The snapshot that a run starts from, as a mathematical value.
pub open spec fn kept(query: QueryCache) -> Option<QuerySnapshotModel> {
    match query {
        QueryCache::On(Some(snapshot)) => Some(snapshot@),
        _ => None,
    }
}

/// What evaluation at compile time leaves behind.
#[verifier::ext_equal]
pub struct CtModel {
    pub cache: Map<usize, LiteralModel>,
    pub decisions: Map<usize, BranchDecision>,
    pub deps: Seq<FileDepModel>,
    pub key: CacheKeyModel,
    pub stats: CtEvalStats,
}

/// Tables as a mathematical value.
pub open spec fn ct_model(ct: CtPropagationTables) -> CtModel {
    CtModel {
        cache: models(ct.ct_cache@),
        decisions: ct.branch_decisions@,
        deps: crate::common::views(ct.file_deps@),
        key: ct.cache_key@,
        stats: ct.eval_stats,
    }
}

/// The branches that known conditions decide.
pub open spec fn decided(cache: Map<usize, LiteralModel>) -> Map<usize, BranchDecision> {
    Map::new(
        |e: usize| cache.contains_key(e) && cache[e] is Bool,
        |e: usize|
            if cache[e]->Bool_0 {
                BranchDecision::LiveTrue
            } else {
                BranchDecision::LiveFalse
            },
    )
}

/// Whether kept results hold for a program: it has the same expressions, the
/// target and the compiler are the same, and so are the files.
pub open spec fn still_holds(
    snapshot: QuerySnapshotModel,
    p: CoreModel,
    key: CacheKeyModel,
    deps: Seq<FileDepModel>,
) -> bool {
    &&& snapshot.program_fingerprint == crate::pipeline::fingerprint::fingerprint(p.exprs)
    &&& snapshot.cache_key == key
    &&& crate::pipeline::file_deps::ordered(snapshot.file_deps)
        == crate::pipeline::file_deps::ordered(deps)
}

/// A length, or the largest number where it is larger.
pub open spec fn length_of(n: nat) -> u32 {
    if n > u32::MAX {
        u32::MAX
    } else {
        n as u32
    }
}

/// What is found: what was kept, where it still holds; else it is computed.
pub open spec fn found(
    machine: Machine,
    p: CoreModel,
    target: TargetSpec,
    deps: Seq<FileDepModel>,
    kept: Option<QuerySnapshotModel>,
) -> CtModel {
    let ordered = crate::pipeline::file_deps::ordered(deps);
    let progress = match kept {
        Some(snapshot) => if still_holds(snapshot, p, cache_key(target), deps) {
            Progress {
                cache: snapshot.ct_cache,
                stats: CtEvalStats {
                    iterations: 1,
                    cache_hits: length_of(snapshot.ct_cache.dom().len()),
                    ..zero_stats()
                },
            }
        } else {
            propagated(machine, p)
        },
        None => propagated(machine, p),
    };
    CtModel {
        cache: progress.cache,
        decisions: decided(progress.cache),
        deps: ordered,
        key: cache_key(target),
        stats: progress.stats,
    }
}

/// What is to be kept: nothing where nothing is kept, or where what was kept
/// still holds.
pub open spec fn to_keep(
    machine: Machine,
    p: CoreModel,
    target: TargetSpec,
    deps: Seq<FileDepModel>,
    query: QueryCache,
) -> Option<QuerySnapshotModel> {
    let holds = match kept(query) {
        Some(snapshot) => still_holds(snapshot, p, cache_key(target), deps),
        None => false,
    };
    if query is Off || holds {
        None
    } else {
        Some(
            QuerySnapshotModel {
                cache_key: cache_key(target),
                file_deps: crate::pipeline::file_deps::ordered(deps),
                program_fingerprint: crate::pipeline::fingerprint::fingerprint(p.exprs),
                ct_cache: propagated(machine, p).cache,
            },
        )
    }
}

/// The snapshot to be kept after a run, as a mathematical value.
pub open spec fn snapshot_model(snapshot: Option<CtQueryCacheSnapshot>) -> Option<
    QuerySnapshotModel,
> {
    match snapshot {
        Some(snapshot) => Some(snapshot@),
        None => None,
    }
}

fn same_key(a: &CtCacheKey, b: &CtCacheKey) -> (same: bool)
    ensures
        same == (a@ == b@),
{
    let same = a.target_word_size_bits == b.target_word_size_bits && a.target_endianness
        == b.target_endianness && a.target_pointer_alignment == b.target_pointer_alignment
        && a.evaluator_policy == b.evaluator_policy && a.compiler_version == b.compiler_version;
    assert(same ==> a@ =~= b@);
    same
}

fn copy_cache(cache: &DenseMap<Literal>) -> (copy: DenseMap<Literal>)
    ensures
        models(copy@) == models(cache@),
{
    let mut copy: DenseMap<Literal> = DenseMap::new();
    let mut k: usize = 0;
    let bound = cache.bound();
    while k < bound
        invariant
            k <= bound,
            forall|e: usize|
                #![trigger copy@.contains_key(e)]
                copy@.contains_key(e) <==> e < k && cache@.contains_key(e),
            forall|e: usize| #[trigger]
                copy@.contains_key(e) ==> copy@[e]@ == cache@[e]@,
        decreases bound - k,
    {
        if let Some(literal) = cache.get(k) {
            copy.insert(k, literal.clone());
        }
        k += 1;
    }
    proof {
        let a = models(copy@);
        let b = models(cache@);
        assert forall|e: usize| a.contains_key(e) == b.contains_key(e) by {
            assert(copy@.contains_key(e) <==> cache@.contains_key(e));
        }
        assert forall|e: usize| a.contains_key(e) implies a[e] == b[e] by {
            assert(copy@.contains_key(e));
        }
        assert(a =~= b);
    }
    copy
}

fn kept_stats(cache: &DenseMap<Literal>) -> (stats: CtEvalStats)
    ensures
        stats == (CtEvalStats {
            iterations: 1,
            cache_hits: length_of(cache@.dom().len()),
            ..zero_stats()
        }),
{
    let count = cache.len();
    let mut stats = no_stats();
    stats.iterations = 1;
    stats.cache_hits = if count > 0xffff_ffff {
        0xffff_ffff
    } else {
        count as u32
    };
    stats
}

/// The tables from what was found, and the decisions that follow from it.
fn tables_from(
    ct_cache: DenseMap<Literal>,
    file_deps: Vec<CtFileDep>,
    cache_key: CtCacheKey,
    eval_stats: CtEvalStats,
) -> (ct: CtPropagationTables)
    ensures
        ct_model(ct) == (CtModel {
            cache: models(ct_cache@),
            decisions: decided(models(ct_cache@)),
            deps: crate::common::views(file_deps@),
            key: cache_key@,
            stats: eval_stats,
        }),
{
    let branch_decisions = rebuild_branch_decisions(&ct_cache);
    assert(branch_decisions@ =~= decided(models(ct_cache@)));
    CtPropagationTables { ct_cache, branch_decisions, file_deps, cache_key, eval_stats }
}

/// Evaluates what can be evaluated at compile time. The files are those that the
/// program reads; what was kept is used where it still holds, and else what is
/// to be kept is handed back.
pub fn run_with_query_cache<H: Fn(BinaryOp, u64, u64) -> u64>(
    mono: Monomorphized,
    target: TargetSpec,
    host: &H,
    file_deps: Vec<CtFileDep>,
    query: QueryCache,
) -> (out: (CtPropagated, Option<CtQueryCacheSnapshot>))
    requires
        crate::passes::ct_common::answers(*host),
        crate::passes::ct_common::effects_declared(mono.program@),
    ensures
        out.0.program == mono.program,
        out.0.diagnostics == mono.diagnostics,
        out.0.sema == mono.sema,
        out.0.mono == mono.mono,
        ct_model(out.0.ct) == found(
            machine_of(target, *host),
            mono.program@,
            target,
            crate::common::views(file_deps@),
            kept(query),
        ),
        snapshot_model(out.1) == to_keep(
            machine_of(target, *host),
            mono.program@,
            target,
            crate::common::views(file_deps@),
            query,
        ),
{
    let ghost deps = crate::common::views(file_deps@);
    let key = build_cache_key(target);
    let ordered = normalized_file_deps(file_deps);
    proof {
        crate::pipeline::file_deps::lemma_ordered_twice(deps);
    }
    let keep = match query {
        QueryCache::Off => false,
        QueryCache::On(snapshot) => {
            if let Some(snapshot) = snapshot {
                if snapshot.program_fingerprint == fingerprint_program(mono.program()) && same_key(
                    &snapshot.cache_key,
                    &key,
                ) && deps_match(&snapshot.file_deps, &ordered) {
                    let stats = kept_stats(&snapshot.ct_cache);
                    proof {
                        assert(models(snapshot.ct_cache@).dom() =~= snapshot.ct_cache@.dom());
                    }
                    let ct = tables_from(snapshot.ct_cache, ordered, key, stats);
                    return (mono.into_ct_propagated(ct), None);
                }
            }
            true
        },
    };
    let (ct_cache, stats) = compute_ct_cache(mono.program(), target, host);
    let snapshot = if keep {
        let snapshot = CtQueryCacheSnapshot {
            cache_key: key.clone(),
            file_deps: copy_deps(&ordered),
            program_fingerprint: fingerprint_program(mono.program()),
            ct_cache: copy_cache(&ct_cache),
        };
        Some(snapshot)
    } else {
        None
    };
    let ct = tables_from(ct_cache, ordered, key, stats);
    (mono.into_ct_propagated(ct), snapshot)
}

/// Evaluates what can be evaluated at compile time, and keeps nothing.
pub fn run<H: Fn(BinaryOp, u64, u64) -> u64>(
    mono: Monomorphized,
    target: TargetSpec,
    host: &H,
    file_deps: Vec<CtFileDep>,
) -> (out: CtPropagated)
    requires
        crate::passes::ct_common::answers(*host),
        crate::passes::ct_common::effects_declared(mono.program@),
    ensures
        out.program == mono.program,
        out.diagnostics == mono.diagnostics,
        out.sema == mono.sema,
        out.mono == mono.mono,
        ct_model(out.ct) == found(
            machine_of(target, *host),
            mono.program@,
            target,
            crate::common::views(file_deps@),
            None,
        ),
{
    let (out, _) = run_with_query_cache(mono, target, host, file_deps, QueryCache::Off);
    out
}

/// What one run keeps, written and read back, is used by the next one for the
/// same program, target and files, and gives the same values.
pub proof fn lemma_kept_is_used(
    machine: Machine,
    p: CoreModel,
    target: TargetSpec,
    deps: Seq<FileDepModel>,
)
    requires
        forall|i: int|
            0 <= i < deps.len() ==> crate::pipeline::ct_query_cache::storable_dep(
                #[trigger] deps[i],
            ),
    ensures
        ({
            let kept = to_keep(machine, p, target, deps, QueryCache::On(None))->0;
            let read = crate::pipeline::ct_query_cache::snapshot_of(
                crate::pipeline::ct_query_cache::snapshot_text(kept),
            );
            let first = found(machine, p, target, deps, None);
            let second = found(machine, p, target, deps, Some(read));
            &&& to_keep(machine, p, target, deps, QueryCache::On(None)) is Some
            &&& still_holds(read, p, cache_key(target), deps)
            &&& second.cache == first.cache
            &&& second.decisions == first.decisions
            &&& second.deps == first.deps
            &&& second.key == first.key
        }),
{
    let kept = to_keep(machine, p, target, deps, QueryCache::On(None))->0;
    let ordered = crate::pipeline::file_deps::ordered(deps);
    reveal_strlit("little");
    reveal_strlit("big");
    reveal_strlit("v1-int-wrap-litnorm");
    reveal_strlit("0.1.0");
    assert forall|i: int| 0 <= i < ordered.len() implies
        crate::pipeline::ct_query_cache::storable_dep(#[trigger] ordered[i]) by {
        assert(ordered.contains(ordered[i]));
        crate::pipeline::file_deps::lemma_ordered_contains(deps, ordered[i]);
    }
    assert(crate::pipeline::ct_query_cache::storable(kept));
    crate::pipeline::ct_query_cache::lemma_snapshot_read_back(kept);
    crate::pipeline::file_deps::lemma_ordered_twice(deps);
}

/// What does not hold any more is computed anew: a change of the target, the
/// compiler or the files, or of the number that stands for the program, is
/// noticed.
pub proof fn lemma_outdated_is_not_used(
    machine: Machine,
    p: CoreModel,
    target: TargetSpec,
    deps: Seq<FileDepModel>,
    snapshot: QuerySnapshotModel,
)
    requires
        snapshot.program_fingerprint != crate::pipeline::fingerprint::fingerprint(p.exprs)
            || snapshot.cache_key != cache_key(target) || snapshot.file_deps.to_multiset()
            != deps.to_multiset(),
    ensures
        found(machine, p, target, deps, Some(snapshot)) == found(machine, p, target, deps, None),
{
    crate::pipeline::file_deps::lemma_same_deps(snapshot.file_deps, deps);
}

} // verus!
