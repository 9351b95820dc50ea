//! The side tables that the phases hand on.
use crate::common::densemap::DenseMap;
use crate::common::ids::{FuncId, StmtId, SymbolId, TypeId, VarId};
use crate::common::sorted::insert_sorted;
use crate::ir::core_ir::Literal;
use crate::pipeline::reason::{remap_func_id, remap_stage_reason, Reason, Stage};
use crate::sema::effect::{EffectProperties, SortedEffectRow};
use crate::sema::ownership::OwnershipClass;
use crate::sema::ty::Persistability;
use std::collections::HashMap;
use vstd::prelude::*;

verus! {

#[derive(Clone, Copy, PartialEq, Eq, Debug, Structural)]
pub enum Knownness {
    Unknown,
    KnownLocal,
    KnownPersistable,
}

/// Which branch of a conditional is taken, where that is known.
#[derive(Clone, Copy, PartialEq, Eq, Debug, Structural)]
pub enum BranchDecision {
    LiveTrue,
    LiveFalse,
    Unknown,
}

#[derive(Clone, Copy, PartialEq, Eq, Debug, Structural)]
pub struct HandlerDischarge {
    pub dischargeable: bool,
    pub reason: Option<Reason>,
}

#[derive(Clone, Copy, PartialEq, Eq, Debug, Structural)]
pub struct ClauseDischarge {
    pub dischargeable: bool,
    pub reason: Option<Reason>,
}

// ---------------------------------------------------------------------------
// What the type checker finds
// ---------------------------------------------------------------------------

#[derive(Debug)]
pub struct SemanticTables {
    pub type_of_expr: Vec<Option<TypeId>>,
    pub effects_of_expr: Vec<SortedEffectRow>,
    pub effects_of_stmt: Vec<SortedEffectRow>,
    pub ownership_of_expr: Vec<OwnershipClass>,
    pub ownership_of_var: DenseMap<OwnershipClass>,
    pub ownership_of_type: Vec<OwnershipClass>,
    pub persistability_of_type: Vec<Persistability>,
    pub effect_properties: HashMap<usize, EffectProperties>,
}

/// So many empty effect rows.
fn empty_rows(count: usize) -> (rows: Vec<SortedEffectRow>)
    ensures
        rows@.len() == count,
        forall|i: int| 0 <= i < count ==> (#[trigger] rows@[i])@.len() == 0,
{
    let mut rows: Vec<SortedEffectRow> = Vec::new();
    while rows.len() < count
        invariant
            rows@.len() <= count,
            forall|i: int| 0 <= i < rows@.len() ==> (#[trigger] rows@[i])@.len() == 0,
        decreases count - rows@.len(),
    {
        rows.push(SortedEffectRow::empty());
    }
    rows
}

impl SemanticTables {
    /// Tables in which nothing is known yet of so many expressions and
    /// statements.
    pub fn with_counts(expr_count: usize, stmt_count: usize) -> (tables: Self)
        ensures
            tables.type_of_expr@ == Seq::new(expr_count as nat, |i: int| None::<TypeId>),
            tables.effects_of_expr@.len() == expr_count,
            forall|i: int|
                0 <= i < expr_count ==> (#[trigger] tables.effects_of_expr@[i])@.len() == 0,
            tables.effects_of_stmt@.len() == stmt_count,
            forall|i: int|
                0 <= i < stmt_count ==> (#[trigger] tables.effects_of_stmt@[i])@.len() == 0,
            tables.ownership_of_expr@ == Seq::new(
                expr_count as nat,
                |i: int| OwnershipClass::BorrowedView,
            ),
            tables.ownership_of_var@ == Map::<usize, OwnershipClass>::empty(),
            tables.ownership_of_type@.len() == 0,
            tables.persistability_of_type@.len() == 0,
            tables.effect_properties@ == Map::<usize, EffectProperties>::empty(),
    {
        let mut type_of_expr: Vec<Option<TypeId>> = Vec::new();
        let mut ownership_of_expr: Vec<OwnershipClass> = Vec::new();
        let mut i: usize = 0;
        while i < expr_count
            invariant
                i <= expr_count,
                type_of_expr@ == Seq::new(i as nat, |i: int| None::<TypeId>),
                ownership_of_expr@ == Seq::new(i as nat, |i: int| OwnershipClass::BorrowedView),
            decreases expr_count - i,
        {
            type_of_expr.push(None);
            ownership_of_expr.push(OwnershipClass::BorrowedView);
            i += 1;
            assert(type_of_expr@ =~= Seq::new(i as nat, |i: int| None::<TypeId>));
            assert(ownership_of_expr@ =~= Seq::new(
                i as nat,
                |i: int| OwnershipClass::BorrowedView,
            ));
        }
        SemanticTables {
            type_of_expr,
            effects_of_expr: empty_rows(expr_count),
            effects_of_stmt: empty_rows(stmt_count),
            ownership_of_expr,
            ownership_of_var: DenseMap::new(),
            ownership_of_type: Vec::new(),
            persistability_of_type: Vec::new(),
            effect_properties: HashMap::new(),
        }
    }
}

// ---------------------------------------------------------------------------
// Monomorphization
// ---------------------------------------------------------------------------

/// Which functions each source function became.
#[derive(Debug)]
pub struct MonomorphizationSummary {
    pub source_to_mono: DenseMap<Vec<FuncId>>,
}

/// The identifiers that a list of functions has after they have moved: those
/// that were kept, ascending, each once.
pub open spec fn moved_list(
    remap: Seq<Option<FuncId>>,
    before: Seq<FuncId>,
    after: Seq<FuncId>,
) -> bool {
    &&& forall|i: int, j: int|
        0 <= i < j < after.len() ==> (#[trigger] after[i]).0 < (#[trigger] after[j]).0
    &&& forall|x: FuncId| #[trigger]
        after.contains(x) <==> exists|i: int|
            0 <= i < before.len() && crate::pipeline::reason::remapped(
                remap,
                #[trigger] before[i],
            ) == Some(x)
}

/// Whether some entry of the first ones of a table comes to stand at a
/// position, with the given list.
pub open spec fn moved_entry(
    remap: Seq<Option<FuncId>>,
    before: Map<usize, Vec<FuncId>>,
    first: int,
    target: usize,
    list: Seq<FuncId>,
) -> bool {
    exists|source: usize| #[trigger]
        before.contains_key(source) && source < first && crate::pipeline::reason::remapped(
            remap,
            FuncId(source),
        ) == Some(FuncId(target)) && list.len() > 0 && moved_list(remap, before[source]@, list)
}

/// Whether some entry of the first ones of a table comes to stand at a
/// position with anything in its list.
pub open spec fn moved_to(
    remap: Seq<Option<FuncId>>,
    before: Map<usize, Vec<FuncId>>,
    first: int,
    target: usize,
) -> bool {
    exists|source: usize, i: int| #![trigger before[source]@[i]]
        before.contains_key(source) && source < first && crate::pipeline::reason::remapped(
            remap,
            FuncId(source),
        ) == Some(FuncId(target)) && 0 <= i < before[source]@.len()
            && crate::pipeline::reason::remapped(remap, before[source]@[i]) is Some
}

fn remap_list(list: &Vec<FuncId>, remap: &[Option<FuncId>]) -> (mapped: Vec<FuncId>)
    ensures
        moved_list(remap@, list@, mapped@),
        mapped@.len() > 0 <==> exists|i: int|
            0 <= i < list@.len() && crate::pipeline::reason::remapped(
                remap@,
                #[trigger] list@[i],
            ) is Some,
{
    let mut found: Vec<usize> = Vec::new();
    let mut i: usize = 0;
    while i < list.len()
        invariant
            i <= list@.len(),
            crate::common::sorted::ascending(found@),
            forall|x: usize| #[trigger]
                found@.contains(x) <==> exists|j: int|
                    0 <= j < i && crate::pipeline::reason::remapped(remap@, #[trigger] list@[j])
                        == Some(FuncId(x)),
        decreases list@.len() - i,
    {
        let ghost before = found@;
        let target = remap_func_id(remap, list[i]);
        match target {
            Some(func) => {
                insert_sorted(&mut found, func.0);
            },
            None => {},
        }
        proof {
            assert forall|x: usize| #[trigger] found@.contains(x) <==> exists|j: int|
                0 <= j < i + 1 && crate::pipeline::reason::remapped(remap@, #[trigger] list@[j])
                    == Some(FuncId(x)) by {
                if found@.contains(x) {
                    if before.contains(x) {
                        let j = choose|j: int|
                            0 <= j < i && crate::pipeline::reason::remapped(
                                remap@,
                                #[trigger] list@[j],
                            ) == Some(FuncId(x));
                        assert(crate::pipeline::reason::remapped(remap@, list@[j]) == Some(
                            FuncId(x),
                        ));
                    } else {
                        assert(crate::pipeline::reason::remapped(remap@, list@[i as int]) == Some(
                            FuncId(x),
                        ));
                    }
                }
                if exists|j: int|
                    0 <= j < i + 1 && crate::pipeline::reason::remapped(
                        remap@,
                        #[trigger] list@[j],
                    ) == Some(FuncId(x)) {
                    let j = choose|j: int|
                        0 <= j < i + 1 && crate::pipeline::reason::remapped(
                            remap@,
                            #[trigger] list@[j],
                        ) == Some(FuncId(x));
                    if j < i {
                        assert(before.contains(x));
                    }
                }
            }
        }
        i += 1;
    }
    let mut mapped: Vec<FuncId> = Vec::new();
    let mut k: usize = 0;
    while k < found.len()
        invariant
            k <= found@.len(),
            mapped@.len() == k,
            forall|j: int| 0 <= j < k ==> (#[trigger] mapped@[j]).0 == found@[j],
        decreases found@.len() - k,
    {
        mapped.push(FuncId::new(found[k]));
        k += 1;
    }
    proof {
        assert forall|x: FuncId| #[trigger] mapped@.contains(x) <==> found@.contains(x.0) by {
            if mapped@.contains(x) {
                let j = choose|j: int| 0 <= j < mapped@.len() && mapped@[j] == x;
                assert(found@[j] == x.0);
            }
            if found@.contains(x.0) {
                let j = choose|j: int| 0 <= j < found@.len() && found@[j] == x.0;
                assert(mapped@[j] == x);
            }
        }
        assert forall|x: FuncId| #[trigger] mapped@.contains(x) <==> exists|i: int|
            0 <= i < list@.len() && crate::pipeline::reason::remapped(remap@, #[trigger] list@[i])
                == Some(x) by {
            assert(mapped@.contains(x) <==> found@.contains(x.0));
            assert(x == FuncId(x.0));
        }
        if mapped@.len() > 0 {
            assert(mapped@.contains(mapped@[0]));
        }
        if exists|i: int|
            0 <= i < list@.len() && crate::pipeline::reason::remapped(
                remap@,
                #[trigger] list@[i],
            ) is Some {
            let i = choose|i: int|
                0 <= i < list@.len() && crate::pipeline::reason::remapped(
                    remap@,
                    #[trigger] list@[i],
                ) is Some;
            let x = crate::pipeline::reason::remapped(remap@, list@[i])->0;
            assert(mapped@.contains(x));
        }
    }
    mapped
}

impl MonomorphizationSummary {
    /// Follows functions to where they have moved. Where two sources come to
    /// stand at one place, one of them stays.
    pub fn remap_func_ids(&mut self, remap: &[Option<FuncId>])
        ensures
            forall|target: usize| #[trigger]
                final(self).source_to_mono@.contains_key(target) <==> moved_to(
                    remap@,
                    old(self).source_to_mono@,
                    crate::common::reach::position_count() as int,
                    target,
                ),
            forall|target: usize| #[trigger]
                final(self).source_to_mono@.contains_key(target) ==> moved_entry(
                    remap@,
                    old(self).source_to_mono@,
                    crate::common::reach::position_count() as int,
                    target,
                    final(self).source_to_mono@[target]@,
                ),
    {
        let mut fresh: DenseMap<Vec<FuncId>> = DenseMap::new();
        let bound = self.source_to_mono.bound();
        let ghost before = self.source_to_mono@;
        let mut i: usize = 0;
        while i < bound
            invariant
                i <= bound,
                before == self.source_to_mono@,
                *self == *old(self),
                bound == self.source_to_mono.slots@.len(),
                forall|target: usize| #[trigger]
                    fresh@.contains_key(target) <==> moved_to(remap@, before, i as int, target),
                forall|target: usize| #[trigger]
                    fresh@.contains_key(target) ==> moved_entry(
                        remap@,
                        before,
                        i as int,
                        target,
                        fresh@[target]@,
                    ),
            decreases bound - i,
        {
            let ghost earlier = fresh@;
            match (self.source_to_mono.get(i), remap_func_id(remap, FuncId::new(i))) {
                (Some(monos), Some(source)) => {
                    let mapped = remap_list(monos, remap);
                    if mapped.len() > 0 {
                        let ghost list = mapped@;
                        fresh.insert(source.0, mapped);
                        assert(moved_entry(remap@, before, i as int + 1, source.0, list)) by {
                            assert(before.contains_key(i));
                        }
                    }
                },
                _ => {},
            }
            proof {
                assert forall|target: usize| #[trigger] fresh@.contains_key(target) <==> moved_to(
                    remap@,
                    before,
                    i as int + 1,
                    target,
                ) by {
                    if fresh@.contains_key(target) {
                        if earlier.contains_key(target) {
                            let (s, k) = choose|s: usize, k: int| #![trigger before[s]@[k]]
                                before.contains_key(s) && s < i
                                    && crate::pipeline::reason::remapped(remap@, FuncId(s))
                                    == Some(FuncId(target)) && 0 <= k < before[s]@.len()
                                    && crate::pipeline::reason::remapped(
                                    remap@,
                                    before[s]@[k],
                                ) is Some;
                            assert(crate::pipeline::reason::remapped(
                                remap@,
                                before[s]@[k],
                            ) is Some);
                        } else {
                            let k = choose|k: int|
                                0 <= k < before[i]@.len() && crate::pipeline::reason::remapped(
                                    remap@,
                                    #[trigger] before[i]@[k],
                                ) is Some;
                            assert(crate::pipeline::reason::remapped(
                                remap@,
                                before[i]@[k],
                            ) is Some);
                        }
                    }
                    if moved_to(remap@, before, i as int + 1, target) {
                        let (s, k) = choose|s: usize, k: int| #![trigger before[s]@[k]]
                            before.contains_key(s) && s < i + 1
                                && crate::pipeline::reason::remapped(remap@, FuncId(s)) == Some(
                                FuncId(target),
                            ) && 0 <= k < before[s]@.len() && crate::pipeline::reason::remapped(
                                remap@,
                                before[s]@[k],
                            ) is Some;
                        if s < i {
                            assert(moved_to(remap@, before, i as int, target));
                        }
                    }
                }
                assert forall|target: usize| #[trigger]
                    fresh@.contains_key(target) implies moved_entry(
                    remap@,
                    before,
                    i as int + 1,
                    target,
                    fresh@[target]@,
                ) by {
                    if earlier.contains_key(target) && fresh@[target] == earlier[target] {
                        assert(moved_entry(remap@, before, i as int, target, earlier[target]@));
                    }
                }
            }
            i += 1;
        }
        self.source_to_mono = fresh;
        proof {
            assert forall|target: usize| moved_to(remap@, before, crate::common::reach::position_count() as int, target)
                implies moved_to(remap@, before, bound as int, target) by {
                let (s, k) = choose|s: usize, k: int| #![trigger before[s]@[k]]
                    before.contains_key(s) && s < crate::common::reach::position_count() as int
                        && crate::pipeline::reason::remapped(remap@, FuncId(s)) == Some(
                        FuncId(target),
                    ) && 0 <= k < before[s]@.len() && crate::pipeline::reason::remapped(
                        remap@,
                        before[s]@[k],
                    ) is Some;
                assert(s < bound);
            }
        }
    }
}

// ---------------------------------------------------------------------------
// Evaluation at compile time
// ---------------------------------------------------------------------------

/// A file that a compilation read, with the hash of what it held.
#[derive(Debug)]
pub struct CtFileDep {
    pub path: String,
    pub content_hash: String,
}

#[verifier::ext_equal]
pub struct FileDepModel {
    pub path: Seq<char>,
    pub content_hash: Seq<char>,
}

impl View for CtFileDep {
    type V = FileDepModel;

    open spec fn view(&self) -> FileDepModel {
        FileDepModel { path: self.path@, content_hash: self.content_hash@ }
    }
}

impl Clone for CtFileDep {
    fn clone(&self) -> (copy: Self)
        ensures
            copy@ == self@,
    {
        CtFileDep { path: self.path.clone(), content_hash: self.content_hash.clone() }
    }
}

/// What results found at compile time depend on besides the source.
#[derive(Debug)]
pub struct CtCacheKey {
    pub target_word_size_bits: u8,
    pub target_endianness: String,
    pub target_pointer_alignment: u8,
    pub evaluator_policy: String,
    pub compiler_version: String,
}

#[verifier::ext_equal]
pub struct CacheKeyModel {
    pub target_word_size_bits: u8,
    pub target_endianness: Seq<char>,
    pub target_pointer_alignment: u8,
    pub evaluator_policy: Seq<char>,
    pub compiler_version: Seq<char>,
}

impl View for CtCacheKey {
    type V = CacheKeyModel;

    open spec fn view(&self) -> CacheKeyModel {
        CacheKeyModel {
            target_word_size_bits: self.target_word_size_bits,
            target_endianness: self.target_endianness@,
            target_pointer_alignment: self.target_pointer_alignment,
            evaluator_policy: self.evaluator_policy@,
            compiler_version: self.compiler_version@,
        }
    }
}

impl Clone for CtCacheKey {
    fn clone(&self) -> (copy: Self)
        ensures
            copy@ == self@,
    {
        CtCacheKey {
            target_word_size_bits: self.target_word_size_bits,
            target_endianness: self.target_endianness.clone(),
            target_pointer_alignment: self.target_pointer_alignment,
            evaluator_policy: self.evaluator_policy.clone(),
            compiler_version: self.compiler_version.clone(),
        }
    }
}

/// The version of this compiler.
pub open spec fn compiler_version() -> Seq<char> {
    "0.1.0"@
}

/// How the evaluator computes: a change of it changes results.
pub open spec fn evaluator_policy() -> Seq<char> {
    "v1-int-wrap-litnorm"@
}

impl Default for CtCacheKey {
    fn default() -> (key: Self)
        ensures
            key@ == (CacheKeyModel {
                target_word_size_bits: 64,
                target_endianness: "little"@,
                target_pointer_alignment: 8,
                evaluator_policy: evaluator_policy(),
                compiler_version: compiler_version(),
            }),
    {
        CtCacheKey {
            target_word_size_bits: 64,
            target_endianness: "little".to_owned(),
            target_pointer_alignment: 8,
            evaluator_policy: "v1-int-wrap-litnorm".to_owned(),
            compiler_version: "0.1.0".to_owned(),
        }
    }
}

#[derive(Clone, Copy, PartialEq, Eq, Debug, Default, Structural)]
pub struct CtEvalStats {
    pub iterations: u32,
    pub eval_attempts: u32,
    pub cache_hits: u32,
    pub cache_inserts: u32,
    pub folded_literals: u32,
    pub folded_unary: u32,
    pub folded_binary: u32,
    pub folded_float_host: u32,
    pub miss_missing_inputs: u32,
    pub miss_unsupported: u32,
}

#[derive(Clone, Copy, PartialEq, Eq, Debug, Default, Structural)]
pub struct ResidualizeStats {
    pub embedded_literals: u32,
    pub pruned_if_branches: u32,
    pub pruned_match_branches: u32,
}

#[derive(Clone, Copy, PartialEq, Eq, Debug, Default, Structural)]
pub struct SpecializationStats {
    pub candidates_seen: u32,
    pub created: u32,
    pub reused_existing: u32,
    pub rewrites: u32,
    pub skipped_varying_shapes: u32,
    pub skipped_limits: u32,
}

#[derive(Clone, Copy, PartialEq, Eq, Debug, Default, Structural)]
pub struct ArcStats {
    pub planned_retain_ops: u32,
    pub planned_release_ops: u32,
    pub eliminated_move_pairs: u32,
    pub removed_retain_ops: u32,
    pub removed_release_ops: u32,
    pub final_retain_ops: u32,
    pub final_release_ops: u32,
}

/// What evaluation at compile time found.
#[derive(Debug)]
pub struct CtPropagationTables {
    pub ct_cache: DenseMap<Literal>,
    pub branch_decisions: DenseMap<BranchDecision>,
    pub file_deps: Vec<CtFileDep>,
    pub cache_key: CtCacheKey,
    pub eval_stats: CtEvalStats,
}

// ---------------------------------------------------------------------------
// Binding times
// ---------------------------------------------------------------------------

#[derive(Debug)]
pub struct BtaTables {
    pub stage_of_expr: DenseMap<Stage>,
    pub stage_of_var: DenseMap<Stage>,
    pub knownness_of_expr: DenseMap<Knownness>,
    pub handler_discharge: DenseMap<HandlerDischarge>,
    pub clause_discharge: DenseMap<Vec<ClauseDischarge>>,
}

impl HandlerDischarge {
    pub open spec fn moved(self, remap: Seq<Option<FuncId>>) -> Self {
        HandlerDischarge {
            reason: match self.reason {
                Some(reason) => Some(reason.moved(remap)),
                None => None,
            },
            ..self
        }
    }
}

impl ClauseDischarge {
    pub open spec fn moved(self, remap: Seq<Option<FuncId>>) -> Self {
        ClauseDischarge {
            reason: match self.reason {
                Some(reason) => Some(reason.moved(remap)),
                None => None,
            },
            ..self
        }
    }
}

fn remap_stages(stages: &mut DenseMap<Stage>, remap: &[Option<FuncId>])
    ensures
        final(stages)@ == old(stages)@.map_values(|stage: Stage| stage.moved(remap@)),
{
    let mut i: usize = 0;
    while i < stages.slots.len()
        invariant
            i <= stages.slots@.len(),
            stages.slots@.len() == old(stages).slots@.len(),
            forall|k: int|
                i <= k < stages.slots@.len() ==> #[trigger] stages.slots@[k] == old(
                    stages,
                ).slots@[k],
            forall|k: int|
                0 <= k < i ==> (match old(stages).slots@[k] {
                    Some(stage) => #[trigger] stages.slots@[k] == Some(stage.moved(remap@)),
                    None => stages.slots@[k] is None,
                }),
        decreases stages.slots@.len() - i,
    {
        match stages.slots[i] {
            Some(stage) => {
                stages.slots[i] = Some(remap_stage_reason(stage, remap));
            },
            None => {},
        }
        i += 1;
    }
    proof {
        let want = old(stages)@.map_values(|stage: Stage| stage.moved(remap@));
        assert forall|k: usize| stages@.contains_key(k) == want.contains_key(k) by {
            if k < stages.slots@.len() {
                assert(stages.slots@[k as int] is Some == old(stages).slots@[k as int] is Some);
            }
        }
        assert(stages@ =~= want);
    }
}

fn remap_handlers(table: &mut DenseMap<HandlerDischarge>, remap: &[Option<FuncId>])
    ensures
        final(table)@ == old(table)@.map_values(|d: HandlerDischarge| d.moved(remap@)),
{
    let mut i: usize = 0;
    while i < table.slots.len()
        invariant
            i <= table.slots@.len(),
            table.slots@.len() == old(table).slots@.len(),
            forall|k: int|
                i <= k < table.slots@.len() ==> #[trigger] table.slots@[k] == old(
                    table,
                ).slots@[k],
            forall|k: int|
                0 <= k < i ==> (match old(table).slots@[k] {
                    Some(d) => #[trigger] table.slots@[k] == Some(d.moved(remap@)),
                    None => table.slots@[k] is None,
                }),
        decreases table.slots@.len() - i,
    {
        match table.slots[i] {
            Some(discharge) => match discharge.reason {
                Some(reason) => {
                    table.slots[i] = Some(
                        HandlerDischarge {
                            dischargeable: discharge.dischargeable,
                            reason: Some(reason.remap_func_ids(remap)),
                        },
                    );
                },
                None => {},
            },
            None => {},
        }
        i += 1;
    }
    proof {
        let want = old(table)@.map_values(|d: HandlerDischarge| d.moved(remap@));
        assert forall|k: usize| table@.contains_key(k) == want.contains_key(k) by {
            if k < table.slots@.len() {
                assert(table.slots@[k as int] is Some == old(table).slots@[k as int] is Some);
            }
        }
        assert(table@ =~= want);
    }
}

fn remap_clauses(clauses: &Vec<ClauseDischarge>, remap: &[Option<FuncId>]) -> (moved: Vec<
    ClauseDischarge,
>)
    ensures
        moved@ == clauses@.map_values(|c: ClauseDischarge| c.moved(remap@)),
{
    let mut moved: Vec<ClauseDischarge> = Vec::new();
    let mut i: usize = 0;
    while i < clauses.len()
        invariant
            i <= clauses@.len(),
            moved@.len() == i,
            forall|k: int| 0 <= k < i ==> #[trigger] moved@[k] == clauses@[k].moved(remap@),
        decreases clauses@.len() - i,
    {
        let clause = clauses[i];
        moved.push(
            ClauseDischarge {
                dischargeable: clause.dischargeable,
                reason: match clause.reason {
                    Some(reason) => Some(reason.remap_func_ids(remap)),
                    None => None,
                },
            },
        );
        i += 1;
    }
    assert(moved@ =~= clauses@.map_values(|c: ClauseDischarge| c.moved(remap@)));
    moved
}

/// The clause entries after functions have moved.
pub open spec fn clauses_moved(
    remap: Seq<Option<FuncId>>,
    before: Map<usize, Vec<ClauseDischarge>>,
    after: Map<usize, Vec<ClauseDischarge>>,
) -> bool {
    &&& forall|k: usize| #[trigger] after.contains_key(k) <==> before.contains_key(k)
    &&& forall|k: usize| #[trigger]
        after.contains_key(k) ==> after[k]@ == before[k]@.map_values(
            |c: ClauseDischarge| c.moved(remap),
        )
}

impl BtaTables {
    /// Follows functions to where they have moved.
    pub fn remap_func_ids(&mut self, remap: &[Option<FuncId>])
        ensures
            final(self).stage_of_expr@ == old(self).stage_of_expr@.map_values(
                |stage: Stage| stage.moved(remap@),
            ),
            final(self).stage_of_var@ == old(self).stage_of_var@.map_values(
                |stage: Stage| stage.moved(remap@),
            ),
            final(self).knownness_of_expr == old(self).knownness_of_expr,
            final(self).handler_discharge@ == old(self).handler_discharge@.map_values(
                |d: HandlerDischarge| d.moved(remap@),
            ),
            clauses_moved(remap@, old(self).clause_discharge@, final(self).clause_discharge@),
    {
        remap_stages(&mut self.stage_of_expr, remap);
        remap_stages(&mut self.stage_of_var, remap);
        remap_handlers(&mut self.handler_discharge, remap);
        let mut fresh: DenseMap<Vec<ClauseDischarge>> = DenseMap::new();
        let bound = self.clause_discharge.bound();
        let ghost before = self.clause_discharge@;
        let mut i: usize = 0;
        while i < bound
            invariant
                i <= bound,
                before == self.clause_discharge@,
                bound == self.clause_discharge.slots@.len(),
                forall|k: usize| #[trigger]
                    fresh@.contains_key(k) <==> before.contains_key(k) && k < i,
                forall|k: usize| #[trigger]
                    fresh@.contains_key(k) ==> fresh@[k]@ == before[k]@.map_values(
                        |c: ClauseDischarge| c.moved(remap@),
                    ),
            decreases bound - i,
        {
            match self.clause_discharge.get(i) {
                Some(clauses) => {
                    let moved = remap_clauses(clauses, remap);
                    fresh.insert(i, moved);
                },
                None => {},
            }
            i += 1;
        }
        self.clause_discharge = fresh;
    }
}

// ---------------------------------------------------------------------------
// Constants
// ---------------------------------------------------------------------------

/// Whether the bits of a binary64 number stand for a finite number: its
/// exponent field is not all ones.
pub open spec fn finite_bits(bits: u64) -> bool {
    (bits / 4503599627370496) % 2048 != 2047
}

pub fn is_finite(bits: u64) -> (finite: bool)
    ensures
        finite == finite_bits(bits),
{
    (bits / 4503599627370496) % 2048 != 2047
}

#[derive(Clone, Copy, PartialEq, Eq, PartialOrd, Ord, Hash, Debug, Structural)]
pub enum ScalarLiteralKey {
    Bool(bool),
    Int(i64),
    Char(char),
    Float(u64),
}

impl ScalarLiteralKey {
    /// The key of a literal that is one machine value; a float that is not
    /// finite has none.
    pub fn from_literal(literal: &Literal) -> (key: Option<Self>)
        ensures
            key == (match *literal {
                Literal::Bool(value) => Some(ScalarLiteralKey::Bool(value)),
                Literal::Int(value) => Some(ScalarLiteralKey::Int(value)),
                Literal::Char(value) => Some(ScalarLiteralKey::Char(value)),
                Literal::Float(bits) => if finite_bits(bits) {
                    Some(ScalarLiteralKey::Float(bits))
                } else {
                    None
                },
                Literal::Unit | Literal::String(_) => None,
            }),
    {
        match literal {
            Literal::Bool(value) => Some(ScalarLiteralKey::Bool(*value)),
            Literal::Int(value) => Some(ScalarLiteralKey::Int(*value)),
            Literal::Char(value) => Some(ScalarLiteralKey::Char(*value)),
            Literal::Float(bits) => if is_finite(*bits) {
                Some(ScalarLiteralKey::Float(*bits))
            } else {
                None
            },
            Literal::Unit | Literal::String(_) => None,
        }
    }
}

#[derive(PartialEq, Eq, PartialOrd, Ord, Hash, Debug)]
pub enum CtorFieldKey {
    Unit,
    Bool(bool),
    Int(i64),
    Char(char),
    Float(u64),
    String(String),
    Ctor(Box<CtorLiteralKey>),
}

#[derive(PartialEq, Eq, PartialOrd, Ord, Hash, Debug)]
pub struct CtorLiteralKey {
    pub ty: SymbolId,
    pub variant: SymbolId,
    pub fields: Vec<CtorFieldKey>,
}

#[derive(PartialEq, Eq, PartialOrd, Ord, Hash, Debug)]
pub enum ConstantKey {
    Scalar(ScalarLiteralKey),
    String(String),
    Ctor(CtorLiteralKey),
}

/// Whether a field key is that of a literal.
pub open spec fn field_key_of(literal: Literal, key: Option<CtorFieldKey>) -> bool {
    match literal {
        Literal::Unit => key == Some(CtorFieldKey::Unit),
        Literal::Bool(value) => key == Some(CtorFieldKey::Bool(value)),
        Literal::Int(value) => key == Some(CtorFieldKey::Int(value)),
        Literal::Char(value) => key == Some(CtorFieldKey::Char(value)),
        Literal::Float(bits) => if finite_bits(bits) {
            key == Some(CtorFieldKey::Float(bits))
        } else {
            key is None
        },
        Literal::String(value) => {
            &&& key matches Some(CtorFieldKey::String(text))
            &&& text@ == value@
        },
    }
}

impl CtorFieldKey {
    /// The key of a literal as a field; a float that is not finite has none.
    pub fn from_literal(literal: &Literal) -> (key: Option<Self>)
        ensures
            field_key_of(*literal, key),
    {
        match literal {
            Literal::Unit => Some(CtorFieldKey::Unit),
            Literal::Bool(value) => Some(CtorFieldKey::Bool(*value)),
            Literal::Int(value) => Some(CtorFieldKey::Int(*value)),
            Literal::Char(value) => Some(CtorFieldKey::Char(*value)),
            Literal::Float(bits) => if is_finite(*bits) {
                Some(CtorFieldKey::Float(*bits))
            } else {
                None
            },
            Literal::String(value) => Some(CtorFieldKey::String(value.clone())),
        }
    }
}

/// Whether two field keys stand for the same value.
pub open spec fn same_field(a: CtorFieldKey, b: CtorFieldKey) -> bool
    decreases a,
{
    match (a, b) {
        (CtorFieldKey::Unit, CtorFieldKey::Unit) => true,
        (CtorFieldKey::Bool(x), CtorFieldKey::Bool(y)) => x == y,
        (CtorFieldKey::Int(x), CtorFieldKey::Int(y)) => x == y,
        (CtorFieldKey::Char(x), CtorFieldKey::Char(y)) => x == y,
        (CtorFieldKey::Float(x), CtorFieldKey::Float(y)) => x == y,
        (CtorFieldKey::String(x), CtorFieldKey::String(y)) => x@ == y@,
        (CtorFieldKey::Ctor(x), CtorFieldKey::Ctor(y)) => same_ctor(*x, *y),
        _ => false,
    }
}

/// Whether two constructor keys stand for the same value.
pub open spec fn same_ctor(a: CtorLiteralKey, b: CtorLiteralKey) -> bool
    decreases a,
{
    &&& a.ty == b.ty
    &&& a.variant == b.variant
    &&& a.fields@.len() == b.fields@.len()
    &&& forall|i: int|
        0 <= i < a.fields@.len() ==> same_field(#[trigger] a.fields@[i], b.fields@[i])
}

/// Whether two keys stand for the same constant.
pub open spec fn same_constant(a: ConstantKey, b: ConstantKey) -> bool {
    match (a, b) {
        (ConstantKey::Scalar(x), ConstantKey::Scalar(y)) => x == y,
        (ConstantKey::String(x), ConstantKey::String(y)) => x@ == y@,
        (ConstantKey::Ctor(x), ConstantKey::Ctor(y)) => same_ctor(x, y),
        _ => false,
    }
}

pub fn is_same_field(a: &CtorFieldKey, b: &CtorFieldKey) -> (same: bool)
    ensures
        same == same_field(*a, *b),
    decreases *a,
{
    match (a, b) {
        (CtorFieldKey::Unit, CtorFieldKey::Unit) => true,
        (CtorFieldKey::Bool(x), CtorFieldKey::Bool(y)) => *x == *y,
        (CtorFieldKey::Int(x), CtorFieldKey::Int(y)) => *x == *y,
        (CtorFieldKey::Char(x), CtorFieldKey::Char(y)) => *x == *y,
        (CtorFieldKey::Float(x), CtorFieldKey::Float(y)) => *x == *y,
        (CtorFieldKey::String(x), CtorFieldKey::String(y)) => x.eq(y),
        (CtorFieldKey::Ctor(x), CtorFieldKey::Ctor(y)) => is_same_ctor(x, y),
        _ => false,
    }
}

pub fn is_same_ctor(a: &CtorLiteralKey, b: &CtorLiteralKey) -> (same: bool)
    ensures
        same == same_ctor(*a, *b),
    decreases *a,
{
    if a.ty != b.ty || a.variant != b.variant || a.fields.len() != b.fields.len() {
        return false;
    }
    let mut i: usize = 0;
    while i < a.fields.len()
        invariant
            i <= a.fields@.len(),
            a.fields@.len() == b.fields@.len(),
            forall|j: int| 0 <= j < i ==> same_field(#[trigger] a.fields@[j], b.fields@[j]),
        decreases a.fields@.len() - i,
    {
        if !is_same_field(&a.fields[i], &b.fields[i]) {
            return false;
        }
        i += 1;
    }
    true
}

pub fn is_same_constant(a: &ConstantKey, b: &ConstantKey) -> (same: bool)
    ensures
        same == same_constant(*a, *b),
{
    match (a, b) {
        (ConstantKey::Scalar(x), ConstantKey::Scalar(y)) => *x == *y,
        (ConstantKey::String(x), ConstantKey::String(y)) => x.eq(y),
        (ConstantKey::Ctor(x), ConstantKey::Ctor(y)) => is_same_ctor(x, y),
        _ => false,
    }
}

#[derive(Clone, Copy, PartialEq, Eq, Debug, Structural)]
pub enum ConstantEmbedStrategy {
    StaticConst,
    Pooled,
}

#[derive(PartialEq, Eq, Debug)]
pub struct ConstantEntry {
    pub key: ConstantKey,
    pub strategy: ConstantEmbedStrategy,
    pub estimated_size_bytes: usize,
}

#[derive(Debug)]
pub struct ConstantTable {
    pub entries: Vec<ConstantEntry>,
    pub entry_cap_bytes: usize,
    pub unit_cap_bytes: usize,
    pub total_size_bytes: usize,
}

impl Default for ConstantTable {
    fn default() -> (table: Self)
        ensures
            table.entries@.len() == 0,
            table.entry_cap_bytes == 0,
            table.unit_cap_bytes == 0,
            table.total_size_bytes == 0,
    {
        ConstantTable {
            entries: Vec::new(),
            entry_cap_bytes: 0,
            unit_cap_bytes: 0,
            total_size_bytes: 0,
        }
    }
}

// ---------------------------------------------------------------------------
// What is left for run time
// ---------------------------------------------------------------------------

#[derive(Clone, Copy, PartialEq, Eq, Debug, Structural)]
pub enum ArcResidualOpKind {
    Retain { var: VarId },
    Release { var: VarId },
}

#[derive(Clone, Copy, PartialEq, Eq, Debug, Structural)]
pub struct ArcResidualOp {
    pub stmt: StmtId,
    pub kind: ArcResidualOpKind,
}

/// The reference-count operations that a program is to carry out.
#[derive(Clone, Debug)]
pub struct ArcResidualPlan {
    pub ops: Vec<ArcResidualOp>,
}

/// Where cycles of counted values may start, and what links them.
#[derive(Clone, Debug)]
pub struct OrcFoundation {
    pub candidate_root_count: u32,
    pub candidate_roots: Vec<VarId>,
    pub candidate_link_count: u32,
    pub candidate_links: Vec<(VarId, VarId)>,
}

#[derive(Clone, Copy, PartialEq, Eq, PartialOrd, Ord, Debug, Structural)]
pub enum BorrowHazardKind {
    AliasFanout,
    Projection,
    CallEscape,
}

#[derive(Clone, Copy, PartialEq, Eq, Debug, Structural)]
pub struct BorrowHotspot {
    pub stmt: StmtId,
    pub kind: BorrowHazardKind,
}

/// Where borrowed values need care.
#[derive(Clone, Debug)]
pub struct BorrowHazardReport {
    pub alias_fanout_count: u32,
    pub alias_fanout_sites: Vec<StmtId>,
    pub projection_count: u32,
    pub projection_sites: Vec<StmtId>,
    pub call_escape_count: u32,
    pub call_escape_sites: Vec<StmtId>,
    pub hotspots: Vec<BorrowHotspot>,
}

#[derive(Debug)]
pub struct ResidualTables {
    pub function_effect_summary: DenseMap<SortedEffectRow>,
    pub constant_table: ConstantTable,
    pub residualize_stats: ResidualizeStats,
    pub specialization_stats: SpecializationStats,
    pub arc_stats: ArcStats,
    pub arc_plan: ArcResidualPlan,
    pub orc_foundation: OrcFoundation,
    pub borrow_hazards: BorrowHazardReport,
}

impl ResidualTables {
    /// Nothing but a summary of the functions' effects has been recorded.
    pub open spec fn only_summary(self) -> bool {
        &&& self.constant_table.entries@.len() == 0
        &&& self.constant_table.entry_cap_bytes == 0
        &&& self.constant_table.unit_cap_bytes == 0
        &&& self.constant_table.total_size_bytes == 0
        &&& self.residualize_stats == (ResidualizeStats {
            embedded_literals: 0,
            pruned_if_branches: 0,
            pruned_match_branches: 0,
        })
        &&& self.specialization_stats == (SpecializationStats {
            candidates_seen: 0,
            created: 0,
            reused_existing: 0,
            rewrites: 0,
            skipped_varying_shapes: 0,
            skipped_limits: 0,
        })
        &&& self.arc_stats == (ArcStats {
            planned_retain_ops: 0,
            planned_release_ops: 0,
            eliminated_move_pairs: 0,
            removed_retain_ops: 0,
            removed_release_ops: 0,
            final_retain_ops: 0,
            final_release_ops: 0,
        })
        &&& self.arc_plan.ops@.len() == 0
        &&& self.orc_foundation.candidate_root_count == 0
        &&& self.orc_foundation.candidate_roots@.len() == 0
        &&& self.orc_foundation.candidate_link_count == 0
        &&& self.orc_foundation.candidate_links@.len() == 0
        &&& self.borrow_hazards.alias_fanout_count == 0
        &&& self.borrow_hazards.alias_fanout_sites@.len() == 0
        &&& self.borrow_hazards.projection_count == 0
        &&& self.borrow_hazards.projection_sites@.len() == 0
        &&& self.borrow_hazards.call_escape_count == 0
        &&& self.borrow_hazards.call_escape_sites@.len() == 0
        &&& self.borrow_hazards.hotspots@.len() == 0
    }

    /// Tables that hold the summary alone.
    pub fn from_summary(function_effect_summary: DenseMap<SortedEffectRow>) -> (tables: Self)
        ensures
            tables.function_effect_summary == function_effect_summary,
            tables.only_summary(),
    {
        ResidualTables {
            function_effect_summary,
            constant_table: ConstantTable::default(),
            residualize_stats: ResidualizeStats {
                embedded_literals: 0,
                pruned_if_branches: 0,
                pruned_match_branches: 0,
            },
            specialization_stats: SpecializationStats {
                candidates_seen: 0,
                created: 0,
                reused_existing: 0,
                rewrites: 0,
                skipped_varying_shapes: 0,
                skipped_limits: 0,
            },
            arc_stats: ArcStats {
                planned_retain_ops: 0,
                planned_release_ops: 0,
                eliminated_move_pairs: 0,
                removed_retain_ops: 0,
                removed_release_ops: 0,
                final_retain_ops: 0,
                final_release_ops: 0,
            },
            arc_plan: ArcResidualPlan { ops: Vec::new() },
            orc_foundation: OrcFoundation {
                candidate_root_count: 0,
                candidate_roots: Vec::new(),
                candidate_link_count: 0,
                candidate_links: Vec::new(),
            },
            borrow_hazards: BorrowHazardReport {
                alias_fanout_count: 0,
                alias_fanout_sites: Vec::new(),
                projection_count: 0,
                projection_sites: Vec::new(),
                call_escape_count: 0,
                call_escape_sites: Vec::new(),
                hotspots: Vec::new(),
            },
        }
    }
}

/// Whether a row of the first ones of a summary comes to stand at a position.
pub open spec fn summary_moved(
    remap: Seq<Option<FuncId>>,
    before: Map<usize, SortedEffectRow>,
    first: int,
    target: usize,
    row: Seq<crate::common::ids::EffectLabelId>,
) -> bool {
    exists|source: usize| #[trigger]
        before.contains_key(source) && source < first && crate::pipeline::reason::remapped(
            remap,
            FuncId(source),
        ) == Some(FuncId(target)) && before[source]@ == row
}

impl ResidualTables {
    /// Follows functions to where they have moved. Where two rows come to stand
    /// at one place, one of them stays.
    pub fn remap_func_ids(&mut self, remap: &[Option<FuncId>])
        ensures
            forall|target: usize, row: Seq<crate::common::ids::EffectLabelId>| #[trigger]
                summary_moved(
                    remap@,
                    old(self).function_effect_summary@,
                    crate::common::reach::position_count() as int,
                    target,
                    row,
                ) ==> final(self).function_effect_summary@.contains_key(target),
            forall|target: usize| #[trigger]
                final(self).function_effect_summary@.contains_key(target) ==> summary_moved(
                    remap@,
                    old(self).function_effect_summary@,
                    crate::common::reach::position_count() as int,
                    target,
                    final(self).function_effect_summary@[target]@,
                ),
            *final(self) == (ResidualTables {
                function_effect_summary: final(self).function_effect_summary,
                ..*old(self)
            }),
    {
        let mut fresh: DenseMap<SortedEffectRow> = DenseMap::new();
        let bound = self.function_effect_summary.bound();
        let ghost before = self.function_effect_summary@;
        let mut i: usize = 0;
        while i < bound
            invariant
                i <= bound,
                *self == *old(self),
                before == self.function_effect_summary@,
                bound == self.function_effect_summary.slots@.len(),
                forall|target: usize, row: Seq<crate::common::ids::EffectLabelId>| #[trigger]
                    summary_moved(remap@, before, i as int, target, row)
                        ==> fresh@.contains_key(target),
                forall|target: usize| #[trigger]
                    fresh@.contains_key(target) ==> summary_moved(
                        remap@,
                        before,
                        i as int,
                        target,
                        fresh@[target]@,
                    ),
            decreases bound - i,
        {
            let ghost earlier = fresh@;
            match (self.function_effect_summary.get(i), remap_func_id(remap, FuncId::new(i))) {
                (Some(row), Some(target)) => {
                    assert(before.contains_key(i));
                    assert(summary_moved(remap@, before, i as int + 1, target.0, row@));
                    fresh.insert(target.0, row.clone());
                },
                _ => {},
            }
            proof {
                assert forall|target: usize, row: Seq<crate::common::ids::EffectLabelId>|
                    #[trigger] summary_moved(
                    remap@,
                    before,
                    i as int + 1,
                    target,
                    row,
                ) implies fresh@.contains_key(target) by {
                    let s = choose|s: usize| #[trigger]
                        before.contains_key(s) && s < i + 1
                            && crate::pipeline::reason::remapped(remap@, FuncId(s)) == Some(
                            FuncId(target),
                        ) && before[s]@ == row;
                    if s < i {
                        assert(summary_moved(remap@, before, i as int, target, row));
                    }
                }
                assert forall|target: usize| #[trigger]
                    fresh@.contains_key(target) implies summary_moved(
                    remap@,
                    before,
                    i as int + 1,
                    target,
                    fresh@[target]@,
                ) by {
                    if earlier.contains_key(target) && fresh@[target] == earlier[target] {
                        assert(summary_moved(remap@, before, i as int, target, earlier[target]@));
                    }
                }
            }
            i += 1;
        }
        self.function_effect_summary = fresh;
        proof {
            assert forall|target: usize, row: Seq<crate::common::ids::EffectLabelId>| #[trigger]
                summary_moved(
                remap@,
                before,
                crate::common::reach::position_count() as int,
                target,
                row,
            ) implies fresh@.contains_key(target) by {
                let s = choose|s: usize| #[trigger]
                    before.contains_key(s) && crate::pipeline::reason::remapped(
                        remap@,
                        FuncId(s),
                    ) == Some(FuncId(target)) && before[s]@ == row;
                assert(s < bound);
                assert(summary_moved(remap@, before, bound as int, target, row));
            }
        }
    }
}

} // verus!
