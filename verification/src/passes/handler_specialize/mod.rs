//! Copies of functions for the handlers that they run under.
//!
//! A call that a handler is installed round, and nothing else, becomes a call
//! of a copy of the function that runs under that handler. A function and a
//! shape of handler make one copy at most, and functions that are never called
//! afterwards are left out.
use crate::common::ids::FuncId;
use crate::passes::function_graph::prune_unreachable_functions;
use crate::pipeline::phases::{
    BtaTables, HandlerDischarge, MonomorphizationSummary, ResidualTables, Residualized, Stage,
};
use vstd::prelude::*;

pub mod candidates;
pub mod cloner;
pub mod rewrite;
pub mod shape;
pub mod specialize;
pub mod varying;
pub mod wrapper;

verus! {

/// The instances after functions have moved.
pub open spec fn mono_moved(
    remap: Seq<Option<FuncId>>,
    before: MonomorphizationSummary,
    after: MonomorphizationSummary,
) -> bool {
    let a = before.source_to_mono@;
    let b = after.source_to_mono@;
    &&& forall|target: usize| #[trigger]
        b.contains_key(target) <==> crate::pipeline::tables::moved_to(
            remap,
            a,
            crate::common::reach::position_count() as int,
            target,
        )
    &&& forall|target: usize| #[trigger]
        b.contains_key(target) ==> crate::pipeline::tables::moved_entry(
            remap,
            a,
            crate::common::reach::position_count() as int,
            target,
            b[target]@,
        )
}

/// The binding times after functions have moved.
pub open spec fn bta_moved(
    remap: Seq<Option<FuncId>>,
    before: BtaTables,
    after: BtaTables,
) -> bool {
    &&& after.stage_of_expr@ == before.stage_of_expr@.map_values(
        |stage: Stage| stage.moved(remap),
    )
    &&& after.stage_of_var@ == before.stage_of_var@.map_values(|stage: Stage| stage.moved(remap))
    &&& after.knownness_of_expr == before.knownness_of_expr
    &&& after.handler_discharge@ == before.handler_discharge@.map_values(
        |d: HandlerDischarge| d.moved(remap),
    )
    &&& crate::pipeline::tables::clauses_moved(
        remap,
        before.clause_discharge@,
        after.clause_discharge@,
    )
}

/// The summary after functions have moved.
pub open spec fn summary_follows(
    remap: Seq<Option<FuncId>>,
    before: ResidualTables,
    after: ResidualTables,
) -> bool {
    let a = before.function_effect_summary@;
    let b = after.function_effect_summary@;
    &&& forall|target: usize, row: Seq<crate::common::ids::EffectLabelId>| #[trigger]
        crate::pipeline::tables::summary_moved(remap, a, crate::common::reach::position_count() as int, target, row)
            ==> b.contains_key(target)
    &&& forall|target: usize| #[trigger]
        b.contains_key(target) ==> crate::pipeline::tables::summary_moved(
            remap,
            a,
            crate::common::reach::position_count() as int,
            target,
            b[target]@,
        )
}

/// No table names a function that is not there, and no more copies or rewrites
/// are counted than candidates.
pub open spec fn remap_integrity(
    count: int,
    mono: MonomorphizationSummary,
    bta: BtaTables,
    residual: ResidualTables,
) -> bool {
    &&& crate::passes::comptime_check::keys_below(mono.source_to_mono@, count)
    &&& crate::passes::comptime_check::instances_below(mono.source_to_mono@, count)
    &&& crate::passes::comptime_check::stages_in_bounds(bta.stage_of_expr@, count)
    &&& crate::passes::comptime_check::stages_in_bounds(bta.stage_of_var@, count)
    &&& crate::passes::comptime_check::discharges_in_bounds(bta.handler_discharge@, count)
    &&& forall|k: usize, i: int| #![trigger bta.clause_discharge@[k]@[i]]
        bta.clause_discharge@.contains_key(k) && 0 <= i < bta.clause_discharge@[k]@.len()
            ==> crate::passes::comptime_check::optional_in_bounds(
            bta.clause_discharge@[k]@[i].reason,
            count,
        )
    &&& crate::passes::comptime_check::keys_below(residual.function_effect_summary@, count)
    &&& residual.specialization_stats.created <= residual.specialization_stats.candidates_seen
    &&& residual.specialization_stats.rewrites <= residual.specialization_stats.candidates_seen
}

/// A map that moves functions to places below a bound.
spec fn bounded(remap: Seq<Option<FuncId>>, count: int) -> bool {
    forall|f: FuncId| #[trigger]
        crate::pipeline::reason::remapped(remap, f) matches Some(g) ==> g.0 < count
}

/// Tables that have followed functions to places that exist name no function
/// that is not there.
proof fn lemma_integrity(
    remap: Seq<Option<FuncId>>,
    count: int,
    mono0: MonomorphizationSummary,
    mono: MonomorphizationSummary,
    bta0: BtaTables,
    bta: BtaTables,
    residual0: ResidualTables,
    residual: ResidualTables,
)
    requires
        bounded(remap, count),
        mono_moved(remap, mono0, mono),
        bta_moved(remap, bta0, bta),
        summary_follows(remap, residual0, residual),
        residual.specialization_stats.created <= residual.specialization_stats.candidates_seen,
        residual.specialization_stats.rewrites <= residual.specialization_stats.candidates_seen,
    ensures
        remap_integrity(count, mono, bta, residual),
{
    let b = mono.source_to_mono@;
    let a = mono0.source_to_mono@;
    assert forall|k: usize| #[trigger] b.contains_key(k) implies k < count by {
        let source = choose|source: usize| #[trigger]
            a.contains_key(source) && source < crate::common::reach::position_count() as int
                && crate::pipeline::reason::remapped(remap, FuncId(source)) == Some(FuncId(k))
                && b[k]@.len() > 0 && crate::pipeline::tables::moved_list(
                remap,
                a[source]@,
                b[k]@,
            );
        assert(crate::pipeline::reason::remapped(remap, FuncId(source)) is Some);
    }
    assert forall|k: usize, i: int| #![trigger b[k]@[i]]
        b.contains_key(k) && 0 <= i < b[k]@.len() implies b[k]@[i].0 < count by {
        let source = choose|source: usize| #[trigger]
            a.contains_key(source) && source < crate::common::reach::position_count() as int
                && crate::pipeline::reason::remapped(remap, FuncId(source)) == Some(FuncId(k))
                && b[k]@.len() > 0 && crate::pipeline::tables::moved_list(
                remap,
                a[source]@,
                b[k]@,
            );
        assert(b[k]@.contains(b[k]@[i]));
        let j = choose|j: int|
            0 <= j < a[source]@.len() && crate::pipeline::reason::remapped(
                remap,
                #[trigger] a[source]@[j],
            ) == Some(b[k]@[i]);
        assert(crate::pipeline::reason::remapped(remap, a[source]@[j]) is Some);
    }
    assert forall|k: usize| #[trigger]
        residual.function_effect_summary@.contains_key(k) implies k < count by {
        let rows = residual0.function_effect_summary@;
        let source = choose|source: usize| #[trigger]
            rows.contains_key(source) && source < crate::common::reach::position_count() as int
                && crate::pipeline::reason::remapped(remap, FuncId(source)) == Some(FuncId(k))
                && rows[source]@ == residual.function_effect_summary@[k]@;
        assert(crate::pipeline::reason::remapped(remap, FuncId(source)) is Some);
    }
    assert forall|k: usize| #[trigger]
        bta.handler_discharge@.contains_key(
            k,
        ) implies crate::passes::comptime_check::optional_in_bounds(
        bta.handler_discharge@[k].reason,
        count,
    ) by {
        assert(bta.handler_discharge@[k] == bta0.handler_discharge@[k].moved(remap));
    }
    assert forall|k: usize, i: int| #![trigger bta.clause_discharge@[k]@[i]]
        bta.clause_discharge@.contains_key(k) && 0 <= i
            < bta.clause_discharge@[k]@.len() implies crate::passes::comptime_check::optional_in_bounds(
        bta.clause_discharge@[k]@[i].reason, count) by {
        assert(bta.clause_discharge@[k]@[i] == bta0.clause_discharge@[k]@[i].moved(remap));
    }
    assert forall|k: usize| #[trigger]
        bta.stage_of_expr@.contains_key(
            k,
        ) implies crate::passes::comptime_check::optional_in_bounds(
        crate::passes::comptime_check::stage_reason(bta.stage_of_expr@[k]),
        count,
    ) by {
        assert(bta.stage_of_expr@[k] == bta0.stage_of_expr@[k].moved(remap));
    }
    assert forall|k: usize| #[trigger]
        bta.stage_of_var@.contains_key(
            k,
        ) implies crate::passes::comptime_check::optional_in_bounds(
        crate::passes::comptime_check::stage_reason(bta.stage_of_var@[k]),
        count,
    ) by {
        assert(bta.stage_of_var@[k] == bta0.stage_of_var@[k].moved(remap));
    }
}

/// What the pass does to everything: specialization, then leaving out the
/// functions that are never called, with every table following.
pub open spec fn specialized_to(
    before: Residualized,
    after: Residualized,
    end: specialize::SpecialModel,
) -> bool {
    let remap = crate::passes::function_graph::kept_map(end.program);
    &&& specialize::specializes(before.program@, before.bta, before.sema, end)
    &&& crate::passes::function_graph::is_pruned(end.program, after.program@)
    &&& after.diagnostics == before.diagnostics
    &&& after.sema == end.sema
    &&& mono_moved(remap, before.mono, after.mono)
    &&& after.ct == before.ct
    &&& bta_moved(remap, end.bta, after.bta)
    &&& summary_follows(remap, before.residual, after.residual)
    &&& after.residual == (ResidualTables {
        function_effect_summary: after.residual.function_effect_summary,
        specialization_stats: end.stats,
        ..before.residual
    })
}

/// Specializes a program, and leaves out the functions that are never called
/// afterwards.
pub fn run(residual: Residualized) -> (out: Residualized)
    requires
        residual.program@.acyclic(),
        residual.program@.closed(),
        cloner::tables_fit(residual.program@, residual.bta, residual.sema),
    ensures
        exists|end: specialize::SpecialModel| #[trigger] specialized_to(residual, out, end),
        out.program@.acyclic(),
        out.program@.closed(),
        remap_integrity(
            out.program@.functions.len() as int,
            out.mono,
            out.bta,
            out.residual,
        ),
{
    let ghost before = residual;
    let (program, diagnostics, sema, mono, ct, bta, tables) = residual.into_parts();
    let mut mono = mono;
    let mut tables = tables;
    let special = specialize::specialize_handle_wrapped_calls(program, bta, sema);
    let ghost end = special@;
    tables.specialization_stats = special.stats;
    let ghost tables0 = tables;
    let mut bta = special.bta;
    let sema = special.sema;
    let count: usize = special.program.functions.len();
    let (program, remap) = prune_unreachable_functions(special.program);
    mono.remap_func_ids(remap.as_slice());
    bta.remap_func_ids(remap.as_slice());
    tables.remap_func_ids(remap.as_slice());
    let out = Residualized::new(program, diagnostics, sema, mono, ct, bta, tables);
    proof {
        let kept = crate::passes::function_graph::kept_map(end.program);
        assert(end.program.functions.len() == count);
        assert forall|f: FuncId| #[trigger]
            crate::pipeline::reason::remapped(kept, f) matches Some(g) ==> g.0
                < out.program@.functions.len() by {
            if crate::pipeline::reason::remapped(kept, f) is Some {
                crate::passes::function_graph::lemma_kept_in_bounds(end.program, f);
            }
        }
        assert(bounded(kept, out.program@.functions.len() as int));
        lemma_integrity(
            kept,
            out.program@.functions.len() as int,
            before.mono,
            out.mono,
            end.bta,
            out.bta,
            tables0,
            out.residual,
        );
        crate::passes::function_graph::lemma_pruned_sound(end.program, out.program@);
        assert(summary_follows(kept, before.residual, out.residual)) by {
            assert forall|target: usize, row: Seq<crate::common::ids::EffectLabelId>| #[trigger]
                crate::pipeline::tables::summary_moved(
                    kept,
                    before.residual.function_effect_summary@,
                    crate::common::reach::position_count() as int,
                    target,
                    row,
                ) implies out.residual.function_effect_summary@.contains_key(target) by {
                assert(crate::pipeline::tables::summary_moved(
                    remap@,
                    tables0.function_effect_summary@,
                    crate::common::reach::position_count() as int,
                    target,
                    row,
                ));
            }
        }
        assert(specialized_to(before, out, end));
    }
    out
}

} // verus!
