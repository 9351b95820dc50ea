//! What happens at compile time, in two stages: evaluation and classification,
//! then specialization of what is left.
use crate::ir::core_ir::BinaryOp;
use crate::passes::comptime_check::{
    check_evaluate_classify_invariants, check_residualize_specialize_invariants,
    InvariantViolation,
};
use crate::passes::ct_files::{collect_file_deps, FileRead};
use crate::passes::ct_propagate::QueryCache;
use crate::passes::{bta, ct_eval, handler_specialize, residualize};
use crate::pipeline::compiler::TargetSpec;
use crate::pipeline::ct_query_cache::CtQueryCacheSnapshot;
use crate::pipeline::phases::{BtaClassified, CtPropagated, Monomorphized, Residualized};
use vstd::prelude::*;

verus! {

/// What evaluation makes of a program: what is known, with calls run.
pub open spec fn evaluated<H: Fn(BinaryOp, u64, u64) -> u64>(
    mono: Monomorphized,
    target: TargetSpec,
    host: H,
    reads: Seq<FileRead>,
    query: QueryCache,
    ct: CtPropagated,
) -> bool {
    let machine = crate::passes::ct_propagate::machine_of(target, host);
    &&& ct.program == mono.program
    &&& ct.diagnostics == mono.diagnostics
    &&& ct.sema == mono.sema
    &&& ct.mono == mono.mono
    &&& crate::passes::ct_propagate::ct_model(ct.ct) == crate::passes::ct_eval::with_calls(
        machine,
        mono.program@,
        crate::passes::ct_propagate::found(
            machine,
            mono.program@,
            target,
            crate::passes::ct_files::deps_of(crate::common::views(reads)),
            crate::passes::ct_propagate::kept(query),
        ),
    )
}

/// What is to be kept after evaluation.
pub open spec fn kept_after<H: Fn(BinaryOp, u64, u64) -> u64>(
    mono: Monomorphized,
    target: TargetSpec,
    host: H,
    reads: Seq<FileRead>,
    query: QueryCache,
) -> Option<crate::pipeline::ct_query_cache::QuerySnapshotModel> {
    crate::passes::ct_propagate::to_keep(
        crate::passes::ct_propagate::machine_of(target, host),
        mono.program@,
        target,
        crate::passes::ct_files::deps_of(crate::common::views(reads)),
        query,
    )
}

/// What classification makes of an evaluated program.
pub open spec fn classified(ct: CtPropagated, out: BtaClassified) -> bool {
    let properties = ct.sema.effect_properties@;
    let cached = ct.ct.ct_cache@.dom();
    let stages = crate::passes::bta::staged(ct.program@, properties, cached);
    &&& out.program == ct.program
    &&& out.sema == ct.sema
    &&& out.mono == ct.mono
    &&& out.ct == ct.ct
    &&& out.bta.stage_of_expr@ == stages.exprs
    &&& out.bta.stage_of_var@ == stages.vars
    &&& out.bta.knownness_of_expr@.dom() == Set::<usize>::empty()
    &&& out.bta.handler_discharge@.dom() == Set::<usize>::empty()
    &&& out.bta.clause_discharge@.dom() == Set::<usize>::empty()
    &&& out.diagnostics@ == ct.diagnostics@ + crate::passes::bta::reports(
        ct.program@,
        properties,
        cached,
    )
}

/// What residualization makes of a classified program.
pub open spec fn residualized(bta: BtaClassified, out: Residualized) -> bool {
    &&& out.program@ == crate::passes::residualize::residual_program(
        bta.program@,
        bta.ct,
        bta.sema.effects_of_stmt@,
    )
    &&& out.diagnostics == bta.diagnostics
    &&& out.sema == bta.sema
    &&& out.mono == bta.mono
    &&& out.ct == bta.ct
    &&& out.bta == bta.bta
    &&& out.residual.only_summary()
    &&& forall|f: usize| #[trigger]
        out.residual.function_effect_summary@.contains_key(f) <==> out.program@.has_function(
            crate::common::ids::FuncId(f),
        )
    &&& forall|f: usize| #[trigger]
        out.residual.function_effect_summary@.contains_key(f)
            ==> out.residual.function_effect_summary@[f]@
            == crate::passes::residualize::summary_row(
            out.program@,
            bta.sema.effects_of_stmt@,
            crate::common::ids::FuncId(f),
        )
}

/// What specialization makes of a residual program.
pub open spec fn specialized(before: Residualized, out: Residualized) -> bool {
    exists|end: crate::passes::handler_specialize::specialize::SpecialModel| #[trigger]
        crate::passes::handler_specialize::specialized_to(before, out, end)
}

/// Evaluates a program, with the files that it reads.
pub fn evaluate<H: Fn(BinaryOp, u64, u64) -> u64>(
    mono: Monomorphized,
    target: TargetSpec,
    host: &H,
    reads: &Vec<FileRead>,
    query: QueryCache,
) -> (out: (CtPropagated, Option<CtQueryCacheSnapshot>))
    requires
        mono.program@.acyclic(),
        crate::passes::ct_common::answers(*host),
        crate::passes::ct_common::effects_declared(mono.program@),
    ensures
        evaluated(mono, target, *host, reads@, query, out.0),
        crate::passes::ct_propagate::snapshot_model(out.1) == kept_after(
            mono,
            target,
            *host,
            reads@,
            query,
        ),
{
    let file_deps = collect_file_deps(reads);
    ct_eval::run_with_query_cache(mono, target, host, file_deps, query)
}

/// The first stage: evaluates a program and assigns each expression to compile
/// time or to run time. What is wrong with the result, if anything is, comes in
/// its place; what is to be kept is handed back in any case.
pub fn evaluate_classify<H: Fn(BinaryOp, u64, u64) -> u64>(
    mono: Monomorphized,
    target: TargetSpec,
    host: &H,
    reads: &Vec<FileRead>,
    query: QueryCache,
) -> (out: (Result<BtaClassified, InvariantViolation>, Option<CtQueryCacheSnapshot>))
    requires
        mono.program@.acyclic(),
        crate::passes::ct_common::answers(*host),
        crate::passes::ct_common::effects_declared(mono.program@),
    ensures
        exists|ct: CtPropagated, c: BtaClassified|
            {
                &&& #[trigger] evaluated(mono, target, *host, reads@, query, ct)
                &&& #[trigger] classified(ct, c)
                &&& match out.0 {
                    Ok(done) => done == c && crate::passes::comptime_check::classified_outcome(
                        c,
                        None,
                    ),
                    Err(fault) => crate::passes::comptime_check::classified_outcome(
                        c,
                        Some(fault),
                    ),
                }
            },
        crate::passes::ct_propagate::snapshot_model(out.1) == kept_after(
            mono,
            target,
            *host,
            reads@,
            query,
        ),
{
    let ghost before = mono;
    let ghost asked = query;
    let (ct, snapshot) = evaluate(mono, target, host, reads, query);
    let ghost seen = ct;
    assert(evaluated(before, target, *host, reads@, asked, seen));
    let done = bta::run(ct);
    assert(classified(seen, done));
    match check_evaluate_classify_invariants(&done) {
        Some(fault) => (Err(fault), snapshot),
        None => (Ok(done), snapshot),
    }
}

/// What holds of a classified program that comes out of the first stage: there
/// is no cycle in it and nothing dangles, and no table says anything of an
/// expression or a statement that is not there.
pub open spec fn fit(c: BtaClassified) -> bool {
    &&& c.program@.acyclic()
    &&& c.program@.closed()
    &&& crate::passes::handler_specialize::cloner::tables_fit(c.program@, c.bta, c.sema)
}

/// Where nothing is wrong with a classified program, its tables fit.
pub proof fn lemma_sound_is_fit(c: BtaClassified)
    requires
        crate::passes::comptime_check::classified_outcome(c, None),
        c.program@.acyclic(),
        c.program@.closed(),
    ensures
        fit(c),
{
}

/// Leaves what happens at run time, and specializes it.
fn residualize_and_specialize(bta: BtaClassified) -> (out: Residualized)
    requires
        fit(bta),
    ensures
        exists|r: Residualized| #[trigger] residualized(bta, r) && specialized(r, out),
        out.program@.acyclic(),
        out.program@.closed(),
{
    let ghost before = bta;
    let _count: usize = bta.program.exprs.len();
    let residual = residualize::run(bta);
    let ghost middle = residual;
    proof {
        crate::passes::residualize::lemma_residual_acyclic(
            before.program@,
            before.ct,
            before.sema.effects_of_stmt@,
        );
        crate::passes::residualize::lemma_residual_closed(
            before.program@,
            before.ct,
            before.sema.effects_of_stmt@,
        );
    }
    let out = handler_specialize::run(residual);
    proof {
        assert(residualized(before, middle));
        assert(specialized(middle, out));
    }
    out
}

/// The second stage: leaves what happens at run time, and specializes functions
/// that are called under handlers. What is wrong with the result, if anything
/// is, comes in its place.
pub fn residualize_specialize(bta: BtaClassified) -> (out: Result<Residualized, InvariantViolation>)
    requires
        fit(bta),
    ensures
        exists|r: Residualized, s: Residualized|
            {
                &&& #[trigger] residualized(bta, r)
                &&& #[trigger] specialized(r, s)
                &&& s.program@.acyclic()
                &&& s.program@.closed()
                &&& match out {
                    Ok(done) => done == s && crate::passes::comptime_check::residual_outcome(
                        s,
                        None,
                    ),
                    Err(fault) => crate::passes::comptime_check::residual_outcome(
                        s,
                        Some(fault),
                    ),
                }
            },
{
    let ghost before = bta;
    let done = residualize_and_specialize(bta);
    proof {
        let r = choose|r: Residualized| #[trigger]
            residualized(before, r) && specialized(r, done);
        assert(residualized(before, r) && specialized(r, done));
    }
    match check_residualize_specialize_invariants(&done) {
        Some(fault) => Err(fault),
        None => Ok(done),
    }
}

} // verus!
