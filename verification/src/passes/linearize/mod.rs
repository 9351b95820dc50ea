//! From the residual core program to the linear program.
use crate::ir::linear::LinearProgram;
use crate::pipeline::phases::Residualized;
use vstd::prelude::*;

pub mod analysis;
pub mod ending;
pub mod lowering;

verus! {

/// A residual program, with the linear program made from it.
#[derive(Debug)]
pub struct Linearized {
    pub residual: Residualized,
    pub linear: LinearProgram,
}

/// What lowering makes of a program, and what it reports.
pub open spec fn linearized(before: Residualized, out: Linearized) -> bool {
    exists|found: Seq<crate::common::ids::FuncId>, state: lowering::LinearState|
        {
            &&& #[trigger] state.program_at(before.program@, found)
            &&& lowering::is_reachable_list(before.program@, found)
            &&& state.holds(before.program@, before.sema.effect_properties@)
            &&& state.lin == out.linear@
            &&& state.reports == out.residual.diagnostics@
            &&& state.progress() == lowering::Progress::start(before.diagnostics@).after_functions(
                before.program@,
                found,
                found.len(),
            )
        }
}

/// Lowers a residual program; what is reported comes after what was reported
/// before.
pub fn run(residual: Residualized) -> (out: Linearized)
    requires
        residual.program@.acyclic(),
        residual.program@.closed(),
        lowering::program_ends(residual.program@),
    ensures
        linearized(residual, out),
        out.linear@.acyclic(),
        out.residual == (Residualized { diagnostics: out.residual.diagnostics, ..residual }),
{
    let ghost before = residual;
    let (program, diagnostics, sema, mono, ct, bta, tables) = residual.into_parts();
    let mut diagnostics = diagnostics;
    let linear = lowering::lower_program(&program, &sema.effect_properties, &mut diagnostics);
    let residual = Residualized::new(program, diagnostics, sema, mono, ct, bta, tables);
    let out = Linearized { residual, linear };
    proof {
        let (found, state) = choose|
            found: Seq<crate::common::ids::FuncId>,
            state: lowering::LinearState,
        |
            {
                &&& #[trigger] state.program_at(before.program@, found)
                &&& lowering::is_reachable_list(before.program@, found)
                &&& state.holds(before.program@, before.sema.effect_properties@)
                &&& state.lin == linear@
                &&& state.reports == diagnostics@
                &&& state.progress() == lowering::Progress::start(
                    before.diagnostics@,
                ).after_functions(before.program@, found, found.len())
            };
        assert(state.program_at(before.program@, found));
        assert(linearized(before, out));
        crate::ir::linear::lemma_bottom_up_acyclic(linear@);
    }
    out
}

/// Lowers a residual program where that comes to an end, and hands the program
/// back where it does not.
pub fn try_run(residual: Residualized) -> (out: Result<Linearized, Residualized>)
    requires
        residual.program@.acyclic(),
        residual.program@.closed(),
    ensures
        match out {
            Ok(out) => lowering::program_ends(residual.program@) && linearized(residual, out)
                && out.linear@.acyclic() && out.residual == (Residualized {
                diagnostics: out.residual.diagnostics,
                ..residual
            }),
            Err(back) => !lowering::program_ends(residual.program@) && back == residual,
        },
{
    let settled = ending::lowering_ends(&residual.program);
    if settled {
        Ok(run(residual))
    } else {
        Err(residual)
    }
}

} // verus!
