//! The end of the pipeline: the control-flow graph with its reference counts,
//! and the C text made from it.
use crate::ir::cfg::CfgProgram;
use crate::passes::cfg_lower::CfgLowered;
use crate::passes::cfg_verify::{self, LiveAfter};
use crate::passes::linearize::Linearized;
use crate::pipeline::phases::Residualized;
use crate::pipeline::tables::{ArcStats, ResidualTables};
use vstd::prelude::*;

verus! {

/// A compiled program.
#[derive(Debug)]
pub struct EmittedC {
    pub linearized: Linearized,
    pub cfg: CfgProgram,
    pub c_source: String,
}

/// A graph in which reference counts are kept: what it took, what is wrong with
/// its shape, and what is used after the end of each block.
#[derive(Debug)]
pub struct CountedCfg {
    pub cfg: CfgProgram,
    pub arc_stats: ArcStats,
    pub graph_errors: Vec<String>,
    pub live_after: LiveAfter,
}

/// Takes over a graph with reference counts, and the C text made from it. The
/// graph is checked if that is asked for, and what is wrong is reported.
pub fn run(
    lowered: CfgLowered,
    counted: CountedCfg,
    arc_verify_enabled: bool,
    c_source: String,
) -> (out: EmittedC)
    ensures
        out.cfg == counted.cfg,
        out.c_source@ == c_source@,
        out.linearized.linear == lowered.linearized.linear,
        out.linearized.residual == (Residualized {
            residual: (ResidualTables {
                arc_stats: counted.arc_stats,
                ..lowered.linearized.residual.residual
            }),
            diagnostics: out.linearized.residual.diagnostics,
            ..lowered.linearized.residual
        }),
        out.linearized.residual.diagnostics@ == if arc_verify_enabled {
            lowered.linearized.residual.diagnostics@ + crate::passes::cfg_verify::graph_reports(
                crate::common::views(counted.graph_errors@),
            ) + crate::passes::cfg_verify::all_reports(
                counted.cfg@,
                counted.live_after@,
                counted.cfg@.blocks.len() as int,
            )
        } else {
            lowered.linearized.residual.diagnostics@
        },
{
    let Linearized { residual, linear } = lowered.linearized;
    let (program, diagnostics, sema, mono, ct, bta, tables) = residual.into_parts();
    let mut diagnostics = diagnostics;
    let mut tables = tables;
    tables.arc_stats = counted.arc_stats;
    if arc_verify_enabled {
        let _ = cfg_verify::verify(
            &counted.cfg,
            &sema,
            &counted.graph_errors,
            &counted.live_after,
            &mut diagnostics,
        );
    }
    let residual = Residualized::new(program, diagnostics, sema, mono, ct, bta, tables);
    EmittedC { linearized: Linearized { residual, linear }, cfg: counted.cfg, c_source }
}

} // verus!
