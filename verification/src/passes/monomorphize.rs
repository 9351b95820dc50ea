//! Generic functions: there are none yet, so every function stands for itself.
use crate::common::densemap::DenseMap;
use crate::common::ids::FuncId;
use crate::pipeline::phases::{MonomorphizationSummary, Monomorphized, Typed};
use vstd::prelude::*;

verus! {

/// A table in which each of so many functions stands for itself alone.
pub open spec fn stands_for_itself(table: Map<usize, Vec<FuncId>>, count: nat) -> bool {
    &&& forall|f: usize| #[trigger] table.contains_key(f) <==> f < count
    &&& forall|f: usize| #[trigger] table.contains_key(f) ==> table[f]@ == seq![FuncId(f)]
}

/// Builds the table of functions; the program stays as it is.
pub fn run(typed: Typed) -> (out: Monomorphized)
    ensures
        out.program == typed.program,
        out.diagnostics == typed.diagnostics,
        out.sema == typed.sema,
        stands_for_itself(out.mono.source_to_mono@, typed.program@.functions.len()),
{
    let mut source_to_mono: DenseMap<Vec<FuncId>> = DenseMap::new();
    let count = typed.program.functions.len();
    let mut f: usize = 0;
    while f < count
        invariant
            f <= count,
            stands_for_itself(source_to_mono@, f as nat),
        decreases count - f,
    {
        let mut itself: Vec<FuncId> = Vec::new();
        itself.push(FuncId::new(f));
        assert(itself@ =~= seq![FuncId(f)]);
        source_to_mono.insert(f, itself);
        f += 1;
    }
    typed.into_monomorphized(MonomorphizationSummary { source_to_mono })
}

} // verus!
