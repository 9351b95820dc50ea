//! What each phase of the compiler hands to the next.
use crate::common::diagnostics::DiagnosticBag;
use crate::frontend::ast::Program as AstProgram;
use crate::ir::core_ir::CoreProgram;
use vstd::prelude::*;

pub use crate::pipeline::reason::{Reason, Stage};
pub use crate::pipeline::tables::{
    ArcResidualOp, ArcResidualOpKind, ArcResidualPlan, ArcStats, BorrowHazardKind,
    BorrowHazardReport, BorrowHotspot, BranchDecision, BtaTables, ClauseDischarge,
    ConstantEmbedStrategy, ConstantEntry, ConstantKey, ConstantTable, CtCacheKey, CtEvalStats,
    CtFileDep, CtPropagationTables, CtorFieldKey, CtorLiteralKey, HandlerDischarge, Knownness,
    MonomorphizationSummary, OrcFoundation, ResidualTables, ResidualizeStats, ScalarLiteralKey,
    SemanticTables, SpecializationStats,
};

verus! {

/// A source that has been parsed.
#[derive(Debug)]
pub struct Parsed {
    pub ast: AstProgram,
    pub diagnostics: DiagnosticBag,
}

impl Parsed {
    pub fn new(
        ast: AstProgram,
        diagnostics: DiagnosticBag,
    ) -> (state: Self)
        ensures
            state == (Parsed { ast, diagnostics }),
    {
        Parsed { ast, diagnostics }
    }

    pub fn ast(&self) -> (part: &AstProgram)
        ensures
            *part == self.ast,
    {
        &self.ast
    }

    pub fn diagnostics(&self) -> (part: &DiagnosticBag)
        ensures
            *part == self.diagnostics,
    {
        &self.diagnostics
    }

    /// The lowered program, with the diagnostics of lowering after those of
    /// parsing.
    pub fn into_core_built(
        self,
        program: CoreProgram,
        extra_diagnostics: DiagnosticBag,
    ) -> (built: CoreBuilt)
        ensures
            built.program == program,
            built.diagnostics@ == self.diagnostics@ + extra_diagnostics@,
    {
        let mut diagnostics = self.diagnostics;
        diagnostics.extend(extra_diagnostics);
        CoreBuilt::new(program, diagnostics)
    }
}

/// A source that has been lowered to a core program.
#[derive(Debug)]
pub struct CoreBuilt {
    pub program: CoreProgram,
    pub diagnostics: DiagnosticBag,
}

impl CoreBuilt {
    pub fn new(
        program: CoreProgram,
        diagnostics: DiagnosticBag,
    ) -> (state: Self)
        ensures
            state == (CoreBuilt { program, diagnostics }),
    {
        CoreBuilt { program, diagnostics }
    }

    pub fn program(&self) -> (part: &CoreProgram)
        ensures
            *part == self.program,
    {
        &self.program
    }

    pub fn diagnostics(&self) -> (part: &DiagnosticBag)
        ensures
            *part == self.diagnostics,
    {
        &self.diagnostics
    }

    pub(crate) fn into_parts(self) -> (parts: (
        CoreProgram,
        DiagnosticBag,
    ))
        ensures
            parts == (self.program, self.diagnostics),
    {
        (self.program, self.diagnostics)
    }

    pub fn into_typed(self, sema: SemanticTables) -> (next: Typed)
        ensures
            next == (Typed {
                program: self.program,
                diagnostics: self.diagnostics,
                sema,
            }),
    {
        let (program, diagnostics) = self.into_parts();
        Typed::new(program, diagnostics, sema)
    }
}

/// A core program with what the type checker found.
#[derive(Debug)]
pub struct Typed {
    pub program: CoreProgram,
    pub diagnostics: DiagnosticBag,
    pub sema: SemanticTables,
}

impl Typed {
    pub fn new(
        program: CoreProgram,
        diagnostics: DiagnosticBag,
        sema: SemanticTables,
    ) -> (state: Self)
        ensures
            state == (Typed { program, diagnostics, sema }),
    {
        Typed { program, diagnostics, sema }
    }

    pub fn program(&self) -> (part: &CoreProgram)
        ensures
            *part == self.program,
    {
        &self.program
    }

    pub fn diagnostics(&self) -> (part: &DiagnosticBag)
        ensures
            *part == self.diagnostics,
    {
        &self.diagnostics
    }

    pub fn sema(&self) -> (part: &SemanticTables)
        ensures
            *part == self.sema,
    {
        &self.sema
    }

    pub(crate) fn into_parts(self) -> (parts: (
        CoreProgram,
        DiagnosticBag,
        SemanticTables,
    ))
        ensures
            parts == (self.program, self.diagnostics, self.sema),
    {
        (self.program, self.diagnostics, self.sema)
    }

    pub fn into_monomorphized(self, mono: MonomorphizationSummary) -> (next: Monomorphized)
        ensures
            next == (Monomorphized {
                program: self.program,
                diagnostics: self.diagnostics,
                sema: self.sema,
                mono,
            }),
    {
        let (program, diagnostics, sema) = self.into_parts();
        Monomorphized::new(program, diagnostics, sema, mono)
    }
}

/// A core program without generic functions.
#[derive(Debug)]
pub struct Monomorphized {
    pub program: CoreProgram,
    pub diagnostics: DiagnosticBag,
    pub sema: SemanticTables,
    pub mono: MonomorphizationSummary,
}

impl Monomorphized {
    pub fn new(
        program: CoreProgram,
        diagnostics: DiagnosticBag,
        sema: SemanticTables,
        mono: MonomorphizationSummary,
    ) -> (state: Self)
        ensures
            state == (Monomorphized { program, diagnostics, sema, mono }),
    {
        Monomorphized { program, diagnostics, sema, mono }
    }

    pub fn program(&self) -> (part: &CoreProgram)
        ensures
            *part == self.program,
    {
        &self.program
    }

    pub fn diagnostics(&self) -> (part: &DiagnosticBag)
        ensures
            *part == self.diagnostics,
    {
        &self.diagnostics
    }

    pub fn sema(&self) -> (part: &SemanticTables)
        ensures
            *part == self.sema,
    {
        &self.sema
    }

    pub fn mono(&self) -> (part: &MonomorphizationSummary)
        ensures
            *part == self.mono,
    {
        &self.mono
    }

    pub(crate) fn into_parts(self) -> (parts: (
        CoreProgram,
        DiagnosticBag,
        SemanticTables,
        MonomorphizationSummary,
    ))
        ensures
            parts == (self.program, self.diagnostics, self.sema, self.mono),
    {
        (self.program, self.diagnostics, self.sema, self.mono)
    }

    pub fn into_ct_propagated(self, ct: CtPropagationTables) -> (next: CtPropagated)
        ensures
            next == (CtPropagated {
                program: self.program,
                diagnostics: self.diagnostics,
                sema: self.sema,
                mono: self.mono,
                ct,
            }),
    {
        let (program, diagnostics, sema, mono) = self.into_parts();
        CtPropagated::new(program, diagnostics, sema, mono, ct)
    }
}

/// A core program with what evaluation at compile time found.
#[derive(Debug)]
pub struct CtPropagated {
    pub program: CoreProgram,
    pub diagnostics: DiagnosticBag,
    pub sema: SemanticTables,
    pub mono: MonomorphizationSummary,
    pub ct: CtPropagationTables,
}

impl CtPropagated {
    pub fn new(
        program: CoreProgram,
        diagnostics: DiagnosticBag,
        sema: SemanticTables,
        mono: MonomorphizationSummary,
        ct: CtPropagationTables,
    ) -> (state: Self)
        ensures
            state == (CtPropagated { program, diagnostics, sema, mono, ct }),
    {
        CtPropagated { program, diagnostics, sema, mono, ct }
    }

    pub fn program(&self) -> (part: &CoreProgram)
        ensures
            *part == self.program,
    {
        &self.program
    }

    pub fn diagnostics(&self) -> (part: &DiagnosticBag)
        ensures
            *part == self.diagnostics,
    {
        &self.diagnostics
    }

    pub fn sema(&self) -> (part: &SemanticTables)
        ensures
            *part == self.sema,
    {
        &self.sema
    }

    pub fn mono(&self) -> (part: &MonomorphizationSummary)
        ensures
            *part == self.mono,
    {
        &self.mono
    }

    pub fn ct(&self) -> (part: &CtPropagationTables)
        ensures
            *part == self.ct,
    {
        &self.ct
    }

    pub(crate) fn into_parts(self) -> (parts: (
        CoreProgram,
        DiagnosticBag,
        SemanticTables,
        MonomorphizationSummary,
        CtPropagationTables,
    ))
        ensures
            parts == (self.program, self.diagnostics, self.sema, self.mono, self.ct),
    {
        (self.program, self.diagnostics, self.sema, self.mono, self.ct)
    }

    pub fn into_bta_classified(self, bta: BtaTables) -> (next: BtaClassified)
        ensures
            next == (BtaClassified {
                program: self.program,
                diagnostics: self.diagnostics,
                sema: self.sema,
                mono: self.mono,
                ct: self.ct,
                bta,
            }),
    {
        let (program, diagnostics, sema, mono, ct) = self.into_parts();
        BtaClassified::new(program, diagnostics, sema, mono, ct, bta)
    }
}

/// A core program whose parts are assigned to compile time or run time.
#[derive(Debug)]
pub struct BtaClassified {
    pub program: CoreProgram,
    pub diagnostics: DiagnosticBag,
    pub sema: SemanticTables,
    pub mono: MonomorphizationSummary,
    pub ct: CtPropagationTables,
    pub bta: BtaTables,
}

impl BtaClassified {
    pub fn new(
        program: CoreProgram,
        diagnostics: DiagnosticBag,
        sema: SemanticTables,
        mono: MonomorphizationSummary,
        ct: CtPropagationTables,
        bta: BtaTables,
    ) -> (state: Self)
        ensures
            state == (BtaClassified { program, diagnostics, sema, mono, ct, bta }),
    {
        BtaClassified { program, diagnostics, sema, mono, ct, bta }
    }

    pub fn program(&self) -> (part: &CoreProgram)
        ensures
            *part == self.program,
    {
        &self.program
    }

    pub fn diagnostics(&self) -> (part: &DiagnosticBag)
        ensures
            *part == self.diagnostics,
    {
        &self.diagnostics
    }

    pub fn sema(&self) -> (part: &SemanticTables)
        ensures
            *part == self.sema,
    {
        &self.sema
    }

    pub fn mono(&self) -> (part: &MonomorphizationSummary)
        ensures
            *part == self.mono,
    {
        &self.mono
    }

    pub fn ct(&self) -> (part: &CtPropagationTables)
        ensures
            *part == self.ct,
    {
        &self.ct
    }

    pub fn bta(&self) -> (part: &BtaTables)
        ensures
            *part == self.bta,
    {
        &self.bta
    }

    pub(crate) fn into_parts(self) -> (parts: (
        CoreProgram,
        DiagnosticBag,
        SemanticTables,
        MonomorphizationSummary,
        CtPropagationTables,
        BtaTables,
    ))
        ensures
            parts == (self.program, self.diagnostics, self.sema, self.mono, self.ct, self.bta),
    {
        (self.program, self.diagnostics, self.sema, self.mono, self.ct, self.bta)
    }

    pub fn into_residualized(self, residual: ResidualTables) -> (next: Residualized)
        ensures
            next == (Residualized {
                program: self.program,
                diagnostics: self.diagnostics,
                sema: self.sema,
                mono: self.mono,
                ct: self.ct,
                bta: self.bta,
                residual,
            }),
    {
        let (program, diagnostics, sema, mono, ct, bta) = self.into_parts();
        Residualized::new(program, diagnostics, sema, mono, ct, bta, residual)
    }
}

/// A core program of which only what happens at run time is left.
#[derive(Debug)]
pub struct Residualized {
    pub program: CoreProgram,
    pub diagnostics: DiagnosticBag,
    pub sema: SemanticTables,
    pub mono: MonomorphizationSummary,
    pub ct: CtPropagationTables,
    pub bta: BtaTables,
    pub residual: ResidualTables,
}

impl Residualized {
    pub fn new(
        program: CoreProgram,
        diagnostics: DiagnosticBag,
        sema: SemanticTables,
        mono: MonomorphizationSummary,
        ct: CtPropagationTables,
        bta: BtaTables,
        residual: ResidualTables,
    ) -> (state: Self)
        ensures
            state == (Residualized { program, diagnostics, sema, mono, ct, bta, residual }),
    {
        Residualized { program, diagnostics, sema, mono, ct, bta, residual }
    }

    pub fn program(&self) -> (part: &CoreProgram)
        ensures
            *part == self.program,
    {
        &self.program
    }

    pub fn diagnostics(&self) -> (part: &DiagnosticBag)
        ensures
            *part == self.diagnostics,
    {
        &self.diagnostics
    }

    pub fn sema(&self) -> (part: &SemanticTables)
        ensures
            *part == self.sema,
    {
        &self.sema
    }

    pub fn mono(&self) -> (part: &MonomorphizationSummary)
        ensures
            *part == self.mono,
    {
        &self.mono
    }

    pub fn ct(&self) -> (part: &CtPropagationTables)
        ensures
            *part == self.ct,
    {
        &self.ct
    }

    pub fn bta(&self) -> (part: &BtaTables)
        ensures
            *part == self.bta,
    {
        &self.bta
    }

    pub fn residual(&self) -> (part: &ResidualTables)
        ensures
            *part == self.residual,
    {
        &self.residual
    }

    pub(crate) fn into_parts(self) -> (parts: (
        CoreProgram,
        DiagnosticBag,
        SemanticTables,
        MonomorphizationSummary,
        CtPropagationTables,
        BtaTables,
        ResidualTables,
    ))
        ensures
            parts == (self.program, self.diagnostics, self.sema, self.mono, self.ct, self.bta, self.residual),
    {
        (self.program, self.diagnostics, self.sema, self.mono, self.ct, self.bta, self.residual)
    }
}

} // verus!
