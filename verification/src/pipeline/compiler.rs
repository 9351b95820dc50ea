//! The pipeline from a syntax tree to what is left to run.
use crate::common::diagnostics::DiagnosticBag;
use crate::ir::core_ir::{BinaryOp, CoreProgram};
use crate::ir::linear::LinearProgram;
use crate::passes::comptime;
use crate::passes::comptime_check::InvariantViolation;
use crate::passes::ct_files::FileRead;
use crate::passes::ct_propagate::QueryCache;
use crate::passes::lowering::{lower_program, LowerConfig};
use crate::passes::{bta, monomorphize, residualize};
use crate::pipeline::ct_query_cache::CtQueryCacheSnapshot;
use crate::pipeline::phases::{
    BtaClassified, CoreBuilt, CtPropagated, Monomorphized, Parsed, Residualized, Typed,
};
use crate::sema::typecheck::typecheck_core;
use vstd::prelude::*;

pub use crate::pipeline::timings::V0PipelineTimings;

verus! {

#[derive(Clone, Copy, PartialEq, Eq, Debug, Structural)]
pub enum Endianness {
    Little,
    Big,
}

/// The machine that a program is compiled for.
#[derive(Clone, Copy, PartialEq, Eq, Debug, Structural)]
pub struct TargetSpec {
    pub word_size_bits: u8,
    pub endianness: Endianness,
    pub pointer_alignment: u8,
}

/// `u16::to_ne_bytes` on the number one: a one and a zero, in the order of bytes
/// of the machine. Which order that is is not said.
#[verifier::external_body]
fn native_bytes_of_one() -> (bytes: [u8; 2])
    ensures
        bytes@ == seq![1u8, 0u8] || bytes@ == seq![0u8, 1u8],
{
    1u16.to_ne_bytes()
}

impl TargetSpec {
    /// A machine of sixty-four bits with an order of bytes.
    pub fn with_endianness(endianness: Endianness) -> (target: Self)
        ensures
            target == (TargetSpec { word_size_bits: 64, endianness, pointer_alignment: 8 }),
    {
        TargetSpec { word_size_bits: 64, endianness, pointer_alignment: 8 }
    }

    /// The order of bytes of a machine that keeps the number one in these two.
    pub fn endianness_of(bytes_of_one: [u8; 2]) -> (endianness: Endianness)
        ensures
            endianness == if bytes_of_one@[0] == 1 {
                Endianness::Little
            } else {
                Endianness::Big
            },
    {
        if bytes_of_one[0] == 1 {
            Endianness::Little
        } else {
            Endianness::Big
        }
    }
}

impl Default for TargetSpec {
    /// A machine of sixty-four bits with the order of bytes of this one.
    fn default() -> (target: Self)
        ensures
            target.word_size_bits == 64,
            target.pointer_alignment == 8,
    {
        TargetSpec::with_endianness(TargetSpec::endianness_of(native_bytes_of_one()))
    }
}

/// How to compile: for which machine, and where results are kept from one run
/// to the next, if anywhere.
#[derive(Debug)]
pub struct CompilerConfig {
    pub target: TargetSpec,
    pub ct_query_cache_path: Option<String>,
}

/// A path as a mathematical value.
pub open spec fn path_model(path: Option<String>) -> Option<Seq<char>> {
    match path {
        Some(path) => Some(path@),
        None => None,
    }
}

impl Default for CompilerConfig {
    fn default() -> (config: Self)
        ensures
            config.target.word_size_bits == 64,
            config.target.pointer_alignment == 8,
            config.ct_query_cache_path is None,
    {
        CompilerConfig { target: TargetSpec::default(), ct_query_cache_path: None }
    }
}

impl Clone for CompilerConfig {
    fn clone(&self) -> (copy: Self)
        ensures
            copy.target == self.target,
            path_model(copy.ct_query_cache_path) == path_model(self.ct_query_cache_path),
    {
        CompilerConfig {
            target: self.target,
            ct_query_cache_path: match &self.ct_query_cache_path {
                Some(path) => Some(path.clone()),
                None => None,
            },
        }
    }
}

/// A program compiled to C.
#[derive(Debug)]
pub struct CompiledC {
    pub residual: Residualized,
    pub linear: LinearProgram,
    pub c_source: String,
}

#[derive(Debug)]
pub struct Compiler {
    pub config: CompilerConfig,
}

impl Default for Compiler {
    fn default() -> (compiler: Self)
        ensures
            compiler.config.target.word_size_bits == 64,
            compiler.config.target.pointer_alignment == 8,
            compiler.config.ct_query_cache_path is None,
    {
        Compiler { config: CompilerConfig::default() }
    }
}

/// What lowering makes of a syntax tree, with what it reports after what parsing
/// reported.
pub open spec fn built_from(parsed: Parsed, config: LowerConfig, built: CoreBuilt) -> bool {
    &&& crate::passes::lowering::program_is(parsed.ast, config.entrypoints@, built.program@)
    &&& crate::passes::lowering::nodes_are(parsed.ast, built.program@)
    &&& built.diagnostics@ == parsed.diagnostics@ + crate::passes::lowering::program_reports(
        parsed.ast,
        built.program@,
    )
    &&& built.program@.acyclic()
    &&& built.program@.closed()
}

/// What the type checker makes of a program.
pub open spec fn typed_from(built: CoreBuilt, typed: Typed) -> bool {
    &&& typed.program == built.program
    &&& exists|end: crate::sema::typecheck::typing::Typing| #[trigger]
        crate::sema::typecheck::rules(built.program@).settles(
            crate::sema::typecheck::start(built.program@),
            end,
        ) && crate::sema::typecheck::tables_hold(built.program@, end, typed.sema)
            && typed.diagnostics@ == built.diagnostics@ + crate::sema::typecheck::reports(
            built.program@,
            end,
        )
}

/// What a program has to be for evaluation: there is no cycle in it, and every
/// effect that it names is declared.
pub open spec fn ready_for_evaluation(mono: Monomorphized) -> bool {
    &&& mono.program@.acyclic()
    &&& crate::passes::ct_common::effects_declared(mono.program@)
}

impl Compiler {
    pub fn new(config: CompilerConfig) -> (compiler: Self)
        ensures
            compiler.config == config,
    {
        Compiler { config }
    }

    pub fn config(&self) -> (config: CompilerConfig)
        ensures
            config.target == self.config.target,
            path_model(config.ct_query_cache_path) == path_model(self.config.ct_query_cache_path),
    {
        self.config.clone()
    }

    /// A program that was built by hand, with nothing to report.
    pub fn bootstrap_core(&self, program: CoreProgram) -> (built: CoreBuilt)
        ensures
            built.program == program,
            built.diagnostics@ == Seq::<crate::common::diagnostics::DiagnosticModel>::empty(),
    {
        CoreBuilt::new(program, DiagnosticBag::default())
    }

    /// Lowers a syntax tree with no entry point.
    pub fn lower_parsed_to_core(&self, parsed: Parsed) -> (built: CoreBuilt)
        ensures
            exists|config: LowerConfig|
                config.entrypoints@.len() == 0 && #[trigger] built_from(parsed, config, built),
    {
        let config = LowerConfig::default();
        self.lower_parsed_to_core_with_config(parsed, config)
    }

    /// Lowers a syntax tree.
    pub fn lower_parsed_to_core_with_config(
        &self,
        parsed: Parsed,
        config: LowerConfig,
    ) -> (built: CoreBuilt)
        ensures
            built_from(parsed, config, built),
    {
        let lowered = lower_program(parsed.ast(), config);
        parsed.into_core_built(lowered.program, lowered.diagnostics)
    }

    /// Checks the types of a program.
    pub fn typecheck(&self, built: CoreBuilt) -> (typed: Typed)
        requires
            built.program@.acyclic(),
            built.program@.closed(),
        ensures
            typed_from(built, typed),
    {
        let ghost before = built;
        let (program, diagnostics) = built.into_parts();
        let mut diagnostics = diagnostics;
        let sema = typecheck_core(&program, &mut diagnostics);
        let typed = Typed::new(program, diagnostics, sema);
        assert(typed_from(before, typed));
        typed
    }

    pub fn monomorphize(&self, typed: Typed) -> (mono: Monomorphized)
        ensures
            mono.program == typed.program,
            mono.diagnostics == typed.diagnostics,
            mono.sema == typed.sema,
            crate::passes::monomorphize::stands_for_itself(
                mono.mono.source_to_mono@,
                typed.program@.functions.len(),
            ),
    {
        monomorphize::run(typed)
    }

    /// Evaluates a program at compile time.
    pub fn run_v1_ct_eval<H: Fn(BinaryOp, u64, u64) -> u64>(
        &self,
        mono: Monomorphized,
        host: &H,
        reads: &Vec<FileRead>,
        query: QueryCache,
    ) -> (out: (CtPropagated, Option<CtQueryCacheSnapshot>))
        requires
            ready_for_evaluation(mono),
            crate::passes::ct_common::answers(*host),
        ensures
            crate::passes::comptime::evaluated(
                mono,
                self.config.target,
                *host,
                reads@,
                query,
                out.0,
            ),
            crate::passes::ct_propagate::snapshot_model(out.1)
                == crate::passes::comptime::kept_after(
                mono,
                self.config.target,
                *host,
                reads@,
                query,
            ),
    {
        comptime::evaluate(mono, self.config.target, host, reads, query)
    }

    /// Evaluates and classifies a program.
    pub fn run_v1_evaluate_classify<H: Fn(BinaryOp, u64, u64) -> u64>(
        &self,
        mono: Monomorphized,
        host: &H,
        reads: &Vec<FileRead>,
        query: QueryCache,
    ) -> (out: (Result<BtaClassified, InvariantViolation>, Option<CtQueryCacheSnapshot>))
        requires
            ready_for_evaluation(mono),
            crate::passes::ct_common::answers(*host),
        ensures
            exists|ct: CtPropagated, c: BtaClassified|
                {
                    &&& #[trigger] crate::passes::comptime::evaluated(
                        mono,
                        self.config.target,
                        *host,
                        reads@,
                        query,
                        ct,
                    )
                    &&& #[trigger] crate::passes::comptime::classified(ct, c)
                    &&& match out.0 {
                        Ok(done) => done == c
                            && crate::passes::comptime_check::classified_outcome(c, None),
                        Err(fault) => crate::passes::comptime_check::classified_outcome(
                            c,
                            Some(fault),
                        ),
                    }
                },
            crate::passes::ct_propagate::snapshot_model(out.1)
                == crate::passes::comptime::kept_after(
                mono,
                self.config.target,
                *host,
                reads@,
                query,
            ),
    {
        comptime::evaluate_classify(mono, self.config.target, host, reads, query)
    }

    /// Leaves what happens at run time, and specializes it.
    pub fn run_v1_residualize_specialize(&self, classified: BtaClassified) -> (out: Result<
        Residualized,
        InvariantViolation,
    >)
        requires
            crate::passes::comptime::fit(classified),
        ensures
            exists|r: Residualized, s: Residualized|
                {
                    &&& #[trigger] crate::passes::comptime::residualized(classified, r)
                    &&& #[trigger] crate::passes::comptime::specialized(r, s)
                    &&& s.program@.acyclic()
                    &&& s.program@.closed()
                    &&& match out {
                        Ok(done) => done == s && crate::passes::comptime_check::residual_outcome(
                            s,
                            None,
                        ),
                        Err(fault) => crate::passes::comptime_check::residual_outcome(
                            s,
                            Some(fault),
                        ),
                    }
                },
    {
        comptime::residualize_specialize(classified)
    }

    /// Both stages, one after the other. What is wrong with the result of the
    /// first one, if anything is, ends the run.
    pub fn run_v1_core_pipeline<H: Fn(BinaryOp, u64, u64) -> u64>(
        &self,
        mono: Monomorphized,
        host: &H,
        reads: &Vec<FileRead>,
        query: QueryCache,
    ) -> (out: (Result<Residualized, InvariantViolation>, Option<CtQueryCacheSnapshot>))
        requires
            ready_for_evaluation(mono),
            mono.program@.closed(),
            crate::passes::ct_common::answers(*host),
        ensures
            exists|ct: CtPropagated, c: BtaClassified|
                {
                    &&& #[trigger] crate::passes::comptime::evaluated(
                        mono,
                        self.config.target,
                        *host,
                        reads@,
                        query,
                        ct,
                    )
                    &&& #[trigger] crate::passes::comptime::classified(ct, c)
                    &&& if crate::passes::comptime_check::classified_outcome(c, None) {
                        second_stage(c, out.0)
                    } else {
                        out.0 matches Err(fault)
                            && crate::passes::comptime_check::classified_outcome(c, Some(fault))
                    }
                },
            crate::passes::ct_propagate::snapshot_model(out.1)
                == crate::passes::comptime::kept_after(
                mono,
                self.config.target,
                *host,
                reads@,
                query,
            ),
    {
        let ghost before = mono;
        let ghost asked = query;
        let (first, snapshot) = self.run_v1_evaluate_classify(mono, host, reads, query);
        let ghost (ct, c) = choose|ct: CtPropagated, c: BtaClassified|
            {
                &&& #[trigger] crate::passes::comptime::evaluated(
                    before,
                    self.config.target,
                    *host,
                    reads@,
                    asked,
                    ct,
                )
                &&& #[trigger] crate::passes::comptime::classified(ct, c)
                &&& match first {
                    Ok(done) => done == c && crate::passes::comptime_check::classified_outcome(
                        c,
                        None,
                    ),
                    Err(fault) => crate::passes::comptime_check::classified_outcome(
                        c,
                        Some(fault),
                    ),
                }
            };
        assert(crate::passes::comptime::evaluated(
            before,
            self.config.target,
            *host,
            reads@,
            asked,
            ct,
        ));
        assert(crate::passes::comptime::classified(ct, c));
        match first {
            Ok(done) => {
                proof {
                    crate::passes::comptime::lemma_sound_is_fit(done);
                }
                (self.run_v1_residualize_specialize(done), snapshot)
            },
            Err(fault) => {
                proof {
                    crate::passes::comptime_check::lemma_fault_is_fault(c, fault);
                }
                (Err(fault), snapshot)
            },
        }
    }

    /// Evaluation, classification and residualization, with no check between
    /// them and no specialization.
    pub fn run_v0_core_pipeline<H: Fn(BinaryOp, u64, u64) -> u64>(
        &self,
        mono: Monomorphized,
        host: &H,
        reads: &Vec<FileRead>,
        query: QueryCache,
    ) -> (out: (Residualized, Option<CtQueryCacheSnapshot>))
        requires
            ready_for_evaluation(mono),
            crate::passes::ct_common::answers(*host),
        ensures
            exists|ct: CtPropagated, c: BtaClassified|
                {
                    &&& #[trigger] crate::passes::comptime::evaluated(
                        mono,
                        self.config.target,
                        *host,
                        reads@,
                        query,
                        ct,
                    )
                    &&& #[trigger] crate::passes::comptime::classified(ct, c)
                    &&& crate::passes::comptime::residualized(c, out.0)
                },
            crate::passes::ct_propagate::snapshot_model(out.1)
                == crate::passes::comptime::kept_after(
                mono,
                self.config.target,
                *host,
                reads@,
                query,
            ),
    {
        let ghost before = mono;
        let ghost asked = query;
        let (ct, snapshot) = self.run_v1_ct_eval(mono, host, reads, query);
        let ghost seen = ct;
        let classified = self.classify_staging(ct);
        let ghost c = classified;
        let residual = self.residualize(classified);
        proof {
            assert(crate::passes::comptime::evaluated(
                before,
                self.config.target,
                *host,
                reads@,
                asked,
                seen,
            ));
            assert(crate::passes::comptime::classified(seen, c));
            assert(crate::passes::comptime::residualized(c, residual));
        }
        (residual, snapshot)
    }

    pub fn classify_staging(&self, ct: CtPropagated) -> (out: BtaClassified)
        requires
            ct.program@.acyclic(),
        ensures
            crate::passes::comptime::classified(ct, out),
    {
        bta::run(ct)
    }

    pub fn residualize(&self, classified: BtaClassified) -> (out: Residualized)
        requires
            classified.program@.acyclic(),
        ensures
            crate::passes::comptime::residualized(classified, out),
    {
        residualize::run(classified)
    }
}

/// What the second stage makes of a classified program.
pub open spec fn second_stage(
    c: BtaClassified,
    out: Result<Residualized, InvariantViolation>,
) -> bool {
    exists|r: Residualized, s: Residualized|
        {
            &&& #[trigger] crate::passes::comptime::residualized(c, r)
            &&& #[trigger] crate::passes::comptime::specialized(r, s)
            &&& s.program@.acyclic()
            &&& s.program@.closed()
            &&& match out {
                Ok(done) => done == s && crate::passes::comptime_check::residual_outcome(s, None),
                Err(fault) => crate::passes::comptime_check::residual_outcome(s, Some(fault)),
            }
        }
}

/// The program that is built is the one that lowering gives for the same entry
/// points, down to the number of each node, and what lowering reports follows what
/// parsing reported, none lost and none moved.
pub proof fn lemma_built_is_lowered(
    parsed: Parsed,
    config: LowerConfig,
    built: CoreBuilt,
    core: crate::ir::core_ir::CoreModel,
    reports: Seq<crate::common::diagnostics::DiagnosticModel>,
)
    requires
        built_from(parsed, config, built),
        crate::passes::lowering::lowers_to(parsed.ast, config.entrypoints@, core, reports),
    ensures
        built.program@ == core,
        built.diagnostics@ == parsed.diagnostics@ + reports,
        config.entrypoints@.len() == 0 ==> built.program@.entrypoints.len() == 0,
{
    let own = crate::passes::lowering::program_reports(parsed.ast, built.program@);
    crate::passes::lowering::lemma_lowered_one_way(
        parsed.ast,
        config.entrypoints@,
        built.program@,
        own,
        core,
        reports,
    );
    if config.entrypoints@.len() == 0 {
        let functions = crate::passes::lowering::functions_in(
            parsed.ast.items@,
            parsed.ast.items@.len(),
        );
        crate::passes::lowering::lemma_no_entry(
            config.entrypoints@,
            functions,
            crate::passes::lowering::functions_named(functions, functions.len()),
            functions.len(),
        );
    }
}

} // verus!
