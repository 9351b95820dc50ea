//! Checks effect operations and handlers against their signatures.
use super::signatures::{find_signature, EffectSignature, SignatureModel};
use super::typing::TypeState;
use crate::common::diagnostics::{DiagnosticBag, DiagnosticModel};
use crate::common::ids::{EffectLabelId, ExprId, HandlerId, SymbolId, TypeId, VarId};
use crate::common::span::Span;
use crate::common::text::{push_index, push_text, two_numbers};
use crate::ir::core_ir::{
    ClauseModel, CoreModel, CoreProgram, HandlerClause, HandlerModel, StmtKind, StmtModel,
};
use std::collections::HashSet;
use vstd::prelude::*;

verus! {

/// The text of a mismatch.
pub open spec fn mismatch_text(before: Seq<char>, at: nat, expected: TypeId, actual: TypeId) -> Seq<
    char,
> {
    before + crate::common::text::decimal(at) + " type mismatch: expected t"@
        + crate::common::text::decimal(expected.0 as nat) + ", got t"@
        + crate::common::text::decimal(actual.0 as nat)
}

/// What is known, by position, is not what is expected.
pub open spec fn mismatched(
    known: Map<usize, TypeId>,
    at: usize,
    expected: Option<TypeId>,
) -> bool {
    expected is Some && known.contains_key(at) && known[at] != expected->0
}

/// One report for each of the first arguments whose known type is not the
/// expected one.
pub open spec fn arg_reports(
    known: Map<usize, TypeId>,
    args: Seq<ExprId>,
    types: Seq<Option<TypeId>>,
    span: Span,
    first: int,
) -> Seq<DiagnosticModel>
    decreases first,
{
    if first <= 0 {
        Seq::empty()
    } else {
        let rest = arg_reports(known, args, types, span, first - 1);
        let at = args[first - 1].0;
        if mismatched(known, at, types[first - 1]) {
            rest.push(
                DiagnosticModel::error(
                    "TYPE_EFFECT_ARG_MISMATCH"@,
                    mismatch_text(
                        "Effect argument #"@,
                        first as nat,
                        types[first - 1]->0,
                        known[at],
                    ),
                    span,
                ),
            )
        } else {
            rest
        }
    }
}

/// What is reported about a performed operation.
pub open spec fn perform_reports(
    known: Map<usize, TypeId>,
    signature: Option<SignatureModel>,
    args: Seq<ExprId>,
    span: Span,
) -> Seq<DiagnosticModel> {
    match signature {
        None => seq![
            DiagnosticModel::error(
                "TYPE_UNKNOWN_EFFECT_OP"@,
                "Unknown effect operation in Core perform statement"@,
                span,
            ),
        ],
        Some(signature) => if signature.param_types.len() != args.len() {
            seq![
                DiagnosticModel::error(
                    "TYPE_BAD_EFFECT_OP_ARITY"@,
                    "Effect operation arity mismatch: expected "@ + crate::common::text::decimal(
                        signature.param_types.len(),
                    ) + ", got "@ + crate::common::text::decimal(args.len()) + ""@,
                    span,
                ),
            ]
        } else {
            arg_reports(known, args, signature.param_types, span, args.len() as int)
        },
    }
}

/// One report for each of the first parameters of a clause whose known type is
/// not the expected one.
pub open spec fn param_reports(
    known: Map<usize, TypeId>,
    params: Seq<VarId>,
    types: Seq<Option<TypeId>>,
    span: Span,
    first: int,
) -> Seq<DiagnosticModel>
    decreases first,
{
    if first <= 0 {
        Seq::empty()
    } else {
        let rest = param_reports(known, params, types, span, first - 1);
        let at = params[first - 1].0;
        if mismatched(known, at, types[first - 1]) {
            rest.push(
                DiagnosticModel::error(
                    "TYPE_HANDLER_PARAM_MISMATCH"@,
                    mismatch_text(
                        "Handler clause param #"@,
                        first as nat,
                        types[first - 1]->0,
                        known[at],
                    ),
                    span,
                ),
            )
        } else {
            rest
        }
    }
}

/// What is reported about a clause of a handler.
pub open spec fn clause_report(
    known: Map<usize, TypeId>,
    signature: Option<SignatureModel>,
    clause: ClauseModel,
) -> Seq<DiagnosticModel> {
    match signature {
        None => seq![
            DiagnosticModel::error(
                "TYPE_UNKNOWN_HANDLER_OP"@,
                "Unknown effect operation in handler clause"@,
                clause.span,
            ),
        ],
        Some(signature) => if signature.param_types.len() != clause.params.len() {
            seq![
                DiagnosticModel::error(
                    "TYPE_BAD_HANDLER_CLAUSE_ARITY"@,
                    "Handler clause arity mismatch: expected "@ + crate::common::text::decimal(
                        signature.param_types.len(),
                    ) + ", got "@ + crate::common::text::decimal(clause.params.len()) + ""@,
                    clause.span,
                ),
            ]
        } else {
            param_reports(
                known,
                clause.params,
                signature.param_types,
                clause.span,
                clause.params.len() as int,
            )
        },
    }
}

/// What is reported about the first clauses of a handler.
pub open spec fn clause_reports(
    table: Seq<SignatureModel>,
    known: Map<usize, TypeId>,
    handler: HandlerModel,
    first: int,
) -> Seq<DiagnosticModel>
    decreases first,
{
    if first <= 0 {
        Seq::empty()
    } else {
        let clause = handler.clauses[first - 1];
        clause_reports(table, known, handler, first - 1) + clause_report(
            known,
            crate::sema::typecheck::signatures::lookup(
                table,
                table.len() as int,
                handler.effect,
                clause.operation,
            ),
            clause,
        )
    }
}

/// Whether one of the first statements uses a handler.
pub open spec fn handled_before(p: CoreModel, h: HandlerId, first: int) -> bool {
    exists|s: int|
        0 <= s < first && (#[trigger] p.stmts[s]).kind is Handle && p.stmts[s].kind->handler == h
}

/// What is reported about a statement. A handler is checked where it is first
/// used.
pub open spec fn stmt_report(
    p: CoreModel,
    table: Seq<SignatureModel>,
    exprs: Map<usize, TypeId>,
    vars: Map<usize, TypeId>,
    s: int,
) -> Seq<DiagnosticModel> {
    match p.stmts[s].kind {
        StmtModel::Perform { effect, operation, args, .. } => perform_reports(
            exprs,
            crate::sema::typecheck::signatures::lookup(
                table,
                table.len() as int,
                effect,
                operation,
            ),
            args,
            p.stmts[s].span,
        ),
        StmtModel::Handle { handler, .. } => if handled_before(p, handler, s) || !p.has_handler(
            handler,
        ) {
            Seq::empty()
        } else {
            clause_reports(
                table,
                vars,
                p.handler(handler),
                p.handler(handler).clauses.len() as int,
            )
        },
        _ => Seq::empty(),
    }
}

/// What is reported about the first statements, one after the other.
pub open spec fn signature_reports(
    p: CoreModel,
    table: Seq<SignatureModel>,
    exprs: Map<usize, TypeId>,
    vars: Map<usize, TypeId>,
    first: int,
) -> Seq<DiagnosticModel>
    decreases first,
{
    if first <= 0 {
        Seq::empty()
    } else {
        signature_reports(p, table, exprs, vars, first - 1) + stmt_report(
            p,
            table,
            exprs,
            vars,
            first - 1,
        )
    }
}

fn mismatch(before: &str, at: usize, expected: TypeId, actual: TypeId) -> (text: String)
    ensures
        text@ == mismatch_text(before@, at as nat, expected, actual),
{
    let mut text = before.to_owned();
    push_index(&mut text, at);
    push_text(&mut text, " type mismatch: expected t");
    push_index(&mut text, expected.0);
    push_text(&mut text, ", got t");
    push_index(&mut text, actual.0);
    text
}

fn validate_args(
    state: &TypeState,
    args: &Vec<ExprId>,
    types: &Vec<Option<TypeId>>,
    span: Span,
    diagnostics: &mut DiagnosticBag,
)
    requires
        args@.len() == types@.len(),
    ensures
        final(diagnostics)@ == old(diagnostics)@ + arg_reports(
            state@.exprs,
            args@,
            types@,
            span,
            args@.len() as int,
        ),
{
    let ghost before = diagnostics@;
    let mut i: usize = 0;
    assert(diagnostics@ =~= before + arg_reports(state@.exprs, args@, types@, span, 0));
    while i < args.len()
        invariant
            i <= args@.len() == types@.len(),
            diagnostics@ == before + arg_reports(state@.exprs, args@, types@, span, i as int),
        decreases args@.len() - i,
    {
        if let Some(expected) = types[i] {
            if let Some(actual) = state.exprs.get(args[i].0) {
                if *actual != expected {
                    let message = mismatch("Effect argument #", i + 1, expected, *actual);
                    diagnostics.error("TYPE_EFFECT_ARG_MISMATCH", message.as_str(), span);
                }
            }
        }
        assert(diagnostics@ =~= before + arg_reports(
            state@.exprs,
            args@,
            types@,
            span,
            i as int + 1,
        ));
        i += 1;
    }
}

fn validate_perform_signature(
    signatures: &Vec<EffectSignature>,
    effect: EffectLabelId,
    operation: SymbolId,
    args: &Vec<ExprId>,
    state: &TypeState,
    span: Span,
    diagnostics: &mut DiagnosticBag,
)
    ensures
        final(diagnostics)@ == old(diagnostics)@ + perform_reports(
            state@.exprs,
            crate::sema::typecheck::signatures::lookup(
                crate::common::views(signatures@),
                signatures@.len() as int,
                effect,
                operation,
            ),
            args@,
            span,
        ),
{
    match find_signature(signatures, effect, operation) {
        None => {
            diagnostics.error(
                "TYPE_UNKNOWN_EFFECT_OP",
                "Unknown effect operation in Core perform statement",
                span,
            );
            assert(diagnostics@ =~= old(diagnostics)@ + perform_reports(
                state@.exprs,
                None,
                args@,
                span,
            ));
        },
        Some(signature) => {
            if signature.param_types.len() != args.len() {
                let message = two_numbers(
                    "Effect operation arity mismatch: expected ",
                    signature.param_types.len(),
                    ", got ",
                    args.len(),
                    "",
                );
                diagnostics.error("TYPE_BAD_EFFECT_OP_ARITY", message.as_str(), span);
                assert(diagnostics@ =~= old(diagnostics)@ + perform_reports(
                    state@.exprs,
                    Some(signature@),
                    args@,
                    span,
                ));
            } else {
                validate_args(state, args, &signature.param_types, span, diagnostics);
            }
        },
    }
}

fn validate_params(
    state: &TypeState,
    params: &Vec<VarId>,
    types: &Vec<Option<TypeId>>,
    span: Span,
    diagnostics: &mut DiagnosticBag,
)
    requires
        params@.len() == types@.len(),
    ensures
        final(diagnostics)@ == old(diagnostics)@ + param_reports(
            state@.vars,
            params@,
            types@,
            span,
            params@.len() as int,
        ),
{
    let ghost before = diagnostics@;
    let mut i: usize = 0;
    assert(diagnostics@ =~= before + param_reports(state@.vars, params@, types@, span, 0));
    while i < params.len()
        invariant
            i <= params@.len() == types@.len(),
            diagnostics@ == before + param_reports(state@.vars, params@, types@, span, i as int),
        decreases params@.len() - i,
    {
        if let Some(expected) = types[i] {
            if let Some(actual) = state.vars.get(params[i].0) {
                if *actual != expected {
                    let message = mismatch("Handler clause param #", i + 1, expected, *actual);
                    diagnostics.error("TYPE_HANDLER_PARAM_MISMATCH", message.as_str(), span);
                }
            }
        }
        assert(diagnostics@ =~= before + param_reports(
            state@.vars,
            params@,
            types@,
            span,
            i as int + 1,
        ));
        i += 1;
    }
}

fn validate_clause(
    signatures: &Vec<EffectSignature>,
    effect: EffectLabelId,
    clause: &HandlerClause,
    state: &TypeState,
    diagnostics: &mut DiagnosticBag,
)
    ensures
        final(diagnostics)@ == old(diagnostics)@ + clause_report(
            state@.vars,
            crate::sema::typecheck::signatures::lookup(
                crate::common::views(signatures@),
                signatures@.len() as int,
                effect,
                clause@.operation,
            ),
            clause@,
        ),
{
    match find_signature(signatures, effect, clause.operation) {
        None => {
            diagnostics.error(
                "TYPE_UNKNOWN_HANDLER_OP",
                "Unknown effect operation in handler clause",
                clause.span,
            );
            assert(diagnostics@ =~= old(diagnostics)@ + clause_report(
                state@.vars,
                None,
                clause@,
            ));
        },
        Some(signature) => {
            if signature.param_types.len() != clause.params.len() {
                let message = two_numbers(
                    "Handler clause arity mismatch: expected ",
                    signature.param_types.len(),
                    ", got ",
                    clause.params.len(),
                    "",
                );
                diagnostics.error("TYPE_BAD_HANDLER_CLAUSE_ARITY", message.as_str(), clause.span);
                assert(diagnostics@ =~= old(diagnostics)@ + clause_report(
                    state@.vars,
                    Some(signature@),
                    clause@,
                ));
            } else {
                validate_params(
                    state,
                    &clause.params,
                    &signature.param_types,
                    clause.span,
                    diagnostics,
                );
            }
        },
    }
}

fn validate_handler_signature(
    program: &CoreProgram,
    signatures: &Vec<EffectSignature>,
    handler: HandlerId,
    state: &TypeState,
    diagnostics: &mut DiagnosticBag,
)
    requires
        program@.has_handler(handler),
    ensures
        final(diagnostics)@ == old(diagnostics)@ + clause_reports(
            crate::common::views(signatures@),
            state@.vars,
            program@.handler(handler),
            program@.handler(handler).clauses.len() as int,
        ),
{
    let def = &program.handlers[handler.0];
    let ghost table = crate::common::views(signatures@);
    let ghost before = diagnostics@;
    let mut i: usize = 0;
    assert(program@.handler(handler) == def@);
    assert(diagnostics@ =~= before + clause_reports(table, state@.vars, def@, 0));
    while i < def.clauses.len()
        invariant
            i <= def.clauses@.len(),
            table == crate::common::views(signatures@),
            diagnostics@ == before + clause_reports(table, state@.vars, def@, i as int),
        decreases def.clauses@.len() - i,
    {
        assert(def@.clauses[i as int] == def.clauses@[i as int]@);
        validate_clause(signatures, def.effect, &def.clauses[i], state, diagnostics);
        assert(diagnostics@ =~= before + clause_reports(table, state@.vars, def@, i as int + 1));
        i += 1;
    }
}

pub(crate) fn validate_effect_signatures(
    program: &CoreProgram,
    signatures: &Vec<EffectSignature>,
    state: &TypeState,
    diagnostics: &mut DiagnosticBag,
)
    ensures
        final(diagnostics)@ == old(diagnostics)@ + signature_reports(
            program@,
            crate::common::views(signatures@),
            state@.exprs,
            state@.vars,
            program@.stmts.len() as int,
        ),
{
    broadcast use vstd::std_specs::hash::group_hash_axioms;

    let ghost table = crate::common::views(signatures@);
    let ghost before = diagnostics@;
    let mut seen: HashSet<usize> = HashSet::new();
    let mut i: usize = 0;
    assert(diagnostics@ =~= before + signature_reports(
        program@,
        table,
        state@.exprs,
        state@.vars,
        0,
    ));
    while i < program.stmts.len()
        invariant
            i <= program.stmts@.len(),
            table == crate::common::views(signatures@),
            forall|h: usize| #[trigger]
                seen@.contains(h) <==> handled_before(program@, HandlerId(h), i as int),
            diagnostics@ == before + signature_reports(
                program@,
                table,
                state@.exprs,
                state@.vars,
                i as int,
            ),
        decreases program.stmts@.len() - i,
    {
        broadcast use vstd::std_specs::hash::group_hash_axioms;

        let stmt = &program.stmts[i];
        let ghost reported = diagnostics@;
        let ghost earlier = seen@;
        assert(program@.stmts[i as int] == stmt@);
        match &stmt.kind {
            StmtKind::Perform { effect, operation, args, .. } => {
                validate_perform_signature(
                    signatures,
                    *effect,
                    *operation,
                    args,
                    state,
                    stmt.span,
                    diagnostics,
                );
            },
            StmtKind::Handle { handler, .. } => {
                if !seen.contains(&handler.0) {
                    seen.insert(handler.0);
                    if handler.0 < program.handlers.len() {
                        validate_handler_signature(
                            program,
                            signatures,
                            *handler,
                            state,
                            diagnostics,
                        );
                    }
                }
                assert(earlier.contains(handler.0) <==> handled_before(
                    program@,
                    HandlerId(handler.0),
                    i as int,
                ));
            },
            _ => {},
        }
        proof {
            assert(diagnostics@ =~= reported + stmt_report(
                program@,
                table,
                state@.exprs,
                state@.vars,
                i as int,
            ));
            assert(diagnostics@ =~= before + signature_reports(
                program@,
                table,
                state@.exprs,
                state@.vars,
                i as int + 1,
            ));
            assert forall|h: usize| #[trigger] seen@.contains(h) <==> handled_before(
                program@,
                HandlerId(h),
                i as int + 1,
            ) by {
                assert(earlier.contains(h) <==> handled_before(program@, HandlerId(h), i as int));
                if handled_before(program@, HandlerId(h), i as int + 1) {
                    let s = choose|s: int|
                        0 <= s < i + 1 && (#[trigger] program@.stmts[s]).kind is Handle
                            && program@.stmts[s].kind->handler == HandlerId(h);
                    if s < i {
                        assert(handled_before(program@, HandlerId(h), i as int));
                    }
                }
                if handled_before(program@, HandlerId(h), i as int) {
                    let s = choose|s: int|
                        0 <= s < i && (#[trigger] program@.stmts[s]).kind is Handle
                            && program@.stmts[s].kind->handler == HandlerId(h);
                    assert(program@.stmts[s].kind is Handle);
                }
            }
        }
        i += 1;
    }
}

} // verus!
