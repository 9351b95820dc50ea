//! Types of expressions and effects of statements.
pub mod effects;
pub mod results;
pub mod signatures;
pub mod typing;
pub mod validate;

pub use signatures::PrimitiveTypeIds;

use crate::common::densemap::DenseMap;
use crate::common::diagnostics::{DiagnosticBag, DiagnosticModel};
use crate::common::ids::TypeId;
use crate::ir::core_ir::{CoreModel, CoreProgram, FunctionModel};
use crate::pipeline::tables::SemanticTables;
use effects::infer_stmt_effects;
use signatures::{build_effect_signatures, declare_types};
use typing::{Rules, TypeChecker, TypeState, Typing};
use validate::validate_effect_signatures;
use vstd::prelude::*;

verus! {

/// What the first parameters of a function are declared to be.
pub open spec fn params_declared(t: Typing, f: FunctionModel, first: nat) -> Typing
    decreases first,
{
    if first == 0 {
        t
    } else {
        let rest = params_declared(t, f, (first - 1) as nat);
        if f.param_types[first - 1] != TypeId::spec_invalid() {
            crate::sema::typecheck::typing::set_var(
                rest,
                f.params[first - 1],
                f.param_types[first - 1],
            )
        } else {
            rest
        }
    }
}

/// What the first functions are declared to take.
pub open spec fn functions_declared(t: Typing, p: CoreModel, first: nat) -> Typing
    decreases first,
{
    if first == 0 {
        t
    } else {
        let f = p.functions[first - 1];
        params_declared(
            functions_declared(t, p, (first - 1) as nat),
            f,
            crate::sema::typecheck::typing::shorter(f.params.len(), f.param_types.len()),
        )
    }
}

/// What the functions of a program are declared to return.
pub open spec fn declared_results(p: CoreModel) -> Map<usize, TypeId> {
    Map::new(
        |f: usize|
            f < p.functions.len() && p.functions[f as int].return_type != TypeId::spec_invalid(),
        |f: usize| p.functions[f as int].return_type,
    )
}

/// What is known before the first round.
pub open spec fn start(p: CoreModel) -> Typing {
    functions_declared(
        Typing { exprs: Map::empty(), vars: Map::empty(), results: declared_results(p) },
        p,
        p.functions.len(),
    )
}

/// A program with the types and signatures that it declares.
pub open spec fn rules(p: CoreModel) -> Rules {
    let ids = crate::sema::typecheck::signatures::declared(p).ids;
    let prim = PrimitiveTypeIds::standard();
    Rules {
        p,
        ids,
        prim,
        table: crate::sema::typecheck::signatures::signatures(
            p,
            ids,
            prim,
            p.effects.len() as int,
        ),
    }
}

/// A warning for each of the first expressions whose type is not known.
pub open spec fn incomplete_reports(
    p: CoreModel,
    known: Map<usize, TypeId>,
    first: int,
) -> Seq<DiagnosticModel>
    decreases first,
{
    if first <= 0 {
        Seq::empty()
    } else {
        let rest = incomplete_reports(p, known, first - 1);
        if known.contains_key((first - 1) as usize) {
            rest
        } else {
            rest.push(
                DiagnosticModel::warning(
                    "TYPE_INFER_INCOMPLETE"@,
                    "Could not infer a complete type for this expression in v0 checker"@,
                    p.exprs[first - 1].span,
                ),
            )
        }
    }
}

/// A map as a list of what it holds at the first positions.
pub open spec fn listed(known: Map<usize, TypeId>, count: nat) -> Seq<Option<TypeId>> {
    Seq::new(
        count,
        |i: int|
            if known.contains_key(i as usize) {
                Some(known[i as usize])
            } else {
                None
            },
    )
}

fn declare_params(program: &CoreProgram, state: &mut TypeState)
    ensures
        final(state)@ == functions_declared(old(state)@, program@, program@.functions.len()),
{
    let ghost before = state@;
    let mut f: usize = 0;
    while f < program.functions.len()
        invariant
            f <= program.functions@.len(),
            state@ == functions_declared(before, program@, f as nat),
        decreases program.functions@.len() - f,
    {
        let function = &program.functions[f];
        let ghost now = state@;
        assert(program@.functions[f as int] == function@);
        let mut i: usize = 0;
        while i < function.params.len() && i < function.param_types.len()
            invariant
                i <= crate::sema::typecheck::typing::shorter(
                    function@.params.len(),
                    function@.param_types.len(),
                ),
                state@ == params_declared(now, function@, i as nat),
            decreases function.params@.len() - i,
        {
            if function.param_types[i] != TypeId::invalid() {
                state.set_var_type(function.params[i], function.param_types[i]);
            }
            i += 1;
        }
        assert(i == crate::sema::typecheck::typing::shorter(
            function@.params.len(),
            function@.param_types.len(),
        ));
        f += 1;
    }
}

fn start_state(program: &CoreProgram) -> (state: TypeState)
    ensures
        state@ == start(program@),
{
    let mut results: DenseMap<TypeId> = DenseMap::new();
    let mut f: usize = 0;
    assert(results@ =~= declared_results(program@).restrict(Set::new(|k: usize| k < 0)));
    while f < program.functions.len()
        invariant
            f <= program.functions@.len(),
            results@ == declared_results(program@).restrict(Set::new(|k: usize| k < f)),
        decreases program.functions@.len() - f,
    {
        let ty = program.functions[f].return_type;
        assert(program@.functions[f as int].return_type == ty);
        let ghost now = results@;
        if ty != TypeId::invalid() {
            results.insert(f, ty);
        }
        assert(results@ =~= declared_results(program@).restrict(Set::new(|k: usize| k < f + 1)));
        f += 1;
    }
    assert(results@ =~= declared_results(program@));
    let mut state = TypeState { exprs: DenseMap::new(), vars: DenseMap::new(), results };
    assert(state@ =~= Typing {
        exprs: Map::empty(),
        vars: Map::empty(),
        results: declared_results(program@),
    });
    declare_params(program, &mut state);
    state
}

/// The types of the expressions, in a list; with a warning for each that is
/// missing.
fn list_types(program: &CoreProgram, state: &TypeState, diagnostics: &mut DiagnosticBag) -> (types:
    Vec<Option<TypeId>>)
    ensures
        types@ == listed(state@.exprs, program@.exprs.len()),
        final(diagnostics)@ == old(diagnostics)@ + incomplete_reports(
            program@,
            state@.exprs,
            program@.exprs.len() as int,
        ),
{
    let ghost before = diagnostics@;
    let mut types: Vec<Option<TypeId>> = Vec::new();
    let mut i: usize = 0;
    assert(diagnostics@ =~= before + incomplete_reports(program@, state@.exprs, 0));
    while i < program.exprs.len()
        invariant
            i <= program.exprs@.len(),
            types@ == listed(state@.exprs, i as nat),
            diagnostics@ == before + incomplete_reports(program@, state@.exprs, i as int),
        decreases program.exprs@.len() - i,
    {
        match state.exprs.get(i) {
            Some(ty) => {
                types.push(Some(*ty));
            },
            None => {
                types.push(None);
                assert(program@.exprs[i as int].span == program.exprs@[i as int].span);
                diagnostics.warning(
                    "TYPE_INFER_INCOMPLETE",
                    "Could not infer a complete type for this expression in v0 checker",
                    program.exprs[i].span,
                );
            },
        }
        assert(types@ =~= listed(state@.exprs, (i + 1) as nat));
        assert(diagnostics@ =~= before + incomplete_reports(
            program@,
            state@.exprs,
            i as int + 1,
        ));
        i += 1;
    }
    types
}

/// What the tables of a checked program hold.
pub open spec fn tables_hold(p: CoreModel, end: Typing, sema: SemanticTables) -> bool {
    &&& sema.type_of_expr@ == listed(end.exprs, p.exprs.len())
    &&& sema.effects_of_expr@.len() == p.exprs.len()
    &&& forall|i: int|
        0 <= i < p.exprs.len() ==> (#[trigger] sema.effects_of_expr@[i])@.len() == 0
    &&& sema.effects_of_stmt@.len() == p.stmts.len()
    &&& forall|i: int|
        0 <= i < p.stmts.len() ==> crate::sema::typecheck::effects::row_of(
            p,
            crate::common::ids::StmtId(i as usize),
            (#[trigger] sema.effects_of_stmt@[i])@,
        )
    &&& sema.persistability_of_type@ == crate::sema::typecheck::signatures::declared(p).persist
    &&& sema.ownership_of_expr@ == Seq::new(
        p.exprs.len(),
        |i: int| crate::sema::ownership::OwnershipClass::BorrowedView,
    )
    &&& sema.ownership_of_var@.dom() == Set::<usize>::empty()
    &&& sema.ownership_of_type@.len() == 0
    &&& sema.effect_properties@.dom() == Set::<usize>::empty()
}

/// What is reported about a program, once inference has ended.
pub open spec fn reports(p: CoreModel, end: Typing) -> Seq<DiagnosticModel> {
    crate::sema::typecheck::validate::signature_reports(
        p,
        rules(p).table,
        end.exprs,
        end.vars,
        p.stmts.len() as int,
    ) + incomplete_reports(p, end.exprs, p.exprs.len() as int)
}

/// Infers the types of a program and the effects of its statements.
pub fn typecheck_core(program: &CoreProgram, diagnostics: &mut DiagnosticBag) -> (sema:
    SemanticTables)
    requires
        program@.acyclic(),
        program@.closed(),
    ensures
        exists|end: Typing| #[trigger]
            rules(program@).settles(start(program@), end) && tables_hold(program@, end, sema)
                && final(diagnostics)@ == old(diagnostics)@ + reports(program@, end),
{
    let (prim, adt_types, persist) = declare_types(program);
    let table = build_effect_signatures(program, &adt_types, prim);
    let mut sema = SemanticTables::with_counts(program.exprs.len(), program.stmts.len());
    let mut state = start_state(program);
    let checker = TypeChecker::new(program, &adt_types, prim, &table);
    assert(checker.rules() == rules(program@));
    checker.infer(&mut state);
    validate_effect_signatures(program, &table, &state, diagnostics);
    let types = list_types(program, &state, diagnostics);
    sema.type_of_expr = types;
    sema.persistability_of_type = persist;
    sema.effects_of_stmt = infer_stmt_effects(program);
    assert(diagnostics@ =~= old(diagnostics)@ + reports(program@, state@));
    assert(sema.ownership_of_var@.dom() =~= Set::<usize>::empty());
    assert(sema.effect_properties@.dom() =~= Set::<usize>::empty());
    assert(tables_hold(program@, state@, sema));
    assert(rules(program@).settles(start(program@), state@));
    sema
}

} // verus!
