//! The types that a program declares, and the signatures of its effect
//! operations.
use crate::common::ids::{EffectLabelId, SymbolId, TypeId};
use crate::ir::core_ir::{
    AdtEnumDecl, CoreModel, CoreProgram, CoreTypeRef, EffectModel, EffectOpDecl, EffectOpModel,
    EnumModel, PrimitiveTypeRef,
};
use crate::sema::ty::{
    EnumVariant, Persistability, PrimitiveType, StructField, TypeKind, TypeStore,
};
use std::collections::HashMap;
use vstd::prelude::*;

verus! {

#[derive(Clone, Copy, PartialEq, Eq, Debug, Structural)]
pub struct PrimitiveTypeIds {
    pub unit: TypeId,
    pub bool_: TypeId,
    pub int: TypeId,
    pub float: TypeId,
    pub char_: TypeId,
    pub string: TypeId,
}

impl PrimitiveTypeIds {
    /// The identifiers that the primitive types of every program have.
    pub open spec fn standard() -> Self {
        PrimitiveTypeIds {
            unit: TypeId(0),
            bool_: TypeId(1),
            int: TypeId(2),
            float: TypeId(3),
            char_: TypeId(4),
            string: TypeId(5),
        }
    }
}

// ---------------------------------------------------------------------------
// Declared types
// ---------------------------------------------------------------------------

/// The types known so far: the identifier of each declared name, and how the
/// values of each type persist.
#[verifier::ext_equal]
pub struct Declared {
    pub ids: Map<usize, TypeId>,
    pub persist: Seq<Persistability>,
}

impl Declared {
    /// The primitive types alone; all of them persist.
    pub open spec fn primitive() -> Self {
        Declared {
            ids: Map::empty(),
            persist: seq![
                Persistability::Trivial,
                Persistability::Trivial,
                Persistability::Trivial,
                Persistability::Trivial,
                Persistability::Trivial,
                Persistability::Trivial,
            ],
        }
    }

    /// With one more type, unless its name has been declared. The types of
    /// fields are not known, so only a type without fields persists.
    pub open spec fn with(self, name: SymbolId, has_fields: bool) -> Self {
        if self.ids.contains_key(name.0) {
            self
        } else {
            Declared {
                ids: self.ids.insert(name.0, TypeId(self.persist.len() as usize)),
                persist: self.persist.push(
                    if has_fields {
                        Persistability::NonPersistable
                    } else {
                        Persistability::Trivial
                    },
                ),
            }
        }
    }
}

/// Whether some variant of an enum has a field.
pub open spec fn enum_has_fields(decl: EnumModel) -> bool {
    exists|i: int| 0 <= i < decl.variants.len() && (#[trigger] decl.variants[i]).field_count > 0
}

pub open spec fn with_structs(p: CoreModel, first: int) -> Declared
    decreases first,
{
    if first <= 0 {
        Declared::primitive()
    } else {
        with_structs(p, first - 1).with(
            p.structs[first - 1].name,
            p.structs[first - 1].field_count > 0,
        )
    }
}

pub open spec fn with_enums(p: CoreModel, first: int) -> Declared
    decreases first,
{
    if first <= 0 {
        with_structs(p, p.structs.len() as int)
    } else {
        with_enums(p, first - 1).with(p.enums[first - 1].name, enum_has_fields(p.enums[first - 1]))
    }
}

/// All types of a program.
pub open spec fn declared(p: CoreModel) -> Declared {
    with_enums(p, p.enums.len() as int)
}

/// A type whose parts have no known type.
spec fn hollow(kind: TypeKind) -> bool {
    match kind {
        TypeKind::Primitive(_) => true,
        TypeKind::Struct { .. } => forall|ty: TypeId| #[trigger]
            kind.has_part(ty) ==> ty == TypeId::spec_invalid(),
        TypeKind::Enum { .. } => forall|ty: TypeId| #[trigger]
            kind.has_part(ty) ==> ty == TypeId::spec_invalid(),
        _ => false,
    }
}

/// A type without any part.
spec fn bare(kind: TypeKind) -> bool {
    forall|ty: TypeId| !(#[trigger] kind.has_part(ty))
}

/// The store holds the types in their order.
spec fn stored(kinds: Seq<TypeKind>, known: Declared) -> bool {
    &&& kinds.len() == known.persist.len()
    &&& forall|i: int|
        0 <= i < kinds.len() ==> {
            &&& hollow(#[trigger] kinds[i])
            &&& known.persist[i] == (if bare(kinds[i]) {
                Persistability::Trivial
            } else {
                Persistability::NonPersistable
            })
        }
}

proof fn lemma_stored(kinds: Seq<TypeKind>, known: Declared, i: int)
    requires
        stored(kinds, known),
        0 <= i < kinds.len(),
        kinds.len() <= usize::MAX,
    ensures
        crate::sema::ty::persistence(kinds, TypeId(i as usize), 128) == known.persist[i],
{
    let id = TypeId(i as usize);
    let kind = kinds[i];
    assert(hollow(kind));
    if bare(kind) {
        assert(!crate::sema::ty::blocked(kinds, id, 128));
        assert(!crate::sema::ty::has_param(kinds, id, 128));
    } else {
        let part = choose|ty: TypeId| #[trigger] kind.has_part(ty);
        assert(kind.has_part(part));
        assert(part == TypeId::spec_invalid());
        assert(crate::sema::ty::blocked(kinds, part, 127));
        assert(crate::sema::ty::blocked(kinds, id, 128));
    }
}

fn intern_primitives(store: &mut TypeStore) -> (ids: PrimitiveTypeIds)
    requires
        old(store)@.len() == 0,
    ensures
        ids == PrimitiveTypeIds::standard(),
        stored(final(store)@, Declared::primitive()),
{
    let unit = store.intern(TypeKind::Primitive(PrimitiveType::Unit));
    let bool_ = store.intern(TypeKind::Primitive(PrimitiveType::Bool));
    let int_ = store.intern(TypeKind::Primitive(PrimitiveType::Int));
    let float = store.intern(TypeKind::Primitive(PrimitiveType::Float));
    let char_ = store.intern(TypeKind::Primitive(PrimitiveType::Char));
    let string = store.intern(TypeKind::Primitive(PrimitiveType::String));
    PrimitiveTypeIds { unit, bool_, int: int_, float, char_, string }
}

/// So many fields of which nothing is known.
fn unknown_fields(count: usize) -> (fields: Vec<StructField>)
    ensures
        fields@.len() == count,
        forall|i: int| 0 <= i < count ==> (#[trigger] fields@[i]).ty == TypeId::spec_invalid(),
{
    let mut fields: Vec<StructField> = Vec::new();
    while fields.len() < count
        invariant
            fields@.len() <= count,
            forall|i: int|
                0 <= i < fields@.len() ==> (#[trigger] fields@[i]).ty == TypeId::spec_invalid(),
        decreases count - fields@.len(),
    {
        fields.push(StructField { name: SymbolId::invalid(), ty: TypeId::invalid() });
    }
    fields
}

fn unknown_types(count: usize) -> (types: Vec<TypeId>)
    ensures
        types@.len() == count,
        forall|i: int| 0 <= i < count ==> (#[trigger] types@[i]) == TypeId::spec_invalid(),
{
    let mut types: Vec<TypeId> = Vec::new();
    while types.len() < count
        invariant
            types@.len() <= count,
            forall|i: int| 0 <= i < types@.len() ==> (#[trigger] types@[i])
                == TypeId::spec_invalid(),
        decreases count - types@.len(),
    {
        types.push(TypeId::invalid());
    }
    types
}

fn unknown_variants(decl: &AdtEnumDecl) -> (variants: Vec<EnumVariant>)
    ensures
        variants@.len() == decl@.variants.len(),
        forall|i: int|
            0 <= i < variants@.len() ==> (#[trigger] variants@[i]).fields@.len()
                == decl@.variants[i].field_count,
        forall|i: int, j: int|
            0 <= i < variants@.len() && 0 <= j < variants@[i].fields@.len() ==> (
            #[trigger] variants@[i].fields@[j]) == TypeId::spec_invalid(),
{
    let mut variants: Vec<EnumVariant> = Vec::new();
    let mut i: usize = 0;
    while i < decl.variants.len()
        invariant
            i <= decl.variants@.len(),
            variants@.len() == i,
            forall|k: int|
                0 <= k < i ==> (#[trigger] variants@[k]).fields@.len()
                    == decl@.variants[k].field_count,
            forall|k: int, j: int|
                0 <= k < i && 0 <= j < variants@[k].fields@.len() ==> (
                #[trigger] variants@[k].fields@[j]) == TypeId::spec_invalid(),
        decreases decl.variants@.len() - i,
    {
        let variant = decl.variants[i];
        let fields = unknown_types(variant.field_count);
        let ghost before = variants@;
        variants.push(EnumVariant { name: variant.name, fields });
        proof {
            assert forall|k: int, j: int|
                0 <= k < i + 1 && 0 <= j < variants@[k].fields@.len() implies (
            #[trigger] variants@[k].fields@[j]) == TypeId::spec_invalid() by {
                if k < i {
                    assert(variants@[k] == before[k]);
                    assert(before[k].fields@[j] == TypeId::spec_invalid());
                } else {
                    assert(fields@[j] == TypeId::spec_invalid());
                }
            }
        }
        i += 1;
    }
    variants
}

/// Enters a type under a name that has not been declared.
fn enter(
    store: &mut TypeStore,
    ids: &mut HashMap<usize, TypeId>,
    name: SymbolId,
    kind: TypeKind,
    Ghost(known): Ghost<Declared>,
    Ghost(has_fields): Ghost<bool>,
)
    requires
        stored(old(store)@, known),
        old(ids)@ == known.ids,
        !known.ids.contains_key(name.0),
        hollow(kind),
        bare(kind) <==> !has_fields,
    ensures
        stored(final(store)@, known.with(name, has_fields)),
        final(ids)@ == known.with(name, has_fields).ids,
{
    broadcast use vstd::std_specs::hash::group_hash_axioms;

    let ghost before = store@;
    let ty = store.intern(kind);
    ids.insert(name.0, ty);
    proof {
        let after = known.with(name, has_fields);
        assert forall|i: int| 0 <= i < store@.len() implies {
            &&& hollow(#[trigger] store@[i])
            &&& after.persist[i] == (if bare(store@[i]) {
                Persistability::Trivial
            } else {
                Persistability::NonPersistable
            })
        } by {
            if i < before.len() {
                assert(hollow(before[i]));
            }
        }
    }
}

/// The identifiers of the declared types.
fn intern_program_adts(program: &CoreProgram, store: &mut TypeStore) -> (ids: HashMap<
    usize,
    TypeId,
>)
    requires
        stored(old(store)@, Declared::primitive()),
    ensures
        ids@ == declared(program@).ids,
        stored(final(store)@, declared(program@)),
{
    broadcast use vstd::std_specs::hash::group_hash_axioms;

    let mut ids: HashMap<usize, TypeId> = HashMap::new();
    let mut i: usize = 0;
    assert(ids@ =~= with_structs(program@, 0).ids);
    while i < program.structs.len()
        invariant
            i <= program.structs@.len(),
            ids@ == with_structs(program@, i as int).ids,
            stored(store@, with_structs(program@, i as int)),
        decreases program.structs@.len() - i,
    {
        let decl = program.structs[i];
        let ghost known = with_structs(program@, i as int);
        if !ids.contains_key(&decl.name.0) {
            let fields = unknown_fields(decl.field_count);
            let kind = TypeKind::Struct { name: decl.name, fields };
            proof {
                assert forall|ty: TypeId| #[trigger] kind.has_part(ty) implies ty
                    == TypeId::spec_invalid() by {
                    let k = choose|k: int|
                        0 <= k < fields@.len() && (#[trigger] fields@[k]).ty == ty;
                    assert(fields@[k].ty == ty);
                }
                if decl.field_count > 0 {
                    assert(kind->fields@[0].ty == TypeId::spec_invalid());
                    assert(kind.has_part(TypeId::spec_invalid()));
                } else {
                    assert(bare(kind));
                }
            }
            enter(
                store,
                &mut ids,
                decl.name,
                kind,
                Ghost(known),
                Ghost(decl.field_count > 0),
            );
        }
        assert(with_structs(program@, i as int + 1) == known.with(decl.name, decl.field_count > 0));
        i += 1;
    }
    let mut j: usize = 0;
    while j < program.enums.len()
        invariant
            j <= program.enums@.len(),
            ids@ == with_enums(program@, j as int).ids,
            stored(store@, with_enums(program@, j as int)),
        decreases program.enums@.len() - j,
    {
        let decl = &program.enums[j];
        let ghost known = with_enums(program@, j as int);
        assert(program@.enums[j as int] == decl@);
        if !ids.contains_key(&decl.name.0) {
            let variants = unknown_variants(decl);
            let kind = TypeKind::Enum { name: decl.name, variants };
            proof {
                let n = variants@.len() as int;
                assert forall|ty: TypeId| #[trigger] kind.has_part(ty) implies ty
                    == TypeId::spec_invalid() && enum_has_fields(decl@) by {
                    assert(crate::sema::ty::variant_part(variants@, n, ty));
                    let (a, b) = choose|a: int, b: int|
                        0 <= a < n && 0 <= b < variants@[a].fields@.len() && (
                        #[trigger] variants@[a].fields@[b]) == ty;
                    assert(variants@[a].fields@[b] == ty);
                    assert(decl@.variants[a].field_count > 0);
                }
                if enum_has_fields(decl@) {
                    let a = choose|a: int|
                        0 <= a < decl@.variants.len() && (
                        #[trigger] decl@.variants[a]).field_count > 0;
                    assert(variants@[a].fields@.len() > 0);
                    assert(variants@[a].fields@[0] == TypeId::spec_invalid());
                    assert(crate::sema::ty::variant_part(variants@, n, TypeId::spec_invalid()));
                    assert(kind.has_part(TypeId::spec_invalid()));
                }
            }
            enter(
                store,
                &mut ids,
                decl.name,
                kind,
                Ghost(known),
                Ghost(enum_has_fields(decl@)),
            );
        }
        assert(with_enums(program@, j as int + 1) == known.with(decl@.name, enum_has_fields(decl@)));
        j += 1;
    }
    ids
}

/// The types of a program: the primitive ones, the declared ones by name, and
/// how the values of each persist.
pub(crate) fn declare_types(program: &CoreProgram) -> (out: (
    PrimitiveTypeIds,
    HashMap<usize, TypeId>,
    Vec<Persistability>,
))
    ensures
        out.0 == PrimitiveTypeIds::standard(),
        out.1@ == declared(program@).ids,
        out.2@ == declared(program@).persist,
{
    let mut store = TypeStore::new();
    let prim = intern_primitives(&mut store);
    let ids = intern_program_adts(program, &mut store);
    let n: usize = store.len();
    let mut persist: Vec<Persistability> = Vec::new();
    while persist.len() < n
        invariant
            persist@.len() <= n,
            n == store@.len(),
            stored(store@, declared(program@)),
            forall|i: int|
                0 <= i < persist@.len() ==> (#[trigger] persist@[i]) == declared(
                    program@,
                ).persist[i],
        decreases n - persist@.len(),
    {
        proof {
            lemma_stored(store@, declared(program@), persist@.len() as int);
        }
        persist.push(store.persistability(TypeId::new(persist.len())));
    }
    assert(persist@ =~= declared(program@).persist);
    (prim, ids, persist)
}

/// Declaring more types keeps the identifiers of those that are there.
pub proof fn lemma_declared_kept(known: Declared, name: SymbolId, has_fields: bool, other: usize)
    requires
        known.ids.contains_key(other),
    ensures
        known.with(name, has_fields).ids.contains_key(other),
        known.with(name, has_fields).ids[other] == known.ids[other],
{
}

// ---------------------------------------------------------------------------
// Signatures
// ---------------------------------------------------------------------------

/// The type that a reference stands for, if it is known.
pub open spec fn resolved(
    ids: Map<usize, TypeId>,
    prim: PrimitiveTypeIds,
    ty: CoreTypeRef,
) -> Option<TypeId> {
    match ty {
        CoreTypeRef::Unit => Some(prim.unit),
        CoreTypeRef::Primitive(PrimitiveTypeRef::Bool) => Some(prim.bool_),
        CoreTypeRef::Primitive(PrimitiveTypeRef::Int) => Some(prim.int),
        CoreTypeRef::Primitive(PrimitiveTypeRef::Float) => Some(prim.float),
        CoreTypeRef::Primitive(PrimitiveTypeRef::Char) => Some(prim.char_),
        CoreTypeRef::Primitive(PrimitiveTypeRef::String) => Some(prim.string),
        CoreTypeRef::Named(name) => if ids.contains_key(name.0) {
            Some(ids[name.0])
        } else {
            None
        },
        CoreTypeRef::Unknown => None,
    }
}

fn resolve_type_ref(
    ty: CoreTypeRef,
    adt_types: &HashMap<usize, TypeId>,
    prim: PrimitiveTypeIds,
) -> (found: Option<TypeId>)
    ensures
        found == resolved(adt_types@, prim, ty),
{
    broadcast use vstd::std_specs::hash::group_hash_axioms;

    match ty {
        CoreTypeRef::Unit => Some(prim.unit),
        CoreTypeRef::Primitive(primitive) => Some(
            match primitive {
                PrimitiveTypeRef::Bool => prim.bool_,
                PrimitiveTypeRef::Int => prim.int,
                PrimitiveTypeRef::Float => prim.float,
                PrimitiveTypeRef::Char => prim.char_,
                PrimitiveTypeRef::String => prim.string,
            },
        ),
        CoreTypeRef::Named(name) => match adt_types.get(&name.0) {
            Some(ty) => Some(*ty),
            None => None,
        },
        CoreTypeRef::Unknown => None,
    }
}

/// What is known of the parameters and the result of an operation.
#[derive(Debug)]
pub struct EffectSignature {
    pub effect: EffectLabelId,
    pub operation: SymbolId,
    pub param_types: Vec<Option<TypeId>>,
    pub return_type: Option<TypeId>,
}

#[verifier::ext_equal]
pub struct SignatureModel {
    pub effect: EffectLabelId,
    pub operation: SymbolId,
    pub param_types: Seq<Option<TypeId>>,
    pub return_type: Option<TypeId>,
}

impl View for EffectSignature {
    type V = SignatureModel;

    open spec fn view(&self) -> SignatureModel {
        SignatureModel {
            effect: self.effect,
            operation: self.operation,
            param_types: self.param_types@,
            return_type: self.return_type,
        }
    }
}

/// The signature of a declared operation.
pub open spec fn signature_of(
    ids: Map<usize, TypeId>,
    prim: PrimitiveTypeIds,
    effect: EffectLabelId,
    op: EffectOpModel,
) -> SignatureModel {
    SignatureModel {
        effect,
        operation: op.name,
        param_types: Seq::new(
            op.param_types.len(),
            |i: int| resolved(ids, prim, op.param_types[i]),
        ),
        return_type: resolved(ids, prim, op.return_type),
    }
}

pub open spec fn effect_signatures(
    ids: Map<usize, TypeId>,
    prim: PrimitiveTypeIds,
    effect: EffectModel,
) -> Seq<SignatureModel> {
    Seq::new(
        effect.operations.len(),
        |i: int| signature_of(ids, prim, effect.label, effect.operations[i]),
    )
}

/// The signatures of the operations of the first effects, in their order.
pub open spec fn signatures(
    p: CoreModel,
    ids: Map<usize, TypeId>,
    prim: PrimitiveTypeIds,
    first: int,
) -> Seq<SignatureModel>
    decreases first,
{
    if first <= 0 {
        Seq::empty()
    } else {
        signatures(p, ids, prim, first - 1) + effect_signatures(ids, prim, p.effects[first - 1])
    }
}

/// The signature that holds for an operation: the last one that was declared.
pub open spec fn lookup(
    table: Seq<SignatureModel>,
    first: int,
    effect: EffectLabelId,
    operation: SymbolId,
) -> Option<SignatureModel>
    decreases first,
{
    if first <= 0 {
        None
    } else if table[first - 1].effect == effect && table[first - 1].operation == operation {
        Some(table[first - 1])
    } else {
        lookup(table, first - 1, effect, operation)
    }
}

fn build_signature(
    effect: EffectLabelId,
    op: &EffectOpDecl,
    adt_types: &HashMap<usize, TypeId>,
    prim: PrimitiveTypeIds,
) -> (signature: EffectSignature)
    ensures
        signature@ == signature_of(adt_types@, prim, effect, op@),
{
    let mut param_types: Vec<Option<TypeId>> = Vec::new();
    let mut i: usize = 0;
    while i < op.param_types.len()
        invariant
            i <= op.param_types@.len(),
            param_types@.len() == i,
            forall|k: int|
                0 <= k < i ==> (#[trigger] param_types@[k]) == resolved(
                    adt_types@,
                    prim,
                    op.param_types@[k],
                ),
        decreases op.param_types@.len() - i,
    {
        param_types.push(resolve_type_ref(op.param_types[i], adt_types, prim));
        i += 1;
    }
    let return_type = resolve_type_ref(op.return_type, adt_types, prim);
    let signature = EffectSignature { effect, operation: op.name, param_types, return_type };
    assert(signature@ =~= signature_of(adt_types@, prim, effect, op@));
    signature
}

pub(crate) fn build_effect_signatures(
    program: &CoreProgram,
    adt_types: &HashMap<usize, TypeId>,
    prim: PrimitiveTypeIds,
) -> (table: Vec<EffectSignature>)
    ensures
        crate::common::views(table@) == signatures(
            program@,
            adt_types@,
            prim,
            program@.effects.len() as int,
        ),
{
    broadcast use crate::common::lemma_views_push;

    let mut table: Vec<EffectSignature> = Vec::new();
    let mut i: usize = 0;
    assert(crate::common::views(table@) =~= Seq::empty());
    while i < program.effects.len()
        invariant
            i <= program.effects@.len(),
            crate::common::views(table@) == signatures(program@, adt_types@, prim, i as int),
        decreases program.effects@.len() - i,
    {
        let effect = &program.effects[i];
        assert(program@.effects[i as int] == effect@);
        let ghost all = effect_signatures(adt_types@, prim, effect@);
        let ghost before = crate::common::views(table@);
        let mut j: usize = 0;
        assert(before + all.take(0) =~= before);
        while j < effect.operations.len()
            invariant
                j <= effect.operations@.len(),
                all == effect_signatures(adt_types@, prim, effect@),
                crate::common::views(table@) == before + all.take(j as int),
            decreases effect.operations@.len() - j,
        {
            broadcast use crate::common::lemma_views_push;

            assert(effect@.operations[j as int] == effect.operations@[j as int]@);
            table.push(build_signature(effect.label, &effect.operations[j], adt_types, prim));
            assert(before + all.take(j as int + 1) =~= (before + all.take(j as int)).push(
                all[j as int],
            ));
            j += 1;
        }
        assert(all.take(j as int) =~= all);
        i += 1;
    }
    table
}

pub(crate) fn find_signature<'a>(
    table: &'a Vec<EffectSignature>,
    effect: EffectLabelId,
    operation: SymbolId,
) -> (found: Option<&'a EffectSignature>)
    ensures
        match found {
            Some(signature) => lookup(
                crate::common::views(table@),
                table@.len() as int,
                effect,
                operation,
            ) == Some(signature@),
            None => lookup(
                crate::common::views(table@),
                table@.len() as int,
                effect,
                operation,
            ) is None,
        },
{
    let ghost all = crate::common::views(table@);
    let mut i: usize = table.len();
    while i > 0
        invariant
            i <= table@.len(),
            all == crate::common::views(table@),
            lookup(all, table@.len() as int, effect, operation) == lookup(
                all,
                i as int,
                effect,
                operation,
            ),
        decreases i,
    {
        let signature = &table[i - 1];
        assert(all[i - 1] == signature@);
        if signature.effect == effect && signature.operation == operation {
            return Some(signature);
        }
        i -= 1;
    }
    None
}

/// A signature that is found belongs to the operation.
pub proof fn lemma_lookup(
    table: Seq<SignatureModel>,
    first: int,
    effect: EffectLabelId,
    operation: SymbolId,
)
    requires
        first <= table.len(),
    ensures
        lookup(table, first, effect, operation) matches Some(signature) ==> {
            &&& signature.effect == effect
            &&& signature.operation == operation
            &&& table.contains(signature)
        },
    decreases first,
{
    if first > 0 {
        lemma_lookup(table, first - 1, effect, operation);
        assert(table.contains(table[first - 1]));
    }
}

} // verus!
