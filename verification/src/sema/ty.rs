//! Types, and whether their values survive from compile time to run time.
use crate::common::ids::{SymbolId, TypeId};
use crate::sema::effect::SortedEffectRow;
use vstd::prelude::*;

verus! {

#[derive(Clone, Copy, PartialEq, Eq, Debug, Structural)]
pub enum Persistability {
    Trivial,
    Serializable,
    NonPersistable,
}

#[derive(Clone, Copy, PartialEq, Eq, Hash, Debug, Structural)]
pub enum PrimitiveType {
    Unit,
    Bool,
    Int,
    Float,
    Char,
    String,
}

#[derive(Clone, Copy, PartialEq, Eq, Debug, Structural)]
pub struct StructField {
    pub name: SymbolId,
    pub ty: TypeId,
}

#[derive(Clone, Debug)]
pub struct EnumVariant {
    pub name: SymbolId,
    pub fields: Vec<TypeId>,
}

#[derive(Clone, Debug)]
pub struct FunctionType {
    pub params: Vec<TypeId>,
    pub ret: TypeId,
    pub effects: SortedEffectRow,
}

#[derive(Clone, Debug)]
pub enum TypeKind {
    Primitive(PrimitiveType),
    Struct { name: SymbolId, fields: Vec<StructField> },
    Enum { name: SymbolId, variants: Vec<EnumVariant> },
    Function(FunctionType),
    TypeParam(u16),
    Error,
}

impl TypeKind {
    /// Whether a value of this type holds a value of another.
    pub open spec fn has_part(self, ty: TypeId) -> bool {
        match self {
            TypeKind::Struct { fields, .. } => exists|i: int|
                0 <= i < fields@.len() && (#[trigger] fields@[i]).ty == ty,
            TypeKind::Enum { variants, .. } => variant_part(
                variants@,
                variants@.len() as int,
                ty,
            ),
            _ => false,
        }
    }
}

/// Every type of a program, each at the position of its identifier.
#[derive(Clone, Debug)]
pub struct TypeStore {
    pub kinds: Vec<TypeKind>,
}

impl View for TypeStore {
    type V = Seq<TypeKind>;

    open spec fn view(&self) -> Seq<TypeKind> {
        self.kinds@
    }
}

impl Default for TypeStore {
    fn default() -> (store: Self)
        ensures
            store@ == Seq::<TypeKind>::empty(),
    {
        TypeStore::new()
    }
}

/// How deeply types may be nested in one another before their values count as
/// not persistable.
pub const MAX_DEPTH: usize = 128;

/// Whether some value inside a type, at most so many levels down, cannot
/// persist; below the last level nothing can.
pub open spec fn blocked(kinds: Seq<TypeKind>, id: TypeId, levels: nat) -> bool
    decreases levels,
{
    ||| id.0 >= kinds.len()
    ||| kinds[id.0 as int] is Error
    ||| kinds[id.0 as int] is Function
    ||| exists|part: TypeId| #[trigger]
        kinds[id.0 as int].has_part(part) && (levels == 0 || blocked(
            kinds,
            part,
            (levels - 1) as nat,
        ))
}

/// Whether a type parameter stands inside a type, at most so many levels down.
pub open spec fn has_param(kinds: Seq<TypeKind>, id: TypeId, levels: nat) -> bool
    decreases levels,
{
    &&& id.0 < kinds.len()
    &&& {
        ||| kinds[id.0 as int] is TypeParam
        ||| exists|part: TypeId| #[trigger]
            kinds[id.0 as int].has_part(part) && levels > 0 && has_param(
                kinds,
                part,
                (levels - 1) as nat,
            )
    }
}

/// How the values of a type persist.
pub open spec fn persistence(kinds: Seq<TypeKind>, id: TypeId, levels: nat) -> Persistability {
    if blocked(kinds, id, levels) {
        Persistability::NonPersistable
    } else if has_param(kinds, id, levels) {
        Persistability::Serializable
    } else {
        Persistability::Trivial
    }
}

impl TypeStore {
    pub fn new() -> (store: Self)
        ensures
            store@ == Seq::<TypeKind>::empty(),
    {
        TypeStore { kinds: Vec::new() }
    }

    pub fn len(&self) -> (n: usize)
        ensures
            n == self@.len(),
    {
        self.kinds.len()
    }

    pub fn is_empty(&self) -> (b: bool)
        ensures
            b == (self@.len() == 0),
    {
        self.kinds.len() == 0
    }

    /// Adds a type, and gives the identifier by which it is found again.
    pub fn intern(&mut self, kind: TypeKind) -> (id: TypeId)
        ensures
            final(self)@ == old(self)@.push(kind),
            id.0 == old(self)@.len(),
    {
        let id = TypeId::new(self.kinds.len());
        self.kinds.push(kind);
        id
    }

    pub fn get(&self, id: TypeId) -> (kind: Option<&TypeKind>)
        ensures
            match kind {
                Some(k) => id.0 < self@.len() && *k == self@[id.0 as int],
                None => id.0 >= self@.len(),
            },
    {
        if id.0 < self.kinds.len() {
            Some(&self.kinds[id.0])
        } else {
            None
        }
    }

    pub fn kinds(&self) -> (kinds: &[TypeKind])
        ensures
            kinds@ == self@,
    {
        self.kinds.as_slice()
    }

    /// Whether the values of a type survive from compile time to run time: all
    /// but functions, erroneous types and what is nested too deeply do.
    pub fn persistability(&self, id: TypeId) -> (p: Persistability)
        ensures
            p == persistence(self@, id, MAX_DEPTH as nat),
    {
        self.persistability_with_depth(id, 0)
    }

    fn persistability_with_depth(&self, id: TypeId, depth: usize) -> (p: Persistability)
        requires
            depth <= MAX_DEPTH,
        ensures
            p == persistence(self@, id, (MAX_DEPTH - depth) as nat),
        decreases MAX_DEPTH - depth, 2nat,
    {
        match self.get(id) {
            None => Persistability::NonPersistable,
            Some(kind) => match kind {
                TypeKind::Primitive(_) => Persistability::Trivial,
                TypeKind::TypeParam(_) => Persistability::Serializable,
                TypeKind::Error => Persistability::NonPersistable,
                TypeKind::Function(_) => Persistability::NonPersistable,
                TypeKind::Struct { fields, .. } => {
                    let parts = field_types(fields);
                    self.fold_parts(id, &parts, depth)
                },
                TypeKind::Enum { variants, .. } => {
                    let parts = variant_types(variants);
                    self.fold_parts(id, &parts, depth)
                },
            },
        }
    }

    /// How a part persists, one level further down.
    fn part_persistability(&self, id: TypeId, part: TypeId, depth: usize) -> (p: Persistability)
        requires
            depth <= MAX_DEPTH,
            id.0 < self@.len(),
            self@[id.0 as int].has_part(part),
        ensures
            p is NonPersistable <==> depth == MAX_DEPTH || blocked(
                self@,
                part,
                (MAX_DEPTH - depth - 1) as nat,
            ),
            !(p is NonPersistable) ==> (p is Serializable <==> has_param(
                self@,
                part,
                (MAX_DEPTH - depth - 1) as nat,
            )),
        decreases MAX_DEPTH - depth, 0nat,
    {
        if depth == MAX_DEPTH {
            Persistability::NonPersistable
        } else {
            self.persistability_with_depth(part, depth + 1)
        }
    }

    /// How a type with the given parts persists.
    fn fold_parts(&self, id: TypeId, parts: &Vec<TypeId>, depth: usize) -> (p: Persistability)
        requires
            depth <= MAX_DEPTH,
            id.0 < self@.len(),
            self@[id.0 as int] is Struct || self@[id.0 as int] is Enum,
            forall|ty: TypeId| #[trigger]
                self@[id.0 as int].has_part(ty) <==> parts@.contains(ty),
        ensures
            p == persistence(self@, id, (MAX_DEPTH - depth) as nat),
        decreases MAX_DEPTH - depth, 1nat,
    {
        let ghost kind = self@[id.0 as int];
        let ghost levels = (MAX_DEPTH - depth - 1) as nat;
        let mut any_serializable = false;
        let mut i: usize = 0;
        while i < parts.len()
            invariant
                i <= parts@.len(),
                depth <= MAX_DEPTH,
                id.0 < self@.len(),
                kind == self@[id.0 as int],
                forall|ty: TypeId| #[trigger] kind.has_part(ty) <==> parts@.contains(ty),
                levels == (MAX_DEPTH - depth - 1) as nat,
                i > 0 ==> depth < MAX_DEPTH,
                forall|j: int| 0 <= j < i ==> !blocked(self@, #[trigger] parts@[j], levels),
                any_serializable ==> exists|j: int|
                    0 <= j < i && has_param(self@, #[trigger] parts@[j], levels),
                !any_serializable ==> forall|j: int|
                    0 <= j < i ==> !has_param(self@, #[trigger] parts@[j], levels),
            decreases parts@.len() - i,
        {
            let part = parts[i];
            assert(parts@.contains(part));
            assert(kind.has_part(part));
            match self.part_persistability(id, part, depth) {
                Persistability::Trivial => {},
                Persistability::Serializable => {
                    assert(has_param(self@, parts@[i as int], levels));
                    any_serializable = true;
                },
                Persistability::NonPersistable => {
                    return Persistability::NonPersistable;
                },
            }
            i += 1;
        }
        proof {
            let all = (MAX_DEPTH - depth) as nat;
            assert forall|part: TypeId| #[trigger] kind.has_part(part) implies depth < MAX_DEPTH
                && !blocked(self@, part, levels) && (has_param(self@, part, levels)
                ==> any_serializable) by {
                assert(parts@.contains(part));
                let j = choose|j: int| 0 <= j < parts@.len() && parts@[j] == part;
                assert(!blocked(self@, parts@[j], levels));
            }
            assert(!blocked(self@, id, all));
            if any_serializable {
                let j = choose|j: int|
                    0 <= j < i && has_param(self@, #[trigger] parts@[j], levels);
                assert(parts@.contains(parts@[j]));
                assert(kind.has_part(parts@[j]));
                assert(has_param(self@, id, all));
            } else {
                assert(!has_param(self@, id, all));
            }
        }
        if any_serializable {
            Persistability::Serializable
        } else {
            Persistability::Trivial
        }
    }
}

/// The types of the values that a value of this type holds.
fn field_types(fields: &Vec<StructField>) -> (parts: Vec<TypeId>)
    ensures
        forall|ty: TypeId| #[trigger]
            parts@.contains(ty) <==> exists|i: int|
                0 <= i < fields@.len() && (#[trigger] fields@[i]).ty == ty,
{
    let mut parts: Vec<TypeId> = Vec::new();
    let mut i: usize = 0;
    while i < fields.len()
        invariant
            i <= fields@.len(),
            parts@.len() == i,
            forall|j: int| 0 <= j < i ==> parts@[j] == (#[trigger] fields@[j]).ty,
        decreases fields@.len() - i,
    {
        parts.push(fields[i].ty);
        i += 1;
    }
    assert forall|ty: TypeId| #[trigger] parts@.contains(ty) <==> exists|i: int|
        0 <= i < fields@.len() && (#[trigger] fields@[i]).ty == ty by {
        if parts@.contains(ty) {
            let k = choose|k: int| 0 <= k < parts@.len() && parts@[k] == ty;
            assert(fields@[k].ty == ty);
        }
        if exists|i: int| 0 <= i < fields@.len() && (#[trigger] fields@[i]).ty == ty {
            let k = choose|i: int| 0 <= i < fields@.len() && (#[trigger] fields@[i]).ty == ty;
            assert(parts@[k] == ty);
        }
    }
    parts
}

/// Whether one of the first variants holds a value of a type.
pub open spec fn variant_part(variants: Seq<EnumVariant>, first: int, ty: TypeId) -> bool {
    exists|i: int, j: int|
        0 <= i < first && 0 <= j < variants[i].fields@.len() && (
        #[trigger] variants[i].fields@[j]) == ty
}

fn variant_types(variants: &Vec<EnumVariant>) -> (parts: Vec<TypeId>)
    ensures
        forall|ty: TypeId| #[trigger]
            parts@.contains(ty) <==> variant_part(variants@, variants@.len() as int, ty),
{
    let mut parts: Vec<TypeId> = Vec::new();
    let mut i: usize = 0;
    while i < variants.len()
        invariant
            i <= variants@.len(),
            forall|ty: TypeId| #[trigger]
                parts@.contains(ty) <==> variant_part(variants@, i as int, ty),
        decreases variants@.len() - i,
    {
        let ghost before = parts@;
        let mut fields = variants[i].fields.clone();
        let ghost held = variants@[i as int].fields@;
        assert(fields@ =~= held);
        parts.append(&mut fields);
        assert(parts@ =~= before + held);
        proof {
            assert forall|ty: TypeId| #[trigger] parts@.contains(ty) <==> variant_part(
                variants@,
                i as int + 1,
                ty,
            ) by {
                if parts@.contains(ty) {
                    let k = choose|k: int| 0 <= k < parts@.len() && parts@[k] == ty;
                    if k < before.len() {
                        assert(before[k] == ty);
                        assert(before.contains(ty));
                        assert(variant_part(variants@, i as int, ty));
                    } else {
                        assert(variants@[i as int].fields@[k - before.len()] == ty);
                    }
                }
                if variant_part(variants@, i as int + 1, ty) {
                    let (a, b) = choose|a: int, b: int|
                        0 <= a < i + 1 && 0 <= b < variants@[a].fields@.len() && (
                        #[trigger] variants@[a].fields@[b]) == ty;
                    if a < i {
                        assert(variant_part(variants@, i as int, ty));
                        assert(before.contains(ty));
                        let k = choose|k: int| 0 <= k < before.len() && before[k] == ty;
                        assert(parts@[k] == ty);
                    } else {
                        assert(parts@[before.len() + b] == ty);
                    }
                }
            }
        }
        i += 1;
    }
    parts
}

} // verus!
