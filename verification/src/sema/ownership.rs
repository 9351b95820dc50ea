//! Which values own memory that is counted.
use crate::ir::core_ir::{CoreTypeRef, PrimitiveTypeRef};
use crate::sema::ty::{PrimitiveType, TypeKind};
use vstd::prelude::*;

verus! {

#[derive(Clone, Copy, PartialEq, Eq, Debug, Structural)]
pub enum OwnershipClass {
    Trivial,
    RcManaged,
    BorrowedView,
}

impl Default for OwnershipClass {
    fn default() -> (class: Self)
        ensures
            class == OwnershipClass::Trivial,
    {
        OwnershipClass::Trivial
    }
}

impl OwnershipClass {
    /// How strongly a class asks for care: counted values most, plain ones least.
    pub open spec fn weight(self) -> nat {
        match self {
            OwnershipClass::RcManaged => 2,
            OwnershipClass::BorrowedView => 1,
            OwnershipClass::Trivial => 0,
        }
    }

    pub open spec fn merged(self, other: Self) -> Self {
        if self.weight() >= other.weight() {
            self
        } else {
            other
        }
    }

    /// The class of what may come from either side: the one that asks for more
    /// care.
    pub fn merge(self, other: Self) -> (class: Self)
        ensures
            class == self.merged(other),
    {
        match (self, other) {
            (OwnershipClass::RcManaged, _) => OwnershipClass::RcManaged,
            (_, OwnershipClass::RcManaged) => OwnershipClass::RcManaged,
            (OwnershipClass::BorrowedView, _) => OwnershipClass::BorrowedView,
            (_, OwnershipClass::BorrowedView) => OwnershipClass::BorrowedView,
            (OwnershipClass::Trivial, OwnershipClass::Trivial) => OwnershipClass::Trivial,
        }
    }
}

/// Merging does not depend on order or grouping, and a class merged with itself
/// stays.
pub proof fn lemma_merge_laws(a: OwnershipClass, b: OwnershipClass, c: OwnershipClass)
    ensures
        a.merged(b) == b.merged(a),
        a.merged(b).merged(c) == a.merged(b.merged(c)),
        a.merged(a) == a,
        a.merged(OwnershipClass::Trivial) == a,
{
}

/// The class of the values of a type.
pub open spec fn kind_class(kind: TypeKind) -> OwnershipClass {
    match kind {
        TypeKind::Struct { .. } | TypeKind::Enum { .. } => OwnershipClass::RcManaged,
        TypeKind::Primitive(p) => if p is String {
            OwnershipClass::BorrowedView
        } else {
            OwnershipClass::Trivial
        },
        _ => OwnershipClass::BorrowedView,
    }
}

pub fn classify_type_kind(kind: &TypeKind) -> (class: OwnershipClass)
    ensures
        class == kind_class(*kind),
{
    match kind {
        TypeKind::Primitive(primitive) => match primitive {
            PrimitiveType::String => OwnershipClass::BorrowedView,
            PrimitiveType::Unit
            | PrimitiveType::Bool
            | PrimitiveType::Int
            | PrimitiveType::Float
            | PrimitiveType::Char => OwnershipClass::Trivial,
        },
        TypeKind::Struct { .. } | TypeKind::Enum { .. } => OwnershipClass::RcManaged,
        TypeKind::Function(_) | TypeKind::TypeParam(_) | TypeKind::Error => {
            OwnershipClass::BorrowedView
        },
    }
}

/// The class of the values that a type reference stands for.
pub open spec fn ref_class(ty: CoreTypeRef) -> OwnershipClass {
    match ty {
        CoreTypeRef::Unit => OwnershipClass::Trivial,
        CoreTypeRef::Primitive(p) => if p is String {
            OwnershipClass::BorrowedView
        } else {
            OwnershipClass::Trivial
        },
        CoreTypeRef::Named(_) => OwnershipClass::RcManaged,
        CoreTypeRef::Unknown => OwnershipClass::BorrowedView,
    }
}

pub fn classify_core_type_ref(ty: &CoreTypeRef) -> (class: OwnershipClass)
    ensures
        class == ref_class(*ty),
{
    match ty {
        CoreTypeRef::Unit => OwnershipClass::Trivial,
        CoreTypeRef::Primitive(primitive) => match primitive {
            PrimitiveTypeRef::String => OwnershipClass::BorrowedView,
            PrimitiveTypeRef::Bool
            | PrimitiveTypeRef::Int
            | PrimitiveTypeRef::Float
            | PrimitiveTypeRef::Char => OwnershipClass::Trivial,
        },
        CoreTypeRef::Named(_) => OwnershipClass::RcManaged,
        CoreTypeRef::Unknown => OwnershipClass::BorrowedView,
    }
}

} // verus!
