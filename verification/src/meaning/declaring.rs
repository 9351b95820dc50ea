//! What names, types and calls are taken for.
use crate::common::ids::{EffectLabelId, SymbolId};
use crate::frontend::ast;
use crate::ir::cfg::CfgCallConvention;
use crate::ir::core_ir::{CoreTypeRef, PrimitiveTypeRef};
use crate::ir::linear::CallConvention;
use crate::sema::effect::EffectProperties;
use crate::sema::ownership::OwnershipClass;
use crate::sema::ty::{PrimitiveType, TypeKind};
use vstd::prelude::*;

verus! {

/// What may come from either of two sides is counted if one of them is, a view
/// if none is counted and one is a view, and plain only if both are.
pub proof fn lemma_either_side(a: OwnershipClass, b: OwnershipClass)
    ensures
        a.merged(b) is RcManaged <==> a is RcManaged || b is RcManaged,
        a.merged(b) is Trivial <==> a is Trivial && b is Trivial,
        a.merged(b) == a || a.merged(b) == b,
{
}

/// Just the values that are made of fields are counted. Numbers, truth values,
/// characters and the unit value need no care; a text is a view.
pub proof fn lemma_class_of_type(kind: TypeKind, ty: CoreTypeRef)
    ensures
        crate::sema::ownership::kind_class(kind) is RcManaged <==> kind is Struct || kind is Enum,
        crate::sema::ownership::ref_class(ty) is RcManaged <==> ty is Named,
        kind matches TypeKind::Primitive(p) ==> (p == PrimitiveType::String
            <==> crate::sema::ownership::kind_class(kind) is BorrowedView),
        ty matches CoreTypeRef::Primitive(p) ==> (p == PrimitiveTypeRef::String
            <==> crate::sema::ownership::ref_class(ty) is BorrowedView),
        crate::sema::ownership::kind_class(kind) is Trivial ==> kind is Primitive,
        crate::sema::ownership::ref_class(ty) is Trivial ==> ty is Primitive || ty is Unit,
        crate::sema::ownership::ref_class(CoreTypeRef::Unit) is Trivial,
        crate::sema::ownership::ref_class(CoreTypeRef::Unknown) is BorrowedView,
{
}

/// A call without effects is pure; one with effects of which each can be
/// suspended is direct, and one with an effect that cannot transfers control.
pub proof fn lemma_call_convention(
    row: Seq<EffectLabelId>,
    properties: Map<usize, EffectProperties>,
)
    ensures
        ({
            let convention = crate::passes::linearize::lowering::call_convention(row, properties);
            let blocks = exists|i: int|
                0 <= i < row.len() && !crate::meaning::staging::suspends(
                    properties,
                    #[trigger] row[i],
                );
            &&& convention is Pure <==> row.len() == 0
            &&& convention is Control <==> blocks
        }),
{
    if crate::sema::effect::row_thunkable(row, properties) {
        assert forall|i: int| 0 <= i < row.len() implies crate::meaning::staging::suspends(
            properties,
            #[trigger] row[i],
        ) by {
            assert(crate::sema::effect::label_thunkable(properties, row[i]));
        }
    } else {
        let i = choose|i: int|
            0 <= i < row.len() && !crate::sema::effect::label_thunkable(
                properties,
                #[trigger] row[i],
            );
        assert(!crate::meaning::staging::suspends(properties, row[i]));
    }
}

/// A call keeps its convention in the graph.
pub proof fn lemma_convention_kept(convention: CallConvention)
    ensures
        convention is Pure <==> CfgCallConvention::of(convention) is Pure,
        convention is Direct <==> CfgCallConvention::of(convention) is Direct,
        convention is Control <==> CfgCallConvention::of(convention) is Control,
{
}

/// A name stands for a struct just where one of that name is declared, and then
/// with as many fields as the last of them has.
pub proof fn lemma_struct_names(items: Seq<ast::Item>, first: nat, name: SymbolId) -> (last: Option<
    int,
>)
    requires
        first <= items.len(),
    ensures
        ({
            let structs = crate::passes::lowering::declarations(items, first).structs;
            match last {
                Some(i) => {
                    &&& 0 <= i < first
                    &&& is_struct(items[i], name)
                    &&& forall|j: int| i < j < first ==> !is_struct(#[trigger] items[j], name)
                    &&& structs.contains_key(name.0)
                    &&& structs[name.0] == items[i]->Struct_0.fields@.len() as usize
                },
                None => {
                    &&& forall|j: int| 0 <= j < first ==> !is_struct(#[trigger] items[j], name)
                    &&& !structs.contains_key(name.0)
                },
            }
        }),
    decreases first,
{
    if first == 0 {
        None
    } else {
        let before = lemma_struct_names(items, (first - 1) as nat, name);
        if is_struct(items[first - 1], name) {
            Some(first - 1)
        } else {
            if let ast::Item::Struct(decl) = items[first - 1] {
                assert(decl.name.0 != name.0) by {
                    if decl.name.0 == name.0 {
                        assert(decl.name == name);
                    }
                }
            }
            before
        }
    }
}

pub open spec fn is_struct(item: ast::Item, name: SymbolId) -> bool {
    item matches ast::Item::Struct(decl) && decl.name == name
}

/// A name that stands for a variant is that of a variant of a declared enum, and
/// stands for one of that enum with as many fields.
pub proof fn lemma_variant_names(items: Seq<ast::Item>, first: nat, name: SymbolId)
    requires
        first <= items.len(),
        crate::passes::lowering::declarations(items, first).enums.contains_key(name.0),
    ensures
        exists|i: int, k: int|
            0 <= i < first && #[trigger] is_variant(
                items[i],
                k,
                name,
                crate::passes::lowering::declarations(items, first).enums[name.0],
            ),
    decreases first,
{
    let enums = crate::passes::lowering::declarations(items, first).enums;
    let before = crate::passes::lowering::declarations(items, (first - 1) as nat).enums;
    match items[first - 1] {
        ast::Item::Enum(decl) => {
            lemma_with_variants(before, decl, decl.variants@.len(), name);
            if exists|k: int|
                0 <= k < decl.variants@.len() && (#[trigger] decl.variants@[k]).name == name {
                let k = choose|k: int|
                    {
                        &&& 0 <= k < decl.variants@.len()
                        &&& (#[trigger] decl.variants@[k]).name == name
                        &&& enums[name.0] == (
                            decl.name,
                            decl.variants@[k].fields@.len() as usize,
                        )
                    };
                assert(is_variant(items[first - 1], k, name, enums[name.0]));
            } else {
                lemma_variant_names(items, (first - 1) as nat, name);
            }
        },
        _ => {
            lemma_variant_names(items, (first - 1) as nat, name);
        },
    }
}

pub open spec fn is_variant(
    item: ast::Item,
    k: int,
    name: SymbolId,
    to: (SymbolId, usize),
) -> bool {
    &&& item matches ast::Item::Enum(decl)
    &&& decl.name == to.0
    &&& 0 <= k < decl.variants@.len()
    &&& decl.variants@[k].name == name
    &&& to.1 == decl.variants@[k].fields@.len() as usize
}

proof fn lemma_with_variants(
    enums: Map<usize, (SymbolId, usize)>,
    decl: ast::EnumItem,
    first: nat,
    name: SymbolId,
)
    requires
        first <= decl.variants@.len(),
    ensures
        ({
            let after = crate::passes::lowering::with_variants(enums, decl, first);
            if exists|k: int| 0 <= k < first && (#[trigger] decl.variants@[k]).name == name {
                exists|k: int|
                    {
                        &&& 0 <= k < first
                        &&& (#[trigger] decl.variants@[k]).name == name
                        &&& after[name.0] == (
                            decl.name,
                            decl.variants@[k].fields@.len() as usize,
                        )
                    }
            } else {
                after.contains_key(name.0) == enums.contains_key(name.0) && after[name.0]
                    == enums[name.0]
            }
        }),
    decreases first,
{
    if first > 0 {
        lemma_with_variants(enums, decl, (first - 1) as nat, name);
        let last = decl.variants@[first - 1];
        assert(decl.variants@[first - 1] == last);
        if last.name.0 == name.0 {
            assert(last.name == name);
        }
        if exists|k: int| 0 <= k < first - 1 && (#[trigger] decl.variants@[k]).name == name {
            let k = choose|k: int|
                0 <= k < first - 1 && (#[trigger] decl.variants@[k]).name == name;
            assert(decl.variants@[k].name == name);
        }
    }
}

} // verus!
