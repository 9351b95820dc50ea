//! What code does to the world, and what comes of it.
use crate::common::ids::{EffectLabelId, SymbolId, VarId};
use crate::ir::core_ir::StageDirective;
use crate::meaning::values::{Arithmetic, Value};
use vstd::prelude::*;

verus! {

/// Something that the world sees of code that runs.
#[verifier::ext_equal]
pub enum Event {
    /// A function is called.
    Call { callee: SymbolId, args: Seq<Value> },
    /// An operation is performed that nothing in the code handles.
    Perform { effect: EffectLabelId, operation: SymbolId, args: Seq<Value> },
    /// Code is entered that handles an effect, and left.
    Enter(EffectLabelId),
    Leave(EffectLabelId),
    /// Code of a stage is entered.
    Stage(StageDirective),
    /// A handler is left to the world to install, and to take away: one of an
    /// effect, with clauses for some operations, each of which takes some number
    /// of values.
    Install { effect: EffectLabelId, operations: Seq<(SymbolId, nat)> },
    Remove { effect: EffectLabelId, operations: Seq<(SymbolId, nat)> },
    /// The world is asked to resume.
    Resume { of: Value, with: Value },
    /// Code is come to that is missing, or wrong.
    Hole,
    Error,
}

/// A world: how it computes, and what it answers after what it has seen.
pub struct World {
    pub arithmetic: Arithmetic,
    pub answer: spec_fn(Seq<Event>) -> Value,
}

/// What code comes to: its value, and all that the world has seen.
#[verifier::ext_equal]
pub struct Outcome {
    pub value: Value,
    pub seen: Seq<Event>,
}

/// The first place in which a name stands.
pub open spec fn is_first(names: Seq<SymbolId>, name: SymbolId, i: int) -> bool {
    &&& 0 <= i < names.len()
    &&& names[i] == name
    &&& forall|j: int| 0 <= j < i ==> #[trigger] names[j] != name
}

/// The arm that a value goes to: the first of its variant.
pub open spec fn arm_of(tags: Seq<SymbolId>, value: Value) -> Option<int> {
    match value {
        Value::Made { variant: Some(variant), .. } => if exists|i: int|
            is_first(tags, variant, i) {
            Some(choose|i: int| is_first(tags, variant, i))
        } else {
            None
        },
        _ => None,
    }
}

pub proof fn lemma_arm_of(tags: Seq<SymbolId>, value: Value)
    ensures
        arm_of(tags, value) matches Some(i) ==> 0 <= i < tags.len(),
{
    if let Value::Made { variant: Some(variant), .. } = value {
        if exists|i: int| is_first(tags, variant, i) {
            let i = choose|i: int| is_first(tags, variant, i);
            assert(is_first(tags, variant, i));
        }
    }
}

/// Variables bound to the fields of a value, in order.
pub open spec fn with_fields(
    vars: Map<usize, Value>,
    binders: Seq<VarId>,
    value: Value,
    first: nat,
) -> Map<usize, Value>
    decreases first,
{
    if first == 0 {
        vars
    } else {
        with_fields(vars, binders, value, (first - 1) as nat).insert(
            binders[first - 1].0,
            match value {
                Value::Made { fields, .. } => if first <= fields.len() {
                    fields[first - 1]
                } else {
                    Value::Wrong
                },
                _ => Value::Wrong,
            },
        )
    }
}

/// A variable, if there is one, bound to a value.
pub open spec fn bind_option(vars: Map<usize, Value>, var: Option<VarId>, value: Value) -> Map<
    usize,
    Value,
> {
    match var {
        Some(var) => vars.insert(var.0, value),
        None => vars,
    }
}

} // verus!
