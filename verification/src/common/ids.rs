//! Identifiers: each names one slot of an arena, by its position.
use vstd::prelude::*;

verus! {

/// The position of an expression of the core program.
#[derive(Clone, Copy, PartialEq, Eq, PartialOrd, Ord, Hash, Debug, Structural)]
pub struct ExprId(pub usize);

impl ExprId {
    pub fn new(index: usize) -> (id: Self)
        ensures
            id == ExprId(index),
    {
        ExprId(index)
    }

    pub fn index(&self) -> (index: usize)
        ensures
            index == self.0,
    {
        self.0
    }

    pub open spec fn spec_invalid() -> Self {
        ExprId(usize::MAX)
    }

    /// The identifier that names no slot.
    #[verifier::when_used_as_spec(spec_invalid)]
    pub fn invalid() -> (id: Self)
        ensures
            id == Self::spec_invalid(),
    {
        ExprId(usize::MAX)
    }
}

/// The position of a statement of the core program.
#[derive(Clone, Copy, PartialEq, Eq, PartialOrd, Ord, Hash, Debug, Structural)]
pub struct StmtId(pub usize);

impl StmtId {
    pub fn new(index: usize) -> (id: Self)
        ensures
            id == StmtId(index),
    {
        StmtId(index)
    }

    pub fn index(&self) -> (index: usize)
        ensures
            index == self.0,
    {
        self.0
    }

    pub open spec fn spec_invalid() -> Self {
        StmtId(usize::MAX)
    }

    /// The identifier that names no slot.
    #[verifier::when_used_as_spec(spec_invalid)]
    pub fn invalid() -> (id: Self)
        ensures
            id == Self::spec_invalid(),
    {
        StmtId(usize::MAX)
    }
}

/// The position of a function of the core program.
#[derive(Clone, Copy, PartialEq, Eq, PartialOrd, Ord, Hash, Debug, Structural)]
pub struct FuncId(pub usize);

impl FuncId {
    pub fn new(index: usize) -> (id: Self)
        ensures
            id == FuncId(index),
    {
        FuncId(index)
    }

    pub fn index(&self) -> (index: usize)
        ensures
            index == self.0,
    {
        self.0
    }

    pub open spec fn spec_invalid() -> Self {
        FuncId(usize::MAX)
    }

    /// The identifier that names no slot.
    #[verifier::when_used_as_spec(spec_invalid)]
    pub fn invalid() -> (id: Self)
        ensures
            id == Self::spec_invalid(),
    {
        FuncId(usize::MAX)
    }
}

/// The position of a handler of the core program.
#[derive(Clone, Copy, PartialEq, Eq, PartialOrd, Ord, Hash, Debug, Structural)]
pub struct HandlerId(pub usize);

impl HandlerId {
    pub fn new(index: usize) -> (id: Self)
        ensures
            id == HandlerId(index),
    {
        HandlerId(index)
    }

    pub fn index(&self) -> (index: usize)
        ensures
            index == self.0,
    {
        self.0
    }

    pub open spec fn spec_invalid() -> Self {
        HandlerId(usize::MAX)
    }

    /// The identifier that names no slot.
    #[verifier::when_used_as_spec(spec_invalid)]
    pub fn invalid() -> (id: Self)
        ensures
            id == Self::spec_invalid(),
    {
        HandlerId(usize::MAX)
    }
}

/// The position of a variable.
#[derive(Clone, Copy, PartialEq, Eq, PartialOrd, Ord, Hash, Debug, Structural)]
pub struct VarId(pub usize);

impl VarId {
    pub fn new(index: usize) -> (id: Self)
        ensures
            id == VarId(index),
    {
        VarId(index)
    }

    pub fn index(&self) -> (index: usize)
        ensures
            index == self.0,
    {
        self.0
    }

    pub open spec fn spec_invalid() -> Self {
        VarId(usize::MAX)
    }

    /// The identifier that names no slot.
    #[verifier::when_used_as_spec(spec_invalid)]
    pub fn invalid() -> (id: Self)
        ensures
            id == Self::spec_invalid(),
    {
        VarId(usize::MAX)
    }
}

/// The position of an interned name.
#[derive(Clone, Copy, PartialEq, Eq, PartialOrd, Ord, Hash, Debug, Structural)]
pub struct SymbolId(pub usize);

impl SymbolId {
    pub fn new(index: usize) -> (id: Self)
        ensures
            id == SymbolId(index),
    {
        SymbolId(index)
    }

    pub fn index(&self) -> (index: usize)
        ensures
            index == self.0,
    {
        self.0
    }

    pub open spec fn spec_invalid() -> Self {
        SymbolId(usize::MAX)
    }

    /// The identifier that names no slot.
    #[verifier::when_used_as_spec(spec_invalid)]
    pub fn invalid() -> (id: Self)
        ensures
            id == Self::spec_invalid(),
    {
        SymbolId(usize::MAX)
    }
}

/// The position of an interned type.
#[derive(Clone, Copy, PartialEq, Eq, PartialOrd, Ord, Hash, Debug, Structural)]
pub struct TypeId(pub usize);

impl TypeId {
    pub fn new(index: usize) -> (id: Self)
        ensures
            id == TypeId(index),
    {
        TypeId(index)
    }

    pub fn index(&self) -> (index: usize)
        ensures
            index == self.0,
    {
        self.0
    }

    pub open spec fn spec_invalid() -> Self {
        TypeId(usize::MAX)
    }

    /// The identifier that names no slot.
    #[verifier::when_used_as_spec(spec_invalid)]
    pub fn invalid() -> (id: Self)
        ensures
            id == Self::spec_invalid(),
    {
        TypeId(usize::MAX)
    }
}

/// The position of an effect label.
#[derive(Clone, Copy, PartialEq, Eq, PartialOrd, Ord, Hash, Debug, Structural)]
pub struct EffectLabelId(pub usize);

impl EffectLabelId {
    pub fn new(index: usize) -> (id: Self)
        ensures
            id == EffectLabelId(index),
    {
        EffectLabelId(index)
    }

    pub fn index(&self) -> (index: usize)
        ensures
            index == self.0,
    {
        self.0
    }

    pub open spec fn spec_invalid() -> Self {
        EffectLabelId(usize::MAX)
    }

    /// The identifier that names no slot.
    #[verifier::when_used_as_spec(spec_invalid)]
    pub fn invalid() -> (id: Self)
        ensures
            id == Self::spec_invalid(),
    {
        EffectLabelId(usize::MAX)
    }
}

/// The position of a source file.
#[derive(Clone, Copy, PartialEq, Eq, PartialOrd, Ord, Hash, Debug, Structural)]
pub struct SourceId(pub usize);

impl SourceId {
    pub fn new(index: usize) -> (id: Self)
        ensures
            id == SourceId(index),
    {
        SourceId(index)
    }

    pub fn index(&self) -> (index: usize)
        ensures
            index == self.0,
    {
        self.0
    }

    pub open spec fn spec_invalid() -> Self {
        SourceId(usize::MAX)
    }

    /// The identifier that names no slot.
    #[verifier::when_used_as_spec(spec_invalid)]
    pub fn invalid() -> (id: Self)
        ensures
            id == Self::spec_invalid(),
    {
        SourceId(usize::MAX)
    }
}

/// The position of an expression of the linear program.
#[derive(Clone, Copy, PartialEq, Eq, PartialOrd, Ord, Hash, Debug, Structural)]
pub struct LinearExprId(pub usize);

impl LinearExprId {
    pub fn new(index: usize) -> (id: Self)
        ensures
            id == LinearExprId(index),
    {
        LinearExprId(index)
    }

    pub fn index(&self) -> (index: usize)
        ensures
            index == self.0,
    {
        self.0
    }

    pub open spec fn spec_invalid() -> Self {
        LinearExprId(usize::MAX)
    }

    /// The identifier that names no slot.
    #[verifier::when_used_as_spec(spec_invalid)]
    pub fn invalid() -> (id: Self)
        ensures
            id == Self::spec_invalid(),
    {
        LinearExprId(usize::MAX)
    }
}

/// The position of a statement of the linear program.
#[derive(Clone, Copy, PartialEq, Eq, PartialOrd, Ord, Hash, Debug, Structural)]
pub struct LinearStmtId(pub usize);

impl LinearStmtId {
    pub fn new(index: usize) -> (id: Self)
        ensures
            id == LinearStmtId(index),
    {
        LinearStmtId(index)
    }

    pub fn index(&self) -> (index: usize)
        ensures
            index == self.0,
    {
        self.0
    }

    pub open spec fn spec_invalid() -> Self {
        LinearStmtId(usize::MAX)
    }

    /// The identifier that names no slot.
    #[verifier::when_used_as_spec(spec_invalid)]
    pub fn invalid() -> (id: Self)
        ensures
            id == Self::spec_invalid(),
    {
        LinearStmtId(usize::MAX)
    }
}

/// The position of a function of the linear program.
#[derive(Clone, Copy, PartialEq, Eq, PartialOrd, Ord, Hash, Debug, Structural)]
pub struct LinearFuncId(pub usize);

impl LinearFuncId {
    pub fn new(index: usize) -> (id: Self)
        ensures
            id == LinearFuncId(index),
    {
        LinearFuncId(index)
    }

    pub fn index(&self) -> (index: usize)
        ensures
            index == self.0,
    {
        self.0
    }

    pub open spec fn spec_invalid() -> Self {
        LinearFuncId(usize::MAX)
    }

    /// The identifier that names no slot.
    #[verifier::when_used_as_spec(spec_invalid)]
    pub fn invalid() -> (id: Self)
        ensures
            id == Self::spec_invalid(),
    {
        LinearFuncId(usize::MAX)
    }
}

/// The position of an expression of the control-flow graph.
#[derive(Clone, Copy, PartialEq, Eq, PartialOrd, Ord, Hash, Debug, Structural)]
pub struct CfgExprId(pub usize);

impl CfgExprId {
    pub fn new(index: usize) -> (id: Self)
        ensures
            id == CfgExprId(index),
    {
        CfgExprId(index)
    }

    pub fn index(&self) -> (index: usize)
        ensures
            index == self.0,
    {
        self.0
    }

    pub open spec fn spec_invalid() -> Self {
        CfgExprId(usize::MAX)
    }

    /// The identifier that names no slot.
    #[verifier::when_used_as_spec(spec_invalid)]
    pub fn invalid() -> (id: Self)
        ensures
            id == Self::spec_invalid(),
    {
        CfgExprId(usize::MAX)
    }
}

/// The position of a block of the control-flow graph.
#[derive(Clone, Copy, PartialEq, Eq, PartialOrd, Ord, Hash, Debug, Structural)]
pub struct CfgBlockId(pub usize);

impl CfgBlockId {
    pub fn new(index: usize) -> (id: Self)
        ensures
            id == CfgBlockId(index),
    {
        CfgBlockId(index)
    }

    pub fn index(&self) -> (index: usize)
        ensures
            index == self.0,
    {
        self.0
    }

    pub open spec fn spec_invalid() -> Self {
        CfgBlockId(usize::MAX)
    }

    /// The identifier that names no slot.
    #[verifier::when_used_as_spec(spec_invalid)]
    pub fn invalid() -> (id: Self)
        ensures
            id == Self::spec_invalid(),
    {
        CfgBlockId(usize::MAX)
    }
}

/// The position of a function of the control-flow graph.
#[derive(Clone, Copy, PartialEq, Eq, PartialOrd, Ord, Hash, Debug, Structural)]
pub struct CfgFuncId(pub usize);

impl CfgFuncId {
    pub fn new(index: usize) -> (id: Self)
        ensures
            id == CfgFuncId(index),
    {
        CfgFuncId(index)
    }

    pub fn index(&self) -> (index: usize)
        ensures
            index == self.0,
    {
        self.0
    }

    pub open spec fn spec_invalid() -> Self {
        CfgFuncId(usize::MAX)
    }

    /// The identifier that names no slot.
    #[verifier::when_used_as_spec(spec_invalid)]
    pub fn invalid() -> (id: Self)
        ensures
            id == Self::spec_invalid(),
    {
        CfgFuncId(usize::MAX)
    }
}

/// The position of a value of the control-flow graph.
#[derive(Clone, Copy, PartialEq, Eq, PartialOrd, Ord, Hash, Debug, Structural)]
pub struct CfgValueId(pub usize);

impl CfgValueId {
    pub fn new(index: usize) -> (id: Self)
        ensures
            id == CfgValueId(index),
    {
        CfgValueId(index)
    }

    pub fn index(&self) -> (index: usize)
        ensures
            index == self.0,
    {
        self.0
    }

    pub open spec fn spec_invalid() -> Self {
        CfgValueId(usize::MAX)
    }

    /// The identifier that names no slot.
    #[verifier::when_used_as_spec(spec_invalid)]
    pub fn invalid() -> (id: Self)
        ensures
            id == Self::spec_invalid(),
    {
        CfgValueId(usize::MAX)
    }
}

/// The position of a handler region of the control-flow graph.
#[derive(Clone, Copy, PartialEq, Eq, PartialOrd, Ord, Hash, Debug, Structural)]
pub struct CfgHandlerId(pub usize);

impl CfgHandlerId {
    pub fn new(index: usize) -> (id: Self)
        ensures
            id == CfgHandlerId(index),
    {
        CfgHandlerId(index)
    }

    pub fn index(&self) -> (index: usize)
        ensures
            index == self.0,
    {
        self.0
    }

    pub open spec fn spec_invalid() -> Self {
        CfgHandlerId(usize::MAX)
    }

    /// The identifier that names no slot.
    #[verifier::when_used_as_spec(spec_invalid)]
    pub fn invalid() -> (id: Self)
        ensures
            id == Self::spec_invalid(),
    {
        CfgHandlerId(usize::MAX)
    }
}

/// The position of an instruction of the control-flow graph.
#[derive(Clone, Copy, PartialEq, Eq, PartialOrd, Ord, Hash, Debug, Structural)]
pub struct CfgInstrId(pub usize);

impl CfgInstrId {
    pub fn new(index: usize) -> (id: Self)
        ensures
            id == CfgInstrId(index),
    {
        CfgInstrId(index)
    }

    pub fn index(&self) -> (index: usize)
        ensures
            index == self.0,
    {
        self.0
    }

    pub open spec fn spec_invalid() -> Self {
        CfgInstrId(usize::MAX)
    }

    /// The identifier that names no slot.
    #[verifier::when_used_as_spec(spec_invalid)]
    pub fn invalid() -> (id: Self)
        ensures
            id == Self::spec_invalid(),
    {
        CfgInstrId(usize::MAX)
    }
}

} // verus!
