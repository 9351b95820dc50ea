//! The control-flow graph: blocks of instructions that end in a jump.
use crate::common::ids::{
    CfgBlockId, CfgExprId, CfgFuncId, CfgHandlerId, CfgInstrId, CfgValueId, EffectLabelId,
    LinearExprId, LinearStmtId, SymbolId, VarId,
};
use crate::ir::core_ir::{BinaryOp, Literal, LiteralModel, StageDirective, UnaryOp};
use crate::ir::linear::CallConvention;
use vstd::prelude::*;

verus! {

/// How a call may transfer control.
#[derive(Clone, Copy, PartialEq, Eq, Hash, Debug, Structural)]
pub enum CfgCallConvention {
    Pure,
    Direct,
    Control,
}

impl CfgCallConvention {
    pub open spec fn of(convention: CallConvention) -> Self {
        match convention {
            CallConvention::Pure => CfgCallConvention::Pure,
            CallConvention::Direct => CfgCallConvention::Direct,
            CallConvention::Control => CfgCallConvention::Control,
        }
    }
}

impl From<CallConvention> for CfgCallConvention {
    fn from(value: CallConvention) -> (convention: Self) {
        match value {
            CallConvention::Pure => CfgCallConvention::Pure,
            CallConvention::Direct => CfgCallConvention::Direct,
            CallConvention::Control => CfgCallConvention::Control,
        }
    }
}

impl vstd::std_specs::convert::FromSpecImpl<CallConvention> for CfgCallConvention {
    open spec fn obeys_from_spec() -> bool {
        true
    }

    open spec fn from_spec(value: CallConvention) -> Self {
        CfgCallConvention::of(value)
    }
}

/// How a field leaves the value that it is matched out of.
#[derive(Clone, Copy, PartialEq, Eq, Hash, Debug, Structural)]
pub enum CfgProjectionMode {
    Borrow,
    Move,
}

#[derive(Clone, Copy, PartialEq, Eq, Hash, Debug, Structural)]
pub enum CfgArcOpKind {
    Retain,
    Release,
}

/// A reference-count operation.
#[derive(Clone, Copy, PartialEq, Eq, Hash, Debug, Structural)]
pub struct CfgArcOp {
    pub kind: CfgArcOpKind,
    pub value: CfgValueId,
}

/// The reference-count operations before and after something.
#[derive(Debug)]
pub struct CfgArcOps {
    pub pre: Vec<CfgArcOp>,
    pub post: Vec<CfgArcOp>,
}

// ---------------------------------------------------------------------------
// Expressions and instructions
// ---------------------------------------------------------------------------

#[allow(inconsistent_fields)]
#[derive(Debug)]
pub enum CfgExpr {
    Value(CfgValueId),
    Literal(Literal),
    Unary { op: UnaryOp, expr: CfgExprId },
    Binary { op: BinaryOp, lhs: CfgExprId, rhs: CfgExprId },
    PureCall { callee: SymbolId, args: Vec<CfgExprId> },
    MakeStruct { ty: SymbolId, fields: Vec<CfgExprId> },
    MakeEnum { ty: SymbolId, variant: SymbolId, fields: Vec<CfgExprId> },
    Error,
}

#[derive(Debug)]
pub struct CfgExprNode {
    pub kind: CfgExpr,
    pub source: Option<LinearExprId>,
}

/// An expression as a mathematical value.
#[allow(inconsistent_fields)]
#[verifier::ext_equal]
pub enum CfgExprModel {
    Value(CfgValueId),
    Literal(LiteralModel),
    Unary { op: UnaryOp, expr: CfgExprId },
    Binary { op: BinaryOp, lhs: CfgExprId, rhs: CfgExprId },
    PureCall { callee: SymbolId, args: Seq<CfgExprId> },
    MakeStruct { ty: SymbolId, fields: Seq<CfgExprId> },
    MakeEnum { ty: SymbolId, variant: SymbolId, fields: Seq<CfgExprId> },
    Error,
}

#[verifier::ext_equal]
pub struct CfgExprNodeModel {
    pub kind: CfgExprModel,
    pub source: Option<LinearExprId>,
}

impl View for CfgExpr {
    type V = CfgExprModel;

    open spec fn view(&self) -> CfgExprModel {
        match *self {
            CfgExpr::Value(value) => CfgExprModel::Value(value),
            CfgExpr::Literal(literal) => CfgExprModel::Literal(literal@),
            CfgExpr::Unary { op, expr } => CfgExprModel::Unary { op, expr },
            CfgExpr::Binary { op, lhs, rhs } => CfgExprModel::Binary { op, lhs, rhs },
            CfgExpr::PureCall { callee, args } => CfgExprModel::PureCall { callee, args: args@ },
            CfgExpr::MakeStruct { ty, fields } => CfgExprModel::MakeStruct { ty, fields: fields@ },
            CfgExpr::MakeEnum { ty, variant, fields } => CfgExprModel::MakeEnum {
                ty,
                variant,
                fields: fields@,
            },
            CfgExpr::Error => CfgExprModel::Error,
        }
    }
}

impl View for CfgExprNode {
    type V = CfgExprNodeModel;

    open spec fn view(&self) -> CfgExprNodeModel {
        CfgExprNodeModel { kind: self.kind@, source: self.source }
    }
}

impl CfgExprModel {
    /// Whether an expression is an immediate part of this one.
    pub open spec fn has_part(self, part: CfgExprId) -> bool {
        match self {
            CfgExprModel::Value(_) | CfgExprModel::Literal(_) | CfgExprModel::Error => false,
            CfgExprModel::Unary { expr, .. } => part == expr,
            CfgExprModel::Binary { lhs, rhs, .. } => part == lhs || part == rhs,
            CfgExprModel::PureCall { args, .. } => args.contains(part),
            CfgExprModel::MakeStruct { fields, .. } => fields.contains(part),
            CfgExprModel::MakeEnum { fields, .. } => fields.contains(part),
        }
    }
}

#[allow(inconsistent_fields)]
#[derive(Clone, Copy, PartialEq, Eq, Debug, Structural)]
pub enum CfgInstruction {
    /// Names the value of an expression.
    Let { result: CfgValueId, value: CfgExprId },
    /// Evaluates an expression whose value nothing uses.
    Eval { result: CfgValueId, value: CfgExprId },
    HandlerEnter { handler: CfgHandlerId, effect: EffectLabelId },
    HandlerExit { handler: CfgHandlerId, effect: EffectLabelId },
    StageEnter { stage: StageDirective },
    StageExit { stage: StageDirective },
    Hole,
    Error,
}

#[derive(Debug)]
pub struct CfgInstructionNode {
    pub kind: CfgInstruction,
    pub source: Option<LinearStmtId>,
    pub arc: CfgArcOps,
}

#[verifier::ext_equal]
pub struct CfgInstructionModel {
    pub kind: CfgInstruction,
    pub source: Option<LinearStmtId>,
    pub pre_arc: Seq<CfgArcOp>,
    pub post_arc: Seq<CfgArcOp>,
}

impl View for CfgInstructionNode {
    type V = CfgInstructionModel;

    open spec fn view(&self) -> CfgInstructionModel {
        CfgInstructionModel {
            kind: self.kind,
            source: self.source,
            pre_arc: self.arc.pre@,
            post_arc: self.arc.post@,
        }
    }
}

// ---------------------------------------------------------------------------
// Blocks
// ---------------------------------------------------------------------------

#[derive(Debug)]
pub struct CfgMatchArm {
    pub tag: SymbolId,
    pub binders: Vec<CfgValueId>,
    pub projections: Vec<CfgProjectionMode>,
    pub target: CfgBlockId,
}

#[verifier::ext_equal]
pub struct CfgMatchArmModel {
    pub tag: SymbolId,
    pub binders: Seq<CfgValueId>,
    pub projections: Seq<CfgProjectionMode>,
    pub target: CfgBlockId,
}

impl View for CfgMatchArm {
    type V = CfgMatchArmModel;

    open spec fn view(&self) -> CfgMatchArmModel {
        CfgMatchArmModel {
            tag: self.tag,
            binders: self.binders@,
            projections: self.projections@,
            target: self.target,
        }
    }
}

/// How a block ends.
#[allow(inconsistent_fields)]
#[derive(Debug)]
pub enum CfgTerminator {
    Return(CfgExprId),
    Goto { target: CfgBlockId, args: Vec<CfgExprId> },
    Branch { cond: CfgExprId, then_target: CfgBlockId, else_target: CfgBlockId },
    Match { scrutinee: CfgExprId, arms: Vec<CfgMatchArm>, default: CfgBlockId },
    Call {
        convention: CfgCallConvention,
        callee: SymbolId,
        args: Vec<CfgExprId>,
        result: CfgValueId,
        target: CfgBlockId,
    },
    Perform {
        effect: EffectLabelId,
        operation: SymbolId,
        args: Vec<CfgExprId>,
        result: Option<CfgValueId>,
        target: CfgBlockId,
    },
}

#[allow(inconsistent_fields)]
#[verifier::ext_equal]
pub enum CfgTerminatorModel {
    Return(CfgExprId),
    Goto { target: CfgBlockId, args: Seq<CfgExprId> },
    Branch { cond: CfgExprId, then_target: CfgBlockId, else_target: CfgBlockId },
    Match { scrutinee: CfgExprId, arms: Seq<CfgMatchArmModel>, default: CfgBlockId },
    Call {
        convention: CfgCallConvention,
        callee: SymbolId,
        args: Seq<CfgExprId>,
        result: CfgValueId,
        target: CfgBlockId,
    },
    Perform {
        effect: EffectLabelId,
        operation: SymbolId,
        args: Seq<CfgExprId>,
        result: Option<CfgValueId>,
        target: CfgBlockId,
    },
}

impl View for CfgTerminator {
    type V = CfgTerminatorModel;

    open spec fn view(&self) -> CfgTerminatorModel {
        match *self {
            CfgTerminator::Return(value) => CfgTerminatorModel::Return(value),
            CfgTerminator::Goto { target, args } => CfgTerminatorModel::Goto {
                target,
                args: args@,
            },
            CfgTerminator::Branch { cond, then_target, else_target } => {
                CfgTerminatorModel::Branch { cond, then_target, else_target }
            },
            CfgTerminator::Match { scrutinee, arms, default } => CfgTerminatorModel::Match {
                scrutinee,
                arms: crate::common::views(arms@),
                default,
            },
            CfgTerminator::Call { convention, callee, args, result, target } => {
                CfgTerminatorModel::Call { convention, callee, args: args@, result, target }
            },
            CfgTerminator::Perform { effect, operation, args, result, target } => {
                CfgTerminatorModel::Perform { effect, operation, args: args@, result, target }
            },
        }
    }
}

#[derive(Debug)]
pub struct CfgBlock {
    pub id: CfgBlockId,
    pub params: Vec<CfgValueId>,
    pub instructions: Vec<CfgInstrId>,
    pub terminator: CfgTerminator,
    pub source: Option<LinearStmtId>,
    pub entry_arc: Vec<CfgArcOp>,
    pub terminator_arc: CfgArcOps,
}

#[verifier::ext_equal]
pub struct CfgBlockModel {
    pub id: CfgBlockId,
    pub params: Seq<CfgValueId>,
    pub instructions: Seq<CfgInstrId>,
    pub terminator: CfgTerminatorModel,
    pub source: Option<LinearStmtId>,
    pub entry_arc: Seq<CfgArcOp>,
    pub pre_arc: Seq<CfgArcOp>,
    pub post_arc: Seq<CfgArcOp>,
}

impl View for CfgBlock {
    type V = CfgBlockModel;

    open spec fn view(&self) -> CfgBlockModel {
        CfgBlockModel {
            id: self.id,
            params: self.params@,
            instructions: self.instructions@,
            terminator: self.terminator@,
            source: self.source,
            entry_arc: self.entry_arc@,
            pre_arc: self.terminator_arc.pre@,
            post_arc: self.terminator_arc.post@,
        }
    }
}

// ---------------------------------------------------------------------------
// Programs
// ---------------------------------------------------------------------------

#[derive(Debug)]
pub struct CfgFunction {
    pub id: CfgFuncId,
    pub name: SymbolId,
    pub params: Vec<CfgValueId>,
    pub entry: CfgBlockId,
}

#[verifier::ext_equal]
pub struct CfgFunctionModel {
    pub id: CfgFuncId,
    pub name: SymbolId,
    pub params: Seq<CfgValueId>,
    pub entry: CfgBlockId,
}

impl View for CfgFunction {
    type V = CfgFunctionModel;

    open spec fn view(&self) -> CfgFunctionModel {
        CfgFunctionModel {
            id: self.id,
            name: self.name,
            params: self.params@,
            entry: self.entry,
        }
    }
}

#[derive(Debug)]
pub struct CfgProgram {
    /// The variable that each value stands for, if it stands for one.
    pub values: Vec<Option<VarId>>,
    pub exprs: Vec<CfgExprNode>,
    pub instructions: Vec<CfgInstructionNode>,
    pub blocks: Vec<CfgBlock>,
    pub functions: Vec<CfgFunction>,
    pub entrypoints: Vec<CfgFuncId>,
}

/// A control-flow graph as a mathematical value.
#[verifier::ext_equal]
pub struct CfgModel {
    pub values: Seq<Option<VarId>>,
    pub exprs: Seq<CfgExprNodeModel>,
    pub instructions: Seq<CfgInstructionModel>,
    pub blocks: Seq<CfgBlockModel>,
    pub functions: Seq<CfgFunctionModel>,
    pub entrypoints: Seq<CfgFuncId>,
}

impl View for CfgProgram {
    type V = CfgModel;

    open spec fn view(&self) -> CfgModel {
        CfgModel {
            values: self.values@,
            exprs: crate::common::views(self.exprs@),
            instructions: crate::common::views(self.instructions@),
            blocks: crate::common::views(self.blocks@),
            functions: crate::common::views(self.functions@),
            entrypoints: self.entrypoints@,
        }
    }
}

impl CfgModel {
    pub open spec fn empty() -> Self {
        CfgModel {
            values: Seq::empty(),
            exprs: Seq::empty(),
            instructions: Seq::empty(),
            blocks: Seq::empty(),
            functions: Seq::empty(),
            entrypoints: Seq::empty(),
        }
    }

    pub open spec fn has_value(self, id: CfgValueId) -> bool {
        id.0 < self.values.len()
    }

    pub open spec fn has_expr(self, id: CfgExprId) -> bool {
        id.0 < self.exprs.len()
    }

    pub open spec fn has_instruction(self, id: CfgInstrId) -> bool {
        id.0 < self.instructions.len()
    }

    pub open spec fn has_block(self, id: CfgBlockId) -> bool {
        id.0 < self.blocks.len()
    }

    pub open spec fn expr(self, id: CfgExprId) -> CfgExprModel {
        self.exprs[id.0 as int].kind
    }

    pub open spec fn block(self, id: CfgBlockId) -> CfgBlockModel {
        self.blocks[id.0 as int]
    }

    /// What an earlier state of the graph holds is all here, unchanged.
    pub open spec fn extends(self, earlier: CfgModel) -> bool {
        &&& self.values.len() >= earlier.values.len()
        &&& self.exprs.len() >= earlier.exprs.len()
        &&& self.instructions.len() >= earlier.instructions.len()
        &&& self.blocks.len() >= earlier.blocks.len()
        &&& forall|i: int| 0 <= i < earlier.values.len() ==> #[trigger] self.values[i]
            == earlier.values[i]
        &&& forall|i: int| 0 <= i < earlier.exprs.len() ==> #[trigger] self.exprs[i]
            == earlier.exprs[i]
        &&& forall|i: int|
            0 <= i < earlier.instructions.len() ==> #[trigger] self.instructions[i]
                == earlier.instructions[i]
        &&& forall|i: int| 0 <= i < earlier.blocks.len() ==> #[trigger] self.blocks[i]
            == earlier.blocks[i]
    }

    /// All of some expressions exist.
    pub open spec fn has_exprs(self, ids: Seq<CfgExprId>) -> bool {
        forall|i: int| #![trigger ids[i]] 0 <= i < ids.len() ==> self.has_expr(ids[i])
    }

    /// All of some values exist.
    pub open spec fn has_values(self, ids: Seq<CfgValueId>) -> bool {
        forall|i: int| #![trigger ids[i]] 0 <= i < ids.len() ==> self.has_value(ids[i])
    }

    /// A block that takes some number of values.
    pub open spec fn takes(self, id: CfgBlockId, count: nat) -> bool {
        self.has_block(id) && self.block(id).params.len() == count
    }

    /// The operands of an instruction exist.
    pub open spec fn instruction_valid(self, kind: CfgInstruction) -> bool {
        match kind {
            CfgInstruction::Let { result, value } => self.has_value(result) && self.has_expr(value),
            CfgInstruction::Eval { result, value } => self.has_value(result) && self.has_expr(
                value,
            ),
            _ => true,
        }
    }

    /// A jump leads to blocks that exist, and passes as many values as they take.
    pub open spec fn terminator_valid(self, kind: CfgTerminatorModel) -> bool {
        match kind {
            CfgTerminatorModel::Return(value) => self.has_expr(value),
            CfgTerminatorModel::Goto { target, args } => self.has_exprs(args) && self.takes(
                target,
                args.len(),
            ),
            CfgTerminatorModel::Branch { cond, then_target, else_target } => {
                &&& self.has_expr(cond)
                &&& self.takes(then_target, 0)
                &&& self.takes(else_target, 0)
            },
            CfgTerminatorModel::Match { scrutinee, arms, default } => {
                &&& self.has_expr(scrutinee)
                &&& forall|i: int| #![trigger arms[i]]
                    0 <= i < arms.len() ==> {
                        &&& self.has_values(arms[i].binders)
                        &&& arms[i].projections.len() == arms[i].binders.len()
                        &&& self.takes(arms[i].target, arms[i].binders.len())
                    }
                &&& self.takes(default, 0)
            },
            CfgTerminatorModel::Call { args, result, target, .. } => {
                &&& self.has_exprs(args)
                &&& self.has_value(result)
                &&& self.takes(target, 1)
            },
            CfgTerminatorModel::Perform { args, result, target, .. } => {
                &&& self.has_exprs(args)
                &&& result matches Some(r) ==> self.has_value(r)
                &&& self.takes(
                    target,
                    if result is Some {
                        1
                    } else {
                        0
                    },
                )
            },
        }
    }

    /// A block whose parts exist, and that knows its own position.
    pub open spec fn block_valid(self, i: int) -> bool {
        let block = self.blocks[i];
        &&& block.id.0 == i
        &&& self.has_values(block.params)
        &&& forall|j: int| #![trigger block.instructions[j]]
            0 <= j < block.instructions.len() ==> self.has_instruction(block.instructions[j])
        &&& self.terminator_valid(block.terminator)
    }

    /// Every identifier names something, and every jump passes as many values as
    /// its target takes.
    pub open spec fn valid(self) -> bool {
        &&& forall|e: CfgExprId, part: CfgExprId| #![trigger self.expr(e).has_part(part)]
            self.has_expr(e) && self.expr(e).has_part(part) ==> self.has_expr(part)
        &&& forall|e: CfgExprId| #![trigger self.expr(e)]
            self.has_expr(e) ==> (self.expr(e) matches CfgExprModel::Value(v) ==> self.has_value(v))
        &&& forall|i: int| #![trigger self.instructions[i]]
            0 <= i < self.instructions.len() ==> self.instruction_valid(self.instructions[i].kind)
        &&& forall|i: int| #![trigger self.blocks[i]]
            0 <= i < self.blocks.len() ==> self.block_valid(i)
    }
}

impl Default for CfgProgram {
    fn default() -> (program: Self)
        ensures
            program@ == CfgModel::empty(),
    {
        let program = CfgProgram {
            values: Vec::new(),
            exprs: Vec::new(),
            instructions: Vec::new(),
            blocks: Vec::new(),
            functions: Vec::new(),
            entrypoints: Vec::new(),
        };
        assert(program@ =~= CfgModel::empty());
        program
    }
}

impl CfgProgram {
    pub fn expr(&self, id: CfgExprId) -> (node: Option<&CfgExprNode>)
        ensures
            node is Some <==> self@.has_expr(id),
            node matches Some(n) ==> n@ == self@.exprs[id.0 as int],
    {
        if id.0 < self.exprs.len() {
            Some(&self.exprs[id.0])
        } else {
            None
        }
    }

    pub fn instruction(&self, id: CfgInstrId) -> (node: Option<&CfgInstructionNode>)
        ensures
            node is Some <==> self@.has_instruction(id),
            node matches Some(n) ==> n@ == self@.instructions[id.0 as int],
    {
        if id.0 < self.instructions.len() {
            Some(&self.instructions[id.0])
        } else {
            None
        }
    }

    pub fn push_value(&mut self, var: Option<VarId>) -> (id: CfgValueId)
        ensures
            id.0 == old(self)@.values.len(),
            final(self)@ == (CfgModel { values: old(self)@.values.push(var), ..old(self)@ }),
    {
        let id = CfgValueId::new(self.values.len());
        self.values.push(var);
        id
    }

    pub fn push_expr(&mut self, kind: CfgExpr, source: Option<LinearExprId>) -> (id: CfgExprId)
        ensures
            id.0 == old(self)@.exprs.len(),
            final(self)@ == (CfgModel {
                exprs: old(self)@.exprs.push(CfgExprNodeModel { kind: kind@, source }),
                ..old(self)@
            }),
    {
        broadcast use crate::common::lemma_views_push;

        let id = CfgExprId::new(self.exprs.len());
        self.exprs.push(CfgExprNode { kind, source });
        id
    }

    pub fn push_instruction(&mut self, kind: CfgInstruction, source: Option<LinearStmtId>) -> (id:
        CfgInstrId)
        ensures
            id.0 == old(self)@.instructions.len(),
            final(self)@ == (CfgModel {
                instructions: old(self)@.instructions.push(
                    CfgInstructionModel {
                        kind,
                        source,
                        pre_arc: Seq::empty(),
                        post_arc: Seq::empty(),
                    },
                ),
                ..old(self)@
            }),
    {
        broadcast use crate::common::lemma_views_push;

        let id = CfgInstrId::new(self.instructions.len());
        let node = CfgInstructionNode {
            kind,
            source,
            arc: CfgArcOps { pre: Vec::new(), post: Vec::new() },
        };
        assert(node@ =~= (CfgInstructionModel {
            kind,
            source,
            pre_arc: Seq::empty(),
            post_arc: Seq::empty(),
        }));
        self.instructions.push(node);
        id
    }

    pub fn push_block(
        &mut self,
        params: Vec<CfgValueId>,
        instructions: Vec<CfgInstrId>,
        terminator: CfgTerminator,
        source: Option<LinearStmtId>,
    ) -> (id: CfgBlockId)
        ensures
            id.0 == old(self)@.blocks.len(),
            final(self)@ == (CfgModel {
                blocks: old(self)@.blocks.push(
                    CfgBlockModel {
                        id,
                        params: params@,
                        instructions: instructions@,
                        terminator: terminator@,
                        source,
                        entry_arc: Seq::empty(),
                        pre_arc: Seq::empty(),
                        post_arc: Seq::empty(),
                    },
                ),
                ..old(self)@
            }),
    {
        broadcast use crate::common::lemma_views_push;

        let id = CfgBlockId::new(self.blocks.len());
        let block = CfgBlock {
            id,
            params,
            instructions,
            terminator,
            source,
            entry_arc: Vec::new(),
            terminator_arc: CfgArcOps { pre: Vec::new(), post: Vec::new() },
        };
        assert(block@ =~= (CfgBlockModel {
            id,
            params: params@,
            instructions: instructions@,
            terminator: terminator@,
            source,
            entry_arc: Seq::empty(),
            pre_arc: Seq::empty(),
            post_arc: Seq::empty(),
        }));
        self.blocks.push(block);
        id
    }
}

/// What is valid in a graph is valid in a larger one.
proof fn lemma_terminator_valid_grows(a: CfgModel, b: CfgModel, kind: CfgTerminatorModel)
    requires
        b.extends(a),
        a.terminator_valid(kind),
    ensures
        b.terminator_valid(kind),
{
    assert(forall|id: CfgBlockId, n: nat| #[trigger] a.takes(id, n) ==> b.takes(id, n));
}

/// A graph that has grown by valid parts is valid.
pub proof fn lemma_valid_grows(a: CfgModel, b: CfgModel)
    requires
        a.valid(),
        b.extends(a),
        forall|e: CfgExprId, part: CfgExprId| #![trigger b.expr(e).has_part(part)]
            b.has_expr(e) && !a.has_expr(e) && b.expr(e).has_part(part) ==> b.has_expr(part),
        forall|e: CfgExprId| #![trigger b.expr(e)]
            b.has_expr(e) && !a.has_expr(e) ==> (b.expr(e) matches CfgExprModel::Value(v)
                ==> b.has_value(v)),
        forall|i: int| #![trigger b.instructions[i]]
            a.instructions.len() <= i < b.instructions.len() ==> b.instruction_valid(
                b.instructions[i].kind,
            ),
        forall|i: int| #![trigger b.blocks[i]]
            a.blocks.len() <= i < b.blocks.len() ==> b.block_valid(i),
    ensures
        b.valid(),
{
    assert forall|e: CfgExprId, part: CfgExprId| #![trigger b.expr(e).has_part(part)]
        b.has_expr(e) && b.expr(e).has_part(part) implies b.has_expr(part) by {
        if a.has_expr(e) {
            assert(a.expr(e).has_part(part));
        }
    }
    assert forall|e: CfgExprId| #![trigger b.expr(e)] b.has_expr(e) implies (b.expr(
        e,
    ) matches CfgExprModel::Value(v) ==> b.has_value(v)) by {
        if a.has_expr(e) {
            assert(a.expr(e) == b.expr(e));
        }
    }
    assert forall|i: int| #![trigger b.instructions[i]]
        0 <= i < b.instructions.len() implies b.instruction_valid(b.instructions[i].kind) by {
        if i < a.instructions.len() {
            assert(a.instruction_valid(a.instructions[i].kind));
        }
    }
    assert forall|i: int| #![trigger b.blocks[i]] 0 <= i < b.blocks.len() implies b.block_valid(
        i,
    ) by {
        if i < a.blocks.len() {
            assert(a.block_valid(i));
            lemma_terminator_valid_grows(a, b, a.blocks[i].terminator);
        }
    }
}

} // verus!
