//! From the linear program to blocks and jumps.
//!
//! The lowering is aware of what comes after each statement: the value of a
//! `Val` runs before what follows it, and what leaves a handler or a stage runs
//! between its body and what follows.
use crate::common::ids::{
    CfgBlockId, CfgExprId, CfgFuncId, CfgHandlerId, CfgInstrId, CfgValueId, EffectLabelId,
    LinearExprId, LinearStmtId, SymbolId, VarId,
};
use crate::ir::cfg::{
    CfgCallConvention, CfgExpr, CfgExprModel, CfgExprNodeModel, CfgFunction, CfgInstruction,
    CfgInstructionModel, CfgMatchArm, CfgMatchArmModel, CfgModel, CfgProgram, CfgProjectionMode,
    CfgTerminator, CfgTerminatorModel,
};
use crate::ir::core_ir::{Literal, LiteralModel};
use crate::ir::linear::{
    CallConvention, LinearExpr, LinearExprModel, LinearMatchArm, LinearMatchArmModel, LinearModel,
    LinearProgram, LinearStmt, LinearStmtModel,
};
use crate::passes::linearize::Linearized;
use std::collections::HashMap;
use vstd::prelude::*;

verus! {

/// Where the value of a statement goes.
#[derive(Clone, Copy, PartialEq, Eq, Debug, Structural)]
pub enum Exit {
    /// Out of the function.
    Return,
    /// To a block that takes it.
    Yield(CfgBlockId),
    /// Nowhere; a block goes on without it.
    Discard(CfgBlockId),
}

/// A statement that has been lowered for some exit.
#[derive(Clone, Copy, PartialEq, Eq, Debug, Structural)]
pub struct Cached {
    pub exit: Exit,
    pub block: CfgBlockId,
}

/// The block that was cached last for an exit.
pub open spec fn cached_in(list: Seq<Cached>, exit: Exit) -> Option<CfgBlockId>
    decreases list.len(),
{
    if list.len() == 0 {
        None
    } else if list.last().exit == exit {
        Some(list.last().block)
    } else {
        cached_in(list.drop_last(), exit)
    }
}

/// The state of a lowering: the graph so far, and where each variable and each
/// linear node has gone.
#[verifier::ext_equal]
pub struct CfgState {
    pub cfg: CfgModel,
    pub values: Map<usize, CfgValueId>,
    pub exprs: Map<usize, CfgExprId>,
    pub stmts: Map<usize, Seq<Cached>>,
    pub unit: Option<CfgExprId>,
    /// The effect of each handler region.
    pub handlers: Seq<EffectLabelId>,
}

/// The region that an instruction enters.
pub open spec fn entered(kind: CfgInstruction) -> Option<CfgHandlerId> {
    match kind {
        CfgInstruction::HandlerEnter { handler, .. } => Some(handler),
        _ => None,
    }
}

/// The region that an instruction leaves.
pub open spec fn left(kind: CfgInstruction) -> Option<CfgHandlerId> {
    match kind {
        CfgInstruction::HandlerExit { handler, .. } => Some(handler),
        _ => None,
    }
}

/// No region is entered by two instructions, and none is left by two.
pub open spec fn regions_distinct(instructions: Seq<CfgInstructionModel>) -> bool {
    forall|i: int, j: int| #![trigger instructions[i], instructions[j]]
        0 <= i < j < instructions.len() ==> {
            &&& entered(instructions[i].kind) is Some ==> entered(instructions[i].kind) != entered(
                instructions[j].kind,
            )
            &&& left(instructions[i].kind) is Some ==> left(instructions[i].kind) != left(
                instructions[j].kind,
            )
        }
}

/// The regions of the instructions from one on are numbered within bounds.
pub open spec fn regions_within(
    instructions: Seq<CfgInstructionModel>,
    from: int,
    low: nat,
    high: nat,
) -> bool {
    forall|i: int| #![trigger instructions[i]]
        from <= i < instructions.len() ==> {
            &&& entered(instructions[i].kind) matches Some(h) ==> low <= h.0 < high
            &&& left(instructions[i].kind) matches Some(h) ==> low <= h.0 < high
        }
}

impl CfgState {
    pub open spec fn value_at(self, var: VarId, value: CfgValueId) -> bool {
        self.values.contains_key(var.0) && self.values[var.0] == value
    }

    pub open spec fn values_at(self, vars: Seq<VarId>, values: Seq<CfgValueId>) -> bool {
        &&& vars.len() == values.len()
        &&& forall|i: int| #![trigger values[i]]
            0 <= i < vars.len() ==> self.value_at(vars[i], values[i])
    }

    pub open spec fn expr_at(self, e: LinearExprId, d: CfgExprId) -> bool {
        self.exprs.contains_key(e.0) && self.exprs[e.0] == d
    }

    pub open spec fn exprs_at(self, es: Seq<LinearExprId>, ds: Seq<CfgExprId>) -> bool {
        &&& es.len() == ds.len()
        &&& forall|i: int| #![trigger ds[i]] 0 <= i < es.len() ==> self.expr_at(es[i], ds[i])
    }

    /// An expression of the graph says the same as a linear one.
    pub open spec fn expr_says(self, lin: LinearModel, e: LinearExprId, kind: CfgExprModel) -> bool {
        if !lin.has_expr(e) {
            kind is Error
        } else {
            match lin.expr(e) {
                LinearExprModel::Var(var) => {
                    &&& kind matches CfgExprModel::Value(value)
                    &&& self.value_at(var, value)
                },
                LinearExprModel::Literal(literal) => kind == CfgExprModel::Literal(literal),
                LinearExprModel::Unary { op, expr } => {
                    &&& kind matches CfgExprModel::Unary { op: op2, expr: expr2 }
                    &&& op2 == op
                    &&& self.expr_at(expr, expr2)
                },
                LinearExprModel::Binary { op, lhs, rhs } => {
                    &&& kind matches CfgExprModel::Binary { op: op2, lhs: l2, rhs: r2 }
                    &&& op2 == op
                    &&& self.expr_at(lhs, l2)
                    &&& self.expr_at(rhs, r2)
                },
                LinearExprModel::PureCall { callee, args } => {
                    &&& kind matches CfgExprModel::PureCall { callee: c2, args: a2 }
                    &&& c2 == callee
                    &&& self.exprs_at(args, a2)
                },
                LinearExprModel::MakeStruct { ty, fields } => {
                    &&& kind matches CfgExprModel::MakeStruct { ty: t2, fields: f2 }
                    &&& t2 == ty
                    &&& self.exprs_at(fields, f2)
                },
                LinearExprModel::MakeEnum { ty, variant, fields } => {
                    &&& kind matches CfgExprModel::MakeEnum { ty: t2, variant: v2, fields: f2 }
                    &&& t2 == ty
                    &&& v2 == variant
                    &&& self.exprs_at(fields, f2)
                },
                LinearExprModel::Error => kind is Error,
            }
        }
    }

    /// A block that takes some values and runs some instructions, all for the
    /// sake of one statement.
    pub open spec fn block_has(
        self,
        b: CfgBlockId,
        params: Seq<CfgValueId>,
        kinds: Seq<CfgInstruction>,
        source: LinearStmtId,
    ) -> bool {
        let block = self.cfg.block(b);
        &&& self.cfg.has_block(b)
        &&& block.params == params
        &&& block.source == Some(source)
        &&& block.entry_arc.len() == 0 && block.pre_arc.len() == 0 && block.post_arc.len() == 0
        &&& block.instructions.len() == kinds.len()
        &&& forall|i: int| #![trigger block.instructions[i]]
            0 <= i < kinds.len() ==> {
                &&& self.cfg.has_instruction(block.instructions[i])
                &&& self.cfg.instructions[block.instructions[i].0 as int] == (CfgInstructionModel {
                    kind: kinds[i],
                    source: Some(source),
                    pre_arc: Seq::empty(),
                    post_arc: Seq::empty(),
                })
            }
    }

    /// A block that ends by going on without handing anything over.
    pub open spec fn goes_on(self, b: CfgBlockId) -> bool {
        self.cfg.block(b).terminator matches CfgTerminatorModel::Goto { args, .. } && args.len()
            == 0
    }

    /// Where such a block goes on.
    pub open spec fn onward(self, b: CfgBlockId) -> CfgBlockId {
        self.cfg.block(b).terminator->Goto_target
    }

    /// A block that ends by sending a value to an exit.
    pub open spec fn exits(
        self,
        b: CfgBlockId,
        params: Seq<CfgValueId>,
        kinds: Seq<CfgInstruction>,
        value: CfgExprId,
        exit: Exit,
        source: LinearStmtId,
    ) -> bool {
        match exit {
            Exit::Return => {
                &&& self.block_has(b, params, kinds, source)
                &&& self.cfg.block(b).terminator == CfgTerminatorModel::Return(value)
            },
            Exit::Yield(target) => {
                &&& self.block_has(b, params, kinds, source)
                &&& self.cfg.block(b).terminator == (CfgTerminatorModel::Goto {
                    target,
                    args: seq![value],
                })
            },
            Exit::Discard(target) => exists|result: CfgValueId|
                {
                    &&& #[trigger] self.unnamed(result)
                    &&& self.block_has(
                        b,
                        params,
                        kinds.push(CfgInstruction::Eval { result, value }),
                        source,
                    )
                    &&& self.goes_on(b)
                    &&& self.onward(b) == target
                },
        }
    }

    /// A value that stands for no variable.
    pub open spec fn unnamed(self, value: CfgValueId) -> bool {
        self.cfg.has_value(value) && self.cfg.values[value.0 as int] is None
    }

    /// The expression without a source for the unit value.
    pub open spec fn is_unit(self, value: CfgExprId) -> bool {
        self.cfg.has_expr(value) && self.cfg.exprs[value.0 as int] == (CfgExprNodeModel {
            kind: CfgExprModel::Literal(LiteralModel::Unit),
            source: None,
        })
    }

    /// A block that sends the unit value to an exit.
    pub open spec fn exits_unit(
        self,
        b: CfgBlockId,
        kinds: Seq<CfgInstruction>,
        exit: Exit,
        source: LinearStmtId,
    ) -> bool {
        self.unit matches Some(unit) && self.is_unit(unit) && self.exits(
            b,
            Seq::empty(),
            kinds,
            unit,
            exit,
            source,
        )
    }

    /// A block that takes the value of a variable and goes on.
    pub open spec fn receives(self, b: CfgBlockId, var: VarId, source: LinearStmtId) -> bool {
        &&& self.values.contains_key(var.0)
        &&& self.block_has(b, seq![self.values[var.0]], Seq::empty(), source)
        &&& self.goes_on(b)
    }

    /// A block that leaves a region and forwards the value it takes.
    pub open spec fn forwards(
        self,
        b: CfgBlockId,
        leave: CfgInstruction,
        exit: Exit,
        source: LinearStmtId,
    ) -> bool {
        exists|taken: CfgValueId, value: CfgExprId|
            {
                &&& #[trigger] self.is_plain_value(value, taken)
                &&& self.exits(b, seq![taken], seq![leave], value, exit, source)
            }
    }

    /// The expression without a source for an unnamed value.
    pub open spec fn is_plain_value(self, value: CfgExprId, taken: CfgValueId) -> bool {
        &&& self.unnamed(taken)
        &&& self.cfg.has_expr(value)
        &&& self.cfg.exprs[value.0 as int] == (CfgExprNodeModel {
            kind: CfgExprModel::Value(taken),
            source: None,
        })
    }

    /// A block that leaves a region and goes on.
    pub open spec fn leaves(
        self,
        b: CfgBlockId,
        leave: CfgInstruction,
        source: LinearStmtId,
    ) -> bool {
        self.block_has(b, Seq::empty(), seq![leave], source) && self.goes_on(b)
    }

    /// A block that enters a region and goes on.
    pub open spec fn enters(
        self,
        b: CfgBlockId,
        enter: CfgInstruction,
        source: LinearStmtId,
    ) -> bool {
        self.block_has(b, Seq::empty(), seq![enter], source) && self.goes_on(b)
    }

    /// The region that a block enters first.
    pub open spec fn region(self, b: CfgBlockId) -> CfgHandlerId {
        self.cfg.instructions[self.cfg.block(b).instructions[0].0 as int].kind->HandlerEnter_handler
    }

    /// Running from a block on runs a linear statement and sends its value to an
    /// exit.
    pub open spec fn runs(self, lin: LinearModel, s: LinearStmtId, exit: Exit, b: CfgBlockId) -> bool
        decreases lin.stmt_rank(s),
        when lin.acyclic()
    {
        proof {
            lemma_linear_ranks(lin, s);
        }
        if !lin.has_stmt(s) {
            self.exits_unit(b, seq![CfgInstruction::Error], exit, s)
        } else {
            match lin.stmt(s) {
                LinearStmtModel::Return(value) => {
                    &&& self.exprs.contains_key(value.0)
                    &&& self.exits(
                        b,
                        Seq::empty(),
                        Seq::empty(),
                        self.exprs[value.0],
                        exit,
                        s,
                    )
                },
                LinearStmtModel::Let { binding, value, next } => {
                    &&& self.values.contains_key(binding.0)
                    &&& self.exprs.contains_key(value.0)
                    &&& self.block_has(
                        b,
                        Seq::empty(),
                        seq![
                            CfgInstruction::Let {
                                result: self.values[binding.0],
                                value: self.exprs[value.0],
                            },
                        ],
                        s,
                    )
                    &&& self.goes_on(b)
                    &&& self.runs(lin, next, exit, self.onward(b))
                },
                LinearStmtModel::Val { binding, value, next } => exists|k: CfgBlockId|
                    {
                        &&& #[trigger] self.receives(k, binding, s)
                        &&& self.runs(lin, next, exit, self.onward(k))
                        &&& self.runs(lin, value, Exit::Yield(k), b)
                    },
                LinearStmtModel::Call { convention, result, callee, args, next } => {
                    &&& self.block_has(b, Seq::empty(), Seq::empty(), s)
                    &&& self.cfg.block(b).terminator matches CfgTerminatorModel::Call {
                        convention: c2,
                        callee: f2,
                        args: a2,
                        result: r2,
                        target,
                    }
                    &&& c2 == CfgCallConvention::of(convention)
                    &&& f2 == callee
                    &&& self.exprs_at(args, a2)
                    &&& self.value_at(result, r2)
                    &&& self.receives(target, result, s)
                    &&& self.runs(lin, next, exit, self.onward(target))
                },
                LinearStmtModel::If { cond, then_branch, else_branch } => {
                    &&& self.block_has(b, Seq::empty(), Seq::empty(), s)
                    &&& self.cfg.block(b).terminator matches CfgTerminatorModel::Branch {
                        cond: c2,
                        then_target,
                        else_target,
                    }
                    &&& self.expr_at(cond, c2)
                    &&& self.runs(lin, then_branch, exit, then_target)
                    &&& self.runs(lin, else_branch, exit, else_target)
                },
                LinearStmtModel::Match { scrutinee, arms, default } => {
                    &&& self.block_has(b, Seq::empty(), Seq::empty(), s)
                    &&& self.cfg.block(b).terminator matches CfgTerminatorModel::Match {
                        scrutinee: s2,
                        arms: a2,
                        default: d2,
                    }
                    &&& self.expr_at(scrutinee, s2)
                    &&& arms.len() == a2.len()
                    &&& forall|i: int| #![trigger a2[i]] #![trigger arms[i]]
                        0 <= i < arms.len() ==> {
                            &&& self.arm_at(arms[i], a2[i], s)
                            &&& self.runs(lin, arms[i].body, exit, self.onward(a2[i].target))
                        }
                    &&& match default {
                        Some(d) => self.runs(lin, d, exit, d2),
                        None => self.exits_unit(d2, Seq::empty(), exit, s),
                    }
                },
                LinearStmtModel::Perform { result, effect, operation, args, next } => {
                    &&& self.block_has(b, Seq::empty(), Seq::empty(), s)
                    &&& self.cfg.block(b).terminator matches CfgTerminatorModel::Perform {
                        effect: e2,
                        operation: o2,
                        args: a2,
                        result: r2,
                        target,
                    }
                    &&& e2 == effect
                    &&& o2 == operation
                    &&& self.exprs_at(args, a2)
                    &&& match (result, r2) {
                        (None, None) => {
                            &&& self.block_has(target, Seq::empty(), Seq::empty(), s)
                            &&& self.goes_on(target)
                        },
                        (Some(var), Some(v2)) => self.value_at(var, v2) && self.receives(
                            target,
                            var,
                            s,
                        ),
                        _ => false,
                    }
                    &&& self.runs(lin, next, exit, self.onward(target))
                },
                LinearStmtModel::Handle { effect, body, next } => {
                    let handler = self.region(b);
                    let leave = CfgInstruction::HandlerExit { handler, effect };
                    &&& self.enters(b, CfgInstruction::HandlerEnter { handler, effect }, s)
                    &&& match next {
                        Some(n) => exists|after: CfgBlockId|
                            {
                                &&& #[trigger] self.leaves(after, leave, s)
                                &&& self.runs(lin, n, exit, self.onward(after))
                                &&& self.runs(lin, body, Exit::Discard(after), self.onward(b))
                            },
                        None => exists|after: CfgBlockId|
                            {
                                &&& #[trigger] self.forwards(after, leave, exit, s)
                                &&& self.runs(lin, body, Exit::Yield(after), self.onward(b))
                            },
                    }
                },
                LinearStmtModel::Stage { stage, body, next } => {
                    let leave = CfgInstruction::StageExit { stage };
                    &&& self.enters(b, CfgInstruction::StageEnter { stage }, s)
                    &&& match next {
                        Some(n) => exists|after: CfgBlockId|
                            {
                                &&& #[trigger] self.leaves(after, leave, s)
                                &&& self.runs(lin, n, exit, self.onward(after))
                                &&& self.runs(lin, body, Exit::Discard(after), self.onward(b))
                            },
                        None => exists|after: CfgBlockId|
                            {
                                &&& #[trigger] self.forwards(after, leave, exit, s)
                                &&& self.runs(lin, body, Exit::Yield(after), self.onward(b))
                            },
                    }
                },
                LinearStmtModel::Hole => self.exits_unit(b, seq![CfgInstruction::Hole], exit, s),
                LinearStmtModel::Error => self.exits_unit(b, seq![CfgInstruction::Error], exit, s),
            }
        }
    }

    /// An arm of a match: its fields are borrowed and handed to a block that
    /// takes them and goes on.
    pub open spec fn arm_at(
        self,
        arm: LinearMatchArmModel,
        lowered: CfgMatchArmModel,
        source: LinearStmtId,
    ) -> bool {
        &&& lowered.tag == arm.tag
        &&& self.values_at(arm.binders, lowered.binders)
        &&& lowered.projections == Seq::new(
            arm.binders.len(),
            |i: int| CfgProjectionMode::Borrow,
        )
        &&& self.block_has(lowered.target, lowered.binders, Seq::empty(), source)
        &&& self.goes_on(lowered.target)
    }

    /// What a block that enters a region goes on to: the body, then the way out
    /// of the region, then what follows.
    pub open spec fn region_runs(
        self,
        lin: LinearModel,
        s: LinearStmtId,
        leave: CfgInstruction,
        body: LinearStmtId,
        next: Option<LinearStmtId>,
        exit: Exit,
        b: CfgBlockId,
    ) -> bool {
        match next {
            Some(n) => exists|after: CfgBlockId|
                {
                    &&& #[trigger] self.leaves(after, leave, s)
                    &&& self.runs(lin, n, exit, self.onward(after))
                    &&& self.runs(lin, body, Exit::Discard(after), self.onward(b))
                },
            None => exists|after: CfgBlockId|
                {
                    &&& #[trigger] self.forwards(after, leave, exit, s)
                    &&& self.runs(lin, body, Exit::Yield(after), self.onward(b))
                },
        }
    }

    /// Nothing that an earlier state holds has changed.
    pub open spec fn grew_from(self, earlier: CfgState) -> bool {
        &&& self.cfg.extends(earlier.cfg)
        &&& forall|x: usize| #[trigger]
            earlier.values.contains_key(x) ==> self.values.contains_key(x) && self.values[x]
                == earlier.values[x]
        &&& forall|x: usize| #[trigger]
            earlier.exprs.contains_key(x) ==> self.exprs.contains_key(x) && self.exprs[x]
                == earlier.exprs[x]
        &&& earlier.unit is Some ==> self.unit == earlier.unit
        &&& self.handlers.len() >= earlier.handlers.len()
    }

    /// What is cached for a statement.
    pub open spec fn cached_list(self, s: LinearStmtId) -> Seq<Cached> {
        if self.stmts.contains_key(s.0) {
            self.stmts[s.0]
        } else {
            Seq::empty()
        }
    }

    /// The block that is cached for a statement and an exit.
    pub open spec fn cached(self, s: LinearStmtId, exit: Exit) -> Option<CfgBlockId> {
        cached_in(self.cached_list(s), exit)
    }

    /// A cached statement runs from the block that it is cached with.
    pub open spec fn cached_runs(self, lin: LinearModel, s: usize, entry: Cached) -> bool {
        self.runs(lin, LinearStmtId(s), entry.exit, entry.block) && self.cfg.takes(entry.block, 0)
    }

    /// The state holds together.
    pub open spec fn holds(self, lin: LinearModel) -> bool {
        &&& self.cfg.valid()
        &&& forall|e: LinearExprId, d: CfgExprId| #[trigger]
            self.expr_at(e, d) ==> {
                &&& self.cfg.has_expr(d)
                &&& self.cfg.exprs[d.0 as int].source == Some(e)
                &&& self.expr_says(lin, e, self.cfg.expr(d))
            }
        &&& forall|var: VarId, value: CfgValueId| #[trigger]
            self.value_at(var, value) ==> self.cfg.has_value(value)
                && self.cfg.values[value.0 as int] == Some(var)
        &&& self.unit matches Some(unit) ==> self.is_unit(unit)
        &&& regions_distinct(self.cfg.instructions)
        &&& regions_within(self.cfg.instructions, 0, 0, self.handlers.len())
    }

    /// The cache holds together.
    pub open spec fn cache_holds(self, lin: LinearModel) -> bool {
        forall|s: usize, i: int| #![trigger self.stmts[s][i]]
            self.stmts.contains_key(s) && 0 <= i < self.stmts[s].len() ==> self.cached_runs(
                lin,
                s,
                self.stmts[s][i],
            )
    }
}

/// Every part of a linear statement stands below it.
pub proof fn lemma_linear_ranks(lin: LinearModel, s: LinearStmtId)
    ensures
        forall|part: LinearStmtId| #![trigger lin.stmt_rank(part)]
            lin.acyclic() && lin.has_stmt(s) && lin.stmt(s).has_part(part) ==> lin.stmt_rank(part)
                < lin.stmt_rank(s),
{
    assert forall|part: LinearStmtId| #![trigger lin.stmt_rank(part)]
        lin.acyclic() && lin.has_stmt(s) && lin.stmt(s).has_part(part) implies lin.stmt_rank(part)
        < lin.stmt_rank(s) by {
        crate::ir::linear::lemma_stmt_rank(lin, s, part);
    }
}

/// Every part of a linear expression stands below it.
pub proof fn lemma_linear_expr_ranks(lin: LinearModel, e: LinearExprId)
    ensures
        forall|part: LinearExprId| #![trigger lin.expr_rank(part)]
            lin.acyclic() && lin.has_expr(e) && lin.expr(e).has_part(part) ==> lin.expr_rank(part)
                < lin.expr_rank(e),
{
    assert forall|part: LinearExprId| #![trigger lin.expr_rank(part)]
        lin.acyclic() && lin.has_expr(e) && lin.expr(e).has_part(part) implies lin.expr_rank(part)
        < lin.expr_rank(e) by {
        crate::ir::linear::lemma_expr_rank(lin, e, part);
    }
}

// ---------------------------------------------------------------------------
// What has been lowered stays
// ---------------------------------------------------------------------------

proof fn lemma_block_has_grows(
    a: CfgState,
    b: CfgState,
    block: CfgBlockId,
    params: Seq<CfgValueId>,
    kinds: Seq<CfgInstruction>,
    source: LinearStmtId,
)
    requires
        b.grew_from(a),
        a.block_has(block, params, kinds, source),
    ensures
        b.block_has(block, params, kinds, source),
        b.cfg.block(block) == a.cfg.block(block),
{
}

proof fn lemma_receives_grows(
    a: CfgState,
    b: CfgState,
    block: CfgBlockId,
    var: VarId,
    source: LinearStmtId,
)
    requires
        b.grew_from(a),
        a.receives(block, var, source),
    ensures
        b.receives(block, var, source),
        b.onward(block) == a.onward(block),
{
    assert(b.values[var.0] == a.values[var.0]);
    lemma_block_has_grows(a, b, block, seq![a.values[var.0]], Seq::empty(), source);
}

proof fn lemma_exits_grows(
    a: CfgState,
    b: CfgState,
    block: CfgBlockId,
    params: Seq<CfgValueId>,
    kinds: Seq<CfgInstruction>,
    value: CfgExprId,
    exit: Exit,
    source: LinearStmtId,
)
    requires
        b.grew_from(a),
        a.exits(block, params, kinds, value, exit, source),
    ensures
        b.exits(block, params, kinds, value, exit, source),
{
    match exit {
        Exit::Discard(target) => {
            let result = choose|result: CfgValueId|
                {
                    &&& #[trigger] a.unnamed(result)
                    &&& a.block_has(
                        block,
                        params,
                        kinds.push(CfgInstruction::Eval { result, value }),
                        source,
                    )
                    &&& a.goes_on(block)
                    &&& a.onward(block) == target
                };
            assert(b.unnamed(result));
            lemma_block_has_grows(
                a,
                b,
                block,
                params,
                kinds.push(CfgInstruction::Eval { result, value }),
                source,
            );
        },
        _ => {
            lemma_block_has_grows(a, b, block, params, kinds, source);
        },
    }
}

proof fn lemma_forwards_grows(
    a: CfgState,
    b: CfgState,
    block: CfgBlockId,
    leave: CfgInstruction,
    exit: Exit,
    source: LinearStmtId,
)
    requires
        b.grew_from(a),
        a.forwards(block, leave, exit, source),
    ensures
        b.forwards(block, leave, exit, source),
{
    let (taken, value) = choose|taken: CfgValueId, value: CfgExprId|
        {
            &&& #[trigger] a.is_plain_value(value, taken)
            &&& a.exits(block, seq![taken], seq![leave], value, exit, source)
        };
    assert(b.is_plain_value(value, taken));
    lemma_exits_grows(a, b, block, seq![taken], seq![leave], value, exit, source);
}

/// What runs from a block stays.
proof fn lemma_runs_grows(
    lin: LinearModel,
    a: CfgState,
    b: CfgState,
    s: LinearStmtId,
    exit: Exit,
    block: CfgBlockId,
)
    requires
        lin.acyclic(),
        b.grew_from(a),
        a.runs(lin, s, exit, block),
    ensures
        b.runs(lin, s, exit, block),
    decreases lin.stmt_rank(s), 1nat,
{
    lemma_linear_ranks(lin, s);
    if !lin.has_stmt(s) {
        lemma_exits_grows(
            a,
            b,
            block,
            Seq::empty(),
            seq![CfgInstruction::Error],
            a.unit->0,
            exit,
            s,
        );
    } else {
        match lin.stmt(s) {
            LinearStmtModel::Return(value) => {
                lemma_exits_grows(
                    a,
                    b,
                    block,
                    Seq::empty(),
                    Seq::empty(),
                    a.exprs[value.0],
                    exit,
                    s,
                );
            },
            LinearStmtModel::Let { binding, value, next } => {
                lemma_block_has_grows(
                    a,
                    b,
                    block,
                    Seq::empty(),
                    seq![
                        CfgInstruction::Let {
                            result: a.values[binding.0],
                            value: a.exprs[value.0],
                        },
                    ],
                    s,
                );
                lemma_runs_grows(lin, a, b, next, exit, a.onward(block));
            },
            LinearStmtModel::Val { binding, value, next } => {
                let k = choose|k: CfgBlockId|
                    {
                        &&& #[trigger] a.receives(k, binding, s)
                        &&& a.runs(lin, next, exit, a.onward(k))
                        &&& a.runs(lin, value, Exit::Yield(k), block)
                    };
                lemma_receives_grows(a, b, k, binding, s);
                lemma_runs_grows(lin, a, b, next, exit, a.onward(k));
                lemma_runs_grows(lin, a, b, value, Exit::Yield(k), block);
            },
            LinearStmtModel::Call { convention, result, callee, args, next } => {
                let target = a.cfg.block(block).terminator->Call_target;
                lemma_block_has_grows(a, b, block, Seq::empty(), Seq::empty(), s);
                lemma_receives_grows(a, b, target, result, s);
                lemma_runs_grows(lin, a, b, next, exit, a.onward(target));
            },
            LinearStmtModel::If { cond, then_branch, else_branch } => {
                lemma_block_has_grows(a, b, block, Seq::empty(), Seq::empty(), s);
                let t = a.cfg.block(block).terminator;
                lemma_runs_grows(lin, a, b, then_branch, exit, t->then_target);
                lemma_runs_grows(lin, a, b, else_branch, exit, t->else_target);
            },
            LinearStmtModel::Match { scrutinee, arms, default } => {
                lemma_block_has_grows(a, b, block, Seq::empty(), Seq::empty(), s);
                let a2 = a.cfg.block(block).terminator->arms;
                assert forall|i: int| #![trigger arms[i]] 0 <= i < arms.len() implies {
                    &&& b.arm_at(arms[i], a2[i], s)
                    &&& b.runs(lin, arms[i].body, exit, b.onward(a2[i].target))
                } by {
                    lemma_linear_arm_is_part(lin.stmt(s), i);
                    assert(a.arm_at(arms[i], a2[i], s));
                    lemma_block_has_grows(
                        a,
                        b,
                        a2[i].target,
                        a2[i].binders,
                        Seq::empty(),
                        s,
                    );
                    assert(b.arm_at(arms[i], a2[i], s));
                    lemma_runs_grows(lin, a, b, arms[i].body, exit, a.onward(a2[i].target));
                }
                let d2 = a.cfg.block(block).terminator->default;
                match default {
                    Some(d) => lemma_runs_grows(lin, a, b, d, exit, d2),
                    None => lemma_exits_grows(
                        a,
                        b,
                        d2,
                        Seq::empty(),
                        Seq::empty(),
                        a.unit->0,
                        exit,
                        s,
                    ),
                }
            },
            LinearStmtModel::Perform { result, effect, operation, args, next } => {
                lemma_block_has_grows(a, b, block, Seq::empty(), Seq::empty(), s);
                let target = a.cfg.block(block).terminator->Perform_target;
                match result {
                    Some(var) => lemma_receives_grows(a, b, target, var, s),
                    None => lemma_block_has_grows(a, b, target, Seq::empty(), Seq::empty(), s),
                }
                lemma_runs_grows(lin, a, b, next, exit, a.onward(target));
            },
            LinearStmtModel::Handle { effect, body, next } => {
                let handler = a.region(block);
                let leave = CfgInstruction::HandlerExit { handler, effect };
                lemma_block_has_grows(
                    a,
                    b,
                    block,
                    Seq::empty(),
                    seq![CfgInstruction::HandlerEnter { handler, effect }],
                    s,
                );
                assert(b.region(block) == handler);
                lemma_region_runs_grows(lin, a, b, s, leave, body, next, exit, block);
            },
            LinearStmtModel::Stage { stage, body, next } => {
                let leave = CfgInstruction::StageExit { stage };
                lemma_block_has_grows(
                    a,
                    b,
                    block,
                    Seq::empty(),
                    seq![CfgInstruction::StageEnter { stage }],
                    s,
                );
                lemma_region_runs_grows(lin, a, b, s, leave, body, next, exit, block);
            },
            LinearStmtModel::Hole => {
                lemma_exits_grows(
                    a,
                    b,
                    block,
                    Seq::empty(),
                    seq![CfgInstruction::Hole],
                    a.unit->0,
                    exit,
                    s,
                );
            },
            LinearStmtModel::Error => {
                lemma_exits_grows(
                    a,
                    b,
                    block,
                    Seq::empty(),
                    seq![CfgInstruction::Error],
                    a.unit->0,
                    exit,
                    s,
                );
            },
        }
    }
}

/// The body of a region and what follows it stay.
proof fn lemma_region_runs_grows(
    lin: LinearModel,
    a: CfgState,
    b: CfgState,
    s: LinearStmtId,
    leave: CfgInstruction,
    body: LinearStmtId,
    next: Option<LinearStmtId>,
    exit: Exit,
    block: CfgBlockId,
)
    requires
        lin.acyclic(),
        lin.has_stmt(s),
        lin.stmt(s).has_part(body),
        next matches Some(n) ==> lin.stmt(s).has_part(n),
        b.grew_from(a),
        a.cfg.has_block(block),
        a.region_runs(lin, s, leave, body, next, exit, block),
    ensures
        b.region_runs(lin, s, leave, body, next, exit, block),
    decreases lin.stmt_rank(s), 0nat,
{
    lemma_linear_ranks(lin, s);
    match next {
        Some(n) => {
            let after = choose|after: CfgBlockId|
                {
                    &&& #[trigger] a.leaves(after, leave, s)
                    &&& a.runs(lin, n, exit, a.onward(after))
                    &&& a.runs(lin, body, Exit::Discard(after), a.onward(block))
                };
            lemma_block_has_grows(a, b, after, Seq::empty(), seq![leave], s);
            assert(b.leaves(after, leave, s));
            lemma_runs_grows(lin, a, b, n, exit, a.onward(after));
            lemma_runs_grows(lin, a, b, body, Exit::Discard(after), a.onward(block));
        },
        None => {
            let after = choose|after: CfgBlockId|
                {
                    &&& #[trigger] a.forwards(after, leave, exit, s)
                    &&& a.runs(lin, body, Exit::Yield(after), a.onward(block))
                };
            lemma_forwards_grows(a, b, after, leave, exit, s);
            lemma_runs_grows(lin, a, b, body, Exit::Yield(after), a.onward(block));
        },
    }
}

/// The body of an arm is a part of the match.
pub proof fn lemma_linear_arm_is_part(s: LinearStmtModel, i: int)
    requires
        s is Match,
        0 <= i < s->Match_arms.len(),
    ensures
        s.has_part(s->Match_arms[i].body),
{
    assert(s->Match_arms[i].body == s->Match_arms[i].body);
}

/// A state that has grown holds together where its new entries do.
proof fn lemma_holds_grows(lin: LinearModel, a: CfgState, b: CfgState)
    requires
        lin.acyclic(),
        a.holds(lin),
        a.cache_holds(lin),
        b.grew_from(a),
        b.stmts == a.stmts,
        b.cfg.valid(),
        forall|e: LinearExprId, d: CfgExprId| #[trigger]
            b.expr_at(e, d) && !a.expr_at(e, d) ==> {
                &&& b.cfg.has_expr(d)
                &&& b.cfg.exprs[d.0 as int].source == Some(e)
                &&& b.expr_says(lin, e, b.cfg.expr(d))
            },
        forall|var: VarId, value: CfgValueId| #[trigger]
            b.value_at(var, value) && !a.value_at(var, value) ==> b.cfg.has_value(value)
                && b.cfg.values[value.0 as int] == Some(var),
        b.unit matches Some(unit) ==> b.is_unit(unit),
        regions_distinct(b.cfg.instructions),
        regions_within(b.cfg.instructions, 0, 0, b.handlers.len()),
    ensures
        b.holds(lin),
        b.cache_holds(lin),
{
    assert forall|e: LinearExprId, d: CfgExprId| #[trigger] b.expr_at(e, d) implies {
        &&& b.cfg.has_expr(d)
        &&& b.cfg.exprs[d.0 as int].source == Some(e)
        &&& b.expr_says(lin, e, b.cfg.expr(d))
    } by {
        if a.expr_at(e, d) {
            lemma_expr_says_grows(lin, a, b, e, a.cfg.expr(d));
        }
    }
    assert forall|s: usize, i: int| #![trigger b.stmts[s][i]]
        b.stmts.contains_key(s) && 0 <= i < b.stmts[s].len() implies b.cached_runs(
        lin,
        s,
        b.stmts[s][i],
    ) by {
        assert(a.cached_runs(lin, s, a.stmts[s][i]));
        lemma_runs_grows(
            lin,
            a,
            b,
            LinearStmtId(s),
            a.stmts[s][i].exit,
            a.stmts[s][i].block,
        );
    }
}

proof fn lemma_expr_says_grows(
    lin: LinearModel,
    a: CfgState,
    b: CfgState,
    e: LinearExprId,
    kind: CfgExprModel,
)
    requires
        b.grew_from(a),
        a.expr_says(lin, e, kind),
    ensures
        b.expr_says(lin, e, kind),
{
    assert(forall|x: LinearExprId, d: CfgExprId| #[trigger] a.expr_at(x, d) ==> b.expr_at(x, d));
    assert(forall|v: VarId, d: CfgValueId| #[trigger] a.value_at(v, d) ==> b.value_at(v, d));
}

// ---------------------------------------------------------------------------
// What is made
// ---------------------------------------------------------------------------

/// How much a lowering has made, and what it need not make again.
#[verifier::ext_equal]
pub struct Tally {
    pub blocks: nat,
    pub instructions: nat,
    pub values: nat,
    pub exprs: nat,
    pub handlers: nat,
    /// The variables that have a value.
    pub named: Set<usize>,
    /// The linear expressions that have been lowered.
    pub known: Set<usize>,
    pub stmts: Map<usize, Seq<Cached>>,
    pub has_unit: bool,
}

/// The arguments or fields of an expression that has a list of them.
pub open spec fn listed_parts(expr: LinearExprModel) -> Seq<LinearExprId> {
    match expr {
        LinearExprModel::PureCall { args, .. } => args,
        LinearExprModel::MakeStruct { fields, .. } => fields,
        LinearExprModel::MakeEnum { fields, .. } => fields,
        _ => Seq::empty(),
    }
}

impl Tally {
    /// Nothing has been made yet.
    pub open spec fn start() -> Self {
        Tally {
            blocks: 0,
            instructions: 0,
            values: 0,
            exprs: 0,
            handlers: 0,
            named: Set::empty(),
            known: Set::empty(),
            stmts: Map::empty(),
            has_unit: false,
        }
    }

    /// A variable gets a value once.
    pub open spec fn var(self, var: VarId) -> Self {
        if self.named.contains(var.0) {
            self
        } else {
            Tally { values: self.values + 1, named: self.named.insert(var.0), ..self }
        }
    }

    pub open spec fn vars(self, vars: Seq<VarId>, first: nat) -> Self
        decreases first,
    {
        if first == 0 {
            self
        } else {
            self.vars(vars, (first - 1) as nat).var(vars[first - 1])
        }
    }

    pub open spec fn unnamed_value(self) -> Self {
        Tally { values: self.values + 1, ..self }
    }

    pub open spec fn plain_expr(self) -> Self {
        Tally { exprs: self.exprs + 1, ..self }
    }

    /// The unit value is made once.
    pub open spec fn unit(self) -> Self {
        if self.has_unit {
            self
        } else {
            Tally { has_unit: true, ..self.plain_expr() }
        }
    }

    /// An expression is lowered once, after its parts.
    pub open spec fn expr(self, lin: LinearModel, e: LinearExprId) -> Self
        decreases lin.expr_rank(e), 1nat, 0nat,
        when lin.acyclic()
    {
        proof {
            lemma_linear_expr_ranks(lin, e);
        }
        if self.known.contains(e.0) {
            self
        } else {
            let parts = if !lin.has_expr(e) {
                self
            } else {
                match lin.expr(e) {
                    LinearExprModel::Var(var) => self.var(var),
                    LinearExprModel::Literal(_) => self,
                    LinearExprModel::Unary { expr, .. } => self.expr(lin, expr),
                    LinearExprModel::Binary { lhs, rhs, .. } => self.expr(lin, lhs).expr(lin, rhs),
                    LinearExprModel::PureCall { args, .. } => self.expr_parts(lin, e, args.len()),
                    LinearExprModel::MakeStruct { fields, .. } => self.expr_parts(
                        lin,
                        e,
                        fields.len(),
                    ),
                    LinearExprModel::MakeEnum { fields, .. } => self.expr_parts(
                        lin,
                        e,
                        fields.len(),
                    ),
                    LinearExprModel::Error => self,
                }
            };
            Tally { known: parts.known.insert(e.0), ..parts.plain_expr() }
        }
    }

    /// The first arguments or fields of an expression are lowered, in order.
    pub open spec fn expr_parts(self, lin: LinearModel, e: LinearExprId, first: nat) -> Self
        decreases lin.expr_rank(e), 0nat, first,
        when lin.acyclic()
    {
        let parts = listed_parts(lin.expr(e));
        if lin.has_expr(e) && 0 < first <= parts.len() {
            proof {
                lemma_linear_expr_ranks(lin, e);
                assert(parts.contains(parts[first - 1]));
                assert(lin.expr(e).has_part(parts[first - 1]));
            }
            self.expr_parts(lin, e, (first - 1) as nat).expr(lin, parts[first - 1])
        } else {
            self
        }
    }

    pub open spec fn args(self, lin: LinearModel, args: Seq<LinearExprId>, first: nat) -> Self
        decreases first,
    {
        if first == 0 {
            self
        } else {
            self.args(lin, args, (first - 1) as nat).expr(lin, args[first - 1])
        }
    }

    /// A block with some instructions is made.
    pub open spec fn block(self, instructions: nat) -> Self {
        Tally {
            blocks: self.blocks + 1,
            instructions: self.instructions + instructions,
            ..self
        }
    }

    /// The block that was made last.
    pub open spec fn last_block(self) -> CfgBlockId {
        CfgBlockId((self.blocks - 1) as usize)
    }

    /// A block with some instructions that sends a value to an exit.
    pub open spec fn exit_block(self, instructions: nat, exit: Exit) -> Self {
        match exit {
            Exit::Discard(_) => self.unnamed_value().block(instructions + 1),
            _ => self.block(instructions),
        }
    }

    pub open spec fn cached_list(self, s: LinearStmtId) -> Seq<Cached> {
        if self.stmts.contains_key(s.0) {
            self.stmts[s.0]
        } else {
            Seq::empty()
        }
    }

    pub open spec fn remember(self, s: LinearStmtId, exit: Exit, block: CfgBlockId) -> Self {
        Tally {
            stmts: self.stmts.insert(s.0, self.cached_list(s).push(Cached { exit, block })),
            ..self
        }
    }

    /// A statement is lowered once for an exit. What has been made by then, and
    /// the block it starts in.
    pub open spec fn stmt(self, lin: LinearModel, s: LinearStmtId, exit: Exit) -> (
        Self,
        CfgBlockId,
    )
        decreases lin.stmt_rank(s), 2nat, 0nat,
        when lin.acyclic()
    {
        match cached_in(self.cached_list(s), exit) {
            Some(block) => (self, block),
            None => {
                let (made, block) = self.new_stmt(lin, s, exit);
                (made.remember(s, exit, block), block)
            },
        }
    }

    /// What is made for a statement that has not been lowered for the exit.
    pub open spec fn new_stmt(self, lin: LinearModel, s: LinearStmtId, exit: Exit) -> (
        Self,
        CfgBlockId,
    )
        decreases lin.stmt_rank(s), 1nat, 0nat,
        when lin.acyclic()
    {
        proof {
            lemma_linear_ranks(lin, s);
        }
        if !lin.has_stmt(s) {
            let made = self.unit().exit_block(1, exit);
            (made, made.last_block())
        } else {
            match lin.stmt(s) {
                LinearStmtModel::Return(value) => {
                    let made = self.expr(lin, value).exit_block(0, exit);
                    (made, made.last_block())
                },
                LinearStmtModel::Let { binding, value, next } => {
                    let made = self.stmt(lin, next, exit).0.expr(lin, value).var(binding).block(1);
                    (made, made.last_block())
                },
                LinearStmtModel::Val { binding, value, next } => {
                    let taken = self.stmt(lin, next, exit).0.var(binding).block(0);
                    taken.stmt(lin, value, Exit::Yield(taken.last_block()))
                },
                LinearStmtModel::Call { result, args, next, .. } => {
                    let taken = self.stmt(lin, next, exit).0.var(result).block(0);
                    let made = taken.args(lin, args, args.len()).block(0);
                    (made, made.last_block())
                },
                LinearStmtModel::If { cond, then_branch, else_branch } => {
                    let made = self.stmt(lin, then_branch, exit).0.stmt(
                        lin,
                        else_branch,
                        exit,
                    ).0.expr(lin, cond).block(0);
                    (made, made.last_block())
                },
                LinearStmtModel::Match { scrutinee, arms, default } => {
                    let armed = self.arms(lin, s, exit, arms.len());
                    let rest = match default {
                        Some(default) => armed.stmt(lin, default, exit).0,
                        None => armed.unit().exit_block(0, exit),
                    };
                    let made = rest.expr(lin, scrutinee).block(0);
                    (made, made.last_block())
                },
                LinearStmtModel::Perform { result, args, next, .. } => {
                    let after = self.stmt(lin, next, exit).0;
                    let taken = match result {
                        Some(var) => after.var(var),
                        None => after,
                    }.block(0);
                    let made = taken.args(lin, args, args.len()).block(0);
                    (made, made.last_block())
                },
                LinearStmtModel::Handle { body, next, .. } => Tally {
                    handlers: self.handlers + 1,
                    ..self
                }.region(lin, s, body, next, exit),
                LinearStmtModel::Stage { body, next, .. } => self.region(lin, s, body, next, exit),
                LinearStmtModel::Hole | LinearStmtModel::Error => {
                    let made = self.unit().exit_block(1, exit);
                    (made, made.last_block())
                },
            }
        }
    }

    /// A block that enters, what it encloses, a block that leaves, and what
    /// follows.
    pub open spec fn region(
        self,
        lin: LinearModel,
        s: LinearStmtId,
        body: LinearStmtId,
        next: Option<LinearStmtId>,
        exit: Exit,
    ) -> (Self, CfgBlockId)
        decreases lin.stmt_rank(s), 0nat, 0nat,
        when lin.acyclic() && lin.has_stmt(s) && lin.stmt(s).has_part(body) && (next matches Some(n)
            ==> lin.stmt(s).has_part(n))
    {
        proof {
            lemma_linear_ranks(lin, s);
        }
        let made = match next {
            Some(next) => {
                let leaving = self.stmt(lin, next, exit).0.block(1);
                leaving.stmt(lin, body, Exit::Discard(leaving.last_block())).0
            },
            None => {
                let leaving = self.unnamed_value().plain_expr().exit_block(1, exit);
                leaving.stmt(lin, body, Exit::Yield(leaving.last_block())).0
            },
        }.block(1);
        (made, made.last_block())
    }

    /// The first arms of a match are lowered, in order, each with a block that
    /// takes its binders.
    pub open spec fn arms(self, lin: LinearModel, s: LinearStmtId, exit: Exit, first: nat) -> Self
        decreases lin.stmt_rank(s), 0nat, first,
        when lin.acyclic()
    {
        if first > 0 && lin.has_stmt(s) && lin.stmt(s) is Match && first
            <= lin.stmt(s)->Match_arms.len() {
            proof {
                lemma_linear_ranks(lin, s);
                lemma_linear_arm_is_part(lin.stmt(s), first - 1);
            }
            let arm = lin.stmt(s)->Match_arms[first - 1];
            self.arms(lin, s, exit, (first - 1) as nat).stmt(lin, arm.body, exit).0.vars(
                arm.binders,
                arm.binders.len(),
            ).block(0)
        } else {
            self
        }
    }

    /// A function: its body, and a block that takes its parameters. Statements
    /// are shared within a function only.
    pub open spec fn function(self, lin: LinearModel, i: int) -> Self {
        let source = lin.functions[i];
        Tally { stmts: Map::empty(), ..self }.stmt(lin, source.body, Exit::Return).0.vars(
            source.params,
            source.params.len(),
        ).block(0)
    }

    pub open spec fn functions(self, lin: LinearModel, first: nat) -> Self
        decreases first,
    {
        if first == 0 {
            self
        } else {
            self.functions(lin, (first - 1) as nat).function(lin, first - 1)
        }
    }
}

impl CfgState {
    /// Nothing has been lowered yet.
    pub open spec fn start() -> Self {
        CfgState {
            cfg: CfgModel::empty(),
            values: Map::empty(),
            exprs: Map::empty(),
            stmts: Map::empty(),
            unit: None,
            handlers: Seq::empty(),
        }
    }

    /// How much has been made.
    pub open spec fn tally(self) -> Tally {
        Tally {
            blocks: self.cfg.blocks.len(),
            instructions: self.cfg.instructions.len(),
            values: self.cfg.values.len(),
            exprs: self.cfg.exprs.len(),
            handlers: self.handlers.len(),
            named: self.values.dom(),
            known: self.exprs.dom(),
            stmts: self.stmts,
            has_unit: self.unit is Some,
        }
    }
}

// ---------------------------------------------------------------------------
// The lowering
// ---------------------------------------------------------------------------

/// A lowering under way.
pub struct Lowerer<'a> {
    pub linear: &'a LinearProgram,
    pub cfg: CfgProgram,
    pub values: HashMap<usize, CfgValueId>,
    pub expressions: HashMap<usize, CfgExprId>,
    pub statements: HashMap<usize, Vec<Cached>>,
    pub unit: Option<CfgExprId>,
    pub handlers: Vec<EffectLabelId>,
}

impl<'a> View for Lowerer<'a> {
    type V = CfgState;

    open spec fn view(&self) -> CfgState {
        CfgState {
            cfg: self.cfg@,
            values: self.values@,
            exprs: self.expressions@,
            stmts: self.statements@.map_values(|list: Vec<Cached>| list@),
            unit: self.unit,
            handlers: self.handlers@,
        }
    }
}

/// The instructions that a block is made of.
pub open spec fn made_of(kinds: Seq<CfgInstruction>, source: LinearStmtId) -> Seq<
    CfgInstructionModel,
> {
    Seq::new(
        kinds.len(),
        |i: int|
            CfgInstructionModel {
                kind: kinds[i],
                source: Some(source),
                pre_arc: Seq::empty(),
                post_arc: Seq::empty(),
            },
    )
}

/// Instructions that enter and leave regions that have not been entered or left
/// yet.
pub open spec fn regions_new(
    instructions: Seq<CfgInstructionModel>,
    kinds: Seq<CfgInstruction>,
    high: nat,
) -> bool {
    &&& kinds.len() <= 1
    &&& kinds.len() == 1 ==> {
        &&& entered(kinds[0]) matches Some(h) ==> h.0 < high
        &&& left(kinds[0]) matches Some(h) ==> h.0 < high
        &&& forall|i: int| #![trigger instructions[i]]
            0 <= i < instructions.len() ==> {
                &&& entered(kinds[0]) is Some ==> entered(instructions[i].kind) != entered(
                    kinds[0],
                )
                &&& left(kinds[0]) is Some ==> left(instructions[i].kind) != left(kinds[0])
            }
    }
}

impl<'a> Lowerer<'a> {
    /// The lowering so far holds together.
    pub open spec fn ready(self) -> bool {
        &&& self.linear@.acyclic()
        &&& self@.holds(self.linear@)
        &&& self@.cache_holds(self.linear@)
    }

    /// The lowering has gone on from an earlier state.
    pub open spec fn stepped(self, earlier: Self) -> bool {
        &&& self.linear == earlier.linear
        &&& self.ready()
        &&& self@.grew_from(earlier@)
    }

    /// Only values and expressions have been added.
    pub open spec fn stepped_pure(self, earlier: Self) -> bool {
        &&& self.stepped(earlier)
        &&& self@.cfg.instructions == earlier@.cfg.instructions
        &&& self@.cfg.blocks == earlier@.cfg.blocks
        &&& self@.stmts == earlier@.stmts
        &&& self@.handlers == earlier@.handlers
    }

    fn value_for_var(&mut self, var: VarId) -> (value: CfgValueId)
        requires
            old(self).ready(),
        ensures
            final(self).stepped_pure(*old(self)),
            final(self)@.exprs == old(self)@.exprs,
            final(self)@.value_at(var, value),
            final(self)@.cfg.has_value(value),
            final(self)@.tally() == old(self)@.tally().var(var),
    {
        if let Some(value) = self.values.get(&var.0) {
            assert(self@.value_at(var, *value));
            return *value;
        }
        let ghost before = self@;
        let value = self.cfg.push_value(Some(var));
        self.values.insert(var.0, value);
        proof {
            assert(self@.tally() =~= before.tally().var(var));
            crate::ir::cfg::lemma_valid_grows(before.cfg, self@.cfg);
            lemma_holds_grows(self.linear@, before, self@);
        }
        value
    }

    fn values_for_vars(&mut self, vars: &Vec<VarId>) -> (values: Vec<CfgValueId>)
        requires
            old(self).ready(),
        ensures
            final(self).stepped_pure(*old(self)),
            final(self)@.exprs == old(self)@.exprs,
            final(self)@.values_at(vars@, values@),
            final(self)@.cfg.has_values(values@),
            final(self)@.tally() == old(self)@.tally().vars(vars@, vars@.len()),
    {
        let mut values: Vec<CfgValueId> = Vec::new();
        let mut i: usize = 0;
        while i < vars.len()
            invariant
                self.stepped_pure(*old(self)),
                self@.exprs == old(self)@.exprs,
                i <= vars@.len(),
                values@.len() == i,
                self@.tally() == old(self)@.tally().vars(vars@, i as nat),
                forall|j: int| #![trigger values@[j]]
                    0 <= j < i ==> self@.value_at(vars@[j], values@[j]) && self@.cfg.has_value(
                        values@[j],
                    ),
            decreases vars@.len() - i,
        {
            let value = self.value_for_var(vars[i]);
            values.push(value);
            i += 1;
        }
        values
    }

    fn synthetic_value(&mut self) -> (value: CfgValueId)
        requires
            old(self).ready(),
        ensures
            final(self).stepped_pure(*old(self)),
            final(self)@.exprs == old(self)@.exprs,
            final(self)@.values == old(self)@.values,
            final(self)@.unit == old(self)@.unit,
            final(self)@.unnamed(value),
            final(self)@.tally() == old(self)@.tally().unnamed_value(),
    {
        let ghost before = self@;
        let value = self.cfg.push_value(None);
        proof {
            crate::ir::cfg::lemma_valid_grows(before.cfg, self@.cfg);
            lemma_holds_grows(self.linear@, before, self@);
        }
        value
    }

    /// An expression that no source gave rise to.
    fn plain_expr(&mut self, kind: CfgExpr) -> (id: CfgExprId)
        requires
            old(self).ready(),
            forall|part: CfgExprId| !#[trigger] kind@.has_part(part),
            kind@ matches CfgExprModel::Value(v) ==> old(self)@.cfg.has_value(v),
        ensures
            final(self).stepped_pure(*old(self)),
            final(self)@.exprs == old(self)@.exprs,
            final(self)@.values == old(self)@.values,
            final(self)@.unit == old(self)@.unit,
            final(self)@.cfg.values == old(self)@.cfg.values,
            final(self)@.cfg.has_expr(id),
            final(self)@.cfg.exprs[id.0 as int] == (CfgExprNodeModel {
                kind: kind@,
                source: None,
            }),
            final(self)@.tally() == old(self)@.tally().plain_expr(),
    {
        let ghost before = self@;
        let id = self.cfg.push_expr(kind, None);
        proof {
            assert forall|e: CfgExprId, part: CfgExprId| #![trigger self@.cfg.expr(e).has_part(part)]
                self@.cfg.has_expr(e) && !before.cfg.has_expr(e) && self@.cfg.expr(e).has_part(
                    part,
                ) implies self@.cfg.has_expr(part) by {
                assert(self@.cfg.expr(e) == kind@);
                assert(kind@.has_part(part));
            }
            crate::ir::cfg::lemma_valid_grows(before.cfg, self@.cfg);
            lemma_holds_grows(self.linear@, before, self@);
        }
        id
    }

    fn unit_expr(&mut self) -> (unit: CfgExprId)
        requires
            old(self).ready(),
        ensures
            final(self).stepped_pure(*old(self)),
            final(self)@.unit == Some(unit),
            final(self)@.is_unit(unit),
            final(self)@.tally() == old(self)@.tally().unit(),
    {
        if let Some(unit) = self.unit {
            return unit;
        }
        let unit = self.plain_expr(CfgExpr::Literal(Literal::Unit));
        let ghost before = self@;
        self.unit = Some(unit);
        proof {
            lemma_holds_grows(self.linear@, before, self@);
        }
        unit
    }

    fn lower_expr_list(
        &mut self,
        exprs: &Vec<LinearExprId>,
        Ghost(owner): Ghost<LinearExprId>,
    ) -> (ids: Vec<CfgExprId>)
        requires
            old(self).ready(),
            old(self).linear@.has_expr(owner),
            exprs@ == listed_parts(old(self).linear@.expr(owner)),
        ensures
            final(self).stepped_pure(*old(self)),
            final(self)@.exprs_at(exprs@, ids@),
            final(self)@.cfg.has_exprs(ids@),
            final(self).exprs_below(*old(self), old(self).linear@.expr_rank(owner)),
            final(self)@.tally() == old(self)@.tally().expr_parts(
                old(self).linear@,
                owner,
                exprs@.len(),
            ),
        decreases old(self).linear@.expr_rank(owner), 0nat,
    {
        let ghost lin = self.linear@;
        let ghost bound = lin.expr_rank(owner);
        proof {
            lemma_linear_expr_ranks(lin, owner);
            assert forall|i: int| #![trigger exprs@[i]] 0 <= i < exprs@.len() implies lin.expr_rank(
                exprs@[i],
            ) < bound by {
                assert(exprs@.contains(exprs@[i]));
                assert(lin.expr(owner).has_part(exprs@[i]));
            }
        }
        let mut ids: Vec<CfgExprId> = Vec::new();
        let mut i: usize = 0;
        while i < exprs.len()
            invariant
                self.stepped_pure(*old(self)),
                lin == old(self).linear@,
                lin.acyclic(),
                lin.has_expr(owner),
                exprs@ == listed_parts(lin.expr(owner)),
                bound == lin.expr_rank(owner),
                self@.tally() == old(self)@.tally().expr_parts(lin, owner, i as nat),
                forall|i: int| #![trigger exprs@[i]]
                    0 <= i < exprs@.len() ==> lin.expr_rank(exprs@[i]) < bound,
                i <= exprs@.len(),
                ids@.len() == i,
                forall|j: int| #![trigger ids@[j]]
                    0 <= j < i ==> self@.expr_at(exprs@[j], ids@[j]) && self@.cfg.has_expr(ids@[j]),
                self.exprs_below(*old(self), bound),
            decreases exprs@.len() - i,
        {
            let id = self.lower_expr(exprs[i]);
            ids.push(id);
            i += 1;
        }
        ids
    }

    /// Only expressions below some rank have been lowered since.
    pub open spec fn exprs_below(self, earlier: Self, bound: nat) -> bool {
        forall|e: usize| #[trigger]
            self@.exprs.contains_key(e) && !earlier@.exprs.contains_key(e)
                ==> self.linear@.expr_rank(LinearExprId(e)) < bound
    }

    fn lower_expr(&mut self, expr_id: LinearExprId) -> (id: CfgExprId)
        requires
            old(self).ready(),
        ensures
            final(self).stepped_pure(*old(self)),
            final(self)@.expr_at(expr_id, id),
            final(self)@.cfg.has_expr(id),
            final(self).exprs_below(*old(self), old(self).linear@.expr_rank(expr_id) + 1),
            final(self)@.tally() == old(self)@.tally().expr(old(self).linear@, expr_id),
        decreases old(self).linear@.expr_rank(expr_id), 1nat,
    {
        if let Some(id) = self.expressions.get(&expr_id.0) {
            assert(self@.expr_at(expr_id, *id));
            return *id;
        }
        let linear = self.linear;
        let ghost lin = linear@;
        proof {
            lemma_linear_expr_ranks(lin, expr_id);
        }
        let kind = match linear.expr(expr_id) {
            None => CfgExpr::Error,
            Some(node) => match node {
                LinearExpr::Var(var) => CfgExpr::Value(self.value_for_var(*var)),
                LinearExpr::Literal(literal) => CfgExpr::Literal(literal.clone()),
                LinearExpr::Unary { op, expr } => CfgExpr::Unary {
                    op: *op,
                    expr: self.lower_expr(*expr),
                },
                LinearExpr::Binary { op, lhs, rhs } => {
                    let lhs = self.lower_expr(*lhs);
                    let rhs = self.lower_expr(*rhs);
                    CfgExpr::Binary { op: *op, lhs, rhs }
                },
                LinearExpr::PureCall { callee, args } => {
                    let args = self.lower_expr_list(args, Ghost(expr_id));
                    CfgExpr::PureCall { callee: *callee, args }
                },
                LinearExpr::MakeStruct { ty, fields } => {
                    let fields = self.lower_expr_list(fields, Ghost(expr_id));
                    CfgExpr::MakeStruct { ty: *ty, fields }
                },
                LinearExpr::MakeEnum { ty, variant, fields } => {
                    let fields = self.lower_expr_list(fields, Ghost(expr_id));
                    CfgExpr::MakeEnum { ty: *ty, variant: *variant, fields }
                },
                LinearExpr::Error => CfgExpr::Error,
            },
        };
        let ghost before = self@;
        assert(before.expr_says(lin, expr_id, kind@));
        assert(forall|part: CfgExprId| kind@.has_part(part) ==> before.cfg.has_expr(part));
        assert(self.exprs_below(*old(self), lin.expr_rank(expr_id)));
        assert(!self@.exprs.contains_key(expr_id.0));
        let id = self.cfg.push_expr(kind, Some(expr_id));
        self.expressions.insert(expr_id.0, id);
        proof {
            assert(self@.grew_from(before));
            assert forall|e: CfgExprId, part: CfgExprId| #![trigger self@.cfg.expr(e).has_part(part)]
                self@.cfg.has_expr(e) && !before.cfg.has_expr(e) && self@.cfg.expr(e).has_part(
                    part,
                ) implies self@.cfg.has_expr(part) by {
                assert(self@.cfg.expr(e) == kind@);
                assert(kind@.has_part(part));
            }
            crate::ir::cfg::lemma_valid_grows(before.cfg, self@.cfg);
            lemma_expr_says_grows(lin, before, self@, expr_id, kind@);
            lemma_holds_grows(lin, before, self@);
            assert(self@.tally() =~= (Tally {
                known: before.tally().known.insert(expr_id.0),
                ..before.tally().plain_expr()
            }));
        }
        id
    }

    fn lower_args(&mut self, exprs: &Vec<LinearExprId>) -> (ids: Vec<CfgExprId>)
        requires
            old(self).ready(),
        ensures
            final(self).stepped_pure(*old(self)),
            final(self)@.exprs_at(exprs@, ids@),
            final(self)@.cfg.has_exprs(ids@),
            final(self)@.tally() == old(self)@.tally().args(
                old(self).linear@,
                exprs@,
                exprs@.len(),
            ),
    {
        let mut ids: Vec<CfgExprId> = Vec::new();
        let mut i: usize = 0;
        while i < exprs.len()
            invariant
                self.stepped_pure(*old(self)),
                self@.tally() == old(self)@.tally().args(old(self).linear@, exprs@, i as nat),
                i <= exprs@.len(),
                ids@.len() == i,
                forall|j: int| #![trigger ids@[j]]
                    0 <= j < i ==> self@.expr_at(exprs@[j], ids@[j]) && self@.cfg.has_expr(ids@[j]),
            decreases exprs@.len() - i,
        {
            let id = self.lower_expr(exprs[i]);
            ids.push(id);
            i += 1;
        }
        ids
    }

    fn push_kind(&mut self, kind: CfgInstruction, source: LinearStmtId) -> (id: CfgInstrId)
        requires
            old(self).ready(),
            old(self)@.cfg.instruction_valid(kind),
            regions_new(
                old(self)@.cfg.instructions,
                seq![kind],
                old(self)@.handlers.len(),
            ),
        ensures
            final(self).stepped(*old(self)),
            id.0 == old(self)@.cfg.instructions.len(),
            final(self)@ == (CfgState {
                cfg: CfgModel {
                    instructions: old(self)@.cfg.instructions + made_of(seq![kind], source),
                    ..old(self)@.cfg
                },
                ..old(self)@
            }),
    {
        let ghost before = self@;
        let id = self.cfg.push_instruction(kind, Some(source));
        proof {
            assert(self@.cfg.instructions =~= before.cfg.instructions + made_of(
                seq![kind],
                source,
            ));
            crate::ir::cfg::lemma_valid_grows(before.cfg, self@.cfg);
            lemma_holds_grows(self.linear@, before, self@);
        }
        id
    }

    /// A complete block.
    fn emit(
        &mut self,
        params: Vec<CfgValueId>,
        first: Option<CfgInstruction>,
        second: Option<CfgInstruction>,
        terminator: CfgTerminator,
        source: LinearStmtId,
    ) -> (id: CfgBlockId)
        requires
            old(self).ready(),
            old(self)@.cfg.has_values(params@),
            first matches Some(kind) ==> old(self)@.cfg.instruction_valid(kind) && regions_new(
                old(self)@.cfg.instructions,
                seq![kind],
                old(self)@.handlers.len(),
            ),
            second matches Some(kind) ==> old(self)@.cfg.instruction_valid(kind) && entered(
                kind,
            ) is None && left(kind) is None,
            old(self)@.cfg.terminator_valid(terminator@),
        ensures
            final(self).stepped(*old(self)),
            final(self)@.stmts == old(self)@.stmts,
            final(self)@.handlers == old(self)@.handlers,
            final(self)@.values == old(self)@.values,
            final(self)@.exprs == old(self)@.exprs,
            final(self)@.unit == old(self)@.unit,
            final(self)@.block_has(id, params@, kinds_of(first, second), source),
            final(self)@.cfg.block(id).terminator == terminator@,
            final(self)@.cfg.takes(id, params@.len()),
            final(self)@.cfg.instructions == old(self)@.cfg.instructions + made_of(
                kinds_of(first, second),
                source,
            ),
            final(self)@.tally() == old(self)@.tally().block(kinds_of(first, second).len()),
            id == final(self)@.tally().last_block(),
    {
        let ghost start = self@;
        let mut instructions: Vec<CfgInstrId> = Vec::new();
        if let Some(kind) = first {
            let id = self.push_kind(kind, source);
            instructions.push(id);
        }
        if let Some(kind) = second {
            let id = self.push_kind(kind, source);
            instructions.push(id);
        }
        let ghost before = self@;
        proof {
            assert(before.cfg.instructions =~= start.cfg.instructions + made_of(
                kinds_of(first, second),
                source,
            ));
        }
        let id = self.cfg.push_block(params, instructions, terminator, Some(source));
        proof {
            assert(self@.cfg.extends(before.cfg));
            assert(forall|b: CfgBlockId, n: nat| #[trigger]
                start.cfg.takes(b, n) ==> self@.cfg.takes(b, n));
            assert(self@.cfg.block_valid(id.0 as int));
            crate::ir::cfg::lemma_valid_grows(before.cfg, self@.cfg);
            lemma_holds_grows(self.linear@, before, self@);
            assert(self@.block_has(id, params@, kinds_of(first, second), source));
        }
        id
    }

    /// A block that ends by sending a value to an exit.
    fn emit_exit(
        &mut self,
        params: Vec<CfgValueId>,
        first: Option<CfgInstruction>,
        value: CfgExprId,
        exit: Exit,
        source: LinearStmtId,
    ) -> (id: CfgBlockId)
        requires
            old(self).ready(),
            old(self)@.cfg.has_values(params@),
            first matches Some(kind) ==> old(self)@.cfg.instruction_valid(kind) && regions_new(
                old(self)@.cfg.instructions,
                seq![kind],
                old(self)@.handlers.len(),
            ),
            old(self)@.cfg.has_expr(value),
            old(self)@.exit_exists(exit),
        ensures
            final(self).stepped(*old(self)),
            final(self)@.stmts == old(self)@.stmts,
            final(self)@.handlers == old(self)@.handlers,
            final(self)@.values == old(self)@.values,
            final(self)@.exprs == old(self)@.exprs,
            final(self)@.unit == old(self)@.unit,
            final(self)@.exits(id, params@, kinds_of(first, None), value, exit, source),
            final(self)@.cfg.takes(id, params@.len()),
            final(self)@.tally() == old(self)@.tally().exit_block(
                kinds_of(first, None).len(),
                exit,
            ),
            id == final(self)@.tally().last_block(),
            adds_regions_of(
                old(self)@.cfg.instructions,
                final(self)@.cfg.instructions,
                first,
            ),
    {
        match exit {
            Exit::Return => self.emit(params, first, None, CfgTerminator::Return(value), source),
            Exit::Yield(target) => {
                let mut args: Vec<CfgExprId> = Vec::new();
                args.push(value);
                assert(args@ =~= seq![value]);
                self.emit(params, first, None, CfgTerminator::Goto { target, args }, source)
            },
            Exit::Discard(target) => {
                let result = self.synthetic_value();
                let id = self.emit(
                    params,
                    first,
                    Some(CfgInstruction::Eval { result, value }),
                    CfgTerminator::Goto { target, args: Vec::new() },
                    source,
                );
                proof {
                    assert(self@.unnamed(result));
                    assert(kinds_of(first, Some(CfgInstruction::Eval { result, value })) == kinds_of(
                        first,
                        None,
                    ).push(CfgInstruction::Eval { result, value }));
                }
                id
            },
        }
    }

    /// A block that goes on.
    fn emit_goto(
        &mut self,
        params: Vec<CfgValueId>,
        first: Option<CfgInstruction>,
        target: CfgBlockId,
        source: LinearStmtId,
    ) -> (id: CfgBlockId)
        requires
            old(self).ready(),
            old(self)@.cfg.has_values(params@),
            first matches Some(kind) ==> old(self)@.cfg.instruction_valid(kind) && regions_new(
                old(self)@.cfg.instructions,
                seq![kind],
                old(self)@.handlers.len(),
            ),
            old(self)@.cfg.takes(target, 0),
        ensures
            final(self).stepped(*old(self)),
            final(self)@.stmts == old(self)@.stmts,
            final(self)@.handlers == old(self)@.handlers,
            final(self)@.values == old(self)@.values,
            final(self)@.exprs == old(self)@.exprs,
            final(self)@.unit == old(self)@.unit,
            final(self)@.block_has(id, params@, kinds_of(first, None), source),
            final(self)@.goes_on(id),
            final(self)@.onward(id) == target,
            final(self)@.cfg.takes(id, params@.len()),
            final(self)@.tally() == old(self)@.tally().block(kinds_of(first, None).len()),
            id == final(self)@.tally().last_block(),
            adds_regions_of(
                old(self)@.cfg.instructions,
                final(self)@.cfg.instructions,
                first,
            ),
    {
        self.emit(params, first, None, CfgTerminator::Goto { target, args: Vec::new() }, source)
    }

    /// A block that sends the unit value to an exit.
    fn unit_exit_block(
        &mut self,
        first: Option<CfgInstruction>,
        exit: Exit,
        source: LinearStmtId,
    ) -> (id: CfgBlockId)
        requires
            old(self).ready(),
            first matches Some(kind) ==> old(self)@.cfg.instruction_valid(kind) && entered(
                kind,
            ) is None && left(kind) is None,
            old(self)@.exit_exists(exit),
        ensures
            final(self).stepped(*old(self)),
            final(self)@.stmts == old(self)@.stmts,
            final(self)@.handlers == old(self)@.handlers,
            final(self)@.exits_unit(id, kinds_of(first, None), exit, source),
            final(self)@.cfg.takes(id, 0),
            final(self)@.tally() == old(self)@.tally().unit().exit_block(
                kinds_of(first, None).len(),
                exit,
            ),
            id == final(self)@.tally().last_block(),
            adds_regions_of(
                old(self)@.cfg.instructions,
                final(self)@.cfg.instructions,
                None,
            ),
    {
        let unit = self.unit_expr();
        let params: Vec<CfgValueId> = Vec::new();
        assert(params@ =~= Seq::empty());
        self.emit_exit(params, first, unit, exit, source)
    }

    fn find_cached(&self, stmt: LinearStmtId, exit: Exit) -> (found: Option<CfgBlockId>)
        requires
            self.ready(),
        ensures
            found == self@.cached(stmt, exit),
            found matches Some(block) ==> self@.runs(self.linear@, stmt, exit, block)
                && self@.cfg.takes(block, 0),
    {
        if let Some(list) = self.statements.get(&stmt.0) {
            assert(self@.stmts[stmt.0] == list@);
            assert(list@.take(list@.len() as int) =~= list@);
            let mut i: usize = list.len();
            while i > 0
                invariant
                    self.ready(),
                    i <= list@.len(),
                    self@.stmts.contains_key(stmt.0),
                    self@.stmts[stmt.0] == list@,
                    self@.cached(stmt, exit) == cached_in(list@.take(i as int), exit),
                decreases i,
            {
                let entry = list[i - 1];
                assert(self@.cached_runs(self.linear@, stmt.0, self@.stmts[stmt.0][i - 1]));
                assert(list@.take(i as int).drop_last() =~= list@.take(i - 1));
                if entry.exit == exit {
                    return Some(entry.block);
                }
                i -= 1;
            }
        }
        None
    }

    /// The block is cached for the statement and the exit; nothing else changes.
    fn remember(&mut self, stmt: LinearStmtId, exit: Exit, block: CfgBlockId)
        requires
            old(self).ready(),
            old(self)@.runs(old(self).linear@, stmt, exit, block),
            old(self)@.cfg.takes(block, 0),
        ensures
            final(self).stepped(*old(self)),
            final(self)@ == (CfgState {
                stmts: old(self)@.stmts.insert(
                    stmt.0,
                    old(self)@.cached_list(stmt).push(Cached { exit, block }),
                ),
                ..old(self)@
            }),
            forall|s: LinearStmtId, e: Exit| #[trigger]
                final(self)@.cached(s, e) == if s == stmt && e == exit {
                    Some(block)
                } else {
                    old(self)@.cached(s, e)
                },
            final(self)@.runs(final(self).linear@, stmt, exit, block),
    {
        let ghost before = self@;
        let ghost lin = self.linear@;
        let mut list: Vec<Cached> = match self.statements.remove(&stmt.0) {
            Some(list) => list,
            None => Vec::new(),
        };
        let ghost earlier = list@;
        list.push(Cached { exit, block });
        self.statements.insert(stmt.0, list);
        proof {
            assert(earlier =~= before.cached_list(stmt));
            assert(self@.stmts =~= before.stmts.insert(
                stmt.0,
                earlier.push(Cached { exit, block }),
            ));
            assert(earlier.push(Cached { exit, block }).drop_last() =~= earlier);
            assert(self@.grew_from(before));
            lemma_runs_grows(lin, before, self@, stmt, exit, block);
            assert forall|s: usize, i: int| #![trigger self@.stmts[s][i]]
                self@.stmts.contains_key(s) && 0 <= i < self@.stmts[s].len() implies self@.cached_runs(
                lin,
                s,
                self@.stmts[s][i],
            ) by {
                if s == stmt.0 {
                    if i < earlier.len() {
                        assert(before.stmts.contains_key(s));
                        assert(before.stmts[s] == earlier);
                        assert(before.cached_runs(lin, s, before.stmts[s][i]));
                        lemma_runs_grows(
                            lin,
                            before,
                            self@,
                            LinearStmtId(s),
                            earlier[i].exit,
                            earlier[i].block,
                        );
                    }
                } else {
                    assert(before.stmts.contains_key(s));
                    assert(before.stmts[s] == self@.stmts[s]);
                    assert(before.cached_runs(lin, s, before.stmts[s][i]));
                    lemma_runs_grows(
                        lin,
                        before,
                        self@,
                        LinearStmtId(s),
                        before.stmts[s][i].exit,
                        before.stmts[s][i].block,
                    );
                }
            }
            assert forall|e: LinearExprId, d: CfgExprId| #[trigger] self@.expr_at(e, d) implies {
                &&& self@.cfg.has_expr(d)
                &&& self@.cfg.exprs[d.0 as int].source == Some(e)
                &&& self@.expr_says(lin, e, self@.cfg.expr(d))
            } by {
                assert(before.expr_at(e, d));
                lemma_expr_says_grows(lin, before, self@, e, before.cfg.expr(d));
            }
            assert forall|var: VarId, value: CfgValueId| #[trigger]
                self@.value_at(var, value) implies self@.cfg.has_value(value)
                && self@.cfg.values[value.0 as int] == Some(var) by {
                assert(before.value_at(var, value));
            }
        }
    }

    /// What the lowering of a statement makes sure of.
    pub open spec fn lowers(self, earlier: Self, s: LinearStmtId, exit: Exit, b: CfgBlockId) -> bool {
        &&& self.stepped(earlier)
        &&& self@.runs(self.linear@, s, exit, b)
        &&& self@.cfg.takes(b, 0)
        &&& regions_within(
            self@.cfg.instructions,
            earlier@.cfg.instructions.len() as int,
            earlier@.handlers.len(),
            self@.handlers.len(),
        )
    }

    fn lower_stmt(&mut self, id: LinearStmtId, exit: Exit) -> (entry: CfgBlockId)
        requires
            old(self).ready(),
            old(self)@.exit_exists(exit),
        ensures
            final(self).lowers(*old(self), id, exit, entry),
            final(self)@.cached(id, exit) == Some(entry),
            old(self)@.cached(id, exit) is Some ==> *final(self) == *old(self),
            (final(self)@.tally(), entry) == old(self)@.tally().stmt(
                old(self).linear@,
                id,
                exit,
            ),
        decreases old(self).linear@.stmt_rank(id), 3nat,
    {
        if let Some(lowered) = self.find_cached(id, exit) {
            return lowered;
        }
        let entry = self.lower_stmt_uncached(id, exit);
        self.remember(id, exit, entry);
        entry
    }

    #[verifier::rlimit(60)]
    #[verifier::spinoff_prover]
    fn lower_stmt_uncached(&mut self, id: LinearStmtId, exit: Exit) -> (entry: CfgBlockId)
        requires
            old(self).ready(),
            old(self)@.exit_exists(exit),
        ensures
            final(self).lowers(*old(self), id, exit, entry),
            (final(self)@.tally(), entry) == old(self)@.tally().new_stmt(
                old(self).linear@,
                id,
                exit,
            ),
        decreases old(self).linear@.stmt_rank(id), 2nat,
    {
        let linear = self.linear;
        let ghost lin = linear@;
        proof {
            lemma_linear_ranks(lin, id);
        }
        match linear.stmt(id) {
            None => {
                assert(kinds_of(Some(CfgInstruction::Error), None) =~= seq![CfgInstruction::Error]);
                self.unit_exit_block(Some(CfgInstruction::Error), exit, id)
            },
            Some(node) => match &node.kind {
                LinearStmt::Return(value) => {
                    let value = self.lower_expr(*value);
                    let params: Vec<CfgValueId> = Vec::new();
                    assert(params@ =~= Seq::empty());
                    assert(kinds_of(None, None) =~= Seq::<CfgInstruction>::empty());
                    self.emit_exit(params, None, value, exit, id)
                },
                LinearStmt::Let { binding, value, next } => {
                    let target = self.lower_stmt(*next, exit);
                    let ghost first = self@;
                    let lowered_value = self.lower_expr(*value);
                    let result = self.value_for_var(*binding);
                    let ghost second = self@;
                    let params: Vec<CfgValueId> = Vec::new();
                    assert(params@ =~= Seq::empty());
                    let kind = CfgInstruction::Let { result, value: lowered_value };
                    assert(kinds_of(Some(kind), None) =~= seq![kind]);
                    let block = self.emit_goto(params, Some(kind), target, id);
                    proof {
                        lemma_runs_grows(lin, first, self@, *next, exit, target);
                    }
                    block
                },
                LinearStmt::Val { binding, value, next } => {
                    let target = self.lower_stmt(*next, exit);
                    let ghost first = self@;
                    let k = self.emit_receiver(*binding, target, id);
                    let ghost second = self@;
                    proof {
                        lemma_runs_grows(lin, first, second, *next, exit, target);
                    }
                    let entry = self.lower_stmt(*value, Exit::Yield(k));
                    proof {
                        lemma_regions_joined(old(self)@, second, self@, old(self)@.handlers.len());
                        lemma_receives_grows(second, self@, k, *binding, id);
                        lemma_runs_grows(lin, second, self@, *next, exit, target);
                    }
                    proof {
                        lemma_val_runs(
                            lin,
                            self@,
                            id,
                            *binding,
                            *value,
                            *next,
                            exit,
                            entry,
                            k,
                        );
                    }
                    entry
                },
                LinearStmt::PureCall { result, callee, args, next } => self.lower_call(
                    id,
                    *result,
                    *callee,
                    args,
                    *next,
                    exit,
                    CallConvention::Pure,
                ),
                LinearStmt::DirectCall { result, callee, args, next } => self.lower_call(
                    id,
                    *result,
                    *callee,
                    args,
                    *next,
                    exit,
                    CallConvention::Direct,
                ),
                LinearStmt::ControlCall { result, callee, args, next } => self.lower_call(
                    id,
                    *result,
                    *callee,
                    args,
                    *next,
                    exit,
                    CallConvention::Control,
                ),
                LinearStmt::If { cond, then_branch, else_branch } => {
                    let then_target = self.lower_stmt(*then_branch, exit);
                    let ghost first = self@;
                    let else_target = self.lower_stmt(*else_branch, exit);
                    let ghost second = self@;
                    proof {
                        lemma_regions_joined(old(self)@, first, second, old(self)@.handlers.len());
                    }
                    let cond = self.lower_expr(*cond);
                    let params: Vec<CfgValueId> = Vec::new();
                    assert(params@ =~= Seq::empty());
                    assert(kinds_of(None, None) =~= Seq::<CfgInstruction>::empty());
                    let block = self.emit(
                        params,
                        None,
                        None,
                        CfgTerminator::Branch { cond, then_target, else_target },
                        id,
                    );
                    proof {
                        lemma_runs_grows(lin, first, self@, *then_branch, exit, then_target);
                        lemma_runs_grows(lin, second, self@, *else_branch, exit, else_target);
                    }
                    block
                },
                LinearStmt::Match { .. } => self.lower_match(id, exit),
                LinearStmt::Perform { .. } => self.lower_perform(id, exit),
                LinearStmt::Handle { effect, body, next } => {
                    let handler = CfgHandlerId::new(self.handlers.len());
                    let ghost before = self@;
                    self.handlers.push(*effect);
                    proof {
                        lemma_holds_grows(lin, before, self@);
                    }
                    let ghost middle = self@;
                    let enter = CfgInstruction::HandlerEnter { handler, effect: *effect };
                    let leave = CfgInstruction::HandlerExit { handler, effect: *effect };
                    let block = self.lower_region(
                        id,
                        enter,
                        leave,
                        *body,
                        *next,
                        exit,
                        Ghost(before.handlers.len()),
                    );
                    assert(self@.region(block) == handler);
                    assert(middle.values == before.values);
                    assert(middle.exprs == before.exprs);
                    assert(self@.grew_from(before));
                    block
                },
                LinearStmt::Stage { stage, body, next } => {
                    let enter = CfgInstruction::StageEnter { stage: *stage };
                    let leave = CfgInstruction::StageExit { stage: *stage };
                    self.lower_region(
                        id,
                        enter,
                        leave,
                        *body,
                        *next,
                        exit,
                        Ghost(self@.handlers.len()),
                    )
                },
                LinearStmt::Hole => {
                    assert(kinds_of(Some(CfgInstruction::Hole), None) =~= seq![
                        CfgInstruction::Hole,
                    ]);
                    self.unit_exit_block(Some(CfgInstruction::Hole), exit, id)
                },
                LinearStmt::Error => {
                    assert(kinds_of(Some(CfgInstruction::Error), None) =~= seq![
                        CfgInstruction::Error,
                    ]);
                    self.unit_exit_block(Some(CfgInstruction::Error), exit, id)
                },
            },
        }
    }

    /// A block that takes the value of a variable and goes on.
    fn emit_receiver(&mut self, var: VarId, target: CfgBlockId, source: LinearStmtId) -> (id:
        CfgBlockId)
        requires
            old(self).ready(),
            old(self)@.cfg.takes(target, 0),
        ensures
            final(self).stepped(*old(self)),
            final(self)@.stmts == old(self)@.stmts,
            final(self)@.handlers == old(self)@.handlers,
            final(self)@.exprs == old(self)@.exprs,
            final(self)@.receives(id, var, source),
            final(self)@.onward(id) == target,
            final(self)@.cfg.takes(id, 1),
            final(self)@.tally() == old(self)@.tally().var(var).block(0),
            id == final(self)@.tally().last_block(),
            adds_regions_of(
                old(self)@.cfg.instructions,
                final(self)@.cfg.instructions,
                None,
            ),
    {
        let value = self.value_for_var(var);
        let mut params: Vec<CfgValueId> = Vec::new();
        params.push(value);
        assert(params@ =~= seq![value]);
        assert(kinds_of(None, None) =~= Seq::<CfgInstruction>::empty());
        self.emit_goto(params, None, target, source)
    }

    fn lower_call(
        &mut self,
        id: LinearStmtId,
        result: VarId,
        callee: SymbolId,
        args: &Vec<LinearExprId>,
        next: LinearStmtId,
        exit: Exit,
        convention: CallConvention,
    ) -> (entry: CfgBlockId)
        requires
            old(self).ready(),
            old(self)@.exit_exists(exit),
            old(self).linear@.has_stmt(id),
            old(self).linear@.stmt(id) == (LinearStmtModel::Call {
                convention,
                result,
                callee,
                args: args@,
                next,
            }),
        ensures
            final(self).lowers(*old(self), id, exit, entry),
            (final(self)@.tally(), entry) == old(self)@.tally().new_stmt(
                old(self).linear@,
                id,
                exit,
            ),
        decreases old(self).linear@.stmt_rank(id), 0nat,
    {
        let ghost lin = self.linear@;
        proof {
            lemma_linear_ranks(lin, id);
        }
        let target = self.lower_stmt(next, exit);
        let ghost first = self@;
        let k = self.emit_receiver(result, target, id);
        let ghost second = self@;
        let value = self.value_for_var(result);
        let lowered_args = self.lower_args(args);
        let ghost third = self@;
        proof {
            lemma_receives_grows(second, third, k, result, id);
        }
        let params: Vec<CfgValueId> = Vec::new();
        assert(params@ =~= Seq::empty());
        assert(kinds_of(None, None) =~= Seq::<CfgInstruction>::empty());
        let block = self.emit(
            params,
            None,
            None,
            CfgTerminator::Call {
                convention: CfgCallConvention::from(convention),
                callee,
                args: lowered_args,
                result: value,
                target: k,
            },
            id,
        );
        proof {
            lemma_receives_grows(third, self@, k, result, id);
            lemma_runs_grows(lin, first, self@, next, exit, target);
        }
        block
    }

    /// A handler or a stage: a block that enters it, its body, a block that leaves
    /// it, and what follows.
    fn lower_region(
        &mut self,
        id: LinearStmtId,
        enter: CfgInstruction,
        leave: CfgInstruction,
        body: LinearStmtId,
        next: Option<LinearStmtId>,
        exit: Exit,
        Ghost(low): Ghost<nat>,
    ) -> (block: CfgBlockId)
        requires
            old(self).ready(),
            old(self)@.exit_exists(exit),
            old(self).linear@.has_stmt(id),
            old(self).linear@.stmt(id).has_part(body),
            next matches Some(n) ==> old(self).linear@.stmt(id).has_part(n),
            low <= old(self)@.handlers.len(),
            old(self)@.cfg.instruction_valid(enter),
            old(self)@.cfg.instruction_valid(leave),
            enter is HandlerEnter || enter is StageEnter,
            leave is HandlerExit || leave is StageExit,
            enter matches CfgInstruction::HandlerEnter { handler, .. } ==> low <= handler.0
                < old(self)@.handlers.len(),
            leave matches CfgInstruction::HandlerExit { handler, .. } ==> low <= handler.0
                < old(self)@.handlers.len(),
            regions_within(old(self)@.cfg.instructions, 0, 0, low),
        ensures
            final(self).stepped(*old(self)),
            final(self)@.enters(block, enter, id),
            final(self)@.region_runs(final(self).linear@, id, leave, body, next, exit, block),
            (final(self)@.tally(), block) == old(self)@.tally().region(
                old(self).linear@,
                id,
                body,
                next,
                exit,
            ),
            final(self)@.cfg.takes(block, 0),
            regions_within(
                final(self)@.cfg.instructions,
                old(self)@.cfg.instructions.len() as int,
                low,
                final(self)@.handlers.len(),
            ),
        decreases old(self).linear@.stmt_rank(id), 0nat,
    {
        let ghost lin = self.linear@;
        let ghost start = self@;
        proof {
            lemma_linear_ranks(lin, id);
            assert(kinds_of(Some(leave), None) =~= seq![leave]);
            assert(kinds_of(Some(enter), None) =~= seq![enter]);
        }
        let no_params: Vec<CfgValueId> = Vec::new();
        assert(no_params@ =~= Seq::empty());
        match next {
            Some(next_stmt) => {
                let target = self.lower_stmt(next_stmt, exit);
                let ghost first = self@;
                let params: Vec<CfgValueId> = Vec::new();
                assert(params@ =~= Seq::empty());
                let after = self.emit_goto(params, Some(leave), target, id);
                let ghost second = self@;
                let inner = self.lower_stmt(body, Exit::Discard(after));
                let ghost third = self@;
                let block = self.emit_goto(no_params, Some(enter), inner, id);
                proof {
                    lemma_block_has_grows(second, self@, after, Seq::empty(), seq![leave], id);
                    assert(self@.leaves(after, leave, id));
                    lemma_runs_grows(lin, first, self@, next_stmt, exit, target);
                    lemma_runs_grows(lin, third, self@, body, Exit::Discard(after), inner);
                }
                block
            },
            None => {
                let taken = self.synthetic_value();
                let value = self.plain_expr(CfgExpr::Value(taken));
                let ghost first = self@;
                assert(first.is_plain_value(value, taken));
                let mut params: Vec<CfgValueId> = Vec::new();
                params.push(taken);
                assert(params@ =~= seq![taken]);
                let after = self.emit_exit(params, Some(leave), value, exit, id);
                let ghost second = self@;
                proof {
                    assert(second.is_plain_value(value, taken));
                    assert(second.forwards(after, leave, exit, id));
                }
                let inner = self.lower_stmt(body, Exit::Yield(after));
                let ghost third = self@;
                let block = self.emit_goto(no_params, Some(enter), inner, id);
                proof {
                    lemma_forwards_grows(second, self@, after, leave, exit, id);
                    lemma_runs_grows(lin, third, self@, body, Exit::Yield(after), inner);
                }
                block
            },
        }
    }

    fn lower_perform(&mut self, id: LinearStmtId, exit: Exit) -> (block: CfgBlockId)
        requires
            old(self).ready(),
            old(self)@.exit_exists(exit),
            old(self).linear@.has_stmt(id),
            old(self).linear@.stmt(id) is Perform,
        ensures
            final(self).lowers(*old(self), id, exit, block),
            (final(self)@.tally(), block) == old(self)@.tally().new_stmt(
                old(self).linear@,
                id,
                exit,
            ),
        decreases old(self).linear@.stmt_rank(id), 0nat,
    {
        let linear = self.linear;
        let ghost lin = linear@;
        proof {
            lemma_linear_ranks(lin, id);
            assert(kinds_of(None, None) =~= Seq::<CfgInstruction>::empty());
        }
        let params: Vec<CfgValueId> = Vec::new();
        assert(params@ =~= Seq::empty());
        match &linear.stmts[id.0].kind {
            LinearStmt::Perform { result, effect, operation, args, next } => {
                let target = self.lower_stmt(*next, exit);
                let ghost first = self@;
                match result {
                    Some(var) => {
                        let k = self.emit_receiver(*var, target, id);
                        let ghost second = self@;
                        let value = self.value_for_var(*var);
                        let lowered_args = self.lower_args(args);
                        let ghost third = self@;
                        proof {
                            lemma_receives_grows(second, third, k, *var, id);
                        }
                        let block = self.emit(
                            params,
                            None,
                            None,
                            CfgTerminator::Perform {
                                effect: *effect,
                                operation: *operation,
                                args: lowered_args,
                                result: Some(value),
                                target: k,
                            },
                            id,
                        );
                        proof {
                            lemma_receives_grows(third, self@, k, *var, id);
                            lemma_runs_grows(lin, first, self@, *next, exit, target);
                        }
                        block
                    },
                    None => {
                        let nothing: Vec<CfgValueId> = Vec::new();
                        assert(nothing@ =~= Seq::empty());
                        let k = self.emit_goto(nothing, None, target, id);
                        let ghost second = self@;
                        let lowered_args = self.lower_args(args);
                        let ghost third = self@;
                        proof {
                            lemma_block_has_grows(
                                second,
                                third,
                                k,
                                Seq::empty(),
                                Seq::empty(),
                                id,
                            );
                        }
                        let block = self.emit(
                            params,
                            None,
                            None,
                            CfgTerminator::Perform {
                                effect: *effect,
                                operation: *operation,
                                args: lowered_args,
                                result: None,
                                target: k,
                            },
                            id,
                        );
                        proof {
                            lemma_block_has_grows(
                                third,
                                self@,
                                k,
                                Seq::empty(),
                                Seq::empty(),
                                id,
                            );
                            lemma_runs_grows(lin, first, self@, *next, exit, target);
                        }
                        block
                    },
                }
            },
            _ => {
                assert(false);
                CfgBlockId::invalid()
            },
        }
    }

    /// An arm of a match.
    fn lower_arm(&mut self, arm: &LinearMatchArm, exit: Exit, id: LinearStmtId) -> (lowered:
        CfgMatchArm)
        requires
            old(self).ready(),
            old(self)@.exit_exists(exit),
            old(self).linear@.has_stmt(id),
            old(self).linear@.stmt(id).has_part(arm.body),
        ensures
            final(self).stepped(*old(self)),
            final(self)@.arm_at(arm@, lowered@, id),
            final(self)@.runs(
                final(self).linear@,
                arm.body,
                exit,
                final(self)@.onward(lowered.target),
            ),
            final(self)@.cfg.has_values(lowered.binders@),
            lowered.projections@.len() == lowered.binders@.len(),
            final(self)@.cfg.takes(lowered.target, lowered.binders@.len()),
            final(self)@.tally() == old(self)@.tally().stmt(
                old(self).linear@,
                arm.body,
                exit,
            ).0.vars(arm@.binders, arm@.binders.len()).block(0),
            regions_within(
                final(self)@.cfg.instructions,
                old(self)@.cfg.instructions.len() as int,
                old(self)@.handlers.len(),
                final(self)@.handlers.len(),
            ),
        decreases old(self).linear@.stmt_rank(id), 0nat,
    {
        let ghost lin = self.linear@;
        proof {
            lemma_linear_ranks(lin, id);
            assert(kinds_of(None, None) =~= Seq::<CfgInstruction>::empty());
        }
        let target = self.lower_stmt(arm.body, exit);
        let ghost first = self@;
        let binders = self.values_for_vars(&arm.binders);
        let params = binders.clone();
        assert(params@ =~= binders@);
        let wrapper = self.emit_goto(params, None, target, id);
        let mut projections: Vec<CfgProjectionMode> = Vec::new();
        while projections.len() < binders.len()
            invariant
                projections@.len() <= binders@.len(),
                forall|i: int| #![trigger projections@[i]]
                    0 <= i < projections@.len() ==> projections@[i] == CfgProjectionMode::Borrow,
            decreases binders@.len() - projections@.len(),
        {
            projections.push(CfgProjectionMode::Borrow);
        }
        proof {
            assert(projections@ =~= Seq::new(
                arm@.binders.len(),
                |i: int| CfgProjectionMode::Borrow,
            ));
            lemma_runs_grows(lin, first, self@, arm.body, exit, target);
        }
        CfgMatchArm { tag: arm.tag, binders, projections, target: wrapper }
    }

    /// The arms lowered so far.
    pub open spec fn arms_lowered(
        self,
        arms: Seq<LinearMatchArmModel>,
        lowered: Seq<CfgMatchArmModel>,
        exit: Exit,
        id: LinearStmtId,
    ) -> bool {
        forall|i: int| #![trigger lowered[i]]
            0 <= i < lowered.len() ==> {
                &&& self@.arm_at(arms[i], lowered[i], id)
                &&& self@.runs(
                    self.linear@,
                    arms[i].body,
                    exit,
                    self@.onward(lowered[i].target),
                )
                &&& self@.cfg.has_values(lowered[i].binders)
                &&& lowered[i].projections.len() == lowered[i].binders.len()
                &&& self@.cfg.takes(lowered[i].target, lowered[i].binders.len())
            }
    }

    proof fn lemma_arms_grow(
        self,
        before: Self,
        arms: Seq<LinearMatchArmModel>,
        lowered: Seq<CfgMatchArmModel>,
        exit: Exit,
        id: LinearStmtId,
    )
        requires
            self.stepped(before),
            before.arms_lowered(arms, lowered, exit, id),
        ensures
            self.arms_lowered(arms, lowered, exit, id),
    {
        let a = before@;
        let b = self@;
        assert forall|i: int| #![trigger lowered[i]] 0 <= i < lowered.len() implies {
            &&& b.arm_at(arms[i], lowered[i], id)
            &&& b.runs(self.linear@, arms[i].body, exit, b.onward(lowered[i].target))
            &&& b.cfg.has_values(lowered[i].binders)
            &&& lowered[i].projections.len() == lowered[i].binders.len()
            &&& b.cfg.takes(lowered[i].target, lowered[i].binders.len())
        } by {
            assert(a.arm_at(arms[i], lowered[i], id));
            lemma_block_has_grows(
                a,
                b,
                lowered[i].target,
                lowered[i].binders,
                Seq::empty(),
                id,
            );
            lemma_runs_grows(
                self.linear@,
                a,
                b,
                arms[i].body,
                exit,
                a.onward(lowered[i].target),
            );
        }
    }

    fn lower_match(&mut self, id: LinearStmtId, exit: Exit) -> (block: CfgBlockId)
        requires
            old(self).ready(),
            old(self)@.exit_exists(exit),
            old(self).linear@.has_stmt(id),
            old(self).linear@.stmt(id) is Match,
        ensures
            final(self).lowers(*old(self), id, exit, block),
            (final(self)@.tally(), block) == old(self)@.tally().new_stmt(
                old(self).linear@,
                id,
                exit,
            ),
        decreases old(self).linear@.stmt_rank(id), 1nat,
    {
        let linear = self.linear;
        let ghost lin = linear@;
        proof {
            lemma_linear_ranks(lin, id);
            assert(kinds_of(None, None) =~= Seq::<CfgInstruction>::empty());
        }
        match &linear.stmts[id.0].kind {
            LinearStmt::Match { scrutinee, arms, default } => {
                let ghost models = crate::common::views(arms@);
                let mut lowered_arms: Vec<CfgMatchArm> = Vec::new();
                let mut i: usize = 0;
                while i < arms.len()
                    invariant
                        self.stepped(*old(self)),
                        old(self)@.exit_exists(exit),
                        lin == self.linear@,
                        lin.has_stmt(id),
                        models == crate::common::views(arms@),
                        lin.stmt(id) is Match,
                        lin.stmt(id)->Match_arms == models,
                        i <= arms@.len(),
                        lowered_arms@.len() == i,
                        self@.tally() == old(self)@.tally().arms(lin, id, exit, i as nat),
                        self.arms_lowered(models, crate::common::views(lowered_arms@), exit, id),
                        regions_within(
                            self@.cfg.instructions,
                            old(self)@.cfg.instructions.len() as int,
                            old(self)@.handlers.len(),
                            self@.handlers.len(),
                        ),
                    decreases arms@.len() - i, 
                {
                    let ghost before = *self;
                    let ghost so_far = crate::common::views(lowered_arms@);
                    proof {
                        lemma_linear_arm_is_part(lin.stmt(id), i as int);
                        assert(models[i as int].body == arms@[i as int].body);
                    }
                    let lowered = self.lower_arm(&arms[i], exit, id);
                    proof {
                        self.lemma_arms_grow(before, models, so_far, exit, id);
                        crate::common::lemma_views_push(lowered_arms@, lowered);
                    }
                    lowered_arms.push(lowered);
                    i += 1;
                }
                let ghost lowered_models = crate::common::views(lowered_arms@);
                let ghost first = *self;
                let lowered_default = match default {
                    Some(default_stmt) => self.lower_stmt(*default_stmt, exit),
                    None => self.unit_exit_block(None, exit, id),
                };
                let ghost second = *self;
                let value = self.lower_expr(*scrutinee);
                let ghost third = *self;
                proof {
                    self.lemma_arms_grow(first, models, lowered_models, exit, id);
                }
                let params: Vec<CfgValueId> = Vec::new();
                assert(params@ =~= Seq::empty());
                let block = self.emit(
                    params,
                    None,
                    None,
                    CfgTerminator::Match {
                        scrutinee: value,
                        arms: lowered_arms,
                        default: lowered_default,
                    },
                    id,
                );
                proof {
                    self.lemma_arms_grow(third, models, lowered_models, exit, id);
                    match default {
                        Some(d) => lemma_runs_grows(
                            lin,
                            second@,
                            self@,
                            *d,
                            exit,
                            lowered_default,
                        ),
                        None => lemma_exits_grows(
                            second@,
                            self@,
                            lowered_default,
                            Seq::empty(),
                            Seq::empty(),
                            second@.unit->0,
                            exit,
                            id,
                        ),
                    }
                }
                block
            },
            _ => {
                assert(false);
                CfgBlockId::invalid()
            },
        }
    }
}

/// A value runs into a block that takes it and goes on.
proof fn lemma_val_runs(
    lin: LinearModel,
    state: CfgState,
    s: LinearStmtId,
    binding: VarId,
    value: LinearStmtId,
    next: LinearStmtId,
    exit: Exit,
    b: CfgBlockId,
    k: CfgBlockId,
)
    requires
        lin.acyclic(),
        lin.has_stmt(s),
        lin.stmt(s) == (LinearStmtModel::Val { binding, value, next }),
        state.receives(k, binding, s),
        state.runs(lin, next, exit, state.onward(k)),
        state.runs(lin, value, Exit::Yield(k), b),
    ensures
        state.runs(lin, s, exit, b),
{
    assert(lin.stmt(s)->Val_binding == binding);
    assert(state.receives(k, lin.stmt(s)->Val_binding, s));
}

/// What two steps add is within the bounds of both.
proof fn lemma_regions_joined(x: CfgState, y: CfgState, z: CfgState, low: nat)
    requires
        z.cfg.extends(y.cfg),
        low <= y.handlers.len() <= z.handlers.len(),
        regions_within(
            y.cfg.instructions,
            x.cfg.instructions.len() as int,
            low,
            y.handlers.len(),
        ),
        regions_within(
            z.cfg.instructions,
            y.cfg.instructions.len() as int,
            y.handlers.len(),
            z.handlers.len(),
        ),
    ensures
        regions_within(
            z.cfg.instructions,
            x.cfg.instructions.len() as int,
            low,
            z.handlers.len(),
        ),
{
    assert forall|i: int| #![trigger z.cfg.instructions[i]]
        x.cfg.instructions.len() <= i < z.cfg.instructions.len() implies {
        &&& entered(z.cfg.instructions[i].kind) matches Some(h) ==> low <= h.0 < z.handlers.len()
        &&& left(z.cfg.instructions[i].kind) matches Some(h) ==> low <= h.0 < z.handlers.len()
    } by {
        if i < y.cfg.instructions.len() {
            assert(z.cfg.instructions[i] == y.cfg.instructions[i]);
        }
    }
}

/// The regions of the instructions that were added are those of one.
pub open spec fn adds_regions_of(
    before: Seq<CfgInstructionModel>,
    after: Seq<CfgInstructionModel>,
    first: Option<CfgInstruction>,
) -> bool {
    &&& after.len() >= before.len()
    &&& forall|i: int| #![trigger after[i]]
        before.len() <= i < after.len() ==> {
            &&& entered(after[i].kind) is Some ==> first is Some && entered(after[i].kind)
                == entered(first->0)
            &&& left(after[i].kind) is Some ==> first is Some && left(after[i].kind) == left(
                first->0,
            )
        }
}

impl CfgState {
    /// The block that an exit names exists, and takes what the exit hands over.
    pub open spec fn exit_exists(self, exit: Exit) -> bool {
        match exit {
            Exit::Return => true,
            Exit::Yield(target) => self.cfg.takes(target, 1),
            Exit::Discard(target) => self.cfg.takes(target, 0),
        }
    }
}

/// One or two instructions.
pub open spec fn kinds_of(first: Option<CfgInstruction>, second: Option<CfgInstruction>) -> Seq<
    CfgInstruction,
> {
    let one = match first {
        Some(kind) => seq![kind],
        None => Seq::empty(),
    };
    match second {
        Some(kind) => one.push(kind),
        None => one,
    }
}

// ---------------------------------------------------------------------------
// Whole programs
// ---------------------------------------------------------------------------

/// The last of the first functions that has some identifier.
pub open spec fn function_with_id(
    functions: Seq<crate::ir::linear::LinearFunctionModel>,
    id: crate::common::ids::LinearFuncId,
    first: nat,
) -> Option<CfgFuncId>
    decreases first,
{
    if first == 0 {
        None
    } else if functions[first - 1].id == id {
        Some(CfgFuncId((first - 1) as usize))
    } else {
        function_with_id(functions, id, (first - 1) as nat)
    }
}

/// The functions that the graph starts from.
pub open spec fn entry_list(lin: LinearModel, first: nat) -> Seq<CfgFuncId>
    decreases first,
{
    if first == 0 {
        Seq::empty()
    } else {
        let before = entry_list(lin, (first - 1) as nat);
        match function_with_id(lin.functions, lin.entrypoints[first - 1], lin.functions.len()) {
            Some(id) => before.push(id),
            None => before,
        }
    }
}

impl CfgState {
    /// A function of the graph takes the parameters of a linear function and
    /// runs its body.
    pub open spec fn function_at(
        self,
        lin: LinearModel,
        i: int,
        function: crate::ir::cfg::CfgFunctionModel,
    ) -> bool {
        let source = lin.functions[i];
        &&& function.id.0 == i
        &&& function.name == source.name
        &&& self.values_at(source.params, function.params)
        &&& self.block_has(function.entry, function.params, Seq::empty(), source.body)
        &&& self.goes_on(function.entry)
        &&& self.runs(lin, source.body, Exit::Return, self.onward(function.entry))
    }

    /// The functions of the graph are those of the linear program.
    pub open spec fn program_at(self, lin: LinearModel) -> bool {
        &&& self.cfg.functions.len() == lin.functions.len()
        &&& forall|i: int| #![trigger self.cfg.functions[i]]
            0 <= i < lin.functions.len() ==> self.function_at(lin, i, self.cfg.functions[i])
        &&& self.cfg.entrypoints == entry_list(lin, lin.entrypoints.len())
    }
}

proof fn lemma_function_at_grows(
    lin: LinearModel,
    a: CfgState,
    b: CfgState,
    i: int,
    function: crate::ir::cfg::CfgFunctionModel,
)
    requires
        lin.acyclic(),
        b.grew_from(a),
        a.function_at(lin, i, function),
    ensures
        b.function_at(lin, i, function),
{
    let source = lin.functions[i];
    assert(forall|v: VarId, d: CfgValueId| #[trigger] a.value_at(v, d) ==> b.value_at(v, d));
    lemma_block_has_grows(a, b, function.entry, function.params, Seq::empty(), source.body);
    lemma_runs_grows(lin, a, b, source.body, Exit::Return, a.onward(function.entry));
}

impl<'a> Lowerer<'a> {
    pub fn new(linear: &'a LinearProgram) -> (lowerer: Self)
        requires
            linear@.acyclic(),
        ensures
            lowerer.ready(),
            lowerer.linear == linear,
            lowerer@ == CfgState::start(),
    {
        let lowerer = Lowerer {
            linear,
            cfg: CfgProgram::default(),
            values: HashMap::new(),
            expressions: HashMap::new(),
            statements: HashMap::new(),
            unit: None,
            handlers: Vec::new(),
        };
        assert(lowerer@ =~= CfgState::start());
        lowerer
    }

    /// Statements are shared within a function only.
    fn forget_statements(&mut self)
        requires
            old(self).ready(),
        ensures
            final(self).stepped(*old(self)),
            final(self)@ == (CfgState { stmts: Map::empty(), ..old(self)@ }),
            forall|s: LinearStmtId, e: Exit| #[trigger] final(self)@.cached(s, e) is None,
    {
        let ghost before = self@;
        self.statements.clear();
        proof {
            assert(self@.stmts =~= Map::empty());
            let lin = self.linear@;
            assert forall|e: LinearExprId, d: CfgExprId| #[trigger] self@.expr_at(e, d) implies {
                &&& self@.cfg.has_expr(d)
                &&& self@.cfg.exprs[d.0 as int].source == Some(e)
                &&& self@.expr_says(lin, e, self@.cfg.expr(d))
            } by {
                assert(before.expr_at(e, d));
                lemma_expr_says_grows(lin, before, self@, e, before.cfg.expr(d));
            }
            assert forall|var: VarId, value: CfgValueId| #[trigger]
                self@.value_at(var, value) implies self@.cfg.has_value(value)
                && self@.cfg.values[value.0 as int] == Some(var) by {
                assert(before.value_at(var, value));
            }
        }
    }

    fn lower_function(&mut self, i: usize) -> (function: CfgFunction)
        requires
            old(self).ready(),
            i < old(self).linear@.functions.len(),
        ensures
            final(self).stepped(*old(self)),
            final(self)@.function_at(final(self).linear@, i as int, function@),
            final(self)@.tally() == old(self)@.tally().function(old(self).linear@, i as int),
    {
        let linear = self.linear;
        let ghost lin = linear@;
        let source = &linear.functions[i];
        self.forget_statements();
        let body = self.lower_stmt(source.body, Exit::Return);
        let ghost first = self@;
        let params = self.values_for_vars(&source.params);
        let taken = params.clone();
        assert(taken@ =~= params@);
        assert(kinds_of(None, None) =~= Seq::<CfgInstruction>::empty());
        let entry = self.emit_goto(taken, None, body, source.body);
        proof {
            lemma_runs_grows(lin, first, self@, source.body, Exit::Return, body);
        }
        CfgFunction { id: CfgFuncId::new(i), name: source.name, params, entry }
    }
}

fn find_function(
    functions: &Vec<crate::ir::linear::LinearFunction>,
    id: crate::common::ids::LinearFuncId,
) -> (found: Option<CfgFuncId>)
    ensures
        found == function_with_id(crate::common::views(functions@), id, functions@.len()),
{
    let ghost models = crate::common::views(functions@);
    let mut left: usize = functions.len();
    while left > 0
        invariant
            left <= functions@.len(),
            models == crate::common::views(functions@),
            function_with_id(models, id, functions@.len()) == function_with_id(
                models,
                id,
                left as nat,
            ),
        decreases left,
    {
        assert(models[left - 1].id == functions@[left - 1].id);
        if functions[left - 1].id == id {
            return Some(CfgFuncId::new(left - 1));
        }
        left -= 1;
    }
    None
}

/// Lowers a linear program to a control-flow graph. Every jump of the graph
/// leads somewhere and passes as many values as its target takes, no two
/// instructions enter, or leave, one handler region, and nothing is made twice or
/// for nothing.
pub fn lower_program(linear: &LinearProgram) -> (cfg: CfgProgram)
    requires
        linear@.acyclic(),
    ensures
        cfg@.valid(),
        regions_distinct(cfg@.instructions),
        exists|state: CfgState|
            {
                &&& #[trigger] state.program_at(linear@)
                &&& state.holds(linear@)
                &&& state.cfg == cfg@
                &&& state.tally() == Tally::start().functions(linear@, linear@.functions.len())
            },
{
    let ghost lin = linear@;
    let mut lowerer = Lowerer::new(linear);
    assert(lowerer@.tally() =~= Tally::start());
    let mut functions: Vec<CfgFunction> = Vec::new();
    let mut i: usize = 0;
    while i < linear.functions.len()
        invariant
            lin == linear@,
            lowerer.ready(),
            lowerer.linear == linear,
            i <= lin.functions.len(),
            functions@.len() == i,
            lowerer@.tally() == Tally::start().functions(lin, i as nat),
            forall|j: int| #![trigger functions@[j]]
                0 <= j < i ==> lowerer@.function_at(lin, j, functions@[j]@),
        decreases lin.functions.len() - i,
    {
        let ghost before = lowerer@;
        let function = lowerer.lower_function(i);
        proof {
            assert forall|j: int| #![trigger functions@[j]] 0 <= j < i implies lowerer@.function_at(
                lin,
                j,
                functions@[j]@,
            ) by {
                lemma_function_at_grows(lin, before, lowerer@, j, functions@[j]@);
            }
        }
        functions.push(function);
        i += 1;
    }
    let mut entrypoints: Vec<CfgFuncId> = Vec::new();
    let mut k: usize = 0;
    while k < linear.entrypoints.len()
        invariant
            lin == linear@,
            k <= lin.entrypoints.len(),
            entrypoints@ == entry_list(lin, k as nat),
        decreases lin.entrypoints.len() - k,
    {
        if let Some(id) = find_function(&linear.functions, linear.entrypoints[k]) {
            entrypoints.push(id);
        }
        k += 1;
    }
    let ghost before = lowerer@;
    let mut cfg = lowerer.cfg;
    cfg.functions = functions;
    cfg.entrypoints = entrypoints;
    proof {
        let state = CfgState { cfg: cfg@, ..before };
        assert(state.cfg.functions =~= crate::common::views(functions@));
        crate::ir::cfg::lemma_valid_grows(before.cfg, state.cfg);
        lemma_holds_grows(lin, before, state);
        assert forall|j: int| #![trigger state.cfg.functions[j]]
            0 <= j < lin.functions.len() implies state.function_at(
            lin,
            j,
            state.cfg.functions[j],
        ) by {
            assert(state.cfg.functions[j] == functions@[j]@);
            lemma_function_at_grows(lin, before, state, j, functions@[j]@);
        }
        assert(state.tally() == before.tally());
        assert(state.program_at(lin));
    }
    cfg
}

/// A linear program, with the control-flow graph made from it.
#[derive(Debug)]
pub struct CfgLowered {
    pub linearized: Linearized,
    pub cfg: CfgProgram,
}

/// Lowers the linear program; everything else stays as it is.
pub fn run(linearized: Linearized) -> (out: CfgLowered)
    requires
        linearized.linear@.acyclic(),
    ensures
        out.linearized == linearized,
        out.cfg@.valid(),
        regions_distinct(out.cfg@.instructions),
        exists|state: CfgState|
            {
                &&& #[trigger] state.program_at(linearized.linear@)
                &&& state.holds(linearized.linear@)
                &&& state.cfg == out.cfg@
                &&& state.tally() == Tally::start().functions(
                    linearized.linear@,
                    linearized.linear@.functions.len(),
                )
            },
{
    let cfg = lower_program(&linearized.linear);
    CfgLowered { linearized, cfg }
}

} // verus!
