//! Copies of statements and expressions, with their entries in the side tables.
use crate::common::ids::{EffectLabelId, ExprId, FuncId, StmtId, TypeId};
use crate::ir::core_ir::{
    copy_vars, CoreModel, CoreProgram, ExprKind, ExprModel, ExprNode, ExprNodeModel, MatchArm,
    MatchArmModel, StmtKind, StmtModel, StmtNode, StmtNodeModel,
};
use crate::pipeline::phases::{BtaTables, Knownness, SemanticTables, Stage};
use crate::sema::effect::SortedEffectRow;
use std::collections::HashMap;
use vstd::prelude::*;

verus! {

// ---------------------------------------------------------------------------
// Looking up the side tables
// ---------------------------------------------------------------------------

pub open spec fn stage_at(bta: BtaTables, i: usize) -> Option<Stage> {
    if bta.stage_of_expr@.contains_key(i) {
        Some(bta.stage_of_expr@[i])
    } else {
        None
    }
}

pub open spec fn knownness_at(bta: BtaTables, i: usize) -> Option<Knownness> {
    if bta.knownness_of_expr@.contains_key(i) {
        Some(bta.knownness_of_expr@[i])
    } else {
        None
    }
}

pub open spec fn type_at(sema: SemanticTables, i: usize) -> Option<TypeId> {
    if i < sema.type_of_expr@.len() {
        sema.type_of_expr@[i as int]
    } else {
        None
    }
}

pub open spec fn row_at(rows: Seq<SortedEffectRow>, i: usize) -> Seq<EffectLabelId> {
    if i < rows.len() {
        rows[i as int]@
    } else {
        Seq::empty()
    }
}

/// The tables speak of nothing beyond the program.
pub open spec fn tables_fit(p: CoreModel, bta: BtaTables, sema: SemanticTables) -> bool {
    &&& forall|k: usize| #[trigger]
        bta.stage_of_expr@.contains_key(k) ==> k < p.exprs.len()
    &&& forall|k: usize| #[trigger]
        bta.knownness_of_expr@.contains_key(k) ==> k < p.exprs.len()
    &&& sema.type_of_expr@.len() <= p.exprs.len()
    &&& sema.effects_of_expr@.len() <= p.exprs.len()
    &&& sema.effects_of_stmt@.len() <= p.stmts.len()
}

fn put_row(rows: &mut Vec<SortedEffectRow>, at: usize, row: SortedEffectRow)
    ensures
        forall|i: usize| #[trigger]
            row_at(final(rows)@, i) == (if i == at {
                row@
            } else {
                row_at(old(rows)@, i)
            }),
        final(rows)@.len() == (if old(rows)@.len() > at {
            old(rows)@.len() as int
        } else {
            at + 1
        }),
{
    while rows.len() <= at
        invariant
            forall|i: usize| #[trigger] row_at(rows@, i) == row_at(old(rows)@, i),
            rows@.len() == old(rows)@.len() || rows@.len() <= at + 1,
            rows@.len() >= old(rows)@.len(),
        decreases at + 1 - rows@.len(),
    {
        let ghost before = rows@;
        rows.push(SortedEffectRow::empty());
        assert forall|i: usize| #[trigger] row_at(rows@, i) == row_at(old(rows)@, i) by {
            assert(row_at(before, i) == row_at(old(rows)@, i));
            if i == before.len() {
                assert(row_at(rows@, i) =~= Seq::<EffectLabelId>::empty());
            }
        }
    }
    let ghost padded = rows@;
    rows[at] = row;
    assert forall|i: usize| #[trigger] row_at(rows@, i) == (if i == at {
        row@
    } else {
        row_at(old(rows)@, i)
    }) by {
        assert(row_at(padded, i) == row_at(old(rows)@, i));
    }
}

/// Makes room in a table of effect rows, without changing what it says.
pub fn pad_rows(rows: &mut Vec<SortedEffectRow>, at: usize)
    ensures
        forall|i: usize| #[trigger] row_at(final(rows)@, i) == row_at(old(rows)@, i),
        final(rows)@.len() == (if old(rows)@.len() > at {
            old(rows)@.len() as int
        } else {
            at + 1
        }),
{
    while rows.len() <= at
        invariant
            forall|i: usize| #[trigger] row_at(rows@, i) == row_at(old(rows)@, i),
            rows@.len() == old(rows)@.len() || rows@.len() <= at + 1,
            rows@.len() >= old(rows)@.len(),
        decreases at + 1 - rows@.len(),
    {
        let ghost before = rows@;
        rows.push(SortedEffectRow::empty());
        assert forall|i: usize| #[trigger] row_at(rows@, i) == row_at(old(rows)@, i) by {
            assert(row_at(before, i) == row_at(old(rows)@, i));
            if i == before.len() {
                assert(row_at(rows@, i) =~= Seq::<EffectLabelId>::empty());
            }
        }
    }
}

fn put_type(types: &mut Vec<Option<TypeId>>, at: usize, ty: TypeId)
    ensures
        final(types)@.len() == (if old(types)@.len() > at {
            old(types)@.len() as int
        } else {
            at + 1
        }),
        final(types)@[at as int] == Some(ty),
        forall|i: int|
            0 <= i < final(types)@.len() && i != at ==> #[trigger] final(types)@[i] == (if i
                < old(types)@.len() {
                old(types)@[i]
            } else {
                None
            }),
{
    while types.len() <= at
        invariant
            types@.len() == old(types)@.len() || types@.len() <= at + 1,
            types@.len() >= old(types)@.len(),
            forall|i: int|
                0 <= i < types@.len() ==> #[trigger] types@[i] == (if i < old(types)@.len() {
                    old(types)@[i]
                } else {
                    None
                }),
        decreases at + 1 - types@.len(),
    {
        types.push(None);
    }
    types[at] = Some(ty);
}

// ---------------------------------------------------------------------------
// What a copy is
// ---------------------------------------------------------------------------

/// A copy of a graph of nodes: the nodes that were copied, in the order in which
/// their copies were added, and where the copies stand.
pub struct CloneModel {
    pub program: CoreModel,
    pub exprs: Seq<usize>,
    pub stmts: Seq<usize>,
    pub expr_map: Map<usize, ExprId>,
    pub stmt_map: Map<usize, StmtId>,
    /// Calls of this function become calls of the other.
    pub from: FuncId,
    pub to: FuncId,
}

impl CloneModel {
    pub open spec fn callee(self, f: FuncId) -> FuncId {
        if f == self.from {
            self.to
        } else {
            f
        }
    }

    pub open spec fn expr_to(self, e: ExprId) -> ExprId {
        self.expr_map[e.0]
    }

    pub open spec fn stmt_to(self, s: StmtId) -> StmtId {
        self.stmt_map[s.0]
    }

    pub open spec fn list_to(self, list: Seq<ExprId>) -> Seq<ExprId> {
        list.map_values(|e: ExprId| self.expr_to(e))
    }

    pub open spec fn option_to(self, s: Option<StmtId>) -> Option<StmtId> {
        match s {
            Some(s) => Some(self.stmt_to(s)),
            None => None,
        }
    }

    /// The copy of an expression.
    pub open spec fn expr_copy(self, e: ExprModel) -> ExprModel {
        match e {
            ExprModel::Var(_) | ExprModel::Literal(_) | ExprModel::Error(_) => e,
            ExprModel::Unary { op, expr } => ExprModel::Unary { op, expr: self.expr_to(expr) },
            ExprModel::Binary { op, lhs, rhs } => ExprModel::Binary {
                op,
                lhs: self.expr_to(lhs),
                rhs: self.expr_to(rhs),
            },
            ExprModel::PureCall { callee, args } => ExprModel::PureCall {
                callee: self.callee(callee),
                args: self.list_to(args),
            },
            ExprModel::MakeStruct { ty, fields } => ExprModel::MakeStruct {
                ty,
                fields: self.list_to(fields),
            },
            ExprModel::MakeEnum { ty, variant, fields } => ExprModel::MakeEnum {
                ty,
                variant,
                fields: self.list_to(fields),
            },
        }
    }

    /// The copy of a statement.
    pub open spec fn stmt_copy(self, s: StmtModel) -> StmtModel {
        match s {
            StmtModel::Return(e) => StmtModel::Return(self.expr_to(e)),
            StmtModel::Let { binding, value, next } => StmtModel::Let {
                binding,
                value: self.expr_to(value),
                next: self.stmt_to(next),
            },
            StmtModel::Val { binding, value, next } => StmtModel::Val {
                binding,
                value: self.stmt_to(value),
                next: self.stmt_to(next),
            },
            StmtModel::Call { result, callee, args, effects, next } => StmtModel::Call {
                result,
                callee: self.callee(callee),
                args: self.list_to(args),
                effects,
                next: self.stmt_to(next),
            },
            StmtModel::If { cond, then_branch, else_branch } => StmtModel::If {
                cond: self.expr_to(cond),
                then_branch: self.stmt_to(then_branch),
                else_branch: self.stmt_to(else_branch),
            },
            StmtModel::Match { scrutinee, arms, default } => StmtModel::Match {
                scrutinee: self.expr_to(scrutinee),
                arms: arms.map_values(
                    |arm: MatchArmModel| MatchArmModel { body: self.stmt_to(arm.body), ..arm },
                ),
                default: self.option_to(default),
            },
            StmtModel::Perform { result, effect, operation, args, next } => StmtModel::Perform {
                result,
                effect,
                operation,
                args: self.list_to(args),
                next: self.stmt_to(next),
            },
            StmtModel::Resume { result, resume, arg, next } => StmtModel::Resume {
                result,
                resume,
                arg: self.expr_to(arg),
                next: self.stmt_to(next),
            },
            StmtModel::Handle { handler, body, next } => StmtModel::Handle {
                handler,
                body: self.stmt_to(body),
                next: self.option_to(next),
            },
            StmtModel::Stage { stage, body, next } => StmtModel::Stage {
                stage,
                body: self.stmt_to(body),
                next: self.option_to(next),
            },
            StmtModel::Hole { .. } | StmtModel::Error(_) => s,
        }
    }

    /// Every part of an expression has been copied, to a place below a bound.
    pub open spec fn expr_below(self, e: ExprModel, bound: int) -> bool {
        forall|part: ExprId| #[trigger]
            e.has_part(part) ==> self.expr_map.contains_key(part.0) && self.expr_to(part).0
                < bound
    }

    /// Every part of a statement has been copied, to a place below a bound.
    pub open spec fn stmt_below(self, s: StmtModel, bound: int) -> bool {
        &&& forall|part: StmtId| #[trigger]
            s.has_part(part) ==> self.stmt_map.contains_key(part.0) && self.stmt_to(part).0
                < bound
        &&& forall|part: ExprId| #[trigger]
            s.has_expr(part) ==> self.expr_map.contains_key(part.0)
    }

    pub open spec fn expr_copied(self, p: CoreModel, i: int) -> bool {
        let at = p.exprs.len() + i;
        let e = ExprId(self.exprs[i]);
        &&& p.has_expr(e)
        &&& self.expr_map.contains_key(e.0)
        &&& self.expr_to(e).0 == at
        &&& self.program.exprs[at] == (ExprNodeModel {
            kind: self.expr_copy(p.expr(e)),
            ..p.exprs[e.0 as int]
        })
        &&& self.expr_below(p.expr(e), at)
    }

    pub open spec fn stmt_copied(self, p: CoreModel, i: int) -> bool {
        let at = p.stmts.len() + i;
        let s = StmtId(self.stmts[i]);
        &&& p.has_stmt(s)
        &&& self.stmt_map.contains_key(s.0)
        &&& self.stmt_to(s).0 == at
        &&& self.program.stmts[at] == (StmtNodeModel {
            kind: self.stmt_copy(p.stmt(s)),
            ..p.stmts[s.0 as int]
        })
        &&& self.stmt_below(p.stmt(s), at)
    }

    /// The program is the given one with copies added after its nodes, and
    /// nothing else; each node has been copied once at most.
    pub open spec fn copies(self, p: CoreModel) -> bool {
        &&& self.program == (CoreModel {
            exprs: self.program.exprs,
            stmts: self.program.stmts,
            ..p
        })
        &&& self.program.exprs.len() == p.exprs.len() + self.exprs.len()
        &&& self.program.stmts.len() == p.stmts.len() + self.stmts.len()
        &&& forall|i: int| 0 <= i < p.exprs.len() ==> #[trigger] self.program.exprs[i]
            == p.exprs[i]
        &&& forall|i: int| 0 <= i < p.stmts.len() ==> #[trigger] self.program.stmts[i]
            == p.stmts[i]
        &&& forall|i: int| 0 <= i < self.exprs.len() ==> #[trigger] self.expr_copied(p, i)
        &&& forall|i: int| 0 <= i < self.stmts.len() ==> #[trigger] self.stmt_copied(p, i)
        &&& forall|e: usize| #[trigger]
            self.expr_map.contains_key(e) ==> self.expr_to(ExprId(e)).0 >= p.exprs.len()
                && self.expr_to(ExprId(e)).0 < self.program.exprs.len()
                && self.exprs[self.expr_to(ExprId(e)).0 - p.exprs.len()] == e
        &&& forall|s: usize| #[trigger]
            self.stmt_map.contains_key(s) ==> self.stmt_to(StmtId(s)).0 >= p.stmts.len()
                && self.stmt_to(StmtId(s)).0 < self.program.stmts.len()
                && self.stmts[self.stmt_to(StmtId(s)).0 - p.stmts.len()] == s
    }

    /// More has been copied.
    pub open spec fn grew_from(self, earlier: CloneModel) -> bool {
        &&& self.from == earlier.from
        &&& self.to == earlier.to
        &&& forall|e: usize| #[trigger]
            earlier.expr_map.contains_key(e) ==> self.expr_map.contains_key(e)
                && self.expr_map[e] == earlier.expr_map[e]
        &&& forall|s: usize| #[trigger]
            earlier.stmt_map.contains_key(s) ==> self.stmt_map.contains_key(s)
                && self.stmt_map[s] == earlier.stmt_map[s]
    }
}

/// The source of a position of the copy, or the position itself before it.
pub open spec fn expr_source(p: CoreModel, exprs: Seq<usize>, i: usize) -> usize {
    if p.exprs.len() <= i < p.exprs.len() + exprs.len() {
        exprs[i - p.exprs.len()]
    } else {
        i
    }
}

pub open spec fn stmt_source(p: CoreModel, stmts: Seq<usize>, i: usize) -> usize {
    if p.stmts.len() <= i < p.stmts.len() + stmts.len() {
        stmts[i - p.stmts.len()]
    } else {
        i
    }
}

/// The tables say of every copy what they say of its source, and of everything
/// else what they said before; they speak of nothing beyond the program.
pub open spec fn tables_follow(
    c: CloneModel,
    p: CoreModel,
    bta0: BtaTables,
    sema0: SemanticTables,
    bta: BtaTables,
    sema: SemanticTables,
) -> bool {
    tables_say(c, p, bta0, sema0, bta, sema) && tables_fit(c.program, bta, sema)
}

/// The tables say of every copy what they say of its source, and of everything
/// else what they said before.
pub open spec fn tables_say(
    c: CloneModel,
    p: CoreModel,
    bta0: BtaTables,
    sema0: SemanticTables,
    bta: BtaTables,
    sema: SemanticTables,
) -> bool {
    &&& bta == (BtaTables {
        stage_of_expr: bta.stage_of_expr,
        knownness_of_expr: bta.knownness_of_expr,
        ..bta0
    })
    &&& sema == (SemanticTables {
        type_of_expr: sema.type_of_expr,
        effects_of_expr: sema.effects_of_expr,
        effects_of_stmt: sema.effects_of_stmt,
        ..sema0
    })
    &&& forall|i: usize| #[trigger]
        stage_at(bta, i) == stage_at(bta0, expr_source(p, c.exprs, i))
    &&& forall|i: usize| #[trigger]
        knownness_at(bta, i) == knownness_at(bta0, expr_source(p, c.exprs, i))
    &&& forall|i: usize| #[trigger]
        type_at(sema, i) == type_at(sema0, expr_source(p, c.exprs, i))
    &&& forall|i: usize| #[trigger]
        row_at(sema.effects_of_expr@, i) == row_at(
            sema0.effects_of_expr@,
            expr_source(p, c.exprs, i),
        )
    &&& forall|i: usize| #[trigger]
        row_at(sema.effects_of_stmt@, i) == row_at(
            sema0.effects_of_stmt@,
            stmt_source(p, c.stmts, i),
        )
}

/// Copying more does not change a copy of an expression.
pub proof fn lemma_expr_copy_grows(a: CloneModel, b: CloneModel, e: ExprModel, bound: int)
    requires
        b.grew_from(a),
        a.expr_below(e, bound),
    ensures
        b.expr_copy(e) == a.expr_copy(e),
        b.expr_below(e, bound),
{
    assert forall|part: ExprId| #[trigger] e.has_part(part) implies b.expr_map.contains_key(
        part.0,
    ) && b.expr_to(part) == a.expr_to(part) by {
        assert(a.expr_map.contains_key(part.0));
    }
    match e {
        ExprModel::PureCall { args, .. } => lemma_list_grows(a, b, e, args),
        ExprModel::MakeStruct { fields, .. } => lemma_list_grows(a, b, e, fields),
        ExprModel::MakeEnum { fields, .. } => lemma_list_grows(a, b, e, fields),
        ExprModel::Unary { expr, .. } => {
            assert(e.has_part(expr));
        },
        ExprModel::Binary { lhs, rhs, .. } => {
            assert(e.has_part(lhs));
            assert(e.has_part(rhs));
        },
        _ => {},
    }
}

proof fn lemma_list_grows(a: CloneModel, b: CloneModel, e: ExprModel, list: Seq<ExprId>)
    requires
        forall|part: ExprId| #[trigger] e.has_part(part) ==> b.expr_to(part) == a.expr_to(part),
        forall|part: ExprId| list.contains(part) ==> #[trigger] e.has_part(part),
    ensures
        b.list_to(list) == a.list_to(list),
{
    assert forall|i: int| 0 <= i < list.len() implies #[trigger] b.list_to(list)[i] == a.list_to(
        list,
    )[i] by {
        assert(list.contains(list[i]));
        assert(e.has_part(list[i]));
    }
    assert(b.list_to(list) =~= a.list_to(list));
}

/// Copying more does not change a copy of a statement.
pub proof fn lemma_stmt_copy_grows(a: CloneModel, b: CloneModel, s: StmtModel, bound: int)
    requires
        b.grew_from(a),
        a.stmt_below(s, bound),
    ensures
        b.stmt_copy(s) == a.stmt_copy(s),
        b.stmt_below(s, bound),
{
    assert forall|part: StmtId| #[trigger] s.has_part(part) implies b.stmt_map.contains_key(
        part.0,
    ) && b.stmt_to(part) == a.stmt_to(part) by {
        assert(a.stmt_map.contains_key(part.0));
    }
    assert forall|part: ExprId| #[trigger] s.has_expr(part) implies b.expr_map.contains_key(
        part.0,
    ) && b.expr_to(part) == a.expr_to(part) by {
        assert(a.expr_map.contains_key(part.0));
    }
    match s {
        StmtModel::Return(e) => {
            assert(s.has_expr(e));
        },
        StmtModel::Let { value, next, .. } => {
            assert(s.has_expr(value));
            assert(s.has_part(next));
        },
        StmtModel::Val { value, next, .. } => {
            assert(s.has_part(value));
            assert(s.has_part(next));
        },
        StmtModel::Call { args, next, .. } => {
            lemma_args_grow(a, b, s, args);
            assert(s.has_part(next));
        },
        StmtModel::If { cond, then_branch, else_branch } => {
            assert(s.has_expr(cond));
            assert(s.has_part(then_branch));
            assert(s.has_part(else_branch));
        },
        StmtModel::Match { scrutinee, arms, default } => {
            assert(s.has_expr(scrutinee));
            assert(b.stmt_copy(s)->arms =~= a.stmt_copy(s)->arms) by {
                assert forall|i: int| 0 <= i < arms.len() implies #[trigger] b.stmt_copy(s)->arms[i]
                    == a.stmt_copy(s)->arms[i] by {
                    crate::ir::core_ir::lemma_arm_is_part(s, i);
                    assert(s.has_part(arms[i].body));
                }
            }
            if default is Some {
                assert(s.has_part(default->0));
            }
        },
        StmtModel::Perform { args, next, .. } => {
            lemma_args_grow(a, b, s, args);
            assert(s.has_part(next));
        },
        StmtModel::Resume { arg, next, .. } => {
            assert(s.has_expr(arg));
            assert(s.has_part(next));
        },
        StmtModel::Handle { body, next, .. } => {
            assert(s.has_part(body));
            if next is Some {
                assert(s.has_part(next->0));
            }
        },
        StmtModel::Stage { body, next, .. } => {
            assert(s.has_part(body));
            if next is Some {
                assert(s.has_part(next->0));
            }
        },
        _ => {},
    }
}

proof fn lemma_args_grow(a: CloneModel, b: CloneModel, s: StmtModel, list: Seq<ExprId>)
    requires
        forall|part: ExprId| #[trigger] s.has_expr(part) ==> b.expr_to(part) == a.expr_to(part),
        forall|part: ExprId| list.contains(part) ==> #[trigger] s.has_expr(part),
    ensures
        b.list_to(list) == a.list_to(list),
{
    assert forall|i: int| 0 <= i < list.len() implies #[trigger] b.list_to(list)[i] == a.list_to(
        list,
    )[i] by {
        assert(list.contains(list[i]));
        assert(s.has_expr(list[i]));
    }
    assert(b.list_to(list) =~= a.list_to(list));
}

// ---------------------------------------------------------------------------
// What is copied, and in which order
// ---------------------------------------------------------------------------

/// The nodes that have been copied, in the order in which their copies are added.
#[verifier::ext_equal]
pub struct Order {
    pub exprs: Seq<usize>,
    pub stmts: Seq<usize>,
}

/// The arguments or fields of an expression that has a list of them.
pub open spec fn listed(e: ExprModel) -> Seq<ExprId> {
    match e {
        ExprModel::PureCall { args, .. } => args,
        ExprModel::MakeStruct { fields, .. } => fields,
        ExprModel::MakeEnum { fields, .. } => fields,
        _ => Seq::empty(),
    }
}

impl Order {
    /// Nothing has been copied.
    pub open spec fn start() -> Self {
        Order { exprs: Seq::empty(), stmts: Seq::empty() }
    }

    /// An expression is copied once, after its parts.
    pub open spec fn expr(self, p: CoreModel, e: ExprId) -> Self
        decreases p.expr_rank(e), 1nat, 0nat,
        when p.acyclic()
    {
        proof {
            crate::passes::linearize::analysis::lemma_expr_ranks(p, e);
        }
        if self.exprs.contains(e.0) || !p.has_expr(e) {
            self
        } else {
            let parts = match p.expr(e) {
                ExprModel::Var(_) | ExprModel::Literal(_) | ExprModel::Error(_) => self,
                ExprModel::Unary { expr, .. } => self.expr(p, expr),
                ExprModel::Binary { lhs, rhs, .. } => self.expr(p, lhs).expr(p, rhs),
                ExprModel::PureCall { args, .. } => self.expr_parts(p, e, args.len()),
                ExprModel::MakeStruct { fields, .. } => self.expr_parts(p, e, fields.len()),
                ExprModel::MakeEnum { fields, .. } => self.expr_parts(p, e, fields.len()),
            };
            Order { exprs: parts.exprs.push(e.0), ..parts }
        }
    }

    /// The first arguments or fields of an expression, in order.
    pub open spec fn expr_parts(self, p: CoreModel, e: ExprId, first: nat) -> Self
        decreases p.expr_rank(e), 0nat, first,
        when p.acyclic()
    {
        let parts = listed(p.expr(e));
        if p.has_expr(e) && 0 < first <= parts.len() {
            proof {
                crate::passes::linearize::analysis::lemma_expr_ranks(p, e);
                assert(parts.contains(parts[first - 1]));
                assert(p.expr(e).has_part(parts[first - 1]));
            }
            self.expr_parts(p, e, (first - 1) as nat).expr(p, parts[first - 1])
        } else {
            self
        }
    }

    /// The first of some expressions, in order.
    pub open spec fn args(self, p: CoreModel, args: Seq<ExprId>, first: nat) -> Self
        decreases first,
    {
        if first == 0 {
            self
        } else {
            self.args(p, args, (first - 1) as nat).expr(p, args[first - 1])
        }
    }

    /// A statement is copied once, after its expressions and its parts.
    pub open spec fn stmt(self, p: CoreModel, s: StmtId) -> Self
        decreases p.stmt_rank(s), 1nat, 0nat,
        when p.acyclic()
    {
        proof {
            crate::passes::linearize::analysis::lemma_stmt_ranks(p, s);
        }
        if self.stmts.contains(s.0) || !p.has_stmt(s) {
            self
        } else {
            let parts = match p.stmt(s) {
                StmtModel::Return(e) => self.expr(p, e),
                StmtModel::Let { value, next, .. } => self.expr(p, value).stmt(p, next),
                StmtModel::Val { value, next, .. } => self.stmt(p, value).stmt(p, next),
                StmtModel::Call { args, next, .. } => self.args(p, args, args.len()).stmt(p, next),
                StmtModel::If { cond, then_branch, else_branch } => self.expr(p, cond).stmt(
                    p,
                    then_branch,
                ).stmt(p, else_branch),
                StmtModel::Match { scrutinee, arms, default } => {
                    let armed = self.expr(p, scrutinee).arms(p, s, arms.len());
                    match default {
                        Some(default) => armed.stmt(p, default),
                        None => armed,
                    }
                },
                StmtModel::Perform { args, next, .. } => self.args(p, args, args.len()).stmt(
                    p,
                    next,
                ),
                StmtModel::Resume { arg, next, .. } => self.expr(p, arg).stmt(p, next),
                StmtModel::Handle { body, next, .. } => match next {
                    Some(next) => self.stmt(p, body).stmt(p, next),
                    None => self.stmt(p, body),
                },
                StmtModel::Stage { body, next, .. } => match next {
                    Some(next) => self.stmt(p, body).stmt(p, next),
                    None => self.stmt(p, body),
                },
                StmtModel::Hole { .. } | StmtModel::Error(_) => self,
            };
            Order { stmts: parts.stmts.push(s.0), ..parts }
        }
    }

    /// The bodies of the first arms of a match, in order.
    pub open spec fn arms(self, p: CoreModel, s: StmtId, first: nat) -> Self
        decreases p.stmt_rank(s), 0nat, first,
        when p.acyclic()
    {
        if first > 0 && p.has_stmt(s) && p.stmt(s) is Match && first <= p.stmt(s)->arms.len() {
            proof {
                crate::passes::linearize::analysis::lemma_stmt_ranks(p, s);
                crate::ir::core_ir::lemma_arm_is_part(p.stmt(s), first - 1);
            }
            self.arms(p, s, (first - 1) as nat).stmt(p, p.stmt(s)->arms[first - 1].body)
        } else {
            self
        }
    }
}

impl CloneModel {
    /// The nodes that have been copied.
    pub open spec fn order(self) -> Order {
        Order { exprs: self.exprs, stmts: self.stmts }
    }
}

/// A node has been copied exactly where it is among those copied.
proof fn lemma_listed(c: CloneModel, p: CoreModel)
    requires
        c.copies(p),
    ensures
        forall|e: usize| #[trigger] c.expr_map.contains_key(e) <==> c.exprs.contains(e),
        forall|s: usize| #[trigger] c.stmt_map.contains_key(s) <==> c.stmts.contains(s),
{
    assert forall|e: usize| #[trigger] c.expr_map.contains_key(e) <==> c.exprs.contains(e) by {
        if c.exprs.contains(e) {
            let i = choose|i: int| 0 <= i < c.exprs.len() && c.exprs[i] == e;
            assert(c.expr_copied(p, i));
        }
    }
    assert forall|s: usize| #[trigger] c.stmt_map.contains_key(s) <==> c.stmts.contains(s) by {
        if c.stmts.contains(s) {
            let i = choose|i: int| 0 <= i < c.stmts.len() && c.stmts[i] == s;
            assert(c.stmt_copied(p, i));
        }
    }
}

// ---------------------------------------------------------------------------
// Making a copy
// ---------------------------------------------------------------------------

/// What there was before anything was copied.
pub struct Origin {
    pub program: CoreModel,
    pub bta: BtaTables,
    pub sema: SemanticTables,
}

/// Copies nodes, each once.
pub struct GraphCloner {
    pub program: CoreProgram,
    pub bta: BtaTables,
    pub sema: SemanticTables,
    pub source_func: FuncId,
    pub specialized_func: FuncId,
    pub expr_map: HashMap<usize, ExprId>,
    pub stmt_map: HashMap<usize, StmtId>,
    pub exprs: Ghost<Seq<usize>>,
    pub stmts: Ghost<Seq<usize>>,
    pub origin: Ghost<Origin>,
}

impl GraphCloner {
    pub open spec fn model(self) -> CloneModel {
        CloneModel {
            program: self.program@,
            exprs: self.exprs@,
            stmts: self.stmts@,
            expr_map: self.expr_map@,
            stmt_map: self.stmt_map@,
            from: self.source_func,
            to: self.specialized_func,
        }
    }

    pub open spec fn ready(self) -> bool {
        let o = self.origin@;
        &&& o.program.acyclic()
        &&& o.program.closed()
        &&& self.model().copies(o.program)
        &&& tables_follow(self.model(), o.program, o.bta, o.sema, self.bta, self.sema)
    }

    pub open spec fn stepped(self, earlier: Self) -> bool {
        &&& self.ready()
        &&& self.origin == earlier.origin
        &&& self.model().grew_from(earlier.model())
    }

    /// What has been copied since ranks below a bound.
    pub open spec fn exprs_within(self, earlier: Self, bound: nat) -> bool {
        &&& self.stmt_map@ == earlier.stmt_map@
        &&& forall|e: usize| #[trigger]
            self.expr_map@.contains_key(e) ==> earlier.expr_map@.contains_key(e)
                || self.origin@.program.expr_rank(ExprId(e)) < bound
    }

    pub open spec fn stmts_within(self, earlier: Self, bound: nat) -> bool {
        forall|s: usize| #[trigger]
            self.stmt_map@.contains_key(s) ==> earlier.stmt_map@.contains_key(s)
                || self.origin@.program.stmt_rank(StmtId(s)) < bound
    }

    pub fn new(
        program: CoreProgram,
        bta: BtaTables,
        sema: SemanticTables,
        source_func: FuncId,
        specialized_func: FuncId,
    ) -> (cloner: Self)
        requires
            program@.acyclic(),
            program@.closed(),
            tables_fit(program@, bta, sema),
        ensures
            cloner.ready(),
            cloner.origin@ == (Origin { program: program@, bta, sema }),
            cloner.source_func == source_func,
            cloner.specialized_func == specialized_func,
            cloner.model().order() == Order::start(),
    {
        let ghost origin = Origin { program: program@, bta, sema };
        let cloner = GraphCloner {
            program,
            bta,
            sema,
            source_func,
            specialized_func,
            expr_map: HashMap::new(),
            stmt_map: HashMap::new(),
            exprs: Ghost(Seq::empty()),
            stmts: Ghost(Seq::empty()),
            origin: Ghost(origin),
        };
        assert(cloner.model().copies(origin.program));
        cloner
    }

    fn remap_callee(&self, callee: FuncId) -> (f: FuncId)
        ensures
            f == self.model().callee(callee),
    {
        if callee == self.source_func {
            self.specialized_func
        } else {
            callee
        }
    }

    /// Adds the copy of an expression whose parts have been copied.
    #[verifier::rlimit(60)]
    #[verifier::spinoff_prover]
    fn add_expr(&mut self, source: ExprId, kind: ExprKind) -> (cloned: ExprId)
        requires
            old(self).ready(),
            old(self).origin@.program.has_expr(source),
            !old(self).expr_map@.contains_key(source.0),
            kind@ == old(self).model().expr_copy(old(self).origin@.program.expr(source)),
            old(self).model().expr_below(
                old(self).origin@.program.expr(source),
                old(self).program@.exprs.len() as int,
            ),
        ensures
            final(self).stepped(*old(self)),
            final(self).exprs_within(
                *old(self),
                old(self).origin@.program.expr_rank(source) + 1,
            ),
            final(self).expr_map@.contains_key(source.0),
            cloned == final(self).model().expr_to(source),
            final(self).model().order() == (Order {
                exprs: old(self).exprs@.push(source.0),
                ..old(self).model().order()
            }),
    {
        let ghost before = *self;
        let ghost a = self.model();
        let ghost o = self.origin@;
        let ghost p = o.program;
        assert(a.program.exprs[source.0 as int] == p.exprs[source.0 as int]);
        let span = self.program.exprs[source.0].span;
        let cloned = self.program.push_expr(ExprNode { span, kind });
        let stage = match self.bta.stage_of_expr.get(source.0) {
            Some(stage) => Some(*stage),
            None => None,
        };
        if let Some(stage) = stage {
            self.bta.stage_of_expr.insert(cloned.0, stage);
        }
        let known = match self.bta.knownness_of_expr.get(source.0) {
            Some(known) => Some(*known),
            None => None,
        };
        if let Some(known) = known {
            self.bta.knownness_of_expr.insert(cloned.0, known);
        }
        if source.0 < self.sema.type_of_expr.len() {
            if let Some(ty) = self.sema.type_of_expr[source.0] {
                put_type(&mut self.sema.type_of_expr, cloned.0, ty);
            }
        }
        if source.0 < self.sema.effects_of_expr.len() {
            let row = self.sema.effects_of_expr[source.0].clone();
            put_row(&mut self.sema.effects_of_expr, cloned.0, row);
        }
        self.expr_map.insert(source.0, cloned);
        self.exprs = Ghost(self.exprs@.push(source.0));
        proof {
            let b = self.model();
            let base = p.exprs.len() as int;
            assert(b.grew_from(a));
            assert(b.program.exprs =~= a.program.exprs.push(b.program.exprs[cloned.0 as int]));
            lemma_expr_copy_grows(a, b, p.expr(source), cloned.0 as int);
            assert forall|i: int| 0 <= i < b.exprs.len() implies #[trigger] b.expr_copied(p, i) by {
                if i < a.exprs.len() {
                    assert(a.expr_copied(p, i));
                    lemma_expr_copy_grows(a, b, p.expr(ExprId(a.exprs[i])), base + i);
                }
            }
            assert forall|i: int| 0 <= i < b.stmts.len() implies #[trigger] b.stmt_copied(p, i) by {
                assert(a.stmt_copied(p, i));
                lemma_stmt_copy_grows(a, b, p.stmt(StmtId(a.stmts[i])), p.stmts.len() + i);
            }
            assert forall|e: usize| #[trigger] b.expr_map.contains_key(e) implies b.expr_to(
                ExprId(e),
            ).0 >= base && b.expr_to(ExprId(e)).0 < b.program.exprs.len() && b.exprs[b.expr_to(
                ExprId(e),
            ).0 - base] == e by {
                if e != source.0 {
                    assert(a.expr_map.contains_key(e));
                }
            }
            assert(b.copies(p)) by {
                assert forall|s: usize| #[trigger] b.stmt_map.contains_key(s) implies b.stmt_to(
                    StmtId(s),
                ).0 >= p.stmts.len() && b.stmt_to(StmtId(s)).0 < b.program.stmts.len()
                    && b.stmts[b.stmt_to(StmtId(s)).0 - p.stmts.len()] == s by {
                    assert(a.stmt_map.contains_key(s));
                }
            }
            assert(expr_source(p, a.exprs, source.0) == source.0);
            assert(expr_source(p, b.exprs, cloned.0) == source.0);
            assert forall|i: usize| i != cloned.0 implies #[trigger] expr_source(p, b.exprs, i)
                == expr_source(p, a.exprs, i) by {}
            assert(stage_at(before.bta, source.0) == stage_at(o.bta, source.0));
            assert(knownness_at(before.bta, source.0) == knownness_at(o.bta, source.0));
            assert(type_at(before.sema, source.0) == type_at(o.sema, source.0));
            assert(row_at(before.sema.effects_of_expr@, source.0) == row_at(
                o.sema.effects_of_expr@,
                source.0,
            ));
            assert forall|i: usize| #[trigger] stage_at(self.bta, i) == stage_at(
                o.bta,
                expr_source(p, b.exprs, i),
            ) by {
                assert(stage_at(before.bta, i) == stage_at(o.bta, expr_source(p, a.exprs, i)));
            }
            assert forall|i: usize| #[trigger] knownness_at(self.bta, i) == knownness_at(
                o.bta,
                expr_source(p, b.exprs, i),
            ) by {
                assert(knownness_at(before.bta, i) == knownness_at(
                    o.bta,
                    expr_source(p, a.exprs, i),
                ));
            }
            assert forall|i: usize| #[trigger] type_at(self.sema, i) == type_at(
                o.sema,
                expr_source(p, b.exprs, i),
            ) by {
                assert(type_at(before.sema, i) == type_at(o.sema, expr_source(p, a.exprs, i)));
            }
            assert forall|i: usize| #[trigger] row_at(self.sema.effects_of_expr@, i) == row_at(
                o.sema.effects_of_expr@,
                expr_source(p, b.exprs, i),
            ) by {
                assert(row_at(before.sema.effects_of_expr@, i) == row_at(
                    o.sema.effects_of_expr@,
                    expr_source(p, a.exprs, i),
                ));
            }
        }
        cloned
    }

    /// Adds the copy of a statement whose parts have been copied.
    #[verifier::rlimit(60)]
    #[verifier::spinoff_prover]
    fn add_stmt(&mut self, source: StmtId, kind: StmtKind) -> (cloned: StmtId)
        requires
            old(self).ready(),
            old(self).origin@.program.has_stmt(source),
            !old(self).stmt_map@.contains_key(source.0),
            kind@ == old(self).model().stmt_copy(old(self).origin@.program.stmt(source)),
            old(self).model().stmt_below(
                old(self).origin@.program.stmt(source),
                old(self).program@.stmts.len() as int,
            ),
        ensures
            final(self).stepped(*old(self)),
            final(self).stmts_within(
                *old(self),
                old(self).origin@.program.stmt_rank(source) + 1,
            ),
            final(self).stmt_map@.contains_key(source.0),
            cloned == final(self).model().stmt_to(source),
            final(self).model().order() == (Order {
                stmts: old(self).stmts@.push(source.0),
                ..old(self).model().order()
            }),
    {
        let ghost before = *self;
        let ghost a = self.model();
        let ghost o = self.origin@;
        let ghost p = o.program;
        assert(a.program.stmts[source.0 as int] == p.stmts[source.0 as int]);
        let span = self.program.stmts[source.0].span;
        let cloned = self.program.push_stmt(StmtNode { span, kind });
        if source.0 < self.sema.effects_of_stmt.len() {
            let row = self.sema.effects_of_stmt[source.0].clone();
            put_row(&mut self.sema.effects_of_stmt, cloned.0, row);
        }
        self.stmt_map.insert(source.0, cloned);
        self.stmts = Ghost(self.stmts@.push(source.0));
        proof {
            let b = self.model();
            let base = p.stmts.len() as int;
            assert(b.grew_from(a));
            assert(b.program.stmts =~= a.program.stmts.push(b.program.stmts[cloned.0 as int]));
            lemma_stmt_copy_grows(a, b, p.stmt(source), cloned.0 as int);
            assert forall|i: int| 0 <= i < b.stmts.len() implies #[trigger] b.stmt_copied(p, i) by {
                if i < a.stmts.len() {
                    assert(a.stmt_copied(p, i));
                    lemma_stmt_copy_grows(a, b, p.stmt(StmtId(a.stmts[i])), base + i);
                }
            }
            assert forall|i: int| 0 <= i < b.exprs.len() implies #[trigger] b.expr_copied(p, i) by {
                assert(a.expr_copied(p, i));
                lemma_expr_copy_grows(a, b, p.expr(ExprId(a.exprs[i])), p.exprs.len() + i);
            }
            assert forall|s: usize| #[trigger] b.stmt_map.contains_key(s) implies b.stmt_to(
                StmtId(s),
            ).0 >= base && b.stmt_to(StmtId(s)).0 < b.program.stmts.len() && b.stmts[b.stmt_to(
                StmtId(s),
            ).0 - base] == s by {
                if s != source.0 {
                    assert(a.stmt_map.contains_key(s));
                }
            }
            assert(b.copies(p)) by {
                assert forall|e: usize| #[trigger] b.expr_map.contains_key(e) implies b.expr_to(
                    ExprId(e),
                ).0 >= p.exprs.len() && b.expr_to(ExprId(e)).0 < b.program.exprs.len()
                    && b.exprs[b.expr_to(ExprId(e)).0 - p.exprs.len()] == e by {
                    assert(a.expr_map.contains_key(e));
                }
            }
            assert(stmt_source(p, a.stmts, source.0) == source.0);
            assert(stmt_source(p, b.stmts, cloned.0) == source.0);
            assert forall|i: usize| i != cloned.0 implies #[trigger] stmt_source(p, b.stmts, i)
                == stmt_source(p, a.stmts, i) by {}
            assert(row_at(before.sema.effects_of_stmt@, source.0) == row_at(
                o.sema.effects_of_stmt@,
                source.0,
            ));
            assert forall|i: usize| #[trigger] row_at(self.sema.effects_of_stmt@, i) == row_at(
                o.sema.effects_of_stmt@,
                stmt_source(p, b.stmts, i),
            ) by {
                assert(row_at(before.sema.effects_of_stmt@, i) == row_at(
                    o.sema.effects_of_stmt@,
                    stmt_source(p, a.stmts, i),
                ));
            }
            assert forall|i: usize| #[trigger] type_at(self.sema, i) == type_at(before.sema, i) by {}
        }
        cloned
    }

    fn clone_expr_list(&mut self, Ghost(owner): Ghost<ExprId>, list: &Vec<ExprId>) -> (out: Vec<
        ExprId,
    >)
        requires
            old(self).ready(),
            old(self).origin@.program.has_expr(owner),
            list@ == listed(old(self).origin@.program.expr(owner)),
            forall|part: ExprId| #[trigger]
                list@.contains(part) ==> old(self).origin@.program.expr(owner).has_part(part),
        ensures
            final(self).model().order() == old(self).model().order().expr_parts(
                old(self).origin@.program,
                owner,
                list@.len(),
            ),
            final(self).stepped(*old(self)),
            final(self).exprs_within(*old(self), old(self).origin@.program.expr_rank(owner)),
            out@ == final(self).model().list_to(list@),
            forall|part: ExprId| #[trigger]
                list@.contains(part) ==> final(self).expr_map@.contains_key(part.0),
        decreases old(self).origin@.program.expr_rank(owner), 0nat,
    {
        let mut out: Vec<ExprId> = Vec::new();
        let mut i: usize = 0;
        while i < list.len()
            invariant
                self.stepped(*old(self)),
                self.exprs_within(*old(self), self.origin@.program.expr_rank(owner)),
                self.origin@.program.has_expr(owner),
                list@ == listed(self.origin@.program.expr(owner)),
                self.model().order() == old(self).model().order().expr_parts(
                    self.origin@.program,
                    owner,
                    i as nat,
                ),
                forall|part: ExprId| #[trigger]
                    list@.contains(part) ==> self.origin@.program.expr(owner).has_part(part),
                i <= list@.len(),
                out@.len() == i,
                forall|j: int|
                    0 <= j < i ==> self.expr_map@.contains_key((#[trigger] list@[j]).0)
                        && out@[j] == self.model().expr_to(list@[j]),
            decreases list@.len() - i,
        {
            let ghost before = self.model();
            proof {
                assert(list@.contains(list@[i as int]));
                crate::ir::core_ir::lemma_expr_rank(
                    self.origin@.program,
                    owner,
                    list@[i as int],
                );
            }
            let cloned = self.clone_expr(list[i]);
            out.push(cloned);
            proof {
                assert forall|j: int| 0 <= j < i + 1 implies self.expr_map@.contains_key(
                    (#[trigger] list@[j]).0,
                ) && out@[j] == self.model().expr_to(list@[j]) by {
                    if j < i {
                        assert(before.expr_map.contains_key(list@[j].0));
                    }
                }
            }
            i += 1;
        }
        assert(out@ =~= self.model().list_to(list@));
        out
    }

    #[verifier::rlimit(60)]
    #[verifier::spinoff_prover]
    pub fn clone_expr(&mut self, source: ExprId) -> (cloned: ExprId)
        requires
            old(self).ready(),
            old(self).origin@.program.has_expr(source),
        ensures
            final(self).stepped(*old(self)),
            final(self).exprs_within(
                *old(self),
                old(self).origin@.program.expr_rank(source) + 1,
            ),
            final(self).expr_map@.contains_key(source.0),
            cloned == final(self).model().expr_to(source),
            final(self).model().order() == old(self).model().order().expr(
                old(self).origin@.program,
                source,
            ),
        decreases old(self).origin@.program.expr_rank(source), 1nat,
    {
        let ghost p = self.origin@.program;
        proof {
            lemma_listed(self.model(), p);
        }
        if let Some(existing) = self.expr_map.get(&source.0) {
            return *existing;
        }
        let ghost start = self.model().order();
        assert(!self.model().expr_map.contains_key(source.0));
        assert(!start.exprs.contains(source.0));
        proof {
            crate::passes::linearize::analysis::lemma_expr_ranks(p, source);
            assert(self.program@.exprs[source.0 as int] == p.exprs[source.0 as int]);
        }
        let node = self.program.exprs[source.0].kind.clone();
        let ghost e = p.expr(source);
        assert(node@ == e);
        let kind = match node {
            ExprKind::Var(var) => ExprKind::Var(var),
            ExprKind::Literal(literal) => ExprKind::Literal(literal),
            ExprKind::Unary { op, expr } => {
                assert(e.has_part(expr));
                let expr = self.clone_expr(expr);
                ExprKind::Unary { op, expr }
            },
            ExprKind::Binary { op, lhs, rhs } => {
                assert(e.has_part(lhs));
                assert(e.has_part(rhs));
                let new_lhs = self.clone_expr(lhs);
                let ghost middle = self.model();
                let new_rhs = self.clone_expr(rhs);
                assert(middle.expr_map.contains_key(lhs.0));
                ExprKind::Binary { op, lhs: new_lhs, rhs: new_rhs }
            },
            ExprKind::PureCall { callee, args } => {
                let args = self.clone_expr_list(Ghost(source), &args);
                ExprKind::PureCall { callee: self.remap_callee(callee), args }
            },
            ExprKind::MakeStruct { ty, fields } => {
                let fields = self.clone_expr_list(Ghost(source), &fields);
                ExprKind::MakeStruct { ty, fields }
            },
            ExprKind::MakeEnum { ty, variant, fields } => {
                let fields = self.clone_expr_list(Ghost(source), &fields);
                ExprKind::MakeEnum { ty, variant, fields }
            },
            ExprKind::Error(error) => ExprKind::Error(error),
        };
        proof {
            assert forall|part: ExprId| #[trigger] e.has_part(part) implies self.expr_map@.contains_key(
                part.0,
            ) && self.model().expr_to(part).0 < self.program@.exprs.len() by {
                assert(self.expr_map@.contains_key(part.0));
            }
        }
        let ghost parts = self.model().order();
        assert(start.expr(p, source) == (Order { exprs: parts.exprs.push(source.0), ..parts }));
        self.add_expr(source, kind)
    }

    /// Copies a list of arguments of a statement.
    fn clone_args(&mut self, Ghost(owner): Ghost<StmtId>, list: &Vec<ExprId>) -> (out: Vec<ExprId>)
        requires
            old(self).ready(),
            old(self).origin@.program.has_stmt(owner),
            forall|part: ExprId| #[trigger]
                list@.contains(part) ==> old(self).origin@.program.stmt(owner).has_expr(part),
        ensures
            final(self).stepped(*old(self)),
            final(self).stmt_map@ == old(self).stmt_map@,
            final(self).model().order() == old(self).model().order().args(
                old(self).origin@.program,
                list@,
                list@.len(),
            ),
            out@ == final(self).model().list_to(list@),
            forall|part: ExprId| #[trigger]
                list@.contains(part) ==> final(self).expr_map@.contains_key(part.0),
    {
        let mut out: Vec<ExprId> = Vec::new();
        let mut i: usize = 0;
        while i < list.len()
            invariant
                self.stepped(*old(self)),
                self.stmt_map@ == old(self).stmt_map@,
                self.model().order() == old(self).model().order().args(
                    self.origin@.program,
                    list@,
                    i as nat,
                ),
                self.origin@.program.has_stmt(owner),
                forall|part: ExprId| #[trigger]
                    list@.contains(part) ==> self.origin@.program.stmt(owner).has_expr(part),
                i <= list@.len(),
                out@.len() == i,
                forall|j: int|
                    0 <= j < i ==> self.expr_map@.contains_key((#[trigger] list@[j]).0)
                        && out@[j] == self.model().expr_to(list@[j]),
            decreases list@.len() - i,
        {
            let ghost before = self.model();
            assert(list@.contains(list@[i as int]));
            let cloned = self.clone_expr(list[i]);
            out.push(cloned);
            proof {
                assert forall|j: int| 0 <= j < i + 1 implies self.expr_map@.contains_key(
                    (#[trigger] list@[j]).0,
                ) && out@[j] == self.model().expr_to(list@[j]) by {
                    if j < i {
                        assert(before.expr_map.contains_key(list@[j].0));
                    }
                }
            }
            i += 1;
        }
        assert(out@ =~= self.model().list_to(list@));
        out
    }

    fn clone_part(&mut self, Ghost(owner): Ghost<StmtId>, part: StmtId) -> (cloned: StmtId)
        requires
            old(self).ready(),
            old(self).origin@.program.has_stmt(owner),
            old(self).origin@.program.stmt(owner).has_part(part),
        ensures
            final(self).stepped(*old(self)),
            final(self).stmts_within(*old(self), old(self).origin@.program.stmt_rank(owner)),
            final(self).stmt_map@.contains_key(part.0),
            cloned == final(self).model().stmt_to(part),
            final(self).model().order() == old(self).model().order().stmt(
                old(self).origin@.program,
                part,
            ),
        decreases old(self).origin@.program.stmt_rank(owner), 0nat,
    {
        proof {
            crate::ir::core_ir::lemma_stmt_rank(self.origin@.program, owner, part);
        }
        self.clone_stmt(part)
    }

    fn clone_optional_stmt(&mut self, Ghost(owner): Ghost<StmtId>, stmt: Option<StmtId>) -> (cloned:
        Option<StmtId>)
        requires
            old(self).ready(),
            old(self).origin@.program.has_stmt(owner),
            stmt matches Some(s) ==> old(self).origin@.program.stmt(owner).has_part(s),
        ensures
            final(self).stepped(*old(self)),
            final(self).stmts_within(*old(self), old(self).origin@.program.stmt_rank(owner)),
            stmt matches Some(s) ==> final(self).stmt_map@.contains_key(s.0),
            cloned == final(self).model().option_to(stmt),
            final(self).model().order() == match stmt {
                Some(s) => old(self).model().order().stmt(old(self).origin@.program, s),
                None => old(self).model().order(),
            },
        decreases old(self).origin@.program.stmt_rank(owner), 1nat,
    {
        match stmt {
            Some(s) => Some(self.clone_part(Ghost(owner), s)),
            None => None,
        }
    }

    #[verifier::spinoff_prover]
    fn clone_arms(&mut self, Ghost(owner): Ghost<StmtId>, arms: &Vec<MatchArm>) -> (out: Vec<
        MatchArm,
    >)
        requires
            old(self).ready(),
            old(self).origin@.program.has_stmt(owner),
            old(self).origin@.program.stmt(owner) is Match,
            old(self).origin@.program.stmt(owner)->arms == crate::common::views(arms@),
        ensures
            final(self).stepped(*old(self)),
            final(self).stmts_within(*old(self), old(self).origin@.program.stmt_rank(owner)),
            forall|i: int|
                0 <= i < arms@.len() ==> final(self).stmt_map@.contains_key(
                    (#[trigger] arms@[i]).body.0,
                ),
            forall|i: int|
                0 <= i < arms@.len() ==> (#[trigger] out@[i])@ == (MatchArmModel {
                    body: final(self).model().stmt_to(arms@[i].body),
                    ..arms@[i]@
                }),
            out@.len() == arms@.len(),
            final(self).model().order() == old(self).model().order().arms(
                old(self).origin@.program,
                owner,
                arms@.len(),
            ),
        decreases old(self).origin@.program.stmt_rank(owner), 1nat,
    {
        let mut out: Vec<MatchArm> = Vec::new();
        let mut i: usize = 0;
        while i < arms.len()
            invariant
                self.stepped(*old(self)),
                self.stmts_within(*old(self), self.origin@.program.stmt_rank(owner)),
                self.origin@.program.has_stmt(owner),
                self.origin@.program.stmt(owner) is Match,
                self.origin@.program.stmt(owner)->arms == crate::common::views(arms@),
                self.model().order() == old(self).model().order().arms(
                    self.origin@.program,
                    owner,
                    i as nat,
                ),
                i <= arms@.len(),
                out@.len() == i,
                forall|j: int|
                    0 <= j < i ==> self.stmt_map@.contains_key((#[trigger] arms@[j]).body.0),
                forall|j: int|
                    0 <= j < i ==> (#[trigger] out@[j])@ == (MatchArmModel {
                        body: self.model().stmt_to(arms@[j].body),
                        ..arms@[j]@
                    }),
            decreases arms@.len() - i,
        {
            let ghost before = self.model();
            proof {
                crate::ir::core_ir::lemma_arm_is_part(
                    self.origin@.program.stmt(owner),
                    i as int,
                );
                assert(self.origin@.program.stmt(owner)->arms[i as int] == arms@[i as int]@);
            }
            let body = self.clone_part(Ghost(owner), arms[i].body);
            let ghost done = out@;
            out.push(
                MatchArm {
                    tag: arms[i].tag,
                    binders: copy_vars(&arms[i].binders),
                    body,
                    span: arms[i].span,
                },
            );
            proof {
                assert forall|j: int| 0 <= j < i + 1 implies (#[trigger] out@[j])@ == (
                MatchArmModel { body: self.model().stmt_to(arms@[j].body), ..arms@[j]@ }) by {
                    if j < i {
                        assert(out@[j] == done[j]);
                        assert(before.stmt_map.contains_key(arms@[j].body.0));
                    }
                }
                assert forall|j: int| 0 <= j < i + 1 implies self.stmt_map@.contains_key(
                    (#[trigger] arms@[j]).body.0,
                ) by {
                    if j < i {
                        assert(before.stmt_map.contains_key(arms@[j].body.0));
                    }
                }
            }
            i += 1;
        }
        out
    }

    #[verifier::rlimit(100)]
    #[verifier::spinoff_prover]
    pub fn clone_stmt(&mut self, source: StmtId) -> (cloned: StmtId)
        requires
            old(self).ready(),
            old(self).origin@.program.has_stmt(source),
        ensures
            final(self).stepped(*old(self)),
            final(self).stmts_within(
                *old(self),
                old(self).origin@.program.stmt_rank(source) + 1,
            ),
            final(self).stmt_map@.contains_key(source.0),
            cloned == final(self).model().stmt_to(source),
            final(self).model().order() == old(self).model().order().stmt(
                old(self).origin@.program,
                source,
            ),
        decreases old(self).origin@.program.stmt_rank(source), 2nat,
    {
        let ghost p = self.origin@.program;
        proof {
            lemma_listed(self.model(), p);
        }
        if let Some(existing) = self.stmt_map.get(&source.0) {
            return *existing;
        }
        let ghost start = self.model().order();
        assert(!self.model().stmt_map.contains_key(source.0));
        assert(!start.stmts.contains(source.0));
        assert(self.program@.stmts[source.0 as int] == p.stmts[source.0 as int]);
        let node = self.program.stmts[source.0].kind.clone();
        let ghost s = p.stmt(source);
        assert(node@ == s);
        let kind = match node {
            StmtKind::Return(e) => {
                assert(s.has_expr(e));
                StmtKind::Return(self.clone_expr(e))
            },
            StmtKind::Let { binding, value, next } => {
                assert(s.has_expr(value));
                let new_value = self.clone_expr(value);
                let ghost middle = self.model();
                let new_next = self.clone_part(Ghost(source), next);
                assert(middle.expr_map.contains_key(value.0));
                StmtKind::Let { binding, value: new_value, next: new_next }
            },
            StmtKind::Val { binding, value, next } => {
                let new_value = self.clone_part(Ghost(source), value);
                let ghost middle = self.model();
                let new_next = self.clone_part(Ghost(source), next);
                assert(middle.stmt_map.contains_key(value.0));
                StmtKind::Val { binding, value: new_value, next: new_next }
            },
            StmtKind::Call { result, callee, args, effects, next } => {
                let new_args = self.clone_args(Ghost(source), &args);
                let ghost middle = self.model();
                let new_next = self.clone_part(Ghost(source), next);
                proof {
                    lemma_args_stay(middle, self.model(), args@);
                }
                StmtKind::Call {
                    result,
                    callee: self.remap_callee(callee),
                    args: new_args,
                    effects,
                    next: new_next,
                }
            },
            StmtKind::If { cond, then_branch, else_branch } => {
                assert(s.has_expr(cond));
                let new_cond = self.clone_expr(cond);
                let ghost first = self.model();
                let new_then = self.clone_part(Ghost(source), then_branch);
                let ghost second = self.model();
                let new_else = self.clone_part(Ghost(source), else_branch);
                proof {
                    assert(first.expr_map.contains_key(cond.0));
                    assert(second.expr_map.contains_key(cond.0));
                    assert(second.stmt_map.contains_key(then_branch.0));
                }
                StmtKind::If { cond: new_cond, then_branch: new_then, else_branch: new_else }
            },
            StmtKind::Match { scrutinee, arms, default } => {
                assert(s.has_expr(scrutinee));
                let new_scrutinee = self.clone_expr(scrutinee);
                let ghost first = self.model();
                let new_arms = self.clone_arms(Ghost(source), &arms);
                let ghost second = self.model();
                let new_default = self.clone_optional_stmt(Ghost(source), default);
                proof {
                    assert(first.expr_map.contains_key(scrutinee.0));
                    assert(second.expr_map.contains_key(scrutinee.0));
                    let views = crate::common::views(arms@);
                    assert forall|k: int| 0 <= k < arms@.len() implies self.stmt_map@.contains_key(
                        (#[trigger] arms@[k]).body.0,
                    ) && new_arms@[k]@ == (MatchArmModel {
                        body: self.model().stmt_to(arms@[k].body),
                        ..arms@[k]@
                    }) by {
                        assert(second.stmt_map.contains_key(arms@[k].body.0));
                    }
                    assert(crate::common::views(new_arms@) =~= self.model().stmt_copy(s)->arms);
                    assert forall|part: StmtId| #[trigger]
                        s.has_part(part) implies self.stmt_map@.contains_key(part.0) by {
                        if default != Some(part) {
                            let k = choose|k: int|
                                0 <= k < views.len() && (#[trigger] views[k]).body == part;
                            assert(views[k] == arms@[k]@);
                            assert(self.stmt_map@.contains_key(arms@[k].body.0));
                        }
                    }
                }
                StmtKind::Match { scrutinee: new_scrutinee, arms: new_arms, default: new_default }
            },
            StmtKind::Perform { result, effect, operation, args, next } => {
                let new_args = self.clone_args(Ghost(source), &args);
                let ghost middle = self.model();
                let new_next = self.clone_part(Ghost(source), next);
                proof {
                    lemma_args_stay(middle, self.model(), args@);
                }
                StmtKind::Perform { result, effect, operation, args: new_args, next: new_next }
            },
            StmtKind::Resume { result, resume, arg, next } => {
                assert(s.has_expr(arg));
                let new_arg = self.clone_expr(arg);
                let ghost middle = self.model();
                let new_next = self.clone_part(Ghost(source), next);
                assert(middle.expr_map.contains_key(arg.0));
                StmtKind::Resume { result, resume, arg: new_arg, next: new_next }
            },
            StmtKind::Handle { handler, body, next } => {
                let new_body = self.clone_part(Ghost(source), body);
                let ghost middle = self.model();
                let new_next = self.clone_optional_stmt(Ghost(source), next);
                assert(middle.stmt_map.contains_key(body.0));
                StmtKind::Handle { handler, body: new_body, next: new_next }
            },
            StmtKind::Stage { stage, body, next } => {
                let new_body = self.clone_part(Ghost(source), body);
                let ghost middle = self.model();
                let new_next = self.clone_optional_stmt(Ghost(source), next);
                assert(middle.stmt_map.contains_key(body.0));
                StmtKind::Stage { stage, body: new_body, next: new_next }
            },
            StmtKind::Hole { ty } => StmtKind::Hole { ty },
            StmtKind::Error(error) => StmtKind::Error(error),
        };
        proof {
            assert forall|part: StmtId| #[trigger] s.has_part(part) implies self.stmt_map@.contains_key(
                part.0,
            ) && self.model().stmt_to(part).0 < self.program@.stmts.len() by {
                assert(self.stmt_map@.contains_key(part.0));
            }
        }
        let ghost parts = self.model().order();
        assert(start.stmt(p, source) == (Order { stmts: parts.stmts.push(source.0), ..parts }));
        self.add_stmt(source, kind)
    }
}

/// Copying more does not move the copies of some expressions.
proof fn lemma_args_stay(a: CloneModel, b: CloneModel, list: Seq<ExprId>)
    requires
        b.grew_from(a),
        forall|part: ExprId| #[trigger] list.contains(part) ==> a.expr_map.contains_key(part.0),
    ensures
        b.list_to(list) == a.list_to(list),
        forall|part: ExprId| #[trigger] list.contains(part) ==> b.expr_map.contains_key(part.0),
{
    assert forall|i: int| 0 <= i < list.len() implies #[trigger] b.list_to(list)[i] == a.list_to(
        list,
    )[i] by {
        assert(list.contains(list[i]));
    }
    assert(b.list_to(list) =~= a.list_to(list));
}

// ---------------------------------------------------------------------------
// Laws
// ---------------------------------------------------------------------------

/// The parts of a copy are the copies of the parts.
proof fn lemma_expr_copy_part(c: CloneModel, e: ExprModel, part: ExprId) -> (source: ExprId)
    requires
        c.expr_copy(e).has_part(part),
    ensures
        e.has_part(source),
        part == c.expr_to(source),
{
    match e {
        ExprModel::Unary { expr, .. } => expr,
        ExprModel::Binary { lhs, rhs, .. } => if part == c.expr_to(lhs) {
            lhs
        } else {
            rhs
        },
        ExprModel::PureCall { args, .. } => lemma_list_part(c, args, part),
        ExprModel::MakeStruct { fields, .. } => lemma_list_part(c, fields, part),
        ExprModel::MakeEnum { fields, .. } => lemma_list_part(c, fields, part),
        _ => part,
    }
}

proof fn lemma_list_part(c: CloneModel, list: Seq<ExprId>, part: ExprId) -> (source: ExprId)
    requires
        c.list_to(list).contains(part),
    ensures
        list.contains(source),
        part == c.expr_to(source),
{
    let out = c.list_to(list);
    let i = choose|i: int| 0 <= i < out.len() && out[i] == part;
    assert(out[i] == c.expr_to(list[i]));
    assert(list.contains(list[i]));
    list[i]
}

proof fn lemma_stmt_copy_part(c: CloneModel, s: StmtModel, part: StmtId) -> (source: StmtId)
    requires
        c.stmt_copy(s).has_part(part),
    ensures
        s.has_part(source),
        part == c.stmt_to(source),
{
    match s {
        StmtModel::Let { next, .. } => next,
        StmtModel::Val { value, next, .. } => if part == c.stmt_to(value) {
            value
        } else {
            next
        },
        StmtModel::Call { next, .. } => next,
        StmtModel::If { then_branch, else_branch, .. } => if part == c.stmt_to(then_branch) {
            then_branch
        } else {
            else_branch
        },
        StmtModel::Match { arms, default, .. } => {
            let out = c.stmt_copy(s)->arms;
            if exists|i: int| 0 <= i < out.len() && (#[trigger] out[i]).body == part {
                let i = choose|i: int| 0 <= i < out.len() && (#[trigger] out[i]).body == part;
                crate::ir::core_ir::lemma_arm_is_part(s, i);
                arms[i].body
            } else {
                default->0
            }
        },
        StmtModel::Perform { next, .. } => next,
        StmtModel::Resume { next, .. } => next,
        StmtModel::Handle { body, next, .. } => if part == c.stmt_to(body) {
            body
        } else {
            next->0
        },
        StmtModel::Stage { body, next, .. } => if part == c.stmt_to(body) {
            body
        } else {
            next->0
        },
        _ => part,
    }
}

proof fn lemma_stmt_copy_expr(c: CloneModel, s: StmtModel, part: ExprId) -> (source: ExprId)
    requires
        c.stmt_copy(s).has_expr(part),
    ensures
        s.has_expr(source),
        part == c.expr_to(source),
{
    match s {
        StmtModel::Return(e) => e,
        StmtModel::Let { value, .. } => value,
        StmtModel::Call { args, .. } => lemma_list_part(c, args, part),
        StmtModel::If { cond, .. } => cond,
        StmtModel::Match { scrutinee, .. } => scrutinee,
        StmtModel::Perform { args, .. } => lemma_list_part(c, args, part),
        StmtModel::Resume { arg, .. } => arg,
        _ => part,
    }
}

/// Adding copies to a program without cycles or dangling parts brings in none.
pub proof fn lemma_copies_sound(c: CloneModel, p: CoreModel)
    requires
        c.copies(p),
        p.acyclic(),
        p.closed(),
    ensures
        c.program.acyclic(),
        c.program.closed(),
{
    let q = c.program;
    let eb = p.exprs.len() as int;
    let sb = p.stmts.len() as int;
    let er = |e: ExprId|
        if e.0 < eb {
            p.expr_rank(e)
        } else {
            e.0 as nat
        };
    let sr = |s: StmtId|
        if s.0 < sb {
            p.stmt_rank(s)
        } else {
            s.0 as nat
        };
    assert(q.expr_ranking(er) && q.exprs_closed()) by {
        assert forall|e: ExprId, part: ExprId| #![trigger q.expr(e).has_part(part)]
            q.has_expr(e) && q.expr(e).has_part(part) implies er(part) < er(e) && q.has_expr(
            part,
        ) by {
            if e.0 < eb {
                assert(p.expr(e).has_part(part));
                crate::ir::core_ir::lemma_expr_rank(p, e, part);
            } else {
                assert(c.expr_copied(p, e.0 - eb));
                let src = ExprId(c.exprs[e.0 - eb]);
                let source = lemma_expr_copy_part(c, p.expr(src), part);
                assert(c.expr_map.contains_key(source.0));
            }
        }
    }
    assert(q.stmt_ranking(sr) && q.stmts_closed()) by {
        assert forall|s: StmtId, part: StmtId| #![trigger q.stmt(s).has_part(part)]
            q.has_stmt(s) && q.stmt(s).has_part(part) implies sr(part) < sr(s) && q.has_stmt(
            part,
        ) by {
            if s.0 < sb {
                assert(p.stmt(s).has_part(part));
                crate::ir::core_ir::lemma_stmt_rank(p, s, part);
            } else {
                assert(c.stmt_copied(p, s.0 - sb));
                let src = StmtId(c.stmts[s.0 - sb]);
                let source = lemma_stmt_copy_part(c, p.stmt(src), part);
                assert(c.stmt_map.contains_key(source.0));
            }
        }
        assert forall|s: StmtId, part: ExprId| #![trigger q.stmt(s).has_expr(part)]
            q.has_stmt(s) && q.stmt(s).has_expr(part) implies q.has_expr(part) by {
            if s.0 < sb {
                assert(p.stmt(s).has_expr(part));
            } else {
                assert(c.stmt_copied(p, s.0 - sb));
                let src = StmtId(c.stmts[s.0 - sb]);
                let source = lemma_stmt_copy_expr(c, p.stmt(src), part);
                assert(c.expr_map.contains_key(source.0));
            }
        }
    }
    assert(q.functions_closed()) by {
        assert forall|f: FuncId| #![trigger q.function(f)] q.has_function(f) implies q.has_stmt(
            q.function(f).body,
        ) by {
            assert(p.has_stmt(p.function(f).body));
        }
    }
    assert(q.handlers_closed()) by {
        assert forall|h: crate::common::ids::HandlerId| #![trigger q.handler(h)]
            q.has_handler(h) implies q.has_stmt(q.handler(h).return_body) by {
            assert(p.has_stmt(p.handler(h).return_body));
        }
        assert forall|h: crate::common::ids::HandlerId, i: int|
            #![trigger q.handler(h).clauses[i]]
            q.has_handler(h) && 0 <= i < q.handler(h).clauses.len() implies q.has_stmt(
            q.handler(h).clauses[i].body,
        ) by {
            assert(p.has_stmt(p.handler(h).clauses[i].body));
        }
    }
}

/// No call of the function that is copied is left in the copy: each one calls
/// the copy.
pub proof fn lemma_copies_retarget(c: CloneModel, p: CoreModel, s: StmtId)
    requires
        c.copies(p),
        c.from != c.to,
        p.stmts.len() <= s.0 < c.program.stmts.len(),
        c.program.stmt(s) is Call,
    ensures
        c.program.stmt(s)->callee != c.from,
{
    assert(c.stmt_copied(p, s.0 - p.stmts.len()));
}

// ---------------------------------------------------------------------------
// A copy of what is reached
// ---------------------------------------------------------------------------

/// All that has been copied is among given expressions and statements.
pub open spec fn order_within(order: Order, exprs: Set<usize>, stmts: Set<usize>) -> bool {
    &&& forall|e: usize| #[trigger] order.exprs.contains(e) ==> exprs.contains(e)
    &&& forall|s: usize| #[trigger] order.stmts.contains(s) ==> stmts.contains(s)
}

/// Given expressions and statements hold all the parts of each of them.
pub open spec fn parts_within(p: CoreModel, exprs: Set<usize>, stmts: Set<usize>) -> bool {
    &&& forall|e: ExprId, part: ExprId| #![trigger p.expr(e).has_part(part)]
        exprs.contains(e.0) && p.has_expr(e) && p.expr(e).has_part(part) ==> exprs.contains(part.0)
    &&& forall|s: StmtId, part: StmtId| #![trigger p.stmt(s).has_part(part)]
        stmts.contains(s.0) && p.has_stmt(s) && p.stmt(s).has_part(part) ==> stmts.contains(part.0)
    &&& forall|s: StmtId, part: ExprId| #![trigger p.stmt(s).has_expr(part)]
        stmts.contains(s.0) && p.has_stmt(s) && p.stmt(s).has_expr(part) ==> exprs.contains(part.0)
}

proof fn lemma_pushed(list: Seq<usize>, last: usize, all: Set<usize>)
    requires
        forall|x: usize| #[trigger] list.contains(x) ==> all.contains(x),
        all.contains(last),
    ensures
        forall|x: usize| #[trigger] list.push(last).contains(x) ==> all.contains(x),
{
    assert forall|x: usize| #[trigger] list.push(last).contains(x) implies all.contains(x) by {
        let i = choose|i: int| 0 <= i < list.push(last).len() && list.push(last)[i] == x;
        if i < list.len() {
            assert(list[i] == x);
            assert(list.contains(x));
        }
    }
}

proof fn lemma_expr_within(
    order: Order,
    p: CoreModel,
    e: ExprId,
    exprs: Set<usize>,
    stmts: Set<usize>,
)
    requires
        p.acyclic(),
        order_within(order, exprs, stmts),
        parts_within(p, exprs, stmts),
        exprs.contains(e.0),
    ensures
        order_within(order.expr(p, e), exprs, stmts),
    decreases p.expr_rank(e), 1nat, 0nat,
{
    if !order.exprs.contains(e.0) && p.has_expr(e) {
        crate::passes::linearize::analysis::lemma_expr_ranks(p, e);
        let parts = match p.expr(e) {
            ExprModel::Var(_) | ExprModel::Literal(_) | ExprModel::Error(_) => order,
            ExprModel::Unary { expr, .. } => {
                assert(p.expr(e).has_part(expr));
                lemma_expr_within(order, p, expr, exprs, stmts);
                order.expr(p, expr)
            },
            ExprModel::Binary { lhs, rhs, .. } => {
                assert(p.expr(e).has_part(lhs));
                assert(p.expr(e).has_part(rhs));
                lemma_expr_within(order, p, lhs, exprs, stmts);
                lemma_expr_within(order.expr(p, lhs), p, rhs, exprs, stmts);
                order.expr(p, lhs).expr(p, rhs)
            },
            ExprModel::PureCall { args, .. } => {
                lemma_parts_within(order, p, e, args.len(), exprs, stmts);
                order.expr_parts(p, e, args.len())
            },
            ExprModel::MakeStruct { fields, .. } => {
                lemma_parts_within(order, p, e, fields.len(), exprs, stmts);
                order.expr_parts(p, e, fields.len())
            },
            ExprModel::MakeEnum { fields, .. } => {
                lemma_parts_within(order, p, e, fields.len(), exprs, stmts);
                order.expr_parts(p, e, fields.len())
            },
        };
        lemma_pushed(parts.exprs, e.0, exprs);
        assert(order.expr(p, e) == (Order { exprs: parts.exprs.push(e.0), ..parts }));
    }
}

proof fn lemma_parts_within(
    order: Order,
    p: CoreModel,
    e: ExprId,
    first: nat,
    exprs: Set<usize>,
    stmts: Set<usize>,
)
    requires
        p.acyclic(),
        order_within(order, exprs, stmts),
        parts_within(p, exprs, stmts),
        exprs.contains(e.0),
    ensures
        order_within(order.expr_parts(p, e, first), exprs, stmts),
    decreases p.expr_rank(e), 0nat, first,
{
    let parts = listed(p.expr(e));
    if p.has_expr(e) && 0 < first <= parts.len() {
        crate::passes::linearize::analysis::lemma_expr_ranks(p, e);
        assert(parts.contains(parts[first - 1]));
        assert(p.expr(e).has_part(parts[first - 1]));
        lemma_parts_within(order, p, e, (first - 1) as nat, exprs, stmts);
        lemma_expr_within(
            order.expr_parts(p, e, (first - 1) as nat),
            p,
            parts[first - 1],
            exprs,
            stmts,
        );
    }
}

proof fn lemma_args_within(
    order: Order,
    p: CoreModel,
    args: Seq<ExprId>,
    first: nat,
    exprs: Set<usize>,
    stmts: Set<usize>,
)
    requires
        p.acyclic(),
        order_within(order, exprs, stmts),
        parts_within(p, exprs, stmts),
        first <= args.len(),
        forall|i: int| 0 <= i < args.len() ==> exprs.contains((#[trigger] args[i]).0),
    ensures
        order_within(order.args(p, args, first), exprs, stmts),
    decreases first,
{
    if first > 0 {
        lemma_args_within(order, p, args, (first - 1) as nat, exprs, stmts);
        lemma_expr_within(
            order.args(p, args, (first - 1) as nat),
            p,
            args[first - 1],
            exprs,
            stmts,
        );
    }
}

/// The arguments of a statement of those given are of those given.
proof fn lemma_stmt_args(
    p: CoreModel,
    s: StmtId,
    args: Seq<ExprId>,
    exprs: Set<usize>,
    stmts: Set<usize>,
)
    requires
        parts_within(p, exprs, stmts),
        p.has_stmt(s),
        stmts.contains(s.0),
        match p.stmt(s) {
            StmtModel::Call { args: given, .. } => given == args,
            StmtModel::Perform { args: given, .. } => given == args,
            _ => false,
        },
    ensures
        forall|i: int| 0 <= i < args.len() ==> exprs.contains((#[trigger] args[i]).0),
{
    assert forall|i: int| 0 <= i < args.len() implies exprs.contains((#[trigger] args[i]).0) by {
        assert(args.contains(args[i]));
        assert(p.stmt(s).has_expr(args[i]));
    }
}

proof fn lemma_stmt_within(
    order: Order,
    p: CoreModel,
    s: StmtId,
    exprs: Set<usize>,
    stmts: Set<usize>,
)
    requires
        p.acyclic(),
        order_within(order, exprs, stmts),
        parts_within(p, exprs, stmts),
        stmts.contains(s.0),
    ensures
        order_within(order.stmt(p, s), exprs, stmts),
    decreases p.stmt_rank(s), 1nat, 0nat,
{
    if !order.stmts.contains(s.0) && p.has_stmt(s) {
        crate::passes::linearize::analysis::lemma_stmt_ranks(p, s);
        let stmt = p.stmt(s);
        let parts = match stmt {
            StmtModel::Return(e) => {
                assert(stmt.has_expr(e));
                lemma_expr_within(order, p, e, exprs, stmts);
                order.expr(p, e)
            },
            StmtModel::Let { value, next, .. } => {
                assert(stmt.has_expr(value));
                assert(stmt.has_part(next));
                lemma_expr_within(order, p, value, exprs, stmts);
                lemma_stmt_within(order.expr(p, value), p, next, exprs, stmts);
                order.expr(p, value).stmt(p, next)
            },
            StmtModel::Val { value, next, .. } => {
                assert(stmt.has_part(value));
                assert(stmt.has_part(next));
                lemma_stmt_within(order, p, value, exprs, stmts);
                lemma_stmt_within(order.stmt(p, value), p, next, exprs, stmts);
                order.stmt(p, value).stmt(p, next)
            },
            StmtModel::Call { args, next, .. } => {
                assert(stmt.has_part(next));
                lemma_stmt_args(p, s, args, exprs, stmts);
                lemma_args_within(order, p, args, args.len(), exprs, stmts);
                lemma_stmt_within(order.args(p, args, args.len()), p, next, exprs, stmts);
                order.args(p, args, args.len()).stmt(p, next)
            },
            StmtModel::If { cond, then_branch, else_branch } => {
                assert(stmt.has_expr(cond));
                assert(stmt.has_part(then_branch));
                assert(stmt.has_part(else_branch));
                lemma_expr_within(order, p, cond, exprs, stmts);
                let tested = order.expr(p, cond);
                lemma_stmt_within(tested, p, then_branch, exprs, stmts);
                lemma_stmt_within(tested.stmt(p, then_branch), p, else_branch, exprs, stmts);
                tested.stmt(p, then_branch).stmt(p, else_branch)
            },
            StmtModel::Match { scrutinee, arms, default } => {
                assert(stmt.has_expr(scrutinee));
                lemma_expr_within(order, p, scrutinee, exprs, stmts);
                lemma_arms_within(order.expr(p, scrutinee), p, s, arms.len(), exprs, stmts);
                let armed = order.expr(p, scrutinee).arms(p, s, arms.len());
                match default {
                    Some(default) => {
                        assert(stmt.has_part(default));
                        lemma_stmt_within(armed, p, default, exprs, stmts);
                        armed.stmt(p, default)
                    },
                    None => armed,
                }
            },
            StmtModel::Perform { args, next, .. } => {
                assert(stmt.has_part(next));
                lemma_stmt_args(p, s, args, exprs, stmts);
                lemma_args_within(order, p, args, args.len(), exprs, stmts);
                lemma_stmt_within(order.args(p, args, args.len()), p, next, exprs, stmts);
                order.args(p, args, args.len()).stmt(p, next)
            },
            StmtModel::Resume { arg, next, .. } => {
                assert(stmt.has_expr(arg));
                assert(stmt.has_part(next));
                lemma_expr_within(order, p, arg, exprs, stmts);
                lemma_stmt_within(order.expr(p, arg), p, next, exprs, stmts);
                order.expr(p, arg).stmt(p, next)
            },
            StmtModel::Handle { body, next, .. } => {
                assert(stmt.has_part(body));
                lemma_stmt_within(order, p, body, exprs, stmts);
                match next {
                    Some(next) => {
                        assert(stmt.has_part(next));
                        lemma_stmt_within(order.stmt(p, body), p, next, exprs, stmts);
                        order.stmt(p, body).stmt(p, next)
                    },
                    None => order.stmt(p, body),
                }
            },
            StmtModel::Stage { body, next, .. } => {
                assert(stmt.has_part(body));
                lemma_stmt_within(order, p, body, exprs, stmts);
                match next {
                    Some(next) => {
                        assert(stmt.has_part(next));
                        lemma_stmt_within(order.stmt(p, body), p, next, exprs, stmts);
                        order.stmt(p, body).stmt(p, next)
                    },
                    None => order.stmt(p, body),
                }
            },
            StmtModel::Hole { .. } | StmtModel::Error(_) => order,
        };
        lemma_pushed(parts.stmts, s.0, stmts);
        assert(order.stmt(p, s) == (Order { stmts: parts.stmts.push(s.0), ..parts }));
    }
}

proof fn lemma_arms_within(
    order: Order,
    p: CoreModel,
    s: StmtId,
    first: nat,
    exprs: Set<usize>,
    stmts: Set<usize>,
)
    requires
        p.acyclic(),
        order_within(order, exprs, stmts),
        parts_within(p, exprs, stmts),
        stmts.contains(s.0),
    ensures
        order_within(order.arms(p, s, first), exprs, stmts),
    decreases p.stmt_rank(s), 0nat, first,
{
    if first > 0 && p.has_stmt(s) && p.stmt(s) is Match && first <= p.stmt(s)->arms.len() {
        crate::passes::linearize::analysis::lemma_stmt_ranks(p, s);
        crate::ir::core_ir::lemma_arm_is_part(p.stmt(s), first - 1);
        let body = p.stmt(s)->arms[first - 1].body;
        lemma_arms_within(order, p, s, (first - 1) as nat, exprs, stmts);
        lemma_stmt_within(order.arms(p, s, (first - 1) as nat), p, body, exprs, stmts);
    }
}

/// The statements and expressions that can be reached from a statement.
pub open spec fn reached_stmts(p: CoreModel, root: StmtId) -> Set<usize> {
    Set::new(|s: usize| crate::passes::function_graph::stmt_reached(p, root, s))
}

pub open spec fn reached_exprs(p: CoreModel, root: StmtId) -> Set<usize> {
    Set::new(|e: usize| crate::passes::function_graph::expr_reached(p, root, e))
}

proof fn lemma_reached_within(p: CoreModel, root: StmtId)
    ensures
        parts_within(p, reached_exprs(p, root), reached_stmts(p, root)),
{
    let stmt_edge = crate::passes::function_graph::stmt_edge(p);
    let expr_edge = crate::passes::function_graph::expr_edge(p);
    let roots = crate::passes::function_graph::roots_of(p, root);
    assert forall|e: ExprId, part: ExprId| #![trigger p.expr(e).has_part(part)]
        reached_exprs(p, root).contains(e.0) && p.has_expr(e) && p.expr(e).has_part(
            part,
        ) implies reached_exprs(p, root).contains(part.0) by {
        assert(expr_edge(e.0, part.0));
        crate::common::reach::lemma_reaches_step(expr_edge, roots, e.0, part.0);
    }
    assert forall|s: StmtId, part: StmtId| #![trigger p.stmt(s).has_part(part)]
        reached_stmts(p, root).contains(s.0) && p.has_stmt(s) && p.stmt(s).has_part(
            part,
        ) implies reached_stmts(p, root).contains(part.0) by {
        assert(stmt_edge(s.0, part.0));
        crate::common::reach::lemma_reaches_step(stmt_edge, set![root.0], s.0, part.0);
    }
    assert forall|s: StmtId, part: ExprId| #![trigger p.stmt(s).has_expr(part)]
        reached_stmts(p, root).contains(s.0) && p.has_stmt(s) && p.stmt(s).has_expr(
            part,
        ) implies reached_exprs(p, root).contains(part.0) by {
        assert(crate::passes::function_graph::stmt_reached(p, root, s.0));
        assert(roots.contains(part.0));
        crate::common::reach::lemma_reaches_root(expr_edge, roots, part.0);
    }
}

/// A copy of a statement copies the statements and expressions that can be
/// reached from it, and no others.
pub proof fn lemma_copies_what_is_reached(clone: CloneModel, p: CoreModel, root: StmtId)
    requires
        p.acyclic(),
        p.has_stmt(root),
        clone.copies(p),
        clone.order() == Order::start().stmt(p, root),
    ensures
        forall|s: usize| #[trigger]
            clone.stmts.contains(s) <==> crate::passes::function_graph::stmt_reached(p, root, s),
        forall|e: usize| #[trigger]
            clone.exprs.contains(e) <==> crate::passes::function_graph::expr_reached(p, root, e),
{
    let exprs = reached_exprs(p, root);
    let stmts = reached_stmts(p, root);
    let stmt_edge = crate::passes::function_graph::stmt_edge(p);
    let expr_edge = crate::passes::function_graph::expr_edge(p);
    let roots = crate::passes::function_graph::roots_of(p, root);
    crate::common::reach::lemma_reaches_root(stmt_edge, set![root.0], root.0);
    lemma_reached_within(p, root);
    lemma_stmt_within(Order::start(), p, root, exprs, stmts);
    lemma_listed(clone, p);
    let copied_stmts = Set::new(|s: usize| clone.stmts.contains(s));
    let copied_exprs = Set::new(|e: usize| clone.exprs.contains(e));
    assert(clone.stmts.last() == root.0);
    assert(clone.stmts.contains(root.0));
    assert forall|a: usize, b: usize|
        copied_stmts.contains(a) && #[trigger] stmt_edge(a, b) implies copied_stmts.contains(b) by {
        let i = choose|i: int| 0 <= i < clone.stmts.len() && clone.stmts[i] == a;
        assert(clone.stmt_copied(p, i));
        assert(clone.stmt_map.contains_key(b));
    }
    assert forall|s: usize| #[trigger]
        clone.stmts.contains(s) <==> crate::passes::function_graph::stmt_reached(p, root, s) by {
        if crate::passes::function_graph::stmt_reached(p, root, s) {
            crate::common::reach::lemma_closed_holds_reached(
                stmt_edge,
                set![root.0],
                copied_stmts,
                s,
            );
        }
        if clone.stmts.contains(s) {
            assert(clone.order().stmts.contains(s));
            assert(stmts.contains(s));
        }
    }
    assert forall|a: usize, b: usize|
        copied_exprs.contains(a) && #[trigger] expr_edge(a, b) implies copied_exprs.contains(b) by {
        let i = choose|i: int| 0 <= i < clone.exprs.len() && clone.exprs[i] == a;
        assert(clone.expr_copied(p, i));
        assert(clone.expr_map.contains_key(b));
    }
    assert forall|e: usize| roots.contains(e) implies #[trigger] copied_exprs.contains(e) by {
        let s = choose|s: usize| #[trigger]
            crate::passes::function_graph::stmt_reached(p, root, s) && p.has_stmt(StmtId(s))
                && p.stmt(StmtId(s)).has_expr(ExprId(e));
        assert(clone.stmts.contains(s));
        let i = choose|i: int| 0 <= i < clone.stmts.len() && clone.stmts[i] == s;
        assert(clone.stmt_copied(p, i));
        assert(clone.expr_map.contains_key(e));
    }
    assert forall|e: usize| #[trigger]
        clone.exprs.contains(e) <==> crate::passes::function_graph::expr_reached(p, root, e) by {
        if crate::passes::function_graph::expr_reached(p, root, e) {
            crate::common::reach::lemma_closed_holds_reached(expr_edge, roots, copied_exprs, e);
        }
        if clone.exprs.contains(e) {
            assert(clone.order().exprs.contains(e));
            assert(exprs.contains(e));
        }
    }
}

} // verus!
