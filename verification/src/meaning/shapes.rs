//! Handlers of one shape are one handler, whatever their variables are called.
use crate::common::ids::{ExprId, StmtId, VarId};
use crate::ir::core_ir::{ClauseModel, CoreModel, ExprModel, HandlerModel, StmtModel};
use crate::passes::handler_specialize::shape::{ShapeTag, TokenModel};
use vstd::prelude::*;

verus! {

// ---------------------------------------------------------------------------
// Equal up to the names of variables
// ---------------------------------------------------------------------------

/// Which variable of one piece of code is which of another.
pub type Renaming = Map<usize, usize>;

/// A variable that nothing is renamed to.
pub open spec fn unused(ren: Renaming, b: usize) -> bool {
    forall|x: usize| #[trigger] ren.contains_key(x) ==> ren[x] != b
}

/// One variable is bound on one side, one on the other.
pub open spec fn bind_both(ren: Renaming, a: VarId, b: VarId) -> Option<Renaming> {
    if ren.contains_key(a.0) {
        if ren[a.0] == b.0 {
            Some(ren)
        } else {
            None
        }
    } else if unused(ren, b.0) {
        Some(ren.insert(a.0, b.0))
    } else {
        None
    }
}

/// The first of some variables are bound on one side, as many on the other.
pub open spec fn bind_all(ren: Renaming, a: Seq<VarId>, b: Seq<VarId>, first: nat) -> Option<
    Renaming,
>
    decreases first,
{
    if first == 0 {
        Some(ren)
    } else {
        match bind_all(ren, a, b, (first - 1) as nat) {
            Some(ren) => bind_both(ren, a[first - 1], b[first - 1]),
            None => None,
        }
    }
}

pub open spec fn bind_options(ren: Renaming, a: Option<VarId>, b: Option<VarId>) -> Option<
    Renaming,
> {
    match (a, b) {
        (Some(a), Some(b)) => bind_both(ren, a, b),
        (None, None) => Some(ren),
        _ => None,
    }
}

/// One variable is the other. A variable that is bound nowhere keeps its name.
pub open spec fn same_var(ren: Renaming, a: VarId, b: VarId) -> bool {
    if ren.contains_key(a.0) {
        ren[a.0] == b.0
    } else {
        a == b && unused(ren, b.0)
    }
}

/// Two expressions are one, but for the names of variables.
pub open spec fn alike_expr(p: CoreModel, a: ExprId, b: ExprId, ren: Renaming) -> bool
    decreases p.expr_rank(a), 1nat, 0nat,
    when p.acyclic()
{
    proof {
        crate::passes::linearize::analysis::lemma_expr_ranks(p, a);
    }
    if !p.has_expr(a) || !p.has_expr(b) {
        !p.has_expr(a) && !p.has_expr(b)
    } else {
        match (p.expr(a), p.expr(b)) {
            (ExprModel::Var(x), ExprModel::Var(y)) => same_var(ren, x, y),
            (ExprModel::Literal(x), ExprModel::Literal(y)) => x == y,
            (ExprModel::Unary { op: f, expr: x }, ExprModel::Unary { op: g, expr: y }) => f == g
                && alike_expr(p, x, y, ren),
            (
                ExprModel::Binary { op: f, lhs: x, rhs: z },
                ExprModel::Binary { op: g, lhs: y, rhs: w },
            ) => f == g && alike_expr(p, x, y, ren) && alike_expr(p, z, w, ren),
            (
                ExprModel::PureCall { callee: f, args: x },
                ExprModel::PureCall { callee: g, args: y },
            ) => f == g && x.len() == y.len() && alike_parts(p, a, b, x.len(), ren),
            (
                ExprModel::MakeStruct { ty: f, fields: x },
                ExprModel::MakeStruct { ty: g, fields: y },
            ) => f == g && x.len() == y.len() && alike_parts(p, a, b, x.len(), ren),
            (
                ExprModel::MakeEnum { ty: f, variant: v, fields: x },
                ExprModel::MakeEnum { ty: g, variant: w, fields: y },
            ) => f == g && v == w && x.len() == y.len() && alike_parts(p, a, b, x.len(), ren),
            (ExprModel::Error(_), ExprModel::Error(_)) => true,
            _ => false,
        }
    }
}

/// The first arguments or fields of two expressions are alike, one by one.
pub open spec fn alike_parts(p: CoreModel, a: ExprId, b: ExprId, first: nat, ren: Renaming) -> bool
    decreases p.expr_rank(a), 0nat, first,
    when p.acyclic()
{
    let left = p.expr(a).parts();
    let right = p.expr(b).parts();
    if first == 0 || !p.has_expr(a) || first > left.len() {
        true
    } else {
        proof {
            crate::passes::linearize::analysis::lemma_expr_ranks(p, a);
            crate::meaning::core_values::lemma_parts(p.expr(a), first - 1);
        }
        alike_parts(p, a, b, (first - 1) as nat, ren) && alike_expr(
            p,
            left[first - 1],
            right[first - 1],
            ren,
        )
    }
}

/// Expressions are alike, one by one.
pub open spec fn alike_list(p: CoreModel, a: Seq<ExprId>, b: Seq<ExprId>, ren: Renaming) -> bool {
    &&& a.len() == b.len()
    &&& forall|i: int| 0 <= i < a.len() ==> alike_expr(p, #[trigger] a[i], b[i], ren)
}

/// How variables are renamed after two statements that are one, but for the
/// names of variables; none where they are not.
pub open spec fn alike_stmt(p: CoreModel, a: StmtId, b: StmtId, ren: Renaming) -> Option<Renaming>
    decreases p.stmt_rank(a), 1nat, 0nat,
    when p.acyclic()
{
    proof {
        crate::passes::linearize::analysis::lemma_stmt_ranks(p, a);
    }
    if !p.has_stmt(a) || !p.has_stmt(b) {
        if !p.has_stmt(a) && !p.has_stmt(b) {
            Some(ren)
        } else {
            None
        }
    } else {
        match (p.stmt(a), p.stmt(b)) {
            (StmtModel::Return(x), StmtModel::Return(y)) => if alike_expr(p, x, y, ren) {
                Some(ren)
            } else {
                None
            },
            (
                StmtModel::Let { binding: x, value: v, next: n },
                StmtModel::Let { binding: y, value: w, next: m },
            ) => match bind_both(ren, x, y) {
                Some(ren) => if alike_expr(p, v, w, ren) {
                    alike_stmt(p, n, m, ren)
                } else {
                    None
                },
                None => None,
            },
            (
                StmtModel::Val { binding: x, value: v, next: n },
                StmtModel::Val { binding: y, value: w, next: m },
            ) => match bind_both(ren, x, y) {
                Some(ren) => match alike_stmt(p, v, w, ren) {
                    Some(ren) => alike_stmt(p, n, m, ren),
                    None => None,
                },
                None => None,
            },
            (
                StmtModel::Call { result: x, callee: f, args: v, effects: e, next: n },
                StmtModel::Call { result: y, callee: g, args: w, effects: h, next: m },
            ) => match bind_both(ren, x, y) {
                Some(ren) => if f == g && e == h && alike_list(p, v, w, ren) {
                    alike_stmt(p, n, m, ren)
                } else {
                    None
                },
                None => None,
            },
            (
                StmtModel::If { cond: v, then_branch: x, else_branch: n },
                StmtModel::If { cond: w, then_branch: y, else_branch: m },
            ) => if alike_expr(p, v, w, ren) {
                match alike_stmt(p, x, y, ren) {
                    Some(ren) => alike_stmt(p, n, m, ren),
                    None => None,
                }
            } else {
                None
            },
            (
                StmtModel::Match { scrutinee: v, arms: x, default: n },
                StmtModel::Match { scrutinee: w, arms: y, default: m },
            ) => if alike_expr(p, v, w, ren) && x.len() == y.len() && alike_arms(
                p,
                a,
                b,
                x.len(),
                ren,
            ) {
                match (n, m) {
                    (Some(n), Some(m)) => alike_stmt(p, n, m, ren),
                    (None, None) => Some(ren),
                    _ => None,
                }
            } else {
                None
            },
            (
                StmtModel::Perform { result: x, effect: e, operation: f, args: v, next: n },
                StmtModel::Perform { result: y, effect: h, operation: g, args: w, next: m },
            ) => match bind_options(ren, x, y) {
                Some(ren) => if e == h && f == g && alike_list(p, v, w, ren) {
                    alike_stmt(p, n, m, ren)
                } else {
                    None
                },
                None => None,
            },
            (
                StmtModel::Resume { result: x, resume: f, arg: v, next: n },
                StmtModel::Resume { result: y, resume: g, arg: w, next: m },
            ) => match bind_both(ren, x, y) {
                Some(ren) => if f == g && alike_expr(p, v, w, ren) {
                    alike_stmt(p, n, m, ren)
                } else {
                    None
                },
                None => None,
            },
            (
                StmtModel::Handle { handler: f, body: x, next: n },
                StmtModel::Handle { handler: g, body: y, next: m },
            ) => if f == g {
                match alike_stmt(p, x, y, ren) {
                    Some(ren) => match (n, m) {
                        (Some(n), Some(m)) => alike_stmt(p, n, m, ren),
                        (None, None) => Some(ren),
                        _ => None,
                    },
                    None => None,
                }
            } else {
                None
            },
            (
                StmtModel::Stage { stage: f, body: x, next: n },
                StmtModel::Stage { stage: g, body: y, next: m },
            ) => if f == g {
                match alike_stmt(p, x, y, ren) {
                    Some(ren) => match (n, m) {
                        (Some(n), Some(m)) => alike_stmt(p, n, m, ren),
                        (None, None) => Some(ren),
                        _ => None,
                    },
                    None => None,
                }
            } else {
                None
            },
            (StmtModel::Hole { ty: x }, StmtModel::Hole { ty: y }) => if x == y {
                Some(ren)
            } else {
                None
            },
            (StmtModel::Error(_), StmtModel::Error(_)) => Some(ren),
            _ => None,
        }
    }
}

/// The first arms of two matches are alike, one by one.
pub open spec fn alike_arms(p: CoreModel, a: StmtId, b: StmtId, first: nat, ren: Renaming) -> bool
    decreases p.stmt_rank(a), 0nat, first,
    when p.acyclic()
{
    if first == 0 || !p.has_stmt(a) || !(p.stmt(a) is Match) || first > p.stmt(a)->arms.len() {
        true
    } else {
        proof {
            crate::ir::core_ir::lemma_arm_is_part(p.stmt(a), first - 1);
            crate::passes::linearize::analysis::lemma_stmt_ranks(p, a);
        }
        let x = p.stmt(a)->arms[first - 1];
        let y = p.stmt(b)->arms[first - 1];
        &&& alike_arms(p, a, b, (first - 1) as nat, ren)
        &&& x.tag == y.tag
        &&& x.binders.len() == y.binders.len()
        &&& match bind_all(ren, x.binders, y.binders, x.binders.len()) {
            Some(ren) => alike_stmt(p, x.body, y.body, ren) is Some,
            None => false,
        }
    }
}

/// Two clauses are one, but for the names of variables.
pub open spec fn alike_clauses(p: CoreModel, a: ClauseModel, b: ClauseModel) -> bool {
    &&& a.operation == b.operation
    &&& a.params.len() == b.params.len()
    &&& match bind_all(Map::empty(), a.params, b.params, a.params.len()) {
        Some(ren) => match bind_options(ren, a.resume_param, b.resume_param) {
            Some(ren) => alike_stmt(p, a.body, b.body, ren) is Some,
            None => false,
        },
        None => false,
    }
}

/// Two handlers are one, but for the names of variables.
pub open spec fn alike_handlers(p: CoreModel, a: HandlerModel, b: HandlerModel) -> bool {
    &&& a.effect == b.effect
    &&& match bind_both(Map::empty(), a.return_param, b.return_param) {
        Some(ren) => alike_stmt(p, a.return_body, b.return_body, ren) is Some,
        None => false,
    }
    &&& a.clauses.len() == b.clauses.len()
    &&& forall|i: int|
        0 <= i < a.clauses.len() ==> alike_clauses(p, #[trigger] a.clauses[i], b.clauses[i])
}

// ---------------------------------------------------------------------------
// Numbers of variables
// ---------------------------------------------------------------------------

/// Variables are numbered in a row, each with a number of its own.
pub open spec fn numbered(scope: Map<usize, usize>) -> bool {
    &&& scope.dom().finite()
    &&& forall|x: usize| #[trigger]
        scope.contains_key(x) ==> scope[x] < scope.dom().len()
    &&& forall|x: usize, y: usize|
        #![trigger scope.contains_key(x), scope.contains_key(y)]
        scope.contains_key(x) && scope.contains_key(y) && scope[x] == scope[y] ==> x == y
}

/// Variables of one number are renamed to each other.
pub open spec fn linked(left: Map<usize, usize>, right: Map<usize, usize>, ren: Renaming) -> bool {
    &&& numbered(left)
    &&& numbered(right)
    &&& left.dom().len() == right.dom().len()
    &&& ren.dom() == left.dom()
    &&& forall|x: usize| #[trigger]
        ren.contains_key(x) ==> right.contains_key(ren[x]) && right[ren[x]] == left[x]
    &&& forall|y: usize| #[trigger]
        right.contains_key(y) ==> exists|x: usize| #[trigger] ren.contains_key(x) && ren[x] == y
}

/// There are no more sets of words than words.
proof fn lemma_room(set: Set<usize>)
    requires
        set.finite(),
    ensures
        set.len() <= usize::MAX + 1,
        forall|x: usize| !set.contains(x) ==> set.len() <= usize::MAX,
{
    let all = vstd::set_lib::set_int_range(0, usize::MAX + 1);
    vstd::set_lib::lemma_int_range(0, usize::MAX + 1);
    let image = set.map(|x: usize| x as int);
    assert(image.subset_of(all));
    vstd::set_lib::lemma_map_size(set, image, |x: usize| x as int);
    vstd::set_lib::lemma_len_subset(image, all);
    assert forall|x: usize| !set.contains(x) implies set.len() <= usize::MAX by {
        let fewer = all.remove(x as int);
        assert(image.subset_of(fewer));
        vstd::set_lib::lemma_len_subset(image, fewer);
    }
}

proof fn lemma_bound(
    left: Map<usize,
    usize>,
    right: Map<usize,
    usize>,
    ren: Renaming,
    a: VarId,
    b: VarId,
)
    requires
        linked(left, right, ren),
        crate::passes::handler_specialize::shape::bound(left, a)[a.0]
            == crate::passes::handler_specialize::shape::bound(right, b)[b.0],
    ensures
        bind_both(ren, a, b) matches Some(more) && linked(
            crate::passes::handler_specialize::shape::bound(left, a),
            crate::passes::handler_specialize::shape::bound(right, b),
            more,
        ),
{
    lemma_room(left.dom());
    lemma_room(right.dom());
    if left.contains_key(a.0) {
        assert(ren.contains_key(a.0));
        assert(right.contains_key(b.0));
        assert(right.contains_key(ren[a.0]));
        assert(ren[a.0] == b.0);
    } else {
        assert(!ren.contains_key(a.0));
        if right.contains_key(b.0) {
            assert(right[b.0] < right.dom().len());
            assert(false);
        }
        assert(unused(ren, b.0));
        let more = ren.insert(a.0, b.0);
        let left2 = crate::passes::handler_specialize::shape::bound(left, a);
        let right2 = crate::passes::handler_specialize::shape::bound(right, b);
        assert(left2.dom() =~= left.dom().insert(a.0));
        assert(right2.dom() =~= right.dom().insert(b.0));
        assert(more.dom() =~= left2.dom());
        assert forall|y: usize| #[trigger] right2.contains_key(y) implies exists|x: usize| #[trigger]
            more.contains_key(x) && more[x] == y by {
            if y == b.0 {
                assert(more.contains_key(a.0) && more[a.0] == y);
            } else {
                assert(right.contains_key(y));
                let x = choose|x: usize| #[trigger] ren.contains_key(x) && ren[x] == y;
                assert(more.contains_key(x) && more[x] == y);
            }
        }
        assert forall|x: usize| #[trigger] more.contains_key(x) implies right2.contains_key(more[x])
            && right2[more[x]] == left2[x] by {
            if x != a.0 {
                assert(ren.contains_key(x));
                assert(right.contains_key(ren[x]));
            }
        }
        assert(numbered(left2));
        assert(numbered(right2));
        assert(linked(left2, right2, more));
    }
}

// ---------------------------------------------------------------------------
// Pieces of token lists
// ---------------------------------------------------------------------------

proof fn lemma_split(
    x: Seq<TokenModel>,
    y: Seq<TokenModel>,
    rx: Seq<TokenModel>,
    ry: Seq<TokenModel>,
)
    requires
        x.len() == y.len(),
        x + rx == y + ry,
    ensures
        x == y,
        rx == ry,
{
    assert forall|i: int| 0 <= i < x.len() implies x[i] == y[i] by {
        assert((x + rx)[i] == (y + ry)[i]);
    }
    assert(x =~= y);
    assert((x + rx).len() == x.len() + rx.len());
    assert((y + ry).len() == y.len() + ry.len());
    assert(rx.len() == ry.len());
    assert forall|i: int| 0 <= i < rx.len() implies rx[i] == ry[i] by {
        assert((x + rx)[x.len() + i] == rx[i]);
        assert((y + ry)[y.len() + i] == ry[i]);
    }
    assert(rx =~= ry);
}

proof fn lemma_first(
    x: Seq<TokenModel>,
    y: Seq<TokenModel>,
    rx: Seq<TokenModel>,
    ry: Seq<TokenModel>,
)
    requires
        x.len() > 0,
        y.len() > 0,
        x + rx == y + ry,
    ensures
        x[0] == y[0],
{
    assert((x + rx)[0] == (y + ry)[0]);
}

/// Every list of a program is as long as a machine can say.
pub open spec fn countable(p: CoreModel) -> bool {
    &&& forall|e: ExprId| #[trigger] p.has_expr(e) ==> p.expr(e).parts().len() <= usize::MAX
    &&& forall|s: StmtId| #[trigger]
        p.has_stmt(s) ==> match p.stmt(s) {
            StmtModel::Call { args, effects, .. } => args.len() <= usize::MAX && effects.len()
                <= usize::MAX,
            StmtModel::Perform { args, .. } => args.len() <= usize::MAX,
            StmtModel::Match { arms, .. } => arms.len() <= usize::MAX && forall|i: int|
                0 <= i < arms.len() ==> (#[trigger] arms[i]).binders.len() <= usize::MAX,
            _ => true,
        }
}

/// The token that the shape of an expression starts with.
spec fn expr_start(p: CoreModel, e: ExprId) -> TokenModel {
    TokenModel::Tag(
        if !p.has_expr(e) {
            ShapeTag::ExprMissing
        } else {
            match p.expr(e) {
                ExprModel::Var(_) => ShapeTag::ExprVar,
                ExprModel::Literal(_) => ShapeTag::ExprLiteral,
                ExprModel::Unary { .. } => ShapeTag::ExprUnary,
                ExprModel::Binary { .. } => ShapeTag::ExprBinary,
                ExprModel::PureCall { .. } => ShapeTag::ExprPureCall,
                ExprModel::MakeStruct { .. } => ShapeTag::ExprMakeStruct,
                ExprModel::MakeEnum { .. } => ShapeTag::ExprMakeEnum,
                ExprModel::Error(_) => ShapeTag::ExprError,
            }
        },
    )
}

/// What comes before the parts of an expression in its shape.
spec fn expr_head(p: CoreModel, e: ExprId, scope: Map<usize, usize>) -> Seq<TokenModel> {
    let n = TokenModel::Count(p.expr(e).parts().len() as usize);
    match p.expr(e) {
        ExprModel::Unary { op, .. } => seq![
            expr_start(p, e),
            TokenModel::Tag(crate::passes::handler_specialize::shape::unary_tag(op)),
        ],
        ExprModel::Binary { op, .. } => seq![
            expr_start(p, e),
            TokenModel::Tag(crate::passes::handler_specialize::shape::binary_tag(op)),
        ],
        ExprModel::PureCall { callee, .. } => seq![expr_start(p, e), TokenModel::Func(callee.0), n],
        ExprModel::MakeStruct { ty, .. } => seq![expr_start(p, e), TokenModel::Type(ty.0), n],
        ExprModel::MakeEnum { ty, variant, .. } => seq![
            expr_start(p, e),
            TokenModel::Type(ty.0),
            TokenModel::Symbol(variant.0),
            n,
        ],
        _ => crate::passes::handler_specialize::shape::expr_shape(p, e, scope),
    }
}

proof fn lemma_expr_start(p: CoreModel, e: ExprId, scope: Map<usize, usize>)
    requires
        p.acyclic(),
    ensures
        crate::passes::handler_specialize::shape::expr_shape(p, e, scope).len() > 0,
        crate::passes::handler_specialize::shape::expr_shape(p, e, scope)[0] == expr_start(p, e),
{
}

/// Shapes of expressions, with more tokens behind them, are equal only if the
/// expressions are alike and the further tokens equal.
#[verifier::spinoff_prover]
#[verifier::rlimit(40)]
proof fn lemma_expr_alike(
    p: CoreModel,
    a: ExprId,
    b: ExprId,
    sa: Map<usize, usize>,
    sb: Map<usize, usize>,
    ren: Renaming,
    ra: Seq<TokenModel>,
    rb: Seq<TokenModel>,
)
    requires
        p.acyclic(),
        countable(p),
        linked(sa, sb, ren),
        crate::passes::handler_specialize::shape::expr_shape(p, a, sa) + ra
            == crate::passes::handler_specialize::shape::expr_shape(p, b, sb) + rb,
    ensures
        alike_expr(p, a, b, ren),
        ra == rb,
    decreases p.expr_rank(a), 1nat, 0nat,
{
    let ta = crate::passes::handler_specialize::shape::expr_shape(p, a, sa);
    let tb = crate::passes::handler_specialize::shape::expr_shape(p, b, sb);
    lemma_expr_start(p, a, sa);
    lemma_expr_start(p, b, sb);
    lemma_first(ta, tb, ra, rb);
    assert(expr_start(p, a) == expr_start(p, b));
    if p.has_expr(a) && p.has_expr(b) {
        crate::passes::linearize::analysis::lemma_expr_ranks(p, a);
        let ha = expr_head(p, a, sa);
        let hb = expr_head(p, b, sb);
        match (p.expr(a), p.expr(b)) {
            (ExprModel::Var(x), ExprModel::Var(y)) => {
                lemma_split(ta, tb, ra, rb);
                assert(ta[1] == tb[1]);
                if sa.contains_key(x.0) {
                    assert(ren.contains_key(x.0));
                    assert(sb.contains_key(ren[x.0]) && sb.contains_key(y.0));
                } else {
                    assert(x.0 == y.0 && !sb.contains_key(y.0));
                }
            },
            (ExprModel::Literal(x), ExprModel::Literal(y)) => {
                lemma_split(ta, tb, ra, rb);
                assert(ta[1] == tb[1]);
            },
            (ExprModel::Unary { op: f, expr: x }, ExprModel::Unary { op: g, expr: y }) => {
                let ia = crate::passes::handler_specialize::shape::expr_shape(p, x, sa);
                let ib = crate::passes::handler_specialize::shape::expr_shape(p, y, sb);
                assert(ta + ra =~= ha + (ia + ra));
                assert(tb + rb =~= hb + (ib + rb));
                lemma_split(ha, hb, ia + ra, ib + rb);
                assert(ha[1] == hb[1]);
                lemma_expr_alike(p, x, y, sa, sb, ren, ra, rb);
            },
            (
                ExprModel::Binary { op: f, lhs: x, rhs: z },
                ExprModel::Binary { op: g, lhs: y, rhs: w },
            ) => {
                let ia = crate::passes::handler_specialize::shape::expr_shape(p, x, sa);
                let ib = crate::passes::handler_specialize::shape::expr_shape(p, y, sb);
                let ja = crate::passes::handler_specialize::shape::expr_shape(p, z, sa);
                let jb = crate::passes::handler_specialize::shape::expr_shape(p, w, sb);
                assert(ta + ra =~= ha + (ia + (ja + ra)));
                assert(tb + rb =~= hb + (ib + (jb + rb)));
                lemma_split(ha, hb, ia + (ja + ra), ib + (jb + rb));
                assert(ha[1] == hb[1]);
                lemma_expr_alike(p, x, y, sa, sb, ren, ja + ra, jb + rb);
                lemma_expr_alike(p, z, w, sa, sb, ren, ra, rb);
            },
            (ExprModel::PureCall { args: x, .. }, ExprModel::PureCall { args: y, .. }) => {
                lemma_listed_alike(p, a, b, sa, sb, ren, ra, rb);
            },
            (ExprModel::MakeStruct { fields: x, .. }, ExprModel::MakeStruct { fields: y, .. }) => {
                lemma_listed_alike(p, a, b, sa, sb, ren, ra, rb);
            },
            (ExprModel::MakeEnum { fields: x, .. }, ExprModel::MakeEnum { fields: y, .. }) => {
                lemma_listed_alike(p, a, b, sa, sb, ren, ra, rb);
            },
            (ExprModel::Error(_), ExprModel::Error(_)) => {
                lemma_split(ta, tb, ra, rb);
            },
            _ => {
                assert(false);
            },
        }
    } else {
        lemma_split(ta, tb, ra, rb);
    }
}

#[verifier::spinoff_prover]
proof fn lemma_listed_alike(
    p: CoreModel,
    a: ExprId,
    b: ExprId,
    sa: Map<usize, usize>,
    sb: Map<usize, usize>,
    ren: Renaming,
    ra: Seq<TokenModel>,
    rb: Seq<TokenModel>,
)
    requires
        p.acyclic(),
        countable(p),
        linked(sa, sb, ren),
        p.has_expr(a),
        p.has_expr(b),
        expr_start(p, a) == expr_start(p, b),
        p.expr(a) is PureCall || p.expr(a) is MakeStruct || p.expr(a) is MakeEnum,
        crate::passes::handler_specialize::shape::expr_shape(p, a, sa) + ra
            == crate::passes::handler_specialize::shape::expr_shape(p, b, sb) + rb,
    ensures
        alike_expr(p, a, b, ren),
        ra == rb,
    decreases p.expr_rank(a), 0nat, p.expr(a).parts().len() + 1,
{
    let ta = crate::passes::handler_specialize::shape::expr_shape(p, a, sa);
    let tb = crate::passes::handler_specialize::shape::expr_shape(p, b, sb);
    let ha = expr_head(p, a, sa);
    let hb = expr_head(p, b, sb);
    let n = p.expr(a).parts().len();
    let m = p.expr(b).parts().len();
    assert(crate::passes::handler_specialize::shape::expr_list(p.expr(a)) == p.expr(a).parts());
    assert(crate::passes::handler_specialize::shape::expr_list(p.expr(b)) == p.expr(b).parts());
    let la = crate::passes::handler_specialize::shape::parts_shape(p, a, n, sa);
    let lb = crate::passes::handler_specialize::shape::parts_shape(p, b, m, sb);
    assert(ta + ra =~= ha + (la + ra));
    assert(tb + rb =~= hb + (lb + rb));
    lemma_split(ha, hb, la + ra, lb + rb);
    assert(ha[1] == hb[1] && ha[2] == hb[2] && ha.last() == hb.last());
    assert(n == m);
    lemma_parts_alike(p, a, b, n, sa, sb, ren, ra, rb);
}

proof fn lemma_parts_alike(
    p: CoreModel,
    a: ExprId,
    b: ExprId,
    first: nat,
    sa: Map<usize, usize>,
    sb: Map<usize, usize>,
    ren: Renaming,
    ra: Seq<TokenModel>,
    rb: Seq<TokenModel>,
)
    requires
        p.acyclic(),
        countable(p),
        linked(sa, sb, ren),
        p.has_expr(a),
        p.has_expr(b),
        crate::passes::handler_specialize::shape::expr_list(p.expr(a)) == p.expr(a).parts(),
        crate::passes::handler_specialize::shape::expr_list(p.expr(b)) == p.expr(b).parts(),
        first <= p.expr(a).parts().len(),
        first <= p.expr(b).parts().len(),
        crate::passes::handler_specialize::shape::parts_shape(p, a, first, sa) + ra
            == crate::passes::handler_specialize::shape::parts_shape(p, b, first, sb) + rb,
    ensures
        alike_parts(p, a, b, first, ren),
        ra == rb,
    decreases p.expr_rank(a), 0nat, first,
{
    let before = (first - 1) as nat;
    if first == 0 {
        assert(Seq::<TokenModel>::empty() + ra =~= ra);
        assert(Seq::<TokenModel>::empty() + rb =~= rb);
    } else {
        crate::passes::linearize::analysis::lemma_expr_ranks(p, a);
        crate::meaning::core_values::lemma_parts(p.expr(a), first - 1);
        let x = p.expr(a).parts()[first - 1];
        let y = p.expr(b).parts()[first - 1];
        let la = crate::passes::handler_specialize::shape::parts_shape(p, a, before, sa);
        let lb = crate::passes::handler_specialize::shape::parts_shape(p, b, before, sb);
        let ia = crate::passes::handler_specialize::shape::expr_shape(p, x, sa);
        let ib = crate::passes::handler_specialize::shape::expr_shape(p, y, sb);
        assert(crate::passes::handler_specialize::shape::parts_shape(p, a, first, sa) + ra =~= la
            + (ia + ra));
        assert(crate::passes::handler_specialize::shape::parts_shape(p, b, first, sb) + rb =~= lb
            + (ib + rb));
        lemma_parts_alike(p, a, b, before, sa, sb, ren, ia + ra, ib + rb);
        lemma_expr_alike(p, x, y, sa, sb, ren, ra, rb);
    }
}

proof fn lemma_list_alike(
    p: CoreModel,
    a: Seq<ExprId>,
    b: Seq<ExprId>,
    first: nat,
    sa: Map<usize, usize>,
    sb: Map<usize, usize>,
    ren: Renaming,
    ra: Seq<TokenModel>,
    rb: Seq<TokenModel>,
)
    requires
        p.acyclic(),
        countable(p),
        linked(sa, sb, ren),
        first <= a.len(),
        first <= b.len(),
        crate::passes::handler_specialize::shape::list_shape(p, a, first, sa) + ra
            == crate::passes::handler_specialize::shape::list_shape(p, b, first, sb) + rb,
    ensures
        forall|i: int| 0 <= i < first ==> alike_expr(p, #[trigger] a[i], b[i], ren),
        ra == rb,
    decreases first,
{
    let before = (first - 1) as nat;
    if first == 0 {
        assert(Seq::<TokenModel>::empty() + ra =~= ra);
        assert(Seq::<TokenModel>::empty() + rb =~= rb);
    } else {
        let la = crate::passes::handler_specialize::shape::list_shape(p, a, before, sa);
        let lb = crate::passes::handler_specialize::shape::list_shape(p, b, before, sb);
        let ia = crate::passes::handler_specialize::shape::expr_shape(p, a[first - 1], sa);
        let ib = crate::passes::handler_specialize::shape::expr_shape(p, b[first - 1], sb);
        assert(crate::passes::handler_specialize::shape::list_shape(p, a, first, sa) + ra =~= la
            + (ia + ra));
        assert(crate::passes::handler_specialize::shape::list_shape(p, b, first, sb) + rb =~= lb
            + (ib + rb));
        lemma_list_alike(p, a, b, before, sa, sb, ren, ia + ra, ib + rb);
        lemma_expr_alike(p, a[first - 1], b[first - 1], sa, sb, ren, ra, rb);
    }
}

proof fn lemma_binders_alike(
    a: Seq<VarId>,
    b: Seq<VarId>,
    first: nat,
    sa: Map<usize, usize>,
    sb: Map<usize, usize>,
    ren: Renaming,
)
    requires
        linked(sa, sb, ren),
        first <= a.len(),
        first <= b.len(),
        crate::passes::handler_specialize::shape::binder_tokens(sa, a, first)
            == crate::passes::handler_specialize::shape::binder_tokens(sb, b, first),
    ensures
        bind_all(ren, a, b, first) matches Some(more) && linked(
            crate::passes::handler_specialize::shape::bound_all(sa, a, first),
            crate::passes::handler_specialize::shape::bound_all(sb, b, first),
            more,
        ),
    decreases first,
{
    if first > 0 {
        let before = (first - 1) as nat;
        let xa = crate::passes::handler_specialize::shape::binder_tokens(sa, a, before);
        let xb = crate::passes::handler_specialize::shape::binder_tokens(sb, b, before);
        lemma_binder_count(sa, a, before);
        lemma_binder_count(sb, b, before);
        let ta = crate::passes::handler_specialize::shape::binder_tokens(sa, a, first);
        let tb = crate::passes::handler_specialize::shape::binder_tokens(sb, b, first);
        assert(xa =~= ta.drop_last());
        assert(xb =~= tb.drop_last());
        assert(ta.last() == tb.last());
        lemma_binders_alike(a, b, before, sa, sb, ren);
        lemma_bound(
            crate::passes::handler_specialize::shape::bound_all(sa, a, before),
            crate::passes::handler_specialize::shape::bound_all(sb, b, before),
            bind_all(ren, a, b, before)->0,
            a[first - 1],
            b[first - 1],
        );
    }
}

proof fn lemma_binder_count(scope: Map<usize, usize>, vars: Seq<VarId>, first: nat)
    requires
        first <= vars.len(),
    ensures
        crate::passes::handler_specialize::shape::binder_tokens(scope, vars, first).len() == first,
    decreases first,
{
    if first > 0 {
        lemma_binder_count(scope, vars, (first - 1) as nat);
    }
}

// ---------------------------------------------------------------------------
// Shapes of statements
// ---------------------------------------------------------------------------

/// The token that the shape of a statement starts with.
spec fn stmt_start(p: CoreModel, s: StmtId) -> TokenModel {
    TokenModel::Tag(
        if !p.has_stmt(s) {
            ShapeTag::StmtMissing
        } else {
            match p.stmt(s) {
                StmtModel::Return(_) => ShapeTag::StmtReturn,
                StmtModel::Let { .. } => ShapeTag::StmtLet,
                StmtModel::Val { .. } => ShapeTag::StmtVal,
                StmtModel::Call { .. } => ShapeTag::StmtCall,
                StmtModel::If { .. } => ShapeTag::StmtIf,
                StmtModel::Match { .. } => ShapeTag::StmtMatch,
                StmtModel::Perform { .. } => ShapeTag::StmtPerform,
                StmtModel::Resume { .. } => ShapeTag::StmtResume,
                StmtModel::Handle { .. } => ShapeTag::StmtHandle,
                StmtModel::Stage { .. } => ShapeTag::StmtStage,
                StmtModel::Hole { .. } => ShapeTag::StmtHole,
                StmtModel::Error(_) => ShapeTag::StmtError,
            }
        },
    )
}

#[verifier::spinoff_prover]
proof fn lemma_stmt_start(p: CoreModel, s: StmtId, scope: Map<usize, usize>)
    requires
        p.acyclic(),
    ensures
        crate::passes::handler_specialize::shape::stmt_shape(p, s, scope).tokens.len() > 0,
        crate::passes::handler_specialize::shape::stmt_shape(p, s, scope).tokens[0] == stmt_start(p, s),
{
}

#[verifier::spinoff_prover]
#[verifier::rlimit(60)]
proof fn lemma_let_alike(
    p: CoreModel,
    a: StmtId,
    b: StmtId,
    sa: Map<usize, usize>,
    sb: Map<usize, usize>,
    ren: Renaming,
    ra: Seq<TokenModel>,
    rb: Seq<TokenModel>,
)
    requires
        p.acyclic(),
        countable(p),
        linked(sa, sb, ren),
        p.has_stmt(a),
        p.has_stmt(b),
        p.stmt(a) is Let,
        p.stmt(b) is Let,
        crate::passes::handler_specialize::shape::stmt_shape(p, a, sa).tokens + ra
            == crate::passes::handler_specialize::shape::stmt_shape(p, b, sb).tokens + rb,
    ensures
        alike_stmt(p, a, b, ren) matches Some(more) && linked(
            crate::passes::handler_specialize::shape::stmt_shape(p, a, sa).scope,
            crate::passes::handler_specialize::shape::stmt_shape(p, b, sb).scope,
            more,
        ),
        ra == rb,
    decreases p.stmt_rank(a), 2nat, 0nat,
{
    crate::passes::linearize::analysis::lemma_stmt_ranks(p, a);
    let ta = crate::passes::handler_specialize::shape::stmt_shape(p, a, sa).tokens;
    let tb = crate::passes::handler_specialize::shape::stmt_shape(p, b, sb).tokens;
    let start = seq![stmt_start(p, a)];
    if let (
        StmtModel::Let { binding: x, value: v, next: n },
        StmtModel::Let { binding: y, value: w, next: m },
    ) = (p.stmt(a), p.stmt(b)) {
        let ia = crate::passes::handler_specialize::shape::bound(sa, x);
        let ib = crate::passes::handler_specialize::shape::bound(sb, y);
        let ha = start.push(TokenModel::BoundVar(ia[x.0]));
        let hb = start.push(TokenModel::BoundVar(ib[y.0]));
        let va = crate::passes::handler_specialize::shape::expr_shape(p, v, ia);
        let vb = crate::passes::handler_specialize::shape::expr_shape(p, w, ib);
        let na = crate::passes::handler_specialize::shape::stmt_shape(p, n, ia).tokens;
        let nb = crate::passes::handler_specialize::shape::stmt_shape(p, m, ib).tokens;
        assert(ta + ra =~= ha + (va + (na + ra)));
        assert(tb + rb =~= hb + (vb + (nb + rb)));
        lemma_split(ha, hb, va + (na + ra), vb + (nb + rb));
        assert(ha[1] == hb[1]);
        lemma_bound(sa, sb, ren, x, y);
        let more = bind_both(ren, x, y)->0;
        lemma_expr_alike(p, v, w, ia, ib, more, na + ra, nb + rb);
        lemma_stmt_alike(p, n, m, ia, ib, more, ra, rb);
    }
}

#[verifier::spinoff_prover]
#[verifier::rlimit(60)]
proof fn lemma_val_alike(
    p: CoreModel,
    a: StmtId,
    b: StmtId,
    sa: Map<usize, usize>,
    sb: Map<usize, usize>,
    ren: Renaming,
    ra: Seq<TokenModel>,
    rb: Seq<TokenModel>,
)
    requires
        p.acyclic(),
        countable(p),
        linked(sa, sb, ren),
        p.has_stmt(a),
        p.has_stmt(b),
        p.stmt(a) is Val,
        p.stmt(b) is Val,
        crate::passes::handler_specialize::shape::stmt_shape(p, a, sa).tokens + ra
            == crate::passes::handler_specialize::shape::stmt_shape(p, b, sb).tokens + rb,
    ensures
        alike_stmt(p, a, b, ren) matches Some(more) && linked(
            crate::passes::handler_specialize::shape::stmt_shape(p, a, sa).scope,
            crate::passes::handler_specialize::shape::stmt_shape(p, b, sb).scope,
            more,
        ),
        ra == rb,
    decreases p.stmt_rank(a), 2nat, 0nat,
{
    crate::passes::linearize::analysis::lemma_stmt_ranks(p, a);
    let ta = crate::passes::handler_specialize::shape::stmt_shape(p, a, sa).tokens;
    let tb = crate::passes::handler_specialize::shape::stmt_shape(p, b, sb).tokens;
    let start = seq![stmt_start(p, a)];
    if let (
        StmtModel::Val { binding: x, value: v, next: n },
        StmtModel::Val { binding: y, value: w, next: m },
    ) = (p.stmt(a), p.stmt(b)) {
        let ia = crate::passes::handler_specialize::shape::bound(sa, x);
        let ib = crate::passes::handler_specialize::shape::bound(sb, y);
        let ha = start.push(TokenModel::BoundVar(ia[x.0]));
        let hb = start.push(TokenModel::BoundVar(ib[y.0]));
        let va = crate::passes::handler_specialize::shape::stmt_shape(p, v, ia);
        let vb = crate::passes::handler_specialize::shape::stmt_shape(p, w, ib);
        let na = crate::passes::handler_specialize::shape::stmt_shape(p, n, va.scope).tokens;
        let nb = crate::passes::handler_specialize::shape::stmt_shape(p, m, vb.scope).tokens;
        assert(ta + ra =~= ha + (va.tokens + (na + ra)));
        assert(tb + rb =~= hb + (vb.tokens + (nb + rb)));
        lemma_split(ha, hb, va.tokens + (na + ra), vb.tokens + (nb + rb));
        assert(ha[1] == hb[1]);
        lemma_bound(sa, sb, ren, x, y);
        let more = bind_both(ren, x, y)->0;
        lemma_stmt_alike(p, v, w, ia, ib, more, na + ra, nb + rb);
        let after = alike_stmt(p, v, w, more)->0;
        lemma_stmt_alike(p, n, m, va.scope, vb.scope, after, ra, rb);
    }
}

#[verifier::spinoff_prover]
#[verifier::rlimit(60)]
proof fn lemma_call_alike(
    p: CoreModel,
    a: StmtId,
    b: StmtId,
    sa: Map<usize, usize>,
    sb: Map<usize, usize>,
    ren: Renaming,
    ra: Seq<TokenModel>,
    rb: Seq<TokenModel>,
)
    requires
        p.acyclic(),
        countable(p),
        linked(sa, sb, ren),
        p.has_stmt(a),
        p.has_stmt(b),
        p.stmt(a) is Call,
        p.stmt(b) is Call,
        crate::passes::handler_specialize::shape::stmt_shape(p, a, sa).tokens + ra
            == crate::passes::handler_specialize::shape::stmt_shape(p, b, sb).tokens + rb,
    ensures
        alike_stmt(p, a, b, ren) matches Some(more) && linked(
            crate::passes::handler_specialize::shape::stmt_shape(p, a, sa).scope,
            crate::passes::handler_specialize::shape::stmt_shape(p, b, sb).scope,
            more,
        ),
        ra == rb,
    decreases p.stmt_rank(a), 2nat, 0nat,
{
    crate::passes::linearize::analysis::lemma_stmt_ranks(p, a);
    let ta = crate::passes::handler_specialize::shape::stmt_shape(p, a, sa).tokens;
    let tb = crate::passes::handler_specialize::shape::stmt_shape(p, b, sb).tokens;
    let start = seq![stmt_start(p, a)];
    if let (
        StmtModel::Call { result: x, callee: f, args: v, effects: e, next: n },
        StmtModel::Call { result: y, callee: g, args: w, effects: h, next: m },
    ) = (p.stmt(a), p.stmt(b)) {
        let ia = crate::passes::handler_specialize::shape::bound(sa, x);
        let ib = crate::passes::handler_specialize::shape::bound(sb, y);
        let ha = seq![
            stmt_start(p, a),
            TokenModel::Func(f.0),
            TokenModel::BoundVar(ia[x.0]),
            TokenModel::Count(v.len() as usize),
        ];
        let hb = seq![
            stmt_start(p, b),
            TokenModel::Func(g.0),
            TokenModel::BoundVar(ib[y.0]),
            TokenModel::Count(w.len() as usize),
        ];
        let la = crate::passes::handler_specialize::shape::list_shape(p, v, v.len(), ia);
        let lb = crate::passes::handler_specialize::shape::list_shape(p, w, w.len(), ib);
        let ca = seq![TokenModel::Count(e.len() as usize)];
        let cb = seq![TokenModel::Count(h.len() as usize)];
        let ea = crate::passes::handler_specialize::shape::effect_tokens(e);
        let eb = crate::passes::handler_specialize::shape::effect_tokens(h);
        let na = crate::passes::handler_specialize::shape::stmt_shape(p, n, ia).tokens;
        let nb = crate::passes::handler_specialize::shape::stmt_shape(p, m, ib).tokens;
        assert(ta + ra =~= ha + (la + (ca + (ea + (na + ra)))));
        assert(tb + rb =~= hb + (lb + (cb + (eb + (nb + rb)))));
        lemma_split(ha, hb, la + (ca + (ea + (na + ra))), lb + (cb + (eb + (nb + rb))));
        assert(ha[1] == hb[1] && ha[2] == hb[2] && ha[3] == hb[3]);
        assert(v.len() == w.len());
        lemma_bound(sa, sb, ren, x, y);
        let more = bind_both(ren, x, y)->0;
        lemma_list_alike(
            p,
            v,
            w,
            v.len(),
            ia,
            ib,
            more,
            ca + (ea + (na + ra)),
            cb + (eb + (nb + rb)),
        );
        lemma_split(ca, cb, ea + (na + ra), eb + (nb + rb));
        assert(ca[0] == cb[0]);
        assert(e.len() == h.len());
        lemma_split(ea, eb, na + ra, nb + rb);
        assert forall|i: int| 0 <= i < e.len() implies e[i] == h[i] by {
            assert(ea[i] == eb[i]);
        }
        assert(e =~= h);
        lemma_stmt_alike(p, n, m, ia, ib, more, ra, rb);
    }
}

#[verifier::spinoff_prover]
#[verifier::rlimit(60)]
proof fn lemma_if_alike(
    p: CoreModel,
    a: StmtId,
    b: StmtId,
    sa: Map<usize, usize>,
    sb: Map<usize, usize>,
    ren: Renaming,
    ra: Seq<TokenModel>,
    rb: Seq<TokenModel>,
)
    requires
        p.acyclic(),
        countable(p),
        linked(sa, sb, ren),
        p.has_stmt(a),
        p.has_stmt(b),
        p.stmt(a) is If,
        p.stmt(b) is If,
        crate::passes::handler_specialize::shape::stmt_shape(p, a, sa).tokens + ra
            == crate::passes::handler_specialize::shape::stmt_shape(p, b, sb).tokens + rb,
    ensures
        alike_stmt(p, a, b, ren) matches Some(more) && linked(
            crate::passes::handler_specialize::shape::stmt_shape(p, a, sa).scope,
            crate::passes::handler_specialize::shape::stmt_shape(p, b, sb).scope,
            more,
        ),
        ra == rb,
    decreases p.stmt_rank(a), 2nat, 0nat,
{
    crate::passes::linearize::analysis::lemma_stmt_ranks(p, a);
    let ta = crate::passes::handler_specialize::shape::stmt_shape(p, a, sa).tokens;
    let tb = crate::passes::handler_specialize::shape::stmt_shape(p, b, sb).tokens;
    let start = seq![stmt_start(p, a)];
    if let (
        StmtModel::If { cond: v, then_branch: x, else_branch: n },
        StmtModel::If { cond: w, then_branch: y, else_branch: m },
    ) = (p.stmt(a), p.stmt(b)) {
        let va = crate::passes::handler_specialize::shape::expr_shape(p, v, sa);
        let vb = crate::passes::handler_specialize::shape::expr_shape(p, w, sb);
        let xa = crate::passes::handler_specialize::shape::stmt_shape(p, x, sa);
        let xb = crate::passes::handler_specialize::shape::stmt_shape(p, y, sb);
        let na = crate::passes::handler_specialize::shape::stmt_shape(p, n, xa.scope).tokens;
        let nb = crate::passes::handler_specialize::shape::stmt_shape(p, m, xb.scope).tokens;
        assert(ta + ra =~= start + (va + (xa.tokens + (na + ra))));
        assert(tb + rb =~= start + (vb + (xb.tokens + (nb + rb))));
        lemma_split(start, start, va + (xa.tokens + (na + ra)), vb + (xb.tokens + (nb + rb)));
        lemma_expr_alike(p, v, w, sa, sb, ren, xa.tokens + (na + ra), xb.tokens + (nb + rb));
        lemma_stmt_alike(p, x, y, sa, sb, ren, na + ra, nb + rb);
        let after = alike_stmt(p, x, y, ren)->0;
        lemma_stmt_alike(p, n, m, xa.scope, xb.scope, after, ra, rb);
    }
}

#[verifier::spinoff_prover]
#[verifier::rlimit(60)]
proof fn lemma_perform_alike(
    p: CoreModel,
    a: StmtId,
    b: StmtId,
    sa: Map<usize, usize>,
    sb: Map<usize, usize>,
    ren: Renaming,
    ra: Seq<TokenModel>,
    rb: Seq<TokenModel>,
)
    requires
        p.acyclic(),
        countable(p),
        linked(sa, sb, ren),
        p.has_stmt(a),
        p.has_stmt(b),
        p.stmt(a) is Perform,
        p.stmt(b) is Perform,
        crate::passes::handler_specialize::shape::stmt_shape(p, a, sa).tokens + ra
            == crate::passes::handler_specialize::shape::stmt_shape(p, b, sb).tokens + rb,
    ensures
        alike_stmt(p, a, b, ren) matches Some(more) && linked(
            crate::passes::handler_specialize::shape::stmt_shape(p, a, sa).scope,
            crate::passes::handler_specialize::shape::stmt_shape(p, b, sb).scope,
            more,
        ),
        ra == rb,
    decreases p.stmt_rank(a), 2nat, 0nat,
{
    crate::passes::linearize::analysis::lemma_stmt_ranks(p, a);
    let ta = crate::passes::handler_specialize::shape::stmt_shape(p, a, sa).tokens;
    let tb = crate::passes::handler_specialize::shape::stmt_shape(p, b, sb).tokens;
    let start = seq![stmt_start(p, a)];
    if let (
        StmtModel::Perform { result: x, effect: e, operation: f, args: v, next: n },
        StmtModel::Perform { result: y, effect: h, operation: g, args: w, next: m },
    ) = (p.stmt(a), p.stmt(b)) {
        let ia = crate::passes::handler_specialize::shape::bound_option(sa, x);
        let ib = crate::passes::handler_specialize::shape::bound_option(sb, y);
        let ha = seq![
            stmt_start(p, a),
            TokenModel::Effect(e.0),
            TokenModel::Symbol(f.0),
        ];
        let hb = seq![
            stmt_start(p, b),
            TokenModel::Effect(h.0),
            TokenModel::Symbol(g.0),
        ];
        let xa = crate::passes::handler_specialize::shape::result_tokens(sa, x);
        let xb = crate::passes::handler_specialize::shape::result_tokens(sb, y);
        let ca = seq![TokenModel::Count(v.len() as usize)];
        let cb = seq![TokenModel::Count(w.len() as usize)];
        let la = crate::passes::handler_specialize::shape::list_shape(p, v, v.len(), ia);
        let lb = crate::passes::handler_specialize::shape::list_shape(p, w, w.len(), ib);
        let na = crate::passes::handler_specialize::shape::stmt_shape(p, n, ia).tokens;
        let nb = crate::passes::handler_specialize::shape::stmt_shape(p, m, ib).tokens;
        let za = ca + (la + (na + ra));
        let zb = cb + (lb + (nb + rb));
        assert(ta + ra =~= ha + (xa + za));
        assert(tb + rb =~= hb + (xb + zb));
        lemma_split(ha, hb, xa + za, xb + zb);
        assert(ha[1] == hb[1] && ha[2] == hb[2]);
        lemma_first(xa, xb, za, zb);
        lemma_split(xa, xb, za, zb);
        if x is Some {
            assert(xa[1] == xb[1]);
            lemma_bound(sa, sb, ren, x->0, y->0);
        }
        let more = bind_options(ren, x, y)->0;
        lemma_split(ca, cb, la + (na + ra), lb + (nb + rb));
        assert(ca[0] == cb[0]);
        assert(v.len() == w.len());
        lemma_list_alike(p, v, w, v.len(), ia, ib, more, na + ra, nb + rb);
        lemma_stmt_alike(p, n, m, ia, ib, more, ra, rb);
    }
}

#[verifier::spinoff_prover]
#[verifier::rlimit(60)]
proof fn lemma_resume_alike(
    p: CoreModel,
    a: StmtId,
    b: StmtId,
    sa: Map<usize, usize>,
    sb: Map<usize, usize>,
    ren: Renaming,
    ra: Seq<TokenModel>,
    rb: Seq<TokenModel>,
)
    requires
        p.acyclic(),
        countable(p),
        linked(sa, sb, ren),
        p.has_stmt(a),
        p.has_stmt(b),
        p.stmt(a) is Resume,
        p.stmt(b) is Resume,
        crate::passes::handler_specialize::shape::stmt_shape(p, a, sa).tokens + ra
            == crate::passes::handler_specialize::shape::stmt_shape(p, b, sb).tokens + rb,
    ensures
        alike_stmt(p, a, b, ren) matches Some(more) && linked(
            crate::passes::handler_specialize::shape::stmt_shape(p, a, sa).scope,
            crate::passes::handler_specialize::shape::stmt_shape(p, b, sb).scope,
            more,
        ),
        ra == rb,
    decreases p.stmt_rank(a), 2nat, 0nat,
{
    crate::passes::linearize::analysis::lemma_stmt_ranks(p, a);
    let ta = crate::passes::handler_specialize::shape::stmt_shape(p, a, sa).tokens;
    let tb = crate::passes::handler_specialize::shape::stmt_shape(p, b, sb).tokens;
    let start = seq![stmt_start(p, a)];
    if let (
        StmtModel::Resume { result: x, resume: f, arg: v, next: n },
        StmtModel::Resume { result: y, resume: g, arg: w, next: m },
    ) = (p.stmt(a), p.stmt(b)) {
        let ia = crate::passes::handler_specialize::shape::bound(sa, x);
        let ib = crate::passes::handler_specialize::shape::bound(sb, y);
        let ha = seq![
            stmt_start(p, a),
            TokenModel::BoundVar(ia[x.0]),
            TokenModel::FreeVar(f.0),
        ];
        let hb = seq![
            stmt_start(p, b),
            TokenModel::BoundVar(ib[y.0]),
            TokenModel::FreeVar(g.0),
        ];
        let va = crate::passes::handler_specialize::shape::expr_shape(p, v, ia);
        let vb = crate::passes::handler_specialize::shape::expr_shape(p, w, ib);
        let na = crate::passes::handler_specialize::shape::stmt_shape(p, n, ia).tokens;
        let nb = crate::passes::handler_specialize::shape::stmt_shape(p, m, ib).tokens;
        assert(ta + ra =~= ha + (va + (na + ra)));
        assert(tb + rb =~= hb + (vb + (nb + rb)));
        lemma_split(ha, hb, va + (na + ra), vb + (nb + rb));
        assert(ha[1] == hb[1] && ha[2] == hb[2]);
        lemma_bound(sa, sb, ren, x, y);
        let more = bind_both(ren, x, y)->0;
        lemma_expr_alike(p, v, w, ia, ib, more, na + ra, nb + rb);
        lemma_stmt_alike(p, n, m, ia, ib, more, ra, rb);
    }
}

#[verifier::spinoff_prover]
#[verifier::rlimit(60)]
proof fn lemma_handle_alike(
    p: CoreModel,
    a: StmtId,
    b: StmtId,
    sa: Map<usize, usize>,
    sb: Map<usize, usize>,
    ren: Renaming,
    ra: Seq<TokenModel>,
    rb: Seq<TokenModel>,
)
    requires
        p.acyclic(),
        countable(p),
        linked(sa, sb, ren),
        p.has_stmt(a),
        p.has_stmt(b),
        p.stmt(a) is Handle,
        p.stmt(b) is Handle,
        crate::passes::handler_specialize::shape::stmt_shape(p, a, sa).tokens + ra
            == crate::passes::handler_specialize::shape::stmt_shape(p, b, sb).tokens + rb,
    ensures
        alike_stmt(p, a, b, ren) matches Some(more) && linked(
            crate::passes::handler_specialize::shape::stmt_shape(p, a, sa).scope,
            crate::passes::handler_specialize::shape::stmt_shape(p, b, sb).scope,
            more,
        ),
        ra == rb,
    decreases p.stmt_rank(a), 2nat, 0nat,
{
    crate::passes::linearize::analysis::lemma_stmt_ranks(p, a);
    let ta = crate::passes::handler_specialize::shape::stmt_shape(p, a, sa).tokens;
    let tb = crate::passes::handler_specialize::shape::stmt_shape(p, b, sb).tokens;
    let start = seq![stmt_start(p, a)];
    if let (
        StmtModel::Handle { handler: f, body: x, next: n },
        StmtModel::Handle { handler: g, body: y, next: m },
    ) = (p.stmt(a), p.stmt(b)) {
        let ha = start.push(TokenModel::Handler(f.0));
        let hb = start.push(TokenModel::Handler(g.0));
        let xa = crate::passes::handler_specialize::shape::stmt_shape(p, x, sa);
        let xb = crate::passes::handler_specialize::shape::stmt_shape(p, y, sb);
        let na = next_tokens(p, n, xa.scope);
        let nb = next_tokens(p, m, xb.scope);
        assert(ta + ra =~= ha + (xa.tokens + (na + ra)));
        assert(tb + rb =~= hb + (xb.tokens + (nb + rb)));
        lemma_split(ha, hb, xa.tokens + (na + ra), xb.tokens + (nb + rb));
        assert(ha[1] == hb[1]);
        lemma_stmt_alike(p, x, y, sa, sb, ren, na + ra, nb + rb);
        let after = alike_stmt(p, x, y, ren)->0;
        lemma_next_alike(p, a, n, m, xa.scope, xb.scope, after, ra, rb);
    }
}

#[verifier::spinoff_prover]
#[verifier::rlimit(60)]
proof fn lemma_stage_alike(
    p: CoreModel,
    a: StmtId,
    b: StmtId,
    sa: Map<usize, usize>,
    sb: Map<usize, usize>,
    ren: Renaming,
    ra: Seq<TokenModel>,
    rb: Seq<TokenModel>,
)
    requires
        p.acyclic(),
        countable(p),
        linked(sa, sb, ren),
        p.has_stmt(a),
        p.has_stmt(b),
        p.stmt(a) is Stage,
        p.stmt(b) is Stage,
        crate::passes::handler_specialize::shape::stmt_shape(p, a, sa).tokens + ra
            == crate::passes::handler_specialize::shape::stmt_shape(p, b, sb).tokens + rb,
    ensures
        alike_stmt(p, a, b, ren) matches Some(more) && linked(
            crate::passes::handler_specialize::shape::stmt_shape(p, a, sa).scope,
            crate::passes::handler_specialize::shape::stmt_shape(p, b, sb).scope,
            more,
        ),
        ra == rb,
    decreases p.stmt_rank(a), 2nat, 0nat,
{
    crate::passes::linearize::analysis::lemma_stmt_ranks(p, a);
    let ta = crate::passes::handler_specialize::shape::stmt_shape(p, a, sa).tokens;
    let tb = crate::passes::handler_specialize::shape::stmt_shape(p, b, sb).tokens;
    let start = seq![stmt_start(p, a)];
    if let (
        StmtModel::Stage { stage: f, body: x, next: n },
        StmtModel::Stage { stage: g, body: y, next: m },
    ) = (p.stmt(a), p.stmt(b)) {
        let ha = start.push(
            TokenModel::Tag(crate::passes::handler_specialize::shape::stage_tag(f)),
        );
        let hb = start.push(
            TokenModel::Tag(crate::passes::handler_specialize::shape::stage_tag(g)),
        );
        let xa = crate::passes::handler_specialize::shape::stmt_shape(p, x, sa);
        let xb = crate::passes::handler_specialize::shape::stmt_shape(p, y, sb);
        let na = next_tokens(p, n, xa.scope);
        let nb = next_tokens(p, m, xb.scope);
        assert(ta + ra =~= ha + (xa.tokens + (na + ra)));
        assert(tb + rb =~= hb + (xb.tokens + (nb + rb)));
        lemma_split(ha, hb, xa.tokens + (na + ra), xb.tokens + (nb + rb));
        assert(ha[1] == hb[1]);
        lemma_stmt_alike(p, x, y, sa, sb, ren, na + ra, nb + rb);
        let after = alike_stmt(p, x, y, ren)->0;
        lemma_next_alike(p, a, n, m, xa.scope, xb.scope, after, ra, rb);
    }
}

#[verifier::spinoff_prover]
#[verifier::rlimit(60)]
proof fn lemma_match_alike(
    p: CoreModel,
    a: StmtId,
    b: StmtId,
    sa: Map<usize, usize>,
    sb: Map<usize, usize>,
    ren: Renaming,
    ra: Seq<TokenModel>,
    rb: Seq<TokenModel>,
)
    requires
        p.acyclic(),
        countable(p),
        linked(sa, sb, ren),
        p.has_stmt(a),
        p.has_stmt(b),
        p.stmt(a) is Match,
        p.stmt(b) is Match,
        crate::passes::handler_specialize::shape::stmt_shape(p, a, sa).tokens + ra
            == crate::passes::handler_specialize::shape::stmt_shape(p, b, sb).tokens + rb,
    ensures
        alike_stmt(p, a, b, ren) matches Some(more) && linked(
            crate::passes::handler_specialize::shape::stmt_shape(p, a, sa).scope,
            crate::passes::handler_specialize::shape::stmt_shape(p, b, sb).scope,
            more,
        ),
        ra == rb,
    decreases p.stmt_rank(a), 2nat, 0nat,
{
    crate::passes::linearize::analysis::lemma_stmt_ranks(p, a);
    let ta = crate::passes::handler_specialize::shape::stmt_shape(p, a, sa).tokens;
    let tb = crate::passes::handler_specialize::shape::stmt_shape(p, b, sb).tokens;
    let start = seq![stmt_start(p, a)];
    if let (
        StmtModel::Match { scrutinee: v, arms: x, default: n },
        StmtModel::Match { scrutinee: w, arms: y, default: m },
    ) = (p.stmt(a), p.stmt(b)) {
        let va = crate::passes::handler_specialize::shape::expr_shape(p, v, sa);
        let vb = crate::passes::handler_specialize::shape::expr_shape(p, w, sb);
        let ca = seq![TokenModel::Count(x.len() as usize)];
        let cb = seq![TokenModel::Count(y.len() as usize)];
        let xa = crate::passes::handler_specialize::shape::arms_shape(p, a, x.len(), sa);
        let xb = crate::passes::handler_specialize::shape::arms_shape(p, b, y.len(), sb);
        let na = next_tokens(p, n, sa);
        let nb = next_tokens(p, m, sb);
        let za = ca + (xa + (na + ra));
        let zb = cb + (xb + (nb + rb));
        assert(ta + ra =~= start + (va + za));
        assert(tb + rb =~= start + (vb + zb));
        lemma_split(start, start, va + za, vb + zb);
        lemma_expr_alike(p, v, w, sa, sb, ren, za, zb);
        lemma_split(ca, cb, xa + (na + ra), xb + (nb + rb));
        assert(ca[0] == cb[0]);
        assert(x.len() == y.len());
        lemma_arms_alike(p, a, b, x.len(), sa, sb, ren, na + ra, nb + rb);
        lemma_next_alike(p, a, n, m, sa, sb, ren, ra, rb);
    }
}

/// The tokens for a statement that may be there.
spec fn next_tokens(p: CoreModel, s: Option<StmtId>, scope: Map<usize, usize>) -> Seq<TokenModel> {
    match s {
        Some(s) => seq![TokenModel::Tag(
            ShapeTag::OptionalStmtSome,
        )] + crate::passes::handler_specialize::shape::stmt_shape(p, s, scope).tokens,
        None => seq![TokenModel::Tag(ShapeTag::OptionalStmtNone)],
    }
}

proof fn lemma_next_alike(
    p: CoreModel,
    owner: StmtId,
    a: Option<StmtId>,
    b: Option<StmtId>,
    sa: Map<usize, usize>,
    sb: Map<usize, usize>,
    ren: Renaming,
    ra: Seq<TokenModel>,
    rb: Seq<TokenModel>,
)
    requires
        p.acyclic(),
        countable(p),
        linked(sa, sb, ren),
        a matches Some(a) ==> p.stmt_rank(a) < p.stmt_rank(owner),
        next_tokens(p, a, sa) + ra == next_tokens(p, b, sb) + rb,
    ensures
        a is Some <==> b is Some,
        a matches Some(x) ==> (alike_stmt(p, x, b->0, ren) matches Some(more) && linked(
            crate::passes::handler_specialize::shape::stmt_shape(p, x, sa).scope,
            crate::passes::handler_specialize::shape::stmt_shape(p, b->0, sb).scope,
            more,
        )),
        ra == rb,
    decreases p.stmt_rank(owner), 1nat, 0nat,
{
    let ta = next_tokens(p, a, sa);
    let tb = next_tokens(p, b, sb);
    lemma_first(ta, tb, ra, rb);
    match (a, b) {
        (Some(x), Some(y)) => {
            let head = seq![TokenModel::Tag(ShapeTag::OptionalStmtSome)];
            let xa = crate::passes::handler_specialize::shape::stmt_shape(p, x, sa).tokens;
            let xb = crate::passes::handler_specialize::shape::stmt_shape(p, y, sb).tokens;
            assert(ta + ra =~= head + (xa + ra));
            assert(tb + rb =~= head + (xb + rb));
            lemma_split(head, head, xa + ra, xb + rb);
            lemma_stmt_alike(p, x, y, sa, sb, ren, ra, rb);
        },
        (None, None) => {
            lemma_split(ta, tb, ra, rb);
        },
        _ => {
            assert(false);
        },
    }
}

#[verifier::spinoff_prover]
proof fn lemma_arms_alike(
    p: CoreModel,
    a: StmtId,
    b: StmtId,
    first: nat,
    sa: Map<usize, usize>,
    sb: Map<usize, usize>,
    ren: Renaming,
    ra: Seq<TokenModel>,
    rb: Seq<TokenModel>,
)
    requires
        p.acyclic(),
        countable(p),
        linked(sa, sb, ren),
        p.has_stmt(a),
        p.has_stmt(b),
        p.stmt(a) is Match,
        p.stmt(b) is Match,
        first <= p.stmt(a)->arms.len(),
        first <= p.stmt(b)->arms.len(),
        crate::passes::handler_specialize::shape::arms_shape(p, a, first, sa) + ra
            == crate::passes::handler_specialize::shape::arms_shape(p, b, first, sb) + rb,
    ensures
        alike_arms(p, a, b, first, ren),
        ra == rb,
    decreases p.stmt_rank(a), 0nat, first,
{
    if first == 0 {
        assert(Seq::<TokenModel>::empty() + ra =~= ra);
        assert(Seq::<TokenModel>::empty() + rb =~= rb);
    } else {
        let before = (first - 1) as nat;
        crate::ir::core_ir::lemma_arm_is_part(p.stmt(a), first - 1);
        crate::passes::linearize::analysis::lemma_stmt_ranks(p, a);
        let x = p.stmt(a)->arms[first - 1];
        let y = p.stmt(b)->arms[first - 1];
        let la = crate::passes::handler_specialize::shape::arms_shape(p, a, before, sa);
        let lb = crate::passes::handler_specialize::shape::arms_shape(p, b, before, sb);
        let ha = seq![
            TokenModel::Tag(ShapeTag::MatchArm),
            TokenModel::Symbol(x.tag.0),
            TokenModel::Count(x.binders.len() as usize),
        ];
        let hb = seq![
            TokenModel::Tag(ShapeTag::MatchArm),
            TokenModel::Symbol(y.tag.0),
            TokenModel::Count(y.binders.len() as usize),
        ];
        let va = crate::passes::handler_specialize::shape::binder_tokens(
            sa,
            x.binders,
            x.binders.len(),
        );
        let vb = crate::passes::handler_specialize::shape::binder_tokens(
            sb,
            y.binders,
            y.binders.len(),
        );
        let ia = crate::passes::handler_specialize::shape::bound_all(
            sa,
            x.binders,
            x.binders.len(),
        );
        let ib = crate::passes::handler_specialize::shape::bound_all(
            sb,
            y.binders,
            y.binders.len(),
        );
        let na = crate::passes::handler_specialize::shape::stmt_shape(p, x.body, ia).tokens;
        let nb = crate::passes::handler_specialize::shape::stmt_shape(p, y.body, ib).tokens;
        let za = ha + (va + (na + ra));
        let zb = hb + (vb + (nb + rb));
        assert(crate::passes::handler_specialize::shape::arms_shape(
            p,
            a,
            first,
            sa,
        ) + ra =~= la + za);
        assert(crate::passes::handler_specialize::shape::arms_shape(
            p,
            b,
            first,
            sb,
        ) + rb =~= lb + zb);
        lemma_arms_alike(p, a, b, before, sa, sb, ren, za, zb);
        lemma_split(ha, hb, va + (na + ra), vb + (nb + rb));
        assert(ha[1] == hb[1] && ha[2] == hb[2]);
        assert(x.binders.len() == y.binders.len());
        lemma_binder_count(sa, x.binders, x.binders.len());
        lemma_binder_count(sb, y.binders, y.binders.len());
        lemma_split(va, vb, na + ra, nb + rb);
        lemma_binders_alike(x.binders, y.binders, x.binders.len(), sa, sb, ren);
        let more = bind_all(ren, x.binders, y.binders, x.binders.len())->0;
        lemma_stmt_alike(p, x.body, y.body, ia, ib, more, ra, rb);
    }
}

/// Shapes of statements, with more tokens behind them, are equal only if the
/// statements are alike and the further tokens equal.
#[verifier::spinoff_prover]
#[verifier::rlimit(60)]
proof fn lemma_stmt_alike(
    p: CoreModel,
    a: StmtId,
    b: StmtId,
    sa: Map<usize, usize>,
    sb: Map<usize, usize>,
    ren: Renaming,
    ra: Seq<TokenModel>,
    rb: Seq<TokenModel>,
)
    requires
        p.acyclic(),
        countable(p),
        linked(sa, sb, ren),
        crate::passes::handler_specialize::shape::stmt_shape(p, a, sa).tokens + ra
            == crate::passes::handler_specialize::shape::stmt_shape(p, b, sb).tokens + rb,
    ensures
        alike_stmt(p, a, b, ren) matches Some(more) && linked(
            crate::passes::handler_specialize::shape::stmt_shape(p, a, sa).scope,
            crate::passes::handler_specialize::shape::stmt_shape(p, b, sb).scope,
            more,
        ),
        ra == rb,
    decreases p.stmt_rank(a), 3nat, 0nat,
{
    crate::passes::linearize::analysis::lemma_stmt_ranks(p, a);
    let ta = crate::passes::handler_specialize::shape::stmt_shape(p, a, sa).tokens;
    let tb = crate::passes::handler_specialize::shape::stmt_shape(p, b, sb).tokens;
    let start = seq![stmt_start(p, a)];
    lemma_stmt_start(p, a, sa);
    lemma_stmt_start(p, b, sb);
    lemma_first(ta, tb, ra, rb);
    if p.has_stmt(a) && p.has_stmt(b) {
        match (p.stmt(a), p.stmt(b)) {
            (StmtModel::Return(x), StmtModel::Return(y)) => {
                let xa = crate::passes::handler_specialize::shape::expr_shape(p, x, sa);
                let xb = crate::passes::handler_specialize::shape::expr_shape(p, y, sb);
                assert(ta + ra =~= start + (xa + ra));
                assert(tb + rb =~= start + (xb + rb));
                lemma_split(start, start, xa + ra, xb + rb);
                lemma_expr_alike(p, x, y, sa, sb, ren, ra, rb);
            },
            (StmtModel::Let { .. }, StmtModel::Let { .. }) => lemma_let_alike(
                p,
                a,
                b,
                sa,
                sb,
                ren,
                ra,
                rb,
            ),
            (StmtModel::Val { .. }, StmtModel::Val { .. }) => lemma_val_alike(
                p,
                a,
                b,
                sa,
                sb,
                ren,
                ra,
                rb,
            ),
            (StmtModel::Call { .. }, StmtModel::Call { .. }) => lemma_call_alike(
                p,
                a,
                b,
                sa,
                sb,
                ren,
                ra,
                rb,
            ),
            (StmtModel::If { .. }, StmtModel::If { .. }) => lemma_if_alike(
                p,
                a,
                b,
                sa,
                sb,
                ren,
                ra,
                rb,
            ),
            (StmtModel::Match { .. }, StmtModel::Match { .. }) => lemma_match_alike(
                p,
                a,
                b,
                sa,
                sb,
                ren,
                ra,
                rb,
            ),
            (StmtModel::Perform { .. }, StmtModel::Perform { .. }) => lemma_perform_alike(
                p,
                a,
                b,
                sa,
                sb,
                ren,
                ra,
                rb,
            ),
            (StmtModel::Resume { .. }, StmtModel::Resume { .. }) => lemma_resume_alike(
                p,
                a,
                b,
                sa,
                sb,
                ren,
                ra,
                rb,
            ),
            (StmtModel::Handle { .. }, StmtModel::Handle { .. }) => lemma_handle_alike(
                p,
                a,
                b,
                sa,
                sb,
                ren,
                ra,
                rb,
            ),
            (StmtModel::Stage { .. }, StmtModel::Stage { .. }) => lemma_stage_alike(
                p,
                a,
                b,
                sa,
                sb,
                ren,
                ra,
                rb,
            ),
            (StmtModel::Hole { ty: x }, StmtModel::Hole { ty: y }) => {
                lemma_split(ta, tb, ra, rb);
                assert(ta[1] == tb[1]);
            },
            (StmtModel::Error(_), StmtModel::Error(_)) => {
                lemma_split(ta, tb, ra, rb);
            },
            _ => {
                assert(false);
            },
        }
    } else {
        lemma_split(ta, tb, ra, rb);
    }
}

// ---------------------------------------------------------------------------
// Shapes of handlers
// ---------------------------------------------------------------------------

/// The parameters of a clause, and its resumption, are all different.
pub open spec fn clause_distinct(clause: ClauseModel) -> bool {
    &&& clause.params.no_duplicates()
    &&& clause.params.len() <= usize::MAX
    &&& clause.resume_param matches Some(resume) ==> !clause.params.contains(resume)
}

/// Different variables are numbered one after the other.
proof fn lemma_numbered(vars: Seq<VarId>, first: nat)
    requires
        vars.no_duplicates(),
        first <= vars.len() <= usize::MAX,
    ensures
        ({
            let scope = crate::passes::handler_specialize::shape::bound_all(
                Map::empty(),
                vars,
                first,
            );
            &&& scope.dom().finite()
            &&& scope.dom().len() == first
            &&& forall|x: usize| #[trigger]
                scope.contains_key(x) ==> scope[x] < first && vars[scope[x] as int] == VarId(x)
            &&& forall|i: int| 0 <= i < first ==> scope.contains_key((#[trigger] vars[i]).0)
        }),
    decreases first,
{
    if first > 0 {
        lemma_numbered(vars, (first - 1) as nat);
        let before = crate::passes::handler_specialize::shape::bound_all(
            Map::empty(),
            vars,
            (first - 1) as nat,
        );
        let var = vars[first - 1];
        if before.contains_key(var.0) {
            assert(vars[before[var.0] as int] == var);
            assert(false);
        }
        let scope = crate::passes::handler_specialize::shape::bound_all(Map::empty(), vars, first);
        assert(scope.dom() =~= before.dom().insert(var.0));
        assert forall|x: usize| #[trigger] scope.contains_key(x) implies scope[x] < first
            && vars[scope[x] as int] == VarId(x) by {
            if x != var.0 {
                assert(before.contains_key(x));
            }
        }
    } else {
        assert(crate::passes::handler_specialize::shape::bound_all(
            Map::empty(),
            vars,
            0,
        ).dom() =~= Set::empty());
    }
}

proof fn lemma_params_linked(a: Seq<VarId>, b: Seq<VarId>, first: nat)
    requires
        a.no_duplicates(),
        b.no_duplicates(),
        first <= a.len() <= usize::MAX,
        first <= b.len() <= usize::MAX,
    ensures
        bind_all(Map::empty(), a, b, first) matches Some(ren) && linked(
            crate::passes::handler_specialize::shape::bound_all(Map::empty(), a, first),
            crate::passes::handler_specialize::shape::bound_all(Map::empty(), b, first),
            ren,
        ),
    decreases first,
{
    if first > 0 {
        let before = (first - 1) as nat;
        lemma_params_linked(a, b, before);
        let sa = crate::passes::handler_specialize::shape::bound_all(Map::empty(), a, before);
        let sb = crate::passes::handler_specialize::shape::bound_all(Map::empty(), b, before);
        lemma_numbered(a, before);
        lemma_numbered(b, before);
        if sa.contains_key(a[first - 1].0) {
            assert(a[sa[a[first - 1].0] as int] == a[first - 1]);
        }
        if sb.contains_key(b[first - 1].0) {
            assert(b[sb[b[first - 1].0] as int] == b[first - 1]);
        }
        lemma_bound(
            sa,
            sb,
            bind_all(Map::empty(), a, b, before)->0,
            a[first - 1],
            b[first - 1],
        );
    } else {
        assert(crate::passes::handler_specialize::shape::bound_all(
            Map::empty(),
            a,
            0,
        ).dom() =~= Set::empty());
        assert(crate::passes::handler_specialize::shape::bound_all(
            Map::empty(),
            b,
            0,
        ).dom() =~= Set::empty());
    }
}

proof fn lemma_clause_alike(p: CoreModel, a: ClauseModel, b: ClauseModel)
    requires
        p.acyclic(),
        countable(p),
        clause_distinct(a),
        clause_distinct(b),
        crate::passes::handler_specialize::shape::clause_shape(p, a)
            == crate::passes::handler_specialize::shape::clause_shape(p, b),
    ensures
        alike_clauses(p, a, b),
{
    let n = a.params.len();
    assert(n == b.params.len());
    lemma_params_linked(a.params, b.params, n);
    let sa = crate::passes::handler_specialize::shape::bound_all(Map::empty(), a.params, n);
    let sb = crate::passes::handler_specialize::shape::bound_all(Map::empty(), b.params, n);
    let ren = bind_all(Map::empty(), a.params, b.params, n)->0;
    lemma_numbered(a.params, n);
    lemma_numbered(b.params, n);
    if a.resume_param is Some {
        let x = a.resume_param->0;
        let y = b.resume_param->0;
        if sa.contains_key(x.0) {
            assert(a.params[sa[x.0] as int] == x);
        }
        if sb.contains_key(y.0) {
            assert(b.params[sb[y.0] as int] == y);
        }
        lemma_bound(sa, sb, ren, x, y);
    }
    let more = bind_options(ren, a.resume_param, b.resume_param)->0;
    let ia = crate::passes::handler_specialize::shape::bound_option(sa, a.resume_param);
    let ib = crate::passes::handler_specialize::shape::bound_option(sb, b.resume_param);
    lemma_stmt_alike(p, a.body, b.body, ia, ib, more, Seq::empty(), Seq::empty());
}

/// Two handlers have one shape only if they are one handler, but for the names
/// of variables: the same effect, the same operations, and bodies with the same
/// statements, operators, callees and literals.
pub proof fn lemma_one_shape_one_handler(p: CoreModel, a: HandlerModel, b: HandlerModel)
    requires
        p.acyclic(),
        countable(p),
        forall|i: int| 0 <= i < a.clauses.len() ==> clause_distinct(#[trigger] a.clauses[i]),
        forall|i: int| 0 <= i < b.clauses.len() ==> clause_distinct(#[trigger] b.clauses[i]),
        crate::passes::handler_specialize::shape::handler_shape(p, a)
            == crate::passes::handler_specialize::shape::handler_shape(p, b),
    ensures
        alike_handlers(p, a, b),
{
    let sa = crate::passes::handler_specialize::shape::handler_shape(p, a);
    let sb = crate::passes::handler_specialize::shape::handler_shape(p, b);
    let none = Map::<usize, usize>::empty();
    assert(none.dom() =~= Set::empty());
    assert(linked(none, none, none));
    lemma_bound(none, none, none, a.return_param, b.return_param);
    let ren = bind_both(none, a.return_param, b.return_param)->0;
    lemma_stmt_alike(
        p,
        a.return_body,
        b.return_body,
        crate::passes::handler_specialize::shape::bound(none, a.return_param),
        crate::passes::handler_specialize::shape::bound(none, b.return_param),
        ren,
        Seq::empty(),
        Seq::empty(),
    );
    assert(sa.clauses.len() == sb.clauses.len());
    assert forall|i: int| 0 <= i < a.clauses.len() implies alike_clauses(
        p,
        #[trigger] a.clauses[i],
        b.clauses[i],
    ) by {
        assert(sa.clauses[i] == sb.clauses[i]);
        lemma_clause_alike(p, a.clauses[i], b.clauses[i]);
    }
}

} // verus!
