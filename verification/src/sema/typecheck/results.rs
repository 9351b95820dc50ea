//! The expressions that a statement may return.
use crate::common::ids::{ExprId, StmtId};
use crate::ir::core_ir::{copy_exprs, CoreModel, CoreProgram, StmtKind, StmtModel};
use vstd::prelude::*;

verus! {

/// A list with those of the first items of another appended that it does not
/// hold yet.
pub open spec fn merged(list: Seq<ExprId>, more: Seq<ExprId>, first: nat) -> Seq<ExprId>
    decreases first,
{
    if first == 0 {
        list
    } else {
        let rest = merged(list, more, (first - 1) as nat);
        if rest.contains(more[first - 1]) {
            rest
        } else {
            rest.push(more[first - 1])
        }
    }
}

/// The expressions whose value a statement may return, each once, in the order
/// of the text.
pub open spec fn results(p: CoreModel, s: StmtId) -> Seq<ExprId>
    decreases p.stmt_rank(s), 1nat, 0nat,
    when p.acyclic()
{
    proof {
        crate::passes::linearize::analysis::lemma_stmt_ranks(p, s);
    }
    if p.has_stmt(s) {
        match p.stmt(s) {
            StmtModel::Return(expr) => seq![expr],
            StmtModel::Let { next, .. } => results(p, next),
            StmtModel::Val { next, .. } => results(p, next),
            StmtModel::Call { next, .. } => results(p, next),
            StmtModel::Perform { next, .. } => results(p, next),
            StmtModel::Resume { next, .. } => results(p, next),
            StmtModel::If { then_branch, else_branch, .. } => merged(
                results(p, then_branch),
                results(p, else_branch),
                results(p, else_branch).len(),
            ),
            StmtModel::Match { arms, default, .. } => {
                let from_arms = arms_return(p, s, arms.len());
                match default {
                    Some(default) => merged(from_arms, results(p, default), results(p, default).len()),
                    None => from_arms,
                }
            },
            StmtModel::Handle { body, next, .. } => match next {
                Some(next) => results(p, next),
                None => results(p, body),
            },
            StmtModel::Stage { body, next, .. } => match next {
                Some(next) => results(p, next),
                None => results(p, body),
            },
            StmtModel::Hole { .. } => Seq::empty(),
            StmtModel::Error(_) => Seq::empty(),
        }
    } else {
        Seq::empty()
    }
}

/// What the first arms of a match may return.
pub open spec fn arms_return(p: CoreModel, s: StmtId, first: nat) -> Seq<ExprId>
    decreases p.stmt_rank(s), 0nat, first,
    when p.acyclic()
{
    if first > 0 && p.has_stmt(s) && p.stmt(s) is Match && first <= p.stmt(s)->arms.len() {
        proof {
            crate::passes::linearize::analysis::lemma_stmt_ranks(p, s);
            crate::ir::core_ir::lemma_arm_is_part(p.stmt(s), first - 1);
        }
        let body = p.stmt(s)->arms[first - 1].body;
        merged(arms_return(p, s, (first - 1) as nat), results(p, body), results(p, body).len())
    } else {
        Seq::empty()
    }
}

proof fn lemma_merged(list: Seq<ExprId>, more: Seq<ExprId>, first: nat)
    requires
        first <= more.len(),
    ensures
        forall|e: ExprId| #[trigger]
            merged(list, more, first).contains(e) <==> (list.contains(e) || more.take(
                first as int,
            ).contains(e)),
        list.no_duplicates() ==> merged(list, more, first).no_duplicates(),
    decreases first,
{
    if first > 0 {
        lemma_merged(list, more, (first - 1) as nat);
        let rest = merged(list, more, (first - 1) as nat);
        crate::common::reach::lemma_pushed(rest, more[first - 1]);
        crate::common::reach::lemma_pushed(more.take(first - 1), more[first - 1]);
        assert(more.take(first as int) =~= more.take(first - 1).push(more[first - 1]));
    } else {
        assert(more.take(0) =~= Seq::empty());
    }
}

/// No expression is listed twice, and each exists.
pub proof fn lemma_returns(p: CoreModel, s: StmtId)
    requires
        p.acyclic(),
        p.closed(),
    ensures
        results(p, s).no_duplicates(),
        forall|e: ExprId| #[trigger] results(p, s).contains(e) ==> p.has_expr(e),
    decreases p.stmt_rank(s), 1nat, 0nat,
{
    crate::passes::linearize::analysis::lemma_stmt_ranks(p, s);
    if p.has_stmt(s) {
        match p.stmt(s) {
            StmtModel::Return(expr) => {
                assert(p.stmt(s).has_expr(expr));
            },
            StmtModel::Let { next, .. } => {
                lemma_returns(p, next);
            },
            StmtModel::Val { next, .. } => {
                lemma_returns(p, next);
            },
            StmtModel::Call { next, .. } => {
                lemma_returns(p, next);
            },
            StmtModel::Perform { next, .. } => {
                lemma_returns(p, next);
            },
            StmtModel::Resume { next, .. } => {
                lemma_returns(p, next);
            },
            StmtModel::If { then_branch, else_branch, .. } => {
                lemma_returns(p, then_branch);
                lemma_returns(p, else_branch);
                let more = results(p, else_branch);
                lemma_merged(results(p, then_branch), more, more.len());
                assert(more.take(more.len() as int) =~= more);
            },
            StmtModel::Match { arms, default, .. } => {
                lemma_arms_return(p, s, arms.len());
                if let Some(default) = default {
                    lemma_returns(p, default);
                    let more = results(p, default);
                    lemma_merged(arms_return(p, s, arms.len()), more, more.len());
                    assert(more.take(more.len() as int) =~= more);
                }
            },
            StmtModel::Handle { body, next, .. } => {
                lemma_returns(p, body);
                if let Some(next) = next {
                    lemma_returns(p, next);
                }
            },
            StmtModel::Stage { body, next, .. } => {
                lemma_returns(p, body);
                if let Some(next) = next {
                    lemma_returns(p, next);
                }
            },
            StmtModel::Hole { .. } => {},
            StmtModel::Error(_) => {},
        }
    }
}

proof fn lemma_arms_return(p: CoreModel, s: StmtId, first: nat)
    requires
        p.acyclic(),
        p.closed(),
        p.has_stmt(s),
        p.stmt(s) is Match,
        first <= p.stmt(s)->arms.len(),
    ensures
        arms_return(p, s, first).no_duplicates(),
        forall|e: ExprId| #[trigger] arms_return(p, s, first).contains(e) ==> p.has_expr(e),
    decreases p.stmt_rank(s), 0nat, first,
{
    if first > 0 {
        crate::passes::linearize::analysis::lemma_stmt_ranks(p, s);
        crate::ir::core_ir::lemma_arm_is_part(p.stmt(s), first - 1);
        let body = p.stmt(s)->arms[first - 1].body;
        lemma_arms_return(p, s, (first - 1) as nat);
        lemma_returns(p, body);
        let more = results(p, body);
        lemma_merged(arms_return(p, s, (first - 1) as nat), more, more.len());
        assert(more.take(more.len() as int) =~= more);
    }
}

type Memo = Vec<Option<Vec<ExprId>>>;

/// What has been found so far is right.
spec fn remembers(p: CoreModel, memo: Seq<Option<Vec<ExprId>>>) -> bool {
    &&& memo.len() == p.stmts.len()
    &&& forall|i: int|
        0 <= i < memo.len() ==> ((#[trigger] memo[i]) matches Some(list) ==> list@ == results(
            p,
            StmtId(i as usize),
        ))
}

fn has_expr(list: &Vec<ExprId>, expr: ExprId) -> (found: bool)
    ensures
        found == list@.contains(expr),
{
    let mut i: usize = 0;
    while i < list.len()
        invariant
            i <= list@.len(),
            forall|j: int| 0 <= j < i ==> (#[trigger] list@[j]) != expr,
        decreases list@.len() - i,
    {
        if list[i] == expr {
            return true;
        }
        i += 1;
    }
    false
}

fn append_new(list: &mut Vec<ExprId>, more: &Vec<ExprId>)
    ensures
        final(list)@ == merged(old(list)@, more@, more@.len()),
{
    let ghost before = list@;
    let mut i: usize = 0;
    while i < more.len()
        invariant
            i <= more@.len(),
            list@ == merged(before, more@, i as nat),
        decreases more@.len() - i,
    {
        if !has_expr(list, more[i]) {
            list.push(more[i]);
        }
        i += 1;
    }
}

fn collect_stmt_returns(program: &CoreProgram, stmt_id: StmtId, memo: &mut Memo) -> (out: Vec<
    ExprId,
>)
    requires
        program@.acyclic(),
        program@.closed(),
        program@.has_stmt(stmt_id),
        remembers(program@, old(memo)@),
    ensures
        remembers(program@, final(memo)@),
        out@ == results(program@, stmt_id),
    decreases program@.stmt_rank(stmt_id),
{
    if let Some(cached) = &memo[stmt_id.0] {
        return copy_exprs(cached);
    }
    proof {
        crate::passes::linearize::analysis::lemma_stmt_ranks(program@, stmt_id);
    }
    let ghost s = program@.stmt(stmt_id);
    let mut out: Vec<ExprId> = Vec::new();
    match &program.stmts[stmt_id.0].kind {
        StmtKind::Return(expr) => {
            out.push(*expr);
            assert(out@ =~= seq![*expr]);
        },
        StmtKind::Let { next, .. } | StmtKind::Val { next, .. } | StmtKind::Call { next, .. }
        | StmtKind::Perform { next, .. } | StmtKind::Resume { next, .. } => {
            assert(s.has_part(*next));
            out = collect_stmt_returns(program, *next, memo);
        },
        StmtKind::If { then_branch, else_branch, .. } => {
            assert(s.has_part(*then_branch));
            assert(s.has_part(*else_branch));
            out = collect_stmt_returns(program, *then_branch, memo);
            let more = collect_stmt_returns(program, *else_branch, memo);
            append_new(&mut out, &more);
        },
        StmtKind::Match { arms, default, .. } => {
            let mut i: usize = 0;
            assert(s is Match && s->arms == crate::common::views(arms@));
            while i < arms.len()
                invariant
                    i <= arms@.len(),
                    program@.acyclic(),
                    program@.closed(),
                    program@.has_stmt(stmt_id),
                    s == program@.stmt(stmt_id),
                    s is Match,
                    s->arms == crate::common::views(arms@),
                    remembers(program@, memo@),
                    out@ == arms_return(program@, stmt_id, i as nat),
                decreases arms@.len() - i,
            {
                let body = arms[i].body;
                proof {
                    crate::passes::linearize::analysis::lemma_stmt_ranks(program@, stmt_id);
                    crate::ir::core_ir::lemma_arm_is_part(s, i as int);
                    assert(s->arms[i as int].body == body);
                    assert(s.has_part(body));
                }
                let more = collect_stmt_returns(program, body, memo);
                append_new(&mut out, &more);
                i += 1;
            }
            if let Some(default) = default {
                assert(s.has_part(*default));
                let more = collect_stmt_returns(program, *default, memo);
                append_new(&mut out, &more);
            }
        },
        StmtKind::Handle { body, next, .. } | StmtKind::Stage { body, next, .. } => {
            match next {
                Some(next) => {
                    assert(s.has_part(*next));
                    out = collect_stmt_returns(program, *next, memo);
                },
                None => {
                    assert(s.has_part(*body));
                    out = collect_stmt_returns(program, *body, memo);
                },
            }
        },
        StmtKind::Hole { .. } | StmtKind::Error(_) => {},
    }
    memo[stmt_id.0] = Some(copy_exprs(&out));
    out
}

/// What each statement may return.
pub(crate) fn precompute_stmt_returns(program: &CoreProgram) -> (lists: Vec<Vec<ExprId>>)
    requires
        program@.acyclic(),
        program@.closed(),
    ensures
        lists@.len() == program@.stmts.len(),
        forall|i: int|
            0 <= i < lists@.len() ==> (#[trigger] lists@[i])@ == results(
                program@,
                StmtId(i as usize),
            ),
{
    let mut memo: Memo = Vec::new();
    while memo.len() < program.stmts.len()
        invariant
            memo@.len() <= program.stmts@.len(),
            forall|i: int| 0 <= i < memo@.len() ==> (#[trigger] memo@[i]) is None,
        decreases program.stmts@.len() - memo@.len(),
    {
        memo.push(None);
    }
    let mut lists: Vec<Vec<ExprId>> = Vec::new();
    let mut i: usize = 0;
    while i < program.stmts.len()
        invariant
            i <= program.stmts@.len(),
            program@.acyclic(),
            program@.closed(),
            remembers(program@, memo@),
            lists@.len() == i,
            forall|k: int|
                0 <= k < i ==> (#[trigger] lists@[k])@ == results(program@, StmtId(k as usize)),
        decreases program.stmts@.len() - i,
    {
        lists.push(collect_stmt_returns(program, StmtId::new(i), &mut memo));
        i += 1;
    }
    lists
}

} // verus!
