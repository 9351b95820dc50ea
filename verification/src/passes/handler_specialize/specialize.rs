//! Copies of functions, one for each shape of handler that they are called
//! under, and calls of the copies in place of the handlers.
use crate::common::ids::{ExprId, FuncId, HandlerId, StmtId};
use crate::ir::core_ir::{
    CoreModel, CoreProgram, FunctionModel, StmtKind, StmtModel, StmtNode, StmtNodeModel,
};
use crate::passes::handler_specialize::candidates::{
    collect_specialize_candidates, CandidateModel, SpecializeCandidate,
};
use crate::passes::handler_specialize::cloner::{pad_rows, CloneModel, GraphCloner};
use crate::passes::handler_specialize::rewrite::{RewriteModel, Rewriter};
use crate::passes::handler_specialize::shape::{HandlerShape, HandlerShapeKey};
use crate::passes::handler_specialize::varying::{has_varying_recursive_wrapper_shapes, Sought};
use crate::pipeline::phases::{BtaTables, SemanticTables, SpecializationStats};
use vstd::prelude::*;

verus! {

/// How many copies one function may have.
pub const MAX_SPECIALIZATIONS_PER_CALLEE: usize = 8;

/// How many copies there may be.
pub const MAX_TOTAL_SPECIALIZATIONS: usize = 256;

/// A copy of a function, for a shape of handler.
#[derive(Debug)]
pub struct Made {
    pub callee: FuncId,
    pub shape: HandlerShapeKey,
    pub id: FuncId,
}

#[verifier::ext_equal]
pub struct MadeModel {
    pub callee: FuncId,
    pub shape: HandlerShape,
    pub id: FuncId,
}

impl View for Made {
    type V = MadeModel;

    open spec fn view(&self) -> MadeModel {
        MadeModel { callee: self.callee, shape: self.shape@, id: self.id }
    }
}

// ---------------------------------------------------------------------------
// What happens to a program
// ---------------------------------------------------------------------------

/// How far specialization has come.
#[verifier::ext_equal]
pub struct SpecialModel {
    pub program: CoreModel,
    pub bta: BtaTables,
    pub sema: SemanticTables,
    pub made: Seq<MadeModel>,
    pub stats: SpecializationStats,
}

/// One more, as far as the counter goes.
pub open spec fn bump(n: u32) -> u32 {
    if n < u32::MAX {
        (n + 1) as u32
    } else {
        n
    }
}

/// Whether a copy has been made for a function and a shape.
pub open spec fn is_made(
    made: Seq<MadeModel>,
    callee: FuncId,
    shape: HandlerShape,
    id: FuncId,
) -> bool {
    made.contains(MadeModel { callee, shape, id })
}

pub open spec fn any_made(made: Seq<MadeModel>, callee: FuncId, shape: HandlerShape) -> bool {
    exists|id: FuncId| #[trigger] is_made(made, callee, shape, id)
}

/// How many of the first copies are of a function.
pub open spec fn copies_of(made: Seq<MadeModel>, callee: FuncId, first: nat) -> nat
    decreases first,
{
    if first == 0 || first > made.len() {
        0
    } else if made[first - 1].callee == callee {
        copies_of(made, callee, (first - 1) as nat) + 1
    } else {
        copies_of(made, callee, (first - 1) as nat)
    }
}

pub enum Choice {
    /// There is a copy already.
    Reuse,
    /// The function calls itself under handlers of other shapes.
    Varying,
    /// There are too many copies.
    Limits,
    /// There is no such function.
    Missing,
    /// A copy is to be made.
    Create,
}

pub open spec fn choice(a: SpecialModel, c: CandidateModel) -> Choice {
    if any_made(a.made, c.callee, c.shape) {
        Choice::Reuse
    } else if a.program.has_function(c.callee)
        && crate::passes::handler_specialize::varying::varies(
        a.program,
        a.program.function(c.callee).body,
        None,
        (Sought { callee: c.callee, shape: c.shape }),
    ) {
        Choice::Varying
    } else if a.made.len() >= MAX_TOTAL_SPECIALIZATIONS {
        Choice::Limits
    } else if copies_of(a.made, c.callee, a.made.len()) >= MAX_SPECIALIZATIONS_PER_CALLEE {
        Choice::Limits
    } else if !a.program.has_function(c.callee) {
        Choice::Missing
    } else {
        Choice::Create
    }
}

/// The program with room for a copy of a function.
pub open spec fn with_placeholder(p: CoreModel, callee: FuncId) -> CoreModel {
    CoreModel { functions: p.functions.push(p.function(callee)), ..p }
}

/// The program once the copied body stands under its handler.
pub open spec fn with_copy(
    p: CoreModel,
    clone: CloneModel,
    c: CandidateModel,
) -> CoreModel {
    let decl = p.function(c.callee);
    CoreModel {
        stmts: clone.program.stmts.push(
            StmtNodeModel {
                span: decl.span,
                kind: StmtModel::Handle {
                    handler: c.handler,
                    body: clone.stmt_to(decl.body),
                    next: None,
                },
            },
        ),
        functions: p.functions.push(
            FunctionModel { body: StmtId(clone.program.stmts.len() as usize), ..decl },
        ),
        ..clone.program
    }
}

/// The step that makes a copy: the function's body is copied, its calls of
/// itself become calls of the copy, and the copied body runs under the handler.
pub open spec fn creation(
    a: SpecialModel,
    c: CandidateModel,
    b: SpecialModel,
    clone: CloneModel,
) -> bool {
    let id = FuncId(a.program.functions.len() as usize);
    let p1 = with_placeholder(a.program, c.callee);
    &&& clone.copies(p1)
    &&& clone.order() == crate::passes::handler_specialize::cloner::Order::start().stmt(
        p1,
        a.program.function(c.callee).body,
    )
    &&& clone.from == c.callee
    &&& clone.to == id
    &&& clone.stmt_map.contains_key(a.program.function(c.callee).body.0)
    &&& b.program == with_copy(a.program, clone, c)
    &&& crate::passes::handler_specialize::cloner::tables_say(
        clone,
        p1,
        a.bta,
        a.sema,
        b.bta,
        b.sema,
    )
    &&& crate::passes::handler_specialize::cloner::tables_fit(b.program, b.bta, b.sema)
    &&& b.sema.effects_of_stmt@.len() == b.program.stmts.len()
    &&& b.made == a.made.push(MadeModel { callee: c.callee, shape: c.shape, id })
    &&& b.stats == (SpecializationStats { created: bump(a.stats.created), ..a.stats })
}

/// Finding or making the copy for a candidate.
pub open spec fn specialized(
    a: SpecialModel,
    c: CandidateModel,
    b: SpecialModel,
    r: Option<FuncId>,
) -> bool {
    match choice(a, c) {
        Choice::Reuse => {
            &&& r matches Some(id)
            &&& is_made(a.made, c.callee, c.shape, id)
            &&& b == (SpecialModel {
                stats: SpecializationStats {
                    reused_existing: bump(a.stats.reused_existing),
                    ..a.stats
                },
                ..a
            })
        },
        Choice::Varying => r is None && b == (SpecialModel {
            stats: SpecializationStats {
                skipped_varying_shapes: bump(a.stats.skipped_varying_shapes),
                ..a.stats
            },
            ..a
        }),
        Choice::Limits => r is None && b == (SpecialModel {
            stats: SpecializationStats {
                skipped_limits: bump(a.stats.skipped_limits),
                ..a.stats
            },
            ..a
        }),
        Choice::Missing => r is None && b == a,
        Choice::Create => r == Some(FuncId(a.program.functions.len() as usize))
            && exists|clone: CloneModel| #[trigger] creation(a, c, b, clone),
    }
}

/// The step that puts a call of the copy in the place of the handler.
pub open spec fn replacement(
    a: SpecialModel,
    c: CandidateModel,
    id: FuncId,
    b: SpecialModel,
    r: RewriteModel,
) -> bool {
    &&& r.extends(a.program)
    &&& r.callee == id
    &&& r.stmts == crate::passes::handler_specialize::rewrite::parts_order(
        a.program,
        Seq::empty(),
        c.body_stmt,
    )
    &&& if crate::passes::handler_specialize::rewrite::rewritable(a.program, c.body_stmt) {
        &&& r.below(a.program.stmt(c.body_stmt), r.program.stmts.len() as int)
        &&& b == (SpecialModel {
            program: CoreModel {
                stmts: r.program.stmts.update(
                    c.handle_stmt.0 as int,
                    StmtNodeModel {
                        kind: r.rewritten(a.program.stmt(c.body_stmt)),
                        ..r.program.stmts[c.handle_stmt.0 as int]
                    },
                ),
                ..r.program
            },
            stats: SpecializationStats { rewrites: bump(a.stats.rewrites), ..a.stats },
            ..a
        })
    } else {
        b == (SpecialModel { program: r.program, ..a })
    }
}

pub open spec fn replaced(
    a: SpecialModel,
    c: CandidateModel,
    id: FuncId,
    b: SpecialModel,
) -> bool {
    exists|r: RewriteModel| #[trigger] replacement(a, c, id, b, r)
}

/// One more candidate has been seen.
pub open spec fn seen(a: SpecialModel) -> SpecialModel {
    SpecialModel {
        stats: SpecializationStats {
            candidates_seen: bump(a.stats.candidates_seen),
            ..a.stats
        },
        ..a
    }
}

/// What a candidate does to a program.
pub open spec fn step(a: SpecialModel, c: CandidateModel, b: SpecialModel) -> bool {
    exists|m: SpecialModel, r: Option<FuncId>| #[trigger]
        specialized(seen(a), c, m, r) && match r {
            None => b == m,
            Some(id) => replaced(m, c, id, b),
        }
}

/// Every candidate has done what it does, in turn.
pub open spec fn trace_of(cands: Seq<CandidateModel>, trace: Seq<SpecialModel>) -> bool {
    &&& trace.len() == cands.len() + 1
    &&& forall|i: int|
        0 <= i < cands.len() ==> step(trace[i], #[trigger] cands[i], trace[i + 1])
}

/// The candidates of a program, each once, in the order in which their statements
/// are looked at.
pub open spec fn candidates_of(p: CoreModel, cands: Seq<CandidateModel>) -> bool {
    &&& forall|i: int|
        0 <= i < cands.len() ==> crate::passes::handler_specialize::candidates::fits(
            p,
            #[trigger] cands[i],
        ) && crate::passes::handler_specialize::candidates::visited(p, cands[i].handle_stmt.0)
    &&& forall|i: int, j: int|
        0 <= i < j < cands.len() ==> (#[trigger] cands[i]).handle_stmt != (
        #[trigger] cands[j]).handle_stmt
    &&& forall|s: usize| #[trigger]
        crate::passes::handler_specialize::candidates::site(p, s) ==> exists|i: int|
            0 <= i < cands.len() && (#[trigger] cands[i]).handle_stmt.0 == s
    &&& crate::passes::handler_specialize::candidates::handles(cands)
        == crate::passes::handler_specialize::candidates::sites_in(
        p,
        crate::passes::handler_specialize::candidates::visit_order(p),
        crate::passes::handler_specialize::candidates::visit_order(p).len(),
    )
}

pub open spec fn no_stats() -> SpecializationStats {
    SpecializationStats {
        candidates_seen: 0,
        created: 0,
        reused_existing: 0,
        rewrites: 0,
        skipped_varying_shapes: 0,
        skipped_limits: 0,
    }
}

/// Specialization as a whole: from a program to the program in which every
/// candidate has done what it does.
pub open spec fn specializes(
    program: CoreModel,
    bta: BtaTables,
    sema: SemanticTables,
    end: SpecialModel,
) -> bool {
    exists|cands: Seq<CandidateModel>, trace: Seq<SpecialModel>| #[trigger]
        trace_of(cands, trace) && candidates_of(program, cands) && trace[0] == (SpecialModel {
            program,
            bta,
            sema,
            made: Seq::empty(),
            stats: no_stats(),
        }) && trace.last() == end
}

// ---------------------------------------------------------------------------
// What every step keeps
// ---------------------------------------------------------------------------

/// No function has two copies for one shape.
pub open spec fn made_once(made: Seq<MadeModel>) -> bool {
    forall|i: int, j: int|
        0 <= i < j < made.len() ==> !((#[trigger] made[i]).callee == (#[trigger] made[j]).callee
            && made[i].shape == made[j].shape)
}

impl SpecialModel {
    /// The program has no cycle and no dangling part, the tables speak of
    /// nothing beyond it, no function has two copies for one shape, the limits
    /// are kept, and no more copies or rewrites are counted than candidates.
    pub open spec fn sound(self) -> bool {
        &&& self.program.acyclic()
        &&& self.program.closed()
        &&& crate::passes::handler_specialize::cloner::tables_fit(
            self.program,
            self.bta,
            self.sema,
        )
        &&& made_once(self.made)
        &&& self.made.len() <= MAX_TOTAL_SPECIALIZATIONS
        &&& forall|f: FuncId| #[trigger]
            copies_of(self.made, f, self.made.len()) <= MAX_SPECIALIZATIONS_PER_CALLEE
        &&& self.stats.created <= self.stats.candidates_seen
        &&& self.stats.rewrites <= self.stats.candidates_seen
    }

    /// The candidate's handler is still where it was.
    pub open spec fn awaits(self, c: CandidateModel) -> bool {
        &&& self.program.has_stmt(c.handle_stmt)
        &&& self.program.stmt(c.handle_stmt) == (StmtModel::Handle {
            handler: c.handler,
            body: c.body_stmt,
            next: None,
        })
    }
}

/// A statement that installs a handler round a statement that exists can be
/// added.
proof fn lemma_push_handle_sound(
    p: CoreModel,
    span: crate::common::span::Span,
    handler: HandlerId,
    body: StmtId,
)
    requires
        p.acyclic(),
        p.closed(),
        p.has_stmt(body),
    ensures
        (CoreModel {
            stmts: p.stmts.push(
                StmtNodeModel { span, kind: StmtModel::Handle { handler, body, next: None } },
            ),
            ..p
        }).acyclic(),
        (CoreModel {
            stmts: p.stmts.push(
                StmtNodeModel { span, kind: StmtModel::Handle { handler, body, next: None } },
            ),
            ..p
        }).closed(),
{
    let q = CoreModel {
        stmts: p.stmts.push(
            StmtNodeModel { span, kind: StmtModel::Handle { handler, body, next: None } },
        ),
        ..p
    };
    let n = p.stmts.len() as int;
    let er = |e: ExprId| p.expr_rank(e);
    let sr = |s: StmtId|
        if s.0 == n {
            p.stmt_rank(body) + 1
        } else {
            p.stmt_rank(s)
        };
    assert(q.expr_ranking(er) && q.exprs_closed()) by {
        assert forall|e: ExprId, part: ExprId| #![trigger q.expr(e).has_part(part)]
            q.has_expr(e) && q.expr(e).has_part(part) implies er(part) < er(e) && q.has_expr(
            part,
        ) by {
            assert(p.expr(e).has_part(part));
            crate::ir::core_ir::lemma_expr_rank(p, e, part);
        }
    }
    assert(q.stmt_ranking(sr) && q.stmts_closed()) by {
        assert forall|s: StmtId, part: StmtId| #![trigger q.stmt(s).has_part(part)]
            q.has_stmt(s) && q.stmt(s).has_part(part) implies sr(part) < sr(s) && q.has_stmt(
            part,
        ) by {
            if s.0 < n {
                assert(p.stmt(s).has_part(part));
                crate::ir::core_ir::lemma_stmt_rank(p, s, part);
            }
        }
        assert forall|s: StmtId, part: ExprId| #![trigger q.stmt(s).has_expr(part)]
            q.has_stmt(s) && q.stmt(s).has_expr(part) implies q.has_expr(part) by {
            if s.0 < n {
                assert(p.stmt(s).has_expr(part));
            }
        }
    }
    lemma_roots_closed(p, q);
}

/// Where there are only more statements, and the functions and handlers refer to
/// the same ones, none of them dangles.
proof fn lemma_roots_closed(p: CoreModel, q: CoreModel)
    requires
        p.closed(),
        q.stmts.len() >= p.stmts.len(),
        q.handlers == p.handlers,
        q.functions == p.functions,
    ensures
        q.functions_closed(),
        q.handlers_closed(),
{
    assert forall|f: FuncId| #![trigger q.function(f)] q.has_function(f) implies q.has_stmt(
        q.function(f).body,
    ) by {
        assert(p.has_stmt(p.function(f).body));
    }
    assert forall|h: HandlerId| #![trigger q.handler(h)] q.has_handler(h) implies q.has_stmt(
        q.handler(h).return_body,
    ) by {
        assert(p.has_stmt(p.handler(h).return_body));
    }
    assert forall|h: HandlerId, i: int| #![trigger q.handler(h).clauses[i]]
        q.has_handler(h) && 0 <= i < q.handler(h).clauses.len() implies q.has_stmt(
        q.handler(h).clauses[i].body,
    ) by {
        assert(p.has_stmt(p.handler(h).clauses[i].body));
    }
}

/// A program in which only the functions differ, and their bodies exist, is as
/// sound as before.
proof fn lemma_functions_sound(p: CoreModel, q: CoreModel)
    requires
        p.acyclic(),
        p.closed(),
        q == (CoreModel { functions: q.functions, ..p }),
        forall|i: int|
            0 <= i < q.functions.len() ==> p.has_stmt((#[trigger] q.functions[i]).body),
    ensures
        q.acyclic(),
        q.closed(),
{
    let er = choose|rank: spec_fn(ExprId) -> nat| #[trigger] p.expr_ranking(rank);
    let sr = choose|rank: spec_fn(StmtId) -> nat| #[trigger] p.stmt_ranking(rank);
    assert(q.expr_ranking(er) && q.exprs_closed()) by {
        assert forall|e: ExprId, part: ExprId| #![trigger q.expr(e).has_part(part)]
            q.has_expr(e) && q.expr(e).has_part(part) implies er(part) < er(e) && q.has_expr(
            part,
        ) by {
            assert(p.expr(e).has_part(part));
        }
    }
    assert(q.stmt_ranking(sr) && q.stmts_closed()) by {
        assert forall|s: StmtId, part: StmtId| #![trigger q.stmt(s).has_part(part)]
            q.has_stmt(s) && q.stmt(s).has_part(part) implies sr(part) < sr(s) && q.has_stmt(
            part,
        ) by {
            assert(p.stmt(s).has_part(part));
        }
        assert forall|s: StmtId, part: ExprId| #![trigger q.stmt(s).has_expr(part)]
            q.has_stmt(s) && q.stmt(s).has_expr(part) implies q.has_expr(part) by {
            assert(p.stmt(s).has_expr(part));
        }
    }
    assert(q.functions_closed()) by {
        assert forall|f: FuncId| #![trigger q.function(f)] q.has_function(f) implies q.has_stmt(
            q.function(f).body,
        ) by {
            assert(p.has_stmt(q.functions[f.0 as int].body));
        }
    }
    assert(q.handlers_closed()) by {
        assert forall|h: HandlerId| #![trigger q.handler(h)] q.has_handler(h) implies q.has_stmt(
            q.handler(h).return_body,
        ) by {
            assert(p.has_stmt(p.handler(h).return_body));
        }
        assert forall|h: HandlerId, i: int| #![trigger q.handler(h).clauses[i]]
            q.has_handler(h) && 0 <= i < q.handler(h).clauses.len() implies q.has_stmt(
            q.handler(h).clauses[i].body,
        ) by {
            assert(p.has_stmt(p.handler(h).clauses[i].body));
        }
    }
}

proof fn lemma_placeholder_sound(p: CoreModel, callee: FuncId)
    requires
        p.functions.len() <= usize::MAX,
        p.acyclic(),
        p.closed(),
        p.has_function(callee),
    ensures
        with_placeholder(p, callee).acyclic(),
        with_placeholder(p, callee).closed(),
{
    let q = with_placeholder(p, callee);
    assert forall|i: int| 0 <= i < q.functions.len() implies p.has_stmt(
        (#[trigger] q.functions[i]).body,
    ) by {
        if i < p.functions.len() {
            assert(p.has_stmt(p.function(FuncId(i as usize)).body));
        } else {
            assert(p.has_stmt(p.function(callee).body));
        }
    }
    lemma_functions_sound(p, q);
}

proof fn lemma_with_copy_sound(p: CoreModel, clone: CloneModel, c: CandidateModel)
    requires
        p.functions.len() <= usize::MAX,
        p.acyclic(),
        p.closed(),
        p.has_function(c.callee),
        clone.copies(with_placeholder(p, c.callee)),
        clone.stmt_map.contains_key(p.function(c.callee).body.0),
        clone.program.stmts.len() < usize::MAX,
    ensures
        with_copy(p, clone, c).acyclic(),
        with_copy(p, clone, c).closed(),
{
    let p1 = with_placeholder(p, c.callee);
    let decl = p.function(c.callee);
    lemma_placeholder_sound(p, c.callee);
    crate::passes::handler_specialize::cloner::lemma_copies_sound(clone, p1);
    let body = clone.stmt_to(decl.body);
    assert(clone.stmt_to(StmtId(decl.body.0)).0 < clone.program.stmts.len());
    lemma_push_handle_sound(clone.program, decl.span, c.handler, body);
    let pushed = CoreModel {
        stmts: clone.program.stmts.push(
            StmtNodeModel {
                span: decl.span,
                kind: StmtModel::Handle { handler: c.handler, body, next: None },
            },
        ),
        ..clone.program
    };
    let q = with_copy(p, clone, c);
    assert forall|i: int| 0 <= i < q.functions.len() implies pushed.has_stmt(
        (#[trigger] q.functions[i]).body,
    ) by {
        if i < p.functions.len() {
            assert(p.has_stmt(p.function(FuncId(i as usize)).body));
        }
    }
    lemma_functions_sound(pushed, q);
}

proof fn lemma_copies_of_push(made: Seq<MadeModel>, more: MadeModel, f: FuncId, first: nat)
    requires
        first <= made.len(),
    ensures
        copies_of(made.push(more), f, first) == copies_of(made, f, first),
    decreases first,
{
    if first > 0 {
        lemma_copies_of_push(made, more, f, (first - 1) as nat);
    }
}

/// Making one more copy keeps the limits, where they allowed it, and makes no
/// copy twice.
proof fn lemma_made_push(made: Seq<MadeModel>, more: MadeModel)
    requires
        made_once(made),
        !any_made(made, more.callee, more.shape),
        forall|f: FuncId| #[trigger]
            copies_of(made, f, made.len()) <= MAX_SPECIALIZATIONS_PER_CALLEE,
        copies_of(made, more.callee, made.len()) < MAX_SPECIALIZATIONS_PER_CALLEE,
    ensures
        made_once(made.push(more)),
        forall|f: FuncId| #[trigger]
            copies_of(made.push(more), f, made.push(more).len())
                <= MAX_SPECIALIZATIONS_PER_CALLEE,
{
    let after = made.push(more);
    assert forall|f: FuncId| #[trigger] copies_of(after, f, after.len())
        <= MAX_SPECIALIZATIONS_PER_CALLEE by {
        lemma_copies_of_push(made, more, f, made.len());
        assert(copies_of(made, f, made.len()) <= MAX_SPECIALIZATIONS_PER_CALLEE);
    }
    assert forall|i: int, j: int| 0 <= i < j < after.len() implies !((#[trigger] after[i]).callee
        == (#[trigger] after[j]).callee && after[i].shape == after[j].shape) by {
        if j == made.len() && after[i].callee == more.callee && after[i].shape == more.shape {
            assert(made.contains(made[i]));
            assert(is_made(made, more.callee, more.shape, made[i].id));
        }
    }
}

// ---------------------------------------------------------------------------
// Doing it
// ---------------------------------------------------------------------------

pub struct Specializer {
    pub program: CoreProgram,
    pub bta: BtaTables,
    pub sema: SemanticTables,
    pub made: Vec<Made>,
    pub stats: SpecializationStats,
}

impl View for Specializer {
    type V = SpecialModel;

    open spec fn view(&self) -> SpecialModel {
        SpecialModel {
            program: self.program@,
            bta: self.bta,
            sema: self.sema,
            made: crate::common::views(self.made@),
            stats: self.stats,
        }
    }
}

fn find_made(made: &Vec<Made>, callee: FuncId, shape: &HandlerShapeKey) -> (found: Option<FuncId>)
    ensures
        match found {
            Some(id) => is_made(crate::common::views(made@), callee, shape@, id),
            None => !any_made(crate::common::views(made@), callee, shape@),
        },
{
    let ghost model = crate::common::views(made@);
    let mut i: usize = 0;
    while i < made.len()
        invariant
            i <= made@.len(),
            model == crate::common::views(made@),
            forall|k: int|
                0 <= k < i ==> !((#[trigger] model[k]).callee == callee && model[k].shape
                    == shape@),
        decreases made@.len() - i,
    {
        assert(model[i as int] == made@[i as int]@);
        if made[i].callee == callee && made[i].shape.is_same(shape) {
            let id = made[i].id;
            assert(model[i as int] == (MadeModel { callee, shape: shape@, id }));
            assert(model.contains(MadeModel { callee, shape: shape@, id }));
            return Some(id);
        }
        i += 1;
    }
    proof {
        assert forall|id: FuncId| !#[trigger] is_made(model, callee, shape@, id) by {
            if is_made(model, callee, shape@, id) {
                let k = choose|k: int|
                    0 <= k < model.len() && model[k] == (MadeModel { callee, shape: shape@, id });
                assert(model[k].callee == callee);
            }
        }
    }
    None
}

fn count_copies(made: &Vec<Made>, callee: FuncId) -> (n: usize)
    ensures
        n == copies_of(crate::common::views(made@), callee, made@.len()),
{
    let ghost model = crate::common::views(made@);
    let mut n: usize = 0;
    let mut i: usize = 0;
    while i < made.len()
        invariant
            i <= made@.len(),
            n <= i,
            model == crate::common::views(made@),
            n == copies_of(model, callee, i as nat),
        decreases made@.len() - i,
    {
        assert(model[i as int] == made@[i as int]@);
        if made[i].callee == callee {
            n += 1;
        }
        i += 1;
    }
    n
}

#[verifier::rlimit(60)]
#[verifier::spinoff_prover]
fn create(state: Specializer, candidate: &SpecializeCandidate) -> (out: (Specializer, FuncId))
    requires
        state@.sound(),
        choice(state@, candidate@) is Create,
    ensures
        exists|clone: CloneModel| #[trigger] creation(state@, candidate@, out.0@, clone),
        out.1 == FuncId(state@.program.functions.len() as usize),
        out.0@.program.acyclic(),
        out.0@.program.closed(),
        out.0@.program.stmts.len() >= state@.program.stmts.len(),
        forall|i: int|
            0 <= i < state@.program.stmts.len() ==> #[trigger] out.0@.program.stmts[i]
                == state@.program.stmts[i],
{
    broadcast use crate::common::lemma_views_push;

    let ghost a = state@;
    let ghost c = candidate@;
    let ghost p = a.program;
    let ghost p1 = with_placeholder(p, c.callee);
    let Specializer { program, bta, sema, made, stats } = state;
    let mut program = program;
    let mut made = made;
    let function_count: usize = program.functions.len();
    assert(p.functions.len() == function_count);
    assert(p.functions[c.callee.0 as int] == program.functions@[c.callee.0 as int]@);
    let decl = program.functions[candidate.callee.0].clone();
    let body = decl.body;
    let span = decl.span;
    let id = program.add_function(decl);
    proof {
        assert(program@ =~= p1);
        lemma_placeholder_sound(p, c.callee);
        assert(p.has_stmt(p.function(c.callee).body));
        assert(crate::passes::handler_specialize::cloner::tables_fit(p1, bta, sema));
    }
    let mut cloner = GraphCloner::new(program, bta, sema, candidate.callee, id);
    let cloned_body = cloner.clone_stmt(body);
    let ghost clone = cloner.model();
    let GraphCloner { program, bta, sema, .. } = cloner;
    let mut program = program;
    let mut sema = sema;
    let wrapped = program.push_stmt(
        StmtNode {
            span,
            kind: StmtKind::Handle { handler: candidate.handler, body: cloned_body, next: None },
        },
    );
    let stmt_count: usize = program.stmts.len();
    assert(stmt_count == program@.stmts.len());
    assert(stmt_count == clone.program.stmts.len() + 1);
    let ghost sema_before = sema;
    pad_rows(&mut sema.effects_of_stmt, wrapped.0);
    program.set_function_body(id, wrapped);
    made.push(Made { callee: candidate.callee, shape: candidate.shape.clone(), id });
    let stats = SpecializationStats { created: stats.created.saturating_add(1), ..stats };
    let done = Specializer { program, bta, sema, made, stats };
    proof {
        let b = done@;
        assert(b.program.functions =~= with_copy(p, clone, c).functions);
        assert(b.program =~= with_copy(p, clone, c));
        lemma_with_copy_sound(p, clone, c);
        assert(b.made =~= a.made.push(MadeModel { callee: c.callee, shape: c.shape, id }));
        assert forall|i: usize| #[trigger]
            crate::passes::handler_specialize::cloner::type_at(b.sema, i)
                == crate::passes::handler_specialize::cloner::type_at(sema_before, i) by {}
        assert(crate::passes::handler_specialize::cloner::tables_say(
            clone,
            p1,
            a.bta,
            a.sema,
            b.bta,
            b.sema,
        ));
        assert(creation(a, c, b, clone));
    }
    let out = (done, id);
    assert(creation(state@, candidate@, out.0@, clone));
    out
}

/// Finds the copy of a function for a shape of handler, or makes it where the
/// limits allow.
#[verifier::spinoff_prover]
pub fn ensure_specialized(state: Specializer, candidate: &SpecializeCandidate) -> (out: (
    Specializer,
    Option<FuncId>,
))
    requires
        state@.sound(),
        choice(state@, candidate@) is Create ==> state@.stats.created
            < state@.stats.candidates_seen || state@.stats.created == u32::MAX,
    ensures
        specialized(state@, candidate@, out.0@, out.1),
        out.0@.sound(),
        out.0@.stats.candidates_seen == state@.stats.candidates_seen,
        out.0@.stats.rewrites == state@.stats.rewrites,
        out.0@.program.stmts.len() >= state@.program.stmts.len(),
        forall|i: int|
            0 <= i < state@.program.stmts.len() ==> #[trigger] out.0@.program.stmts[i]
                == state@.program.stmts[i],
{
    let ghost a = state@;
    let ghost c = candidate@;
    let mut state = state;
    if let Some(existing) = find_made(&state.made, candidate.callee, &candidate.shape) {
        assert(any_made(a.made, c.callee, c.shape)) by {
            assert(is_made(a.made, c.callee, c.shape, existing));
        }
        state.stats.reused_existing = state.stats.reused_existing.saturating_add(1);
        return (state, Some(existing));
    }
    if has_varying_recursive_wrapper_shapes(
        &state.program,
        candidate.callee,
        &candidate.shape,
    ) {
        state.stats.skipped_varying_shapes = state.stats.skipped_varying_shapes.saturating_add(1);
        return (state, None);
    }
    if state.made.len() >= MAX_TOTAL_SPECIALIZATIONS {
        state.stats.skipped_limits = state.stats.skipped_limits.saturating_add(1);
        return (state, None);
    }
    if count_copies(&state.made, candidate.callee) >= MAX_SPECIALIZATIONS_PER_CALLEE {
        state.stats.skipped_limits = state.stats.skipped_limits.saturating_add(1);
        return (state, None);
    }
    if candidate.callee.0 >= state.program.functions.len() {
        return (state, None);
    }
    assert(choice(state@, c) is Create);
    let (made, id) = create(state, candidate);
    proof {
        let b = made@;
        let clone = choose|clone: CloneModel| #[trigger] creation(a, c, b, clone);
        lemma_made_push(
            a.made,
            MadeModel { callee: c.callee, shape: c.shape, id },
        );
        assert(b.sound());
    }
    (made, Some(id))
}

/// Puts a call of the copy in the place of the handler.
#[verifier::spinoff_prover]
fn rewrite_direct_handle_callsite(
    state: Specializer,
    candidate: &SpecializeCandidate,
    specialized_callee: FuncId,
) -> (out: Specializer)
    requires
        state@.sound(),
        state@.awaits(candidate@),
        state@.stats.rewrites < state@.stats.candidates_seen || state@.stats.rewrites
            == u32::MAX,
    ensures
        replaced(state@, candidate@, specialized_callee, out@),
        out@.sound(),
        out@.program.stmts.len() >= state@.program.stmts.len(),
        forall|i: int|
            0 <= i < state@.program.stmts.len() && i != candidate.handle_stmt.0
                ==> #[trigger] out@.program.stmts[i] == state@.program.stmts[i],
{
    let ghost a = state@;
    let ghost c = candidate@;
    let ghost p = a.program;
    proof {
        assert(p.stmt(c.handle_stmt).has_part(c.body_stmt));
    }
    let Specializer { program, bta, sema, made, stats } = state;
    let mut rewriter = Rewriter::new(program, specialized_callee);
    let kind = rewriter.build_rewritten_body(candidate.body_stmt);
    let ghost r = rewriter.model();
    let Rewriter { program, .. } = rewriter;
    let mut program = program;
    let mut stats = stats;
    if let Some(kind) = kind {
        program.set_stmt(candidate.handle_stmt, kind);
        stats.rewrites = stats.rewrites.saturating_add(1);
    }
    let out = Specializer { program, bta, sema, made, stats };
    proof {
        let b = out@;
        assert(b.made =~= a.made);
        assert(replacement(a, c, specialized_callee, b, r));
        crate::passes::handler_specialize::rewrite::lemma_replaced_sound(
            r,
            p,
            c.handle_stmt,
            c.body_stmt,
            b.program,
        );
    }
    out
}

/// Copies the functions that are called right under a handler, and puts calls
/// of the copies in the place of the handlers.
#[verifier::rlimit(40)]
#[verifier::spinoff_prover]
pub fn specialize_handle_wrapped_calls(
    program: CoreProgram,
    bta: BtaTables,
    sema: SemanticTables,
) -> (out: Specializer)
    requires
        program@.acyclic(),
        program@.closed(),
        crate::passes::handler_specialize::cloner::tables_fit(program@, bta, sema),
    ensures
        specializes(program@, bta, sema, out@),
        out@.sound(),
{
    let candidates = collect_specialize_candidates(&program);
    let ghost cands = crate::common::views(candidates@);
    let ghost p0 = program@;
    let mut state = Specializer {
        program,
        bta,
        sema,
        made: Vec::new(),
        stats: SpecializationStats {
            candidates_seen: 0,
            created: 0,
            reused_existing: 0,
            rewrites: 0,
            skipped_varying_shapes: 0,
            skipped_limits: 0,
        },
    };
    let ghost mut trace: Seq<SpecialModel> = seq![state@];
    proof {
        assert(state@.made =~= Seq::<MadeModel>::empty());
        lemma_candidates(p0, candidates@);
        assert(state@.sound());
    }
    let mut i: usize = 0;
    while i < candidates.len()
        invariant
            i <= candidates@.len(),
            cands == crate::common::views(candidates@),
            candidates_of(p0, cands),
            state@.sound(),
            forall|k: int| i <= k < cands.len() ==> state@.awaits(#[trigger] cands[k]),
            trace.len() == i + 1,
            trace[0] == (SpecialModel {
                program: p0,
                bta,
                sema,
                made: Seq::empty(),
                stats: no_stats(),
            }),
            trace[i as int] == state@,
            forall|k: int| 0 <= k < i ==> step(trace[k], #[trigger] cands[k], trace[k + 1]),
        decreases candidates@.len() - i,
    {
        let ghost a = state@;
        let candidate = &candidates[i];
        let ghost c = cands[i as int];
        assert(candidate@ == c);
        assert(a.awaits(c));
        state.stats.candidates_seen = state.stats.candidates_seen.saturating_add(1);
        assert(state@ =~= seen(a));
        let (next, found) = ensure_specialized(state, candidate);
        let ghost m = next@;
        state = match found {
            None => next,
            Some(id) => rewrite_direct_handle_callsite(next, candidate, id),
        };
        proof {
            assert(specialized(seen(a), c, m, found));
            assert(step(a, c, state@));
            let longer = trace.push(state@);
            assert forall|k: int| 0 <= k < i + 1 implies step(
                longer[k],
                #[trigger] cands[k],
                longer[k + 1],
            ) by {
                if k < i {
                    assert(step(trace[k], cands[k], trace[k + 1]));
                }
            }
            assert forall|k: int| i + 1 <= k < cands.len() implies state@.awaits(
                #[trigger] cands[k],
            ) by {
                assert(a.awaits(cands[k]));
                assert(cands[i as int].handle_stmt != cands[k].handle_stmt);
                assert(m.program.stmts[cands[k].handle_stmt.0 as int]
                    == a.program.stmts[cands[k].handle_stmt.0 as int]);
            }
            trace = longer;
        }
        i += 1;
    }
    proof {
        assert(trace_of(cands, trace));
    }
    state
}

proof fn lemma_candidates(p: CoreModel, candidates: Seq<SpecializeCandidate>)
    requires
        forall|i: int|
            0 <= i < candidates.len() ==> crate::passes::handler_specialize::candidates::fits(
                p,
                (#[trigger] candidates[i])@,
            ) && crate::passes::handler_specialize::candidates::visited(
                p,
                candidates[i].handle_stmt.0,
            ),
        forall|i: int, j: int|
            0 <= i < j < candidates.len() ==> (#[trigger] candidates[i]).handle_stmt != (
            #[trigger] candidates[j]).handle_stmt,
        forall|s: usize| #[trigger]
            crate::passes::handler_specialize::candidates::site(p, s) ==> exists|i: int|
                0 <= i < candidates.len() && (#[trigger] candidates[i]).handle_stmt.0 == s,
        crate::passes::handler_specialize::candidates::handles(crate::common::views(candidates))
            == crate::passes::handler_specialize::candidates::sites_in(
            p,
            crate::passes::handler_specialize::candidates::visit_order(p),
            crate::passes::handler_specialize::candidates::visit_order(p).len(),
        ),
    ensures
        candidates_of(p, crate::common::views(candidates)),
        forall|i: int|
            0 <= i < candidates.len() ==> {
                let c = #[trigger] crate::common::views(candidates)[i];
                p.has_stmt(c.handle_stmt) && p.stmt(c.handle_stmt) == (StmtModel::Handle {
                    handler: c.handler,
                    body: c.body_stmt,
                    next: None,
                })
            },
{
    let cands = crate::common::views(candidates);
    reveal(crate::passes::handler_specialize::candidates::fits);
    assert forall|i: int| 0 <= i < cands.len() implies
        crate::passes::handler_specialize::candidates::fits(p, #[trigger] cands[i])
        && crate::passes::handler_specialize::candidates::visited(p, cands[i].handle_stmt.0) by {
        assert(cands[i] == candidates[i]@);
    }
    assert forall|i: int, j: int| 0 <= i < j < cands.len() implies (#[trigger] cands[i]).handle_stmt
        != (#[trigger] cands[j]).handle_stmt by {
        assert(cands[i] == candidates[i]@ && cands[j] == candidates[j]@);
    }
    assert forall|s: usize| #[trigger]
        crate::passes::handler_specialize::candidates::site(p, s) implies exists|i: int|
        0 <= i < cands.len() && (#[trigger] cands[i]).handle_stmt.0 == s by {
        let i = choose|i: int|
            0 <= i < candidates.len() && (#[trigger] candidates[i]).handle_stmt.0 == s;
        assert(cands[i] == candidates[i]@);
    }
}

// ---------------------------------------------------------------------------
// Laws
// ---------------------------------------------------------------------------

/// A function is specialized for a shape once. After a copy has been found or
/// made for a candidate, every later candidate with the same function and shape,
/// however many copies have been made in between, gets the same copy, and nothing
/// but the count of reuses changes.
pub proof fn lemma_specialized_once(
    a: SpecialModel,
    c: CandidateModel,
    b: SpecialModel,
    id: FuncId,
    later: SpecialModel,
    again: CandidateModel,
    end: SpecialModel,
    r: Option<FuncId>,
)
    requires
        specialized(a, c, b, Some(id)),
        b.made.is_prefix_of(later.made),
        made_once(later.made),
        again.callee == c.callee,
        again.shape == c.shape,
        specialized(later, again, end, r),
    ensures
        r == Some(id),
        end == (SpecialModel {
            stats: SpecializationStats {
                reused_existing: bump(later.stats.reused_existing),
                ..later.stats
            },
            ..later
        }),
{
    let entry = MadeModel { callee: c.callee, shape: c.shape, id };
    assert(b.made.contains(entry)) by {
        if choice(a, c) is Create {
            let clone = choose|clone: CloneModel| #[trigger] creation(a, c, b, clone);
            assert(b.made.last() == entry);
        }
    }
    let i = choose|i: int| 0 <= i < b.made.len() && b.made[i] == entry;
    assert(later.made[i] == entry);
    assert(is_made(later.made, c.callee, c.shape, id));
    let other = r->0;
    assert(is_made(later.made, c.callee, c.shape, other));
    let j = choose|j: int|
        0 <= j < later.made.len() && later.made[j] == (MadeModel {
            callee: c.callee,
            shape: c.shape,
            id: other,
        });
    assert(i == j);
}

} // verus!
