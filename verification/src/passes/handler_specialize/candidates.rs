//! Where a handler is installed round nothing but one call.
use crate::common::ids::{FuncId, HandlerId, StmtId};
use crate::ir::core_ir::{CoreModel, CoreProgram, StmtKind, StmtModel};
use crate::passes::function_graph::{collect_reachable_functions, visit_stmts};
use crate::passes::handler_specialize::shape::{shape_for_handler, HandlerShape, HandlerShapeKey};
use crate::passes::handler_specialize::wrapper::{wrapper_call_callee, WrapperCache};
use std::collections::HashSet;
use vstd::prelude::*;

verus! {

/// A statement that installs a handler round nothing but one call.
#[derive(Debug)]
pub struct SpecializeCandidate {
    pub handler: HandlerId,
    pub shape: HandlerShapeKey,
    pub handle_stmt: StmtId,
    pub body_stmt: StmtId,
    pub callee: FuncId,
}

#[verifier::ext_equal]
pub struct CandidateModel {
    pub handler: HandlerId,
    pub shape: HandlerShape,
    pub handle_stmt: StmtId,
    pub body_stmt: StmtId,
    pub callee: FuncId,
}

impl View for SpecializeCandidate {
    type V = CandidateModel;

    open spec fn view(&self) -> CandidateModel {
        CandidateModel {
            handler: self.handler,
            shape: self.shape@,
            handle_stmt: self.handle_stmt,
            body_stmt: self.body_stmt,
            callee: self.callee,
        }
    }
}

/// Whether the body of a function that can come to be called leads to a
/// statement.
pub open spec fn visited(p: CoreModel, s: usize) -> bool {
    exists|f: FuncId| #![trigger p.function(f)]
        p.has_function(f) && crate::passes::function_graph::function_reached(p, f.0)
            && crate::passes::function_graph::stmt_reached(p, p.function(f).body, s)
}

/// Whether a statement is a candidate, but for where it stands.
#[verifier::opaque]
pub open spec fn fits(p: CoreModel, c: CandidateModel) -> bool {
    &&& p.has_stmt(c.handle_stmt)
    &&& p.stmt(c.handle_stmt) == (StmtModel::Handle {
        handler: c.handler,
        body: c.body_stmt,
        next: None,
    })
    &&& p.has_handler(c.handler)
    &&& crate::passes::handler_specialize::wrapper::wraps(p, c.body_stmt, c.callee)
    &&& c.shape == crate::passes::handler_specialize::shape::handler_shape(
        p,
        p.handler(c.handler),
    )
}

/// Whether some candidate stands at a statement.
pub open spec fn site(p: CoreModel, s: usize) -> bool {
    visited(p, s) && exists|c: CandidateModel| #[trigger] fits(p, c) && c.handle_stmt.0 == s
}

/// The statements of the first functions that can come to be called, in the
/// order in which they are looked at.
pub open spec fn visited_until(p: CoreModel, first: nat) -> Seq<usize>
    decreases first,
{
    if first == 0 {
        Seq::empty()
    } else {
        let before = visited_until(p, (first - 1) as nat);
        if crate::passes::function_graph::function_reached(p, (first - 1) as usize) {
            crate::passes::function_graph::visit(p, p.functions[first - 1].body.0, before)
        } else {
            before
        }
    }
}

/// The statements of a program in the order in which they are looked at.
pub open spec fn visit_order(p: CoreModel) -> Seq<usize> {
    visited_until(p, p.functions.len())
}

/// Whether a statement is a candidate, wherever it stands.
pub open spec fn stands(p: CoreModel, s: usize) -> bool {
    exists|c: CandidateModel| #[trigger] fits(p, c) && c.handle_stmt.0 == s
}

/// Those of the first of some statements that are candidates, in order.
pub open spec fn sites_in(p: CoreModel, order: Seq<usize>, first: nat) -> Seq<usize>
    decreases first,
{
    if first == 0 {
        Seq::empty()
    } else {
        let before = sites_in(p, order, (first - 1) as nat);
        if stands(p, order[first - 1]) {
            before.push(order[first - 1])
        } else {
            before
        }
    }
}

/// Where some candidates stand.
pub open spec fn handles(cands: Seq<CandidateModel>) -> Seq<usize> {
    cands.map_values(|c: CandidateModel| c.handle_stmt.0)
}

/// The candidate at a statement, if there is one.
fn candidate_at(program: &CoreProgram, stmt_id: StmtId, cache: &mut WrapperCache) -> (found: Option<
    SpecializeCandidate,
>)
    requires
        program@.acyclic(),
        old(cache).sound(program@),
    ensures
        final(cache).sound(program@),
        match found {
            Some(c) => fits(program@, c@) && c.handle_stmt == stmt_id,
            None => forall|c: CandidateModel| #[trigger]
                fits(program@, c) ==> c.handle_stmt != stmt_id,
        },
{
    proof {
        reveal(fits);
    }
    match program.stmt(stmt_id) {
        None => None,
        Some(node) => match &node.kind {
            StmtKind::Handle { handler, body, next } => match next {
                Some(_) => None,
                None => match wrapper_call_callee(program, *body, cache) {
                    None => None,
                    Some(callee) => match shape_for_handler(program, *handler) {
                        None => None,
                        Some(shape) => Some(
                            SpecializeCandidate {
                                handler: *handler,
                                shape,
                                handle_stmt: stmt_id,
                                body_stmt: *body,
                                callee,
                            },
                        ),
                    },
                },
            },
            _ => None,
        },
    }
}

/// What has been collected from some statements: a candidate for each of them
/// that is one, once.
spec fn collected(p: CoreModel, out: Seq<SpecializeCandidate>, seen: Seq<usize>) -> bool {
    &&& forall|i: int|
        0 <= i < out.len() ==> fits(p, (#[trigger] out[i])@) && seen.contains(
            out[i].handle_stmt.0,
        )
    &&& forall|i: int, j: int|
        0 <= i < j < out.len() ==> (#[trigger] out[i]).handle_stmt != (
        #[trigger] out[j]).handle_stmt
    &&& forall|c: CandidateModel| #[trigger]
        fits(p, c) && seen.contains(c.handle_stmt.0) ==> exists|i: int|
            0 <= i < out.len() && (#[trigger] out[i]).handle_stmt == c.handle_stmt
}

/// Looking at one more statement keeps the collection complete.
proof fn lemma_collected(
    p: CoreModel,
    done: Seq<SpecializeCandidate>,
    out: Seq<SpecializeCandidate>,
    before: Seq<usize>,
    seen: Seq<usize>,
    id: StmtId,
    spot: Option<SpecializeCandidate>,
)
    requires
        collected(p, done, before),
        !before.contains(id.0),
        forall|x: usize| #[trigger] seen.contains(x) <==> (before.contains(x) || x == id.0),
        match spot {
            Some(c) => fits(p, c@) && c.handle_stmt == id && out == done.push(c),
            None => out == done && forall|c: CandidateModel| #[trigger]
                fits(p, c) ==> c.handle_stmt != id,
        },
    ensures
        collected(p, out, seen),
{
    assert forall|c: CandidateModel| #[trigger]
        fits(p, c) && seen.contains(c.handle_stmt.0) implies exists|k: int|
        0 <= k < out.len() && (#[trigger] out[k]).handle_stmt == c.handle_stmt by {
        if before.contains(c.handle_stmt.0) {
            let k = choose|k: int|
                0 <= k < done.len() && (#[trigger] done[k]).handle_stmt == c.handle_stmt;
            assert(out[k] == done[k]);
        } else {
            assert(c.handle_stmt == id);
            assert(out[done.len() as int].handle_stmt == c.handle_stmt);
        }
    }
    assert forall|k: int| 0 <= k < out.len() implies fits(p, (#[trigger] out[k])@)
        && seen.contains(out[k].handle_stmt.0) by {
        if k < done.len() {
            assert(out[k] == done[k]);
        }
    }
    assert forall|a: int, b: int| 0 <= a < b < out.len() implies (#[trigger] out[a]).handle_stmt
        != (#[trigger] out[b]).handle_stmt by {
        assert(out[a] == done[a]);
        if b < done.len() {
            assert(out[b] == done[b]);
        } else {
            assert(before.contains(done[a].handle_stmt.0));
        }
    }
}

/// Whether the body of one of the first functions leads to a statement.
spec fn visited_by(p: CoreModel, first: nat, s: usize) -> bool {
    exists|f: FuncId| #![trigger p.function(f)]
        f.0 < first && p.has_function(f) && crate::passes::function_graph::function_reached(p, f.0)
            && crate::passes::function_graph::stmt_reached(p, p.function(f).body, s)
}

/// The statements of the functions that can come to be called, in the order in
/// which they are looked at.
fn list_stmts(program: &CoreProgram) -> (found: Vec<usize>)
    requires
        program@.acyclic(),
    ensures
        found@ == visit_order(program@),
        found@.no_duplicates(),
        forall|s: usize| #[trigger] found@.contains(s) <==> visited(program@, s),
{
    let ghost p = program@;
    let reached = collect_reachable_functions(program);
    let mut seen: HashSet<usize> = HashSet::new();
    let mut found: Vec<usize> = Vec::new();
    assert(found@ =~= Seq::empty());
    let mut at: usize = 0;
    let mut f: usize = 0;
    while f < program.functions.len()
        invariant
            p == program@,
            p.acyclic(),
            f <= program.functions@.len(),
            at <= reached@.len(),
            forall|i: int, j: int| 0 <= i < j < reached@.len() ==> (#[trigger] reached@[i]).0 < (
            #[trigger] reached@[j]).0,
            forall|g: FuncId| #[trigger]
                reached@.contains(g) <==> crate::passes::function_graph::function_reached(
                    p,
                    g.0,
                ),
            forall|i: int| 0 <= i < at ==> (#[trigger] reached@[i]).0 < f,
            forall|i: int| at <= i < reached@.len() ==> (#[trigger] reached@[i]).0 >= f,
            seen@.finite(),
            forall|s: usize| #[trigger] found@.contains(s) <==> seen@.contains(s),
            crate::passes::function_graph::leads_inside(p, found@),
            found@.no_duplicates(),
            found@ == visited_until(p, f as nat),
            forall|s: usize| #[trigger] found@.contains(s) <==> visited_by(p, f as nat, s),
        decreases program.functions@.len() - f,
    {
        let ghost before = found@;
        let ghost id = FuncId(f);
        assert(p.function(id).body == program.functions@[f as int].body);
        if at < reached.len() && reached[at].0 == f {
            assert(reached@.contains(reached@[at as int]));
            assert(reached@[at as int] == id);
            visit_stmts(program, program.functions[f].body, &mut seen, &mut found);
            at += 1;
            proof {
                assert forall|s: usize| #[trigger]
                    found@.contains(s) <==> visited_by(p, (f + 1) as nat, s) by {
                    if before.contains(s) {
                        let g = choose|g: FuncId| #![trigger p.function(g)]
                            g.0 < f && p.has_function(g)
                                && crate::passes::function_graph::function_reached(p, g.0)
                                && crate::passes::function_graph::stmt_reached(
                                p,
                                p.function(g).body,
                                s,
                            );
                        assert(p.has_function(g));
                    } else if crate::passes::function_graph::stmt_reached(p, p.function(id).body, s) {
                        assert(p.has_function(id));
                    }
                    if visited_by(p, (f + 1) as nat, s) && !before.contains(s) {
                        let g = choose|g: FuncId| #![trigger p.function(g)]
                            g.0 < f + 1 && p.has_function(g)
                                && crate::passes::function_graph::function_reached(p, g.0)
                                && crate::passes::function_graph::stmt_reached(
                                p,
                                p.function(g).body,
                                s,
                            );
                        assert(g == id);
                    }
                }
            }
        } else {
            proof {
                assert(!crate::passes::function_graph::function_reached(p, f)) by {
                    if reached@.contains(id) {
                        let i = choose|i: int| 0 <= i < reached@.len() && reached@[i] == id;
                        assert(reached@[i].0 == f);
                        if i > at {
                            assert(reached@[at as int].0 < reached@[i].0);
                        }
                    }
                }
                assert forall|s: usize| visited_by(p, f as nat, s) <==> #[trigger] visited_by(
                    p,
                    (f + 1) as nat,
                    s,
                ) by {
                    if visited_by(p, (f + 1) as nat, s) {
                        let g = choose|g: FuncId| #![trigger p.function(g)]
                            g.0 < f + 1 && p.has_function(g)
                                && crate::passes::function_graph::function_reached(p, g.0)
                                && crate::passes::function_graph::stmt_reached(
                                p,
                                p.function(g).body,
                                s,
                            );
                        assert(g.0 != f);
                    }
                }
            }
        }
        f += 1;
    }
    proof {
        assert forall|s: usize| #[trigger] found@.contains(s) <==> visited(p, s) by {
            if visited(p, s) {
                let g = choose|g: FuncId| #![trigger p.function(g)]
                    p.has_function(g) && crate::passes::function_graph::function_reached(p, g.0)
                        && crate::passes::function_graph::stmt_reached(p, p.function(g).body, s);
                assert(visited_by(p, f as nat, s));
            }
        }
    }
    found
}

/// The candidates of the functions that can come to be called, each once, in the
/// order in which their statements are looked at.
pub fn collect_specialize_candidates(program: &CoreProgram) -> (out: Vec<SpecializeCandidate>)
    requires
        program@.acyclic(),
    ensures
        forall|i: int|
            0 <= i < out@.len() ==> fits(program@, (#[trigger] out@[i])@) && visited(
                program@,
                out@[i].handle_stmt.0,
            ),
        forall|i: int, j: int|
            0 <= i < j < out@.len() ==> (#[trigger] out@[i]).handle_stmt != (
            #[trigger] out@[j]).handle_stmt,
        forall|s: usize| #[trigger]
            site(program@, s) ==> exists|i: int|
                0 <= i < out@.len() && (#[trigger] out@[i]).handle_stmt.0 == s,
        handles(crate::common::views(out@)) == sites_in(
            program@,
            visit_order(program@),
            visit_order(program@).len(),
        ),
{
    let ghost p = program@;
    let stmts = list_stmts(program);
    let mut out: Vec<SpecializeCandidate> = Vec::new();
    let mut cache = WrapperCache::new();
    let mut i: usize = 0;
    assert(handles(crate::common::views(out@)) =~= Seq::empty());
    while i < stmts.len()
        invariant
            p == program@,
            p.acyclic(),
            cache.sound(p),
            i <= stmts@.len(),
            stmts@.no_duplicates(),
            collected(p, out@, stmts@.take(i as int)),
            handles(crate::common::views(out@)) == sites_in(p, stmts@, i as nat),
        decreases stmts@.len() - i,
    {
        let id = stmts[i];
        let ghost done = out@;
        let ghost before = stmts@.take(i as int);
        let ghost seen = stmts@.take(i as int + 1);
        proof {
            crate::common::reach::lemma_pushed(before, id);
            assert(seen =~= before.push(id));
            assert(!before.contains(id));
        }
        let found = candidate_at(program, StmtId::new(id), &mut cache);
        let ghost spot = found;
        match found {
            Some(candidate) => {
                out.push(candidate);
            },
            None => {},
        }
        proof {
            if let Some(c) = spot {
                assert(out@ =~= done.push(c));
                assert(fits(p, c@));
                assert(stands(p, id));
                crate::common::lemma_views_push(done, c);
                assert(handles(crate::common::views(out@)) =~= handles(
                    crate::common::views(done),
                ).push(id));
            } else {
                assert(!stands(p, id));
            }
            lemma_collected(p, done, out@, before, seen, StmtId(id), spot);
        }
        i += 1;
    }
    assert(stmts@.take(i as int) =~= stmts@);
    proof {
        assert forall|s: usize| #[trigger] site(p, s) implies exists|i: int|
            0 <= i < out@.len() && (#[trigger] out@[i]).handle_stmt.0 == s by {
            let c = choose|c: CandidateModel| #[trigger] fits(p, c) && c.handle_stmt.0 == s;
            assert(stmts@.contains(c.handle_stmt.0));
            let i = choose|i: int|
                0 <= i < out@.len() && (#[trigger] out@[i]).handle_stmt == c.handle_stmt;
            assert(out@[i].handle_stmt.0 == s);
        }
    }
    out
}

} // verus!
