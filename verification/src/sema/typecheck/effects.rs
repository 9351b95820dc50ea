//! The effects that a statement may perform.
use crate::common::ids::{EffectLabelId, HandlerId, StmtId, VarId};
use crate::ir::core_ir::{CoreModel, CoreProgram, HandlerDef, StmtKind, StmtModel};
use crate::sema::effect::SortedEffectRow;
use vstd::prelude::*;

verus! {

/// Whether a statement performs an effect itself.
pub open spec fn performs(s: StmtModel, label: EffectLabelId) -> bool {
    match s {
        StmtModel::Call { effects, .. } => effects.contains(label),
        StmtModel::Perform { effect, .. } => effect == label,
        _ => false,
    }
}

/// Whether a handler handles an effect.
pub open spec fn handles(p: CoreModel, handler: HandlerId, label: EffectLabelId) -> bool {
    p.has_handler(handler) && p.handler(handler).effect == label
}

/// Whether a statement that is known to perform an effect lies in a clause of a
/// handler, or in what becomes of the value.
pub open spec fn clauses_perform(p: CoreModel, handler: HandlerId, found: Set<StmtId>) -> bool {
    p.has_handler(handler) && {
        ||| found.contains(p.handler(handler).return_body)
        ||| exists|i: int|
            0 <= i < p.handler(handler).clauses.len() && found.contains(
                (#[trigger] p.handler(handler).clauses[i]).body,
            )
    }
}

/// Whether an effect leaves a handled region: the region performs it and it is
/// not the one handled there, or the handler performs it in turn.
pub open spec fn region_performs(
    p: CoreModel,
    handler: HandlerId,
    body: StmtId,
    label: EffectLabelId,
    found: Set<StmtId>,
) -> bool {
    (found.contains(body) && !handles(p, handler, label)) || clauses_perform(p, handler, found)
}

/// Whether a resumption goes back into the region that a statement handles.
pub open spec fn resumes_into(p: CoreModel, resume: VarId, s: StmtId) -> bool {
    p.has_stmt(s) && (p.stmt(s) matches StmtModel::Handle { handler, .. } && p.has_handler(handler)
        && exists|i: int|
        0 <= i < p.handler(handler).clauses.len() && (#[trigger] p.handler(
            handler,
        ).clauses[i]).resume_param == Some(resume))
}

/// Whether an effect leaves a region that a resumption goes back into.
pub open spec fn resumed_performs(
    p: CoreModel,
    resume: VarId,
    label: EffectLabelId,
    found: Set<StmtId>,
) -> bool {
    exists|t: StmtId| #[trigger]
        resumes_into(p, resume, t) && region_performs(
            p,
            p.stmt(t)->handler,
            p.stmt(t)->Handle_body,
            label,
            found,
        )
}

/// Whether a statement may perform an effect, given statements that may.
pub open spec fn step(p: CoreModel, s: StmtId, label: EffectLabelId, found: Set<StmtId>) -> bool {
    p.has_stmt(s) && (performs(p.stmt(s), label) || match p.stmt(s) {
        StmtModel::Let { next, .. } => found.contains(next),
        StmtModel::Val { value, next, .. } => found.contains(value) || found.contains(next),
        StmtModel::Call { next, .. } => found.contains(next),
        StmtModel::Perform { next, .. } => found.contains(next),
        StmtModel::Resume { resume, next, .. } => found.contains(next) || resumed_performs(
            p,
            resume,
            label,
            found,
        ),
        StmtModel::If { then_branch, else_branch, .. } => found.contains(then_branch)
            || found.contains(else_branch),
        StmtModel::Match { arms, default, .. } => {
            ||| exists|i: int| 0 <= i < arms.len() && found.contains((#[trigger] arms[i]).body)
            ||| default matches Some(default) && found.contains(default)
        },
        StmtModel::Handle { handler, body, next } => {
            ||| region_performs(p, handler, body, label, found)
            ||| next matches Some(next) && found.contains(next)
        },
        StmtModel::Stage { body, next, .. } => {
            ||| found.contains(body)
            ||| next matches Some(next) && found.contains(next)
        },
        StmtModel::Return(_) | StmtModel::Hole { .. } | StmtModel::Error(_) => false,
    })
}

/// The statements that are seen to perform an effect after some rounds.
pub open spec fn seen(p: CoreModel, label: EffectLabelId, rounds: nat) -> Set<StmtId>
    decreases rounds,
{
    if rounds == 0 {
        Set::empty()
    } else {
        let before = seen(p, label, (rounds - 1) as nat);
        Set::new(|s: StmtId| step(p, s, label, before))
    }
}

/// Whether a statement may perform an effect that it does not handle itself,
/// wherever running it leads: through what it is made of, through the clauses
/// of the handlers in it, and through what a clause resumes.
pub open spec fn may_perform(p: CoreModel, s: StmtId, label: EffectLabelId) -> bool {
    exists|rounds: nat| #[trigger] seen(p, label, rounds).contains(s)
}

/// A row that lists what a statement may perform.
pub open spec fn row_of(p: CoreModel, s: StmtId, row: Seq<EffectLabelId>) -> bool {
    &&& crate::sema::effect::ascending(row)
    &&& forall|label: EffectLabelId| #[trigger] row.contains(label) <==> may_perform(p, s, label)
}

// ---------------------------------------------------------------------------
// How the rounds go on
// ---------------------------------------------------------------------------

proof fn lemma_step_grows(
    p: CoreModel,
    s: StmtId,
    label: EffectLabelId,
    a: Set<StmtId>,
    b: Set<StmtId>,
)
    requires
        a.subset_of(b),
        step(p, s, label, a),
    ensures
        step(p, s, label, b),
{
    assert(forall|x: StmtId| a.contains(x) ==> b.contains(x));
    match p.stmt(s) {
        StmtModel::Resume { resume, next, .. } => {
            if !a.contains(next) {
                let t = choose|t: StmtId| #[trigger]
                    resumes_into(p, resume, t) && region_performs(
                        p,
                        p.stmt(t)->handler,
                        p.stmt(t)->Handle_body,
                        label,
                        a,
                    );
                assert(resumes_into(p, resume, t));
                assert(region_performs(p, p.stmt(t)->handler, p.stmt(t)->Handle_body, label, b));
            }
        },
        _ => {},
    }
}

proof fn lemma_seen_grows(p: CoreModel, label: EffectLabelId, few: nat, many: nat)
    requires
        few <= many,
    ensures
        seen(p, label, few).subset_of(seen(p, label, many)),
    decreases few,
{
    if few > 0 {
        lemma_seen_grows(p, label, (few - 1) as nat, (many - 1) as nat);
        assert forall|s: StmtId| seen(p, label, few).contains(s) implies seen(
            p,
            label,
            many,
        ).contains(s) by {
            lemma_step_grows(
                p,
                s,
                label,
                seen(p, label, (few - 1) as nat),
                seen(p, label, (many - 1) as nat),
            );
        }
    }
}

/// Statements to which a round adds nothing are all that are ever seen.
proof fn lemma_seen_within(p: CoreModel, label: EffectLabelId, found: Set<StmtId>, rounds: nat)
    requires
        forall|s: StmtId| #[trigger] step(p, s, label, found) ==> found.contains(s),
    ensures
        seen(p, label, rounds).subset_of(found),
    decreases rounds,
{
    if rounds > 0 {
        lemma_seen_within(p, label, found, (rounds - 1) as nat);
        assert forall|s: StmtId| seen(p, label, rounds).contains(s) implies found.contains(s) by {
            lemma_step_grows(p, s, label, seen(p, label, (rounds - 1) as nat), found);
        }
    }
}

/// What no statement performs itself, none may perform.
proof fn lemma_performed_somewhere(p: CoreModel, s: StmtId, label: EffectLabelId)
    requires
        may_perform(p, s, label),
        p.stmts.len() <= usize::MAX,
    ensures
        exists|i: int| 0 <= i < p.stmts.len() && performs((#[trigger] p.stmts[i]).kind, label),
{
    if !exists|i: int| 0 <= i < p.stmts.len() && performs((#[trigger] p.stmts[i]).kind, label) {
        let none = Set::<StmtId>::empty();
        assert forall|t: StmtId| #[trigger] step(p, t, label, none) implies none.contains(t) by {
            assert(!performs(p.stmts[t.0 as int].kind, label));
        }
        let rounds = choose|rounds: nat| #[trigger] seen(p, label, rounds).contains(s);
        lemma_seen_within(p, label, none, rounds);
    }
}

// ---------------------------------------------------------------------------
// The search
// ---------------------------------------------------------------------------

/// The statements that are marked.
spec fn marked(found: Seq<bool>) -> Set<StmtId> {
    Set::new(|s: StmtId| s.0 < found.len() && found[s.0 as int])
}

fn is_found(found: &Vec<bool>, s: StmtId) -> (b: bool)
    ensures
        b == marked(found@).contains(s),
{
    s.0 < found.len() && found[s.0]
}

fn is_found_option(found: &Vec<bool>, s: Option<StmtId>) -> (b: bool)
    ensures
        b == (s matches Some(t) && marked(found@).contains(t)),
{
    match s {
        Some(t) => is_found(found, t),
        None => false,
    }
}

fn handler_performs(def: &HandlerDef, found: &Vec<bool>) -> (b: bool)
    ensures
        b == (marked(found@).contains(def.return_body) || exists|i: int|
            0 <= i < def@.clauses.len() && marked(found@).contains(
                (#[trigger] def@.clauses[i]).body,
            )),
{
    if is_found(found, def.return_body) {
        return true;
    }
    let mut i: usize = 0;
    while i < def.clauses.len()
        invariant
            i <= def.clauses@.len(),
            forall|j: int|
                0 <= j < i ==> !marked(found@).contains((#[trigger] def@.clauses[j]).body),
        decreases def.clauses@.len() - i,
    {
        assert(def@.clauses[i as int] == def.clauses@[i as int]@);
        if is_found(found, def.clauses[i].body) {
            return true;
        }
        i += 1;
    }
    false
}

fn does_region_perform(
    program: &CoreProgram,
    handler: HandlerId,
    body: StmtId,
    label: EffectLabelId,
    found: &Vec<bool>,
) -> (b: bool)
    ensures
        b == region_performs(program@, handler, body, label, marked(found@)),
{
    match program.handler(handler) {
        Some(def) => {
            (is_found(found, body) && def.effect != label) || handler_performs(def, found)
        },
        None => is_found(found, body),
    }
}

/// Whether a clause of a handler resumes by a name.
fn has_resumption(def: &HandlerDef, resume: VarId) -> (b: bool)
    ensures
        b == exists|i: int|
            0 <= i < def@.clauses.len() && (#[trigger] def@.clauses[i]).resume_param == Some(resume),
{
    let mut i: usize = 0;
    while i < def.clauses.len()
        invariant
            i <= def.clauses@.len(),
            forall|j: int|
                0 <= j < i ==> (#[trigger] def@.clauses[j]).resume_param != Some(resume),
        decreases def.clauses@.len() - i,
    {
        assert(def@.clauses[i as int] == def.clauses@[i as int]@);
        if let Some(var) = def.clauses[i].resume_param {
            if var == resume {
                return true;
            }
        }
        i += 1;
    }
    false
}

/// Whether what a resumption goes back into performs an effect.
fn does_resumed_perform(
    program: &CoreProgram,
    resume: VarId,
    label: EffectLabelId,
    found: &Vec<bool>,
) -> (b: bool)
    ensures
        b == resumed_performs(program@, resume, label, marked(found@)),
{
    let ghost p = program@;
    let mut i: usize = 0;
    while i < program.stmts.len()
        invariant
            p == program@,
            i <= program.stmts@.len(),
            forall|t: StmtId| #[trigger]
                resumes_into(p, resume, t) && t.0 < i ==> !region_performs(
                    p,
                    p.stmt(t)->handler,
                    p.stmt(t)->Handle_body,
                    label,
                    marked(found@),
                ),
        decreases program.stmts@.len() - i,
    {
        let ghost t = StmtId(i);
        assert(p.stmt(t) == program.stmts@[i as int].kind@);
        if let StmtKind::Handle { handler, body, .. } = &program.stmts[i].kind {
            if let Some(def) = program.handler(*handler) {
                if has_resumption(def, resume) && does_region_perform(
                    program,
                    *handler,
                    *body,
                    label,
                    found,
                ) {
                    assert(resumes_into(p, resume, t));
                    return true;
                }
            }
        }
        i += 1;
    }
    false
}

/// One step of the search.
fn may_perform_now(program: &CoreProgram, s: StmtId, label: EffectLabelId, found: &Vec<bool>) -> (b:
    bool)
    ensures
        b == step(program@, s, label, marked(found@)),
{
    if s.0 >= program.stmts.len() {
        return false;
    }
    let ghost kind = program@.stmt(s);
    assert(kind == program.stmts@[s.0 as int].kind@);
    match &program.stmts[s.0].kind {
        StmtKind::Return(_) | StmtKind::Hole { .. } | StmtKind::Error(_) => false,
        StmtKind::Let { next, .. } => is_found(found, *next),
        StmtKind::Val { value, next, .. } => is_found(found, *value) || is_found(found, *next),
        StmtKind::Call { effects, next, .. } => effects.contains(label) || is_found(found, *next),
        StmtKind::Perform { effect, next, .. } => *effect == label || is_found(found, *next),
        StmtKind::Resume { resume, next, .. } => is_found(found, *next) || does_resumed_perform(
            program,
            *resume,
            label,
            found,
        ),
        StmtKind::If { then_branch, else_branch, .. } => is_found(found, *then_branch) || is_found(
            found,
            *else_branch,
        ),
        StmtKind::Match { arms, default, .. } => {
            let ghost models = crate::common::views(arms@);
            assert(kind is Match && kind->arms == models);
            let mut i: usize = 0;
            while i < arms.len()
                invariant
                    i <= arms@.len(),
                    models == crate::common::views(arms@),
                    kind == program@.stmt(s),
                    program@.has_stmt(s),
                    kind is Match,
                    kind->arms == models,
                    forall|j: int|
                        0 <= j < i ==> !marked(found@).contains((#[trigger] models[j]).body),
                decreases arms@.len() - i,
            {
                assert(models[i as int] == arms@[i as int]@);
                if is_found(found, arms[i].body) {
                    return true;
                }
                i += 1;
            }
            is_found_option(found, *default)
        },
        StmtKind::Handle { handler, body, next } => does_region_perform(
            program,
            *handler,
            *body,
            label,
            found,
        ) || is_found_option(found, *next),
        StmtKind::Stage { body, next, .. } => is_found(found, *body) || is_found_option(
            found,
            *next,
        ),
    }
}

/// How many statements are not marked.
spec fn unmarked(found: Seq<bool>) -> nat
    decreases found.len(),
{
    if found.len() == 0 {
        0
    } else {
        unmarked(found.drop_last()) + if found.last() {
            0nat
        } else {
            1nat
        }
    }
}

proof fn lemma_mark(found: Seq<bool>, i: int)
    requires
        0 <= i < found.len(),
        !found[i],
    ensures
        unmarked(found.update(i, true)) + 1 == unmarked(found),
    decreases found.len(),
{
    let after = found.update(i, true);
    if i == found.len() - 1 {
        assert(after.drop_last() =~= found.drop_last());
    } else {
        assert(after.drop_last() =~= found.drop_last().update(i, true));
        lemma_mark(found.drop_last(), i);
    }
}

/// Which statements may perform an effect.
fn find_performers(program: &CoreProgram, label: EffectLabelId) -> (found: Vec<bool>)
    ensures
        found@.len() == program@.stmts.len(),
        forall|i: int|
            0 <= i < found@.len() ==> (#[trigger] found@[i] <==> may_perform(
                program@,
                StmtId(i as usize),
                label,
            )),
{
    let ghost p = program@;
    let mut found: Vec<bool> = Vec::new();
    while found.len() < program.stmts.len()
        invariant
            found@.len() <= program.stmts@.len(),
            forall|i: int| 0 <= i < found@.len() ==> !(#[trigger] found@[i]),
        decreases program.stmts@.len() - found@.len(),
    {
        found.push(false);
    }
    let ghost mut rounds: nat = 0;
    let mut changed = true;
    while changed
        invariant
            p == program@,
            found@.len() == program.stmts@.len(),
            marked(found@).subset_of(seen(p, label, rounds)),
            !changed ==> forall|s: StmtId| #[trigger]
                step(p, s, label, marked(found@)) ==> marked(found@).contains(s),
        decreases
                unmarked(found@) + if changed {
                    1nat
                } else {
                    0nat
                },
    {
        changed = false;
        let ghost start = found@;
        let mut i: usize = 0;
        while i < program.stmts.len()
            invariant
                p == program@,
                i <= program.stmts@.len(),
                found@.len() == program.stmts@.len(),
                marked(found@).subset_of(seen(p, label, rounds)),
                changed ==> unmarked(found@) < unmarked(start),
                !changed ==> found@ == start && forall|j: int|
                    0 <= j < i && !(#[trigger] start[j]) ==> !step(
                        p,
                        StmtId(j as usize),
                        label,
                        marked(start),
                    ),
            decreases program.stmts@.len() - i,
        {
            if !found[i] && may_perform_now(program, StmtId::new(i), label, &found) {
                let ghost before = found@;
                found[i] = true;
                changed = true;
                proof {
                    lemma_mark(before, i as int);
                    assert(found@ =~= before.update(i as int, true));
                    lemma_seen_grows(p, label, rounds, rounds + 1);
                    lemma_step_grows(p, StmtId(i), label, marked(before), seen(p, label, rounds));
                    assert forall|s: StmtId| marked(found@).contains(s) implies seen(
                        p,
                        label,
                        rounds + 1,
                    ).contains(s) by {
                        if s != StmtId(i) {
                            assert(marked(before).contains(s));
                        }
                    }
                    rounds = rounds + 1;
                }
            }
            i += 1;
        }
        proof {
            if !changed {
                assert forall|s: StmtId| #[trigger]
                    step(p, s, label, marked(found@)) implies marked(found@).contains(s) by {
                    if !start[s.0 as int] {
                        assert(StmtId(s.0) == s);
                    }
                }
            }
        }
    }
    proof {
        assert forall|i: int| 0 <= i < found@.len() implies (#[trigger] found@[i] <==> may_perform(
            p,
            StmtId(i as usize),
            label,
        )) by {
            let s = StmtId(i as usize);
            if found@[i] {
                assert(marked(found@).contains(s));
                assert(seen(p, label, rounds).contains(s));
            }
            if may_perform(p, s, label) {
                let n = choose|n: nat| #[trigger] seen(p, label, n).contains(s);
                lemma_seen_within(p, label, marked(found@), n);
                assert(marked(found@).contains(s));
            }
        }
    }
    found
}

proof fn lemma_single(label: EffectLabelId)
    ensures
        forall|x: EffectLabelId| #[trigger] seq![label].contains(x) <==> x == label,
{
    assert(seq![label][0] == label);
}

/// The effects that some statement performs itself.
fn list_performed(program: &CoreProgram) -> (labels: SortedEffectRow)
    ensures
        crate::sema::effect::ascending(labels@),
        forall|i: int, label: EffectLabelId|
            0 <= i < program@.stmts.len() && #[trigger] performs(program@.stmts[i].kind, label)
                ==> labels@.contains(label),
{
    let mut labels = SortedEffectRow::empty();
    let mut i: usize = 0;
    while i < program.stmts.len()
        invariant
            i <= program.stmts@.len(),
            crate::sema::effect::ascending(labels@),
            forall|j: int, label: EffectLabelId|
                0 <= j < i && #[trigger] performs(program@.stmts[j].kind, label)
                    ==> labels@.contains(label),
        decreases program.stmts@.len() - i,
    {
        assert(program@.stmts[i as int] == program.stmts@[i as int]@);
        match &program.stmts[i].kind {
            StmtKind::Call { effects, .. } => {
                labels = labels.union(effects);
            },
            StmtKind::Perform { effect, .. } => {
                proof {
                    lemma_single(*effect);
                }
                labels = labels.union(&SortedEffectRow::singleton(*effect));
            },
            _ => {},
        }
        i += 1;
    }
    labels
}

/// What each statement may perform.
pub(crate) fn infer_stmt_effects(program: &CoreProgram) -> (rows: Vec<SortedEffectRow>)
    ensures
        rows@.len() == program@.stmts.len(),
        forall|i: int|
            0 <= i < rows@.len() ==> row_of(
                program@,
                StmtId(i as usize),
                (#[trigger] rows@[i])@,
            ),
{
    let ghost p = program@;
    let labels = list_performed(program);
    let mut rows: Vec<SortedEffectRow> = Vec::new();
    while rows.len() < program.stmts.len()
        invariant
            rows@.len() <= program.stmts@.len(),
            forall|i: int| 0 <= i < rows@.len() ==> (#[trigger] rows@[i])@.len() == 0,
        decreases program.stmts@.len() - rows@.len(),
    {
        rows.push(SortedEffectRow::empty());
    }
    let mut k: usize = 0;
    while k < labels.labels.len()
        invariant
            p == program@,
            k <= labels@.len(),
            rows@.len() == program.stmts@.len(),
            forall|i: int| #![trigger rows@[i]]
                0 <= i < rows@.len() ==> {
                    &&& crate::sema::effect::ascending(rows@[i]@)
                    &&& forall|label: EffectLabelId| #[trigger]
                        rows@[i]@.contains(label) <==> may_perform(p, StmtId(i as usize), label)
                            && labels@.take(k as int).contains(label)
                },
        decreases labels@.len() - k,
    {
        let label = labels.labels[k];
        let found = find_performers(program, label);
        let ghost few = labels@.take(k as int);
        let ghost more = labels@.take(k + 1);
        proof {
            lemma_single(label);
            assert(more =~= few.push(label));
            assert forall|x: EffectLabelId| #[trigger] more.contains(x) <==> few.contains(x) || x
                == label by {
                if few.contains(x) {
                    let at = choose|at: int| 0 <= at < few.len() && few[at] == x;
                    assert(more[at] == x);
                }
                assert(more[k as int] == label);
            }
        }
        let mut i: usize = 0;
        while i < rows.len()
            invariant
                p == program@,
                i <= rows@.len(),
                rows@.len() == program.stmts@.len(),
                found@.len() == rows@.len(),
                forall|i: int|
                    0 <= i < found@.len() ==> (#[trigger] found@[i] <==> may_perform(
                        p,
                        StmtId(i as usize),
                        label,
                    )),
                forall|x: EffectLabelId| #[trigger] seq![label].contains(x) <==> x == label,
                forall|x: EffectLabelId| #[trigger]
                    more.contains(x) <==> few.contains(x) || x == label,
                forall|j: int| #![trigger rows@[j]]
                    0 <= j < rows@.len() ==> {
                        &&& crate::sema::effect::ascending(rows@[j]@)
                        &&& forall|x: EffectLabelId| #[trigger]
                            rows@[j]@.contains(x) <==> may_perform(p, StmtId(j as usize), x) && (if j
                                < i {
                                more
                            } else {
                                few
                            }).contains(x)
                    },
            decreases rows@.len() - i,
        {
            assert(found@[i as int] <==> may_perform(p, StmtId(i), label));
            if found[i] {
                let row = rows[i].union(&SortedEffectRow::singleton(label));
                rows[i] = row;
            }
            i += 1;
        }
        k += 1;
    }
    proof {
        assert(labels@.take(k as int) =~= labels@);
        assert forall|i: int| 0 <= i < rows@.len() implies row_of(
            p,
            StmtId(i as usize),
            (#[trigger] rows@[i])@,
        ) by {
            assert forall|label: EffectLabelId| #[trigger]
                rows@[i]@.contains(label) <==> may_perform(p, StmtId(i as usize), label) by {
                if may_perform(p, StmtId(i as usize), label) {
                    lemma_performed_somewhere(p, StmtId(i as usize), label);
                    let at = choose|at: int|
                        0 <= at < p.stmts.len() && performs((#[trigger] p.stmts[at]).kind, label);
                    assert(performs(p.stmts[at].kind, label));
                }
            }
        }
    }
    rows
}

// ---------------------------------------------------------------------------
// Laws
// ---------------------------------------------------------------------------

/// All statements that may perform an effect.
pub open spec fn performers(p: CoreModel, label: EffectLabelId) -> Set<StmtId> {
    Set::new(|s: StmtId| may_perform(p, s, label))
}

/// A statement may perform what it performs itself, or what one that it leads to
/// may perform, and nothing else.
pub proof fn lemma_may_perform(p: CoreModel, s: StmtId, label: EffectLabelId)
    ensures
        may_perform(p, s, label) <==> step(p, s, label, performers(p, label)),
{
    let all = performers(p, label);
    if may_perform(p, s, label) {
        let rounds = choose|rounds: nat| #[trigger] seen(p, label, rounds).contains(s);
        let before = seen(p, label, (rounds - 1) as nat);
        assert(before.subset_of(all));
        lemma_step_grows(p, s, label, before, all);
    }
    if step(p, s, label, all) {
        lemma_step_needs_one(p, s, label, all);
        if step(p, s, label, Set::empty()) {
            lemma_step_grows(p, s, label, Set::empty(), seen(p, label, 0));
            assert(seen(p, label, 1).contains(s));
        } else {
            let one = choose|one: StmtId|
                all.contains(one) && #[trigger] step(p, s, label, set![one]);
            let rounds = choose|rounds: nat| #[trigger] seen(p, label, rounds).contains(one);
            assert(set![one].subset_of(seen(p, label, rounds)));
            lemma_step_grows(p, s, label, set![one], seen(p, label, rounds));
            assert(seen(p, label, rounds + 1).contains(s));
        }
    }
}

/// One known statement is enough to learn of another.
proof fn lemma_step_needs_one(p: CoreModel, s: StmtId, label: EffectLabelId, found: Set<StmtId>)
    requires
        step(p, s, label, found),
    ensures
        step(p, s, label, Set::empty()) || exists|one: StmtId|
            found.contains(one) && #[trigger] step(p, s, label, set![one]),
{
    if !step(p, s, label, Set::empty()) {
        assert(!performs(p.stmt(s), label));
        match p.stmt(s) {
            StmtModel::Let { next, .. }
            | StmtModel::Call { next, .. }
            | StmtModel::Perform { next, .. } => {
                assert(step(p, s, label, set![next]));
            },
            StmtModel::Val { value, next, .. } => {
                assert(found.contains(value) ==> step(p, s, label, set![value]));
                assert(found.contains(next) ==> step(p, s, label, set![next]));
            },
            StmtModel::Resume { resume, next, .. } => {
                if found.contains(next) {
                    assert(step(p, s, label, set![next]));
                } else {
                    let t = choose|t: StmtId| #[trigger]
                        resumes_into(p, resume, t) && region_performs(
                            p,
                            p.stmt(t)->handler,
                            p.stmt(t)->Handle_body,
                            label,
                            found,
                        );
                    let handler = p.stmt(t)->handler;
                    let body = p.stmt(t)->Handle_body;
                    lemma_region_needs_one(p, handler, body, label, found);
                    let one = choose|one: StmtId|
                        found.contains(one) && #[trigger] region_performs(
                            p,
                            handler,
                            body,
                            label,
                            set![one],
                        );
                    assert(resumes_into(p, resume, t));
                    assert(step(p, s, label, set![one]));
                }
            },
            StmtModel::If { then_branch, else_branch, .. } => {
                assert(found.contains(then_branch) ==> step(p, s, label, set![then_branch]));
                assert(found.contains(else_branch) ==> step(p, s, label, set![else_branch]));
            },
            StmtModel::Match { arms, default, .. } => {
                if exists|i: int| 0 <= i < arms.len() && found.contains((#[trigger] arms[i]).body) {
                    let i = choose|i: int|
                        0 <= i < arms.len() && found.contains((#[trigger] arms[i]).body);
                    assert(set![arms[i].body].contains(arms[i].body));
                    assert(step(p, s, label, set![arms[i].body]));
                } else {
                    assert(step(p, s, label, set![default->0]));
                }
            },
            StmtModel::Handle { handler, body, next } => {
                if region_performs(p, handler, body, label, found) {
                    lemma_region_needs_one(p, handler, body, label, found);
                    let one = choose|one: StmtId|
                        found.contains(one) && #[trigger] region_performs(
                            p,
                            handler,
                            body,
                            label,
                            set![one],
                        );
                    assert(step(p, s, label, set![one]));
                } else {
                    assert(step(p, s, label, set![next->0]));
                }
            },
            StmtModel::Stage { body, next, .. } => {
                if found.contains(body) {
                    assert(step(p, s, label, set![body]));
                } else {
                    assert(step(p, s, label, set![next->0]));
                }
            },
            _ => {},
        }
    }
}

proof fn lemma_region_needs_one(
    p: CoreModel,
    handler: HandlerId,
    body: StmtId,
    label: EffectLabelId,
    found: Set<StmtId>,
)
    requires
        region_performs(p, handler, body, label, found),
    ensures
        exists|one: StmtId|
            found.contains(one) && #[trigger] region_performs(p, handler, body, label, set![one]),
{
    if found.contains(body) && !handles(p, handler, label) {
        assert(region_performs(p, handler, body, label, set![body]));
    } else {
        let def = p.handler(handler);
        if found.contains(def.return_body) {
            assert(region_performs(p, handler, body, label, set![def.return_body]));
        } else {
            let i = choose|i: int|
                0 <= i < def.clauses.len() && found.contains((#[trigger] def.clauses[i]).body);
            let one = def.clauses[i].body;
            assert(set![one].contains(p.handler(handler).clauses[i].body));
            assert(region_performs(p, handler, body, label, set![one]));
        }
    }
}

/// What a clause of a handler may perform, a statement that installs the handler
/// may perform.
pub proof fn lemma_clause_performs(p: CoreModel, s: StmtId, i: int, label: EffectLabelId)
    requires
        p.has_stmt(s),
        p.stmt(s) is Handle,
        p.has_handler(p.stmt(s)->handler),
        0 <= i < p.handler(p.stmt(s)->handler).clauses.len(),
        may_perform(p, p.handler(p.stmt(s)->handler).clauses[i].body, label),
    ensures
        may_perform(p, s, label),
{
    lemma_may_perform(p, s, label);
    assert(performers(p, label).contains(p.handler(p.stmt(s)->handler).clauses[i].body));
}

/// A handler that nothing follows, and that does not perform in turn what it
/// handles, discharges the effect that it handles.
pub proof fn lemma_handled(p: CoreModel, s: StmtId)
    requires
        p.has_stmt(s),
        p.stmt(s) is Handle,
        p.stmt(s)->Handle_next is None,
        p.has_handler(p.stmt(s)->handler),
        !clauses_perform(
            p,
            p.stmt(s)->handler,
            performers(p, p.handler(p.stmt(s)->handler).effect),
        ),
    ensures
        !may_perform(p, s, p.handler(p.stmt(s)->handler).effect),
{
    lemma_may_perform(p, s, p.handler(p.stmt(s)->handler).effect);
}

} // verus!
