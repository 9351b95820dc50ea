//! Code performs only effects that it is found to perform.
use crate::common::ids::{EffectLabelId, StmtId};
use crate::ir::core_ir::{CoreModel, StmtModel};
use crate::meaning::values::Value;
use crate::meaning::worlds::{Event, World};
use vstd::prelude::*;

verus! {

/// How many more handlers of an effect are installed than taken away among the
/// events from one on to another.
pub open spec fn handlers_in(events: Seq<Event>, label: EffectLabelId, from: int, to: int) -> int
    decreases to - from,
{
    if to <= from {
        0
    } else {
        handlers_in(events, label, from, to - 1) + match events[to - 1] {
            Event::Install { effect, .. } => if effect == label {
                1int
            } else {
                0
            },
            Event::Remove { effect, .. } => if effect == label {
                -1int
            } else {
                0
            },
            _ => 0,
        }
    }
}

/// The events from one on are those of code that leaves no handler installed, and
/// that performs an effect outside of all handlers of it only if it may.
pub open spec fn performs_if(
    events: Seq<Event>,
    label: EffectLabelId,
    from: int,
    may: bool,
) -> bool {
    &&& from <= events.len()
    &&& handlers_in(events, label, from, events.len() as int) == 0
    &&& forall|k: int|
        from <= k < events.len() ==> #[trigger] event_fine(events, label, from, k, may)
}

/// The same of one of the events.
pub open spec fn event_fine(
    events: Seq<Event>,
    label: EffectLabelId,
    from: int,
    k: int,
    may: bool,
) -> bool {
    &&& handlers_in(events, label, from, k) >= 0
    &&& events[k] matches Event::Perform { effect, .. } ==> (effect == label && handlers_in(
        events,
        label,
        from,
        k,
    ) == 0 ==> may)
}

/// One run of events goes on where another ends.
pub open spec fn goes_on(before: Seq<Event>, after: Seq<Event>) -> bool {
    before.len() <= after.len() && forall|i: int|
        0 <= i < before.len() ==> #[trigger] after[i] == before[i]
}

proof fn lemma_handlers_split(
    events: Seq<Event>,
    label: EffectLabelId,
    from: int,
    mid: int,
    to: int,
)
    requires
        from <= mid <= to,
    ensures
        handlers_in(events, label, from, to) == handlers_in(events, label, from, mid)
            + handlers_in(events, label, mid, to),
    decreases to - mid,
{
    if mid < to {
        lemma_handlers_split(events, label, from, mid, to - 1);
    }
}

proof fn lemma_handlers_same(
    a: Seq<Event>,
    b: Seq<Event>,
    label: EffectLabelId,
    from: int,
    to: int,
)
    requires
        0 <= from,
        goes_on(a, b),
        to <= a.len(),
    ensures
        handlers_in(a, label, from, to) == handlers_in(b, label, from, to),
    decreases to - from,
{
    if from < to {
        lemma_handlers_same(a, b, label, from, to - 1);
        assert(b[to - 1] == a[to - 1]);
    }
}

/// Code, then more code.
proof fn lemma_then(
    mid: Seq<Event>,
    after: Seq<Event>,
    label: EffectLabelId,
    from: int,
    first: bool,
    second: bool,
)
    requires
        0 <= from,
        performs_if(mid, label, from, first),
        goes_on(mid, after),
        performs_if(after, label, mid.len() as int, second),
    ensures
        performs_if(after, label, from, first || second),
{
    let m = mid.len() as int;
    lemma_handlers_split(after, label, from, m, after.len() as int);
    lemma_handlers_same(mid, after, label, from, m);
    let either = first || second;
    assert forall|k: int| from <= k < after.len() implies #[trigger] event_fine(
        after,
        label,
        from,
        k,
        either,
    ) by {
        if k < m {
            lemma_handlers_same(mid, after, label, from, k);
            assert(after[k] == mid[k]);
            assert(event_fine(mid, label, from, k, first));
        } else {
            lemma_handlers_split(after, label, from, m, k);
            assert(event_fine(after, label, m, k, second));
        }
    }
}

/// An event that installs and takes away nothing.
proof fn lemma_one(before: Seq<Event>, event: Event, label: EffectLabelId, may: bool)
    requires
        !(event is Install),
        !(event is Remove),
        event matches Event::Perform { effect, .. } ==> (effect == label ==> may),
    ensures
        performs_if(before.push(event), label, before.len() as int, may),
        goes_on(before, before.push(event)),
{
    let after = before.push(event);
    let n = before.len() as int;
    reveal_with_fuel(handlers_in, 2);
    assert(after[n] == event);
}

/// Code round which a handler is installed.
proof fn lemma_round(
    before: Seq<Event>,
    inner: Seq<Event>,
    effect: EffectLabelId,
    operations: Seq<(crate::common::ids::SymbolId, nat)>,
    label: EffectLabelId,
    may: bool,
)
    requires
        goes_on(before.push(Event::Install { effect, operations }), inner),
        performs_if(inner, label, before.len() as int + 1, may),
    ensures
        performs_if(
            inner.push(Event::Remove { effect, operations }),
            label,
            before.len() as int,
            may && effect != label,
        ),
        goes_on(before, inner.push(Event::Remove { effect, operations })),
{
    let opened = before.push(Event::Install { effect, operations });
    let after = inner.push(Event::Remove { effect, operations });
    let n = before.len() as int;
    let m = inner.len() as int;
    assert(inner[n] == opened[n]);
    assert forall|i: int| 0 <= i < before.len() implies #[trigger] after[i] == before[i] by {
        assert(inner[i] == opened[i]);
    }
    lemma_handlers_same(inner, after, label, n + 1, m);
    lemma_handlers_split(after, label, n, n + 1, m);
    lemma_handlers_split(after, label, n, m, m + 1);
    reveal_with_fuel(handlers_in, 2);
    assert(after[n] == opened[n]);
    assert(after[m] == (Event::Remove { effect, operations }));
    let outside = may && effect != label;
    assert forall|k: int| n <= k < after.len() implies #[trigger] event_fine(
        after,
        label,
        n,
        k,
        outside,
    ) by {
        if n < k {
            lemma_handlers_split(after, label, n, n + 1, k);
            if k < m {
                lemma_handlers_same(inner, after, label, n + 1, k);
                assert(after[k] == inner[k]);
                assert(event_fine(inner, label, n + 1, k, may));
            }
        }
    }
}

proof fn lemma_goes_on(a: Seq<Event>, b: Seq<Event>, c: Seq<Event>)
    requires
        goes_on(a, b),
        goes_on(b, c),
    ensures
        goes_on(a, c),
{
    assert forall|i: int| 0 <= i < a.len() implies #[trigger] c[i] == a[i] by {
        assert(b[i] == a[i]);
    }
}

proof fn lemma_weaker(events: Seq<Event>, label: EffectLabelId, from: int, may: bool, more: bool)
    requires
        performs_if(events, label, from, may),
        may ==> more,
    ensures
        performs_if(events, label, from, more),
{
    assert forall|k: int| from <= k < events.len() implies #[trigger] event_fine(
        events,
        label,
        from,
        k,
        more,
    ) by {
        assert(event_fine(events, label, from, k, may));
    }
}

proof fn lemma_nothing(events: Seq<Event>, label: EffectLabelId)
    ensures
        performs_if(events, label, events.len() as int, false),
        goes_on(events, events),
{
}

/// An effect that code performs, outside of all handlers of that effect in it, is
/// one that it is found to perform.
#[verifier::rlimit(60)]
#[verifier::spinoff_prover]
pub proof fn lemma_performed_is_found(
    w: World,
    p: CoreModel,
    s: StmtId,
    label: EffectLabelId,
    vars: Map<usize, Value>,
    seen: Seq<Event>,
)
    requires
        p.acyclic(),
        p.stmts_closed(),
    ensures
        goes_on(seen, crate::meaning::open_run::open_run(w, p, vars, seen, s).seen),
        performs_if(
            crate::meaning::open_run::open_run(w, p, vars, seen, s).seen,
            label,
            seen.len() as int,
            crate::sema::typecheck::effects::may_perform(p, s, label),
        ),
    decreases p.stmt_rank(s),
{
    let m = w.arithmetic;
    crate::passes::linearize::analysis::lemma_stmt_ranks(p, s);
    crate::sema::typecheck::effects::lemma_may_perform(p, s, label);
    let may = crate::sema::typecheck::effects::may_perform(p, s, label);
    let all = crate::sema::typecheck::effects::performers(p, label);
    let end = crate::meaning::open_run::open_run(w, p, vars, seen, s).seen;
    let from = seen.len() as int;
    lemma_nothing(seen, label);
    if p.has_stmt(s) {
        match p.stmt(s) {
            StmtModel::Let { binding, value, next } => {
                let v = crate::meaning::core_values::core_value(m, p, vars, value);
                lemma_performed_is_found(w, p, next, label, vars.insert(binding.0, v), seen);
                assert(all.contains(next)
                    == crate::sema::typecheck::effects::may_perform(p, next, label));
                lemma_weaker(end, label, from, all.contains(next), may);
            },
            StmtModel::Val { binding, value, next } => {
                lemma_performed_is_found(w, p, value, label, vars, seen);
                let o = crate::meaning::open_run::open_run(w, p, vars, seen, value);
                lemma_performed_is_found(
                    w,
                    p,
                    next,
                    label,
                    vars.insert(binding.0, o.value),
                    o.seen,
                );
                lemma_goes_on(seen, o.seen, end);
                lemma_then(
                    o.seen,
                    end,
                    label,
                    from,
                    crate::sema::typecheck::effects::may_perform(p, value, label),
                    crate::sema::typecheck::effects::may_perform(p, next, label),
                );
                assert(all.contains(next)
                    == crate::sema::typecheck::effects::may_perform(p, next, label));
                assert(all.contains(value)
                    == crate::sema::typecheck::effects::may_perform(p, value, label));
                lemma_weaker(end, label, from, all.contains(value) || all.contains(next), may);
            },
            StmtModel::Call { result, callee, args, next, .. } => {
                let event = Event::Call {
                    callee: crate::meaning::core_values::name_of(p, callee),
                    args: crate::meaning::core_values::core_all(m, p, vars, args),
                };
                let more = seen.push(event);
                lemma_one(seen, event, label, false);
                lemma_performed_is_found(
                    w,
                    p,
                    next,
                    label,
                    vars.insert(result.0, (w.answer)(more)),
                    more,
                );
                lemma_goes_on(seen, more, end);
                lemma_then(
                    more,
                    end,
                    label,
                    from,
                    false,
                    crate::sema::typecheck::effects::may_perform(p, next, label),
                );
                assert(all.contains(next)
                    == crate::sema::typecheck::effects::may_perform(p, next, label));
                lemma_weaker(end, label, from, all.contains(next), may);
            },
            StmtModel::If { cond, then_branch, else_branch } => {
                lemma_performed_is_found(w, p, then_branch, label, vars, seen);
                lemma_performed_is_found(w, p, else_branch, label, vars, seen);
                assert(all.contains(then_branch)
                    == crate::sema::typecheck::effects::may_perform(p, then_branch, label));
                assert(all.contains(else_branch)
                    == crate::sema::typecheck::effects::may_perform(p, else_branch, label));
                if let Value::Bool(taken) = crate::meaning::core_values::core_value(
                    m,
                    p,
                    vars,
                    cond,
                ) {
                    if taken {
                        lemma_weaker(end, label, from, all.contains(then_branch), may);
                    } else {
                        lemma_weaker(end, label, from, all.contains(else_branch), may);
                    }
                } else {
                    lemma_weaker(end, label, from, false, may);
                }
            },
            StmtModel::Match { scrutinee, arms, default } => {
                let value = crate::meaning::core_values::core_value(m, p, vars, scrutinee);
                let tags = crate::meaning::core_run::core_tags(arms);
                crate::meaning::worlds::lemma_arm_of(tags, value);
                match crate::meaning::worlds::arm_of(tags, value) {
                    Some(i) => {
                        crate::ir::core_ir::lemma_arm_is_part(p.stmt(s), i);
                        let body = arms[i].body;
                        lemma_performed_is_found(
                            w,
                            p,
                            body,
                            label,
                            crate::meaning::worlds::with_fields(
                                vars,
                                arms[i].binders,
                                value,
                                arms[i].binders.len(),
                            ),
                            seen,
                        );
                        assert(all.contains(body)
                            == crate::sema::typecheck::effects::may_perform(p, body, label));
                        assert(all.contains(body) ==> may) by {
                            if all.contains(body) {
                                assert(all.contains(arms[i].body));
                            }
                        }
                        lemma_weaker(end, label, from, all.contains(body), may);
                    },
                    None => {
                        if let Some(part) = default {
                            lemma_performed_is_found(w, p, part, label, vars, seen);
                            assert(all.contains(part)
                                == crate::sema::typecheck::effects::may_perform(p, part, label));
                            lemma_weaker(end, label, from, all.contains(part), may);
                        } else {
                            lemma_weaker(end, label, from, false, may);
                        }
                    },
                }
            },
            StmtModel::Perform { result, effect, operation, args, next } => {
                let event = Event::Perform {
                    effect,
                    operation,
                    args: crate::meaning::core_values::core_all(m, p, vars, args),
                };
                let more = seen.push(event);
                lemma_one(seen, event, label, effect == label);
                lemma_performed_is_found(
                    w,
                    p,
                    next,
                    label,
                    crate::meaning::worlds::bind_option(vars, result, (w.answer)(more)),
                    more,
                );
                lemma_goes_on(seen, more, end);
                lemma_then(
                    more,
                    end,
                    label,
                    from,
                    effect == label,
                    crate::sema::typecheck::effects::may_perform(p, next, label),
                );
                assert(all.contains(next)
                    == crate::sema::typecheck::effects::may_perform(p, next, label));
                lemma_weaker(end, label, from, effect == label || all.contains(next), may);
            },
            StmtModel::Resume { result, resume, arg, next } => {
                let event = Event::Resume {
                    of: crate::meaning::core_values::value_of(vars, resume),
                    with: crate::meaning::core_values::core_value(m, p, vars, arg),
                };
                let more = seen.push(event);
                lemma_one(seen, event, label, false);
                lemma_performed_is_found(
                    w,
                    p,
                    next,
                    label,
                    vars.insert(result.0, (w.answer)(more)),
                    more,
                );
                lemma_goes_on(seen, more, end);
                lemma_then(
                    more,
                    end,
                    label,
                    from,
                    false,
                    crate::sema::typecheck::effects::may_perform(p, next, label),
                );
                assert(all.contains(next)
                    == crate::sema::typecheck::effects::may_perform(p, next, label));
                lemma_weaker(end, label, from, all.contains(next), may);
            },
            StmtModel::Handle { handler, body, next } => {
                let effect = crate::meaning::open_run::effect_of(p, handler);
                let operations = crate::meaning::open_run::clauses_of(p, handler);
                let inside = seen.push(Event::Install { effect, operations });
                lemma_performed_is_found(w, p, body, label, vars, inside);
                let o = crate::meaning::open_run::open_run(w, p, vars, inside, body);
                let left = o.seen.push(Event::Remove { effect, operations });
                let in_body = crate::sema::typecheck::effects::may_perform(p, body, label);
                lemma_round(seen, o.seen, effect, operations, label, in_body);
                assert(all.contains(body) == in_body);
                assert(in_body && effect != label ==> may);
                if let Some(next) = next {
                    lemma_performed_is_found(w, p, next, label, vars, left);
                    let after = crate::sema::typecheck::effects::may_perform(p, next, label);
                    assert(all.contains(next) == after);
                    lemma_goes_on(seen, left, end);
                    lemma_then(left, end, label, from, in_body && effect != label, after);
                    lemma_weaker(end, label, from, in_body && effect != label || after, may);
                } else {
                    lemma_weaker(end, label, from, in_body && effect != label, may);
                }
            },
            StmtModel::Stage { stage, body, next } => {
                let event = Event::Stage(stage);
                let inside = seen.push(event);
                lemma_one(seen, event, label, false);
                lemma_performed_is_found(w, p, body, label, vars, inside);
                let o = crate::meaning::open_run::open_run(w, p, vars, inside, body);
                let in_body = crate::sema::typecheck::effects::may_perform(p, body, label);
                assert(all.contains(body) == in_body);
                lemma_goes_on(seen, inside, o.seen);
                lemma_then(inside, o.seen, label, from, false, in_body);
                if let Some(next) = next {
                    lemma_performed_is_found(w, p, next, label, vars, o.seen);
                    let after = crate::sema::typecheck::effects::may_perform(p, next, label);
                    assert(all.contains(next) == after);
                    lemma_goes_on(seen, o.seen, end);
                    lemma_then(o.seen, end, label, from, in_body, after);
                    lemma_weaker(end, label, from, in_body || after, may);
                } else {
                    lemma_weaker(end, label, from, in_body, may);
                }
            },
            _ => {
                lemma_weaker(end, label, from, false, may);
            },
        }
    } else {
        lemma_weaker(end, label, from, false, may);
    }
}

/// Code that is found to perform an effect is part of a program in which some
/// statement performs it, or calls a function that does.
pub proof fn lemma_found_is_performed(
    p: CoreModel,
    s: StmtId,
    label: EffectLabelId,
    rounds: nat,
) -> (t: StmtId)
    requires
        crate::sema::typecheck::effects::seen(p, label, rounds).contains(s),
    ensures
        p.has_stmt(t),
        match p.stmt(t) {
            StmtModel::Perform { effect, .. } => effect == label,
            StmtModel::Call { effects, .. } => effects.contains(label),
            _ => false,
        },
    decreases rounds,
{
    let before = crate::sema::typecheck::effects::seen(p, label, (rounds - 1) as nat);
    if crate::sema::typecheck::effects::performs(p.stmt(s), label) {
        s
    } else {
        assert(exists|one: StmtId| before.contains(one)) by {
            if forall|one: StmtId| !before.contains(one) {
                assert(before =~= Set::empty());
            }
        }
        let one = choose|one: StmtId| before.contains(one);
        lemma_found_is_performed(p, one, label, (rounds - 1) as nat)
    }
}

} // verus!
