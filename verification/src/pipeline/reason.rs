//! Why something happens at run time.
use crate::common::ids::{EffectLabelId, ExprId, FuncId, HandlerId, TypeId, VarId};
use crate::common::text::{push_decimal, push_index, push_text};
use vstd::prelude::*;

verus! {

/// When an expression or a variable gets its value.
#[derive(Clone, Copy, PartialEq, Eq, Debug, Structural)]
pub enum Stage {
    Ct,
    Rt(Reason),
}

#[derive(Clone, Copy, PartialEq, Eq, Debug, Structural)]
pub enum Reason {
    UnclassifiedRuntime,
    Parameter { func: FuncId, index: u16 },
    DependsOnVar(VarId),
    EffectNotDischarged(EffectLabelId),
    HandlerIsRuntime(HandlerId),
    BranchOnRuntime(ExprId),
    NotPersistable(TypeId),
    UserForcedRuntime,
    CtOnlyWithRuntimeArgs(FuncId),
}

/// Where a function has moved to, if it was kept.
pub open spec fn remapped(remap: Seq<Option<FuncId>>, source: FuncId) -> Option<FuncId> {
    if source.0 < remap.len() {
        remap[source.0 as int]
    } else {
        None
    }
}

pub fn remap_func_id(remap: &[Option<FuncId>], source: FuncId) -> (target: Option<FuncId>)
    ensures
        target == remapped(remap@, source),
{
    if source.0 < remap.len() {
        remap[source.0]
    } else {
        None
    }
}

impl Reason {
    /// The reason after functions have moved: one that names a function that
    /// was not kept says nothing any more.
    pub open spec fn moved(self, remap: Seq<Option<FuncId>>) -> Reason {
        match self {
            Reason::Parameter { func, index } => match remapped(remap, func) {
                Some(func) => Reason::Parameter { func, index },
                None => Reason::UnclassifiedRuntime,
            },
            Reason::CtOnlyWithRuntimeArgs(func) => match remapped(remap, func) {
                Some(func) => Reason::CtOnlyWithRuntimeArgs(func),
                None => Reason::UnclassifiedRuntime,
            },
            _ => self,
        }
    }

    pub fn remap_func_ids(self, remap: &[Option<FuncId>]) -> (reason: Self)
        ensures
            reason == self.moved(remap@),
    {
        match self {
            Reason::Parameter { func, index } => match remap_func_id(remap, func) {
                Some(func) => Reason::Parameter { func, index },
                None => Reason::UnclassifiedRuntime,
            },
            Reason::CtOnlyWithRuntimeArgs(func) => match remap_func_id(remap, func) {
                Some(func) => Reason::CtOnlyWithRuntimeArgs(func),
                None => Reason::UnclassifiedRuntime,
            },
            _ => self,
        }
    }

    /// A short text that names the reason in stored tables.
    pub open spec fn tag(self) -> Seq<char> {
        match self {
            Reason::UnclassifiedRuntime => "unclassified-runtime"@,
            Reason::Parameter { func, index } => "param-f"@ + crate::common::text::decimal(
                func.0 as nat,
            ) + "-"@ + crate::common::text::decimal(index as nat),
            Reason::DependsOnVar(var) => "depends-v"@ + crate::common::text::decimal(var.0 as nat),
            Reason::EffectNotDischarged(effect) => "effect-e"@ + crate::common::text::decimal(
                effect.0 as nat,
            ),
            Reason::HandlerIsRuntime(handler) => "handler-h"@ + crate::common::text::decimal(
                handler.0 as nat,
            ),
            Reason::BranchOnRuntime(expr) => "branch-e"@ + crate::common::text::decimal(
                expr.0 as nat,
            ),
            Reason::NotPersistable(ty) => "non-persistable-t"@ + crate::common::text::decimal(
                ty.0 as nat,
            ),
            Reason::UserForcedRuntime => "forced-runtime"@,
            Reason::CtOnlyWithRuntimeArgs(func) => "ct-only-f"@ + crate::common::text::decimal(
                func.0 as nat,
            ),
        }
    }

    pub fn stable_tag(self) -> (text: String)
        ensures
            text@ == self.tag(),
    {
        match self {
            Reason::UnclassifiedRuntime => "unclassified-runtime".to_owned(),
            Reason::Parameter { func, index } => {
                let mut text = numbered("param-f", func.0, "-");
                push_decimal(&mut text, index as u64);
                text
            },
            Reason::DependsOnVar(var) => numbered("depends-v", var.0, ""),
            Reason::EffectNotDischarged(effect) => numbered("effect-e", effect.0, ""),
            Reason::HandlerIsRuntime(handler) => numbered("handler-h", handler.0, ""),
            Reason::BranchOnRuntime(expr) => numbered("branch-e", expr.0, ""),
            Reason::NotPersistable(ty) => numbered("non-persistable-t", ty.0, ""),
            Reason::UserForcedRuntime => "forced-runtime".to_owned(),
            Reason::CtOnlyWithRuntimeArgs(func) => numbered("ct-only-f", func.0, ""),
        }
    }

    /// A sentence that explains the reason.
    pub open spec fn sentence(self) -> Seq<char> {
        match self {
            Reason::UnclassifiedRuntime => "runtime classification has not been refined yet"@,
            Reason::Parameter { func, index } => "parameter #"@ + crate::common::text::decimal(
                (index + 1) as nat,
            ) + " of f"@ + crate::common::text::decimal(func.0 as nat) + " is runtime"@,
            Reason::DependsOnVar(var) => "depends on v"@ + crate::common::text::decimal(
                var.0 as nat,
            ) + " which is runtime"@,
            Reason::EffectNotDischarged(effect) => "effect e"@ + crate::common::text::decimal(
                effect.0 as nat,
            ) + " is not thunkable/discharged"@,
            Reason::HandlerIsRuntime(handler) => "handler h"@ + crate::common::text::decimal(
                handler.0 as nat,
            ) + " is runtime"@,
            Reason::BranchOnRuntime(expr) => "branch condition e"@ + crate::common::text::decimal(
                expr.0 as nat,
            ) + " is runtime"@,
            Reason::NotPersistable(ty) => "type t"@ + crate::common::text::decimal(ty.0 as nat)
                + " is not persistable"@,
            Reason::UserForcedRuntime => "explicitly marked @runtime"@,
            Reason::CtOnlyWithRuntimeArgs(func) => "ct-only function f"@
                + crate::common::text::decimal(func.0 as nat) + " was called with runtime args"@,
        }
    }

    pub fn describe_runtime(self) -> (text: String)
        ensures
            text@ == self.sentence(),
    {
        match self {
            Reason::UnclassifiedRuntime => {
                "runtime classification has not been refined yet".to_owned()
            },
            Reason::Parameter { func, index } => {
                let mut text = "parameter #".to_owned();
                push_decimal(&mut text, index as u64 + 1);
                push_text(&mut text, " of f");
                push_index(&mut text, func.0);
                push_text(&mut text, " is runtime");
                text
            },
            Reason::DependsOnVar(var) => numbered("depends on v", var.0, " which is runtime"),
            Reason::EffectNotDischarged(effect) => numbered(
                "effect e",
                effect.0,
                " is not thunkable/discharged",
            ),
            Reason::HandlerIsRuntime(handler) => numbered("handler h", handler.0, " is runtime"),
            Reason::BranchOnRuntime(expr) => numbered("branch condition e", expr.0, " is runtime"),
            Reason::NotPersistable(ty) => numbered("type t", ty.0, " is not persistable"),
            Reason::UserForcedRuntime => "explicitly marked @runtime".to_owned(),
            Reason::CtOnlyWithRuntimeArgs(func) => numbered(
                "ct-only function f",
                func.0,
                " was called with runtime args",
            ),
        }
    }
}

/// A number between two pieces of text.
pub fn numbered(before: &str, number: usize, after: &str) -> (text: String)
    ensures
        text@ == before@ + crate::common::text::decimal(number as nat) + after@,
        after@ == ""@ ==> text@ == before@ + crate::common::text::decimal(number as nat),
{
    let mut text = before.to_owned();
    push_index(&mut text, number);
    push_text(&mut text, after);
    proof {
        reveal_strlit("");
        if after@ == ""@ {
            assert(text@ =~= before@ + crate::common::text::decimal(number as nat));
        }
    }
    text
}

impl Stage {
    /// The stage after functions have moved.
    pub open spec fn moved(self, remap: Seq<Option<FuncId>>) -> Stage {
        match self {
            Stage::Ct => Stage::Ct,
            Stage::Rt(reason) => Stage::Rt(reason.moved(remap)),
        }
    }
}

pub fn remap_stage_reason(stage: Stage, remap: &[Option<FuncId>]) -> (moved: Stage)
    ensures
        moved == stage.moved(remap@),
{
    match stage {
        Stage::Ct => Stage::Ct,
        Stage::Rt(reason) => Stage::Rt(reason.remap_func_ids(remap)),
    }
}

// ---------------------------------------------------------------------------
// Laws
// ---------------------------------------------------------------------------

/// Texts with one beginning each and a number at the end are the same only where
/// the numbers are.
proof fn lemma_numbered_apart(before: Seq<char>, a: nat, b: nat)
    requires
        before + crate::common::text::decimal(a) == before + crate::common::text::decimal(b),
    ensures
        a == b,
{
    let x = crate::common::text::decimal(a);
    let y = crate::common::text::decimal(b);
    assert((before + x).subrange(before.len() as int, (before + x).len() as int) =~= x);
    assert((before + y).subrange(before.len() as int, (before + y).len() as int) =~= y);
    crate::common::chars::lemma_decimal_read_back(a);
    crate::common::chars::lemma_decimal_read_back(b);
}

/// Two numbers with a dash between them can be told apart.
proof fn lemma_pair_apart(before: Seq<char>, a: nat, b: nat, c: nat, d: nat)
    requires
        before + crate::common::text::decimal(a) + "-"@ + crate::common::text::decimal(b) == before
            + crate::common::text::decimal(c) + "-"@ + crate::common::text::decimal(d),
    ensures
        a == c,
        b == d,
{
    reveal_strlit("-");
    let x = crate::common::text::decimal(a);
    let y = crate::common::text::decimal(c);
    crate::common::chars::lemma_decimal_read_back(a);
    crate::common::chars::lemma_decimal_read_back(c);
    let left = before + x + "-"@ + crate::common::text::decimal(b);
    let right = before + y + "-"@ + crate::common::text::decimal(d);
    let n = before.len() as int;
    assert(left[n + x.len()] == '-');
    assert(right[n + y.len()] == '-');
    if x.len() < y.len() {
        assert(right[n + x.len()] == y[x.len() as int]);
        assert(crate::common::chars::is_digit(y[x.len() as int]));
    }
    if y.len() < x.len() {
        assert(left[n + y.len()] == x[y.len() as int]);
        assert(crate::common::chars::is_digit(x[y.len() as int]));
    }
    assert(left.subrange(0, n + x.len()) =~= before + x);
    assert(right.subrange(0, n + y.len()) =~= before + y);
    lemma_numbered_apart(before, a, c);
    lemma_numbered_apart(before + x + "-"@, b, d);
}

/// A text without a tab or a line break.
pub open spec fn on_one_line(text: Seq<char>) -> bool {
    forall|i: int| 0 <= i < text.len() ==> (#[trigger] text[i]) != '\t' && text[i] != '\n'
}

proof fn lemma_decimal_on_one_line(n: nat)
    ensures
        on_one_line(crate::common::text::decimal(n)),
{
    crate::common::chars::lemma_decimal_read_back(n);
    let text = crate::common::text::decimal(n);
    assert forall|i: int| 0 <= i < text.len() implies (#[trigger] text[i]) != '\t' && text[i]
        != '\n' by {
        assert(crate::common::chars::is_digit(text[i]));
    }
}

proof fn lemma_tag_starts(reason: Reason)
    ensures
        reason.tag().len() > 0,
        reason.tag()[0] == match reason {
            Reason::UnclassifiedRuntime => 'u',
            Reason::Parameter { .. } => 'p',
            Reason::DependsOnVar(_) => 'd',
            Reason::EffectNotDischarged(_) => 'e',
            Reason::HandlerIsRuntime(_) => 'h',
            Reason::BranchOnRuntime(_) => 'b',
            Reason::NotPersistable(_) => 'n',
            Reason::UserForcedRuntime => 'f',
            Reason::CtOnlyWithRuntimeArgs(_) => 'c',
        },
{
    reveal_strlit("unclassified-runtime");
    reveal_strlit("param-f");
    reveal_strlit("depends-v");
    reveal_strlit("effect-e");
    reveal_strlit("handler-h");
    reveal_strlit("branch-e");
    reveal_strlit("non-persistable-t");
    reveal_strlit("forced-runtime");
    reveal_strlit("ct-only-f");
}

/// A tag names one reason only.
pub proof fn lemma_tags_apart(a: Reason, b: Reason)
    ensures
        a.tag() == b.tag() <==> a == b,
{
    if a.tag() == b.tag() {
        lemma_tag_starts(a);
        lemma_tag_starts(b);
        match (a, b) {
            (Reason::Parameter { func: f, index: i }, Reason::Parameter { func: g, index: j }) => {
                lemma_pair_apart("param-f"@, f.0 as nat, i as nat, g.0 as nat, j as nat);
            },
            (Reason::DependsOnVar(x), Reason::DependsOnVar(y)) => {
                lemma_numbered_apart("depends-v"@, x.0 as nat, y.0 as nat);
            },
            (Reason::EffectNotDischarged(x), Reason::EffectNotDischarged(y)) => {
                lemma_numbered_apart("effect-e"@, x.0 as nat, y.0 as nat);
            },
            (Reason::HandlerIsRuntime(x), Reason::HandlerIsRuntime(y)) => {
                lemma_numbered_apart("handler-h"@, x.0 as nat, y.0 as nat);
            },
            (Reason::BranchOnRuntime(x), Reason::BranchOnRuntime(y)) => {
                lemma_numbered_apart("branch-e"@, x.0 as nat, y.0 as nat);
            },
            (Reason::NotPersistable(x), Reason::NotPersistable(y)) => {
                lemma_numbered_apart("non-persistable-t"@, x.0 as nat, y.0 as nat);
            },
            (Reason::CtOnlyWithRuntimeArgs(x), Reason::CtOnlyWithRuntimeArgs(y)) => {
                lemma_numbered_apart("ct-only-f"@, x.0 as nat, y.0 as nat);
            },
            _ => {},
        }
    }
}

/// A tag is not empty, and holds no tab and no line break: it can stand in a field
/// of a stored line.
pub proof fn lemma_tag_is_a_field(reason: Reason)
    ensures
        reason.tag().len() > 0,
        on_one_line(reason.tag()),
{
    lemma_tag_starts(reason);
    reveal_strlit("-");
    match reason {
        Reason::UnclassifiedRuntime => {
            reveal_strlit("unclassified-runtime");
        },
        Reason::Parameter { func, index } => {
            reveal_strlit("param-f");
            lemma_decimal_on_one_line(func.0 as nat);
            lemma_decimal_on_one_line(index as nat);
        },
        Reason::DependsOnVar(x) => {
            reveal_strlit("depends-v");
            lemma_decimal_on_one_line(x.0 as nat);
        },
        Reason::EffectNotDischarged(x) => {
            reveal_strlit("effect-e");
            lemma_decimal_on_one_line(x.0 as nat);
        },
        Reason::HandlerIsRuntime(x) => {
            reveal_strlit("handler-h");
            lemma_decimal_on_one_line(x.0 as nat);
        },
        Reason::BranchOnRuntime(x) => {
            reveal_strlit("branch-e");
            lemma_decimal_on_one_line(x.0 as nat);
        },
        Reason::NotPersistable(x) => {
            reveal_strlit("non-persistable-t");
            lemma_decimal_on_one_line(x.0 as nat);
        },
        Reason::UserForcedRuntime => {
            reveal_strlit("forced-runtime");
        },
        Reason::CtOnlyWithRuntimeArgs(x) => {
            reveal_strlit("ct-only-f");
            lemma_decimal_on_one_line(x.0 as nat);
        },
    }
}

} // verus!
