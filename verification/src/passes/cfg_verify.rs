//! Checks the reference-count operations of a control-flow graph.
use crate::common::densemap::DenseMap;
use crate::common::diagnostics::{DiagnosticBag, DiagnosticModel};
use crate::common::ids::{CfgBlockId, CfgExprId, CfgValueId};
use crate::common::span::Span;
use crate::common::text::{push_index, push_text, two_numbers};
use crate::ir::cfg::{
    CfgArcOp, CfgArcOpKind, CfgBlock, CfgBlockModel, CfgExpr, CfgExprModel, CfgMatchArm,
    CfgMatchArmModel, CfgModel, CfgProgram, CfgProjectionMode, CfgTerminator, CfgTerminatorModel,
};
use crate::pipeline::tables::SemanticTables;
use vstd::prelude::*;

verus! {

#[derive(Clone, Copy, PartialEq, Eq, Debug, Structural)]
pub struct CfgArcVerifyStats {
    pub checked_blocks: u32,
    pub checked_ops: u32,
    pub checked_moves: u32,
    pub errors: u32,
}

impl Default for CfgArcVerifyStats {
    fn default() -> (stats: Self)
        ensures
            stats == (CfgArcVerifyStats {
                checked_blocks: 0,
                checked_ops: 0,
                checked_moves: 0,
                errors: 0,
            }),
    {
        CfgArcVerifyStats { checked_blocks: 0, checked_ops: 0, checked_moves: 0, errors: 0 }
    }
}

/// The values that are used after the end of each block: an outside analysis
/// gives them.
pub type LiveAfter = DenseMap<Vec<CfgValueId>>;

// ---------------------------------------------------------------------------
// What is reported
// ---------------------------------------------------------------------------

pub open spec fn graph_report(message: Seq<char>) -> DiagnosticModel {
    DiagnosticModel::error("CFG_VERIFY_INVALID_GRAPH"@, message, Span::spec_synthetic())
}

pub open spec fn graph_reports(messages: Seq<Seq<char>>) -> Seq<DiagnosticModel> {
    messages.map_values(|message: Seq<char>| graph_report(message))
}

pub open spec fn invalid_value(value: CfgValueId) -> DiagnosticModel {
    DiagnosticModel::error(
        "CFG_ARC_VERIFY_INVALID_VALUE"@,
        "ARC operation references invalid value v"@ + crate::common::text::decimal(value.0 as nat),
        Span::spec_synthetic(),
    )
}

pub open spec fn dup_release(value: CfgValueId) -> DiagnosticModel {
    DiagnosticModel::error(
        "CFG_ARC_VERIFY_DUP_RELEASE"@,
        "duplicate release of v"@ + crate::common::text::decimal(value.0 as nat)
            + " at one CFG site"@,
        Span::spec_synthetic(),
    )
}

pub open spec fn live_parent_move(binder: CfgValueId, block: CfgBlockId) -> DiagnosticModel {
    DiagnosticModel::error(
        "CFG_ARC_VERIFY_LIVE_PARENT_MOVE"@,
        "field v"@ + crate::common::text::decimal(binder.0 as nat)
            + " moves out of a match scrutinee that remains live after b"@
            + crate::common::text::decimal(block.0 as nat) + ""@,
        Span::spec_synthetic(),
    )
}

/// What is reported about one operation of a site: that its value is none, and
/// that it releases what was released before.
pub open spec fn op_report(cfg: CfgModel, ops: Seq<CfgArcOp>, i: int) -> Seq<DiagnosticModel> {
    let invalid = if cfg.has_value(ops[i].value) {
        Seq::empty()
    } else {
        seq![invalid_value(ops[i].value)]
    };
    let again = if ops[i].kind is Release && ops.take(i).contains(ops[i]) {
        seq![dup_release(ops[i].value)]
    } else {
        Seq::empty()
    };
    invalid + again
}

/// What is reported about the first operations of a site.
pub open spec fn op_reports(cfg: CfgModel, ops: Seq<CfgArcOp>, first: int) -> Seq<DiagnosticModel>
    decreases first,
{
    if first <= 0 {
        Seq::empty()
    } else {
        op_reports(cfg, ops, first - 1) + op_report(cfg, ops, first - 1)
    }
}

pub open spec fn site_reports(cfg: CfgModel, ops: Seq<CfgArcOp>) -> Seq<DiagnosticModel> {
    op_reports(cfg, ops, ops.len() as int)
}

/// What is reported about the first instructions of a block.
pub open spec fn instruction_reports(
    cfg: CfgModel,
    block: CfgBlockModel,
    first: int,
) -> Seq<DiagnosticModel>
    decreases first,
{
    if first <= 0 {
        Seq::empty()
    } else {
        let id = block.instructions[first - 1];
        instruction_reports(cfg, block, first - 1) + if cfg.has_instruction(id) {
            site_reports(cfg, cfg.instructions[id.0 as int].pre_arc) + site_reports(
                cfg,
                cfg.instructions[id.0 as int].post_arc,
            )
        } else {
            Seq::empty()
        }
    }
}

/// How many operations the first instructions of a block carry.
pub open spec fn instruction_ops(cfg: CfgModel, block: CfgBlockModel, first: int) -> nat
    decreases first,
{
    if first <= 0 {
        0
    } else {
        let id = block.instructions[first - 1];
        instruction_ops(cfg, block, first - 1) + if cfg.has_instruction(id) {
            cfg.instructions[id.0 as int].pre_arc.len()
                + cfg.instructions[id.0 as int].post_arc.len()
        } else {
            0
        }
    }
}

/// How many fields an arm matches: those that have both a name and a mode.
pub open spec fn field_count(arm: CfgMatchArmModel) -> int {
    if arm.binders.len() <= arm.projections.len() {
        arm.binders.len() as int
    } else {
        arm.projections.len() as int
    }
}

/// How many of the first fields of an arm move.
pub open spec fn field_moves(arm: CfgMatchArmModel, first: int) -> nat
    decreases first,
{
    if first <= 0 {
        0
    } else {
        field_moves(arm, first - 1) + if arm.projections[first - 1] is Move {
            1nat
        } else {
            0
        }
    }
}

/// What is reported about the first fields of an arm.
pub open spec fn field_reports(
    arm: CfgMatchArmModel,
    block: CfgBlockId,
    live: bool,
    first: int,
) -> Seq<DiagnosticModel>
    decreases first,
{
    if first <= 0 {
        Seq::empty()
    } else {
        let rest = field_reports(arm, block, live, first - 1);
        if arm.projections[first - 1] is Move && live {
            rest.push(live_parent_move(arm.binders[first - 1], block))
        } else {
            rest
        }
    }
}

pub open spec fn arm_moves(arms: Seq<CfgMatchArmModel>, first: int) -> nat
    decreases first,
{
    if first <= 0 {
        0
    } else {
        arm_moves(arms, first - 1) + field_moves(arms[first - 1], field_count(arms[first - 1]))
    }
}

pub open spec fn arm_reports(
    arms: Seq<CfgMatchArmModel>,
    block: CfgBlockId,
    live: bool,
    first: int,
) -> Seq<DiagnosticModel>
    decreases first,
{
    if first <= 0 {
        Seq::empty()
    } else {
        arm_reports(arms, block, live, first - 1) + field_reports(
            arms[first - 1],
            block,
            live,
            field_count(arms[first - 1]),
        )
    }
}

/// What a block matches is a value that is used later.
pub open spec fn parent_live(
    cfg: CfgModel,
    live_after: Map<usize, Vec<CfgValueId>>,
    block: CfgBlockId,
    scrutinee: CfgExprId,
) -> bool {
    &&& cfg.has_expr(scrutinee)
    &&& cfg.expr(scrutinee) matches CfgExprModel::Value(parent)
    &&& live_after.contains_key(block.0)
    &&& live_after[block.0]@.contains(parent)
}

/// What is reported about the match at the end of a block.
pub open spec fn match_reports(
    cfg: CfgModel,
    live_after: Map<usize, Vec<CfgValueId>>,
    block: CfgBlockModel,
) -> Seq<DiagnosticModel> {
    match block.terminator {
        CfgTerminatorModel::Match { scrutinee, arms, .. } => arm_reports(
            arms,
            block.id,
            parent_live(cfg, live_after, block.id, scrutinee),
            arms.len() as int,
        ),
        _ => Seq::empty(),
    }
}

pub open spec fn match_moves(block: CfgBlockModel) -> nat {
    match block.terminator {
        CfgTerminatorModel::Match { arms, .. } => arm_moves(arms, arms.len() as int),
        _ => 0,
    }
}

pub open spec fn block_reports(
    cfg: CfgModel,
    live_after: Map<usize, Vec<CfgValueId>>,
    block: CfgBlockModel,
) -> Seq<DiagnosticModel> {
    site_reports(cfg, block.entry_arc) + instruction_reports(
        cfg,
        block,
        block.instructions.len() as int,
    ) + site_reports(cfg, block.pre_arc) + site_reports(cfg, block.post_arc) + match_reports(
        cfg,
        live_after,
        block,
    )
}

pub open spec fn block_ops(cfg: CfgModel, block: CfgBlockModel) -> nat {
    block.entry_arc.len() + instruction_ops(cfg, block, block.instructions.len() as int)
        + block.pre_arc.len() + block.post_arc.len()
}

/// What is reported about the first blocks, one after the other.
pub open spec fn all_reports(
    cfg: CfgModel,
    live_after: Map<usize, Vec<CfgValueId>>,
    first: int,
) -> Seq<DiagnosticModel>
    decreases first,
{
    if first <= 0 {
        Seq::empty()
    } else {
        all_reports(cfg, live_after, first - 1) + block_reports(
            cfg,
            live_after,
            cfg.blocks[first - 1],
        )
    }
}

pub open spec fn all_ops(cfg: CfgModel, first: int) -> nat
    decreases first,
{
    if first <= 0 {
        0
    } else {
        all_ops(cfg, first - 1) + block_ops(cfg, cfg.blocks[first - 1])
    }
}

pub open spec fn all_moves(cfg: CfgModel, first: int) -> nat
    decreases first,
{
    if first <= 0 {
        0
    } else {
        all_moves(cfg, first - 1) + match_moves(cfg.blocks[first - 1])
    }
}

// ---------------------------------------------------------------------------
// The checks
// ---------------------------------------------------------------------------

/// Counters with more counted.
pub open spec fn counted(
    before: CfgArcVerifyStats,
    after: CfgArcVerifyStats,
    blocks: int,
    ops: int,
    moves: int,
    errors: int,
) -> bool {
    &&& after.checked_blocks == crate::passes::arc_opt::capped(before.checked_blocks + blocks)
    &&& after.checked_ops == crate::passes::arc_opt::capped(before.checked_ops + ops)
    &&& after.checked_moves == crate::passes::arc_opt::capped(before.checked_moves + moves)
    &&& after.errors == crate::passes::arc_opt::capped(before.errors + errors)
}

fn report(
    diagnostics: &mut DiagnosticBag,
    stats: &mut CfgArcVerifyStats,
    code: &'static str,
    message: &str,
)
    ensures
        final(diagnostics)@ == old(diagnostics)@.push(
            DiagnosticModel::error(code@, message@, Span::spec_synthetic()),
        ),
        counted(*old(stats), *final(stats), 0, 0, 0, 1),
{
    diagnostics.error(code, message, Span::synthetic());
    stats.errors = stats.errors.saturating_add(1);
}

/// Whether the same operation came before.
fn came_before(ops: &Vec<CfgArcOp>, i: usize) -> (found: bool)
    requires
        i < ops@.len(),
    ensures
        found == ops@.take(i as int).contains(ops@[i as int]),
{
    let mut j: usize = 0;
    while j < i
        invariant
            j <= i < ops@.len(),
            forall|k: int| 0 <= k < j ==> (#[trigger] ops@[k]) != ops@[i as int],
        decreases i - j,
    {
        if ops[j] == ops[i] {
            assert(ops@.take(i as int)[j as int] == ops@[i as int]);
            return true;
        }
        j += 1;
    }
    assert(!ops@.take(i as int).contains(ops@[i as int])) by {
        if ops@.take(i as int).contains(ops@[i as int]) {
            let k = choose|k: int| 0 <= k < i && ops@.take(i as int)[k] == ops@[i as int];
            assert(ops@[k] == ops@[i as int]);
        }
    }
    false
}

fn verify_ops(
    cfg: &CfgProgram,
    ops: &Vec<CfgArcOp>,
    diagnostics: &mut DiagnosticBag,
    stats: &mut CfgArcVerifyStats,
)
    ensures
        final(diagnostics)@ == old(diagnostics)@ + site_reports(cfg@, ops@),
        counted(
            *old(stats),
            *final(stats),
            0,
            ops@.len() as int,
            0,
            site_reports(cfg@, ops@).len() as int,
        ),
{
    let ghost before = diagnostics@;
    let ghost start = *stats;
    let mut i: usize = 0;
    assert(diagnostics@ =~= before + op_reports(cfg@, ops@, 0));
    while i < ops.len()
        invariant
            i <= ops@.len(),
            diagnostics@ == before + op_reports(cfg@, ops@, i as int),
            counted(
                start,
                *stats,
                0,
                i as int,
                0,
                op_reports(cfg@, ops@, i as int).len() as int,
            ),
        decreases ops@.len() - i,
    {
        let op = ops[i];
        stats.checked_ops = stats.checked_ops.saturating_add(1);
        if op.value.0 >= cfg.values.len() {
            let mut message = "ARC operation references invalid value v".to_owned();
            push_index(&mut message, op.value.0);
            report(diagnostics, stats, "CFG_ARC_VERIFY_INVALID_VALUE", message.as_str());
        }
        if op.kind == CfgArcOpKind::Release && came_before(ops, i) {
            let mut message = "duplicate release of v".to_owned();
            push_index(&mut message, op.value.0);
            push_text(&mut message, " at one CFG site");
            report(diagnostics, stats, "CFG_ARC_VERIFY_DUP_RELEASE", message.as_str());
        }
        assert(diagnostics@ =~= before + (op_reports(cfg@, ops@, i as int) + op_report(
            cfg@,
            ops@,
            i as int,
        )));
        i += 1;
    }
}

fn verify_instructions(
    cfg: &CfgProgram,
    block: &CfgBlock,
    diagnostics: &mut DiagnosticBag,
    stats: &mut CfgArcVerifyStats,
)
    ensures
        final(diagnostics)@ == old(diagnostics)@ + instruction_reports(
            cfg@,
            block@,
            block@.instructions.len() as int,
        ),
        counted(
            *old(stats),
            *final(stats),
            0,
            instruction_ops(cfg@, block@, block@.instructions.len() as int) as int,
            0,
            instruction_reports(cfg@, block@, block@.instructions.len() as int).len() as int,
        ),
{
    let ghost before = diagnostics@;
    let ghost start = *stats;
    let mut i: usize = 0;
    assert(diagnostics@ =~= before + instruction_reports(cfg@, block@, 0));
    while i < block.instructions.len()
        invariant
            i <= block.instructions@.len(),
            diagnostics@ == before + instruction_reports(cfg@, block@, i as int),
            counted(
                start,
                *stats,
                0,
                instruction_ops(cfg@, block@, i as int) as int,
                0,
                instruction_reports(cfg@, block@, i as int).len() as int,
            ),
        decreases block.instructions@.len() - i,
    {
        if let Some(instruction) = cfg.instruction(block.instructions[i]) {
            verify_ops(cfg, &instruction.arc.pre, diagnostics, stats);
            verify_ops(cfg, &instruction.arc.post, diagnostics, stats);
        }
        assert(diagnostics@ =~= before + instruction_reports(cfg@, block@, i as int + 1));
        i += 1;
    }
}

fn direct_value(cfg: &CfgProgram, expression: CfgExprId) -> (value: Option<CfgValueId>)
    ensures
        value == (if cfg@.has_expr(expression) {
            match cfg@.expr(expression) {
                CfgExprModel::Value(value) => Some(value),
                _ => None,
            }
        } else {
            None
        }),
{
    match cfg.expr(expression) {
        Some(node) => match &node.kind {
            CfgExpr::Value(value) => Some(*value),
            _ => None,
        },
        None => None,
    }
}

fn has_value(values: &Vec<CfgValueId>, value: CfgValueId) -> (found: bool)
    ensures
        found == values@.contains(value),
{
    let mut i: usize = 0;
    while i < values.len()
        invariant
            i <= values@.len(),
            forall|j: int| 0 <= j < i ==> (#[trigger] values@[j]) != value,
        decreases values@.len() - i,
    {
        if values[i] == value {
            return true;
        }
        i += 1;
    }
    false
}

fn verify_arm(
    arm: &CfgMatchArm,
    block: CfgBlockId,
    live: bool,
    diagnostics: &mut DiagnosticBag,
    stats: &mut CfgArcVerifyStats,
)
    ensures
        final(diagnostics)@ == old(diagnostics)@ + field_reports(
            arm@,
            block,
            live,
            field_count(arm@),
        ),
        counted(
            *old(stats),
            *final(stats),
            0,
            0,
            field_moves(arm@, field_count(arm@)) as int,
            field_reports(arm@, block, live, field_count(arm@)).len() as int,
        ),
{
    let ghost before = diagnostics@;
    let ghost start = *stats;
    let mut i: usize = 0;
    assert(diagnostics@ =~= before + field_reports(arm@, block, live, 0));
    while i < arm.binders.len() && i < arm.projections.len()
        invariant
            i <= field_count(arm@),
            diagnostics@ == before + field_reports(arm@, block, live, i as int),
            counted(
                start,
                *stats,
                0,
                0,
                field_moves(arm@, i as int) as int,
                field_reports(arm@, block, live, i as int).len() as int,
            ),
        decreases arm.binders@.len() - i,
    {
        if arm.projections[i] == CfgProjectionMode::Move {
            stats.checked_moves = stats.checked_moves.saturating_add(1);
            if live {
                let message = two_numbers(
                    "field v",
                    arm.binders[i].0,
                    " moves out of a match scrutinee that remains live after b",
                    block.0,
                    "",
                );
                report(diagnostics, stats, "CFG_ARC_VERIFY_LIVE_PARENT_MOVE", message.as_str());
            }
        }
        assert(diagnostics@ =~= before + field_reports(arm@, block, live, i as int + 1));
        i += 1;
    }
}

fn verify_match(
    cfg: &CfgProgram,
    live_after: &LiveAfter,
    block: &CfgBlock,
    diagnostics: &mut DiagnosticBag,
    stats: &mut CfgArcVerifyStats,
)
    ensures
        final(diagnostics)@ == old(diagnostics)@ + match_reports(cfg@, live_after@, block@),
        counted(
            *old(stats),
            *final(stats),
            0,
            0,
            match_moves(block@) as int,
            match_reports(cfg@, live_after@, block@).len() as int,
        ),
{
    let ghost before = diagnostics@;
    let ghost start = *stats;
    if let CfgTerminator::Match { scrutinee, arms, .. } = &block.terminator {
        let ghost models = crate::common::views(arms@);
        let live = match direct_value(cfg, *scrutinee) {
            Some(parent) => match live_after.get(block.id.0) {
                Some(values) => has_value(values, parent),
                None => false,
            },
            None => false,
        };
        assert(live == parent_live(cfg@, live_after@, block@.id, *scrutinee));
        let mut i: usize = 0;
        assert(diagnostics@ =~= before + arm_reports(models, block.id, live, 0));
        while i < arms.len()
            invariant
                i <= arms@.len(),
                models == crate::common::views(arms@),
                diagnostics@ == before + arm_reports(models, block.id, live, i as int),
                counted(
                    start,
                    *stats,
                    0,
                    0,
                    arm_moves(models, i as int) as int,
                    arm_reports(models, block.id, live, i as int).len() as int,
                ),
            decreases arms@.len() - i,
        {
            assert(models[i as int] == arms@[i as int]@);
            verify_arm(&arms[i], block.id, live, diagnostics, stats);
            assert(diagnostics@ =~= before + arm_reports(models, block.id, live, i as int + 1));
            i += 1;
        }
    } else {
        assert(diagnostics@ =~= before + match_reports(cfg@, live_after@, block@));
    }
}

fn verify_block(
    cfg: &CfgProgram,
    live_after: &LiveAfter,
    block: &CfgBlock,
    diagnostics: &mut DiagnosticBag,
    stats: &mut CfgArcVerifyStats,
)
    ensures
        final(diagnostics)@ == old(diagnostics)@ + block_reports(cfg@, live_after@, block@),
        counted(
            *old(stats),
            *final(stats),
            1,
            block_ops(cfg@, block@) as int,
            match_moves(block@) as int,
            block_reports(cfg@, live_after@, block@).len() as int,
        ),
{
    stats.checked_blocks = stats.checked_blocks.saturating_add(1);
    verify_ops(cfg, &block.entry_arc, diagnostics, stats);
    verify_instructions(cfg, block, diagnostics, stats);
    verify_ops(cfg, &block.terminator_arc.pre, diagnostics, stats);
    verify_ops(cfg, &block.terminator_arc.post, diagnostics, stats);
    verify_match(cfg, live_after, block, diagnostics, stats);
    assert(diagnostics@ =~= old(diagnostics)@ + block_reports(cfg@, live_after@, block@));
}

/// Checks a graph. What is wrong with its shape, and what is used after the end
/// of each block, is found elsewhere and handed in.
pub fn verify(
    cfg: &CfgProgram,
    _sema: &SemanticTables,
    graph_errors: &Vec<String>,
    live_after: &LiveAfter,
    diagnostics: &mut DiagnosticBag,
) -> (stats: CfgArcVerifyStats)
    ensures
        final(diagnostics)@ == old(diagnostics)@ + graph_reports(
            crate::common::views(graph_errors@),
        ) + all_reports(cfg@, live_after@, cfg@.blocks.len() as int),
        stats.checked_blocks == crate::passes::arc_opt::capped(cfg@.blocks.len() as int),
        stats.checked_ops == crate::passes::arc_opt::capped(
            all_ops(cfg@, cfg@.blocks.len() as int) as int,
        ),
        stats.checked_moves == crate::passes::arc_opt::capped(
            all_moves(cfg@, cfg@.blocks.len() as int) as int,
        ),
        stats.errors == crate::passes::arc_opt::capped(
            graph_errors@.len() + all_reports(
                cfg@,
                live_after@,
                cfg@.blocks.len() as int,
            ).len() as int,
        ),
{
    let ghost before = diagnostics@;
    let ghost messages = crate::common::views(graph_errors@);
    let mut stats = CfgArcVerifyStats::default();
    let ghost start = stats;
    let mut i: usize = 0;
    assert(diagnostics@ =~= before + graph_reports(messages.take(0)));
    while i < graph_errors.len()
        invariant
            i <= graph_errors@.len(),
            messages == crate::common::views(graph_errors@),
            diagnostics@ == before + graph_reports(messages.take(i as int)),
            counted(start, stats, 0, 0, 0, i as int),
        decreases graph_errors@.len() - i,
    {
        report(diagnostics, &mut stats, "CFG_VERIFY_INVALID_GRAPH", graph_errors[i].as_str());
        assert(messages[i as int] == graph_errors@[i as int]@);
        assert(graph_reports(messages.take(i as int + 1)) =~= graph_reports(
            messages.take(i as int),
        ).push(graph_report(messages[i as int])));
        assert(diagnostics@ =~= before + graph_reports(messages.take(i as int + 1)));
        i += 1;
    }
    assert(messages.take(i as int) =~= messages);
    let ghost shaped = diagnostics@;
    let mut b: usize = 0;
    assert(diagnostics@ =~= shaped + all_reports(cfg@, live_after@, 0));
    while b < cfg.blocks.len()
        invariant
            b <= cfg.blocks@.len(),
            diagnostics@ == shaped + all_reports(cfg@, live_after@, b as int),
            counted(
                start,
                stats,
                b as int,
                all_ops(cfg@, b as int) as int,
                all_moves(cfg@, b as int) as int,
                graph_errors@.len() + all_reports(cfg@, live_after@, b as int).len() as int,
            ),
        decreases cfg.blocks@.len() - b,
    {
        assert(cfg@.blocks[b as int] == cfg.blocks@[b as int]@);
        verify_block(cfg, live_after, &cfg.blocks[b], diagnostics, &mut stats);
        assert(diagnostics@ =~= shaped + all_reports(cfg@, live_after@, b as int + 1));
        b += 1;
    }
    stats
}

/// Where nothing that is matched is used later, no move is reported.
pub proof fn lemma_dead_parent_moves(
    arms: Seq<CfgMatchArmModel>,
    block: CfgBlockId,
    first: int,
)
    ensures
        arm_reports(arms, block, false, first).len() == 0,
    decreases first,
{
    if first > 0 {
        lemma_dead_parent_moves(arms, block, first - 1);
        lemma_dead_parent_fields(arms[first - 1], block, field_count(arms[first - 1]));
    }
}

proof fn lemma_dead_parent_fields(arm: CfgMatchArmModel, block: CfgBlockId, first: int)
    ensures
        field_reports(arm, block, false, first).len() == 0,
    decreases first,
{
    if first > 0 {
        lemma_dead_parent_fields(arm, block, first - 1);
    }
}

} // verus!
