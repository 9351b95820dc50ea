//! When each expression gets its value, kept from one run to the next, and what
//! has changed since.
use crate::common::chars::{chars_of, is_text, is_text_le, parse_number, text_of};
use crate::common::keys::{distinct_keys, find_last};
use crate::common::text::{push_decimal, push_index, push_text};
use crate::common::tsv::{split_fields, split_lines};
use crate::ir::core_ir::{CoreProgram, ExprKind, ExprNode, ExprNodeModel};
use crate::pipeline::fingerprint::hash_text;
use crate::pipeline::reason::Stage;
use crate::pipeline::tables::BtaTables;
use vstd::prelude::*;

verus! {

#[derive(Clone, Copy, PartialEq, Eq, Debug, Structural)]
pub enum SnapshotStage {
    Ct,
    Rt,
}

#[derive(Debug)]
pub struct StageSnapshotEntry {
    pub stable_id: String,
    pub stage: SnapshotStage,
    pub top_reason: String,
    pub cause_hash: u64,
}

/// An entry as a mathematical value.
#[verifier::ext_equal]
pub struct StageEntryModel {
    pub stable_id: Seq<char>,
    pub stage: SnapshotStage,
    pub top_reason: Seq<char>,
    pub cause_hash: u64,
}

impl View for StageSnapshotEntry {
    type V = StageEntryModel;

    open spec fn view(&self) -> StageEntryModel {
        StageEntryModel {
            stable_id: self.stable_id@,
            stage: self.stage,
            top_reason: self.top_reason@,
            cause_hash: self.cause_hash,
        }
    }
}

#[derive(Debug)]
pub struct StageDiff {
    pub stable_id: String,
    pub before: SnapshotStage,
    pub after: SnapshotStage,
    pub before_reason: String,
    pub after_reason: String,
}

/// A difference as a mathematical value.
#[verifier::ext_equal]
pub struct StageDiffModel {
    pub stable_id: Seq<char>,
    pub before: SnapshotStage,
    pub after: SnapshotStage,
    pub before_reason: Seq<char>,
    pub after_reason: Seq<char>,
}

impl View for StageDiff {
    type V = StageDiffModel;

    open spec fn view(&self) -> StageDiffModel {
        StageDiffModel {
            stable_id: self.stable_id@,
            before: self.before,
            after: self.after,
            before_reason: self.before_reason@,
            after_reason: self.after_reason@,
        }
    }
}

// ---------------------------------------------------------------------------
// The entries of a program
// ---------------------------------------------------------------------------

/// A word for the kind of an expression.
pub open spec fn kind_tag(kind: crate::ir::core_ir::ExprModel) -> Seq<char> {
    match kind {
        crate::ir::core_ir::ExprModel::Literal(_) => "lit"@,
        crate::ir::core_ir::ExprModel::Var(_) => "var"@,
        crate::ir::core_ir::ExprModel::Unary { .. } => "un"@,
        crate::ir::core_ir::ExprModel::Binary { .. } => "bin"@,
        crate::ir::core_ir::ExprModel::PureCall { .. } => "call"@,
        crate::ir::core_ir::ExprModel::MakeStruct { .. } => "mk_struct"@,
        crate::ir::core_ir::ExprModel::MakeEnum { .. } => "mk_enum"@,
        crate::ir::core_ir::ExprModel::Error(_) => "err"@,
    }
}

/// The name of an expression: its number, its span and its kind.
pub open spec fn stable_id(index: int, node: ExprNodeModel) -> Seq<char> {
    "e"@ + crate::common::text::decimal(index as nat) + "@"@ + crate::common::text::decimal(
        node.span.start as nat,
    ) + "-"@ + crate::common::text::decimal(node.span.end as nat) + ":"@ + kind_tag(node.kind)
}

/// The entry of an expression with a stage.
pub open spec fn entry(index: int, node: ExprNodeModel, stage: Stage) -> StageEntryModel {
    let top_reason = match stage {
        Stage::Ct => Seq::empty(),
        Stage::Rt(reason) => reason.tag(),
    };
    StageEntryModel {
        stable_id: stable_id(index, node),
        stage: if stage is Ct {
            SnapshotStage::Ct
        } else {
            SnapshotStage::Rt
        },
        top_reason,
        cause_hash: crate::pipeline::fingerprint::text_number(top_reason),
    }
}

/// A list in the order of its names, with one more entry: after those that have
/// the same name.
pub open spec fn with_entry(list: Seq<StageEntryModel>, e: StageEntryModel) -> Seq<StageEntryModel>
    decreases list.len(),
{
    if list.len() == 0 {
        seq![e]
    } else if crate::common::chars::text_le(list.last().stable_id, e.stable_id) {
        list.push(e)
    } else {
        with_entry(list.drop_last(), e).push(list.last())
    }
}

/// The entries of the first expressions that have a stage, in the order of their
/// names.
pub open spec fn entries_first(
    exprs: Seq<ExprNodeModel>,
    stages: Map<usize, Stage>,
    first: nat,
) -> Seq<StageEntryModel>
    decreases first,
{
    if first == 0 {
        Seq::empty()
    } else {
        let rest = entries_first(exprs, stages, (first - 1) as nat);
        let key = (first - 1) as usize;
        if stages.contains_key(key) {
            with_entry(rest, entry(first - 1, exprs[first - 1], stages[key]))
        } else {
            rest
        }
    }
}

fn expr_kind_tag(kind: &ExprKind) -> (tag: &'static str)
    ensures
        tag@ == kind_tag(kind@),
{
    match kind {
        ExprKind::Literal(_) => "lit",
        ExprKind::Var(_) => "var",
        ExprKind::Unary { .. } => "un",
        ExprKind::Binary { .. } => "bin",
        ExprKind::PureCall { .. } => "call",
        ExprKind::MakeStruct { .. } => "mk_struct",
        ExprKind::MakeEnum { .. } => "mk_enum",
        ExprKind::Error(_) => "err",
    }
}

fn stable_expr_id(index: usize, node: &ExprNode) -> (text: String)
    ensures
        text@ == stable_id(index as int, node@),
{
    let mut text = String::new();
    push_text(&mut text, "e");
    push_index(&mut text, index);
    push_text(&mut text, "@");
    push_decimal(&mut text, node.span.start as u64);
    push_text(&mut text, "-");
    push_decimal(&mut text, node.span.end as u64);
    push_text(&mut text, ":");
    push_text(&mut text, expr_kind_tag(&node.kind));
    assert(text@ =~= stable_id(index as int, node@));
    text
}

proof fn lemma_with_entry_at(list: Seq<StageEntryModel>, e: StageEntryModel, at: int)
    requires
        0 <= at <= list.len(),
        at > 0 ==> crate::common::chars::text_le(list[at - 1].stable_id, e.stable_id),
        forall|i: int|
            at <= i < list.len() ==> !crate::common::chars::text_le(
                #[trigger] list[i].stable_id,
                e.stable_id,
            ),
    ensures
        with_entry(list, e) == list.insert(at, e),
    decreases list.len(),
{
    if list.len() == 0 {
        assert(seq![e] =~= list.insert(at, e));
    } else if at == list.len() {
        assert(list.push(e) =~= list.insert(at, e));
    } else {
        assert(!crate::common::chars::text_le(list[list.len() - 1].stable_id, e.stable_id));
        let rest = list.drop_last();
        assert forall|i: int| at <= i < rest.len() implies !crate::common::chars::text_le(
            #[trigger] rest[i].stable_id,
            e.stable_id,
        ) by {
            assert(rest[i].stable_id == list[i].stable_id);
        }
        lemma_with_entry_at(rest, e, at);
        assert(rest.insert(at, e).push(list.last()) =~= list.insert(at, e));
    }
}

fn insert_entry(list: &mut Vec<StageSnapshotEntry>, e: StageSnapshotEntry)
    ensures
        crate::common::views(final(list)@) == with_entry(crate::common::views(old(list)@), e@),
{
    let ghost before = crate::common::views(list@);
    let mut at: usize = list.len();
    while at > 0 && !is_text_le(list[at - 1].stable_id.as_str(), e.stable_id.as_str())
        invariant
            at <= list@.len(),
            before == crate::common::views(list@),
            forall|i: int|
                at <= i < before.len() ==> !crate::common::chars::text_le(
                    #[trigger] before[i].stable_id,
                    e.stable_id@,
                ),
        decreases at,
    {
        assert(before[at - 1] == list@[at - 1]@);
        at -= 1;
    }
    assert(at > 0 ==> before[at - 1] == list@[at - 1]@);
    proof {
        lemma_with_entry_at(before, e@, at as int);
    }
    let ghost model = e@;
    list.insert(at, e);
    assert(crate::common::views(list@) =~= before.insert(at as int, model));
}

/// The entries of the expressions that have a stage, in the order of their names.
pub fn collect_snapshot(program: &CoreProgram, bta: &BtaTables) -> (out: Vec<StageSnapshotEntry>)
    ensures
        crate::common::views(out@) == entries_first(
            program@.exprs,
            bta.stage_of_expr@,
            program@.exprs.len(),
        ),
{
    let ghost exprs = program@.exprs;
    let mut out: Vec<StageSnapshotEntry> = Vec::new();
    let mut i: usize = 0;
    assert(crate::common::views(out@) =~= Seq::empty());
    while i < program.exprs.len()
        invariant
            i <= program.exprs@.len(),
            exprs == program@.exprs,
            crate::common::views(out@) == entries_first(exprs, bta.stage_of_expr@, i as nat),
        decreases program.exprs@.len() - i,
    {
        assert(exprs[i as int] == program.exprs@[i as int]@);
        if let Some(stage) = bta.stage_of_expr.get(i) {
            let (tag, top_reason) = match *stage {
                Stage::Ct => (SnapshotStage::Ct, String::new()),
                Stage::Rt(reason) => (SnapshotStage::Rt, reason.stable_tag()),
            };
            let cause_hash = hash_text(top_reason.as_str());
            let e = StageSnapshotEntry {
                stable_id: stable_expr_id(i, &program.exprs[i]),
                stage: tag,
                top_reason,
                cause_hash,
            };
            assert(e@ =~= entry(i as int, exprs[i as int], *stage));
            insert_entry(&mut out, e);
        }
        i += 1;
    }
    out
}

// ---------------------------------------------------------------------------
// Differences
// ---------------------------------------------------------------------------

/// The names of entries.
pub open spec fn ids(entries: Seq<StageEntryModel>) -> Seq<Seq<char>> {
    entries.map_values(|e: StageEntryModel| e.stable_id)
}

/// The entry with a name: the last one, where there are several.
pub open spec fn entry_at(entries: Seq<StageEntryModel>, id: Seq<char>) -> Option<StageEntryModel> {
    match crate::common::keys::last_place(ids(entries), id) {
        Some(at) => Some(entries[at]),
        None => None,
    }
}

/// Whether a name is in both lists with another stage or another reason.
pub open spec fn differs(
    previous: Seq<StageEntryModel>,
    current: Seq<StageEntryModel>,
    id: Seq<char>,
) -> bool {
    match (entry_at(previous, id), entry_at(current, id)) {
        (Some(before), Some(after)) => before.stage != after.stage || before.cause_hash
            != after.cause_hash,
        _ => false,
    }
}

/// The difference at a name that is in both lists.
pub open spec fn difference(
    previous: Seq<StageEntryModel>,
    current: Seq<StageEntryModel>,
    id: Seq<char>,
) -> StageDiffModel {
    let before = entry_at(previous, id)->0;
    let after = entry_at(current, id)->0;
    StageDiffModel {
        stable_id: id,
        before: before.stage,
        after: after.stage,
        before_reason: before.top_reason,
        after_reason: after.top_reason,
    }
}

/// The differences at the first of the names that there were.
pub open spec fn diffs_first(
    previous: Seq<StageEntryModel>,
    current: Seq<StageEntryModel>,
    first: nat,
) -> Seq<StageDiffModel>
    decreases first,
{
    if first == 0 {
        Seq::empty()
    } else {
        let rest = diffs_first(previous, current, (first - 1) as nat);
        let id = crate::common::keys::distinct(ids(previous))[first - 1];
        if differs(previous, current, id) {
            rest.push(difference(previous, current, id))
        } else {
            rest
        }
    }
}

/// The differences between two lists of entries, in the order of the names.
pub open spec fn diffs(
    previous: Seq<StageEntryModel>,
    current: Seq<StageEntryModel>,
) -> Seq<StageDiffModel> {
    diffs_first(previous, current, crate::common::keys::distinct(ids(previous)).len())
}

fn ids_of(entries: &Vec<StageSnapshotEntry>) -> (list: Vec<String>)
    ensures
        crate::common::views(list@) == ids(crate::common::views(entries@)),
        list@.len() == entries@.len(),
{
    let ghost all = ids(crate::common::views(entries@));
    let mut list: Vec<String> = Vec::new();
    let mut i: usize = 0;
    while i < entries.len()
        invariant
            i <= entries@.len(),
            list@.len() == i,
            all == ids(crate::common::views(entries@)),
            forall|j: int| 0 <= j < i ==> (#[trigger] list@[j])@ == all[j],
        decreases entries@.len() - i,
    {
        assert(all[i as int] == entries@[i as int].stable_id@);
        list.push(entries[i].stable_id.clone());
        i += 1;
    }
    assert(crate::common::views(list@) =~= all);
    list
}

fn find_entry<'a>(entries: &'a Vec<StageSnapshotEntry>, list: &Vec<String>, id: &String) -> (found:
    Option<&'a StageSnapshotEntry>)
    requires
        crate::common::views(list@) == ids(crate::common::views(entries@)),
        list@.len() == entries@.len(),
    ensures
        match found {
            Some(e) => entry_at(crate::common::views(entries@), id@) == Some(e@),
            None => entry_at(crate::common::views(entries@), id@) is None,
        },
{
    match find_last(list, id) {
        Some(at) => {
            assert(crate::common::views(entries@)[at as int] == entries@[at as int]@);
            Some(&entries[at])
        },
        None => None,
    }
}

/// The differences between two lists of entries, in the order of the names: a
/// name that is in one list only is passed over.
pub fn diff_snapshots(
    previous: &Vec<StageSnapshotEntry>,
    current: &Vec<StageSnapshotEntry>,
) -> (out: Vec<StageDiff>)
    ensures
        crate::common::views(out@) == diffs(
            crate::common::views(previous@),
            crate::common::views(current@),
        ),
{
    let ghost a = crate::common::views(previous@);
    let ghost b = crate::common::views(current@);
    let previous_ids = ids_of(previous);
    let current_ids = ids_of(current);
    let keys = distinct_keys(&previous_ids);
    let mut out: Vec<StageDiff> = Vec::new();
    let mut i: usize = 0;
    assert(crate::common::views(out@) =~= Seq::empty());
    while i < keys.len()
        invariant
            i <= keys@.len(),
            crate::common::views(keys@) == crate::common::keys::distinct(ids(a)),
            a == crate::common::views(previous@),
            b == crate::common::views(current@),
            crate::common::views(previous_ids@) == ids(a),
            previous_ids@.len() == previous@.len(),
            crate::common::views(current_ids@) == ids(b),
            current_ids@.len() == current@.len(),
            crate::common::views(out@) == diffs_first(a, b, i as nat),
        decreases keys@.len() - i,
    {
        broadcast use crate::common::lemma_views_push;

        assert(crate::common::views(keys@)[i as int] == keys@[i as int]@);
        let id = &keys[i];
        if let Some(before) = find_entry(previous, &previous_ids, id) {
            if let Some(after) = find_entry(current, &current_ids, id) {
                if before.stage != after.stage || before.cause_hash != after.cause_hash {
                    out.push(
                        StageDiff {
                            stable_id: id.clone(),
                            before: before.stage,
                            after: after.stage,
                            before_reason: before.top_reason.clone(),
                            after_reason: after.top_reason.clone(),
                        },
                    );
                }
            }
        }
        i += 1;
    }
    out
}

// ---------------------------------------------------------------------------
// Reading and writing
// ---------------------------------------------------------------------------

/// The word for a stage.
pub open spec fn stage_word(stage: SnapshotStage) -> Seq<char> {
    match stage {
        SnapshotStage::Ct => "ct"@,
        SnapshotStage::Rt => "rt"@,
    }
}

/// The stage that a word stands for.
pub open spec fn stage_of_word(word: Seq<char>) -> Option<SnapshotStage> {
    if word == "ct"@ {
        Some(SnapshotStage::Ct)
    } else if word == "rt"@ {
        Some(SnapshotStage::Rt)
    } else {
        None
    }
}

/// The entry that a line holds, if it holds one.
pub open spec fn entry_of_line(line: Seq<char>) -> Option<StageEntryModel> {
    let parts = crate::common::tsv::fields(line, 4);
    if parts.len() == 4 {
        match stage_of_word(parts[1]) {
            Some(stage) => Some(
                StageEntryModel {
                    stable_id: parts[0],
                    stage,
                    top_reason: parts[3],
                    cause_hash: crate::pipeline::ct_query_cache::number_or_zero(
                        parts[2],
                        u64::MAX as nat,
                    ) as u64,
                },
            ),
            None => None,
        }
    } else {
        None
    }
}

/// The entries that the first of some lines hold.
pub open spec fn entries_of_lines(lines: Seq<Seq<char>>, first: nat) -> Seq<StageEntryModel>
    decreases first,
{
    if first == 0 {
        Seq::empty()
    } else {
        let rest = entries_of_lines(lines, (first - 1) as nat);
        match entry_of_line(lines[first - 1]) {
            Some(e) => rest.push(e),
            None => rest,
        }
    }
}

/// The entries that a text holds.
pub open spec fn entries_of(text: Seq<char>) -> Seq<StageEntryModel> {
    entries_of_lines(crate::common::tsv::lines(text), crate::common::tsv::lines(text).len())
}

/// The line of an entry.
pub open spec fn entry_line(e: StageEntryModel) -> Seq<char> {
    e.stable_id + seq!['\t'] + stage_word(e.stage) + seq!['\t'] + crate::common::text::decimal(
        e.cause_hash as nat,
    ) + seq!['\t'] + e.top_reason
}

/// The lines of entries.
pub open spec fn entry_lines(entries: Seq<StageEntryModel>) -> Seq<Seq<char>> {
    entries.map_values(|e: StageEntryModel| entry_line(e))
}

/// The text that entries are kept in.
pub open spec fn entries_text(entries: Seq<StageEntryModel>) -> Seq<char> {
    crate::common::tsv::text_of_lines(entry_lines(entries), 0)
}

fn decode_line(line: &Vec<char>) -> (found: Option<StageSnapshotEntry>)
    ensures
        match found {
            Some(e) => entry_of_line(line@) == Some(e@),
            None => entry_of_line(line@) is None,
        },
{
    let parts = split_fields(line, 4);
    let ghost texts = crate::common::tsv::texts(parts@);
    assert(parts@.len() == texts.len());
    if parts.len() != 4 {
        return None;
    }
    assert(texts[0] == parts@[0]@ && texts[1] == parts@[1]@ && texts[2] == parts@[2]@ && texts[3]
        == parts@[3]@);
    let stage = if is_text(&parts[1], "ct") {
        SnapshotStage::Ct
    } else if is_text(&parts[1], "rt") {
        SnapshotStage::Rt
    } else {
        return None;
    };
    let cause_hash = match parse_number(&parts[2], 0xffff_ffff_ffff_ffff) {
        Some(n) => n,
        None => 0,
    };
    Some(
        StageSnapshotEntry {
            stable_id: text_of(&parts[0]),
            stage,
            top_reason: text_of(&parts[3]),
            cause_hash,
        },
    )
}

/// Reads the entries that a text holds. Lines that hold none are passed over.
pub fn decode_entries(text: &str) -> (out: Vec<StageSnapshotEntry>)
    ensures
        crate::common::views(out@) == entries_of(text@),
{
    let chars = chars_of(text);
    let lines = split_lines(&chars);
    let ghost all = crate::common::tsv::texts(lines@);
    let mut out: Vec<StageSnapshotEntry> = Vec::new();
    let mut i: usize = 0;
    assert(crate::common::views(out@) =~= Seq::empty());
    while i < lines.len()
        invariant
            i <= lines@.len(),
            all == crate::common::tsv::texts(lines@),
            crate::common::views(out@) == entries_of_lines(all, i as nat),
        decreases lines@.len() - i,
    {
        broadcast use crate::common::lemma_views_push;

        assert(all[i as int] == lines@[i as int]@);
        if let Some(e) = decode_line(&lines[i]) {
            out.push(e);
        }
        i += 1;
    }
    out
}

/// The text that entries are kept in.
pub fn encode_entries(entries: &Vec<StageSnapshotEntry>) -> (text: String)
    ensures
        text@ == entries_text(crate::common::views(entries@)),
{
    let ghost all = entry_lines(crate::common::views(entries@));
    let mut text = String::new();
    let mut i: usize = 0;
    assert(all.take(0) =~= Seq::empty());
    assert(text@ =~= crate::common::tsv::text_of_lines(all.take(0), 0));
    while i < entries.len()
        invariant
            i <= entries@.len(),
            all == entry_lines(crate::common::views(entries@)),
            text@ == crate::common::tsv::text_of_lines(all.take(i as int), 0),
        decreases entries@.len() - i,
    {
        let ghost before = text@;
        let e = &entries[i];
        assert(all[i as int] == entry_line(e@));
        push_text(&mut text, e.stable_id.as_str());
        text.push('\t');
        push_text(
            &mut text,
            match e.stage {
                SnapshotStage::Ct => "ct",
                SnapshotStage::Rt => "rt",
            },
        );
        text.push('\t');
        push_decimal(&mut text, e.cause_hash);
        text.push('\t');
        push_text(&mut text, e.top_reason.as_str());
        text.push('\n');
        proof {
            crate::common::tsv::lemma_text_push(all.take(i as int), all[i as int], 0);
            assert(all.take(i as int).push(all[i as int]) =~= all.take(i as int + 1));
            assert(text@ =~= before + entry_line(e@) + seq!['\n']);
        }
        i += 1;
    }
    assert(all.take(i as int) =~= all);
    text
}

// ---------------------------------------------------------------------------
// Laws
// ---------------------------------------------------------------------------

/// An entry whose line can be read back: no tab or line feed in its name, and
/// its reason fits on a line.
pub open spec fn storable_entry(e: StageEntryModel) -> bool {
    &&& crate::common::tsv::free_of(e.stable_id, '\t')
    &&& crate::common::tsv::free_of(e.stable_id, '\n')
    &&& crate::common::tsv::is_line(e.top_reason)
}

proof fn lemma_entry_line(e: StageEntryModel)
    requires
        storable_entry(e),
    ensures
        crate::common::tsv::is_line(entry_line(e)),
        entry_of_line(entry_line(e)) == Some(e),
{
    reveal_strlit("ct");
    reveal_strlit("rt");
    let word = stage_word(e.stage);
    let number = crate::common::text::decimal(e.cause_hash as nat);
    crate::common::chars::lemma_decimal_read_back(e.cause_hash as nat);
    assert("ct"@[0] != "rt"@[0]);
    assert forall|i: int| 0 <= i < number.len() implies (#[trigger] number[i]) != '\n' && number[i]
        != '\t' by {
        assert(crate::common::chars::is_digit(number[i]));
    }
    crate::common::tsv::lemma_four_fields(e.stable_id, word, number, e.top_reason);
    let line = entry_line(e);
    let x = e.stable_id.len() as int;
    let y = x + 1 + word.len();
    let z = y + 1 + number.len();
    assert forall|i: int| 0 <= i < line.len() implies (#[trigger] line[i]) != '\n' by {
        if i < x {
            assert(line[i] == e.stable_id[i]);
        } else if x < i && i < y {
            assert(line[i] == word[i - x - 1]);
        } else if y < i && i < z {
            assert(line[i] == number[i - y - 1]);
        } else if i > z {
            assert(line[i] == e.top_reason[i - z - 1]);
        }
    }
    if e.top_reason.len() > 0 {
        assert(line.last() == e.top_reason.last());
    } else {
        assert(line.last() == '\t');
    }
    assert(entry_of_line(line)->0 =~= e);
}

proof fn lemma_entries_of_lines(entries: Seq<StageEntryModel>, first: nat)
    requires
        first <= entries.len(),
        forall|i: int| 0 <= i < entries.len() ==> storable_entry(#[trigger] entries[i]),
    ensures
        entries_of_lines(entry_lines(entries), first) == entries.take(first as int),
    decreases first,
{
    if first > 0 {
        lemma_entries_of_lines(entries, (first - 1) as nat);
        lemma_entry_line(entries[first - 1]);
        assert(entry_lines(entries)[first - 1] == entry_line(entries[first - 1]));
        assert(entries.take(first - 1).push(entries[first - 1]) =~= entries.take(first as int));
    } else {
        assert(entries.take(0) =~= Seq::empty());
    }
}

/// Entries are read back from the text that they are kept in.
pub proof fn lemma_entries_read_back(entries: Seq<StageEntryModel>)
    requires
        forall|i: int| 0 <= i < entries.len() ==> storable_entry(#[trigger] entries[i]),
    ensures
        entries_of(entries_text(entries)) == entries,
{
    let all = entry_lines(entries);
    assert forall|i: int| 0 <= i < all.len() implies crate::common::tsv::is_line(
        #[trigger] all[i],
    ) by {
        assert(all[i] == entry_line(entries[i]));
        lemma_entry_line(entries[i]);
    }
    crate::common::tsv::lemma_lines_read_back(all, 0);
    assert(all.skip(0) =~= all);
    lemma_entries_of_lines(entries, entries.len());
    assert(entries.take(entries.len() as int) =~= entries);
}

proof fn lemma_diffs_first(a: Seq<StageEntryModel>, b: Seq<StageEntryModel>, first: nat)
    requires
        first <= crate::common::keys::distinct(ids(a)).len(),
    ensures
        forall|d: StageDiffModel| #[trigger]
            diffs_first(a, b, first).contains(d) <==> exists|i: int|
                0 <= i < first && differs(
                    a,
                    b,
                    #[trigger] crate::common::keys::distinct(ids(a))[i],
                ) && d == difference(a, b, crate::common::keys::distinct(ids(a))[i]),
    decreases first,
{
    let keys = crate::common::keys::distinct(ids(a));
    if first == 0 {
        assert(diffs_first(a, b, first) =~= Seq::empty());
    } else {
        lemma_diffs_first(a, b, (first - 1) as nat);
        let rest = diffs_first(a, b, (first - 1) as nat);
        let out = diffs_first(a, b, first);
        let id = keys[first - 1];
        assert forall|d: StageDiffModel| #[trigger] out.contains(d) <==> rest.contains(d) || (
        differs(a, b, id) && d == difference(a, b, id)) by {
            if rest.contains(d) {
                let i = choose|i: int| 0 <= i < rest.len() && rest[i] == d;
                assert(out[i] == d);
            }
            if differs(a, b, id) && d == difference(a, b, id) {
                assert(out[rest.len() as int] == d);
            }
            if out.contains(d) {
                let i = choose|i: int| 0 <= i < out.len() && out[i] == d;
                if i < rest.len() {
                    assert(rest[i] == d);
                }
            }
        }
    }
}

/// A difference is reported just for the names that are in both lists with
/// another stage or another reason.
pub proof fn lemma_diffs(a: Seq<StageEntryModel>, b: Seq<StageEntryModel>, d: StageDiffModel)
    ensures
        diffs(a, b).contains(d) <==> differs(a, b, d.stable_id) && d == difference(
            a,
            b,
            d.stable_id,
        ),
{
    let keys = crate::common::keys::distinct(ids(a));
    lemma_diffs_first(a, b, keys.len());
    if differs(a, b, d.stable_id) && d == difference(a, b, d.stable_id) {
        crate::common::keys::lemma_distinct(ids(a));
        crate::common::keys::lemma_last_place(ids(a), d.stable_id);
        assert(keys.contains(d.stable_id));
        let i = choose|i: int| 0 <= i < keys.len() && keys[i] == d.stable_id;
        assert(differs(a, b, keys[i]));
    }
}

/// Nothing differs from itself.
pub proof fn lemma_no_diff(a: Seq<StageEntryModel>)
    ensures
        diffs(a, a).len() == 0,
{
    if diffs(a, a).len() > 0 {
        let d = diffs(a, a)[0];
        assert(diffs(a, a).contains(d));
        lemma_diffs(a, a, d);
    }
}

} // verus!
