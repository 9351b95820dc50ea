//! Why results found at compile time no longer hold: what has changed of the
//! target, the compiler or the files that were read.
use crate::common::keys::{distinct_keys, find_last};
use crate::common::text::{push_decimal, push_text};
use crate::pipeline::file_deps::{copy_deps, normalized_file_deps};
use crate::pipeline::tables::{CacheKeyModel, CtCacheKey, CtFileDep, FileDepModel};
use vstd::prelude::*;

verus! {

#[derive(Debug)]
pub struct CtDepSnapshot {
    pub cache_key: CtCacheKey,
    pub file_deps: Vec<CtFileDep>,
}

/// A snapshot as a mathematical value.
#[verifier::ext_equal]
pub struct DepSnapshotModel {
    pub cache_key: CacheKeyModel,
    pub file_deps: Seq<FileDepModel>,
}

impl View for CtDepSnapshot {
    type V = DepSnapshotModel;

    open spec fn view(&self) -> DepSnapshotModel {
        DepSnapshotModel {
            cache_key: self.cache_key@,
            file_deps: crate::common::views(self.file_deps@),
        }
    }
}

impl Clone for CtDepSnapshot {
    fn clone(&self) -> (copy: Self)
        ensures
            copy@ == self@,
    {
        CtDepSnapshot {
            cache_key: self.cache_key.clone(),
            file_deps: copy_deps(&self.file_deps),
        }
    }
}

/// What has changed.
#[allow(inconsistent_fields)]
#[derive(Debug)]
pub enum CtInvalidationReason {
    TargetWordSizeChanged { before: u8, after: u8 },
    TargetEndiannessChanged { before: String, after: String },
    TargetAlignmentChanged { before: u8, after: u8 },
    EvaluatorPolicyChanged { before: String, after: String },
    CompilerVersionChanged { before: String, after: String },
    FileAdded { path: String, content_hash: String },
    FileRemoved { path: String, content_hash: String },
    FileChanged { path: String, before_hash: String, after_hash: String },
}

/// A reason as a mathematical value.
#[allow(inconsistent_fields)]
#[verifier::ext_equal]
pub enum InvalidationModel {
    TargetWordSizeChanged { before: u8, after: u8 },
    TargetEndiannessChanged { before: Seq<char>, after: Seq<char> },
    TargetAlignmentChanged { before: u8, after: u8 },
    EvaluatorPolicyChanged { before: Seq<char>, after: Seq<char> },
    CompilerVersionChanged { before: Seq<char>, after: Seq<char> },
    FileAdded { path: Seq<char>, content_hash: Seq<char> },
    FileRemoved { path: Seq<char>, content_hash: Seq<char> },
    FileChanged { path: Seq<char>, before_hash: Seq<char>, after_hash: Seq<char> },
}

impl View for CtInvalidationReason {
    type V = InvalidationModel;

    open spec fn view(&self) -> InvalidationModel {
        match *self {
            CtInvalidationReason::TargetWordSizeChanged {
                before,
                after,
            } => InvalidationModel::TargetWordSizeChanged { before, after },
            CtInvalidationReason::TargetEndiannessChanged {
                before,
                after,
            } => InvalidationModel::TargetEndiannessChanged { before: before@, after: after@ },
            CtInvalidationReason::TargetAlignmentChanged {
                before,
                after,
            } => InvalidationModel::TargetAlignmentChanged { before, after },
            CtInvalidationReason::EvaluatorPolicyChanged {
                before,
                after,
            } => InvalidationModel::EvaluatorPolicyChanged { before: before@, after: after@ },
            CtInvalidationReason::CompilerVersionChanged {
                before,
                after,
            } => InvalidationModel::CompilerVersionChanged { before: before@, after: after@ },
            CtInvalidationReason::FileAdded {
                path,
                content_hash,
            } => InvalidationModel::FileAdded { path: path@, content_hash: content_hash@ },
            CtInvalidationReason::FileRemoved {
                path,
                content_hash,
            } => InvalidationModel::FileRemoved { path: path@, content_hash: content_hash@ },
            CtInvalidationReason::FileChanged {
                path,
                before_hash,
                after_hash,
            } => InvalidationModel::FileChanged {
                path: path@,
                before_hash: before_hash@,
                after_hash: after_hash@,
            },
        }
    }
}

// ---------------------------------------------------------------------------
// In words
// ---------------------------------------------------------------------------

/// A change from one text to another.
pub open spec fn change_text(what: Seq<char>, before: Seq<char>, after: Seq<char>) -> Seq<char> {
    what + before + " -> "@ + after
}

/// A file, and its hash in brackets.
pub open spec fn file_text(what: Seq<char>, path: Seq<char>, hash: Seq<char>) -> Seq<char> {
    what + path + " ("@ + hash + ")"@
}

impl InvalidationModel {
    /// The reason in words.
    pub open spec fn text(self) -> Seq<char> {
        match self {
            InvalidationModel::TargetWordSizeChanged { before, after } => change_text(
                "target word size changed: "@,
                crate::common::text::decimal(before as nat),
                crate::common::text::decimal(after as nat),
            ),
            InvalidationModel::TargetEndiannessChanged { before, after } => change_text(
                "target endianness changed: "@,
                before,
                after,
            ),
            InvalidationModel::TargetAlignmentChanged { before, after } => change_text(
                "target pointer alignment changed: "@,
                crate::common::text::decimal(before as nat),
                crate::common::text::decimal(after as nat),
            ),
            InvalidationModel::EvaluatorPolicyChanged { before, after } => change_text(
                "ct evaluator policy changed: "@,
                before,
                after,
            ),
            InvalidationModel::CompilerVersionChanged { before, after } => change_text(
                "compiler version changed: "@,
                before,
                after,
            ),
            InvalidationModel::FileAdded { path, content_hash } => file_text(
                "dependency added: "@,
                path,
                content_hash,
            ),
            InvalidationModel::FileRemoved { path, content_hash } => file_text(
                "dependency removed: "@,
                path,
                content_hash,
            ),
            InvalidationModel::FileChanged { path, before_hash, after_hash } => file_text(
                "dependency changed: "@,
                path,
                before_hash + " -> "@ + after_hash,
            ),
        }
    }
}

fn describe_change(what: &str, before: &str, after: &str) -> (text: String)
    ensures
        text@ == change_text(what@, before@, after@),
{
    let mut text = String::new();
    push_text(&mut text, what);
    push_text(&mut text, before);
    push_text(&mut text, " -> ");
    push_text(&mut text, after);
    assert(text@ =~= change_text(what@, before@, after@));
    text
}

fn describe_numbers(what: &str, before: u8, after: u8) -> (text: String)
    ensures
        text@ == change_text(
            what@,
            crate::common::text::decimal(before as nat),
            crate::common::text::decimal(after as nat),
        ),
{
    let mut text = String::new();
    push_text(&mut text, what);
    push_decimal(&mut text, before as u64);
    push_text(&mut text, " -> ");
    push_decimal(&mut text, after as u64);
    assert(text@ =~= change_text(
        what@,
        crate::common::text::decimal(before as nat),
        crate::common::text::decimal(after as nat),
    ));
    text
}

fn describe_file(what: &str, path: &str, hash: &str) -> (text: String)
    ensures
        text@ == file_text(what@, path@, hash@),
{
    let mut text = String::new();
    push_text(&mut text, what);
    push_text(&mut text, path);
    push_text(&mut text, " (");
    push_text(&mut text, hash);
    push_text(&mut text, ")");
    assert(text@ =~= file_text(what@, path@, hash@));
    text
}

impl CtInvalidationReason {
    /// The reason in words.
    pub fn describe(&self) -> (text: String)
        ensures
            text@ == self@.text(),
    {
        match self {
            CtInvalidationReason::TargetWordSizeChanged { before, after } => describe_numbers(
                "target word size changed: ",
                *before,
                *after,
            ),
            CtInvalidationReason::TargetEndiannessChanged { before, after } => describe_change(
                "target endianness changed: ",
                before.as_str(),
                after.as_str(),
            ),
            CtInvalidationReason::TargetAlignmentChanged { before, after } => describe_numbers(
                "target pointer alignment changed: ",
                *before,
                *after,
            ),
            CtInvalidationReason::EvaluatorPolicyChanged { before, after } => describe_change(
                "ct evaluator policy changed: ",
                before.as_str(),
                after.as_str(),
            ),
            CtInvalidationReason::CompilerVersionChanged { before, after } => describe_change(
                "compiler version changed: ",
                before.as_str(),
                after.as_str(),
            ),
            CtInvalidationReason::FileAdded { path, content_hash } => describe_file(
                "dependency added: ",
                path.as_str(),
                content_hash.as_str(),
            ),
            CtInvalidationReason::FileRemoved { path, content_hash } => describe_file(
                "dependency removed: ",
                path.as_str(),
                content_hash.as_str(),
            ),
            CtInvalidationReason::FileChanged { path, before_hash, after_hash } => {
                let hashes = describe_change("", before_hash.as_str(), after_hash.as_str());
                proof {
                    reveal_strlit("");
                    assert(hashes@ =~= before_hash@ + " -> "@ + after_hash@);
                }
                describe_file("dependency changed: ", path.as_str(), hashes.as_str())
            },
        }
    }
}

// ---------------------------------------------------------------------------
// What has changed
// ---------------------------------------------------------------------------

/// What has changed of the target and the compiler.
pub open spec fn key_reasons(a: CacheKeyModel, b: CacheKeyModel) -> Seq<InvalidationModel> {
    (if a.target_word_size_bits != b.target_word_size_bits {
        seq![
            InvalidationModel::TargetWordSizeChanged {
                before: a.target_word_size_bits,
                after: b.target_word_size_bits,
            },
        ]
    } else {
        Seq::empty()
    }) + (if a.target_endianness != b.target_endianness {
        seq![
            InvalidationModel::TargetEndiannessChanged {
                before: a.target_endianness,
                after: b.target_endianness,
            },
        ]
    } else {
        Seq::empty()
    }) + (if a.target_pointer_alignment != b.target_pointer_alignment {
        seq![
            InvalidationModel::TargetAlignmentChanged {
                before: a.target_pointer_alignment,
                after: b.target_pointer_alignment,
            },
        ]
    } else {
        Seq::empty()
    }) + (if a.evaluator_policy != b.evaluator_policy {
        seq![
            InvalidationModel::EvaluatorPolicyChanged {
                before: a.evaluator_policy,
                after: b.evaluator_policy,
            },
        ]
    } else {
        Seq::empty()
    }) + (if a.compiler_version != b.compiler_version {
        seq![
            InvalidationModel::CompilerVersionChanged {
                before: a.compiler_version,
                after: b.compiler_version,
            },
        ]
    } else {
        Seq::empty()
    })
}

/// The paths of files.
pub open spec fn paths(deps: Seq<FileDepModel>) -> Seq<Seq<char>> {
    deps.map_values(|dep: FileDepModel| dep.path)
}

/// The hash of the file with a path: of the last one, where there are several.
pub open spec fn hash_at(deps: Seq<FileDepModel>, path: Seq<char>) -> Option<Seq<char>> {
    match crate::common::keys::last_place(paths(deps), path) {
        Some(at) => Some(deps[at].content_hash),
        None => None,
    }
}

/// What has become of the first of the paths that there were.
pub open spec fn lost_first(
    previous: Seq<FileDepModel>,
    current: Seq<FileDepModel>,
    first: nat,
) -> Seq<InvalidationModel>
    decreases first,
{
    if first == 0 {
        Seq::empty()
    } else {
        let rest = lost_first(previous, current, (first - 1) as nat);
        let path = crate::common::keys::distinct(paths(previous))[first - 1];
        match (hash_at(previous, path), hash_at(current, path)) {
            (Some(before_hash), Some(after_hash)) => if before_hash != after_hash {
                rest.push(InvalidationModel::FileChanged { path, before_hash, after_hash })
            } else {
                rest
            },
            (Some(content_hash), None) => rest.push(
                InvalidationModel::FileRemoved { path, content_hash },
            ),
            _ => rest,
        }
    }
}

/// Which of the first paths there are were not there.
pub open spec fn added_first(
    previous: Seq<FileDepModel>,
    current: Seq<FileDepModel>,
    first: nat,
) -> Seq<InvalidationModel>
    decreases first,
{
    if first == 0 {
        Seq::empty()
    } else {
        let rest = added_first(previous, current, (first - 1) as nat);
        let path = crate::common::keys::distinct(paths(current))[first - 1];
        match (hash_at(previous, path), hash_at(current, path)) {
            (None, Some(content_hash)) => rest.push(
                InvalidationModel::FileAdded { path, content_hash },
            ),
            _ => rest,
        }
    }
}

/// What has changed between two snapshots: first of the target and the compiler,
/// then the files that changed or went, in the order of their paths, and then
/// the files that came, in the order of theirs.
pub open spec fn reasons(a: DepSnapshotModel, b: DepSnapshotModel) -> Seq<InvalidationModel> {
    key_reasons(a.cache_key, b.cache_key) + lost_first(
        a.file_deps,
        b.file_deps,
        crate::common::keys::distinct(paths(a.file_deps)).len(),
    ) + added_first(
        a.file_deps,
        b.file_deps,
        crate::common::keys::distinct(paths(b.file_deps)).len(),
    )
}

fn paths_of(deps: &Vec<CtFileDep>) -> (list: Vec<String>)
    ensures
        crate::common::views(list@) == paths(crate::common::views(deps@)),
        list@.len() == deps@.len(),
{
    let ghost all = paths(crate::common::views(deps@));
    let mut list: Vec<String> = Vec::new();
    let mut i: usize = 0;
    while i < deps.len()
        invariant
            i <= deps@.len(),
            list@.len() == i,
            all == paths(crate::common::views(deps@)),
            forall|j: int| 0 <= j < i ==> (#[trigger] list@[j])@ == all[j],
        decreases deps@.len() - i,
    {
        assert(all[i as int] == deps@[i as int].path@);
        list.push(deps[i].path.clone());
        i += 1;
    }
    assert(crate::common::views(list@) =~= all);
    list
}

fn hash_of<'a>(deps: &'a Vec<CtFileDep>, list: &Vec<String>, path: &String) -> (hash: Option<
    &'a String,
>)
    requires
        crate::common::views(list@) == paths(crate::common::views(deps@)),
        list@.len() == deps@.len(),
    ensures
        match hash {
            Some(hash) => hash_at(crate::common::views(deps@), path@) == Some(hash@),
            None => hash_at(crate::common::views(deps@), path@) is None,
        },
{
    match find_last(list, path) {
        Some(at) => {
            assert(crate::common::views(deps@)[at as int] == deps@[at as int]@);
            Some(&deps[at].content_hash)
        },
        None => None,
    }
}

fn diff_cache_key(a: &CtCacheKey, b: &CtCacheKey) -> (out: Vec<CtInvalidationReason>)
    ensures
        crate::common::views(out@) == key_reasons(a@, b@),
{
    broadcast use crate::common::lemma_views_push;

    let mut out: Vec<CtInvalidationReason> = Vec::new();
    if a.target_word_size_bits != b.target_word_size_bits {
        out.push(
            CtInvalidationReason::TargetWordSizeChanged {
                before: a.target_word_size_bits,
                after: b.target_word_size_bits,
            },
        );
    }
    if a.target_endianness != b.target_endianness {
        out.push(
            CtInvalidationReason::TargetEndiannessChanged {
                before: a.target_endianness.clone(),
                after: b.target_endianness.clone(),
            },
        );
    }
    if a.target_pointer_alignment != b.target_pointer_alignment {
        out.push(
            CtInvalidationReason::TargetAlignmentChanged {
                before: a.target_pointer_alignment,
                after: b.target_pointer_alignment,
            },
        );
    }
    if a.evaluator_policy != b.evaluator_policy {
        out.push(
            CtInvalidationReason::EvaluatorPolicyChanged {
                before: a.evaluator_policy.clone(),
                after: b.evaluator_policy.clone(),
            },
        );
    }
    if a.compiler_version != b.compiler_version {
        out.push(
            CtInvalidationReason::CompilerVersionChanged {
                before: a.compiler_version.clone(),
                after: b.compiler_version.clone(),
            },
        );
    }
    assert(crate::common::views(out@) =~= key_reasons(a@, b@));
    out
}

fn diff_file_deps(
    previous: &Vec<CtFileDep>,
    current: &Vec<CtFileDep>,
    out: &mut Vec<CtInvalidationReason>,
)
    ensures
        crate::common::views(final(out)@) == crate::common::views(old(out)@) + lost_first(
            crate::common::views(previous@),
            crate::common::views(current@),
            crate::common::keys::distinct(paths(crate::common::views(previous@))).len(),
        ) + added_first(
            crate::common::views(previous@),
            crate::common::views(current@),
            crate::common::keys::distinct(paths(crate::common::views(current@))).len(),
        ),
{
    let ghost start = crate::common::views(out@);
    let ghost a = crate::common::views(previous@);
    let ghost b = crate::common::views(current@);
    let previous_paths = paths_of(previous);
    let current_paths = paths_of(current);
    let keys = distinct_keys(&previous_paths);
    let mut i: usize = 0;
    assert(crate::common::views(out@) =~= start + lost_first(a, b, 0));
    while i < keys.len()
        invariant
            i <= keys@.len(),
            crate::common::views(keys@) == crate::common::keys::distinct(paths(a)),
            a == crate::common::views(previous@),
            b == crate::common::views(current@),
            crate::common::views(previous_paths@) == paths(a),
            previous_paths@.len() == previous@.len(),
            crate::common::views(current_paths@) == paths(b),
            current_paths@.len() == current@.len(),
            crate::common::views(out@) == start + lost_first(a, b, i as nat),
        decreases keys@.len() - i,
    {
        broadcast use crate::common::lemma_views_push;

        assert(crate::common::views(keys@)[i as int] == keys@[i as int]@);
        let path = &keys[i];
        if let Some(before_hash) = hash_of(previous, &previous_paths, path) {
            match hash_of(current, &current_paths, path) {
                Some(after_hash) => {
                    if *before_hash != *after_hash {
                        out.push(
                            CtInvalidationReason::FileChanged {
                                path: path.clone(),
                                before_hash: before_hash.clone(),
                                after_hash: after_hash.clone(),
                            },
                        );
                    }
                },
                None => {
                    out.push(
                        CtInvalidationReason::FileRemoved {
                            path: path.clone(),
                            content_hash: before_hash.clone(),
                        },
                    );
                },
            }
        }
        i += 1;
        assert(crate::common::views(out@) =~= start + lost_first(a, b, i as nat));
    }
    let ghost middle = crate::common::views(out@);
    let keys = distinct_keys(&current_paths);
    let mut i: usize = 0;
    assert(crate::common::views(out@) =~= middle + added_first(a, b, 0));
    while i < keys.len()
        invariant
            i <= keys@.len(),
            crate::common::views(keys@) == crate::common::keys::distinct(paths(b)),
            a == crate::common::views(previous@),
            b == crate::common::views(current@),
            crate::common::views(previous_paths@) == paths(a),
            previous_paths@.len() == previous@.len(),
            crate::common::views(current_paths@) == paths(b),
            current_paths@.len() == current@.len(),
            crate::common::views(out@) == middle + added_first(a, b, i as nat),
        decreases keys@.len() - i,
    {
        broadcast use crate::common::lemma_views_push;

        assert(crate::common::views(keys@)[i as int] == keys@[i as int]@);
        let path = &keys[i];
        if hash_of(previous, &previous_paths, path).is_none() {
            if let Some(content_hash) = hash_of(current, &current_paths, path) {
                out.push(
                    CtInvalidationReason::FileAdded {
                        path: path.clone(),
                        content_hash: content_hash.clone(),
                    },
                );
            }
        }
        i += 1;
        assert(crate::common::views(out@) =~= middle + added_first(a, b, i as nat));
    }
}

/// What has changed between two snapshots.
pub fn diff(previous: &CtDepSnapshot, current: &CtDepSnapshot) -> (out: Vec<CtInvalidationReason>)
    ensures
        crate::common::views(out@) == reasons(previous@, current@),
{
    let mut out = diff_cache_key(&previous.cache_key, &current.cache_key);
    diff_file_deps(&previous.file_deps, &current.file_deps, &mut out);
    out
}

/// A snapshot with its files in order, as it is kept.
pub fn normalized(snapshot: &CtDepSnapshot) -> (out: CtDepSnapshot)
    ensures
        out@ == (DepSnapshotModel {
            file_deps: crate::pipeline::file_deps::ordered(snapshot@.file_deps),
            ..snapshot@
        }),
{
    CtDepSnapshot {
        cache_key: snapshot.cache_key.clone(),
        file_deps: normalized_file_deps(copy_deps(&snapshot.file_deps)),
    }
}

// ---------------------------------------------------------------------------
// Laws
// ---------------------------------------------------------------------------

proof fn lemma_lost(a: Seq<FileDepModel>, b: Seq<FileDepModel>, first: nat)
    requires
        first <= crate::common::keys::distinct(paths(a)).len(),
    ensures
        lost_first(a, b, first).len() == 0 <==> (forall|i: int|
            0 <= i < first ==> hash_at(
                a,
                #[trigger] crate::common::keys::distinct(paths(a))[i],
            ) == hash_at(b, crate::common::keys::distinct(paths(a))[i])),
    decreases first,
{
    if first > 0 {
        lemma_lost(a, b, (first - 1) as nat);
        let keys = crate::common::keys::distinct(paths(a));
        crate::common::keys::lemma_distinct(paths(a));
        assert(keys.contains(keys[first - 1]));
        crate::common::keys::lemma_last_place(paths(a), keys[first - 1]);
    }
}

proof fn lemma_added(a: Seq<FileDepModel>, b: Seq<FileDepModel>, first: nat)
    requires
        first <= crate::common::keys::distinct(paths(b)).len(),
    ensures
        added_first(a, b, first).len() == 0 <==> (forall|i: int|
            0 <= i < first ==> hash_at(
                a,
                #[trigger] crate::common::keys::distinct(paths(b))[i],
            ) is Some),
    decreases first,
{
    if first > 0 {
        lemma_added(a, b, (first - 1) as nat);
        let keys = crate::common::keys::distinct(paths(b));
        crate::common::keys::lemma_distinct(paths(b));
        assert(keys.contains(keys[first - 1]));
        crate::common::keys::lemma_last_place(paths(b), keys[first - 1]);
    }
}

/// There is no reason just where the target and the compiler are the same, and
/// every path has the same hash in both, or is in neither.
pub proof fn lemma_no_reason(a: DepSnapshotModel, b: DepSnapshotModel)
    ensures
        reasons(a, b).len() == 0 <==> (a.cache_key == b.cache_key && forall|path: Seq<char>| #[trigger]
            hash_at(a.file_deps, path) == hash_at(b.file_deps, path)),
{
    let x = a.file_deps;
    let y = b.file_deps;
    let before = crate::common::keys::distinct(paths(x));
    let after = crate::common::keys::distinct(paths(y));
    lemma_lost(x, y, before.len());
    lemma_added(x, y, after.len());
    crate::common::keys::lemma_distinct(paths(x));
    crate::common::keys::lemma_distinct(paths(y));
    assert(key_reasons(a.cache_key, b.cache_key).len() == 0 <==> a.cache_key =~= b.cache_key);
    if reasons(a, b).len() == 0 {
        assert forall|path: Seq<char>| #[trigger] hash_at(x, path) == hash_at(y, path) by {
            crate::common::keys::lemma_last_place(paths(x), path);
            crate::common::keys::lemma_last_place(paths(y), path);
            if paths(x).contains(path) {
                assert(before.contains(path));
                let i = choose|i: int| 0 <= i < before.len() && before[i] == path;
                assert(hash_at(x, before[i]) == hash_at(y, before[i]));
            } else if paths(y).contains(path) {
                assert(after.contains(path));
                let i = choose|i: int| 0 <= i < after.len() && after[i] == path;
                assert(hash_at(x, after[i]) is Some);
            }
        }
    }
    if a.cache_key == b.cache_key && (forall|path: Seq<char>| #[trigger]
        hash_at(x, path) == hash_at(y, path)) {
        assert forall|i: int| 0 <= i < after.len() implies hash_at(x, #[trigger] after[i]) is Some by {
            assert(after.contains(after[i]));
            crate::common::keys::lemma_last_place(paths(y), after[i]);
            assert(hash_at(x, after[i]) == hash_at(y, after[i]));
        }
    }
}

} // verus!
