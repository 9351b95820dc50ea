//! The files that a compilation read, in a fixed order.
use crate::common::chars::is_text_le;
use crate::pipeline::tables::{CtFileDep, FileDepModel};
use vstd::prelude::*;

verus! {

/// Files stand in the order of their paths, and by hash where paths agree.
pub open spec fn dep_le(a: FileDepModel, b: FileDepModel) -> bool {
    if a.path == b.path {
        crate::common::chars::text_le(a.content_hash, b.content_hash)
    } else {
        crate::common::chars::text_le(a.path, b.path)
    }
}

/// A list in order, with one more file.
pub open spec fn with_dep(list: Seq<FileDepModel>, dep: FileDepModel) -> Seq<FileDepModel>
    decreases list.len(),
{
    if list.len() == 0 {
        seq![dep]
    } else if dep_le(list.last(), dep) {
        list.push(dep)
    } else {
        with_dep(list.drop_last(), dep).push(list.last())
    }
}

/// The first files of a list, in order.
pub open spec fn ordered_first(list: Seq<FileDepModel>, first: nat) -> Seq<FileDepModel>
    decreases first,
{
    if first == 0 {
        Seq::empty()
    } else {
        with_dep(ordered_first(list, (first - 1) as nat), list[first - 1])
    }
}

/// The files of a list, in order.
pub open spec fn ordered(list: Seq<FileDepModel>) -> Seq<FileDepModel> {
    ordered_first(list, list.len())
}

fn is_dep_le(a: &CtFileDep, b: &CtFileDep) -> (le: bool)
    ensures
        le == dep_le(a@, b@),
{
    if a.path == b.path {
        is_text_le(a.content_hash.as_str(), b.content_hash.as_str())
    } else {
        is_text_le(a.path.as_str(), b.path.as_str())
    }
}

/// Where a file is put.
proof fn lemma_with_dep_at(list: Seq<FileDepModel>, dep: FileDepModel, at: int)
    requires
        0 <= at <= list.len(),
        at > 0 ==> dep_le(list[at - 1], dep),
        forall|i: int| at <= i < list.len() ==> !dep_le(#[trigger] list[i], dep),
    ensures
        with_dep(list, dep) == list.insert(at, dep),
    decreases list.len(),
{
    if list.len() == 0 {
        assert(seq![dep] =~= list.insert(at, dep));
    } else if at == list.len() {
        assert(list.push(dep) =~= list.insert(at, dep));
    } else {
        assert(!dep_le(list[list.len() - 1], dep));
        let rest = list.drop_last();
        assert forall|i: int| at <= i < rest.len() implies !dep_le(#[trigger] rest[i], dep) by {
            assert(rest[i] == list[i]);
        }
        lemma_with_dep_at(rest, dep, at);
        assert(rest.insert(at, dep).push(list.last()) =~= list.insert(at, dep));
    }
}

fn insert_dep(list: &mut Vec<CtFileDep>, dep: CtFileDep)
    ensures
        crate::common::views(final(list)@) == with_dep(crate::common::views(old(list)@), dep@),
{
    let ghost before = crate::common::views(list@);
    let mut at: usize = list.len();
    while at > 0 && !is_dep_le(&list[at - 1], &dep)
        invariant
            at <= list@.len(),
            before == crate::common::views(list@),
            forall|i: int| at <= i < before.len() ==> !dep_le(#[trigger] before[i], dep@),
        decreases at,
    {
        assert(before[at - 1] == list@[at - 1]@);
        at -= 1;
    }
    assert(at > 0 ==> before[at - 1] == list@[at - 1]@);
    proof {
        lemma_with_dep_at(before, dep@, at as int);
    }
    let ghost model = dep@;
    list.insert(at, dep);
    assert(crate::common::views(list@) =~= before.insert(at as int, model));
}

/// Puts files in order.
pub fn normalized_file_deps(deps: Vec<CtFileDep>) -> (out: Vec<CtFileDep>)
    ensures
        crate::common::views(out@) == ordered(crate::common::views(deps@)),
{
    let ghost models = crate::common::views(deps@);
    let mut out: Vec<CtFileDep> = Vec::new();
    let mut i: usize = 0;
    assert(crate::common::views(out@) =~= Seq::empty());
    while i < deps.len()
        invariant
            i <= deps@.len(),
            models == crate::common::views(deps@),
            crate::common::views(out@) == ordered_first(models, i as nat),
        decreases deps@.len() - i,
    {
        assert(models[i as int] == deps@[i as int]@);
        insert_dep(&mut out, deps[i].clone());
        i += 1;
    }
    out
}

pub(crate) fn copy_deps(deps: &Vec<CtFileDep>) -> (copy: Vec<CtFileDep>)
    ensures
        crate::common::views(copy@) == crate::common::views(deps@),
{
    broadcast use crate::common::lemma_views_push;

    let ghost models = crate::common::views(deps@);
    let mut copy: Vec<CtFileDep> = Vec::new();
    let mut i: usize = 0;
    assert(crate::common::views(copy@) =~= models.take(0));
    while i < deps.len()
        invariant
            i <= deps@.len(),
            models == crate::common::views(deps@),
            crate::common::views(copy@) == models.take(i as int),
        decreases deps@.len() - i,
    {
        broadcast use crate::common::lemma_views_push;

        assert(models[i as int] == deps@[i as int]@);
        copy.push(deps[i].clone());
        assert(models.take(i as int + 1) =~= models.take(i as int).push(models[i as int]));
        i += 1;
    }
    assert(models.take(i as int) =~= models);
    copy
}

/// Whether two lists hold the same files, in whatever order.
pub fn deps_match(expected: &Vec<CtFileDep>, actual: &Vec<CtFileDep>) -> (same: bool)
    ensures
        same == (ordered(crate::common::views(expected@)) == ordered(
            crate::common::views(actual@),
        )),
{
    let left = normalized_file_deps(copy_deps(expected));
    let right = normalized_file_deps(copy_deps(actual));
    let ghost a = crate::common::views(left@);
    let ghost b = crate::common::views(right@);
    if left.len() != right.len() {
        assert(a.len() != b.len());
        return false;
    }
    let mut i: usize = 0;
    while i < left.len()
        invariant
            i <= left@.len() == right@.len(),
            a == crate::common::views(left@),
            b == crate::common::views(right@),
            a == ordered(crate::common::views(expected@)),
            b == ordered(crate::common::views(actual@)),
            forall|j: int| 0 <= j < i ==> a[j] == b[j],
        decreases left@.len() - i,
    {
        assert(a[i as int] == left@[i as int]@);
        assert(b[i as int] == right@[i as int]@);
        if left[i].path != right[i].path || left[i].content_hash != right[i].content_hash {
            assert(a[i as int].path != b[i as int].path || a[i as int].content_hash
                != b[i as int].content_hash);
            return false;
        }
        assert(a[i as int] =~= b[i as int]);
        i += 1;
    }
    assert(a =~= b);
    true
}

// ---------------------------------------------------------------------------
// Laws
// ---------------------------------------------------------------------------

pub open spec fn dep_order() -> spec_fn(FileDepModel, FileDepModel) -> bool {
    |a: FileDepModel, b: FileDepModel| dep_le(a, b)
}

proof fn lemma_dep_total(a: FileDepModel, b: FileDepModel)
    ensures
        dep_le(a, a),
        dep_le(a, b) || dep_le(b, a),
        dep_le(a, b) && dep_le(b, a) ==> a == b,
{
    crate::common::chars::lemma_text_le_total(a.content_hash, b.content_hash);
    crate::common::chars::lemma_text_le_total(a.path, b.path);
    if dep_le(a, b) && dep_le(b, a) {
        if a.path == b.path {
            crate::common::chars::lemma_text_le_antisymmetric(a.content_hash, b.content_hash);
        } else {
            crate::common::chars::lemma_text_le_antisymmetric(a.path, b.path);
        }
        assert(a =~= b);
    }
}

proof fn lemma_dep_transitive(a: FileDepModel, b: FileDepModel, c: FileDepModel)
    requires
        dep_le(a, b),
        dep_le(b, c),
    ensures
        dep_le(a, c),
{
    if a.path == b.path && b.path == c.path {
        crate::common::chars::lemma_text_le_transitive(
            a.content_hash,
            b.content_hash,
            c.content_hash,
        );
    } else {
        crate::common::chars::lemma_text_le_total(a.path, b.path);
        crate::common::chars::lemma_text_le_total(b.path, c.path);
        crate::common::chars::lemma_text_le_transitive(a.path, b.path, c.path);
        if a.path == c.path {
            crate::common::chars::lemma_text_le_antisymmetric(a.path, b.path);
        }
    }
}

proof fn lemma_dep_order()
    ensures
        vstd::relations::total_ordering(dep_order()),
{
    let r = dep_order();
    assert(vstd::relations::reflexive(r)) by {
        assert forall|x: FileDepModel| #[trigger] r(x, x) by {
            lemma_dep_total(x, x);
        }
    }
    assert(vstd::relations::antisymmetric(r)) by {
        assert forall|x: FileDepModel, y: FileDepModel| #[trigger] r(x, y) && #[trigger] r(
            y,
            x,
        ) implies x == y by {
            lemma_dep_total(x, y);
        }
    }
    assert(vstd::relations::transitive(r)) by {
        assert forall|x: FileDepModel, y: FileDepModel, z: FileDepModel| #[trigger] r(x, y)
            && #[trigger] r(y, z) implies r(x, z) by {
            lemma_dep_transitive(x, y, z);
        }
    }
    assert(vstd::relations::strongly_connected(r)) by {
        assert forall|x: FileDepModel, y: FileDepModel| #[trigger] r(x, y) || #[trigger] r(
            y,
            x,
        ) by {
            lemma_dep_total(x, y);
        }
    }
}

proof fn lemma_with_dep(list: Seq<FileDepModel>, dep: FileDepModel)
    requires
        vstd::relations::sorted_by(list, dep_order()),
    ensures
        vstd::relations::sorted_by(with_dep(list, dep), dep_order()),
        with_dep(list, dep).to_multiset() =~= list.to_multiset().insert(dep),
        forall|x: FileDepModel|
            (dep_le(dep, x) && (list.len() > 0 ==> dep_le(list.last(), x))) ==> #[trigger] dep_le(
                with_dep(list, dep).last(),
                x,
            ),
        with_dep(list, dep).len() == list.len() + 1,
    decreases list.len(),
{
    broadcast use vstd::seq_lib::group_to_multiset_ensures;

    let r = dep_order();
    if list.len() == 0 {
        assert(seq![dep] =~= Seq::<FileDepModel>::empty().push(dep));
        assert(list =~= Seq::empty());
    } else if dep_le(list.last(), dep) {
        let out = list.push(dep);
        assert forall|i: int, j: int| 0 <= i < j < out.len() implies #[trigger] r(
            out[i],
            out[j],
        ) by {
            if j == list.len() {
                if i < list.len() - 1 {
                    assert(r(list[i], list[list.len() - 1]));
                    lemma_dep_transitive(list[i], list.last(), dep);
                }
            } else {
                assert(r(list[i], list[j]));
            }
        }
    } else {
        let rest = list.drop_last();
        assert forall|i: int, j: int| 0 <= i < j < rest.len() implies #[trigger] r(
            rest[i],
            rest[j],
        ) by {
            assert(r(list[i], list[j]));
        }
        lemma_with_dep(rest, dep);
        let inner = with_dep(rest, dep);
        let out = inner.push(list.last());
        lemma_dep_total(list.last(), dep);
        if rest.len() > 0 {
            assert(r(list[list.len() - 2], list[list.len() - 1]));
        }
        assert(dep_le(inner.last(), list.last()));
        assert forall|i: int, j: int| 0 <= i < j < out.len() implies #[trigger] r(
            out[i],
            out[j],
        ) by {
            if j == inner.len() {
                if i < inner.len() - 1 {
                    assert(r(inner[i], inner[inner.len() - 1]));
                    lemma_dep_transitive(inner[i], inner.last(), list.last());
                }
            } else {
                assert(r(inner[i], inner[j]));
            }
        }
        assert(list =~= rest.push(list.last()));
        assert(out.to_multiset() =~= rest.to_multiset().insert(dep).insert(list.last()));
        assert(list.to_multiset() =~= rest.to_multiset().insert(list.last()));
    }
}

proof fn lemma_ordered_first(list: Seq<FileDepModel>, first: nat)
    requires
        first <= list.len(),
    ensures
        vstd::relations::sorted_by(ordered_first(list, first), dep_order()),
        ordered_first(list, first).to_multiset() =~= list.take(first as int).to_multiset(),
    decreases first,
{
    broadcast use vstd::seq_lib::group_to_multiset_ensures;

    if first > 0 {
        lemma_ordered_first(list, (first - 1) as nat);
        lemma_with_dep(ordered_first(list, (first - 1) as nat), list[first - 1]);
        assert(list.take(first as int) =~= list.take(first - 1).push(list[first - 1]));
    } else {
        assert(list.take(0) =~= Seq::empty());
    }
}

/// Putting files in order keeps each as often as it occurs; and the order is
/// that of paths and hashes.
pub proof fn lemma_ordered(list: Seq<FileDepModel>)
    ensures
        vstd::relations::sorted_by(ordered(list), dep_order()),
        ordered(list).to_multiset() == list.to_multiset(),
{
    lemma_ordered_first(list, list.len());
    assert(list.take(list.len() as int) =~= list);
}

/// Two lists are in the same order once put in order just where they hold the
/// same files, each as often.
pub proof fn lemma_same_deps(a: Seq<FileDepModel>, b: Seq<FileDepModel>)
    ensures
        ordered(a) == ordered(b) <==> a.to_multiset() == b.to_multiset(),
{
    lemma_ordered(a);
    lemma_ordered(b);
    lemma_dep_order();
    if a.to_multiset() == b.to_multiset() {
        vstd::seq_lib::lemma_sorted_unique(ordered(a), ordered(b), dep_order());
    }
}

/// What is in order stays as it is.
pub proof fn lemma_ordered_twice(list: Seq<FileDepModel>)
    ensures
        ordered(ordered(list)) == ordered(list),
{
    lemma_ordered(list);
    lemma_same_deps(ordered(list), list);
}

/// Putting files in order adds none and loses none.
pub proof fn lemma_ordered_contains(list: Seq<FileDepModel>, dep: FileDepModel)
    ensures
        ordered(list).contains(dep) <==> list.contains(dep),
{
    broadcast use vstd::seq_lib::group_to_multiset_ensures;

    lemma_ordered(list);
    assert(list.to_multiset().count(dep) == ordered(list).to_multiset().count(dep));
}

} // verus!
