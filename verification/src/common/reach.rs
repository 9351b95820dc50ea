//! What can be reached along the edges of a graph over positions.
use vstd::prelude::*;

verus! {

/// A walk along edges.
pub open spec fn is_path(edge: spec_fn(usize, usize) -> bool, path: Seq<usize>) -> bool {
    &&& path.len() > 0
    &&& forall|i: int| #![trigger path[i]] 0 <= i < path.len() - 1 ==> edge(path[i], path[i + 1])
}

/// Whether a walk leads from a root to a position.
pub open spec fn leads(
    edge: spec_fn(usize, usize) -> bool,
    roots: Set<usize>,
    to: usize,
    path: Seq<usize>,
) -> bool {
    is_path(edge, path) && roots.contains(path[0]) && path.last() == to
}

/// Whether a position can be reached from a root.
pub open spec fn reaches(
    edge: spec_fn(usize, usize) -> bool,
    roots: Set<usize>,
    to: usize,
) -> bool {
    exists|path: Seq<usize>| leads(edge, roots, to, path)
}

/// A root is reached.
pub proof fn lemma_reaches_root(edge: spec_fn(usize, usize) -> bool, roots: Set<usize>, x: usize)
    requires
        roots.contains(x),
    ensures
        reaches(edge, roots, x),
{
    assert(leads(edge, roots, x, seq![x]));
}

/// What an edge leads to from something reached is reached.
pub proof fn lemma_reaches_step(
    edge: spec_fn(usize, usize) -> bool,
    roots: Set<usize>,
    x: usize,
    y: usize,
)
    requires
        reaches(edge, roots, x),
        edge(x, y),
    ensures
        reaches(edge, roots, y),
{
    let path = choose|path: Seq<usize>| leads(edge, roots, x, path);
    let longer = path.push(y);
    assert forall|i: int| #![trigger longer[i]] 0 <= i < longer.len() - 1 implies edge(
        longer[i],
        longer[i + 1],
    ) by {
        assert(longer[i] == path[i]);
        if i < path.len() - 1 {
            assert(longer[i + 1] == path[i + 1]);
        }
    }
    assert(leads(edge, roots, y, longer));
}

/// A set that holds the roots and all that edges lead to from its members holds
/// all that is reached.
pub proof fn lemma_closed_holds_reached(
    edge: spec_fn(usize, usize) -> bool,
    roots: Set<usize>,
    set: Set<usize>,
    x: usize,
)
    requires
        roots.subset_of(set),
        forall|a: usize, b: usize| set.contains(a) && #[trigger] edge(a, b) ==> set.contains(b),
        reaches(edge, roots, x),
    ensures
        set.contains(x),
{
    let path = choose|path: Seq<usize>| leads(edge, roots, x, path);
    lemma_closed_holds_path(edge, roots, set, path, path.len() - 1);
}

proof fn lemma_closed_holds_path(
    edge: spec_fn(usize, usize) -> bool,
    roots: Set<usize>,
    set: Set<usize>,
    path: Seq<usize>,
    i: int,
)
    requires
        roots.subset_of(set),
        forall|a: usize, b: usize| set.contains(a) && #[trigger] edge(a, b) ==> set.contains(b),
        is_path(edge, path),
        roots.contains(path[0]),
        0 <= i < path.len(),
    ensures
        set.contains(path[i]),
    decreases i,
{
    if i > 0 {
        lemma_closed_holds_path(edge, roots, set, path, i - 1);
        assert(edge(path[i - 1], path[i - 1 + 1]));
    }
}

/// How many positions there are.
pub open spec fn position_count() -> nat {
    (usize::MAX + 1) as nat
}

/// A finite set of positions has no more members than there are positions.
pub proof fn lemma_position_bound(set: Set<usize>)
    requires
        set.finite(),
    ensures
        set.len() <= position_count(),
{
    let value = |x: usize| x as int;
    let as_ints = set.map(value);
    assert(vstd::relations::injective_on(value, set));
    vstd::set_lib::lemma_map_size(set, as_ints, value);
    let all = vstd::set_lib::set_int_range(0, position_count() as int);
    vstd::set_lib::lemma_int_range(0, position_count() as int);
    assert(as_ints.subset_of(all));
    vstd::set_lib::lemma_len_subset(as_ints, all);
}

/// Taking the last item off a stack takes off that item alone.
pub proof fn lemma_popped<A>(before: Seq<A>, after: Seq<A>, item: A)
    requires
        before == after.push(item),
    ensures
        before.contains(item),
        forall|x: A| #[trigger] before.contains(x) ==> after.contains(x) || x == item,
        forall|x: A| #[trigger] after.contains(x) ==> before.contains(x),
{
    lemma_pushed(after, item);
}

/// Putting an item on a stack puts on that item alone.
pub proof fn lemma_pushed<A>(before: Seq<A>, item: A)
    ensures
        forall|x: A| #[trigger]
            before.push(item).contains(x) <==> (before.contains(x) || x == item),
{
    let after = before.push(item);
    assert(after[before.len() as int] == item);
    assert forall|x: A| #[trigger] after.contains(x) <==> (before.contains(x) || x == item) by {
        if after.contains(x) {
            let k = choose|k: int| 0 <= k < after.len() && after[k] == x;
            if k < before.len() {
                assert(before[k] == x);
            }
        }
        if before.contains(x) {
            let k = choose|k: int| 0 <= k < before.len() && before[k] == x;
            assert(after[k] == x);
        }
    }
}

} // verus!
