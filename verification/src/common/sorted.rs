//! Sets of positions, held as sorted sequences.
use vstd::prelude::*;

verus! {

/// Strictly increasing: sorted, with no repetition.
pub open spec fn ascending(s: Seq<usize>) -> bool {
    forall|i: int, j: int| 0 <= i < j < s.len() ==> (#[trigger] s[i]) < (#[trigger] s[j])
}

/// Two strictly increasing sequences with the same members are the same.
pub proof fn lemma_ascending_unique(a: Seq<usize>, b: Seq<usize>)
    requires
        ascending(a),
        ascending(b),
        forall|x: usize| a.contains(x) <==> b.contains(x),
    ensures
        a == b,
    decreases a.len(),
{
    if a.len() == 0 {
        if b.len() > 0 {
            assert(b.contains(b[0]));
            assert(a.contains(b[0]));
        }
        assert(a =~= b);
    } else {
        assert(a.contains(a.last()));
        assert(b.contains(a.last()));
        assert(b.contains(b.last()));
        assert(a.contains(b.last()));
        let a1 = a.drop_last();
        let b1 = b.drop_last();
        assert forall|x: usize| a1.contains(x) <==> b1.contains(x) by {
            if a1.contains(x) {
                let k = choose|k: int| 0 <= k < a1.len() && a1[k] == x;
                assert(a[k] == x);
                assert(b.contains(x));
                let m = choose|m: int| 0 <= m < b.len() && b[m] == x;
                assert(b1[m] == x);
            }
            if b1.contains(x) {
                let k = choose|k: int| 0 <= k < b1.len() && b1[k] == x;
                assert(b[k] == x);
                assert(a.contains(x));
                let m = choose|m: int| 0 <= m < a.len() && a[m] == x;
                assert(a1[m] == x);
            }
        }
        lemma_ascending_unique(a1, b1);
        assert(a =~= a1.push(a.last()));
        assert(b =~= b1.push(b.last()));
    }
}

/// Adds a position where the order puts it, unless it is there already.
/// Tells whether it was new.
pub fn insert_sorted(items: &mut Vec<usize>, item: usize) -> (added: bool)
    requires
        ascending(old(items)@),
    ensures
        ascending(final(items)@),
        forall|x: usize| #[trigger]
            final(items)@.contains(x) <==> (old(items)@.contains(x) || x == item),
        added == !old(items)@.contains(item),
        !added ==> final(items)@ == old(items)@,
{
    let mut at: usize = 0;
    while at < items.len() && items[at] < item
        invariant
            at <= items@.len(),
            items@ == old(items)@,
            forall|i: int| 0 <= i < at ==> (#[trigger] items@[i]) < item,
        decreases items@.len() - at,
    {
        at += 1;
    }
    let ghost before = items@;
    if at < items.len() && items[at] == item {
        assert(before.contains(item)) by {
            assert(before[at as int] == item);
        }
        false
    } else {
        assert(!before.contains(item)) by {
            if before.contains(item) {
                let k = choose|k: int| 0 <= k < before.len() && before[k] == item;
                if k > at {
                    assert(before[at as int] < before[k]);
                }
            }
        }
        items.insert(at, item);
        proof {
            let after = items@;
            assert(after[at as int] == item);
            assert forall|x: usize| #[trigger] after.contains(x) <==> (before.contains(x) || x
                == item) by {
                if before.contains(x) {
                    let k = choose|k: int| 0 <= k < before.len() && before[k] == x;
                    if k < at {
                        assert(after[k] == x);
                    } else {
                        assert(after[k + 1] == x);
                    }
                }
                if after.contains(x) && x != item {
                    let k = choose|k: int| 0 <= k < after.len() && after[k] == x;
                    if k < at {
                        assert(before[k] == x);
                    } else {
                        assert(before[k - 1] == x);
                    }
                }
            }
        }
        true
    }
}

/// Whether a position is in a set.
pub fn contains_sorted(items: &Vec<usize>, item: usize) -> (found: bool)
    ensures
        found == items@.contains(item),
{
    let mut i: usize = 0;
    while i < items.len()
        invariant
            i <= items@.len(),
            forall|j: int| 0 <= j < i ==> items@[j] != item,
        decreases items@.len() - i,
    {
        if items[i] == item {
            assert(items@[i as int] == item);
            return true;
        }
        i += 1;
    }
    false
}

/// Takes an item out of an ascending list.
pub fn remove_sorted(items: &mut Vec<usize>, item: usize)
    requires
        ascending(old(items)@),
    ensures
        ascending(final(items)@),
        forall|x: usize| #[trigger]
            final(items)@.contains(x) <==> (old(items)@.contains(x) && x != item),
{
    let ghost before = items@;
    let mut kept: Vec<usize> = Vec::new();
    let mut i: usize = 0;
    while i < items.len()
        invariant
            before == items@,
            ascending(before),
            i <= before.len(),
            ascending(kept@),
            forall|k: int| 0 <= k < kept@.len() ==> exists|j: int|
                0 <= j < i && before[j] == #[trigger] kept@[k],
            forall|x: usize| #[trigger]
                kept@.contains(x) <==> (before.take(i as int).contains(x) && x != item),
        decreases before.len() - i,
    {
        let x = items[i];
        proof {
            crate::common::reach::lemma_pushed(before.take(i as int), x);
            assert(before.take(i as int + 1) =~= before.take(i as int).push(x));
        }
        if x != item {
            let ghost earlier = kept@;
            kept.push(x);
            proof {
                crate::common::reach::lemma_pushed(earlier, x);
                assert forall|a: int, b: int| 0 <= a < b < kept@.len() implies (
                #[trigger] kept@[a]) < (#[trigger] kept@[b]) by {
                    if b == earlier.len() {
                        assert(kept@[a] == earlier[a]);
                        let j = choose|j: int| 0 <= j < i && before[j] == earlier[a];
                        assert(before[j] < before[i as int]);
                    }
                }
                assert forall|k: int| 0 <= k < kept@.len() implies exists|j: int|
                    0 <= j < i + 1 && before[j] == #[trigger] kept@[k] by {
                    if k < earlier.len() {
                        assert(kept@[k] == earlier[k]);
                        let j = choose|j: int| 0 <= j < i && before[j] == earlier[k];
                        assert(before[j] == kept@[k]);
                    } else {
                        assert(before[i as int] == kept@[k]);
                    }
                }
            }
        }
        i += 1;
    }
    assert(before.take(i as int) =~= before);
    *items = kept;
}

/// The items that two lists share; ascending where the first is.
pub fn intersect_sorted(items: &Vec<usize>, other: &Vec<usize>) -> (common: Vec<usize>)
    requires
        ascending(items@),
    ensures
        ascending(common@),
        forall|x: usize| #[trigger]
            common@.contains(x) <==> (items@.contains(x) && other@.contains(x)),
        common@.len() <= items@.len(),
        common@.len() == items@.len() ==> common@ == items@,
{
    let ghost before = items@;
    let mut kept: Vec<usize> = Vec::new();
    let mut i: usize = 0;
    while i < items.len()
        invariant
            before == items@,
            ascending(before),
            i <= before.len(),
            ascending(kept@),
            kept@.len() <= i,
            kept@.len() == i ==> kept@ == before.take(i as int),
            forall|k: int| 0 <= k < kept@.len() ==> exists|j: int|
                0 <= j < i && before[j] == #[trigger] kept@[k],
            forall|x: usize| #[trigger]
                kept@.contains(x) <==> (before.take(i as int).contains(x) && other@.contains(x)),
        decreases before.len() - i,
    {
        let x = items[i];
        proof {
            crate::common::reach::lemma_pushed(before.take(i as int), x);
            assert(before.take(i as int + 1) =~= before.take(i as int).push(x));
        }
        if contains_sorted(other, x) {
            let ghost earlier = kept@;
            kept.push(x);
            proof {
                crate::common::reach::lemma_pushed(earlier, x);
                assert forall|a: int, b: int| 0 <= a < b < kept@.len() implies (
                #[trigger] kept@[a]) < (#[trigger] kept@[b]) by {
                    if b == earlier.len() {
                        assert(kept@[a] == earlier[a]);
                        let j = choose|j: int| 0 <= j < i && before[j] == earlier[a];
                        assert(before[j] < before[i as int]);
                    }
                }
                assert forall|k: int| 0 <= k < kept@.len() implies exists|j: int|
                    0 <= j < i + 1 && before[j] == #[trigger] kept@[k] by {
                    if k < earlier.len() {
                        assert(kept@[k] == earlier[k]);
                        let j = choose|j: int| 0 <= j < i && before[j] == earlier[k];
                        assert(before[j] == kept@[k]);
                    } else {
                        assert(before[i as int] == kept@[k]);
                    }
                }
            }
        }
        i += 1;
    }
    assert(before.take(i as int) =~= before);
    kept
}

/// A copy of a list.
pub fn copy_list(items: &Vec<usize>) -> (copy: Vec<usize>)
    ensures
        copy@ == items@,
{
    let copy = items.clone();
    assert(copy@ =~= items@);
    copy
}

} // verus!
