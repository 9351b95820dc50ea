//! Effect rows and what is known of each effect.
use crate::common::ids::EffectLabelId;
use std::collections::HashMap;
use vstd::prelude::*;

verus! {

/// Strictly increasing: sorted, with no repetition.
pub open spec fn ascending(s: Seq<EffectLabelId>) -> bool {
    forall|i: int, j: int| 0 <= i < j < s.len() ==> (#[trigger] s[i]).0 < (#[trigger] s[j]).0
}

/// A set of effect labels, held as a sorted sequence.
#[derive(Debug)]
pub struct SortedEffectRow {
    pub labels: Vec<EffectLabelId>,
}

impl View for SortedEffectRow {
    type V = Seq<EffectLabelId>;

    open spec fn view(&self) -> Seq<EffectLabelId> {
        self.labels@
    }
}

impl Clone for SortedEffectRow {
    fn clone(&self) -> (copy: Self)
        ensures
            copy@ == self@,
    {
        let labels = self.labels.clone();
        assert(labels@ =~= self.labels@);
        SortedEffectRow { labels }
    }
}

impl Default for SortedEffectRow {
    fn default() -> (row: Self)
        ensures
            row@ == Seq::<EffectLabelId>::empty(),
    {
        SortedEffectRow { labels: Vec::new() }
    }
}

/// Two strictly increasing sequences with the same members are the same.
pub proof fn lemma_ascending_unique(a: Seq<EffectLabelId>, b: Seq<EffectLabelId>)
    requires
        ascending(a),
        ascending(b),
        forall|x: EffectLabelId| a.contains(x) <==> b.contains(x),
    ensures
        a == b,
    decreases a.len(),
{
    if a.len() == 0 {
        if b.len() > 0 {
            assert(b.contains(b[0]));
            assert(a.contains(b[0]));
        }
        assert(a =~= b);
    } else {
        assert(a.contains(a.last()));
        assert(b.contains(a.last()));
        assert(b.contains(b.last()));
        assert(a.contains(b.last()));
        let i = choose|i: int| 0 <= i < b.len() && b[i] == a.last();
        let j = choose|j: int| 0 <= j < a.len() && a[j] == b.last();
        assert(a.last() == b.last());
        let a1 = a.drop_last();
        let b1 = b.drop_last();
        assert forall|x: EffectLabelId| a1.contains(x) <==> b1.contains(x) by {
            if a1.contains(x) {
                let k = choose|k: int| 0 <= k < a1.len() && a1[k] == x;
                assert(a[k] == x);
                assert(a.contains(x));
                assert(b.contains(x));
                let m = choose|m: int| 0 <= m < b.len() && b[m] == x;
                assert(b1[m] == x);
            }
            if b1.contains(x) {
                let k = choose|k: int| 0 <= k < b1.len() && b1[k] == x;
                assert(b[k] == x);
                assert(b.contains(x));
                assert(a.contains(x));
                let m = choose|m: int| 0 <= m < a.len() && a[m] == x;
                assert(a1[m] == x);
            }
        }
        lemma_ascending_unique(a1, b1);
        assert(a =~= a1.push(a.last()));
        assert(b =~= b1.push(b.last()));
    }
}

/// Inserts a label where the order puts it, unless it is there already.
fn insert_label(labels: &mut Vec<EffectLabelId>, label: EffectLabelId)
    requires
        ascending(old(labels)@),
    ensures
        ascending(final(labels)@),
        forall|x: EffectLabelId|
            final(labels)@.contains(x) <==> old(labels)@.contains(x) || x == label,
{
    let mut at: usize = 0;
    while at < labels.len() && labels[at].0 < label.0
        invariant
            at <= labels@.len(),
            labels@ == old(labels)@,
            forall|i: int| 0 <= i < at ==> (#[trigger] labels@[i]).0 < label.0,
        decreases labels@.len() - at,
    {
        at += 1;
    }
    let ghost before = labels@;
    if at < labels.len() && labels[at].0 == label.0 {
        assert(labels@[at as int] == label);
    } else {
        labels.insert(at, label);
        proof {
            let after = labels@;
            assert(after[at as int] == label);
            assert forall|x: EffectLabelId| after.contains(x) <==> before.contains(x) || x == label by {
                if before.contains(x) {
                    let k = choose|k: int| 0 <= k < before.len() && before[k] == x;
                    if k < at {
                        assert(after[k] == x);
                    } else {
                        assert(after[k + 1] == x);
                    }
                }
                if after.contains(x) && x != label {
                    let k = choose|k: int| 0 <= k < after.len() && after[k] == x;
                    if k < at {
                        assert(before[k] == x);
                    } else {
                        assert(before[k - 1] == x);
                    }
                }
            }
        }
    }
}

impl SortedEffectRow {
    /// The row of the given labels, sorted and without repetition.
    pub fn new(labels: Vec<EffectLabelId>) -> (row: Self)
        ensures
            ascending(row@),
            forall|x: EffectLabelId| row@.contains(x) <==> labels@.contains(x),
    {
        let mut row = SortedEffectRow::empty();
        row.insert_all(&labels);
        row
    }

    fn insert_all(&mut self, labels: &Vec<EffectLabelId>)
        requires
            ascending(old(self)@),
        ensures
            ascending(final(self)@),
            forall|x: EffectLabelId| #[trigger]
                final(self)@.contains(x) <==> (old(self)@.contains(x) || labels@.contains(x)),
    {
        let mut i: usize = 0;
        while i < labels.len()
            invariant
                i <= labels@.len(),
                ascending(self@),
                forall|x: EffectLabelId|
                    self@.contains(x) <==> old(self)@.contains(x) || labels@.take(i as int).contains(x),
            decreases labels@.len() - i,
        {
            insert_label(&mut self.labels, labels[i]);
            proof {
                let part = labels@.take(i as int);
                let more = labels@.take(i as int + 1);
                assert(more =~= part.push(labels@[i as int]));
                assert forall|x: EffectLabelId| more.contains(x) <==> part.contains(x) || x == labels@[i as int] by {
                    if part.contains(x) {
                        let k = choose|k: int| 0 <= k < part.len() && part[k] == x;
                        assert(more[k] == x);
                    }
                    assert(more[i as int] == labels@[i as int]);
                    if more.contains(x) && x != labels@[i as int] {
                        let k = choose|k: int| 0 <= k < more.len() && more[k] == x;
                        assert(part[k] == x);
                    }
                }
            }
            i += 1;
        }
        assert(labels@.take(i as int) =~= labels@);
    }

    pub fn empty() -> (row: Self)
        ensures
            row@ == Seq::<EffectLabelId>::empty(),
    {
        SortedEffectRow { labels: Vec::new() }
    }

    pub fn singleton(label: EffectLabelId) -> (row: Self)
        ensures
            row@ == seq![label],
    {
        let mut labels: Vec<EffectLabelId> = Vec::new();
        labels.push(label);
        SortedEffectRow { labels }
    }

    pub fn len(&self) -> (n: usize)
        ensures
            n == self@.len(),
    {
        self.labels.len()
    }

    pub fn is_empty(&self) -> (b: bool)
        ensures
            b == (self@.len() == 0),
    {
        self.labels.len() == 0
    }

    pub fn contains(&self, label: EffectLabelId) -> (found: bool)
        ensures
            found == self@.contains(label),
    {
        let mut i: usize = 0;
        while i < self.labels.len()
            invariant
                i <= self.labels@.len(),
                forall|j: int| 0 <= j < i ==> self@[j] != label,
            decreases self.labels@.len() - i,
        {
            if self.labels[i] == label {
                assert(self@[i as int] == label);
                return true;
            }
            i += 1;
        }
        false
    }

    /// The labels of either row.
    pub fn union(&self, other: &SortedEffectRow) -> (row: Self)
        ensures
            ascending(row@),
            forall|x: EffectLabelId| row@.contains(x) <==> self@.contains(x) || other@.contains(x),
    {
        let mut row = SortedEffectRow::empty();
        row.insert_all(&self.labels);
        let ghost first = row@;
        assert(forall|x: EffectLabelId| first.contains(x) <==> self@.contains(x));
        row.insert_all(&other.labels);
        assert forall|x: EffectLabelId| row@.contains(x) <==> self@.contains(x) || other@.contains(x) by {
            assert(row@.contains(x) <==> first.contains(x) || other.labels@.contains(x));
        }
        row
    }

    /// The labels of this row that the other lacks.
    pub fn subtract(&self, other: &SortedEffectRow) -> (row: Self)
        ensures
            ascending(row@),
            forall|x: EffectLabelId| row@.contains(x) <==> self@.contains(x) && !other@.contains(x),
    {
        let mut row = SortedEffectRow::empty();
        let mut i: usize = 0;
        while i < self.labels.len()
            invariant
                i <= self.labels@.len(),
                ascending(row@),
                forall|x: EffectLabelId|
                    row@.contains(x) <==> self@.take(i as int).contains(x) && !other@.contains(x),
            decreases self.labels@.len() - i,
        {
            let label = self.labels[i];
            if !other.contains(label) {
                insert_label(&mut row.labels, label);
            }
            proof {
                let part = self@.take(i as int);
                let more = self@.take(i as int + 1);
                assert(more =~= part.push(label));
                assert forall|x: EffectLabelId| more.contains(x) <==> part.contains(x) || x == label by {
                    if part.contains(x) {
                        let k = choose|k: int| 0 <= k < part.len() && part[k] == x;
                        assert(more[k] == x);
                    }
                    assert(more[i as int] == label);
                    if more.contains(x) && x != label {
                        let k = choose|k: int| 0 <= k < more.len() && more[k] == x;
                        assert(part[k] == x);
                    }
                }
            }
            i += 1;
        }
        assert(self@.take(i as int) =~= self@);
        row
    }
}

/// What is declared of an effect.
#[derive(Clone, Copy, PartialEq, Eq, Hash, Debug, Structural)]
pub struct EffectProperties {
    /// The effect may only be performed at compile time.
    pub ct_only: bool,
    /// A call that performs the effect can be suspended as a plain thunk.
    pub thunkable: bool,
}

/// Whether an effect is declared thunkable.
pub open spec fn label_thunkable(properties: Map<usize, EffectProperties>, label: EffectLabelId) -> bool {
    properties.contains_key(label.0) && properties[label.0].thunkable
}

/// Whether every effect of a row is declared thunkable.
pub open spec fn row_thunkable(row: Seq<EffectLabelId>, properties: Map<usize, EffectProperties>) -> bool {
    forall|i: int| 0 <= i < row.len() ==> label_thunkable(properties, #[trigger] row[i])
}

/// Whether every effect of a row is declared thunkable. An effect of which
/// nothing is declared is not.
pub fn is_thunkable(row: &SortedEffectRow, properties: &HashMap<usize, EffectProperties>) -> (b: bool)
    ensures
        b == row_thunkable(row@, properties@),
{
    first_non_thunkable_effect(row, properties).is_none()
}

/// The first effect of a row that is not declared thunkable.
pub fn first_non_thunkable_effect(
    row: &SortedEffectRow,
    properties: &HashMap<usize, EffectProperties>,
) -> (found: Option<EffectLabelId>)
    ensures
        found is None <==> row_thunkable(row@, properties@),
        found matches Some(label) ==> exists|i: int|
            #![trigger row@[i]]
            0 <= i < row@.len() && row@[i] == label && !label_thunkable(properties@, label)
                && row_thunkable(row@.take(i), properties@),
{
    let mut i: usize = 0;
    while i < row.labels.len()
        invariant
            i <= row.labels@.len(),
            forall|j: int| 0 <= j < i ==> label_thunkable(properties@, #[trigger] row@[j]),
        decreases row.labels@.len() - i,
    {
        let label = row.labels[i];
        let thunkable = match properties.get(&label.0) {
            Some(property) => property.thunkable,
            None => false,
        };
        if !thunkable {
            assert(row@[i as int] == label);
            assert(!label_thunkable(properties@, row@[i as int]));
            assert(row_thunkable(row@.take(i as int), properties@));
            return Some(label);
        }
        i += 1;
    }
    None
}

} // verus!
