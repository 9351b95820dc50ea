//! A map from positions to values, walked in the order of the positions.
use vstd::prelude::*;

verus! {

#[derive(Debug)]
pub struct DenseMap<V> {
    pub slots: Vec<Option<V>>,
}

impl<V> View for DenseMap<V> {
    type V = Map<usize, V>;

    open spec fn view(&self) -> Map<usize, V> {
        Map::new(
            |k: usize| (k as int) < self.slots@.len() && self.slots@[k as int] is Some,
            |k: usize| self.slots@[k as int]->0,
        )
    }
}

impl<V> Default for DenseMap<V> {
    fn default() -> (map: Self)
        ensures
            map@ == Map::<usize, V>::empty(),
    {
        DenseMap::new()
    }
}

/// The filled slots up to some position.
pub open spec fn filled<V>(slots: Seq<Option<V>>, to: nat) -> Set<usize> {
    Set::new(|k: usize| (k as int) < to && (k as int) < slots.len() && slots[k as int] is Some)
}

proof fn lemma_filled_grows<V>(slots: Seq<Option<V>>, to: nat)
    requires
        to < slots.len(),
        to <= usize::MAX,
        filled(slots, to).finite(),
    ensures
        filled(slots, to + 1).finite(),
        filled(slots, to + 1).len() == filled(slots, to).len() + (if slots[to as int] is Some {
            1nat
        } else {
            0nat
        }),
{
    let k = to as usize;
    if slots[to as int] is Some {
        assert(filled(slots, to + 1) =~= filled(slots, to).insert(k));
        assert(!filled(slots, to).contains(k));
    } else {
        assert(filled(slots, to + 1) =~= filled(slots, to));
    }
}

impl<V> DenseMap<V> {
    pub fn new() -> (map: Self)
        ensures
            map@ == Map::<usize, V>::empty(),
    {
        let map = DenseMap { slots: Vec::new() };
        assert(map@ =~= Map::<usize, V>::empty());
        map
    }

    pub fn get(&self, key: usize) -> (value: Option<&V>)
        ensures
            match value {
                Some(v) => self@.contains_key(key) && *v == self@[key],
                None => !self@.contains_key(key),
            },
    {
        if key < self.slots.len() {
            match &self.slots[key] {
                Some(v) => Some(v),
                None => None,
            }
        } else {
            None
        }
    }

    pub fn contains_key(&self, key: usize) -> (found: bool)
        ensures
            found == self@.contains_key(key),
    {
        self.get(key).is_some()
    }

    pub fn insert(&mut self, key: usize, value: V)
        ensures
            final(self)@ == old(self)@.insert(key, value),
    {
        while self.slots.len() <= key
            invariant
                self@ == old(self)@,
            decreases key - self.slots@.len() + 1,
        {
            self.slots.push(None);
            assert(self@ =~= old(self)@);
        }
        self.slots[key] = Some(value);
        assert(self@ =~= old(self)@.insert(key, value));
    }

    /// One more than the largest key there can be.
    pub fn bound(&self) -> (n: usize)
        ensures
            n == self.slots@.len(),
            forall|k: usize| #[trigger] self@.contains_key(k) ==> k < n,
    {
        self.slots.len()
    }

    /// The number of keys.
    pub fn len(&self) -> (n: usize)
        ensures
            self@.dom().finite(),
            n == self@.dom().len(),
    {
        let mut n: usize = 0;
        let mut i: usize = 0;
        assert(filled(self.slots@, 0) =~= Set::empty());
        while i < self.slots.len()
            invariant
                i <= self.slots@.len(),
                n <= i,
                filled(self.slots@, i as nat).finite(),
                n == filled(self.slots@, i as nat).len(),
            decreases self.slots@.len() - i,
        {
            proof {
                lemma_filled_grows(self.slots@, i as nat);
            }
            if self.slots[i].is_some() {
                n += 1;
            }
            i += 1;
        }
        assert(filled(self.slots@, i as nat) =~= self@.dom());
        n
    }
}

/// A map whose keys are all below a bound, and as many as the bound, has them
/// all.
pub proof fn lemma_full<V>(m: Map<usize, V>, n: nat, k: usize)
    requires
        m.dom().finite(),
        m.dom().len() == n,
        forall|x: usize| #[trigger] m.contains_key(x) ==> x < n,
        k < n,
    ensures
        m.contains_key(k),
{
    if !m.contains_key(k) {
        let value = |x: usize| x as int;
        let ints = m.dom().map(value);
        assert(vstd::relations::injective_on(value, m.dom()));
        vstd::set_lib::lemma_map_size(m.dom(), ints, value);
        let all = vstd::set_lib::set_int_range(0, n as int);
        vstd::set_lib::lemma_int_range(0, n as int);
        assert(ints.subset_of(all.remove(k as int))) by {
            assert forall|y: int| #[trigger] ints.contains(y) implies all.remove(
                k as int,
            ).contains(y) by {
                let x = choose|x: usize| m.dom().contains(x) && value(x) == y;
                assert(m.contains_key(x));
            }
        }
        vstd::set_lib::lemma_len_subset(ints, all.remove(k as int));
    }
}

} // verus!
