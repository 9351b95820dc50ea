//! Lists of texts used as keys: each once, in order, and the last place of one.
use crate::common::chars::is_text_le;
use vstd::prelude::*;

verus! {

/// A list of keys in order, with one more; unchanged where the key is there.
pub open spec fn with_key(keys: Seq<Seq<char>>, key: Seq<char>) -> Seq<Seq<char>>
    decreases keys.len(),
{
    if keys.len() == 0 {
        seq![key]
    } else if keys.last() == key {
        keys
    } else if crate::common::chars::text_le(keys.last(), key) {
        keys.push(key)
    } else {
        with_key(keys.drop_last(), key).push(keys.last())
    }
}

/// The first texts of a list, each once and in order.
pub open spec fn distinct_first(all: Seq<Seq<char>>, first: nat) -> Seq<Seq<char>>
    decreases first,
{
    if first == 0 {
        Seq::empty()
    } else {
        with_key(distinct_first(all, (first - 1) as nat), all[first - 1])
    }
}

/// The texts of a list, each once and in order.
pub open spec fn distinct(all: Seq<Seq<char>>) -> Seq<Seq<char>> {
    distinct_first(all, all.len())
}

/// The last place of a text among the first of a list.
pub open spec fn last_before(all: Seq<Seq<char>>, key: Seq<char>, first: nat) -> Option<int>
    decreases first,
{
    if first == 0 {
        None
    } else if all[first - 1] == key {
        Some(first - 1)
    } else {
        last_before(all, key, (first - 1) as nat)
    }
}

/// The last place of a text in a list.
pub open spec fn last_place(all: Seq<Seq<char>>, key: Seq<char>) -> Option<int> {
    last_before(all, key, all.len())
}

proof fn lemma_with_key_there(keys: Seq<Seq<char>>, key: Seq<char>, at: int)
    requires
        0 <= at < keys.len(),
        keys[at] == key,
        forall|i: int|
            at < i < keys.len() ==> !crate::common::chars::text_le(#[trigger] keys[i], key),
    ensures
        with_key(keys, key) == keys,
    decreases keys.len(),
{
    if at < keys.len() - 1 {
        assert(!crate::common::chars::text_le(keys[keys.len() - 1], key));
        crate::common::chars::lemma_text_le_total(key, key);
        let rest = keys.drop_last();
        assert forall|i: int| at < i < rest.len() implies !crate::common::chars::text_le(
            #[trigger] rest[i],
            key,
        ) by {
            assert(rest[i] == keys[i]);
        }
        lemma_with_key_there(rest, key, at);
        assert(rest.push(keys.last()) =~= keys);
    }
}

proof fn lemma_with_key_at(keys: Seq<Seq<char>>, key: Seq<char>, at: int)
    requires
        0 <= at <= keys.len(),
        at > 0 ==> crate::common::chars::text_le(keys[at - 1], key) && keys[at - 1] != key,
        forall|i: int|
            at <= i < keys.len() ==> !crate::common::chars::text_le(#[trigger] keys[i], key),
    ensures
        with_key(keys, key) == keys.insert(at, key),
    decreases keys.len(),
{
    if keys.len() == 0 {
        assert(seq![key] =~= keys.insert(at, key));
    } else if at == keys.len() {
        assert(keys.push(key) =~= keys.insert(at, key));
    } else {
        assert(!crate::common::chars::text_le(keys[keys.len() - 1], key));
        crate::common::chars::lemma_text_le_total(key, key);
        let rest = keys.drop_last();
        assert forall|i: int| at <= i < rest.len() implies !crate::common::chars::text_le(
            #[trigger] rest[i],
            key,
        ) by {
            assert(rest[i] == keys[i]);
        }
        lemma_with_key_at(rest, key, at);
        assert(rest.insert(at, key).push(keys.last()) =~= keys.insert(at, key));
    }
}

fn insert_key(keys: &mut Vec<String>, key: &String)
    ensures
        crate::common::views(final(keys)@) == with_key(crate::common::views(old(keys)@), key@),
{
    let ghost before = crate::common::views(keys@);
    let mut at: usize = keys.len();
    while at > 0 && !is_text_le(keys[at - 1].as_str(), key.as_str())
        invariant
            at <= keys@.len(),
            before == crate::common::views(keys@),
            forall|i: int|
                at <= i < before.len() ==> !crate::common::chars::text_le(
                    #[trigger] before[i],
                    key@,
                ),
        decreases at,
    {
        assert(before[at - 1] == keys@[at - 1]@);
        at -= 1;
    }
    assert(at > 0 ==> before[at - 1] == keys@[at - 1]@);
    if at > 0 && keys[at - 1] == *key {
        proof {
            lemma_with_key_there(before, key@, at - 1);
        }
        return;
    }
    proof {
        lemma_with_key_at(before, key@, at as int);
    }
    keys.insert(at, key.clone());
    assert(crate::common::views(keys@) =~= before.insert(at as int, key@));
}

/// The texts of a list, each once and in order.
pub fn distinct_keys(all: &Vec<String>) -> (keys: Vec<String>)
    ensures
        crate::common::views(keys@) == distinct(crate::common::views(all@)),
{
    let ghost texts = crate::common::views(all@);
    let mut keys: Vec<String> = Vec::new();
    let mut i: usize = 0;
    assert(crate::common::views(keys@) =~= Seq::empty());
    while i < all.len()
        invariant
            i <= all@.len(),
            texts == crate::common::views(all@),
            crate::common::views(keys@) == distinct_first(texts, i as nat),
        decreases all@.len() - i,
    {
        assert(texts[i as int] == all@[i as int]@);
        insert_key(&mut keys, &all[i]);
        i += 1;
    }
    keys
}

/// The last place of a text in a list.
pub fn find_last(all: &Vec<String>, key: &String) -> (place: Option<usize>)
    ensures
        match place {
            Some(at) => last_place(crate::common::views(all@), key@) == Some(at as int) && at
                < all@.len(),
            None => last_place(crate::common::views(all@), key@) is None,
        },
{
    let ghost texts = crate::common::views(all@);
    let mut i: usize = all.len();
    while i > 0
        invariant
            i <= all@.len(),
            texts == crate::common::views(all@),
            last_place(texts, key@) == last_before(texts, key@, i as nat),
        decreases i,
    {
        assert(texts[i - 1] == all@[i - 1]@);
        if all[i - 1] == *key {
            return Some(i - 1);
        }
        i -= 1;
    }
    None
}

// ---------------------------------------------------------------------------
// Laws
// ---------------------------------------------------------------------------

/// Keys that stand in order, each once.
pub open spec fn in_order(keys: Seq<Seq<char>>) -> bool {
    forall|i: int, j: int|
        #![trigger keys[i], keys[j]]
        0 <= i < j < keys.len() ==> crate::common::chars::text_le(keys[i], keys[j]) && keys[i]
            != keys[j]
}

proof fn lemma_with_key(keys: Seq<Seq<char>>, key: Seq<char>)
    requires
        in_order(keys),
    ensures
        in_order(with_key(keys, key)),
        forall|x: Seq<char>| #[trigger]
            with_key(keys, key).contains(x) <==> keys.contains(x) || x == key,
    decreases keys.len(),
{
    let out = with_key(keys, key);
    if keys.len() == 0 {
        assert(out[0] == key);
        assert(forall|x: Seq<char>| #[trigger] out.contains(x) <==> x == key);
    } else if keys.last() == key {
        assert(keys.contains(key));
    } else if crate::common::chars::text_le(keys.last(), key) {
        assert forall|i: int, j: int|
            #![trigger out[i], out[j]]
            0 <= i < j < out.len() implies crate::common::chars::text_le(out[i], out[j]) && out[i]
            != out[j] by {
            if j == keys.len() && i < keys.len() - 1 {
                assert(keys[i] == out[i] && keys[keys.len() - 1] == keys.last());
                crate::common::chars::lemma_text_le_transitive(keys[i], keys.last(), key);
                if keys[i] == key {
                    crate::common::chars::lemma_text_le_antisymmetric(keys[i], keys.last());
                }
            } else if j < keys.len() {
                assert(keys[i] == out[i] && keys[j] == out[j]);
            }
        }
        assert forall|x: Seq<char>| #[trigger] out.contains(x) <==> keys.contains(x) || x
            == key by {
            if keys.contains(x) {
                let i = choose|i: int| 0 <= i < keys.len() && keys[i] == x;
                assert(out[i] == x);
            }
            assert(out[keys.len() as int] == key);
        }
    } else {
        let rest = keys.drop_last();
        assert(in_order(rest)) by {
            assert forall|i: int, j: int|
                #![trigger rest[i], rest[j]]
                0 <= i < j < rest.len() implies crate::common::chars::text_le(rest[i], rest[j])
                && rest[i] != rest[j] by {
                assert(keys[i] == rest[i] && keys[j] == rest[j]);
            }
        }
        lemma_with_key(rest, key);
        let inner = with_key(rest, key);
        let end = keys.last();
        crate::common::chars::lemma_text_le_total(key, end);
        assert forall|x: Seq<char>| #[trigger] inner.contains(x) implies
            crate::common::chars::text_le(x, end) && x != end by {
            if rest.contains(x) {
                let i = choose|i: int| 0 <= i < rest.len() && rest[i] == x;
                assert(keys[i] == x && keys[keys.len() - 1] == end);
            }
        }
        assert forall|i: int, j: int|
            #![trigger out[i], out[j]]
            0 <= i < j < out.len() implies crate::common::chars::text_le(out[i], out[j]) && out[i]
            != out[j] by {
            if j == inner.len() {
                assert(inner.contains(inner[i]));
            } else {
                assert(inner[i] == out[i] && inner[j] == out[j]);
            }
        }
        assert forall|x: Seq<char>| #[trigger] out.contains(x) <==> keys.contains(x) || x
            == key by {
            if out.contains(x) {
                let i = choose|i: int| 0 <= i < out.len() && out[i] == x;
                if i < inner.len() {
                    assert(inner.contains(inner[i]));
                    if rest.contains(x) {
                        let k = choose|k: int| 0 <= k < rest.len() && rest[k] == x;
                        assert(keys[k] == x);
                    }
                } else {
                    assert(keys[keys.len() - 1] == x);
                }
            }
            if keys.contains(x) {
                let i = choose|i: int| 0 <= i < keys.len() && keys[i] == x;
                if i < rest.len() {
                    assert(rest[i] == x);
                    assert(inner.contains(x));
                    let k = choose|k: int| 0 <= k < inner.len() && inner[k] == x;
                    assert(out[k] == x);
                } else {
                    assert(out[inner.len() as int] == x);
                }
            }
            if x == key {
                assert(inner.contains(x));
                let k = choose|k: int| 0 <= k < inner.len() && inner[k] == x;
                assert(out[k] == x);
            }
        }
    }
}

proof fn lemma_distinct_first(all: Seq<Seq<char>>, first: nat)
    requires
        first <= all.len(),
    ensures
        in_order(distinct_first(all, first)),
        forall|x: Seq<char>| #[trigger]
            distinct_first(all, first).contains(x) <==> all.take(first as int).contains(x),
    decreases first,
{
    if first > 0 {
        lemma_distinct_first(all, (first - 1) as nat);
        lemma_with_key(distinct_first(all, (first - 1) as nat), all[first - 1]);
        let shorter = all.take(first - 1);
        let longer = all.take(first as int);
        assert forall|x: Seq<char>| #[trigger] longer.contains(x) <==> shorter.contains(x) || x
            == all[first - 1] by {
            if longer.contains(x) {
                let i = choose|i: int| 0 <= i < longer.len() && longer[i] == x;
                if i < first - 1 {
                    assert(shorter[i] == x);
                }
            }
            if shorter.contains(x) {
                let i = choose|i: int| 0 <= i < shorter.len() && shorter[i] == x;
                assert(longer[i] == x);
            }
            assert(longer[first - 1] == all[first - 1]);
        }
    }
}

/// The keys of a list are its texts, in order and each once.
pub proof fn lemma_distinct(all: Seq<Seq<char>>)
    ensures
        in_order(distinct(all)),
        forall|x: Seq<char>| #[trigger] distinct(all).contains(x) <==> all.contains(x),
{
    lemma_distinct_first(all, all.len());
    assert(all.take(all.len() as int) =~= all);
}

proof fn lemma_last_before(all: Seq<Seq<char>>, key: Seq<char>, first: nat)
    requires
        first <= all.len(),
    ensures
        match last_before(all, key, first) {
            Some(at) => 0 <= at < first && all[at] == key && forall|i: int|
                at < i < first ==> (#[trigger] all[i]) != key,
            None => forall|i: int| 0 <= i < first ==> (#[trigger] all[i]) != key,
        },
    decreases first,
{
    if first > 0 && all[first - 1] != key {
        lemma_last_before(all, key, (first - 1) as nat);
    }
}

/// The last place of a text holds it, and none after it does; there is none
/// just where the text is not in the list.
pub proof fn lemma_last_place(all: Seq<Seq<char>>, key: Seq<char>)
    ensures
        last_place(all, key) is Some <==> all.contains(key),
        match last_place(all, key) {
            Some(at) => 0 <= at < all.len() && all[at] == key && forall|i: int|
                at < i < all.len() ==> (#[trigger] all[i]) != key,
            None => true,
        },
{
    lemma_last_before(all, key, all.len());
    if all.contains(key) {
        let i = choose|i: int| 0 <= i < all.len() && all[i] == key;
        assert(last_place(all, key) is Some);
    }
}

} // verus!
