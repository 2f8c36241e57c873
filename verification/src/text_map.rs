//! A map from texts to values.

use crate::text;
use vstd::prelude::*;

verus! {

/// Texts and their values. No text occurs twice.
pub struct TextMap<V> {
    items: Vec<(String, V)>,
}

/// The map that pairs write when each replaces an earlier one of the same key.
pub open spec fn pairs_map<V>(pairs: Seq<(Seq<char>, V)>) -> Map<Seq<char>, V>
    decreases pairs.len(),
{
    if pairs.len() == 0 {
        Map::empty()
    } else {
        pairs_map(pairs.drop_last()).insert(pairs.last().0, pairs.last().1)
    }
}

/// Whether no key occurs twice.
pub open spec fn distinct_keys<V>(pairs: Seq<(Seq<char>, V)>) -> bool {
    forall|i: int, j: int|
        0 <= i < j < pairs.len() ==> (#[trigger] pairs[i]).0 != (#[trigger] pairs[j]).0
}

/// The pairs of items, keys by their views.
pub open spec fn pairs_of<V>(items: Seq<(String, V)>) -> Seq<(Seq<char>, V)> {
    Seq::new(items.len(), |i: int| (items[i].0@, items[i].1))
}

impl<V> View for TextMap<V> {
    type V = Map<Seq<char>, V>;

    closed spec fn view(&self) -> Map<Seq<char>, V> {
        pairs_map(pairs_of(self.items@))
    }
}

impl<V> TextMap<V> {
    #[verifier::type_invariant]
    spec fn wf(self) -> bool {
        distinct_keys(pairs_of(self.items@))
    }

    /// No entries.
    pub fn new() -> (r: TextMap<V>)
        ensures
            r@ == Map::<Seq<char>, V>::empty(),
    {
        let r = TextMap { items: Vec::new() };
        assert(pairs_of(r.items@) == Seq::<(Seq<char>, V)>::empty());
        r
    }

    /// Where `key` stands among `items`.
    fn position(items: &Vec<(String, V)>, key: &str) -> (r: Option<usize>)
        ensures
            match r {
                Some(i) => i < items@.len() && items@[i as int].0@ == key@,
                None => forall|j: int| 0 <= j < items@.len() ==> (#[trigger] items@[j]).0@ != key@,
            },
    {
        for i in 0..items.len()
            invariant
                forall|j: int| 0 <= j < i ==> (#[trigger] items@[j]).0@ != key@,
        {
            if text::same_text(items[i].0.as_str(), key) {
                return Some(i);
            }
        }
        None
    }

    /// The value of `key`.
    pub fn get(&self, key: &str) -> (r: Option<&V>)
        ensures
            match r {
                Some(v) => self@.contains_key(key@) && self@[key@] == *v,
                None => !self@.contains_key(key@),
            },
    {
        proof {
            use_type_invariant(self);
        }
        let ghost pairs = pairs_of(self.items@);
        match Self::position(&self.items, key) {
            Some(i) => {
                proof {
                    lemma_pairs_at(pairs, i as int);
                }
                Some(&self.items[i].1)
            },
            None => {
                proof {
                    lemma_pairs_absent(pairs, key@);
                }
                None
            },
        }
    }

    /// Puts `key` to `value`, in place of the value it had.
    pub fn set(&mut self, key: String, value: V)
        ensures
            final(self)@ == old(self)@.insert(key@, value),
    {
        let _ = self.remove(key.as_str());
        proof {
            use_type_invariant(&*self);
        }
        let ghost before = pairs_of(self.items@);
        let mut items: Vec<(String, V)> = Vec::new();
        std::mem::swap(&mut items, &mut self.items);
        let ghost k = key@;
        proof {
            lemma_absent_pairs(before, k);
        }
        items.push((key, value));
        proof {
            assert(pairs_of(items@) =~= before.push((k, value)));
            assert(before.push((k, value)).drop_last() =~= before);
            assert(distinct_keys(before.push((k, value))));
        }
        self.items = items;
        assert(old(self)@.remove(k).insert(k, value) =~= old(self)@.insert(k, value));
    }

    /// Takes the entry of `key` out.
    pub fn remove(&mut self, key: &str) -> (r: Option<V>)
        ensures
            final(self)@ == old(self)@.remove(key@),
            match r {
                Some(v) => old(self)@.contains_key(key@) && old(self)@[key@] == v,
                None => !old(self)@.contains_key(key@),
            },
    {
        proof {
            use_type_invariant(&*self);
        }
        let ghost before = pairs_of(self.items@);
        match Self::position(&self.items, key) {
            Some(i) => {
                let mut items: Vec<(String, V)> = Vec::new();
                std::mem::swap(&mut items, &mut self.items);
                let (_, v) = items.remove(i);
                proof {
                    assert(pairs_of(items@) =~= before.remove(i as int));
                    lemma_pairs_at(before, i as int);
                    lemma_pairs_remove(before, i as int);
                }
                self.items = items;
                Some(v)
            },
            None => {
                proof {
                    lemma_pairs_absent(before, key@);
                    assert(self@.remove(key@) =~= self@);
                }
                None
            },
        }
    }

    /// How many entries there are. They are what the map holds, each key once.
    pub fn len(&self) -> (r: usize)
        ensures
            r == self.entries().len(),
            pairs_map(self.entries()) == self@,
            distinct_keys(self.entries()),
    {
        proof {
            use_type_invariant(self);
        }
        self.items.len()
    }

    /// The entries in the order they are held.
    pub closed spec fn entries(&self) -> Seq<(Seq<char>, V)> {
        pairs_of(self.items@)
    }

    /// The `i`th entry.
    pub fn entry(&self, i: usize) -> (r: (&String, &V))
        requires
            i < self.entries().len(),
        ensures
            r.0@ == self.entries()[i as int].0,
            *r.1 == self.entries()[i as int].1,
    {
        (&self.items[i].0, &self.items[i].1)
    }
}

/// The map has what the pair of a key says.
pub proof fn lemma_pairs_at<V>(pairs: Seq<(Seq<char>, V)>, i: int)
    requires
        0 <= i < pairs.len(),
        distinct_keys(pairs),
    ensures
        pairs_map(pairs).contains_key(pairs[i].0),
        pairs_map(pairs)[pairs[i].0] == pairs[i].1,
    decreases pairs.len(),
{
    if i < pairs.len() - 1 {
        lemma_distinct_drop_last(pairs);
        lemma_pairs_at(pairs.drop_last(), i);
        assert(pairs[i].0 != pairs[pairs.len() - 1].0);
    }
}

proof fn lemma_distinct_drop_last<V>(pairs: Seq<(Seq<char>, V)>)
    requires
        pairs.len() > 0,
        distinct_keys(pairs),
    ensures
        distinct_keys(pairs.drop_last()),
{
    let d = pairs.drop_last();
    assert forall|i: int, j: int| 0 <= i < j < d.len() implies (#[trigger] d[i]).0 != (
    #[trigger] d[j]).0 by {
        assert(pairs[i].0 != pairs[j].0);
    }
}

/// The map has no key that no pair has.
pub proof fn lemma_pairs_absent<V>(pairs: Seq<(Seq<char>, V)>, key: Seq<char>)
    requires
        forall|i: int| 0 <= i < pairs.len() ==> (#[trigger] pairs[i]).0 != key,
    ensures
        !pairs_map(pairs).contains_key(key),
    decreases pairs.len(),
{
    if pairs.len() > 0 {
        assert(pairs[pairs.len() - 1].0 != key);
        assert forall|i: int| 0 <= i < pairs.drop_last().len() implies (
        #[trigger] pairs.drop_last()[i]).0 != key by {
            assert(pairs[i].0 != key);
        }
        lemma_pairs_absent(pairs.drop_last(), key);
    }
}

/// A key that the map has not is the key of no pair.
proof fn lemma_absent_pairs<V>(pairs: Seq<(Seq<char>, V)>, key: Seq<char>)
    requires
        !pairs_map(pairs).contains_key(key),
    ensures
        forall|i: int| 0 <= i < pairs.len() ==> (#[trigger] pairs[i]).0 != key,
    decreases pairs.len(),
{
    if pairs.len() > 0 {
        lemma_absent_pairs(pairs.drop_last(), key);
        assert forall|i: int| 0 <= i < pairs.len() implies (#[trigger] pairs[i]).0 != key by {
            if i < pairs.len() - 1 {
                assert(pairs.drop_last()[i].0 != key);
            }
        }
    }
}

proof fn lemma_pairs_remove<V>(pairs: Seq<(Seq<char>, V)>, i: int)
    requires
        0 <= i < pairs.len(),
        distinct_keys(pairs),
    ensures
        pairs_map(pairs.remove(i)) == pairs_map(pairs).remove(pairs[i].0),
        distinct_keys(pairs.remove(i)),
    decreases pairs.len(),
{
    let now = pairs.remove(i);
    let d = pairs.drop_last();
    lemma_distinct_drop_last(pairs);
    assert forall|p: int, q: int| 0 <= p < q < now.len() implies (#[trigger] now[p]).0 != (
    #[trigger] now[q]).0 by {
        let p0 = if p < i {
            p
        } else {
            p + 1
        };
        let q0 = if q < i {
            q
        } else {
            q + 1
        };
        assert(pairs[p0].0 != pairs[q0].0);
    }
    if i == pairs.len() - 1 {
        assert(now =~= d);
        assert forall|j: int| 0 <= j < d.len() implies (#[trigger] d[j]).0 != pairs[i].0 by {
            assert(pairs[j].0 != pairs[i].0);
        }
        lemma_pairs_absent(d, pairs[i].0);
        assert(pairs_map(pairs).remove(pairs[i].0) =~= pairs_map(d));
    } else {
        lemma_pairs_remove(d, i);
        assert(now.drop_last() =~= d.remove(i));
        assert(pairs[i].0 != pairs[pairs.len() - 1].0);
        assert(pairs_map(now) =~= pairs_map(pairs).remove(pairs[i].0));
    }
}

/// A map of pairs has the keys that occur, each with the value of the last pair that has it.
pub proof fn law_the_last_pair_counts<V>(pairs: Seq<(Seq<char>, V)>, key: Seq<char>)
    ensures
        pairs_map(pairs).contains_key(key) <==> exists|i: int|
            0 <= i < pairs.len() && (#[trigger] pairs[i]).0 == key,
        pairs_map(pairs).contains_key(key) ==> exists|i: int|
            0 <= i < pairs.len() && #[trigger] pairs[i] == (key, pairs_map(pairs)[key])
                && forall|j: int| i < j < pairs.len() ==> (#[trigger] pairs[j]).0 != key,
    decreases pairs.len(),
{
    if pairs.len() > 0 {
        let d = pairs.drop_last();
        law_the_last_pair_counts(d, key);
        assert forall|j: int| 0 <= j < d.len() implies #[trigger] pairs[j] == d[j] by {}
        let last = pairs.len() - 1;
        if pairs[last].0 == key {
            assert(pairs[last] == (key, pairs_map(pairs)[key]));
        } else {
            if pairs_map(d).contains_key(key) {
                let i = choose|i: int|
                    0 <= i < d.len() && #[trigger] d[i] == (key, pairs_map(d)[key]) && forall|j: int|
                        i < j < d.len() ==> (#[trigger] d[j]).0 != key;
                assert(pairs[i] == (key, pairs_map(pairs)[key]));
                assert forall|j: int| i < j < pairs.len() implies (#[trigger] pairs[j]).0 != key by {
                    if j < d.len() {
                        assert(d[j].0 != key);
                    }
                }
            }
            if exists|i: int| 0 <= i < pairs.len() && (#[trigger] pairs[i]).0 == key {
                let i = choose|i: int| 0 <= i < pairs.len() && (#[trigger] pairs[i]).0 == key;
                assert(d[i].0 == key);
            }
        }
    }
}

/// Items are read as pairs, place by place.
pub proof fn law_items_are_read_as_pairs<V>(items: Seq<(String, V)>)
    ensures
        pairs_of(items).len() == items.len(),
        forall|i: int|
            0 <= i < items.len() ==> #[trigger] pairs_of(items)[i] == (items[i].0@, items[i].1),
{
}

/// A value that is set is what its key finds, no other key changes, and a key that is removed finds
/// nothing.
pub proof fn law_values_are_found_by_their_keys<V>(
    map: &mut TextMap<V>,
    key: String,
    value: V,
    other: Seq<char>,
)
    requires
        call_ensures(TextMap::<V>::set, (map, key, value), ()),
    ensures
        final(map)@.contains_key(key@),
        final(map)@[key@] == value,
        other != key@ ==> (final(map)@.contains_key(other) <==> old(map)@.contains_key(other)),
        other != key@ && old(map)@.contains_key(other) ==> final(map)@[other] == old(map)@[other],
{
}

/// A removal hands out the value and takes its key away alone.
pub proof fn law_removals_take_one_key<V>(
    map: &mut TextMap<V>,
    key: &str,
    r: Option<V>,
    other: Seq<char>,
)
    requires
        call_ensures(TextMap::<V>::remove, (map, key), r),
    ensures
        !final(map)@.contains_key(key@),
        r is Some <==> old(map)@.contains_key(key@),
        r matches Some(v) ==> v == old(map)@[key@],
        other != key@ ==> (final(map)@.contains_key(other) <==> old(map)@.contains_key(other)),
        other != key@ && old(map)@.contains_key(other) ==> final(map)@[other] == old(map)@[other],
{
}

/// A lookup finds the value of its key, and the entries are each key once with its value.
pub proof fn law_lookups_find_the_value<V>(
    map: &TextMap<V>,
    key: &str,
    r: Option<&V>,
    n: usize,
    made: TextMap<V>,
)
    requires
        call_ensures(TextMap::<V>::get, (map, key), r),
        call_ensures(TextMap::<V>::len, (map,), n),
        call_ensures(TextMap::<V>::new, (), made),
    ensures
        r is Some <==> map@.contains_key(key@),
        r matches Some(v) ==> *v == map@[key@],
        n == map.entries().len(),
        forall|i: int|
            0 <= i < n ==> map@.contains_key((#[trigger] map.entries()[i]).0)
                && map@[map.entries()[i].0] == map.entries()[i].1,
        !made@.contains_key(key@),
{
    let all = map.entries();
    assert forall|i: int| 0 <= i < n implies map@.contains_key((#[trigger] all[i]).0)
        && map@[all[i].0] == all[i].1 by {
        law_the_last_pair_counts(all, all[i].0);
        let k = choose|k: int|
            0 <= k < all.len() && #[trigger] all[k] == (all[i].0, pairs_map(all)[all[i].0]) && forall|
                j: int,
            |
                k < j < all.len() ==> (#[trigger] all[j]).0 != all[i].0;
        assert(k == i) by {
            if k < i {
                assert(all[k].0 != all[i].0);
            } else if i < k {
                assert(all[i].0 != all[k].0);
            }
        }
    }
}

} // verus!
