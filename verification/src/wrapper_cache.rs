//! The COM identity to JS wrapper cache, and the wrappers' weak finalization in two passes.
//!
//! Each cached wrapper owns one slot with its weak handle. When the engine collects the wrapper, a
//! first pass resets the handle and a second pass frees the slot; in between, a new wrapper may have
//! taken the slot's place in the cache.

use std::collections::HashMap;
use vstd::prelude::*;

verus! {

/// Per-wrapper state: the COM identity it wraps, and its weak handle; zero once it is reset.
#[derive(Clone, Copy, PartialEq, Eq, Structural, Debug)]
pub struct Slot {
    pub key: usize,
    pub handle: usize,
}

/// The cached slot of each COM identity, and the slots that are not freed.
pub struct WrapperCache {
    cached: HashMap<usize, usize>,
    slots: HashMap<usize, Slot>,
}

pub struct CacheView {
    pub cached: Map<usize, usize>,
    pub slots: Map<usize, Slot>,
}

impl View for WrapperCache {
    type V = CacheView;

    closed spec fn view(&self) -> CacheView {
        CacheView { cached: self.cached@, slots: self.slots@ }
    }
}

impl CacheView {
    /// Whether every cached slot is one that is not freed, and belongs to its identity: the cache
    /// never leads to a freed slot.
    pub open spec fn wf(self) -> bool {
        forall|key: usize| #[trigger]
            self.cached.contains_key(key) ==> self.slots.contains_key(self.cached[key])
                && self.slots[self.cached[key]].key == key
    }

    /// The live wrapper of a COM identity: the handle of its cached slot, unless that is reset.
    pub open spec fn live(self, key: usize) -> Option<usize> {
        if self.cached.contains_key(key) && self.slots[self.cached[key]].handle != 0 {
            Some(self.slots[self.cached[key]].handle)
        } else {
            None
        }
    }

    /// The handles of the live wrappers among identities, in their order.
    pub open spec fn live_handles(self, keys: Seq<usize>) -> Seq<usize>
        decreases keys.len(),
    {
        if keys.len() == 0 {
            seq![]
        } else {
            let before = self.live_handles(keys.drop_last());
            match self.live(keys.last()) {
                Some(h) => before.push(h),
                None => before,
            }
        }
    }

    /// Whether `handles` are those of all live wrappers, one for each, in some order.
    pub open spec fn hands_out(self, handles: Seq<usize>) -> bool {
        exists|keys: Seq<usize>| #[trigger]
            keys.no_duplicates() && keys.to_set() == self.cached.dom() && handles
                == self.live_handles(keys)
    }

    /// The cache with the wrapper of `key` in `slot`.
    pub open spec fn inserted(self, key: usize, slot: usize, handle: usize) -> CacheView {
        CacheView {
            cached: self.cached.insert(key, slot),
            slots: self.slots.insert(slot, Slot { key, handle }),
        }
    }

    /// The cache with the handle of `slot` reset.
    pub open spec fn reset(self, slot: usize) -> CacheView {
        CacheView {
            cached: self.cached,
            slots: self.slots.insert(slot, Slot { key: self.slots[slot].key, handle: 0 }),
        }
    }

    /// The cache with `slot` freed, and taken off its identity where it is still the cached one.
    pub open spec fn freed(self, slot: usize) -> CacheView {
        let key = self.slots[slot].key;
        CacheView {
            cached: if self.cached.contains_key(key) && self.cached[key] == slot {
                self.cached.remove(key)
            } else {
                self.cached
            },
            slots: self.slots.remove(slot),
        }
    }

    /// The slots with the handles of all cached ones reset.
    pub open spec fn all_reset(self) -> Map<usize, Slot> {
        Map::new(
            |s: usize| self.slots.contains_key(s),
            |s: usize|
                if self.cached.contains_key(self.slots[s].key) && self.cached[self.slots[s].key]
                    == s {
                    Slot { key: self.slots[s].key, handle: 0 }
                } else {
                    self.slots[s]
                },
        )
    }
}

impl WrapperCache {
    /// Nothing cached.
    pub fn new() -> (r: WrapperCache)
        ensures
            r@.wf(),
            r@.cached == Map::<usize, usize>::empty(),
            r@.slots == Map::<usize, Slot>::empty(),
    {
        WrapperCache { cached: HashMap::new(), slots: HashMap::new() }
    }

    /// The live wrapper cached for COM identity `key`.
    pub fn get(&self, key: usize) -> (r: Option<usize>)
        requires
            self@.wf(),
        ensures
            r == self@.live(key),
    {
        broadcast use vstd::std_specs::hash::group_hash_axioms;

        match self.cached.get(&key) {
            Some(slot) => match self.slots.get(slot) {
                Some(s) => if s.handle != 0 {
                    Some(s.handle)
                } else {
                    None
                },
                None => None,
            },
            None => None,
        }
    }

    /// Caches the wrapper behind `handle` for COM identity `key` in a slot of its own; returns how
    /// many identities are cached. A slot that it replaces is one of a collected wrapper that still
    /// waits for its second pass.
    pub fn insert(&mut self, slot: usize, key: usize, handle: usize) -> (r: usize)
        requires
            old(self)@.wf(),
            !old(self)@.slots.contains_key(slot),
        ensures
            final(self)@ == old(self)@.inserted(key, slot, handle),
            final(self)@.wf(),
            r == final(self)@.cached.len(),
    {
        broadcast use vstd::std_specs::hash::group_hash_axioms;

        let _ = self.slots.insert(slot, Slot { key, handle });
        let _ = self.cached.insert(key, slot);
        assert(self@.wf()) by {
            assert forall|k: usize| #[trigger] self@.cached.contains_key(k) implies self@.slots.contains_key(
                self@.cached[k],
            ) && self@.slots[self@.cached[k]].key == k by {
                if k != key {
                    assert(old(self)@.cached.contains_key(k));
                }
            }
        }
        self.cached.len()
    }

    /// The engine collected the wrapper of `slot`: its handle is reset, and returned where it was not
    /// reset before. The slot is freed in the second pass.
    pub fn first_pass(&mut self, slot: usize) -> (r: Option<usize>)
        requires
            old(self)@.wf(),
            old(self)@.slots.contains_key(slot),
        ensures
            final(self)@ == old(self)@.reset(slot),
            final(self)@.wf(),
            r == (if old(self)@.slots[slot].handle != 0 {
                Some(old(self)@.slots[slot].handle)
            } else {
                None
            }),
    {
        broadcast use vstd::std_specs::hash::group_hash_axioms;

        match self.slots.get(&slot) {
            Some(s) => {
                let Slot { key, handle } = *s;
                let _ = self.slots.insert(slot, Slot { key, handle: 0 });
                assert(self@.wf()) by {
                    assert forall|k: usize| #[trigger]
                        self@.cached.contains_key(k) implies self@.slots.contains_key(
                        self@.cached[k],
                    ) && self@.slots[self@.cached[k]].key == k by {
                        assert(old(self)@.cached.contains_key(k));
                    }
                }
                if handle != 0 {
                    Some(handle)
                } else {
                    None
                }
            },
            None => None,
        }
    }

    /// Frees `slot`. It is taken off its identity only where it is still the cached one: a newer
    /// wrapper of the same object stays.
    pub fn second_pass(&mut self, slot: usize)
        requires
            old(self)@.wf(),
            old(self)@.slots.contains_key(slot),
        ensures
            final(self)@ == old(self)@.freed(slot),
            final(self)@.wf(),
    {
        broadcast use vstd::std_specs::hash::group_hash_axioms;

        match self.slots.remove(&slot) {
            Some(s) => {
                let current = match self.cached.get(&s.key) {
                    Some(c) => *c == slot,
                    None => false,
                };
                if current {
                    let _ = self.cached.remove(&s.key);
                }
                assert(self@.wf()) by {
                    assert forall|key: usize| #[trigger]
                        self@.cached.contains_key(key) implies self@.slots.contains_key(
                        self@.cached[key],
                    ) && self@.slots[self@.cached[key]].key == key by {
                        assert(old(self)@.cached.contains_key(key));
                    }
                }
            },
            None => {},
        }
    }

    /// Drops every cache entry before the engine goes away; returns the handles that were live, so
    /// that the engine never calls back for them. Slots stay as they are, but for the handles.
    pub fn clear(&mut self) -> (r: Vec<usize>)
        requires
            old(self)@.wf(),
        ensures
            final(self)@.cached == Map::<usize, usize>::empty(),
            final(self)@.slots == old(self)@.all_reset(),
            final(self)@.wf(),
            old(self)@.hands_out(r@),
    {
        broadcast use vstd::std_specs::hash::group_hash_axioms;

        let mut keys: Vec<usize> = Vec::new();
        for key in it: self.cached.keys()
            invariant
                it.seq().unref().to_set() == self.cached@.dom(),
                it.seq().no_duplicates(),
                keys@ == it.seq().unref().take(it.index() as int),
                it.index() == it.seq().len() ==> keys@ == it.seq().unref(),
        {
            keys.push(*key);
            proof {
                let all = it.seq().unref();
                assert(all.take(it.index() + 1) =~= all.take(it.index() as int).push(*key));
                assert(all.take(all.len() as int) =~= all);
            }
        }
        let ghost start = self@;
        assert(keys@.to_set() == start.cached.dom());
        let mut live: Vec<usize> = Vec::new();
        assert(reset_of(start, keys@.take(0)) =~= start.slots);
        for i in 0..keys.len()
            invariant
                start == old(self)@,
                start.wf(),
                self@.cached == start.cached,
                keys@.no_duplicates(),
                keys@.to_set() == start.cached.dom(),
                self@.slots == reset_of(start, keys@.take(i as int)),
                live@ == start.live_handles(keys@.take(i as int)),
        {
            let key: usize = keys[i];
            proof {
                assert(keys@.to_set().contains(keys@[i as int]));
                assert(start.cached.contains_key(key));
            }
            let slot: usize = match self.cached.get(&key) {
                Some(s) => *s,
                None => 0,
            };
            proof {
                assert(!keys@.take(i as int).contains(key)) by {
                    if keys@.take(i as int).contains(key) {
                        let j = keys@.take(i as int).index_of(key);
                        assert(keys@[j] == keys@[i as int]);
                    }
                }
                assert(self@.slots[slot] == start.slots[slot]);
                assert forall|k: usize| keys@.take(i + 1).contains(k) <==> (keys@.take(
                    i as int,
                ).contains(k) || k == key) by {
                    lemma_take_contains(keys@, i as int, k);
                }
            }
            match self.slots.get(&slot) {
                Some(s) => {
                    let Slot { key: k, handle } = *s;
                    let _ = self.slots.insert(slot, Slot { key: k, handle: 0 });
                    if handle != 0 {
                        live.push(handle);
                    }
                    proof {
                        assert(start.live(key) == (if handle != 0 {
                            Some(handle)
                        } else {
                            None
                        }));
                        assert(keys@.take(i + 1).drop_last() =~= keys@.take(i as int));
                        assert(self@.slots =~= reset_of(start, keys@.take(i + 1)));
                    }
                },
                None => {},
            }
        }
        proof {
            assert(keys@.take(keys@.len() as int) =~= keys@);
            assert forall|k: usize| keys@.contains(k) == start.cached.contains_key(k) by {
                assert(keys@.to_set().contains(k) == start.cached.dom().contains(k));
            }
            assert(self@.slots =~= start.all_reset());
        }
        self.cached.clear();
        live
    }
}

/// The slots with the handles of the slots cached for `keys` reset.
spec fn reset_of(c: CacheView, keys: Seq<usize>) -> Map<usize, Slot> {
    Map::new(
        |s: usize| c.slots.contains_key(s),
        |s: usize|
            if keys.contains(c.slots[s].key) && c.cached[c.slots[s].key] == s {
                Slot { key: c.slots[s].key, handle: 0 }
            } else {
                c.slots[s]
            },
    )
}

proof fn lemma_take_contains(keys: Seq<usize>, i: int, k: usize)
    requires
        0 <= i < keys.len(),
    ensures
        keys.take(i + 1).contains(k) <==> (keys.take(i).contains(k) || k == keys[i]),
{
    if keys.take(i + 1).contains(k) {
        let j = keys.take(i + 1).index_of(k);
        if j < i {
            assert(keys.take(i)[j] == k);
        }
    }
    if keys.take(i).contains(k) {
        let j = keys.take(i).index_of(k);
        assert(keys.take(i + 1)[j] == k);
    }
    assert(keys.take(i + 1)[i] == keys[i]);
}

/// What is cached is found: right after a wrapper is cached, its identity leads to it, and every
/// other identity leads where it led.
pub proof fn law_get_finds_what_was_inserted(
    c: CacheView,
    key: usize,
    slot: usize,
    handle: usize,
    other: usize,
)
    requires
        c.wf(),
        !c.slots.contains_key(slot),
        handle != 0,
        other != key,
    ensures
        c.inserted(key, slot, handle).live(key) == Some(handle),
        c.inserted(key, slot, handle).live(other) == c.live(other),
{
    if c.cached.contains_key(other) {
        assert(c.slots.contains_key(c.cached[other]));
    }
}

/// A collected wrapper is not found any more, from its first pass on.
pub proof fn law_collected_wrappers_are_not_found(c: CacheView, key: usize)
    requires
        c.wf(),
        c.cached.contains_key(key),
    ensures
        c.reset(c.cached[key]).live(key) is None,
        c.freed(c.cached[key]).live(key) is None,
{
    assert(c.slots[c.cached[key]].key == key);
}

/// The second pass of a replaced slot does not touch the newer wrapper of the same identity.
pub proof fn law_second_pass_keeps_a_newer_wrapper(c: CacheView, slot: usize, key: usize)
    requires
        c.wf(),
        c.slots.contains_key(slot),
        c.cached.contains_key(key),
        c.cached[key] != slot,
    ensures
        c.freed(slot).live(key) == c.live(key),
        c.freed(slot).cached.contains_key(key),
        c.freed(slot).cached[key] == c.cached[key],
{
    assert(c.slots[c.cached[key]].key == key);
}

/// A wrapper is live exactly where its object is cached under a slot with a handle that is not zero,
/// and that handle is the wrapper.
pub proof fn law_live_wrappers_have_a_handle(c: CacheView, key: usize, handle: usize)
    ensures
        c.live(key) == Some(handle) <==> c.cached.contains_key(key)
            && c.slots[c.cached[key]].handle == handle && handle != 0,
        c.live(key) is None <==> !c.cached.contains_key(key) || c.slots[c.cached[key]].handle == 0,
{
}

/// An insertion takes a slot of its own for the wrapper; every other slot and object stays as it was.
pub proof fn law_insertions_touch_one_slot(
    c: CacheView,
    key: usize,
    slot: usize,
    handle: usize,
    other: usize,
)
    ensures
        c.inserted(key, slot, handle).cached.contains_key(key),
        c.inserted(key, slot, handle).cached[key] == slot,
        c.inserted(key, slot, handle).slots.contains_key(slot),
        c.inserted(key, slot, handle).slots[slot].key == key,
        c.inserted(key, slot, handle).slots[slot].handle == handle,
        other != slot ==> (c.inserted(key, slot, handle).slots.contains_key(other)
            <==> c.slots.contains_key(other)) && (c.slots.contains_key(other) ==> c.inserted(
            key,
            slot,
            handle,
        ).slots[other] == c.slots[other]),
        other != key ==> (c.inserted(key, slot, handle).cached.contains_key(other)
            <==> c.cached.contains_key(other)) && (c.cached.contains_key(other) ==> c.inserted(
            key,
            slot,
            handle,
        ).cached[other] == c.cached[other]),
{
}

/// The first pass clears the handle of the collected wrapper's slot and nothing else.
pub proof fn law_first_passes_clear_one_handle(c: CacheView, slot: usize, other: usize)
    requires
        c.slots.contains_key(slot),
    ensures
        c.reset(slot).cached == c.cached,
        c.reset(slot).slots.dom() == c.slots.dom(),
        c.reset(slot).slots[slot].handle == 0,
        c.reset(slot).slots[slot].key == c.slots[slot].key,
        other != slot && c.slots.contains_key(other) ==> c.reset(slot).slots[other] == c.slots[other],
{
    assert(c.reset(slot).slots.dom() =~= c.slots.dom());
}

/// The second pass gives the slot back, and its object leaves the cache unless a newer wrapper took
/// its place; nothing else changes.
pub proof fn law_second_passes_free_one_slot(c: CacheView, slot: usize, other: usize)
    requires
        c.slots.contains_key(slot),
    ensures
        !c.freed(slot).slots.contains_key(slot),
        other != slot ==> (c.freed(slot).slots.contains_key(other) <==> c.slots.contains_key(other)),
        other != slot && c.slots.contains_key(other) ==> c.freed(slot).slots[other] == c.slots[other],
        c.freed(slot).cached.contains_key(other) <==> c.cached.contains_key(other) && !(other
            == c.slots[slot].key && c.cached[other] == slot),
        c.freed(slot).cached.contains_key(other) ==> c.freed(slot).cached[other] == c.cached[other],
{
}

/// Clearing the cache clears the handle of each slot that an object is cached under, and leaves the
/// slots of older wrappers to their own passes.
pub proof fn law_clearing_leaves_older_slots(c: CacheView, slot: usize)
    ensures
        c.all_reset().contains_key(slot) <==> c.slots.contains_key(slot),
        c.slots.contains_key(slot) ==> c.all_reset()[slot].key == c.slots[slot].key,
        c.slots.contains_key(slot) && c.cached.contains_key(c.slots[slot].key)
            && c.cached[c.slots[slot].key] == slot ==> c.all_reset()[slot].handle == 0,
        c.slots.contains_key(slot) && !(c.cached.contains_key(c.slots[slot].key)
            && c.cached[c.slots[slot].key] == slot) ==> c.all_reset()[slot] == c.slots[slot],
{
}

/// The handles that are handed out are those of the live wrappers among the keys, in their order.
pub proof fn law_handed_out_handles_are_live(c: CacheView, keys: Seq<usize>)
    ensures
        c.live_handles(keys) == keys.filter(|k: usize| c.live(k) is Some).map_values(
            |k: usize| c.live(k)->Some_0,
        ),
    decreases keys.len(),
{
    reveal(Seq::filter);
    let keep = |k: usize| c.live(k) is Some;
    let read = |k: usize| c.live(k)->Some_0;
    if keys.len() > 0 {
        law_handed_out_handles_are_live(c, keys.drop_last());
    }
    assert(c.live_handles(keys) =~= keys.filter(keep).map_values(read));
}

/// Every live wrapper is handed out, and nothing else is.
pub proof fn law_all_live_wrappers_are_handed_out(c: CacheView, handles: Seq<usize>, handle: usize)
    requires
        c.hands_out(handles),
    ensures
        handles.contains(handle) <==> exists|key: usize| #[trigger] c.live(key) == Some(handle),
{
    let keys = choose|keys: Seq<usize>| #[trigger]
        keys.no_duplicates() && keys.to_set() == c.cached.dom() && handles == c.live_handles(keys);
    law_handed_out_handles_are_live(c, keys);
    let keep = |k: usize| c.live(k) is Some;
    let read = |k: usize| c.live(k)->Some_0;
    let f = keys.filter(keep);
    assert(handles == f.map_values(read));
    if handles.contains(handle) {
        let i = handles.index_of(handle);
        keys.lemma_filter_pred(keep, i);
        assert(c.live(f[i]) == Some(handle));
    }
    if exists|key: usize| #[trigger] c.live(key) == Some(handle) {
        let key = choose|key: usize| #[trigger] c.live(key) == Some(handle);
        assert(keys.to_set().contains(key));
        let i = keys.index_of(key);
        keys.lemma_filter_contains(keep, i);
        assert(f.contains(keys[i]));
        let j = f.index_of(key);
        assert(handles[j] == handle);
    }
}

/// A wrapper that is inserted is the one that is found, and how many objects are cached is said.
pub proof fn law_inserted_wrappers_are_found(
    cache: &mut WrapperCache,
    slot: usize,
    key: usize,
    handle: usize,
    r: usize,
)
    requires
        call_ensures(WrapperCache::insert, (cache, slot, key, handle), r),
        handle != 0,
    ensures
        final(cache)@.live(key) == Some(handle),
        r == final(cache)@.cached.len(),
{
}

/// The first pass hands out the handle of the collected wrapper, if it still has one, and leaves none.
pub proof fn law_first_passes_hand_out_the_handle(
    cache: &mut WrapperCache,
    slot: usize,
    r: Option<usize>,
)
    requires
        call_ensures(WrapperCache::first_pass, (cache, slot), r),
        old(cache)@.slots.contains_key(slot),
    ensures
        old(cache)@.slots[slot].handle == 0 ==> r is None,
        old(cache)@.slots[slot].handle != 0 ==> r == Some(old(cache)@.slots[slot].handle),
        final(cache)@.slots[slot].handle == 0,
        final(cache)@.cached == old(cache)@.cached,
{
}

/// Clearing the cache leaves no wrapper to find, and hands out every one that was live.
pub proof fn law_cleared_caches_find_nothing(
    cache: &mut WrapperCache,
    r: Vec<usize>,
    key: usize,
    handle: usize,
)
    requires
        call_ensures(WrapperCache::clear, (cache,), r),
    ensures
        final(cache)@.live(key) is None,
        r@.contains(handle) <==> exists|k: usize| #[trigger] old(cache)@.live(k) == Some(handle),
{
    law_all_live_wrappers_are_handed_out(old(cache)@, r@, handle);
}

/// A lookup finds the live wrapper of an object, and the second pass of a slot leaves every other
/// object's wrapper.
pub proof fn law_lookups_find_live_wrappers(
    cache: &WrapperCache,
    key: usize,
    r: Option<usize>,
)
    requires
        call_ensures(WrapperCache::get, (cache, key), r),
    ensures
        r matches Some(h) ==> h != 0 && cache@.cached.contains_key(key)
            && cache@.slots[cache@.cached[key]].handle == h,
        r is None ==> !cache@.cached.contains_key(key) || cache@.slots[cache@.cached[key]].handle
            == 0,
{
}

/// The second pass gives a slot back and forgets its object unless that has a newer wrapper.
pub proof fn law_freed_slots_are_gone(cache: &mut WrapperCache, slot: usize, key: usize)
    requires
        call_ensures(WrapperCache::second_pass, (cache, slot), ()),
        old(cache)@.slots.contains_key(slot),
    ensures
        !final(cache)@.slots.contains_key(slot),
        final(cache)@.cached.contains_key(key) <==> old(cache)@.cached.contains_key(key) && !(key
            == old(cache)@.slots[slot].key && old(cache)@.cached[key] == slot),
{
}

} // verus!
