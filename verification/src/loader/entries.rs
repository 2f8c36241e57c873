//! The entries of one import-map section: which specifier stands for which target.

use crate::text_map::TextMap;
use vstd::prelude::*;

verus! {

/// Specifiers and their targets.
pub struct Entries {
    map: TextMap<String>,
}

impl View for Entries {
    type V = Map<Seq<char>, Seq<char>>;

    closed spec fn view(&self) -> Map<Seq<char>, Seq<char>> {
        self.map@.map_values(|s: String| s@)
    }
}

impl Entries {
    /// No entries.
    pub fn new() -> (r: Entries)
        ensures
            r@ == Map::<Seq<char>, Seq<char>>::empty(),
    {
        let r = Entries { map: TextMap::new() };
        assert(r@ =~= Map::<Seq<char>, Seq<char>>::empty());
        r
    }

    /// The target of `key`.
    pub fn get(&self, key: &str) -> (r: Option<&String>)
        ensures
            match r {
                Some(v) => self@.contains_key(key@) && self@[key@] == v@,
                None => !self@.contains_key(key@),
            },
    {
        self.map.get(key)
    }

    /// Puts `key` to `value`, in place of the target it had.
    pub fn set(&mut self, key: String, value: String)
        ensures
            final(self)@ == old(self)@.insert(key@, value@),
    {
        let ghost k = key@;
        let ghost v = value@;
        self.map.set(key, value);
        assert(self@ =~= old(self)@.insert(k, v));
    }
}

/// A target that is set is what its specifier finds, and no other specifier changes.
pub proof fn law_targets_are_found_by_their_specifiers(
    entries: &mut Entries,
    key: String,
    value: String,
    other: Seq<char>,
)
    requires
        call_ensures(Entries::set, (entries, key, value), ()),
    ensures
        final(entries)@.contains_key(key@),
        final(entries)@[key@] == value@,
        other != key@ ==> (final(entries)@.contains_key(other) <==> old(entries)@.contains_key(
            other,
        )),
        other != key@ && old(entries)@.contains_key(other) ==> final(entries)@[other]
            == old(entries)@[other],
{
}

/// A specifier finds its target exactly where it has one; nothing is there at first.
pub proof fn law_targets_are_looked_up(entries: &Entries, key: &str, r: Option<&String>, made: Entries)
    requires
        call_ensures(Entries::get, (entries, key), r),
        call_ensures(Entries::new, (), made),
    ensures
        r is Some <==> entries@.contains_key(key@),
        r matches Some(v) ==> v@ == entries@[key@],
        !made@.contains_key(key@),
{
}

} // verus!
