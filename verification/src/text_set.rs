//! A set of texts.

use crate::text;
use vstd::prelude::*;

verus! {

/// A set of texts; none is held twice.
pub struct TextSet {
    items: Vec<String>,
}

impl View for TextSet {
    type V = Set<Seq<char>>;

    closed spec fn view(&self) -> Set<Seq<char>> {
        text::texts(self.items@).to_set()
    }
}

impl TextSet {
    #[verifier::type_invariant]
    spec fn wf(self) -> bool {
        text::texts(self.items@).no_duplicates()
    }

    /// The empty set.
    pub fn new() -> (r: TextSet)
        ensures
            r@ == Set::<Seq<char>>::empty(),
    {
        let r = TextSet { items: Vec::new() };
        assert(r@ =~= Set::<Seq<char>>::empty());
        r
    }

    /// Whether `s` is in the set.
    pub fn contains(&self, s: &str) -> (r: bool)
        ensures
            r == self@.contains(s@),
    {
        let ghost all = text::texts(self.items@);
        for i in 0..self.items.len()
            invariant
                all == text::texts(self.items@),
                self@ == all.to_set(),
                forall|j: int| 0 <= j < i ==> #[trigger] all[j] != s@,
        {
            if text::same_text(self.items[i].as_str(), s) {
                assert(all[i as int] == s@);
                return true;
            }
            assert(all[i as int] != s@);
        }
        false
    }

    /// Adds `s`.
    pub fn insert(&mut self, s: String)
        ensures
            final(self)@ == old(self)@.insert(s@),
    {
        if self.contains(s.as_str()) {
            assert(self@.insert(s@) =~= self@);
            return ;
        }
        proof {
            use_type_invariant(&*self);
        }
        let ghost before = text::texts(self.items@);
        let mut items: Vec<String> = Vec::new();
        std::mem::swap(&mut items, &mut self.items);
        let ghost view = s@;
        items.push(s);
        proof {
            assert(text::texts(items@) =~= before.push(view));
            assert forall|i: int, j: int|
                0 <= i < before.push(view).len() && 0 <= j < before.push(view).len() && i
                    != j implies before.push(view)[i] != before.push(view)[j] by {
                if i == before.len() {
                    assert(before.contains(before[j]));
                }
                if j == before.len() {
                    assert(before.contains(before[i]));
                }
            }
        }
        self.items = items;
        assert(before.push(view).to_set() =~= before.to_set().insert(view)) by {
            assert forall|x: Seq<char>| before.push(view).contains(x) implies before.contains(x)
                || x == view by {
                let i = before.push(view).index_of(x);
                if i < before.len() {
                    assert(before[i] == x);
                }
            }
            assert forall|x: Seq<char>| before.contains(x) || x == view implies before.push(
                view,
            ).contains(x) by {
                if before.contains(x) {
                    let i = before.index_of(x);
                    assert(before.push(view)[i] == x);
                } else {
                    assert(before.push(view)[before.len() as int] == x);
                }
            }
        }
    }

    /// Takes `s` out.
    pub fn remove(&mut self, s: &str)
        ensures
            final(self)@ == old(self)@.remove(s@),
    {
        proof {
            use_type_invariant(&*self);
        }
        let ghost before = text::texts(self.items@);
        let mut items: Vec<String> = Vec::new();
        std::mem::swap(&mut items, &mut self.items);
        let n: usize = items.len();
        for i in 0..n
            invariant
                n == before.len(),
                before == text::texts(items@),
                before.no_duplicates(),
                old(self)@ == before.to_set(),
                forall|j: int| 0 <= j < i ==> #[trigger] before[j] != s@,
        {
            if text::same_text(items[i].as_str(), s) {
                assert(before[i as int] == s@);
                let _ = items.remove(i);
                proof {
                    let now = before.remove(i as int);
                    assert(text::texts(items@) =~= now);
                    assert(now.no_duplicates());
                    assert(now.to_set() =~= before.to_set().remove(s@)) by {
                        assert forall|x: Seq<char>| now.contains(x) implies before.contains(x) && x
                            != s@ by {
                            let k = now.index_of(x);
                            if k < i {
                                assert(before[k] == x);
                            } else {
                                assert(before[k + 1] == x);
                            }
                        }
                        assert forall|x: Seq<char>| before.contains(x) && x != s@ implies now.contains(
                            x,
                        ) by {
                            let k = before.index_of(x);
                            if k < i {
                                assert(now[k] == x);
                            } else {
                                assert(now[k - 1] == x);
                            }
                        }
                    }
                }
                self.items = items;
                return ;
            }
            assert(before[i as int] != s@);
        }
        self.items = items;
        assert(before.to_set().remove(s@) =~= before.to_set());
    }
}

/// A text that is put in is there, and no other changes.
pub proof fn law_texts_are_put_in_alone(set: &mut TextSet, s: String, other: Seq<char>)
    requires
        call_ensures(TextSet::insert, (set, s), ()),
    ensures
        final(set)@.contains(s@),
        other != s@ ==> (final(set)@.contains(other) <==> old(set)@.contains(other)),
{
}

/// A text that is taken out is not there, and no other changes.
pub proof fn law_texts_are_taken_out_alone(set: &mut TextSet, s: &str, other: Seq<char>)
    requires
        call_ensures(TextSet::remove, (set, s), ()),
    ensures
        !final(set)@.contains(s@),
        other != s@ ==> (final(set)@.contains(other) <==> old(set)@.contains(other)),
{
}

/// A text is in the set exactly where it was put in; a new set has none.
pub proof fn law_texts_are_looked_up(set: &TextSet, s: &str, r: bool, made: TextSet)
    requires
        call_ensures(TextSet::contains, (set, s), r),
        call_ensures(TextSet::new, (), made),
    ensures
        r <==> set@.contains(s@),
        !made@.contains(s@),
{
}

} // verus!
