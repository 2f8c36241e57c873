//! The order of texts, and stable sorting by a given order.

use crate::text;
use vstd::prelude::*;

verus! {

/// Code point order: the order of `str`, whose bytes compare as its code points do.
pub open spec fn text_le(a: Seq<char>, b: Seq<char>) -> bool
    decreases a.len(),
{
    if a.len() == 0 {
        true
    } else if b.len() == 0 {
        false
    } else if a[0] != b[0] {
        a[0] < b[0]
    } else {
        text_le(a.drop_first(), b.drop_first())
    }
}

/// [`text_le`] as a relation.
pub open spec fn by_text() -> spec_fn(Seq<char>, Seq<char>) -> bool {
    |a: Seq<char>, b: Seq<char>| text_le(a, b)
}

/// `s` with `x` behind the last element that `x` may follow.
pub open spec fn insert_by<T>(s: Seq<T>, x: T, le: spec_fn(T, T) -> bool) -> Seq<T>
    decreases s.len(),
{
    if s.len() == 0 {
        seq![x]
    } else if le(s.last(), x) {
        s.push(x)
    } else {
        insert_by(s.drop_last(), x, le).push(s.last())
    }
}

/// The stable sort of `s` by `le`.
pub open spec fn sort_by<T>(s: Seq<T>, le: spec_fn(T, T) -> bool) -> Seq<T>
    decreases s.len(),
{
    if s.len() == 0 {
        s
    } else {
        insert_by(sort_by(s.drop_last(), le), s.last(), le)
    }
}

/// The texts `s` in code point order.
pub open spec fn sorted_texts(s: Seq<Seq<char>>) -> Seq<Seq<char>> {
    sort_by(s, by_text())
}

/// Where the walk from the end stops is where the element goes.
pub proof fn lemma_insert_at<T>(s: Seq<T>, x: T, le: spec_fn(T, T) -> bool, k: int)
    requires
        0 <= k <= s.len(),
        k > 0 ==> le(s[k - 1], x),
        forall|j: int| k <= j < s.len() ==> !le(#[trigger] s[j], x),
    ensures
        insert_by(s, x, le) == s.insert(k, x),
    decreases s.len(),
{
    if s.len() == 0 {
        assert(s.insert(k, x) == seq![x]);
    } else if k == s.len() {
        assert(s.insert(k, x) == s.push(x));
    } else {
        lemma_insert_at(s.drop_last(), x, le, k);
        assert(s.drop_last().insert(k, x).push(s.last()) == s.insert(k, x));
    }
}

/// Inserting adds the one element and nothing else.
pub proof fn lemma_insert_multiset<T>(s: Seq<T>, x: T, le: spec_fn(T, T) -> bool)
    ensures
        insert_by(s, x, le).to_multiset() == s.to_multiset().insert(x),
        insert_by(s, x, le).len() == s.len() + 1,
    decreases s.len(),
{
    broadcast use vstd::seq_lib::group_to_multiset_ensures;

    if s.len() == 0 {
        assert(seq![x] == s.push(x));
    } else if le(s.last(), x) {
    } else {
        lemma_insert_multiset(s.drop_last(), x, le);
        assert(s.drop_last().push(s.last()) == s);
        assert(s.drop_last().to_multiset().insert(x).insert(s.last())
            =~= s.drop_last().to_multiset().insert(s.last()).insert(x));
    }
}

/// Sorting keeps every element, as often as it occurs.
pub proof fn lemma_sort_multiset<T>(s: Seq<T>, le: spec_fn(T, T) -> bool)
    ensures
        sort_by(s, le).to_multiset() == s.to_multiset(),
        sort_by(s, le).len() == s.len(),
    decreases s.len(),
{
    broadcast use vstd::seq_lib::group_to_multiset_ensures;

    if s.len() > 0 {
        lemma_sort_multiset(s.drop_last(), le);
        lemma_insert_multiset(sort_by(s.drop_last(), le), s.last(), le);
        assert(s.drop_last().push(s.last()) == s);
    }
}

/// Whether `le` is transitive and compares any two elements.
pub open spec fn is_preorder<T>(le: spec_fn(T, T) -> bool) -> bool {
    &&& forall|a: T, b: T, c: T| #[trigger] le(a, b) && #[trigger] le(b, c) ==> le(a, c)
    &&& forall|a: T, b: T| #[trigger] le(a, b) || le(b, a)
}

proof fn lemma_insert_sorted<T>(s: Seq<T>, x: T, le: spec_fn(T, T) -> bool)
    requires
        is_preorder(le),
        vstd::relations::sorted_by(s, le),
    ensures
        vstd::relations::sorted_by(insert_by(s, x, le), le),
        forall|i: int|
            0 <= i < insert_by(s, x, le).len() ==> #[trigger] insert_by(s, x, le)[i] == x || s.contains(
                insert_by(s, x, le)[i],
            ),
    decreases s.len(),
{
    let r = insert_by(s, x, le);
    if s.len() == 0 {
    } else if le(s.last(), x) {
        assert forall|i: int, j: int| 0 <= i < j < r.len() implies #[trigger] le(r[i], r[j]) by {
            if j == s.len() && i < s.len() - 1 {
                assert(le(s[i], s[s.len() - 1]));
            }
        }
        assert forall|i: int| 0 <= i < r.len() implies #[trigger] r[i] == x || s.contains(r[i]) by {
            if i < s.len() {
                assert(r[i] == s[i]);
            }
        }
    } else {
        let d = s.drop_last();
        let q = insert_by(d, x, le);
        lemma_insert_sorted(d, x, le);
        assert(le(x, s.last())) by {
            assert(le(s.last(), x) || le(x, s.last()));
        }
        assert forall|i: int| 0 <= i < q.len() implies le(#[trigger] q[i], s.last()) by {
            if q[i] != x {
                let k = d.index_of(q[i]);
                assert(d.contains(q[i]));
                assert(le(s[k], s[s.len() - 1]));
            }
        }
        assert forall|i: int, j: int| 0 <= i < j < r.len() implies #[trigger] le(r[i], r[j]) by {
            if j == q.len() {
                assert(r[i] == q[i]);
            } else {
                assert(le(q[i], q[j]));
            }
        }
        assert forall|i: int| 0 <= i < r.len() implies #[trigger] r[i] == x || s.contains(r[i]) by {
            if i < q.len() {
                assert(r[i] == q[i]);
                if q[i] != x {
                    assert(d.contains(q[i]));
                    let k = d.index_of(q[i]);
                    assert(s[k] == q[i]);
                }
            } else {
                assert(s[s.len() - 1] == r[i]);
            }
        }
    }
}

/// What sorting gives is in order.
pub proof fn lemma_sort_sorted<T>(s: Seq<T>, le: spec_fn(T, T) -> bool)
    requires
        is_preorder(le),
    ensures
        vstd::relations::sorted_by(sort_by(s, le), le),
    decreases s.len(),
{
    if s.len() > 0 {
        lemma_sort_sorted(s.drop_last(), le);
        lemma_insert_sorted(sort_by(s.drop_last(), le), s.last(), le);
    }
}

/// A sequence in order is its own sort.
pub proof fn lemma_sort_of_sorted<T>(s: Seq<T>, le: spec_fn(T, T) -> bool)
    requires
        vstd::relations::sorted_by(s, le),
    ensures
        sort_by(s, le) == s,
    decreases s.len(),
{
    if s.len() > 0 {
        let d = s.drop_last();
        lemma_sort_of_sorted(d, le);
        if s.len() > 1 {
            assert(le(s[s.len() - 2], s[s.len() - 1]));
            lemma_insert_at(d, s.last(), le, d.len() as int);
        }
        assert(insert_by(d, s.last(), le) == s);
    }
}

proof fn lemma_text_le_reflexive(a: Seq<char>)
    ensures
        text_le(a, a),
    decreases a.len(),
{
    if a.len() > 0 {
        lemma_text_le_reflexive(a.drop_first());
    }
}

proof fn lemma_text_le_total(a: Seq<char>, b: Seq<char>)
    ensures
        text_le(a, b) || text_le(b, a),
    decreases a.len(),
{
    if a.len() > 0 && b.len() > 0 && a[0] == b[0] {
        lemma_text_le_total(a.drop_first(), b.drop_first());
    }
}

proof fn lemma_text_le_antisymmetric(a: Seq<char>, b: Seq<char>)
    requires
        text_le(a, b),
        text_le(b, a),
    ensures
        a == b,
    decreases a.len(),
{
    if a.len() > 0 && b.len() > 0 {
        lemma_text_le_antisymmetric(a.drop_first(), b.drop_first());
        assert(a == seq![a[0]] + a.drop_first());
        assert(b == seq![b[0]] + b.drop_first());
    } else {
        assert(a == b);
    }
}

proof fn lemma_text_le_transitive(a: Seq<char>, b: Seq<char>, c: Seq<char>)
    requires
        text_le(a, b),
        text_le(b, c),
    ensures
        text_le(a, c),
    decreases a.len(),
{
    if a.len() > 0 && b.len() > 0 && c.len() > 0 && a[0] == b[0] && b[0] == c[0] {
        lemma_text_le_transitive(a.drop_first(), b.drop_first(), c.drop_first());
    }
}

/// Code point order is a total order on texts.
pub proof fn lemma_text_order()
    ensures
        vstd::relations::total_ordering(by_text()),
        is_preorder(by_text()),
{
    let le = by_text();
    assert forall|a: Seq<char>| #[trigger] le(a, a) by {
        lemma_text_le_reflexive(a);
    }
    assert forall|a: Seq<char>, b: Seq<char>| #[trigger] le(a, b) && #[trigger] le(b, a) implies a
        == b by {
        lemma_text_le_antisymmetric(a, b);
    }
    assert forall|a: Seq<char>, b: Seq<char>, c: Seq<char>| #[trigger]
        le(a, b) && #[trigger] le(b, c) implies le(a, c) by {
        lemma_text_le_transitive(a, b, c);
    }
    assert forall|a: Seq<char>, b: Seq<char>| #[trigger] le(a, b) || le(b, a) by {
        lemma_text_le_total(a, b);
    }
}

/// The sorted texts depend only on which texts there are, not on their order.
pub proof fn lemma_sorted_texts_same(a: Seq<Seq<char>>, b: Seq<Seq<char>>)
    requires
        a.to_multiset() == b.to_multiset(),
    ensures
        sorted_texts(a) == sorted_texts(b),
{
    lemma_text_order();
    lemma_sort_multiset(a, by_text());
    lemma_sort_multiset(b, by_text());
    lemma_sort_sorted(a, by_text());
    lemma_sort_sorted(b, by_text());
    vstd::seq_lib::lemma_sorted_unique(sorted_texts(a), sorted_texts(b), by_text());
}

/// Sorting keeps which elements there are, and keeps them distinct.
pub proof fn lemma_sort_keeps_distinct<T>(s: Seq<T>, le: spec_fn(T, T) -> bool)
    requires
        s.no_duplicates(),
    ensures
        sort_by(s, le).no_duplicates(),
        sort_by(s, le).to_set() == s.to_set(),
{
    broadcast use vstd::seq_lib::group_to_multiset_ensures;

    let t = sort_by(s, le);
    lemma_sort_multiset(s, le);
    s.lemma_multiset_has_no_duplicates();
    assert forall|x: T| t.to_multiset().contains(x) implies t.to_multiset().count(x) == 1 by {
        assert(s.to_multiset().contains(x));
    }
    t.lemma_multiset_has_no_duplicates_conv();
    assert forall|x: T| t.contains(x) == s.contains(x) by {
        assert(t.contains(x) == (t.to_multiset().count(x) > 0));
        assert(s.contains(x) == (s.to_multiset().count(x) > 0));
    }
    assert(t.to_set() =~= s.to_set());
}

/// Two sequences without duplicates of one set have the same elements equally often.
pub proof fn lemma_distinct_same_set<T>(a: Seq<T>, b: Seq<T>)
    requires
        a.no_duplicates(),
        b.no_duplicates(),
        a.to_set() == b.to_set(),
    ensures
        a.to_multiset() == b.to_multiset(),
{
    broadcast use vstd::seq_lib::group_to_multiset_ensures;

    a.lemma_multiset_has_no_duplicates();
    b.lemma_multiset_has_no_duplicates();
    assert forall|x: T| a.to_multiset().count(x) == b.to_multiset().count(x) by {
        assert(a.to_set().contains(x) == a.contains(x));
        assert(b.to_set().contains(x) == b.contains(x));
        assert(a.contains(x) == (a.to_multiset().count(x) > 0));
        assert(b.contains(x) == (b.to_multiset().count(x) > 0));
        if a.contains(x) {
            assert(a.to_multiset().contains(x));
            assert(b.to_multiset().contains(x));
        }
    }
    assert(a.to_multiset() =~= b.to_multiset());
}

/// Filtering keeps of each element as many as there were, or none.
pub proof fn lemma_filter_multiset<T>(s: Seq<T>, keep: spec_fn(T) -> bool)
    ensures
        s.filter(keep).to_multiset() == s.to_multiset().filter(keep),
    decreases s.len(),
{
    broadcast use vstd::seq_lib::group_to_multiset_ensures;
    broadcast use vstd::multiset::group_multiset_axioms;

    reveal(Seq::filter);
    if s.len() == 0 {
        assert(s.filter(keep).to_multiset() =~= s.to_multiset().filter(keep));
    } else {
        let d = s.drop_last();
        lemma_filter_multiset(d, keep);
        assert(d.push(s.last()) == s);
        assert(s.filter(keep).to_multiset() =~= s.to_multiset().filter(keep));
    }
}

/// Whether `a` comes no later than `b` in code point order.
pub fn text_in_order(a: &Vec<char>, b: &Vec<char>) -> (r: bool)
    ensures
        r == text_le(a@, b@),
{
    let mut i: usize = 0;
    assert(a@.skip(0) == a@);
    assert(b@.skip(0) == b@);
    while i < a.len()
        invariant
            i <= a@.len(),
            i <= b@.len(),
            text_le(a@, b@) == text_le(a@.skip(i as int), b@.skip(i as int)),
        decreases a@.len() - i,
    {
        if i == b.len() {
            return false;
        }
        if a[i] != b[i] {
            return a[i] < b[i];
        }
        assert(a@.skip(i as int).drop_first() == a@.skip(i + 1));
        assert(b@.skip(i as int).drop_first() == b@.skip(i + 1));
        i = i + 1;
    }
    true
}

/// The texts in code point order.
pub fn sort_texts(v: &Vec<Vec<char>>) -> (r: Vec<Vec<char>>)
    ensures
        text::rows(r@) == sorted_texts(text::rows(v@)),
{
    let mut out: Vec<Vec<char>> = Vec::new();
    for i in 0..v.len()
        invariant
            text::rows(out@) == sorted_texts(text::rows(v@).take(i as int)),
    {
        let x = &v[i];
        let mut k: usize = out.len();
        while k > 0 && !text_in_order(&out[k - 1], x)
            invariant
                k <= out@.len(),
                forall|j: int| k <= j < out@.len() ==> !text_le(#[trigger] out@[j]@, x@),
            decreases k,
        {
            k = k - 1;
        }
        let copy = text::piece(x, 0, x.len());
        proof {
            let all = text::rows(v@);
            let before = text::rows(out@);
            assert(copy@ == x@);
            assert forall|j: int| k <= j < before.len() implies !by_text()(
                #[trigger] before[j],
                x@,
            ) by {
                assert(before[j] == out@[j]@);
            }
            lemma_insert_at(before, x@, by_text(), k as int);
            assert(all.take(i + 1).drop_last() == all.take(i as int));
            assert(text::rows(out@.insert(k as int, copy)) == before.insert(k as int, x@));
        }
        out.insert(k, copy);
    }
    assert(text::rows(v@).take(v@.len() as int) == text::rows(v@));
    out
}

/// The texts in code point order, as strings.
pub fn sorted_strings(v: &Vec<Vec<char>>) -> (r: Vec<String>)
    ensures
        text::texts(r@) == sorted_texts(text::rows(v@)),
{
    let sorted = sort_texts(v);
    let ghost want = sorted_texts(text::rows(v@));
    let mut out: Vec<String> = Vec::new();
    for i in 0..sorted.len()
        invariant
            text::rows(sorted@) == want,
            text::texts(out@) == want.take(i as int),
    {
        let ghost so_far = out@;
        out.push(text::string_of(&sorted[i]));
        assert(want[i as int] == sorted@[i as int]@);
        assert(text::texts(out@) =~= text::texts(so_far).push(want[i as int]));
        assert(want.take(i + 1) =~= want.take(i as int).push(want[i as int]));
    }
    assert(want.take(want.len() as int) == want);
    out
}

/// One text comes no later than another where it is the start of it, or where it has the lower code
/// point at the first place at which they differ.
#[verifier::rlimit(40)]
pub proof fn law_texts_are_in_code_point_order(a: Seq<char>, b: Seq<char>)
    ensures
        text_le(a, b) <==> a.is_prefix_of(b) || exists|k: int|
            0 <= k < a.len() && k < b.len() && #[trigger] a.take(k) == b.take(k) && a[k] < b[k],
    decreases a.len(),
{
    if a.len() == 0 {
        assert(a.is_prefix_of(b)) by {
            assert(b.subrange(0, 0) =~= a);
        }
    } else if b.len() > 0 {
        let (x, y) = (a.drop_first(), b.drop_first());
        law_texts_are_in_code_point_order(x, y);
        if a[0] == b[0] {
            assert(x.is_prefix_of(y) <==> a.is_prefix_of(b)) by {
                if x.is_prefix_of(y) {
                    assert forall|i: int| 0 <= i < a.len() implies a[i] == b[i] by {
                        if i > 0 {
                            assert(x[i - 1] == y[i - 1]);
                        }
                    }
                    assert(a =~= b.subrange(0, a.len() as int));
                }
                if a.is_prefix_of(b) {
                    assert(x =~= y.subrange(0, x.len() as int));
                }
            }
            if exists|k: int|
                0 <= k < x.len() && k < y.len() && #[trigger] x.take(k) == y.take(k) && x[k] < y[k] {
                let k = choose|k: int|
                    0 <= k < x.len() && k < y.len() && #[trigger] x.take(k) == y.take(k) && x[k] < y[k];
                assert(a.take(k + 1) =~= seq![a[0]] + x.take(k));
                assert(b.take(k + 1) =~= seq![b[0]] + y.take(k));
                assert(a.take(k + 1) == b.take(k + 1));
            }
            if exists|k: int|
                0 <= k < a.len() && k < b.len() && #[trigger] a.take(k) == b.take(k) && a[k] < b[k] {
                let k = choose|k: int|
                    0 <= k < a.len() && k < b.len() && #[trigger] a.take(k) == b.take(k) && a[k] < b[k];
                assert(x.take(k - 1) =~= a.take(k).drop_first());
                assert(y.take(k - 1) =~= b.take(k).drop_first());
                assert(x.take(k - 1) == y.take(k - 1));
            }
        } else {
            assert(!a.is_prefix_of(b));
            if a[0] < b[0] {
                assert(a.take(0) =~= b.take(0));
            }
            if exists|k: int|
                0 <= k < a.len() && k < b.len() && #[trigger] a.take(k) == b.take(k) && a[k] < b[k] {
                let k = choose|k: int|
                    0 <= k < a.len() && k < b.len() && #[trigger] a.take(k) == b.take(k) && a[k] < b[k];
                if k > 0 {
                    assert(a.take(k)[0] == b.take(k)[0]);
                }
            }
        }
    }
}

/// Sorting texts loses none and adds none, and puts each before those it comes before.
pub proof fn law_sorted_texts_are_the_texts_in_order(s: Seq<Seq<char>>)
    ensures
        sorted_texts(s).to_multiset() == s.to_multiset(),
        forall|i: int, j: int|
            0 <= i < j < sorted_texts(s).len() ==> text_le(
                #[trigger] sorted_texts(s)[i],
                #[trigger] sorted_texts(s)[j],
            ),
{
    lemma_text_order();
    lemma_sort_multiset(s, by_text());
    lemma_sort_sorted(s, by_text());
    let t = sorted_texts(s);
    assert forall|i: int, j: int| 0 <= i < j < t.len() implies text_le(
        #[trigger] t[i],
        #[trigger] t[j],
    ) by {
        assert(by_text()(t[i], t[j]));
    }
}

/// A sort keeps what it sorts, puts it in order, and leaves what is in order as it is.
pub proof fn law_sorts_are_stable_arrangements<T>(s: Seq<T>, le: spec_fn(T, T) -> bool)
    requires
        forall|a: T, b: T, c: T| #[trigger] le(a, b) && #[trigger] le(b, c) ==> le(a, c),
        forall|a: T, b: T| #[trigger] le(a, b) || le(b, a),
    ensures
        sort_by(s, le).to_multiset() == s.to_multiset(),
        forall|i: int, j: int|
            0 <= i < j < sort_by(s, le).len() ==> le(
                #[trigger] sort_by(s, le)[i],
                #[trigger] sort_by(s, le)[j],
            ),
        (forall|i: int, j: int| 0 <= i < j < s.len() ==> le(#[trigger] s[i], #[trigger] s[j]))
            ==> sort_by(s, le) == s,
{
    lemma_sort_multiset(s, le);
    lemma_sort_sorted(s, le);
    if forall|i: int, j: int| 0 <= i < j < s.len() ==> le(#[trigger] s[i], #[trigger] s[j]) {
        lemma_sort_of_sorted(s, le);
    }
}

/// A sort is stable: those that come as early as `x` and as late stand in the order they had.
pub proof fn law_sorts_keep_equals_in_order<T>(s: Seq<T>, le: spec_fn(T, T) -> bool, x: T)
    requires
        forall|a: T, b: T, c: T| #[trigger] le(a, b) && #[trigger] le(b, c) ==> le(a, c),
    ensures
        sort_by(s, le).filter(|y: T| le(x, y) && le(y, x)) == s.filter(
            |y: T| le(x, y) && le(y, x),
        ),
    decreases s.len(),
{
    reveal(Seq::filter);
    let same = |y: T| le(x, y) && le(y, x);
    if s.len() > 0 {
        let d = s.drop_last();
        law_sorts_keep_equals_in_order(d, le, x);
        let t = sort_by(d, le);
        lemma_insert_keeps_equals(t, s.last(), le, x);
        assert(t.push(s.last()).drop_last() =~= t);
        assert(t.filter(same) == d.filter(same));
        assert(t.push(s.last()).filter(same) == s.filter(same));
    }
}

proof fn lemma_insert_keeps_equals<T>(s: Seq<T>, y: T, le: spec_fn(T, T) -> bool, x: T)
    requires
        forall|a: T, b: T, c: T| #[trigger] le(a, b) && #[trigger] le(b, c) ==> le(a, c),
    ensures
        insert_by(s, y, le).filter(|z: T| le(x, z) && le(z, x)) == s.push(y).filter(
            |z: T| le(x, z) && le(z, x),
        ),
    decreases s.len(),
{
    reveal(Seq::filter);
    let same = |z: T| le(x, z) && le(z, x);
    if s.len() == 0 {
        assert(seq![y] =~= s.push(y));
    } else if !le(s.last(), y) {
        let d = s.drop_last();
        lemma_insert_keeps_equals(d, y, le, x);
        let r = insert_by(s, y, le);
        assert(r.drop_last() =~= insert_by(d, y, le));
        assert(r.last() == s.last());
        assert(s.push(y).drop_last() =~= s);
        assert(d.push(y).drop_last() =~= d);
        assert(!(same(y) && same(s.last()))) by {
            if same(y) && same(s.last()) {
                assert(le(s.last(), x) && le(x, y));
            }
        }
        assert(r.drop_last().filter(same) == d.push(y).filter(same));
        assert(d.push(y).filter(same) == if same(y) {
            d.filter(same).push(y)
        } else {
            d.filter(same)
        });
        assert(s.filter(same) == if same(s.last()) {
            d.filter(same).push(s.last())
        } else {
            d.filter(same)
        });
        assert(r.filter(same) == if same(s.last()) {
            r.drop_last().filter(same).push(s.last())
        } else {
            r.drop_last().filter(same)
        });
    } else {
        assert(insert_by(s, y, le) =~= s.push(y));
    }
}

/// Texts are sorted in code point order, none lost and none added.
pub proof fn law_strings_are_sorted(v: &Vec<Vec<char>>, r: Vec<String>, a: &Vec<char>, b: &Vec<char>, le: bool)
    requires
        call_ensures(sorted_strings, (v,), r),
        call_ensures(text_in_order, (a, b), le),
    ensures
        text::texts(r@).to_multiset() == text::rows(v@).to_multiset(),
        forall|i: int, j: int|
            0 <= i < j < r@.len() ==> text_le((#[trigger] r@[i])@, (#[trigger] r@[j])@),
        le <==> a@.is_prefix_of(b@) || exists|k: int|
            0 <= k < a@.len() && k < b@.len() && #[trigger] a@.take(k) == b@.take(k) && a@[k]
                < b@[k],
{
    law_sorted_texts_are_the_texts_in_order(text::rows(v@));
    law_texts_are_in_code_point_order(a@, b@);
    let t = text::texts(r@);
    assert(t == sorted_texts(text::rows(v@)));
    assert forall|i: int, j: int| 0 <= i < j < r@.len() implies text_le(
        (#[trigger] r@[i])@,
        (#[trigger] r@[j])@,
    ) by {
        assert(t[i] == r@[i]@ && t[j] == r@[j]@);
    }
}

/// Rows of characters are sorted in code point order, none lost and none added.
pub proof fn law_rows_are_sorted(v: &Vec<Vec<char>>, r: Vec<Vec<char>>)
    requires
        call_ensures(sort_texts, (v,), r),
    ensures
        text::rows(r@).to_multiset() == text::rows(v@).to_multiset(),
        forall|i: int, j: int|
            0 <= i < j < r@.len() ==> text_le((#[trigger] r@[i])@, (#[trigger] r@[j])@),
{
    law_sorted_texts_are_the_texts_in_order(text::rows(v@));
    let t = text::rows(r@);
    assert(t == sorted_texts(text::rows(v@)));
    assert forall|i: int, j: int| 0 <= i < j < r@.len() implies text_le(
        (#[trigger] r@[i])@,
        (#[trigger] r@[j])@,
    ) by {
        assert(t[i] == r@[i]@ && t[j] == r@[j]@);
    }
}

} // verus!
