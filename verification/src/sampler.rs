//! The sampling profiler's bookkeeping: which return addresses a stack holds, how often functions
//! are hit, and which call chains lead to one.

use crate::order;
use crate::text;
use crate::text_map;
use crate::text_map::TextMap;
use crate::text_set::TextSet;
use vstd::prelude::*;

verus! {

/// The most frames of a stack that are kept.
pub const DEPTH: usize = 32;

/// The most stacks that are kept.
pub const MAX_SAMPLES: usize = 400_000;

/// How many rows of a ranking are shown.
pub const SHOWN_ROWS: usize = 45;

/// How many characters of a function's name are shown.
pub const SHOWN_NAME: usize = 150;

/// How many frames of a call chain are shown, and how much of each name.
pub const CHAIN_FRAMES: usize = 8;

pub const CHAIN_NAME: usize = 70;

/// How many call chains are shown.
pub const SHOWN_CHAINS: usize = 12;

/// Whether unwinding goes on: there is an instruction, and the stack pointer has a return address
/// within the stack's limits.
pub fn goes_on(ip: u64, sp: u64, low: u64, high: u64) -> (r: bool)
    ensures
        r == (ip != 0 && low <= sp && sp + 8 <= high),
{
    ip != 0 && sp >= low && high >= 8 && sp <= high - 8
}

/// Whether sampling goes on.
pub fn samples_on(stopped: bool, taken: usize) -> (r: bool)
    ensures
        r == (!stopped && taken < MAX_SAMPLES),
{
    !stopped && taken < MAX_SAMPLES
}

/// How many frames of a stack are filled: those before the first zero.
pub open spec fn filled(stack: Seq<u64>) -> nat
    decreases stack.len(),
{
    if stack.len() == 0 || stack[0] == 0 {
        0
    } else {
        filled(stack.drop_first()) + 1
    }
}

/// The addresses by which a stack's frames are named. A return address points behind its call, so
/// all but the innermost step back into it.
pub open spec fn addresses(stack: Seq<u64>) -> Seq<int> {
    Seq::new(
        filled(stack),
        |i: int|
            if i == 0 {
                stack[0] as int
            } else {
                stack[i] - 1
            },
    )
}

/// The frames that are filled are not zero, and the one behind them is.
pub proof fn lemma_filled(stack: Seq<u64>)
    ensures
        filled(stack) <= stack.len(),
        forall|i: int| 0 <= i < filled(stack) ==> stack[i] != 0,
        filled(stack) < stack.len() ==> stack[filled(stack) as int] == 0,
    decreases stack.len(),
{
    if stack.len() > 0 && stack[0] != 0 {
        let rest = stack.drop_first();
        lemma_filled(rest);
        assert forall|i: int| 0 <= i < filled(stack) implies stack[i] != 0 by {
            if i > 0 {
                assert(rest[i - 1] != 0);
            }
        }
    }
}

/// The addresses by which a stack's frames are named.
pub fn frame_addresses(stack: &Vec<u64>) -> (r: Vec<u64>)
    ensures
        r@.map_values(|a: u64| a as int) == addresses(stack@),
{
    let mut out: Vec<u64> = Vec::new();
    let mut i: usize = 0;
    proof {
        lemma_filled(stack@);
    }
    while i < stack.len() && stack[i] != 0
        invariant
            i <= filled(stack@) <= stack@.len(),
            forall|k: int| 0 <= k < filled(stack@) ==> stack@[k] != 0,
            filled(stack@) < stack@.len() ==> stack@[filled(stack@) as int] == 0,
            out@.len() == i,
            forall|k: int| 0 <= k < i ==> #[trigger] out@[k] as int == addresses(stack@)[k],
        decreases stack@.len() - i,
    {
        if i == 0 {
            out.push(stack[i]);
        } else {
            out.push(stack[i] - 1);
        }
        i = i + 1;
    }
    assert(out@.map_values(|a: u64| a as int) =~= addresses(stack@));
    out
}

/// How many of the lists have `label`.
pub open spec fn count_in(lists: Seq<Seq<Seq<char>>>, label: Seq<char>) -> nat
    decreases lists.len(),
{
    if lists.len() == 0 {
        0
    } else {
        count_in(lists.drop_last(), label) + if lists.last().contains(label) {
            1nat
        } else {
            0nat
        }
    }
}

/// The views of lists of texts.
pub open spec fn list_views(lists: Seq<Vec<String>>) -> Seq<Seq<Seq<char>>> {
    Seq::new(lists.len(), |i: int| text::texts(lists[i]@))
}

/// Whether `counts` has each label that some list has, with the number of lists that have it.
pub open spec fn counts_lists(counts: Map<Seq<char>, usize>, lists: Seq<Seq<Seq<char>>>) -> bool {
    forall|label: Seq<char>|
        #![trigger counts.contains_key(label)]
        #![trigger count_in(lists, label)]
        (counts.contains_key(label) <==> count_in(lists, label) > 0) && (counts.contains_key(label)
            ==> counts[label] == count_in(lists, label))
}

proof fn lemma_count_bound(lists: Seq<Seq<Seq<char>>>, label: Seq<char>)
    ensures
        count_in(lists, label) <= lists.len(),
    decreases lists.len(),
{
    if lists.len() > 0 {
        lemma_count_bound(lists.drop_last(), label);
    }
}

/// One more occurrence of `label`.
fn add_one(counts: &mut TextMap<usize>, label: &String)
    requires
        old(counts)@.contains_key(label@) ==> old(counts)@[label@] < usize::MAX,
    ensures
        final(counts)@ == old(counts)@.insert(
            label@,
            if old(counts)@.contains_key(label@) {
                (old(counts)@[label@] + 1) as usize
            } else {
                1
            },
        ),
{
    let n: usize = match counts.get(label.as_str()) {
        Some(n) => *n + 1,
        None => 1,
    };
    counts.set(label.clone(), n);
}

/// How many of the lists have each label; a label that a list has twice counts once for it.
pub fn tally(lists: &Vec<Vec<String>>) -> (r: TextMap<usize>)
    ensures
        counts_lists(r@, list_views(lists@)),
{
    let ghost all = list_views(lists@);
    let mut counts: TextMap<usize> = TextMap::new();
    for i in 0..lists.len()
        invariant
            all == list_views(lists@),
            counts_lists(counts@, all.take(i as int)),
    {
        let list = &lists[i];
        let ghost done = all.take(i as int);
        let ghost mine = text::texts(list@);
        let ghost start = counts@;
        let mut seen = TextSet::new();
        proof {
            assert(all[i as int] == mine);
            assert(mine.take(0).to_set() =~= Set::<Seq<char>>::empty());
        }
        for j in 0..list.len()
            invariant
                i < usize::MAX,
                done.len() == i,
                mine == text::texts(list@),
                counts_lists(start, done),
                seen@ == mine.take(j as int).to_set(),
                forall|label: Seq<char>|
                    #![trigger counts@.contains_key(label)]
                    (counts@.contains_key(label) <==> (start.contains_key(label) || mine.take(
                        j as int,
                    ).contains(label))) && (counts@.contains_key(label) ==> counts@[label]
                        == count_in(done, label) + if mine.take(j as int).contains(label) {
                        1nat
                    } else {
                        0nat
                    }),
        {
            let label = &list[j];
            let ghost before = mine.take(j as int);
            let ghost now = mine.take(j + 1);
            proof {
                assert(now =~= before.push(label@));
                assert forall|x: Seq<char>| now.contains(x) <==> (before.contains(x) || x
                    == label@) by {
                    lemma_push_contains(before, label@, x);
                }
                assert(now.to_set() =~= before.to_set().insert(label@));
                assert(seen@.contains(label@) == before.contains(label@));
                lemma_count_bound(done, label@);
                assert(start.contains_key(label@) <==> count_in(done, label@) > 0);
            }
            if !seen.contains(label.as_str()) {
                seen.insert(label.clone());
                let ghost was = counts@;
                proof {
                    assert(was.contains_key(label@) <==> start.contains_key(label@));
                }
                add_one(&mut counts, label);
            } else {
                assert(before.to_set().insert(label@) =~= before.to_set());
            }
        }
        proof {
            assert(mine.take(list@.len() as int) =~= mine);
            assert(all.take(i + 1).drop_last() =~= done);
            assert(all.take(i + 1).last() == mine);
            assert forall|label: Seq<char>|
                #![trigger counts@.contains_key(label)]
                #![trigger count_in(all.take(i + 1), label)]
                (counts@.contains_key(label) <==> count_in(all.take(i + 1), label) > 0) && (
                counts@.contains_key(label) ==> counts@[label] == count_in(
                    all.take(i + 1),
                    label,
                )) by {
                assert(start.contains_key(label) <==> count_in(done, label) > 0);
                assert(counts@.contains_key(label) <==> (start.contains_key(label)
                    || mine.contains(label)));
            }
        }
    }
    assert(all.take(all.len() as int) =~= all);
    counts
}

proof fn lemma_push_contains(s: Seq<Seq<char>>, x: Seq<char>, y: Seq<char>)
    ensures
        s.push(x).contains(y) <==> (s.contains(y) || y == x),
{
    if s.contains(y) {
        let k = s.index_of(y);
        assert(s.push(x)[k] == y);
    }
    if s.push(x).contains(y) {
        let k = s.push(x).index_of(y);
        if k < s.len() {
            assert(s[k] == y);
        }
    }
    assert(s.push(x)[s.len() as int] == x);
}

/// A row of a ranking: a label and how often it was hit.
pub open spec fn row_views(rows: Seq<(String, usize)>) -> Seq<(Seq<char>, usize)> {
    Seq::new(rows.len(), |i: int| (rows[i].0@, rows[i].1))
}

/// Whether rows list what `counts` holds, each label once, the most hit first.
pub open spec fn ranks(rows: Seq<(Seq<char>, usize)>, counts: Map<Seq<char>, usize>) -> bool {
    &&& forall|i: int, j: int|
        0 <= i < j < rows.len() ==> (#[trigger] rows[i]).1 >= (#[trigger] rows[j]).1 && rows[i].0
            != rows[j].0
    &&& forall|i: int|
        0 <= i < rows.len() ==> counts.contains_key((#[trigger] rows[i]).0)
            && counts[rows[i].0] == rows[i].1
    &&& forall|label: Seq<char>| #[trigger]
        counts.contains_key(label) ==> rows.contains((label, counts[label]))
}

/// Whether rows list every label that some list has, once, with the number of lists that have it,
/// the most hit first.
pub open spec fn ranking(rows: Seq<(Seq<char>, usize)>, lists: Seq<Seq<Seq<char>>>) -> bool {
    &&& forall|i: int, j: int|
        0 <= i < j < rows.len() ==> (#[trigger] rows[i]).1 >= (#[trigger] rows[j]).1 && rows[i].0
            != rows[j].0
    &&& forall|i: int|
        0 <= i < rows.len() ==> (#[trigger] rows[i]).1 > 0 && rows[i].1 == count_in(
            lists,
            rows[i].0,
        )
    &&& forall|label: Seq<char>| #[trigger]
        count_in(lists, label) > 0 ==> exists|i: int|
            0 <= i < rows.len() && (#[trigger] rows[i]).0 == label
}

proof fn lemma_ranking(
    rows: Seq<(Seq<char>, usize)>,
    counts: Map<Seq<char>, usize>,
    lists: Seq<Seq<Seq<char>>>,
)
    requires
        ranks(rows, counts),
        counts_lists(counts, lists),
    ensures
        ranking(rows, lists),
{
    assert forall|label: Seq<char>| #[trigger] count_in(lists, label) > 0 implies exists|i: int|
        0 <= i < rows.len() && (#[trigger] rows[i]).0 == label by {
        assert(counts.contains_key(label));
        let x = (label, counts[label]);
        assert(rows.contains(x));
        let i = rows.index_of(x);
        assert(rows[i].0 == label);
    }
}

/// The most hit first.
pub open spec fn by_count() -> spec_fn((Seq<char>, usize), (Seq<char>, usize)) -> bool {
    |a: (Seq<char>, usize), b: (Seq<char>, usize)| a.1 >= b.1
}

/// What is held, the most hit first.
pub fn rank(counts: &TextMap<usize>) -> (r: Vec<(String, usize)>)
    ensures
        ranks(row_views(r@), counts@),
{
    let n: usize = counts.len();
    let ghost e = counts.entries();
    let mut out: Vec<(String, usize)> = Vec::new();
    assert(row_views(out@) =~= order::sort_by(e.take(0), by_count()));
    for i in 0..n
        invariant
            n == e.len(),
            e == counts.entries(),
            text_map::distinct_keys(e),
            text_map::pairs_map(e) == counts@,
            row_views(out@) == order::sort_by(e.take(i as int), by_count()),
    {
        let (name, hits) = counts.entry(i);
        let hits: usize = *hits;
        let mut k: usize = out.len();
        while k > 0 && out[k - 1].1 < hits
            invariant
                k <= out@.len(),
                forall|j: int| k <= j < out@.len() ==> (#[trigger] out@[j]).1 < hits,
            decreases k,
        {
            k = k - 1;
        }
        proof {
            let before = row_views(out@);
            assert forall|j: int| k <= j < before.len() implies !by_count()(
                #[trigger] before[j],
                e[i as int],
            ) by {
                assert(out@[j].1 < hits);
            }
            order::lemma_insert_at(before, e[i as int], by_count(), k as int);
            assert(e.take(i + 1).drop_last() =~= e.take(i as int));
            assert(row_views(out@.insert(k as int, (*name, hits))) =~= before.insert(
                k as int,
                e[i as int],
            ));
        }
        let row = (name.clone(), hits);
        let ghost was = out@;
        out.insert(k, row);
        assert(row_views(out@) =~= row_views(was).insert(k as int, e[i as int]));
    }
    proof {
        assert(e.take(n as int) =~= e);
        lemma_ranked(e, counts@);
    }
    out
}

/// Sorting what a map holds by count ranks it.
proof fn lemma_ranked(e: Seq<(Seq<char>, usize)>, counts: Map<Seq<char>, usize>)
    requires
        text_map::distinct_keys(e),
        text_map::pairs_map(e) == counts,
    ensures
        ranks(order::sort_by(e, by_count()), counts),
{
    broadcast use vstd::seq_lib::group_to_multiset_ensures;

    let le = by_count();
    let rows = order::sort_by(e, le);
    order::lemma_sort_sorted(e, le);
    assert(e.no_duplicates()) by {
        assert forall|i: int, j: int| 0 <= i < e.len() && 0 <= j < e.len() && i != j implies e[i]
            != e[j] by {
            if i < j {
                assert(e[i].0 != e[j].0);
            } else {
                assert(e[j].0 != e[i].0);
            }
        }
    }
    order::lemma_sort_keeps_distinct(e, le);
    order::lemma_sort_multiset(e, le);
    assert forall|x: (Seq<char>, usize)| rows.contains(x) <==> e.contains(x) by {
        assert(rows.to_set().contains(x) == e.to_set().contains(x));
        assert(rows.to_set().contains(x) == rows.contains(x));
        assert(e.to_set().contains(x) == e.contains(x));
    }
    assert forall|i: int| 0 <= i < rows.len() implies counts.contains_key((#[trigger] rows[i]).0)
        && counts[rows[i].0] == rows[i].1 by {
        assert(rows.contains(rows[i]));
        let k = e.index_of(rows[i]);
        assert(e[k] == rows[i]);
        text_map::lemma_pairs_at(e, k);
    }
    assert forall|i: int, j: int| 0 <= i < j < rows.len() implies (#[trigger] rows[i]).1 >= (
    #[trigger] rows[j]).1 && rows[i].0 != rows[j].0 by {
        assert(le(rows[i], rows[j]));
        if rows[i].0 == rows[j].0 {
            assert(counts[rows[i].0] == rows[i].1);
            assert(counts[rows[j].0] == rows[j].1);
            assert(rows[i] == rows[j]);
        }
    }
    assert forall|label: Seq<char>| #[trigger] counts.contains_key(label) implies rows.contains(
        (label, counts[label]),
    ) by {
        lemma_key_has_pair(e, label);
        let k = choose|k: int| 0 <= k < e.len() && (#[trigger] e[k]).0 == label;
        text_map::lemma_pairs_at(e, k);
        assert(e[k] == (label, counts[label]));
        assert(e.contains(e[k]));
    }
}

proof fn lemma_key_has_pair(e: Seq<(Seq<char>, usize)>, label: Seq<char>)
    requires
        text_map::pairs_map(e).contains_key(label),
    ensures
        exists|k: int| 0 <= k < e.len() && (#[trigger] e[k]).0 == label,
    decreases e.len(),
{
    if e.len() > 0 {
        if e.last().0 == label {
            assert(e[e.len() - 1].0 == label);
        } else {
            lemma_key_has_pair(e.drop_last(), label);
            let k = choose|k: int|
                0 <= k < e.drop_last().len() && (#[trigger] e.drop_last()[k]).0 == label;
            assert(e[k].0 == label);
        }
    }
}

/// At most the first `n` of a sequence.
pub open spec fn at_most<T>(s: Seq<T>, n: nat) -> Seq<T> {
    if s.len() <= n {
        s
    } else {
        s.take(n as int)
    }
}

/// At most the first `n` characters of a name.
pub fn shortened(name: &str, n: usize) -> (r: String)
    ensures
        r@ == at_most(name@, n as nat),
{
    let cs = text::chars_of(name);
    if cs.len() <= n {
        return name.to_owned();
    }
    let r = text::string_of(&text::piece(&cs, 0, n));
    assert(r@ =~= name@.take(n as int));
    r
}

/// The innermost function of each stack, as a list of at most one.
pub open spec fn innermost_of(stacks: Seq<Seq<Seq<char>>>) -> Seq<Seq<Seq<char>>> {
    Seq::new(stacks.len(), |i: int| at_most(stacks[i], 1))
}

/// The innermost function of each stack.
fn innermost(stacks: &Vec<Vec<String>>) -> (r: Vec<Vec<String>>)
    ensures
        list_views(r@) == innermost_of(list_views(stacks@)),
{
    let ghost all = list_views(stacks@);
    let ghost want = innermost_of(all);
    let mut out: Vec<Vec<String>> = Vec::new();
    for i in 0..stacks.len()
        invariant
            all == list_views(stacks@),
            want == innermost_of(all),
            list_views(out@) == want.take(i as int),
    {
        let stack = &stacks[i];
        let mut first: Vec<String> = Vec::new();
        if stack.len() > 0 {
            first.push(stack[0].clone());
        }
        proof {
            assert(all[i as int] == text::texts(stack@));
            assert(text::texts(first@) =~= want[i as int]);
        }
        let ghost was = out@;
        out.push(first);
        assert(list_views(out@) =~= list_views(was).push(want[i as int]));
        assert(want.take(i + 1) =~= want.take(i as int).push(want[i as int]));
    }
    assert(want.take(want.len() as int) =~= want);
    out
}

/// In how many stacks each function is the innermost, the most often hit first.
pub fn self_time(stacks: &Vec<Vec<String>>) -> (r: Vec<(String, usize)>)
    ensures
        ranking(row_views(r@), innermost_of(list_views(stacks@))),
{
    let counts = tally(&innermost(stacks));
    let rows = rank(&counts);
    proof {
        lemma_ranking(row_views(rows@), counts@, innermost_of(list_views(stacks@)));
    }
    rows
}

/// In how many stacks each function is anywhere, the most often hit first.
pub fn inclusive_time(stacks: &Vec<Vec<String>>) -> (r: Vec<(String, usize)>)
    ensures
        ranking(row_views(r@), list_views(stacks@)),
{
    let counts = tally(stacks);
    let rows = rank(&counts);
    proof {
        lemma_ranking(row_views(rows@), counts@, list_views(stacks@));
    }
    rows
}

/// The innermost frame whose name contains `focus`; the length of the stack when there is none.
pub open spec fn focus_at(stack: Seq<Seq<char>>, focus: Seq<char>) -> int
    decreases stack.len(),
{
    if stack.len() == 0 {
        0
    } else if text::contains_text(stack[0], focus) {
        0
    } else {
        focus_at(stack.drop_first(), focus) + 1
    }
}

/// The call chain of a stack into the first frame that contains `focus`, innermost first.
pub open spec fn chain_of(stack: Seq<Seq<char>>, focus: Seq<char>) -> Option<Seq<char>> {
    let at = focus_at(stack, focus);
    if at < stack.len() {
        let names = at_most(stack.skip(at), CHAIN_FRAMES as nat);
        Some(
            text::join(
                names.map_values(|n: Seq<char>| at_most(n, CHAIN_NAME as nat)),
                "  <-  "@,
            ),
        )
    } else {
        None
    }
}

/// The call chain of a stack as a list of at most one.
pub open spec fn chain_list(stack: Seq<Seq<char>>, focus: Seq<char>) -> Seq<Seq<char>> {
    match chain_of(stack, focus) {
        Some(c) => seq![c],
        None => Seq::empty(),
    }
}

/// The call chains of stacks.
pub open spec fn chains_of(stacks: Seq<Seq<Seq<char>>>, focus: Seq<char>) -> Seq<Seq<Seq<char>>> {
    Seq::new(stacks.len(), |i: int| chain_list(stacks[i], focus))
}

proof fn lemma_focus_at(stack: Seq<Seq<char>>, focus: Seq<char>, i: int)
    requires
        0 <= i <= stack.len(),
        forall|j: int| 0 <= j < i ==> !text::contains_text(#[trigger] stack[j], focus),
    ensures
        focus_at(stack, focus) == focus_at(stack.skip(i), focus) + i,
    decreases i,
{
    if i == 0 {
        assert(stack.skip(0) =~= stack);
    } else {
        let rest = stack.drop_first();
        assert forall|j: int| 0 <= j < i - 1 implies !text::contains_text(
            #[trigger] rest[j],
            focus,
        ) by {
            assert(rest[j] == stack[j + 1]);
        }
        assert(!text::contains_text(stack[0], focus));
        lemma_focus_at(rest, focus, i - 1);
        assert(rest.skip(i - 1) =~= stack.skip(i));
    }
}

/// The call chain of a stack into the first frame that contains `focus`.
fn call_chain(stack: &Vec<String>, focus: &str) -> (r: Option<String>)
    ensures
        match r {
            Some(c) => chain_of(text::texts(stack@), focus@) == Some(c@),
            None => chain_of(text::texts(stack@), focus@) is None,
        },
{
    let ghost all = text::texts(stack@);
    let mark = text::chars_of(focus);
    let mut at: usize = 0;
    while at < stack.len() && !text::has_infix(&text::chars_of(stack[at].as_str()), &mark)
        invariant
            at <= stack@.len(),
            all == text::texts(stack@),
            mark@ == focus@,
            forall|j: int| 0 <= j < at ==> !text::contains_text(#[trigger] all[j], focus@),
        decreases stack@.len() - at,
    {
        assert(all[at as int] == stack@[at as int]@);
        at = at + 1;
    }
    proof {
        lemma_focus_at(all, focus@, at as int);
        if at < all.len() {
            assert(all.skip(at as int)[0] == stack@[at as int]@);
        }
        assert(focus_at(all, focus@) == at);
    }
    if at == stack.len() {
        return None;
    }
    let end: usize = if stack.len() - at > CHAIN_FRAMES {
        at + CHAIN_FRAMES
    } else {
        stack.len()
    };
    let ghost names = at_most(all.skip(at as int), CHAIN_FRAMES as nat);
    let ghost want = names.map_values(|n: Seq<char>| at_most(n, CHAIN_NAME as nat));
    let mut parts: Vec<String> = Vec::new();
    assert(names.len() == end - at);
    for i in at..end
        invariant
            at <= end <= stack@.len(),
            all == text::texts(stack@),
            names == at_most(all.skip(at as int), CHAIN_FRAMES as nat),
            names.len() == end - at,
            want == names.map_values(|n: Seq<char>| at_most(n, CHAIN_NAME as nat)),
            text::texts(parts@) == want.take(i - at),
    {
        let ghost was = parts@;
        parts.push(shortened(stack[i].as_str(), CHAIN_NAME));
        proof {
            assert(names[i - at] == all[i as int]);
            assert(text::texts(parts@) =~= text::texts(was).push(want[i - at]));
            assert(want.take(i + 1 - at) =~= want.take(i - at).push(want[i - at]));
        }
    }
    assert(want.take(end - at) =~= want);
    Some(text::joined_texts(&parts, "  <-  "))
}

/// How many stacks have a frame that contains `focus`, and the call chains into it, the most often
/// hit first.
pub fn callers(stacks: &Vec<Vec<String>>, focus: &str) -> (r: (usize, Vec<(String, usize)>))
    ensures
        r.0 == hits(chains_of(list_views(stacks@), focus@)),
        ranking(row_views(r.1@), chains_of(list_views(stacks@), focus@)),
{
    let ghost all = list_views(stacks@);
    let ghost want = chains_of(all, focus@);
    let mut chains: Vec<Vec<String>> = Vec::new();
    let mut n: usize = 0;
    for i in 0..stacks.len()
        invariant
            all == list_views(stacks@),
            want == chains_of(all, focus@),
            list_views(chains@) == want.take(i as int),
            n <= i,
            n == hits(want.take(i as int)),
    {
        let mut list: Vec<String> = Vec::new();
        proof {
            assert(all[i as int] == text::texts(stacks@[i as int]@));
            assert(want.take(i + 1) =~= want.take(i as int).push(want[i as int]));
            assert(want.take(i + 1).drop_last() =~= want.take(i as int));
        }
        if let Some(c) = call_chain(&stacks[i], focus) {
            n = n + 1;
            list.push(c);
        }
        assert(text::texts(list@) =~= want[i as int]);
        let ghost was = chains@;
        chains.push(list);
        assert(list_views(chains@) =~= list_views(was).push(want[i as int]));
    }
    assert(want.take(want.len() as int) =~= want);
    let counts = tally(&chains);
    let rows = rank(&counts);
    proof {
        lemma_ranking(row_views(rows@), counts@, want);
    }
    (n, rows)
}

/// How many of the lists are not empty.
pub open spec fn hits(lists: Seq<Seq<Seq<char>>>) -> nat
    decreases lists.len(),
{
    if lists.len() == 0 {
        0
    } else {
        hits(lists.drop_last()) + if lists.last().len() > 0 {
            1nat
        } else {
            0nat
        }
    }
}

/// The rows of a ranking that are shown: the first of them, with names cut short.
pub open spec fn shown(rows: Seq<(Seq<char>, usize)>) -> Seq<(Seq<char>, usize)> {
    at_most(rows, SHOWN_ROWS as nat).map_values(
        |r: (Seq<char>, usize)| (at_most(r.0, SHOWN_NAME as nat), r.1),
    )
}

/// The rows of a ranking that are shown.
pub fn shown_rows(rows: &Vec<(String, usize)>) -> (r: Vec<(String, usize)>)
    ensures
        row_views(r@) == shown(row_views(rows@)),
{
    let n: usize = if rows.len() < SHOWN_ROWS {
        rows.len()
    } else {
        SHOWN_ROWS
    };
    let ghost want = shown(row_views(rows@));
    let mut out: Vec<(String, usize)> = Vec::new();
    for i in 0..n
        invariant
            n == want.len(),
            n <= rows@.len(),
            want == shown(row_views(rows@)),
            row_views(out@) == want.take(i as int),
    {
        let ghost was = out@;
        out.push((shortened(rows[i].0.as_str(), SHOWN_NAME), rows[i].1));
        proof {
            assert(want[i as int] == (at_most(rows@[i as int].0@, SHOWN_NAME as nat), rows@[i as int].1));
            assert(row_views(out@) =~= row_views(was).push(want[i as int]));
            assert(want.take(i + 1) =~= want.take(i as int).push(want[i as int]));
        }
    }
    assert(want.take(n as int) =~= want);
    out
}

/// The call chains that are shown: the first of them.
pub fn shown_chains(rows: &Vec<(String, usize)>) -> (r: Vec<(String, usize)>)
    ensures
        row_views(r@) == at_most(row_views(rows@), SHOWN_CHAINS as nat),
{
    let n: usize = if rows.len() < SHOWN_CHAINS {
        rows.len()
    } else {
        SHOWN_CHAINS
    };
    let ghost want = at_most(row_views(rows@), SHOWN_CHAINS as nat);
    let mut out: Vec<(String, usize)> = Vec::new();
    for i in 0..n
        invariant
            n == want.len(),
            n <= rows@.len(),
            want == at_most(row_views(rows@), SHOWN_CHAINS as nat),
            row_views(out@) == want.take(i as int),
    {
        let ghost was = out@;
        out.push((rows[i].0.clone(), rows[i].1));
        proof {
            assert(row_views(out@) =~= row_views(was).push(want[i as int]));
            assert(want.take(i + 1) =~= want.take(i as int).push(want[i as int]));
        }
    }
    assert(want.take(n as int) =~= want);
    out
}

/// How many hits rows have together.
pub open spec fn total(rows: Seq<(Seq<char>, usize)>) -> nat
    decreases rows.len(),
{
    if rows.len() == 0 {
        0
    } else {
        total(rows.drop_last()) + rows.last().1 as nat
    }
}

/// How many of `rows` have a label that is in `list`.
spec fn rows_in(rows: Seq<(Seq<char>, usize)>, list: Seq<Seq<char>>) -> nat
    decreases rows.len(),
{
    if rows.len() == 0 {
        0
    } else {
        rows_in(rows.drop_last(), list) + if list.contains(rows.last().0) {
            1nat
        } else {
            0nat
        }
    }
}

/// How many of the lists have the labels of `rows`, together.
spec fn counts_together(rows: Seq<(Seq<char>, usize)>, lists: Seq<Seq<Seq<char>>>) -> nat
    decreases rows.len(),
{
    if rows.len() == 0 {
        0
    } else {
        counts_together(rows.drop_last(), lists) + count_in(lists, rows.last().0)
    }
}

proof fn lemma_together_step(rows: Seq<(Seq<char>, usize)>, lists: Seq<Seq<Seq<char>>>)
    requires
        lists.len() > 0,
    ensures
        counts_together(rows, lists) == counts_together(rows, lists.drop_last()) + rows_in(
            rows,
            lists.last(),
        ),
    decreases rows.len(),
{
    if rows.len() > 0 {
        lemma_together_step(rows.drop_last(), lists);
    }
}

proof fn lemma_together_none(rows: Seq<(Seq<char>, usize)>, lists: Seq<Seq<Seq<char>>>)
    requires
        lists.len() == 0,
    ensures
        counts_together(rows, lists) == 0,
    decreases rows.len(),
{
    if rows.len() > 0 {
        lemma_together_none(rows.drop_last(), lists);
    }
}

/// Of rows with distinct labels at most one has a given label.
proof fn lemma_rows_in_one(rows: Seq<(Seq<char>, usize)>, list: Seq<Seq<char>>)
    requires
        list.len() <= 1,
        forall|i: int, j: int|
            0 <= i < j < rows.len() ==> (#[trigger] rows[i]).0 != (#[trigger] rows[j]).0,
    ensures
        rows_in(rows, list) == if list.len() > 0 && exists|i: int|
            0 <= i < rows.len() && (#[trigger] rows[i]).0 == list[0] {
            1nat
        } else {
            0nat
        },
    decreases rows.len(),
{
    if rows.len() > 0 {
        let d = rows.drop_last();
        lemma_rows_in_one(d, list);
        let last = rows.len() - 1;
        if list.len() > 0 {
            assert(list.contains(rows[last].0) <==> list[0] == rows[last].0);
            if rows[last].0 == list[0] {
                assert forall|i: int| 0 <= i < d.len() implies (#[trigger] d[i]).0 != list[0] by {
                    assert(rows[i].0 != rows[last].0);
                }
            } else if exists|i: int| 0 <= i < rows.len() && (#[trigger] rows[i]).0 == list[0] {
                let i = choose|i: int| 0 <= i < rows.len() && (#[trigger] rows[i]).0 == list[0];
                assert(d[i].0 == list[0]);
            } else {
                assert forall|i: int| 0 <= i < d.len() implies (#[trigger] d[i]).0 != list[0] by {
                    assert(rows[i].0 != list[0]);
                }
            }
        }
    }
}

/// Lists of at most one label, counted by rows with distinct labels that have them all.
proof fn lemma_together_is_hits(rows: Seq<(Seq<char>, usize)>, lists: Seq<Seq<Seq<char>>>)
    requires
        forall|i: int, j: int|
            0 <= i < j < rows.len() ==> (#[trigger] rows[i]).0 != (#[trigger] rows[j]).0,
        forall|k: int| 0 <= k < lists.len() ==> (#[trigger] lists[k]).len() <= 1,
        forall|k: int|
            0 <= k < lists.len() && (#[trigger] lists[k]).len() > 0 ==> exists|i: int|
                0 <= i < rows.len() && (#[trigger] rows[i]).0 == lists[k][0],
    ensures
        counts_together(rows, lists) == hits(lists),
    decreases lists.len(),
{
    if lists.len() == 0 {
        lemma_together_none(rows, lists);
    } else {
        let d = lists.drop_last();
        assert forall|k: int| 0 <= k < d.len() implies (#[trigger] d[k]).len() <= 1 by {
            assert(lists[k].len() <= 1);
        }
        assert forall|k: int| 0 <= k < d.len() && (#[trigger] d[k]).len() > 0 implies exists|i: int|
            0 <= i < rows.len() && (#[trigger] rows[i]).0 == d[k][0] by {
            assert(lists[k].len() > 0);
        }
        lemma_together_is_hits(rows, d);
        lemma_together_step(rows, lists);
        assert(lists[lists.len() - 1].len() <= 1);
        lemma_rows_in_one(rows, lists.last());
    }
}

proof fn lemma_total_is_together(rows: Seq<(Seq<char>, usize)>, lists: Seq<Seq<Seq<char>>>)
    requires
        forall|i: int| 0 <= i < rows.len() ==> (#[trigger] rows[i]).1 == count_in(lists, rows[i].0),
    ensures
        total(rows) == counts_together(rows, lists),
    decreases rows.len(),
{
    if rows.len() > 0 {
        let d = rows.drop_last();
        assert forall|i: int| 0 <= i < d.len() implies (#[trigger] d[i]).1 == count_in(
            lists,
            d[i].0,
        ) by {
            assert(rows[i].1 == count_in(lists, rows[i].0));
        }
        lemma_total_is_together(d, lists);
        assert(rows[rows.len() - 1].1 == count_in(lists, rows[rows.len() - 1].0));
    }
}

proof fn lemma_all_hit(stacks: Seq<Seq<Seq<char>>>)
    requires
        forall|k: int| 0 <= k < stacks.len() ==> (#[trigger] stacks[k]).len() > 0,
    ensures
        hits(stacks) == stacks.len(),
    decreases stacks.len(),
{
    if stacks.len() > 0 {
        let d = stacks.drop_last();
        assert forall|k: int| 0 <= k < d.len() implies (#[trigger] d[k]).len() > 0 by {
            assert(stacks[k].len() > 0);
        }
        lemma_all_hit(d);
        assert(stacks[stacks.len() - 1].len() > 0);
    }
}

proof fn lemma_hits_innermost(stacks: Seq<Seq<Seq<char>>>)
    ensures
        hits(innermost_of(stacks)) == hits(stacks),
    decreases stacks.len(),
{
    if stacks.len() > 0 {
        lemma_hits_innermost(stacks.drop_last());
        assert(innermost_of(stacks).drop_last() =~= innermost_of(stacks.drop_last()));
    }
}

/// The self counts add up: together they are the number of stacks that have a frame, which is the
/// number of samples where every stack has one.
pub proof fn law_self_counts_add_up(
    rows: Seq<(Seq<char>, usize)>,
    stacks: Seq<Seq<Seq<char>>>,
)
    requires
        ranking(rows, innermost_of(stacks)),
    ensures
        total(rows) == hits(stacks),
        (forall|k: int| 0 <= k < stacks.len() ==> (#[trigger] stacks[k]).len() > 0) ==> total(rows)
            == stacks.len(),
{
    let lists = innermost_of(stacks);
    assert forall|k: int| 0 <= k < lists.len() && (#[trigger] lists[k]).len() > 0 implies exists|
        i: int,
    | 0 <= i < rows.len() && (#[trigger] rows[i]).0 == lists[k][0] by {
        lemma_listed_is_counted(lists, k, lists[k][0]);
    }
    lemma_total_is_together(rows, lists);
    lemma_together_is_hits(rows, lists);
    lemma_hits_innermost(stacks);
    if forall|k: int| 0 <= k < stacks.len() ==> (#[trigger] stacks[k]).len() > 0 {
        lemma_all_hit(stacks);
    }
}

/// A label that some list has is counted.
proof fn lemma_listed_is_counted(lists: Seq<Seq<Seq<char>>>, k: int, label: Seq<char>)
    requires
        0 <= k < lists.len(),
        lists[k].contains(label),
    ensures
        count_in(lists, label) > 0,
    decreases lists.len(),
{
    if k < lists.len() - 1 {
        assert(lists.drop_last()[k] == lists[k]);
        lemma_listed_is_counted(lists.drop_last(), k, label);
    }
}

/// A function is hit inclusively at least as often as it is hit itself.
pub proof fn law_self_time_is_part_of_inclusive_time(
    stacks: Seq<Seq<Seq<char>>>,
    name: Seq<char>,
)
    ensures
        count_in(innermost_of(stacks), name) <= count_in(stacks, name) <= stacks.len(),
    decreases stacks.len(),
{
    let first = innermost_of(stacks);
    lemma_count_bound(stacks, name);
    if stacks.len() > 0 {
        law_self_time_is_part_of_inclusive_time(stacks.drop_last(), name);
        assert(first.drop_last() =~= innermost_of(stacks.drop_last()));
        if first.last().contains(name) {
            assert(first.last()[0] == name);
            assert(stacks.last()[0] == name);
        }
    }
}

/// A stack is filled up to its first zero.
pub proof fn law_stacks_end_at_the_first_zero(stack: Seq<u64>)
    ensures
        filled(stack) <= stack.len(),
        forall|i: int| 0 <= i < filled(stack) ==> #[trigger] stack[i] != 0,
        filled(stack) < stack.len() ==> stack[filled(stack) as int] == 0,
    decreases stack.len(),
{
    if stack.len() > 0 && stack[0] != 0 {
        let rest = stack.drop_first();
        law_stacks_end_at_the_first_zero(rest);
        assert forall|i: int| 0 <= i < filled(stack) implies #[trigger] stack[i] != 0 by {
            if i > 0 {
                assert(stack[i] == rest[i - 1]);
            }
        }
    }
}

/// The innermost address is where the thread stands; every other is a return address, one behind the
/// call that it belongs to.
pub proof fn law_return_addresses_are_of_the_call(stack: Seq<u64>)
    ensures
        addresses(stack).len() == filled(stack),
        filled(stack) > 0 ==> addresses(stack)[0] == stack[0],
        forall|i: int|
            0 < i < filled(stack) ==> #[trigger] addresses(stack)[i] == stack[i] as int - 1,
{
}

/// A label counts once for each list that has it.
pub proof fn law_labels_count_once_a_list(lists: Seq<Seq<Seq<char>>>, label: Seq<char>)
    ensures
        count_in(lists, label) == lists.filter(|l: Seq<Seq<char>>| l.contains(label)).len(),
    decreases lists.len(),
{
    reveal(Seq::filter);
    if lists.len() > 0 {
        law_labels_count_once_a_list(lists.drop_last(), label);
    }
}

/// A ranking has each label that occurs once, with the number of lists that have it, the most
/// frequent first.
#[verifier::rlimit(40)]
pub proof fn law_rankings_count_every_label(
    rows: Seq<(Seq<char>, usize)>,
    lists: Seq<Seq<Seq<char>>>,
    label: Seq<char>,
)
    requires
        ranking(rows, lists),
    ensures
        forall|i: int, j: int|
            0 <= i < j < rows.len() ==> (#[trigger] rows[i]).1 >= (#[trigger] rows[j]).1 && rows[i].0
                != rows[j].0,
        forall|i: int|
            0 <= i < rows.len() && (#[trigger] rows[i]).0 == label ==> rows[i].1 == lists.filter(
                |l: Seq<Seq<char>>| l.contains(label),
            ).len(),
        (exists|k: int| 0 <= k < lists.len() && (#[trigger] lists[k]).contains(label)) <==> exists|
            i: int,
        |
            0 <= i < rows.len() && (#[trigger] rows[i]).0 == label,
{
    law_labels_count_once_a_list(lists, label);
    let keep = |l: Seq<Seq<char>>| l.contains(label);
    if exists|k: int| 0 <= k < lists.len() && (#[trigger] lists[k]).contains(label) {
        let k = choose|k: int| 0 <= k < lists.len() && (#[trigger] lists[k]).contains(label);
        lists.lemma_filter_contains(keep, k);
        assert(lists.filter(keep).contains(lists[k]));
        assert(count_in(lists, label) > 0);
    }
    if exists|i: int| 0 <= i < rows.len() && (#[trigger] rows[i]).0 == label {
        let i = choose|i: int| 0 <= i < rows.len() && (#[trigger] rows[i]).0 == label;
        assert(rows[i].1 > 0);
        let f = lists.filter(keep);
        assert(f.len() > 0);
        lists.lemma_filter_pred(keep, 0);
        assert(f.contains(f[0]));
        lists.lemma_filter_contains_rev(keep, f[0]);
        let k = lists.index_of(f[0]);
        assert(lists[k].contains(label));
    }
}

/// Rows that rank counts have each of them once, the highest first.
pub proof fn law_ranked_rows_are_the_counts(
    rows: Seq<(Seq<char>, usize)>,
    counts: Map<Seq<char>, usize>,
    label: Seq<char>,
    n: usize,
)
    requires
        ranks(rows, counts),
    ensures
        rows.contains((label, n)) <==> counts.contains_key(label) && counts[label] == n,
        rows.no_duplicates(),
        forall|i: int, j: int|
            0 <= i < j < rows.len() ==> (#[trigger] rows[i]).1 >= (#[trigger] rows[j]).1,
{
    if rows.contains((label, n)) {
        let i = rows.index_of((label, n));
        assert(rows[i] == (label, n));
    }
}

/// Counts of lists count how many have each label, and have no other label.
pub proof fn law_counts_are_of_the_lists(
    counts: Map<Seq<char>, usize>,
    lists: Seq<Seq<Seq<char>>>,
    label: Seq<char>,
)
    requires
        counts_lists(counts, lists),
    ensures
        counts.contains_key(label) ==> counts[label] == lists.filter(
            |l: Seq<Seq<char>>| l.contains(label),
        ).len() && counts[label] > 0,
        !counts.contains_key(label) ==> lists.filter(
            |l: Seq<Seq<char>>| l.contains(label),
        ).len() == 0,
{
    law_labels_count_once_a_list(lists, label);
    assert(counts.contains_key(label) <==> count_in(lists, label) > 0);
}

/// What is cut short is its start, as long as there is something left.
pub proof fn law_cuts_keep_the_start<T>(s: Seq<T>, n: nat)
    ensures
        at_most(s, n) == s.take(vstd::math::min(s.len() as int, n as int)),
{
    assert(s.take(s.len() as int) =~= s);
}

/// Self time counts the innermost frame of each stack alone.
pub proof fn law_self_time_is_of_the_innermost_frame(stacks: Seq<Seq<Seq<char>>>, i: int)
    requires
        0 <= i < stacks.len(),
    ensures
        innermost_of(stacks).len() == stacks.len(),
        stacks[i].len() == 0 ==> innermost_of(stacks)[i].len() == 0,
        stacks[i].len() > 0 ==> innermost_of(stacks)[i] == seq![stacks[i][0]],
{
    if stacks[i].len() > 0 {
        assert(innermost_of(stacks)[i] =~= seq![stacks[i][0]]);
    }
}

/// The frame in focus is the innermost whose name holds the focus, anywhere in it.
pub proof fn law_focus_is_on_the_innermost_match(stack: Seq<Seq<char>>, focus: Seq<char>)
    ensures
        0 <= focus_at(stack, focus) <= stack.len(),
        forall|i: int|
            0 <= i < focus_at(stack, focus) ==> !text::contains_text(#[trigger] stack[i], focus),
        focus_at(stack, focus) < stack.len() ==> text::contains_text(
            stack[focus_at(stack, focus)],
            focus,
        ),
    decreases stack.len(),
{
    if stack.len() > 0 && !text::contains_text(stack[0], focus) {
        let rest = stack.drop_first();
        law_focus_is_on_the_innermost_match(rest, focus);
        assert forall|i: int| 0 <= i < focus_at(stack, focus) implies !text::contains_text(
            #[trigger] stack[i],
            focus,
        ) by {
            if i > 0 {
                assert(stack[i] == rest[i - 1]);
            }
        }
    }
}

/// A chain is the frame in focus and its callers, eight names of seventy characters at most, with
/// arrows between them; a stack without the frame has none.
pub proof fn law_chains_are_the_callers_of_the_focus(stack: Seq<Seq<char>>, focus: Seq<char>)
    ensures
        chain_of(stack, focus) is Some <==> focus_at(stack, focus) < stack.len(),
        chain_of(stack, focus) matches Some(c) ==> exists|names: Seq<Seq<char>>|
            c == #[trigger] text::join(names, "  <-  "@) && names.len() == vstd::math::min(
                stack.len() - focus_at(stack, focus),
                8,
            ) && forall|i: int|
                0 <= i < names.len() ==> #[trigger] names[i] == stack[focus_at(stack, focus)
                    + i].take(vstd::math::min(stack[focus_at(stack, focus) + i].len() as int, 70)),
        chain_of(stack, focus) matches Some(c) ==> chain_list(stack, focus) == seq![c],
        chain_of(stack, focus) is None ==> chain_list(stack, focus).len() == 0,
{
    let at = focus_at(stack, focus);
    law_focus_is_on_the_innermost_match(stack, focus);
    if at < stack.len() {
        let cut = |n: Seq<char>| at_most(n, CHAIN_NAME as nat);
        let part = at_most(stack.skip(at), CHAIN_FRAMES as nat);
        let names = part.map_values(cut);
        assert forall|i: int| 0 <= i < names.len() implies #[trigger] names[i] == stack[at + i].take(
            vstd::math::min(stack[at + i].len() as int, 70),
        ) by {
            assert(part[i] == stack[at + i]);
            law_cuts_keep_the_start(stack[at + i], 70);
        }
        assert(chain_of(stack, focus) == Some(text::join(names, "  <-  "@)));
    }
}

/// The stacks that have a frame are counted.
pub proof fn law_hits_are_stacks_with_frames(lists: Seq<Seq<Seq<char>>>)
    ensures
        hits(lists) == lists.filter(|l: Seq<Seq<char>>| l.len() > 0).len(),
    decreases lists.len(),
{
    reveal(Seq::filter);
    if lists.len() > 0 {
        law_hits_are_stacks_with_frames(lists.drop_last());
    }
}

/// Forty-five rows at most are shown, in order, with names of a hundred and fifty characters at most
/// and their counts.
pub proof fn law_shown_rows_are_the_first(rows: Seq<(Seq<char>, usize)>)
    ensures
        shown(rows).len() == vstd::math::min(rows.len() as int, 45),
        forall|i: int|
            0 <= i < shown(rows).len() ==> (#[trigger] shown(rows)[i]).1 == rows[i].1
                && shown(rows)[i].0 == rows[i].0.take(vstd::math::min(rows[i].0.len() as int, 150)),
{
    assert forall|i: int| 0 <= i < shown(rows).len() implies (#[trigger] shown(rows)[i]).1
        == rows[i].1 && shown(rows)[i].0 == rows[i].0.take(
        vstd::math::min(rows[i].0.len() as int, 150),
    ) by {
        law_cuts_keep_the_start(rows[i].0, 150);
    }
}

/// How much is sampled and shown.
pub proof fn law_sizes_of_samples_and_reports()
    ensures
        DEPTH == 32,
        MAX_SAMPLES == 400_000,
        SHOWN_ROWS == 45,
        SHOWN_NAME == 150,
        CHAIN_FRAMES == 8,
        CHAIN_NAME == 70,
        SHOWN_CHAINS == 12,
{
}

/// Each stack has the chain of its frame in focus, and lists and rows are read place by place.
pub proof fn law_chains_stand_at_their_stacks(
    stacks: Seq<Seq<Seq<char>>>,
    focus: Seq<char>,
    lists: Seq<Vec<String>>,
    rows: Seq<(String, usize)>,
    i: int,
)
    ensures
        chains_of(stacks, focus).len() == stacks.len(),
        0 <= i < stacks.len() ==> chains_of(stacks, focus)[i] == chain_list(stacks[i], focus),
        list_views(lists).len() == lists.len(),
        0 <= i < lists.len() ==> list_views(lists)[i] == text::texts(lists[i]@),
        row_views(rows).len() == rows.len(),
        0 <= i < rows.len() ==> row_views(rows)[i] == (rows[i].0@, rows[i].1),
{
}

/// A walk up the stack goes on while there is an address and a whole word of the stack to read.
pub proof fn law_walks_stay_on_the_stack(ip: u64, sp: u64, low: u64, high: u64, r: bool)
    requires
        call_ensures(goes_on, (ip, sp, low, high), r),
    ensures
        r <==> ip != 0 && low <= sp && sp as int + 8 <= high as int,
{
}

/// Sampling goes on until it is stopped or there are four hundred thousand samples.
pub proof fn law_sampling_ends(stopped: bool, taken: usize, r: bool)
    requires
        call_ensures(samples_on, (stopped, taken), r),
    ensures
        r <==> !stopped && taken < 400_000,
{
}

/// Self time and inclusive time count each name by the stacks that end in it and by those that hold
/// it, the most frequent first.
#[verifier::rlimit(40)]
pub proof fn law_times_count_stacks(
    stacks: &Vec<Vec<String>>,
    own: Vec<(String, usize)>,
    inclusive: Vec<(String, usize)>,
    i: int,
)
    requires
        call_ensures(self_time, (stacks,), own),
        call_ensures(inclusive_time, (stacks,), inclusive),
    ensures
        ({
            let all = list_views(stacks@);
            &&& 0 <= i < own@.len() ==> own@[i].1 == innermost_of(all).filter(
                |l: Seq<Seq<char>>| l.contains(own@[i].0@),
            ).len()
            &&& 0 <= i < inclusive@.len() ==> inclusive@[i].1 == all.filter(
                |l: Seq<Seq<char>>| l.contains(inclusive@[i].0@),
            ).len()
            &&& 0 < i < own@.len() ==> own@[i - 1].1 >= own@[i].1
            &&& 0 < i < inclusive@.len() ==> inclusive@[i - 1].1 >= inclusive@[i].1
        }),
{
    let all = list_views(stacks@);
    let (a, b) = (row_views(own@), row_views(inclusive@));
    if 0 <= i < own@.len() {
        law_rankings_count_every_label(a, innermost_of(all), own@[i].0@);
        assert(a[i].0 == own@[i].0@);
        if 0 < i {
            assert(a[i - 1].1 >= a[i].1);
        }
    }
    if 0 <= i < inclusive@.len() {
        law_rankings_count_every_label(b, all, inclusive@[i].0@);
        assert(b[i].0 == inclusive@[i].0@);
        if 0 < i {
            assert(b[i - 1].1 >= b[i].1);
        }
    }
}

/// What is shown of a ranking is its first rows with short names, and of chains the first twelve.
#[verifier::rlimit(40)]
pub proof fn law_reports_show_the_first_rows(
    rows: &Vec<(String, usize)>,
    shown_first: Vec<(String, usize)>,
    chains: Vec<(String, usize)>,
    name: &str,
    n: usize,
    short: String,
    i: int,
)
    requires
        call_ensures(shown_rows, (rows,), shown_first),
        call_ensures(shown_chains, (rows,), chains),
        call_ensures(shortened, (name, n), short),
    ensures
        shown_first@.len() == vstd::math::min(rows@.len() as int, 45),
        0 <= i < shown_first@.len() ==> shown_first@[i].1 == rows@[i].1 && shown_first@[i].0@
            == rows@[i].0@.take(vstd::math::min(rows@[i].0@.len() as int, 150)),
        chains@.len() == vstd::math::min(rows@.len() as int, 12),
        0 <= i < chains@.len() ==> chains@[i].0@ == rows@[i].0@ && chains@[i].1 == rows@[i].1,
        short@ == name@.take(vstd::math::min(name@.len() as int, n as int)),
{
    let all = row_views(rows@);
    law_shown_rows_are_the_first(all);
    law_cuts_keep_the_start(all, 12);
    law_cuts_keep_the_start(name@, n as nat);
    assert(row_views(shown_first@).len() == shown_first@.len());
    assert(row_views(chains@).len() == chains@.len());
    if 0 <= i < shown_first@.len() {
        assert(row_views(shown_first@)[i] == (shown_first@[i].0@, shown_first@[i].1));
        assert(all[i] == (rows@[i].0@, rows@[i].1));
    }
    if 0 <= i < chains@.len() {
        assert(row_views(chains@)[i] == (chains@[i].0@, chains@[i].1));
        assert(all[i] == (rows@[i].0@, rows@[i].1));
    }
}

/// The addresses of a stack go up to its first zero: the innermost as it is, the others one less.
pub proof fn law_frames_are_addressed_by_their_calls(stack: &Vec<u64>, r: Vec<u64>, i: int)
    requires
        call_ensures(frame_addresses, (stack,), r),
    ensures
        r@.len() <= stack@.len(),
        r@.len() < stack@.len() ==> stack@[r@.len() as int] == 0,
        0 <= i < r@.len() ==> stack@[i] != 0 && r@[i] == (if i == 0 {
            stack@[i] as int
        } else {
            stack@[i] as int - 1
        }),
{
    law_stacks_end_at_the_first_zero(stack@);
    law_return_addresses_are_of_the_call(stack@);
    let v = r@.map_values(|a: u64| a as int);
    assert(v == addresses(stack@));
    assert(v.len() == r@.len());
    if 0 <= i < r@.len() {
        assert(v[i] == r@[i] as int);
    }
}

/// The callers of a focus are counted by the stacks that hold it, and ranked by their chains.
#[verifier::rlimit(40)]
pub proof fn law_callers_are_ranked_by_chain(
    stacks: &Vec<Vec<String>>,
    focus: &str,
    r: (usize, Vec<(String, usize)>),
    counts: TextMap<usize>,
    ranked: Vec<(String, usize)>,
    label: Seq<char>,
)
    requires
        call_ensures(callers, (stacks, focus), r),
        call_ensures(tally, (stacks,), counts),
        call_ensures(rank, (&counts,), ranked),
    ensures
        r.0 == chains_of(list_views(stacks@), focus@).filter(
            |l: Seq<Seq<char>>| l.len() > 0,
        ).len(),
        ranking(row_views(r.1@), chains_of(list_views(stacks@), focus@)),
        counts@.contains_key(label) ==> counts@[label] == list_views(stacks@).filter(
            |l: Seq<Seq<char>>| l.contains(label),
        ).len(),
        row_views(ranked@).contains((label, 1usize)) <==> counts@.contains_key(label)
            && counts@[label] == 1,
{
    law_hits_are_stacks_with_frames(chains_of(list_views(stacks@), focus@));
    law_counts_are_of_the_lists(counts@, list_views(stacks@), label);
    law_ranked_rows_are_the_counts(row_views(ranked@), counts@, label, 1);
}

} // verus!
