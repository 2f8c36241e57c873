//! Overloads: methods that share a public name and differ in how many arguments they take.

use crate::class_helpers;
use crate::class_helpers::Member;
use crate::metadata;
use crate::metadata::{ClassDeclaration, Metadata, MethodDeclaration};
use crate::text;
use crate::text_map::TextMap;
use ahash::AHashMap;
use vstd::prelude::*;

verus! {

/// The overloads that each public name reaches.
pub type Groups<'a> = TextMap<Vec<&'a MethodDeclaration>>;

/// What groups say.
pub open spec fn groups_view(g: Map<Seq<char>, Vec<&MethodDeclaration>>) -> Map<
    Seq<char>,
    Seq<MethodDeclaration>,
> {
    g.map_values(|v: Vec<&MethodDeclaration>| metadata::targets(v@))
}

/// Whether one of the overloads takes `n` arguments.
pub open spec fn has_arity(overloads: Seq<MethodDeclaration>, n: usize) -> bool {
    exists|i: int|
        0 <= i < overloads.len() && (#[trigger] overloads[i]).number_of_parameters == n
}

/// The overloads under `name`.
pub open spec fn bucket(g: Map<Seq<char>, Seq<MethodDeclaration>>, name: Seq<char>) -> Seq<
    MethodDeclaration,
> {
    if g.contains_key(name) {
        g[name]
    } else {
        Seq::empty()
    }
}

/// `g` with `m` under `name`, unless an overload there takes as many arguments.
pub open spec fn grouped_one(
    g: Map<Seq<char>, Seq<MethodDeclaration>>,
    name: Seq<char>,
    m: MethodDeclaration,
) -> Map<Seq<char>, Seq<MethodDeclaration>> {
    if has_arity(bucket(g, name), m.number_of_parameters) {
        g
    } else {
        g.insert(name, bucket(g, name).push(m))
    }
}

/// `g` with one candidate after the other.
pub open spec fn grouped(
    g: Map<Seq<char>, Seq<MethodDeclaration>>,
    candidates: Seq<(Seq<char>, MethodDeclaration)>,
) -> Map<Seq<char>, Seq<MethodDeclaration>>
    decreases candidates.len(),
{
    if candidates.len() == 0 {
        g
    } else {
        grouped_one(
            grouped(g, candidates.drop_last()),
            candidates.last().0,
            candidates.last().1,
        )
    }
}

/// Each method under the name it is listed under.
pub open spec fn listed(ms: Seq<MethodDeclaration>) -> Seq<(Seq<char>, MethodDeclaration)> {
    Seq::new(ms.len(), |i: int| (ms[i].key(), ms[i]))
}

/// Each method whose `[Overload]` name is not its public name, under its public name.
pub open spec fn public(ms: Seq<MethodDeclaration>) -> Seq<(Seq<char>, MethodDeclaration)>
    decreases ms.len(),
{
    if ms.len() == 0 {
        Seq::empty()
    } else if ms.last().overload_name@.len() > 0 && ms.last().overload_name@ != ms.last().name@ {
        public(ms.drop_last()).push((ms.last().name@, ms.last()))
    } else {
        public(ms.drop_last())
    }
}

/// The candidates of a lineage: class by class, first under the listed names, then under the public
/// ones, so that a default overload wins an arity tie.
pub open spec fn candidates(line: Seq<ClassDeclaration>) -> Seq<(Seq<char>, MethodDeclaration)>
    decreases line.len(),
{
    if line.len() == 0 {
        Seq::empty()
    } else {
        let ms = class_helpers::class_methods(line.last());
        candidates(line.drop_last()) + listed(ms) + public(ms)
    }
}

/// The groups of a class: everything its lineage offers.
pub open spec fn class_groups(md: Metadata, class: ClassDeclaration) -> Map<
    Seq<char>,
    Seq<MethodDeclaration>,
> {
    grouped(Map::empty(), candidates(metadata::lineage(md, class)))
}

/// Whether one of the overloads takes `n` arguments.
fn takes(overloads: &Vec<&MethodDeclaration>, n: usize) -> (r: bool)
    ensures
        r == has_arity(metadata::targets(overloads@), n),
{
    let ghost all = metadata::targets(overloads@);
    for i in 0..overloads.len()
        invariant
            all == metadata::targets(overloads@),
            forall|j: int| 0 <= j < i ==> (#[trigger] all[j]).number_of_parameters != n,
    {
        if overloads[i].number_of_parameters == n {
            assert(all[i as int].number_of_parameters == n);
            return true;
        }
    }
    false
}

/// Puts `m` under `name`, unless an overload there takes as many arguments.
fn push_overload<'a>(out: &mut Groups<'a>, name: &str, m: &'a MethodDeclaration)
    ensures
        groups_view(final(out)@) == grouped_one(groups_view(old(out)@), name@, *m),
{
    let ghost before = groups_view(out@);
    let mut overloads = match out.remove(name) {
        Some(v) => v,
        None => Vec::new(),
    };
    assert(metadata::targets(overloads@) =~= bucket(before, name@));
    if !takes(&overloads, m.number_of_parameters) {
        let ghost was = overloads@;
        overloads.push(m);
        assert(metadata::targets(overloads@) =~= metadata::targets(was).push(*m));
    }
    out.set(name.to_owned(), overloads);
    assert(groups_view(out@) =~= grouped_one(before, name@, *m));
}

/// Puts the methods of one class into the groups.
fn group_class<'a>(class: &'a ClassDeclaration, out: &mut Groups<'a>)
    ensures
        ({
            let ms = class_helpers::class_methods(*class);
            groups_view(final(out)@) == grouped(
                groups_view(old(out)@),
                listed(ms) + public(ms),
            )
        }),
{
    let all = class_helpers::methods_of_class(class);
    let ghost ms = class_helpers::class_methods(*class);
    let ghost start = groups_view(out@);
    assert(listed(ms.take(0)) =~= Seq::<(Seq<char>, MethodDeclaration)>::empty());
    for i in 0..all.len()
        invariant
            ms == metadata::targets(all@),
            groups_view(out@) == grouped(start, listed(ms.take(i as int))),
    {
        let m = all[i];
        push_overload(out, m.key_text(), m);
        proof {
            assert(ms[i as int] == *m);
            assert(listed(ms.take(i + 1)).drop_last() =~= listed(ms.take(i as int)));
            assert(listed(ms.take(i + 1)).last() == (m.key(), *m));
        }
    }
    assert(ms.take(ms.len() as int) == ms);
    assert(listed(ms) + public(ms.take(0)) =~= listed(ms));
    for i in 0..all.len()
        invariant
            ms == metadata::targets(all@),
            groups_view(out@) == grouped(start, listed(ms) + public(ms.take(i as int))),
    {
        let m = all[i];
        proof {
            assert(ms[i as int] == *m);
            assert(ms.take(i + 1).drop_last() == ms.take(i as int));
        }
        let listed_as = m.overload_name.as_str();
        if !text::is_blank(listed_as) && !text::same_text(listed_as, m.name.as_str()) {
            push_overload(out, m.name.as_str(), m);
            proof {
                let now = listed(ms) + public(ms.take(i + 1));
                assert(now.drop_last() =~= listed(ms) + public(ms.take(i as int)));
                assert(now.last() == (m.name@, *m));
            }
        }
    }
}

/// Groups the methods of a class and its lineage by every name they can be called under, keeping of
/// each name one overload per number of arguments. What `out` has comes first.
pub fn extend_class_methods_grouped<'a>(
    md: &'a Metadata,
    class_declaration: &'a ClassDeclaration,
    out: &mut Groups<'a>,
)
    requires
        metadata::bases_end(*md, *class_declaration),
    ensures
        groups_view(final(out)@) == grouped(
            groups_view(old(out)@),
            candidates(metadata::lineage(*md, *class_declaration)),
        ),
{
    let line = class_helpers::lineage_of(md, class_declaration);
    let ghost all = metadata::lineage(*md, *class_declaration);
    let ghost start = groups_view(out@);
    for i in 0..line.len()
        invariant
            all == metadata::targets(line@),
            groups_view(out@) == grouped(start, candidates(all.take(i as int))),
    {
        let ghost before = candidates(all.take(i as int));
        group_class(line[i], out);
        proof {
            assert(all[i as int] == *line@[i as int]);
            assert(all.take(i + 1).drop_last() == all.take(i as int));
            let ms = class_helpers::class_methods(all[i as int]);
            lemma_grouped_twice(start, before, listed(ms) + public(ms));
            assert(before + (listed(ms) + public(ms)) =~= before + listed(ms) + public(ms));
        }
    }
    assert(all.take(all.len() as int) == all);
}

/// Grouping in two goes.
proof fn lemma_grouped_twice(
    g: Map<Seq<char>, Seq<MethodDeclaration>>,
    a: Seq<(Seq<char>, MethodDeclaration)>,
    b: Seq<(Seq<char>, MethodDeclaration)>,
)
    ensures
        grouped(grouped(g, a), b) == grouped(g, a + b),
    decreases b.len(),
{
    if b.len() == 0 {
        assert(a + b =~= a);
    } else {
        lemma_grouped_twice(g, a, b.drop_last());
        assert((a + b).drop_last() =~= a + b.drop_last());
    }
}

/// Whether no two overloads of a group take as many arguments.
pub open spec fn one_per_arity(overloads: Seq<MethodDeclaration>) -> bool {
    forall|i: int, j: int|
        0 <= i < j < overloads.len() ==> (#[trigger] overloads[i]).number_of_parameters != (
        #[trigger] overloads[j]).number_of_parameters
}

/// A group has at most one overload for each number of arguments.
pub proof fn law_groups_have_one_overload_per_arity(
    candidates: Seq<(Seq<char>, MethodDeclaration)>,
    name: Seq<char>,
)
    ensures
        one_per_arity(bucket(grouped(Map::empty(), candidates), name)),
    decreases candidates.len(),
{
    if candidates.len() > 0 {
        law_groups_have_one_overload_per_arity(candidates.drop_last(), name);
    }
}

/// Leaving overloads out leaves one for each number of arguments.
pub proof fn lemma_filter_keeps_one_per_arity(
    overloads: Seq<MethodDeclaration>,
    keep: spec_fn(MethodDeclaration) -> bool,
)
    requires
        one_per_arity(overloads),
    ensures
        one_per_arity(overloads.filter(keep)),
    decreases overloads.len(),
{
    reveal(Seq::filter);
    if overloads.len() > 0 {
        let d = overloads.drop_last();
        assert forall|i: int, j: int| 0 <= i < j < d.len() implies (#[trigger] d[i]).number_of_parameters
            != (#[trigger] d[j]).number_of_parameters by {
            assert(overloads[i].number_of_parameters != overloads[j].number_of_parameters);
        }
        lemma_filter_keeps_one_per_arity(d, keep);
        let before = d.filter(keep);
        let now = overloads.filter(keep);
        assert forall|i: int, j: int| 0 <= i < j < now.len() implies (
        #[trigger] now[i]).number_of_parameters != (#[trigger] now[j]).number_of_parameters by {
            assert(now[i] == before[i]);
            if j < before.len() {
                assert(now[j] == before[j]);
            } else {
                assert(before.contains(before[i]));
                d.lemma_filter_contains_rev(keep, before[i]);
                let k = d.index_of(before[i]);
                assert(overloads[k] == before[i]);
                assert(overloads[k].number_of_parameters != overloads[overloads.len()
                    - 1].number_of_parameters);
            }
        }
    }
}

/// What a name reaches by number of arguments stays reached as more candidates come.
proof fn lemma_reached_stays(
    a: Seq<(Seq<char>, MethodDeclaration)>,
    n: int,
    name: Seq<char>,
    arity: usize,
)
    requires
        0 <= n <= a.len(),
        has_arity(bucket(grouped(Map::empty(), a.take(n)), name), arity),
    ensures
        has_arity(bucket(grouped(Map::empty(), a), name), arity),
    decreases a.len(),
{
    if n == a.len() {
        assert(a.take(n) =~= a);
    } else {
        let d = a.drop_last();
        assert(d.take(n) =~= a.take(n));
        lemma_reached_stays(d, n, name, arity);
        let g = grouped(Map::empty(), d);
        let h = grouped(Map::empty(), a);
        let old_bucket = bucket(g, name);
        let k = choose|k: int|
            0 <= k < old_bucket.len() && (#[trigger] old_bucket[k]).number_of_parameters == arity;
        assert(bucket(h, name)[k].number_of_parameters == arity);
    }
}

/// A candidate's name reaches its number of arguments.
proof fn lemma_candidate_reached(a: Seq<(Seq<char>, MethodDeclaration)>, i: int)
    requires
        0 <= i < a.len(),
    ensures
        has_arity(
            bucket(grouped(Map::empty(), a), a[i].0),
            a[i].1.number_of_parameters,
        ),
{
    let upto = a.take(i + 1);
    let g = grouped(Map::empty(), upto.drop_last());
    let m = a[i].1;
    let b = bucket(g, a[i].0);
    if !has_arity(b, m.number_of_parameters) {
        assert(b.push(m)[b.len() as int].number_of_parameters == m.number_of_parameters);
    }
    assert(has_arity(bucket(grouped(Map::empty(), upto), a[i].0), m.number_of_parameters));
    lemma_reached_stays(a, i + 1, a[i].0, m.number_of_parameters);
}

/// Each method of a class is a candidate under its public name and under the name it is listed under.
proof fn lemma_method_is_candidate(line: Seq<ClassDeclaration>, k: int, i: int)
    requires
        0 <= k < line.len(),
        0 <= i < class_helpers::class_methods(line[k]).len(),
    ensures
        ({
            let m = class_helpers::class_methods(line[k])[i];
            &&& exists|j: int|
                0 <= j < candidates(line).len() && #[trigger] candidates(line)[j] == (m.key(), m)
            &&& exists|j: int|
                0 <= j < candidates(line).len() && #[trigger] candidates(line)[j] == (m.name@, m)
        }),
    decreases line.len(),
{
    let c = candidates(line);
    if k == line.len() - 1 {
        let ms = class_helpers::class_methods(line[k]);
        let before = candidates(line.drop_last());
        let m = ms[i];
        assert(listed(ms)[i] == (m.key(), m));
        assert(c[before.len() + i] == (m.key(), m));
        if m.overload_name@.len() > 0 && m.overload_name@ != m.name@ {
            lemma_public(ms, i);
            let j = choose|j: int|
                0 <= j < public(ms).len() && #[trigger] public(ms)[j] == (m.name@, m);
            assert(c[before.len() + listed(ms).len() + j] == (m.name@, m));
        }
    } else {
        let d = line.drop_last();
        lemma_method_is_candidate(d, k, i);
        let m = class_helpers::class_methods(line[k])[i];
        let j1 = choose|j: int|
            0 <= j < candidates(d).len() && #[trigger] candidates(d)[j] == (m.key(), m);
        let j2 = choose|j: int|
            0 <= j < candidates(d).len() && #[trigger] candidates(d)[j] == (m.name@, m);
        assert(c[j1] == candidates(d)[j1]);
        assert(c[j2] == candidates(d)[j2]);
    }
}

proof fn lemma_public(ms: Seq<MethodDeclaration>, i: int)
    requires
        0 <= i < ms.len(),
        ms[i].overload_name@.len() > 0,
        ms[i].overload_name@ != ms[i].name@,
    ensures
        exists|j: int| 0 <= j < public(ms).len() && #[trigger] public(ms)[j] == (ms[i].name@, ms[i]),
    decreases ms.len(),
{
    if i == ms.len() - 1 {
        assert(public(ms)[public(ms).len() - 1] == (ms[i].name@, ms[i]));
    } else {
        let d = ms.drop_last();
        lemma_public(d, i);
        let j = choose|j: int|
            0 <= j < public(d).len() && #[trigger] public(d)[j] == (d[i].name@, d[i]);
        assert(public(ms)[j] == public(d)[j]);
    }
}

/// The public name of a method reaches every overload: for each method of the lineage, the group of
/// its public name, and that of its `[Overload]` name, has an overload of its number of arguments.
pub proof fn law_public_names_reach_every_overload(
    md: Metadata,
    class: ClassDeclaration,
    k: int,
    i: int,
)
    requires
        0 <= k < metadata::lineage(md, class).len(),
        0 <= i < class_helpers::class_methods(metadata::lineage(md, class)[k]).len(),
    ensures
        ({
            let m = class_helpers::class_methods(metadata::lineage(md, class)[k])[i];
            &&& has_arity(bucket(class_groups(md, class), m.name@), m.number_of_parameters)
            &&& has_arity(bucket(class_groups(md, class), m.key()), m.number_of_parameters)
        }),
{
    let line = metadata::lineage(md, class);
    let c = candidates(line);
    let m = class_helpers::class_methods(line[k])[i];
    lemma_method_is_candidate(line, k, i);
    let j1 = choose|j: int| 0 <= j < c.len() && #[trigger] c[j] == (m.key(), m);
    let j2 = choose|j: int| 0 <= j < c.len() && #[trigger] c[j] == (m.name@, m);
    lemma_candidate_reached(c, j1);
    lemma_candidate_reached(c, j2);
}

/// The first candidate with a name and a number of arguments.
pub open spec fn first_candidate(
    c: Seq<(Seq<char>, MethodDeclaration)>,
    name: Seq<char>,
    arity: usize,
) -> Option<MethodDeclaration>
    decreases c.len(),
{
    if c.len() == 0 {
        None
    } else {
        match first_candidate(c.drop_last(), name, arity) {
            Some(m) => Some(m),
            None => if c.last().0 == name && c.last().1.number_of_parameters == arity {
                Some(c.last().1)
            } else {
                None
            },
        }
    }
}

/// Of the candidates with a name and a number of arguments the first is kept.
proof fn lemma_first_is_kept(
    c: Seq<(Seq<char>, MethodDeclaration)>,
    name: Seq<char>,
    arity: usize,
)
    ensures
        ({
            let b = bucket(grouped(Map::empty(), c), name);
            &&& has_arity(b, arity) == (first_candidate(c, name, arity) is Some)
            &&& forall|i: int|
                0 <= i < b.len() && (#[trigger] b[i]).number_of_parameters == arity ==> Some(b[i])
                    == first_candidate(c, name, arity)
        }),
    decreases c.len(),
{
    if c.len() > 0 {
        lemma_first_is_kept(c.drop_last(), name, arity);
        let (n, m) = c.last();
        let before = bucket(grouped(Map::empty(), c.drop_last()), name);
        let now = bucket(grouped(Map::empty(), c), name);
        if n == name && !has_arity(before, m.number_of_parameters) {
            assert(now == before.push(m));
            assert(now[before.len() as int] == m);
            assert(has_arity(before, arity) ==> has_arity(now, arity)) by {
                if has_arity(before, arity) {
                    let k = choose|k: int|
                        0 <= k < before.len() && (#[trigger] before[k]).number_of_parameters == arity;
                    assert(now[k] == before[k]);
                }
            }
            assert forall|i: int|
                0 <= i < now.len() && (#[trigger] now[i]).number_of_parameters == arity implies Some(
                now[i],
            ) == first_candidate(c, name, arity) by {
                if i < before.len() {
                    assert(now[i] == before[i]);
                }
            }
            if has_arity(now, arity) && arity != m.number_of_parameters {
                let k = choose|k: int|
                    0 <= k < now.len() && (#[trigger] now[k]).number_of_parameters == arity;
                assert(before[k] == now[k]);
            }
        } else {
            assert(now == before);
        }
    }
}

/// The first candidate of a part is the first of the whole that starts with it.
proof fn lemma_first_of_prefix(
    c: Seq<(Seq<char>, MethodDeclaration)>,
    n: int,
    name: Seq<char>,
    arity: usize,
)
    requires
        0 <= n <= c.len(),
        first_candidate(c.take(n), name, arity) is Some,
    ensures
        first_candidate(c, name, arity) == first_candidate(c.take(n), name, arity),
    decreases c.len(),
{
    if n == c.len() {
        assert(c.take(n) =~= c);
    } else {
        assert(c.drop_last().take(n) =~= c.take(n));
        lemma_first_of_prefix(c.drop_last(), n, name, arity);
    }
}

/// A listed method is a candidate under its key, and what is found there is listed under that key.
proof fn lemma_first_listed(ms: Seq<MethodDeclaration>, i: int)
    requires
        0 <= i < ms.len(),
    ensures
        first_candidate(listed(ms), ms[i].key(), ms[i].number_of_parameters) matches Some(m)
            && m.key() == ms[i].key(),
    decreases ms.len(),
{
    let d = ms.drop_last();
    assert(listed(ms).drop_last() =~= listed(d));
    let last = ms.len() - 1;
    assert(listed(ms).last() == (ms[last].key(), ms[last]));
    lemma_listed_key(d, ms[i].key(), ms[i].number_of_parameters);
    if i < last {
        lemma_first_listed(d, i);
    }
}

proof fn lemma_listed_key(ms: Seq<MethodDeclaration>, name: Seq<char>, arity: usize)
    ensures
        first_candidate(listed(ms), name, arity) matches Some(m) ==> m.key() == name,
    decreases ms.len(),
{
    if ms.len() > 0 {
        assert(listed(ms).drop_last() =~= listed(ms.drop_last()));
        lemma_listed_key(ms.drop_last(), name, arity);
    }
}

/// Whether some class of a lineage declares a method, itself or through its interfaces.
pub open spec fn declares(line: Seq<ClassDeclaration>, m: MethodDeclaration) -> bool {
    exists|k: int, i: int|
        0 <= k < line.len() && 0 <= i < class_helpers::class_methods(line[k]).len()
            && #[trigger] class_helpers::class_methods(line[k])[i] == m
}

/// The candidates of the first classes come first.
proof fn lemma_candidates_prefix(line: Seq<ClassDeclaration>, n: int)
    requires
        0 <= n <= line.len(),
    ensures
        candidates(line.take(n)).len() <= candidates(line).len(),
        candidates(line).take(candidates(line.take(n)).len() as int) == candidates(line.take(n)),
    decreases line.len(),
{
    let c = candidates(line.take(n));
    if n == line.len() {
        assert(line.take(n) =~= line);
        assert(c.take(c.len() as int) =~= c);
    } else {
        let d = line.drop_last();
        assert(d.take(n) =~= line.take(n));
        lemma_candidates_prefix(d, n);
        assert(candidates(line).take(c.len() as int) =~= candidates(d).take(c.len() as int));
    }
}

/// The first candidate of a lineage is a method of it.
proof fn lemma_first_is_declared(line: Seq<ClassDeclaration>, name: Seq<char>, arity: usize)
    ensures
        first_candidate(candidates(line), name, arity) matches Some(m) ==> declares(line, m),
{
    lemma_first_is_candidate(candidates(line), name, arity);
    if let Some(m) = first_candidate(candidates(line), name, arity) {
        let j = choose|j: int|
            0 <= j < candidates(line).len() && #[trigger] candidates(line)[j] == (name, m);
        lemma_candidate_is_declared(line, j);
    }
}

proof fn lemma_first_is_candidate(
    c: Seq<(Seq<char>, MethodDeclaration)>,
    name: Seq<char>,
    arity: usize,
)
    ensures
        first_candidate(c, name, arity) matches Some(m) ==> exists|j: int|
            0 <= j < c.len() && #[trigger] c[j] == (name, m),
    decreases c.len(),
{
    if c.len() > 0 {
        let d = c.drop_last();
        lemma_first_is_candidate(d, name, arity);
        if let Some(m) = first_candidate(c, name, arity) {
            if first_candidate(d, name, arity) is Some {
                let j = choose|j: int| 0 <= j < d.len() && #[trigger] d[j] == (name, m);
                assert(c[j] == (name, m));
            } else {
                assert(c[c.len() - 1] == (name, m));
            }
        }
    }
}

proof fn lemma_candidate_is_declared(line: Seq<ClassDeclaration>, j: int)
    requires
        0 <= j < candidates(line).len(),
    ensures
        declares(line, candidates(line)[j].1),
        candidates(line)[j].0 == candidates(line)[j].1.key() || candidates(line)[j].0
            == candidates(line)[j].1.name@,
    decreases line.len(),
{
    if line.len() > 0 {
        let d = line.drop_last();
        let last = line.len() - 1;
        let ms = class_helpers::class_methods(line[last]);
        let n = candidates(d).len();
        let m = candidates(line)[j].1;
        if j < n {
            lemma_candidate_is_declared(d, j);
            assert(candidates(d)[j] == candidates(line)[j]);
            let (k, i) = choose|k: int, i: int|
                0 <= k < d.len() && 0 <= i < class_helpers::class_methods(d[k]).len()
                    && #[trigger] class_helpers::class_methods(d[k])[i] == m;
            assert(class_helpers::class_methods(line[k])[i] == m);
        } else if j < n + ms.len() {
            assert(class_helpers::class_methods(line[last])[j - n] == m);
        } else {
            lemma_public_is_declared(ms, j - n - ms.len());
            let i = choose|i: int|
                0 <= i < ms.len() && #[trigger] ms[i] == public(ms)[j - n - ms.len()].1;
            assert(class_helpers::class_methods(line[last])[i] == m);
        }
    }
}

proof fn lemma_public_is_declared(ms: Seq<MethodDeclaration>, j: int)
    requires
        0 <= j < public(ms).len(),
    ensures
        exists|i: int| 0 <= i < ms.len() && #[trigger] ms[i] == public(ms)[j].1,
        public(ms)[j].0 == public(ms)[j].1.name@,
    decreases ms.len(),
{
    if ms.len() > 0 {
        let d = ms.drop_last();
        if j < public(d).len() {
            lemma_public_is_declared(d, j);
            let i = choose|i: int| 0 <= i < d.len() && #[trigger] d[i] == public(d)[j].1;
            assert(ms[i] == public(ms)[j].1);
        } else {
            assert(ms[ms.len() - 1] == public(ms)[j].1);
        }
    }
}

/// A derived class's method wins over its bases': where the `k`th class of a lineage has a method
/// that `name` reaches, what `name` reaches for that number of arguments is declared by that class or
/// by one derived from it, never by one of its bases alone.
pub proof fn law_derived_methods_win(
    md: Metadata,
    class: ClassDeclaration,
    k: int,
    i: int,
    name: Seq<char>,
    j: int,
)
    requires
        0 <= k < metadata::lineage(md, class).len(),
        0 <= i < class_helpers::class_methods(metadata::lineage(md, class)[k]).len(),
        ({
            let m = class_helpers::class_methods(metadata::lineage(md, class)[k])[i];
            &&& name == m.name@ || name == m.key()
            &&& 0 <= j < bucket(class_groups(md, class), name).len()
            &&& bucket(class_groups(md, class), name)[j].number_of_parameters
                == m.number_of_parameters
        }),
    ensures
        declares(
            metadata::lineage(md, class).take(k + 1),
            bucket(class_groups(md, class), name)[j],
        ),
{
    let line = metadata::lineage(md, class);
    let m = class_helpers::class_methods(line[k])[i];
    let arity = m.number_of_parameters;
    let part = line.take(k + 1);
    let c = candidates(part);
    lemma_method_is_candidate(part, k, i);
    let at = choose|at: int| 0 <= at < c.len() && #[trigger] c[at] == (name, m);
    lemma_candidate_reached(c, at);
    lemma_first_is_kept(c, name, arity);
    lemma_first_is_declared(part, name, arity);
    lemma_candidates_prefix(line, k + 1);
    lemma_first_of_prefix(candidates(line), c.len() as int, name, arity);
    lemma_first_is_kept(candidates(line), name, arity);
}

/// Whether some class of a lineage offers `name` with a number of arguments: it declares a method of
/// that public or `[Overload]` name that takes so many.
pub open spec fn offers(line: Seq<ClassDeclaration>, name: Seq<char>, arity: usize) -> bool {
    exists|m: MethodDeclaration| #[trigger]
        declares(line, m) && (m.name@ == name || m.key() == name) && m.number_of_parameters
            == arity
}

/// A lineage that does not offer a name has no candidate for it.
proof fn lemma_not_offered(line: Seq<ClassDeclaration>, name: Seq<char>, arity: usize)
    requires
        !offers(line, name, arity),
    ensures
        first_candidate(candidates(line), name, arity) is None,
{
    let c = candidates(line);
    lemma_first_is_candidate(c, name, arity);
    if let Some(m) = first_candidate(c, name, arity) {
        let j = choose|j: int| 0 <= j < c.len() && #[trigger] c[j] == (name, m);
        lemma_candidate_is_declared(line, j);
        lemma_first_has_arity(c, name, arity);
        assert(declares(line, m));
    }
}

proof fn lemma_first_has_arity(
    c: Seq<(Seq<char>, MethodDeclaration)>,
    name: Seq<char>,
    arity: usize,
)
    ensures
        first_candidate(c, name, arity) matches Some(m) ==> m.number_of_parameters == arity,
    decreases c.len(),
{
    if c.len() > 0 {
        lemma_first_has_arity(c.drop_last(), name, arity);
    }
}

/// The first candidate of two parts is that of the first, or else that of the second.
proof fn lemma_first_of_two(
    a: Seq<(Seq<char>, MethodDeclaration)>,
    b: Seq<(Seq<char>, MethodDeclaration)>,
    name: Seq<char>,
    arity: usize,
)
    ensures
        first_candidate(a + b, name, arity) == match first_candidate(a, name, arity) {
            Some(m) => Some(m),
            None => first_candidate(b, name, arity),
        },
    decreases b.len(),
{
    if b.len() == 0 {
        assert(a + b =~= a);
    } else {
        lemma_first_of_two(a, b.drop_last(), name, arity);
        assert((a + b).drop_last() =~= a + b.drop_last());
    }
}

/// A default overload wins an arity tie, in every class of the base chain: where the `k`th class of a
/// lineage has a method that is listed under its public name, and no class derived from it offers
/// that name with that number of arguments, the public name reaches, for that number of arguments, a
/// method listed under it, and none that has another `[Overload]` name.
pub proof fn law_default_overloads_win_ties(
    md: Metadata,
    class: ClassDeclaration,
    k: int,
    i: int,
    j: int,
)
    requires
        0 <= k < metadata::lineage(md, class).len(),
        0 <= i < class_helpers::class_methods(metadata::lineage(md, class)[k]).len(),
        ({
            let m = class_helpers::class_methods(metadata::lineage(md, class)[k])[i];
            let reached = bucket(class_groups(md, class), m.name@);
            &&& m.key() == m.name@
            &&& !offers(metadata::lineage(md, class).take(k), m.name@, m.number_of_parameters)
            &&& 0 <= j < reached.len()
            &&& reached[j].number_of_parameters == m.number_of_parameters
        }),
    ensures
        ({
            let m = class_helpers::class_methods(metadata::lineage(md, class)[k])[i];
            bucket(class_groups(md, class), m.name@)[j].key() == m.name@
        }),
{
    let line = metadata::lineage(md, class);
    let ms = class_helpers::class_methods(line[k]);
    let (name, arity) = (ms[i].name@, ms[i].number_of_parameters);
    let before = candidates(line.take(k));
    let part = line.take(k + 1);
    assert(part.drop_last() =~= line.take(k));
    let c = candidates(part);
    lemma_not_offered(line.take(k), name, arity);
    lemma_first_of_two(before, listed(ms), name, arity);
    lemma_first_of_two(before + listed(ms), public(ms), name, arity);
    lemma_first_listed(ms, i);
    lemma_candidates_prefix(line, k + 1);
    lemma_first_of_prefix(candidates(line), c.len() as int, name, arity);
    lemma_first_is_kept(candidates(line), name, arity);
}

/// Before the methods of the class itself no other class offers anything, so a default overload of
/// its own always wins.
pub proof fn law_own_default_overloads_win_ties(
    md: Metadata,
    class: ClassDeclaration,
    i: int,
    j: int,
)
    requires
        0 <= i < class_helpers::class_methods(class).len(),
        ({
            let m = class_helpers::class_methods(class)[i];
            let reached = bucket(class_groups(md, class), m.name@);
            &&& m.key() == m.name@
            &&& 0 <= j < reached.len()
            &&& reached[j].number_of_parameters == m.number_of_parameters
        }),
    ensures
        ({
            let m = class_helpers::class_methods(class)[i];
            bucket(class_groups(md, class), m.name@)[j].key() == m.name@
        }),
{
    metadata::lemma_lineage_first(md, class, md.declarations@.len());
    law_default_overloads_win_ties(md, class, 0, i, j);
}

/// The first of the overloads that takes `argc` arguments.
pub open spec fn first_of_arity(overloads: Seq<MethodDeclaration>, argc: usize) -> Option<int>
    decreases overloads.len(),
{
    if overloads.len() == 0 {
        None
    } else {
        match first_of_arity(overloads.drop_last(), argc) {
            Some(i) => Some(i),
            None => if overloads.last().number_of_parameters == argc {
                Some(overloads.len() - 1)
            } else {
                None
            },
        }
    }
}

/// The place of the first overload that takes `argc` arguments.
pub fn position_of_arity(overloads: &Vec<&MethodDeclaration>, argc: usize) -> (r: Option<usize>)
    ensures
        match r {
            Some(i) => i < overloads@.len() && first_of_arity(
                metadata::targets(overloads@),
                argc,
            ) == Some(i as int) && overloads@[i as int].number_of_parameters == argc && forall|j: int|
                0 <= j < i ==> (#[trigger] overloads@[j]).number_of_parameters != argc,
            None => first_of_arity(metadata::targets(overloads@), argc) is None && forall|j: int|
                0 <= j < overloads@.len() ==> (#[trigger] overloads@[j]).number_of_parameters
                    != argc,
        },
{
    let ghost all = metadata::targets(overloads@);
    for i in 0..overloads.len()
        invariant
            all == metadata::targets(overloads@),
            first_of_arity(all.take(i as int), argc) is None,
            forall|j: int|
                0 <= j < i ==> (#[trigger] overloads@[j]).number_of_parameters != argc,
    {
        assert(all.take(i + 1).drop_last() == all.take(i as int));
        if overloads[i].number_of_parameters == argc {
            proof {
                assert(first_of_arity(all.take(i + 1), argc) == Some(i as int));
                lemma_first_of_arity_stays(all, i + 1, argc);
            }
            return Some(i);
        }
    }
    assert(all.take(all.len() as int) == all);
    None
}

proof fn lemma_first_of_arity_stays(overloads: Seq<MethodDeclaration>, n: int, argc: usize)
    requires
        0 <= n <= overloads.len(),
        first_of_arity(overloads.take(n), argc) is Some,
    ensures
        first_of_arity(overloads, argc) == first_of_arity(overloads.take(n), argc),
    decreases overloads.len(),
{
    if n == overloads.len() {
        assert(overloads.take(n) == overloads);
    } else {
        assert(overloads.drop_last().take(n) == overloads.take(n));
        lemma_first_of_arity_stays(overloads.drop_last(), n, argc);
    }
}

/// The overload whose parameter count matches the supplied argument count, by index into
/// `overloads`; the first overload when none matches (the call then raises a JS error).
pub fn pick_overload(overloads: &Vec<&MethodDeclaration>, argc: usize) -> (r: usize)
    ensures
        r == (match first_of_arity(metadata::targets(overloads@), argc) {
            Some(i) => i,
            None => 0,
        }),
        overloads@.len() > 0 ==> r < overloads@.len(),
        overloads@.len() > 0 && overloads@[r as int].number_of_parameters != argc ==> r == 0
            && forall|j: int|
            0 <= j < overloads@.len() ==> (#[trigger] overloads@[j]).number_of_parameters != argc,
        forall|j: int| 0 <= j < r ==> (#[trigger] overloads@[j]).number_of_parameters != argc,
{
    match position_of_arity(overloads, argc) {
        Some(i) => i,
        None => 0,
    }
}

/// Whether a method answers to `name`.
pub open spec fn answering(name: Seq<char>) -> spec_fn(MethodDeclaration) -> bool {
    |m: MethodDeclaration| m.answers_to(name)
}

/// The methods of a lineage that answer to `name`, the most derived class's first.
pub open spec fn named(line: Seq<ClassDeclaration>, name: Seq<char>) -> Seq<MethodDeclaration>
    decreases line.len(),
{
    if line.len() == 0 {
        Seq::empty()
    } else {
        named(line.drop_last(), name) + class_helpers::class_methods(line.last()).filter(
            answering(name),
        )
    }
}

/// The methods of one class that answer to `name`.
fn find_own_methods<'a>(class: &'a ClassDeclaration, name: &str) -> (r: Vec<
    &'a MethodDeclaration,
>)
    ensures
        metadata::targets(r@) == class_helpers::class_methods(*class).filter(answering(name@)),
{
    let all = class_helpers::methods_of_class(class);
    let ghost ms = class_helpers::class_methods(*class);
    let ghost keep = answering(name@);
    let mut out: Vec<&'a MethodDeclaration> = Vec::new();
    proof {
        reveal(Seq::filter);
        assert(metadata::targets(out@) =~= ms.take(0).filter(keep));
    }
    for i in 0..all.len()
        invariant
            ms == metadata::targets(all@),
            keep == answering(name@),
            metadata::targets(out@) == ms.take(i as int).filter(keep),
    {
        let m = all[i];
        proof {
            reveal(Seq::filter);
            assert(ms[i as int] == *m);
            assert(ms.take(i + 1).drop_last() == ms.take(i as int));
        }
        if m.answers(name) {
            let ghost was = out@;
            out.push(m);
            assert(metadata::targets(out@) =~= metadata::targets(was).push(*m));
        }
    }
    assert(ms.take(ms.len() as int) == ms);
    out
}

/// Collect every method named `name` (matching the overload name when present, else the plain name)
/// across the class's own methods, default interface, implemented interfaces, and base class chain.
/// Does not stop at the first match: overloads sharing one public name are each a distinct method on
/// a distinct interface, so a caller needs every candidate to pick the one matching the arguments
/// actually supplied.
pub fn find_class_methods<'a>(
    md: &'a Metadata,
    class_declaration: &'a ClassDeclaration,
    name: &str,
) -> (r: Vec<&'a MethodDeclaration>)
    requires
        metadata::bases_end(*md, *class_declaration),
    ensures
        metadata::targets(r@) == named(metadata::lineage(*md, *class_declaration), name@),
{
    let line = class_helpers::lineage_of(md, class_declaration);
    let ghost all = metadata::lineage(*md, *class_declaration);
    let mut out: Vec<&'a MethodDeclaration> = Vec::new();
    assert(metadata::targets(out@) =~= named(all.take(0), name@));
    for i in 0..line.len()
        invariant
            all == metadata::targets(line@),
            metadata::targets(out@) == named(all.take(i as int), name@),
    {
        let mut own = find_own_methods(line[i], name);
        proof {
            assert(all.take(i + 1).last() == *line@[i as int]);
            assert(all.take(i + 1).drop_last() == all.take(i as int));
        }
        let ghost was = out@;
        let ghost more = own@;
        out.append(&mut own);
        assert(metadata::targets(out@) =~= metadata::targets(was) + metadata::targets(more));
    }
    assert(all.take(all.len() as int) == all);
    out
}

/// A lookup by name gives the methods of the lineage that answer to it, all of them and no other.
pub proof fn law_every_match_is_found(line: Seq<ClassDeclaration>, name: Seq<char>)
    ensures
        forall|m: MethodDeclaration| #[trigger]
            named(line, name).contains(m) <==> m.answers_to(name) && declares(line, m),
    decreases line.len(),
{
    if line.len() > 0 {
        let before = line.drop_last();
        law_every_match_is_found(before, name);
        let ms = class_helpers::class_methods(line.last());
        let own = ms.filter(answering(name));
        let last = line.len() - 1;
        assert forall|m: MethodDeclaration| #[trigger] named(line, name).contains(m) implies
            m.answers_to(name) && declares(line, m) by {
            let k = named(line, name).index_of(m);
            if k < named(before, name).len() {
                assert(named(before, name)[k] == m);
                assert(named(before, name).contains(m));
                lemma_declares_more(line, last, m);
            } else {
                let j = k - named(before, name).len();
                assert(own[j] == m);
                ms.lemma_filter_pred(answering(name), j);
                ms.lemma_filter_contains_rev(answering(name), m);
                let i = ms.index_of(m);
                assert(class_helpers::class_methods(line[last])[i] == m);
            }
        }
        assert forall|m: MethodDeclaration|
            m.answers_to(name) && declares(line, m) implies #[trigger] named(line, name).contains(
            m,
        ) by {
            let (k, i) = choose|k: int, i: int|
                0 <= k < line.len() && 0 <= i < class_helpers::class_methods(line[k]).len()
                    && #[trigger] class_helpers::class_methods(line[k])[i] == m;
            if k < last {
                assert(class_helpers::class_methods(before[k])[i] == m);
                assert(declares(before, m));
                assert(named(before, name).contains(m));
                let j = named(before, name).index_of(m);
                assert(named(line, name)[j] == m);
            } else {
                ms.lemma_filter_contains(answering(name), i);
                let j = own.index_of(m);
                assert(named(line, name)[named(before, name).len() + j] == m);
            }
        }
    } else {
        assert forall|m: MethodDeclaration| !declares(line, m) by {}
    }
}

/// A part of a lineage declares nothing that the whole does not.
proof fn lemma_declares_more(line: Seq<ClassDeclaration>, n: int, m: MethodDeclaration)
    requires
        0 <= n <= line.len(),
        declares(line.take(n), m),
    ensures
        declares(line, m),
{
    let part = line.take(n);
    let (k, i) = choose|k: int, i: int|
        0 <= k < part.len() && 0 <= i < class_helpers::class_methods(part[k]).len()
            && #[trigger] class_helpers::class_methods(part[k])[i] == m;
    assert(class_helpers::class_methods(line[k])[i] == m);
}

/// Pick the overload matching the supplied argument count from every method named `name`. Falls
/// back to the first name match when no candidate's arity matches exactly, so callers can still
/// surface a normal WinRT-call error instead of silently doing nothing.
pub fn find_class_method_by_arity<'a>(
    md: &'a Metadata,
    class_declaration: &'a ClassDeclaration,
    name: &str,
    argc: usize,
) -> (r: Option<&'a MethodDeclaration>)
    requires
        metadata::bases_end(*md, *class_declaration),
    ensures
        ({
            let found = named(metadata::lineage(*md, *class_declaration), name@);
            match r {
                Some(m) => found.len() > 0 && *m == found[match first_of_arity(found, argc) {
                    Some(i) => i,
                    None => 0,
                }],
                None => found.len() == 0,
            }
        }),
{
    let found = find_class_methods(md, class_declaration, name);
    if found.len() == 0 {
        return None;
    }
    let i: usize = pick_overload(&found, argc);
    Some(found[i])
}

/// A method, by what tells it apart.
pub struct MethodView {
    pub name: Seq<char>,
    pub overload_name: Seq<char>,
    pub number_of_parameters: usize,
    pub is_static: bool,
    pub scope: usize,
    pub token: i32,
}

impl View for MethodDeclaration {
    type V = MethodView;

    open spec fn view(&self) -> MethodView {
        MethodView {
            name: self.name@,
            overload_name: self.overload_name@,
            number_of_parameters: self.number_of_parameters,
            is_static: self.is_static,
            scope: self.scope,
            token: self.token,
        }
    }
}

/// The views of methods.
pub open spec fn method_views(ms: Seq<MethodDeclaration>) -> Seq<MethodView> {
    Seq::new(ms.len(), |i: int| ms[i]@)
}

impl MethodDeclaration {
    /// The same method.
    pub fn copy(&self) -> (r: MethodDeclaration)
        ensures
            r@ == self@,
    {
        MethodDeclaration {
            name: self.name.clone(),
            overload_name: self.overload_name.clone(),
            number_of_parameters: self.number_of_parameters,
            is_static: self.is_static,
            scope: self.scope,
            token: self.token,
        }
    }
}

/// `ahash::AHashMap`.
#[verifier::external_type_specification]
#[verifier::external_body]
#[verifier::reject_recursive_types(K)]
#[verifier::reject_recursive_types(V)]
#[verifier::reject_recursive_types(S)]
pub struct ExAHashMap<K, V, S>(AHashMap<K, V, S>);

/// `ahash::RandomState`.
#[verifier::external_type_specification]
#[verifier::external_body]
pub struct ExRandomState(ahash::RandomState);

/// What a map of overload siblings holds.
pub uninterp spec fn siblings_in(m: AHashMap<(usize, i32), Vec<MethodDeclaration>>) -> Map<
    (usize, i32),
    Seq<MethodView>,
>;

/// `AHashMap::new`: an empty map.
#[verifier::external_body]
fn no_siblings() -> (r: AHashMap<(usize, i32), Vec<MethodDeclaration>>)
    ensures
        forall|k: (usize, i32)| !siblings_in(r).contains_key(k),
{
    AHashMap::new()
}

/// `AHashMap::get`: the value of the key, if the map has it.
#[verifier::external_body]
fn get_siblings<'a>(
    m: &'a AHashMap<(usize, i32), Vec<MethodDeclaration>>,
    key: (usize, i32),
) -> (r: Option<&'a Vec<MethodDeclaration>>)
    ensures
        match r {
            Some(v) => siblings_in(*m).contains_key(key) && siblings_in(*m)[key] == method_views(v@),
            None => !siblings_in(*m).contains_key(key),
        },
{
    m.get(&key)
}

/// `AHashMap::insert`: the key has this value, whatever it had before; nothing else changes.
#[verifier::external_body]
fn insert_siblings(
    m: &mut AHashMap<(usize, i32), Vec<MethodDeclaration>>,
    key: (usize, i32),
    value: Vec<MethodDeclaration>,
)
    ensures
        siblings_in(*final(m)) == siblings_in(*old(m)).insert(key, method_views(value@)),
{
    m.insert(key, value);
}

/// Bound method (metadata scope, token) to every overload sharing its public name, for methods whose
/// overloads differ in arity.
pub struct Siblings {
    map: AHashMap<(usize, i32), Vec<MethodDeclaration>>,
}

impl View for Siblings {
    type V = Map<(usize, i32), Seq<MethodView>>;

    closed spec fn view(&self) -> Map<(usize, i32), Seq<MethodView>> {
        siblings_in(self.map)
    }
}

/// What is recorded for a bound method.
pub open spec fn recorded(m: Map<(usize, i32), Seq<MethodView>>, key: (usize, i32)) -> Seq<
    MethodView,
> {
    if m.contains_key(key) {
        m[key]
    } else {
        Seq::empty()
    }
}

/// The first overload that takes `argc` arguments.
pub open spec fn first_recorded(all: Seq<MethodView>, argc: usize) -> Option<MethodView>
    decreases all.len(),
{
    if all.len() == 0 {
        None
    } else if all[0].number_of_parameters == argc {
        Some(all[0])
    } else {
        first_recorded(all.drop_first(), argc)
    }
}

/// Whether one of the overloads takes `n` arguments.
pub open spec fn views_have_arity(overloads: Seq<MethodView>, n: usize) -> bool {
    exists|i: int|
        0 <= i < overloads.len() && (#[trigger] overloads[i]).number_of_parameters == n
}

/// `start` with each method of the public name `name` that is as static and takes a number of
/// arguments that none before it takes.
pub open spec fn siblings_among(
    start: Seq<MethodView>,
    found: Seq<MethodDeclaration>,
    name: Seq<char>,
    is_static: bool,
) -> Seq<MethodView>
    decreases found.len(),
{
    if found.len() == 0 {
        start
    } else {
        let before = siblings_among(start, found.drop_last(), name, is_static);
        let m = found.last();
        if m.name@ == name && m.is_static == is_static && !views_have_arity(
            before,
            m.number_of_parameters,
        ) {
            before.push(m@)
        } else {
            before
        }
    }
}

/// The overloads that a lookup of `js_name` in `class` that bound `bound` stands for.
pub open spec fn siblings_of(
    md: Metadata,
    class: ClassDeclaration,
    js_name: Seq<char>,
    bound: MethodView,
) -> Seq<MethodView> {
    siblings_among(
        seq![bound],
        named(metadata::lineage(md, class), js_name),
        js_name,
        bound.is_static,
    )
}

/// Whether one of the overloads takes `n` arguments.
fn any_takes(overloads: &Vec<MethodDeclaration>, n: usize) -> (r: bool)
    ensures
        r == views_have_arity(method_views(overloads@), n),
{
    let ghost all = method_views(overloads@);
    for i in 0..overloads.len()
        invariant
            all == method_views(overloads@),
            forall|j: int| 0 <= j < i ==> (#[trigger] all[j]).number_of_parameters != n,
    {
        if overloads[i].number_of_parameters == n {
            assert(all[i as int].number_of_parameters == n);
            return true;
        }
    }
    false
}

impl Siblings {
    /// Nothing recorded.
    pub fn new() -> (r: Siblings)
        ensures
            r@ == Map::<(usize, i32), Seq<MethodView>>::empty(),
    {
        let r = Siblings { map: no_siblings() };
        assert(r@ =~= Map::<(usize, i32), Seq<MethodView>>::empty());
        r
    }

    /// Records the overloads of a method bound by its public name, so the call can switch arity.
    /// Only public-name lookups register; an `[Overload]`-name lookup stays bound to exactly that
    /// method, and a method without overloads of another arity needs no record.
    pub fn register_overload_siblings(
        &mut self,
        md: &Metadata,
        class_declaration: &ClassDeclaration,
        js_name: &str,
        bound: &MethodDeclaration,
    )
        requires
            metadata::bases_end(*md, *class_declaration),
        ensures
            ({
                let key = (bound.scope, bound.token);
                let all = siblings_of(*md, *class_declaration, js_name@, bound@);
                final(self)@ == if bound.name@ != js_name@ || old(self)@.contains_key(key)
                    || all.len() <= 1 {
                    old(self)@
                } else {
                    old(self)@.insert(key, all)
                }
            }),
    {
        if !text::same_text(bound.name.as_str(), js_name) {
            return ;
        }
        let key = (bound.scope, bound.token);
        if get_siblings(&self.map, key).is_some() {
            return ;
        }
        let found = find_class_methods(md, class_declaration, js_name);
        let ghost all = named(metadata::lineage(*md, *class_declaration), js_name@);
        let mut siblings: Vec<MethodDeclaration> = Vec::new();
        siblings.push(bound.copy());
        assert(method_views(siblings@) =~= seq![bound@]);
        assert(all.take(0) =~= Seq::<MethodDeclaration>::empty());
        for i in 0..found.len()
            invariant
                all == metadata::targets(found@),
                method_views(siblings@) == siblings_among(
                    seq![bound@],
                    all.take(i as int),
                    js_name@,
                    bound.is_static,
                ),
        {
            let m = found[i];
            proof {
                assert(all[i as int] == *m);
                assert(all.take(i + 1).drop_last() == all.take(i as int));
            }
            if text::same_text(m.name.as_str(), js_name) && m.is_static == bound.is_static
                && !any_takes(&siblings, m.number_of_parameters) {
                let ghost was = siblings@;
                siblings.push(m.copy());
                assert(method_views(siblings@) =~= method_views(was).push(m@));
            }
        }
        assert(all.take(all.len() as int) == all);
        if siblings.len() > 1 {
            insert_siblings(&mut self.map, key, siblings);
        }
    }

    /// The overload of `bound` matching `argc`, when `bound` itself doesn't. `None` means call
    /// `bound` as-is.
    pub fn overload_for_argc(&self, bound: &MethodDeclaration, argc: usize) -> (r: Option<
        &MethodDeclaration,
    >)
        ensures
            match r {
                Some(m) => bound.number_of_parameters != argc && first_recorded(
                    recorded(self@, (bound.scope, bound.token)),
                    argc,
                ) == Some(m@),
                None => bound.number_of_parameters == argc || first_recorded(
                    recorded(self@, (bound.scope, bound.token)),
                    argc,
                ) is None,
            },
            match r {
                Some(m) => m.number_of_parameters == argc && bound.number_of_parameters != argc
                    && self@.contains_key((bound.scope, bound.token)) && exists|i: int|
                    0 <= i < self@[(bound.scope, bound.token)].len() && #[trigger] self@[(
                        bound.scope,
                        bound.token,
                    )][i] == m@ && forall|j: int|
                        0 <= j < i ==> (#[trigger] self@[(
                            bound.scope,
                            bound.token,
                        )][j]).number_of_parameters != argc,
                None => bound.number_of_parameters == argc || !self@.contains_key(
                    (bound.scope, bound.token),
                ) || forall|j: int|
                    0 <= j < self@[(bound.scope, bound.token)].len() ==> (#[trigger] self@[(
                        bound.scope,
                        bound.token,
                    )][j]).number_of_parameters != argc,
            },
    {
        if bound.number_of_parameters == argc {
            return None;
        }
        let siblings = match get_siblings(&self.map, (bound.scope, bound.token)) {
            Some(v) => v,
            None => {
                return None;
            },
        };
        let ghost all = method_views(siblings@);
        assert(all.skip(0) == all);
        for i in 0..siblings.len()
            invariant
                all == method_views(siblings@),
                bound.number_of_parameters != argc,
                recorded(self@, (bound.scope, bound.token)) == all,
                self@.contains_key((bound.scope, bound.token)),
                self@[(bound.scope, bound.token)] == all,
                first_recorded(all, argc) == first_recorded(all.skip(i as int), argc),
                forall|j: int| 0 <= j < i ==> (#[trigger] all[j]).number_of_parameters != argc,
        {
            assert(all.skip(i as int)[0] == siblings@[i as int]@);
            assert(all.skip(i as int).drop_first() == all.skip(i + 1));
            if siblings[i].number_of_parameters == argc {
                assert(all[i as int] == siblings@[i as int]@);
                return Some(&siblings[i]);
            }
        }
        None
    }
}

/// What is recorded for a bound method has one overload per number of arguments, all of the public
/// name it was looked up under and as static as it is; the bound method comes first.
pub proof fn law_siblings_share_name_and_differ_in_arity(
    md: Metadata,
    class: ClassDeclaration,
    js_name: Seq<char>,
    bound: MethodView,
    i: int,
    j: int,
)
    requires
        bound.name == js_name,
        0 <= i < j < siblings_of(md, class, js_name, bound).len(),
    ensures
        ({
            let all = siblings_of(md, class, js_name, bound);
            &&& all[0] == bound
            &&& all[j].name == js_name
            &&& all[j].is_static == bound.is_static
            &&& all[i].number_of_parameters != all[j].number_of_parameters
        }),
{
    lemma_siblings(
        bound,
        named(metadata::lineage(md, class), js_name),
        js_name,
        i,
        j,
    );
}

proof fn lemma_siblings(
    bound: MethodView,
    found: Seq<MethodDeclaration>,
    name: Seq<char>,
    i: int,
    j: int,
)
    requires
        bound.name == name,
        0 <= i < j < siblings_among(seq![bound], found, name, bound.is_static).len(),
    ensures
        ({
            let all = siblings_among(seq![bound], found, name, bound.is_static);
            &&& all[0] == bound
            &&& all[j].name == name
            &&& all[j].is_static == bound.is_static
            &&& all[i].number_of_parameters != all[j].number_of_parameters
        }),
    decreases found.len(),
{
    if found.len() > 0 {
        let before = siblings_among(seq![bound], found.drop_last(), name, bound.is_static);
        if j < before.len() {
            lemma_siblings(bound, found.drop_last(), name, i, j);
        } else {
            lemma_siblings_start(bound, found.drop_last(), name);
            if views_have_arity(before, found.last().number_of_parameters) {
                assert(false);
            }
            assert(before[i].number_of_parameters != found.last().number_of_parameters);
        }
    }
}

proof fn lemma_siblings_start(bound: MethodView, found: Seq<MethodDeclaration>, name: Seq<char>)
    ensures
        siblings_among(seq![bound], found, name, bound.is_static).len() > 0,
        siblings_among(seq![bound], found, name, bound.is_static)[0] == bound,
    decreases found.len(),
{
    if found.len() > 0 {
        lemma_siblings_start(bound, found.drop_last(), name);
    }
}

/// The overload taken for a number of arguments, zero included, is the first that takes so many, and
/// one is taken exactly where there is one.
pub proof fn law_overloads_are_taken_by_arity(overloads: Seq<MethodDeclaration>, argc: usize)
    ensures
        first_of_arity(overloads, argc) matches Some(i) ==> 0 <= i < overloads.len()
            && overloads[i].number_of_parameters == argc && forall|j: int|
            0 <= j < i ==> (#[trigger] overloads[j]).number_of_parameters != argc,
        first_of_arity(overloads, argc) is None ==> forall|j: int|
            0 <= j < overloads.len() ==> (#[trigger] overloads[j]).number_of_parameters != argc,
    decreases overloads.len(),
{
    if overloads.len() > 0 {
        let d = overloads.drop_last();
        law_overloads_are_taken_by_arity(d, argc);
        assert forall|j: int| 0 <= j < d.len() implies #[trigger] overloads[j] == d[j] by {}
        if let Some(i) = first_of_arity(d, argc) {
            assert forall|j: int| 0 <= j < i implies (#[trigger] overloads[j]).number_of_parameters
                != argc by {
                assert(d[j].number_of_parameters != argc);
            }
        } else {
            assert forall|j: int| 0 <= j < d.len() implies (
            #[trigger] overloads[j]).number_of_parameters != argc by {
                assert(d[j].number_of_parameters != argc);
            }
        }
    }
}

/// The recorded overload taken for a number of arguments is the first that takes so many, and one is
/// taken exactly where there is one.
pub proof fn law_recorded_overloads_are_taken_by_arity(all: Seq<MethodView>, argc: usize)
    ensures
        first_recorded(all, argc) matches Some(m) ==> exists|i: int|
            0 <= i < all.len() && #[trigger] all[i] == m && m.number_of_parameters == argc
                && forall|j: int| 0 <= j < i ==> (#[trigger] all[j]).number_of_parameters != argc,
        first_recorded(all, argc) is None ==> forall|j: int|
            0 <= j < all.len() ==> (#[trigger] all[j]).number_of_parameters != argc,
    decreases all.len(),
{
    if all.len() > 0 {
        if all[0].number_of_parameters != argc {
            let rest = all.drop_first();
            law_recorded_overloads_are_taken_by_arity(rest, argc);
            assert forall|j: int| 0 < j < all.len() implies #[trigger] all[j] == rest[j - 1] by {}
            if let Some(m) = first_recorded(rest, argc) {
                let i = choose|i: int|
                    0 <= i < rest.len() && #[trigger] rest[i] == m && m.number_of_parameters
                        == argc && forall|j: int|
                        0 <= j < i ==> (#[trigger] rest[j]).number_of_parameters != argc;
                assert(all[i + 1] == m);
                assert forall|j: int| 0 <= j < i + 1 implies (
                #[trigger] all[j]).number_of_parameters != argc by {
                    if j > 0 {
                        assert(rest[j - 1].number_of_parameters != argc);
                    }
                }
            } else {
                assert forall|j: int| 0 <= j < all.len() implies (
                #[trigger] all[j]).number_of_parameters != argc by {
                    if j > 0 {
                        assert(rest[j - 1].number_of_parameters != argc);
                    }
                }
            }
        }
    }
}

/// The candidates of a lineage come class by class: each method under its overload name, or its plain
/// name where it has no other; then those with an overload name of another spelling under their plain
/// names.
#[verifier::rlimit(40)]
pub proof fn law_candidates_come_class_by_class(line: Seq<ClassDeclaration>)
    ensures
        candidates(line) == Seq::new(
            line.len(),
            |k: int|
                Seq::new(
                    class_helpers::class_methods(line[k]).len(),
                    |i: int|
                        (
                            if class_helpers::class_methods(line[k])[i].overload_name@.len() > 0 {
                                class_helpers::class_methods(line[k])[i].overload_name@
                            } else {
                                class_helpers::class_methods(line[k])[i].name@
                            },
                            class_helpers::class_methods(line[k])[i],
                        ),
                ) + class_helpers::class_methods(line[k]).filter(
                    |m: MethodDeclaration|
                        m.overload_name@.len() > 0 && m.overload_name@ != m.name@,
                ).map_values(|m: MethodDeclaration| (m.name@, m)),
        ).flatten(),
    decreases line.len(),
{
    let parts = |line: Seq<ClassDeclaration>|
        Seq::new(
            line.len(),
            |k: int|
                Seq::new(
                    class_helpers::class_methods(line[k]).len(),
                    |i: int|
                        (
                            if class_helpers::class_methods(line[k])[i].overload_name@.len() > 0 {
                                class_helpers::class_methods(line[k])[i].overload_name@
                            } else {
                                class_helpers::class_methods(line[k])[i].name@
                            },
                            class_helpers::class_methods(line[k])[i],
                        ),
                ) + class_helpers::class_methods(line[k]).filter(
                    |m: MethodDeclaration|
                        m.overload_name@.len() > 0 && m.overload_name@ != m.name@,
                ).map_values(|m: MethodDeclaration| (m.name@, m)),
        );
    if line.len() == 0 {
        assert(candidates(line) =~= parts(line).flatten());
    } else {
        let d = line.drop_last();
        law_candidates_come_class_by_class(d);
        let ms = class_helpers::class_methods(line.last());
        lemma_public_filtered(ms);
        let last = parts(line).last();
        assert(last =~= listed(ms) + public(ms));
        assert(parts(line) =~= parts(d).push(last));
        parts(d).lemma_flatten_push(last);
        assert(candidates(line) =~= candidates(d) + last);
    }
}

proof fn lemma_public_filtered(ms: Seq<MethodDeclaration>)
    ensures
        public(ms) == ms.filter(
            |m: MethodDeclaration| m.overload_name@.len() > 0 && m.overload_name@ != m.name@,
        ).map_values(|m: MethodDeclaration| (m.name@, m)),
    decreases ms.len(),
{
    reveal(Seq::filter);
    let keep = |m: MethodDeclaration| m.overload_name@.len() > 0 && m.overload_name@ != m.name@;
    let pair = |m: MethodDeclaration| (m.name@, m);
    if ms.len() == 0 {
        assert(public(ms) =~= ms.filter(keep).map_values(pair));
    } else {
        lemma_public_filtered(ms.drop_last());
        assert(public(ms) =~= ms.filter(keep).map_values(pair));
    }
}

/// A name reaches, of the candidates under it, the first of each number of arguments, in their order,
/// and no other; a name without candidates is not there at all.
pub proof fn law_names_reach_the_first_of_each_arity(
    c: Seq<(Seq<char>, MethodDeclaration)>,
    name: Seq<char>,
)
    ensures
        grouped(Map::empty(), c).contains_key(name) <==> exists|k: int|
            0 <= k < c.len() && (#[trigger] c[k]).0 == name,
        grouped(Map::empty(), c).contains_key(name) ==> ({
            let reached = grouped(Map::empty(), c)[name];
            &&& forall|k: int|
                0 <= k < c.len() && (#[trigger] c[k]).0 == name ==> exists|i: int|
                    0 <= i < reached.len() && (#[trigger] reached[i]).number_of_parameters
                        == c[k].1.number_of_parameters
            &&& exists|pos: Seq<int>| #[trigger]
                pos.len() == reached.len() && (forall|i: int|
                    0 <= i < pos.len() ==> 0 <= #[trigger] pos[i] < c.len() && c[pos[i]] == (
                        name,
                        reached[i],
                    ) && forall|j: int|
                        0 <= j < pos[i] ==> !((#[trigger] c[j]).0 == name
                            && c[j].1.number_of_parameters == reached[i].number_of_parameters)) && (
                forall|i: int, j: int|
                    0 <= i < j < pos.len() ==> (#[trigger] pos[i]) < (#[trigger] pos[j]))
        }),
{
    let pos = lemma_reached_places(c, name);
    let g = grouped(Map::<Seq<char>, Seq<MethodDeclaration>>::empty(), c);
    assert(pos.len() == bucket(g, name).len());
    if g.contains_key(name) {
        assert(g[name] == bucket(g, name));
        let b = bucket(g, name);
        assert forall|k: int| 0 <= k < c.len() && (#[trigger] c[k]).0 == name implies exists|i: int|
            0 <= i < b.len() && (#[trigger] b[i]).number_of_parameters
                == c[k].1.number_of_parameters by {
            lemma_candidate_reached(c, k);
        }
    }
}

/// The places of the candidates that a name reaches.
#[verifier::rlimit(40)]
proof fn lemma_reached_places(c: Seq<(Seq<char>, MethodDeclaration)>, name: Seq<char>) -> (pos: Seq<
    int,
>)
    ensures
        grouped(Map::empty(), c).contains_key(name) <==> exists|k: int|
            0 <= k < c.len() && (#[trigger] c[k]).0 == name,
        grouped(Map::empty(), c).contains_key(name) ==> pos.len() > 0,
        pos.len() == bucket(grouped(Map::empty(), c), name).len(),
        forall|i: int|
            0 <= i < pos.len() ==> 0 <= #[trigger] pos[i] < c.len() && c[pos[i]] == (
                name,
                bucket(grouped(Map::empty(), c), name)[i],
            ) && forall|j: int|
                0 <= j < pos[i] ==> !((#[trigger] c[j]).0 == name && c[j].1.number_of_parameters
                    == bucket(grouped(Map::empty(), c), name)[i].number_of_parameters),
        forall|i: int, j: int|
            0 <= i < j < pos.len() ==> (#[trigger] pos[i]) < (#[trigger] pos[j]),
    decreases c.len(),
{
    let none = Map::<Seq<char>, Seq<MethodDeclaration>>::empty();
    if c.len() == 0 {
        Seq::empty()
    } else {
        let d = c.drop_last();
        let last = c.last();
        let was = lemma_reached_places(d, name);
        let (g, h) = (grouped(none, d), grouped(none, c));
        let before = bucket(g, name);
        let now = bucket(h, name);
        assert forall|k: int| 0 <= k < d.len() implies #[trigger] c[k] == d[k] by {}
        assert(h.contains_key(name) <==> g.contains_key(name) || last.0 == name) by {
            if last.0 == name && has_arity(before, last.1.number_of_parameters) {
                assert(g.contains_key(name));
            }
        }
        assert(h.contains_key(name) <==> exists|k: int|
            0 <= k < c.len() && (#[trigger] c[k]).0 == name) by {
            if g.contains_key(name) {
                let k = choose|k: int| 0 <= k < d.len() && (#[trigger] d[k]).0 == name;
                assert(c[k].0 == name);
            }
            if last.0 == name {
                assert(c[c.len() - 1].0 == name);
            }
            if exists|k: int| 0 <= k < c.len() && (#[trigger] c[k]).0 == name {
                let k = choose|k: int| 0 <= k < c.len() && (#[trigger] c[k]).0 == name;
                if k < d.len() {
                    assert(d[k].0 == name);
                }
            }
        }
        let taken = last.0 == name && !has_arity(before, last.1.number_of_parameters);
        let pos = if taken {
            was.push(c.len() - 1)
        } else {
            was
        };
        assert(now == if taken {
            before.push(last.1)
        } else {
            before
        });
        assert forall|i: int| 0 <= i < pos.len() implies 0 <= #[trigger] pos[i] < c.len()
            && c[pos[i]] == (name, now[i]) && forall|j: int|
            0 <= j < pos[i] ==> !((#[trigger] c[j]).0 == name && c[j].1.number_of_parameters
                == now[i].number_of_parameters) by {
            if i < was.len() {
                assert(pos[i] == was[i]);
                assert(now[i] == before[i]);
                assert forall|j: int| 0 <= j < pos[i] implies !((#[trigger] c[j]).0 == name
                    && c[j].1.number_of_parameters == now[i].number_of_parameters) by {
                    assert(!(d[j].0 == name && d[j].1.number_of_parameters
                        == before[i].number_of_parameters));
                }
            } else {
                assert forall|j: int| 0 <= j < pos[i] implies !((#[trigger] c[j]).0 == name
                    && c[j].1.number_of_parameters == now[i].number_of_parameters) by {
                    if d[j].0 == name && d[j].1.number_of_parameters
                        == last.1.number_of_parameters {
                        lemma_candidate_reached(d, j);
                    }
                }
            }
        }
        pos
    }
}

/// The methods found by name are, class by class, those whose plain or overload name it is, in order.
pub proof fn law_methods_are_found_class_by_class(line: Seq<ClassDeclaration>, name: Seq<char>)
    ensures
        named(line, name) == Seq::new(
            line.len(),
            |k: int|
                class_helpers::class_methods(line[k]).filter(
                    |m: MethodDeclaration|
                        m.name@ == name || (m.overload_name@.len() > 0 && m.overload_name@ == name),
                ),
        ).flatten(),
    decreases line.len(),
{
    let keep = |m: MethodDeclaration|
        m.name@ == name || (m.overload_name@.len() > 0 && m.overload_name@ == name);
    assert(keep =~= answering(name));
    let parts = Seq::new(
        line.len(),
        |k: int| class_helpers::class_methods(line[k]).filter(keep),
    );
    if line.len() == 0 {
        assert(named(line, name) =~= parts.flatten());
    } else {
        let d = line.drop_last();
        law_methods_are_found_class_by_class(d, name);
        let before = Seq::new(d.len(), |k: int| class_helpers::class_methods(d[k]).filter(keep));
        assert(parts =~= before.push(parts.last()));
        before.lemma_flatten_push(parts.last());
        assert(named(line, name) =~= named(d, name) + parts.last());
    }
}

/// The overloads recorded for a bound method are itself and, of the methods found under the same plain
/// name that are as static as it is, the first of each further number of arguments, in order.
pub proof fn law_siblings_are_the_first_of_each_arity(
    bound: MethodView,
    found: Seq<MethodDeclaration>,
    name: Seq<char>,
)
    ensures
        ({
            let all = siblings_among(seq![bound], found, name, bound.is_static);
            &&& all.len() > 0
            &&& all[0] == bound
            &&& forall|k: int|
                0 <= k < found.len() && (#[trigger] found[k]).name@ == name && found[k].is_static
                    == bound.is_static ==> exists|i: int|
                    0 <= i < all.len() && (#[trigger] all[i]).number_of_parameters
                        == found[k].number_of_parameters
            &&& exists|pos: Seq<int>| #[trigger]
                pos.len() == all.len() - 1 && (forall|i: int|
                    0 <= i < pos.len() ==> 0 <= #[trigger] pos[i] < found.len() && all[i + 1]
                        == found[pos[i]]@ && found[pos[i]].name@ == name
                        && found[pos[i]].is_static == bound.is_static
                        && found[pos[i]].number_of_parameters != bound.number_of_parameters
                        && forall|j: int|
                        0 <= j < pos[i] ==> !((#[trigger] found[j]).name@ == name
                            && found[j].is_static == bound.is_static
                            && found[j].number_of_parameters
                            == found[pos[i]].number_of_parameters)) && (forall|i: int, j: int|
                    0 <= i < j < pos.len() ==> (#[trigger] pos[i]) < (#[trigger] pos[j]))
        }),
{
    let pos = lemma_sibling_places(bound, found, name);
    let all = siblings_among(seq![bound], found, name, bound.is_static);
    assert(pos.len() == all.len() - 1);
}

/// The places of the siblings.
#[verifier::rlimit(40)]
proof fn lemma_sibling_places(
    bound: MethodView,
    found: Seq<MethodDeclaration>,
    name: Seq<char>,
) -> (pos: Seq<int>)
    ensures
        ({
            let all = siblings_among(seq![bound], found, name, bound.is_static);
            &&& all.len() > 0
            &&& all[0] == bound
            &&& forall|k: int|
                0 <= k < found.len() && (#[trigger] found[k]).name@ == name && found[k].is_static
                    == bound.is_static ==> exists|i: int|
                    0 <= i < all.len() && (#[trigger] all[i]).number_of_parameters
                        == found[k].number_of_parameters
            &&& pos.len() == all.len() - 1
            &&& forall|i: int|
                0 <= i < pos.len() ==> 0 <= #[trigger] pos[i] < found.len() && all[i + 1]
                    == found[pos[i]]@ && found[pos[i]].name@ == name && found[pos[i]].is_static
                    == bound.is_static && found[pos[i]].number_of_parameters
                    != bound.number_of_parameters && forall|j: int|
                    0 <= j < pos[i] ==> !((#[trigger] found[j]).name@ == name && found[j].is_static
                        == bound.is_static && found[j].number_of_parameters
                        == found[pos[i]].number_of_parameters)
            &&& forall|i: int, j: int|
                0 <= i < j < pos.len() ==> (#[trigger] pos[i]) < (#[trigger] pos[j])
        }),
    decreases found.len(),
{
    let now = siblings_among(seq![bound], found, name, bound.is_static);
    if found.len() == 0 {
        Seq::empty()
    } else {
        let d = found.drop_last();
        let m = found.last();
        let was = lemma_sibling_places(bound, d, name);
        let before = siblings_among(seq![bound], d, name, bound.is_static);
        assert forall|k: int| 0 <= k < d.len() implies #[trigger] found[k] == d[k] by {}
        let fits = m.name@ == name && m.is_static == bound.is_static;
        let taken = fits && !views_have_arity(before, m.number_of_parameters);
        let pos = if taken {
            was.push(found.len() - 1)
        } else {
            was
        };
        assert forall|k: int|
            0 <= k < found.len() && (#[trigger] found[k]).name@ == name && found[k].is_static
                == bound.is_static implies exists|i: int|
            0 <= i < now.len() && (#[trigger] now[i]).number_of_parameters
                == found[k].number_of_parameters by {
            if k < d.len() || !taken {
                if k < d.len() {
                    assert(d[k].name@ == name);
                }
                let i = choose|i: int|
                    0 <= i < before.len() && (#[trigger] before[i]).number_of_parameters
                        == found[k].number_of_parameters;
                assert(now[i] == before[i]);
            } else {
                assert(now[before.len() as int] == m@);
            }
        }
        assert forall|i: int| 0 <= i < pos.len() implies 0 <= #[trigger] pos[i] < found.len()
            && now[i + 1] == found[pos[i]]@ && found[pos[i]].name@ == name
            && found[pos[i]].is_static == bound.is_static && found[pos[i]].number_of_parameters
            != bound.number_of_parameters && forall|j: int|
            0 <= j < pos[i] ==> !((#[trigger] found[j]).name@ == name && found[j].is_static
                == bound.is_static && found[j].number_of_parameters
                == found[pos[i]].number_of_parameters) by {
            if i < was.len() {
                assert(pos[i] == was[i]);
                assert(now[i + 1] == before[i + 1]);
                assert forall|j: int| 0 <= j < pos[i] implies !((#[trigger] found[j]).name@ == name
                    && found[j].is_static == bound.is_static && found[j].number_of_parameters
                    == found[pos[i]].number_of_parameters) by {
                    assert(!(d[j].name@ == name && d[j].is_static == bound.is_static
                        && d[j].number_of_parameters == d[was[i]].number_of_parameters));
                }
            } else {
                assert(before[0].number_of_parameters != m.number_of_parameters);
                assert forall|j: int| 0 <= j < pos[i] implies !((#[trigger] found[j]).name@ == name
                    && found[j].is_static == bound.is_static && found[j].number_of_parameters
                    == found[pos[i]].number_of_parameters) by {
                    if d[j].name@ == name && d[j].is_static == bound.is_static
                        && d[j].number_of_parameters == m.number_of_parameters {
                        let i = choose|i: int|
                            0 <= i < before.len() && (#[trigger] before[i]).number_of_parameters
                                == d[j].number_of_parameters;
                        assert(views_have_arity(before, m.number_of_parameters));
                    }
                }
            }
        }
        pos
    }
}

/// A method is told apart by its names, its number of parameters, whether it is static, and where it
/// is declared.
pub proof fn law_method_views_keep_every_field(m: MethodDeclaration)
    ensures
        m@.name == m.name@,
        m@.overload_name == m.overload_name@,
        m@.number_of_parameters == m.number_of_parameters,
        m@.is_static == m.is_static,
        m@.scope == m.scope,
        m@.token == m.token,
{
}

/// What a name reaches, what is recorded for a method, and which arities there are, is what stands
/// under the name or the method, and nothing where nothing does.
pub proof fn law_what_is_not_there_is_empty(
    g: Map<Seq<char>, Seq<MethodDeclaration>>,
    name: Seq<char>,
    m: Map<(usize, i32), Seq<MethodView>>,
    key: (usize, i32),
    argc: usize,
)
    ensures
        g.contains_key(name) ==> bucket(g, name) == g[name],
        !g.contains_key(name) ==> bucket(g, name).len() == 0,
        m.contains_key(key) ==> recorded(m, key) == m[key],
        !m.contains_key(key) ==> recorded(m, key).len() == 0,
        has_arity(bucket(g, name), argc) <==> g.contains_key(name) && exists|i: int|
            0 <= i < g[name].len() && (#[trigger] g[name][i]).number_of_parameters == argc,
{
}

/// Groups and lists of methods are read place by place.
pub proof fn law_groups_are_read_place_by_place(
    g: Map<Seq<char>, Vec<&MethodDeclaration>>,
    ms: Seq<MethodDeclaration>,
)
    ensures
        forall|name: Seq<char>| #[trigger]
            groups_view(g).contains_key(name) <==> g.contains_key(name),
        forall|name: Seq<char>|
            g.contains_key(name) ==> #[trigger] groups_view(g)[name] == metadata::targets(g[name]@),
        method_views(ms).len() == ms.len(),
        forall|i: int| 0 <= i < ms.len() ==> #[trigger] method_views(ms)[i] == ms[i]@,
{
}

/// A bound method has siblings to record exactly where other methods of the lineage answer to the same
/// name: they are sought among all that the name finds.
pub proof fn law_siblings_are_sought_in_the_lineage(
    md: Metadata,
    class: ClassDeclaration,
    js_name: Seq<char>,
    bound: MethodView,
)
    ensures
        siblings_of(md, class, js_name, bound) == siblings_among(
            seq![bound],
            named(metadata::lineage(md, class), js_name),
            js_name,
            bound.is_static,
        ),
        class_groups(md, class) == grouped(Map::empty(), candidates(metadata::lineage(md, class))),
{
}

/// For every list of overloads and every number of arguments, zero included, the position found is
/// that of the first overload that takes so many, and one is found exactly where there is one.
pub proof fn law_positions_are_of_the_first_with_the_arity(
    overloads: &Vec<&MethodDeclaration>,
    argc: usize,
    r: Option<usize>,
)
    requires
        call_ensures(position_of_arity, (overloads, argc), r),
    ensures
        r is Some <==> exists|i: int|
            0 <= i < overloads@.len() && (#[trigger] overloads@[i]).number_of_parameters == argc,
        r matches Some(i) ==> i < overloads@.len() && overloads@[i as int].number_of_parameters
            == argc && forall|j: int|
            0 <= j < i ==> (#[trigger] overloads@[j]).number_of_parameters != argc,
{
    if let Some(i) = r {
        assert(overloads@[i as int].number_of_parameters == argc);
    }
}

/// The overload that is picked takes the number of arguments wherever one does, and is the first of
/// those; where none does, it is the first of all.
pub proof fn law_picked_overloads_fit_where_one_does(
    overloads: &Vec<&MethodDeclaration>,
    argc: usize,
    r: usize,
)
    requires
        call_ensures(pick_overload, (overloads, argc), r),
        overloads@.len() > 0,
    ensures
        r < overloads@.len(),
        overloads@[r as int].number_of_parameters == argc || (r == 0 && forall|j: int|
            0 <= j < overloads@.len() ==> (#[trigger] overloads@[j]).number_of_parameters != argc),
        forall|j: int| 0 <= j < r ==> (#[trigger] overloads@[j]).number_of_parameters != argc,
{
}

/// A method found by name and number of arguments is one of those that the name finds, and takes the
/// number wherever one of them does; none is found only where the name finds none.
pub proof fn law_methods_found_by_arity_fit_where_one_does(
    md: &Metadata,
    class: &ClassDeclaration,
    name: &str,
    argc: usize,
    found: Vec<&MethodDeclaration>,
    r: Option<&MethodDeclaration>,
)
    requires
        call_ensures(find_class_methods, (md, class, name), found),
        call_ensures(find_class_method_by_arity, (md, class, name, argc), r),
    ensures
        r is None <==> found@.len() == 0,
        r matches Some(m) ==> exists|i: int|
            0 <= i < found@.len() && *(#[trigger] found@[i]) == *m && if m.number_of_parameters
                == argc {
                forall|j: int| 0 <= j < i ==> (#[trigger] found@[j]).number_of_parameters != argc
            } else {
                i == 0 && forall|j: int|
                    0 <= j < found@.len() ==> (#[trigger] found@[j]).number_of_parameters != argc
            },
{
    let all = named(metadata::lineage(*md, *class), name@);
    assert(metadata::targets(found@) == all);
    assert forall|j: int| 0 <= j < found@.len() implies *(#[trigger] found@[j]) == all[j] by {
        assert(metadata::targets(found@)[j] == *found@[j]);
    }
    law_overloads_are_taken_by_arity(all, argc);
    if let Some(m) = r {
        let i = match first_of_arity(all, argc) {
            Some(i) => i,
            None => 0,
        };
        assert(*found@[i] == *m);
        assert forall|j: int| 0 <= j < i implies (#[trigger] found@[j]).number_of_parameters
            != argc by {
            assert(all[j].number_of_parameters != argc);
        }
    }
}

/// The overload that a call switches to takes the arguments it was given, and a call keeps its method
/// only where that takes them itself or no recorded overload does.
pub proof fn law_calls_switch_to_a_fitting_overload(
    siblings: &Siblings,
    bound: &MethodDeclaration,
    argc: usize,
    r: Option<&MethodDeclaration>,
)
    requires
        call_ensures(Siblings::overload_for_argc, (siblings, bound, argc), r),
    ensures
        r matches Some(m) ==> m.number_of_parameters == argc && bound.number_of_parameters != argc
            && siblings@.contains_key((bound.scope, bound.token)) && siblings@[(
            bound.scope,
            bound.token,
        )].contains(m@),
        r is None ==> bound.number_of_parameters == argc || !siblings@.contains_key(
            (bound.scope, bound.token),
        ) || forall|j: int|
            0 <= j < siblings@[(bound.scope, bound.token)].len() ==> (#[trigger] siblings@[(
                bound.scope,
                bound.token,
            )][j]).number_of_parameters != argc,
{
}

/// Grouping goes on from the groups there are: a candidate joins its name's group unless an overload
/// there takes as many arguments, and no other group changes.
pub proof fn law_candidates_join_their_group(
    g: Map<Seq<char>, Seq<MethodDeclaration>>,
    c: Seq<(Seq<char>, MethodDeclaration)>,
    name: Seq<char>,
    m: MethodDeclaration,
    other: Seq<char>,
)
    ensures
        grouped(g, Seq::empty()) == g,
        ({
            let before = grouped(g, c);
            let after = grouped(g, c.push((name, m)));
            let there = before.contains_key(name) && exists|i: int|
                0 <= i < before[name].len() && (#[trigger] before[name][i]).number_of_parameters
                    == m.number_of_parameters;
            &&& there ==> after == before
            &&& !there ==> after.contains_key(name) && after[name] == (if before.contains_key(
                name,
            ) {
                before[name].push(m)
            } else {
                seq![m]
            })
            &&& other != name ==> (after.contains_key(other) <==> before.contains_key(other)) && (
            before.contains_key(other) ==> after[other] == before[other])
        }),
{
    assert(c.push((name, m)).drop_last() =~= c);
    let before = grouped(g, c);
    if !before.contains_key(name) {
        assert(bucket(before, name).push(m) =~= seq![m]);
    }
}

/// A method is recorded with its siblings only where it was looked up by its plain name, nothing is
/// recorded for it yet, and it has siblings; nothing else that is recorded changes.
pub proof fn law_siblings_are_recorded_once(
    siblings: &mut Siblings,
    md: &Metadata,
    class: &ClassDeclaration,
    js_name: &str,
    bound: &MethodDeclaration,
    other: (usize, i32),
)
    requires
        call_ensures(
            Siblings::register_overload_siblings,
            (siblings, md, class, js_name, bound),
            (),
        ),
    ensures
        ({
            let key = (bound.scope, bound.token);
            let all = siblings_of(*md, *class, js_name@, bound@);
            &&& other != key ==> (final(siblings)@.contains_key(other) <==> old(siblings)@.contains_key(
                other,
            ))
            &&& old(siblings)@.contains_key(other) ==> final(siblings)@.contains_key(other)
                && final(siblings)@[other] == old(siblings)@[other]
            &&& !old(siblings)@.contains_key(key) ==> (final(siblings)@.contains_key(key)
                <==> bound.name@ == js_name@ && all.len() > 1)
            &&& !old(siblings)@.contains_key(key) && final(siblings)@.contains_key(key) ==> final(siblings)@[key]
                == all
        }),
{
}

/// The methods found by name are those of the lineage whose plain or overload name it is.
pub proof fn law_found_methods_go_by_the_name(
    md: &Metadata,
    class: &ClassDeclaration,
    name: &str,
    r: Vec<&MethodDeclaration>,
    m: MethodDeclaration,
)
    requires
        call_ensures(find_class_methods, (md, class, name), r),
    ensures
        metadata::targets(r@).contains(m) <==> (m.name@ == name@ || (m.overload_name@.len() > 0
            && m.overload_name@ == name@)) && exists|k: int, i: int|
            0 <= k < metadata::lineage(*md, *class).len() && 0 <= i < class_helpers::class_methods(
                metadata::lineage(*md, *class)[k],
            ).len() && #[trigger] class_helpers::class_methods(metadata::lineage(*md, *class)[k])[i]
                == m,
{
    law_every_match_is_found(metadata::lineage(*md, *class), name@);
}

/// Grouping a class's methods adds the candidates of its lineage to the groups there are.
pub proof fn law_grouped_methods_join_the_groups(
    md: &Metadata,
    class: &ClassDeclaration,
    out: &mut Groups,
    m: &MethodDeclaration,
    copied: MethodDeclaration,
)
    requires
        call_ensures(extend_class_methods_grouped, (md, class, out), ()),
        call_ensures(MethodDeclaration::copy, (m,), copied),
    ensures
        groups_view(final(out)@) == grouped(
            groups_view(old(out)@),
            candidates(metadata::lineage(*md, *class)),
        ),
        copied.name@ == m.name@,
        copied.overload_name@ == m.overload_name@,
        copied.number_of_parameters == m.number_of_parameters,
        copied.is_static == m.is_static,
        copied.scope == m.scope,
        copied.token == m.token,
{
    law_method_views_keep_every_field(*m);
    law_method_views_keep_every_field(copied);
}

} // verus!
