//! Member lookup over a class, its interfaces and the classes it derives from.

use crate::metadata;
use crate::metadata::{
    ClassDeclaration, Declaration, EventDeclaration, InterfaceDeclaration, Metadata,
    MethodDeclaration, PropertyDeclaration,
};
use crate::text;
use crate::text_set::TextSet;
use vstd::prelude::*;

verus! {

/// A member of a class or interface: the name it is listed under, and the names it answers to.
pub trait Member {
    spec fn key(&self) -> Seq<char>;

    spec fn answers_to(&self, name: Seq<char>) -> bool;

    fn key_text(&self) -> (r: &str)
        ensures
            r@ == self.key(),
    ;

    fn answers(&self, name: &str) -> (r: bool)
        ensures
            r == self.answers_to(name@),
    ;
}

/// A method is listed under its `[Overload]` name where it has one, and answers to its plain name
/// too.
impl Member for MethodDeclaration {
    open spec fn key(&self) -> Seq<char> {
        if self.overload_name@.len() == 0 {
            self.name@
        } else {
            self.overload_name@
        }
    }

    open spec fn answers_to(&self, name: Seq<char>) -> bool {
        (self.overload_name@.len() > 0 && self.overload_name@ == name) || self.name@ == name
    }

    fn key_text(&self) -> (r: &str) {
        if text::is_blank(self.overload_name.as_str()) {
            self.name.as_str()
        } else {
            self.overload_name.as_str()
        }
    }

    fn answers(&self, name: &str) -> (r: bool) {
        (!text::is_blank(self.overload_name.as_str()) && text::same_text(
            self.overload_name.as_str(),
            name,
        )) || text::same_text(self.name.as_str(), name)
    }
}

impl Member for PropertyDeclaration {
    open spec fn key(&self) -> Seq<char> {
        self.name@
    }

    open spec fn answers_to(&self, name: Seq<char>) -> bool {
        self.name@ == name
    }

    fn key_text(&self) -> (r: &str) {
        self.name.as_str()
    }

    fn answers(&self, name: &str) -> (r: bool) {
        text::same_text(self.name.as_str(), name)
    }
}

impl Member for EventDeclaration {
    open spec fn key(&self) -> Seq<char> {
        self.name@
    }

    open spec fn answers_to(&self, name: Seq<char>) -> bool {
        self.name@ == name
    }

    fn key_text(&self) -> (r: &str) {
        self.name.as_str()
    }

    fn answers(&self, name: &str) -> (r: bool) {
        text::same_text(self.name.as_str(), name)
    }
}

/// The elements of lists, one list after the other.
pub open spec fn flat<T>(lists: Seq<&Vec<T>>) -> Seq<T>
    decreases lists.len(),
{
    if lists.len() == 0 {
        Seq::empty()
    } else {
        flat(lists.drop_last()) + lists.last()@
    }
}

/// The methods of interfaces, in order.
pub open spec fn interface_methods(interfaces: Seq<InterfaceDeclaration>) -> Seq<MethodDeclaration>
    decreases interfaces.len(),
{
    if interfaces.len() == 0 {
        Seq::empty()
    } else {
        interface_methods(interfaces.drop_last()) + interfaces.last().methods@
    }
}

/// The properties of interfaces, in order.
pub open spec fn interface_properties(interfaces: Seq<InterfaceDeclaration>) -> Seq<
    PropertyDeclaration,
>
    decreases interfaces.len(),
{
    if interfaces.len() == 0 {
        Seq::empty()
    } else {
        interface_properties(interfaces.drop_last()) + interfaces.last().properties@
    }
}

/// The events of interfaces, in order.
pub open spec fn interface_events(interfaces: Seq<InterfaceDeclaration>) -> Seq<EventDeclaration>
    decreases interfaces.len(),
{
    if interfaces.len() == 0 {
        Seq::empty()
    } else {
        interface_events(interfaces.drop_last()) + interfaces.last().events@
    }
}

/// The methods of one class: its own, its default interface's, its other interfaces'.
pub open spec fn class_methods(c: ClassDeclaration) -> Seq<MethodDeclaration> {
    c.methods@ + (match c.default_interface {
        Some(i) => i.methods@,
        None => Seq::empty(),
    }) + interface_methods(c.implemented_interfaces@)
}

/// The properties of one class, in the same order.
pub open spec fn class_properties(c: ClassDeclaration) -> Seq<PropertyDeclaration> {
    c.properties@ + (match c.default_interface {
        Some(i) => i.properties@,
        None => Seq::empty(),
    }) + interface_properties(c.implemented_interfaces@)
}

/// The events of one class, in the same order.
pub open spec fn class_events(c: ClassDeclaration) -> Seq<EventDeclaration> {
    c.events@ + (match c.default_interface {
        Some(i) => i.events@,
        None => Seq::empty(),
    }) + interface_events(c.implemented_interfaces@)
}

/// The methods of a lineage, the most derived class's first.
pub open spec fn all_methods(line: Seq<ClassDeclaration>) -> Seq<MethodDeclaration>
    decreases line.len(),
{
    if line.len() == 0 {
        Seq::empty()
    } else {
        all_methods(line.drop_last()) + class_methods(line.last())
    }
}

/// The properties of a lineage.
pub open spec fn all_properties(line: Seq<ClassDeclaration>) -> Seq<PropertyDeclaration>
    decreases line.len(),
{
    if line.len() == 0 {
        Seq::empty()
    } else {
        all_properties(line.drop_last()) + class_properties(line.last())
    }
}

/// The events of a lineage.
pub open spec fn all_events(line: Seq<ClassDeclaration>) -> Seq<EventDeclaration>
    decreases line.len(),
{
    if line.len() == 0 {
        Seq::empty()
    } else {
        all_events(line.drop_last()) + class_events(line.last())
    }
}

/// `seen` with the keys of `list`.
pub open spec fn seen_after<T: Member>(list: Seq<T>, seen: Set<Seq<char>>) -> Set<Seq<char>>
    decreases list.len(),
{
    if list.len() == 0 {
        seen
    } else {
        seen_after(list.drop_last(), seen).insert(list.last().key())
    }
}

/// The members of `list` whose key is neither in `seen` nor that of an earlier one.
pub open spec fn fresh<T: Member>(list: Seq<T>, seen: Set<Seq<char>>) -> Seq<T>
    decreases list.len(),
{
    if list.len() == 0 {
        Seq::empty()
    } else if seen_after(list.drop_last(), seen).contains(list.last().key()) {
        fresh(list.drop_last(), seen)
    } else {
        fresh(list.drop_last(), seen).push(list.last())
    }
}

/// The first member that answers to `name`.
pub open spec fn first_named<T: Member>(list: Seq<T>, name: Seq<char>) -> Option<T>
    decreases list.len(),
{
    if list.len() == 0 {
        None
    } else {
        match first_named(list.drop_last(), name) {
            Some(m) => Some(m),
            None => if list.last().answers_to(name) {
                Some(list.last())
            } else {
                None
            },
        }
    }
}

/// Whether no two properties share a name.
pub open spec fn distinct_names(ps: Seq<PropertyDeclaration>) -> bool {
    forall|i: int, j: int|
        0 <= i < j < ps.len() ==> (#[trigger] ps[i]).name@ != (#[trigger] ps[j]).name@
}

/// Of the properties of each name the first is kept, and no other.
pub proof fn lemma_fresh_properties(list: Seq<PropertyDeclaration>)
    ensures
        forall|n: Seq<char>| #[trigger]
            seen_after(list, Set::empty()).contains(n) <==> first_named(list, n) is Some,
        forall|n: Seq<char>|
            #![trigger first_named(list, n)]
            first_named(list, n) matches Some(p) ==> p.name@ == n && fresh(
                list,
                Set::empty(),
            ).contains(p),
        forall|i: int|
            0 <= i < fresh(list, Set::empty()).len() ==> first_named(
                list,
                (#[trigger] fresh(list, Set::empty())[i]).name@,
            ) == Some(fresh(list, Set::empty())[i]),
        distinct_names(fresh(list, Set::empty())),
    decreases list.len(),
{
    if list.len() > 0 {
        let d = list.drop_last();
        let last = list.last();
        lemma_fresh_properties(d);
        let before = fresh(d, Set::empty());
        let now = fresh(list, Set::empty());
        assert forall|n: Seq<char>|
            #![trigger first_named(list, n)]
            first_named(list, n) is Some implies first_named(list, n)->Some_0.name@ == n
            && now.contains(first_named(list, n)->Some_0) by {
            if let Some(p) = first_named(d, n) {
                let i = before.index_of(p);
                assert(now[i] == p);
            } else if last.name@ == n {
                assert(!seen_after(d, Set::empty()).contains(n));
                assert(now[before.len() as int] == last);
            }
        }
        assert forall|i: int| 0 <= i < now.len() implies first_named(
            list,
            (#[trigger] now[i]).name@,
        ) == Some(now[i]) by {
            if i < before.len() {
                assert(now[i] == before[i]);
            } else {
                assert(first_named(d, last.name@) is None);
            }
        }
        assert forall|i: int, j: int| 0 <= i < j < now.len() implies (#[trigger] now[i]).name@ != (
        #[trigger] now[j]).name@ by {
            assert(now[i] == before[i]);
            if j < before.len() {
                assert(now[j] == before[j]);
            } else {
                assert(first_named(d, before[i].name@) is Some);
                assert(first_named(d, last.name@) is None);
            }
        }
    }
}

/// Properties with distinct names have them still when some are left out.
pub proof fn lemma_filter_keeps_distinct(
    ps: Seq<PropertyDeclaration>,
    keep: spec_fn(PropertyDeclaration) -> bool,
)
    requires
        distinct_names(ps),
    ensures
        distinct_names(ps.filter(keep)),
    decreases ps.len(),
{
    reveal(Seq::filter);
    if ps.len() > 0 {
        let d = ps.drop_last();
        assert forall|i: int, j: int| 0 <= i < j < d.len() implies (#[trigger] d[i]).name@ != (
        #[trigger] d[j]).name@ by {
            assert(ps[i].name@ != ps[j].name@);
        }
        lemma_filter_keeps_distinct(d, keep);
        let before = d.filter(keep);
        let now = ps.filter(keep);
        assert forall|i: int, j: int| 0 <= i < j < now.len() implies (#[trigger] now[i]).name@ != (
        #[trigger] now[j]).name@ by {
            assert(now[i] == before[i]);
            if j < before.len() {
                assert(now[j] == before[j]);
            } else {
                assert(before.contains(before[i]));
                d.lemma_filter_contains_rev(keep, before[i]);
                let k = d.index_of(before[i]);
                assert(ps[k] == before[i]);
                assert(ps[k].name@ != ps[ps.len() - 1].name@);
            }
        }
    }
}

/// The lists of methods of one class.
fn method_lists<'a>(c: &'a ClassDeclaration, out: &mut Vec<&'a Vec<MethodDeclaration>>)
    ensures
        flat(final(out)@) == flat(old(out)@) + class_methods(*c),
{
    let ghost start = flat(out@);
    push_list(out, &c.methods);
    let ghost mut so_far = start + c.methods@;
    match &c.default_interface {
        Some(i) => {
            push_list(out, &i.methods);
            proof {
                so_far = so_far + i.methods@;
            }
        },
        None => {
            assert(so_far + Seq::<MethodDeclaration>::empty() =~= so_far);
        },
    }
    let ghost ifs = c.implemented_interfaces@;
    assert(so_far + interface_methods(ifs.take(0)) =~= so_far);
    for k in 0..c.implemented_interfaces.len()
        invariant
            ifs == c.implemented_interfaces@,
            flat(out@) == so_far + interface_methods(ifs.take(k as int)),
    {
        push_list(out, &c.implemented_interfaces[k].methods);
        proof {
            assert(ifs.take(k + 1).drop_last() == ifs.take(k as int));
            assert(flat(out@) =~= so_far + interface_methods(ifs.take(k + 1)));
        }
    }
    assert(ifs.take(ifs.len() as int) == ifs);
    assert(flat(out@) =~= start + class_methods(*c));
}

/// The lists of properties of one class.
fn property_lists<'a>(c: &'a ClassDeclaration, out: &mut Vec<&'a Vec<PropertyDeclaration>>)
    ensures
        flat(final(out)@) == flat(old(out)@) + class_properties(*c),
{
    let ghost start = flat(out@);
    push_list(out, &c.properties);
    let ghost mut so_far = start + c.properties@;
    match &c.default_interface {
        Some(i) => {
            push_list(out, &i.properties);
            proof {
                so_far = so_far + i.properties@;
            }
        },
        None => {
            assert(so_far + Seq::<PropertyDeclaration>::empty() =~= so_far);
        },
    }
    let ghost ifs = c.implemented_interfaces@;
    assert(so_far + interface_properties(ifs.take(0)) =~= so_far);
    for k in 0..c.implemented_interfaces.len()
        invariant
            ifs == c.implemented_interfaces@,
            flat(out@) == so_far + interface_properties(ifs.take(k as int)),
    {
        push_list(out, &c.implemented_interfaces[k].properties);
        proof {
            assert(ifs.take(k + 1).drop_last() == ifs.take(k as int));
            assert(flat(out@) =~= so_far + interface_properties(ifs.take(k + 1)));
        }
    }
    assert(ifs.take(ifs.len() as int) == ifs);
    assert(flat(out@) =~= start + class_properties(*c));
}

/// The lists of events of one class.
fn event_lists<'a>(c: &'a ClassDeclaration, out: &mut Vec<&'a Vec<EventDeclaration>>)
    ensures
        flat(final(out)@) == flat(old(out)@) + class_events(*c),
{
    let ghost start = flat(out@);
    push_list(out, &c.events);
    let ghost mut so_far = start + c.events@;
    match &c.default_interface {
        Some(i) => {
            push_list(out, &i.events);
            proof {
                so_far = so_far + i.events@;
            }
        },
        None => {
            assert(so_far + Seq::<EventDeclaration>::empty() =~= so_far);
        },
    }
    let ghost ifs = c.implemented_interfaces@;
    assert(so_far + interface_events(ifs.take(0)) =~= so_far);
    for k in 0..c.implemented_interfaces.len()
        invariant
            ifs == c.implemented_interfaces@,
            flat(out@) == so_far + interface_events(ifs.take(k as int)),
    {
        push_list(out, &c.implemented_interfaces[k].events);
        proof {
            assert(ifs.take(k + 1).drop_last() == ifs.take(k as int));
            assert(flat(out@) =~= so_far + interface_events(ifs.take(k + 1)));
        }
    }
    assert(ifs.take(ifs.len() as int) == ifs);
    assert(flat(out@) =~= start + class_events(*c));
}

/// One more list behind the others.
fn push_list<'a, T>(out: &mut Vec<&'a Vec<T>>, list: &'a Vec<T>)
    ensures
        flat(final(out)@) == flat(old(out)@) + list@,
{
    out.push(list);
    assert(out@.drop_last() =~= old(out)@);
}

/// The lineage of a class whose bases end.
pub fn lineage_of<'a>(md: &'a Metadata, class: &'a ClassDeclaration) -> (r: Vec<&'a ClassDeclaration>)
    requires
        metadata::bases_end(*md, *class),
    ensures
        metadata::targets(r@) == metadata::lineage(*md, *class),
{
    match metadata::class_lineage(md, class) {
        Some(line) => line,
        None => Vec::new(),
    }
}

/// The methods of one class.
pub fn methods_of_class<'a>(c: &'a ClassDeclaration) -> (r: Vec<&'a MethodDeclaration>)
    ensures
        metadata::targets(r@) == class_methods(*c),
{
    let mut lists: Vec<&'a Vec<MethodDeclaration>> = Vec::new();
    method_lists(c, &mut lists);
    assert(flat(lists@) =~= class_methods(*c));
    elements(&lists)
}

/// The properties of one class.
pub fn properties_of_class<'a>(c: &'a ClassDeclaration) -> (r: Vec<&'a PropertyDeclaration>)
    ensures
        metadata::targets(r@) == class_properties(*c),
{
    let mut lists: Vec<&'a Vec<PropertyDeclaration>> = Vec::new();
    property_lists(c, &mut lists);
    assert(flat(lists@) =~= class_properties(*c));
    elements(&lists)
}

/// The elements of lists, one list after the other.
fn elements<'a, T>(lists: &Vec<&'a Vec<T>>) -> (r: Vec<&'a T>)
    ensures
        metadata::targets(r@) == flat(lists@),
{
    let mut out: Vec<&'a T> = Vec::new();
    assert(metadata::targets(out@) =~= flat(lists@.take(0)));
    for i in 0..lists.len()
        invariant
            metadata::targets(out@) == flat(lists@.take(i as int)),
    {
        let list = lists[i];
        let ghost done = flat(lists@.take(i as int));
        assert(done + list@.take(0) =~= done);
        for j in 0..list.len()
            invariant
                metadata::targets(out@) == done + list@.take(j as int),
        {
            let ghost was = out@;
            out.push(&list[j]);
            assert(metadata::targets(out@) =~= metadata::targets(was).push(list@[j as int]));
            assert(done + list@.take(j + 1) =~= (done + list@.take(j as int)).push(
                list@[j as int],
            ));
        }
        assert(list@.take(list@.len() as int) == list@);
        assert(lists@.take(i + 1).drop_last() == lists@.take(i as int));
    }
    assert(lists@.take(lists@.len() as int) == lists@);
    out
}

/// The lists of methods of a lineage.
fn lineage_method_lists<'a>(line: &Vec<&'a ClassDeclaration>) -> (r: Vec<
    &'a Vec<MethodDeclaration>,
>)
    ensures
        flat(r@) == all_methods(metadata::targets(line@)),
{
    let ghost all = metadata::targets(line@);
    let mut out: Vec<&'a Vec<MethodDeclaration>> = Vec::new();
    for i in 0..line.len()
        invariant
            all == metadata::targets(line@),
            flat(out@) == all_methods(all.take(i as int)),
    {
        method_lists(line[i], &mut out);
        assert(all.take(i + 1).drop_last() == all.take(i as int));
    }
    assert(all.take(all.len() as int) == all);
    out
}

/// The lists of properties of a lineage.
fn lineage_property_lists<'a>(line: &Vec<&'a ClassDeclaration>) -> (r: Vec<
    &'a Vec<PropertyDeclaration>,
>)
    ensures
        flat(r@) == all_properties(metadata::targets(line@)),
{
    let ghost all = metadata::targets(line@);
    let mut out: Vec<&'a Vec<PropertyDeclaration>> = Vec::new();
    for i in 0..line.len()
        invariant
            all == metadata::targets(line@),
            flat(out@) == all_properties(all.take(i as int)),
    {
        property_lists(line[i], &mut out);
        assert(all.take(i + 1).drop_last() == all.take(i as int));
    }
    assert(all.take(all.len() as int) == all);
    out
}

/// The lists of events of a lineage.
fn lineage_event_lists<'a>(line: &Vec<&'a ClassDeclaration>) -> (r: Vec<
    &'a Vec<EventDeclaration>,
>)
    ensures
        flat(r@) == all_events(metadata::targets(line@)),
{
    let ghost all = metadata::targets(line@);
    let mut out: Vec<&'a Vec<EventDeclaration>> = Vec::new();
    for i in 0..line.len()
        invariant
            all == metadata::targets(line@),
            flat(out@) == all_events(all.take(i as int)),
    {
        event_lists(line[i], &mut out);
        assert(all.take(i + 1).drop_last() == all.take(i as int));
    }
    assert(all.take(all.len() as int) == all);
    out
}

/// Adds the members that are not seen yet, in order.
fn extend_fresh<'a, T: Member>(
    lists: &Vec<&'a Vec<T>>,
    out: &mut Vec<&'a T>,
    seen: &mut TextSet,
)
    ensures
        metadata::targets(final(out)@) == metadata::targets(old(out)@) + fresh(
            flat(lists@),
            old(seen)@,
        ),
        final(seen)@ == seen_after(flat(lists@), old(seen)@),
{
    let ghost start = metadata::targets(out@);
    let ghost known = seen@;
    assert(start + Seq::<T>::empty() =~= start);
    for i in 0..lists.len()
        invariant
            metadata::targets(out@) == start + fresh(flat(lists@.take(i as int)), known),
            seen@ == seen_after(flat(lists@.take(i as int)), known),
    {
        let list = lists[i];
        let ghost done = flat(lists@.take(i as int));
        assert(done + list@.take(0) =~= done);
        for j in 0..list.len()
            invariant
                metadata::targets(out@) == start + fresh(done + list@.take(j as int), known),
                seen@ == seen_after(done + list@.take(j as int), known),
        {
            let m = &list[j];
            let ghost before = done + list@.take(j as int);
            assert((done + list@.take(j + 1)).drop_last() =~= before);
            assert((done + list@.take(j + 1)).last() == *m);
            if !seen.contains(m.key_text()) {
                seen.insert(m.key_text().to_owned());
                let ghost old_out = out@;
                out.push(m);
                assert(metadata::targets(out@) =~= metadata::targets(old_out).push(*m));
                assert(start + fresh(before, known).push(*m) =~= (start + fresh(
                    before,
                    known,
                )).push(*m));
            } else {
                assert(seen@.insert(m.key()) =~= seen@);
            }
        }
        assert(list@.take(list@.len() as int) == list@);
        assert(lists@.take(i + 1).drop_last() == lists@.take(i as int));
    }
    assert(lists@.take(lists@.len() as int) == lists@);
}

/// The first member that answers to `name`.
fn find_first<'a, T: Member>(lists: &Vec<&'a Vec<T>>, name: &str) -> (r: Option<&'a T>)
    ensures
        match r {
            Some(m) => first_named(flat(lists@), name@) == Some(*m),
            None => first_named(flat(lists@), name@) is None,
        },
{
    for i in 0..lists.len()
        invariant
            first_named(flat(lists@.take(i as int)), name@) is None,
    {
        let list = lists[i];
        let ghost done = flat(lists@.take(i as int));
        assert(done + list@.take(0) =~= done);
        assert(lists@.take(i + 1).drop_last() == lists@.take(i as int));
        for j in 0..list.len()
            invariant
                i < lists@.len(),
                list == lists@[i as int],
                done == flat(lists@.take(i as int)),
                lists@.take(i + 1).drop_last() == lists@.take(i as int),
                first_named(done + list@.take(j as int), name@) is None,
        {
            assert((done + list@.take(j + 1)).drop_last() =~= done + list@.take(j as int));
            if list[j].answers(name) {
                proof {
                    let upto = done + list@.take(j + 1);
                    lemma_first_stays(upto, list@.skip(j + 1), name@);
                    assert(upto + list@.skip(j + 1) =~= flat(lists@.take(i + 1)));
                    lemma_flat_split(lists@, i + 1);
                    lemma_first_stays(flat(lists@.take(i + 1)), flat(lists@.skip(i + 1)), name@);
                }
                return Some(&list[j]);
            }
        }
        assert(list@.take(list@.len() as int) == list@);
    }
    assert(lists@.take(lists@.len() as int) == lists@);
    None
}

/// A member found in a part is the one found in the whole that starts with it.
proof fn lemma_first_stays<T: Member>(a: Seq<T>, b: Seq<T>, name: Seq<char>)
    requires
        first_named(a, name) is Some,
    ensures
        first_named(a + b, name) == first_named(a, name),
    decreases b.len(),
{
    if b.len() == 0 {
        assert(a + b =~= a);
    } else {
        assert((a + b).drop_last() =~= a + b.drop_last());
        lemma_first_stays(a, b.drop_last(), name);
    }
}

/// Lists in two parts.
proof fn lemma_flat_split<T>(lists: Seq<&Vec<T>>, n: int)
    requires
        0 <= n <= lists.len(),
    ensures
        flat(lists) == flat(lists.take(n)) + flat(lists.skip(n)),
    decreases lists.len(),
{
    if n == lists.len() {
        assert(lists.take(n) =~= lists);
        assert(lists.skip(n) =~= Seq::<&Vec<T>>::empty());
        assert(flat(lists.skip(n)) =~= Seq::<T>::empty());
        assert(flat(lists.take(n)) + flat(lists.skip(n)) =~= flat(lists));
    } else {
        let d = lists.drop_last();
        lemma_flat_split(d, n);
        assert(d.take(n) =~= lists.take(n));
        assert(lists.skip(n).drop_last() =~= d.skip(n));
        assert(flat(lists.take(n)) + flat(lists.skip(n)) =~= flat(lists));
    }
}

/// Adds the methods of a class and its lineage whose key is not in `seen`, one per key.
pub fn extend_class_methods<'a>(
    md: &'a Metadata,
    class_declaration: &'a ClassDeclaration,
    methods: &mut Vec<&'a MethodDeclaration>,
    seen: &mut TextSet,
)
    requires
        metadata::bases_end(*md, *class_declaration),
    ensures
        ({
            let all = all_methods(metadata::lineage(*md, *class_declaration));
            &&& metadata::targets(final(methods)@) == metadata::targets(old(methods)@) + fresh(
                all,
                old(seen)@,
            )
            &&& final(seen)@ == seen_after(all, old(seen)@)
        }),
{
    let lists = lineage_method_lists(&lineage_of(md, class_declaration));
    extend_fresh(&lists, methods, seen);
}

/// Adds the properties of a class and its lineage whose name is not in `seen`, one per name.
pub fn extend_class_properties<'a>(
    md: &'a Metadata,
    class_declaration: &'a ClassDeclaration,
    properties: &mut Vec<&'a PropertyDeclaration>,
    seen: &mut TextSet,
)
    requires
        metadata::bases_end(*md, *class_declaration),
    ensures
        ({
            let all = all_properties(metadata::lineage(*md, *class_declaration));
            &&& metadata::targets(final(properties)@) == metadata::targets(old(properties)@)
                + fresh(all, old(seen)@)
            &&& final(seen)@ == seen_after(all, old(seen)@)
        }),
{
    let lists = lineage_property_lists(&lineage_of(md, class_declaration));
    extend_fresh(&lists, properties, seen);
}

/// The methods of a class and its lineage, one per key.
pub fn collect_class_methods<'a>(
    md: &'a Metadata,
    class_declaration: &'a ClassDeclaration,
) -> (r: Vec<&'a MethodDeclaration>)
    requires
        metadata::bases_end(*md, *class_declaration),
    ensures
        metadata::targets(r@) == fresh(
            all_methods(metadata::lineage(*md, *class_declaration)),
            Set::empty(),
        ),
{
    let mut methods: Vec<&'a MethodDeclaration> = Vec::new();
    let mut seen = TextSet::new();
    extend_class_methods(md, class_declaration, &mut methods, &mut seen);
    assert(metadata::targets(methods@) =~= fresh(
        all_methods(metadata::lineage(*md, *class_declaration)),
        Set::empty(),
    ));
    methods
}

/// The properties of a class and its lineage, one per name.
pub fn collect_class_properties<'a>(
    md: &'a Metadata,
    class_declaration: &'a ClassDeclaration,
) -> (r: Vec<&'a PropertyDeclaration>)
    requires
        metadata::bases_end(*md, *class_declaration),
    ensures
        metadata::targets(r@) == fresh(
            all_properties(metadata::lineage(*md, *class_declaration)),
            Set::empty(),
        ),
{
    let mut properties: Vec<&'a PropertyDeclaration> = Vec::new();
    let mut seen = TextSet::new();
    extend_class_properties(md, class_declaration, &mut properties, &mut seen);
    assert(metadata::targets(properties@) =~= fresh(
        all_properties(metadata::lineage(*md, *class_declaration)),
        Set::empty(),
    ));
    properties
}

/// The events of a class and its lineage, one per name.
pub fn collect_events<'a>(md: &'a Metadata, class: &'a ClassDeclaration) -> (r: Vec<
    &'a EventDeclaration,
>)
    requires
        metadata::bases_end(*md, *class),
    ensures
        metadata::targets(r@) == fresh(
            all_events(metadata::lineage(*md, *class)),
            Set::empty(),
        ),
{
    let mut events: Vec<&'a EventDeclaration> = Vec::new();
    let mut seen = TextSet::new();
    let lists = lineage_event_lists(&lineage_of(md, class));
    extend_fresh(&lists, &mut events, &mut seen);
    assert(metadata::targets(events@) =~= fresh(
        all_events(metadata::lineage(*md, *class)),
        Set::empty(),
    ));
    events
}

/// Look up a property by name across the class, its default interface, implemented interfaces, and
/// base-class chain: the first that matches.
pub fn find_class_property<'a>(
    md: &'a Metadata,
    class_declaration: &'a ClassDeclaration,
    name: &str,
) -> (r: Option<&'a PropertyDeclaration>)
    requires
        metadata::bases_end(*md, *class_declaration),
    ensures
        ({
            let all = all_properties(metadata::lineage(*md, *class_declaration));
            match r {
                Some(p) => first_named(all, name@) == Some(*p),
                None => first_named(all, name@) is None,
            }
        }),
{
    find_first(&lineage_property_lists(&lineage_of(md, class_declaration)), name)
}

/// Look up a method by name. Matches the overload name when present, falling back to the plain
/// name: the first that matches.
pub fn find_class_method<'a>(
    md: &'a Metadata,
    class_declaration: &'a ClassDeclaration,
    name: &str,
) -> (r: Option<&'a MethodDeclaration>)
    requires
        metadata::bases_end(*md, *class_declaration),
    ensures
        ({
            let all = all_methods(metadata::lineage(*md, *class_declaration));
            match r {
                Some(m) => first_named(all, name@) == Some(*m),
                None => first_named(all, name@) is None,
            }
        }),
{
    find_first(&lineage_method_lists(&lineage_of(md, class_declaration)), name)
}

/// The methods that wire and unwire a handler of the event `name`.
pub fn find_event_methods<'a>(
    md: &'a Metadata,
    class_declaration: &'a ClassDeclaration,
    name: &str,
) -> (r: Option<(&'a MethodDeclaration, &'a MethodDeclaration)>)
    requires
        metadata::bases_end(*md, *class_declaration),
    ensures
        ({
            let all = all_events(metadata::lineage(*md, *class_declaration));
            match r {
                Some((add, remove)) => first_named(all, name@) matches Some(e) && *add
                    == e.add_method && *remove == e.remove_method,
                None => first_named(all, name@) is None,
            }
        }),
{
    match find_first(&lineage_event_lists(&lineage_of(md, class_declaration)), name) {
        Some(e) => Some((&e.add_method, &e.remove_method)),
        None => None,
    }
}

/// The methods that wire and unwire a handler of the event `name` of an interface; nothing for a
/// declaration that is neither an interface nor an instance of a generic one.
pub fn find_interface_event_methods<'a>(declaration: &'a Declaration, name: &str) -> (r: Option<
    (&'a MethodDeclaration, &'a MethodDeclaration),
>)
    ensures
        ({
            let events = match *declaration {
                Declaration::Interface(i) => i.events@,
                Declaration::GenericInterfaceInstance(i) => i.events@,
                _ => Seq::empty(),
            };
            match r {
                Some((add, remove)) => first_named(events, name@) matches Some(e) && *add
                    == e.add_method && *remove == e.remove_method,
                None => first_named(events, name@) is None,
            }
        }),
{
    let events = match declaration {
        Declaration::Interface(i) => &i.events,
        Declaration::GenericInterfaceInstance(i) => &i.events,
        _ => {
            return None;
        },
    };
    let mut lists: Vec<&'a Vec<EventDeclaration>> = Vec::new();
    push_list(&mut lists, events);
    assert(flat(lists@) =~= events@);
    match find_first(&lists, name) {
        Some(e) => Some((&e.add_method, &e.remove_method)),
        None => None,
    }
}

/// Whether a method of the class or its lineage answers to `name`.
pub fn class_method_matches(
    md: &Metadata,
    class_declaration: &ClassDeclaration,
    name: &str,
) -> (r: bool)
    requires
        metadata::bases_end(*md, *class_declaration),
    ensures
        r == (first_named(
            all_methods(metadata::lineage(*md, *class_declaration)),
            name@,
        ) is Some),
{
    find_class_method(md, class_declaration, name).is_some()
}

/// Whether the class or its lineage has a property named `name`.
pub fn class_property_matches(
    md: &Metadata,
    class_declaration: &ClassDeclaration,
    name: &str,
) -> (r: bool)
    requires
        metadata::bases_end(*md, *class_declaration),
    ensures
        r == (first_named(
            all_properties(metadata::lineage(*md, *class_declaration)),
            name@,
        ) is Some),
{
    find_class_property(md, class_declaration, name).is_some()
}

/// Whether the class or its lineage has a method or property named `name`.
pub fn class_has_member_named(
    md: &Metadata,
    class_declaration: &ClassDeclaration,
    name: &str,
) -> (r: bool)
    requires
        metadata::bases_end(*md, *class_declaration),
    ensures
        r == (first_named(all_methods(metadata::lineage(*md, *class_declaration)), name@) is Some
            || first_named(
            all_properties(metadata::lineage(*md, *class_declaration)),
            name@,
        ) is Some),
{
    class_method_matches(md, class_declaration, name) || class_property_matches(
        md,
        class_declaration,
        name,
    )
}

/// The properties of a lineage, each with the full name of the class it comes with.
pub open spec fn declared(line: Seq<ClassDeclaration>) -> Seq<(PropertyDeclaration, Seq<char>)>
    decreases line.len(),
{
    if line.len() == 0 {
        Seq::empty()
    } else {
        let c = line.last();
        declared(line.drop_last()) + Seq::new(
            class_properties(c).len(),
            |i: int| (class_properties(c)[i], c.full_name@),
        )
    }
}

/// The first entry of each property name.
pub open spec fn first_declared(list: Seq<(PropertyDeclaration, Seq<char>)>) -> Seq<
    (PropertyDeclaration, Seq<char>),
>
    decreases list.len(),
{
    if list.len() == 0 {
        Seq::empty()
    } else if exists|i: int|
        0 <= i < list.len() - 1 && (#[trigger] list[i]).0.name@ == list.last().0.name@ {
        first_declared(list.drop_last())
    } else {
        first_declared(list.drop_last()).push(list.last())
    }
}

/// The values behind pairs.
pub open spec fn declared_views(v: Seq<(&PropertyDeclaration, String)>) -> Seq<
    (PropertyDeclaration, Seq<char>),
> {
    Seq::new(v.len(), |i: int| (*v[i].0, v[i].1@))
}

/// Collects all properties in the class hierarchy, each paired with the full name of the WinRT class
/// that declares that property. For static properties this lets callers retrieve the correct
/// activation factory.
pub fn collect_class_properties_with_declaring<'a>(
    md: &'a Metadata,
    class_declaration: &'a ClassDeclaration,
) -> (r: Vec<(&'a PropertyDeclaration, String)>)
    requires
        metadata::bases_end(*md, *class_declaration),
    ensures
        declared_views(r@) == first_declared(
            declared(metadata::lineage(*md, *class_declaration)),
        ),
{
    let line = lineage_of(md, class_declaration);
    let ghost all = metadata::lineage(*md, *class_declaration);
    let mut result: Vec<(&'a PropertyDeclaration, String)> = Vec::new();
    let mut seen = TextSet::new();
    assert(declared_views(result@) =~= first_declared(declared(all.take(0))));
    for i in 0..line.len()
        invariant
            all == metadata::targets(line@),
            declared_views(result@) == first_declared(declared(all.take(i as int))),
            forall|s: Seq<char>|
                #![trigger seen@.contains(s)]
                seen@.contains(s) <==> declares(declared(all.take(i as int)), s),
    {
        let class = line[i];
        let own = properties_of_class(class);
        let ghost done = declared(all.take(i as int));
        let ghost mine = Seq::new(
            class_properties(*class).len(),
            |k: int| (class_properties(*class)[k], class.full_name@),
        );
        assert(done + mine.take(0) =~= done);
        for j in 0..own.len()
            invariant
                metadata::targets(own@) == class_properties(*class),
                mine.len() == own@.len(),
                forall|k: int|
                    0 <= k < mine.len() ==> #[trigger] mine[k] == (*own@[k], class.full_name@),
                declared_views(result@) == first_declared(done + mine.take(j as int)),
                forall|s: Seq<char>|
                    #![trigger seen@.contains(s)]
                    seen@.contains(s) <==> declares(done + mine.take(j as int), s),
        {
            let p = own[j];
            let ghost before = done + mine.take(j as int);
            let ghost now = done + mine.take(j + 1);
            proof {
                assert(now.drop_last() =~= before);
                assert(now.last() == mine[j as int]);
                assert(seen@.contains(p.name@) <==> declares(before, p.name@));
                assert(declares(before, p.name@) <==> exists|i: int|
                    0 <= i < now.len() - 1 && (#[trigger] now[i]).0.name@ == p.name@) by {
                    if declares(before, p.name@) {
                        let k = choose|k: int|
                            0 <= k < before.len() && (#[trigger] before[k]).0.name@ == p.name@;
                        assert(now[k].0.name@ == p.name@);
                    }
                    if exists|i: int|
                        0 <= i < now.len() - 1 && (#[trigger] now[i]).0.name@ == p.name@ {
                        let k = choose|i: int|
                            0 <= i < now.len() - 1 && (#[trigger] now[i]).0.name@ == p.name@;
                        assert(before[k].0.name@ == p.name@);
                    }
                }
                assert forall|s: Seq<char>| declares(now, s) <==> (declares(before, s) || s
                    == p.name@) by {
                    lemma_declares_push(before, now.last(), s);
                    assert(before.push(now.last()) =~= now);
                }
            }
            if !seen.contains(p.name.as_str()) {
                seen.insert(p.name.clone());
                let ghost was = result@;
                result.push((p, class.full_name.clone()));
                assert(declared_views(result@) =~= declared_views(was).push(
                    (*p, class.full_name@),
                ));
            }
        }
        proof {
            assert(mine.take(own@.len() as int) =~= mine);
            assert(all[i as int] == *line@[i as int]);
            assert(all.take(i + 1).drop_last() == all.take(i as int));
        }
    }
    assert(all.take(all.len() as int) == all);
    result
}

/// Whether a property named `name` is in the list.
pub open spec fn declares(list: Seq<(PropertyDeclaration, Seq<char>)>, name: Seq<char>) -> bool {
    exists|i: int| 0 <= i < list.len() && (#[trigger] list[i]).0.name@ == name
}

proof fn lemma_declares_push(
    list: Seq<(PropertyDeclaration, Seq<char>)>,
    x: (PropertyDeclaration, Seq<char>),
    name: Seq<char>,
)
    ensures
        declares(list.push(x), name) == (declares(list, name) || x.0.name@ == name),
{
    let now = list.push(x);
    if declares(list, name) {
        let k = choose|k: int| 0 <= k < list.len() && (#[trigger] list[k]).0.name@ == name;
        assert(now[k].0.name@ == name);
    }
    if x.0.name@ == name {
        assert(now[list.len() as int].0.name@ == name);
    }
    if declares(now, name) {
        let k = choose|k: int| 0 <= k < now.len() && (#[trigger] now[k]).0.name@ == name;
        if k < list.len() {
            assert(list[k].0.name@ == name);
        }
    }
}

/// Whether the class itself declares a static property `name`.
pub open spec fn declares_static(c: ClassDeclaration, name: Seq<char>) -> bool {
    exists|i: int|
        0 <= i < c.properties@.len() && (#[trigger] c.properties@[i]).name@ == name
            && c.properties@[i].is_static
}

/// The full name of the first class in the lineage that itself declares a static property `name`.
pub open spec fn static_declaring(line: Seq<ClassDeclaration>, name: Seq<char>) -> Option<Seq<char>>
    decreases line.len(),
{
    if line.len() == 0 {
        None
    } else if declares_static(line[0], name) {
        Some(line[0].full_name@)
    } else {
        static_declaring(line.drop_first(), name)
    }
}

/// Walk the class hierarchy to find which WinRT class actually declares a given static property.
pub fn find_static_property_declaring_class(
    md: &Metadata,
    class_declaration: &ClassDeclaration,
    name: &str,
) -> (r: Option<String>)
    requires
        metadata::bases_end(*md, *class_declaration),
    ensures
        ({
            let stated = static_declaring(metadata::lineage(*md, *class_declaration), name@);
            match r {
                Some(c) => stated == Some(c@),
                None => stated is None,
            }
        }),
{
    let line = lineage_of(md, class_declaration);
    let ghost all = metadata::lineage(*md, *class_declaration);
    assert(all.skip(0) == all);
    for i in 0..line.len()
        invariant
            all == metadata::targets(line@),
            all == metadata::lineage(*md, *class_declaration),
            static_declaring(all, name@) == static_declaring(all.skip(i as int), name@),
    {
        let class = line[i];
        proof {
            assert(all.skip(i as int)[0] == *class);
            assert(all.skip(i as int).drop_first() == all.skip(i + 1));
        }
        for j in 0..class.properties.len()
            invariant
                all == metadata::lineage(*md, *class_declaration),
                i < all.len(),
                all.skip(i as int)[0] == *class,
                static_declaring(all, name@) == static_declaring(all.skip(i as int), name@),
                forall|k: int|
                    0 <= k < j ==> !((#[trigger] class.properties@[k]).name@ == name@
                        && class.properties@[k].is_static),
        {
            let p = &class.properties[j];
            if text::same_text(p.name.as_str(), name) && p.is_static {
                assert(declares_static(*class, name@));
                return Some(class.full_name.clone());
            }
        }
    }
    None
}

/// The namespace and the simple name of a type.
pub fn split_type_name(full_name: &str) -> (r: (Option<String>, String))
    ensures
        match r.0 {
            Some(namespace) => full_name@ == namespace@.push('.') + r.1@ && text::lacks(r.1@, '.'),
            None => full_name@ == r.1@ && text::lacks(full_name@, '.'),
        },
{
    let cs = text::chars_of(full_name);
    let mut i: usize = cs.len();
    while i > 0
        invariant
            i <= cs@.len(),
            cs@ == full_name@,
            forall|j: int| i <= j < cs@.len() ==> cs@[j] != '.',
        decreases i,
    {
        if cs[i - 1] == '.' {
            let namespace = text::string_of(&text::piece(&cs, 0, i - 1));
            let class_name = text::string_of(&text::piece(&cs, i, cs.len()));
            assert(full_name@ =~= namespace@.push('.') + class_name@);
            return (Some(namespace), class_name);
        }
        i = i - 1;
    }
    (None, full_name.to_owned())
}

/// The methods of a class are its own, then those of its default interface, then those of each
/// interface it implements, in order; none is left out.
#[verifier::rlimit(40)]
pub proof fn law_methods_come_from_the_class_and_its_interfaces(c: ClassDeclaration)
    ensures
        class_methods(c) == c.methods@ + (if let Some(d) = c.default_interface {
            d.methods@
        } else {
            Seq::empty()
        }) + Seq::new(
            c.implemented_interfaces@.len(),
            |k: int| c.implemented_interfaces@[k].methods@,
        ).flatten(),
        forall|i: int|
            0 <= i < c.methods@.len() ==> class_methods(c).contains(#[trigger] c.methods@[i]),
        c.default_interface matches Some(d) ==> forall|i: int|
            0 <= i < d.methods@.len() ==> class_methods(c).contains(#[trigger] d.methods@[i]),
        forall|k: int, i: int|
            0 <= k < c.implemented_interfaces@.len() && 0 <= i
                < c.implemented_interfaces@[k].methods@.len() ==> class_methods(c).contains(
                #[trigger] c.implemented_interfaces@[k].methods@[i],
            ),
{
    let all = c.implemented_interfaces@;
    lemma_interface_methods(all);
    let own = c.methods@;
    let default = if let Some(d) = c.default_interface {
        d.methods@
    } else {
        Seq::empty()
    };
    let rest = interface_methods(all);
    assert(class_methods(c) == own + default + rest);
    assert forall|i: int| 0 <= i < own.len() implies class_methods(c).contains(
        #[trigger] own[i],
    ) by {
        assert((own + default + rest)[i] == own[i]);
    }
    assert forall|i: int| 0 <= i < default.len() implies class_methods(c).contains(
        #[trigger] default[i],
    ) by {
        assert((own + default + rest)[own.len() + i] == default[i]);
    }
    assert forall|i: int| 0 <= i < rest.len() implies class_methods(c).contains(
        #[trigger] rest[i],
    ) by {
        assert((own + default + rest)[own.len() + default.len() + i] == rest[i]);
    }
    assert forall|k: int, i: int|
        0 <= k < all.len() && 0 <= i < all[k].methods@.len() implies class_methods(c).contains(
        #[trigger] all[k].methods@[i],
    ) by {
        let j = rest.index_of(all[k].methods@[i]);
        assert(rest.contains(all[k].methods@[i]));
        assert(class_methods(c).contains(rest[j]));
    }
}

proof fn lemma_interface_methods(all: Seq<InterfaceDeclaration>)
    ensures
        interface_methods(all) == Seq::new(all.len(), |k: int| all[k].methods@).flatten(),
        forall|k: int, i: int|
            0 <= k < all.len() && 0 <= i < all[k].methods@.len() ==> interface_methods(
                all,
            ).contains(#[trigger] all[k].methods@[i]),
    decreases all.len(),
{
    let lists = Seq::new(all.len(), |k: int| all[k].methods@);
    if all.len() == 0 {
        assert(interface_methods(all) =~= lists.flatten());
    } else {
        let d = all.drop_last();
        lemma_interface_methods(d);
        let before = Seq::new(d.len(), |k: int| d[k].methods@);
        assert(lists =~= before.push(all.last().methods@));
        before.lemma_flatten_push(all.last().methods@);
        let done = interface_methods(d);
        let now = interface_methods(all);
        assert(now == done + all.last().methods@);
        assert forall|k: int, i: int|
            0 <= k < all.len() && 0 <= i < all[k].methods@.len() implies now.contains(
            #[trigger] all[k].methods@[i],
        ) by {
            if k < d.len() {
                assert(done.contains(d[k].methods@[i]));
                let j = done.index_of(d[k].methods@[i]);
                assert(now[j] == all[k].methods@[i]);
            } else {
                assert(now[done.len() + i] == all[k].methods@[i]);
            }
        }
    }
}

/// The properties of a class are its own, then those of its default interface, then those of each
/// interface it implements, in order; none is left out.
#[verifier::rlimit(40)]
pub proof fn law_properties_come_from_the_class_and_its_interfaces(c: ClassDeclaration)
    ensures
        class_properties(c) == c.properties@ + (if let Some(d) = c.default_interface {
            d.properties@
        } else {
            Seq::empty()
        }) + Seq::new(
            c.implemented_interfaces@.len(),
            |k: int| c.implemented_interfaces@[k].properties@,
        ).flatten(),
        forall|i: int|
            0 <= i < c.properties@.len() ==> class_properties(c).contains(#[trigger] c.properties@[i]),
        c.default_interface matches Some(d) ==> forall|i: int|
            0 <= i < d.properties@.len() ==> class_properties(c).contains(#[trigger] d.properties@[i]),
        forall|k: int, i: int|
            0 <= k < c.implemented_interfaces@.len() && 0 <= i
                < c.implemented_interfaces@[k].properties@.len() ==> class_properties(c).contains(
                #[trigger] c.implemented_interfaces@[k].properties@[i],
            ),
{
    let all = c.implemented_interfaces@;
    lemma_interface_properties(all);
    let own = c.properties@;
    let default = if let Some(d) = c.default_interface {
        d.properties@
    } else {
        Seq::empty()
    };
    let rest = interface_properties(all);
    assert(class_properties(c) == own + default + rest);
    assert forall|i: int| 0 <= i < own.len() implies class_properties(c).contains(
        #[trigger] own[i],
    ) by {
        assert((own + default + rest)[i] == own[i]);
    }
    assert forall|i: int| 0 <= i < default.len() implies class_properties(c).contains(
        #[trigger] default[i],
    ) by {
        assert((own + default + rest)[own.len() + i] == default[i]);
    }
    assert forall|i: int| 0 <= i < rest.len() implies class_properties(c).contains(
        #[trigger] rest[i],
    ) by {
        assert((own + default + rest)[own.len() + default.len() + i] == rest[i]);
    }
    assert forall|k: int, i: int|
        0 <= k < all.len() && 0 <= i < all[k].properties@.len() implies class_properties(c).contains(
        #[trigger] all[k].properties@[i],
    ) by {
        let j = rest.index_of(all[k].properties@[i]);
        assert(rest.contains(all[k].properties@[i]));
        assert(class_properties(c).contains(rest[j]));
    }
}

proof fn lemma_interface_properties(all: Seq<InterfaceDeclaration>)
    ensures
        interface_properties(all) == Seq::new(all.len(), |k: int| all[k].properties@).flatten(),
        forall|k: int, i: int|
            0 <= k < all.len() && 0 <= i < all[k].properties@.len() ==> interface_properties(
                all,
            ).contains(#[trigger] all[k].properties@[i]),
    decreases all.len(),
{
    let lists = Seq::new(all.len(), |k: int| all[k].properties@);
    if all.len() == 0 {
        assert(interface_properties(all) =~= lists.flatten());
    } else {
        let d = all.drop_last();
        lemma_interface_properties(d);
        let before = Seq::new(d.len(), |k: int| d[k].properties@);
        assert(lists =~= before.push(all.last().properties@));
        before.lemma_flatten_push(all.last().properties@);
        let done = interface_properties(d);
        let now = interface_properties(all);
        assert(now == done + all.last().properties@);
        assert forall|k: int, i: int|
            0 <= k < all.len() && 0 <= i < all[k].properties@.len() implies now.contains(
            #[trigger] all[k].properties@[i],
        ) by {
            if k < d.len() {
                assert(done.contains(d[k].properties@[i]));
                let j = done.index_of(d[k].properties@[i]);
                assert(now[j] == all[k].properties@[i]);
            } else {
                assert(now[done.len() + i] == all[k].properties@[i]);
            }
        }
    }
}

/// The events of a class are its own, then those of its default interface, then those of each
/// interface it implements, in order; none is left out.
#[verifier::rlimit(40)]
pub proof fn law_events_come_from_the_class_and_its_interfaces(c: ClassDeclaration)
    ensures
        class_events(c) == c.events@ + (if let Some(d) = c.default_interface {
            d.events@
        } else {
            Seq::empty()
        }) + Seq::new(
            c.implemented_interfaces@.len(),
            |k: int| c.implemented_interfaces@[k].events@,
        ).flatten(),
        forall|i: int|
            0 <= i < c.events@.len() ==> class_events(c).contains(#[trigger] c.events@[i]),
        c.default_interface matches Some(d) ==> forall|i: int|
            0 <= i < d.events@.len() ==> class_events(c).contains(#[trigger] d.events@[i]),
        forall|k: int, i: int|
            0 <= k < c.implemented_interfaces@.len() && 0 <= i
                < c.implemented_interfaces@[k].events@.len() ==> class_events(c).contains(
                #[trigger] c.implemented_interfaces@[k].events@[i],
            ),
{
    let all = c.implemented_interfaces@;
    lemma_interface_events(all);
    let own = c.events@;
    let default = if let Some(d) = c.default_interface {
        d.events@
    } else {
        Seq::empty()
    };
    let rest = interface_events(all);
    assert(class_events(c) == own + default + rest);
    assert forall|i: int| 0 <= i < own.len() implies class_events(c).contains(
        #[trigger] own[i],
    ) by {
        assert((own + default + rest)[i] == own[i]);
    }
    assert forall|i: int| 0 <= i < default.len() implies class_events(c).contains(
        #[trigger] default[i],
    ) by {
        assert((own + default + rest)[own.len() + i] == default[i]);
    }
    assert forall|i: int| 0 <= i < rest.len() implies class_events(c).contains(
        #[trigger] rest[i],
    ) by {
        assert((own + default + rest)[own.len() + default.len() + i] == rest[i]);
    }
    assert forall|k: int, i: int|
        0 <= k < all.len() && 0 <= i < all[k].events@.len() implies class_events(c).contains(
        #[trigger] all[k].events@[i],
    ) by {
        let j = rest.index_of(all[k].events@[i]);
        assert(rest.contains(all[k].events@[i]));
        assert(class_events(c).contains(rest[j]));
    }
}

proof fn lemma_interface_events(all: Seq<InterfaceDeclaration>)
    ensures
        interface_events(all) == Seq::new(all.len(), |k: int| all[k].events@).flatten(),
        forall|k: int, i: int|
            0 <= k < all.len() && 0 <= i < all[k].events@.len() ==> interface_events(
                all,
            ).contains(#[trigger] all[k].events@[i]),
    decreases all.len(),
{
    let lists = Seq::new(all.len(), |k: int| all[k].events@);
    if all.len() == 0 {
        assert(interface_events(all) =~= lists.flatten());
    } else {
        let d = all.drop_last();
        lemma_interface_events(d);
        let before = Seq::new(d.len(), |k: int| d[k].events@);
        assert(lists =~= before.push(all.last().events@));
        before.lemma_flatten_push(all.last().events@);
        let done = interface_events(d);
        let now = interface_events(all);
        assert(now == done + all.last().events@);
        assert forall|k: int, i: int|
            0 <= k < all.len() && 0 <= i < all[k].events@.len() implies now.contains(
            #[trigger] all[k].events@[i],
        ) by {
            if k < d.len() {
                assert(done.contains(d[k].events@[i]));
                let j = done.index_of(d[k].events@[i]);
                assert(now[j] == all[k].events@[i]);
            } else {
                assert(now[done.len() + i] == all[k].events@[i]);
            }
        }
    }
}

/// A lookup takes the first member that answers to the name, and fails only where none does.
pub proof fn law_lookups_take_the_first_answer<T: Member>(list: Seq<T>, name: Seq<char>)
    ensures
        first_named(list, name) matches Some(m) ==> exists|i: int|
            0 <= i < list.len() && #[trigger] list[i] == m && m.answers_to(name) && forall|j: int|
                0 <= j < i ==> !(#[trigger] list[j]).answers_to(name),
        first_named(list, name) is None ==> forall|j: int|
            0 <= j < list.len() ==> !(#[trigger] list[j]).answers_to(name),
    decreases list.len(),
{
    if list.len() > 0 {
        let d = list.drop_last();
        law_lookups_take_the_first_answer(d, name);
        if let Some(m) = first_named(d, name) {
            let i = choose|i: int|
                0 <= i < d.len() && #[trigger] d[i] == m && m.answers_to(name) && forall|j: int|
                    0 <= j < i ==> !(#[trigger] d[j]).answers_to(name);
            assert(list[i] == m);
            assert forall|j: int| 0 <= j < i implies !(#[trigger] list[j]).answers_to(name) by {
                assert(list[j] == d[j]);
            }
        } else {
            assert forall|j: int| 0 <= j < d.len() implies !(#[trigger] list[j]).answers_to(
                name,
            ) by {
                assert(list[j] == d[j]);
            }
        }
    }
}

/// A method answers to its plain name and, where it has one, to its overload name, and to no other;
/// it is listed under the overload name where it has one.
pub proof fn law_methods_answer_to_both_their_names(m: MethodDeclaration, name: Seq<char>)
    ensures
        m.answers_to(m.name@),
        m.overload_name@.len() > 0 ==> m.answers_to(m.overload_name@),
        m.answers_to(name) ==> name == m.name@ || (name == m.overload_name@ && name.len() > 0),
        m.overload_name@.len() > 0 ==> m.key() == m.overload_name@,
        m.overload_name@.len() == 0 ==> m.key() == m.name@,
{
}

/// Properties and events answer to their names, and to no other, and are listed under them.
pub proof fn law_properties_and_events_answer_to_their_names(
    p: PropertyDeclaration,
    e: EventDeclaration,
    name: Seq<char>,
)
    ensures
        p.answers_to(name) <==> name == p.name@,
        e.answers_to(name) <==> name == e.name@,
        p.key() == p.name@,
        e.key() == e.name@,
{
}

/// The members of a lineage are those of its classes, the most derived class's first; so a member of
/// any class in it is among them.
pub proof fn law_lineages_have_the_members_of_their_classes(line: Seq<ClassDeclaration>)
    ensures
        all_methods(line) == Seq::new(line.len(), |k: int| class_methods(line[k])).flatten(),
        all_properties(line) == Seq::new(line.len(), |k: int| class_properties(line[k])).flatten(),
        all_events(line) == Seq::new(line.len(), |k: int| class_events(line[k])).flatten(),
    decreases line.len(),
{
    let a = Seq::new(line.len(), |k: int| class_methods(line[k]));
    let b = Seq::new(line.len(), |k: int| class_properties(line[k]));
    let c = Seq::new(line.len(), |k: int| class_events(line[k]));
    if line.len() == 0 {
        assert(all_methods(line) =~= a.flatten());
        assert(all_properties(line) =~= b.flatten());
        assert(all_events(line) =~= c.flatten());
    } else {
        let d = line.drop_last();
        law_lineages_have_the_members_of_their_classes(d);
        let a0 = Seq::new(d.len(), |k: int| class_methods(d[k]));
        let b0 = Seq::new(d.len(), |k: int| class_properties(d[k]));
        let c0 = Seq::new(d.len(), |k: int| class_events(d[k]));
        assert(a =~= a0.push(class_methods(line.last())));
        assert(b =~= b0.push(class_properties(line.last())));
        assert(c =~= c0.push(class_events(line.last())));
        a0.lemma_flatten_push(class_methods(line.last()));
        b0.lemma_flatten_push(class_properties(line.last()));
        c0.lemma_flatten_push(class_events(line.last()));
    }
}

/// A lookup by the name of a method that the class declares, or that one of its interfaces does, never
/// fails, and what it finds goes by that name.
pub proof fn law_declared_methods_are_found(md: Metadata, c: ClassDeclaration, m: MethodDeclaration)
    requires
        ({
            ||| c.methods@.contains(m)
            ||| c.default_interface matches Some(d) && d.methods@.contains(m)
            ||| exists|k: int|
                0 <= k < c.implemented_interfaces@.len() && (
                #[trigger] c.implemented_interfaces@[k]).methods@.contains(m)
        }),
    ensures
        first_named(all_methods(metadata::lineage(md, c)), m.name@) matches Some(found) && (
        found.name@ == m.name@ || found.overload_name@ == m.name@),
        m.overload_name@.len() > 0 ==> (first_named(
            all_methods(metadata::lineage(md, c)),
            m.overload_name@,
        ) matches Some(found) && (found.name@ == m.overload_name@ || found.overload_name@
            == m.overload_name@)),
{
    let line = metadata::lineage(md, c);
    metadata::lemma_lineage_first(md, c, md.declarations@.len());
    law_methods_come_from_the_class_and_its_interfaces(c);
    assert(class_methods(c).contains(m)) by {
        if c.methods@.contains(m) {
            let i = c.methods@.index_of(m);
            assert(class_methods(c).contains(c.methods@[i]));
        } else if exists|k: int|
            0 <= k < c.implemented_interfaces@.len() && (
            #[trigger] c.implemented_interfaces@[k]).methods@.contains(m) {
            let k = choose|k: int|
                0 <= k < c.implemented_interfaces@.len() && (
                #[trigger] c.implemented_interfaces@[k]).methods@.contains(m);
            let i = c.implemented_interfaces@[k].methods@.index_of(m);
            assert(class_methods(c).contains(c.implemented_interfaces@[k].methods@[i]));
        } else {
            let d = c.default_interface->Some_0;
            let i = d.methods@.index_of(m);
            assert(class_methods(c).contains(d.methods@[i]));
        }
    }
    let i = class_methods(c).index_of(m);
    lemma_first_class_leads_methods(line, i);
    let all = all_methods(line);
    law_lookups_take_the_first_answer(all, m.name@);
    law_lookups_take_the_first_answer(all, m.overload_name@);
    assert(all[i].answers_to(m.name@));
    if m.overload_name@.len() > 0 {
        assert(all[i].answers_to(m.overload_name@));
    }
}

/// The members of the first class of a lineage come first.
proof fn lemma_first_class_leads_methods(line: Seq<ClassDeclaration>, i: int)
    requires
        line.len() > 0,
        0 <= i < class_methods(line[0]).len(),
    ensures
        i < all_methods(line).len(),
        all_methods(line)[i] == class_methods(line[0])[i],
    decreases line.len(),
{
    if line.len() > 1 {
        lemma_first_class_leads_methods(line.drop_last(), i);
    } else {
        assert(all_methods(line.drop_last()) =~= Seq::empty());
        assert(all_methods(line) =~= class_methods(line[0]));
    }
}

/// A lookup by the name of a property that the class declares, or that one of its interfaces does, never
/// fails, and what it finds goes by that name.
pub proof fn law_declared_properties_are_found(md: Metadata, c: ClassDeclaration, m: PropertyDeclaration)
    requires
        ({
            ||| c.properties@.contains(m)
            ||| c.default_interface matches Some(d) && d.properties@.contains(m)
            ||| exists|k: int|
                0 <= k < c.implemented_interfaces@.len() && (
                #[trigger] c.implemented_interfaces@[k]).properties@.contains(m)
        }),
    ensures
        first_named(all_properties(metadata::lineage(md, c)), m.name@) matches Some(found)
            && found.name@ == m.name@,
{
    let line = metadata::lineage(md, c);
    metadata::lemma_lineage_first(md, c, md.declarations@.len());
    law_properties_come_from_the_class_and_its_interfaces(c);
    assert(class_properties(c).contains(m)) by {
        if c.properties@.contains(m) {
            let i = c.properties@.index_of(m);
            assert(class_properties(c).contains(c.properties@[i]));
        } else if exists|k: int|
            0 <= k < c.implemented_interfaces@.len() && (
            #[trigger] c.implemented_interfaces@[k]).properties@.contains(m) {
            let k = choose|k: int|
                0 <= k < c.implemented_interfaces@.len() && (
                #[trigger] c.implemented_interfaces@[k]).properties@.contains(m);
            let i = c.implemented_interfaces@[k].properties@.index_of(m);
            assert(class_properties(c).contains(c.implemented_interfaces@[k].properties@[i]));
        } else {
            let d = c.default_interface->Some_0;
            let i = d.properties@.index_of(m);
            assert(class_properties(c).contains(d.properties@[i]));
        }
    }
    let i = class_properties(c).index_of(m);
    lemma_first_class_leads_properties(line, i);
    let all = all_properties(line);
    law_lookups_take_the_first_answer(all, m.name@);
    assert(all[i].answers_to(m.name@));
}

/// The members of the first class of a lineage come first.
proof fn lemma_first_class_leads_properties(line: Seq<ClassDeclaration>, i: int)
    requires
        line.len() > 0,
        0 <= i < class_properties(line[0]).len(),
    ensures
        i < all_properties(line).len(),
        all_properties(line)[i] == class_properties(line[0])[i],
    decreases line.len(),
{
    if line.len() > 1 {
        lemma_first_class_leads_properties(line.drop_last(), i);
    } else {
        assert(all_properties(line.drop_last()) =~= Seq::empty());
        assert(all_properties(line) =~= class_properties(line[0]));
    }
}

/// A lookup by the name of an event that the class declares, or that one of its interfaces does, never
/// fails, and what it finds goes by that name.
pub proof fn law_declared_events_are_found(md: Metadata, c: ClassDeclaration, m: EventDeclaration)
    requires
        ({
            ||| c.events@.contains(m)
            ||| c.default_interface matches Some(d) && d.events@.contains(m)
            ||| exists|k: int|
                0 <= k < c.implemented_interfaces@.len() && (
                #[trigger] c.implemented_interfaces@[k]).events@.contains(m)
        }),
    ensures
        first_named(all_events(metadata::lineage(md, c)), m.name@) matches Some(found)
            && found.name@ == m.name@,
{
    let line = metadata::lineage(md, c);
    metadata::lemma_lineage_first(md, c, md.declarations@.len());
    law_events_come_from_the_class_and_its_interfaces(c);
    assert(class_events(c).contains(m)) by {
        if c.events@.contains(m) {
            let i = c.events@.index_of(m);
            assert(class_events(c).contains(c.events@[i]));
        } else if exists|k: int|
            0 <= k < c.implemented_interfaces@.len() && (
            #[trigger] c.implemented_interfaces@[k]).events@.contains(m) {
            let k = choose|k: int|
                0 <= k < c.implemented_interfaces@.len() && (
                #[trigger] c.implemented_interfaces@[k]).events@.contains(m);
            let i = c.implemented_interfaces@[k].events@.index_of(m);
            assert(class_events(c).contains(c.implemented_interfaces@[k].events@[i]));
        } else {
            let d = c.default_interface->Some_0;
            let i = d.events@.index_of(m);
            assert(class_events(c).contains(d.events@[i]));
        }
    }
    let i = class_events(c).index_of(m);
    lemma_first_class_leads_events(line, i);
    let all = all_events(line);
    law_lookups_take_the_first_answer(all, m.name@);
    assert(all[i].answers_to(m.name@));
}

/// The members of the first class of a lineage come first.
proof fn lemma_first_class_leads_events(line: Seq<ClassDeclaration>, i: int)
    requires
        line.len() > 0,
        0 <= i < class_events(line[0]).len(),
    ensures
        i < all_events(line).len(),
        all_events(line)[i] == class_events(line[0])[i],
    decreases line.len(),
{
    if line.len() > 1 {
        lemma_first_class_leads_events(line.drop_last(), i);
    } else {
        assert(all_events(line.drop_last()) =~= Seq::empty());
        assert(all_events(line) =~= class_events(line[0]));
    }
}

/// Of each key that is not known yet the first member is listed, in the order of the list, and no
/// other; the keys known afterwards are those known before and those of the list.
pub proof fn law_each_key_is_listed_once<T: Member>(list: Seq<T>, seen: Set<Seq<char>>)
    ensures
        forall|n: Seq<char>| #[trigger]
            seen_after(list, seen).contains(n) <==> seen.contains(n) || exists|k: int|
                0 <= k < list.len() && (#[trigger] list[k]).key() == n,
        forall|k: int|
            0 <= k < list.len() && !seen.contains((#[trigger] list[k]).key()) ==> exists|i: int|
                0 <= i < fresh(list, seen).len() && (#[trigger] fresh(list, seen)[i]).key()
                    == list[k].key(),
        exists|pos: Seq<int>| #[trigger]
            pos.len() == fresh(list, seen).len() && (forall|i: int|
                0 <= i < pos.len() ==> 0 <= #[trigger] pos[i] < list.len() && fresh(list, seen)[i]
                    == list[pos[i]] && !seen.contains(list[pos[i]].key()) && forall|j: int|
                    0 <= j < pos[i] ==> (#[trigger] list[j]).key() != list[pos[i]].key()) && (
            forall|i: int, j: int|
                0 <= i < j < pos.len() ==> (#[trigger] pos[i]) < (#[trigger] pos[j])),
{
    let pos = lemma_fresh_places(list, seen);
    assert(pos.len() == fresh(list, seen).len());
}

/// The places of the listed members.
#[verifier::rlimit(40)]
proof fn lemma_fresh_places<T: Member>(list: Seq<T>, seen: Set<Seq<char>>) -> (pos: Seq<int>)
    ensures
        forall|n: Seq<char>| #[trigger]
            seen_after(list, seen).contains(n) <==> seen.contains(n) || exists|k: int|
                0 <= k < list.len() && (#[trigger] list[k]).key() == n,
        forall|k: int|
            0 <= k < list.len() && !seen.contains((#[trigger] list[k]).key()) ==> exists|i: int|
                0 <= i < fresh(list, seen).len() && (#[trigger] fresh(list, seen)[i]).key()
                    == list[k].key(),
        pos.len() == fresh(list, seen).len(),
        forall|i: int|
            0 <= i < pos.len() ==> 0 <= #[trigger] pos[i] < list.len() && fresh(list, seen)[i]
                == list[pos[i]] && !seen.contains(list[pos[i]].key()) && forall|j: int|
                0 <= j < pos[i] ==> (#[trigger] list[j]).key() != list[pos[i]].key(),
        forall|i: int, j: int|
            0 <= i < j < pos.len() ==> (#[trigger] pos[i]) < (#[trigger] pos[j]),
    decreases list.len(),
{
    if list.len() == 0 {
        Seq::empty()
    } else {
        let d = list.drop_last();
        let last = list.last();
        let before = fresh(d, seen);
        let now = fresh(list, seen);
        let was = lemma_fresh_places(d, seen);
        assert forall|k: int| 0 <= k < d.len() implies #[trigger] list[k] == d[k] by {}
        assert forall|n: Seq<char>| #[trigger]
            seen_after(list, seen).contains(n) <==> seen.contains(n) || exists|k: int|
                0 <= k < list.len() && (#[trigger] list[k]).key() == n by {
            if seen_after(d, seen).contains(n) && !seen.contains(n) {
                let k = choose|k: int| 0 <= k < d.len() && (#[trigger] d[k]).key() == n;
                assert(list[k].key() == n);
            }
            if last.key() == n {
                assert(list[list.len() - 1].key() == n);
            }
            if exists|k: int| 0 <= k < list.len() && (#[trigger] list[k]).key() == n {
                let k = choose|k: int| 0 <= k < list.len() && (#[trigger] list[k]).key() == n;
                if k < d.len() {
                    assert(d[k].key() == n);
                }
            }
        }
        let known = seen_after(d, seen).contains(last.key());
        let pos = if known {
            was
        } else {
            was.push(list.len() - 1)
        };
        assert forall|i: int| 0 <= i < pos.len() implies 0 <= #[trigger] pos[i] < list.len()
            && now[i] == list[pos[i]] && !seen.contains(list[pos[i]].key()) && forall|j: int|
            0 <= j < pos[i] ==> (#[trigger] list[j]).key() != list[pos[i]].key() by {
            if i < was.len() {
                assert(pos[i] == was[i]);
                assert(now[i] == before[i]);
                assert forall|j: int| 0 <= j < pos[i] implies (#[trigger] list[j]).key()
                    != list[pos[i]].key() by {
                    assert(d[j].key() != d[was[i]].key());
                }
            } else {
                assert forall|j: int| 0 <= j < pos[i] implies (#[trigger] list[j]).key()
                    != list[pos[i]].key() by {
                    assert(d[j].key() != last.key());
                }
            }
        }
        assert forall|k: int|
            0 <= k < list.len() && !seen.contains((#[trigger] list[k]).key()) implies exists|i: int|
            0 <= i < now.len() && (#[trigger] now[i]).key() == list[k].key() by {
            if k < d.len() {
                assert(!seen.contains(d[k].key()));
                let i = choose|i: int|
                    0 <= i < before.len() && (#[trigger] before[i]).key() == d[k].key();
                assert(now[i] == before[i]);
            } else if known {
                let j = choose|j: int| 0 <= j < d.len() && (#[trigger] d[j]).key() == last.key();
                assert(!seen.contains(d[j].key()));
                let i = choose|i: int|
                    0 <= i < before.len() && (#[trigger] before[i]).key() == d[j].key();
                assert(now[i] == before[i]);
            } else {
                assert(now[before.len() as int].key() == list[k].key());
            }
        }
        pos
    }
}

/// Each property of a lineage comes with the full name of the class it belongs to, and of each name
/// the first is kept, in order.
pub proof fn law_properties_come_with_their_class(line: Seq<ClassDeclaration>)
    ensures
        declared(line).len() == all_properties(line).len(),
        forall|i: int|
            0 <= i < declared(line).len() ==> (#[trigger] declared(line)[i]).0 == all_properties(
                line,
            )[i] && exists|k: int|
                0 <= k < line.len() && (#[trigger] line[k]).full_name@ == declared(line)[i].1
                    && class_properties(line[k]).contains(declared(line)[i].0),
    decreases line.len(),
{
    if line.len() > 0 {
        let d = line.drop_last();
        let c = line.last();
        law_properties_come_with_their_class(d);
        let done = declared(d);
        let now = declared(line);
        let mine = class_properties(c);
        assert forall|i: int| 0 <= i < now.len() implies (#[trigger] now[i]).0 == all_properties(
            line,
        )[i] && exists|k: int|
            0 <= k < line.len() && (#[trigger] line[k]).full_name@ == now[i].1 && class_properties(
                line[k],
            ).contains(now[i].0) by {
            if i < done.len() {
                assert(now[i] == done[i]);
                let k = choose|k: int|
                    0 <= k < d.len() && (#[trigger] d[k]).full_name@ == done[i].1
                        && class_properties(d[k]).contains(done[i].0);
                assert(line[k] == d[k]);
            } else {
                assert(now[i] == (mine[i - done.len()], c.full_name@));
                assert(mine.contains(mine[i - done.len()]));
                assert(line[line.len() - 1] == c);
            }
        }
    }
}

/// Of the entries of each property name the first is kept, in order, and no other.
pub proof fn law_first_declarations_are_kept(list: Seq<(PropertyDeclaration, Seq<char>)>)
    ensures
        forall|k: int|
            0 <= k < list.len() ==> exists|i: int|
                0 <= i < first_declared(list).len() && (#[trigger] first_declared(list)[i]).0.name@
                    == (#[trigger] list[k]).0.name@,
        exists|pos: Seq<int>| #[trigger]
            pos.len() == first_declared(list).len() && (forall|i: int|
                0 <= i < pos.len() ==> 0 <= #[trigger] pos[i] < list.len() && first_declared(list)[i]
                    == list[pos[i]] && forall|j: int|
                    0 <= j < pos[i] ==> (#[trigger] list[j]).0.name@ != list[pos[i]].0.name@) && (
            forall|i: int, j: int|
                0 <= i < j < pos.len() ==> (#[trigger] pos[i]) < (#[trigger] pos[j])),
{
    let pos = lemma_first_declared_places(list);
    assert(pos.len() == first_declared(list).len());
}

/// The places of the entries that are kept.
#[verifier::rlimit(40)]
proof fn lemma_first_declared_places(list: Seq<(PropertyDeclaration, Seq<char>)>) -> (pos: Seq<int>)
    ensures
        forall|k: int|
            0 <= k < list.len() ==> exists|i: int|
                0 <= i < first_declared(list).len() && (#[trigger] first_declared(list)[i]).0.name@
                    == (#[trigger] list[k]).0.name@,
        pos.len() == first_declared(list).len(),
        forall|i: int|
            0 <= i < pos.len() ==> 0 <= #[trigger] pos[i] < list.len() && first_declared(list)[i]
                == list[pos[i]] && forall|j: int|
                0 <= j < pos[i] ==> (#[trigger] list[j]).0.name@ != list[pos[i]].0.name@,
        forall|i: int, j: int|
            0 <= i < j < pos.len() ==> (#[trigger] pos[i]) < (#[trigger] pos[j]),
    decreases list.len(),
{
    if list.len() == 0 {
        Seq::empty()
    } else {
        let d = list.drop_last();
        let last = list.last();
        let before = first_declared(d);
        let now = first_declared(list);
        let was = lemma_first_declared_places(d);
        assert forall|k: int| 0 <= k < d.len() implies #[trigger] list[k] == d[k] by {}
        let known = exists|i: int|
            0 <= i < list.len() - 1 && (#[trigger] list[i]).0.name@ == last.0.name@;
        let pos = if known {
            was
        } else {
            was.push(list.len() - 1)
        };
        assert forall|i: int| 0 <= i < pos.len() implies 0 <= #[trigger] pos[i] < list.len()
            && now[i] == list[pos[i]] && forall|j: int|
            0 <= j < pos[i] ==> (#[trigger] list[j]).0.name@ != list[pos[i]].0.name@ by {
            if i < was.len() {
                assert(pos[i] == was[i]);
                assert(now[i] == before[i]);
                assert forall|j: int| 0 <= j < pos[i] implies (#[trigger] list[j]).0.name@
                    != list[pos[i]].0.name@ by {
                    assert(d[j].0.name@ != d[was[i]].0.name@);
                }
            }
        }
        assert forall|k: int| 0 <= k < list.len() implies exists|i: int|
            0 <= i < now.len() && (#[trigger] now[i]).0.name@ == (#[trigger] list[k]).0.name@ by {
            if k < d.len() || known {
                let j = if k < d.len() {
                    k
                } else {
                    choose|i: int|
                        0 <= i < list.len() - 1 && (#[trigger] list[i]).0.name@ == last.0.name@
                };
                assert(d[j].0.name@ == list[k].0.name@);
                let i = choose|i: int|
                    0 <= i < before.len() && (#[trigger] before[i]).0.name@ == d[j].0.name@;
                assert(now[i] == before[i]);
            } else {
                assert(now[before.len() as int] == last);
            }
        }
        pos
    }
}

/// The class that declares a static property is the most derived one that has a static property of
/// that name among its own; no other property of the name counts.
#[verifier::rlimit(40)]
pub proof fn law_static_properties_belong_to_the_first_that_declares_them(
    line: Seq<ClassDeclaration>,
    name: Seq<char>,
)
    ensures
        static_declaring(line, name) matches Some(full) ==> exists|k: int, i: int|
            0 <= k < line.len() && full == line[k].full_name@ && 0 <= i < line[k].properties@.len()
                && (#[trigger] line[k].properties@[i]).name@ == name
                && line[k].properties@[i].is_static && forall|j: int, h: int|
                0 <= j < k && 0 <= h < line[j].properties@.len() ==> !((
                #[trigger] line[j].properties@[h]).name@ == name
                    && line[j].properties@[h].is_static),
        static_declaring(line, name) is None ==> forall|j: int, h: int|
            0 <= j < line.len() && 0 <= h < line[j].properties@.len() ==> !((
            #[trigger] line[j].properties@[h]).name@ == name && line[j].properties@[h].is_static),
    decreases line.len(),
{
    if line.len() > 0 {
        let rest = line.drop_first();
        if declares_static(line[0], name) {
            let i = choose|i: int|
                0 <= i < line[0].properties@.len() && (#[trigger] line[0].properties@[i]).name@
                    == name && line[0].properties@[i].is_static;
            assert(line[0].properties@[i].name@ == name);
        } else {
            law_static_properties_belong_to_the_first_that_declares_them(rest, name);
            assert forall|j: int, h: int|
                0 <= j < line.len() && 0 <= h < line[j].properties@.len() && (j == 0
                    || static_declaring(rest, name) is None) implies !((
            #[trigger] line[j].properties@[h]).name@ == name && line[j].properties@[h].is_static) by {
                if j > 0 {
                    assert(line[j] == rest[j - 1]);
                    assert(!(rest[j - 1].properties@[h].name@ == name
                        && rest[j - 1].properties@[h].is_static));
                }
            }
            if let Some(full) = static_declaring(rest, name) {
                let (k, i) = choose|k: int, i: int|
                    0 <= k < rest.len() && full == rest[k].full_name@ && 0 <= i
                        < rest[k].properties@.len() && (#[trigger] rest[k].properties@[i]).name@
                        == name && rest[k].properties@[i].is_static && forall|j: int, h: int|
                        0 <= j < k && 0 <= h < rest[j].properties@.len() ==> !((
                        #[trigger] rest[j].properties@[h]).name@ == name
                            && rest[j].properties@[h].is_static);
                assert(line[k + 1] == rest[k]);
                assert(line[k + 1].properties@[i].name@ == name);
                assert forall|j: int, h: int|
                    0 <= j < k + 1 && 0 <= h < line[j].properties@.len() implies !((
                #[trigger] line[j].properties@[h]).name@ == name
                    && line[j].properties@[h].is_static) by {
                    if j > 0 {
                        assert(line[j] == rest[j - 1]);
                        assert(!(rest[j - 1].properties@[h].name@ == name
                            && rest[j - 1].properties@[h].is_static));
                    }
                }
            }
        }
    }
}

/// A lookup of a method fails exactly where no method has the name as its plain name or as its
/// overload name.
pub proof fn law_methods_are_missed_only_where_none_is_named(
    list: Seq<MethodDeclaration>,
    name: Seq<char>,
)
    requires
        name.len() > 0,
    ensures
        first_named(list, name) is None <==> forall|i: int|
            0 <= i < list.len() ==> (#[trigger] list[i]).name@ != name && list[i].overload_name@
                != name,
{
    law_lookups_take_the_first_answer(list, name);
    assert forall|i: int| 0 <= i < list.len() implies ((#[trigger] list[i]).answers_to(name)
        <==> list[i].name@ == name || list[i].overload_name@ == name) by {}
    if first_named(list, name) is Some {
        let m = first_named(list, name)->Some_0;
        let i = choose|i: int| 0 <= i < list.len() && #[trigger] list[i] == m && m.answers_to(name);
        assert(list[i].answers_to(name));
    }
}

/// Properties with the names of their classes are read place by place.
pub proof fn law_declared_properties_are_read_place_by_place(v: Seq<(&PropertyDeclaration, String)>)
    ensures
        declared_views(v).len() == v.len(),
        forall|i: int| 0 <= i < v.len() ==> #[trigger] declared_views(v)[i] == (*v[i].0, v[i].1@),
{
}

/// The methods listed for a class are its own first, then those of its default interface, then those
/// of each implemented interface, in order.
pub proof fn law_listed_methods_come_in_order(c: &ClassDeclaration, r: Vec<&MethodDeclaration>)
    requires
        call_ensures(methods_of_class, (c,), r),
    ensures
        r@.len() == c.methods@.len() + (if let Some(d) = c.default_interface {
            d.methods@.len()
        } else {
            0
        }) + Seq::new(
            c.implemented_interfaces@.len(),
            |k: int| c.implemented_interfaces@[k].methods@,
        ).flatten().len(),
        forall|i: int| 0 <= i < c.methods@.len() ==> i < r@.len() && *r@[i] == #[trigger] c.methods@[i],
        c.default_interface matches Some(d) ==> forall|i: int|
            0 <= i < d.methods@.len() ==> c.methods@.len() + i < r@.len() && *r@[c.methods@.len()
                + i] == #[trigger] d.methods@[i],
        forall|k: int, i: int|
            0 <= k < c.implemented_interfaces@.len() && 0 <= i
                < c.implemented_interfaces@[k].methods@.len() ==> r@.map_values(
                |m: &MethodDeclaration| *m,
            ).contains(#[trigger] c.implemented_interfaces@[k].methods@[i]),
{
    law_methods_come_from_the_class_and_its_interfaces(*c);
    let all = class_methods(*c);
    assert(metadata::targets(r@) == all);
    assert forall|i: int| 0 <= i < r@.len() implies *(#[trigger] r@[i]) == all[i] by {
        assert(metadata::targets(r@)[i] == *r@[i]);
    }
    assert forall|i: int| 0 <= i < c.methods@.len() implies i < r@.len() && *r@[i]
        == #[trigger] c.methods@[i] by {
        assert(all[i] == c.methods@[i]);
    }
    if let Some(d) = c.default_interface {
        assert forall|i: int| 0 <= i < d.methods@.len() implies c.methods@.len() + i < r@.len()
            && *r@[c.methods@.len() + i] == #[trigger] d.methods@[i] by {
            assert(all[c.methods@.len() + i] == d.methods@[i]);
        }
    }
    let values = r@.map_values(|m: &MethodDeclaration| *m);
    assert(values =~= all);
}

/// A method that a class or one of its interfaces declares is found by its name, and what is found
/// goes by that name.
pub proof fn law_method_lookups_find_what_is_declared(
    md: &Metadata,
    c: &ClassDeclaration,
    name: &str,
    m: MethodDeclaration,
    r: Option<&MethodDeclaration>,
    matches: bool,
    has_member: bool,
)
    requires
        call_ensures(find_class_method, (md, c, name), r),
        call_ensures(class_method_matches, (md, c, name), matches),
        call_ensures(class_has_member_named, (md, c, name), has_member),
        ({
            ||| c.methods@.contains(m)
            ||| c.default_interface matches Some(d) && d.methods@.contains(m)
            ||| exists|k: int|
                0 <= k < c.implemented_interfaces@.len() && (
                #[trigger] c.implemented_interfaces@[k]).methods@.contains(m)
        }),
        name@ == m.name@ || (name@ == m.overload_name@ && name@.len() > 0),
    ensures
        r matches Some(found) && (found.name@ == name@ || found.overload_name@ == name@),
        matches,
        has_member,
{
    law_declared_methods_are_found(*md, *c, m);
}

/// A property that a class or one of its interfaces declares is found by its name.
pub proof fn law_property_lookups_find_what_is_declared(
    md: &Metadata,
    c: &ClassDeclaration,
    name: &str,
    p: PropertyDeclaration,
    r: Option<&PropertyDeclaration>,
    matches: bool,
    has_member: bool,
)
    requires
        call_ensures(find_class_property, (md, c, name), r),
        call_ensures(class_property_matches, (md, c, name), matches),
        call_ensures(class_has_member_named, (md, c, name), has_member),
        ({
            ||| c.properties@.contains(p)
            ||| c.default_interface matches Some(d) && d.properties@.contains(p)
            ||| exists|k: int|
                0 <= k < c.implemented_interfaces@.len() && (
                #[trigger] c.implemented_interfaces@[k]).properties@.contains(p)
        }),
        name@ == p.name@,
    ensures
        r matches Some(found) && found.name@ == name@,
        matches,
        has_member,
{
    law_declared_properties_are_found(*md, *c, p);
}

/// An event that a class or one of its interfaces declares is found by its name.
pub proof fn law_event_lookups_find_what_is_declared(
    md: &Metadata,
    c: &ClassDeclaration,
    name: &str,
    e: EventDeclaration,
    r: Option<(&MethodDeclaration, &MethodDeclaration)>,
)
    requires
        call_ensures(find_event_methods, (md, c, name), r),
        ({
            ||| c.events@.contains(e)
            ||| c.default_interface matches Some(d) && d.events@.contains(e)
            ||| exists|k: int|
                0 <= k < c.implemented_interfaces@.len() && (
                #[trigger] c.implemented_interfaces@[k]).events@.contains(e)
        }),
        name@ == e.name@,
    ensures
        r is Some,
{
    law_declared_events_are_found(*md, *c, e);
}

/// A lookup by a name that no method, property or event of the lineage answers to fails.
pub proof fn law_lookups_of_unknown_names_fail(
    md: &Metadata,
    c: &ClassDeclaration,
    name: &str,
    method: Option<&MethodDeclaration>,
    property: Option<&PropertyDeclaration>,
    has_member: bool,
)
    requires
        call_ensures(find_class_method, (md, c, name), method),
        call_ensures(find_class_property, (md, c, name), property),
        call_ensures(class_has_member_named, (md, c, name), has_member),
    ensures
        method matches Some(m) ==> m.name@ == name@ || m.overload_name@ == name@,
        property matches Some(p) ==> p.name@ == name@,
        has_member <==> method is Some || property is Some,
{
    let line = metadata::lineage(*md, *c);
    law_lookups_take_the_first_answer(all_methods(line), name@);
    law_lookups_take_the_first_answer(all_properties(line), name@);
}

/// An event is wired by its own two methods, in this order, for a class and for an interface.
pub proof fn law_events_are_wired_by_their_own_methods(
    declaration: &Declaration,
    name: &str,
    r: Option<(&MethodDeclaration, &MethodDeclaration)>,
    events: Seq<EventDeclaration>,
)
    requires
        call_ensures(find_interface_event_methods, (declaration, name), r),
        declaration matches Declaration::Interface(i) ==> events == i.events@,
        declaration matches Declaration::GenericInterfaceInstance(i) ==> events == i.events@,
        !(declaration is Interface || declaration is GenericInterfaceInstance) ==> events
            == Seq::<EventDeclaration>::empty(),
    ensures
        r is Some <==> exists|k: int|
            0 <= k < events.len() && (#[trigger] events[k]).name@ == name@,
        r matches Some((add, remove)) ==> exists|k: int|
            0 <= k < events.len() && (#[trigger] events[k]).name@ == name@ && events[k].add_method
                == *add && events[k].remove_method == *remove && forall|j: int|
                0 <= j < k ==> (#[trigger] events[j]).name@ != name@,
{
    law_lookups_take_the_first_answer(events, name@);
    if r is Some {
        let e = first_named(events, name@)->Some_0;
        let k = choose|k: int|
            0 <= k < events.len() && #[trigger] events[k] == e && e.answers_to(name@) && forall|
                j: int,
            |
                0 <= j < k ==> !(#[trigger] events[j]).answers_to(name@);
        assert(events[k].name@ == name@);
        assert forall|j: int| 0 <= j < k implies (#[trigger] events[j]).name@ != name@ by {
            assert(!events[j].answers_to(name@));
        }
    } else {
        assert forall|j: int| 0 <= j < events.len() implies (#[trigger] events[j]).name@
            != name@ by {
            assert(!events[j].answers_to(name@));
        }
    }
}

/// The methods of a class's event are those of the first event of the name in its lineage.
pub proof fn law_class_events_are_wired_by_their_own_methods(
    md: &Metadata,
    c: &ClassDeclaration,
    name: &str,
    r: Option<(&MethodDeclaration, &MethodDeclaration)>,
)
    requires
        call_ensures(find_event_methods, (md, c, name), r),
    ensures
        ({
            let events = all_events(metadata::lineage(*md, *c));
            r matches Some((add, remove)) ==> exists|k: int|
                0 <= k < events.len() && (#[trigger] events[k]).name@ == name@
                    && events[k].add_method == *add && events[k].remove_method == *remove
                    && forall|j: int| 0 <= j < k ==> (#[trigger] events[j]).name@ != name@
        }),
{
    let events = all_events(metadata::lineage(*md, *c));
    law_lookups_take_the_first_answer(events, name@);
    if r is Some {
        let e = first_named(events, name@)->Some_0;
        let k = choose|k: int|
            0 <= k < events.len() && #[trigger] events[k] == e && e.answers_to(name@) && forall|
                j: int,
            |
                0 <= j < k ==> !(#[trigger] events[j]).answers_to(name@);
        assert(events[k].name@ == name@);
        assert forall|j: int| 0 <= j < k implies (#[trigger] events[j]).name@ != name@ by {
            assert(!events[j].answers_to(name@));
        }
    }
}

/// A full name is its namespace, a dot and its simple name, which has no dot; a name without a dot has
/// no namespace.
pub proof fn law_full_names_are_parted_at_the_last_dot(full_name: &str, r: (Option<String>, String))
    requires
        call_ensures(split_type_name, (full_name,), r),
    ensures
        !r.1@.contains('.'),
        r.0 is Some <==> full_name@.contains('.'),
        r.0 matches Some(namespace) ==> full_name@ == namespace@ + seq!['.'] + r.1@,
        r.0 is None ==> full_name@ == r.1@,
{
    let simple = r.1@;
    text::law_places_are_of_the_first(simple, '.', 0);
    if let Some(namespace) = r.0 {
        assert(namespace@.push('.') + simple =~= namespace@ + seq!['.'] + simple);
        assert(full_name@[namespace@.len() as int] == '.');
    } else {
        text::law_places_are_of_the_first(full_name@, '.', 0);
    }
}

/// The members collected for a class are one of each key, the first of the lineage, in order.
#[verifier::rlimit(40)]
pub proof fn law_collected_members_are_the_first_of_each_key(
    md: &Metadata,
    c: &ClassDeclaration,
    methods: Vec<&MethodDeclaration>,
    properties: Vec<&PropertyDeclaration>,
    events: Vec<&EventDeclaration>,
)
    requires
        call_ensures(collect_class_methods, (md, c), methods),
        call_ensures(collect_class_properties, (md, c), properties),
        call_ensures(collect_events, (md, c), events),
    ensures
        forall|k: int|
            0 <= k < all_methods(metadata::lineage(*md, *c)).len() ==> exists|i: int|
                0 <= i < methods@.len() && (#[trigger] methods@[i]).key() == (
                #[trigger] all_methods(metadata::lineage(*md, *c))[k]).key(),
        forall|k: int|
            0 <= k < all_properties(metadata::lineage(*md, *c)).len() ==> exists|i: int|
                0 <= i < properties@.len() && (#[trigger] properties@[i]).name@ == (
                #[trigger] all_properties(metadata::lineage(*md, *c))[k]).name@,
        forall|k: int|
            0 <= k < all_events(metadata::lineage(*md, *c)).len() ==> exists|i: int|
                0 <= i < events@.len() && (#[trigger] events@[i]).name@ == (#[trigger] all_events(
                    metadata::lineage(*md, *c),
                )[k]).name@,
        forall|i: int, j: int|
            0 <= i < j < methods@.len() ==> (#[trigger] methods@[i]).key() != (
            #[trigger] methods@[j]).key(),
        forall|i: int, j: int|
            0 <= i < j < properties@.len() ==> (#[trigger] properties@[i]).name@ != (
            #[trigger] properties@[j]).name@,
        forall|i: int, j: int|
            0 <= i < j < events@.len() ==> (#[trigger] events@[i]).name@ != (
            #[trigger] events@[j]).name@,
{
    let line = metadata::lineage(*md, *c);
    lemma_collected(all_methods(line), methods@);
    lemma_collected(all_properties(line), properties@);
    lemma_collected(all_events(line), events@);
    assert forall|k: int| 0 <= k < all_properties(line).len() implies exists|i: int|
        0 <= i < properties@.len() && (#[trigger] properties@[i]).name@ == (
        #[trigger] all_properties(line)[k]).name@ by {
        let i = choose|i: int|
            0 <= i < properties@.len() && (#[trigger] properties@[i]).key() == all_properties(
                line,
            )[k].key();
        assert(properties@[i].name@ == all_properties(line)[k].name@);
    }
    assert forall|k: int| 0 <= k < all_events(line).len() implies exists|i: int|
        0 <= i < events@.len() && (#[trigger] events@[i]).name@ == (#[trigger] all_events(
            line,
        )[k]).name@ by {
        let i = choose|i: int|
            0 <= i < events@.len() && (#[trigger] events@[i]).key() == all_events(line)[k].key();
        assert(events@[i].name@ == all_events(line)[k].name@);
    }
    assert forall|i: int, j: int| 0 <= i < j < properties@.len() implies (
    #[trigger] properties@[i]).name@ != (#[trigger] properties@[j]).name@ by {
        assert(properties@[i].key() != properties@[j].key());
    }
    assert forall|i: int, j: int| 0 <= i < j < events@.len() implies (#[trigger] events@[i]).name@
        != (#[trigger] events@[j]).name@ by {
        assert(events@[i].key() != events@[j].key());
    }
}

proof fn lemma_collected<T: Member>(list: Seq<T>, r: Seq<&T>)
    requires
        metadata::targets(r) == fresh(list, Set::empty()),
    ensures
        forall|k: int|
            0 <= k < list.len() ==> exists|i: int|
                0 <= i < r.len() && (#[trigger] r[i]).key() == (#[trigger] list[k]).key(),
        forall|i: int, j: int|
            0 <= i < j < r.len() ==> (#[trigger] r[i]).key() != (#[trigger] r[j]).key(),
{
    let seen = Set::<Seq<char>>::empty();
    let f = fresh(list, seen);
    let pos = lemma_fresh_places(list, seen);
    assert forall|i: int| 0 <= i < r.len() implies *(#[trigger] r[i]) == f[i] by {
        assert(metadata::targets(r)[i] == *r[i]);
    }
    assert forall|k: int| 0 <= k < list.len() implies exists|i: int|
        0 <= i < r.len() && (#[trigger] r[i]).key() == (#[trigger] list[k]).key() by {
        assert(!seen.contains(list[k].key()));
        let i = choose|i: int| 0 <= i < f.len() && (#[trigger] f[i]).key() == list[k].key();
        assert(*r[i] == f[i]);
    }
    assert forall|i: int, j: int| 0 <= i < j < r.len() implies (#[trigger] r[i]).key() != (
    #[trigger] r[j]).key() by {
        assert(pos[i] < pos[j]);
        assert(list[pos[i]].key() != list[pos[j]].key());
    }
}

/// The class that declares a static property is the most derived one that has it among its own.
pub proof fn law_declaring_classes_are_the_most_derived(
    md: &Metadata,
    class: &ClassDeclaration,
    name: &str,
    r: Option<String>,
)
    requires
        call_ensures(find_static_property_declaring_class, (md, class, name), r),
    ensures
        ({
            let line = metadata::lineage(*md, *class);
            &&& r matches Some(full) ==> exists|k: int, i: int|
                0 <= k < line.len() && full@ == line[k].full_name@ && 0 <= i
                    < line[k].properties@.len() && (#[trigger] line[k].properties@[i]).name@
                    == name@ && line[k].properties@[i].is_static
            &&& r is None ==> forall|j: int, h: int|
                0 <= j < line.len() && 0 <= h < line[j].properties@.len() ==> !((
                #[trigger] line[j].properties@[h]).name@ == name@
                    && line[j].properties@[h].is_static)
        }),
{
    let line = metadata::lineage(*md, *class);
    law_static_properties_belong_to_the_first_that_declares_them(line, name@);
}

/// The properties collected with their classes are those of the lineage, one of each name.
#[verifier::rlimit(40)]
pub proof fn law_collected_properties_name_their_class(
    md: &Metadata,
    class: &ClassDeclaration,
    r: Vec<(&PropertyDeclaration, String)>,
    i: int,
)
    requires
        call_ensures(collect_class_properties_with_declaring, (md, class), r),
        0 <= i < r@.len(),
    ensures
        exists|k: int|
            0 <= k < metadata::lineage(*md, *class).len() && (#[trigger] metadata::lineage(
                *md,
                *class,
            )[k]).full_name@ == r@[i].1@ && class_properties(
                metadata::lineage(*md, *class)[k],
            ).contains(*r@[i].0),
        forall|j: int| 0 <= j < r@.len() && j != i ==> (#[trigger] r@[j]).0.name@ != r@[i].0.name@,
{
    let line = metadata::lineage(*md, *class);
    let list = declared(line);
    let kept = first_declared(list);
    let pos = lemma_first_declared_places(list);
    law_properties_come_with_their_class(line);
    assert(declared_views(r@) == kept);
    assert forall|j: int| 0 <= j < r@.len() implies (*(#[trigger] r@[j]).0, r@[j].1@) == kept[j] by {
        assert(declared_views(r@)[j] == (*r@[j].0, r@[j].1@));
    }
    assert(kept[i] == list[pos[i]]);
    assert forall|j: int| 0 <= j < r@.len() && j != i implies (#[trigger] r@[j]).0.name@
        != r@[i].0.name@ by {
        if j < i {
            assert(pos[j] < pos[i]);
            assert(list[pos[j]].0.name@ != list[pos[i]].0.name@);
        } else {
            assert(pos[i] < pos[j]);
            assert(list[pos[i]].0.name@ != list[pos[j]].0.name@);
        }
        assert(kept[j] == list[pos[j]]);
    }
}

/// Extending lists of members adds, behind what is there, the first of each key that was not seen yet,
/// and every key of the lineage is seen afterwards.
pub proof fn law_extended_lists_keep_what_was_there(
    md: &Metadata,
    class: &ClassDeclaration,
    methods: &mut Vec<&MethodDeclaration>,
    seen: &mut TextSet,
)
    requires
        call_ensures(extend_class_methods, (md, class, methods, seen), ()),
    ensures
        ({
            let all = all_methods(metadata::lineage(*md, *class));
            &&& final(methods)@.len() >= old(methods)@.len()
            &&& metadata::targets(final(methods)@).take(old(methods)@.len() as int)
                == metadata::targets(old(methods)@)
            &&& metadata::targets(final(methods)@).skip(old(methods)@.len() as int) == fresh(
                all,
                old(seen)@,
            )
            &&& forall|k: int|
                0 <= k < all.len() ==> final(seen)@.contains((#[trigger] all[k]).key())
            &&& old(seen)@.subset_of(final(seen)@)
        }),
{
    let all = all_methods(metadata::lineage(*md, *class));
    let was = metadata::targets(old(methods)@);
    let now = metadata::targets(final(methods)@);
    assert(now == was + fresh(all, old(seen)@));
    assert(now.take(was.len() as int) =~= was);
    assert(now.skip(was.len() as int) =~= fresh(all, old(seen)@));
    law_each_key_is_listed_once(all, old(seen)@);
    assert forall|k: int| 0 <= k < all.len() implies final(seen)@.contains(
        (#[trigger] all[k]).key(),
    ) by {
        assert(seen_after(all, old(seen)@).contains(all[k].key()));
    }
    assert forall|n: Seq<char>| old(seen)@.contains(n) implies final(seen)@.contains(n) by {
        assert(seen_after(all, old(seen)@).contains(n));
    }
}

/// The properties listed for a class are its own first, then those of its default interface, then
/// those of each implemented interface, in order.
pub proof fn law_listed_properties_come_in_order(c: &ClassDeclaration, r: Vec<&PropertyDeclaration>)
    requires
        call_ensures(properties_of_class, (c,), r),
    ensures
        metadata::targets(r@) == c.properties@ + (if c.default_interface is Some {
            c.default_interface->Some_0.properties@
        } else {
            Seq::empty()
        }) + Seq::new(
            c.implemented_interfaces@.len(),
            |k: int| c.implemented_interfaces@[k].properties@,
        ).flatten(),
{
    law_properties_come_from_the_class_and_its_interfaces(*c);
}

/// Extending a list of properties adds, behind what is there, the first of each name that was not seen
/// yet.
#[verifier::rlimit(40)]
pub proof fn law_extended_properties_keep_what_was_there(
    md: &Metadata,
    class: &ClassDeclaration,
    properties: &mut Vec<&PropertyDeclaration>,
    seen: &mut TextSet,
)
    requires
        call_ensures(extend_class_properties, (md, class, properties, seen), ()),
    ensures
        ({
            let all = all_properties(metadata::lineage(*md, *class));
            &&& metadata::targets(final(properties)@) == metadata::targets(old(properties)@) + fresh(
                all,
                old(seen)@,
            )
            &&& forall|n: Seq<char>| #[trigger]
                final(seen)@.contains(n) <==> old(seen)@.contains(n) || exists|k: int|
                    0 <= k < all.len() && (#[trigger] all[k]).name@ == n
        }),
{
    let all = all_properties(metadata::lineage(*md, *class));
    law_each_key_is_listed_once(all, old(seen)@);
    assert forall|n: Seq<char>| #[trigger]
        final(seen)@.contains(n) <==> old(seen)@.contains(n) || exists|k: int|
            0 <= k < all.len() && (#[trigger] all[k]).name@ == n by {
        assert(seen_after(all, old(seen)@).contains(n) <==> old(seen)@.contains(n) || exists|k: int|
            0 <= k < all.len() && (#[trigger] all[k]).key() == n);
        if exists|k: int| 0 <= k < all.len() && (#[trigger] all[k]).key() == n {
            let k = choose|k: int| 0 <= k < all.len() && (#[trigger] all[k]).key() == n;
            assert(all[k].name@ == n);
        }
        if exists|k: int| 0 <= k < all.len() && (#[trigger] all[k]).name@ == n {
            let k = choose|k: int| 0 <= k < all.len() && (#[trigger] all[k]).name@ == n;
            assert(all[k].key() == n);
        }
    }
}

/// The lineage that is listed is the class and its bases, in order.
pub proof fn law_listed_lineages_follow_the_bases(
    md: &Metadata,
    class: &ClassDeclaration,
    r: Vec<&ClassDeclaration>,
)
    requires
        call_ensures(lineage_of, (md, class), r),
        metadata::bases_end(*md, *class),
    ensures
        r@.len() > 0,
        *r@[0] == *class,
        forall|k: int|
            0 <= k < r@.len() - 1 ==> md.found((#[trigger] r@[k]).base_full_name@) == Some(
                Declaration::Class(*r@[k + 1]),
            ),
{
    let line = metadata::lineage(*md, *class);
    metadata::law_lineages_follow_the_bases(*md, *class);
    assert(metadata::targets(r@) == line);
    assert(line.len() == r@.len());
    assert forall|k: int| 0 <= k < r@.len() implies *(#[trigger] r@[k]) == line[k] by {
        assert(metadata::targets(r@)[k] == *r@[k]);
    }
    assert forall|k: int| 0 <= k < r@.len() - 1 implies md.found(
        (#[trigger] r@[k]).base_full_name@,
    ) == Some(Declaration::Class(*r@[k + 1])) by {
        assert(line[k] == *r@[k]);
        assert(line[k + 1] == *r@[k + 1]);
        assert(line[k].base_full_name@.len() > 0);
    }
}

} // verus!
