//! WinRT metadata as plain data: the declarations the class helpers read.

use crate::text;
use vstd::prelude::*;

verus! {

/// A method. `overload_name` is the name its `[Overload]` attribute gives it, or empty. `scope` and
/// `token` identify it: the metadata scope it is declared in, and its token there.
pub struct MethodDeclaration {
    pub name: String,
    pub overload_name: String,
    pub number_of_parameters: usize,
    pub is_static: bool,
    pub scope: usize,
    pub token: i32,
}

/// A property; `has_setter` says whether it can be written.
pub struct PropertyDeclaration {
    pub name: String,
    pub is_static: bool,
    pub has_setter: bool,
    pub scope: usize,
    pub token: i32,
}

/// An event with the methods that wire and unwire a handler.
pub struct EventDeclaration {
    pub name: String,
    pub add_method: MethodDeclaration,
    pub remove_method: MethodDeclaration,
}

/// An interface, or an instance of a generic one.
pub struct InterfaceDeclaration {
    pub full_name: String,
    pub methods: Vec<MethodDeclaration>,
    pub properties: Vec<PropertyDeclaration>,
    pub events: Vec<EventDeclaration>,
}

/// A runtime class. An empty `base_full_name` says that it has no base. The default interface can be
/// known by name only.
pub struct ClassDeclaration {
    pub full_name: String,
    pub base_full_name: String,
    pub is_sealed: bool,
    pub default_interface_full_name: Option<String>,
    pub default_interface: Option<InterfaceDeclaration>,
    pub implemented_interfaces: Vec<InterfaceDeclaration>,
    pub methods: Vec<MethodDeclaration>,
    pub properties: Vec<PropertyDeclaration>,
    pub events: Vec<EventDeclaration>,
    pub initializers: Vec<MethodDeclaration>,
}

/// What a name can stand for.
pub enum Declaration {
    Class(ClassDeclaration),
    Interface(InterfaceDeclaration),
    GenericInterface(InterfaceDeclaration),
    GenericInterfaceInstance(InterfaceDeclaration),
    Other,
}

/// All declarations that can be found, by full name.
pub struct Metadata {
    pub declarations: Vec<(String, Declaration)>,
}

/// The index of the declaration named `name`, the first of that name.
pub open spec fn index_by_name(ds: Seq<(String, Declaration)>, name: Seq<char>) -> Option<int>
    decreases ds.len(),
{
    if ds.len() == 0 {
        None
    } else {
        match index_by_name(ds.drop_last(), name) {
            Some(i) => Some(i),
            None => if ds.last().0@ == name {
                Some(ds.len() - 1)
            } else {
                None
            },
        }
    }
}

impl Metadata {
    /// The declaration named `name`.
    pub open spec fn found(&self, name: Seq<char>) -> Option<Declaration> {
        match index_by_name(self.declarations@, name) {
            Some(i) => Some(self.declarations@[i].1),
            None => None,
        }
    }

    /// The declaration named `name`, if there is one.
    pub fn find_by_name(&self, name: &str) -> (r: Option<&Declaration>)
        ensures
            match r {
                Some(d) => self.found(name@) == Some(*d),
                None => self.found(name@) is None,
            },
    {
        let ghost all = self.declarations@;
        for i in 0..self.declarations.len()
            invariant
                all == self.declarations@,
                index_by_name(all.take(i as int), name@) is None,
        {
            assert(all.take(i + 1).drop_last() == all.take(i as int));
            if text::same_text(self.declarations[i].0.as_str(), name) {
                proof {
                    assert(index_by_name(all.take(i + 1), name@) == Some(i as int));
                    lemma_index_stays(all, i + 1, name@);
                }
                return Some(&self.declarations[i].1);
            }
        }
        assert(all.take(all.len() as int) == all);
        None
    }
}

/// A name found among the first declarations is found there among all.
proof fn lemma_index_stays(ds: Seq<(String, Declaration)>, n: int, name: Seq<char>)
    requires
        0 <= n <= ds.len(),
        index_by_name(ds.take(n), name) is Some,
    ensures
        index_by_name(ds, name) == index_by_name(ds.take(n), name),
    decreases ds.len(),
{
    if n == ds.len() {
        assert(ds.take(n) == ds);
    } else {
        assert(ds.drop_last().take(n) == ds.take(n));
        lemma_index_stays(ds.drop_last(), n, name);
    }
}

/// An index found is one of a declaration.
pub proof fn lemma_index_in_range(ds: Seq<(String, Declaration)>, name: Seq<char>)
    ensures
        index_by_name(ds, name) matches Some(i) ==> 0 <= i < ds.len() && ds[i].0@ == name,
    decreases ds.len(),
{
    if ds.len() > 0 {
        lemma_index_in_range(ds.drop_last(), name);
    }
}

/// The class that `class` derives from, if it names one and the name stands for a class.
pub open spec fn base_of(md: Metadata, class: ClassDeclaration) -> Option<ClassDeclaration> {
    if class.base_full_name@.len() == 0 {
        None
    } else {
        match md.found(class.base_full_name@) {
            Some(Declaration::Class(b)) => Some(b),
            _ => None,
        }
    }
}

/// `class` and the classes it derives from, the most derived first; at most `n` of the latter.
pub open spec fn lineage_upto(md: Metadata, class: ClassDeclaration, n: nat) -> Seq<
    ClassDeclaration,
>
    decreases n,
{
    if n == 0 {
        seq![class]
    } else {
        match base_of(md, class) {
            None => seq![class],
            Some(b) => seq![class] + lineage_upto(md, b, (n - 1) as nat),
        }
    }
}

/// The `n`th class that `class` derives from.
pub open spec fn ancestor(md: Metadata, class: ClassDeclaration, n: nat) -> Option<ClassDeclaration>
    decreases n,
{
    if n == 0 {
        Some(class)
    } else {
        match base_of(md, class) {
            None => None,
            Some(b) => ancestor(md, b, (n - 1) as nat),
        }
    }
}

/// `class` and all the classes it derives from, the most derived first.
pub open spec fn lineage(md: Metadata, class: ClassDeclaration) -> Seq<ClassDeclaration> {
    lineage_upto(md, class, md.declarations@.len())
}

/// Whether the classes that `class` derives from come to an end.
pub open spec fn bases_end(md: Metadata, class: ClassDeclaration) -> bool {
    ancestor(md, class, md.declarations@.len() + 1) is None
}

/// The class that `class` derives from.
pub fn base_class<'a>(md: &'a Metadata, class: &'a ClassDeclaration) -> (r: Option<
    &'a ClassDeclaration,
>)
    ensures
        match r {
            Some(b) => base_of(*md, *class) == Some(*b),
            None => base_of(*md, *class) is None,
        },
{
    let name = class.base_full_name.as_str();
    let len: usize = text::chars_of(name).len();
    if len == 0 {
        return None;
    }
    match md.find_by_name(name) {
        Some(d) => match d {
            Declaration::Class(b) => Some(b),
            _ => None,
        },
        None => None,
    }
}

/// The values behind references.
pub open spec fn targets<T>(refs: Seq<&T>) -> Seq<T> {
    Seq::new(refs.len(), |i: int| *refs[i])
}

/// `class` and all the classes it derives from, or nothing where they come to no end.
pub fn class_lineage<'a>(md: &'a Metadata, class: &'a ClassDeclaration) -> (r: Option<
    Vec<&'a ClassDeclaration>,
>)
    ensures
        match r {
            Some(l) => bases_end(*md, *class) && targets(l@) == lineage(*md, *class),
            None => !bases_end(*md, *class),
        },
{
    let mut out: Vec<&'a ClassDeclaration> = Vec::new();
    let mut current: &'a ClassDeclaration = class;
    let n: usize = md.declarations.len();
    let mut left: usize = n;
    out.push(class);
    assert(targets(out@) + lineage_upto(*md, *current, n as nat).drop_first() =~= lineage(
        *md,
        *class,
    )) by {
        lemma_lineage_first(*md, *class, n as nat);
    }
    loop
        invariant
            n == md.declarations@.len(),
            left <= n,
            ancestor(*md, *class, (n + 1) as nat) == ancestor(*md, *current, (left + 1) as nat),
            targets(out@) + lineage_upto(*md, *current, left as nat).drop_first() == lineage(
                *md,
                *class,
            ),
        decreases left,
    {
        match base_class(md, current) {
            None => {
                proof {
                    lemma_lineage_first(*md, *current, left as nat);
                    assert(lineage_upto(*md, *current, left as nat) == seq![*current]);
                    assert(seq![*current].drop_first() =~= Seq::<ClassDeclaration>::empty());
                    assert(targets(out@) + Seq::<ClassDeclaration>::empty() =~= targets(out@));
                }
                return Some(out);
            },
            Some(b) => {
                if left == 0 {
                    proof {
                        assert(ancestor(*md, *b, 0) is Some);
                    }
                    return None;
                }
                proof {
                    let rest = lineage_upto(*md, *b, (left - 1) as nat);
                    lemma_lineage_first(*md, *b, (left - 1) as nat);
                    assert((seq![*current] + rest).drop_first() =~= rest);
                    assert(rest =~= seq![*b] + rest.drop_first());
                    assert(targets(out@.push(b)) =~= targets(out@).push(*b));
                    assert(targets(out@).push(*b) + rest.drop_first() =~= targets(out@) + rest);
                }
                out.push(b);
                current = b;
                left = left - 1;
            },
        }
    }
}

/// A lineage starts with the class itself.
pub proof fn lemma_lineage_first(md: Metadata, class: ClassDeclaration, n: nat)
    ensures
        lineage_upto(md, class, n).len() > 0,
        lineage_upto(md, class, n)[0] == class,
{
}

/// Whether the classes that the class named `name` derives from come to an end, if the name stands
/// for a class.
pub open spec fn found_bases_end(md: Metadata, name: Seq<char>) -> bool {
    match md.found(name) {
        Some(Declaration::Class(c)) => bases_end(md, c),
        _ => true,
    }
}

/// Whether the class named `name` is sealed; nothing where the name does not stand for a class.
pub fn class_is_sealed(md: &Metadata, name: &str) -> (r: Option<bool>)
    ensures
        r == (match md.found(name@) {
            Some(Declaration::Class(c)) => Some(c.is_sealed),
            _ => None,
        }),
{
    match md.find_by_name(name) {
        Some(d) => match d {
            Declaration::Class(c) => Some(c.is_sealed),
            _ => None,
        },
        None => None,
    }
}

/// Classes whose bases go on beyond the number of declarations go on for ever: a name was met
/// twice. So [`bases_end`] says exactly that the bases come to an end at all.
pub proof fn law_bases_end_early_or_never(md: Metadata, class: ClassDeclaration, n: nat)
    requires
        !bases_end(md, class),
    ensures
        ancestor(md, class, n) is Some,
{
    let m = md.declarations@.len();
    let idx = Seq::new(
        m + 1,
        |k: int| index_by_name(
            md.declarations@,
            ancestor(md, class, k as nat)->Some_0.base_full_name@,
        )->Some_0,
    );
    assert forall|k: int| 0 <= k <= m implies #[trigger] ancestor(
        md,
        class,
        (k + 1) as nat,
    ) is Some by {
        lemma_ancestor_before(md, class, (m + 1) as nat, (k + 1) as nat);
    }
    assert forall|k: int| 0 <= k < m + 1 implies 0 <= #[trigger] idx[k] < m && ancestor(
        md,
        class,
        (k + 1) as nat,
    ) == Some(md.declarations@[idx[k]].1->Class_0) by {
        assert(ancestor(md, class, (k + 1) as nat) is Some);
        lemma_ancestor_step(md, class, k as nat);
        let c = ancestor(md, class, k as nat)->Some_0;
        lemma_index_in_range(md.declarations@, c.base_full_name@);
    }
    if idx.no_duplicates() {
        let all = vstd::set_lib::set_int_range(0, m as int);
        vstd::set_lib::lemma_int_range(0, m as int);
        idx.unique_seq_to_set();
        assert(idx.to_set().subset_of(all)) by {
            assert forall|x: int| idx.to_set().contains(x) implies all.contains(x) by {
                let k = idx.index_of(x);
                assert(idx[k] == x);
            }
        }
        vstd::set_lib::lemma_len_subset(idx.to_set(), all);
        assert(false);
    }
    let (i, j) = choose|i: int, j: int|
        0 <= i < idx.len() && 0 <= j < idx.len() && i != j && idx[i] == idx[j];
    let (lo, hi) = if i < j {
        (i, j)
    } else {
        (j, i)
    };
    assert(ancestor(md, class, (lo + 1) as nat) == ancestor(md, class, (hi + 1) as nat));
    lemma_ancestor_periodic(md, class, (lo + 1) as nat, (hi + 1) as nat, n);
}

/// Where a class has an `n`th ancestor, it has every earlier one.
proof fn lemma_ancestor_before(md: Metadata, class: ClassDeclaration, n: nat, k: nat)
    requires
        ancestor(md, class, n) is Some,
        k <= n,
    ensures
        ancestor(md, class, k) is Some,
    decreases n,
{
    if k > 0 {
        lemma_ancestor_before(md, base_of(md, class)->Some_0, (n - 1) as nat, (k - 1) as nat);
    }
}

/// An ancestor is the base of the one before.
proof fn lemma_ancestor_step(md: Metadata, class: ClassDeclaration, k: nat)
    ensures
        ancestor(md, class, k + 1) is Some ==> ancestor(md, class, k) is Some && ancestor(
            md,
            class,
            k + 1,
        ) == base_of(md, ancestor(md, class, k)->Some_0),
        ancestor(md, class, k) is Some && ancestor(md, class, k + 1) is None ==> base_of(
            md,
            ancestor(md, class, k)->Some_0,
        ) is None,
    decreases k,
{
    if k > 0 {
        if let Some(b) = base_of(md, class) {
            lemma_ancestor_step(md, b, (k - 1) as nat);
        }
    } else {
        if let Some(b) = base_of(md, class) {
            assert(ancestor(md, b, 0) == Some(b));
            assert(ancestor(md, class, 1) == ancestor(md, b, 0));
        } else {
            assert(ancestor(md, class, 1) is None);
        }
    }
}

/// Ancestors of an ancestor.
proof fn lemma_ancestor_sum(md: Metadata, class: ClassDeclaration, a: nat, b: nat)
    requires
        ancestor(md, class, a) is Some,
    ensures
        ancestor(md, class, a + b) == ancestor(md, ancestor(md, class, a)->Some_0, b),
    decreases a,
{
    if a > 0 {
        lemma_ancestor_sum(md, base_of(md, class)->Some_0, (a - 1) as nat, b);
    }
}

/// A class met twice on the way up is met again and again.
proof fn lemma_ancestor_periodic(md: Metadata, class: ClassDeclaration, lo: nat, hi: nat, n: nat)
    requires
        lo < hi,
        ancestor(md, class, lo) is Some,
        ancestor(md, class, lo) == ancestor(md, class, hi),
    ensures
        ancestor(md, class, n) is Some,
    decreases n,
{
    if n <= hi {
        lemma_ancestor_before(md, class, hi, n);
    } else {
        let p = (hi - lo) as nat;
        lemma_ancestor_periodic(md, class, lo, hi, (n - p) as nat);
        lemma_ancestor_sum(md, class, hi, (n - hi) as nat);
        lemma_ancestor_sum(md, class, lo, (n - hi) as nat);
    }
}

/// A name stands for the first declaration under it, and for nothing where none is.
pub proof fn law_names_stand_for_their_first_declaration(md: Metadata, name: Seq<char>)
    ensures
        md.found(name) matches Some(d) ==> exists|i: int|
            0 <= i < md.declarations@.len() && (#[trigger] md.declarations@[i]).0@ == name
                && md.declarations@[i].1 == d && forall|j: int|
                0 <= j < i ==> (#[trigger] md.declarations@[j]).0@ != name,
        md.found(name) is None ==> forall|j: int|
            0 <= j < md.declarations@.len() ==> (#[trigger] md.declarations@[j]).0@ != name,
{
    lemma_index_is_first(md.declarations@, name);
}

proof fn lemma_index_is_first(ds: Seq<(String, Declaration)>, name: Seq<char>)
    ensures
        index_by_name(ds, name) matches Some(i) ==> 0 <= i < ds.len() && ds[i].0@ == name
            && forall|j: int| 0 <= j < i ==> (#[trigger] ds[j]).0@ != name,
        index_by_name(ds, name) is None ==> forall|j: int|
            0 <= j < ds.len() ==> (#[trigger] ds[j]).0@ != name,
    decreases ds.len(),
{
    if ds.len() > 0 {
        let d = ds.drop_last();
        lemma_index_is_first(d, name);
        assert forall|j: int| 0 <= j < d.len() implies (#[trigger] ds[j]) == d[j] by {}
        assert(index_by_name(d, name) is None ==> forall|j: int|
            0 <= j < d.len() ==> (#[trigger] ds[j]).0@ != name);
        if let Some(i) = index_by_name(d, name) {
            assert forall|j: int| 0 <= j < i implies (#[trigger] ds[j]).0@ != name by {
                assert(d[j].0@ != name);
            }
        }
    }
}

/// A lineage starts with the class itself; each class in it names the next as its base; and the last
/// names none, or a name that stands for no class.
pub proof fn law_lineages_follow_the_bases(md: Metadata, class: ClassDeclaration)
    requires
        bases_end(md, class),
    ensures
        lineage(md, class).len() > 0,
        lineage(md, class)[0] == class,
        forall|k: int|
            0 <= k < lineage(md, class).len() - 1 ==> (#[trigger] lineage(
                md,
                class,
            )[k]).base_full_name@.len() > 0 && md.found(lineage(md, class)[k].base_full_name@)
                == Some(Declaration::Class(lineage(md, class)[k + 1])),
        lineage(md, class).last().base_full_name@.len() == 0 || !(md.found(
            lineage(md, class).last().base_full_name@,
        ) matches Some(Declaration::Class(_))),
{
    lemma_lineage_follows(md, class, md.declarations@.len());
}

proof fn lemma_lineage_follows(md: Metadata, class: ClassDeclaration, n: nat)
    requires
        ancestor(md, class, n + 1) is None,
    ensures
        lineage_upto(md, class, n).len() > 0,
        lineage_upto(md, class, n)[0] == class,
        forall|k: int|
            0 <= k < lineage_upto(md, class, n).len() - 1 ==> base_of(
                md,
                #[trigger] lineage_upto(md, class, n)[k],
            ) == Some(lineage_upto(md, class, n)[k + 1]),
        base_of(md, lineage_upto(md, class, n).last()) is None,
    decreases n,
{
    if n == 0 {
        if let Some(b) = base_of(md, class) {
            assert(ancestor(md, b, 0) is Some);
        }
    } else if let Some(b) = base_of(md, class) {
        let rest = lineage_upto(md, b, (n - 1) as nat);
        assert(ancestor(md, class, n + 1) == ancestor(md, b, n));
        lemma_lineage_follows(md, b, (n - 1) as nat);
        let line = lineage_upto(md, class, n);
        assert(line == seq![class] + rest);
        assert forall|k: int| 0 <= k < line.len() - 1 implies base_of(md, #[trigger] line[k])
            == Some(line[k + 1]) by {
            if k > 0 {
                assert(line[k] == rest[k - 1]);
                assert(line[k + 1] == rest[k]);
            }
        }
        assert(line.last() == rest.last());
    }
}

/// What references stand for is read place by place.
pub proof fn law_targets_keep_their_places<T>(v: Seq<&T>)
    ensures
        targets(v).len() == v.len(),
        forall|i: int| 0 <= i < v.len() ==> #[trigger] targets(v)[i] == *v[i],
{
}

/// A class has a base exactly where it names one and the name stands for a class.
pub proof fn law_bases_are_classes_by_name(md: Metadata, class: ClassDeclaration, b: ClassDeclaration)
    ensures
        base_of(md, class) == Some(b) <==> class.base_full_name@.len() > 0 && md.found(
            class.base_full_name@,
        ) == Some(Declaration::Class(b)),
{
}

/// A declaration found is the first under its name; a class is sealed where it says so, and a name
/// that stands for none is neither.
pub proof fn law_declarations_are_found_by_name(
    md: &Metadata,
    name: &str,
    r: Option<&Declaration>,
    sealed: Option<bool>,
)
    requires
        call_ensures(Metadata::find_by_name, (md, name), r),
        call_ensures(class_is_sealed, (md, name), sealed),
    ensures
        r matches Some(d) ==> exists|i: int|
            0 <= i < md.declarations@.len() && (#[trigger] md.declarations@[i]).0@ == name@
                && md.declarations@[i].1 == *d && forall|j: int|
                0 <= j < i ==> (#[trigger] md.declarations@[j]).0@ != name@,
        r is None ==> forall|j: int|
            0 <= j < md.declarations@.len() ==> (#[trigger] md.declarations@[j]).0@ != name@,
        sealed is Some <==> (r matches Some(d) && d is Class),
        r matches Some(d) ==> (d matches Declaration::Class(c) ==> sealed == Some(c.is_sealed)),
{
    law_names_stand_for_their_first_declaration(*md, name@);
}

/// The ancestors of a class: the class itself, and each one's base.
pub proof fn law_ancestors_are_bases_of_bases(md: Metadata, class: ClassDeclaration, n: nat)
    ensures
        ancestor(md, class, 0) == Some(class),
        ancestor(md, class, n) matches Some(c) ==> ancestor(md, class, n + 1) == base_of(md, c),
        ancestor(md, class, n) is None ==> ancestor(md, class, n + 1) is None,
        bases_end(md, class) <==> exists|k: nat| (#[trigger] ancestor(md, class, k)) is None,
{
    lemma_ancestor_step(md, class, n);
    if ancestor(md, class, n) is None && ancestor(md, class, n + 1) is Some {
        lemma_ancestor_before(md, class, n + 1, n);
    }
    if !bases_end(md, class) {
        assert forall|k: nat| (#[trigger] ancestor(md, class, k)) is Some by {
            law_bases_end_early_or_never(md, class, k);
        }
    } else {
        assert(ancestor(md, class, md.declarations@.len() + 1) is None);
    }
}

/// A lineage is given exactly where the bases come to an end, and is the class and its bases in order.
pub proof fn law_lineages_are_given_where_they_end(
    md: &Metadata,
    class: &ClassDeclaration,
    r: Option<Vec<&ClassDeclaration>>,
)
    requires
        call_ensures(class_lineage, (md, class), r),
    ensures
        r is Some <==> exists|k: nat| (#[trigger] ancestor(*md, *class, k)) is None,
        r matches Some(line) ==> line@.len() > 0 && *line@[0] == *class && forall|k: int|
            0 <= k < line@.len() - 1 ==> base_of(*md, *(#[trigger] line@[k])) == Some(*line@[k + 1]),
        r matches Some(line) ==> base_of(*md, *line@.last()) is None,
{
    law_ancestors_are_bases_of_bases(*md, *class, 0);
    if let Some(line) = r {
        let all = lineage(*md, *class);
        lemma_lineage_follows(*md, *class, md.declarations@.len());
        assert(targets(line@) == all);
        assert(all.len() == line@.len());
        assert forall|k: int| 0 <= k < line@.len() implies *(#[trigger] line@[k]) == all[k] by {
            assert(targets(line@)[k] == *line@[k]);
        }
        assert forall|k: int| 0 <= k < line@.len() - 1 implies base_of(*md, *(#[trigger] line@[k]))
            == Some(*line@[k + 1]) by {
            assert(base_of(*md, all[k]) == Some(all[k + 1]));
            assert(*line@[k + 1] == all[k + 1]);
        }
        assert(*line@[line@.len() - 1] == all[all.len() - 1]);
    }
}

/// The base of a class is the class that it names.
pub proof fn law_bases_are_found_by_name(
    md: &Metadata,
    class: &ClassDeclaration,
    r: Option<&ClassDeclaration>,
)
    requires
        call_ensures(base_class, (md, class), r),
    ensures
        r matches Some(b) ==> class.base_full_name@.len() > 0 && md.found(class.base_full_name@)
            == Some(Declaration::Class(*b)),
        r is None ==> class.base_full_name@.len() == 0 || !(md.found(class.base_full_name@)
            matches Some(Declaration::Class(_))),
{
}

} // verus!
