//! Host objects: which WinRT classes are wrapped as plain objects with a shared prototype, and what
//! stands on that prototype and on the constructor.
//!
//! Host objects are used for non-collection class instances. Interface instances, indexable
//! collections and keyed maps need traps that a static prototype cannot serve.

use crate::class_helpers;
use crate::metadata;
use crate::metadata::{
    ClassDeclaration, Declaration, EventDeclaration, Metadata, MethodDeclaration,
    PropertyDeclaration,
};
use crate::overloads;
use crate::overloads::Groups;
use crate::text;
use crate::text_map;
use crate::text_map::TextMap;
use crate::text_set::TextSet;
use ahash::AHashMap;
use vstd::prelude::*;

verus! {

/// The name of an interface without what makes it generic: what stands before a backquote or `<`.
pub open spec fn plain_name(name: Seq<char>) -> Seq<char> {
    let tick = text::pos_from(name, '`', 0);
    let angle = text::pos_from(name, '<', 0);
    name.take(
        if tick < angle {
            tick
        } else {
            angle
        },
    )
}

/// Whether a name is that of a map interface.
pub open spec fn is_map_name(name: Seq<char>) -> bool {
    ||| plain_name(name) == "Windows.Foundation.Collections.IMap"@
    ||| plain_name(name) == "Windows.Foundation.Collections.IMapView"@
    ||| plain_name(name) == "Windows.Foundation.Collections.IObservableMap"@
    ||| plain_name(name) == "Windows.Foundation.Collections.IPropertySet"@
}

/// Whether a class is a keyed map: its default interface is one.
pub open spec fn is_map(class: ClassDeclaration) -> bool {
    match class.default_interface_full_name {
        Some(n) => is_map_name(n@),
        None => false,
    }
}

/// Whether a class is host-eligible: neither an indexable collection nor a keyed map.
pub open spec fn eligible(md: Metadata, class: ClassDeclaration) -> bool {
    class_helpers::first_named(
        class_helpers::all_methods(metadata::lineage(md, class)),
        "GetAt"@,
    ) is None && !is_map(class)
}

/// What a memo of eligibilities holds.
pub uninterp spec fn memo_in(m: AHashMap<String, bool>) -> Map<Seq<char>, bool>;

/// `AHashMap::new`: an empty map.
#[verifier::external_body]
fn no_memo() -> (r: AHashMap<String, bool>)
    ensures
        forall|k: Seq<char>| !memo_in(r).contains_key(k),
{
    AHashMap::new()
}

/// `AHashMap::get`, copied: the value of the key, if the map has it.
#[verifier::external_body]
fn get_memo(m: &AHashMap<String, bool>, key: &str) -> (r: Option<bool>)
    ensures
        match r {
            Some(v) => memo_in(*m).contains_key(key@) && memo_in(*m)[key@] == v,
            None => !memo_in(*m).contains_key(key@),
        },
{
    m.get(key).copied()
}

/// `AHashMap::insert`: the key has this value, whatever it had before; nothing else changes.
#[verifier::external_body]
fn insert_memo(m: &mut AHashMap<String, bool>, key: String, value: bool)
    ensures
        memo_in(*final(m)) == memo_in(*old(m)).insert(key@, value),
{
    m.insert(key, value);
}

/// Class name to host-eligibility, memoized to avoid re-walking metadata on every instance wrap.
pub struct Eligibility {
    map: AHashMap<String, bool>,
}

impl View for Eligibility {
    type V = Map<Seq<char>, bool>;

    closed spec fn view(&self) -> Map<Seq<char>, bool> {
        memo_in(self.map)
    }
}

/// Whether every memoized answer is the one that the metadata gives for the class of that name.
pub open spec fn truthful(memo: Map<Seq<char>, bool>, md: Metadata) -> bool {
    forall|name: Seq<char>| #[trigger]
        memo.contains_key(name) ==> (md.found(name) matches Some(Declaration::Class(c))
            && memo[name] == eligible(md, c))
}

/// True iff the class is a keyed map: its default interface is IMap/IMapView/IObservableMap/
/// IPropertySet. Classes that merely also implement IMap alongside a richer identity are not.
pub fn default_interface_is_map(class: &ClassDeclaration) -> (r: bool)
    ensures
        r == is_map(*class),
{
    let name = match &class.default_interface_full_name {
        Some(n) => text::chars_of(n.as_str()),
        None => {
            return false;
        },
    };
    let tick: usize = text::find_char(&name, '`', 0);
    let angle: usize = text::find_char(&name, '<', 0);
    let end: usize = if tick < angle {
        tick
    } else {
        angle
    };
    let plain = text::string_of(&text::piece(&name, 0, end));
    assert(plain@ =~= plain_name(name@));
    let plain = plain.as_str();
    text::same_text(plain, "Windows.Foundation.Collections.IMap") || text::same_text(
        plain,
        "Windows.Foundation.Collections.IMapView",
    ) || text::same_text(plain, "Windows.Foundation.Collections.IObservableMap")
        || text::same_text(plain, "Windows.Foundation.Collections.IPropertySet")
}

impl Eligibility {
    /// Nothing memoized.
    pub fn new() -> (r: Eligibility)
        ensures
            r@ == Map::<Seq<char>, bool>::empty(),
    {
        let r = Eligibility { map: no_memo() };
        assert(r@ =~= Map::<Seq<char>, bool>::empty());
        r
    }

    /// Memoized: is `class`, named `name`, a non-collection class?
    pub fn class_is_host_eligible(
        &mut self,
        md: &Metadata,
        class: &ClassDeclaration,
        name: &str,
    ) -> (r: bool)
        requires
            metadata::bases_end(*md, *class),
        ensures
            r == (if old(self)@.contains_key(name@) {
                old(self)@[name@]
            } else {
                eligible(*md, *class)
            }),
            final(self)@ == old(self)@.insert(name@, r),
    {
        if let Some(v) = get_memo(&self.map, name) {
            assert(self@.insert(name@, v) =~= self@);
            return v;
        }
        let v = !class_helpers::class_method_matches(md, class, "GetAt")
            && !default_interface_is_map(class);
        insert_memo(&mut self.map, name.to_owned(), v);
        v
    }

    /// True iff a class named `name` with `declaration` should be wrapped as a host object.
    pub fn should_host(
        &mut self,
        enabled: bool,
        md: &Metadata,
        name: &str,
        declaration: &Declaration,
    ) -> (r: bool)
        requires
            declaration matches Declaration::Class(c) ==> metadata::bases_end(*md, *c),
        ensures
            ({
                let asked = enabled && declaration is Class;
                &&& r == (asked && (if old(self)@.contains_key(name@) {
                    old(self)@[name@]
                } else {
                    eligible(*md, declaration->Class_0)
                }))
                &&& final(self)@ == if asked {
                    old(self)@.insert(name@, r)
                } else {
                    old(self)@
                }
            }),
    {
        if !enabled {
            return false;
        }
        match declaration {
            Declaration::Class(class) => self.class_is_host_eligible(md, class, name),
            _ => false,
        }
    }

    /// For an interface-typed instance whose runtime class is `name` (nothing where the object does
    /// not say): the declaration of that class, if it is host-eligible, so the instance can be
    /// wrapped as a host object.
    pub fn runtime_class_host_target<'a>(
        &mut self,
        enabled: bool,
        md: &'a Metadata,
        name: Option<&str>,
    ) -> (r: Option<&'a Declaration>)
        requires
            name matches Some(n) ==> metadata::found_bases_end(*md, n@),
        ensures
            match r {
                Some(d) => enabled && name is Some && md.found(name->Some_0@) == Some(*d)
                    && d is Class && (if old(self)@.contains_key(name->Some_0@) {
                    old(self)@[name->Some_0@]
                } else {
                    eligible(*md, d->Class_0)
                }),
                None => !enabled || name is None || !(md.found(name->Some_0@) is Some)
                    || !(md.found(name->Some_0@)->Some_0 is Class) || !(if old(
                    self,
                )@.contains_key(name->Some_0@) {
                    old(self)@[name->Some_0@]
                } else {
                    eligible(*md, md.found(name->Some_0@)->Some_0->Class_0)
                }),
            },
            enabled && name is Some && md.found(name->Some_0@) is Some && md.found(
                name->Some_0@,
            )->Some_0 is Class ==> final(self)@ == old(self)@.insert(
                name->Some_0@,
                r is Some,
            ),
            !(enabled && name is Some && md.found(name->Some_0@) is Some && md.found(
                name->Some_0@,
            )->Some_0 is Class) ==> final(self)@ == old(self)@,
    {
        if !enabled {
            return None;
        }
        let name = match name {
            Some(n) => n,
            None => {
                return None;
            },
        };
        let declaration = match md.find_by_name(name) {
            Some(d) => d,
            None => {
                return None;
            },
        };
        match declaration {
            Declaration::Class(class) => if self.class_is_host_eligible(md, class, name) {
                Some(declaration)
            } else {
                None
            },
            _ => None,
        }
    }
}

/// The memo never changes an answer: where all it holds is true of the metadata, asking about a
/// class under its own name gives what the metadata says, and keeps the memo true.
pub proof fn law_memo_does_not_change_answers(
    memo: Map<Seq<char>, bool>,
    md: Metadata,
    class: ClassDeclaration,
    name: Seq<char>,
)
    requires
        truthful(memo, md),
        md.found(name) == Some(Declaration::Class(class)),
    ensures
        (if memo.contains_key(name) {
            memo[name]
        } else {
            eligible(md, class)
        }) == eligible(md, class),
        truthful(memo.insert(name, eligible(md, class)), md),
{
}

/// True iff `declaration` is an interface, generic or not (interface-typed returns often carry a
/// concrete class object).
pub fn is_interface(declaration: &Declaration) -> (r: bool)
    ensures
        r == (declaration is Interface || declaration is GenericInterface
            || declaration is GenericInterfaceInstance),
{
    match declaration {
        Declaration::Interface(_) => true,
        Declaration::GenericInterface(_) => true,
        Declaration::GenericInterfaceInstance(_) => true,
        _ => false,
    }
}

/// The value in `cell`, filling it with what `prepare` gives where it is empty. Nothing when the
/// cell is empty and nothing could be prepared (the caller then takes its unprepared fallback and
/// the next call prepares again).
pub fn get_or_prepare<'a, T, F: FnOnce() -> Option<T>>(
    cell: &'a mut Option<T>,
    prepare: F,
) -> (r: Option<&'a T>)
    requires
        *old(cell) is None ==> call_requires(prepare, ()),
    ensures
        *old(cell) is Some ==> *final(cell) == *old(cell),
        *old(cell) is None ==> call_ensures(prepare, (), *final(cell)),
        match r {
            Some(v) => *final(cell) == Some(*v),
            None => *final(cell) is None,
        },
{
    if cell.is_none() {
        *cell = prepare();
    }
    cell.as_ref()
}

/// Whether a method is static, or is not.
pub open spec fn method_of_kind(is_static: bool) -> spec_fn(MethodDeclaration) -> bool {
    |m: MethodDeclaration| m.is_static == is_static
}

/// Whether a property is static, or is not.
pub open spec fn property_of_kind(is_static: bool) -> spec_fn(PropertyDeclaration) -> bool {
    |p: PropertyDeclaration| p.is_static == is_static
}

/// The groups with only their static, or only their other, overloads; a group of none is left out.
pub open spec fn of_kind(g: Map<Seq<char>, Seq<MethodDeclaration>>, is_static: bool) -> Map<
    Seq<char>,
    Seq<MethodDeclaration>,
> {
    Map::new(
        |k: Seq<char>|
            g.contains_key(k) && g[k].filter(method_of_kind(is_static)).len() > 0,
        |k: Seq<char>| g[k].filter(method_of_kind(is_static)),
    )
}

/// The overloads that are static, or those that are not.
fn keep_methods<'a>(overloads: &Vec<&'a MethodDeclaration>, is_static: bool) -> (r: Vec<
    &'a MethodDeclaration,
>)
    ensures
        metadata::targets(r@) == metadata::targets(overloads@).filter(method_of_kind(is_static)),
{
    let ghost all = metadata::targets(overloads@);
    let mut out: Vec<&'a MethodDeclaration> = Vec::new();
    proof {
        reveal(Seq::filter);
        assert(metadata::targets(out@) =~= all.take(0).filter(method_of_kind(is_static)));
    }
    for i in 0..overloads.len()
        invariant
            all == metadata::targets(overloads@),
            metadata::targets(out@) == all.take(i as int).filter(method_of_kind(is_static)),
    {
        let m = overloads[i];
        proof {
            reveal(Seq::filter);
            assert(all[i as int] == *m);
            assert(all.take(i + 1).drop_last() == all.take(i as int));
        }
        if m.is_static == is_static {
            let ghost was = out@;
            out.push(m);
            assert(metadata::targets(out@) =~= metadata::targets(was).push(*m));
        }
    }
    assert(all.take(all.len() as int) == all);
    out
}

/// The properties that are static, or those that are not.
fn keep_properties<'a>(properties: &Vec<&'a PropertyDeclaration>, is_static: bool) -> (r: Vec<
    &'a PropertyDeclaration,
>)
    ensures
        metadata::targets(r@) == metadata::targets(properties@).filter(
            property_of_kind(is_static),
        ),
{
    let ghost all = metadata::targets(properties@);
    let mut out: Vec<&'a PropertyDeclaration> = Vec::new();
    proof {
        reveal(Seq::filter);
        assert(metadata::targets(out@) =~= all.take(0).filter(property_of_kind(is_static)));
    }
    for i in 0..properties.len()
        invariant
            all == metadata::targets(properties@),
            metadata::targets(out@) == all.take(i as int).filter(property_of_kind(is_static)),
    {
        let p = properties[i];
        proof {
            reveal(Seq::filter);
            assert(all[i as int] == *p);
            assert(all.take(i + 1).drop_last() == all.take(i as int));
        }
        if p.is_static == is_static {
            let ghost was = out@;
            out.push(p);
            assert(metadata::targets(out@) =~= metadata::targets(was).push(*p));
        }
    }
    assert(all.take(all.len() as int) == all);
    out
}

/// The groups with only their static, or only their other, overloads.
pub fn select_overloads<'a>(groups: &Groups<'a>, is_static: bool) -> (r: Groups<'a>)
    ensures
        overloads::groups_view(r@) == of_kind(overloads::groups_view(groups@), is_static),
{
    let n: usize = groups.len();
    let ghost e = groups.entries();
    let mut out: Groups<'a> = TextMap::new();
    proof {
        assert(overloads::groups_view(out@) =~= of_kind(
            overloads::groups_view(text_map::pairs_map(e.take(0))),
            is_static,
        ));
    }
    for i in 0..n
        invariant
            n == e.len(),
            e == groups.entries(),
            text_map::distinct_keys(e),
            text_map::pairs_map(e) == groups@,
            overloads::groups_view(out@) == of_kind(
                overloads::groups_view(text_map::pairs_map(e.take(i as int))),
                is_static,
            ),
    {
        let (name, list) = groups.entry(i);
        let kept = keep_methods(list, is_static);
        let ghost before = text_map::pairs_map(e.take(i as int));
        let ghost now = text_map::pairs_map(e.take(i + 1));
        proof {
            assert(e.take(i + 1).drop_last() =~= e.take(i as int));
            assert(now == before.insert(name@, *list));
            assert forall|j: int| 0 <= j < i implies (#[trigger] e.take(i as int)[j]).0 != name@ by {
                assert(e[j].0 != e[i as int].0);
            }
            text_map::lemma_pairs_absent(e.take(i as int), name@);
        }
        proof {
            assert(overloads::groups_view(now) =~= overloads::groups_view(before).insert(
                name@,
                metadata::targets(list@),
            ));
            lemma_of_kind_insert(
                overloads::groups_view(before),
                name@,
                metadata::targets(list@),
                is_static,
            );
        }
        if kept.len() > 0 {
            let ghost was = out@;
            out.set(name.clone(), kept);
            assert(overloads::groups_view(out@) =~= overloads::groups_view(was).insert(
                name@,
                metadata::targets(kept@),
            ));
        }
    }
    assert(e.take(n as int) =~= e);
    out
}

/// One more group.
proof fn lemma_of_kind_insert(
    g: Map<Seq<char>, Seq<MethodDeclaration>>,
    name: Seq<char>,
    list: Seq<MethodDeclaration>,
    is_static: bool,
)
    requires
        !g.contains_key(name),
    ensures
        ({
            let kept = list.filter(method_of_kind(is_static));
            of_kind(g.insert(name, list), is_static) == if kept.len() > 0 {
                of_kind(g, is_static).insert(name, kept)
            } else {
                of_kind(g, is_static)
            }
        }),
{
    let kept = list.filter(method_of_kind(is_static));
    let after = of_kind(g.insert(name, list), is_static);
    if kept.len() > 0 {
        assert(after =~= of_kind(g, is_static).insert(name, kept));
    } else {
        assert(after =~= of_kind(g, is_static));
    }
}

/// What stands on the shared prototype of a class: instance methods by name, instance properties as
/// accessors, events as accessors.
pub struct PrototypePlan<'a> {
    pub methods: Groups<'a>,
    pub properties: Vec<&'a PropertyDeclaration>,
    pub events: Vec<&'a EventDeclaration>,
    pub is_sealed: bool,
}

/// Whether a plan is that of the prototype of `class`.
pub open spec fn is_prototype_plan(
    plan: PrototypePlan,
    md: Metadata,
    class: ClassDeclaration,
) -> bool {
    let line = metadata::lineage(md, class);
    &&& overloads::groups_view(plan.methods@) == of_kind(
        overloads::class_groups(md, class),
        false,
    )
    &&& metadata::targets(plan.properties@) == class_helpers::fresh(
        class_helpers::all_properties(line),
        Set::empty(),
    ).filter(property_of_kind(false))
    &&& metadata::targets(plan.events@) == class_helpers::fresh(
        class_helpers::all_events(line),
        Set::empty(),
    )
    &&& plan.is_sealed == class.is_sealed
}

/// Whether an outcome is that of asking for the prototype of the class named `class_name`.
pub open spec fn is_prototype_outcome(
    r: Result<PrototypePlan, String>,
    md: Metadata,
    class_name: Seq<char>,
) -> bool {
    match md.found(class_name) {
        None => r matches Err(e) && e@ == "type not found: "@ + class_name,
        Some(Declaration::Class(c)) => r matches Ok(plan) && is_prototype_plan(plan, md, c),
        Some(_) => r matches Err(e) && e@ == class_name + " is not a class"@,
    }
}

/// What stands on the shared prototype of the class named `class_name`, or why it has none.
pub fn class_prototype<'a>(md: &'a Metadata, class_name: &str) -> (r: Result<
    PrototypePlan<'a>,
    String,
>)
    requires
        metadata::found_bases_end(*md, class_name@),
    ensures
        is_prototype_outcome(r, *md, class_name@),
{
    let declaration = match md.find_by_name(class_name) {
        Some(d) => d,
        None => {
            return Err(text::concat2("type not found: ", class_name));
        },
    };
    let class = match declaration {
        Declaration::Class(c) => c,
        _ => {
            return Err(text::concat2(class_name, " is not a class"));
        },
    };
    let groups = all_groups(md, class);
    let properties = class_helpers::collect_class_properties(md, class);
    Ok(
        PrototypePlan {
            methods: select_overloads(&groups, false),
            properties: keep_properties(&properties, false),
            events: class_helpers::collect_events(md, class),
            is_sealed: class.is_sealed,
        },
    )
}

/// The groups of a class.
fn all_groups<'a>(md: &'a Metadata, class: &'a ClassDeclaration) -> (r: Groups<'a>)
    requires
        metadata::bases_end(*md, *class),
    ensures
        overloads::groups_view(r@) == overloads::class_groups(*md, *class),
{
    let mut groups: Groups<'a> = TextMap::new();
    assert(overloads::groups_view(groups@) =~= Map::<Seq<char>, Seq<MethodDeclaration>>::empty());
    overloads::extend_class_methods_grouped(md, class, &mut groups);
    groups
}

/// What a constructor is made of: the class whose shared prototype is its `prototype`, the
/// initializers of `new`, static methods by name, static properties as accessors.
pub struct ConstructorPlan<'a> {
    pub prototype: String,
    pub initializers: Vec<&'a MethodDeclaration>,
    pub methods: Groups<'a>,
    pub properties: Vec<&'a PropertyDeclaration>,
    pub is_sealed: bool,
}

/// Whether a plan is that of the constructor of `class`, named `class_name`.
pub open spec fn is_constructor_plan(
    plan: ConstructorPlan,
    md: Metadata,
    class_name: Seq<char>,
    class: ClassDeclaration,
) -> bool {
    &&& plan.prototype@ == class_name
    &&& metadata::targets(plan.initializers@) == class.initializers@
    &&& overloads::groups_view(plan.methods@) == of_kind(
        overloads::class_groups(md, class),
        true,
    )
    &&& metadata::targets(plan.properties@) == class_helpers::fresh(
        class_helpers::all_properties(metadata::lineage(md, class)),
        Set::empty(),
    ).filter(property_of_kind(true))
    &&& plan.is_sealed == class.is_sealed
}

/// What the constructor of the declaration named `class_name` is made of; one that is no class has no
/// members and counts as sealed.
pub fn build_host_ctor<'a>(
    md: &'a Metadata,
    class_name: &str,
    declaration: &'a Declaration,
) -> (r: ConstructorPlan<'a>)
    requires
        declaration matches Declaration::Class(c) ==> metadata::bases_end(*md, *c),
    ensures
        match *declaration {
            Declaration::Class(c) => is_constructor_plan(r, *md, class_name@, c),
            _ => r.prototype@ == class_name@ && r.initializers@.len() == 0 && r.properties@.len() == 0 && r.is_sealed
                && overloads::groups_view(r.methods@) == Map::<
                Seq<char>,
                Seq<MethodDeclaration>,
            >::empty(),
        },
{
    match declaration {
        Declaration::Class(class) => {
            let mut initializers: Vec<&'a MethodDeclaration> = Vec::new();
            for i in 0..class.initializers.len()
                invariant
                    metadata::targets(initializers@) == class.initializers@.take(i as int),
            {
                let ghost was = initializers@;
                initializers.push(&class.initializers[i]);
                assert(metadata::targets(initializers@) =~= metadata::targets(was).push(
                    class.initializers@[i as int],
                ));
                assert(class.initializers@.take(i + 1) =~= class.initializers@.take(
                    i as int,
                ).push(class.initializers@[i as int]));
            }
            assert(class.initializers@.take(class.initializers@.len() as int)
                =~= class.initializers@);
            let groups = all_groups(md, class);
            let properties = class_helpers::collect_class_properties(md, class);
            ConstructorPlan {
                prototype: class_name.to_owned(),
                initializers,
                methods: select_overloads(&groups, true),
                properties: keep_properties(&properties, true),
                is_sealed: class.is_sealed,
            }
        },
        _ => {
            let methods: Groups<'a> = TextMap::new();
            assert(overloads::groups_view(methods@) =~= Map::<
                Seq<char>,
                Seq<MethodDeclaration>,
            >::empty());
            ConstructorPlan {
                prototype: class_name.to_owned(),
                initializers: Vec::new(),
                methods,
                properties: Vec::new(),
                is_sealed: true,
            }
        },
    }
}

/// Why a constructor refuses a call, if it does: it is called without `new`.
pub open spec fn call_refusal(class_name: Seq<char>, constructing: bool) -> Option<Seq<char>> {
    if constructing {
        None
    } else {
        Some(class_name + " is a WinRT class constructor — use `new`"@)
    }
}

/// The message of the TypeError with which a constructor refuses a call, if it does.
pub fn refuse_call(class_name: &str, constructing: bool) -> (r: Option<String>)
    ensures
        text::option_text(r) == call_refusal(class_name@, constructing),
{
    if constructing {
        None
    } else {
        Some(text::concat2(class_name, " is a WinRT class constructor — use `new`"))
    }
}

/// What a member of an instance holds.
#[derive(Clone, Copy, PartialEq, Eq, Structural, Debug)]
pub enum InstanceMember {
    /// The external that owns the COM reference and lets the identity cache go when it is collected;
    /// arguments are made from its pointer.
    Reference,
    /// The name of the class.
    TypeName,
}

/// What an instance is made of: the class whose shared prototype it is linked to, and its own
/// members by name.
pub struct InstancePlan {
    pub prototype: String,
    pub members: Vec<(String, InstanceMember)>,
}

/// The own members of an instance.
pub open spec fn instance_members() -> Seq<(Seq<char>, InstanceMember)> {
    seq![
        ("handle"@, InstanceMember::Reference),
        ("__typeName__"@, InstanceMember::TypeName),
        ("__comref"@, InstanceMember::Reference),
    ]
}

/// The views of own members.
pub open spec fn member_views(ms: Seq<(String, InstanceMember)>) -> Seq<
    (Seq<char>, InstanceMember),
> {
    Seq::new(ms.len(), |i: int| (ms[i].0@, ms[i].1))
}

/// What an instance of a class is made of.
pub fn build_host_instance(class_name: &str) -> (r: InstancePlan)
    ensures
        r.prototype@ == class_name@,
        member_views(r.members@) == instance_members(),
{
    let mut members: Vec<(String, InstanceMember)> = Vec::new();
    members.push(("handle".to_owned(), InstanceMember::Reference));
    members.push(("__typeName__".to_owned(), InstanceMember::TypeName));
    members.push(("__comref".to_owned(), InstanceMember::Reference));
    assert(member_views(members@) =~= instance_members());
    InstancePlan { prototype: class_name.to_owned(), members }
}

/// The constructor of a class and its instances share the prototype of that class, so that an
/// instance is an instance of its class.
pub proof fn law_constructor_and_instances_share_the_prototype(
    plan: ConstructorPlan,
    instance: InstancePlan,
    md: Metadata,
    class_name: Seq<char>,
    class: ClassDeclaration,
    prototype: Result<PrototypePlan, String>,
)
    requires
        md.found(class_name) == Some(Declaration::Class(class)),
        is_constructor_plan(plan, md, class_name, class),
        instance.prototype@ == class_name,
        is_prototype_outcome(prototype, md, plan.prototype@),
    ensures
        plan.prototype@ == instance.prototype@,
        prototype matches Ok(p) && is_prototype_plan(p, md, class),
{
}

/// A constructor refuses every call without `new`, naming its class, and none with it.
pub proof fn law_constructors_need_new(class_name: Seq<char>)
    ensures
        call_refusal(class_name, true) is None,
        call_refusal(class_name, false) matches Some(m) && class_name.is_prefix_of(m),
{
    let m = class_name + " is a WinRT class constructor — use `new`"@;
    assert(m.take(class_name.len() as int) =~= class_name);
}

/// How `new` makes an instance.
#[derive(Clone, Copy, PartialEq, Eq, Structural, Debug)]
pub enum Construction {
    /// Default activation.
    Activate,
    /// The initializer of this index.
    Initialize(usize),
}

/// How `new` with `argc` arguments makes an instance of `class_name`: without arguments by default
/// activation, otherwise by the first initializer that takes as many.
pub fn plan_construction(
    class_name: &str,
    initializers: &Vec<&MethodDeclaration>,
    argc: usize,
) -> (r: Result<Construction, String>)
    ensures
        ({
            let found = overloads::first_of_arity(metadata::targets(initializers@), argc);
            match r {
                Ok(Construction::Activate) => argc == 0,
                Ok(Construction::Initialize(i)) => argc > 0 && i < initializers@.len() && found
                    == Some(i as int) && initializers@[i as int].number_of_parameters == argc
                    && forall|j: int|
                    0 <= j < i ==> (#[trigger] initializers@[j]).number_of_parameters != argc,
                Err(e) => argc > 0 && found is None && e@ == class_name@
                    + ": no constructor takes "@ + text::decimal(argc as nat) + " argument(s)"@
                    && forall|j: int|
                    0 <= j < initializers@.len() ==> (
                    #[trigger] initializers@[j]).number_of_parameters != argc,
            }
        }),
{
    if argc == 0 {
        return Ok(Construction::Activate);
    }
    match overloads::position_of_arity(initializers, argc) {
        Some(i) => Ok(Construction::Initialize(i)),
        None => {
            let mut m = text::concat3(
                class_name,
                ": no constructor takes ",
                text::decimal_text(argc as u64).as_str(),
            );
            m.append(" argument(s)");
            Err(m)
        },
    }
}

/// What came of calling an initializer: the message of a failed call, or whether it gave an object.
pub enum InitializerOutcome {
    Failed(String),
    Null,
    Object,
}

/// Whether the call of an initializer gave an instance, or why it gave none.
pub fn check_constructed(class_name: &str, outcome: InitializerOutcome) -> (r: Result<(), String>)
    ensures
        match outcome {
            InitializerOutcome::Failed(detail) => r matches Err(e) && e@ == detail@,
            InitializerOutcome::Null => r matches Err(e) && e@ == class_name@
                + " constructor returned null"@,
            InitializerOutcome::Object => r is Ok,
        },
{
    match outcome {
        InitializerOutcome::Failed(detail) => Err(detail),
        InitializerOutcome::Null => Err(text::concat2(class_name, " constructor returned null")),
        InitializerOutcome::Object => Ok(()),
    }
}

/// The steps of making an instance that can fail.
#[derive(Clone, Copy, PartialEq, Eq, Structural, Debug)]
pub enum ActivationStep {
    /// Getting the activation factory.
    Factory,
    /// Asking it for default activation.
    DefaultActivation,
    /// Activating.
    Activate,
    /// Asking the activated instance for its identity.
    ActivatedIdentity,
    /// Asking a constructed instance for its identity.
    ConstructedIdentity,
}

/// The message for a step that failed with `error`.
pub fn activation_error(step: ActivationStep, class_name: &str, error: &str) -> (r: String)
    ensures
        r@ == match step {
            ActivationStep::Factory => "activation factory failed: "@ + error@,
            ActivationStep::DefaultActivation => class_name@ + " is not default-activatable: "@
                + error@,
            ActivationStep::Activate => "ActivateInstance failed for "@ + class_name@ + ": "@
                + error@,
            ActivationStep::ActivatedIdentity => "activated-instance cast failed: "@ + error@,
            ActivationStep::ConstructedIdentity => "constructed-instance QI failed: "@ + error@,
        },
{
    match step {
        ActivationStep::Factory => text::concat2("activation factory failed: ", error),
        ActivationStep::DefaultActivation => text::concat3(
            class_name,
            " is not default-activatable: ",
            error,
        ),
        ActivationStep::Activate => {
            let mut m = text::concat3("ActivateInstance failed for ", class_name, ": ");
            m.append(error);
            m
        },
        ActivationStep::ActivatedIdentity => text::concat2(
            "activated-instance cast failed: ",
            error,
        ),
        ActivationStep::ConstructedIdentity => text::concat2(
            "constructed-instance QI failed: ",
            error,
        ),
    }
}

/// A method stands either on the prototype or on the constructor: what is grouped under a name is
/// parted into the overloads that instances have and those that the class has.
pub proof fn law_overloads_are_parted(
    g: Map<Seq<char>, Seq<MethodDeclaration>>,
    name: Seq<char>,
    i: int,
)
    requires
        g.contains_key(name),
        0 <= i < g[name].len(),
    ensures
        ({
            let m = g[name][i];
            let here = of_kind(g, m.is_static);
            let there = of_kind(g, !m.is_static);
            &&& here.contains_key(name) && here[name].contains(m)
            &&& there.contains_key(name) ==> !there[name].contains(m)
        }),
{
    let m = g[name][i];
    g[name].lemma_filter_contains(method_of_kind(m.is_static), i);
    let kept = g[name].filter(method_of_kind(m.is_static));
    assert(kept.contains(m));
    let other = g[name].filter(method_of_kind(!m.is_static));
    if other.contains(m) {
        let k = other.index_of(m);
        g[name].lemma_filter_pred(method_of_kind(!m.is_static), k);
        assert(other[k] == m);
    }
}

/// Whether exactly one of the properties has `p`'s name, and it is `p`.
pub open spec fn listed_once(ps: Seq<PropertyDeclaration>, p: PropertyDeclaration) -> bool {
    exists|i: int|
        #![trigger ps[i]]
        0 <= i < ps.len() && ps[i] == p && forall|j: int|
            0 <= j < ps.len() && (#[trigger] ps[j]).name@ == p.name@ ==> j == i
}

/// Whether exactly one of the overloads takes as many arguments as `m`, and it is `m`.
pub open spec fn overload_once(ms: Seq<MethodDeclaration>, m: MethodDeclaration) -> bool {
    exists|i: int|
        #![trigger ms[i]]
        0 <= i < ms.len() && ms[i] == m && forall|j: int|
            0 <= j < ms.len() && (#[trigger] ms[j]).number_of_parameters == m.number_of_parameters
                ==> j == i
}

/// Each static property of a class stands on its constructor exactly once: the property that a name
/// stands for, where it is static, and none of any other name. Its accessor has a setter where the
/// property has one, as it is the property itself that is listed.
pub proof fn law_static_properties_stand_on_the_constructor(
    plan: ConstructorPlan,
    md: Metadata,
    class_name: Seq<char>,
    class: ClassDeclaration,
    name: Seq<char>,
)
    requires
        is_constructor_plan(plan, md, class_name, class),
    ensures
        ({
            let ps = metadata::targets(plan.properties@);
            match class_helpers::first_named(
                class_helpers::all_properties(metadata::lineage(md, class)),
                name,
            ) {
                Some(p) => if p.is_static {
                    listed_once(ps, p) && forall|i: int|
                        0 <= i < ps.len() && (#[trigger] ps[i]).name@ == name ==> ps[i].has_setter
                            == p.has_setter
                } else {
                    forall|i: int| 0 <= i < ps.len() ==> (#[trigger] ps[i]).name@ != name
                },
                None => forall|i: int| 0 <= i < ps.len() ==> (#[trigger] ps[i]).name@ != name,
            }
        }),
{
    let list = class_helpers::all_properties(metadata::lineage(md, class));
    let all = class_helpers::fresh(list, Set::empty());
    let keep = property_of_kind(true);
    let ps = metadata::targets(plan.properties@);
    class_helpers::lemma_fresh_properties(list);
    class_helpers::lemma_filter_keeps_distinct(all, keep);
    assert forall|i: int| 0 <= i < ps.len() implies (#[trigger] ps[i]).is_static
        && class_helpers::first_named(list, ps[i].name@) == Some(ps[i]) by {
        all.lemma_filter_pred(keep, i);
        assert(ps.contains(ps[i]));
        all.lemma_filter_contains_rev(keep, ps[i]);
        let k = all.index_of(ps[i]);
        assert(all[k] == ps[i]);
    }
    if let Some(p) = class_helpers::first_named(list, name) {
        if p.is_static {
            let k = all.index_of(p);
            all.lemma_filter_contains(keep, k);
            let i = ps.index_of(p);
            assert(ps[i] == p);
            assert forall|j: int| 0 <= j < ps.len() && (#[trigger] ps[j]).name@ == p.name@ implies j
                == i by {
                if j < i {
                    assert(ps[j].name@ != ps[i].name@);
                } else if i < j {
                    assert(ps[i].name@ != ps[j].name@);
                }
            }
        }
    }
}

/// Each static method that a name reaches stands on the constructor under that name, as the only one
/// that takes its number of arguments; a name that reaches none is not on the constructor, and what
/// stands there is static.
pub proof fn law_static_methods_stand_on_the_constructor(
    plan: ConstructorPlan,
    md: Metadata,
    class_name: Seq<char>,
    class: ClassDeclaration,
    name: Seq<char>,
)
    requires
        is_constructor_plan(plan, md, class_name, class),
    ensures
        ({
            let reached = overloads::bucket(overloads::class_groups(md, class), name);
            let stands = overloads::bucket(overloads::groups_view(plan.methods@), name);
            &&& forall|i: int|
                0 <= i < reached.len() && (#[trigger] reached[i]).is_static ==> overload_once(
                    stands,
                    reached[i],
                )
            &&& forall|i: int|
                0 <= i < stands.len() ==> (#[trigger] stands[i]).is_static && reached.contains(
                    stands[i],
                )
            &&& overloads::groups_view(plan.methods@).contains_key(name) <==> stands.len() > 0
        }),
{
    let g = overloads::class_groups(md, class);
    let reached = overloads::bucket(g, name);
    let h = overloads::groups_view(plan.methods@);
    let stands = overloads::bucket(h, name);
    let keep = method_of_kind(true);
    overloads::law_groups_have_one_overload_per_arity(
        overloads::candidates(metadata::lineage(md, class)),
        name,
    );
    reveal(Seq::filter);
    assert(stands =~= reached.filter(keep));
    assert forall|i: int| 0 <= i < stands.len() implies (#[trigger] stands[i]).is_static
        && reached.contains(stands[i]) by {
        reached.lemma_filter_pred(keep, i);
        assert(stands.contains(stands[i]));
        reached.lemma_filter_contains_rev(keep, stands[i]);
    }
    overloads::lemma_filter_keeps_one_per_arity(reached, keep);
    assert forall|i: int| 0 <= i < reached.len() && (#[trigger] reached[i]).is_static implies
        overload_once(stands, reached[i]) by {
        reached.lemma_filter_contains(keep, i);
        let k = stands.index_of(reached[i]);
        assert(stands[k] == reached[i]);
        assert forall|j: int|
            0 <= j < stands.len() && (#[trigger] stands[j]).number_of_parameters
                == reached[i].number_of_parameters implies j == k by {
            if j < k {
                assert(stands[j].number_of_parameters != stands[k].number_of_parameters);
            } else if k < j {
                assert(stands[k].number_of_parameters != stands[j].number_of_parameters);
            }
        }
    }
}

/// What a memo of handles holds.
pub uninterp spec fn handles_in(m: AHashMap<String, usize>) -> Map<Seq<char>, usize>;

/// `AHashMap::new`: an empty map.
#[verifier::external_body]
fn no_handles() -> (r: AHashMap<String, usize>)
    ensures
        forall|k: Seq<char>| !handles_in(r).contains_key(k),
{
    AHashMap::new()
}

/// `AHashMap::get`, copied: the value of the key, if the map has it.
#[verifier::external_body]
fn get_handle(m: &AHashMap<String, usize>, key: &str) -> (r: Option<usize>)
    ensures
        match r {
            Some(v) => handles_in(*m).contains_key(key@) && handles_in(*m)[key@] == v,
            None => !handles_in(*m).contains_key(key@),
        },
{
    m.get(key).copied()
}

/// `AHashMap::insert`: the key has this value, whatever it had before; nothing else changes.
#[verifier::external_body]
fn insert_handle(m: &mut AHashMap<String, usize>, key: String, value: usize)
    ensures
        handles_in(*final(m)) == handles_in(*old(m)).insert(key@, value),
{
    m.insert(key, value);
}

/// Class name to the handle of what was built for it, so that it is built once.
pub struct HandleMemo {
    map: AHashMap<String, usize>,
}

impl View for HandleMemo {
    type V = Map<Seq<char>, usize>;

    closed spec fn view(&self) -> Map<Seq<char>, usize> {
        handles_in(self.map)
    }
}

impl HandleMemo {
    /// Nothing built.
    pub fn new() -> (r: HandleMemo)
        ensures
            r@ == Map::<Seq<char>, usize>::empty(),
    {
        let r = HandleMemo { map: no_handles() };
        assert(r@ =~= Map::<Seq<char>, usize>::empty());
        r
    }

    /// The handle of what was built for a class.
    pub fn get(&self, class_name: &str) -> (r: Option<usize>)
        ensures
            r == built_for(self@, class_name@),
    {
        get_handle(&self.map, class_name)
    }

    /// Keeps the handle of what was built for a class.
    pub fn keep(&mut self, class_name: &str, handle: usize)
        ensures
            final(self)@ == old(self)@.insert(class_name@, handle),
    {
        insert_handle(&mut self.map, class_name.to_owned(), handle);
    }
}

/// What was built for a class.
pub open spec fn built_for(memo: Map<Seq<char>, usize>, class_name: Seq<char>) -> Option<usize> {
    if memo.contains_key(class_name) {
        Some(memo[class_name])
    } else {
        None
    }
}

/// What was built for a class is handed out again, whatever was built for other classes since.
pub proof fn law_built_once(
    memo: Map<Seq<char>, usize>,
    class_name: Seq<char>,
    handle: usize,
    later: Seq<(Seq<char>, usize)>,
)
    requires
        forall|i: int| 0 <= i < later.len() ==> (#[trigger] later[i]).0 != class_name,
    ensures
        built_for(kept(memo.insert(class_name, handle), later), class_name) == Some(handle),
    decreases later.len(),
{
    if later.len() > 0 {
        let d = later.drop_last();
        assert forall|i: int| 0 <= i < d.len() implies (#[trigger] d[i]).0 != class_name by {
            assert(later[i].0 != class_name);
        }
        law_built_once(memo, class_name, handle, d);
        assert(later[later.len() - 1].0 != class_name);
    }
}

/// A memo that has been handed more handles.
pub open spec fn kept(
    memo: Map<Seq<char>, usize>,
    more: Seq<(Seq<char>, usize)>,
) -> Map<Seq<char>, usize>
    decreases more.len(),
{
    if more.len() == 0 {
        memo
    } else {
        kept(memo, more.drop_last()).insert(more.last().0, more.last().1)
    }
}

/// The plain name of a type is what stands before its first backquote or angle bracket.
pub proof fn law_plain_names_end_at_type_arguments(head: Seq<char>, tail: Seq<char>)
    requires
        !head.contains('`'),
        !head.contains('<'),
    ensures
        plain_name(head) == head,
        plain_name(head + seq!['`'] + tail) == head,
        plain_name(head + seq!['<'] + tail) == head,
{
    assert forall|i: int| 0 <= i < head.len() implies #[trigger] head[i] != '`' && head[i] != '<' by {
        assert(head.contains(head[i]));
    }
    let n = head.len() as int;
    let a = head + seq!['`'] + tail;
    let b = head + seq!['<'] + tail;
    text::lemma_pos_from_unique(head, '`', 0, n);
    text::lemma_pos_from_unique(head, '<', 0, n);
    text::lemma_pos_from_unique(a, '`', 0, n);
    text::lemma_pos_from_unique(b, '<', 0, n);
    text::lemma_pos_from(a, '<', 0);
    text::lemma_pos_from(b, '`', 0);
    let p = text::pos_from(a, '<', 0);
    let q = text::pos_from(b, '`', 0);
    assert(p > n) by {
        if p < n {
            assert(a[p] == head[p]);
        } else if p == n {
            assert(a[p] == '`');
        }
    }
    assert(q > n) by {
        if q < n {
            assert(b[q] == head[q]);
        } else if q == n {
            assert(b[q] == '<');
        }
    }
    assert(head.take(n) =~= head);
    assert(a.take(n) =~= head);
    assert(b.take(n) =~= head);
}

/// A class can have its prototype built ahead unless it is a vector, that is, some class of its
/// lineage has a `GetAt`, or a map, that is, its default interface is one of these four.
#[verifier::rlimit(40)]
pub proof fn law_collections_are_not_eligible(md: Metadata, class: ClassDeclaration)
    ensures
        eligible(md, class) <==> ({
            let all = class_helpers::all_methods(metadata::lineage(md, class));
            &&& forall|i: int|
                0 <= i < all.len() ==> (#[trigger] all[i]).name@ != "GetAt"@
                    && all[i].overload_name@ != "GetAt"@
            &&& class.default_interface_full_name matches Some(n) ==> !seq![
                "Windows.Foundation.Collections.IMap"@,
                "Windows.Foundation.Collections.IMapView"@,
                "Windows.Foundation.Collections.IObservableMap"@,
                "Windows.Foundation.Collections.IPropertySet"@,
            ].contains(plain_name(n@))
        }),
{
    let all = class_helpers::all_methods(metadata::lineage(md, class));
    reveal_strlit("GetAt");
    assert("GetAt"@.len() == 5);
    class_helpers::law_methods_are_missed_only_where_none_is_named(all, "GetAt"@);
    let maps = seq![
        "Windows.Foundation.Collections.IMap"@,
        "Windows.Foundation.Collections.IMapView"@,
        "Windows.Foundation.Collections.IObservableMap"@,
        "Windows.Foundation.Collections.IPropertySet"@,
    ];
    assert(maps[0] == "Windows.Foundation.Collections.IMap"@);
    assert(maps[1] == "Windows.Foundation.Collections.IMapView"@);
    assert(maps[2] == "Windows.Foundation.Collections.IObservableMap"@);
    assert(maps[3] == "Windows.Foundation.Collections.IPropertySet"@);
    if let Some(n) = class.default_interface_full_name {
        assert(maps.contains(plain_name(n@)) <==> is_map_name(n@));
    }
}

/// The overloads of a kind are those that are static, or those that are not, in order; a name that has
/// none of the kind is not there.
pub proof fn law_kinds_go_by_static(
    g: Map<Seq<char>, Seq<MethodDeclaration>>,
    is_static: bool,
    name: Seq<char>,
)
    ensures
        of_kind(g, is_static).contains_key(name) <==> g.contains_key(name) && exists|i: int|
            0 <= i < g[name].len() && (#[trigger] g[name][i]).is_static == is_static,
        of_kind(g, is_static).contains_key(name) ==> of_kind(g, is_static)[name] == g[name].filter(
            |m: MethodDeclaration| m.is_static == is_static,
        ),
{
    let keep = |m: MethodDeclaration| m.is_static == is_static;
    assert(keep =~= method_of_kind(is_static));
    if g.contains_key(name) {
        let f = g[name].filter(keep);
        if f.len() > 0 {
            g[name].lemma_filter_pred(keep, 0);
            assert(f.contains(f[0]));
            g[name].lemma_filter_contains_rev(keep, f[0]);
            let i = g[name].index_of(f[0]);
            assert(g[name][i].is_static == is_static);
        }
        if exists|i: int| 0 <= i < g[name].len() && (#[trigger] g[name][i]).is_static == is_static {
            let i = choose|i: int|
                0 <= i < g[name].len() && (#[trigger] g[name][i]).is_static == is_static;
            g[name].lemma_filter_contains(keep, i);
            assert(f.contains(g[name][i]));
        }
    }
}

/// A prototype has what instances of the class have: of each name in the lineage the methods and
/// properties that are not static, and every event; it is sealed where the class is.
#[verifier::rlimit(40)]
pub proof fn law_prototypes_have_what_instances_have(
    plan: PrototypePlan,
    md: Metadata,
    class: ClassDeclaration,
    name: Seq<char>,
)
    requires
        is_prototype_plan(plan, md, class),
    ensures
        plan.is_sealed == class.is_sealed,
        metadata::targets(plan.properties@) == class_helpers::fresh(
            class_helpers::all_properties(metadata::lineage(md, class)),
            Set::empty(),
        ).filter(|p: PropertyDeclaration| !p.is_static),
        metadata::targets(plan.events@) == class_helpers::fresh(
            class_helpers::all_events(metadata::lineage(md, class)),
            Set::empty(),
        ),
        plan.methods@.contains_key(name) <==> overloads::class_groups(md, class).contains_key(name)
            && exists|i: int|
            0 <= i < overloads::class_groups(md, class)[name].len() && !(
            #[trigger] overloads::class_groups(md, class)[name][i]).is_static,
        plan.methods@.contains_key(name) ==> metadata::targets(plan.methods@[name]@)
            == overloads::class_groups(md, class)[name].filter(
            |m: MethodDeclaration| !m.is_static,
        ),
{
    let g = overloads::class_groups(md, class);
    law_kinds_go_by_static(g, false, name);
    assert((|p: PropertyDeclaration| !p.is_static) =~= property_of_kind(false));
    assert((|m: MethodDeclaration| m.is_static == false) =~= (|m: MethodDeclaration| !m.is_static));
    let v = overloads::groups_view(plan.methods@);
    assert(v.contains_key(name) <==> plan.methods@.contains_key(name));
    if v.contains_key(name) {
        assert(v[name] == metadata::targets(plan.methods@[name]@));
    }
    if of_kind(g, false).contains_key(name) {
        let i = choose|i: int| 0 <= i < g[name].len() && (#[trigger] g[name][i]).is_static == false;
        assert(!g[name][i].is_static);
    }
}

/// A constructor has what the class itself has: its initializers, and of each name in the lineage the
/// methods and properties that are static; it makes instances with the prototype of its class.
#[verifier::rlimit(40)]
pub proof fn law_constructors_have_what_the_class_has(
    plan: ConstructorPlan,
    md: Metadata,
    class_name: Seq<char>,
    class: ClassDeclaration,
    name: Seq<char>,
)
    requires
        is_constructor_plan(plan, md, class_name, class),
    ensures
        plan.prototype@ == class_name,
        plan.is_sealed == class.is_sealed,
        metadata::targets(plan.initializers@) == class.initializers@,
        metadata::targets(plan.properties@) == class_helpers::fresh(
            class_helpers::all_properties(metadata::lineage(md, class)),
            Set::empty(),
        ).filter(|p: PropertyDeclaration| p.is_static),
        plan.methods@.contains_key(name) <==> overloads::class_groups(md, class).contains_key(name)
            && exists|i: int|
            0 <= i < overloads::class_groups(md, class)[name].len() && (
            #[trigger] overloads::class_groups(md, class)[name][i]).is_static,
        plan.methods@.contains_key(name) ==> metadata::targets(plan.methods@[name]@)
            == overloads::class_groups(md, class)[name].filter(|m: MethodDeclaration| m.is_static),
{
    let g = overloads::class_groups(md, class);
    law_kinds_go_by_static(g, true, name);
    assert((|p: PropertyDeclaration| p.is_static) =~= property_of_kind(true));
    assert((|m: MethodDeclaration| m.is_static == true) =~= (|m: MethodDeclaration| m.is_static));
    let v = overloads::groups_view(plan.methods@);
    assert(v.contains_key(name) <==> plan.methods@.contains_key(name));
    if v.contains_key(name) {
        assert(v[name] == metadata::targets(plan.methods@[name]@));
    }
    if of_kind(g, true).contains_key(name) {
        let i = choose|i: int| 0 <= i < g[name].len() && (#[trigger] g[name][i]).is_static == true;
        assert(g[name][i].is_static);
    }
}

/// Only a name that stands for a class has a prototype; the error says whether the name is unknown or
/// stands for something else.
pub proof fn law_prototypes_are_of_classes(
    r: Result<PrototypePlan, String>,
    md: Metadata,
    class_name: Seq<char>,
)
    requires
        is_prototype_outcome(r, md, class_name),
    ensures
        md.found(class_name) is None ==> (r matches Err(e) && e@ == "type not found: "@
            + class_name),
        md.found(class_name) matches Some(d) ==> (if d is Class {
            r matches Ok(plan) && plan.is_sealed == d->Class_0.is_sealed
        } else {
            r matches Err(e) && e@ == class_name + " is not a class"@
        }),
{
}

/// A constructor that is called without `new` is refused by name.
pub proof fn law_calls_without_new_are_refused_by_name(class_name: Seq<char>)
    ensures
        call_refusal(class_name, true) is None,
        call_refusal(class_name, false) == Some(
            class_name + " is a WinRT class constructor — use `new`"@,
        ),
{
}

/// An instance has three members of its own: two references to its object, and its type's name.
pub proof fn law_instances_know_their_object_and_type()
    ensures
        instance_members().len() == 3,
        instance_members()[0] == ("handle"@, InstanceMember::Reference),
        instance_members()[1] == ("__typeName__"@, InstanceMember::TypeName),
        instance_members()[2] == ("__comref"@, InstanceMember::Reference),
{
}

/// What is kept for a class is what was kept last for it, and nothing is built for any other.
pub proof fn law_handles_are_kept_by_class(
    memo: Map<Seq<char>, usize>,
    class_name: Seq<char>,
    other: Seq<char>,
    handle: usize,
)
    ensures
        built_for(Map::empty(), class_name) is None,
        built_for(memo.insert(class_name, handle), class_name) == Some(handle),
        other != class_name ==> built_for(memo.insert(class_name, handle), other) == built_for(
            memo,
            other,
        ),
{
}

/// Members are read place by place.
pub proof fn law_members_are_read_place_by_place(ms: Seq<(String, InstanceMember)>)
    ensures
        member_views(ms).len() == ms.len(),
        forall|i: int| 0 <= i < ms.len() ==> #[trigger] member_views(ms)[i] == (ms[i].0@, ms[i].1),
{
}

/// An instance is made by default activation exactly where there are no arguments, and otherwise by
/// the first initializer that takes as many; an error says that none does.
pub proof fn law_instances_are_made_by_a_fitting_initializer(
    class_name: &str,
    initializers: &Vec<&MethodDeclaration>,
    argc: usize,
    r: Result<Construction, String>,
)
    requires
        call_ensures(plan_construction, (class_name, initializers, argc), r),
    ensures
        argc == 0 <==> r == Ok::<Construction, String>(Construction::Activate),
        r matches Ok(Construction::Initialize(i)) ==> i < initializers@.len()
            && initializers@[i as int].number_of_parameters == argc && forall|j: int|
            0 <= j < i ==> (#[trigger] initializers@[j]).number_of_parameters != argc,
        r is Err <==> argc > 0 && forall|j: int|
            0 <= j < initializers@.len() ==> (#[trigger] initializers@[j]).number_of_parameters
                != argc,
        r matches Err(e) ==> e@ == class_name@ + ": no constructor takes "@ + text::decimal(
            argc as nat,
        ) + " argument(s)"@,
{
    if let Ok(Construction::Initialize(i)) = r {
        assert(initializers@[i as int].number_of_parameters == argc);
    }
}

/// What came of an initializer: a failure as it is, a null by the name of the class, an object.
pub proof fn law_initializers_give_an_object_or_an_error(
    class_name: &str,
    outcome: InitializerOutcome,
    r: Result<(), String>,
)
    requires
        call_ensures(check_constructed, (class_name, outcome), r),
    ensures
        r is Ok <==> outcome is Object,
        outcome matches InitializerOutcome::Failed(detail) ==> (r matches Err(e) && e@ == detail@),
        outcome is Null ==> (r matches Err(e) && e@ == class_name@ + " constructor returned null"@),
{
}

/// What is said of a step that failed names the step, and ends with the error.
pub proof fn law_activation_errors_name_the_step(class_name: &str, error: &str, r: String)
    ensures
        call_ensures(activation_error, (ActivationStep::Factory, class_name, error), r) ==> r@
            == "activation factory failed: "@ + error@,
        call_ensures(activation_error, (ActivationStep::DefaultActivation, class_name, error), r)
            ==> r@ == class_name@ + " is not default-activatable: "@ + error@,
        call_ensures(activation_error, (ActivationStep::Activate, class_name, error), r) ==> r@
            == "ActivateInstance failed for "@ + class_name@ + ": "@ + error@,
        call_ensures(activation_error, (ActivationStep::ActivatedIdentity, class_name, error), r)
            ==> r@ == "activated-instance cast failed: "@ + error@,
        call_ensures(activation_error, (ActivationStep::ConstructedIdentity, class_name, error), r)
            ==> r@ == "constructed-instance QI failed: "@ + error@,
{
}

/// An interface is an interface, a generic one or an instance of one, and nothing else.
pub proof fn law_interfaces_are_generic_or_not(declaration: &Declaration, r: bool)
    requires
        call_ensures(is_interface, (declaration,), r),
    ensures
        declaration is Interface || declaration is GenericInterface
            || declaration is GenericInterfaceInstance ==> r,
        declaration is Class || declaration is Other ==> !r,
{
}

/// What stands for no class has a constructor that has nothing and is sealed.
pub proof fn law_other_constructors_have_nothing(
    md: &Metadata,
    class_name: &str,
    declaration: &Declaration,
    r: ConstructorPlan,
    name: Seq<char>,
)
    requires
        call_ensures(build_host_ctor, (md, class_name, declaration), r),
    ensures
        r.prototype@ == class_name@,
        !(declaration is Class) ==> r.initializers@.len() == 0 && r.properties@.len() == 0
            && r.is_sealed && !r.methods@.contains_key(name),
        declaration matches Declaration::Class(c) ==> r.is_sealed == c.is_sealed
            && metadata::targets(r.initializers@) == c.initializers@,
{
    if !(declaration is Class) {
        let v = overloads::groups_view(r.methods@);
        assert(v.contains_key(name) <==> r.methods@.contains_key(name));
    }
}

/// A class is hosted only where hosting is on and it is eligible; the answer is kept under its name.
pub proof fn law_classes_are_hosted_where_eligible(
    memo: &mut Eligibility,
    enabled: bool,
    md: &Metadata,
    name: &str,
    declaration: &Declaration,
    r: bool,
)
    requires
        call_ensures(Eligibility::should_host, (memo, enabled, md, name, declaration), r),
    ensures
        r ==> enabled && declaration is Class,
        enabled && declaration is Class && !old(memo)@.contains_key(name@) ==> r == eligible(
            *md,
            declaration->Class_0,
        ),
        enabled && declaration is Class && old(memo)@.contains_key(name@) ==> r == old(
            memo,
        )@[name@],
        enabled && declaration is Class ==> final(memo)@ == old(memo)@.insert(name@, r),
        !enabled || !(declaration is Class) ==> final(memo)@ == old(memo)@,
{
}

/// The class of an object is hosted where its name stands for a class that is.
pub proof fn law_runtime_classes_are_hosted_by_name(
    memo: &mut Eligibility,
    enabled: bool,
    md: &Metadata,
    name: Option<&str>,
    r: Option<&Declaration>,
)
    requires
        call_ensures(Eligibility::runtime_class_host_target, (memo, enabled, md, name), r),
    ensures
        r matches Some(d) ==> enabled && d is Class && (name matches Some(n) && md.found(n@) == Some(
            *d,
        )),
        r is None && enabled ==> (name matches Some(n) ==> (md.found(n@) matches Some(d) ==> (
        d is Class ==> (if old(memo)@.contains_key(n@) {
            !old(memo)@[n@]
        } else {
            !eligible(*md, d->Class_0)
        })))),
        r matches Some(d) ==> (if old(memo)@.contains_key(name->Some_0@) {
            old(memo)@[name->Some_0@]
        } else {
            eligible(*md, d->Class_0)
        }),
{
}

/// A class's default interface is a map where its plain name is one of these four.
pub proof fn law_map_interfaces_are_recognized(class: &ClassDeclaration, r: bool)
    requires
        call_ensures(default_interface_is_map, (class,), r),
    ensures
        r <==> (class.default_interface_full_name matches Some(n) && seq![
            "Windows.Foundation.Collections.IMap"@,
            "Windows.Foundation.Collections.IMapView"@,
            "Windows.Foundation.Collections.IObservableMap"@,
            "Windows.Foundation.Collections.IPropertySet"@,
        ].contains(plain_name(n@))),
{
    let maps = seq![
        "Windows.Foundation.Collections.IMap"@,
        "Windows.Foundation.Collections.IMapView"@,
        "Windows.Foundation.Collections.IObservableMap"@,
        "Windows.Foundation.Collections.IPropertySet"@,
    ];
    assert(maps[0] == "Windows.Foundation.Collections.IMap"@);
    assert(maps[1] == "Windows.Foundation.Collections.IMapView"@);
    assert(maps[2] == "Windows.Foundation.Collections.IObservableMap"@);
    assert(maps[3] == "Windows.Foundation.Collections.IPropertySet"@);
}

/// A class's prototype is planned exactly where its name stands for a class, and has the instance
/// members of its lineage.
pub proof fn law_planned_prototypes_are_of_classes(
    md: &Metadata,
    class_name: &str,
    r: Result<PrototypePlan, String>,
)
    requires
        call_ensures(class_prototype, (md, class_name), r),
    ensures
        r is Ok <==> (md.found(class_name@) matches Some(d) && d is Class),
        r matches Err(e) ==> e@ == (if md.found(class_name@) is None {
            "type not found: "@ + class_name@
        } else {
            class_name@ + " is not a class"@
        }),
        r matches Ok(plan) ==> is_prototype_plan(
            plan,
            *md,
            md.found(class_name@)->Some_0->Class_0,
        ),
{
}

/// A class's constructor has the static members of its lineage.
pub proof fn law_built_constructors_are_of_their_class(
    md: &Metadata,
    class_name: &str,
    declaration: &Declaration,
    r: ConstructorPlan,
    c: ClassDeclaration,
)
    requires
        call_ensures(build_host_ctor, (md, class_name, declaration), r),
        *declaration == Declaration::Class(c),
    ensures
        is_constructor_plan(r, *md, class_name@, c),
{
}

/// Only a call without `new` is refused, and an instance has the prototype of its class and its three
/// members.
pub proof fn law_instances_need_new(
    class_name: &str,
    constructing: bool,
    refused: Option<String>,
    made: InstancePlan,
)
    requires
        call_ensures(refuse_call, (class_name, constructing), refused),
        call_ensures(build_host_instance, (class_name,), made),
    ensures
        refused is None <==> constructing,
        refused matches Some(m) ==> m@ == class_name@
            + " is a WinRT class constructor — use `new`"@,
        made.prototype@ == class_name@,
        made.members@.len() == 3,
        made.members@[0].0@ == "handle"@ && made.members@[0].1 == InstanceMember::Reference,
        made.members@[1].0@ == "__typeName__"@ && made.members@[1].1 == InstanceMember::TypeName,
        made.members@[2].0@ == "__comref"@ && made.members@[2].1 == InstanceMember::Reference,
{
    let v = member_views(made.members@);
    law_instances_know_their_object_and_type();
    assert(v == instance_members());
    assert(v.len() == made.members@.len());
    assert(v[0] == (made.members@[0].0@, made.members@[0].1));
    assert(v[1] == (made.members@[1].0@, made.members@[1].1));
    assert(v[2] == (made.members@[2].0@, made.members@[2].1));
}

/// Whether a class is eligible is found out once and kept under its name.
pub proof fn law_eligibility_is_kept(
    memo: &mut Eligibility,
    md: &Metadata,
    class: &ClassDeclaration,
    name: &str,
    r: bool,
    other: Seq<char>,
)
    requires
        call_ensures(Eligibility::class_is_host_eligible, (memo, md, class, name), r),
    ensures
        old(memo)@.contains_key(name@) ==> r == old(memo)@[name@],
        !old(memo)@.contains_key(name@) ==> r == eligible(*md, *class),
        final(memo)@.contains_key(name@) && final(memo)@[name@] == r,
        other != name@ ==> (final(memo)@.contains_key(other) <==> old(memo)@.contains_key(other)),
{
}

/// A handle that is kept is the one that its class gets, and no other class's changes.
pub proof fn law_kept_handles_are_got(
    memo: &mut HandleMemo,
    class_name: &str,
    handle: usize,
    other: Seq<char>,
)
    requires
        call_ensures(HandleMemo::keep, (memo, class_name, handle), ()),
    ensures
        built_for(final(memo)@, class_name@) == Some(handle),
        other != class_name@ ==> built_for(final(memo)@, other) == built_for(old(memo)@, other),
{
}

/// The overloads selected are those of the kind, in order.
#[verifier::rlimit(40)]
pub proof fn law_selected_overloads_are_of_the_kind(
    groups: &Groups,
    is_static: bool,
    r: Groups,
    name: Seq<char>,
)
    requires
        call_ensures(select_overloads, (groups, is_static), r),
    ensures
        r@.contains_key(name) <==> groups@.contains_key(name) && exists|i: int|
            0 <= i < groups@[name]@.len() && (#[trigger] groups@[name]@[i]).is_static == is_static,
        r@.contains_key(name) ==> metadata::targets(r@[name]@) == metadata::targets(
            groups@[name]@,
        ).filter(|m: MethodDeclaration| m.is_static == is_static),
{
    let g = overloads::groups_view(groups@);
    let h = overloads::groups_view(r@);
    assert(g.contains_key(name) <==> groups@.contains_key(name));
    assert(h.contains_key(name) <==> r@.contains_key(name));
    law_kinds_go_by_static(g, is_static, name);
    if groups@.contains_key(name) {
        assert(g[name] == metadata::targets(groups@[name]@));
        assert forall|i: int| 0 <= i < groups@[name]@.len() implies *(
        #[trigger] groups@[name]@[i]) == g[name][i] by {
            assert(metadata::targets(groups@[name]@)[i] == *groups@[name]@[i]);
        }
        if exists|i: int| 0 <= i < g[name].len() && (#[trigger] g[name][i]).is_static == is_static {
            let i = choose|i: int|
                0 <= i < g[name].len() && (#[trigger] g[name][i]).is_static == is_static;
            assert(groups@[name]@[i].is_static == is_static);
        }
        if exists|i: int|
            0 <= i < groups@[name]@.len() && (#[trigger] groups@[name]@[i]).is_static == is_static {
            let i = choose|i: int|
                0 <= i < groups@[name]@.len() && (#[trigger] groups@[name]@[i]).is_static
                    == is_static;
            assert(g[name][i].is_static == is_static);
        }
    }
    if r@.contains_key(name) {
        assert(h[name] == metadata::targets(r@[name]@));
    }
}

/// What is prepared once stays: a cell that has a value keeps it and hands it out, and one that has
/// none is prepared, and hands out what came of that.
pub proof fn law_prepared_values_stay<T, F: FnOnce() -> Option<T>>(
    cell: &mut Option<T>,
    prepare: F,
    r: Option<&T>,
)
    requires
        call_ensures(get_or_prepare::<T, F>, (cell, prepare), r),
    ensures
        *old(cell) is Some ==> *final(cell) == *old(cell) && r is Some && *r->Some_0
            == (*old(cell))->Some_0,
        *old(cell) is None ==> call_ensures(prepare, (), *final(cell)) && (r is Some
            <==> *final(cell) is Some),
        r matches Some(v) ==> *final(cell) == Some(*v),
{
}

} // verus!
