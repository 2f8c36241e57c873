//! Classes and their members: lookups along a lineage, overloads, host objects.

use runtime::class_helpers::{
    class_has_member_named, class_method_matches, class_property_matches, collect_class_methods,
    collect_class_properties, collect_class_properties_with_declaring, collect_events, extend_class_methods,
    extend_class_properties, find_class_method, find_class_property, find_event_methods,
    find_interface_event_methods, find_static_property_declaring_class, lineage_of, split_type_name,
};
use runtime::host_object::{
    activation_error, build_host_ctor, build_host_instance, check_constructed, class_prototype, default_interface_is_map,
    get_or_prepare, is_interface, plan_construction, ActivationStep, Construction, Eligibility,
    refuse_call, HandleMemo, InitializerOutcome, InstanceMember,
};
use runtime::metadata::{
    class_is_sealed, class_lineage, ClassDeclaration, Declaration, EventDeclaration, InterfaceDeclaration,
    Metadata, MethodDeclaration, PropertyDeclaration,
};
use runtime::overloads::{
    extend_class_methods_grouped, find_class_method_by_arity, find_class_methods, pick_overload,
    position_of_arity, Siblings,
};
use runtime::text_map::TextMap;
use runtime::text_set::TextSet;

fn method(name: &str, overload: &str, arity: usize, token: i32) -> MethodDeclaration {
    MethodDeclaration {
        name: name.to_string(),
        overload_name: overload.to_string(),
        number_of_parameters: arity,
        is_static: false,
        scope: 7,
        token,
    }
}

fn static_method(name: &str, arity: usize, token: i32) -> MethodDeclaration {
    MethodDeclaration { is_static: true, ..method(name, "", arity, token) }
}

fn property(name: &str, is_static: bool) -> PropertyDeclaration {
    PropertyDeclaration { name: name.to_string(), is_static, has_setter: true, scope: 7, token: 0 }
}

fn event(name: &str, token: i32) -> EventDeclaration {
    EventDeclaration {
        name: name.to_string(),
        add_method: method("add", "", 1, token),
        remove_method: method("remove", "", 1, token + 1),
    }
}

fn interface(name: &str, methods: Vec<MethodDeclaration>) -> InterfaceDeclaration {
    InterfaceDeclaration { full_name: name.to_string(), methods, properties: vec![], events: vec![] }
}

fn class(name: &str, base: &str) -> ClassDeclaration {
    ClassDeclaration {
        full_name: name.to_string(),
        base_full_name: base.to_string(),
        is_sealed: false,
        default_interface_full_name: None,
        default_interface: None,
        implemented_interfaces: vec![],
        methods: vec![],
        properties: vec![],
        events: vec![],
        initializers: vec![],
    }
}

/// `Derived` over `Base`.
fn sample() -> Metadata {
    let mut base = class("N.Base", "");
    base.methods = vec![method("Run", "", 0, 1), method("Stop", "", 0, 2)];
    base.properties = vec![property("Width", false), property("Shared", true)];
    base.events = vec![event("Closed", 20)];
    let mut derived = class("N.Derived", "N.Base");
    derived.is_sealed = true;
    derived.methods = vec![method("Run", "", 0, 10), method("Draw", "DrawWithColor", 1, 11), method("Draw", "", 0, 12)];
    derived.properties = vec![property("Width", false)];
    derived.events = vec![event("Opened", 30)];
    derived.default_interface = Some(interface("N.IDerived", vec![method("Draw", "DrawTwice", 2, 13)]));
    derived.initializers = vec![method(".ctor", "", 1, 40), method(".ctor", "", 3, 41)];
    Metadata {
        declarations: vec![
            ("N.Base".to_string(), Declaration::Class(base)),
            ("N.Derived".to_string(), Declaration::Class(derived)),
            ("N.IThing".to_string(), Declaration::Interface(interface("N.IThing", vec![]))),
        ],
    }
}

fn class_named<'a>(md: &'a Metadata, name: &str) -> &'a ClassDeclaration {
    match md.find_by_name(name) {
        Some(Declaration::Class(c)) => c,
        _ => panic!("no class {name}"),
    }
}

fn tokens(methods: &[&MethodDeclaration]) -> Vec<i32> {
    methods.iter().map(|m| m.token).collect()
}

#[test]
fn lineages_end_or_are_refused() {
    let md = sample();
    let derived = class_named(&md, "N.Derived");
    let names: Vec<&str> = class_lineage(&md, derived).unwrap().iter().map(|c| c.full_name.as_str()).collect();
    assert_eq!(names, vec!["N.Derived", "N.Base"]);
    assert_eq!(lineage_of(&md, derived).len(), 2);
    assert_eq!(class_is_sealed(&md, "N.Derived"), Some(true));
    assert_eq!(class_is_sealed(&md, "N.IThing"), None);
    assert_eq!(class_is_sealed(&md, "N.Missing"), None);

    let looped = Metadata {
        declarations: vec![
            ("A".to_string(), Declaration::Class(class("A", "B"))),
            ("B".to_string(), Declaration::Class(class("B", "A"))),
        ],
    };
    assert!(class_lineage(&looped, class_named(&looped, "A")).is_none());
    // A base that is not there ends the lineage.
    let orphan = class("O", "Nowhere");
    assert_eq!(class_lineage(&md, &orphan).unwrap().len(), 1);
}

#[test]
fn members_are_listed_once_most_derived_first() {
    let md = sample();
    let derived = class_named(&md, "N.Derived");
    assert_eq!(tokens(&collect_class_methods(&md, derived)), vec![10, 11, 12, 13, 2]);
    let names: Vec<&str> = collect_class_properties(&md, derived).iter().map(|p| p.name.as_str()).collect();
    assert_eq!(names, vec!["Width", "Shared"]);
    let events: Vec<&str> = collect_events(&md, derived).iter().map(|e| e.name.as_str()).collect();
    assert_eq!(events, vec!["Opened", "Closed"]);

    // Names that are seen already are left out.
    let mut seen = TextSet::new();
    seen.insert("Run".to_string());
    let mut methods = Vec::new();
    extend_class_methods(&md, derived, &mut methods, &mut seen);
    assert_eq!(tokens(&methods), vec![11, 12, 13, 2]);
    assert!(seen.contains("DrawWithColor") && seen.contains("Stop"));
    let mut properties = Vec::new();
    let mut seen = TextSet::new();
    seen.insert("Width".to_string());
    extend_class_properties(&md, derived, &mut properties, &mut seen);
    assert_eq!(properties.len(), 1);
}

#[test]
fn members_are_found_along_the_lineage() {
    let md = sample();
    let derived = class_named(&md, "N.Derived");
    assert_eq!(find_class_method(&md, derived, "Run").unwrap().token, 10);
    assert_eq!(find_class_method(&md, derived, "Stop").unwrap().token, 2);
    assert_eq!(find_class_method(&md, derived, "DrawTwice").unwrap().token, 13);
    assert_eq!(find_class_method(&md, derived, "Draw").unwrap().token, 11);
    assert!(find_class_method(&md, derived, "Nothing").is_none());
    assert!(find_class_property(&md, derived, "Shared").unwrap().is_static);
    assert!(find_class_property(&md, derived, "Run").is_none());
    assert!(class_method_matches(&md, derived, "DrawWithColor"));
    assert!(!class_method_matches(&md, derived, "Width"));
    assert!(class_property_matches(&md, derived, "Width"));
    assert!(!class_property_matches(&md, derived, "Run"));
    assert!(class_has_member_named(&md, derived, "Run") && class_has_member_named(&md, derived, "Width"));
    assert!(!class_has_member_named(&md, derived, "Nothing"));
    let (add, remove) = find_event_methods(&md, derived, "Closed").unwrap();
    assert_eq!((add.token, remove.token), (20, 21));
    assert!(find_event_methods(&md, derived, "Run").is_none());
}

#[test]
fn interface_events_are_found_on_interfaces_only() {
    let mut i = interface("N.I", vec![]);
    i.events = vec![event("Changed", 50)];
    let mut g = interface("N.G", vec![]);
    g.events = vec![event("Changed", 60)];
    let mut plain = interface("N.P", vec![]);
    plain.events = vec![event("Changed", 70)];
    let named = Declaration::Interface(i);
    let (add, _) = find_interface_event_methods(&named, "Changed").unwrap();
    assert_eq!(add.token, 50);
    let instance = Declaration::GenericInterfaceInstance(g);
    assert_eq!(find_interface_event_methods(&instance, "Changed").unwrap().0.token, 60);
    assert!(find_interface_event_methods(&instance, "Other").is_none());
    assert!(find_interface_event_methods(&Declaration::GenericInterface(plain), "Changed").is_none());
    assert!(find_interface_event_methods(&Declaration::Other, "Changed").is_none());
}

#[test]
fn properties_know_their_declaring_class() {
    let md = sample();
    let derived = class_named(&md, "N.Derived");
    let listed = collect_class_properties_with_declaring(&md, derived);
    let pairs: Vec<(&str, &str)> = listed.iter().map(|(p, c)| (p.name.as_str(), c.as_str())).collect();
    assert_eq!(pairs, vec![("Width", "N.Derived"), ("Shared", "N.Base")]);
    assert_eq!(find_static_property_declaring_class(&md, derived, "Shared").as_deref(), Some("N.Base"));
    assert_eq!(find_static_property_declaring_class(&md, derived, "Width"), None);
}

#[test]
fn type_names_split_at_the_last_dot() {
    assert_eq!(split_type_name("Windows.UI.Color"), (Some("Windows.UI".to_string()), "Color".to_string()));
    assert_eq!(split_type_name("Color"), (None, "Color".to_string()));
    assert_eq!(split_type_name("A."), (Some("A".to_string()), "".to_string()));
}

#[test]
fn public_names_reach_every_overload() {
    let md = sample();
    let derived = class_named(&md, "N.Derived");
    let mut groups = TextMap::new();
    extend_class_methods_grouped(&md, derived, &mut groups);
    // One overload per arity; the default overload first.
    assert_eq!(tokens(groups.get("Draw").unwrap()), vec![12, 11, 13]);
    assert_eq!(tokens(groups.get("DrawWithColor").unwrap()), vec![11]);
    assert_eq!(tokens(groups.get("Run").unwrap()), vec![10]);
    assert_eq!(tokens(groups.get("Stop").unwrap()), vec![2]);
    assert!(groups.get("Nothing").is_none());
    let draw = groups.get("Draw").unwrap();
    assert_eq!(draw[pick_overload(draw, 2)].token, 13);
    assert_eq!(draw[pick_overload(draw, 1)].token, 11);
    assert_eq!(pick_overload(draw, 9), 0);
    assert_eq!(position_of_arity(draw, 2), Some(2));
    assert_eq!(position_of_arity(draw, 9), None);
}

#[test]
fn a_default_overload_wins_an_arity_tie() {
    let mut c = class("N.Tie", "");
    c.methods = vec![method("Draw", "DrawAlt", 1, 1), method("Draw", "", 1, 2)];
    let md = Metadata { declarations: vec![("N.Tie".to_string(), Declaration::Class(c))] };
    let mut groups = TextMap::new();
    extend_class_methods_grouped(&md, class_named(&md, "N.Tie"), &mut groups);
    assert_eq!(tokens(groups.get("Draw").unwrap()), vec![2]);
    assert_eq!(tokens(groups.get("DrawAlt").unwrap()), vec![1]);
}

#[test]
fn a_default_overload_of_a_base_wins_an_arity_tie() {
    let mut base = class("N.Base", "");
    base.methods = vec![method("Draw", "DrawAlt", 1, 1), method("Draw", "", 1, 2)];
    let mut derived = class("N.Top", "N.Base");
    derived.methods = vec![method("Draw", "DrawNone", 0, 3)];
    let md = Metadata {
        declarations: vec![
            ("N.Base".to_string(), Declaration::Class(base)),
            ("N.Top".to_string(), Declaration::Class(derived)),
        ],
    };
    let mut groups = TextMap::new();
    extend_class_methods_grouped(&md, class_named(&md, "N.Top"), &mut groups);
    assert_eq!(tokens(groups.get("Draw").unwrap()), vec![3, 2]);
}

#[test]
fn overloads_are_found_by_arity() {
    let md = sample();
    let derived = class_named(&md, "N.Derived");
    assert_eq!(tokens(&find_class_methods(&md, derived, "Draw")), vec![11, 12, 13]);
    // Every match of the lineage, the derived class's own before those of its base.
    assert_eq!(tokens(&find_class_methods(&md, derived, "Run")), vec![10, 1]);
    assert_eq!(find_class_method_by_arity(&md, derived, "Run", 0).unwrap().token, 10);
    assert_eq!(tokens(&find_class_methods(&md, derived, "Stop")), vec![2]);
    assert!(find_class_methods(&md, derived, "Nothing").is_empty());
    assert_eq!(find_class_method_by_arity(&md, derived, "Draw", 2).unwrap().token, 13);
    assert_eq!(find_class_method_by_arity(&md, derived, "Draw", 8).unwrap().token, 11);
    assert!(find_class_method_by_arity(&md, derived, "Nothing", 0).is_none());
}

#[test]
fn a_derived_method_wins_over_its_bases() {
    let md = sample();
    let mut groups = TextMap::new();
    extend_class_methods_grouped(&md, class_named(&md, "N.Derived"), &mut groups);
    assert_eq!(tokens(groups.get("Run").unwrap()), vec![10]);
    assert_eq!(tokens(groups.get("Stop").unwrap()), vec![2]);
}

#[test]
fn siblings_of_a_lineage_switch_the_arity() {
    let mut base = class("B", "");
    base.methods = vec![method("Go", "", 2, 1)];
    let mut derived = class("D", "B");
    derived.methods = vec![method("Go", "", 0, 2)];
    let md = Metadata {
        declarations: vec![
            ("B".to_string(), Declaration::Class(base)),
            ("D".to_string(), Declaration::Class(derived)),
        ],
    };
    let d = class_named(&md, "D");
    let bound = find_class_method(&md, d, "Go").unwrap();
    let mut siblings = Siblings::new();
    siblings.register_overload_siblings(&md, d, "Go", bound);
    assert_eq!(siblings.overload_for_argc(bound, 2).unwrap().token, 1);
}

#[test]
fn siblings_switch_the_arity_of_a_bound_method() {
    let md = sample();
    let derived = class_named(&md, "N.Derived");
    let bound = find_class_method(&md, derived, "Draw").unwrap();
    let mut siblings = Siblings::new();
    assert!(siblings.overload_for_argc(bound, 2).is_none());
    siblings.register_overload_siblings(&md, derived, "Draw", bound);
    assert_eq!(siblings.overload_for_argc(bound, 2).unwrap().token, 13);
    assert_eq!(siblings.overload_for_argc(bound, 0).unwrap().token, 12);
    // The bound method itself is called as it is.
    assert!(siblings.overload_for_argc(bound, 1).is_none());
    assert!(siblings.overload_for_argc(bound, 9).is_none());

    // A lookup by the overload's own name stays bound to it.
    let mut other = Siblings::new();
    other.register_overload_siblings(&md, derived, "DrawWithColor", bound);
    assert!(other.overload_for_argc(bound, 2).is_none());
    // A method without siblings is not recorded.
    let run = find_class_method(&md, derived, "Run").unwrap();
    other.register_overload_siblings(&md, derived, "Run", run);
    assert!(other.overload_for_argc(run, 3).is_none());
}

#[test]
fn collections_and_maps_are_not_hosted() {
    let mut md = sample();
    let mut list = class("N.List", "");
    list.methods = vec![method("GetAt", "", 1, 90)];
    let mut map = class("N.Map", "");
    map.default_interface_full_name = Some("Windows.Foundation.Collections.IMapView`2<String, Object>".to_string());
    assert!(default_interface_is_map(&map));
    assert!(!default_interface_is_map(&list));
    let by_default = |name: &str| {
        let mut c = class("C", "");
        c.default_interface_full_name = Some(format!("Windows.Foundation.Collections.{name}"));
        default_interface_is_map(&c)
    };
    for name in ["IMap", "IMapView", "IObservableMap", "IPropertySet", "IMap`2", "IMapView<String, Object>"] {
        assert!(by_default(name), "{name}");
    }
    for name in ["IMapChangedEventArgs", "IMapChangedEventArgs`1<String>", "IMaps", "IPropertySetSerializer", "IVector`1"] {
        assert!(!by_default(name), "{name}");
    }
    md.declarations.push(("N.List".to_string(), Declaration::Class(list)));
    md.declarations.push(("N.Map".to_string(), Declaration::Class(map)));
    let mut memo = Eligibility::new();
    for (name, hosted) in [("N.Derived", true), ("N.List", false), ("N.Map", false), ("N.IThing", false)] {
        let d = md.find_by_name(name).unwrap();
        assert_eq!(memo.should_host(true, &md, name, d), hosted, "{name}");
        // Memoized.
        assert_eq!(memo.should_host(true, &md, name, d), hosted, "{name}");
        assert!(!memo.should_host(false, &md, name, d));
        assert_eq!(memo.runtime_class_host_target(true, &md, Some(name)).is_some(), hosted);
    }
    assert!(memo.runtime_class_host_target(true, &md, None).is_none());
    assert!(memo.runtime_class_host_target(true, &md, Some("N.Missing")).is_none());
    assert!(memo.runtime_class_host_target(false, &md, Some("N.Derived")).is_none());
    assert!(memo.class_is_host_eligible(&md, class_named(&md, "N.Base"), "N.Base"));
}

#[test]
fn a_memoized_answer_is_given_again() {
    let md = sample();
    let mut list = class("N.List", "");
    list.methods = vec![method("GetAt", "", 1, 90)];
    let mut memo = Eligibility::new();
    assert!(memo.class_is_host_eligible(&md, class_named(&md, "N.Base"), "x"));
    assert!(memo.class_is_host_eligible(&md, &list, "x"));
    assert!(!memo.class_is_host_eligible(&md, &list, "y"));
}

#[test]
fn prototypes_have_the_instance_members() {
    let mut md = sample();
    if let Declaration::Class(c) = &mut md.declarations[1].1 {
        c.methods.push(static_method("Create", 0, 14));
        c.methods.push(static_method("Run", 2, 15));
    }
    let plan = class_prototype(&md, "N.Derived").ok().unwrap();
    assert_eq!(tokens(plan.methods.get("Run").unwrap()), vec![10]);
    assert!(plan.methods.get("Create").is_none());
    assert_eq!(plan.properties.len(), 1);
    assert_eq!(plan.properties[0].name, "Width");
    assert_eq!(plan.events.len(), 2);
    assert!(plan.is_sealed);
    assert_eq!(class_prototype(&md, "N.Missing").err().unwrap(), "type not found: N.Missing");
    assert_eq!(class_prototype(&md, "N.IThing").err().unwrap(), "N.IThing is not a class");

    let plan = build_host_ctor(&md, "N.Derived", md.find_by_name("N.Derived").unwrap());
    assert_eq!(tokens(&plan.initializers), vec![40, 41]);
    assert_eq!(tokens(plan.methods.get("Run").unwrap()), vec![15]);
    assert_eq!(tokens(plan.methods.get("Create").unwrap()), vec![14]);
    assert!(plan.methods.get("Draw").is_none());
    assert_eq!(plan.properties.len(), 1);
    assert_eq!(plan.properties[0].name, "Shared");
    let none = build_host_ctor(&md, "N.IThing", md.find_by_name("N.IThing").unwrap());
    assert!(none.initializers.is_empty() && none.properties.is_empty() && none.is_sealed);
    assert_eq!(none.methods.len(), 0);
}

#[test]
fn static_members_stand_on_the_constructor_once() {
    let mut md = sample();
    if let Declaration::Class(c) = &mut md.declarations[1].1 {
        c.properties.push(PropertyDeclaration { has_setter: false, ..property("Count", true) });
        c.properties.push(property("Shared", true));
        c.methods.push(static_method("Make", 1, 50));
        c.methods.push(static_method("Make", 1, 51));
        c.methods.push(static_method("Make", 2, 52));
    }
    let plan = build_host_ctor(&md, "N.Derived", md.find_by_name("N.Derived").unwrap());
    let members: Vec<(&str, bool)> = plan.properties.iter().map(|p| (p.name.as_str(), p.has_setter)).collect();
    assert_eq!(members, vec![("Count", false), ("Shared", true)]);
    assert_eq!(tokens(plan.methods.get("Make").unwrap()), vec![50, 52]);
}

#[test]
fn constructors_and_instances_share_a_prototype() {
    let md = sample();
    let plan = build_host_ctor(&md, "N.Derived", md.find_by_name("N.Derived").unwrap());
    assert_eq!(plan.prototype, "N.Derived");
    assert!(class_prototype(&md, &plan.prototype).is_ok());
    let instance = build_host_instance("N.Derived");
    assert_eq!(instance.prototype, plan.prototype);
    assert_eq!(
        instance.members,
        vec![
            ("handle".to_string(), InstanceMember::Reference),
            ("__typeName__".to_string(), InstanceMember::TypeName),
            ("__comref".to_string(), InstanceMember::Reference),
        ]
    );
}

#[test]
fn constructors_need_new() {
    assert_eq!(
        refuse_call("N.Derived", false).as_deref(),
        Some("N.Derived is a WinRT class constructor \u{2014} use `new`")
    );
    assert_eq!(refuse_call("N.Derived", true), None);
}

#[test]
fn what_was_built_is_handed_out_again() {
    let mut memo = HandleMemo::new();
    assert_eq!(memo.get("N.A"), None);
    memo.keep("N.A", 7);
    memo.keep("N.B", 8);
    assert_eq!(memo.get("N.A"), Some(7));
    assert_eq!(memo.get("N.B"), Some(8));
    memo.keep("N.A", 9);
    assert_eq!(memo.get("N.A"), Some(9));
}

#[test]
fn construction_goes_by_the_number_of_arguments() {
    let md = sample();
    let derived = class_named(&md, "N.Derived");
    let initializers: Vec<&MethodDeclaration> = derived.initializers.iter().collect();
    assert!(plan_construction("C", &initializers, 0) == Ok(Construction::Activate));
    assert!(plan_construction("C", &initializers, 3) == Ok(Construction::Initialize(1)));
    assert_eq!(plan_construction("C", &initializers, 2).unwrap_err(), "C: no constructor takes 2 argument(s)");
    assert!(check_constructed("C", InitializerOutcome::Object).is_ok());
    assert_eq!(check_constructed("C", InitializerOutcome::Null).unwrap_err(), "C constructor returned null");
    assert_eq!(check_constructed("C", InitializerOutcome::Failed("why".to_string())).unwrap_err(), "why");
    assert_eq!(activation_error(ActivationStep::Factory, "C", "e"), "activation factory failed: e");
    assert_eq!(activation_error(ActivationStep::DefaultActivation, "C", "e"), "C is not default-activatable: e");
    assert_eq!(activation_error(ActivationStep::Activate, "C", "e"), "ActivateInstance failed for C: e");
    assert_eq!(activation_error(ActivationStep::ActivatedIdentity, "C", "e"), "activated-instance cast failed: e");
    assert_eq!(activation_error(ActivationStep::ConstructedIdentity, "C", "e"), "constructed-instance QI failed: e");
}

#[test]
fn cells_are_prepared_once() {
    let mut cell: Option<i32> = None;
    assert_eq!(get_or_prepare(&mut cell, || None), None);
    assert_eq!(get_or_prepare(&mut cell, || Some(3)), Some(&3));
    assert_eq!(get_or_prepare(&mut cell, || Some(4)), Some(&3));
}

#[test]
fn interfaces_are_told_apart() {
    assert!(is_interface(&Declaration::Interface(interface("I", vec![]))));
    assert!(is_interface(&Declaration::GenericInterface(interface("I", vec![]))));
    assert!(is_interface(&Declaration::GenericInterfaceInstance(interface("I", vec![]))));
    assert!(!is_interface(&Declaration::Class(class("C", ""))));
    assert!(!is_interface(&Declaration::Other));
}
