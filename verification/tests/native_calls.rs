//! Delegates, string arguments, the wrapper cache.

use runtime::delegate::{
    delegate_param_classes, delegate_param_to_napi, first_wrapping, next_wrapping, Identity, Invoke,
    InvokeAction, InvokeEvent, ParamValue, Wrapping, E_FAIL, E_NOINTERFACE, IID_IUNKNOWN, S_OK,
};
use runtime::ffi::{build_call_args, prepare_string_storage, release_string_args};
use runtime::metadata::{ClassDeclaration, Declaration, Metadata};
use runtime::native::NativeType;
use runtime::wrapper_cache::WrapperCache;

fn class(name: &str, is_sealed: bool) -> Declaration {
    Declaration::Class(ClassDeclaration {
        full_name: name.to_string(),
        base_full_name: String::new(),
        is_sealed,
        default_interface_full_name: None,
        default_interface: None,
        implemented_interfaces: vec![],
        methods: vec![],
        properties: vec![],
        events: vec![],
        initializers: vec![],
    })
}

#[test]
fn only_sealed_pointer_parameters_have_a_class() {
    let md = Metadata {
        declarations: vec![("S".to_string(), class("S", true)), ("O".to_string(), class("O", false))],
    };
    let sigs: Vec<String> = ["S", "O", "S", "String", "S"].iter().map(|s| s.to_string()).collect();
    let types = vec![NativeType::Pointer, NativeType::Pointer, NativeType::I32, NativeType::Pointer];
    let classes = delegate_param_classes(&md, Some(&sigs), &types);
    let names: Vec<Option<&str>> = classes.iter().map(|c| c.map(|c| c.full_name.as_str())).collect();
    assert_eq!(names, vec![Some("S"), None, None, None]);
    assert!(delegate_param_classes(&md, None, &types).is_empty());
}

#[test]
fn delegates_answer_for_themselves() {
    let mut id = Identity::new(0x1234);
    assert_eq!(id.query_interface(IID_IUNKNOWN), S_OK);
    assert_eq!(id.query_interface(0x1234), S_OK);
    assert_eq!(id.query_interface(0x9999), E_NOINTERFACE);
    assert_eq!(id.references, 3);
    assert_eq!(id.add_ref(), 4);
    for left in [3, 2, 1, 0] {
        assert_eq!(id.release(), left);
    }
    assert_eq!(E_NOINTERFACE as u32, 0x8000_4002);
    assert_eq!(E_FAIL as u32, 0x8000_4005);
}

#[test]
fn parameters_are_read_by_their_type() {
    let raw: usize = 0xffff_ffff_8001_80ff;
    let cases = [
        (NativeType::Pointer, ParamValue::Object(raw)),
        (NativeType::Bool, ParamValue::Bool(true)),
        (NativeType::U8, ParamValue::Unsigned(0xff)),
        (NativeType::I8, ParamValue::Signed(-1)),
        (NativeType::U16, ParamValue::Unsigned(0x80ff)),
        (NativeType::I16, ParamValue::Signed(0x80ff - 0x1_0000)),
        (NativeType::U32, ParamValue::Unsigned(0x8001_80ff)),
        (NativeType::I32, ParamValue::Signed(0x8001_80ffu32 as i32)),
        (NativeType::U64, ParamValue::WideUnsigned(raw as u64)),
        (NativeType::I64, ParamValue::WideSigned(raw as i64)),
        (NativeType::String, ParamValue::Undefined),
        (NativeType::Other, ParamValue::Undefined),
    ];
    for (ty, value) in cases {
        assert_eq!(delegate_param_to_napi(raw, ty), value);
    }
    assert_eq!(delegate_param_to_napi(0, NativeType::Pointer), ParamValue::Null);
    assert_eq!(delegate_param_to_napi(0x100, NativeType::Bool), ParamValue::Bool(false));
}

#[test]
fn objects_are_wrapped_by_the_first_way_that_works() {
    assert_eq!(first_wrapping(true), Wrapping::Declared);
    assert_eq!(first_wrapping(false), Wrapping::Runtime);
    assert_eq!(next_wrapping(Wrapping::Declared), Some(Wrapping::Runtime));
    assert_eq!(next_wrapping(Wrapping::Runtime), Some(Wrapping::External));
    assert_eq!(next_wrapping(Wrapping::External), None);
}

#[test]
fn an_invocation_converts_calls_and_closes() {
    let types = vec![NativeType::U8, NativeType::Pointer];
    let (mut invoke, action) = Invoke::start(true, 5, 0, 9, 9, &types);
    assert!(matches!(action, InvokeAction::OpenScope));
    assert!(matches!(invoke.step(InvokeEvent::ScopeOpened(true)), InvokeAction::ResolveFunction));
    assert!(matches!(
        invoke.step(InvokeEvent::Resolved(true)),
        InvokeAction::Convert(0, ParamValue::Unsigned(5))
    ));
    assert!(matches!(invoke.step(InvokeEvent::Converted(true)), InvokeAction::Convert(1, ParamValue::Null)));
    assert!(matches!(invoke.step(InvokeEvent::Converted(true)), InvokeAction::Call(2)));
    match invoke.step(InvokeEvent::Called(false, Some("boom".to_string()))) {
        InvokeAction::CloseScope(Some(e)) => assert_eq!(e, "boom"),
        _ => panic!("the scope is to be closed"),
    }
    assert!(matches!(invoke.step(InvokeEvent::ScopeClosed), InvokeAction::Done(S_OK)));
}

#[test]
fn four_parameters_are_passed_and_no_more() {
    for (count, passed) in [(0, 0), (1, 1), (4, 4), (5, 4)] {
        let types = vec![NativeType::U32; count];
        let (mut invoke, _) = Invoke::start(true, 10, 11, 12, 13, &types);
        invoke.step(InvokeEvent::ScopeOpened(true));
        let mut action = invoke.step(InvokeEvent::Resolved(true));
        for i in 0..passed {
            match action {
                InvokeAction::Convert(k, ParamValue::Unsigned(v)) => assert_eq!((k, v), (i, 10 + i as u32)),
                _ => panic!("parameter {i} is to be converted"),
            }
            action = invoke.step(InvokeEvent::Converted(true));
        }
        assert!(matches!(action, InvokeAction::Call(n) if n == passed));
    }
}

#[test]
fn a_failed_invocation_still_closes_its_scope() {
    let types = vec![NativeType::U8];
    let (_, action) = Invoke::start(false, 0, 0, 0, 0, &types);
    assert!(matches!(action, InvokeAction::Done(E_FAIL)));
    let (mut invoke, _) = Invoke::start(true, 0, 0, 0, 0, &types);
    assert!(matches!(invoke.step(InvokeEvent::ScopeOpened(false)), InvokeAction::Done(E_FAIL)));
    let (mut invoke, _) = Invoke::start(true, 0, 0, 0, 0, &types);
    invoke.step(InvokeEvent::ScopeOpened(true));
    assert!(matches!(invoke.step(InvokeEvent::Resolved(false)), InvokeAction::CloseScope(None)));
    assert!(matches!(invoke.step(InvokeEvent::ScopeClosed), InvokeAction::Done(E_FAIL)));
    let (mut invoke, _) = Invoke::start(true, 0, 0, 0, 0, &types);
    invoke.step(InvokeEvent::ScopeOpened(true));
    invoke.step(InvokeEvent::Resolved(true));
    assert!(matches!(invoke.step(InvokeEvent::Converted(false)), InvokeAction::CloseScope(None)));
    assert!(matches!(invoke.step(InvokeEvent::ScopeClosed), InvokeAction::Done(E_FAIL)));
}

#[test]
fn string_slots_are_passed_and_released() {
    let types = vec![NativeType::String, NativeType::Pointer, NativeType::Pointer, NativeType::I32];
    let parsed = vec![None, Some(NativeType::String), Some(NativeType::Pointer), Some(NativeType::String)];
    let prep = prepare_string_storage(4, &types, &parsed).ok().unwrap();
    assert_eq!(
        build_call_args(&prep, 5, &types),
        vec![NativeType::String, NativeType::String, NativeType::Pointer, NativeType::I32, NativeType::Pointer]
    );
    assert_eq!(release_string_args(4, &parsed), vec![1, 3]);
    assert_eq!(release_string_args(2, &parsed), vec![1]);
}

#[test]
fn a_declared_string_is_a_string_slot() {
    let types = vec![NativeType::String];
    let prep = prepare_string_storage(1, &types, &vec![None]).ok().unwrap();
    // The slot is known to be a string whatever types the arguments are built with.
    assert_eq!(build_call_args(&prep, 1, &vec![NativeType::I32]), vec![NativeType::String]);
    let mixed = vec![NativeType::I32, NativeType::String, NativeType::Pointer];
    let prep = prepare_string_storage(3, &mixed, &vec![]).ok().unwrap();
    assert_eq!(
        build_call_args(&prep, 3, &vec![]),
        vec![NativeType::Pointer, NativeType::String, NativeType::Pointer]
    );
    assert_eq!(
        prepare_string_storage(2, &types, &vec![None, None]).err().unwrap(),
        "missing abi native type for slot"
    );
    // A declared string beyond the arguments is no slot.
    let prep = prepare_string_storage(1, &mixed, &vec![None]).ok().unwrap();
    assert_eq!(build_call_args(&prep, 2, &vec![]), vec![NativeType::Pointer, NativeType::Pointer]);
}

#[test]
fn many_string_slots_are_kept_in_order() {
    let types: Vec<NativeType> = (0..20).map(|i| if i % 3 == 0 { NativeType::String } else { NativeType::I32 }).collect();
    let parsed: Vec<Option<NativeType>> = vec![Some(NativeType::String); 20];
    let prep = prepare_string_storage(20, &types, &parsed).ok().unwrap();
    let args = build_call_args(&prep, 20, &types);
    for (i, ty) in args.iter().enumerate() {
        assert_eq!(*ty == NativeType::String, i % 3 == 0);
    }
}

#[test]
fn a_slot_without_type_is_refused_where_strings_are() {
    let types = vec![NativeType::Pointer];
    assert_eq!(
        prepare_string_storage(2, &types, &vec![Some(NativeType::String)]).err().unwrap(),
        "missing abi native type for slot"
    );
    let prep = prepare_string_storage(2, &types, &vec![None, None]).ok().unwrap();
    assert_eq!(build_call_args(&prep, 2, &types), vec![NativeType::Pointer, NativeType::Pointer]);
}

#[test]
fn cached_wrappers_are_found_until_they_are_collected() {
    let mut cache = WrapperCache::new();
    assert_eq!(cache.get(1), None);
    assert_eq!(cache.insert(100, 1, 500), 1);
    assert_eq!(cache.insert(101, 2, 501), 2);
    assert_eq!(cache.get(1), Some(500));
    assert_eq!(cache.get(2), Some(501));
    assert_eq!(cache.first_pass(100), Some(500));
    assert_eq!(cache.get(1), None);
    // A newer wrapper takes its place before the second pass.
    assert_eq!(cache.insert(102, 1, 502), 2);
    cache.second_pass(100);
    assert_eq!(cache.get(1), Some(502));
    assert_eq!(cache.first_pass(102), Some(502));
    assert_eq!(cache.first_pass(102), None);
    cache.second_pass(102);
    assert_eq!(cache.get(1), None);
}

#[test]
fn clearing_hands_out_the_live_handles() {
    let mut cache = WrapperCache::new();
    cache.insert(100, 1, 500);
    cache.insert(101, 2, 501);
    cache.insert(102, 3, 502);
    cache.first_pass(101);
    let mut live = cache.clear();
    live.sort();
    assert_eq!(live, vec![500, 502]);
    assert_eq!(cache.get(1), None);
    // The slot of a collected wrapper is still freed by its second pass.
    cache.second_pass(101);
    assert!(cache.clear().is_empty());
}
