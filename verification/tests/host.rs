//! The host: windows, crash reports, the sampler, the packer's command line, the C ABI.

use runtime::bundle::{parse_arguments, sealed_message, Command};
use runtime::crash_reporter::{fault_of, headline, module_containing, ExceptionRecord, Fault};
use runtime::host_abi::{
    after_init_step, after_script, notify_app_event, panic_text, plan_run, InitNext, InitStep, RunPlan,
};
use runtime::sampler::{
    callers, frame_addresses, goes_on, inclusive_time, samples_on, self_time, shortened, shown_chains, shown_rows, tally, MAX_SAMPLES,
};
use runtime::window::{
    decode_message, event_members, point_from_lparam, WindowEvent, WindowQueues, WM_DESTROY, WM_LBUTTONDOWN,
    WM_LBUTTONUP, WM_MOUSEMOVE, WM_RBUTTONDOWN, WM_SIZE,
};

fn strings(items: &[&str]) -> Vec<String> {
    items.iter().map(|s| s.to_string()).collect()
}

#[test]
fn messages_pack_two_signed_words() {
    assert_eq!(point_from_lparam(0x0014_000a), (10, 20));
    assert_eq!(point_from_lparam(0xffff_fffeu32 as isize), (-2, -1));
    assert_eq!(point_from_lparam(-1), (-1, -1));
    assert_eq!(point_from_lparam(0x7fff_8000), (-32768, 32767));
}

#[test]
fn messages_become_events() {
    let l: isize = 0x0002_0001;
    assert_eq!(decode_message(WM_LBUTTONDOWN, l), Some(WindowEvent::PointerDown { x: 1, y: 2, button: 0 }));
    assert_eq!(decode_message(WM_RBUTTONDOWN, l), Some(WindowEvent::PointerDown { x: 1, y: 2, button: 2 }));
    assert_eq!(decode_message(WM_LBUTTONUP, l), Some(WindowEvent::PointerUp { x: 1, y: 2 }));
    assert_eq!(decode_message(WM_MOUSEMOVE, l), Some(WindowEvent::PointerMove { x: 1, y: 2 }));
    assert_eq!(decode_message(WM_SIZE, l), Some(WindowEvent::Resize { width: 1, height: 2 }));
    assert_eq!(decode_message(WM_DESTROY, l), Some(WindowEvent::Close));
    assert_eq!(decode_message(0x0113, l), None);
}

#[test]
fn moves_are_coalesced_and_polls_drain() {
    let mut queues = WindowQueues::new();
    queues.push_event(5, WindowEvent::Close);
    assert!(queues.poll_window_events(5).is_empty());
    queues.create_window(5);
    let moved = |x| WindowEvent::PointerMove { x, y: 0 };
    for e in [moved(1), moved(2), WindowEvent::PointerUp { x: 2, y: 0 }, moved(3), moved(4)] {
        queues.push_event(5, e);
    }
    assert_eq!(queues.poll_window_events(5), vec![moved(2), WindowEvent::PointerUp { x: 2, y: 0 }, moved(4)]);
    assert!(queues.poll_window_events(5).is_empty());
    queues.push_event(5, WindowEvent::Close);
    assert_eq!(queues.poll_window_events(5), vec![WindowEvent::Close]);
    // A closed window is forgotten.
    queues.push_event(5, moved(9));
    assert!(queues.poll_window_events(5).is_empty());
}

#[test]
fn events_are_shown_by_type_and_members() {
    let shown = |e| event_members(e);
    let members = |items: &[(&str, i32)]| items.iter().map(|(n, v)| (n.to_string(), *v)).collect::<Vec<_>>();
    assert_eq!(
        shown(WindowEvent::PointerDown { x: 1, y: 2, button: 2 }),
        ("pointerdown".to_string(), members(&[("x", 1), ("y", 2), ("button", 2)]))
    );
    assert_eq!(shown(WindowEvent::PointerUp { x: 1, y: 2 }), ("pointerup".to_string(), members(&[("x", 1), ("y", 2)])));
    assert_eq!(shown(WindowEvent::PointerMove { x: 1, y: 2 }), ("pointermove".to_string(), members(&[("x", 1), ("y", 2)])));
    assert_eq!(shown(WindowEvent::Resize { width: 3, height: 4 }), ("resize".to_string(), members(&[("width", 3), ("height", 4)])));
    assert_eq!(shown(WindowEvent::Close), ("close".to_string(), members(&[])));
}

#[test]
fn crashes_have_a_headline() {
    let record = ExceptionRecord { code: 0xC000_0005, address: 0x7FF6_1234, information: vec![1, 0x10] };
    let fault = fault_of(Some(&record));
    assert_eq!(
        headline(fault),
        "\n=== NATIVE CRASH: code=0xC0000005 instr=0x7FF61234 WRITE of data_addr=0x10 ==="
    );
    let short = ExceptionRecord { code: 0x1F, address: 0, information: vec![0] };
    assert_eq!(
        headline(fault_of(Some(&short))),
        "\n=== NATIVE CRASH: code=0x0000001F instr=0x0 ? of data_addr=0x0 ==="
    );
    assert_eq!(fault_of(None), Fault { code: 0, address: 0, access: usize::MAX, data_address: 0 });
    let with = |access| headline(Fault { code: 0, address: 0, access, data_address: 0 });
    assert!(with(0).contains(" READ of "));
    assert!(with(8).contains(" DEP/EXEC of "));
}

#[test]
fn modules_are_named_by_their_path() {
    let path: Vec<u16> = "C:\\a.dll".encode_utf16().chain([0, 0]).collect();
    assert_eq!(module_containing(true, &path, 8), "C:\\a.dll");
    assert_eq!(module_containing(true, &path, 0), "<GetModuleFileNameW failed>");
    assert_eq!(module_containing(false, &path, 8), "<unknown module>");
    assert_eq!(module_containing(true, &vec![0xdc00], 1), "\u{fffd}");
}

#[test]
fn stacks_are_walked_within_their_bounds() {
    assert!(goes_on(1, 100, 100, 108));
    assert!(!goes_on(0, 100, 100, 108));
    assert!(!goes_on(1, 99, 100, 108));
    assert!(!goes_on(1, 101, 100, 108));
    assert!(!goes_on(1, u64::MAX, 0, u64::MAX));
    assert!(samples_on(false, 0));
    assert!(!samples_on(true, 0));
    assert!(!samples_on(false, MAX_SAMPLES));
    assert_eq!(frame_addresses(&vec![10, 20, 30, 0, 40]), vec![10, 19, 29]);
    assert_eq!(frame_addresses(&vec![0, 1]), Vec::<u64>::new());
}

#[test]
fn functions_are_ranked_by_hits() {
    let stacks = vec![strings(&["a", "main"]), strings(&["b", "a", "a", "main"]), strings(&["b", "main"])];
    assert_eq!(self_time(&stacks), vec![("b".to_string(), 2), ("a".to_string(), 1)]);
    let inclusive = inclusive_time(&stacks);
    assert_eq!(inclusive[0], ("main".to_string(), 3));
    // A function counts once per stack.
    assert!(inclusive.contains(&("a".to_string(), 2)) && inclusive.contains(&("b".to_string(), 2)));
    assert_eq!(inclusive.len(), 3);
    assert_eq!(tally(&stacks).get("a"), Some(&2));
}

#[test]
fn self_counts_add_up_and_the_first_rows_are_shown() {
    let stacks: Vec<Vec<String>> = (0..60).map(|i| strings(&[&format!("f{:02}{}", i % 50, "x".repeat(200)), "main"])).collect();
    let rows = self_time(&stacks);
    assert_eq!(rows.iter().map(|r| r.1).sum::<usize>(), 60);
    assert_eq!(rows.len(), 50);
    let shown = shown_rows(&rows);
    assert_eq!(shown.len(), 45);
    assert!(shown.iter().all(|r| r.0.len() == 150));
    assert_eq!(shown[0].1, 2);
    assert_eq!(shown_chains(&rows).len(), 12);
    assert_eq!(shown_chains(&rows)[0], rows[0]);
    let few = vec![("a".to_string(), 1)];
    assert_eq!(shown_rows(&few), few);
    assert_eq!(shown_chains(&few), few);
}

#[test]
fn callers_of_a_function_are_chains() {
    let stacks = vec![
        strings(&["leaf", "focus_here", "main"]),
        strings(&["focus_here", "main"]),
        strings(&["other", "main"]),
    ];
    let (hits, rows) = callers(&stacks, "focus");
    assert_eq!(hits, 2);
    assert_eq!(rows, vec![("focus_here  <-  main".to_string(), 2)]);
    let deep: Vec<String> = (0..12).map(|i| format!("{}{i}", "n".repeat(80))).collect();
    let (hits, rows) = callers(&vec![deep], "n");
    assert_eq!(hits, 1);
    let parts: Vec<&str> = rows[0].0.split("  <-  ").collect();
    assert_eq!(parts.len(), 8);
    assert!(parts.iter().all(|p| p.chars().count() == 70));
    assert_eq!(shortened("h\u{e9}llo", 2), "h\u{e9}");
    assert_eq!(shortened("ab", 5), "ab");
}

#[test]
fn the_packer_reads_its_arguments() {
    match parse_arguments(&strings(&["--input", "in", "--output", "o1", "--key-hex", "ff", "--output", "o2"])) {
        Command::Pack { input, output, key_hex } => {
            assert_eq!((input.as_str(), output.as_str(), key_hex.as_deref()), ("in", "o2", Some("ff")));
        }
        _ => panic!("expected a command to pack"),
    }
    assert!(matches!(parse_arguments(&vec![]), Command::Incomplete));
    assert!(matches!(parse_arguments(&strings(&["--input", "x"])), Command::Incomplete));
    assert!(matches!(parse_arguments(&strings(&["--input", "x", "--output"])), Command::Incomplete));
    assert!(matches!(parse_arguments(&strings(&["--input", "--help"])), Command::Incomplete));
    assert!(matches!(parse_arguments(&strings(&["-h", "--bogus"])), Command::Help));
    assert!(matches!(parse_arguments(&strings(&["--bogus"])), Command::Unknown(a) if a == "--bogus"));
    assert_eq!(sealed_message("a", "b", false), "Sealed a -> b (default key)");
    assert_eq!(
        sealed_message("a", "b", true),
        "Sealed a -> b (custom key \u{2014} call runtime_set_bundle_key() with the same --key-hex before runtime_init)"
    );
}

#[test]
fn an_initialization_goes_step_by_step() {
    let mut step = InitStep::CreateEnvironment;
    let mut steps = 1;
    let handle = loop {
        match after_init_step(step, None).next {
            InitNext::Step(s) => {
                step = s;
                steps += 1;
            }
            InitNext::Done(h) => break h,
        }
    };
    assert_eq!((handle, steps), (1, 6));
    let failed = after_init_step(InitStep::CreateEnvironment, Some(""));
    assert_eq!(failed.next, InitNext::Done(0));
    assert_eq!(failed.log.as_deref(), Some("[NativeScript] runtime_init: shared_env_ptr() returned null\n"));
    let failed = after_init_step(InitStep::InitializeRuntime, Some("e"));
    assert_eq!(failed.next, InitNext::Done(0));
    assert_eq!(failed.log.as_deref(), Some("[NativeScript] runtime_init: initialize_runtime() failed: e\n"));
    let failed = after_init_step(InitStep::InstallModules, Some("e"));
    assert_eq!(failed.next, InitNext::Step(InitStep::RunUrlPolyfill));
    assert_eq!(failed.last_error.as_deref(), Some("[module_runner] e"));
    assert_eq!(failed.log, None);
    let failed = after_init_step(InitStep::RunUrlPolyfill, Some("e"));
    assert_eq!(failed.next, InitNext::Step(InitStep::RunPrelude));
    assert_eq!(failed.last_error.as_deref(), Some("[url_polyfill] e"));
    let failed = after_init_step(InitStep::RunPrelude, Some("e"));
    assert_eq!(failed.next, InitNext::Step(InitStep::KeepEnvironment));
    assert_eq!(failed.last_error.as_deref(), Some("[prelude] e"));
    assert_eq!(failed.log.as_deref(), Some("[NativeScript] runtime_init: prelude failed: e\n"));
}

#[test]
fn scripts_are_planned_and_reported() {
    assert!(matches!(plan_run(None, true), RunPlan::Skip(m) if m == "[NativeScript] runtime_runscript: script is null\n"));
    assert!(matches!(plan_run(Some(("x", false)), false), RunPlan::Skip(m) if m == "[NativeScript] runtime_runscript: host_env() is None, skipping\n"));
    assert!(matches!(plan_run(Some(("x", true)), true), RunPlan::Module));
    assert!(matches!(plan_run(Some(("h\u{e9}", false)), true), RunPlan::Script(m) if m == "[NativeScript] runtime_runscript: executing 3 bytes\n"));
    assert_eq!(after_script(None), ("[NativeScript] runtime_runscript: OK\n".to_string(), None));
    assert_eq!(
        after_script(Some("e".to_string())),
        ("[NativeScript] runtime_runscript: script error: e\n".to_string(), Some("e".to_string()))
    );
    assert_eq!(panic_text(Some("p".to_string())), "p");
    assert_eq!(panic_text(None), "unknown panic");
}

#[test]
fn app_events_become_scripts() {
    assert_eq!(
        notify_app_event(-3, None),
        "typeof __nsOnAppEvent==='function' && __nsOnAppEvent(-3, null)"
    );
    assert_eq!(
        notify_app_event(2, Some("a`b")),
        "typeof __nsOnAppEvent==='function' && __nsOnAppEvent(2, \"a`b\")"
    );
    // What JS reads is the message: backslashes, quotes, line feeds and `${` included.
    assert_eq!(
        notify_app_event(3, Some("C:\\new")),
        "typeof __nsOnAppEvent==='function' && __nsOnAppEvent(3, \"C:\\\\new\")"
    );
    assert_eq!(
        notify_app_event(0, Some("\"${x}\"\n")),
        "typeof __nsOnAppEvent==='function' && __nsOnAppEvent(0, \"\\\"${x}\\\"\\n\")"
    );
}
