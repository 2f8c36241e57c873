//! The decisions behind the host's C ABI: how far an initialization gets, what running a script
//! comes to, and the scripts that host events become.

use crate::json;
use crate::text;
use vstd::prelude::*;

verus! {

/// The steps of an initialization, in order.
#[derive(Clone, Copy, PartialEq, Eq, Structural, Debug)]
pub enum InitStep {
    CreateEnvironment,
    InitializeRuntime,
    InstallModules,
    RunUrlPolyfill,
    RunPrelude,
    KeepEnvironment,
}

/// What follows a step.
#[derive(Clone, Copy, PartialEq, Eq, Structural, Debug)]
pub enum InitNext {
    Step(InitStep),
    /// The initialization is over, with this handle; zero says that it failed.
    Done(i64),
}

/// What came of a step: a line for the log, an error to keep as the last one, and what follows.
pub struct InitReport {
    pub log: Option<String>,
    pub last_error: Option<String>,
    pub next: InitNext,
}

/// The step behind one that does not end the initialization.
pub open spec fn following(step: InitStep) -> InitNext {
    match step {
        InitStep::CreateEnvironment => InitNext::Step(InitStep::InitializeRuntime),
        InitStep::InitializeRuntime => InitNext::Step(InitStep::InstallModules),
        InitStep::InstallModules => InitNext::Step(InitStep::RunUrlPolyfill),
        InitStep::RunUrlPolyfill => InitNext::Step(InitStep::RunPrelude),
        InitStep::RunPrelude => InitNext::Step(InitStep::KeepEnvironment),
        InitStep::KeepEnvironment => InitNext::Done(1),
    }
}

/// Whether a failed step ends the initialization: without an environment or a runtime nothing works;
/// the scripts behind them can be done without.
pub open spec fn fatal(step: InitStep) -> bool {
    step == InitStep::CreateEnvironment || step == InitStep::InitializeRuntime
}

/// What follows a step that failed or not.
pub open spec fn next_of(step: InitStep, failed: bool) -> InitNext {
    if failed && fatal(step) {
        InitNext::Done(0)
    } else {
        following(step)
    }
}

/// The line for the log.
pub open spec fn log_of(step: InitStep, failure: Option<Seq<char>>) -> Option<Seq<char>> {
    match failure {
        Some(e) => match step {
            InitStep::CreateEnvironment => Some(
                "[NativeScript] runtime_init: shared_env_ptr() returned null\n"@,
            ),
            InitStep::InitializeRuntime => Some(
                "[NativeScript] runtime_init: initialize_runtime() failed: "@ + e + "\n"@,
            ),
            InitStep::InstallModules => None,
            InitStep::RunUrlPolyfill => Some(
                "[NativeScript] runtime_init: url_polyfill failed: "@ + e + "\n"@,
            ),
            InitStep::RunPrelude => Some(
                "[NativeScript] runtime_init: prelude failed: "@ + e + "\n"@,
            ),
            InitStep::KeepEnvironment => None,
        },
        None => if step == InitStep::KeepEnvironment {
            Some("[NativeScript] runtime_init: initialize_runtime OK, HOST_ENV set\n"@)
        } else {
            None
        },
    }
}

/// The error to keep as the last one.
pub open spec fn error_of(step: InitStep, failure: Option<Seq<char>>) -> Option<Seq<char>> {
    match failure {
        Some(e) => match step {
            InitStep::InstallModules => Some("[module_runner] "@ + e),
            InitStep::RunUrlPolyfill => Some("[url_polyfill] "@ + e),
            InitStep::RunPrelude => Some("[prelude] "@ + e),
            _ => None,
        },
        None => None,
    }
}

/// What came of a step, given the message of its failure where it failed.
pub fn after_init_step(step: InitStep, failure: Option<&str>) -> (r: InitReport)
    ensures
        ({
            let f = match failure {
                Some(e) => Some(e@),
                None => None,
            };
            &&& r.next == next_of(step, failure is Some)
            &&& text::option_text(r.log) == log_of(step, f)
            &&& text::option_text(r.last_error) == error_of(step, f)
        }),
{
    let next = match step {
        InitStep::CreateEnvironment => if failure.is_some() {
            InitNext::Done(0)
        } else {
            InitNext::Step(InitStep::InitializeRuntime)
        },
        InitStep::InitializeRuntime => if failure.is_some() {
            InitNext::Done(0)
        } else {
            InitNext::Step(InitStep::InstallModules)
        },
        InitStep::InstallModules => InitNext::Step(InitStep::RunUrlPolyfill),
        InitStep::RunUrlPolyfill => InitNext::Step(InitStep::RunPrelude),
        InitStep::RunPrelude => InitNext::Step(InitStep::KeepEnvironment),
        InitStep::KeepEnvironment => InitNext::Done(1),
    };
    let mut log: Option<String> = None;
    let mut last_error: Option<String> = None;
    match failure {
        Some(e) => match step {
            InitStep::CreateEnvironment => {
                log = Some(
                    "[NativeScript] runtime_init: shared_env_ptr() returned null\n".to_owned(),
                );
            },
            InitStep::InitializeRuntime => {
                log = Some(
                    text::concat3(
                        "[NativeScript] runtime_init: initialize_runtime() failed: ",
                        e,
                        "\n",
                    ),
                );
            },
            InitStep::InstallModules => {
                last_error = Some(text::concat2("[module_runner] ", e));
            },
            InitStep::RunUrlPolyfill => {
                log = Some(
                    text::concat3("[NativeScript] runtime_init: url_polyfill failed: ", e, "\n"),
                );
                last_error = Some(text::concat2("[url_polyfill] ", e));
            },
            InitStep::RunPrelude => {
                log = Some(
                    text::concat3("[NativeScript] runtime_init: prelude failed: ", e, "\n"),
                );
                last_error = Some(text::concat2("[prelude] ", e));
            },
            InitStep::KeepEnvironment => {},
        },
        None => {
            if step == InitStep::KeepEnvironment {
                log = Some(
                    "[NativeScript] runtime_init: initialize_runtime OK, HOST_ENV set\n".to_owned(),
                );
            }
        },
    }
    InitReport { log, last_error, next }
}

/// The handle of an initialization whose steps failed or not, in order.
pub open spec fn handle_of(step: InitStep, failed: spec_fn(InitStep) -> bool) -> i64
    decreases steps_left(step),
{
    match next_of(step, failed(step)) {
        InitNext::Done(h) => h,
        InitNext::Step(s) => if steps_left(s) < steps_left(step) {
            handle_of(s, failed)
        } else {
            0
        },
    }
}

/// How many steps follow.
pub open spec fn steps_left(step: InitStep) -> nat {
    match step {
        InitStep::CreateEnvironment => 5,
        InitStep::InitializeRuntime => 4,
        InitStep::InstallModules => 3,
        InitStep::RunUrlPolyfill => 2,
        InitStep::RunPrelude => 1,
        InitStep::KeepEnvironment => 0,
    }
}

/// The host gets a handle exactly when there is an environment with the runtime in it; what the
/// setup scripts do is no reason to fail.
pub proof fn law_handle_needs_environment_and_runtime(failed: spec_fn(InitStep) -> bool)
    ensures
        handle_of(InitStep::CreateEnvironment, failed) == (if failed(InitStep::CreateEnvironment)
            || failed(InitStep::InitializeRuntime) {
            0i64
        } else {
            1i64
        }),
{
    reveal_with_fuel(handle_of, 6);
}

/// The text of a panic: that of its payload where it is one.
pub fn panic_text(payload: Option<String>) -> (r: String)
    ensures
        r@ == match payload {
            Some(s) => s@,
            None => "unknown panic"@,
        },
{
    match payload {
        Some(s) => s,
        None => "unknown panic".to_owned(),
    }
}

/// What running a script comes to before anything is evaluated.
pub enum RunPlan {
    /// Nothing is run; the line for the log says why.
    Skip(String),
    /// The module runner runs it as the entry module.
    Module,
    /// It is evaluated, with this line for the log.
    Script(String),
}

/// What running a script comes to: nothing without a script or an environment, an entry module
/// through the module runner, anything else by evaluation. `script` is the script where there is
/// one, and whether it is an entry module.
pub fn plan_run(script: Option<(&str, bool)>, environment: bool) -> (r: RunPlan)
    ensures
        match script {
            None => r matches RunPlan::Skip(m) && m@
                == "[NativeScript] runtime_runscript: script is null\n"@,
            Some((code, module)) => if !environment {
                r matches RunPlan::Skip(m) && m@
                    == "[NativeScript] runtime_runscript: host_env() is None, skipping\n"@
            } else if module {
                r is Module
            } else {
                r matches RunPlan::Script(m) && m@
                    == "[NativeScript] runtime_runscript: executing "@ + text::decimal(
                    text::byte_len(code@),
                ) + " bytes\n"@
            },
        },
{
    match script {
        None => RunPlan::Skip("[NativeScript] runtime_runscript: script is null\n".to_owned()),
        Some((code, module)) => if !environment {
            RunPlan::Skip(
                "[NativeScript] runtime_runscript: host_env() is None, skipping\n".to_owned(),
            )
        } else if module {
            RunPlan::Module
        } else {
            RunPlan::Script(
                text::concat3(
                    "[NativeScript] runtime_runscript: executing ",
                    text::decimal_text(text::byte_len_of(code) as u64).as_str(),
                    " bytes\n",
                ),
            )
        },
    }
}

/// What the log says of an evaluated script, and the error to keep as the last one.
pub fn after_script(failure: Option<String>) -> (r: (String, Option<String>))
    ensures
        match failure {
            None => r.0@ == "[NativeScript] runtime_runscript: OK\n"@ && r.1 is None,
            Some(e) => r.0@ == "[NativeScript] runtime_runscript: script error: "@ + e@ + "\n"@
                && text::option_text(r.1) == Some(e@),
        },
{
    match failure {
        None => ("[NativeScript] runtime_runscript: OK\n".to_owned(), None),
        Some(e) => (
            text::concat3(
                "[NativeScript] runtime_runscript: script error: ",
                e.as_str(),
                "\n",
            ),
            Some(e),
        ),
    }
}

/// The script that hands a lifecycle event to `__nsOnAppEvent`, where the app has one.
pub open spec fn app_event_script(kind: int, message: Option<Seq<char>>) -> Seq<char> {
    "typeof __nsOnAppEvent==='function' && __nsOnAppEvent("@ + text::signed_decimal(kind) + ", "@
        + (match message {
        None => "null"@,
        Some(m) => json::literal(m),
    }) + ")"@
}

/// The script that hands a lifecycle event to `__nsOnAppEvent`, where the app has one.
pub fn notify_app_event(kind: i32, message: Option<&str>) -> (r: String)
    ensures
        r@ == app_event_script(
            kind as int,
            match message {
                Some(m) => Some(m@),
                None => None,
            },
        ),
{
    let argument = match message {
        None => "null".to_owned(),
        Some(m) => match json::to_string(m) {
            Ok(s) => s,
            Err(_) => "null".to_owned(),
        },
    };
    text::concat5(
        "typeof __nsOnAppEvent==='function' && __nsOnAppEvent(",
        text::signed_decimal_text(kind).as_str(),
        ", ",
        argument.as_str(),
        ")",
    )
}

/// The message reaches the app as it is: the script's second argument is a quoted literal that reads
/// as the message, backslashes, quotes, backquotes and line feeds included.
pub proof fn law_messages_are_forwarded_unaltered(kind: int, message: Seq<char>)
    ensures
        exists|inner: Seq<char>| #[trigger]
            json::unescaped(inner) == message && app_event_script(kind, Some(message))
                == "typeof __nsOnAppEvent==='function' && __nsOnAppEvent("@ + text::signed_decimal(
                kind,
            ) + ", "@ + (seq!['"'] + inner + seq!['"']) + ")"@ && json::closed_literal(inner),
{
    json::law_literals_read_back(message);
    json::lemma_escaped_is_closed(message);
    assert(json::unescaped(json::escaped_text(message)) == message);
}

/// The steps of an initialization follow each other to the end; only a failure to create the
/// environment or to initialize the runtime ends it early, without a handle.
pub proof fn law_steps_follow_each_other(failed: bool)
    ensures
        next_of(InitStep::CreateEnvironment, false) == InitNext::Step(InitStep::InitializeRuntime),
        next_of(InitStep::InitializeRuntime, false) == InitNext::Step(InitStep::InstallModules),
        next_of(InitStep::CreateEnvironment, true) == InitNext::Done(0),
        next_of(InitStep::InitializeRuntime, true) == InitNext::Done(0),
        next_of(InitStep::InstallModules, failed) == InitNext::Step(InitStep::RunUrlPolyfill),
        next_of(InitStep::RunUrlPolyfill, failed) == InitNext::Step(InitStep::RunPrelude),
        next_of(InitStep::RunPrelude, failed) == InitNext::Step(InitStep::KeepEnvironment),
        next_of(InitStep::KeepEnvironment, failed) == InitNext::Done(1),
{
}

/// A script's failure is kept as the last error, with the script in front; the failures that end an
/// initialization are only logged. Without a failure there is nothing to keep, and only the last step
/// is logged.
pub proof fn law_failures_are_told_apart(step: InitStep, e: Seq<char>)
    ensures
        error_of(step, None) is None,
        error_of(InitStep::CreateEnvironment, Some(e)) is None,
        error_of(InitStep::InitializeRuntime, Some(e)) is None,
        error_of(InitStep::KeepEnvironment, Some(e)) is None,
        error_of(InitStep::InstallModules, Some(e)) == Some("[module_runner] "@ + e),
        error_of(InitStep::RunUrlPolyfill, Some(e)) == Some("[url_polyfill] "@ + e),
        error_of(InitStep::RunPrelude, Some(e)) == Some("[prelude] "@ + e),
        log_of(InitStep::CreateEnvironment, Some(e)) == Some(
            "[NativeScript] runtime_init: shared_env_ptr() returned null\n"@,
        ),
        log_of(InitStep::InitializeRuntime, Some(e)) == Some(
            "[NativeScript] runtime_init: initialize_runtime() failed: "@ + e + "\n"@,
        ),
        log_of(InitStep::InstallModules, Some(e)) is None,
        log_of(InitStep::RunUrlPolyfill, Some(e)) == Some(
            "[NativeScript] runtime_init: url_polyfill failed: "@ + e + "\n"@,
        ),
        log_of(InitStep::RunPrelude, Some(e)) == Some(
            "[NativeScript] runtime_init: prelude failed: "@ + e + "\n"@,
        ),
        log_of(InitStep::KeepEnvironment, Some(e)) is None,
        step != InitStep::KeepEnvironment ==> log_of(step, None) is None,
        log_of(InitStep::KeepEnvironment, None) == Some(
            "[NativeScript] runtime_init: initialize_runtime OK, HOST_ENV set\n"@,
        ),
{
}

/// The script calls the app's hook, if it is a function, with the kind in decimal digits and the
/// message as a literal, or `null` where there is none.
pub proof fn law_app_events_call_the_hook(kind: int, message: Seq<char>)
    ensures
        app_event_script(kind, None)
            == "typeof __nsOnAppEvent==='function' && __nsOnAppEvent("@ + text::signed_decimal(kind)
            + ", "@ + "null"@ + ")"@,
        app_event_script(kind, Some(message))
            == "typeof __nsOnAppEvent==='function' && __nsOnAppEvent("@ + text::signed_decimal(kind)
            + ", "@ + json::literal(message) + ")"@,
{
}

/// A script is run only where there is one and an environment to run it in: an entry module by the
/// module runner, any other by evaluation.
pub proof fn law_scripts_need_an_environment(
    script: Option<(&str, bool)>,
    environment: bool,
    r: RunPlan,
)
    requires
        call_ensures(plan_run, (script, environment), r),
    ensures
        r is Skip <==> script is None || !environment,
        r is Module <==> environment && (script matches Some((code, module)) && module),
        script is None ==> (r matches RunPlan::Skip(m) && m@
            == "[NativeScript] runtime_runscript: script is null\n"@),
        script is Some && !environment ==> (r matches RunPlan::Skip(m) && m@
            == "[NativeScript] runtime_runscript: host_env() is None, skipping\n"@),
        r matches RunPlan::Script(m) ==> m@ == "[NativeScript] runtime_runscript: executing "@
            + text::decimal(vstd::utf8::encode_utf8(script->Some_0.0@).len()) + " bytes\n"@,
{
}

/// A script that failed is logged with its error, which is kept as the last one; one that did not
/// leaves no error.
pub proof fn law_failed_scripts_leave_their_error(
    failure: Option<String>,
    r: (String, Option<String>),
)
    requires
        call_ensures(after_script, (failure,), r),
    ensures
        failure is None ==> r.0@ == "[NativeScript] runtime_runscript: OK\n"@ && r.1 is None,
        failure matches Some(e) ==> r.0@ == "[NativeScript] runtime_runscript: script error: "@ + e@
            + "\n"@ && (r.1 matches Some(kept) && kept@ == e@),
{
}

/// A panic says what it says, or that it is unknown.
pub proof fn law_panics_say_what_they_say(payload: Option<String>, r: String)
    requires
        call_ensures(panic_text, (payload,), r),
    ensures
        payload matches Some(s) ==> r@ == s@,
        payload is None ==> r@ == "unknown panic"@,
{
}

/// A step's report has the step that follows, the line for the log and the error to keep.
pub proof fn law_reports_say_what_follows(step: InitStep, failure: Option<&str>, r: InitReport)
    requires
        call_ensures(after_init_step, (step, failure), r),
    ensures
        r.next == InitNext::Done(0) <==> failure is Some && (step == InitStep::CreateEnvironment
            || step == InitStep::InitializeRuntime),
        r.next == InitNext::Done(1) <==> step == InitStep::KeepEnvironment,
        failure is None ==> r.last_error is None,
        failure matches Some(e) ==> (step == InitStep::RunPrelude ==> (r.last_error matches Some(k)
            && k@ == "[prelude] "@ + e@)),
        failure matches Some(e) ==> (step == InitStep::RunUrlPolyfill ==> (r.last_error matches Some(
            k,
        ) && k@ == "[url_polyfill] "@ + e@)),
        failure matches Some(e) ==> (step == InitStep::InstallModules ==> (r.last_error matches Some(
            k,
        ) && k@ == "[module_runner] "@ + e@)),
        step == InitStep::CreateEnvironment || step == InitStep::InitializeRuntime || step
            == InitStep::KeepEnvironment ==> r.last_error is None,
{
}

/// A lifecycle event runs the hook with its kind and its message, or null.
pub proof fn law_lifecycle_events_run_the_hook(kind: i32, message: Option<&str>, r: String)
    requires
        call_ensures(notify_app_event, (kind, message), r),
    ensures
        r@ == "typeof __nsOnAppEvent==='function' && __nsOnAppEvent("@ + text::signed_decimal(
            kind as int,
        ) + ", "@ + (if message is Some {
            json::literal(message->Some_0@)
        } else {
            "null"@
        }) + ")"@,
{
}

} // verus!
