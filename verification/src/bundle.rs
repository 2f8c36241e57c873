//! The command line of the bundle packer.

use crate::text;
use vstd::prelude::*;

verus! {

/// What the command line asks for.
pub enum Command {
    Help,
    /// An argument that there is none of.
    Unknown(String),
    /// The input or the output is not given.
    Incomplete,
    Pack { input: String, output: String, key_hex: Option<String> },
}

pub enum CommandView {
    Help,
    Unknown(Seq<char>),
    Incomplete,
    Pack { input: Seq<char>, output: Seq<char>, key_hex: Option<Seq<char>> },
}

impl View for Command {
    type V = CommandView;

    open spec fn view(&self) -> CommandView {
        match *self {
            Command::Help => CommandView::Help,
            Command::Unknown(a) => CommandView::Unknown(a@),
            Command::Incomplete => CommandView::Incomplete,
            Command::Pack { input, output, key_hex } => CommandView::Pack {
                input: input@,
                output: output@,
                key_hex: text::option_text(key_hex),
            },
        }
    }
}

/// The values given so far.
pub struct Given {
    pub input: Option<Seq<char>>,
    pub output: Option<Seq<char>>,
    pub key_hex: Option<Seq<char>>,
}

/// The value behind the option that a line starts with; none at the end of the line.
pub open spec fn value_of(args: Seq<Seq<char>>) -> Option<Seq<char>> {
    if args.len() > 1 {
        Some(args[1])
    } else {
        None
    }
}

/// What is left of a line behind an option and its value.
pub open spec fn behind(args: Seq<Seq<char>>) -> Seq<Seq<char>> {
    if args.len() > 1 {
        args.skip(2)
    } else {
        Seq::empty()
    }
}

/// What a line asks for, with the values given before it. An option takes the next argument as its
/// value; the last of its kind counts.
pub open spec fn command_from(args: Seq<Seq<char>>, given: Given) -> CommandView
    decreases args.len(),
{
    if args.len() == 0 {
        match (given.input, given.output) {
            (Some(input), Some(output)) => CommandView::Pack {
                input,
                output,
                key_hex: given.key_hex,
            },
            _ => CommandView::Incomplete,
        }
    } else if args[0] == "--input"@ {
        command_from(behind(args), Given { input: value_of(args), ..given })
    } else if args[0] == "--output"@ {
        command_from(behind(args), Given { output: value_of(args), ..given })
    } else if args[0] == "--key-hex"@ {
        command_from(behind(args), Given { key_hex: value_of(args), ..given })
    } else if args[0] == "-h"@ || args[0] == "--help"@ {
        CommandView::Help
    } else {
        CommandView::Unknown(args[0])
    }
}

/// What the arguments behind the program's name ask for.
pub open spec fn command_of(args: Seq<Seq<char>>) -> CommandView {
    command_from(args, Given { input: None, output: None, key_hex: None })
}

/// What the arguments behind the program's name ask for.
pub fn parse_arguments(args: &Vec<String>) -> (r: Command)
    ensures
        r@ == command_of(text::texts(args@)),
{
    let mut input: Option<String> = None;
    let mut output: Option<String> = None;
    let mut key_hex: Option<String> = None;
    let n: usize = args.len();
    let mut i: usize = 0;
    let ghost all = text::texts(args@);
    assert(all.skip(0) =~= all);
    while i < n
        invariant
            all == text::texts(args@),
            n == args@.len(),
            i <= n,
            command_of(all) == command_from(
                all.skip(i as int),
                Given {
                    input: text::option_text(input),
                    output: text::option_text(output),
                    key_hex: text::option_text(key_hex),
                },
            ),
        decreases n - i,
    {
        let ghost rest = all.skip(i as int);
        assert(rest[0] == args@[i as int]@);
        let arg = args[i].as_str();
        let is_input = text::same_text(arg, "--input");
        let is_output = text::same_text(arg, "--output");
        let is_key = text::same_text(arg, "--key-hex");
        if is_input || is_output || is_key {
            let value = if n - i > 1 {
                assert(rest[1] == args@[i + 1]@);
                Some(args[i + 1].clone())
            } else {
                None
            };
            assert(text::option_text(value) == value_of(rest));
            if is_input {
                input = value;
            } else if is_output {
                output = value;
            } else {
                key_hex = value;
            }
            if n - i > 1 {
                assert(rest.skip(2) =~= all.skip(i + 2));
                i = i + 2;
            } else {
                assert(all.skip(n as int) =~= Seq::empty());
                i = n;
            }
        } else if text::same_text(arg, "-h") || text::same_text(arg, "--help") {
            return Command::Help;
        } else {
            return Command::Unknown(args[i].clone());
        }
    }
    match (input, output) {
        (Some(input), Some(output)) => Command::Pack { input, output, key_hex },
        _ => Command::Incomplete,
    }
}

/// What the packer says when a bundle is sealed.
pub fn sealed_message(input: &str, output: &str, custom_key: bool) -> (r: String)
    ensures
        r@ == "Sealed "@ + input@ + " -> "@ + output@ + " ("@ + (if custom_key {
            "custom key — call runtime_set_bundle_key() with the same --key-hex before runtime_init"@
        } else {
            "default key"@
        }) + ")"@,
{
    let mut m = text::concat5("Sealed ", input, " -> ", output, " (");
    if custom_key {
        m.append(
            "custom key — call runtime_set_bundle_key() with the same --key-hex before runtime_init",
        );
    } else {
        m.append("default key");
    }
    m.append(")");
    m
}

/// The arguments are read in turn: an option takes the argument behind it as its value, and a later
/// one replaces an earlier one.
#[verifier::rlimit(40)]
pub proof fn law_options_take_the_next_argument(
    value: Seq<char>,
    rest: Seq<Seq<char>>,
    given: Given,
)
    ensures
        command_from(seq!["--input"@, value] + rest, given) == command_from(
            rest,
            Given { input: Some(value), output: given.output, key_hex: given.key_hex },
        ),
        command_from(seq!["--output"@, value] + rest, given) == command_from(
            rest,
            Given { input: given.input, output: Some(value), key_hex: given.key_hex },
        ),
        command_from(seq!["--key-hex"@, value] + rest, given) == command_from(
            rest,
            Given { input: given.input, output: given.output, key_hex: Some(value) },
        ),
{
    lemma_option_names();
    let a = seq!["--input"@, value] + rest;
    let b = seq!["--output"@, value] + rest;
    let c = seq!["--key-hex"@, value] + rest;
    assert(a.skip(2) =~= rest);
    assert(b.skip(2) =~= rest);
    assert(c.skip(2) =~= rest);
    assert(a[0] == "--input"@ && a[1] == value);
    assert(b[0] == "--output"@ && b[1] == value);
    assert(c[0] == "--key-hex"@ && c[1] == value);
}

proof fn lemma_option_names()
    ensures
        "--input"@ != "--output"@,
        "--input"@ != "--key-hex"@,
        "--output"@ != "--key-hex"@,
        "-h"@ != "--input"@,
        "-h"@ != "--output"@,
        "-h"@ != "--key-hex"@,
        "--help"@ != "--input"@,
        "--help"@ != "--output"@,
        "--help"@ != "--key-hex"@,
{
    reveal_strlit("--input");
    reveal_strlit("--output");
    reveal_strlit("--key-hex");
    reveal_strlit("-h");
    reveal_strlit("--help");
    assert("--input"@.len() == 7);
    assert("--output"@.len() == 8);
    assert("--key-hex"@.len() == 9);
    assert("-h"@.len() == 2);
    assert("--help"@.len() == 6);
}

/// An option at the end has no value, so what it was given before is gone; help is given wherever it
/// is asked for; and the first argument that is no option is refused by name.
pub proof fn law_other_arguments_end_the_command(
    arg: Seq<char>,
    rest: Seq<Seq<char>>,
    given: Given,
)
    ensures
        command_from(seq!["--input"@], given) is Incomplete,
        command_from(seq!["--output"@], given) is Incomplete,
        command_from(seq!["--key-hex"@], given) == command_from(
            Seq::empty(),
            Given { input: given.input, output: given.output, key_hex: None },
        ),
        command_from(seq!["-h"@] + rest, given) is Help,
        command_from(seq!["--help"@] + rest, given) is Help,
        arg != "--input"@ && arg != "--output"@ && arg != "--key-hex"@ && arg != "-h"@ && arg
            != "--help"@ ==> command_from(seq![arg] + rest, given) == CommandView::Unknown(arg),
{
    lemma_option_names();
    reveal_with_fuel(command_from, 2);
    assert((seq!["-h"@] + rest)[0] == "-h"@);
    assert((seq!["--help"@] + rest)[0] == "--help"@);
    assert((seq![arg] + rest)[0] == arg);
    assert(seq!["--input"@][0] == "--input"@);
    assert(seq!["--output"@][0] == "--output"@);
    assert(seq!["--key-hex"@][0] == "--key-hex"@);
}

/// There is something to pack exactly where both an input and an output were given; the key can be
/// left out. Nothing is given before the first argument.
pub proof fn law_packing_needs_input_and_output(args: Seq<Seq<char>>, given: Given)
    ensures
        given.input is Some && given.output is Some ==> command_from(Seq::empty(), given)
            == (CommandView::Pack {
            input: given.input->Some_0,
            output: given.output->Some_0,
            key_hex: given.key_hex,
        }),
        given.input is None || given.output is None ==> command_from(
            Seq::empty(),
            given,
        ) is Incomplete,
        command_of(args) == command_from(args, Given { input: None, output: None, key_hex: None }),
{
}

/// A command says what it was given.
pub proof fn law_commands_read_field_by_field(c: Command)
    ensures
        c is Help <==> c@ is Help,
        c is Incomplete <==> c@ is Incomplete,
        c matches Command::Unknown(a) ==> c@ == CommandView::Unknown(a@),
        c matches Command::Pack { input, output, key_hex } ==> c@ == (CommandView::Pack {
            input: input@,
            output: output@,
            key_hex: if let Some(k) = key_hex {
                Some(k@)
            } else {
                None
            },
        }),
{
}

/// An input and an output, in either order, and with or without a key behind them, are packed.
#[verifier::rlimit(40)]
pub proof fn law_inputs_and_outputs_come_in_either_order(args: &Vec<String>, r: Command)
    requires
        call_ensures(parse_arguments, (args,), r),
    ensures
        args@.len() == 0 ==> r is Incomplete,
        args@.len() == 4 && args@[0]@ == "--input"@ && args@[2]@ == "--output"@ ==> r@
            == (CommandView::Pack { input: args@[1]@, output: args@[3]@, key_hex: None }),
        args@.len() == 4 && args@[0]@ == "--output"@ && args@[2]@ == "--input"@ ==> r@
            == (CommandView::Pack { input: args@[3]@, output: args@[1]@, key_hex: None }),
        args@.len() == 6 && args@[0]@ == "--input"@ && args@[2]@ == "--output"@ && args@[4]@
            == "--key-hex"@ ==> r@ == (CommandView::Pack {
            input: args@[1]@,
            output: args@[3]@,
            key_hex: Some(args@[5]@),
        }),
{
    let t = text::texts(args@);
    let none = Given { input: None, output: None, key_hex: None };
    if args@.len() == 4 || args@.len() == 6 {
        let rest = t.skip(2);
        let tail = rest.skip(2);
        assert(t =~= seq![t[0], t[1]] + rest);
        assert(rest =~= seq![t[2], t[3]] + tail);
        law_options_take_the_next_argument(t[1], rest, none);
        law_options_take_the_next_argument(
            t[3],
            tail,
            Given { input: Some(t[1]), output: None, key_hex: None },
        );
        law_options_take_the_next_argument(
            t[3],
            tail,
            Given { input: None, output: Some(t[1]), key_hex: None },
        );
        if args@.len() == 4 {
            assert(tail =~= Seq::empty());
        } else {
            assert(tail =~= seq![t[4], t[5]] + Seq::empty());
            law_options_take_the_next_argument(
                t[5],
                Seq::empty(),
                Given { input: Some(t[1]), output: Some(t[3]), key_hex: None },
            );
        }
    } else if args@.len() == 0 {
        assert(t =~= Seq::empty());
    }
}

/// What is said of a sealed bundle names both files and which key it has.
pub proof fn law_sealed_bundles_are_named(input: &str, output: &str, custom_key: bool, r: String)
    requires
        call_ensures(sealed_message, (input, output, custom_key), r),
    ensures
        !custom_key ==> r@ == "Sealed "@ + input@ + " -> "@ + output@ + " ("@ + "default key"@
            + ")"@,
        custom_key ==> r@ == "Sealed "@ + input@ + " -> "@ + output@ + " ("@
            + "custom key — call runtime_set_bundle_key() with the same --key-hex before runtime_init"@
            + ")"@,
{
}

} // verus!
