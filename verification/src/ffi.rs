//! String arguments of native calls: which slots carry an HSTRING handle, and which handles the
//! caller releases after the call.

use crate::native::NativeType;
use smallvec::SmallVec;
use vstd::prelude::*;

verus! {

/// A `smallvec::SmallVec` of flags; twelve fit without the heap.
#[verifier::external_body]
pub struct Flags {
    flags: SmallVec<[bool; 12]>,
}

/// The flags that are held, in order.
pub uninterp spec fn flags_in(s: Flags) -> Seq<bool>;

/// `SmallVec::new`: an empty vector.
#[verifier::external_body]
fn no_flags() -> (r: Flags)
    ensures
        flags_in(r).len() == 0,
{
    Flags { flags: SmallVec::new() }
}

/// `SmallVec::push`: the vector grows by one at its end.
#[verifier::external_body]
fn push_flag(s: &mut Flags, flag: bool)
    ensures
        flags_in(*final(s)) == flags_in(*old(s)).push(flag),
{
    s.flags.push(flag);
}

/// The slice `get` that a `SmallVec` derefs to, copied: the flag at an index, if there is one.
#[verifier::external_body]
fn flag_at(s: &Flags, i: usize) -> (r: Option<bool>)
    ensures
        r == (if i < flags_in(*s).len() {
            Some(flags_in(*s)[i as int])
        } else {
            None
        }),
{
    s.flags.get(i).copied()
}

/// Which argument slots carry an HSTRING handle, resolved once per call. Empty when the call has no
/// string arguments.
pub struct FfiStringPrep {
    string_slots: Flags,
}

impl View for FfiStringPrep {
    type V = Seq<bool>;

    closed spec fn view(&self) -> Seq<bool> {
        flags_in(self.string_slots)
    }
}

/// Whether slot `i` is a string: its ABI type is `String`, or it is `Pointer` and the argument was
/// built from a string.
pub open spec fn string_slot(
    parameter_types: Seq<NativeType>,
    parse_types: Seq<Option<NativeType>>,
    i: int,
) -> bool {
    ||| parameter_types[i] == NativeType::String
    ||| parameter_types[i] == NativeType::Pointer && i < parse_types.len() && parse_types[i]
        == Some(NativeType::String)
}

/// Whether a call has strings: some argument was built from one, or some slot's ABI type is `String`.
pub open spec fn has_strings(
    arguments: nat,
    parameter_types: Seq<NativeType>,
    parse_types: Seq<Option<NativeType>>,
) -> bool {
    ||| exists|i: int|
        0 <= i < parse_types.len() && #[trigger] parse_types[i] == Some(NativeType::String)
    ||| exists|i: int|
        0 <= i < arguments && i < parameter_types.len() && #[trigger] parameter_types[i]
            == NativeType::String
}

/// The string slots of a call: none for a call without strings, and nothing where a call with strings
/// has a slot without an ABI type.
pub open spec fn string_slots(
    arguments: nat,
    parameter_types: Seq<NativeType>,
    parse_types: Seq<Option<NativeType>>,
) -> Option<Seq<bool>> {
    if !has_strings(arguments, parameter_types, parse_types) {
        Some(Seq::empty())
    } else if arguments > parameter_types.len() {
        None
    } else {
        Some(Seq::new(arguments, |i: int| string_slot(parameter_types, parse_types, i)))
    }
}

/// Whether an argument was built from a string.
fn is_string(ty: &Option<NativeType>) -> (r: bool)
    ensures
        r == (*ty == Some(NativeType::String)),
{
    match ty {
        Some(t) => *t == NativeType::String,
        None => false,
    }
}

/// Resolve the ABI-effective string slots for a call of `arguments` arguments.
pub fn prepare_string_storage(
    arguments: usize,
    parameter_types: &Vec<NativeType>,
    argument_parse_types: &Vec<Option<NativeType>>,
) -> (r: Result<FfiStringPrep, String>)
    ensures
        ({
            let stated = string_slots(arguments as nat, parameter_types@, argument_parse_types@);
            match r {
                Ok(prep) => stated == Some(prep@),
                Err(e) => stated is None && e@ == "missing abi native type for slot"@,
            }
        }),
{
    let mut parsed = false;
    for i in 0..argument_parse_types.len()
        invariant
            parsed == (exists|j: int|
                0 <= j < i && #[trigger] argument_parse_types@[j] == Some(NativeType::String)),
    {
        if is_string(&argument_parse_types[i]) {
            parsed = true;
        }
    }
    let n: usize = if arguments < parameter_types.len() {
        arguments
    } else {
        parameter_types.len()
    };
    let mut declared = false;
    for i in 0..n
        invariant
            n <= parameter_types@.len(),
            declared == (exists|j: int|
                0 <= j < i && #[trigger] parameter_types@[j] == NativeType::String),
    {
        if parameter_types[i] == NativeType::String {
            declared = true;
        }
    }
    let strings = parsed || declared;
    assert(strings == has_strings(
        arguments as nat,
        parameter_types@,
        argument_parse_types@,
    ));
    let mut slots = no_flags();
    if !strings {
        assert(flags_in(slots) =~= Seq::empty());
        return Ok(FfiStringPrep { string_slots: slots });
    }
    let ghost want = Seq::new(
        arguments as nat,
        |i: int| string_slot(parameter_types@, argument_parse_types@, i),
    );
    for i in 0..arguments
        invariant
            has_strings(arguments as nat, parameter_types@, argument_parse_types@),
            i <= parameter_types@.len(),
            want == Seq::new(
                arguments as nat,
                |i: int| string_slot(parameter_types@, argument_parse_types@, i),
            ),
            flags_in(slots) == want.take(i as int),
    {
        if i == parameter_types.len() {
            return Err("missing abi native type for slot".to_owned());
        }
        let string = match parameter_types[i] {
            NativeType::String => true,
            NativeType::Pointer => i < argument_parse_types.len() && is_string(
                &argument_parse_types[i],
            ),
            _ => false,
        };
        assert(want[i as int] == string);
        push_flag(&mut slots, string);
        assert(want.take(i + 1) =~= want.take(i as int).push(string));
    }
    assert(want.take(arguments as int) =~= want);
    Ok(FfiStringPrep { string_slots: slots })
}

/// The ABI type of slot `i`: a string slot passes its handle; every other slot goes by its ABI type,
/// and as a pointer where it has none.
pub open spec fn slot_abi(slots: Seq<bool>, parameter_types: Seq<NativeType>, i: int) -> NativeType {
    if i < slots.len() && slots[i] {
        NativeType::String
    } else if i < parameter_types.len() {
        parameter_types[i]
    } else {
        NativeType::Pointer
    }
}

/// The ABI types by which the `arguments` slots of a call are passed.
pub fn build_call_args(
    prep: &FfiStringPrep,
    arguments: usize,
    parameter_types: &Vec<NativeType>,
) -> (r: Vec<NativeType>)
    ensures
        r@ == Seq::new(arguments as nat, |i: int| slot_abi(prep@, parameter_types@, i)),
{
    let mut out: Vec<NativeType> = Vec::new();
    for i in 0..arguments
        invariant
            out@ == Seq::new(i as nat, |k: int| slot_abi(prep@, parameter_types@, k)),
    {
        let string = match flag_at(&prep.string_slots, i) {
            Some(b) => b,
            None => false,
        };
        let abi = if string {
            NativeType::String
        } else if i < parameter_types.len() {
            parameter_types[i]
        } else {
            NativeType::Pointer
        };
        out.push(abi);
        assert(out@ =~= Seq::new((i + 1) as nat, |k: int| slot_abi(prep@, parameter_types@, k)));
    }
    out
}

/// Whether the caller owns the handle in slot `i` of `slots` and deletes it after the call.
pub open spec fn released(slots: nat, parse_types: Seq<Option<NativeType>>, i: int) -> bool {
    0 <= i < slots && i < parse_types.len() && parse_types[i] == Some(NativeType::String)
}

/// The slots whose handles the caller deletes after the call, ascending: those of arguments built
/// from strings, since a callee never takes ownership of a string it is handed.
pub fn release_string_args(slots: usize, parse_types: &Vec<Option<NativeType>>) -> (r: Vec<usize>)
    ensures
        forall|i: int| released(slots as nat, parse_types@, i) <==> exists|k: int|
            0 <= k < r@.len() && #[trigger] r@[k] == i,
        forall|i: usize| #[trigger]
            r@.contains(i) <==> i < slots && i < parse_types@.len() && parse_types@[i as int]
                == Some(NativeType::String),
        forall|j: int, k: int| 0 <= j < k < r@.len() ==> (#[trigger] r@[j]) < (#[trigger] r@[k]),
{
    let n: usize = if slots < parse_types.len() {
        slots
    } else {
        parse_types.len()
    };
    let mut out: Vec<usize> = Vec::new();
    for i in 0..n
        invariant
            n <= slots,
            n <= parse_types@.len(),
            forall|k: int|
                0 <= k < out@.len() ==> (#[trigger] out@[k]) < i && released(
                    slots as nat,
                    parse_types@,
                    out@[k] as int,
                ),
            forall|j: int|
                0 <= j < i && released(slots as nat, parse_types@, j) ==> exists|k: int|
                    0 <= k < out@.len() && #[trigger] out@[k] == j,
            forall|j: int, k: int|
                0 <= j < k < out@.len() ==> (#[trigger] out@[j]) < (#[trigger] out@[k]),
    {
        let ghost before = out@;
        if is_string(&parse_types[i]) {
            out.push(i);
            assert(out@[before.len() as int] == i);
        }
        assert forall|j: int|
            0 <= j < i + 1 && released(slots as nat, parse_types@, j) implies exists|k: int|
            0 <= k < out@.len() && #[trigger] out@[k] == j by {
            if j < i {
                let k = choose|k: int| 0 <= k < before.len() && #[trigger] before[k] == j;
                assert(out@[k] == j);
            }
        }
    }
    proof {
        assert forall|i: usize| #[trigger] out@.contains(i) <==> released(
            slots as nat,
            parse_types@,
            i as int,
        ) by {
            let at: int = i as int;
            if out@.contains(i) {
                let k = out@.index_of(i);
                assert(out@[k] == i);
            }
            if released(slots as nat, parse_types@, at) {
                let k = choose|k: int| 0 <= k < out@.len() && #[trigger] out@[k] == at;
                assert(out@.contains(out@[k]));
            }
        }
    }
    out
}

/// A slot is a string when its ABI type is `String` outright, whatever its argument was built from,
/// and goes out as a handle.
pub proof fn law_declared_strings_are_passed(
    arguments: nat,
    parameter_types: Seq<NativeType>,
    parse_types: Seq<Option<NativeType>>,
    i: int,
)
    requires
        0 <= i < arguments <= parameter_types.len(),
        parameter_types[i] == NativeType::String,
    ensures
        string_slots(arguments, parameter_types, parse_types) matches Some(slots) && i < slots.len()
            && slots[i] && slot_abi(slots, parameter_types, i) == NativeType::String,
{
    assert(has_strings(arguments, parameter_types, parse_types));
}

/// An argument built from a string goes out as a handle wherever its parameter is a string or a
/// pointer, and its handle is released after the call: none leaks and none is passed as something
/// else.
pub proof fn law_created_strings_are_passed_and_released(
    arguments: nat,
    parameter_types: Seq<NativeType>,
    parse_types: Seq<Option<NativeType>>,
    i: int,
)
    requires
        0 <= i < arguments <= parameter_types.len(),
        i < parse_types.len(),
        parse_types[i] == Some(NativeType::String),
        parameter_types[i] == NativeType::String || parameter_types[i] == NativeType::Pointer,
    ensures
        string_slots(arguments, parameter_types, parse_types) matches Some(slots) && slot_abi(
            slots,
            parameter_types,
            i,
        ) == NativeType::String,
        released(arguments, parse_types, i),
{
    assert(has_strings(arguments, parameter_types, parse_types));
}

/// Which slots of a call carry strings: none where nothing about the call is a string; otherwise every
/// slot needs an ABI type, and a slot is a string where that is `String`, or where it is `Pointer` and
/// the argument was built from a string.
pub proof fn law_string_slots_go_by_types(
    arguments: nat,
    parameter_types: Seq<NativeType>,
    parse_types: Seq<Option<NativeType>>,
)
    ensures
        ({
            let strings = parse_types.contains(Some(NativeType::String)) || exists|i: int|
                0 <= i < arguments && i < parameter_types.len() && #[trigger] parameter_types[i]
                    == NativeType::String;
            &&& !strings ==> string_slots(arguments, parameter_types, parse_types) == Some(
                Seq::<bool>::empty(),
            )
            &&& strings && arguments > parameter_types.len() ==> string_slots(
                arguments,
                parameter_types,
                parse_types,
            ) is None
            &&& strings && arguments <= parameter_types.len() ==> (string_slots(
                arguments,
                parameter_types,
                parse_types,
            ) matches Some(slots) && slots.len() == arguments && forall|i: int|
                0 <= i < arguments ==> (#[trigger] slots[i] <==> parameter_types[i]
                    == NativeType::String || (parameter_types[i] == NativeType::Pointer && i
                    < parse_types.len() && parse_types[i] == Some(NativeType::String))))
        }),
{
    if parse_types.contains(Some(NativeType::String)) {
        let i = parse_types.index_of(Some(NativeType::String));
        assert(parse_types[i] == Some(NativeType::String));
    }
    if exists|i: int|
        0 <= i < parse_types.len() && #[trigger] parse_types[i] == Some(NativeType::String) {
        let i = choose|i: int|
            0 <= i < parse_types.len() && #[trigger] parse_types[i] == Some(NativeType::String);
        assert(parse_types.contains(parse_types[i]));
    }
}

/// A slot that is no string goes by its ABI type, and as a pointer where it has none; a string slot
/// goes as a string whatever its ABI type says.
pub proof fn law_slots_go_by_their_types(slots: Seq<bool>, parameter_types: Seq<NativeType>, i: int)
    requires
        0 <= i,
    ensures
        i < slots.len() && slots[i] ==> slot_abi(slots, parameter_types, i) == NativeType::String,
        !(i < slots.len() && slots[i]) && i < parameter_types.len() ==> slot_abi(
            slots,
            parameter_types,
            i,
        ) == parameter_types[i],
        !(i < slots.len() && slots[i]) && i >= parameter_types.len() ==> slot_abi(
            slots,
            parameter_types,
            i,
        ) == NativeType::Pointer,
{
}

/// The caller deletes the handles that it made, those of arguments built from strings, and no other.
pub proof fn law_only_created_handles_are_released(
    slots: nat,
    parse_types: Seq<Option<NativeType>>,
    i: int,
)
    ensures
        0 <= i < slots && i < parse_types.len() && parse_types[i] == Some(NativeType::String)
            ==> released(slots, parse_types, i),
        released(slots, parse_types, i) ==> 0 <= i < slots && i < parse_types.len() && parse_types[i]
            == Some(NativeType::String),
{
}

/// A call's slots go out as strings, by their ABI types or as pointers: what was prepared from the
/// types decides for each.
pub proof fn law_calls_pass_what_was_prepared(
    arguments: usize,
    parameter_types: &Vec<NativeType>,
    parse_types: &Vec<Option<NativeType>>,
    prepared: Result<FfiStringPrep, String>,
    passed: Vec<NativeType>,
    i: int,
)
    requires
        call_ensures(prepare_string_storage, (arguments, parameter_types, parse_types), prepared),
        prepared matches Ok(prep) ==> call_ensures(
            build_call_args,
            (&prep, arguments, parameter_types),
            passed,
        ),
    ensures
        prepared matches Err(e) ==> e@ == "missing abi native type for slot"@ && arguments
            > parameter_types@.len(),
        prepared is Ok ==> passed@.len() == arguments,
        prepared is Ok && 0 <= i < arguments && i < parameter_types@.len() ==> passed@[i] == (
        if parameter_types@[i] == NativeType::Pointer && i < parse_types@.len() && parse_types@[i]
            == Some(NativeType::String) {
            NativeType::String
        } else {
            parameter_types@[i]
        }),
        prepared is Ok && parameter_types@.len() <= i < arguments ==> passed@[i]
            == NativeType::Pointer,
{
    law_string_slots_go_by_types(arguments as nat, parameter_types@, parse_types@);
    if let Ok(prep) = prepared {
        if 0 <= i < arguments {
            law_slots_go_by_their_types(prep@, parameter_types@, i);
            if i < parse_types@.len() && parse_types@[i] == Some(NativeType::String) {
                assert(parse_types@.contains(parse_types@[i]));
            }
        }
    }
}

/// The handles released are those of the arguments built from strings, each once, in order.
pub proof fn law_released_slots_are_those_created(
    slots: usize,
    parse_types: &Vec<Option<NativeType>>,
    r: Vec<usize>,
    i: usize,
)
    requires
        call_ensures(release_string_args, (slots, parse_types), r),
    ensures
        r@.contains(i) <==> i < slots && i < parse_types@.len() && parse_types@[i as int] == Some(
            NativeType::String,
        ),
        r@.no_duplicates(),
{
}

} // verus!
