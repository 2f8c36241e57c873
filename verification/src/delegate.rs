//! Delegates: JS functions as COM objects. Which interfaces such an object answers for, how long it
//! lives, and how an invocation decodes its parameters and calls the function.

use crate::metadata::{ClassDeclaration, Declaration, Metadata};
use crate::native::NativeType;
use vstd::prelude::*;

verus! {

/// The interface that every COM object has.
pub const IID_IUNKNOWN: u128 = 0x00000000_0000_0000_c000_000000000046;

pub const S_OK: i32 = 0;

/// 0x80004002.
pub const E_NOINTERFACE: i32 = -2147467262;

/// 0x80004005.
pub const E_FAIL: i32 = -2147467259;

/// The sealed class that a parameter is declared as: a pointer whose declared type is the name of
/// one.
pub open spec fn sealed_class(md: Metadata, ty: NativeType, sig: Seq<char>) -> Option<
    ClassDeclaration,
> {
    match md.found(sig) {
        Some(Declaration::Class(c)) => if ty == NativeType::Pointer && c.is_sealed {
            Some(c)
        } else {
            None
        },
        _ => None,
    }
}

/// The values behind optional references.
pub open spec fn optional_targets<T>(refs: Seq<Option<&T>>) -> Seq<Option<T>> {
    Seq::new(
        refs.len(),
        |i: int|
            match refs[i] {
                Some(t) => Some(*t),
                None => None,
            },
    )
}

/// The sealed-class declarations of a delegate's Invoke parameters, aligned with `param_types`. Only
/// pointer parameters whose declared type is a sealed runtime class get an entry; every other
/// parameter keeps the runtime-class resolution at invoke time. Empty when there are no signatures:
/// the type is not a delegate.
pub fn delegate_param_classes<'a>(
    md: &'a Metadata,
    sigs: Option<&Vec<String>>,
    param_types: &Vec<NativeType>,
) -> (r: Vec<Option<&'a ClassDeclaration>>)
    ensures
        match sigs {
            None => r@.len() == 0,
            Some(sigs) => {
                &&& r@.len() == if param_types@.len() < sigs@.len() {
                    param_types@.len()
                } else {
                    sigs@.len()
                }
                &&& forall|i: int|
                    0 <= i < r@.len() ==> #[trigger] optional_targets(r@)[i] == sealed_class(
                        *md,
                        param_types@[i],
                        sigs@[i]@,
                    )
            },
        },
{
    let mut out: Vec<Option<&'a ClassDeclaration>> = Vec::new();
    let sigs = match sigs {
        Some(s) => s,
        None => {
            return out;
        },
    };
    let n: usize = if param_types.len() < sigs.len() {
        param_types.len()
    } else {
        sigs.len()
    };
    for i in 0..n
        invariant
            n <= param_types@.len(),
            n <= sigs@.len(),
            out@.len() == i,
            forall|k: int|
                0 <= k < i ==> #[trigger] optional_targets(out@)[k] == sealed_class(
                    *md,
                    param_types@[k],
                    sigs@[k]@,
                ),
    {
        let class = if param_types[i] == NativeType::Pointer {
            match md.find_by_name(sigs[i].as_str()) {
                Some(d) => match d {
                    Declaration::Class(c) => if c.is_sealed {
                        Some(c)
                    } else {
                        None
                    },
                    _ => None,
                },
                None => None,
            }
        } else {
            None
        };
        let ghost before = out@;
        out.push(class);
        assert forall|k: int| 0 <= k < i + 1 implies #[trigger] optional_targets(out@)[k]
            == sealed_class(*md, param_types@[k], sigs@[k]@) by {
            if k < i {
                assert(optional_targets(before)[k] == sealed_class(
                    *md,
                    param_types@[k],
                    sigs@[k]@,
                ));
            }
        }
    }
    out
}

/// A delegate's COM identity: the delegate type it stands for, and how many references it has.
pub struct Identity {
    pub guid: u128,
    pub references: u32,
}

impl Identity {
    /// A new delegate, with the one reference of its creator.
    pub fn new(guid: u128) -> (r: Identity)
        ensures
            r.guid == guid,
            r.references == 1,
    {
        Identity { guid, references: 1 }
    }

    /// One more reference; returns how many there are.
    pub fn add_ref(&mut self) -> (r: u32)
        requires
            old(self).references < u32::MAX,
        ensures
            r == old(self).references + 1,
            final(self).references == r,
            final(self).guid == old(self).guid,
    {
        self.references = self.references + 1;
        self.references
    }

    /// One reference less; returns how many are left. With none left the delegate is to be freed.
    pub fn release(&mut self) -> (r: u32)
        requires
            old(self).references > 0,
        ensures
            r == old(self).references - 1,
            final(self).references == r,
            final(self).guid == old(self).guid,
    {
        self.references = self.references - 1;
        self.references
    }

    /// Answers for `IUnknown` and for the delegate's own type, with one more reference for the
    /// caller; for nothing else.
    pub fn query_interface(&mut self, iid: u128) -> (r: i32)
        requires
            old(self).references < u32::MAX,
        ensures
            final(self).guid == old(self).guid,
            iid == IID_IUNKNOWN || iid == old(self).guid ==> r == S_OK && final(self).references
                == old(self).references + 1,
            iid != IID_IUNKNOWN && iid != old(self).guid ==> r == E_NOINTERFACE
                && final(self).references == old(self).references,
    {
        if iid == IID_IUNKNOWN || iid == self.guid {
            let _ = self.add_ref();
            S_OK
        } else {
            E_NOINTERFACE
        }
    }
}

/// One parameter as the JS function gets it.
#[derive(Clone, Copy, PartialEq, Eq, Structural, Debug)]
pub enum ParamValue {
    Null,
    /// A WinRT object behind this pointer.
    Object(usize),
    Bool(bool),
    Unsigned(u32),
    Signed(i32),
    /// A number that goes out as a double.
    WideUnsigned(u64),
    WideSigned(i64),
    Undefined,
}

/// The lowest part of `raw` below `modulus`.
pub open spec fn low(raw: usize, modulus: int) -> int {
    raw as int % modulus
}

/// The lowest part of `raw` below `modulus`, read as a two's complement number.
pub open spec fn low_signed(raw: usize, modulus: int) -> int {
    if low(raw, modulus) * 2 < modulus {
        low(raw, modulus)
    } else {
        low(raw, modulus) - modulus
    }
}

/// What a raw parameter of a type is: null or an object for a pointer, the low bits for a number or
/// truth value, undefined for a type that cannot be shown.
pub open spec fn param_value(raw: usize, ty: NativeType) -> ParamValue {
    match ty {
        NativeType::Pointer => if raw == 0 {
            ParamValue::Null
        } else {
            ParamValue::Object(raw)
        },
        NativeType::Bool => ParamValue::Bool(low(raw, 0x100) != 0),
        NativeType::U8 => ParamValue::Unsigned(low(raw, 0x100) as u32),
        NativeType::I8 => ParamValue::Signed(low_signed(raw, 0x100) as i32),
        NativeType::U16 => ParamValue::Unsigned(low(raw, 0x1_0000) as u32),
        NativeType::I16 => ParamValue::Signed(low_signed(raw, 0x1_0000) as i32),
        NativeType::U32 => ParamValue::Unsigned(low(raw, 0x1_0000_0000) as u32),
        NativeType::I32 => ParamValue::Signed(low_signed(raw, 0x1_0000_0000) as i32),
        NativeType::U64 => ParamValue::WideUnsigned(raw as u64),
        NativeType::I64 => ParamValue::WideSigned(
            low_signed(raw, 0x1_0000_0000_0000_0000) as i64,
        ),
        NativeType::String => ParamValue::Undefined,
        NativeType::Other => ParamValue::Undefined,
    }
}

/// The JS-visible value of one raw delegate Invoke parameter per its type.
pub fn delegate_param_to_napi(raw: usize, ty: NativeType) -> (r: ParamValue)
    ensures
        r == param_value(raw, ty),
{
    match ty {
        NativeType::Pointer => if raw == 0 {
            ParamValue::Null
        } else {
            ParamValue::Object(raw)
        },
        NativeType::Bool => {
            let v: u8 = #[verifier::truncate] (raw as u8);
            assert(v as usize == raw % 0x100) by (bit_vector)
                requires
                    v == raw as u8,
            ;
            ParamValue::Bool(v != 0)
        },
        NativeType::U8 => {
            let v: u8 = #[verifier::truncate] (raw as u8);
            assert(v as usize == raw % 0x100) by (bit_vector)
                requires
                    v == raw as u8,
            ;
            ParamValue::Unsigned(v as u32)
        },
        NativeType::I8 => {
            let v: i8 = #[verifier::truncate] (raw as i8);
            assert(v == if raw % 0x100 < 0x80 {
                (raw % 0x100) as i32
            } else {
                ((raw % 0x100) as i32 - 0x100) as i32
            }) by (bit_vector)
                requires
                    v == raw as i8,
            ;
            ParamValue::Signed(v as i32)
        },
        NativeType::U16 => {
            let v: u16 = #[verifier::truncate] (raw as u16);
            assert(v as usize == raw % 0x1_0000) by (bit_vector)
                requires
                    v == raw as u16,
            ;
            ParamValue::Unsigned(v as u32)
        },
        NativeType::I16 => {
            let v: i16 = #[verifier::truncate] (raw as i16);
            assert(v == if raw % 0x1_0000 < 0x8000 {
                (raw % 0x1_0000) as i32
            } else {
                ((raw % 0x1_0000) as i32 - 0x1_0000) as i32
            }) by (bit_vector)
                requires
                    v == raw as i16,
            ;
            ParamValue::Signed(v as i32)
        },
        NativeType::U32 => {
            let wide: u64 = raw as u64;
            let v: u32 = #[verifier::truncate] (wide as u32);
            assert(v as u64 == wide % 0x1_0000_0000) by (bit_vector)
                requires
                    v == wide as u32,
            ;
            ParamValue::Unsigned(v)
        },
        NativeType::I32 => {
            let wide: u64 = raw as u64;
            let v: i32 = #[verifier::truncate] (wide as i32);
            assert(v == if wide % 0x1_0000_0000 < 0x8000_0000 {
                (wide % 0x1_0000_0000) as i64
            } else {
                ((wide % 0x1_0000_0000) as i64 - 0x1_0000_0000) as i64
            }) by (bit_vector)
                requires
                    v == wide as i32,
            ;
            ParamValue::Signed(v)
        },
        NativeType::U64 => ParamValue::WideUnsigned(raw as u64),
        NativeType::I64 => {
            let wide: u64 = raw as u64;
            let v: i64 = #[verifier::truncate] (wide as i64);
            assert(v as int == if wide < 0x8000_0000_0000_0000 {
                wide as int
            } else {
                wide - 0x1_0000_0000_0000_0000
            }) by (bit_vector)
                requires
                    v == wide as i64,
            ;
            ParamValue::WideSigned(v)
        },
        NativeType::String => ParamValue::Undefined,
        NativeType::Other => ParamValue::Undefined,
    }
}

/// The ways an object parameter is wrapped, tried in this order.
#[derive(Clone, Copy, PartialEq, Eq, Structural, Debug)]
pub enum Wrapping {
    /// From the sealed class that the parameter is declared as.
    Declared,
    /// From the runtime class that the object names.
    Runtime,
    /// As a bare pointer.
    External,
}

/// How an object parameter is wrapped first: by its declared class, where that is sealed.
pub fn first_wrapping(declared_sealed: bool) -> (r: Wrapping)
    ensures
        r == (if declared_sealed {
            Wrapping::Declared
        } else {
            Wrapping::Runtime
        }),
{
    if declared_sealed {
        Wrapping::Declared
    } else {
        Wrapping::Runtime
    }
}

/// How an object parameter is wrapped when `failed` did not work; nothing is left behind a bare
/// pointer.
pub fn next_wrapping(failed: Wrapping) -> (r: Option<Wrapping>)
    ensures
        r == (match failed {
            Wrapping::Declared => Some(Wrapping::Runtime),
            Wrapping::Runtime => Some(Wrapping::External),
            Wrapping::External => None,
        }),
{
    match failed {
        Wrapping::Declared => Some(Wrapping::Runtime),
        Wrapping::Runtime => Some(Wrapping::External),
        Wrapping::External => None,
    }
}

/// How far an invocation has come.
#[derive(Clone, Copy, PartialEq, Eq, Structural, Debug)]
pub enum InvokeStage {
    Opening,
    Resolving,
    Converting,
    Calling,
    Closing,
    Finished,
}

/// An invocation in progress: its parameters, how many are converted, and its result once that is
/// settled.
pub struct Invoke {
    pub stage: InvokeStage,
    pub params: Vec<(usize, NativeType)>,
    pub converted: usize,
    pub result: i32,
}

pub struct InvokeView {
    pub stage: InvokeStage,
    pub params: Seq<(usize, NativeType)>,
    pub converted: int,
    pub result: i32,
}

impl View for Invoke {
    type V = InvokeView;

    open spec fn view(&self) -> InvokeView {
        InvokeView {
            stage: self.stage,
            params: self.params@,
            converted: self.converted as int,
            result: self.result,
        }
    }
}

/// What the engine reports.
pub enum InvokeEvent {
    /// Whether a handle scope is open.
    ScopeOpened(bool),
    /// Whether the function is still there.
    Resolved(bool),
    /// Whether the last parameter could be made a JS value.
    Converted(bool),
    /// Whether the call returned; the text of the exception where it threw one that has a text.
    Called(bool, Option<String>),
    ScopeClosed,
}

/// What the engine is to do next.
pub enum InvokeAction {
    OpenScope,
    ResolveFunction,
    /// Make the parameter of this index the JS value.
    Convert(usize, ParamValue),
    /// Call the function with so many arguments.
    Call(usize),
    /// Keep this error as the last one, if there is one, and close the scope.
    CloseScope(Option<String>),
    Done(i32),
}

pub enum InvokeActionView {
    OpenScope,
    ResolveFunction,
    Convert(int, ParamValue),
    Call(int),
    CloseScope(Option<Seq<char>>),
    Done(i32),
}

impl View for InvokeAction {
    type V = InvokeActionView;

    open spec fn view(&self) -> InvokeActionView {
        match *self {
            InvokeAction::OpenScope => InvokeActionView::OpenScope,
            InvokeAction::ResolveFunction => InvokeActionView::ResolveFunction,
            InvokeAction::Convert(i, v) => InvokeActionView::Convert(i as int, v),
            InvokeAction::Call(n) => InvokeActionView::Call(n as int),
            InvokeAction::CloseScope(None) => InvokeActionView::CloseScope(None),
            InvokeAction::CloseScope(Some(e)) => InvokeActionView::CloseScope(Some(e@)),
            InvokeAction::Done(r) => InvokeActionView::Done(r),
        }
    }
}

/// Whether a report is the one that the stage waits for.
pub open spec fn awaited(stage: InvokeStage, event: InvokeEvent) -> bool {
    match stage {
        InvokeStage::Opening => event is ScopeOpened,
        InvokeStage::Resolving => event is Resolved,
        InvokeStage::Converting => event is Converted,
        InvokeStage::Calling => event is Called,
        InvokeStage::Closing => event is ScopeClosed,
        InvokeStage::Finished => false,
    }
}

/// The parameters that an invocation passes on: those there are types for, as many as
/// there are raw ones at most.
pub open spec fn passed(raw: Seq<usize>, types: Seq<NativeType>) -> Seq<(usize, NativeType)> {
    Seq::new(
        if types.len() < raw.len() {
            types.len()
        } else {
            raw.len()
        },
        |i: int| (raw[i], types[i]),
    )
}

/// Converting the next parameter, or calling when none is left.
pub open spec fn go_on(s: InvokeView) -> (InvokeView, InvokeActionView) {
    if s.converted < s.params.len() {
        let p = s.params[s.converted];
        (
            InvokeView { stage: InvokeStage::Converting, ..s },
            InvokeActionView::Convert(s.converted, param_value(p.0, p.1)),
        )
    } else {
        (
            InvokeView { stage: InvokeStage::Calling, ..s },
            InvokeActionView::Call(s.params.len() as int),
        )
    }
}

/// Closing with a result.
pub open spec fn close(s: InvokeView, result: i32, error: Option<Seq<char>>) -> (
    InvokeView,
    InvokeActionView,
) {
    (
        InvokeView { stage: InvokeStage::Closing, result, ..s },
        InvokeActionView::CloseScope(error),
    )
}

/// What a report leads to. A JS exception does not escape into the caller: it is kept as the last
/// error, and the invocation succeeds. Once a scope is open, every way out closes it.
pub open spec fn invoke_step(s: InvokeView, event: InvokeEvent) -> (InvokeView, InvokeActionView) {
    match event {
        InvokeEvent::ScopeOpened(true) => (
            InvokeView { stage: InvokeStage::Resolving, ..s },
            InvokeActionView::ResolveFunction,
        ),
        InvokeEvent::ScopeOpened(false) => (
            InvokeView { stage: InvokeStage::Finished, ..s },
            InvokeActionView::Done(E_FAIL),
        ),
        InvokeEvent::Resolved(true) => go_on(s),
        InvokeEvent::Resolved(false) => close(s, E_FAIL, None),
        InvokeEvent::Converted(true) => go_on(InvokeView { converted: s.converted + 1, ..s }),
        InvokeEvent::Converted(false) => close(s, E_FAIL, None),
        InvokeEvent::Called(returned, exception) => close(
            s,
            S_OK,
            match exception {
                Some(e) => if returned {
                    None
                } else {
                    Some(e@)
                },
                None => None,
            },
        ),
        InvokeEvent::ScopeClosed => (
            InvokeView { stage: InvokeStage::Finished, ..s },
            InvokeActionView::Done(s.result),
        ),
    }
}

impl Invoke {
    /// Whether there are at most four parameters, those converted are among them, and one is left
    /// while one is being converted.
    pub open spec fn wf(&self) -> bool {
        &&& self.converted <= self.params@.len() <= 4
        &&& self.stage == InvokeStage::Converting ==> self.converted < self.params@.len()
    }

    /// An invocation with four raw parameters, of which those there are types for are passed on.
    /// Where the delegate has no function or environment any more, it fails at once.
    pub fn start(
        live: bool,
        p0: usize,
        p1: usize,
        p2: usize,
        p3: usize,
        param_types: &Vec<NativeType>,
    ) -> (r: (Invoke, InvokeAction))
        ensures
            r.0.wf(),
            r.0@ == (InvokeView {
                stage: if live {
                    InvokeStage::Opening
                } else {
                    InvokeStage::Finished
                },
                params: passed(seq![p0, p1, p2, p3], param_types@),
                converted: 0,
                result: E_FAIL,
            }),
            r.1@ == (if live {
                InvokeActionView::OpenScope
            } else {
                InvokeActionView::Done(E_FAIL)
            }),
    {
        let mut raw: Vec<usize> = Vec::new();
        raw.push(p0);
        raw.push(p1);
        raw.push(p2);
        raw.push(p3);
        let n: usize = if param_types.len() < 4 {
            param_types.len()
        } else {
            4
        };
        let mut params: Vec<(usize, NativeType)> = Vec::new();
        let ghost want = passed(seq![p0, p1, p2, p3], param_types@);
        for i in 0..n
            invariant
                n <= 4,
                n <= param_types@.len(),
                raw@ == seq![p0, p1, p2, p3],
                want == passed(seq![p0, p1, p2, p3], param_types@),
                n == want.len(),
                params@ == want.take(i as int),
        {
            params.push((raw[i], param_types[i]));
            assert(want.take(i + 1) =~= want.take(i as int).push(want[i as int]));
        }
        assert(want.take(n as int) =~= want);
        let stage = if live {
            InvokeStage::Opening
        } else {
            InvokeStage::Finished
        };
        let action = if live {
            InvokeAction::OpenScope
        } else {
            InvokeAction::Done(E_FAIL)
        };
        (Invoke { stage, params, converted: 0, result: E_FAIL }, action)
    }

    /// Converts the next parameter, or calls.
    fn proceed(&mut self) -> (r: InvokeAction)
        requires
            old(self).converted <= old(self).params@.len() <= 4,
        ensures
            final(self)@ == go_on(old(self)@).0,
            r@ == go_on(old(self)@).1,
            final(self).wf(),
    {
        if self.converted < self.params.len() {
            let (raw, ty) = self.params[self.converted];
            self.stage = InvokeStage::Converting;
            InvokeAction::Convert(self.converted, delegate_param_to_napi(raw, ty))
        } else {
            self.stage = InvokeStage::Calling;
            InvokeAction::Call(self.params.len())
        }
    }

    /// Closes with a result.
    fn finish(&mut self, result: i32, error: Option<String>) -> (r: InvokeAction)
        requires
            old(self).converted <= old(self).params@.len() <= 4,
        ensures
            final(self)@ == close(
                old(self)@,
                result,
                match error {
                    Some(e) => Some(e@),
                    None => None,
                },
            ).0,
            r@ == InvokeActionView::CloseScope(
                match error {
                    Some(e) => Some(e@),
                    None => None,
                },
            ),
            final(self).wf(),
    {
        self.stage = InvokeStage::Closing;
        self.result = result;
        InvokeAction::CloseScope(error)
    }

    /// Takes in the awaited report and says what to do next.
    pub fn step(&mut self, event: InvokeEvent) -> (r: InvokeAction)
        requires
            old(self).wf(),
            awaited(old(self).stage, event),
        ensures
            final(self).wf(),
            final(self)@ == invoke_step(old(self)@, event).0,
            r@ == invoke_step(old(self)@, event).1,
    {
        match event {
            InvokeEvent::ScopeOpened(open) => {
                if open {
                    self.stage = InvokeStage::Resolving;
                    InvokeAction::ResolveFunction
                } else {
                    self.stage = InvokeStage::Finished;
                    InvokeAction::Done(E_FAIL)
                }
            },
            InvokeEvent::Resolved(found) => if found {
                self.proceed()
            } else {
                self.finish(E_FAIL, None)
            },
            InvokeEvent::Converted(done) => if done {
                self.converted = self.converted + 1;
                self.proceed()
            } else {
                self.finish(E_FAIL, None)
            },
            InvokeEvent::Called(returned, exception) => if returned {
                self.finish(S_OK, None)
            } else {
                self.finish(S_OK, exception)
            },
            InvokeEvent::ScopeClosed => {
                self.stage = InvokeStage::Finished;
                InvokeAction::Done(self.result)
            },
        }
    }
}

/// An invocation that opened a scope ends only once the scope is closed: the one other way to end is
/// that none could be opened.
pub proof fn law_open_scopes_are_closed(s: InvokeView, event: InvokeEvent)
    requires
        awaited(s.stage, event),
    ensures
        invoke_step(s, event).1 is Done ==> event is ScopeClosed || event
            == InvokeEvent::ScopeOpened(false),
        event is ScopeClosed ==> s.stage == InvokeStage::Closing,
{
}

/// An exception of the function does not reach the caller: whatever comes of the call, the
/// invocation succeeds.
pub proof fn law_exceptions_do_not_escape(s: InvokeView, returned: bool, exception: Option<String>)
    requires
        s.stage == InvokeStage::Calling,
    ensures
        invoke_step(
            invoke_step(s, InvokeEvent::Called(returned, exception)).0,
            InvokeEvent::ScopeClosed,
        ).1 == InvokeActionView::Done(S_OK),
{
}

/// A parameter has a class of its own exactly where it is a pointer and its signature names a sealed
/// class.
pub proof fn law_sealed_pointers_are_typed(
    md: Metadata,
    ty: NativeType,
    sig: Seq<char>,
    c: ClassDeclaration,
)
    ensures
        sealed_class(md, ty, sig) == Some(c) <==> ty == NativeType::Pointer && md.found(sig) == Some(
            Declaration::Class(c),
        ) && c.is_sealed,
{
}

/// Integers are the low bits of what was passed, in two's complement where they are signed; a flag is
/// whether its byte is not zero; a null pointer is null; what has no value is undefined.
#[verifier::rlimit(40)]
pub proof fn law_parameters_are_low_bits(raw: usize)
    ensures
        param_value(raw, NativeType::Pointer) == (if raw == 0 {
            ParamValue::Null
        } else {
            ParamValue::Object(raw)
        }),
        param_value(raw, NativeType::Bool) == ParamValue::Bool(raw as int % 256 != 0),
        param_value(raw, NativeType::U8) matches ParamValue::Unsigned(v) && v == raw as int % 256,
        param_value(raw, NativeType::I8) matches ParamValue::Signed(v) && -128 <= v <= 127 && (
        raw as int - v) % 256 == 0,
        param_value(raw, NativeType::U16) matches ParamValue::Unsigned(v) && v == raw as int
            % 65536,
        param_value(raw, NativeType::I16) matches ParamValue::Signed(v) && -32768 <= v <= 32767 && (
        raw as int - v) % 65536 == 0,
        param_value(raw, NativeType::U32) matches ParamValue::Unsigned(v) && v == raw as int
            % 4294967296,
        param_value(raw, NativeType::I32) matches ParamValue::Signed(v) && (raw as int - v)
            % 4294967296 == 0,
        param_value(raw, NativeType::U64) matches ParamValue::WideUnsigned(v) && v == raw,
        param_value(raw, NativeType::I64) matches ParamValue::WideSigned(v) && (raw as int - v)
            % 18446744073709551616 == 0,
        param_value(raw, NativeType::String) == ParamValue::Undefined,
        param_value(raw, NativeType::Other) == ParamValue::Undefined,
{
    assert(low(raw, 0x100) == raw as int % 256);
    assert(low(raw, 0x1_0000) == raw as int % 65536);
    assert(low(raw, 0x1_0000_0000) == raw as int % 4294967296);
    assert(low(raw, 0x1_0000_0000_0000_0000) == raw as int % 18446744073709551616);
    lemma_low_signed(raw, 0x100);
    lemma_low_signed(raw, 0x1_0000);
    lemma_low_signed(raw, 0x1_0000_0000);
    lemma_low_signed(raw, 0x1_0000_0000_0000_0000);
}

#[verifier::rlimit(40)]
proof fn lemma_low_signed(raw: usize, modulus: int)
    requires
        modulus == 0x100 || modulus == 0x1_0000 || modulus == 0x1_0000_0000 || modulus
            == 0x1_0000_0000_0000_0000,
    ensures
        -modulus <= 2 * low_signed(raw, modulus) < modulus,
        (raw as int - low_signed(raw, modulus)) % modulus == 0,
{
}

/// The results of calls and the identity of every object are those of COM.
pub proof fn law_results_are_those_of_com()
    ensures
        S_OK == 0,
        E_FAIL as u32 == 0x8000_4005,
        E_NOINTERFACE as u32 == 0x8000_4002,
        IID_IUNKNOWN == 0x00000000_0000_0000_c000_000000000046,
{
    assert(E_FAIL as u32 == 0x8000_4005) by (bit_vector);
    assert(E_NOINTERFACE as u32 == 0x8000_4002) by (bit_vector);
}

/// Each argument goes with the type at its place; arguments without a type, and types without an
/// argument, are left out.
pub proof fn law_arguments_go_with_their_types(raw: Seq<usize>, types: Seq<NativeType>)
    ensures
        passed(raw, types).len() == vstd::math::min(raw.len() as int, types.len() as int),
        forall|i: int|
            0 <= i < passed(raw, types).len() ==> (#[trigger] passed(raw, types)[i]).0 == raw[i]
                && passed(raw, types)[i].1 == types[i],
{
}

/// Where an invocation stands, what it does next: the function is resolved in an open scope, the
/// arguments are converted in order, then it is called with all of them; whatever fails, an open scope
/// is closed, and the result says whether the call was made.
#[verifier::rlimit(40)]
pub proof fn law_invocations_convert_in_order_and_call(
    s: InvokeView,
    returned: bool,
    exception: Option<String>,
)
    requires
        0 <= s.converted <= s.params.len(),
    ensures
        invoke_step(s, InvokeEvent::ScopeOpened(true)).1 == InvokeActionView::ResolveFunction,
        invoke_step(s, InvokeEvent::ScopeOpened(false)).1 == InvokeActionView::Done((-2147467259) as i32),
        s.converted < s.params.len() ==> invoke_step(s, InvokeEvent::Resolved(true)).1
            == InvokeActionView::Convert(
            s.converted,
            param_value(s.params[s.converted].0, s.params[s.converted].1),
        ),
        s.converted == s.params.len() ==> invoke_step(s, InvokeEvent::Resolved(true)).1
            == InvokeActionView::Call(s.params.len() as int),
        s.converted + 1 < s.params.len() ==> invoke_step(s, InvokeEvent::Converted(true)).1
            == InvokeActionView::Convert(
            s.converted + 1,
            param_value(s.params[s.converted + 1].0, s.params[s.converted + 1].1),
        ),
        s.converted + 1 == s.params.len() ==> invoke_step(s, InvokeEvent::Converted(true)).1
            == InvokeActionView::Call(s.params.len() as int),
        invoke_step(s, InvokeEvent::Converted(true)).0.converted == s.converted + 1,
        invoke_step(s, InvokeEvent::Resolved(true)).0.converted == s.converted,
        invoke_step(s, InvokeEvent::Converted(true)).0.params == s.params,
        invoke_step(s, InvokeEvent::Resolved(true)).0.params == s.params,
        invoke_step(s, InvokeEvent::ScopeOpened(true)).0.params == s.params,
        invoke_step(s, InvokeEvent::ScopeOpened(true)).0.converted == s.converted,
        invoke_step(s, InvokeEvent::Resolved(false)).1 == InvokeActionView::CloseScope(None),
        invoke_step(s, InvokeEvent::Resolved(false)).0.result == -2147467259,
        invoke_step(s, InvokeEvent::Converted(false)).1 == InvokeActionView::CloseScope(None),
        invoke_step(s, InvokeEvent::Converted(false)).0.result == -2147467259,
        invoke_step(s, InvokeEvent::Called(returned, exception)).0.result == 0,
        returned || exception is None ==> invoke_step(s, InvokeEvent::Called(returned, exception)).1
            == InvokeActionView::CloseScope(None),
        !returned && exception is Some ==> invoke_step(
            s,
            InvokeEvent::Called(returned, exception),
        ).1 == InvokeActionView::CloseScope(Some(exception->Some_0@)),
        invoke_step(s, InvokeEvent::ScopeClosed).1 == InvokeActionView::Done(s.result),
{
}

/// Each stage of an invocation waits for its own event.
pub proof fn law_stages_wait_for_their_events(s: InvokeView, event: InvokeEvent)
    requires
        0 <= s.converted <= s.params.len(),
    ensures
        awaited(s.stage, event) <==> match event {
            InvokeEvent::ScopeOpened(_) => s.stage == InvokeStage::Opening,
            InvokeEvent::Resolved(_) => s.stage == InvokeStage::Resolving,
            InvokeEvent::Converted(_) => s.stage == InvokeStage::Converting,
            InvokeEvent::Called(_, _) => s.stage == InvokeStage::Calling,
            InvokeEvent::ScopeClosed => s.stage == InvokeStage::Closing,
        },
        invoke_step(s, event).0.stage == match invoke_step(s, event).1 {
            InvokeActionView::OpenScope => InvokeStage::Opening,
            InvokeActionView::ResolveFunction => InvokeStage::Resolving,
            InvokeActionView::Convert(_, _) => InvokeStage::Converting,
            InvokeActionView::Call(_) => InvokeStage::Calling,
            InvokeActionView::CloseScope(_) => InvokeStage::Closing,
            InvokeActionView::Done(_) => InvokeStage::Finished,
        },
{
}

/// References, invocations and actions read field by field.
pub proof fn law_invocations_read_field_by_field<T>(
    refs: Seq<Option<&T>>,
    i: int,
    invoke: Invoke,
    action: InvokeAction,
)
    ensures
        optional_targets(refs).len() == refs.len(),
        0 <= i < refs.len() && refs[i] is None ==> optional_targets(refs)[i] is None,
        0 <= i < refs.len() && refs[i] is Some ==> optional_targets(refs)[i] == Some(
            *refs[i]->Some_0,
        ),
        invoke@.stage == invoke.stage,
        invoke@.params == invoke.params@,
        invoke@.converted == invoke.converted,
        invoke@.result == invoke.result,
        action is OpenScope <==> action@ is OpenScope,
        action is ResolveFunction <==> action@ is ResolveFunction,
        action matches InvokeAction::Convert(k, v) ==> action@ == InvokeActionView::Convert(
            k as int,
            v,
        ),
        action matches InvokeAction::Call(n) ==> action@ == InvokeActionView::Call(n as int),
        action matches InvokeAction::CloseScope(None) ==> action@ == InvokeActionView::CloseScope(
            None,
        ),
        action matches InvokeAction::CloseScope(Some(e)) ==> action@
            == InvokeActionView::CloseScope(Some(e@)),
        action matches InvokeAction::Done(r) ==> action@ == InvokeActionView::Done(r),
{
}

/// A parameter has a class where its signature names a sealed one and it is a pointer; without
/// signatures there are no classes.
pub proof fn law_parameters_have_their_sealed_classes(
    md: &Metadata,
    sigs: Option<&Vec<String>>,
    types: &Vec<NativeType>,
    r: Vec<Option<&ClassDeclaration>>,
    i: int,
)
    requires
        call_ensures(delegate_param_classes, (md, sigs, types), r),
    ensures
        sigs is None ==> r@.len() == 0,
        sigs matches Some(s) ==> r@.len() == vstd::math::min(
            s@.len() as int,
            types@.len() as int,
        ),
        sigs matches Some(s) ==> (0 <= i < r@.len() ==> match r@[i] {
            Some(c) => types@[i] == NativeType::Pointer && c.is_sealed && md.found(s@[i]@) == Some(
                Declaration::Class(*c),
            ),
            None => types@[i] != NativeType::Pointer || !(md.found(s@[i]@) matches Some(
                Declaration::Class(c),
            ) && c.is_sealed),
        }),
{
    if let Some(s) = sigs {
        if 0 <= i < r@.len() {
            assert(optional_targets(r@)[i] == sealed_class(*md, types@[i], s@[i]@));
        }
    }
}

/// An object is wrapped by its declared class where that is sealed; where a way fails the next is
/// tried: declared, runtime class, external.
pub proof fn law_wrappings_are_tried_in_order(
    sealed: bool,
    first: Wrapping,
    failed: Wrapping,
    next: Option<Wrapping>,
)
    requires
        call_ensures(first_wrapping, (sealed,), first),
        call_ensures(next_wrapping, (failed,), next),
    ensures
        sealed ==> first == Wrapping::Declared,
        !sealed ==> first == Wrapping::Runtime,
        failed == Wrapping::Declared ==> next == Some(Wrapping::Runtime),
        failed == Wrapping::Runtime ==> next == Some(Wrapping::External),
        failed == Wrapping::External ==> next is None,
{
}

/// An object answers to its own identifier and to that of every object, and only then counts one more
/// reference.
pub proof fn law_objects_answer_to_two_identifiers(it: &mut Identity, iid: u128, r: i32)
    requires
        call_ensures(Identity::query_interface, (it, iid), r),
    ensures
        r == 0 <==> iid == old(it).guid || iid == 0x00000000_0000_0000_c000_000000000046,
        r == 0 ==> final(it).references == old(it).references + 1,
        r != 0 ==> r == -2147467262 && final(it).references == old(it).references,
        final(it).guid == old(it).guid,
{
}

/// A new object has one reference; each one added and each one released counts.
pub proof fn law_references_are_counted(
    guid: u128,
    made: Identity,
    it: &mut Identity,
    more: u32,
)
    requires
        call_ensures(Identity::new, (guid,), made),
        call_ensures(Identity::add_ref, (it,), more),
    ensures
        made.references == 1,
        made.guid == guid,
        more == old(it).references + 1,
        final(it).references == more,
        final(it).guid == old(it).guid,
{
}

/// A released reference is gone.
pub proof fn law_releases_are_counted(it: &mut Identity, less: u32)
    requires
        call_ensures(Identity::release, (it,), less),
    ensures
        less == old(it).references - 1,
        final(it).references == less,
        final(it).guid == old(it).guid,
{
}

/// An invocation of a live delegate opens a scope and has its arguments, as many as have a type; one
/// of a dead delegate fails at once.
pub proof fn law_invocations_start_with_a_scope(
    live: bool,
    p0: usize,
    p1: usize,
    p2: usize,
    p3: usize,
    types: &Vec<NativeType>,
    r: (Invoke, InvokeAction),
)
    requires
        call_ensures(Invoke::start, (live, p0, p1, p2, p3, types), r),
    ensures
        live ==> r.1@ == InvokeActionView::OpenScope && r.0.stage == InvokeStage::Opening,
        !live ==> r.1@ == InvokeActionView::Done((-2147467259) as i32) && r.0.stage
            == InvokeStage::Finished,
        r.0.converted == 0,
        r.0.params@.len() == vstd::math::min(4, types@.len() as int),
        forall|i: int|
            0 <= i < r.0.params@.len() ==> (#[trigger] r.0.params@[i]) == (
                seq![p0, p1, p2, p3][i],
                types@[i],
            ),
{
    assert(r.0.params@ == r.0@.params);
}

/// What a parameter becomes by its type.
#[verifier::rlimit(40)]
pub proof fn law_parameters_become_their_low_bits(raw: usize, ty: NativeType, r: ParamValue)
    requires
        call_ensures(delegate_param_to_napi, (raw, ty), r),
    ensures
        ty == NativeType::Pointer ==> r == (if raw == 0 {
            ParamValue::Null
        } else {
            ParamValue::Object(raw)
        }),
        ty == NativeType::Bool ==> r == ParamValue::Bool(raw as int % 256 != 0),
        ty == NativeType::U8 || ty == NativeType::U16 || ty == NativeType::U32
            ==> r is Unsigned,
        ty == NativeType::I8 || ty == NativeType::I16 || ty == NativeType::I32 ==> r is Signed,
        ty == NativeType::I8 ==> (raw as int - r->Signed_0) % 256 == 0 && -128 <= r->Signed_0 <= 127,
        ty == NativeType::I16 ==> (raw as int - r->Signed_0) % 65536 == 0 && -32768 <= r->Signed_0
            <= 32767,
        ty == NativeType::I32 ==> (raw as int - r->Signed_0) % 4294967296 == 0,
        ty == NativeType::U8 ==> r->Unsigned_0 == raw as int % 256,
        ty == NativeType::U16 ==> r->Unsigned_0 == raw as int % 65536,
        ty == NativeType::U32 ==> r->Unsigned_0 == raw as int % 4294967296,
        ty == NativeType::U64 ==> r == ParamValue::WideUnsigned(raw as u64),
        ty == NativeType::I64 ==> (r matches ParamValue::WideSigned(v) && (raw as int - v)
            % 18446744073709551616 == 0),
        ty == NativeType::String || ty == NativeType::Other ==> r == ParamValue::Undefined,
{
    law_parameters_are_low_bits(raw);
}

/// What an invocation does next, and that its arguments stay.
pub proof fn law_invocations_step_as_stated(
    invoke: &mut Invoke,
    event: InvokeEvent,
    r: InvokeAction,
)
    requires
        call_ensures(Invoke::step, (invoke, event), r),
    ensures
        final(invoke).params@ == old(invoke).params@,
        event == InvokeEvent::ScopeOpened(true) ==> r@ is ResolveFunction,
        event == InvokeEvent::ScopeOpened(false) ==> r@ == InvokeActionView::Done(
            (-2147467259) as i32,
        ),
        event == InvokeEvent::Resolved(false) || event == InvokeEvent::Converted(false) ==> r@
            == InvokeActionView::CloseScope(None) && final(invoke).result == -2147467259,
        event is Called ==> r@ is CloseScope && final(invoke).result == 0,
        event is ScopeClosed ==> r@ == InvokeActionView::Done(old(invoke).result),
        r@ is Call ==> r@ == InvokeActionView::Call(old(invoke).params@.len() as int),
{
    assert(final(invoke)@.params == final(invoke).params@);
    assert(old(invoke)@.params == old(invoke).params@);
    assert(final(invoke)@.result == final(invoke).result);
}

/// Until a call is made or something fails the result stays what it was, and the arguments stay
/// throughout.
pub proof fn law_results_stay_until_the_call(s: InvokeView, event: InvokeEvent)
    ensures
        invoke_step(s, event).0.params == s.params,
        event == InvokeEvent::ScopeOpened(true) || event == InvokeEvent::ScopeOpened(false) || event
            == InvokeEvent::Resolved(true) || event == InvokeEvent::Converted(true)
            || event is ScopeClosed ==> invoke_step(s, event).0.result == s.result,
        event != InvokeEvent::Converted(true) ==> invoke_step(s, event).0.converted == s.converted,
{
}

} // verus!
