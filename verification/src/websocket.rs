//! WebSockets: what the receive loop of a socket reports, what goes out, and how reports reach the
//! callbacks on the JS thread.

use crate::text;
use std::collections::HashMap;
use vstd::prelude::*;

verus! {

/// What a socket reports.
pub enum Event {
    /// The socket is open, with the sub-protocol offered first.
    Open(String),
    Text(String),
    Binary(Vec<u8>),
    Error(String),
    Close { code: u16, reason: String, clean: bool },
}

pub enum EventView {
    Open(Seq<char>),
    Text(Seq<char>),
    Binary(Seq<u8>),
    Error(Seq<char>),
    Close { code: u16, reason: Seq<char>, clean: bool },
}

impl View for Event {
    type V = EventView;

    open spec fn view(&self) -> EventView {
        match *self {
            Event::Open(p) => EventView::Open(p@),
            Event::Text(t) => EventView::Text(t@),
            Event::Binary(b) => EventView::Binary(b@),
            Event::Error(m) => EventView::Error(m@),
            Event::Close { code, reason, clean } => EventView::Close { code, reason: reason@, clean },
        }
    }
}

/// The views of events.
pub open spec fn event_views(events: Seq<Event>) -> Seq<EventView> {
    Seq::new(events.len(), |i: int| events[i]@)
}

/// A whole binary message, or the last part of one.
pub const BINARY_MESSAGE: i32 = 0;

pub const BINARY_FRAGMENT: i32 = 1;

/// A whole text message, or the last part of one.
pub const UTF8_MESSAGE: i32 = 2;

pub const UTF8_FRAGMENT: i32 = 3;

pub const CLOSE: i32 = 4;

/// How a socket that broke down is closed: abnormally, without a reason.
pub open spec fn broken() -> EventView {
    EventView::Close { code: 1006, reason: Seq::empty(), clean: false }
}

/// What a socket that failed with `message` reports last.
pub fn failure_events(message: String) -> (r: Vec<Event>)
    ensures
        event_views(r@) == seq![EventView::Error(message@), broken()],
{
    let ghost m = message@;
    let mut out: Vec<Event> = Vec::new();
    out.push(Event::Error(message));
    out.push(Event::Close { code: 1006, reason: String::new(), clean: false });
    assert(out@[1]@->reason =~= broken()->reason);
    assert(event_views(out@) =~= seq![EventView::Error(m), broken()]);
    out
}

/// What a socket reports when its handshake is through: it is open, with the first of the offered
/// sub-protocols.
pub fn open_event(protocols: &Vec<String>) -> (r: Event)
    ensures
        r@ == EventView::Open(
            if protocols@.len() > 0 {
                protocols@[0]@
            } else {
                Seq::empty()
            },
        ),
{
    if protocols.len() > 0 {
        Event::Open(protocols[0].clone())
    } else {
        Event::Open(String::new())
    }
}

/// The part of a message that has come in.
pub struct Receiver {
    pub message: Vec<u8>,
}

/// What a receive leads to.
pub enum Delivery {
    Nothing,
    Report(Event),
    /// The peer closes: ask for the code and reason.
    Closing,
}

pub enum DeliveryView {
    Nothing,
    Report(EventView),
    Closing,
}

impl View for Delivery {
    type V = DeliveryView;

    open spec fn view(&self) -> DeliveryView {
        match *self {
            Delivery::Nothing => DeliveryView::Nothing,
            Delivery::Report(e) => DeliveryView::Report(e@),
            Delivery::Closing => DeliveryView::Closing,
        }
    }
}

/// What a receive of `bytes` as `kind` leads to, behind what has come in of the message: the last
/// part of a message reports it whole, a fragment only adds to it.
pub open spec fn received(message: Seq<u8>, kind: i32, bytes: Seq<u8>) -> (Seq<u8>, DeliveryView) {
    let whole = message + bytes;
    if kind == UTF8_MESSAGE {
        (Seq::empty(), DeliveryView::Report(EventView::Text(text::read_utf8(whole))))
    } else if kind == BINARY_MESSAGE {
        (Seq::empty(), DeliveryView::Report(EventView::Binary(whole)))
    } else if kind == CLOSE {
        (whole, DeliveryView::Closing)
    } else {
        (whole, DeliveryView::Nothing)
    }
}

impl Receiver {
    /// Nothing has come in.
    pub fn new() -> (r: Receiver)
        ensures
            r.message@ == Seq::<u8>::empty(),
    {
        Receiver { message: Vec::new() }
    }

    /// Takes in one receive.
    pub fn receive(&mut self, kind: i32, bytes: Vec<u8>) -> (r: Delivery)
        ensures
            final(self).message@ == received(old(self).message@, kind, bytes@).0,
            r@ == received(old(self).message@, kind, bytes@).1,
    {
        let mut bytes = bytes;
        self.message.append(&mut bytes);
        if kind == UTF8_MESSAGE {
            let text = text::from_utf8_lossy(&self.message);
            self.message = Vec::new();
            Delivery::Report(Event::Text(text))
        } else if kind == BINARY_MESSAGE {
            let mut whole: Vec<u8> = Vec::new();
            std::mem::swap(&mut whole, &mut self.message);
            Delivery::Report(Event::Binary(whole))
        } else if kind == CLOSE {
            Delivery::Closing
        } else {
            Delivery::Nothing
        }
    }
}

/// What a closed socket reports: the peer's code and reason, of which `length` bytes of the buffer
/// are filled.
pub fn close_event(code: u16, reason: &Vec<u8>, length: usize) -> (r: Event)
    requires
        length <= reason@.len(),
    ensures
        r@ == (EventView::Close {
            code,
            reason: text::read_utf8(reason@.take(length as int)),
            clean: true,
        }),
{
    let mut filled: Vec<u8> = Vec::new();
    for i in 0..length
        invariant
            length <= reason@.len(),
            filled@ == reason@.take(i as int),
    {
        filled.push(reason[i]);
        assert(reason@.take(i + 1) =~= reason@.take(i as int).push(reason@[i as int]));
    }
    Event::Close { code, reason: text::from_utf8_lossy(&filled), clean: true }
}

/// The parts of a message, one after the other.
pub open spec fn parts_joined(parts: Seq<Seq<u8>>) -> Seq<u8>
    decreases parts.len(),
{
    if parts.len() == 0 {
        Seq::empty()
    } else {
        parts_joined(parts.drop_last()) + parts.last()
    }
}

/// What has come in after fragments.
pub open spec fn after_fragments(message: Seq<u8>, kind: i32, parts: Seq<Seq<u8>>) -> Seq<u8>
    decreases parts.len(),
{
    if parts.len() == 0 {
        message
    } else {
        received(after_fragments(message, kind, parts.drop_last()), kind, parts.last()).0
    }
}

/// A message that comes in parts is reported once, whole, with the parts in order; the next one
/// starts empty.
pub proof fn law_fragments_make_one_message(parts: Seq<Seq<u8>>, last: Seq<u8>)
    ensures
        ({
            let whole = parts_joined(parts) + last;
            let binary = after_fragments(Seq::empty(), BINARY_FRAGMENT, parts);
            let utf8 = after_fragments(Seq::empty(), UTF8_FRAGMENT, parts);
            &&& received(binary, BINARY_MESSAGE, last) == (
                Seq::<u8>::empty(),
                DeliveryView::Report(EventView::Binary(whole)),
            )
            &&& received(utf8, UTF8_MESSAGE, last) == (
                Seq::<u8>::empty(),
                DeliveryView::Report(EventView::Text(text::read_utf8(whole))),
            )
        }),
{
    lemma_fragments(parts, BINARY_FRAGMENT);
    lemma_fragments(parts, UTF8_FRAGMENT);
}

/// A text arrives as it was sent: the bytes of its frame, received in one message or in parts, are
/// reported as that text.
pub proof fn law_texts_arrive_as_sent(sent: Seq<char>, parts: Seq<Seq<u8>>, last: Seq<u8>)
    requires
        parts_joined(parts) + last == vstd::utf8::encode_utf8(sent),
    ensures
        received(after_fragments(Seq::empty(), UTF8_FRAGMENT, parts), UTF8_MESSAGE, last) == (
            Seq::<u8>::empty(),
            DeliveryView::Report(EventView::Text(sent)),
        ),
{
    law_fragments_make_one_message(parts, last);
    text::lemma_read_encoded(sent);
}

proof fn lemma_fragments(parts: Seq<Seq<u8>>, kind: i32)
    requires
        kind == BINARY_FRAGMENT || kind == UTF8_FRAGMENT,
    ensures
        after_fragments(Seq::empty(), kind, parts) == parts_joined(parts),
    decreases parts.len(),
{
    if parts.len() > 0 {
        lemma_fragments(parts.drop_last(), kind);
    }
}

/// How far the run of a socket has come.
#[derive(Clone, Copy, PartialEq, Eq, Structural, Debug)]
pub enum RunStage {
    Connecting,
    Receiving,
    Closing,
    Finished,
}

/// The run of a socket, from its handshake to its close.
pub struct SocketRun {
    pub stage: RunStage,
    pub protocols: Vec<String>,
    pub receiver: Receiver,
}

pub struct RunView {
    pub stage: RunStage,
    pub protocols: Seq<Seq<char>>,
    pub message: Seq<u8>,
}

impl View for SocketRun {
    type V = RunView;

    open spec fn view(&self) -> RunView {
        RunView {
            stage: self.stage,
            protocols: text::texts(self.protocols@),
            message: self.receiver.message@,
        }
    }
}

/// What the transport of a socket reports.
pub enum RunEvent {
    /// The handshake is through, or the reason it failed.
    Connected(Result<(), String>),
    /// A receive of this kind filled these bytes, or the reason it failed.
    Received(Result<(i32, Vec<u8>), String>),
    /// The peer's code, and its reason, of which so many bytes are filled.
    CloseStatus(u16, Vec<u8>, usize),
}

/// What the transport of a socket is to do next.
#[derive(Clone, Copy, PartialEq, Eq, Structural, Debug)]
pub enum RunAction {
    Receive,
    /// Ask for the peer's code and reason, and complete the closing handshake.
    QueryClose,
    Done,
}

/// Whether a report is the one that the stage waits for, and can be: no more of a reason is filled
/// than there is.
pub open spec fn awaited(stage: RunStage, event: RunEvent) -> bool {
    match stage {
        RunStage::Connecting => event is Connected,
        RunStage::Receiving => event is Received,
        RunStage::Closing => event matches RunEvent::CloseStatus(_, reason, length) && length
            <= reason@.len(),
        RunStage::Finished => false,
    }
}

/// What a socket reports once its handshake is through.
pub open spec fn opened(protocols: Seq<Seq<char>>) -> EventView {
    EventView::Open(
        if protocols.len() > 0 {
            protocols[0]
        } else {
            Seq::empty()
        },
    )
}

/// What a report leads to: the next state, what the socket reports, and what to do next. A failure
/// at any point is an error and an abnormal close; a close of the peer is a clean one.
pub open spec fn run_step(s: RunView, event: RunEvent) -> (RunView, Seq<EventView>, RunAction) {
    match event {
        RunEvent::Connected(Ok(())) => (
            RunView { stage: RunStage::Receiving, ..s },
            seq![opened(s.protocols)],
            RunAction::Receive,
        ),
        RunEvent::Connected(Err(e)) => (
            RunView { stage: RunStage::Finished, ..s },
            seq![EventView::Error(e@), broken()],
            RunAction::Done,
        ),
        RunEvent::Received(Err(e)) => (
            RunView { stage: RunStage::Finished, ..s },
            seq![EventView::Error(e@), broken()],
            RunAction::Done,
        ),
        RunEvent::Received(Ok((kind, bytes))) => {
            let (message, delivery) = received(s.message, kind, bytes@);
            match delivery {
                DeliveryView::Nothing => (RunView { message, ..s }, seq![], RunAction::Receive),
                DeliveryView::Report(e) => (RunView { message, ..s }, seq![e], RunAction::Receive),
                DeliveryView::Closing => (
                    RunView { stage: RunStage::Closing, message, ..s },
                    seq![],
                    RunAction::QueryClose,
                ),
            }
        },
        RunEvent::CloseStatus(code, reason, length) => (
            RunView { stage: RunStage::Finished, ..s },
            seq![
                EventView::Close {
                    code,
                    reason: text::read_utf8(reason@.take(length as int)),
                    clean: true,
                },
            ],
            RunAction::Done,
        ),
    }
}

impl SocketRun {
    /// A socket whose handshake is about to start, with the sub-protocols it offers.
    pub fn new(protocols: Vec<String>) -> (r: SocketRun)
        ensures
            r@ == (RunView {
                stage: RunStage::Connecting,
                protocols: text::texts(protocols@),
                message: Seq::empty(),
            }),
    {
        SocketRun { stage: RunStage::Connecting, protocols, receiver: Receiver::new() }
    }

    /// Takes in the awaited report: what the socket reports, and what to do next.
    pub fn step(&mut self, event: RunEvent) -> (r: (Vec<Event>, RunAction))
        requires
            awaited(old(self).stage, event),
        ensures
            final(self)@ == run_step(old(self)@, event).0,
            event_views(r.0@) == run_step(old(self)@, event).1,
            r.1 == run_step(old(self)@, event).2,
    {
        let mut out: Vec<Event> = Vec::new();
        match event {
            RunEvent::Connected(outcome) => match outcome {
                Ok(()) => {
                    self.stage = RunStage::Receiving;
                    out.push(open_event(&self.protocols));
                    assert(event_views(out@) =~= seq![opened(self@.protocols)]);
                    (out, RunAction::Receive)
                },
                Err(e) => {
                    self.stage = RunStage::Finished;
                    (failure_events(e), RunAction::Done)
                },
            },
            RunEvent::Received(outcome) => match outcome {
                Ok((kind, bytes)) => match self.receiver.receive(kind, bytes) {
                    Delivery::Nothing => {
                        assert(event_views(out@) =~= seq![]);
                        (out, RunAction::Receive)
                    },
                    Delivery::Report(e) => {
                        let ghost v = e@;
                        out.push(e);
                        assert(event_views(out@) =~= seq![v]);
                        (out, RunAction::Receive)
                    },
                    Delivery::Closing => {
                        self.stage = RunStage::Closing;
                        assert(event_views(out@) =~= seq![]);
                        (out, RunAction::QueryClose)
                    },
                },
                Err(e) => {
                    self.stage = RunStage::Finished;
                    (failure_events(e), RunAction::Done)
                },
            },
            RunEvent::CloseStatus(code, reason, length) => {
                self.stage = RunStage::Finished;
                let e = close_event(code, &reason, length);
                let ghost v = e@;
                out.push(e);
                assert(event_views(out@) =~= seq![v]);
                (out, RunAction::Done)
            },
        }
    }
}

/// Whether every report is the one that is awaited when it comes.
pub open spec fn all_awaited(s: RunView, events: Seq<RunEvent>) -> bool
    decreases events.len(),
{
    events.len() > 0 ==> all_awaited(s, events.drop_last()) && awaited(
        run(s, events.drop_last()).0.stage,
        events.last(),
    )
}

/// The state after reports, and all that the socket has reported by then.
pub open spec fn run(s: RunView, events: Seq<RunEvent>) -> (RunView, Seq<EventView>)
    decreases events.len(),
{
    if events.len() == 0 {
        (s, Seq::empty())
    } else {
        let (before, reported) = run(s, events.drop_last());
        let (after, more, _) = run_step(before, events.last());
        (after, reported + more)
    }
}

/// A socket that has run to its end has reported one close, and that last; one that has not ended
/// has reported none.
pub proof fn law_a_run_ends_with_its_only_close(s: RunView, events: Seq<RunEvent>)
    requires
        s.stage == RunStage::Connecting,
        all_awaited(s, events),
    ensures
        ({
            let (after, reported) = run(s, events);
            let n = reported.len() as int;
            &&& after.stage == RunStage::Finished ==> n > 0 && reported[n - 1] is Close
            &&& forall|i: int|
                0 <= i < n && (#[trigger] reported[i]) is Close ==> i == n - 1 && after.stage
                    == RunStage::Finished
        }),
    decreases events.len(),
{
    if events.len() > 0 {
        let d = events.drop_last();
        law_a_run_ends_with_its_only_close(s, d);
        let (before, reported) = run(s, d);
        let (after, more, _) = run_step(before, events.last());
        let all = reported + more;
        assert(before.stage != RunStage::Finished);
        assert forall|i: int| 0 <= i < all.len() && (#[trigger] all[i]) is Close implies i == all.len()
            - 1 && after.stage == RunStage::Finished by {
            if i < reported.len() {
                assert(reported[i] is Close);
            } else {
                assert(more[i - reported.len()] is Close);
            }
        }
        if after.stage == RunStage::Finished {
            assert(more[more.len() - 1] is Close);
            assert(all[all.len() - 1] == more[more.len() - 1]);
        }
    }
}

/// The first thing that a socket reports is that it is open, or the error that kept it from opening.
pub proof fn law_a_run_starts_with_open_or_error(s: RunView, events: Seq<RunEvent>)
    requires
        s.stage == RunStage::Connecting,
        all_awaited(s, events),
        events.len() > 0,
    ensures
        ({
            let (_, reported) = run(s, events);
            reported.len() > 0 && (reported[0] is Open || reported[0] is Error)
        }),
    decreases events.len(),
{
    let d = events.drop_last();
    if d.len() > 0 {
        law_a_run_starts_with_open_or_error(s, d);
        let (before, reported) = run(s, d);
        let (_, more, _) = run_step(before, events.last());
        assert((reported + more)[0] == reported[0]);
    } else {
        assert(run(s, d) == (s, Seq::<EventView>::empty()));
        let (_, more, _) = run_step(s, events.last());
        assert((Seq::<EventView>::empty() + more)[0] == more[0]);
    }
}

/// A value handed to `send`, by what it is to JS.
pub enum Outgoing {
    /// A string, or anything that is neither a buffer nor a view on one, as its string.
    Text(String),
    /// The bytes of a buffer or view.
    Binary(Vec<u8>),
}

/// The frame for a value: its bytes, and whether they are a text or a binary message.
pub fn frame(data: Outgoing) -> (r: (Vec<u8>, i32))
    ensures
        match data {
            Outgoing::Text(t) => r.0@ == vstd::utf8::encode_utf8(t@) && r.1 == UTF8_MESSAGE,
            Outgoing::Binary(b) => r.0@ == b@ && r.1 == BINARY_MESSAGE,
        },
{
    match data {
        Outgoing::Text(t) => (text::bytes_of(t.as_str()), UTF8_MESSAGE),
        Outgoing::Binary(b) => (b, BINARY_MESSAGE),
    }
}

/// The kinds of typed arrays, as Node-API numbers them.
pub const INT16_ARRAY: i32 = 3;

pub const UINT16_ARRAY: i32 = 4;

pub const INT32_ARRAY: i32 = 5;

pub const UINT32_ARRAY: i32 = 6;

pub const FLOAT32_ARRAY: i32 = 7;

pub const FLOAT64_ARRAY: i32 = 8;

pub const BIGINT64_ARRAY: i32 = 9;

pub const BIGUINT64_ARRAY: i32 = 10;

/// The bytes of one element of a typed array.
pub open spec fn element_bytes(kind: i32) -> int {
    if kind == INT16_ARRAY || kind == UINT16_ARRAY {
        2
    } else if kind == INT32_ARRAY || kind == UINT32_ARRAY || kind == FLOAT32_ARRAY {
        4
    } else if kind == FLOAT64_ARRAY || kind == BIGINT64_ARRAY || kind == BIGUINT64_ARRAY {
        8
    } else {
        1
    }
}

/// The bytes of one element of a typed array.
pub fn element_size(kind: i32) -> (r: usize)
    ensures
        r == element_bytes(kind),
{
    if kind == INT16_ARRAY || kind == UINT16_ARRAY {
        2
    } else if kind == INT32_ARRAY || kind == UINT32_ARRAY || kind == FLOAT32_ARRAY {
        4
    } else if kind == FLOAT64_ARRAY || kind == BIGINT64_ARRAY || kind == BIGUINT64_ARRAY {
        8
    } else {
        1
    }
}

/// What is known of a JS object that may hold bytes.
#[derive(Clone, Copy, PartialEq, Eq, Structural, Debug)]
pub enum ByteSource {
    /// An array buffer whose extent could not be read.
    UnreadableBuffer,
    /// An array buffer with so many bytes, at an address or at none.
    Buffer { addressed: bool, length: usize },
    /// A typed array whose extent could not be read.
    UnreadableArray,
    /// A typed array of this kind with so many elements.
    Array { addressed: bool, kind: i32, length: usize },
    Neither,
}

/// How many bytes an object holds: none where they cannot be reached; nothing for an object that is
/// neither a buffer nor a typed array.
pub open spec fn byte_extent(source: ByteSource) -> Option<int> {
    match source {
        ByteSource::UnreadableBuffer => Some(0),
        ByteSource::Buffer { addressed, length } => Some(
            if addressed {
                length as int
            } else {
                0
            },
        ),
        ByteSource::UnreadableArray => Some(0),
        ByteSource::Array { addressed, kind, length } => Some(
            if addressed {
                length * element_bytes(kind)
            } else {
                0
            },
        ),
        ByteSource::Neither => None,
    }
}

/// How many bytes of an ArrayBuffer or typed array are to be copied; nothing for anything else.
pub fn binary_bytes(source: ByteSource) -> (r: Option<usize>)
    requires
        byte_extent(source) matches Some(n) ==> n <= usize::MAX,
    ensures
        match r {
            Some(n) => byte_extent(source) == Some(n as int),
            None => byte_extent(source) is None,
        },
{
    match source {
        ByteSource::UnreadableBuffer => Some(0),
        ByteSource::Buffer { addressed, length } => Some(
            if addressed {
                length
            } else {
                0
            },
        ),
        ByteSource::UnreadableArray => Some(0),
        ByteSource::Array { addressed, kind, length } => if addressed {
            let size: usize = element_size(kind);
            assert(length * size == length * element_bytes(kind));
            Some(length * size)
        } else {
            Some(0)
        },
        ByteSource::Neither => None,
    }
}

/// The code of a close that JS asks for: the low sixteen bits of the number it gives, or a normal
/// close where it gives none or zero.
pub fn close_code(code: Option<u32>) -> (r: u16)
    ensures
        r as int == match code {
            Some(c) => if c > 0 {
                c as int % 0x1_0000
            } else {
                1000
            },
            None => 1000,
        },
{
    match code {
        Some(c) => if c > 0 {
            let low: u16 = #[verifier::truncate] (c as u16);
            assert(low as u32 == c % 0x1_0000) by (bit_vector)
                requires
                    low == c as u16,
            ;
            low
        } else {
            1000
        },
        None => 1000,
    }
}

/// The most bytes that the reason of a close can have.
pub const MAX_REASON: usize = 123;

/// The bytes of a reason that go into a close frame.
pub fn close_reason(reason: &str) -> (r: Vec<u8>)
    ensures
        ({
            let all = vstd::utf8::encode_utf8(reason@);
            r@ == if all.len() <= MAX_REASON {
                all
            } else {
                all.take(MAX_REASON as int)
            }
        }),
{
    let mut r = text::bytes_of(reason);
    if r.len() > MAX_REASON {
        r.truncate(MAX_REASON);
    }
    r
}

/// One argument of a callback.
pub enum Arg {
    Text(String),
    Bytes(Vec<u8>),
    Number(i32),
    Truth(bool),
}

pub enum ArgView {
    Text(Seq<char>),
    Bytes(Seq<u8>),
    Number(i32),
    Truth(bool),
}

impl View for Arg {
    type V = ArgView;

    open spec fn view(&self) -> ArgView {
        match *self {
            Arg::Text(t) => ArgView::Text(t@),
            Arg::Bytes(b) => ArgView::Bytes(b@),
            Arg::Number(n) => ArgView::Number(n),
            Arg::Truth(b) => ArgView::Truth(b),
        }
    }
}

/// The views of arguments.
pub open spec fn arg_views(args: Seq<Arg>) -> Seq<ArgView> {
    Seq::new(args.len(), |i: int| args[i]@)
}

/// The arguments by which an event reaches its callback: `('open', protocol)`, `('message', data)`,
/// `('error', message)` and `('close', code, reason, wasClean)`.
pub open spec fn args_of(event: EventView) -> Seq<ArgView> {
    match event {
        EventView::Open(p) => seq![ArgView::Text("open"@), ArgView::Text(p)],
        EventView::Text(t) => seq![ArgView::Text("message"@), ArgView::Text(t)],
        EventView::Binary(b) => seq![ArgView::Text("message"@), ArgView::Bytes(b)],
        EventView::Error(m) => seq![ArgView::Text("error"@), ArgView::Text(m)],
        EventView::Close { code, reason, clean } => seq![
            ArgView::Text("close"@),
            ArgView::Number(code as i32),
            ArgView::Text(reason),
            ArgView::Truth(clean),
        ],
    }
}

/// The arguments by which an event reaches its callback.
pub fn event_args(event: Event) -> (r: Vec<Arg>)
    ensures
        arg_views(r@) == args_of(event@),
{
    let ghost e = event@;
    let mut out: Vec<Arg> = Vec::new();
    match event {
        Event::Open(p) => {
            out.push(Arg::Text("open".to_owned()));
            out.push(Arg::Text(p));
        },
        Event::Text(t) => {
            out.push(Arg::Text("message".to_owned()));
            out.push(Arg::Text(t));
        },
        Event::Binary(b) => {
            out.push(Arg::Text("message".to_owned()));
            out.push(Arg::Bytes(b));
        },
        Event::Error(m) => {
            out.push(Arg::Text("error".to_owned()));
            out.push(Arg::Text(m));
        },
        Event::Close { code, reason, clean } => {
            out.push(Arg::Text("close".to_owned()));
            out.push(Arg::Number(code as i32));
            out.push(Arg::Text(reason));
            out.push(Arg::Truth(clean));
        },
    }
    assert(arg_views(out@) =~= args_of(e));
    out
}

/// Whether the socket functions are installed: only where the host has no socket of its own and they
/// are not there yet.
pub fn installs_websocket(host_has_one: bool, installed: bool) -> (r: bool)
    ensures
        r == !(host_has_one || installed),
{
    !host_has_one && !installed
}

/// The ids of sockets, handed out in turn.
pub struct SocketIds {
    pub next: i32,
}

impl SocketIds {
    /// The first id is one.
    pub fn new() -> (r: SocketIds)
        ensures
            r.next == 1,
    {
        SocketIds { next: 1 }
    }

    /// The next id; behind the largest number comes the smallest.
    pub fn allocate(&mut self) -> (r: i32)
        ensures
            r == old(self).next,
            final(self).next == old(self).next.wrapping_add(1),
    {
        let id: i32 = self.next;
        self.next = id.wrapping_add(1);
        id
    }
}

/// Socket ids and the callbacks that are pinned for them until their close event.
pub struct Callbacks {
    map: HashMap<i32, usize>,
}

impl View for Callbacks {
    type V = Map<i32, usize>;

    closed spec fn view(&self) -> Map<i32, usize> {
        self.map@
    }
}

impl Callbacks {
    /// No callbacks.
    pub fn new() -> (r: Callbacks)
        ensures
            r@ == Map::<i32, usize>::empty(),
    {
        Callbacks { map: HashMap::new() }
    }

    /// The callback of `id`.
    pub fn get(&self, id: i32) -> (r: Option<usize>)
        ensures
            match r {
                Some(c) => self@.contains_key(id) && self@[id] == c,
                None => !self@.contains_key(id),
            },
    {
        broadcast use vstd::std_specs::hash::group_hash_axioms;

        match self.map.get(&id) {
            Some(c) => Some(*c),
            None => None,
        }
    }

    /// Takes the callback of `id` out.
    pub fn remove(&mut self, id: i32) -> (r: Option<usize>)
        ensures
            final(self)@ == old(self)@.remove(id),
            match r {
                Some(c) => old(self)@.contains_key(id) && old(self)@[id] == c,
                None => !old(self)@.contains_key(id),
            },
    {
        broadcast use vstd::std_specs::hash::group_hash_axioms;

        self.map.remove(&id)
    }

    /// Pins `callback` for `id`, in place of the one it had.
    pub fn insert(&mut self, id: i32, callback: usize)
        ensures
            final(self)@ == old(self)@.insert(id, callback),
    {
        broadcast use vstd::std_specs::hash::group_hash_axioms;

        let _ = self.map.insert(id, callback);
    }

    /// Forgets every callback; returns the ids there were, each once, in no particular order. Their
    /// sockets are to be shut down.
    pub fn clear_thread_sockets(&mut self) -> (r: Vec<i32>)
        ensures
            final(self)@ == Map::<i32, usize>::empty(),
            r@.to_set() == old(self)@.dom(),
            r@.no_duplicates(),
    {
        broadcast use vstd::std_specs::hash::group_hash_axioms;

        let mut ids: Vec<i32> = Vec::new();
        for id in it: self.map.keys()
            invariant
                it.seq().unref().to_set() == self.map@.dom(),
                it.seq().no_duplicates(),
                ids@ == it.seq().unref().take(it.index() as int),
                it.index() == it.seq().len() ==> ids@ == it.seq().unref(),
        {
            ids.push(*id);
            proof {
                let all = it.seq().unref();
                assert(all.take(it.index() + 1) =~= all.take(it.index() as int).push(*id));
                assert(all.take(all.len() as int) =~= all);
            }
        }
        self.map.clear();
        ids
    }
}

/// One call of a callback: with these arguments, and for the last time where `last` is set.
pub struct Call {
    pub callback: usize,
    pub args: Vec<Arg>,
    pub last: bool,
}

pub struct CallView {
    pub callback: usize,
    pub args: Seq<ArgView>,
    pub last: bool,
}

impl View for Call {
    type V = CallView;

    open spec fn view(&self) -> CallView {
        CallView { callback: self.callback, args: arg_views(self.args@), last: self.last }
    }
}

/// The views of calls.
pub open spec fn call_views(calls: Seq<Call>) -> Seq<CallView> {
    Seq::new(calls.len(), |i: int| calls[i]@)
}

/// The call that an event of a socket leads to: none where the socket has no callback; a close is the
/// last call of its callback.
pub open spec fn call_for(callbacks: Map<i32, usize>, id: i32, event: EventView) -> Option<
    CallView,
> {
    if callbacks.contains_key(id) {
        Some(CallView { callback: callbacks[id], args: args_of(event), last: event is Close })
    } else {
        None
    }
}

/// The callbacks left once an event of a socket is delivered: a close lets its callback go.
pub open spec fn left_after(callbacks: Map<i32, usize>, id: i32, event: EventView) -> Map<
    i32,
    usize,
> {
    if event is Close {
        callbacks.remove(id)
    } else {
        callbacks
    }
}

impl Callbacks {
    /// The call that an event of a socket leads to. The callback stays pinned until
    /// [`Callbacks::delivered`].
    pub fn call_of(&self, id: i32, event: Event) -> (r: Option<Call>)
        ensures
            match r {
                Some(c) => call_for(self@, id, event@) == Some(c@),
                None => call_for(self@, id, event@) is None,
            },
    {
        let last = match &event {
            Event::Close { .. } => true,
            _ => false,
        };
        match self.get(id) {
            Some(callback) => Some(Call { callback, args: event_args(event), last }),
            None => None,
        }
    }

    /// Takes in that a call was made: the last one lets its callback go.
    pub fn delivered(&mut self, id: i32, last: bool)
        ensures
            final(self)@ == if last {
                old(self)@.remove(id)
            } else {
                old(self)@
            },
    {
        if last {
            let _ = self.remove(id);
        }
    }
}

/// The callbacks left after the events, and the calls they lead to: an event of a socket without
/// callback leads to none, and a close is the last call of its callback.
pub open spec fn pumped(callbacks: Map<i32, usize>, events: Seq<(i32, EventView)>) -> (
    Map<i32, usize>,
    Seq<CallView>,
)
    decreases events.len(),
{
    if events.len() == 0 {
        (callbacks, Seq::empty())
    } else {
        let (left, calls) = pumped(callbacks, events.drop_last());
        let (id, event) = events.last();
        (
            left_after(left, id, event),
            match call_for(left, id, event) {
                Some(call) => calls.push(call),
                None => calls,
            },
        )
    }
}

/// The views of queued events.
pub open spec fn queued_views(events: Seq<(i32, Event)>) -> Seq<(i32, EventView)> {
    Seq::new(events.len(), |i: int| (events[i].0, events[i].1@))
}

/// The calls that queued socket events lead to, in order, where no call changes the callbacks itself:
/// event by event what [`Callbacks::call_of`] and [`Callbacks::delivered`] say.
pub fn pump(callbacks: &mut Callbacks, events: Vec<(i32, Event)>) -> (r: Vec<Call>)
    ensures
        final(callbacks)@ == pumped(old(callbacks)@, queued_views(events@)).0,
        call_views(r@) == pumped(old(callbacks)@, queued_views(events@)).1,
{
    let ghost all = queued_views(events@);
    let ghost start = callbacks@;
    let mut out: Vec<Call> = Vec::new();
    let mut rest = events;
    let n: usize = rest.len();
    assert(call_views(out@) =~= pumped(start, all.take(0)).1);
    for i in 0..n
        invariant
            n == all.len(),
            queued_views(rest@) == all.skip(i as int),
            start == old(callbacks)@,
            callbacks@ == pumped(start, all.take(i as int)).0,
            call_views(out@) == pumped(start, all.take(i as int)).1,
    {
        assert(rest@.len() == all.skip(i as int).len());
        assert(queued_views(rest@)[0] == all[i as int]);
        let ghost before = rest@;
        let (id, event) = rest.remove(0);
        proof {
            assert(queued_views(rest@) =~= queued_views(before).drop_first());
            assert(all.skip(i as int).drop_first() =~= all.skip(i + 1));
            assert(all.take(i + 1).drop_last() =~= all.take(i as int));
            assert(all.take(i + 1).last() == (id, event@));
        }
        let ghost left = callbacks@;
        if let Some(call) = callbacks.call_of(id, event) {
            callbacks.delivered(id, call.last);
            let ghost was = out@;
            let ghost view = call@;
            out.push(call);
            assert(call_views(out@) =~= call_views(was).push(view));
        } else {
            assert(left.remove(id) =~= left);
        }
    }
    assert(all.take(n as int) =~= all);
    out
}

/// Behind a close nothing of that socket is delivered: events that follow one lead to the same calls
/// as if they were not there.
pub proof fn law_close_is_the_last_call(
    callbacks: Map<i32, usize>,
    before: Seq<(i32, EventView)>,
    close: EventView,
    after: Seq<EventView>,
    id: i32,
)
    requires
        close is Close,
    ensures
        ({
            let closed = before.push((id, close));
            let late = Seq::new(after.len(), |i: int| (id, after[i]));
            pumped(callbacks, closed + late) == pumped(callbacks, closed)
        }),
    decreases after.len(),
{
    let closed = before.push((id, close));
    let late = Seq::new(after.len(), |i: int| (id, after[i]));
    assert(closed.drop_last() =~= before);
    if after.len() == 0 {
        assert(closed + late =~= closed);
    } else {
        let fewer = after.drop_last();
        law_close_is_the_last_call(callbacks, before, close, fewer, id);
        assert((closed + late).drop_last() =~= closed + Seq::new(
            fewer.len(),
            |i: int| (id, fewer[i]),
        ));
        assert((closed + late).last() == (id, after.last()));
        assert(!pumped(callbacks, closed).0.contains_key(id));
    }
}

/// The calls come in the order of the events: a prefix of the events leads to a prefix of the calls.
pub proof fn law_calls_come_in_event_order(
    callbacks: Map<i32, usize>,
    events: Seq<(i32, EventView)>,
    n: int,
)
    requires
        0 <= n <= events.len(),
    ensures
        pumped(callbacks, events.take(n)).1.is_prefix_of(pumped(callbacks, events).1),
    decreases events.len(),
{
    if n == events.len() {
        assert(events.take(n) =~= events);
        assert(pumped(callbacks, events).1.is_prefix_of(pumped(callbacks, events).1)) by {
            let c = pumped(callbacks, events).1;
            assert(c.subrange(0, c.len() as int) =~= c);
        }
    } else {
        let d = events.drop_last();
        law_calls_come_in_event_order(callbacks, d, n);
        assert(d.take(n) =~= events.take(n));
        let a = pumped(callbacks, events.take(n)).1;
        let b = pumped(callbacks, d).1;
        let c = pumped(callbacks, events).1;
        assert(c.subrange(0, a.len() as int) =~= b.subrange(0, a.len() as int));
    }
}

/// What a frame does by its kind: a last frame reports the message, its bytes behind those of the
/// fragments before it, as text or as bytes; a fragment is kept; a close frame is for asking why.
pub proof fn law_frames_go_by_their_kind(message: Seq<u8>, kind: i32, bytes: Seq<u8>)
    ensures
        received(message, 0, bytes) == (
            Seq::<u8>::empty(),
            DeliveryView::Report(EventView::Binary(message + bytes)),
        ),
        received(message, 2, bytes) == (
            Seq::<u8>::empty(),
            DeliveryView::Report(EventView::Text(text::read_utf8(message + bytes))),
        ),
        received(message, 4, bytes) == (message + bytes, DeliveryView::Closing),
        kind != 0 && kind != 2 && kind != 4 ==> received(message, kind, bytes) == (
            message + bytes,
            DeliveryView::Nothing,
        ),
{
}

/// Joined parts stand one behind the other.
pub proof fn law_parts_are_joined_in_order(parts: Seq<Seq<u8>>)
    ensures
        parts_joined(parts) == parts.flatten(),
    decreases parts.len(),
{
    if parts.len() == 0 {
        assert(parts_joined(parts) =~= parts.flatten());
    } else {
        law_parts_are_joined_in_order(parts.drop_last());
        assert(parts =~= parts.drop_last().push(parts.last()));
        parts.drop_last().lemma_flatten_push(parts.last());
    }
}

/// A connection reports that it is open, with the first protocol that was asked for; a failure, then
/// or later, reports the error and an abnormal close; a close frame reports the code and the reason
/// that came with it, and is clean.
#[verifier::rlimit(40)]
pub proof fn law_runs_report_what_happens(
    s: RunView,
    e: String,
    kind: i32,
    bytes: Vec<u8>,
    code: u16,
    reason: Vec<u8>,
    length: usize,
)
    ensures
        run_step(s, RunEvent::Connected(Ok(()))) == (
            RunView { stage: RunStage::Receiving, ..s },
            seq![
                EventView::Open(
                    if s.protocols.len() > 0 {
                        s.protocols[0]
                    } else {
                        Seq::empty()
                    },
                ),
            ],
            RunAction::Receive,
        ),
        run_step(s, RunEvent::Connected(Err(e))) == (
            RunView { stage: RunStage::Finished, ..s },
            seq![
                EventView::Error(e@),
                EventView::Close { code: 1006, reason: Seq::empty(), clean: false },
            ],
            RunAction::Done,
        ),
        run_step(s, RunEvent::Received(Err(e))) == run_step(s, RunEvent::Connected(Err(e))),
        run_step(s, RunEvent::Received(Ok((kind, bytes)))).0.message == received(
            s.message,
            kind,
            bytes@,
        ).0,
        run_step(s, RunEvent::Received(Ok((kind, bytes)))).0.protocols == s.protocols,
        kind == 4 ==> run_step(s, RunEvent::Received(Ok((kind, bytes)))).1.len() == 0 && run_step(
            s,
            RunEvent::Received(Ok((kind, bytes))),
        ).2 == RunAction::QueryClose && run_step(
            s,
            RunEvent::Received(Ok((kind, bytes))),
        ).0.stage == RunStage::Closing,
        kind != 4 ==> run_step(s, RunEvent::Received(Ok((kind, bytes)))).2 == RunAction::Receive
            && run_step(s, RunEvent::Received(Ok((kind, bytes)))).0.stage == s.stage,
        kind == 0 ==> run_step(s, RunEvent::Received(Ok((kind, bytes)))).1 == seq![
            EventView::Binary(s.message + bytes@),
        ],
        kind == 2 ==> run_step(s, RunEvent::Received(Ok((kind, bytes)))).1 == seq![
            EventView::Text(text::read_utf8(s.message + bytes@)),
        ],
        kind != 0 && kind != 2 ==> run_step(s, RunEvent::Received(Ok((kind, bytes)))).1.len() == 0,
        run_step(s, RunEvent::CloseStatus(code, reason, length)) == (
            RunView { stage: RunStage::Finished, ..s },
            seq![
                EventView::Close {
                    code,
                    reason: text::read_utf8(reason@.take(length as int)),
                    clean: true,
                },
            ],
            RunAction::Done,
        ),
{
    law_frames_go_by_their_kind(s.message, kind, bytes@);
}

/// Each stage of a run waits for its own event.
pub proof fn law_stages_wait_for_their_events(stage: RunStage, event: RunEvent)
    ensures
        awaited(stage, event) <==> match event {
            RunEvent::Connected(_) => stage == RunStage::Connecting,
            RunEvent::Received(_) => stage == RunStage::Receiving,
            RunEvent::CloseStatus(_, reason, length) => stage == RunStage::Closing && length
                <= reason@.len(),
        },
{
}

/// The bytes of one element of a typed array: two for sixteen bits, four for thirty-two, eight for
/// sixty-four, and one otherwise.
pub proof fn law_elements_have_their_size(kind: i32)
    ensures
        kind == 3 || kind == 4 ==> element_bytes(kind) == 2,
        kind == 5 || kind == 6 || kind == 7 ==> element_bytes(kind) == 4,
        kind == 8 || kind == 9 || kind == 10 ==> element_bytes(kind) == 8,
        kind < 3 || kind > 10 ==> element_bytes(kind) == 1,
{
}

/// The bytes of a buffer are as many as its length, those of a typed array as many as its elements
/// have together; what cannot be read, or has no address, has none; and anything else is no bytes.
pub proof fn law_extents_are_in_bytes(length: usize, kind: i32)
    ensures
        byte_extent(ByteSource::UnreadableBuffer) == Some(0int),
        byte_extent(ByteSource::UnreadableArray) == Some(0int),
        byte_extent(ByteSource::Neither) is None,
        byte_extent(ByteSource::Buffer { addressed: true, length }) == Some(length as int),
        byte_extent(ByteSource::Buffer { addressed: false, length }) == Some(0int),
        byte_extent(ByteSource::Array { addressed: true, kind, length }) == Some(
            length * element_bytes(kind),
        ),
        byte_extent(ByteSource::Array { addressed: false, kind, length }) == Some(0int),
{
}

/// What a callback is handed for an event: its type, and what it carries.
pub proof fn law_callbacks_are_handed_what_happened(
    t: Seq<char>,
    b: Seq<u8>,
    code: u16,
    clean: bool,
)
    ensures
        args_of(EventView::Open(t)) == seq![ArgView::Text("open"@), ArgView::Text(t)],
        args_of(EventView::Text(t)) == seq![ArgView::Text("message"@), ArgView::Text(t)],
        args_of(EventView::Binary(b)) == seq![ArgView::Text("message"@), ArgView::Bytes(b)],
        args_of(EventView::Error(t)) == seq![ArgView::Text("error"@), ArgView::Text(t)],
        args_of(EventView::Close { code, reason: t, clean }) == seq![
            ArgView::Text("close"@),
            ArgView::Number(code as i32),
            ArgView::Text(t),
            ArgView::Truth(clean),
        ],
{
}

/// An event calls the callback of its socket, if there is one, and that of no other; a close takes the
/// callback away, and nothing else does.
pub proof fn law_events_call_their_own_socket(
    callbacks: Map<i32, usize>,
    events: Seq<(i32, EventView)>,
    id: i32,
    event: EventView,
)
    ensures
        pumped(callbacks, Seq::empty()) == (callbacks, Seq::<CallView>::empty()),
        ({
            let (left, calls) = pumped(callbacks, events);
            let (after, more) = pumped(callbacks, events.push((id, event)));
            &&& left.contains_key(id) ==> more == calls.push(
                CallView { callback: left[id], args: args_of(event), last: event is Close },
            )
            &&& !left.contains_key(id) ==> more == calls
            &&& event is Close ==> after == left.remove(id)
            &&& !(event is Close) ==> after == left
        }),
{
    assert(events.push((id, event)).drop_last() =~= events);
}

/// Events, arguments and calls read field by field.
pub proof fn law_events_read_field_by_field(
    e: Event,
    a: Arg,
    call: Call,
    events: Seq<(i32, Event)>,
    i: int,
)
    ensures
        e matches Event::Open(p) ==> e@ == EventView::Open(p@),
        e matches Event::Text(t) ==> e@ == EventView::Text(t@),
        e matches Event::Binary(b) ==> e@ == EventView::Binary(b@),
        e matches Event::Error(m) ==> e@ == EventView::Error(m@),
        e matches Event::Close { code, reason, clean } ==> e@ == (EventView::Close {
            code,
            reason: reason@,
            clean,
        }),
        a matches Arg::Text(t) ==> a@ == ArgView::Text(t@),
        a matches Arg::Bytes(b) ==> a@ == ArgView::Bytes(b@),
        a matches Arg::Number(n) ==> a@ == ArgView::Number(n),
        a matches Arg::Truth(b) ==> a@ == ArgView::Truth(b),
        call@.callback == call.callback,
        call@.last == call.last,
        call@.args.len() == call.args@.len(),
        0 <= i < call.args@.len() ==> call@.args[i] == call.args@[i]@,
        queued_views(events).len() == events.len(),
        0 <= i < events.len() ==> queued_views(events)[i] == (events[i].0, events[i].1@),
{
}

/// The kinds of frames are those of WinHTTP, and a reason has at most so many bytes that a close frame
/// holds it beside its code.
pub proof fn law_frames_are_those_of_the_protocol()
    ensures
        BINARY_MESSAGE == 0,
        BINARY_FRAGMENT == 1,
        UTF8_MESSAGE == 2,
        UTF8_FRAGMENT == 3,
        CLOSE == 4,
        MAX_REASON + 2 == 125,
{
}

/// Lists of events, arguments and calls are read place by place.
pub proof fn law_lists_are_read_place_by_place(
    events: Seq<Event>,
    args: Seq<Arg>,
    calls: Seq<Call>,
    i: int,
)
    ensures
        event_views(events).len() == events.len(),
        0 <= i < events.len() ==> event_views(events)[i] == events[i]@,
        arg_views(args).len() == args.len(),
        0 <= i < args.len() ==> arg_views(args)[i] == args[i]@,
        call_views(calls).len() == calls.len(),
        0 <= i < calls.len() ==> call_views(calls)[i] == calls[i]@,
{
}

/// A run and a delivery read field by field.
pub proof fn law_runs_read_field_by_field(run: SocketRun, d: Delivery)
    ensures
        run@.stage == run.stage,
        run@.protocols == text::texts(run.protocols@),
        run@.message == run.receiver.message@,
        d is Nothing <==> d@ is Nothing,
        d is Closing <==> d@ is Closing,
        d matches Delivery::Report(e) ==> d@ == DeliveryView::Report(e@),
{
}

/// A text goes out as its bytes in one text message, bytes as they are in one binary message.
pub proof fn law_messages_go_out_whole(data: Outgoing, r: (Vec<u8>, i32))
    requires
        call_ensures(frame, (data,), r),
    ensures
        data matches Outgoing::Text(t) ==> r.1 == 2 && text::read_utf8(r.0@) == t@ && r.0@
            == vstd::utf8::encode_utf8(t@),
        data matches Outgoing::Binary(b) ==> r.1 == 0 && r.0@ == b@,
{
    if let Outgoing::Text(t) = data {
        text::lemma_read_encoded(t@);
    }
}

/// A close has the low sixteen bits of the code that was asked for, and is normal where none was.
pub proof fn law_closes_have_the_code_asked_for(code: Option<u32>, r: u16)
    requires
        call_ensures(close_code, (code,), r),
    ensures
        code is None || code == Some(0u32) ==> r == 1000,
        code matches Some(c) ==> (c > 0 ==> (c - r) % 65536 == 0),
        code matches Some(c) ==> (0 < c < 65536 ==> r == c),
{
}

/// The reason of a close is its bytes, a hundred and twenty-three of them at most.
pub proof fn law_reasons_are_cut_to_fit(reason: &str, r: Vec<u8>)
    requires
        call_ensures(close_reason, (reason,), r),
    ensures
        r@ == vstd::utf8::encode_utf8(reason@).take(
            vstd::math::min(vstd::utf8::encode_utf8(reason@).len() as int, 123),
        ),
{
    let all = vstd::utf8::encode_utf8(reason@);
    assert(all.take(all.len() as int) =~= all);
}

/// A close that came has the code and the reason that came, and is clean; a failure is reported, and
/// an abnormal close behind it; an opening has the first protocol asked for.
pub proof fn law_events_say_what_came(
    code: u16,
    reason: &Vec<u8>,
    length: usize,
    close: Event,
    message: String,
    failure: Vec<Event>,
    protocols: &Vec<String>,
    open: Event,
)
    requires
        call_ensures(close_event, (code, reason, length), close),
        call_ensures(failure_events, (message,), failure),
        call_ensures(open_event, (protocols,), open),
    ensures
        close@ == (EventView::Close {
            code,
            reason: text::read_utf8(reason@.take(length as int)),
            clean: true,
        }),
        failure@.len() == 2,
        failure@[0]@ == EventView::Error(message@),
        failure@[1]@ == (EventView::Close { code: 1006, reason: Seq::empty(), clean: false }),
        protocols@.len() > 0 ==> open@ == EventView::Open(protocols@[0]@),
        protocols@.len() == 0 ==> open@ == EventView::Open(Seq::empty()),
{
    let v = event_views(failure@);
    assert(v == seq![EventView::Error(message@), broken()]);
    assert(v.len() == failure@.len());
    assert(v[0] == failure@[0]@);
    assert(v[1] == failure@[1]@);
}

/// A WebSocket is installed once, and not where the host has its own.
pub proof fn law_websockets_are_installed_once(host_has_one: bool, installed: bool, r: bool)
    requires
        call_ensures(installs_websocket, (host_has_one, installed), r),
    ensures
        r <==> !host_has_one && !installed,
{
}

/// Sockets are numbered from one, each with the number behind the last.
pub proof fn law_sockets_are_numbered(made: SocketIds, ids: &mut SocketIds, r: i32)
    requires
        call_ensures(SocketIds::new, (), made),
        call_ensures(SocketIds::allocate, (ids,), r),
    ensures
        made.next == 1,
        r == old(ids).next,
        old(ids).next < i32::MAX ==> final(ids).next == r + 1,
{
}

/// A run starts by connecting, with the protocols it is given and no message begun.
pub proof fn law_runs_start_by_connecting(protocols: Vec<String>, r: SocketRun)
    requires
        call_ensures(SocketRun::new, (protocols,), r),
    ensures
        r.stage == RunStage::Connecting,
        text::texts(r.protocols@) == text::texts(protocols@),
        r.receiver.message@.len() == 0,
{
    assert(r@.message == r.receiver.message@);
}

/// Clearing a thread's sockets forgets every callback and names each socket once.
pub proof fn law_cleared_sockets_are_named(callbacks: &mut Callbacks, r: Vec<i32>, id: i32)
    requires
        call_ensures(Callbacks::clear_thread_sockets, (callbacks,), r),
    ensures
        !final(callbacks)@.contains_key(id),
        r@.contains(id) <==> old(callbacks)@.contains_key(id),
        r@.no_duplicates(),
{
    assert(r@.to_set().contains(id) <==> r@.contains(id));
}

/// The last call of a socket takes its callback away; no other call does.
pub proof fn law_last_calls_take_the_callback(
    callbacks: &mut Callbacks,
    id: i32,
    last: bool,
    other: i32,
)
    requires
        call_ensures(Callbacks::delivered, (callbacks, id, last), ()),
    ensures
        last ==> !final(callbacks)@.contains_key(id),
        !last ==> final(callbacks)@ == old(callbacks)@,
        other != id && old(callbacks)@.contains_key(other) ==> final(callbacks)@.contains_key(other)
            && final(callbacks)@[other] == old(callbacks)@[other],
{
}

/// How many bytes are copied from what JS hands over.
pub proof fn law_buffers_are_copied_in_full(
    length: usize,
    kind: i32,
    buffer: Option<usize>,
    array: Option<usize>,
    neither: Option<usize>,
    size: usize,
)
    requires
        call_ensures(binary_bytes, (ByteSource::Buffer { addressed: true, length },), buffer),
        call_ensures(binary_bytes, (ByteSource::Array { addressed: true, kind, length },), array),
        call_ensures(binary_bytes, (ByteSource::Neither,), neither),
        call_ensures(element_size, (kind,), size),
    ensures
        buffer == Some(length),
        array matches Some(n) && n == length * size,
        neither is None,
        size == (if kind == 3 || kind == 4 {
            2usize
        } else if 5 <= kind <= 7 {
            4usize
        } else if 8 <= kind <= 10 {
            8usize
        } else {
            1usize
        }),
{
    law_elements_have_their_size(kind);
    law_extents_are_in_bytes(length, kind);
}

/// An event calls the callback of its own socket with what it carries, and is the last exactly where
/// it is a close.
pub proof fn law_calls_are_of_the_socket(
    callbacks: &Callbacks,
    id: i32,
    event: Event,
    r: Option<Call>,
    args: Vec<Arg>,
)
    requires
        call_ensures(Callbacks::call_of, (callbacks, id, event), r),
        call_ensures(event_args, (event,), args),
    ensures
        r is Some <==> callbacks@.contains_key(id),
        r matches Some(call) ==> call.callback == callbacks@[id] && (call.last <==> event is Close)
            && arg_views(call.args@) == arg_views(args@),
{
    if let Some(call) = r {
        assert(call@.args == arg_views(call.args@));
    }
}

/// What a receiver reports for a frame, and what it keeps.
pub proof fn law_receivers_put_fragments_together(
    receiver: &mut Receiver,
    kind: i32,
    bytes: Vec<u8>,
    r: Delivery,
)
    requires
        call_ensures(Receiver::receive, (receiver, kind, bytes), r),
    ensures
        kind == 0 ==> r@ == DeliveryView::Report(
            EventView::Binary(old(receiver).message@ + bytes@),
        ),
        kind == 2 ==> r@ == DeliveryView::Report(
            EventView::Text(text::read_utf8(old(receiver).message@ + bytes@)),
        ),
        kind == 0 || kind == 2 ==> final(receiver).message@.len() == 0,
        kind != 0 && kind != 2 ==> final(receiver).message@ == old(receiver).message@ + bytes@,
        r is Closing <==> kind == 4,
        r is Nothing <==> kind != 0 && kind != 2 && kind != 4,
{
    law_frames_go_by_their_kind(old(receiver).message@, kind, bytes@);
}

/// What a run reports and does next, and that its protocols stay.
#[verifier::rlimit(40)]
pub proof fn law_runs_step_as_stated(
    run: &mut SocketRun,
    event: RunEvent,
    r: (Vec<Event>, RunAction),
)
    requires
        call_ensures(SocketRun::step, (run, event), r),
    ensures
        event matches RunEvent::Connected(Ok(())) ==> r.1 == RunAction::Receive && r.0@.len() == 1
            && r.0@[0] is Open && final(run).stage == RunStage::Receiving,
        event matches RunEvent::Connected(Err(e)) ==> r.1 == RunAction::Done && r.0@.len() == 2
            && r.0@[0]@ == EventView::Error(e@) && r.0@[1] is Close && final(run).stage
            == RunStage::Finished,
        event matches RunEvent::Received(Err(e)) ==> r.1 == RunAction::Done && r.0@.len() == 2
            && r.0@[0]@ == EventView::Error(e@) && r.0@[1] is Close && final(run).stage
            == RunStage::Finished,
        event is CloseStatus ==> r.1 == RunAction::Done && r.0@.len() == 1 && r.0@[0] is Close
            && final(run).stage == RunStage::Finished,
        event matches RunEvent::Received(Ok((kind, bytes))) ==> (r.1 == RunAction::QueryClose
            <==> kind == 4),
        event matches RunEvent::Received(Ok((kind, bytes))) ==> (r.0@.len() == 1 <==> kind == 0
            || kind == 2),
{
    let v = event_views(r.0@);
    assert(v == run_step(old(run)@, event).1);
    assert(v.len() == r.0@.len());
    if v.len() > 0 {
        assert(v[0] == r.0@[0]@);
    }
    if v.len() > 1 {
        assert(v[1] == r.0@[1]@);
    }
    if let RunEvent::Received(Ok((kind, bytes))) = event {
        law_frames_go_by_their_kind(old(run)@.message, kind, bytes@);
    }
}

/// A pump makes one call for each event whose socket still has a callback then, in order, and takes
/// away the callbacks of closed sockets.
#[verifier::rlimit(40)]
pub proof fn law_pumps_call_in_order(
    callbacks: &mut Callbacks,
    events: Vec<(i32, Event)>,
    r: Vec<Call>,
)
    requires
        call_ensures(pump, (callbacks, events), r),
    ensures
        events@.len() == 0 ==> r@.len() == 0 && final(callbacks)@ == old(callbacks)@,
        events@.len() == 1 && old(callbacks)@.contains_key(events@[0].0) ==> r@.len() == 1
            && r@[0].callback == old(callbacks)@[events@[0].0] && (r@[0].last
            <==> events@[0].1 is Close) && arg_views(r@[0].args@) == args_of(events@[0].1@),
        events@.len() == 1 && !old(callbacks)@.contains_key(events@[0].0) ==> r@.len() == 0,
        call_views(r@) == pumped(old(callbacks)@, queued_views(events@)).1,
        final(callbacks)@ == pumped(old(callbacks)@, queued_views(events@)).0,
{
    let q = queued_views(events@);
    let none = Seq::<(i32, EventView)>::empty();
    assert(call_views(r@).len() == r@.len());
    if events@.len() == 0 {
        assert(q =~= none);
        law_events_call_their_own_socket(old(callbacks)@, none, 0, broken());
    } else if events@.len() == 1 {
        assert(q =~= none.push(q[0]));
        law_events_call_their_own_socket(old(callbacks)@, none, q[0].0, q[0].1);
        if r@.len() > 0 {
            assert(call_views(r@)[0] == r@[0]@);
        }
    }
}

/// A callback is found, replaced and taken away by its socket's number alone.
pub proof fn law_callbacks_go_by_their_number(
    callbacks: &mut Callbacks,
    id: i32,
    callback: usize,
    other: i32,
)
    requires
        call_ensures(Callbacks::insert, (callbacks, id, callback), ()),
    ensures
        final(callbacks)@.contains_key(id),
        final(callbacks)@[id] == callback,
        other != id ==> (final(callbacks)@.contains_key(other) <==> old(callbacks)@.contains_key(
            other,
        )),
        other != id && old(callbacks)@.contains_key(other) ==> final(callbacks)@[other]
            == old(callbacks)@[other],
{
}

/// A callback that is taken away is handed out and gone.
pub proof fn law_removed_callbacks_are_handed_out(
    callbacks: &mut Callbacks,
    id: i32,
    r: Option<usize>,
    other: i32,
)
    requires
        call_ensures(Callbacks::remove, (callbacks, id), r),
    ensures
        r is Some <==> old(callbacks)@.contains_key(id),
        r matches Some(c) ==> c == old(callbacks)@[id],
        !final(callbacks)@.contains_key(id),
        other != id && old(callbacks)@.contains_key(other) ==> final(callbacks)@.contains_key(other)
            && final(callbacks)@[other] == old(callbacks)@[other],
{
}

/// The numbers of sockets go round at the end of their range.
pub proof fn law_socket_numbers_go_round(ids: &mut SocketIds, r: i32)
    requires
        call_ensures(SocketIds::allocate, (ids,), r),
    ensures
        r == i32::MAX ==> final(ids).next == i32::MIN,
        r < i32::MAX ==> final(ids).next == r + 1,
{
}

} // verus!
