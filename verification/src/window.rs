//! Input and lifecycle events of a plain top-level window: decoded from its messages, queued, and
//! drained by polls.

use std::collections::HashMap;
use vstd::prelude::*;

verus! {

/// One input or lifecycle event. Coordinates are client-area pixels.
#[derive(Clone, Copy, PartialEq, Eq, Structural, Debug)]
pub enum WindowEvent {
    PointerDown { x: i32, y: i32, button: u32 },
    PointerUp { x: i32, y: i32 },
    PointerMove { x: i32, y: i32 },
    Resize { width: i32, height: i32 },
    Close,
}

pub const WM_DESTROY: u32 = 0x0002;

pub const WM_SIZE: u32 = 0x0005;

pub const WM_MOUSEMOVE: u32 = 0x0200;

pub const WM_LBUTTONDOWN: u32 = 0x0201;

pub const WM_LBUTTONUP: u32 = 0x0202;

pub const WM_RBUTTONDOWN: u32 = 0x0204;

/// The low sixteen bits of `v`, read as a two's complement number.
pub open spec fn signed_word(v: int) -> int {
    if v % 0x1_0000 < 0x8000 {
        v % 0x1_0000
    } else {
        v % 0x1_0000 - 0x1_0000
    }
}

/// The two coordinates that a message parameter packs: the low word and the next one, both signed.
pub open spec fn point(lparam: isize) -> (int, int) {
    (signed_word(lparam as int), signed_word(lparam as int / 0x1_0000))
}

/// The two coordinates that a message parameter packs.
pub fn point_from_lparam(lparam: isize) -> (r: (i32, i32))
    ensures
        (r.0 as int, r.1 as int) == point(lparam),
{
    let wide: i64 = lparam as i64;
    let v: u32 = #[verifier::truncate] (wide as u32);
    let low: u16 = #[verifier::truncate] (v as u16);
    let high: u16 = #[verifier::truncate] ((v >> 16) as u16);
    let x: i16 = #[verifier::truncate] (low as i16);
    let y: i16 = #[verifier::truncate] (high as i16);
    proof {
        let w: u64 = wide as u64;
        assert(w as int == if wide >= 0 {
            wide as int
        } else {
            wide + 0x1_0000_0000_0000_0000
        }) by (bit_vector)
            requires
                w == wide as u64,
        ;
        assert(v as u64 == w % 0x1_0000_0000) by (bit_vector)
            requires
                v == wide as u32,
                w == wide as u64,
        ;
        assert(low as u32 == v % 0x1_0000 && high as u32 == v / 0x1_0000) by (bit_vector)
            requires
                low == v as u16,
                high == (v >> 16) as u16,
        ;
        assert(x as int == if low < 0x8000 {
            low as int
        } else {
            low - 0x1_0000
        }) by (bit_vector)
            requires
                x == low as i16,
        ;
        assert(y as int == if high < 0x8000 {
            high as int
        } else {
            high - 0x1_0000
        }) by (bit_vector)
            requires
                y == high as i16,
        ;
        lemma_words(wide as int, w as int, v as int);
    }
    (x as i32, y as i32)
}

/// The words of a number are those of what is left of it below a power of two.
proof fn lemma_words(wide: int, w: int, v: int)
    requires
        w == wide || w == wide + 0x1_0000_0000_0000_0000,
        v == w % 0x1_0000_0000,
    ensures
        v % 0x1_0000 == wide % 0x1_0000,
        (v / 0x1_0000) % 0x1_0000 == (wide / 0x1_0000) % 0x1_0000,
        0 <= v / 0x1_0000 < 0x1_0000,
{
}

/// The event that a window message reports, if it reports one.
pub open spec fn event_of(msg: u32, lparam: isize) -> Option<WindowEvent> {
    let (a, b) = point(lparam);
    if msg == WM_LBUTTONDOWN {
        Some(WindowEvent::PointerDown { x: a as i32, y: b as i32, button: 0 })
    } else if msg == WM_RBUTTONDOWN {
        Some(WindowEvent::PointerDown { x: a as i32, y: b as i32, button: 2 })
    } else if msg == WM_LBUTTONUP {
        Some(WindowEvent::PointerUp { x: a as i32, y: b as i32 })
    } else if msg == WM_MOUSEMOVE {
        Some(WindowEvent::PointerMove { x: a as i32, y: b as i32 })
    } else if msg == WM_SIZE {
        Some(WindowEvent::Resize { width: a as i32, height: b as i32 })
    } else if msg == WM_DESTROY {
        Some(WindowEvent::Close)
    } else {
        None
    }
}

/// The event that a window message reports, if it reports one.
pub fn decode_message(msg: u32, lparam: isize) -> (r: Option<WindowEvent>)
    ensures
        r == event_of(msg, lparam),
{
    let (a, b) = point_from_lparam(lparam);
    if msg == WM_LBUTTONDOWN {
        Some(WindowEvent::PointerDown { x: a, y: b, button: 0 })
    } else if msg == WM_RBUTTONDOWN {
        Some(WindowEvent::PointerDown { x: a, y: b, button: 2 })
    } else if msg == WM_LBUTTONUP {
        Some(WindowEvent::PointerUp { x: a, y: b })
    } else if msg == WM_MOUSEMOVE {
        Some(WindowEvent::PointerMove { x: a, y: b })
    } else if msg == WM_SIZE {
        Some(WindowEvent::Resize { width: a, height: b })
    } else if msg == WM_DESTROY {
        Some(WindowEvent::Close)
    } else {
        None
    }
}

/// A queue with one more event. A move replaces a move right before it: a poll wants the latest
/// pointer position, not every intermediate one.
pub open spec fn queued(queue: Seq<WindowEvent>, event: WindowEvent) -> Seq<WindowEvent> {
    if event is PointerMove && queue.len() > 0 && queue.last() is PointerMove {
        queue.drop_last().push(event)
    } else {
        queue.push(event)
    }
}

/// Whether a close is among the events.
pub open spec fn has_close(events: Seq<WindowEvent>) -> bool {
    exists|i: int| 0 <= i < events.len() && #[trigger] events[i] == WindowEvent::Close
}

/// The events of windows that have not been polled yet, by window handle.
pub struct WindowQueues {
    map: HashMap<isize, Vec<WindowEvent>>,
}

impl View for WindowQueues {
    type V = Map<isize, Seq<WindowEvent>>;

    closed spec fn view(&self) -> Map<isize, Seq<WindowEvent>> {
        self.map@.map_values(|v: Vec<WindowEvent>| v@)
    }
}

/// What is queued for a window; nothing for a window that is not known.
pub open spec fn queue_of(m: Map<isize, Seq<WindowEvent>>, hwnd: isize) -> Seq<WindowEvent> {
    if m.contains_key(hwnd) {
        m[hwnd]
    } else {
        Seq::empty()
    }
}

impl WindowQueues {
    /// No windows.
    pub fn new() -> (r: WindowQueues)
        ensures
            r@ == Map::<isize, Seq<WindowEvent>>::empty(),
    {
        let r = WindowQueues { map: HashMap::new() };
        assert(r@ =~= Map::<isize, Seq<WindowEvent>>::empty());
        r
    }

    /// A window was created: its events are queued from here on.
    pub fn create_window(&mut self, hwnd: isize)
        ensures
            final(self)@ == old(self)@.insert(hwnd, Seq::empty()),
    {
        broadcast use vstd::std_specs::hash::group_hash_axioms;

        let _ = self.map.insert(hwnd, Vec::new());
        assert(self@ =~= old(self)@.insert(hwnd, Seq::empty()));
    }

    /// Queues an event of a window; an event of a window that is not known is dropped.
    pub fn push_event(&mut self, hwnd: isize, event: WindowEvent)
        ensures
            final(self)@ == if old(self)@.contains_key(hwnd) {
                old(self)@.insert(hwnd, queued(old(self)@[hwnd], event))
            } else {
                old(self)@
            },
    {
        broadcast use vstd::std_specs::hash::group_hash_axioms;

        let mut queue = match self.map.remove(&hwnd) {
            Some(q) => q,
            None => {
                assert(self@ =~= old(self)@);
                return ;
            },
        };
        let ghost before = queue@;
        let n: usize = queue.len();
        let coalesce = match event {
            WindowEvent::PointerMove { .. } => n > 0 && (match queue[n - 1] {
                WindowEvent::PointerMove { .. } => true,
                _ => false,
            }),
            _ => false,
        };
        if coalesce {
            let _ = queue.pop();
            assert(queue@ =~= before.drop_last());
        }
        queue.push(event);
        assert(queue@ == queued(before, event));
        let _ = self.map.insert(hwnd, queue);
        assert(self@ =~= old(self)@.insert(hwnd, queued(before, event)));
    }

    /// Drains the events queued for a window since the last poll. A window that has been closed is
    /// forgotten with that.
    pub fn poll_window_events(&mut self, hwnd: isize) -> (r: Vec<WindowEvent>)
        ensures
            r@ == queue_of(old(self)@, hwnd),
            final(self)@ == if !old(self)@.contains_key(hwnd) {
                old(self)@
            } else if has_close(r@) {
                old(self)@.remove(hwnd)
            } else {
                old(self)@.insert(hwnd, Seq::empty())
            },
    {
        broadcast use vstd::std_specs::hash::group_hash_axioms;

        let drained = match self.map.remove(&hwnd) {
            Some(q) => q,
            None => {
                assert(self@ =~= old(self)@);
                return Vec::new();
            },
        };
        let mut closed = false;
        for i in 0..drained.len()
            invariant
                closed == (exists|j: int| 0 <= j < i && #[trigger] drained@[j] == WindowEvent::Close),
        {
            if drained[i] == WindowEvent::Close {
                closed = true;
            }
        }
        assert(closed == has_close(drained@));
        assert(self@ =~= old(self)@.remove(hwnd));
        if !closed {
            let _ = self.map.insert(hwnd, Vec::new());
            assert(self@ =~= old(self)@.insert(hwnd, Seq::empty()));
        }
        drained
    }
}

/// How an event is shown to JS: its `type`, and its other members.
pub open spec fn shown(event: WindowEvent) -> (Seq<char>, Seq<(Seq<char>, i32)>) {
    match event {
        WindowEvent::PointerDown { x, y, button } => (
            "pointerdown"@,
            seq![("x"@, x), ("y"@, y), ("button"@, button as i32)],
        ),
        WindowEvent::PointerUp { x, y } => ("pointerup"@, seq![("x"@, x), ("y"@, y)]),
        WindowEvent::PointerMove { x, y } => ("pointermove"@, seq![("x"@, x), ("y"@, y)]),
        WindowEvent::Resize { width, height } => (
            "resize"@,
            seq![("width"@, width), ("height"@, height)],
        ),
        WindowEvent::Close => ("close"@, seq![]),
    }
}

/// The views of members.
pub open spec fn member_views(members: Seq<(String, i32)>) -> Seq<(Seq<char>, i32)> {
    Seq::new(members.len(), |i: int| (members[i].0@, members[i].1))
}

/// How an event is shown to JS: its `type`, and its other members.
pub fn event_members(event: WindowEvent) -> (r: (String, Vec<(String, i32)>))
    ensures
        r.0@ == shown(event).0,
        member_views(r.1@) == shown(event).1,
{
    let mut out: Vec<(String, i32)> = Vec::new();
    let ty = match event {
        WindowEvent::PointerDown { x, y, button } => {
            out.push(("x".to_owned(), x));
            out.push(("y".to_owned(), y));
            out.push(("button".to_owned(), button as i32));
            "pointerdown"
        },
        WindowEvent::PointerUp { x, y } => {
            out.push(("x".to_owned(), x));
            out.push(("y".to_owned(), y));
            "pointerup"
        },
        WindowEvent::PointerMove { x, y } => {
            out.push(("x".to_owned(), x));
            out.push(("y".to_owned(), y));
            "pointermove"
        },
        WindowEvent::Resize { width, height } => {
            out.push(("width".to_owned(), width));
            out.push(("height".to_owned(), height));
            "resize"
        },
        WindowEvent::Close => "close",
    };
    assert(member_views(out@) =~= shown(event).1);
    (ty.to_owned(), out)
}

/// Whether no move directly follows a move.
pub open spec fn coalesced(queue: Seq<WindowEvent>) -> bool {
    forall|i: int|
        0 < i < queue.len() && (#[trigger] queue[i]) is PointerMove ==> !(queue[i
            - 1] is PointerMove)
}

/// A queue that starts empty never has two moves in a row, and its last event is always the one
/// queued last: a poll sees the latest pointer position.
pub proof fn law_moves_are_coalesced(queue: Seq<WindowEvent>, event: WindowEvent)
    requires
        coalesced(queue),
    ensures
        coalesced(queued(queue, event)),
        queued(queue, event).last() == event,
        coalesced(Seq::empty()),
{
    let now = queued(queue, event);
    assert forall|i: int| 0 < i < now.len() && (#[trigger] now[i]) is PointerMove implies !(now[i
        - 1] is PointerMove) by {
        if i < now.len() - 1 {
            assert(now[i] == queue[i]);
            assert(now[i - 1] == queue[i - 1]);
        } else if now.len() == queue.len() {
            assert(queue[queue.len() - 1] is PointerMove);
            assert(now[i - 1] == queue[i - 1]);
        }
    }
}

/// Whether an event is no move.
pub open spec fn no_move() -> spec_fn(WindowEvent) -> bool {
    |e: WindowEvent| !(e is PointerMove)
}

/// Coalescing drops moves only: every other event stays queued, in order.
pub proof fn law_only_moves_are_dropped(queue: Seq<WindowEvent>, event: WindowEvent)
    ensures
        queued(queue, event).filter(no_move()) == queue.push(event).filter(no_move()),
{
    reveal_with_fuel(Seq::<_>::filter, 3);
    assert(queue.push(event).drop_last() =~= queue);
    if event is PointerMove && queue.len() > 0 && queue.last() is PointerMove {
        assert(queued(queue, event).drop_last() =~= queue.drop_last());
    }
}

/// A signed word is the number between -32768 and 32767 that differs by whole multiples of 65536.
pub proof fn law_signed_words_wrap(v: int)
    ensures
        -32768 <= signed_word(v) <= 32767,
        (v - signed_word(v)) % 65536 == 0,
{
}

/// A point is packed with x in the low word and y in the high word, both signed.
pub proof fn law_points_have_x_in_the_low_word(x: int, y: int, lparam: isize)
    requires
        -32768 <= x <= 32767,
        -32768 <= y <= 32767,
        lparam == y * 65536 + x % 65536,
    ensures
        point(lparam) == (x, y),
{
    assert(lparam as int % 65536 == x % 65536);
    assert(lparam as int / 65536 == y);
}

/// Each message of the window is an event of its kind at its point, or with its size, and no other
/// message is an event.
pub proof fn law_messages_become_events(msg: u32, lparam: isize)
    ensures
        ({
            let x = point(lparam).0 as i32;
            let y = point(lparam).1 as i32;
            &&& event_of(0x0201, lparam) == Some(WindowEvent::PointerDown { x, y, button: 0 })
            &&& event_of(0x0204, lparam) == Some(WindowEvent::PointerDown { x, y, button: 2 })
            &&& event_of(0x0202, lparam) == Some(WindowEvent::PointerUp { x, y })
            &&& event_of(0x0200, lparam) == Some(WindowEvent::PointerMove { x, y })
            &&& event_of(0x0005, lparam) == Some(WindowEvent::Resize { width: x, height: y })
            &&& event_of(0x0002, lparam) == Some(WindowEvent::Close)
            &&& event_of(msg, lparam) is Some ==> set![
                0x0201u32,
                0x0204,
                0x0202,
                0x0200,
                0x0005,
                0x0002,
            ].contains(msg)
        }),
{
}

/// A move that follows a move takes its place; every other event goes to the end.
pub proof fn law_events_queue_at_the_end(queue: Seq<WindowEvent>, event: WindowEvent)
    ensures
        !(event is PointerMove) || queue.len() == 0 || !(queue.last() is PointerMove) ==> queued(
            queue,
            event,
        ) == queue + seq![event],
        event is PointerMove && queue.len() > 0 && queue.last() is PointerMove ==> queued(
            queue,
            event,
        ).len() == queue.len() && queued(queue, event).drop_last() == queue.drop_last() && queued(
            queue,
            event,
        ).last() == event,
{
    assert(queue.push(event) =~= queue + seq![event]);
    if queue.len() > 0 {
        assert(queue.drop_last().push(event).drop_last() =~= queue.drop_last());
    }
}

/// A close is pending where one is among the events; a window that has no queue has no events.
pub proof fn law_pending_closes_are_among_the_events(
    events: Seq<WindowEvent>,
    m: Map<isize, Seq<WindowEvent>>,
    hwnd: isize,
)
    ensures
        has_close(events) <==> events.contains(WindowEvent::Close),
        m.contains_key(hwnd) ==> queue_of(m, hwnd) == m[hwnd],
        !m.contains_key(hwnd) ==> queue_of(m, hwnd).len() == 0,
{
    if has_close(events) {
        let i = choose|i: int| 0 <= i < events.len() && #[trigger] events[i] == WindowEvent::Close;
        assert(events.contains(events[i]));
    }
}

/// What an event is shown as: its type, and its numbers by name.
pub proof fn law_events_are_shown_by_name(x: i32, y: i32, button: u32)
    ensures
        shown(WindowEvent::PointerDown { x, y, button }) == (
            "pointerdown"@,
            seq![("x"@, x), ("y"@, y), ("button"@, button as i32)],
        ),
        shown(WindowEvent::PointerUp { x, y }) == ("pointerup"@, seq![("x"@, x), ("y"@, y)]),
        shown(WindowEvent::PointerMove { x, y }) == ("pointermove"@, seq![("x"@, x), ("y"@, y)]),
        shown(WindowEvent::Resize { width: x, height: y }) == (
            "resize"@,
            seq![("width"@, x), ("height"@, y)],
        ),
        shown(WindowEvent::Close) == ("close"@, Seq::<(Seq<char>, i32)>::empty()),
{
    assert(shown(WindowEvent::Close).1 =~= Seq::empty());
}

/// Members are read place by place.
pub proof fn law_members_are_read_place_by_place(members: Seq<(String, i32)>)
    ensures
        member_views(members).len() == members.len(),
        forall|i: int|
            0 <= i < members.len() ==> #[trigger] member_views(members)[i] == (
                members[i].0@,
                members[i].1,
            ),
{
}

/// A window has no events when it is created, however many it had before.
pub proof fn law_created_windows_have_no_events(
    queues: &mut WindowQueues,
    hwnd: isize,
    other: isize,
)
    requires
        call_ensures(WindowQueues::create_window, (queues, hwnd), ()),
    ensures
        final(queues)@.contains_key(hwnd),
        final(queues)@[hwnd].len() == 0,
        other != hwnd ==> queue_of(final(queues)@, other) == queue_of(old(queues)@, other),
{
}

/// An event goes to its own window's queue, and is dropped where that window has none.
pub proof fn law_events_go_to_their_own_window(
    queues: &mut WindowQueues,
    hwnd: isize,
    event: WindowEvent,
    other: isize,
)
    requires
        call_ensures(WindowQueues::push_event, (queues, hwnd, event), ()),
    ensures
        old(queues)@.contains_key(hwnd) ==> final(queues)@.contains_key(hwnd) && final(queues)@[hwnd].last() == event && final(queues)@[hwnd].len() > 0,
        !old(queues)@.contains_key(hwnd) ==> final(queues)@ == old(queues)@,
        other != hwnd ==> queue_of(final(queues)@, other) == queue_of(old(queues)@, other),
{
    if old(queues)@.contains_key(hwnd) {
        law_events_queue_at_the_end(old(queues)@[hwnd], event);
    }
}

/// A poll hands out every event once: the queue is empty afterwards, and gone once a close was handed
/// out.
pub proof fn law_polls_hand_out_every_event_once(
    queues: &mut WindowQueues,
    hwnd: isize,
    r: Vec<WindowEvent>,
    other: isize,
)
    requires
        call_ensures(WindowQueues::poll_window_events, (queues, hwnd), r),
    ensures
        old(queues)@.contains_key(hwnd) ==> r@ == old(queues)@[hwnd],
        !old(queues)@.contains_key(hwnd) ==> r@.len() == 0,
        queue_of(final(queues)@, hwnd).len() == 0,
        final(queues)@.contains_key(hwnd) <==> old(queues)@.contains_key(hwnd) && !r@.contains(
            WindowEvent::Close,
        ),
        other != hwnd ==> queue_of(final(queues)@, other) == queue_of(old(queues)@, other),
{
    law_pending_closes_are_among_the_events(r@, old(queues)@, hwnd);
}

/// What a message is decoded to, and at which point.
#[verifier::rlimit(40)]
pub proof fn law_messages_are_decoded(
    msg: u32,
    lparam: isize,
    r: Option<WindowEvent>,
    at: (i32, i32),
)
    requires
        call_ensures(decode_message, (msg, lparam), r),
        call_ensures(point_from_lparam, (lparam,), at),
    ensures
        r == (if msg == 0x0201 {
            Some(WindowEvent::PointerDown { x: at.0, y: at.1, button: 0 })
        } else if msg == 0x0204 {
            Some(WindowEvent::PointerDown { x: at.0, y: at.1, button: 2 })
        } else if msg == 0x0202 {
            Some(WindowEvent::PointerUp { x: at.0, y: at.1 })
        } else if msg == 0x0200 {
            Some(WindowEvent::PointerMove { x: at.0, y: at.1 })
        } else if msg == 0x0005 {
            Some(WindowEvent::Resize { width: at.0, height: at.1 })
        } else if msg == 0x0002 {
            Some(WindowEvent::Close)
        } else {
            None
        }),
        (lparam as int - at.0) % 65536 == 0,
        -32768 <= at.0 <= 32767,
        (lparam as int / 65536 - at.1) % 65536 == 0,
        -32768 <= at.1 <= 32767,
{
    law_messages_become_events(msg, lparam);
    law_signed_words_wrap(lparam as int);
    law_signed_words_wrap(lparam as int / 65536);
}

/// What an event is shown as.
pub proof fn law_shown_events_have_their_members(
    event: WindowEvent,
    r: (String, Vec<(String, i32)>),
)
    requires
        call_ensures(event_members, (event,), r),
    ensures
        r.0@ == shown(event).0,
        member_views(r.1@) == shown(event).1,
        event is Close ==> r.0@ == "close"@ && r.1@.len() == 0,
        event matches WindowEvent::PointerDown { x, y, button } ==> r.0@ == "pointerdown"@
            && r.1@.len() == 3 && r.1@[0].1 == x && r.1@[1].1 == y,
{
    let v = member_views(r.1@);
    assert(v.len() == r.1@.len());
    if let WindowEvent::PointerDown { x, y, button } = event {
        assert(v[0] == (r.1@[0].0@, r.1@[0].1));
        assert(v[1] == (r.1@[1].0@, r.1@[1].1));
    }
}

} // verus!
