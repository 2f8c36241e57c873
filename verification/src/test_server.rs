//! A small server for trying a loader against: routes, the requests it has seen, the WebSocket
//! handshake and an echo of frames.

use crate::text;
use vstd::prelude::*;

verus! {

/// What a route answers.
pub struct Answer {
    pub status: u16,
    pub content_type: String,
    pub body: String,
}

/// Routes by path, and the request targets seen, in order. A later route of a path replaces an
/// earlier one.
pub struct TestServer {
    pub routes: Vec<(String, Answer)>,
    pub requests: Vec<String>,
}

/// A target without its query.
pub open spec fn path_of(target: Seq<char>) -> Seq<char> {
    target.take(text::pos_from(target, '?', 0))
}

/// The last route of a path.
pub open spec fn routed(routes: Seq<(String, Answer)>, path: Seq<char>) -> Option<Answer>
    decreases routes.len(),
{
    if routes.len() == 0 {
        None
    } else if routes.last().0@ == path {
        Some(routes.last().1)
    } else {
        routed(routes.drop_last(), path)
    }
}

/// Whether a target is a request for `path`.
pub open spec fn for_path(path: Seq<char>) -> spec_fn(Seq<char>) -> bool {
    |target: Seq<char>| path_of(target) == path
}

/// The first index at or after `i` whose being white space is `white`; the length when there is none.
pub open spec fn white_from(s: Seq<char>, white: bool, i: int) -> int
    decreases s.len() - i,
{
    if i < 0 || i >= s.len() {
        s.len() as int
    } else if text::white_space(s[i]) == white {
        i
    } else {
        white_from(s, white, i + 1)
    }
}

/// The target of a request line: its second word, `/` without one.
pub open spec fn target_of(line: Seq<char>) -> Seq<char> {
    let start = white_from(line, false, white_from(line, true, white_from(line, false, 0)));
    if start < line.len() {
        line.subrange(start, white_from(line, true, start))
    } else {
        seq!['/']
    }
}

/// The name, in lower case, and the value of a header line; none without a colon.
pub open spec fn header_of(line: Seq<char>) -> Option<(Seq<char>, Seq<char>)> {
    let colon = text::pos_from(line, ':', 0);
    if colon < line.len() {
        Some((text::lower(text::trim(line.take(colon))), text::trim(line.skip(colon + 1))))
    } else {
        None
    }
}

/// The value of the last header with a name.
pub open spec fn last_header(lines: Seq<Seq<char>>, name: Seq<char>) -> Option<Seq<char>>
    decreases lines.len(),
{
    if lines.len() == 0 {
        None
    } else {
        match header_of(lines.last()) {
            Some((n, v)) if n == name => Some(v),
            _ => last_header(lines.drop_last(), name),
        }
    }
}

/// What a request is answered with.
pub enum Reply {
    /// The connection becomes a WebSocket; the client's key.
    Upgrade(String),
    /// The text of a response.
    Response(String),
}

/// The head and body of a response.
pub open spec fn response_text(status: nat, content_type: Seq<char>, body: Seq<char>) -> Seq<char> {
    "HTTP/1.1 "@ + text::decimal(status) + " X\r\nContent-Type: "@ + content_type
        + "\r\nContent-Length: "@ + text::decimal(text::byte_len(body))
        + "\r\nConnection: close\r\n\r\n"@ + body
}

/// The response to a request for `target`.
pub open spec fn answer_to(routes: Seq<(String, Answer)>, target: Seq<char>) -> Seq<char> {
    match routed(routes, path_of(target)) {
        Some(a) => response_text(a.status as nat, a.content_type@, a.body@),
        None => response_text(404, "text/plain"@, "not found"@),
    }
}

/// The target without its query.
fn path_text(target: &str) -> (r: String)
    ensures
        r@ == path_of(target@),
{
    let cs = text::chars_of(target);
    let end: usize = text::find_char(&cs, '?', 0);
    let r = text::string_of(&text::piece(&cs, 0, end));
    assert(r@ =~= path_of(target@));
    r
}

/// The first index at or after `from` whose being white space is `white`.
fn find_white(s: &Vec<char>, white: bool, from: usize) -> (r: usize)
    requires
        from <= s@.len(),
    ensures
        r == white_from(s@, white, from as int),
        from <= r <= s@.len(),
{
    let mut i: usize = from;
    while i < s.len() && text::is_white_space(s[i]) != white
        invariant
            from <= i <= s@.len(),
            white_from(s@, white, from as int) == white_from(s@, white, i as int),
        decreases s@.len() - i,
    {
        i = i + 1;
    }
    i
}

/// The target of a request line.
pub fn request_target(line: &str) -> (r: String)
    ensures
        r@ == target_of(line@),
{
    let cs = text::chars_of(line);
    let first: usize = find_white(&cs, false, 0);
    let gap: usize = find_white(&cs, true, first);
    let start: usize = find_white(&cs, false, gap);
    if start < cs.len() {
        let end: usize = find_white(&cs, true, start);
        text::string_of(&text::piece(&cs, start, end))
    } else {
        let mut r = String::new();
        r.push('/');
        assert(r@ =~= seq!['/']);
        r
    }
}

/// Whether a line ends the head of a request.
pub fn ends_head(line: &str) -> (r: bool)
    ensures
        r == (line@ == "\r\n"@ || line@.len() == 0),
{
    text::same_text(line, "\r\n") || text::is_blank(line)
}

/// The name and value of a header line.
fn header(line: &str) -> (r: Option<(Vec<char>, Vec<char>)>)
    ensures
        match r {
            Some((n, v)) => header_of(line@) == Some((n@, v@)),
            None => header_of(line@) is None,
        },
{
    let cs = text::chars_of(line);
    let colon: usize = text::find_char(&cs, ':', 0);
    if colon < cs.len() {
        let name = text::piece(&cs, 0, colon);
        let value = text::piece(&cs, colon + 1, cs.len());
        assert(name@ =~= line@.take(colon as int));
        assert(value@ =~= line@.skip(colon + 1));
        Some((text::lowered(&text::trimmed(&name)), text::trimmed(&value)))
    } else {
        None
    }
}

/// The value of the last header with a name.
pub fn find_header(lines: &Vec<String>, name: &str) -> (r: Option<String>)
    ensures
        text::option_text(r) == last_header(text::texts(lines@), name@),
{
    let wanted = text::chars_of(name);
    let mut i: usize = lines.len();
    let ghost all = text::texts(lines@);
    assert(all.take(all.len() as int) =~= all);
    while i > 0
        invariant
            i <= all.len(),
            all == text::texts(lines@),
            wanted@ == name@,
            last_header(all, name@) == last_header(all.take(i as int), name@),
        decreases i,
    {
        assert(all.take(i as int).drop_last() =~= all.take(i - 1));
        assert(all.take(i as int).last() == all[i - 1]);
        match header(lines[i - 1].as_str()) {
            Some((n, v)) => {
                if text::same_chars(&n, &wanted) {
                    return Some(text::string_of(&v));
                }
            },
            None => {},
        }
        i = i - 1;
    }
    None
}

impl TestServer {
    /// No routes, no requests.
    pub fn new() -> (r: TestServer)
        ensures
            r.routes@.len() == 0,
            r.requests@.len() == 0,
    {
        TestServer { routes: Vec::new(), requests: Vec::new() }
    }

    /// Answers `path` with a body from here on.
    pub fn route(&mut self, path: &str, content_type: &str, body: &str)
        ensures
            final(self).requests@ == old(self).requests@,
            routed(final(self).routes@, path@) matches Some(a) && a.status == 200
                && a.content_type@ == content_type@ && a.body@ == body@,
            forall|p: Seq<char>| p != path@ ==> #[trigger] routed(final(self).routes@, p) == routed(
                old(self).routes@,
                p,
            ),
    {
        let answer = Answer {
            status: 200,
            content_type: content_type.to_owned(),
            body: body.to_owned(),
        };
        self.routes.push((path.to_owned(), answer));
        assert(self.routes@.drop_last() =~= old(self).routes@);
    }

    /// Answers a request line and the header lines after it. A request with a WebSocket key is an
    /// upgrade, and is not recorded.
    pub fn serve(&mut self, line: &str, headers: &Vec<String>) -> (r: Reply)
        ensures
            final(self).routes@ == old(self).routes@,
            match last_header(text::texts(headers@), "sec-websocket-key"@) {
                Some(key) => (r matches Reply::Upgrade(k) && k@ == key) && final(self).requests@
                    == old(self).requests@,
                None => (r matches Reply::Response(t) && t@ == answer_to(
                    old(self).routes@,
                    target_of(line@),
                )) && text::texts(final(self).requests@) == text::texts(old(self).requests@).push(
                    target_of(line@),
                ),
            },
    {
        match find_header(headers, "sec-websocket-key") {
            Some(key) => Reply::Upgrade(key),
            None => Reply::Response(self.respond(request_target(line).as_str())),
        }
    }

    /// Records a request and answers it; a path without route is not found.
    fn respond(&mut self, target: &str) -> (r: String)
        ensures
            final(self).routes@ == old(self).routes@,
            text::texts(final(self).requests@) == text::texts(old(self).requests@).push(target@),
            r@ == answer_to(old(self).routes@, target@),
    {
        self.requests.push(target.to_owned());
        assert(text::texts(self.requests@) =~= text::texts(old(self).requests@).push(target@));
        let path = path_text(target);
        let mut i: usize = self.routes.len();
        let ghost all = self.routes@;
        assert(all.take(all.len() as int) =~= all);
        while i > 0
            invariant
                i <= all.len(),
                all == self.routes@,
                all == old(self).routes@,
                text::texts(self.requests@) == text::texts(old(self).requests@).push(target@),
                path@ == path_of(target@),
                routed(all, path@) == routed(all.take(i as int), path@),
            decreases i,
        {
            assert(all.take(i as int).drop_last() =~= all.take(i - 1));
            assert(all.take(i as int).last() == all[i - 1]);
            let (p, a) = &self.routes[i - 1];
            if text::same_text(p.as_str(), path.as_str()) {
                return render(a.status, a.content_type.as_str(), a.body.as_str());
            }
            i = i - 1;
        }
        render(404, "text/plain", "not found")
    }

    /// The requests for a path, in order, with their queries.
    pub fn requests_for(&self, path: &str) -> (r: Vec<String>)
        ensures
            text::texts(r@) == text::texts(self.requests@).filter(for_path(path@)),
    {
        let ghost all = text::texts(self.requests@);
        let mut out: Vec<String> = Vec::new();
        proof {
            reveal(Seq::filter);
            assert(text::texts(out@) =~= all.take(0).filter(for_path(path@)));
        }
        for i in 0..self.requests.len()
            invariant
                all == text::texts(self.requests@),
                text::texts(out@) == all.take(i as int).filter(for_path(path@)),
        {
            proof {
                reveal(Seq::filter);
                assert(all.take(i + 1).drop_last() =~= all.take(i as int));
            }
            if text::same_text(path_text(self.requests[i].as_str()).as_str(), path) {
                let ghost was = out@;
                out.push(self.requests[i].clone());
                assert(text::texts(out@) =~= text::texts(was).push(all[i as int]));
            }
        }
        assert(all.take(all.len() as int) =~= all);
        out
    }
}

/// The head and body of a response.
fn render(status: u16, content_type: &str, body: &str) -> (r: String)
    ensures
        r@ == response_text(status as nat, content_type@, body@),
{
    let mut m = text::concat5(
        "HTTP/1.1 ",
        text::decimal_text(status as u64).as_str(),
        " X\r\nContent-Type: ",
        content_type,
        "\r\nContent-Length: ",
    );
    m.append(text::decimal_text(text::byte_len_of(body) as u64).as_str());
    m.append("\r\nConnection: close\r\n\r\n");
    m.append(body);
    m
}

/// `x` rotated left by `n` bits, `n` between 0 and 32.
pub open spec fn rotated(x: u32, n: u32) -> u32 {
    (x << n) | (x >> ((32 - n) as u32))
}

/// The sum of two words, without the carry.
pub open spec fn plus(a: u32, b: u32) -> u32 {
    a.wrapping_add(b)
}

/// The big-endian word of four bytes.
pub open spec fn word(a: u8, b: u8, c: u8, d: u8) -> u32 {
    (a as int * 0x100_0000 + b as int * 0x1_0000 + c as int * 0x100 + d as int) as u32
}

/// How many zeros pad a message of `n` bytes, its end mark and its length to whole blocks.
pub open spec fn padding(n: nat) -> nat {
    ((119 - n as int % 64) % 64) as nat
}

/// The eight big-endian bytes of a number.
pub open spec fn wide_bytes(n: nat) -> Seq<u8> {
    seq![
        (n / 0x100_0000_0000_0000 % 0x100) as u8,
        (n / 0x1_0000_0000_0000 % 0x100) as u8,
        (n / 0x100_0000_0000 % 0x100) as u8,
        (n / 0x1_0000_0000 % 0x100) as u8,
        (n / 0x100_0000 % 0x100) as u8,
        (n / 0x1_0000 % 0x100) as u8,
        (n / 0x100 % 0x100) as u8,
        (n % 0x100) as u8,
    ]
}

/// A message with its end mark, its padding and its length in bits.
pub open spec fn padded(data: Seq<u8>) -> Seq<u8> {
    data.push(0x80u8) + Seq::new(padding(data.len()), |i: int| 0u8) + wide_bytes(data.len() * 8)
}

/// Word `t` of the schedule of the block at `at`.
pub open spec fn scheduled(m: Seq<u8>, at: int, t: nat) -> u32
    decreases t,
{
    if t < 16 {
        word(m[at + 4 * t], m[at + 4 * t + 1], m[at + 4 * t + 2], m[at + 4 * t + 3])
    } else {
        rotated(
            scheduled(m, at, (t - 3) as nat) ^ scheduled(m, at, (t - 8) as nat) ^ scheduled(
                m,
                at,
                (t - 14) as nat,
            ) ^ scheduled(m, at, (t - 16) as nat),
            1,
        )
    }
}

/// The function of round `t`.
pub open spec fn mixed(t: nat, b: u32, c: u32, d: u32) -> u32 {
    if t < 20 {
        (b & c) | (!b & d)
    } else if t < 40 {
        b ^ c ^ d
    } else if t < 60 {
        (b & c) | (b & d) | (c & d)
    } else {
        b ^ c ^ d
    }
}

/// The constant of round `t`.
pub open spec fn round_constant(t: nat) -> u32 {
    if t < 20 {
        0x5A827999
    } else if t < 40 {
        0x6ED9EBA1
    } else if t < 60 {
        0x8F1BBCDC
    } else {
        0xCA62C1D6
    }
}

/// The five words that a digest is made of.
#[derive(Clone, Copy, PartialEq, Eq, Structural, Debug)]
pub struct Words {
    pub a: u32,
    pub b: u32,
    pub c: u32,
    pub d: u32,
    pub e: u32,
}

/// The words after `t` rounds over the block at `at`.
pub open spec fn after_rounds(h: Words, m: Seq<u8>, at: int, t: nat) -> Words
    decreases t,
{
    if t == 0 {
        h
    } else {
        let w = after_rounds(h, m, at, (t - 1) as nat);
        let r = (t - 1) as nat;
        Words {
            a: plus(
                plus(
                    plus(plus(rotated(w.a, 5), mixed(r, w.b, w.c, w.d)), w.e),
                    round_constant(r),
                ),
                scheduled(m, at, r),
            ),
            b: w.a,
            c: rotated(w.b, 30),
            d: w.c,
            e: w.d,
        }
    }
}

/// The words after `n` blocks.
pub open spec fn after_blocks(m: Seq<u8>, n: nat) -> Words
    decreases n,
{
    if n == 0 {
        Words {
            a: 0x67452301,
            b: 0xEFCDAB89,
            c: 0x98BADCFE,
            d: 0x10325476,
            e: 0xC3D2E1F0,
        }
    } else {
        let h = after_blocks(m, (n - 1) as nat);
        let w = after_rounds(h, m, 64 * (n - 1), 80);
        Words {
            a: plus(h.a, w.a),
            b: plus(h.b, w.b),
            c: plus(h.c, w.c),
            d: plus(h.d, w.d),
            e: plus(h.e, w.e),
        }
    }
}

/// The four big-endian bytes of a word.
pub open spec fn word_bytes(w: u32) -> Seq<u8> {
    seq![
        (w as int / 0x100_0000) as u8,
        (w as int / 0x1_0000 % 0x100) as u8,
        (w as int / 0x100 % 0x100) as u8,
        (w as int % 0x100) as u8,
    ]
}

/// The SHA-1 digest of a message.
pub open spec fn digest(data: Seq<u8>) -> Seq<u8> {
    let m = padded(data);
    let w = after_blocks(m, m.len() / 64);
    word_bytes(w.a) + word_bytes(w.b) + word_bytes(w.c) + word_bytes(w.d) + word_bytes(w.e)
}

/// The longest message whose length in bits fits 64 bits.
pub const MAX_MESSAGE: u64 = 0x1fff_ffff_ffff_ffff;

/// Appends the eight big-endian bytes of a number.
fn push_wide(out: &mut Vec<u8>, n: u64)
    ensures
        final(out)@ == old(out)@ + wide_bytes(n as nat),
{
    out.push((n / 0x100_0000_0000_0000 % 0x100) as u8);
    out.push((n / 0x1_0000_0000_0000 % 0x100) as u8);
    out.push((n / 0x100_0000_0000 % 0x100) as u8);
    out.push((n / 0x1_0000_0000 % 0x100) as u8);
    out.push((n / 0x100_0000 % 0x100) as u8);
    out.push((n / 0x1_0000 % 0x100) as u8);
    out.push((n / 0x100 % 0x100) as u8);
    out.push((n % 0x100) as u8);
    assert(out@ =~= old(out)@ + wide_bytes(n as nat));
}

/// A message with its end mark, padding and length fills whole blocks.
proof fn lemma_whole_blocks(n: nat)
    ensures
        (n + 1 + padding(n) + 8) % 64 == 0,
        padding(n) < 64,
{
}

/// A message with its end mark, its padding and its length.
fn pad_message(data: &Vec<u8>) -> (r: Vec<u8>)
    requires
        data@.len() <= MAX_MESSAGE,
        data@.len() + 72 <= usize::MAX,
    ensures
        r@ == padded(data@),
        r@.len() % 64 == 0,
        r@.len() <= data@.len() + 72,
{
    let n: usize = data.len();
    let mut m: Vec<u8> = Vec::new();
    for i in 0..n
        invariant
            n == data@.len(),
            m@ == data@.take(i as int),
    {
        m.push(data[i]);
        assert(data@.take(i + 1) =~= data@.take(i as int).push(data@[i as int]));
    }
    assert(data@.take(n as int) =~= data@);
    m.push(0x80);
    let zeros: usize = (119 - n % 64) % 64;
    for i in 0..zeros
        invariant
            zeros == padding(data@.len()),
            m@ == data@.push(0x80u8) + Seq::new(i as nat, |k: int| 0u8),
    {
        m.push(0);
        assert(m@ =~= data@.push(0x80u8) + Seq::new((i + 1) as nat, |k: int| 0u8));
    }
    push_wide(&mut m, n as u64 * 8);
    assert(m@ == padded(data@));
    proof {
        lemma_whole_blocks(data@.len());
    }
    m
}

/// `x` rotated left by `n` bits.
fn rotate(x: u32, n: u32) -> (r: u32)
    requires
        0 < n < 32,
    ensures
        r == rotated(x, n),
{
    (x << n) | (x >> (32 - n))
}

/// The schedule of the block at `at`.
fn schedule(m: &Vec<u8>, at: usize) -> (r: Vec<u32>)
    requires
        at + 64 <= m@.len(),
    ensures
        r@.len() == 80,
        forall|t: int| 0 <= t < 80 ==> #[trigger] r@[t] == scheduled(m@, at as int, t as nat),
{
    let mut w: Vec<u32> = Vec::new();
    let n: usize = m.len();
    for t in 0..16usize
        invariant
            n == m@.len(),
            at + 64 <= n,
            w@.len() == t,
            forall|k: int| 0 <= k < t ==> #[trigger] w@[k] == scheduled(m@, at as int, k as nat),
    {
        let a: u32 = m[at + 4 * t] as u32;
        let b: u32 = m[at + 4 * t + 1] as u32;
        let c: u32 = m[at + 4 * t + 2] as u32;
        let d: u32 = m[at + 4 * t + 3] as u32;
        w.push(a * 0x100_0000 + b * 0x1_0000 + c * 0x100 + d);
    }
    for t in 16..80usize
        invariant
            w@.len() == t,
            forall|k: int| 0 <= k < t ==> #[trigger] w@[k] == scheduled(m@, at as int, k as nat),
    {
        let x: u32 = w[t - 3] ^ w[t - 8] ^ w[t - 14] ^ w[t - 16];
        w.push(rotate(x, 1));
    }
    w
}

/// The words after the block at `at`.
fn compress(h: Words, m: &Vec<u8>, at: usize) -> (r: Words)
    requires
        at + 64 <= m@.len(),
    ensures
        r == after_rounds(h, m@, at as int, 80),
{
    let w = schedule(m, at);
    let mut v = h;
    for t in 0..80usize
        invariant
            w@.len() == 80,
            forall|k: int| 0 <= k < 80 ==> #[trigger] w@[k] == scheduled(m@, at as int, k as nat),
            v == after_rounds(h, m@, at as int, t as nat),
    {
        let f: u32 = if t < 20 {
            (v.b & v.c) | (!v.b & v.d)
        } else if t < 40 {
            v.b ^ v.c ^ v.d
        } else if t < 60 {
            (v.b & v.c) | (v.b & v.d) | (v.c & v.d)
        } else {
            v.b ^ v.c ^ v.d
        };
        let k: u32 = if t < 20 {
            0x5A827999
        } else if t < 40 {
            0x6ED9EBA1
        } else if t < 60 {
            0x8F1BBCDC
        } else {
            0xCA62C1D6
        };
        let a: u32 = rotate(v.a, 5).wrapping_add(f).wrapping_add(v.e).wrapping_add(k).wrapping_add(
            w[t],
        );
        v = Words { a, b: v.a, c: rotate(v.b, 30), d: v.c, e: v.d };
    }
    v
}

/// Appends the four big-endian bytes of a word.
fn push_word(out: &mut Vec<u8>, w: u32)
    ensures
        final(out)@ == old(out)@ + word_bytes(w),
{
    out.push((w / 0x100_0000) as u8);
    out.push((w / 0x1_0000 % 0x100) as u8);
    out.push((w / 0x100 % 0x100) as u8);
    out.push((w % 0x100) as u8);
    assert(out@ =~= old(out)@ + word_bytes(w));
}

/// The SHA-1 digest of a message.
pub fn sha1(data: &Vec<u8>) -> (r: Vec<u8>)
    requires
        data@.len() <= MAX_MESSAGE,
        data@.len() + 72 <= usize::MAX,
    ensures
        r@ == digest(data@),
        r@.len() == 20,
{
    let m = pad_message(data);
    let blocks: usize = m.len() / 64;
    let mut h = Words {
        a: 0x67452301,
        b: 0xEFCDAB89,
        c: 0x98BADCFE,
        d: 0x10325476,
        e: 0xC3D2E1F0,
    };
    for n in 0..blocks
        invariant
            blocks * 64 <= m@.len() <= usize::MAX,
            h == after_blocks(m@, n as nat),
    {
        let w = compress(h, &m, 64 * n);
        h =
        Words {
            a: h.a.wrapping_add(w.a),
            b: h.b.wrapping_add(w.b),
            c: h.c.wrapping_add(w.c),
            d: h.d.wrapping_add(w.d),
            e: h.e.wrapping_add(w.e),
        };
    }
    let mut out: Vec<u8> = Vec::new();
    push_word(&mut out, h.a);
    push_word(&mut out, h.b);
    push_word(&mut out, h.c);
    push_word(&mut out, h.d);
    push_word(&mut out, h.e);
    assert(out@ =~= digest(data@));
    out
}

/// The character of six bits.
pub open spec fn symbol(n: int) -> char {
    if n < 26 {
        (65 + n) as char
    } else if n < 52 {
        (71 + n) as char
    } else if n < 62 {
        (n - 4) as char
    } else if n == 62 {
        '+'
    } else {
        '/'
    }
}

/// The four characters of up to three bytes.
pub open spec fn quartet(c: Seq<u8>) -> Seq<char> {
    let n = c[0] as int * 0x1_0000 + (if c.len() > 1 {
        c[1] as int * 0x100
    } else {
        0
    }) + (if c.len() > 2 {
        c[2] as int
    } else {
        0
    });
    seq![
        symbol(n / 0x4_0000),
        symbol(n / 0x1000 % 64),
        if c.len() > 1 {
            symbol(n / 64 % 64)
        } else {
            '='
        },
        if c.len() > 2 {
            symbol(n % 64)
        } else {
            '='
        },
    ]
}

/// The base64 text of bytes.
pub open spec fn base64_of(data: Seq<u8>) -> Seq<char>
    decreases data.len(),
{
    if data.len() == 0 {
        seq![]
    } else if data.len() <= 3 {
        quartet(data)
    } else {
        quartet(data.take(3)) + base64_of(data.skip(3))
    }
}

/// The character of six bits.
fn symbol_of(n: u32) -> (r: char)
    requires
        n < 64,
    ensures
        r == symbol(n as int),
{
    if n < 26 {
        (65 + n as u8) as char
    } else if n < 52 {
        (71 + n as u8) as char
    } else if n < 62 {
        (n as u8 - 4) as char
    } else if n == 62 {
        '+'
    } else {
        '/'
    }
}

/// The base64 text of bytes.
pub fn base64(data: &Vec<u8>) -> (r: String)
    ensures
        r@ == base64_of(data@),
{
    let mut out = String::new();
    let mut at: usize = 0;
    let n: usize = data.len();
    assert(data@.skip(0) =~= data@);
    while at < n
        invariant
            n == data@.len(),
            at <= n,
            out@ + base64_of(data@.skip(at as int)) == base64_of(data@),
        decreases data@.len() - at,
    {
        let left: usize = n - at;
        let ghost rest = data@.skip(at as int);
        let ghost before = out@;
        let ghost piece = if rest.len() <= 3 {
            rest
        } else {
            rest.take(3)
        };
        let b0: u32 = data[at] as u32;
        let b1: u32 = if left > 1 {
            data[at + 1] as u32
        } else {
            0
        };
        let b2: u32 = if left > 2 {
            data[at + 2] as u32
        } else {
            0
        };
        let bits: u32 = b0 * 0x1_0000 + b1 * 0x100 + b2;
        out.push(symbol_of(bits / 0x4_0000));
        out.push(symbol_of(bits / 0x1000 % 64));
        out.push(
            if left > 1 {
                symbol_of(bits / 64 % 64)
            } else {
                '='
            },
        );
        out.push(
            if left > 2 {
                symbol_of(bits % 64)
            } else {
                '='
            },
        );
        assert(out@ =~= before + quartet(piece));
        if left > 3 {
            proof {
                assert(rest.skip(3) =~= data@.skip(at + 3));
                assert(before + (quartet(piece) + base64_of(rest.skip(3))) =~= out@ + base64_of(
                    data@.skip(at + 3),
                ));
            }
            at = at + 3;
        } else {
            proof {
                assert(data@.skip(data@.len() as int) =~= Seq::empty());
                assert(out@ + base64_of(Seq::empty()) =~= out@);
            }
            at = n;
        }
    }
    assert(data@.skip(at as int) =~= Seq::empty());
    assert(out@ + base64_of(Seq::empty()) =~= out@);
    out
}

/// The value of the accept header for a client's key.
pub open spec fn accept_of(key: Seq<char>) -> Seq<char> {
    base64_of(
        digest(vstd::utf8::encode_utf8(key + "258EAFA5-E914-47DA-95CA-C5AB0DC85B11"@)),
    )
}

/// The answer to a WebSocket upgrade with the client's key.
pub fn accept_upgrade(key: &str) -> (r: String)
    requires
        text::byte_len(key@ + "258EAFA5-E914-47DA-95CA-C5AB0DC85B11"@) <= MAX_MESSAGE,
        text::byte_len(key@ + "258EAFA5-E914-47DA-95CA-C5AB0DC85B11"@) + 72 <= usize::MAX,
    ensures
        r@
            == "HTTP/1.1 101 Switching Protocols\r\nUpgrade: websocket\r\nConnection: Upgrade\r\nSec-WebSocket-Accept: "@
            + accept_of(key@) + "\r\n\r\n"@,
{
    let joined = text::concat2(key, "258EAFA5-E914-47DA-95CA-C5AB0DC85B11");
    let accept = base64(&sha1(&text::bytes_of(joined.as_str())));
    text::concat3(
        "HTTP/1.1 101 Switching Protocols\r\nUpgrade: websocket\r\nConnection: Upgrade\r\nSec-WebSocket-Accept: ",
        accept.as_str(),
        "\r\n\r\n",
    )
}

/// The opcode of a close frame.
pub const OPCODE_CLOSE: u8 = 8;

/// The opcode of a text frame.
pub const OPCODE_TEXT: u8 = 1;

/// The payload of a frame under its mask: each byte combined with the mask byte of its place.
pub open spec fn under_mask(payload: Seq<u8>, mask: Seq<u8>) -> Seq<u8> {
    Seq::new(payload.len(), |i: int| payload[i] ^ mask[i % 4])
}

/// The payload of a masked frame.
fn unmask(payload: &Vec<u8>, mask: &Vec<u8>) -> (r: Vec<u8>)
    requires
        mask@.len() == 4,
    ensures
        r@ == under_mask(payload@, mask@),
{
    let mut out: Vec<u8> = Vec::new();
    for i in 0..payload.len()
        invariant
            mask@.len() == 4,
            out@ == under_mask(payload@, mask@).take(i as int),
    {
        out.push(payload[i] ^ mask[i % 4]);
        assert(under_mask(payload@, mask@).take(i + 1) =~= under_mask(payload@, mask@).take(
            i as int,
        ).push(under_mask(payload@, mask@)[i as int]));
    }
    assert(under_mask(payload@, mask@).take(payload@.len() as int) =~= under_mask(
        payload@,
        mask@,
    ));
    out
}

/// The frame that echoes a payload: texts with a prefix, everything else as it is. A length of 126
/// or more goes into two bytes.
pub open spec fn echo_frame(opcode: u8, payload: Seq<u8>) -> Seq<u8> {
    let reply = if opcode == OPCODE_TEXT {
        vstd::utf8::encode_utf8("echo:"@) + payload
    } else {
        payload
    };
    seq![(0x80 | opcode) as u8] + (if reply.len() < 126 {
        seq![reply.len() as u8]
    } else {
        seq![126u8, (reply.len() / 0x100 % 0x100) as u8, (reply.len() % 0x100) as u8]
    }) + reply
}

/// The frame that echoes a payload.
fn echo(opcode: u8, payload: &Vec<u8>) -> (r: Vec<u8>)
    ensures
        r@ == echo_frame(opcode, payload@),
{
    let mut reply: Vec<u8> = if opcode == OPCODE_TEXT {
        text::bytes_of("echo:")
    } else {
        Vec::new()
    };
    let ghost prefix = reply@;
    for i in 0..payload.len()
        invariant
            reply@ == prefix + payload@.take(i as int),
    {
        reply.push(payload[i]);
        assert(prefix + payload@.take(i + 1) =~= (prefix + payload@.take(i as int)).push(
            payload@[i as int],
        ));
    }
    assert(payload@.take(payload@.len() as int) =~= payload@);
    if opcode != OPCODE_TEXT {
        assert(prefix + payload@ =~= payload@);
    }
    let n: usize = reply.len();
    let mut frame: Vec<u8> = Vec::new();
    frame.push(0x80 | opcode);
    if n < 126 {
        frame.push(n as u8);
    } else {
        frame.push(126);
        frame.push((n / 0x100 % 0x100) as u8);
        frame.push((n % 0x100) as u8);
    }
    frame.append(&mut reply);
    assert(frame@ =~= echo_frame(opcode, payload@));
    frame
}

/// A masked frame.
pub struct Frame {
    pub opcode: u8,
    pub payload: Vec<u8>,
    /// How many bytes it took.
    pub taken: usize,
}

/// The length of the head of the frame at the start of `bytes`, and of its payload. The length of
/// the payload stands in seven bits, or, where these say 126, in two bytes.
pub open spec fn frame_lengths(bytes: Seq<u8>) -> (nat, nat) {
    let short = (bytes[1] as int % 128) as nat;
    if short == 126 {
        (8, (bytes[2] as int * 0x100 + bytes[3] as int) as nat)
    } else {
        (6, short)
    }
}

/// Whether `bytes` start with a whole frame.
pub open spec fn frame_stands(bytes: Seq<u8>) -> bool {
    &&& bytes.len() >= 2
    &&& bytes[1] as int % 128 == 126 ==> bytes.len() >= 4
    &&& bytes.len() >= frame_lengths(bytes).0 + frame_lengths(bytes).1
}

/// The opcode of the frame at the start of `bytes`.
pub open spec fn frame_opcode(bytes: Seq<u8>) -> u8 {
    (bytes[0] as int % 16) as u8
}

/// The payload of the frame at the start of `bytes`, without its mask, which ends the head.
pub open spec fn frame_payload(bytes: Seq<u8>) -> Seq<u8> {
    let (head, n) = frame_lengths(bytes);
    under_mask(bytes.subrange(head as int, (head + n) as int), bytes.subrange(head - 4, head as int))
}

/// The replies to the frames at the start of `bytes`, up to the close frame or the first frame that
/// is not there in full.
pub open spec fn echoed(bytes: Seq<u8>) -> Seq<u8>
    decreases bytes.len(),
{
    if frame_stands(bytes) {
        let reply = echo_frame(frame_opcode(bytes), frame_payload(bytes));
        if frame_opcode(bytes) == OPCODE_CLOSE {
            reply
        } else {
            reply + echoed(bytes.skip((frame_lengths(bytes).0 + frame_lengths(bytes).1) as int))
        }
    } else {
        seq![]
    }
}

/// The bytes from one index to another.
fn bytes_between(bytes: &Vec<u8>, from: usize, to: usize) -> (r: Vec<u8>)
    requires
        from <= to <= bytes@.len(),
    ensures
        r@ == bytes@.subrange(from as int, to as int),
{
    let mut r: Vec<u8> = Vec::new();
    for i in from..to
        invariant
            from <= to <= bytes@.len(),
            r@ == bytes@.subrange(from as int, i as int),
    {
        r.push(bytes[i]);
        assert(bytes@.subrange(from as int, i + 1) =~= bytes@.subrange(from as int, i as int).push(
            bytes@[i as int],
        ));
    }
    r
}

/// The frame that starts at `at`; none while it is not there in full.
pub fn next_frame(bytes: &Vec<u8>, at: usize) -> (r: Option<Frame>)
    requires
        at <= bytes@.len(),
    ensures
        match r {
            Some(f) => {
                let rest = bytes@.skip(at as int);
                &&& frame_stands(rest)
                &&& f.opcode == frame_opcode(rest)
                &&& f.payload@ == frame_payload(rest)
                &&& f.taken == frame_lengths(rest).0 + frame_lengths(rest).1
            },
            None => !frame_stands(bytes@.skip(at as int)),
        },
{
    let ghost rest = bytes@.skip(at as int);
    let left: usize = bytes.len() - at;
    if left < 2 {
        return None;
    }
    let first: u8 = bytes[at];
    let second: u8 = bytes[at + 1];
    assert(rest[0] == first && rest[1] == second);
    assert(first & 0x0f == first % 16) by (bit_vector);
    assert(second & 0x7f == second % 128) by (bit_vector);
    let opcode: u8 = first & 0x0f;
    let mut head: usize = 6;
    let mut n: usize = (second & 0x7f) as usize;
    if n == 126 {
        if left < 4 {
            return None;
        }
        assert(rest[2] == bytes@[at + 2] && rest[3] == bytes@[at + 3]);
        head = 8;
        n = bytes[at + 2] as usize * 0x100 + bytes[at + 3] as usize;
    }
    if left < head + n {
        return None;
    }
    let mask = bytes_between(bytes, at + head - 4, at + head);
    let masked = bytes_between(bytes, at + head, at + head + n);
    assert(mask@ =~= rest.subrange(head - 4, head as int));
    assert(masked@ =~= rest.subrange(head as int, head + n));
    Some(Frame { opcode, payload: unmask(&masked, &mask), taken: head + n })
}

/// The replies to a stream of frames, up to the close frame or the first frame that is not there in
/// full.
pub fn websocket_echo(bytes: &Vec<u8>) -> (r: Vec<u8>)
    ensures
        r@ == echoed(bytes@),
{
    let mut out: Vec<u8> = Vec::new();
    let mut at: usize = 0;
    let mut open = true;
    let n: usize = bytes.len();
    assert(bytes@.skip(0) =~= bytes@);
    assert(out@ + echoed(bytes@) =~= echoed(bytes@));
    while open
        invariant
            n == bytes@.len(),
            at <= n,
            open ==> out@ + echoed(bytes@.skip(at as int)) == echoed(bytes@),
            !open ==> out@ == echoed(bytes@),
        decreases
            if open {
                bytes@.len() - at + 1
            } else {
                0
            },
    {
        let ghost rest = bytes@.skip(at as int);
        let ghost before = out@;
        match next_frame(bytes, at) {
            None => {
                assert(out@ + echoed(rest) =~= out@);
                open = false;
            },
            Some(f) => {
                let mut reply = echo(f.opcode, &f.payload);
                let ghost said = reply@;
                out.append(&mut reply);
                assert(out@ =~= before + said);
                if f.opcode == OPCODE_CLOSE {
                    open = false;
                } else {
                    at = at + f.taken;
                    proof {
                        assert(bytes@.skip(at as int) =~= rest.skip(f.taken as int));
                        assert(before + (said + echoed(bytes@.skip(at as int))) =~= out@ + echoed(
                            bytes@.skip(at as int),
                        ));
                    }
                }
            },
        }
    }
    out
}

/// What is routed is served: a request for the path of the latest route gets its body, whatever its
/// query, and other paths get what they got before.
pub proof fn law_a_route_is_served(
    routes: Seq<(String, Answer)>,
    route: (String, Answer),
    target: Seq<char>,
)
    ensures
        path_of(target) == route.0@ ==> answer_to(routes.push(route), target) == response_text(
            route.1.status as nat,
            route.1.content_type@,
            route.1.body@,
        ),
        path_of(target) != route.0@ ==> answer_to(routes.push(route), target) == answer_to(
            routes,
            target,
        ),
{
    assert(routes.push(route).drop_last() =~= routes);
}

/// A query does not change which route is served.
pub proof fn law_queries_do_not_route(path: Seq<char>, query: Seq<char>)
    requires
        text::lacks(path, '?'),
    ensures
        path_of(path) == path,
        path_of(path.push('?') + query) == path,
{
    let target = path.push('?') + query;
    text::lemma_pos_from_unique(path, '?', 0, path.len() as int);
    text::lemma_pos_from_unique(target, '?', 0, path.len() as int);
    assert(target.take(path.len() as int) =~= path);
    assert(path.take(path.len() as int) =~= path);
}

/// Masking twice gives the payload back.
pub proof fn law_masking_is_its_own_inverse(payload: Seq<u8>, mask: Seq<u8>)
    requires
        mask.len() == 4,
    ensures
        under_mask(under_mask(payload, mask), mask) == payload,
{
    let twice = under_mask(under_mask(payload, mask), mask);
    assert forall|i: int| 0 <= i < payload.len() implies twice[i] == payload[i] by {
        let a = payload[i];
        let b = mask[i % 4];
        assert((a ^ b) ^ b == a) by (bit_vector);
    }
    assert(twice =~= payload);
}

/// A base64 text has four characters for each three bytes or what is left of them.
pub proof fn law_base64_length(data: Seq<u8>)
    ensures
        base64_of(data).len() == (data.len() + 2) / 3 * 4,
    decreases data.len(),
{
    if data.len() > 3 {
        law_base64_length(data.skip(3));
    }
}

/// The six bits of a character.
pub open spec fn sextet(c: char) -> int {
    let n = c as int;
    if 65 <= n <= 90 {
        n - 65
    } else if 97 <= n <= 122 {
        n - 71
    } else if 48 <= n <= 57 {
        n + 4
    } else if c == '+' {
        62
    } else if c == '/' {
        63
    } else {
        0
    }
}

/// The bytes that four characters stand for: one for each but the first, and none for padding.
pub open spec fn trio(q: Seq<char>) -> Seq<u8> {
    let n = sextet(q[0]) * 0x4_0000 + sextet(q[1]) * 0x1000 + sextet(q[2]) * 64 + sextet(q[3]);
    let bytes = seq![(n / 0x1_0000) as u8, (n / 0x100 % 0x100) as u8, (n % 0x100) as u8];
    if q[2] == '=' {
        bytes.take(1)
    } else if q[3] == '=' {
        bytes.take(2)
    } else {
        bytes
    }
}

/// The bytes that a base64 text stands for.
pub open spec fn decoded(t: Seq<char>) -> Seq<u8>
    decreases t.len(),
{
    if t.len() < 4 {
        seq![]
    } else {
        trio(t.take(4)) + decoded(t.skip(4))
    }
}

/// How many characters of padding end the base64 text of `n` bytes.
pub open spec fn fill(n: nat) -> nat {
    if n % 3 == 0 {
        0
    } else {
        (3 - n % 3) as nat
    }
}

/// A character tells its six bits, and is not the padding.
proof fn lemma_symbol(i: int)
    requires
        0 <= i < 64,
    ensures
        sextet(symbol(i)) == i,
        symbol(i) != '=',
{
    assert(symbol(i) as int != '=' as int);
}

/// The groups of six bits of three bytes.
proof fn lemma_sextets(x: int, y: int, z: int)
    requires
        0 <= x < 256,
        0 <= y < 256,
        0 <= z < 256,
    ensures
        (x * 0x1_0000 + y * 0x100 + z) / 0x4_0000 == x / 4,
        (x * 0x1_0000 + y * 0x100 + z) / 0x1000 % 64 == x % 4 * 16 + y / 16,
        (x * 0x1_0000 + y * 0x100 + z) / 64 % 64 == y % 16 * 4 + z / 64,
        (x * 0x1_0000 + y * 0x100 + z) % 64 == z % 64,
{
    let n = x * 0x1_0000 + y * 0x100 + z;
    assert(n / 0x1000 == x * 16 + y / 16);
    assert(n / 64 == x * 1024 + y * 4 + z / 64);
}

/// Three bytes out of the number they make.
proof fn lemma_bytes_of(n: int, x: int, y: int, z: int)
    requires
        0 <= x < 256,
        0 <= y < 256,
        0 <= z < 256,
        n == x * 0x1_0000 + y * 0x100 + z,
    ensures
        n / 0x1_0000 == x,
        n / 0x100 % 0x100 == y,
        n % 0x100 == z,
{
    assert(n / 0x100 == x * 0x100 + y);
}

/// The groups of six bits put together again.
proof fn lemma_sextets_join(x: int, y: int, z: int)
    requires
        0 <= x < 256,
        0 <= y < 256,
        0 <= z < 256,
    ensures
        (x / 4) * 0x4_0000 + (x % 4 * 16 + y / 16) * 0x1000 + (y % 16 * 4 + z / 64) * 64 + z % 64
            == x * 0x1_0000 + y * 0x100 + z,
{
    let (a, b) = (x / 4, x % 4);
    let (c, d) = (y / 16, y % 16);
    let (e, f) = (z / 64, z % 64);
    assert(x == 4 * a + b && y == 16 * c + d && z == 64 * e + f);
}

/// The four characters of three bytes, of which all, the first two or the first count.
proof fn lemma_quartet(a: Seq<u8>, x: int, y: int, z: int)
    requires
        1 <= a.len() <= 3,
        x == a[0] as int,
        y == if a.len() > 1 {
            a[1] as int
        } else {
            0
        },
        z == if a.len() > 2 {
            a[2] as int
        } else {
            0
        },
    ensures
        quartet(a).len() == 4,
        sextet(quartet(a)[0]) == x / 4,
        sextet(quartet(a)[1]) == x % 4 * 16 + y / 16,
        sextet(quartet(a)[2]) == y % 16 * 4 + z / 64,
        sextet(quartet(a)[3]) == z % 64,
        quartet(a)[0] != '=' && quartet(a)[1] != '=',
        quartet(a)[2] == '=' <==> a.len() == 1,
        quartet(a)[3] == '=' <==> a.len() <= 2,
{
    let m = x * 0x1_0000 + y * 0x100 + z;
    lemma_sextets(x, y, z);
    lemma_symbol(m / 0x4_0000);
    lemma_symbol(m / 0x1000 % 64);
    lemma_symbol(m / 64 % 64);
    lemma_symbol(m % 64);
    assert(sextet('=') == 0);
}

/// Up to three bytes read back from their four characters, and padding stands behind the others.
proof fn lemma_quartet_reads_back(a: Seq<u8>)
    requires
        1 <= a.len() <= 3,
    ensures
        trio(quartet(a)) == a,
        forall|i: int| 0 <= i < 4 ==> (#[trigger] quartet(a)[i] == '=' <==> i > a.len()),
{
    let x: int = a[0] as int;
    let y: int = if a.len() > 1 {
        a[1] as int
    } else {
        0
    };
    let z: int = if a.len() > 2 {
        a[2] as int
    } else {
        0
    };
    lemma_quartet(a, x, y, z);
    lemma_sextets_join(x, y, z);
    lemma_bytes_of(x * 0x1_0000 + y * 0x100 + z, x, y, z);
    assert(trio(quartet(a)) =~= a);
}

/// Base64 reads back as the bytes.
pub proof fn law_base64_reads_back(data: Seq<u8>)
    ensures
        decoded(base64_of(data)) == data,
    decreases data.len(),
{
    let t = base64_of(data);
    if data.len() == 0 {
        assert(decoded(t) =~= data);
    } else if data.len() <= 3 {
        lemma_quartet_reads_back(data);
        assert(t.take(4) =~= t);
        assert(t.skip(4) =~= Seq::<char>::empty());
        assert(decoded(t.skip(4)) =~= Seq::<u8>::empty());
        assert(decoded(t) =~= data);
    } else {
        let (head, rest) = (data.take(3), data.skip(3));
        lemma_quartet_reads_back(head);
        law_base64_reads_back(rest);
        assert(t.take(4) =~= quartet(head));
        assert(t.skip(4) =~= base64_of(rest));
        assert(head + rest =~= data);
    }
}

/// Padding stands at the end of a base64 text and nowhere else: as many characters as bytes are
/// missing from a group of three.
pub proof fn law_padding_ends_base64(data: Seq<u8>, i: int)
    requires
        0 <= i < base64_of(data).len(),
    ensures
        base64_of(data)[i] == '=' <==> i >= base64_of(data).len() - fill(data.len()),
    decreases data.len(),
{
    let t = base64_of(data);
    if data.len() <= 3 {
        lemma_quartet_reads_back(data);
        assert(t[i] == quartet(data)[i]);
    } else {
        let (head, rest) = (data.take(3), data.skip(3));
        law_base64_length(rest);
        assert(fill(rest.len()) == fill(data.len()));
        assert(fill(rest.len()) <= 2);
        if i < 4 {
            lemma_quartet_reads_back(head);
            assert(t[i] == quartet(head)[i]);
        } else {
            assert(t[i] == base64_of(rest)[i - 4]);
            law_padding_ends_base64(rest, i - 4);
        }
    }
}

/// Different bytes have different base64 texts.
pub proof fn law_base64_is_injective(a: Seq<u8>, b: Seq<u8>)
    requires
        base64_of(a) == base64_of(b),
    ensures
        a == b,
{
    law_base64_reads_back(a);
    law_base64_reads_back(b);
}

/// The last route of a path is the one that counts, and a path without a route has none.
pub proof fn law_the_last_route_counts(routes: Seq<(String, Answer)>, path: Seq<char>)
    ensures
        routed(routes, path) matches Some(a) ==> exists|i: int|
            0 <= i < routes.len() && (#[trigger] routes[i]).0@ == path && routes[i].1 == a
                && forall|j: int| i < j < routes.len() ==> (#[trigger] routes[j]).0@ != path,
        routed(routes, path) is None ==> forall|j: int|
            0 <= j < routes.len() ==> (#[trigger] routes[j]).0@ != path,
    decreases routes.len(),
{
    if routes.len() > 0 {
        let last = routes.len() - 1;
        if routes[last].0@ != path {
            let d = routes.drop_last();
            law_the_last_route_counts(d, path);
            assert forall|j: int| 0 <= j < d.len() implies #[trigger] routes[j] == d[j] by {}
            if let Some(a) = routed(d, path) {
                let i = choose|i: int|
                    0 <= i < d.len() && (#[trigger] d[i]).0@ == path && d[i].1 == a && forall|j: int|
                        i < j < d.len() ==> (#[trigger] d[j]).0@ != path;
                assert(routes[i].0@ == path);
                assert forall|j: int| i < j < routes.len() implies (#[trigger] routes[j]).0@
                    != path by {
                    if j < d.len() {
                        assert(d[j].0@ != path);
                    }
                }
            } else {
                assert forall|j: int| 0 <= j < routes.len() implies (#[trigger] routes[j]).0@
                    != path by {
                    if j < d.len() {
                        assert(d[j].0@ != path);
                    }
                }
            }
        }
    }
}

/// A target without a route is not found, and requests are told apart by the path of their target.
pub proof fn law_other_targets_are_not_found(
    routes: Seq<(String, Answer)>,
    target: Seq<char>,
    path: Seq<char>,
)
    ensures
        (forall|i: int| 0 <= i < routes.len() ==> (#[trigger] routes[i]).0@ != path_of(target))
            ==> answer_to(routes, target) == response_text(404, "text/plain"@, "not found"@),
        for_path(path)(target) <==> path_of(target) == path,
{
    law_the_last_route_counts(routes, path_of(target));
}

/// A response is a status line, the type and the length in bytes of its body, the announcement that
/// the connection closes, a blank line, and the body.
pub proof fn law_responses_have_a_head_and_a_body(
    status: nat,
    content_type: Seq<char>,
    body: Seq<char>,
)
    ensures
        response_text(status, content_type, body) == "HTTP/1.1 "@ + text::decimal(status)
            + " X\r\nContent-Type: "@ + content_type + "\r\nContent-Length: "@ + text::decimal(
            vstd::utf8::encode_utf8(body).len(),
        ) + "\r\nConnection: close\r\n\r\n"@ + body,
{
}

proof fn lemma_white_from(s: Seq<char>, white: bool, i: int, p: int)
    requires
        0 <= i <= p <= s.len(),
        p < s.len() ==> text::white_space(s[p]) == white,
        forall|j: int| i <= j < p ==> text::white_space(#[trigger] s[j]) != white,
    ensures
        white_from(s, white, i) == p,
    decreases p - i,
{
    if i < p {
        assert(text::white_space(s[i]) != white);
        lemma_white_from(s, white, i + 1, p);
    }
}

/// The target of a request line is its second word; a line without one asks for the root.
#[verifier::rlimit(40)]
pub proof fn law_targets_are_the_second_word(
    lead: Seq<char>,
    method: Seq<char>,
    gap: Seq<char>,
    target: Seq<char>,
    tail: Seq<char>,
)
    requires
        forall|i: int| 0 <= i < lead.len() ==> text::white_space(#[trigger] lead[i]),
        forall|i: int| 0 <= i < method.len() ==> !text::white_space(#[trigger] method[i]),
        forall|i: int| 0 <= i < gap.len() ==> text::white_space(#[trigger] gap[i]),
        forall|i: int| 0 <= i < target.len() ==> !text::white_space(#[trigger] target[i]),
        method.len() > 0,
        gap.len() > 0,
        target.len() > 0,
        tail.len() > 0 ==> text::white_space(tail[0]),
    ensures
        target_of(lead + method + gap + target + tail) == target,
        target_of(lead + method + gap) == "/"@,
        target_of(lead + method) == "/"@,
{
    reveal_strlit("/");
    assert("/"@ =~= seq!['/']);
    let (a, b, c, d) = (
        lead.len() as int,
        lead.len() + method.len(),
        lead.len() + method.len() + gap.len(),
        lead.len() + method.len() + gap.len() + target.len(),
    );
    let x = lead + method + gap + target + tail;
    let y = lead + method + gap;
    let z = lead + method;
    assert forall|i: int| 0 <= i < a implies #[trigger] x[i] == lead[i] by {}
    assert forall|i: int| a <= i < b implies #[trigger] x[i] == method[i - a] by {}
    assert forall|i: int| b <= i < c implies #[trigger] x[i] == gap[i - b] by {}
    assert forall|i: int| c <= i < d implies #[trigger] x[i] == target[i - c] by {}
    lemma_white_from(x, false, 0, a);
    lemma_white_from(x, true, a, b as int);
    lemma_white_from(x, false, b as int, c as int);
    assert(d < x.len() ==> x[d as int] == tail[0]);
    lemma_white_from(x, true, c as int, d as int);
    assert(x.subrange(c as int, d as int) =~= target);
    assert forall|i: int| 0 <= i < a implies #[trigger] y[i] == lead[i] by {}
    assert forall|i: int| a <= i < b implies #[trigger] y[i] == method[i - a] by {}
    assert forall|i: int| b <= i < c implies #[trigger] y[i] == gap[i - b] by {}
    lemma_white_from(y, false, 0, a);
    lemma_white_from(y, true, a, b as int);
    lemma_white_from(y, false, b as int, c as int);
    assert forall|i: int| 0 <= i < a implies #[trigger] z[i] == lead[i] by {}
    assert forall|i: int| a <= i < b implies #[trigger] z[i] == method[i - a] by {}
    lemma_white_from(z, false, 0, a);
    lemma_white_from(z, true, a, b as int);
    lemma_white_from(z, false, b as int, b as int);
}

/// A header is its name, in lower case, and its value, both without white space around them, on either
/// side of the first colon; a line without a colon is none.
pub proof fn law_headers_are_parted_at_the_colon(name: Seq<char>, value: Seq<char>)
    requires
        !name.contains(':'),
    ensures
        header_of(name) is None,
        header_of(name + seq![':'] + value) == Some(
            (text::lower(text::trim(name)), text::trim(value)),
        ),
{
    assert forall|i: int| 0 <= i < name.len() implies #[trigger] name[i] != ':' by {
        assert(name.contains(name[i]));
    }
    let line = name + seq![':'] + value;
    let n = name.len() as int;
    text::lemma_pos_from_unique(name, ':', 0, n);
    text::lemma_pos_from_unique(line, ':', 0, n);
    assert(line.take(n) =~= name);
    assert(line.skip(n + 1) =~= value);
}

/// Of the headers with a name the last counts.
pub proof fn law_the_last_header_counts(lines: Seq<Seq<char>>, name: Seq<char>)
    ensures
        last_header(lines, name) matches Some(v) ==> exists|i: int|
            0 <= i < lines.len() && header_of(#[trigger] lines[i]) == Some((name, v)) && forall|
                j: int,
            |
                i < j < lines.len() ==> !(header_of(#[trigger] lines[j]) matches Some(h) && h.0
                    == name),
        last_header(lines, name) is None ==> forall|j: int|
            0 <= j < lines.len() ==> !(header_of(#[trigger] lines[j]) matches Some(h) && h.0
                == name),
    decreases lines.len(),
{
    if lines.len() > 0 {
        let last = lines.len() - 1;
        let here = header_of(lines[last]) matches Some(h) && h.0 == name;
        if here {
            assert(header_of(lines[last]) == Some((name, header_of(lines[last])->Some_0.1)));
        } else {
            let d = lines.drop_last();
            law_the_last_header_counts(d, name);
            assert forall|j: int| 0 <= j < d.len() implies #[trigger] lines[j] == d[j] by {}
            assert(last_header(lines, name) == last_header(d, name));
            if let Some(v) = last_header(d, name) {
                let i = choose|i: int|
                    0 <= i < d.len() && header_of(#[trigger] d[i]) == Some((name, v)) && forall|
                        j: int,
                    |
                        i < j < d.len() ==> !(header_of(#[trigger] d[j]) matches Some(h) && h.0
                            == name);
                assert(header_of(lines[i]) == Some((name, v)));
                assert forall|j: int| i < j < lines.len() implies !(header_of(#[trigger] lines[j])
                    matches Some(h) && h.0 == name) by {
                    if j < d.len() {
                        assert(!(header_of(d[j]) matches Some(h) && h.0 == name));
                    }
                }
            } else {
                assert forall|j: int| 0 <= j < lines.len() implies !(header_of(#[trigger] lines[j])
                    matches Some(h) && h.0 == name) by {
                    if j < d.len() {
                        assert(!(header_of(d[j]) matches Some(h) && h.0 == name));
                    }
                }
            }
        }
    }
}

/// A rotation to the left moves the high bits that fall out in at the low end.
#[verifier::rlimit(40)]
pub proof fn law_rotations_lose_no_bits(x: u32)
    ensures
        rotated(x, 1) as int == (x as int * 2) % 0x1_0000_0000 + x as int / 0x8000_0000,
        rotated(x, 5) as int == (x as int * 32) % 0x1_0000_0000 + x as int / 0x800_0000,
        rotated(x, 30) as int == (x as int * 0x4000_0000) % 0x1_0000_0000 + x as int / 4,
{
    assert(((x << 1) | (x >> 31)) as u64 == (x as u64 * 2) % 0x1_0000_0000 + x as u64
        / 0x8000_0000) by (bit_vector);
    assert(((x << 5) | (x >> 27)) as u64 == (x as u64 * 32) % 0x1_0000_0000 + x as u64
        / 0x800_0000) by (bit_vector);
    assert(((x << 30) | (x >> 2)) as u64 == (x as u64 * 0x4000_0000) % 0x1_0000_0000 + x as u64
        / 4) by (bit_vector);
}

/// The first byte of a word is its highest, in reading as in writing.
pub proof fn law_words_are_big_endian(a: u8, b: u8, c: u8, d: u8)
    ensures
        word(a, b, c, d) as int == ((a as int * 256 + b as int) * 256 + c as int) * 256 + d as int,
        word_bytes(word(a, b, c, d)) == seq![a, b, c, d],
{
    lemma_four_bytes(a as int, b as int, c as int, d as int);
    assert(word_bytes(word(a, b, c, d)) =~= seq![a, b, c, d]);
}

/// The bytes of a number of four of them.
#[verifier::spinoff_prover]
#[verifier::rlimit(40)]
proof fn lemma_four_bytes(a: int, b: int, c: int, d: int)
    requires
        0 <= a < 256,
        0 <= b < 256,
        0 <= c < 256,
        0 <= d < 256,
    ensures
        ({
            let w = a * 0x100_0000 + b * 0x1_0000 + c * 0x100 + d;
            &&& w == ((a * 256 + b) * 256 + c) * 256 + d
            &&& 0 <= w < 0x1_0000_0000
            &&& w / 0x100_0000 == a
            &&& w / 0x1_0000 % 0x100 == b
            &&& w / 0x100 % 0x100 == c
            &&& w % 0x100 == d
        }),
{
    let w = a * 0x100_0000 + b * 0x1_0000 + c * 0x100 + d;
    let r = a * 256 + b;
    let q = r * 256 + c;
    assert(w == q * 256 + d);
    assert(w / 0x100 == q);
    assert(w / 0x1_0000 == r);
    assert(w / 0x100_0000 == a);
}

/// A count of eight bytes is big-endian: a byte more moves the others up by one place.
#[verifier::spinoff_prover]
#[verifier::rlimit(40)]
pub proof fn law_counts_are_big_endian(q: nat, b: u8)
    requires
        q < 0x100_0000_0000_0000,
    ensures
        wide_bytes(0) == seq![0u8, 0, 0, 0, 0, 0, 0, 0],
        wide_bytes(q * 256 + b as nat) == wide_bytes(q).drop_first().push(b),
{
    let n = (q * 256 + b as nat) as nat;
    assert(wide_bytes(0) =~= seq![0u8, 0, 0, 0, 0, 0, 0, 0]);
    assert(n / 0x100_0000_0000_0000 == q / 0x1_0000_0000_0000);
    assert(n / 0x1_0000_0000_0000 == q / 0x100_0000_0000);
    assert(n / 0x100_0000_0000 == q / 0x1_0000_0000);
    assert(n / 0x1_0000_0000 == q / 0x100_0000);
    assert(n / 0x100_0000 == q / 0x1_0000);
    assert(n / 0x1_0000 == q / 0x100);
    assert(n / 0x100 == q);
    assert(n % 0x100 == b as nat);
    assert(wide_bytes(n) =~= wide_bytes(q).drop_first().push(b));
}

/// A message is filled up to whole blocks of sixty-four bytes: a one bit, as few zeros as it takes, and
/// its length in bits.
#[verifier::rlimit(40)]
pub proof fn law_messages_fill_whole_blocks(data: Seq<u8>)
    ensures
        padded(data).len() % 64 == 0,
        padded(data).len() - data.len() < 64 + 9,
        padded(data).take(data.len() as int) == data,
        padded(data)[data.len() as int] == 0x80,
        forall|i: int|
            data.len() < i < padded(data).len() - 8 ==> #[trigger] padded(data)[i] == 0,
        padded(data).skip(padded(data).len() - 8) == wide_bytes(data.len() * 8),
{
    lemma_padding(data.len());
    lemma_filled_up(data, padding(data.len()), wide_bytes(data.len() * 8));
}

proof fn lemma_padding(n: nat)
    ensures
        (n + 1 + padding(n) + 8) % 64 == 0,
        padding(n) < 64,
{
}

/// A message with a byte, zeros and eight more bytes behind it.
proof fn lemma_filled_up(data: Seq<u8>, zeros: nat, tail: Seq<u8>)
    requires
        tail.len() == 8,
    ensures
        ({
            let p = data.push(0x80u8) + Seq::new(zeros, |i: int| 0u8) + tail;
            &&& p.len() == data.len() + 1 + zeros + 8
            &&& p.take(data.len() as int) == data
            &&& p[data.len() as int] == 0x80
            &&& forall|i: int| data.len() < i < p.len() - 8 ==> #[trigger] p[i] == 0
            &&& p.skip(p.len() - 8) == tail
        }),
{
    let p = data.push(0x80u8) + Seq::new(zeros, |i: int| 0u8) + tail;
    assert(p.take(data.len() as int) =~= data);
    assert(p.skip(p.len() - 8) =~= tail);
}

/// The words of a block: sixteen are read from it, and each further one is mixed from four before it.
pub proof fn law_schedules_extend_the_block(m: Seq<u8>, at: int, t: nat)
    ensures
        t < 16 ==> scheduled(m, at, t) == word(
            m[at + 4 * t],
            m[at + 4 * t + 1],
            m[at + 4 * t + 2],
            m[at + 4 * t + 3],
        ),
        t >= 16 ==> scheduled(m, at, t) == rotated(
            scheduled(m, at, (t - 3) as nat) ^ scheduled(m, at, (t - 8) as nat) ^ scheduled(
                m,
                at,
                (t - 14) as nat,
            ) ^ scheduled(m, at, (t - 16) as nat),
            1,
        ),
{
}

/// How three words are mixed: by choice in the first twenty rounds, by majority in the third twenty,
/// and by parity in the others.
pub proof fn law_rounds_mix_by_choice_parity_and_majority(t: nat, b: u32, c: u32, d: u32)
    ensures
        t < 20 ==> mixed(t, b, c, d) == d ^ (b & (c ^ d)),
        40 <= t < 60 ==> mixed(t, b, c, d) == (b & c) ^ (b & d) ^ (c & d),
        20 <= t < 40 || t >= 60 ==> mixed(t, b, c, d) == b ^ c ^ d,
{
    assert((b & c) | (!b & d) == d ^ (b & (c ^ d))) by (bit_vector);
    assert((b & c) | (b & d) | (c & d) == (b & c) ^ (b & d) ^ (c & d)) by (bit_vector);
}

/// The constants of the rounds are the square roots of two, three, five and ten, in units of the
/// thirtieth power of one half.
#[verifier::rlimit(40)]
pub proof fn law_round_constants_are_square_roots(t: nat)
    ensures
        ({
            let k = round_constant(t) as int;
            let n: int = if t < 20 {
                2
            } else if t < 40 {
                3
            } else if t < 60 {
                5
            } else {
                10
            };
            k * k <= n * 0x1000_0000_0000_0000 < (k + 1) * (k + 1)
        }),
{
    assert(0x5A827999int * 0x5A827999int <= 2 * 0x1000_0000_0000_0000int < 0x5A82799Aint
        * 0x5A82799Aint);
    assert(0x6ED9EBA1int * 0x6ED9EBA1int <= 3 * 0x1000_0000_0000_0000int < 0x6ED9EBA2int
        * 0x6ED9EBA2int);
    assert(0x8F1BBCDCint * 0x8F1BBCDCint <= 5 * 0x1000_0000_0000_0000int < 0x8F1BBCDDint
        * 0x8F1BBCDDint);
    assert(0xCA62C1D6int * 0xCA62C1D6int <= 10 * 0x1000_0000_0000_0000int < 0xCA62C1D7int
        * 0xCA62C1D7int);
}

/// A round moves each word to the next place, the second one rotated, and puts the sum of the fifth,
/// the first one rotated, the mixture of the others, the round's constant and the round's word first.
#[verifier::rlimit(40)]
pub proof fn law_rounds_move_the_words(h: Words, m: Seq<u8>, at: int, t: nat)
    ensures
        after_rounds(h, m, at, 0) == h,
        ({
            let w = after_rounds(h, m, at, t);
            let n = after_rounds(h, m, at, t + 1);
            &&& n.b == w.a
            &&& n.c == rotated(w.b, 30)
            &&& n.d == w.c
            &&& n.e == w.d
            &&& n.a as int == (rotated(w.a, 5) + mixed(t, w.b, w.c, w.d) + w.e + round_constant(t)
                + scheduled(m, at, t)) % 0x1_0000_0000
        }),
{
}

/// A digest starts from the same five words, adds to them what the eighty rounds of each block make of
/// them, and writes them out.
#[verifier::rlimit(40)]
pub proof fn law_digests_add_up_the_blocks(m: Seq<u8>, n: nat, data: Seq<u8>)
    ensures
        after_blocks(m, 0) == (Words {
            a: 0x67452301,
            b: 0xEFCDAB89,
            c: 0x98BADCFE,
            d: 0x10325476,
            e: 0xC3D2E1F0,
        }),
        ({
            let h = after_blocks(m, n);
            let w = after_rounds(h, m, (64 * n) as int, 80);
            let next = after_blocks(m, n + 1);
            &&& next.a as int == (h.a + w.a) % 0x1_0000_0000
            &&& next.b as int == (h.b + w.b) % 0x1_0000_0000
            &&& next.c as int == (h.c + w.c) % 0x1_0000_0000
            &&& next.d as int == (h.d + w.d) % 0x1_0000_0000
            &&& next.e as int == (h.e + w.e) % 0x1_0000_0000
        }),
        ({
            let p = padded(data);
            let w = after_blocks(p, p.len() / 64);
            digest(data) == word_bytes(w.a) + word_bytes(w.b) + word_bytes(w.c) + word_bytes(w.d)
                + word_bytes(w.e)
        }),
{
}

/// The symbols of base64 are the letters in upper and in lower case, the digits, plus and slash.
#[verifier::rlimit(40)]
pub proof fn law_symbols_are_those_of_base64(n: int)
    requires
        0 <= n < 64,
    ensures
        symbol(n) == "ABCDEFGHIJKLMNOPQRSTUVWXYZabcdefghijklmnopqrstuvwxyz0123456789+/"@[n],
{
    reveal_strlit("ABCDEFGHIJKLMNOPQRSTUVWXYZabcdefghijklmnopqrstuvwxyz0123456789+/");
    assert(n == 0 || n == 1 || n == 2 || n == 3 || n == 4 || n == 5 || n == 6 || n == 7 || n == 8 || n == 9 || n == 10 || n == 11 || n == 12 || n == 13 || n == 14 || n == 15 || n == 16 || n == 17 || n == 18 || n == 19 || n == 20 || n == 21 || n == 22 || n == 23 || n == 24 || n == 25 || n == 26 || n == 27 || n == 28 || n == 29 || n == 30 || n == 31 || n == 32 || n == 33 || n == 34 || n == 35 || n == 36 || n == 37 || n == 38 || n == 39 || n == 40 || n == 41 || n == 42 || n == 43 || n == 44 || n == 45 || n == 46 || n == 47 || n == 48 || n == 49 || n == 50 || n == 51 || n == 52 || n == 53 || n == 54 || n == 55 || n == 56 || n == 57 || n == 58 || n == 59 || n == 60 || n == 61 || n == 62 || n == 63);
}

/// Three bytes are four symbols of six bits each, two bytes are three of them and one byte two, filled
/// up with equals signs.
#[verifier::rlimit(40)]
pub proof fn law_bytes_are_written_six_bits_at_a_time(a: u8, b: u8, c: u8, rest: Seq<u8>)
    ensures
        base64_of(Seq::empty()) == Seq::<char>::empty(),
        base64_of(seq![a]) == seq![symbol(a as int / 4), symbol(a as int % 4 * 16), '=', '='],
        base64_of(seq![a, b]) == seq![
            symbol(a as int / 4),
            symbol(a as int % 4 * 16 + b as int / 16),
            symbol(b as int % 16 * 4),
            '=',
        ],
        base64_of(seq![a, b, c] + rest) == seq![
            symbol(a as int / 4),
            symbol(a as int % 4 * 16 + b as int / 16),
            symbol(b as int % 16 * 4 + c as int / 64),
            symbol(c as int % 64),
        ] + base64_of(rest),
{
    lemma_sextets(a as int, b as int, c as int);
    lemma_sextets(a as int, b as int, 0);
    lemma_sextets(a as int, 0, 0);
    assert(quartet(seq![a]) =~= seq![symbol(a as int / 4), symbol(a as int % 4 * 16), '=', '=']);
    assert(quartet(seq![a, b]) =~= seq![
        symbol(a as int / 4),
        symbol(a as int % 4 * 16 + b as int / 16),
        symbol(b as int % 16 * 4),
        '=',
    ]);
    let three = seq![a, b, c];
    let four = seq![
        symbol(a as int / 4),
        symbol(a as int % 4 * 16 + b as int / 16),
        symbol(b as int % 16 * 4 + c as int / 64),
        symbol(c as int % 64),
    ];
    assert(quartet(three) =~= four);
    let data = three + rest;
    if rest.len() == 0 {
        assert(data =~= three);
        assert(four + base64_of(rest) =~= four);
    } else {
        assert(data.take(3) =~= three);
        assert(data.skip(3) =~= rest);
    }
}

/// A server accepts an upgrade by the digest, in base64, of the key with the identifier of the
/// protocol behind it.
pub proof fn law_upgrades_are_accepted_by_digest(key: Seq<char>)
    ensures
        accept_of(key) == base64_of(
            digest(vstd::utf8::encode_utf8(key + "258EAFA5-E914-47DA-95CA-C5AB0DC85B11"@)),
        ),
{
}

/// What comes after a frame of a client is left to the next: the frame is its first byte, its second
/// with the length, which 126 says stands in the next two bytes, the four bytes of its mask, and its
/// payload under the mask.
#[verifier::rlimit(40)]
pub proof fn law_frames_are_read_by_their_head(
    first: u8,
    second: u8,
    high: u8,
    low: u8,
    mask: Seq<u8>,
    body: Seq<u8>,
    rest: Seq<u8>,
)
    requires
        mask.len() == 4,
        second as int % 128 == 126 ==> body.len() == high as int * 256 + low as int,
        second as int % 128 != 126 ==> body.len() == second as int % 128,
    ensures
        ({
            let head = if second as int % 128 == 126 {
                seq![first, second, high, low]
            } else {
                seq![first, second]
            };
            let bytes = head + mask + body + rest;
            &&& frame_stands(bytes)
            &&& frame_opcode(bytes) == first as int % 16
            &&& frame_payload(bytes) == Seq::new(body.len(), |i: int| body[i] ^ mask[i % 4])
            &&& frame_lengths(bytes).0 + frame_lengths(bytes).1 == head.len() + 4 + body.len()
            &&& first as int % 16 == 8 ==> echoed(bytes) == echo_frame(8, frame_payload(bytes))
            &&& first as int % 16 != 8 ==> echoed(bytes) == echo_frame(
                (first as int % 16) as u8,
                frame_payload(bytes),
            ) + echoed(rest)
        }),
{
    let head = if second as int % 128 == 126 {
        seq![first, second, high, low]
    } else {
        seq![first, second]
    };
    let bytes = head + mask + body + rest;
    assert(bytes[0] == first);
    assert(bytes[1] == second);
    let n = (head.len() + 4) as int;
    if second as int % 128 == 126 {
        assert(bytes[2] == high);
        assert(bytes[3] == low);
    }
    assert(frame_lengths(bytes) == (n as nat, body.len()));
    assert(bytes.subrange(n, n + body.len()) =~= body);
    assert(bytes.subrange(n - 4, n) =~= mask);
    assert(frame_payload(bytes) =~= Seq::new(body.len(), |i: int| body[i] ^ mask[i % 4]));
    assert(bytes.skip(n + body.len()) =~= rest);
}

/// A frame that has not come in full is not answered.
pub proof fn law_parts_of_frames_are_not_answered(bytes: Seq<u8>)
    requires
        bytes.len() < 6 || (bytes[1] as int % 128 != 126 && bytes.len() < 6 + bytes[1] as int % 128)
            || (bytes[1] as int % 128 == 126 && bytes.len() < 8 + bytes[2] as int * 256
            + bytes[3] as int),
    ensures
        echoed(bytes).len() == 0,
{
}

/// An answer is one last frame of the same kind, without a mask, whose length of 126 and more stands in
/// two bytes of its own; a text comes back with `echo:` before it, anything else as it is.
#[verifier::rlimit(40)]
pub proof fn law_answers_are_frames(opcode: u8, payload: Seq<u8>)
    requires
        opcode < 16,
    ensures
        ({
            let reply = if opcode == 1 {
                vstd::utf8::encode_utf8("echo:"@) + payload
            } else {
                payload
            };
            let frame = echo_frame(opcode, payload);
            &&& frame[0] == 128 + opcode
            &&& reply.len() < 126 ==> frame.len() == 2 + reply.len() && frame[1] == reply.len()
                && frame.skip(2) == reply
            &&& reply.len() >= 126 ==> frame.len() == 4 + reply.len() && frame[1] == 126
                && frame.skip(4) == reply
            &&& 126 <= reply.len() < 0x1_0000 ==> frame[2] as int * 256 + frame[3] as int
                == reply.len()
        }),
{
    let reply = if opcode == 1 {
        vstd::utf8::encode_utf8("echo:"@) + payload
    } else {
        payload
    };
    let frame = echo_frame(opcode, payload);
    assert(0x80u8 | opcode == 128 + opcode) by (bit_vector)
        requires
            opcode < 16,
    ;
    if reply.len() < 126 {
        assert(frame =~= seq![(0x80 | opcode) as u8, reply.len() as u8] + reply);
        assert(frame.skip(2) =~= reply);
    } else {
        assert(frame =~= seq![
            (0x80 | opcode) as u8,
            126u8,
            (reply.len() / 0x100 % 0x100) as u8,
            (reply.len() % 0x100) as u8,
        ] + reply);
        assert(frame.skip(4) =~= reply);
    }
}

/// What a route serves is served with status 200 from then on, and no other route changes.
pub proof fn law_routes_serve_what_they_are_given(
    server: &mut TestServer,
    path: &str,
    content_type: &str,
    body: &str,
    target: Seq<char>,
)
    requires
        call_ensures(TestServer::route, (server, path, content_type, body), ()),
    ensures
        path_of(target) == path@ ==> answer_to(final(server).routes@, target) == response_text(
            200,
            content_type@,
            body@,
        ),
        path_of(target) != path@ ==> answer_to(final(server).routes@, target) == answer_to(
            old(server).routes@,
            target,
        ),
        final(server).requests@ == old(server).requests@,
{
    if path_of(target) != path@ {
        assert(routed(final(server).routes@, path_of(target)) == routed(
            old(server).routes@,
            path_of(target),
        ));
    }
}

/// A request with a key asks for an upgrade and is not recorded; any other is recorded by its target,
/// last, and answered by its route.
pub proof fn law_requests_are_answered_and_recorded(
    server: &mut TestServer,
    line: &str,
    headers: &Vec<String>,
    r: Reply,
)
    requires
        call_ensures(TestServer::serve, (server, line, headers), r),
    ensures
        r is Upgrade <==> last_header(text::texts(headers@), "sec-websocket-key"@) is Some,
        r matches Reply::Upgrade(k) ==> last_header(text::texts(headers@), "sec-websocket-key"@)
            == Some(k@) && final(server).requests@ == old(server).requests@,
        r matches Reply::Response(t) ==> t@ == answer_to(old(server).routes@, target_of(line@))
            && text::texts(final(server).requests@) == text::texts(old(server).requests@) + seq![
            target_of(line@),
        ],
        final(server).routes@ == old(server).routes@,
{
    let was = text::texts(old(server).requests@);
    assert(was.push(target_of(line@)) =~= was + seq![target_of(line@)]);
}

/// The head of a request ends at a blank line, or where the stream does.
pub proof fn law_heads_end_at_a_blank_line(line: &str, r: bool)
    requires
        call_ensures(ends_head, (line,), r),
    ensures
        line@ == "\r\n"@ ==> r,
        line@ == ""@ ==> r,
        r ==> line@ == "\r\n"@ || line@ == ""@,
{
    reveal_strlit("");
    assert(line@.len() == 0 ==> line@ =~= ""@);
}

/// An upgrade is accepted with the protocol's answer to the key.
pub proof fn law_upgrades_switch_protocols(key: &str, r: String)
    requires
        call_ensures(accept_upgrade, (key,), r),
    ensures
        r@
            == "HTTP/1.1 101 Switching Protocols\r\nUpgrade: websocket\r\nConnection: Upgrade\r\nSec-WebSocket-Accept: "@
            + accept_of(key@) + "\r\n\r\n"@,
{
}

/// The requests of a path are those recorded whose target has it, in order.
pub proof fn law_requests_are_listed_by_path(server: &TestServer, path: &str, r: Vec<String>)
    requires
        call_ensures(TestServer::requests_for, (server, path), r),
    ensures
        text::texts(r@) == text::texts(server.requests@).filter(
            |target: Seq<char>| path_of(target) == path@,
        ),
{
    assert((|target: Seq<char>| path_of(target) == path@) =~= for_path(path@));
}

/// A new server has no routes and has had no requests, so whatever is asked for is not found.
pub proof fn law_new_servers_find_nothing(r: TestServer, target: Seq<char>)
    requires
        call_ensures(TestServer::new, (), r),
    ensures
        r.requests@.len() == 0,
        answer_to(r.routes@, target) == response_text(404, "text/plain"@, "not found"@),
{
}

/// Base64 and the digest of bytes are computed as stated, and reading base64 back gives the bytes.
pub proof fn law_encodings_are_computed(
    data: &Vec<u8>,
    encoded: String,
    digested: Vec<u8>,
    echo: Vec<u8>,
    line: &str,
    target: String,
)
    requires
        call_ensures(base64, (data,), encoded),
        call_ensures(sha1, (data,), digested),
        call_ensures(websocket_echo, (data,), echo),
        call_ensures(request_target, (line,), target),
    ensures
        encoded@ == base64_of(data@),
        decoded(encoded@) == data@,
        digested@ == digest(data@),
        digested@.len() == 20,
        echo@ == echoed(data@),
        target@ == target_of(line@),
{
    law_base64_reads_back(data@);
}

/// A frame that is read is the one that stands at the place, with what it takes; none is read where it
/// has not come in full.
pub proof fn law_frames_are_read_in_full(
    bytes: &Vec<u8>,
    at: usize,
    r: Option<Frame>,
)
    requires
        call_ensures(next_frame, (bytes, at), r),
        at <= bytes@.len(),
    ensures
        r is Some <==> frame_stands(bytes@.skip(at as int)),
        r matches Some(f) ==> f.opcode == frame_opcode(bytes@.skip(at as int)) && f.payload@
            == frame_payload(bytes@.skip(at as int)) && f.taken == frame_lengths(
            bytes@.skip(at as int),
        ).0 + f.payload@.len(),
{
    if let Some(f) = r {
        let rest = bytes@.skip(at as int);
        assert(frame_payload(rest).len() == frame_lengths(rest).1);
    }
}

/// The length of a long answer is written in its low sixteen bits.
pub proof fn law_long_answers_have_two_bytes_of_length(opcode: u8, payload: Seq<u8>)
    requires
        payload.len() >= 126,
        opcode != 1,
    ensures
        echo_frame(opcode, payload).len() == payload.len() + 4,
        echo_frame(opcode, payload)[1] == 126,
        echo_frame(opcode, payload)[2] as int * 256 + echo_frame(opcode, payload)[3] as int
            == payload.len() % 65536,
{
    let n = payload.len() as int;
    assert(n / 0x100 % 0x100 * 256 + n % 0x100 == n % 65536);
}

/// A header that is found is the last of its name.
pub proof fn law_found_headers_are_the_last(
    lines: &Vec<String>,
    name: &str,
    r: Option<String>,
)
    requires
        call_ensures(find_header, (lines, name), r),
    ensures
        r matches Some(v) ==> exists|i: int|
            0 <= i < lines@.len() && header_of((#[trigger] lines@[i])@) == Some((name@, v@))
                && forall|j: int|
                i < j < lines@.len() ==> !(header_of((#[trigger] lines@[j])@) matches Some(h) && h.0
                    == name@),
        r is None ==> forall|j: int|
            0 <= j < lines@.len() ==> !(header_of((#[trigger] lines@[j])@) matches Some(h) && h.0
                == name@),
{
    let all = text::texts(lines@);
    law_the_last_header_counts(all, name@);
    assert forall|i: int| 0 <= i < all.len() implies #[trigger] all[i] == lines@[i]@ by {}
    if let Some(v) = r {
        let i = choose|i: int|
            0 <= i < all.len() && header_of(#[trigger] all[i]) == Some((name@, v@)) && forall|j: int|
                i < j < all.len() ==> !(header_of(#[trigger] all[j]) matches Some(h) && h.0
                    == name@);
        assert(header_of(lines@[i]@) == Some((name@, v@)));
        assert forall|j: int| i < j < lines@.len() implies !(header_of((#[trigger] lines@[j])@)
            matches Some(h) && h.0 == name@) by {
            assert(!(header_of(all[j]) matches Some(h) && h.0 == name@));
        }
    } else {
        assert forall|j: int| 0 <= j < lines@.len() implies !(header_of((#[trigger] lines@[j])@)
            matches Some(h) && h.0 == name@) by {
            assert(!(header_of(all[j]) matches Some(h) && h.0 == name@));
        }
    }
}

} // verus!
