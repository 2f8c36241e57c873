//! HTTP requests: where a URL's request goes, and how a response is taken in. The transport itself
//! is the host's; it performs the actions handed to it and reports what came of each.

use crate::text;
use vstd::prelude::*;

verus! {

/// The parts of an absolute URL that a request needs.
pub struct UrlParts {
    pub scheme: String,
    pub host: Option<String>,
    pub port: Option<u16>,
    pub path: String,
    pub query: Option<String>,
}

pub struct UrlView {
    pub scheme: Seq<char>,
    pub host: Option<Seq<char>>,
    pub port: Option<u16>,
    pub path: Seq<char>,
    pub query: Option<Seq<char>>,
}

impl View for UrlParts {
    type V = UrlView;

    open spec fn view(&self) -> UrlView {
        UrlView {
            scheme: self.scheme@,
            host: text::option_text(self.host),
            port: self.port,
            path: self.path@,
            query: text::option_text(self.query),
        }
    }
}

/// What `url::Url::parse` makes of a text: the parts of the URL, or the text of its error.
pub uninterp spec fn url_of(text: Seq<char>) -> Result<UrlView, Seq<char>>;

/// `url::Url::parse`, with the URL read out by `scheme`, `host_str`, `port_or_known_default`, `path`
/// and `query`, or the text of the error. The outcome depends on the text alone.
#[verifier::external_body]
fn parse_url(text: &str) -> (r: Result<UrlParts, String>)
    ensures
        match r {
            Ok(u) => url_of(text@) == Ok::<UrlView, Seq<char>>(u@),
            Err(e) => url_of(text@) == Err::<UrlView, Seq<char>>(e@),
        },
{
    let u = url::Url::parse(text).map_err(|e| e.to_string())?;
    Ok(
        UrlParts {
            scheme: u.scheme().to_string(),
            host: u.host_str().map(str::to_string),
            port: u.port_or_known_default(),
            path: u.path().to_string(),
            query: u.query().map(str::to_string),
        },
    )
}

/// Where a request goes.
pub struct Target {
    pub secure: bool,
    pub host: String,
    pub port: u16,
    pub object: String,
}

pub struct TargetView {
    pub secure: bool,
    pub host: Seq<char>,
    pub port: u16,
    pub object: Seq<char>,
}

impl View for Target {
    type V = TargetView;

    open spec fn view(&self) -> TargetView {
        TargetView {
            secure: self.secure,
            host: self.host@,
            port: self.port,
            object: self.object@,
        }
    }
}

/// Whether requests of a scheme are encrypted; nothing for a scheme that cannot be requested.
pub open spec fn scheme_security(scheme: Seq<char>) -> Option<bool> {
    if scheme == "http"@ || scheme == "ws"@ {
        Some(false)
    } else if scheme == "https"@ || scheme == "wss"@ {
        Some(true)
    } else {
        None
    }
}

/// The path of a URL with its query behind it.
pub open spec fn object_of(u: UrlView) -> Seq<char> {
    match u.query {
        Some(q) => u.path.push('?') + q,
        None => u.path,
    }
}

/// Where the request for `url` goes, given what the URL parser made of it, or why there is none.
pub open spec fn target_of(url: Seq<char>, parsed: Result<UrlView, Seq<char>>) -> Result<
    TargetView,
    Seq<char>,
> {
    match parsed {
        Err(e) => Err("invalid URL '"@ + url + "': "@ + e),
        Ok(u) => match scheme_security(u.scheme) {
            None => Err("unsupported URL scheme '"@ + u.scheme + "' in "@ + url),
            Some(secure) => match u.host {
                None => Err("URL has no host: "@ + url),
                Some(host) => Ok(
                    TargetView {
                        secure,
                        host,
                        port: match u.port {
                            Some(p) => p,
                            None => if secure {
                                443
                            } else {
                                80
                            },
                        },
                        object: object_of(u),
                    },
                ),
            },
        },
    }
}

/// Where the request for `url` goes, given its parts or why it has none.
pub fn target_from(url: &str, parsed: Result<UrlParts, String>) -> (r: Result<Target, String>)
    ensures
        ({
            let stated = target_of(
                url@,
                match parsed {
                    Ok(u) => Ok(u@),
                    Err(e) => Err(e@),
                },
            );
            match r {
                Ok(t) => stated == Ok::<TargetView, Seq<char>>(t@),
                Err(e) => stated == Err::<TargetView, Seq<char>>(e@),
            }
        }),
{
    let u = match parsed {
        Ok(u) => u,
        Err(e) => {
            let mut m = text::concat3("invalid URL '", url, "': ");
            m.append(e.as_str());
            return Err(m);
        },
    };
    let scheme = u.scheme.as_str();
    let secure = if text::same_text(scheme, "http") || text::same_text(scheme, "ws") {
        false
    } else if text::same_text(scheme, "https") || text::same_text(scheme, "wss") {
        true
    } else {
        let mut m = text::concat3("unsupported URL scheme '", scheme, "' in ");
        m.append(url);
        return Err(m);
    };
    let host = match u.host {
        Some(host) => host,
        None => {
            return Err(text::concat2("URL has no host: ", url));
        },
    };
    let port: u16 = match u.port {
        Some(p) => p,
        None => if secure {
            443
        } else {
            80
        },
    };
    let mut object = u.path;
    if let Some(q) = u.query {
        object.push('?');
        object.append(q.as_str());
    }
    Ok(Target { secure, host, port, object })
}

/// Where the GET request for `url` goes, or why it cannot be made.
pub fn request_target(url: &str) -> (r: Result<Target, String>)
    ensures
        match r {
            Ok(t) => target_of(url@, url_of(url@)) == Ok::<TargetView, Seq<char>>(t@),
            Err(e) => target_of(url@, url_of(url@)) == Err::<TargetView, Seq<char>>(e@),
        },
{
    target_from(url, parse_url(url))
}

/// A response, taken in whole.
pub struct Response {
    pub status: u32,
    pub content_type: String,
    pub body: Vec<u8>,
}

pub struct ResponseView {
    pub status: u32,
    pub content_type: Seq<char>,
    pub body: Seq<u8>,
}

impl View for Response {
    type V = ResponseView;

    open spec fn view(&self) -> ResponseView {
        ResponseView {
            status: self.status,
            content_type: self.content_type@,
            body: self.body@,
        }
    }
}

/// How much of a header buffer is the value: `len` is in bytes.
pub open spec fn header_units(units: Seq<u16>, len: u32) -> Seq<u16> {
    if len as int / 2 < units.len() {
        units.take(len as int / 2)
    } else {
        units
    }
}

/// The value of a header that the transport wrote into `units`, `len` bytes of it; nothing when it
/// has no such header.
pub fn header_text(found: bool, units: &Vec<u16>, len: u32) -> (r: String)
    ensures
        found ==> r@ == text::read_utf16(header_units(units@, len)),
        !found ==> r@ == Seq::<char>::empty(),
{
    if !found {
        return String::new();
    }
    let wanted: usize = (len / 2) as usize;
    let n: usize = if wanted < units.len() {
        wanted
    } else {
        units.len()
    };
    let mut value: Vec<u16> = Vec::new();
    for i in 0..n
        invariant
            n <= units@.len(),
            value@ == units@.take(i as int),
    {
        value.push(units[i]);
        assert(units@.take(i as int).push(units@[i as int]) == units@.take(i + 1));
    }
    assert(value@ == header_units(units@, len));
    text::from_utf16_lossy(&value)
}

/// How far a GET has come.
pub enum Stage {
    Sending,
    Receiving,
    Reading,
    Filling,
    Finished,
}

/// A GET in progress.
pub struct Get {
    pub stage: Stage,
    pub status: u32,
    pub content_type: String,
    pub body: Vec<u8>,
}

pub struct GetView {
    pub stage: Stage,
    pub status: u32,
    pub content_type: Seq<char>,
    pub body: Seq<u8>,
}

impl View for Get {
    type V = GetView;

    open spec fn view(&self) -> GetView {
        GetView {
            stage: self.stage,
            status: self.status,
            content_type: self.content_type@,
            body: self.body@,
        }
    }
}

/// What the transport reports.
pub enum GetEvent {
    /// The request went out, or the reason it did not.
    Sent(Result<(), String>),
    /// The response's head is there with this status and content type, or the reason it is not.
    Received(Result<(u32, String), String>),
    /// So many bytes of the body can be read, or the reason none can.
    Available(Result<u32, String>),
    /// A read filled so many bytes of the buffer, or the reason it failed.
    Read(Result<(Vec<u8>, u32), String>),
}

/// What the transport is to do next.
pub enum GetAction {
    Receive,
    QueryAvailable,
    /// Read into a buffer of this size.
    Read(u32),
    Done(Result<Response, String>),
}

pub enum GetActionView {
    Receive,
    QueryAvailable,
    Read(u32),
    Done(Result<ResponseView, Seq<char>>),
}

impl View for GetAction {
    type V = GetActionView;

    open spec fn view(&self) -> GetActionView {
        match *self {
            GetAction::Receive => GetActionView::Receive,
            GetAction::QueryAvailable => GetActionView::QueryAvailable,
            GetAction::Read(n) => GetActionView::Read(n),
            GetAction::Done(Ok(r)) => GetActionView::Done(Ok(r@)),
            GetAction::Done(Err(e)) => GetActionView::Done(Err(e@)),
        }
    }
}

/// Whether a report is the one that the stage waits for.
pub open spec fn awaited(stage: Stage, event: GetEvent) -> bool {
    match stage {
        Stage::Sending => event is Sent,
        Stage::Receiving => event is Received,
        Stage::Reading => event is Available,
        Stage::Filling => event is Read,
        Stage::Finished => false,
    }
}

/// The bytes that a read put into its buffer.
pub open spec fn filled(buffer: Seq<u8>, read: u32) -> Seq<u8> {
    if read < buffer.len() {
        buffer.take(read as int)
    } else {
        buffer
    }
}

/// A failed GET.
pub open spec fn failed(s: GetView, message: Seq<char>) -> (GetView, GetActionView) {
    (GetView { stage: Stage::Finished, ..s }, GetActionView::Done(Err(message)))
}

/// A complete GET.
pub open spec fn complete(s: GetView) -> (GetView, GetActionView) {
    (
        GetView { stage: Stage::Finished, ..s },
        GetActionView::Done(
            Ok(ResponseView { status: s.status, content_type: s.content_type, body: s.body }),
        ),
    )
}

/// The steps of an exchange.
#[derive(Clone, Copy, PartialEq, Eq, Structural, Debug)]
pub enum Exchange {
    Send,
    Receive,
}

/// The message of an exchange that failed.
pub open spec fn exchange_message(step: Exchange, error: Seq<char>) -> Seq<char> {
    match step {
        Exchange::Send => "request failed: "@ + error,
        Exchange::Receive => "no response: "@ + error,
    }
}

/// The message of an exchange that failed.
pub fn exchange_error(step: Exchange, error: &str) -> (r: String)
    ensures
        r@ == exchange_message(step, error@),
{
    match step {
        Exchange::Send => text::concat2("request failed: ", error),
        Exchange::Receive => text::concat2("no response: ", error),
    }
}

/// What a report leads to. Each transport error ends the GET with a message that says which step it
/// came from; a body ends when nothing more is available, or when a read gives nothing.
pub open spec fn get_step(s: GetView, event: GetEvent) -> (GetView, GetActionView) {
    match event {
        GetEvent::Sent(Err(e)) => failed(s, exchange_message(Exchange::Send, e@)),
        GetEvent::Sent(Ok(())) => (
            GetView { stage: Stage::Receiving, ..s },
            GetActionView::Receive,
        ),
        GetEvent::Received(Err(e)) => failed(s, exchange_message(Exchange::Receive, e@)),
        GetEvent::Received(Ok((status, content_type))) => (
            GetView { stage: Stage::Reading, status, content_type: content_type@, body: s.body },
            GetActionView::QueryAvailable,
        ),
        GetEvent::Available(Err(e)) => failed(s, "reading body failed: "@ + e@),
        GetEvent::Available(Ok(n)) => if n == 0 {
            complete(s)
        } else {
            (GetView { stage: Stage::Filling, ..s }, GetActionView::Read(n))
        },
        GetEvent::Read(Err(e)) => failed(s, "reading body failed: "@ + e@),
        GetEvent::Read(Ok((buffer, read))) => {
            let now = GetView { stage: Stage::Reading, body: s.body + filled(buffer@, read), ..s };
            if read == 0 {
                complete(now)
            } else {
                (now, GetActionView::QueryAvailable)
            }
        },
    }
}

impl Get {
    /// A GET whose request is about to be sent.
    pub fn new() -> (r: Get)
        ensures
            r@ == (GetView {
                stage: Stage::Sending,
                status: 0,
                content_type: Seq::empty(),
                body: Seq::empty(),
            }),
    {
        Get { stage: Stage::Sending, status: 0, content_type: String::new(), body: Vec::new() }
    }

    /// Hands over the response and ends.
    fn finish(&mut self) -> (r: GetAction)
        ensures
            r@ == complete(old(self)@).1,
            final(self).stage is Finished,
    {
        self.stage = Stage::Finished;
        let mut content_type = String::new();
        std::mem::swap(&mut content_type, &mut self.content_type);
        let mut body: Vec<u8> = Vec::new();
        std::mem::swap(&mut body, &mut self.body);
        GetAction::Done(Ok(Response { status: self.status, content_type, body }))
    }

    /// Ends with a message.
    fn fail(&mut self, message: String) -> (r: GetAction)
        ensures
            r@ == GetActionView::Done(Err(message@)),
            final(self).stage is Finished,
    {
        self.stage = Stage::Finished;
        GetAction::Done(Err(message))
    }

    /// Takes in the awaited report and says what to do next.
    pub fn step(&mut self, event: GetEvent) -> (r: GetAction)
        requires
            awaited(old(self).stage, event),
        ensures
            r@ == get_step(old(self)@, event).1,
            r is Done ==> final(self).stage is Finished,
            !(r is Done) ==> final(self)@ == get_step(old(self)@, event).0,
    {
        match event {
            GetEvent::Sent(Err(e)) => self.fail(
                exchange_error(Exchange::Send, e.as_str()),
            ),
            GetEvent::Sent(Ok(())) => {
                self.stage = Stage::Receiving;
                GetAction::Receive
            },
            GetEvent::Received(Err(e)) => self.fail(
                exchange_error(Exchange::Receive, e.as_str()),
            ),
            GetEvent::Received(Ok((status, content_type))) => {
                self.stage = Stage::Reading;
                self.status = status;
                self.content_type = content_type;
                GetAction::QueryAvailable
            },
            GetEvent::Available(Err(e)) => self.fail(
                text::concat2("reading body failed: ", e.as_str()),
            ),
            GetEvent::Available(Ok(n)) => {
                if n == 0 {
                    self.finish()
                } else {
                    self.stage = Stage::Filling;
                    GetAction::Read(n)
                }
            },
            GetEvent::Read(Err(e)) => self.fail(
                text::concat2("reading body failed: ", e.as_str()),
            ),
            GetEvent::Read(Ok((mut buffer, read))) => {
                let ghost whole = buffer@;
                if (read as usize) < buffer.len() {
                    buffer.truncate(read as usize);
                }
                assert(buffer@ == filled(whole, read));
                self.body.append(&mut buffer);
                self.stage = Stage::Reading;
                if read == 0 {
                    self.finish()
                } else {
                    GetAction::QueryAvailable
                }
            },
        }
    }
}

/// The header that offers WebSocket sub-protocols; none when there are none to offer.
pub fn protocol_header(protocols: &Vec<String>) -> (r: String)
    ensures
        r@ == if protocols@.len() == 0 {
            Seq::<char>::empty()
        } else {
            "Sec-WebSocket-Protocol: "@ + text::join(text::texts(protocols@), ", "@) + "\r\n"@
        },
{
    if protocols.len() == 0 {
        String::new()
    } else {
        text::concat3(
            "Sec-WebSocket-Protocol: ",
            text::joined_texts(protocols, ", ").as_str(),
            "\r\n",
        )
    }
}

/// Whether the server took the upgrade: status 101 and no other.
pub fn handshake(status: u32) -> (r: Result<(), String>)
    ensures
        match r {
            Ok(()) => status == 101,
            Err(e) => status != 101 && e@ == "WebSocket handshake failed: HTTP "@ + text::decimal(
                status as nat,
            ),
        },
{
    if status == 101 {
        Ok(())
    } else {
        Err(
            text::concat2(
                "WebSocket handshake failed: HTTP ",
                text::decimal_text(status as u64).as_str(),
            ),
        )
    }
}

/// What the reads of a body leave, in order, when the last report is that nothing more is there.
pub open spec fn bytes_read(reads: Seq<(Seq<u8>, u32)>) -> Seq<u8>
    decreases reads.len(),
{
    if reads.len() == 0 {
        Seq::empty()
    } else {
        bytes_read(reads.drop_last()) + filled(reads.last().0, reads.last().1)
    }
}

/// The state after the reads.
pub open spec fn after_reads(s: GetView, reads: Seq<(Vec<u8>, u32)>) -> GetView
    decreases reads.len(),
{
    if reads.len() == 0 {
        s
    } else {
        get_step(
            after_reads(s, reads.drop_last()),
            GetEvent::Read(Ok(reads.last())),
        ).0
    }
}

/// A response's body is what the reads gave, in order and without gaps: nothing of it is lost or
/// doubled, however it was cut up.
pub proof fn law_body_is_what_was_read(s: GetView, reads: Seq<(Vec<u8>, u32)>)
    requires
        s.body.len() == 0,
        forall|i: int| 0 <= i < reads.len() ==> (#[trigger] reads[i]).1 > 0,
    ensures
        complete(after_reads(s, reads)).1 == GetActionView::Done(
            Ok(
                ResponseView {
                    status: s.status,
                    content_type: s.content_type,
                    body: bytes_read(
                        Seq::new(reads.len(), |i: int| (reads[i].0@, reads[i].1)),
                    ),
                },
            ),
        ),
        after_reads(s, reads).body == bytes_read(
            Seq::new(reads.len(), |i: int| (reads[i].0@, reads[i].1)),
        ),
        after_reads(s, reads).status == s.status,
        after_reads(s, reads).content_type == s.content_type,
    decreases reads.len(),
{
    let views = Seq::new(reads.len(), |i: int| (reads[i].0@, reads[i].1));
    if reads.len() > 0 {
        let d = reads.drop_last();
        assert forall|i: int| 0 <= i < d.len() implies (#[trigger] d[i]).1 > 0 by {
            assert(reads[i].1 > 0);
        }
        law_body_is_what_was_read(s, d);
        assert(views.drop_last() =~= Seq::new(d.len(), |i: int| (d[i].0@, d[i].1)));
        assert(reads[reads.len() - 1].1 > 0);
    } else {
        assert(s.body =~= bytes_read(views));
    }
}

/// Requests go out plain for `http` and `ws` and encrypted for `https` and `wss`; there is no request
/// for any other scheme.
pub proof fn law_schemes_say_whether_requests_are_secure(scheme: Seq<char>)
    ensures
        scheme_security("http"@) == Some(false),
        scheme_security("ws"@) == Some(false),
        scheme_security("https"@) == Some(true),
        scheme_security("wss"@) == Some(true),
        scheme_security(scheme) is Some ==> seq!["http"@, "ws"@, "https"@, "wss"@].contains(scheme),
{
    reveal_strlit("http");
    reveal_strlit("ws");
    reveal_strlit("https");
    reveal_strlit("wss");
    assert("http"@.len() == 4);
    assert("ws"@.len() == 2);
    assert("https"@.len() == 5);
    assert("wss"@.len() == 3);
    let all = seq!["http"@, "ws"@, "https"@, "wss"@];
    assert(all[0] == "http"@ && all[1] == "ws"@ && all[2] == "https"@ && all[3] == "wss"@);
}

/// The target of a request is what the URL says: its host, its port or that of its scheme, and its
/// path with its query. A URL that does not parse, has another scheme or no host, has none, and the
/// error says which.
pub proof fn law_targets_are_what_the_url_says(url: Seq<char>, u: UrlView, e: Seq<char>)
    ensures
        target_of(url, Err(e)) == Err::<TargetView, Seq<char>>("invalid URL '"@ + url + "': "@ + e),
        scheme_security(u.scheme) is None ==> target_of(url, Ok(u)) == Err::<TargetView, Seq<char>>(
            "unsupported URL scheme '"@ + u.scheme + "' in "@ + url,
        ),
        scheme_security(u.scheme) is Some && u.host is None ==> target_of(url, Ok(u)) == Err::<
            TargetView,
            Seq<char>,
        >("URL has no host: "@ + url),
        scheme_security(u.scheme) matches Some(secure) ==> (u.host matches Some(host) ==> (target_of(
            url,
            Ok(u),
        ) matches Ok(t) && t.secure == secure && t.host == host && (u.port matches Some(p) ==> t.port
            == p) && (u.port is None ==> t.port == (if secure {
            443u16
        } else {
            80u16
        })) && t.object == (if let Some(q) = u.query {
            u.path + seq!['?'] + q
        } else {
            u.path
        }))),
{
    if let Some(q) = u.query {
        assert(u.path.push('?') + q =~= u.path + seq!['?'] + q);
    }
}

/// A header of so many bytes is half as many code units, as far as there are so many.
pub proof fn law_headers_are_two_bytes_a_unit(units: Seq<u16>, len: u32)
    ensures
        header_units(units, len) == units.take(
            vstd::math::min(units.len() as int, len as int / 2),
        ),
{
    assert(units.take(units.len() as int) =~= units);
}

/// Of a buffer only the bytes that were read count.
pub proof fn law_only_bytes_read_count(buffer: Seq<u8>, read: u32)
    ensures
        filled(buffer, read) == buffer.take(vstd::math::min(buffer.len() as int, read as int)),
{
    assert(buffer.take(buffer.len() as int) =~= buffer);
}

/// A request is sent, then answered, then its body is read piece by piece until none is available or
/// none was read; the response has the status and the content type that came and all that was read.
#[verifier::rlimit(40)]
pub proof fn law_responses_are_read_to_the_end(
    s: GetView,
    status: u32,
    content_type: String,
    n: u32,
    buffer: Vec<u8>,
    read: u32,
)
    ensures
        get_step(s, GetEvent::Sent(Ok(()))) == (
            GetView { stage: Stage::Receiving, ..s },
            GetActionView::Receive,
        ),
        get_step(s, GetEvent::Received(Ok((status, content_type)))) == (
            GetView {
                stage: Stage::Reading,
                status,
                content_type: content_type@,
                body: s.body,
            },
            GetActionView::QueryAvailable,
        ),
        n > 0 ==> get_step(s, GetEvent::Available(Ok(n))) == (
            GetView { stage: Stage::Filling, ..s },
            GetActionView::Read(n),
        ),
        get_step(s, GetEvent::Available(Ok(0))).1 == GetActionView::Done(
            Ok(ResponseView { status: s.status, content_type: s.content_type, body: s.body }),
        ),
        get_step(s, GetEvent::Available(Ok(0))).0.stage == Stage::Finished,
        0 < read <= buffer@.len() ==> get_step(s, GetEvent::Read(Ok((buffer, read)))) == (
            GetView {
                stage: Stage::Reading,
                status: s.status,
                content_type: s.content_type,
                body: s.body + buffer@.take(read as int),
            },
            GetActionView::QueryAvailable,
        ),
        get_step(s, GetEvent::Read(Ok((buffer, 0)))).1 == GetActionView::Done(
            Ok(ResponseView { status: s.status, content_type: s.content_type, body: s.body }),
        ),
        get_step(s, GetEvent::Read(Ok((buffer, 0)))).0.stage == Stage::Finished,
{
    if read == buffer@.len() {
        assert(buffer@.take(read as int) =~= buffer@);
    }
    assert(filled(buffer@, 0).len() == 0);
    assert(s.body + filled(buffer@, 0) =~= s.body);
}

/// A step that fails ends the request with an error that says which step it was.
pub proof fn law_failed_steps_end_the_request(s: GetView, e: String)
    ensures
        get_step(s, GetEvent::Sent(Err(e))).1 == GetActionView::Done(
            Err::<ResponseView, Seq<char>>("request failed: "@ + e@),
        ),
        get_step(s, GetEvent::Received(Err(e))).1 == GetActionView::Done(
            Err::<ResponseView, Seq<char>>("no response: "@ + e@),
        ),
        get_step(s, GetEvent::Available(Err(e))).1 == GetActionView::Done(
            Err::<ResponseView, Seq<char>>("reading body failed: "@ + e@),
        ),
        get_step(s, GetEvent::Read(Err(e))).1 == GetActionView::Done(
            Err::<ResponseView, Seq<char>>("reading body failed: "@ + e@),
        ),
        get_step(s, GetEvent::Sent(Err(e))).0.stage == Stage::Finished,
        get_step(s, GetEvent::Received(Err(e))).0.stage == Stage::Finished,
        get_step(s, GetEvent::Available(Err(e))).0.stage == Stage::Finished,
        get_step(s, GetEvent::Read(Err(e))).0.stage == Stage::Finished,
        exchange_message(Exchange::Send, e@) == "request failed: "@ + e@,
        exchange_message(Exchange::Receive, e@) == "no response: "@ + e@,
{
}

/// Each stage of a request waits for its own event.
pub proof fn law_stages_wait_for_their_events(stage: Stage, event: GetEvent)
    ensures
        awaited(stage, event) <==> match event {
            GetEvent::Sent(_) => stage == Stage::Sending,
            GetEvent::Received(_) => stage == Stage::Receiving,
            GetEvent::Available(_) => stage == Stage::Reading,
            GetEvent::Read(_) => stage == Stage::Filling,
        },
{
}

/// Targets, responses, requests and actions read field by field.
pub proof fn law_requests_read_field_by_field(
    u: UrlParts,
    t: Target,
    r: Response,
    get: Get,
    action: GetAction,
)
    ensures
        u@.scheme == u.scheme@,
        u@.host == text::option_text(u.host),
        u@.port == u.port,
        u@.path == u.path@,
        u@.query == text::option_text(u.query),
        t@.secure == t.secure,
        t@.host == t.host@,
        t@.port == t.port,
        t@.object == t.object@,
        r@.status == r.status,
        r@.content_type == r.content_type@,
        r@.body == r.body@,
        get@.stage == get.stage,
        get@.status == get.status,
        get@.content_type == get.content_type@,
        get@.body == get.body@,
        action is Receive <==> action@ is Receive,
        action is QueryAvailable <==> action@ is QueryAvailable,
        action matches GetAction::Read(n) ==> action@ == GetActionView::Read(n),
        action matches GetAction::Done(Ok(done)) ==> action@ == GetActionView::Done(Ok(done@)),
        action matches GetAction::Done(Err(e)) ==> action@ == GetActionView::Done(Err(e@)),
{
}

/// A handshake succeeded with status 101 and with no other, and an error says which it was.
pub proof fn law_handshakes_switch_protocols(status: u32, r: Result<(), String>)
    requires
        call_ensures(handshake, (status,), r),
    ensures
        r is Ok <==> status == 101,
        r matches Err(e) ==> e@ == "WebSocket handshake failed: HTTP "@ + text::decimal(
            status as nat,
        ),
{
}

/// The protocols that are asked for go out in one header, in order; without any there is none.
pub proof fn law_protocols_go_out_in_one_header(protocols: &Vec<String>, r: String)
    requires
        call_ensures(protocol_header, (protocols,), r),
    ensures
        protocols@.len() == 0 ==> r@.len() == 0,
        protocols@.len() == 1 ==> r@ == "Sec-WebSocket-Protocol: "@ + protocols@[0]@ + "\r\n"@,
        protocols@.len() > 0 ==> r@ == "Sec-WebSocket-Protocol: "@ + text::join(
            text::texts(protocols@),
            ", "@,
        ) + "\r\n"@,
{
}

/// A header that was found reads as its code units, and one that was not as nothing.
pub proof fn law_headers_read_as_utf16(found: bool, units: &Vec<u16>, len: u32, r: String)
    requires
        call_ensures(header_text, (found, units, len), r),
    ensures
        !found ==> r@.len() == 0,
        found ==> r@ == text::read_utf16(
            units@.take(vstd::math::min(units@.len() as int, len as int / 2)),
        ),
{
    law_headers_are_two_bytes_a_unit(units@, len);
}

/// A request starts by sending, with nothing received.
pub proof fn law_requests_start_by_sending(r: Get)
    requires
        call_ensures(Get::new, (), r),
    ensures
        r.stage == Stage::Sending,
        r.status == 0,
        r.content_type@.len() == 0,
        r.body@.len() == 0,
{
    assert(r@.content_type == r.content_type@);
    assert(r@.body == r.body@);
}

/// The target of a parsed URL: its host, its port or that of its scheme, its path and query; and
/// there is one exactly where the scheme is one of the four and there is a host.
#[verifier::rlimit(40)]
pub proof fn law_parsed_urls_have_targets(url: &str, u: UrlParts, r: Result<Target, String>)
    requires
        call_ensures(target_from, (url, Ok(u)), r),
    ensures
        r is Ok <==> seq!["http"@, "ws"@, "https"@, "wss"@].contains(u.scheme@) && u.host is Some,
        r matches Ok(t) ==> t.host@ == u.host->Some_0@ && (t.secure <==> u.scheme@ == "https"@
            || u.scheme@ == "wss"@),
        r matches Ok(t) ==> (u.port matches Some(p) ==> t.port == p),
        r matches Ok(t) ==> (u.port is None ==> t.port == (if t.secure {
            443u16
        } else {
            80u16
        })),
        r matches Ok(t) ==> (u.query is None ==> t.object@ == u.path@),
        r matches Ok(t) ==> (u.query matches Some(q) ==> t.object@ == u.path@ + seq!['?'] + q@),
{
    law_schemes_say_whether_requests_are_secure(u.scheme@);
    law_targets_are_what_the_url_says(url@, u@, Seq::empty());
    let all = seq!["http"@, "ws"@, "https"@, "wss"@];
    if all.contains(u.scheme@) {
        let i = all.index_of(u.scheme@);
        assert(all[i] == u.scheme@);
    }
    reveal_strlit("http");
    reveal_strlit("ws");
    reveal_strlit("https");
    reveal_strlit("wss");
    assert("http"@.len() == 4);
    assert("ws"@.len() == 2);
    assert("https"@.len() == 5);
    assert("wss"@.len() == 3);
    assert(u@.scheme == u.scheme@);
}

/// What a request does next, and what it ends with.
#[verifier::rlimit(40)]
pub proof fn law_requests_step_as_stated(get: &mut Get, event: GetEvent, r: GetAction)
    requires
        call_ensures(Get::step, (get, event), r),
    ensures
        event matches GetEvent::Sent(Ok(())) ==> r is Receive && final(get).stage
            == Stage::Receiving,
        event matches GetEvent::Sent(Err(e)) ==> (r matches GetAction::Done(Err(m)) && m@
            == "request failed: "@ + e@),
        event matches GetEvent::Received(Err(e)) ==> (r matches GetAction::Done(Err(m)) && m@
            == "no response: "@ + e@),
        event matches GetEvent::Received(Ok((status, kind))) ==> r is QueryAvailable
            && final(get).status == status && final(get).content_type@ == kind@ && final(get).body@
            == old(get).body@,
        event matches GetEvent::Available(Ok(n)) ==> (n > 0 ==> r == GetAction::Read(n)
            && final(get).body@ == old(get).body@),
        event matches GetEvent::Available(Ok(n)) ==> (n == 0 ==> (r matches GetAction::Done(Ok(done))
            && done.status == old(get).status && done.content_type@ == old(get).content_type@
            && done.body@ == old(get).body@)),
        event matches GetEvent::Read(Ok((buffer, read))) ==> (0 < read <= buffer@.len()
            ==> r is QueryAvailable && final(get).body@ == old(get).body@ + buffer@.take(
            read as int,
        )),
        r is Done ==> final(get).stage == Stage::Finished,
{
    match event {
        GetEvent::Read(Ok((buffer, read))) => {
            law_only_bytes_read_count(buffer@, read);
            assert(final(get)@.body == final(get).body@);
        },
        _ => {
            assert(final(get)@.body == final(get).body@);
        },
    }
}

/// A URL's target is that of its parse, and a failed exchange says which step failed.
pub proof fn law_targets_are_those_of_the_parse(
    url: &str,
    r: Result<Target, String>,
    error: &str,
    sent: String,
    received: String,
)
    requires
        call_ensures(request_target, (url,), r),
        call_ensures(exchange_error, (Exchange::Send, error), sent),
        call_ensures(exchange_error, (Exchange::Receive, error), received),
    ensures
        r matches Ok(t) ==> target_of(url@, url_of(url@)) == Ok::<TargetView, Seq<char>>(t@),
        r matches Err(e) ==> target_of(url@, url_of(url@)) == Err::<TargetView, Seq<char>>(e@),
        sent@ == "request failed: "@ + error@,
        received@ == "no response: "@ + error@,
{
}

/// A read adds what it filled of its buffer to the body, and ends the response where it read nothing.
pub proof fn law_reads_add_to_the_body(s: GetView, buffer: Vec<u8>, read: u32)
    ensures
        get_step(s, GetEvent::Read(Ok((buffer, read)))).0.body == s.body + buffer@.take(
            vstd::math::min(buffer@.len() as int, read as int),
        ),
        get_step(s, GetEvent::Read(Ok((buffer, read)))).0.status == s.status,
        get_step(s, GetEvent::Read(Ok((buffer, read)))).0.content_type == s.content_type,
        read > 0 <==> get_step(s, GetEvent::Read(Ok((buffer, read)))).1
            == GetActionView::QueryAvailable,
{
    law_only_bytes_read_count(buffer@, read);
}

} // verus!
