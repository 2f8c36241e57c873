//! Fetching modules over HTTP: cache-bust nonces, the one retry, and what a response means.

use crate::json;
use crate::loader::security;
use crate::loader::security::{Security, SettingsView};
use crate::text;
use crate::text_set::TextSet;
use crate::winhttp::{Response, ResponseView};
use vstd::prelude::*;

verus! {

/// The headers of a module request.
pub const HEADERS: &'static str = "Cache-Control: no-cache, no-store, max-age=0\r\nPragma: no-cache\r\n";

/// How many modules are fetched at a time.
pub const MAX_PARALLEL: usize = 8;

#[derive(Clone, Copy, PartialEq, Eq, Structural, Debug)]
pub enum ModuleKind {
    JavaScript,
    Json,
}

/// A module as it came over the wire.
pub struct FetchedModule {
    pub kind: ModuleKind,
    pub body: String,
}

pub struct ModuleView {
    pub kind: ModuleKind,
    pub body: Seq<char>,
}

impl View for FetchedModule {
    type V = ModuleView;

    open spec fn view(&self) -> ModuleView {
        ModuleView { kind: self.kind, body: self.body@ }
    }
}

/// What fetches share: the keys whose next fetch must carry a unique nonce, the next nonce, and the
/// process it belongs to.
pub struct Busts {
    pub marks: TextSet,
    pub nonce: u64,
    pub process: u32,
}

/// Marks `keys`, canonical keys, so that the next fetch of each carries a nonce.
pub fn mark_keys_for_cache_bust(busts: &mut Busts, keys: &Vec<String>)
    ensures
        final(busts).marks@ == old(busts).marks@.union(text::texts(keys@).to_set()),
        final(busts).nonce == old(busts).nonce,
        final(busts).process == old(busts).process,
{
    let ghost all = text::texts(keys@);
    let ghost before = busts.marks@;
    assert(before.union(all.take(0).to_set()) =~= before);
    for i in 0..keys.len()
        invariant
            all == text::texts(keys@),
            busts.marks@ == before.union(all.take(i as int).to_set()),
            busts.nonce == old(busts).nonce,
            busts.process == old(busts).process,
    {
        busts.marks.insert(keys[i].clone());
        proof {
            let x = all[i as int];
            assert(all.take(i + 1) =~= all.take(i as int).push(x));
            assert(all.take(i as int).push(x).to_set() =~= all.take(i as int).to_set().insert(x))
                by {
                vstd::seq_lib::seq_to_set_distributes_over_add(all.take(i as int), seq![x]);
                lemma_singleton(x);
                assert(all.take(i as int).push(x) =~= all.take(i as int) + seq![x]);
            }
            assert(busts.marks@ =~= before.union(all.take(i + 1).to_set()));
        }
    }
    assert(all.take(all.len() as int) == all);
}

proof fn lemma_singleton(x: Seq<char>)
    ensures
        seq![x].to_set() == Set::<Seq<char>>::empty().insert(x),
{
    assert(seq![x][0] == x);
    assert(seq![x].to_set() =~= Set::<Seq<char>>::empty().insert(x));
}

/// The URL that goes over the wire: for a marked key, `url` with a parameter that no earlier request
/// had.
pub open spec fn wire_url(url: Seq<char>, bust: bool, process: u32, nonce: u64) -> Seq<char> {
    if bust {
        url.push(
            if text::pos_from(url, '?', 0) < url.len() {
                '&'
            } else {
                '?'
            },
        ) + "__ns_dev_nonce="@ + text::decimal(process as nat) + "-"@ + text::decimal(nonce as nat)
    } else {
        url
    }
}

/// One request of a module.
pub struct Request {
    pub wire_url: String,
    pub bust: bool,
}

/// Begins a request: whether it carries a nonce, and which.
pub fn begin_fetch(busts: &mut Busts, url: &str, key: &str) -> (r: Request)
    ensures
        r.bust == old(busts).marks@.contains(key@),
        r.wire_url@ == wire_url(url@, r.bust, old(busts).process, old(busts).nonce),
        final(busts).nonce == if r.bust {
            old(busts).nonce.wrapping_add(1)
        } else {
            old(busts).nonce
        },
        final(busts).marks@ == old(busts).marks@,
        final(busts).process == old(busts).process,
{
    let bust = busts.marks.contains(key);
    if !bust {
        return Request { wire_url: url.to_owned(), bust };
    }
    let n: u64 = busts.nonce;
    busts.nonce = n.wrapping_add(1);
    let cs = text::chars_of(url);
    let mut w = url.to_owned();
    if text::find_char(&cs, '?', 0) < cs.len() {
        w.push('&');
    } else {
        w.push('?');
    }
    w.append("__ns_dev_nonce=");
    w.append(text::decimal_text(busts.process as u64).as_str());
    w.append("-");
    w.append(text::decimal_text(n).as_str());
    Request { wire_url: w, bust }
}

/// Ends a request that carried a nonce or not: an answer uses the mark up, a transport error leaves
/// it for the next try.
pub fn end_fetch(busts: &mut Busts, key: &str, bust: bool, answered: bool)
    ensures
        final(busts).marks@ == if bust && answered {
            old(busts).marks@.remove(key@)
        } else {
            old(busts).marks@
        },
        final(busts).nonce == old(busts).nonce,
        final(busts).process == old(busts).process,
{
    if bust && answered {
        busts.marks.remove(key);
    }
}

/// The MIME type of a content type: without parameters and white space, in lower case.
pub open spec fn essence(content_type: Seq<char>) -> Seq<char> {
    text::lower(text::trim(content_type.take(text::pos_from(content_type, ';', 0))))
}

/// The MIME type of a content type.
pub fn mime_essence(content_type: &str) -> (r: String)
    ensures
        r@ == essence(content_type@),
{
    let cs = text::chars_of(content_type);
    let end: usize = text::find_char(&cs, ';', 0);
    let head = text::piece(&cs, 0, end);
    assert(head@ == content_type@.take(end as int));
    text::string_of(&text::lowered(&text::trimmed(&head)))
}

/// The MIME types of JSON.
pub open spec fn is_json_type(essence: Seq<char>) -> bool {
    essence == "application/json"@ || text::ends_with(essence, "+json"@)
}

/// The MIME types of JavaScript.
pub open spec fn is_js_type(essence: Seq<char>) -> bool {
    ||| essence == "text/javascript"@
    ||| essence == "application/javascript"@
    ||| essence == "application/x-javascript"@
    ||| essence == "text/ecmascript"@
    ||| essence == "application/ecmascript"@
    ||| essence == "module"@
}

/// What a response to the request for `url` means: a 2xx with a JavaScript type (an empty body is
/// the empty module) or a JSON type is a module; anything else is an error that names the URL.
pub open spec fn classified(url: Seq<char>, r: ResponseView) -> Result<ModuleView, Seq<char>> {
    let failed = "HTTP import failed: "@ + url + " (status="@ + text::decimal(r.status as nat);
    let e = essence(r.content_type);
    let body = text::read_utf8(r.body);
    if r.status == 204 || r.status == 205 {
        Err(failed + ", no content)"@)
    } else if !(200 <= r.status < 300) {
        Err(failed + ")"@)
    } else if is_json_type(e) {
        if body.len() == 0 {
            Err("Expected a JSON module but '"@ + url + "' responded with an empty body"@)
        } else {
            Ok(ModuleView { kind: ModuleKind::Json, body })
        }
    } else if is_js_type(e) {
        Ok(
            ModuleView {
                kind: ModuleKind::JavaScript,
                body: if body.len() == 0 {
                    "export {};\n"@
                } else {
                    body
                },
            },
        )
    } else if e.len() == 0 {
        Err("Expected a JavaScript module but '"@ + url + "' responded with no MIME type"@)
    } else {
        Err(
            "Expected a JavaScript module but '"@ + url + "' responded with MIME type '"@ + e
                + "'"@,
        )
    }
}

/// Whether `essence` is a JavaScript type.
fn has_js_type(essence: &str) -> (r: bool)
    ensures
        r == is_js_type(essence@),
{
    text::same_text(essence, "text/javascript") || text::same_text(
        essence,
        "application/javascript",
    ) || text::same_text(essence, "application/x-javascript") || text::same_text(
        essence,
        "text/ecmascript",
    ) || text::same_text(essence, "application/ecmascript") || text::same_text(essence, "module")
}

/// Whether an outcome is the one stated.
pub open spec fn is_outcome(
    r: Result<FetchedModule, String>,
    stated: Result<ModuleView, Seq<char>>,
) -> bool {
    match r {
        Ok(m) => stated == Ok::<ModuleView, Seq<char>>(m@),
        Err(e) => stated == Err::<ModuleView, Seq<char>>(e@),
    }
}

/// What a response to the request for `url` means.
pub fn classify_response(url: &str, response: &Response) -> (r: Result<FetchedModule, String>)
    ensures
        is_outcome(r, classified(url@, response@)),
{
    let status: u32 = response.status;
    if status == 204 || status == 205 || status < 200 || status >= 300 {
        let mut m = text::concat3("HTTP import failed: ", url, " (status=");
        m.append(text::decimal_text(status as u64).as_str());
        if status == 204 || status == 205 {
            m.append(", no content)");
        } else {
            m.append(")");
        }
        return Err(m);
    }
    let e = mime_essence(response.content_type.as_str());
    let body = text::from_utf8_lossy(&response.body);
    let cs = text::chars_of(body.as_str());
    let empty: bool = cs.len() == 0;
    if text::same_text(e.as_str(), "application/json") || text::has_ending(
        &text::chars_of(e.as_str()),
        &text::chars_of("+json"),
    ) {
        if empty {
            return Err(
                text::concat3(
                    "Expected a JSON module but '",
                    url,
                    "' responded with an empty body",
                ),
            );
        }
        return Ok(FetchedModule { kind: ModuleKind::Json, body });
    }
    if has_js_type(e.as_str()) {
        return Ok(
            FetchedModule {
                kind: ModuleKind::JavaScript,
                body: if empty {
                    "export {};\n".to_owned()
                } else {
                    body
                },
            },
        );
    }
    let ecs = text::chars_of(e.as_str());
    if ecs.len() == 0 {
        return Err(
            text::concat3(
                "Expected a JavaScript module but '",
                url,
                "' responded with no MIME type",
            ),
        );
    }
    Err(
        text::concat5(
            "Expected a JavaScript module but '",
            url,
            "' responded with MIME type '",
            e.as_str(),
            "'",
        ),
    )
}

/// A fetch in progress: which module, whether its last request carried a nonce, and whether the
/// retry is used up.
pub struct Fetch {
    pub url: String,
    pub key: String,
    pub bust: bool,
    pub retried: bool,
}

/// What the host is to do next.
pub enum FetchStep {
    /// Send a GET with [`HEADERS`] to this URL.
    Send(String),
    Done(Result<FetchedModule, String>),
}

/// The message of a URL that may not be loaded.
pub open spec fn blocked_message(url: Seq<char>) -> Seq<char> {
    "HTTP import blocked: remote module loading is not allowed for "@ + url
        + " (set security.allowRemoteModules in the app's package.json)"@
}

/// Starts the fetch of one module: a URL that may not be loaded is refused before anything is sent.
pub fn start_fetch(
    security: &Security,
    busts: &mut Busts,
    url: &str,
    key: &str,
) -> (r: (Fetch, FetchStep))
    ensures
        r.0.url@ == url@,
        r.0.key@ == key@,
        !r.0.retried,
        match r.1 {
            FetchStep::Send(w) => {
                &&& security::allowed(
                    security.debug_build,
                    security::settings_view(security.settings),
                    url@,
                )
                &&& r.0.bust == old(busts).marks@.contains(key@)
                &&& w@ == wire_url(url@, r.0.bust, old(busts).process, old(busts).nonce)
                &&& final(busts).nonce == if r.0.bust {
                    old(busts).nonce.wrapping_add(1)
                } else {
                    old(busts).nonce
                }
                &&& final(busts).marks@ == old(busts).marks@
                &&& final(busts).process == old(busts).process
            },
            FetchStep::Done(Err(e)) => {
                &&& !security::allowed(
                    security.debug_build,
                    security::settings_view(security.settings),
                    url@,
                )
                &&& e@ == blocked_message(url@)
                &&& *final(busts) == *old(busts)
            },
            FetchStep::Done(Ok(_)) => false,
        },
{
    if !security::remote_url_allowed(security, url) {
        let m = text::concat3(
            "HTTP import blocked: remote module loading is not allowed for ",
            url,
            " (set security.allowRemoteModules in the app's package.json)",
        );
        let fetch = Fetch { url: url.to_owned(), key: key.to_owned(), bust: false, retried: false };
        return (fetch, FetchStep::Done(Err(m)));
    }
    let request = begin_fetch(busts, url, key);
    let fetch = Fetch {
        url: url.to_owned(),
        key: key.to_owned(),
        bust: request.bust,
        retried: false,
    };
    (fetch, FetchStep::Send(request.wire_url))
}

/// Takes in what came of the last request. An answer settles the fetch and uses the mark of the key
/// up; the first transport error has the request sent once more, with a fresh nonce where the key is
/// still marked; the second one is the outcome.
pub fn resume_fetch(
    fetch: &mut Fetch,
    busts: &mut Busts,
    reply: Result<Response, String>,
) -> (r: FetchStep)
    ensures
        final(fetch).url@ == old(fetch).url@,
        final(fetch).key@ == old(fetch).key@,
        final(busts).process == old(busts).process,
        match reply {
            Ok(response) => {
                &&& r matches FetchStep::Done(outcome) && is_outcome(
                    outcome,
                    classified(old(fetch).url@, response@),
                )
                &&& final(busts).marks@ == if old(fetch).bust {
                    old(busts).marks@.remove(old(fetch).key@)
                } else {
                    old(busts).marks@
                }
                &&& final(busts).nonce == old(busts).nonce
                &&& *final(fetch) == *old(fetch)
            },
            Err(e) => if old(fetch).retried {
                &&& r matches FetchStep::Done(Err(m)) && m@ == "HTTP import failed: "@ + old(
                    fetch,
                ).url@ + " ("@ + e@ + ")"@
                &&& final(busts).marks@ == old(busts).marks@
                &&& final(busts).nonce == old(busts).nonce
                &&& *final(fetch) == *old(fetch)
            } else {
                &&& final(fetch).retried
                &&& final(fetch).bust == old(busts).marks@.contains(old(fetch).key@)
                &&& r matches FetchStep::Send(w) && w@ == wire_url(
                    old(fetch).url@,
                    final(fetch).bust,
                    old(busts).process,
                    old(busts).nonce,
                )
                &&& final(busts).nonce == if final(fetch).bust {
                    old(busts).nonce.wrapping_add(1)
                } else {
                    old(busts).nonce
                }
                &&& final(busts).marks@ == old(busts).marks@
            },
        },
{
    match reply {
        Ok(response) => {
            end_fetch(busts, fetch.key.as_str(), fetch.bust, true);
            FetchStep::Done(classify_response(fetch.url.as_str(), &response))
        },
        Err(e) => {
            end_fetch(busts, fetch.key.as_str(), fetch.bust, false);
            if fetch.retried {
                return FetchStep::Done(
                    Err(
                        text::concat5(
                            "HTTP import failed: ",
                            fetch.url.as_str(),
                            " (",
                            e.as_str(),
                            ")",
                        ),
                    ),
                );
            }
            let request = begin_fetch(busts, fetch.url.as_str(), fetch.key.as_str());
            fetch.retried = true;
            fetch.bust = request.bust;
            FetchStep::Send(request.wire_url)
        },
    }
}

/// Where the `k`th batch of a list of `n` modules ends.
pub open spec fn batch_end(n: int, k: int) -> int {
    if (k + 1) * MAX_PARALLEL <= n {
        (k + 1) * MAX_PARALLEL
    } else {
        n
    }
}

/// The batches in which `n` modules are fetched: consecutive ranges of [`MAX_PARALLEL`], the last
/// one of what is left.
pub fn batches(n: usize) -> (r: Vec<(usize, usize)>)
    ensures
        r@.len() == (n + MAX_PARALLEL - 1) / MAX_PARALLEL as int,
        forall|k: int|
            0 <= k < r@.len() ==> (#[trigger] r@[k]).0 == k * MAX_PARALLEL && r@[k].1 == batch_end(
                n as int,
                k,
            ) && r@[k].0 < r@[k].1,
{
    let mut out: Vec<(usize, usize)> = Vec::new();
    let mut start: usize = 0;
    while start < n
        invariant
            start <= n,
            start < n ==> start == out@.len() * MAX_PARALLEL,
            start == n ==> out@.len() == (n + MAX_PARALLEL - 1) / MAX_PARALLEL as int,
            forall|k: int|
                0 <= k < out@.len() ==> (#[trigger] out@[k]).0 == k * MAX_PARALLEL && out@[k].1
                    == batch_end(n as int, k) && out@[k].0 < out@[k].1,
        decreases n - start,
    {
        let end: usize = if n - start > MAX_PARALLEL {
            start + MAX_PARALLEL
        } else {
            n
        };
        out.push((start, end));
        start = end;
    }
    out
}

/// The views of outcomes.
pub open spec fn outcome_views(outcomes: Seq<Result<FetchedModule, String>>) -> Seq<
    Result<ModuleView, Seq<char>>,
> {
    Seq::new(
        outcomes.len(),
        |i: int|
            match outcomes[i] {
                Ok(m) => Ok(m@),
                Err(e) => Err(e@),
            },
    )
}

/// What the threads of a batch ended with: the outcome of each, or an error for one that panicked.
pub open spec fn settled(joined: Seq<Option<Result<FetchedModule, String>>>) -> Seq<
    Result<ModuleView, Seq<char>>,
> {
    Seq::new(
        joined.len(),
        |i: int|
            match joined[i] {
                Some(Ok(m)) => Ok(m@),
                Some(Err(e)) => Err(e@),
                None => Err("HTTP fetch thread panicked"@),
            },
    )
}

/// Puts what the threads of a batch ended with, in the order of its modules, behind the outcomes of
/// the batches before it. One that panicked ended with nothing.
pub fn gather(
    outcomes: &mut Vec<Result<FetchedModule, String>>,
    joined: Vec<Option<Result<FetchedModule, String>>>,
)
    ensures
        outcome_views(final(outcomes)@) == outcome_views(old(outcomes)@) + settled(joined@),
{
    let ghost start = outcome_views(outcomes@);
    let ghost all = joined@;
    let ghost want = settled(all);
    let mut rest = joined;
    let n: usize = rest.len();
    assert(start + want.take(0) =~= start);
    for i in 0..n
        invariant
            n == all.len(),
            want == settled(all),
            rest@ == all.skip(i as int),
            outcome_views(outcomes@) == start + want.take(i as int),
    {
        let outcome = match rest.remove(0) {
            Some(r) => r,
            None => Err("HTTP fetch thread panicked".to_owned()),
        };
        let ghost was = outcomes@;
        outcomes.push(outcome);
        proof {
            assert(all.skip(i as int).remove(0) =~= all.skip(i + 1));
            assert(outcome_views(outcomes@) =~= outcome_views(was).push(want[i as int]));
            assert(want.take(i + 1) =~= want.take(i as int).push(want[i as int]));
            assert(start + want.take(i + 1) =~= (start + want.take(i as int)).push(want[i as int]));
        }
    }
    assert(want.take(n as int) =~= want);
}

/// Module source for a JSON response: its value as the default export.
pub fn json_module_source(body: &str) -> (r: String)
    ensures
        r@ == "export default JSON.parse("@ + json::literal(body@) + ");\n"@,
{
    let literal = match json::to_string(body) {
        Ok(s) => s,
        Err(_) => "\"null\"".to_owned(),
    };
    text::concat3("export default JSON.parse(", literal.as_str(), ");\n")
}

/// The nonce is one-shot: once a marked key's request is answered, its next request goes out plain.
pub proof fn law_nonce_is_one_shot(
    marks: Set<Seq<char>>,
    url: Seq<char>,
    key: Seq<char>,
    process: u32,
    nonce: u64,
)
    ensures
        wire_url(url, marks.remove(key).contains(key), process, nonce) == url,
{
}

/// Two requests for one URL with different nonces go to different URLs, so that no cache between
/// the app and the server can answer one with the other's response.
pub proof fn law_nonces_tell_requests_apart(url: Seq<char>, process: u32, n1: u64, n2: u64)
    requires
        n1 != n2,
    ensures
        wire_url(url, true, process, n1) != wire_url(url, true, process, n2),
{
    let a = wire_url(url, true, process, n1);
    let b = wire_url(url, true, process, n2);
    if a == b {
        let head = url.push(
            if text::pos_from(url, '?', 0) < url.len() {
                '&'
            } else {
                '?'
            },
        ) + "__ns_dev_nonce="@ + text::decimal(process as nat) + "-"@;
        assert(a.skip(head.len() as int) =~= text::decimal(n1 as nat));
        assert(b.skip(head.len() as int) =~= text::decimal(n2 as nat));
        text::lemma_decimal_injective(n1 as nat, n2 as nat);
    }
}

/// Each module is in exactly the batch of its place, so the outcomes come out in input order.
pub proof fn law_batches_cover_in_order(n: int, i: int)
    requires
        0 <= i < n,
    ensures
        0 <= i / MAX_PARALLEL as int,
        i / (MAX_PARALLEL as int) < (n + MAX_PARALLEL - 1) / MAX_PARALLEL as int,
        (i / MAX_PARALLEL as int) * MAX_PARALLEL <= i < batch_end(n, i / MAX_PARALLEL as int),
        forall|k: int|
            k * MAX_PARALLEL <= i < #[trigger] batch_end(n, k) ==> k == i / MAX_PARALLEL as int,
{
}

/// The outcomes of the first `k` batches, gathered in order; `fetched` is what each module's fetch
/// gave.
pub open spec fn gathered(fetched: Seq<Result<ModuleView, Seq<char>>>, k: nat) -> Seq<
    Result<ModuleView, Seq<char>>,
>
    decreases k,
{
    if k == 0 {
        Seq::empty()
    } else {
        gathered(fetched, (k - 1) as nat) + fetched.subrange(
            (k - 1) * MAX_PARALLEL,
            batch_end(fetched.len() as int, k - 1),
        )
    }
}

/// Every outcome stands at its module's place: once all batches are gathered there is one outcome for
/// each module, in order, whatever order the fetches of a batch ended in and whichever of them
/// failed. No batch is larger than [`MAX_PARALLEL`].
pub proof fn law_outcomes_stand_at_their_modules(fetched: Seq<Result<ModuleView, Seq<char>>>)
    ensures
        gathered(
            fetched,
            ((fetched.len() + MAX_PARALLEL - 1) / MAX_PARALLEL as int) as nat,
        ) == fetched,
        forall|k: int| #[trigger]
            batch_end(fetched.len() as int, k) - k * MAX_PARALLEL <= MAX_PARALLEL,
{
    let n = fetched.len() as int;
    let k = ((n + MAX_PARALLEL - 1) / MAX_PARALLEL as int) as nat;
    lemma_gathered(fetched, k);
    assert(fetched.take(n) =~= fetched);
    if k > 0 {
        assert(batch_end(n, k - 1) == n);
    }
}

proof fn lemma_gathered(fetched: Seq<Result<ModuleView, Seq<char>>>, k: nat)
    requires
        k <= (fetched.len() + MAX_PARALLEL - 1) / MAX_PARALLEL as int,
    ensures
        k > 0 ==> gathered(fetched, k) == fetched.take(batch_end(fetched.len() as int, k - 1)),
        k == 0 ==> gathered(fetched, k) == Seq::<Result<ModuleView, Seq<char>>>::empty(),
    decreases k,
{
    if k > 0 {
        let n = fetched.len() as int;
        lemma_gathered(fetched, (k - 1) as nat);
        let start = (k - 1) * MAX_PARALLEL;
        assert(start < n);
        if k > 1 {
            assert(batch_end(n, k - 2) == start);
        }
        assert(fetched.take(start) + fetched.subrange(start, batch_end(n, k - 1)) =~= fetched.take(
            batch_end(n, k - 1),
        ));
        assert(gathered(fetched, (k - 1) as nat) =~= fetched.take(start));
    }
}

/// What a 2xx JavaScript response without body means is the empty module, never an error.
pub proof fn law_empty_javascript_is_the_empty_module(url: Seq<char>, r: ResponseView)
    requires
        200 <= r.status < 300,
        r.status != 204,
        r.status != 205,
        is_js_type(essence(r.content_type)),
        text::read_utf8(r.body).len() == 0,
    ensures
        classified(url, r) == Ok::<ModuleView, Seq<char>>(
            ModuleView { kind: ModuleKind::JavaScript, body: "export {};\n"@ },
        ),
{
    let e = essence(r.content_type);
    reveal_strlit("text/javascript");
    reveal_strlit("application/javascript");
    reveal_strlit("application/x-javascript");
    reveal_strlit("text/ecmascript");
    reveal_strlit("application/ecmascript");
    reveal_strlit("module");
    reveal_strlit("application/json");
    reveal_strlit("+json");
    assert(e.last() == 't' || e.last() == 'e');
    if text::ends_with(e, "+json"@) {
        assert(e.subrange(e.len() - 5, e.len() as int)[4] == "+json"@[4]);
    }
    if e == "application/json"@ {
        assert(e.last() == 'n');
    }
}

/// A served text is the module's source: a text that a server sends as UTF-8, unless it is empty, is
/// the body as it was written.
pub proof fn law_bodies_are_read_as_written(url: Seq<char>, r: ResponseView, written: Seq<char>)
    requires
        200 <= r.status < 300,
        r.status != 204,
        r.status != 205,
        is_js_type(essence(r.content_type)) || is_json_type(essence(r.content_type)),
        r.body == vstd::utf8::encode_utf8(written),
        written.len() > 0,
    ensures
        classified(url, r) matches Ok(m) && m.body == written && (m.kind == ModuleKind::Json
            <==> is_json_type(essence(r.content_type))),
{
    text::lemma_read_encoded(written);
}

/// The MIME type of a content type is what stands before its parameters, without white space around
/// it, in lower case.
pub proof fn law_mime_types_leave_parameters_out(head: Seq<char>, parameters: Seq<char>)
    requires
        !head.contains(';'),
    ensures
        essence(head) == text::lower(text::trim(head)),
        essence(head + seq![';'] + parameters) == text::lower(text::trim(head)),
{
    let whole = head + seq![';'] + parameters;
    assert forall|i: int| 0 <= i < head.len() implies #[trigger] head[i] != ';' by {
        assert(head.contains(head[i]));
    }
    text::lemma_pos_from_unique(head, ';', 0, head.len() as int);
    text::lemma_pos_from_unique(whole, ';', 0, head.len() as int);
    assert(head.take(head.len() as int) =~= head);
    assert(whole.take(head.len() as int) =~= head);
}

/// A response is a JavaScript module exactly where its status is a 2xx with content and its MIME type
/// is one of these six, and a JSON module exactly where that is `application/json` or ends in `+json`
/// and there is a body; every other response is an error.
#[verifier::rlimit(40)]
pub proof fn law_modules_have_a_module_type(url: Seq<char>, r: ResponseView)
    ensures
        ({
            let e = essence(r.content_type);
            let content = 200 <= r.status <= 299 && r.status != 204 && r.status != 205;
            let json = e == "application/json"@ || exists|a: Seq<char>| e == #[trigger] (a
                + "+json"@);
            let javascript = seq![
                "text/javascript"@,
                "application/javascript"@,
                "application/x-javascript"@,
                "text/ecmascript"@,
                "application/ecmascript"@,
                "module"@,
            ].contains(e);
            &&& (classified(url, r) matches Ok(m) && m.kind == ModuleKind::JavaScript) <==> content
                && javascript
            &&& (classified(url, r) matches Ok(m) && m.kind == ModuleKind::Json) <==> content && json
                && text::read_utf8(r.body).len() > 0
            &&& (classified(url, r) is Err) <==> !content || (!json && !javascript) || (json
                && text::read_utf8(r.body).len() == 0)
            &&& classified(url, r) matches Ok(m) ==> m.body == (if text::read_utf8(r.body).len()
                == 0 {
                "export {};\n"@
            } else {
                text::read_utf8(r.body)
            })
        }),
{
    let e = essence(r.content_type);
    let all = seq![
        "text/javascript"@,
        "application/javascript"@,
        "application/x-javascript"@,
        "text/ecmascript"@,
        "application/ecmascript"@,
        "module"@,
    ];
    assert(is_js_type(e) == all.contains(e)) by {
        assert(all[0] == "text/javascript"@);
        assert(all[1] == "application/javascript"@);
        assert(all[2] == "application/x-javascript"@);
        assert(all[3] == "text/ecmascript"@);
        assert(all[4] == "application/ecmascript"@);
        assert(all[5] == "module"@);
    }
    text::law_contained_texts_have_two_sides(e, "+json"@);
    if is_json_type(e) && is_js_type(e) {
        lemma_javascript_is_not_json(e);
    }
}

/// No MIME type is both.
#[verifier::rlimit(40)]
proof fn lemma_javascript_is_not_json(e: Seq<char>)
    requires
        is_js_type(e),
    ensures
        !is_json_type(e),
{
    reveal_strlit("text/javascript");
    reveal_strlit("application/javascript");
    reveal_strlit("application/x-javascript");
    reveal_strlit("text/ecmascript");
    reveal_strlit("application/ecmascript");
    reveal_strlit("module");
    reveal_strlit("application/json");
    reveal_strlit("+json");
    assert(e.last() != 'n' || e.len() < 5 || e[e.len() - 2] != 'o');
    if text::ends_with(e, "+json"@) {
        let tail = e.subrange(e.len() - 5, e.len() as int);
        assert(tail[4] == e[e.len() - 1]);
        assert(tail[3] == e[e.len() - 2]);
    }
    if e == "application/json"@ {
        assert(e[e.len() - 1] == 'n');
        assert(e[e.len() - 2] == 'o');
    }
}

/// What an error says: the URL, and the status, or what is wrong with the type or the body.
#[verifier::rlimit(40)]
pub proof fn law_refused_responses_are_told_apart(url: Seq<char>, r: ResponseView)
    ensures
        ({
            let e = essence(r.content_type);
            let content = 200 <= r.status <= 299 && r.status != 204 && r.status != 205;
            &&& r.status == 204 || r.status == 205 ==> classified(url, r) == Err::<
                ModuleView,
                Seq<char>,
            >(
                "HTTP import failed: "@ + url + " (status="@ + text::decimal(r.status as nat)
                    + ", no content)"@,
            )
            &&& r.status < 200 || r.status > 299 ==> classified(url, r) == Err::<
                ModuleView,
                Seq<char>,
            >("HTTP import failed: "@ + url + " (status="@ + text::decimal(r.status as nat) + ")"@)
            &&& content && e == "application/json"@ ==> (classified(url, r) matches Err(m) ==> m
                == "Expected a JSON module but '"@ + url + "' responded with an empty body"@)
            &&& content && e.len() == 0 ==> classified(url, r) == Err::<ModuleView, Seq<char>>(
                "Expected a JavaScript module but '"@ + url + "' responded with no MIME type"@,
            )
            &&& content && seq!["text/html"@, "text/plain"@, "text/css"@].contains(e) ==> classified(
                url,
                r,
            ) == Err::<ModuleView, Seq<char>>(
                "Expected a JavaScript module but '"@ + url + "' responded with MIME type '"@ + e
                    + "'"@,
            )
        }),
{
    reveal_strlit("text/html");
    reveal_strlit("text/plain");
    reveal_strlit("text/css");
    reveal_strlit("text/javascript");
    reveal_strlit("application/javascript");
    reveal_strlit("application/x-javascript");
    reveal_strlit("text/ecmascript");
    reveal_strlit("application/ecmascript");
    reveal_strlit("module");
    reveal_strlit("application/json");
    reveal_strlit("+json");
    let e = essence(r.content_type);
    let others = seq!["text/html"@, "text/plain"@, "text/css"@];
    if others.contains(e) {
        assert(e == others[0] || e == others[1] || e == others[2]);
        if text::ends_with(e, "+json"@) {
            let tail = e.subrange(e.len() - 5, e.len() as int);
            assert(tail[0] == e[e.len() - 5]);
            assert(tail[0] == '+');
        }
    }
}

/// A marked key's request carries the process and the nonce as one more query parameter, the first
/// where the URL has no query; any other request goes out as it is.
#[verifier::rlimit(40)]
pub proof fn law_nonces_are_query_parameters(url: Seq<char>, process: u32, nonce: u64)
    ensures
        wire_url(url, false, process, nonce) == url,
        url.contains('?') ==> wire_url(url, true, process, nonce) == url + "&__ns_dev_nonce="@
            + text::decimal(process as nat) + "-"@ + text::decimal(nonce as nat),
        !url.contains('?') ==> wire_url(url, true, process, nonce) == url + "?__ns_dev_nonce="@
            + text::decimal(process as nat) + "-"@ + text::decimal(nonce as nat),
{
    reveal_strlit("__ns_dev_nonce=");
    reveal_strlit("&__ns_dev_nonce=");
    reveal_strlit("?__ns_dev_nonce=");
    text::lemma_pos_from(url, '?', 0);
    let at = text::pos_from(url, '?', 0);
    if url.contains('?') {
        let i = url.index_of('?');
        assert(url[i] == '?');
        assert(at < url.len());
        assert(url.push('&') + "__ns_dev_nonce="@ =~= url + "&__ns_dev_nonce="@);
    } else {
        if at < url.len() {
            assert(url.contains(url[at]));
        }
        assert(url.push('?') + "__ns_dev_nonce="@ =~= url + "?__ns_dev_nonce="@);
    }
}

/// What a fetch that is not allowed is answered.
pub proof fn law_blocked_fetches_say_how_to_allow_them(url: Seq<char>)
    ensures
        blocked_message(url) == "HTTP import blocked: remote module loading is not allowed for "@
            + url + " (set security.allowRemoteModules in the app's package.json)"@,
{
}

/// The outcomes of a batch are those of its threads, in order; a thread that ended with nothing
/// panicked.
pub proof fn law_every_thread_has_an_outcome(
    joined: Seq<Option<Result<FetchedModule, String>>>,
    i: int,
)
    requires
        0 <= i < joined.len(),
    ensures
        settled(joined).len() == joined.len(),
        joined[i] is None ==> settled(joined)[i] == Err::<ModuleView, Seq<char>>(
            "HTTP fetch thread panicked"@,
        ),
        joined[i] matches Some(Ok(m)) ==> settled(joined)[i] == Ok::<ModuleView, Seq<char>>(
            ModuleView { kind: m.kind, body: m.body@ },
        ),
        joined[i] matches Some(Err(e)) ==> settled(joined)[i] == Err::<ModuleView, Seq<char>>(e@),
{
}

/// Eight modules at most are fetched at once: a batch takes the next eight, and the last one what is
/// left.
pub proof fn law_eight_modules_are_fetched_at_once(n: int, k: int)
    requires
        0 <= 8 * k < n,
    ensures
        8 * k + 8 <= n ==> batch_end(n, k) == 8 * k + 8,
        8 * k + 8 > n ==> batch_end(n, k) == n,
{
}

/// Outcomes read field by field: a module by its kind and its body, an error by its text.
pub proof fn law_outcomes_read_field_by_field(
    m: FetchedModule,
    e: String,
    stated: Result<ModuleView, Seq<char>>,
    outcomes: Seq<Result<FetchedModule, String>>,
    i: int,
)
    ensures
        m@.kind == m.kind,
        m@.body == m.body@,
        is_outcome(Ok(m), stated) <==> (stated matches Ok(w) && w.kind == m.kind && w.body
            == m.body@),
        is_outcome(Err(e), stated) <==> (stated matches Err(f) && f == e@),
        outcome_views(outcomes).len() == outcomes.len(),
        0 <= i < outcomes.len() && outcomes[i] is Ok ==> outcome_views(outcomes)[i] == Ok::<
            ModuleView,
            Seq<char>,
        >(outcomes[i]->Ok_0@),
        0 <= i < outcomes.len() && outcomes[i] is Err ==> outcome_views(outcomes)[i] == Err::<
            ModuleView,
            Seq<char>,
        >(outcomes[i]->Err_0@),
{
}

/// A response is taken for a JavaScript module only where its status is a 2xx and its MIME type is one
/// of the six of JavaScript; with any other type that is not one of JSON the outcome is an error.
#[verifier::rlimit(40)]
pub proof fn law_only_javascript_types_are_javascript(
    url: &str,
    response: &Response,
    r: Result<FetchedModule, String>,
)
    requires
        call_ensures(classify_response, (url, response), r),
    ensures
        ({
            let e = essence(response.content_type@);
            let javascript = seq![
                "text/javascript"@,
                "application/javascript"@,
                "application/x-javascript"@,
                "text/ecmascript"@,
                "application/ecmascript"@,
                "module"@,
            ].contains(e);
            let json = e == "application/json"@ || exists|a: Seq<char>| e == #[trigger] (a
                + "+json"@);
            &&& (r matches Ok(m) && m.kind == ModuleKind::JavaScript) ==> javascript && 200
                <= response.status <= 299
            &&& (r matches Ok(m) && m.kind == ModuleKind::Json) ==> json && 200 <= response.status
                <= 299
            &&& !javascript && !json ==> r is Err
            &&& response.status < 200 || response.status > 299 || response.status == 204
                || response.status == 205 ==> r is Err
            &&& javascript && 200 <= response.status <= 299 && response.status != 204
                && response.status != 205 ==> r is Ok
        }),
{
    law_modules_have_a_module_type(url@, response@);
}

/// The source of a JSON module parses the body, as a literal, into its default export.
pub proof fn law_json_modules_export_their_value(body: &str, r: String)
    requires
        call_ensures(json_module_source, (body,), r),
    ensures
        r@ == "export default JSON.parse("@ + json::literal(body@) + ");\n"@,
{
}

/// The batches are consecutive, cover every module, and take eight at most.
#[verifier::rlimit(40)]
pub proof fn law_batches_are_consecutive(n: usize, r: Vec<(usize, usize)>)
    requires
        call_ensures(batches, (n,), r),
    ensures
        n > 0 <==> r@.len() > 0,
        r@.len() > 0 ==> r@[0].0 == 0 && r@.last().1 == n,
        forall|k: int| 0 <= k < r@.len() ==> (#[trigger] r@[k]).0 < r@[k].1 <= r@[k].0 + 8,
        forall|k: int| 0 <= k < r@.len() - 1 ==> (#[trigger] r@[k]).1 == r@[k + 1].0,
        forall|k: int| 0 <= k < r@.len() - 1 ==> (#[trigger] r@[k]).1 == r@[k].0 + 8,
{
    assert(r@.len() == (n + 7) / 8);
    assert forall|k: int| 0 <= k < r@.len() implies (#[trigger] r@[k]).0 == 8 * k && r@[k].1
        == batch_end(n as int, k) && 8 * k < n by {}
    assert forall|k: int| 0 <= k < r@.len() - 1 implies (#[trigger] r@[k]).1 == 8 * k + 8 by {
        assert(r@[k + 1].0 == 8 * (k + 1));
        assert(8 * (k + 1) < n);
    }
    assert forall|k: int| 0 <= k < r@.len() - 1 implies (#[trigger] r@[k]).1 == r@[k + 1].0 by {
        assert(r@[k + 1].0 == 8 * (k + 1));
    }
    if r@.len() > 0 {
        let k = r@.len() - 1;
        assert(r@[k].1 == batch_end(n as int, k));
    }
}

/// A marked key's request carries a nonce, and each nonce is used once; any other request goes out as
/// it is and uses none. Nothing is marked or unmarked by it.
pub proof fn law_marked_requests_carry_a_nonce(busts: &mut Busts, url: &str, key: &str, r: Request)
    requires
        call_ensures(begin_fetch, (busts, url, key), r),
    ensures
        old(busts).marks@.contains(key@) ==> r.bust && r.wire_url@ != url@ && final(busts).nonce
            == old(busts).nonce.wrapping_add(1),
        !old(busts).marks@.contains(key@) ==> !r.bust && r.wire_url@ == url@ && final(busts).nonce
            == old(busts).nonce,
        final(busts).marks@ == old(busts).marks@,
        final(busts).process == old(busts).process,
{
    law_nonces_are_query_parameters(url@, old(busts).process, old(busts).nonce);
    if old(busts).marks@.contains(key@) {
        assert(r.wire_url@.len() > url@.len()) by {
            reveal_strlit("__ns_dev_nonce=");
        }
    }
}

/// A mark is gone once a request that carried a nonce was answered, and not before.
pub proof fn law_marks_go_with_the_answer(
    busts: &mut Busts,
    key: &str,
    bust: bool,
    answered: bool,
    other: Seq<char>,
)
    requires
        call_ensures(end_fetch, (busts, key, bust, answered), ()),
    ensures
        bust && answered ==> !final(busts).marks@.contains(key@),
        !bust || !answered ==> final(busts).marks@ == old(busts).marks@,
        other != key@ ==> (final(busts).marks@.contains(other) <==> old(busts).marks@.contains(
            other,
        )),
        final(busts).nonce == old(busts).nonce,
{
}

/// Marking marks the keys that are given, and no other.
pub proof fn law_marks_are_of_the_given_keys(
    busts: &mut Busts,
    keys: &Vec<String>,
    key: Seq<char>,
)
    requires
        call_ensures(mark_keys_for_cache_bust, (busts, keys), ()),
    ensures
        final(busts).marks@.contains(key) <==> old(busts).marks@.contains(key) || exists|i: int|
            0 <= i < keys@.len() && (#[trigger] keys@[i])@ == key,
        final(busts).nonce == old(busts).nonce,
        final(busts).process == old(busts).process,
{
    let all = text::texts(keys@);
    if all.contains(key) {
        let i = all.index_of(key);
        assert(keys@[i]@ == key);
    }
    if exists|i: int| 0 <= i < keys@.len() && (#[trigger] keys@[i])@ == key {
        let i = choose|i: int| 0 <= i < keys@.len() && (#[trigger] keys@[i])@ == key;
        assert(all[i] == key);
        assert(all.contains(all[i]));
    }
}

/// A fetch sends a request exactly where its URL may be loaded; otherwise it ends with the message
/// that says so, and nothing changes.
#[verifier::rlimit(40)]
pub proof fn law_fetches_start_where_allowed(
    security: &Security,
    busts: &mut Busts,
    url: &str,
    key: &str,
    r: (Fetch, FetchStep),
)
    requires
        call_ensures(start_fetch, (security, busts, url, key), r),
    ensures
        ({
            let allowed = security.debug_build || (security.settings matches Some(s)
                && s.allow_remote_modules && (s.allowlist@.len() == 0 || exists|i: int|
                0 <= i < s.allowlist@.len() && (#[trigger] text::texts(
                    s.allowlist@,
                )[i]).is_prefix_of(url@)));
            &&& r.1 is Send <==> allowed
            &&& !allowed ==> (r.1 matches FetchStep::Done(Err(e)) && e@ == blocked_message(url@))
                && *final(busts) == *old(busts)
        }),
        r.0.url@ == url@,
        r.0.key@ == key@,
        !r.0.retried,
        r.1 matches FetchStep::Send(w) ==> (r.0.bust <==> old(busts).marks@.contains(key@)) && (
        r.0.bust <==> w@ != url@),
{
    law_nonces_are_query_parameters(url@, old(busts).process, old(busts).nonce);
    security::law_when_remote_modules_are_allowed(
        security.debug_build,
        security::settings_view(security.settings),
        url@,
    );
    if let FetchStep::Send(w) = r.1 {
        if r.0.bust {
            assert(w@.len() > url@.len()) by {
                reveal_strlit("__ns_dev_nonce=");
            }
        }
    }
}

/// A request that fails is made once more, and then the fetch ends with the error; an answer ends it
/// with what the response means, and takes the mark away that its request carried a nonce for.
pub proof fn law_failed_requests_are_retried_once(
    fetch: &mut Fetch,
    busts: &mut Busts,
    reply: Result<Response, String>,
    r: FetchStep,
)
    requires
        call_ensures(resume_fetch, (fetch, busts, reply), r),
    ensures
        reply is Err && !old(fetch).retried ==> r is Send && final(fetch).retried && final(busts).marks@
            == old(busts).marks@,
        reply is Err && old(fetch).retried ==> (r matches FetchStep::Done(Err(m)) && m@
            == "HTTP import failed: "@ + old(fetch).url@ + " ("@ + reply->Err_0@ + ")"@)
            && final(busts).marks@ == old(busts).marks@,
        reply is Ok ==> (r matches FetchStep::Done(outcome) && (outcome is Ok <==> classified(
            old(fetch).url@,
            reply->Ok_0@,
        ) is Ok)),
        reply is Ok && old(fetch).bust ==> final(busts).marks@ == old(busts).marks@.remove(
            old(fetch).key@,
        ),
        reply is Ok && !old(fetch).bust ==> final(busts).marks@ == old(busts).marks@,
        final(fetch).url@ == old(fetch).url@,
        final(fetch).key@ == old(fetch).key@,
{
}

/// The MIME type that is read leaves the parameters out, and white space and case aside.
pub proof fn law_read_mime_types_leave_parameters_out(
    content_type: &str,
    r: String,
    head: Seq<char>,
    parameters: Seq<char>,
)
    requires
        call_ensures(mime_essence, (content_type,), r),
        !head.contains(';'),
        content_type@ == head || content_type@ == head + seq![';'] + parameters,
    ensures
        r@ == text::lower(text::trim(head)),
{
    law_mime_types_leave_parameters_out(head, parameters);
}

/// Requests ask every cache on the way not to answer.
pub proof fn law_requests_bypass_caches()
    ensures
        HEADERS@ == "Cache-Control: no-cache, no-store, max-age=0\r\nPragma: no-cache\r\n"@,
        MAX_PARALLEL == 8,
{
}

/// Gathering a batch keeps the outcomes before it and puts one for each thread behind them.
pub proof fn law_gathered_outcomes_are_kept(
    outcomes: &mut Vec<Result<FetchedModule, String>>,
    joined: Vec<Option<Result<FetchedModule, String>>>,
    i: int,
)
    requires
        call_ensures(gather, (outcomes, joined), ()),
    ensures
        final(outcomes)@.len() == old(outcomes)@.len() + joined@.len(),
        0 <= i < old(outcomes)@.len() ==> outcome_views(final(outcomes)@)[i] == outcome_views(
            old(outcomes)@,
        )[i],
        0 <= i < joined@.len() && joined@[i] is None ==> (final(outcomes)@[old(outcomes)@.len() + i]
            matches Err(e) && e@ == "HTTP fetch thread panicked"@),
        0 <= i < joined@.len() && joined@[i] is Some ==> (final(outcomes)@[old(outcomes)@.len()
            + i] is Ok <==> joined@[i]->Some_0 is Ok),
{
    let (before, after) = (outcome_views(old(outcomes)@), outcome_views(final(outcomes)@));
    assert(after == before + settled(joined@));
    assert(after.len() == final(outcomes)@.len());
    if 0 <= i < joined@.len() {
        law_every_thread_has_an_outcome(joined@, i);
        assert(after[before.len() + i] == settled(joined@)[i]);
    }
}

/// The retry carries a nonce where the key is still marked, a new one, and otherwise goes out as it is.
pub proof fn law_retries_carry_a_new_nonce(
    fetch: &mut Fetch,
    busts: &mut Busts,
    e: String,
    r: FetchStep,
)
    requires
        call_ensures(resume_fetch, (fetch, busts, Err(e)), r),
        !old(fetch).retried,
    ensures
        final(fetch).bust <==> old(busts).marks@.contains(old(fetch).key@),
        r matches FetchStep::Send(w) && (w@ != old(fetch).url@ <==> final(fetch).bust),
        final(fetch).bust ==> final(busts).nonce == old(busts).nonce.wrapping_add(1),
        !final(fetch).bust ==> final(busts).nonce == old(busts).nonce,
{
    law_nonces_are_query_parameters(old(fetch).url@, old(busts).process, old(busts).nonce);
    if final(fetch).bust {
        let w = r->Send_0;
        assert(w@.len() > old(fetch).url@.len()) by {
            reveal_strlit("__ns_dev_nonce=");
        }
    }
}

/// A fetch that starts uses up a nonce exactly where it carries one, and marks and unmarks nothing.
pub proof fn law_started_fetches_use_up_their_nonce(
    security: &Security,
    busts: &mut Busts,
    url: &str,
    key: &str,
    r: (Fetch, FetchStep),
)
    requires
        call_ensures(start_fetch, (security, busts, url, key), r),
    ensures
        r.1 is Send && r.0.bust ==> final(busts).nonce == old(busts).nonce.wrapping_add(1),
        r.1 is Send && !r.0.bust ==> final(busts).nonce == old(busts).nonce,
        final(busts).marks@ == old(busts).marks@,
        final(busts).process == old(busts).process,
{
}

/// An outcome is the module or the error that the response stands for.
pub proof fn law_responses_are_classified_as_stated(
    url: &str,
    response: &Response,
    r: Result<FetchedModule, String>,
)
    requires
        call_ensures(classify_response, (url, response), r),
    ensures
        r matches Ok(m) ==> classified(url@, response@) == Ok::<ModuleView, Seq<char>>(
            ModuleView { kind: m.kind, body: m.body@ },
        ),
        r matches Err(e) ==> classified(url@, response@) == Err::<ModuleView, Seq<char>>(e@),
{
}

/// A response of a type that is neither JavaScript nor JSON is refused by that type, and one of a JSON
/// type without a body by the body.
#[verifier::rlimit(40)]
pub proof fn law_refusals_name_the_type(url: Seq<char>, r: ResponseView)
    requires
        200 <= r.status <= 299,
        r.status != 204,
        r.status != 205,
    ensures
        ({
            let e = essence(r.content_type);
            let json = e == "application/json"@ || exists|a: Seq<char>| e == #[trigger] (a
                + "+json"@);
            let javascript = seq![
                "text/javascript"@,
                "application/javascript"@,
                "application/x-javascript"@,
                "text/ecmascript"@,
                "application/ecmascript"@,
                "module"@,
            ].contains(e);
            &&& json && text::read_utf8(r.body).len() == 0 ==> classified(url, r) == Err::<
                ModuleView,
                Seq<char>,
            >("Expected a JSON module but '"@ + url + "' responded with an empty body"@)
            &&& !json && !javascript && e.len() > 0 ==> classified(url, r) == Err::<
                ModuleView,
                Seq<char>,
            >(
                "Expected a JavaScript module but '"@ + url + "' responded with MIME type '"@ + e
                    + "'"@,
            )
        }),
{
    let e = essence(r.content_type);
    let all = seq![
        "text/javascript"@,
        "application/javascript"@,
        "application/x-javascript"@,
        "text/ecmascript"@,
        "application/ecmascript"@,
        "module"@,
    ];
    assert(is_js_type(e) == all.contains(e)) by {
        assert(all[0] == "text/javascript"@);
        assert(all[1] == "application/javascript"@);
        assert(all[2] == "application/x-javascript"@);
        assert(all[3] == "text/ecmascript"@);
        assert(all[4] == "application/ecmascript"@);
        assert(all[5] == "module"@);
    }
    text::law_contained_texts_have_two_sides(e, "+json"@);
}

} // verus!
