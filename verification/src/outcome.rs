//! The executor's outcome handling: turn what came back from the upstream
//! call into the single outcome event published to every waiting caller,
//! and into the cache write performed on success. Response bodies are kept
//! as their canonical JSON serialization, so the published and cached
//! envelopes stay byte-identical with what the original pipeline emitted.

use vstd::prelude::*;
use vstd::string::StringExecFns;

use crate::request::QueuedRequest;
use crate::spec_ttl_for;
use crate::ttl_for;

verus! {

/// Whether a text is well-formed JSON, as serde_json's parser decides it.
pub uninterp spec fn json_parses(s: Seq<char>) -> bool;

/// The canonical (compact) serialization of the JSON value a text denotes.
/// Meaningful only for texts that parse.
pub uninterp spec fn json_canon(s: Seq<char>) -> Seq<char>;

/// Whether the JSON value a text denotes is an object with a member named
/// `k`. Meaningful only for texts that parse.
pub uninterp spec fn json_has_key(s: Seq<char>, k: Seq<char>) -> bool;

/// The JSON string literal (quotes and escapes included) denoting a text.
pub uninterp spec fn json_quoted(s: Seq<char>) -> Seq<char>;

/// Relies on serde_json::from_str::<Value>, Value::to_string and
/// Value::get: parses `s`, and on success returns the value's compact
/// serialization together with whether it is an object carrying a member
/// named `error_key`. `Value`'s `Display` writes the compact form, and
/// `get` with a string index returns `Some` exactly on an object with
/// that member.
#[verifier::external_body]
fn analyze_json(s: &str, error_key: &str) -> (r: Option<(String, bool)>)
    ensures
        match r {
            Option::Some(p) => json_parses(s@) && p.0@ == json_canon(s@) && p.1 == json_has_key(
                s@,
                error_key@,
            ),
            Option::None => !json_parses(s@),
        },
{
    match serde_json::from_str::<serde_json::Value>(s) {
        Ok(v) => {
            let has = v.get(error_key).is_some();
            Some((v.to_string(), has))
        },
        Err(_) => None,
    }
}

/// Relies on serde_json's serialization of a string value
/// (Value::String(..).to_string()): the result is the JSON quoting of `s`,
/// opening and closing quotes and all escapes included.
#[verifier::external_body]
fn quote_json_string(s: &str) -> (r: String)
    ensures
        r@ == json_quoted(s@),
{
    serde_json::Value::String(s.to_owned()).to_string()
}

/// What the upstream HTTP call yielded, as the executor's decision logic
/// sees it: no response at all, a response whose body could not be read,
/// or the body text itself.
pub enum UpstreamResponse {
    TransportFailure,
    ReadFailure,
    BodyText(String),
}

/// One outcome event, published once per executor completion and delivered
/// to every caller waiting on the same resource.
#[derive(Debug, Clone)]
pub struct RequestResponse {
    pub url: String,
    pub method: String,
    pub body: String,
}

/// The mathematical content of a `RequestResponse`.
#[verifier::ext_equal]
pub struct RespModel {
    pub url: Seq<char>,
    pub method: Seq<char>,
    pub body: Seq<char>,
}

impl View for RequestResponse {
    type V = RespModel;

    open spec fn view(&self) -> RespModel {
        RespModel { url: self.url@, method: self.method@, body: self.body@ }
    }
}

/// The envelope published for a live (uncached) outcome.
pub open spec fn fresh_envelope(data: Seq<char>) -> Seq<char> {
    "{\"cached\":false,\"data\":"@ + data + "}"@
}

/// The envelope written to the cache for a successful body, stamped with
/// the write time.
pub open spec fn cached_envelope(data: Seq<char>, time_text: Seq<char>) -> Seq<char> {
    "{\"cached\":true,\"cached_time\":"@ + json_quoted(time_text) + ",\"data\":"@ + data + "}"@
}

/// The outcome body published when the upstream call got no response.
pub open spec fn transport_error_body() -> Seq<char> {
    "{\"error\":\"API request failed\"}"@
}

/// The body text substituted when a response arrived but could not be read.
pub open spec fn read_failure_text() -> Seq<char> {
    "{\"error\":\"Failed to read response\"}"@
}

/// The body synthesized for a response that is not well-formed JSON,
/// carrying the raw text.
pub open spec fn parse_error_body(raw: Seq<char>) -> Seq<char> {
    "{\"error\":\"Failed to parse response\",\"message\":"@ + json_quoted(raw) + "}"@
}

/// The executor's decision for one received body text: what to publish,
/// and what (if anything) to hand to the cache.
pub struct ExecDecision {
    pub event_body: String,
    pub cache_data: Option<String>,
}

/// What the decision must be for a received body text `t`: a body that
/// parses is published canonically; it is cached exactly when it carries
/// no error member. A body that does not parse is wrapped in a synthesized
/// error and never cached.
pub open spec fn decision_holds(t: Seq<char>, r: ExecDecision) -> bool {
    if json_parses(t) {
        &&& r.event_body@ == fresh_envelope(json_canon(t))
        &&& (if json_has_key(t, "error"@) {
            r.cache_data is None
        } else {
            match r.cache_data {
                Option::Some(c) => c@ == json_canon(t),
                Option::None => false,
            }
        })
    } else {
        &&& r.event_body@ == fresh_envelope(parse_error_body(t))
        &&& r.cache_data is None
    }
}

/// `a`, `b` and `c` concatenated.
fn concat3(a: &str, b: &str, c: &str) -> (r: String)
    ensures
        r@ == a@ + b@ + c@,
{
    let mut r = a.to_owned();
    r.append(b);
    r.append(c);
    r
}

/// The decision for one received body text (see `decision_holds`).
fn body_text_decision(t: &str) -> (r: ExecDecision)
    ensures
        decision_holds(t@, r),
{
    match analyze_json(t, "error") {
        Option::Some((canon, has_error)) => {
            let event_body = concat3("{\"cached\":false,\"data\":", canon.as_str(), "}");
            if has_error {
                ExecDecision { event_body, cache_data: Option::None }
            } else {
                ExecDecision { event_body, cache_data: Option::Some(canon) }
            }
        },
        Option::None => {
            let quoted = quote_json_string(t);
            let synthesized = concat3(
                "{\"error\":\"Failed to parse response\",\"message\":",
                quoted.as_str(),
                "}",
            );
            let event_body = concat3("{\"cached\":false,\"data\":", synthesized.as_str(), "}");
            proof {
                assert(event_body@ =~= fresh_envelope(parse_error_body(t@)));
            }
            ExecDecision { event_body, cache_data: Option::None }
        },
    }
}

/// The executor's decision for what the upstream call yielded: a transport
/// failure is published as a fixed error body; an unreadable response is
/// treated as the fixed substitute text; a received body is handled by
/// `decision_holds`. Nothing but a parsed body free of an error member is
/// ever offered to the cache.
pub fn decide_outcome(resp: UpstreamResponse) -> (r: ExecDecision)
    ensures
        resp is TransportFailure ==> r.event_body@ == transport_error_body() && r.cache_data
            is None,
        resp is ReadFailure ==> decision_holds(read_failure_text(), r),
        resp matches UpstreamResponse::BodyText(t) ==> decision_holds(t@, r),
{
    match resp {
        UpstreamResponse::TransportFailure => ExecDecision {
            event_body: ("{\"error\":\"API request failed\"}").to_owned(),
            cache_data: Option::None,
        },
        UpstreamResponse::ReadFailure => body_text_decision(
            "{\"error\":\"Failed to read response\"}",
        ),
        UpstreamResponse::BodyText(t) => body_text_decision(t.as_str()),
    }
}

/// One cache write the executor owes after a successful outcome.
pub struct CacheWrite {
    pub cache_key: String,
    pub body: String,
    pub ttl_seconds: u64,
}

/// Everything one executor completion produces: the outcome event for the
/// fan-out channel, and the cache write to perform afterwards, if any.
pub struct ExecutorResult {
    pub event: RequestResponse,
    pub cache_write: Option<CacheWrite>,
}

/// What `process_response` must produce for a received body text `t`,
/// publishing under the request's resource and stamping cache entries with
/// `time_text`.
pub open spec fn executor_body_holds(
    t: Seq<char>,
    request: QueuedRequest,
    time_text: Seq<char>,
    r: ExecutorResult,
) -> bool {
    if json_parses(t) {
        &&& r.event.body@ == fresh_envelope(json_canon(t))
        &&& (if json_has_key(t, "error"@) {
            r.cache_write is None
        } else {
            match r.cache_write {
                Option::Some(w) => {
                    &&& w.cache_key@ == "cache:"@ + request.url@
                    &&& w.body@ == cached_envelope(json_canon(t), time_text)
                    &&& w.ttl_seconds == spec_ttl_for(request.cache_time)
                },
                Option::None => false,
            }
        })
    } else {
        &&& r.event.body@ == fresh_envelope(parse_error_body(t))
        &&& r.cache_write is None
    }
}

/// The executor's complete outcome for one dispatched request: the event
/// to publish (under the request's own URL and method) and, for a parsed
/// body without an error member, the cache write — keyed by the resource
/// URL, stamped with `time_text`, and living for the request's cache-time
/// hint or the default.
pub fn process_response(
    request: &QueuedRequest,
    resp: UpstreamResponse,
    time_text: &String,
) -> (r: ExecutorResult)
    ensures
        r.event.url@ == request.url@,
        r.event.method@ == request.method@,
        resp is TransportFailure ==> r.event.body@ == transport_error_body() && r.cache_write
            is None,
        resp is ReadFailure ==> executor_body_holds(read_failure_text(), *request, time_text@, r),
        resp matches UpstreamResponse::BodyText(t) ==> executor_body_holds(
            t@,
            *request,
            time_text@,
            r,
        ),
{
    let ghost was_body: bool = resp matches UpstreamResponse::BodyText(_);
    let decision = decide_outcome(resp);
    let event = RequestResponse {
        url: request.url.clone(),
        method: request.method.clone(),
        body: decision.event_body,
    };
    match decision.cache_data {
        Option::Some(canon) => {
            let quoted_time = quote_json_string(time_text.as_str());
            let mut body = ("{\"cached\":true,\"cached_time\":").to_owned();
            body.append(quoted_time.as_str());
            body.append(",\"data\":");
            body.append(canon.as_str());
            body.append("}");
            let mut cache_key = ("cache:").to_owned();
            cache_key.append(request.url.as_str());
            let ttl_seconds = ttl_for(request.cache_time);
            ExecutorResult {
                event,
                cache_write: Option::Some(CacheWrite { cache_key, body, ttl_seconds }),
            }
        },
        Option::None => ExecutorResult { event, cache_write: Option::None },
    }
}

/// Relies on chrono::Utc::now().to_rfc3339(): the current UTC instant in
/// RFC 3339 text form, used only to stamp cache entries. Nothing is
/// promised of the clock's reading.
#[verifier::external_body]
fn now_rfc3339() -> (r: String) {
    chrono::Utc::now().to_rfc3339()
}

/// The executor's complete outcome, stamped with the current UTC time for
/// the cache envelope. The stamp never influences what is published, nor
/// whether the cache write happens.
pub fn process_response_now(request: &QueuedRequest, resp: UpstreamResponse) -> (r:
    ExecutorResult)
    ensures
        r.event.url@ == request.url@,
        r.event.method@ == request.method@,
        resp is TransportFailure ==> r.event.body@ == transport_error_body() && r.cache_write
            is None,
        resp is ReadFailure ==> exists|ts: Seq<char>|
            executor_body_holds(read_failure_text(), *request, ts, r),
        resp matches UpstreamResponse::BodyText(t) ==> exists|ts: Seq<char>|
            executor_body_holds(t@, *request, ts, r),
{
    let time_text = now_rfc3339();
    let ghost ts = time_text@;
    let r = process_response(request, resp, &time_text);
    proof {
        if resp is ReadFailure {
            assert(executor_body_holds(read_failure_text(), *request, ts, r));
        }
    }
    r
}

/// No-cache-on-error law: an upstream body that does not parse, or that
/// carries an error member, never results in a cache write.
pub proof fn lemma_no_cache_on_error(
    t: Seq<char>,
    request: QueuedRequest,
    time_text: Seq<char>,
    r: ExecutorResult,
)
    requires
        executor_body_holds(t, request, time_text, r),
        !json_parses(t) || json_has_key(t, "error"@),
    ensures
        r.cache_write is None,
{
}

/// Index of the first event matching the resource, or -1 when none does.
pub open spec fn spec_first_match(events: Seq<RespModel>, url: Seq<char>, method: Seq<char>) -> int
    decreases events.len(),
{
    if events.len() == 0 {
        -1
    } else if events[0].url == url && events[0].method == method {
        0
    } else {
        let r = spec_first_match(events.drop_first(), url, method);
        if r < 0 {
            -1
        } else {
            r + 1
        }
    }
}

/// The models of a list of outcome events.
pub open spec fn event_models(events: Seq<RequestResponse>) -> Seq<RespModel> {
    events.map_values(|e: RequestResponse| e@)
}

/// Whether an outcome event belongs to the given resource.
pub fn response_matches(resp: &RequestResponse, url: &String, method: &String) -> (r: bool)
    ensures
        r == (resp.url@ == url@ && resp.method@ == method@),
{
    resp.url.eq(url) && resp.method.eq(method)
}

/// What a subscriber keeps out of the events it received, in order: the
/// body of the first event for its own resource, every other event being
/// discarded unread.
pub fn first_matching(events: &Vec<RequestResponse>, url: &String, method: &String) -> (r: Option<
    String,
>)
    ensures
        ({
            let f = spec_first_match(event_models(events@), url@, method@);
            match r {
                Option::Some(body) => 0 <= f < events@.len() && body@ == event_models(
                    events@,
                )[f].body,
                Option::None => f == -1,
            }
        }),
{
    let ghost ems = event_models(events@);
    let mut i: usize = 0;
    while i < events.len()
        invariant
            i <= events@.len(),
            ems == event_models(events@),
            forall|j: int| 0 <= j < i ==> !(ems[j].url == url@ && ems[j].method == method@),
        decreases events@.len() - i,
    {
        let e = &events[i];
        if response_matches(e, url, method) {
            proof {
                lemma_first_match(ems, url@, method@);
                assert(ems[i as int].url == url@ && ems[i as int].method == method@);
            }
            return Option::Some(e.body.clone());
        }
        i += 1;
    }
    proof {
        lemma_first_match(ems, url@, method@);
    }
    Option::None
}

/// `spec_first_match` returns the position of the first matching event,
/// and -1 exactly when no event matches.
pub proof fn lemma_first_match(events: Seq<RespModel>, url: Seq<char>, method: Seq<char>)
    ensures
        ({
            let r = spec_first_match(events, url, method);
            &&& (r == -1 <==> forall|j: int|
                0 <= j < events.len() ==> !(events[j].url == url && events[j].method == method))
            &&& (r != -1 ==> 0 <= r < events.len() && events[r].url == url && events[r].method
                == method && (forall|j: int|
                0 <= j < r ==> !(events[j].url == url && events[j].method == method)))
        }),
    decreases events.len(),
{
    if events.len() == 0 {
    } else if events[0].url == url && events[0].method == method {
    } else {
        let rest = events.drop_first();
        lemma_first_match(rest, url, method);
        let r0 = spec_first_match(rest, url, method);
        if r0 == -1 {
            assert forall|j: int| 0 <= j < events.len() implies !(events[j].url == url
                && events[j].method == method) by {
                if j > 0 {
                    assert(rest[j - 1] == events[j]);
                }
            }
        } else {
            assert(events[r0 + 1] == rest[r0]);
            assert forall|j: int| 0 <= j < r0 + 1 implies !(events[j].url == url
                && events[j].method == method) by {
                if j > 0 {
                    assert(rest[j - 1] == events[j]);
                }
            }
        }
    }
}

/// Fan-out delivery law: a subscriber that receives exactly one event for
/// its resource — the completion of that resource with body `B` — keeps
/// exactly `B`, and keeps nothing from events of any other resource.
pub proof fn lemma_fanout_delivery(
    events: Seq<RespModel>,
    url: Seq<char>,
    method: Seq<char>,
    i: int,
)
    requires
        0 <= i < events.len(),
        events[i].url == url && events[i].method == method,
        forall|j: int|
            0 <= j < events.len() && j != i ==> !(events[j].url == url && events[j].method
                == method),
    ensures
        spec_first_match(events, url, method) == i,
{
    lemma_first_match(events, url, method);
    let r = spec_first_match(events, url, method);
    if r != i {
        assert(events[r].url == url && events[r].method == method);
    }
}

} // verus!
