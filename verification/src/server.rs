//! The decisions of the server: how a connection waits for requests and when
//! it closes, which file answers a request, and how an answer is framed. The
//! program around the library does the reading, writing and waiting.
use vstd::prelude::*;
use crate::control::{ControlStat, is_unmarked, KEEP_ALIVE_TIMEOUT, MAX_KEEP_ALIVE_REQUESTS};
use crate::headers::{HeaderList, HttpHeaders, insert_entry};
use crate::http_magic::{
    HttpMethod, HttpResponse, HttpStatusCode, HttpVersion, spec_content_length, content_length_key,
};
use crate::number::{decimal_digits, lemma_decimal_digits, lemma_decimal_round_trip, usize_to_decimal};
use crate::strings::{chars_of, string_of};
use crate::text::{copy_range, lemma_trim_none};

verus! {

// ---------------------------------------------------------------------------
// Waiting on a connection
// ---------------------------------------------------------------------------

/// Nanoseconds in a second.
pub const NANOS_PER_SEC: u128 = 1_000_000_000;

/// What a connection does while it waits for the next request.
#[derive(Copy, Clone, Debug, PartialEq, Eq, Structural)]
pub enum WaitStep {
    /// Bytes have arrived: read the request.
    Serve,
    /// Give the connection up.
    Close,
    /// Wait for more bytes.
    KeepReading,
}

/// Whole seconds in `nanos` nanoseconds reach the keep-alive timeout.
pub open spec fn timed_out(idle_nanos: u128) -> bool {
    idle_nanos / NANOS_PER_SEC >= KEEP_ALIVE_TIMEOUT as u128
}

/// The next step of a waiting connection and the shared bookkeeping after it.
/// With nothing received, the connection closes when it has been idle too
/// long or has served enough requests; when every worker is busy, the thread
/// that holds the marked connection gives it up and clears the mark, and a
/// connection idle longer than the marked one takes the mark.
pub open spec fn spec_wait_step(
    received: usize,
    idle_nanos: u128,
    num_requests: u16,
    open_streams: u32,
    open_threads: u32,
    thread_index: usize,
    stats: ControlStat,
) -> (WaitStep, ControlStat) {
    if received != 0 {
        (WaitStep::Serve, stats)
    } else if timed_out(idle_nanos) || num_requests >= MAX_KEEP_ALIVE_REQUESTS {
        (WaitStep::Close, stats)
    } else if open_streams >= open_threads {
        if stats.thread_index == thread_index {
            (WaitStep::Close, ControlStat { thread_index: usize::MAX, idle_time: 0 })
        } else if stats.idle_time < idle_nanos {
            (WaitStep::KeepReading, ControlStat { thread_index, idle_time: idle_nanos })
        } else {
            (WaitStep::KeepReading, stats)
        }
    } else {
        (WaitStep::KeepReading, stats)
    }
}

/// Decides the next step of a connection that waits for a request, given how
/// many bytes it has, how long it has been idle, how many requests it has
/// served, the open connections and worker threads, and the bookkeeping of
/// the marked connection, which it updates.
pub fn wait_step(
    received: usize,
    idle_nanos: u128,
    num_requests: u16,
    open_streams: u32,
    open_threads: u32,
    thread_index: usize,
    stats: &mut ControlStat,
) -> (res: WaitStep)
    ensures
        (res, *final(stats)) == spec_wait_step(
            received,
            idle_nanos,
            num_requests,
            open_streams,
            open_threads,
            thread_index,
            *old(stats),
        ),
{
    if received != 0 {
        WaitStep::Serve
    } else if idle_nanos / NANOS_PER_SEC >= KEEP_ALIVE_TIMEOUT as u128 || num_requests
        >= MAX_KEEP_ALIVE_REQUESTS {
        WaitStep::Close
    } else if open_streams >= open_threads {
        if stats.thread_index == thread_index {
            stats.reset();
            WaitStep::Close
        } else if stats.idle_time < idle_nanos {
            stats.idle_time = idle_nanos;
            stats.thread_index = thread_index;
            WaitStep::KeepReading
        } else {
            WaitStep::KeepReading
        }
    } else {
        WaitStep::KeepReading
    }
}

/// A connection closes after answering its `served`-th request when that
/// request was HTTP/1.0, when enough requests have been served, or when it
/// has been idle up to the timeout.
pub open spec fn closes_after(version: HttpVersion, served: int, idle_nanos: u128) -> bool {
    version == HttpVersion::HTTP1x0 || served >= MAX_KEEP_ALIVE_REQUESTS || timed_out(idle_nanos)
}

/// Whether a connection closes after answering a request: an HTTP/1.0
/// request, enough requests served, or idle up to the timeout.
pub fn should_close(version: HttpVersion, num_requests: u16, idle_nanos: u128) -> (res: bool)
    ensures
        res == closes_after(version, num_requests as int, idle_nanos),
{
    let old_version = match version {
        HttpVersion::HTTP1x0 => true,
        HttpVersion::HTTP1x1 => false,
    };
    old_version || num_requests >= MAX_KEEP_ALIVE_REQUESTS || idle_nanos / NANOS_PER_SEC
        >= KEEP_ALIVE_TIMEOUT as u128
}

/// With nothing received, the timeout not reached and fewer than
/// `MAX_KEEP_ALIVE_REQUESTS` served, a connection counts every worker as busy
/// once there are at least as many open connections as worker threads: the
/// thread holding the mark closes its connection and clears the mark, a
/// connection idle longer than the marked one takes the mark, and any other
/// keeps reading with the bookkeeping unchanged. With free workers it keeps
/// reading and changes nothing.
pub proof fn lemma_wait_step_busy_workers(
    idle_nanos: u128,
    num_requests: u16,
    open_streams: u32,
    open_threads: u32,
    thread_index: usize,
    stats: ControlStat,
)
    requires
        !timed_out(idle_nanos),
        num_requests < MAX_KEEP_ALIVE_REQUESTS,
    ensures
        open_streams >= open_threads && stats.thread_index == thread_index ==> spec_wait_step(
            0,
            idle_nanos,
            num_requests,
            open_streams,
            open_threads,
            thread_index,
            stats,
        ) == (WaitStep::Close, ControlStat { thread_index: usize::MAX, idle_time: 0 }),
        open_streams >= open_threads && stats.thread_index != thread_index && stats.idle_time
            < idle_nanos ==> spec_wait_step(
            0,
            idle_nanos,
            num_requests,
            open_streams,
            open_threads,
            thread_index,
            stats,
        ) == (WaitStep::KeepReading, ControlStat { thread_index, idle_time: idle_nanos }),
        open_streams >= open_threads && stats.thread_index != thread_index && stats.idle_time
            >= idle_nanos ==> spec_wait_step(
            0,
            idle_nanos,
            num_requests,
            open_streams,
            open_threads,
            thread_index,
            stats,
        ) == (WaitStep::KeepReading, stats),
        open_streams < open_threads ==> spec_wait_step(
            0,
            idle_nanos,
            num_requests,
            open_streams,
            open_threads,
            thread_index,
            stats,
        ) == (WaitStep::KeepReading, stats),
{
}

/// The keep-alive timeout is five whole seconds of idleness, and a
/// connection closes after a request that was HTTP/1.0, after its fiftieth
/// request, or once it has been idle that long.
pub proof fn lemma_closing_limits(version: HttpVersion, served: int, idle_nanos: u128)
    ensures
        timed_out(idle_nanos) <==> idle_nanos >= 5_000_000_000,
        closes_after(version, served, idle_nanos) <==> (version == HttpVersion::HTTP1x0 || served
            >= 50 || idle_nanos >= 5_000_000_000),
{
    assert(timed_out(idle_nanos) <==> idle_nanos >= 5_000_000_000) by (nonlinear_arith)
        requires
            timed_out(idle_nanos) <==> idle_nanos / 1_000_000_000 >= 5,
    ;
}

/// A waiting connection with nothing received gives up, leaving the
/// bookkeeping alone, once it has been idle five seconds or has served fifty
/// requests, whatever the other connections do.
pub proof fn lemma_wait_step_gives_up(
    idle_nanos: u128,
    num_requests: u16,
    open_streams: u32,
    open_threads: u32,
    thread_index: usize,
    stats: ControlStat,
)
    requires
        idle_nanos >= 5_000_000_000 || num_requests >= 50,
    ensures
        spec_wait_step(
            0,
            idle_nanos,
            num_requests,
            open_streams,
            open_threads,
            thread_index,
            stats,
        ) == (WaitStep::Close, stats),
{
    lemma_closing_limits(HttpVersion::HTTP1x1, 0, idle_nanos);
}

/// More open connections than worker threads count as every worker busy: a
/// waiting connection does the same as when the two numbers are equal.
pub proof fn lemma_wait_step_more_connections(
    received: usize,
    idle_nanos: u128,
    num_requests: u16,
    open_streams: u32,
    open_threads: u32,
    thread_index: usize,
    stats: ControlStat,
)
    requires
        open_streams >= open_threads,
    ensures
        spec_wait_step(
            received,
            idle_nanos,
            num_requests,
            open_streams,
            open_threads,
            thread_index,
            stats,
        ) == spec_wait_step(
            received,
            idle_nanos,
            num_requests,
            open_threads,
            open_threads,
            thread_index,
            stats,
        ),
{
}

/// Bytes received are always served, and the bookkeeping is left alone.
pub proof fn lemma_wait_step_serves_received(
    received: usize,
    idle_nanos: u128,
    num_requests: u16,
    open_streams: u32,
    open_threads: u32,
    thread_index: usize,
    stats: ControlStat,
)
    requires
        received > 0,
    ensures
        spec_wait_step(
            received,
            idle_nanos,
            num_requests,
            open_streams,
            open_threads,
            thread_index,
            stats,
        ) == (WaitStep::Serve, stats),
{
}

/// A connection that waits long enough is closed, whatever else holds.
pub proof fn lemma_idle_connection_closes(
    idle_nanos: u128,
    num_requests: u16,
    open_streams: u32,
    open_threads: u32,
    thread_index: usize,
    stats: ControlStat,
)
    requires
        timed_out(idle_nanos),
    ensures
        spec_wait_step(0, idle_nanos, num_requests, open_streams, open_threads, thread_index, stats).0
            == WaitStep::Close,
{
}

/// The thread that gives its connection up leaves no connection marked.
pub proof fn lemma_close_by_mark_clears_it(
    idle_nanos: u128,
    num_requests: u16,
    open_streams: u32,
    open_threads: u32,
    thread_index: usize,
    stats: ControlStat,
)
    requires
        !timed_out(idle_nanos),
        num_requests < MAX_KEEP_ALIVE_REQUESTS,
        spec_wait_step(0, idle_nanos, num_requests, open_streams, open_threads, thread_index, stats).0
            == WaitStep::Close,
    ensures
        is_unmarked(
            spec_wait_step(
                0,
                idle_nanos,
                num_requests,
                open_streams,
                open_threads,
                thread_index,
                stats,
            ).1,
        ),
{
}

/// What a waiting connection sees at one turn of its wait: the bytes
/// received, how long it has been idle, the open connections and worker
/// threads, and the shared bookkeeping of the marked connection.
pub struct WaitInput {
    pub received: usize,
    pub idle_nanos: u128,
    pub open_streams: u32,
    pub open_threads: u32,
    pub stats: ControlStat,
}

/// The step that `wait_step` takes at one turn of the wait.
pub open spec fn step_of(w: WaitInput, num_requests: u16, thread_index: usize) -> WaitStep {
    spec_wait_step(
        w.received,
        w.idle_nanos,
        num_requests,
        w.open_streams,
        w.open_threads,
        thread_index,
        w.stats,
    ).0
}

/// A connection never serves more than `MAX_KEEP_ALIVE_REQUESTS` requests,
/// and it serves none after an HTTP/1.0 request or after being idle up to
/// the timeout: in a run of served requests (each a version and the idle
/// time when it was answered) where the connection stayed open after every
/// request but the last, there are at most that many requests, and none but
/// the last is HTTP/1.0 or was answered after the timeout.
pub proof fn lemma_connection_run(run: Seq<(HttpVersion, u128)>)
    requires
        forall|i: int|
            0 <= i < run.len() - 1 ==> !closes_after(#[trigger] run[i].0, i + 1, run[i].1),
    ensures
        run.len() <= MAX_KEEP_ALIVE_REQUESTS,
        forall|i: int|
            0 <= i < run.len() - 1 ==> #[trigger] run[i].0 != HttpVersion::HTTP1x0 && !timed_out(
                run[i].1,
            ),
{
    if run.len() > MAX_KEEP_ALIVE_REQUESTS {
        let last = MAX_KEEP_ALIVE_REQUESTS as int - 1;
        assert(!closes_after(run[last].0, last + 1, run[last].1));
    }
}

/// A connection that has waited up to the timeout with nothing received
/// serves no further request: in a run of waiting turns where the connection
/// kept reading at every turn but the last, a turn with nothing received and
/// the timeout reached is the last one, and there the connection closes.
pub proof fn lemma_idle_wait_run(waits: Seq<WaitInput>, num_requests: u16, thread_index: usize)
    requires
        forall|i: int|
            0 <= i < waits.len() - 1 ==> step_of(#[trigger] waits[i], num_requests, thread_index)
                == WaitStep::KeepReading,
    ensures
        forall|k: int|
            0 <= k < waits.len() && #[trigger] waits[k].received == 0 && timed_out(
                waits[k].idle_nanos,
            ) ==> k == waits.len() - 1 && step_of(waits[k], num_requests, thread_index)
                == WaitStep::Close,
{
}

// ---------------------------------------------------------------------------
// Which file answers a request
// ---------------------------------------------------------------------------

/// The first character of `s` is one byte long, so `s` can be cut after it.
pub open spec fn starts_with_ascii(s: Seq<char>) -> bool {
    s.len() > 0 && (s[0] as u32) < 0x80
}

/// The names under which the index page is asked for.
pub open spec fn names_index(obj: Seq<char>) -> bool {
    obj == "/"@ || obj == "/index.html"@ || obj == "/index.htm"@
}

/// The file that a `GET` of `obj` reads: the index page, or `obj` without
/// its leading character.
pub open spec fn spec_get_path(obj: Seq<char>) -> Seq<char> {
    if names_index(obj) {
        "index.html"@
    } else {
        obj.skip(1)
    }
}

/// Only `/`, `/index.html` and `/index.htm` are answered with the index
/// page; every other object names the file at the object without its leading
/// character.
pub proof fn lemma_get_path(obj: Seq<char>)
    ensures
        obj == "/"@ || obj == "/index.html"@ || obj == "/index.htm"@ ==> spec_get_path(obj)
            == "index.html"@,
        !(obj == "/"@ || obj == "/index.html"@ || obj == "/index.htm"@) ==> spec_get_path(obj)
            == obj.skip(1),
{
}

fn without_first(obj: &str) -> (res: String)
    requires
        obj@.len() > 0,
    ensures
        res@ == obj@.skip(1),
{
    let v = chars_of(obj);
    let n = v.len();
    let rest = copy_range(&v, 1, n);
    proof {
        assert(rest@ =~= obj@.skip(1));
    }
    string_of(&rest)
}

/// The path of the file that a request for `obj` is about: for `GET` the
/// index page for `/`, `/index.html` and `/index.htm`, else `obj` without its
/// leading character; for `POST` always `obj` without its leading character.
pub fn request_path(method: HttpMethod, obj: &str) -> (res: String)
    requires
        method == HttpMethod::GET && !names_index(obj@) ==> starts_with_ascii(obj@),
        method == HttpMethod::POST ==> starts_with_ascii(obj@),
    ensures
        method == HttpMethod::GET ==> res@ == spec_get_path(obj@),
        method == HttpMethod::GET && (obj@ == "/"@ || obj@ == "/index.html"@ || obj@
            == "/index.htm"@) ==> res@ == "index.html"@,
        method == HttpMethod::GET && !(obj@ == "/"@ || obj@ == "/index.html"@ || obj@
            == "/index.htm"@) ==> res@ == obj@.skip(1),
        method == HttpMethod::POST ==> res@ == obj@.skip(1),
{
    proof {
        lemma_get_path(obj@);
    }
    match method {
        HttpMethod::GET => {
            let o = obj.to_owned();
            if o == String::from_str("/") || o == String::from_str("/index.html") || o
                == String::from_str("/index.htm") {
                String::from_str("index.html")
            } else {
                without_first(obj)
            }
        },
        HttpMethod::POST => without_first(obj),
    }
}

/// How to answer a request once it is known whether its file exists.
#[derive(Debug)]
pub enum Reply {
    /// Answer with `status` and the contents of the file at `path`.
    File { status: HttpStatusCode, path: String },
    /// Store the request body in the file `target` (a fresh random name when
    /// `None`), then answer with `status` and the contents of the file at
    /// `page`.
    Store { target: Option<String>, status: HttpStatusCode, page: String },
}

/// The answer to a request for `obj`, where `path` is its `request_path` and
/// `exists` tells whether that file exists: a `GET` sends the file or the
/// not-found page; a `POST` refuses to overwrite with the conflict page, else
/// stores the body under `obj` without its leading character, or under a
/// random name for `/`, and answers `201 Created` with the page `CREATED`.
pub fn plan_reply(method: HttpMethod, obj: &str, path: String, exists: bool) -> (res: Reply)
    requires
        method == HttpMethod::POST ==> starts_with_ascii(obj@),
    ensures
        method == HttpMethod::GET && exists ==> res == (Reply::File {
            status: HttpStatusCode::OK,
            path,
        }),
        method == HttpMethod::GET && !exists ==> (res matches Reply::File { status, path: p }
            && status == HttpStatusCode::Not_Found && p@ == "404.html"@),
        method == HttpMethod::POST && exists ==> (res matches Reply::File { status, path: p }
            && status == HttpStatusCode::Conflict && p@ == "409.html"@),
        method == HttpMethod::POST && !exists ==> (res matches Reply::Store { status, page, .. }
            && status == HttpStatusCode::Created && page@ == "201.html"@),
        method == HttpMethod::POST && !exists && obj@ == "/"@ ==> (res matches Reply::Store {
            target,
            ..
        } && target is None),
        method == HttpMethod::POST && !exists && obj@ != "/"@ ==> (res matches Reply::Store {
            target,
            ..
        } && target is Some && target->Some_0@ == obj@.skip(1)),
{
    match method {
        HttpMethod::GET => {
            if exists {
                Reply::File { status: HttpStatusCode::OK, path }
            } else {
                Reply::File {
                    status: HttpStatusCode::Not_Found,
                    path: String::from_str(crate::config::NOT_FOUND),
                }
            }
        },
        HttpMethod::POST => {
            if exists {
                Reply::File {
                    status: HttpStatusCode::Conflict,
                    path: String::from_str(crate::config::CONFLICT),
                }
            } else {
                let o = obj.to_owned();
                if o == String::from_str("/") {
                    Reply::Store {
                        target: None,
                        status: HttpStatusCode::Created,
                        page: String::from_str(crate::config::CREATED),
                    }
                } else {
                    Reply::Store {
                        target: Some(without_first(obj)),
                        status: HttpStatusCode::Created,
                        page: String::from_str(crate::config::CREATED),
                    }
                }
            }
        },
    }
}

// ---------------------------------------------------------------------------
// Framing an answer
// ---------------------------------------------------------------------------

/// The header fields of an answer: its content type and its length.
pub open spec fn reply_headers(content_type: Seq<char>, body_len: nat) -> HeaderList {
    insert_entry(
        insert_entry(Seq::empty(), "Content-Type"@, seq![content_type]),
        "Content-Length"@,
        seq![decimal_digits(body_len)],
    )
}

/// The answer with `status`, a `Content-Type` field holding `content_type`,
/// a `Content-Length` field holding the length of `body` in decimal, and the
/// body.
pub fn file_response(
    version: HttpVersion,
    status: HttpStatusCode,
    content_type: String,
    body: Vec<u8>,
) -> (res: HttpResponse)
    ensures
        res.version == version,
        res.status == status,
        res.headers@ == reply_headers(content_type@, body@.len()),
        res.body@ == body@,
{
    let ghost ct = content_type@;
    let mut headers = HttpHeaders::new();
    let mut types: Vec<String> = Vec::new();
    types.push(content_type);
    proof {
        assert(types.deep_view() =~= seq![ct]);
    }
    headers.insert(String::from_str("Content-Type"), types);
    let len = usize_to_decimal(body.len());
    let len_text = string_of(&len);
    let mut lengths: Vec<String> = Vec::new();
    lengths.push(len_text);
    proof {
        assert(lengths.deep_view() =~= seq![decimal_digits(body@.len())]);
    }
    headers.insert(String::from_str("Content-Length"), lengths);
    HttpResponse { version, status, headers, body }
}

/// The length an answer declares is the length of the body it carries.
pub proof fn lemma_reply_declares_body_length(content_type: Seq<char>, body_len: usize)
    ensures
        spec_content_length(reply_headers(content_type, body_len as nat)) == Ok::<
            Option<usize>,
            Seq<char>,
        >(Some(body_len)),
{
    reveal_strlit("Content-Type");
    reveal_strlit("Content-Length");
    let h0: HeaderList = Seq::empty();
    let h1 = insert_entry(h0, "Content-Type"@, seq![content_type]);
    let d = decimal_digits(body_len as nat);
    assert("Content-Type"@ != "Content-Length"@) by {
        assert("Content-Type"@[8] != "Content-Length"@[8]);
    }
    crate::headers::lemma_lookup_insert_same(h1, "Content-Length"@, seq![d]);
    lemma_decimal_round_trip(body_len);
    lemma_decimal_digits(body_len as nat);
    assert(crate::number::is_digit(d[0]));
    assert(crate::number::is_digit(d[d.len() - 1]));
    lemma_trim_none(d);
    assert(content_length_key() == "Content-Length"@);
}

} // verus!
