use libwebs::control::{ControlStat, MAX_KEEP_ALIVE_REQUESTS};
use libwebs::http_magic::{HttpMethod, HttpRequest, HttpStatusCode, HttpVersion};
use libwebs::server::{file_response, plan_reply, request_path, should_close, wait_step, Reply, WaitStep};
use libwebs::utils::deduce_file_mime;

const SEC: u128 = 1_000_000_000;

#[test]
fn control_stat_starts_and_resets_unmarked() {
    let mut s = ControlStat::new();
    assert_eq!(s.thread_index, usize::MAX);
    assert_eq!(s.idle_time, 0);
    s.thread_index = 3;
    s.idle_time = 7;
    s.reset();
    assert_eq!(s.thread_index, usize::MAX);
    assert_eq!(s.idle_time, 0);
}

#[test]
fn received_bytes_are_served() {
    let mut s = ControlStat::new();
    assert_eq!(wait_step(10, 100 * SEC, 60, 9, 1, 0, &mut s), WaitStep::Serve);
    assert_eq!(s.thread_index, usize::MAX);
}

#[test]
fn idle_or_exhausted_connections_close() {
    let mut s = ControlStat::new();
    assert_eq!(wait_step(0, 5 * SEC, 0, 0, 4, 0, &mut s), WaitStep::Close);
    assert_eq!(wait_step(0, 5 * SEC - 1, 0, 0, 4, 0, &mut s), WaitStep::KeepReading);
    assert_eq!(wait_step(0, 0, MAX_KEEP_ALIVE_REQUESTS, 0, 4, 0, &mut s), WaitStep::Close);
    assert_eq!(s.thread_index, usize::MAX);
}

#[test]
fn busy_workers_mark_the_longest_idle_connection() {
    let mut s = ControlStat::new();
    // every worker busy: the idle connection takes the mark
    assert_eq!(wait_step(0, 2 * SEC, 1, 4, 4, 7, &mut s), WaitStep::KeepReading);
    assert_eq!((s.thread_index, s.idle_time), (7, 2 * SEC));
    // a connection idle for less time leaves the mark alone
    assert_eq!(wait_step(0, SEC, 1, 4, 4, 8, &mut s), WaitStep::KeepReading);
    assert_eq!((s.thread_index, s.idle_time), (7, 2 * SEC));
    // the marked thread gives its connection up and clears the mark
    assert_eq!(wait_step(0, 3 * SEC, 1, 4, 4, 7, &mut s), WaitStep::Close);
    assert_eq!((s.thread_index, s.idle_time), (usize::MAX, 0));
    // with free workers nothing is marked
    assert_eq!(wait_step(0, 3 * SEC, 1, 2, 4, 9, &mut s), WaitStep::KeepReading);
    assert_eq!(s.thread_index, usize::MAX);
}

#[test]
fn connections_close_after_http_1_0_or_limits() {
    assert!(should_close(HttpVersion::HTTP1x0, 1, 0));
    assert!(!should_close(HttpVersion::HTTP1x1, 1, 0));
    assert!(should_close(HttpVersion::HTTP1x1, 50, 0));
    assert!(should_close(HttpVersion::HTTP1x1, 1, 5 * SEC));
    assert!(!should_close(HttpVersion::HTTP1x1, 49, 5 * SEC - 1));
}

#[test]
fn get_paths_map_index_and_strip_slash() {
    assert_eq!(request_path(HttpMethod::GET, "/"), "index.html");
    assert_eq!(request_path(HttpMethod::GET, "/index.html"), "index.html");
    assert_eq!(request_path(HttpMethod::GET, "/index.htm"), "index.html");
    assert_eq!(request_path(HttpMethod::GET, "/a/b.txt"), "a/b.txt");
    assert_eq!(request_path(HttpMethod::POST, "/up"), "up");
    assert_eq!(request_path(HttpMethod::POST, "/"), "");
}

fn file_of(r: Reply) -> (HttpStatusCode, String) {
    match r {
        Reply::File { status, path } => (status, path),
        other => panic!("expected a file, got {:?}", other),
    }
}

#[test]
fn replies_follow_method_and_existence() {
    assert_eq!(
        file_of(plan_reply(HttpMethod::GET, "/a", "a".to_string(), true)),
        (HttpStatusCode::OK, "a".to_string())
    );
    assert_eq!(
        file_of(plan_reply(HttpMethod::GET, "/a", "a".to_string(), false)),
        (HttpStatusCode::Not_Found, "404.html".to_string())
    );
    assert_eq!(
        file_of(plan_reply(HttpMethod::POST, "/a", "a".to_string(), true)),
        (HttpStatusCode::Conflict, "409.html".to_string())
    );
    match plan_reply(HttpMethod::POST, "/a", "a".to_string(), false) {
        Reply::Store { target, status, page } => {
            assert_eq!(target, Some("a".to_string()));
            assert_eq!(status, HttpStatusCode::Created);
            assert_eq!(page, "201.html");
        }
        other => panic!("expected a store, got {:?}", other),
    }
    match plan_reply(HttpMethod::POST, "/", String::new(), false) {
        Reply::Store { target, status, page } => {
            assert_eq!(target, None);
            assert_eq!(status, HttpStatusCode::Created);
            assert_eq!(page, "201.html");
        }
        other => panic!("expected a store, got {:?}", other),
    }
}

#[test]
fn replies_declare_their_body_length() {
    let r = file_response(HttpVersion::HTTP1x1, HttpStatusCode::OK, "text/plain".to_string(), b"hello".to_vec());
    assert_eq!(
        r.to_vec(),
        b"HTTP/1.1 200 OK\r\nContent-Type: text/plain\r\nContent-Length: 5\r\n\r\nhello".to_vec()
    );
    let empty = file_response(HttpVersion::HTTP1x0, HttpStatusCode::Created, "text/html".to_string(), vec![]);
    assert_eq!(empty.headers.get("Content-Length"), Some(&vec!["0".to_string()]));
    let big = file_response(HttpVersion::HTTP1x1, HttpStatusCode::OK, "x".to_string(), vec![7u8; 1234]);
    assert_eq!(big.headers.get("Content-Length"), Some(&vec!["1234".to_string()]));
}

#[test]
fn a_reply_read_back_as_a_request_has_a_complete_body() {
    // The framing of a reply is the framing a request reader expects.
    let r = file_response(HttpVersion::HTTP1x1, HttpStatusCode::OK, "text/plain".to_string(), b"hello".to_vec());
    let mut bytes = b"POST /echo HTTP/1.1\r\n".to_vec();
    let text = r.to_vec();
    let start = text.iter().position(|&b| b == b'\n').unwrap() + 1;
    bytes.extend_from_slice(&text[start..]);
    let req = HttpRequest::from_vec(&bytes).unwrap();
    assert_eq!(req.body, b"hello".to_vec());
    assert_eq!(req.content_length().unwrap(), Some(5));
    assert!(req.is_body_complete_or_absent());
}

#[test]
fn mime_types_come_from_the_extension() {
    assert_eq!(deduce_file_mime("index.html"), Some("text/html".to_string()));
    assert_eq!(deduce_file_mime("dir/notes.TXT"), Some("text/plain".to_string()));
    assert_eq!(deduce_file_mime("README"), None);
    assert_eq!(deduce_file_mime("archive.unknownext"), None);
}

#[test]
fn a_keep_alive_connection_serves_at_most_the_limit() {
    // the loop keeps a connection while should_close says no
    let mut served: u16 = 0;
    loop {
        served += 1;
        if should_close(HttpVersion::HTTP1x1, served, SEC) {
            break;
        }
    }
    assert_eq!(served, MAX_KEEP_ALIVE_REQUESTS);
    // an HTTP/1.0 request ends the run at once
    assert!(should_close(HttpVersion::HTTP1x0, 1, 0));
}

#[test]
fn an_idle_wait_ends_at_the_timeout_without_serving() {
    let mut s = ControlStat::new();
    let mut idle: u128 = 0;
    let mut turns = 0;
    let step = loop {
        turns += 1;
        let step = wait_step(0, idle, 3, 1, 4, 2, &mut s);
        if step != WaitStep::KeepReading {
            break step;
        }
        idle += SEC / 2;
    };
    assert_eq!(step, WaitStep::Close);
    assert_eq!(idle, 5 * SEC);
    assert_eq!(turns, 11);
}
