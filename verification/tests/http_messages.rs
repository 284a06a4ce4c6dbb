use libwebs::headers::HttpHeaders;
use libwebs::http_magic::{
    http_headers_fmt, HttpMethod, HttpRequest, HttpResponse, HttpStatusCode, HttpVersion,
};
use libwebs::text::split_on_char;
use libwebs::utils::array_stringify;

fn strings(items: &[&str]) -> Vec<String> {
    items.iter().map(|s| s.to_string()).collect()
}

fn error_of(req: &[u8]) -> String {
    match HttpRequest::try_from_vec(req) {
        Err(e) => e.detail().to_string(),
        Ok(_) => panic!("expected an error"),
    }
}

#[test]
fn header_end_is_first_blank_line() {
    assert_eq!(HttpRequest::headers_terminated(b"GET / HTTP/1.1\r\nA: b\r\n\r\nxyz"), Some(20));
    assert_eq!(HttpRequest::headers_terminated(b"\r\n\r\n\r\n\r\n"), Some(0));
    assert_eq!(HttpRequest::headers_terminated(b"GET / HTTP/1.1\r\n\r"), None);
    assert_eq!(HttpRequest::headers_terminated(b"\r\n\r"), None);
    assert_eq!(HttpRequest::headers_terminated(b""), None);
}

#[test]
fn reads_a_get_request() {
    let req = b"GET /index.html HTTP/1.1\r\nHost: localhost\r\nContent-Length: 3\r\n\r\nabcdef";
    let r = HttpRequest::from_vec(req).unwrap();
    assert_eq!(r.method, HttpMethod::GET);
    assert_eq!(r.requested_object, "/index.html");
    assert_eq!(r.version, HttpVersion::HTTP1x1);
    assert_eq!(r.headers.len(), 2);
    assert_eq!(r.headers.get("Host"), Some(&strings(&[" localhost"])));
    assert_eq!(r.headers.get("Content-Length"), Some(&strings(&[" 3"])));
    assert_eq!(r.body, b"abc".to_vec());
    assert!(r.is_body_complete_or_absent());
}

#[test]
fn pads_a_short_body_with_zeros() {
    let req = b"post /f HTTP/1.0\r\nContent-Length: 5\r\n\r\nab";
    let r = HttpRequest::from_vec(req).unwrap();
    assert_eq!(r.method, HttpMethod::POST);
    assert_eq!(r.requested_object, "/f");
    assert_eq!(r.version, HttpVersion::HTTP1x0);
    assert_eq!(r.body, vec![b'a', b'b', 0, 0, 0]);
}

#[test]
fn keeps_body_without_content_length() {
    let r = HttpRequest::from_vec(b"GET / HTTP/1.1\r\nX: y\r\n\r\nrest").unwrap();
    assert_eq!(r.body, b"rest".to_vec());
    assert!(r.is_body_complete_or_absent());
    assert_eq!(r.content_length().unwrap(), None);
}

#[test]
fn incomplete_header_block_reads_nothing() {
    assert!(HttpRequest::from_vec(b"GET / HTTP/1.1\r\nHost: a\r\n").is_none());
    assert!(matches!(HttpRequest::try_from_vec(b"GET / HTTP/1.1\r\n"), Ok(None)));
}

#[test]
fn later_header_replaces_earlier_in_place() {
    let r = HttpRequest::from_vec(b"GET / HTTP/1.1\r\nA: 1\r\nB: 2\r\nA: 3,4\r\n\r\n").unwrap();
    assert_eq!(r.headers.len(), 2);
    assert_eq!(r.headers.get("A"), Some(&strings(&[" 3", "4"])));
    assert_eq!(r.headers.get("B"), Some(&strings(&[" 2"])));
    let (k0, _) = r.headers.entry_at(0);
    assert_eq!(k0, "A");
    assert_eq!(r.headers.get("C"), None);
}

#[test]
fn bare_line_feeds_also_end_lines() {
    let r = HttpRequest::from_vec(b"GET / HTTP/1.1\r\nA: 1\nB:2\r\n\r\n").unwrap();
    assert_eq!(r.headers.get("A"), Some(&strings(&[" 1"])));
    assert_eq!(r.headers.get("B"), Some(&strings(&["2"])));
}

#[test]
fn request_line_words_split_on_any_ascii_space() {
    let r = HttpRequest::from_vec(b"  GET\t/a   HTTP/1.1 extra\r\nA: b\r\n\r\n").unwrap();
    assert_eq!(r.method, HttpMethod::GET);
    assert_eq!(r.requested_object, "/a");
    assert_eq!(r.version, HttpVersion::HTTP1x1);
}

#[test]
fn invalid_utf8_in_head_is_replaced() {
    let r = HttpRequest::from_vec(b"GET /\xff HTTP/1.1\r\nA: b\r\n\r\n").unwrap();
    assert_eq!(r.requested_object, "/\u{FFFD}");
}

#[test]
fn content_length_is_trimmed_and_may_carry_plus() {
    let r = HttpRequest::from_vec("GET / HTTP/1.1\r\nContent-Length:\u{A0}+2 \r\n\r\nabcd".as_bytes())
        .unwrap();
    assert_eq!(r.body, b"ab".to_vec());
    assert_eq!(r.content_length().unwrap(), Some(2));
}

#[test]
fn malformed_requests_are_reported() {
    assert_eq!(error_of(b"GET / HTTP/1.1\r\n\r\n"), "missing request line");
    assert_eq!(error_of(b"\r\nA: b\r\n\r\n"), "missing http method");
    assert_eq!(error_of(b"PUT / HTTP/1.1\r\nA: b\r\n\r\n"), "invalid http method");
    assert_eq!(error_of(b"GET\r\nA: b\r\n\r\n"), "missing requested object");
    assert_eq!(error_of(b"GET /\r\nA: b\r\n\r\n"), "missing http version");
    assert_eq!(error_of(b"GET / HTTP/2\r\nA: b\r\n\r\n"), "invalid http version");
    assert_eq!(error_of(b"GET / HTTP/1.1\r\nNoColon\r\n\r\n"), "header line without a colon");
    assert_eq!(error_of(b"GET / HTTP/1.1\r\nContent-Length: x\r\n\r\n"), "invalid content length");
    assert_eq!(
        error_of(b"GET / HTTP/1.1\r\nContent-Length: 99999999999999999999999\r\n\r\n"),
        "invalid content length"
    );
    assert_eq!(error_of(b"GET / HTTP/1.1\r\nContent-Length: -1\r\n\r\n"), "invalid content length");
    assert_eq!(error_of(b"GET / HTTP/1.1\r\nContent-Length: +\r\n\r\n"), "invalid content length");
}

#[test]
fn try_from_vec_agrees_with_from_vec() {
    let req = b"GET /x HTTP/1.1\r\nContent-Length: 1\r\n\r\nzz";
    let a = HttpRequest::try_from_vec(req).unwrap().unwrap();
    let b = HttpRequest::from_vec(req).unwrap();
    assert_eq!(a.requested_object, b.requested_object);
    assert_eq!(a.body, b.body);
}

#[test]
fn methods_ignore_letter_case() {
    assert_eq!(HttpMethod::new("get").unwrap(), HttpMethod::GET);
    assert_eq!(HttpMethod::new("GeT").unwrap(), HttpMethod::GET);
    assert_eq!(HttpMethod::new("POST").unwrap(), HttpMethod::POST);
    assert_eq!(HttpMethod::new("post").unwrap(), HttpMethod::POST);
    assert_eq!(HttpMethod::new("put").unwrap_err().detail(), "invalid http method");
    assert!(HttpMethod::new("GETS").is_err());
    assert!(HttpMethod::new("").is_err());
}

#[test]
fn versions_are_exact() {
    assert_eq!(HttpVersion::new("HTTP/1.0").unwrap(), HttpVersion::HTTP1x0);
    assert_eq!(HttpVersion::new("HTTP/1.1").unwrap(), HttpVersion::HTTP1x1);
    assert_eq!(HttpVersion::new("http/1.1").unwrap_err().detail(), "invalid http version");
    assert!(HttpVersion::new("HTTP/1.2").is_err());
}

#[test]
fn version_text_reads_back() {
    for v in [HttpVersion::HTTP1x0, HttpVersion::HTTP1x1] {
        assert_eq!(HttpVersion::new(&v.to_string()).unwrap(), v);
    }
    assert_eq!(HttpVersion::HTTP1x0.to_string(), "HTTP/1.0");
}

#[test]
fn status_codes_are_written_with_reason() {
    assert_eq!(HttpStatusCode::OK.to_string(), "200 OK");
    assert_eq!(HttpStatusCode::Created.to_string(), "201 Created");
    assert_eq!(HttpStatusCode::Not_Found.to_string(), "404 Not Found");
    assert_eq!(HttpStatusCode::Conflict.to_string(), "409 Conflict");
    assert_eq!(HttpStatusCode::Conflict.code(), 409);
    assert_eq!(HttpStatusCode::OK.code(), 200);
}

#[test]
fn stringify_joins_with_delimiter() {
    assert_eq!(array_stringify(&strings(&["a", "b", "c"]), ','), "a,b,c");
    assert_eq!(array_stringify(&strings(&["a"]), ','), "a");
    assert_eq!(array_stringify(&[], ','), "");
    assert_eq!(array_stringify(&strings(&["", ""]), ';'), ";");
}

#[test]
fn headers_are_formatted_one_per_line() {
    let mut h = HttpHeaders::new();
    assert_eq!(http_headers_fmt(&h), "");
    h.insert("A".to_string(), strings(&["1", "2"]));
    h.insert("B".to_string(), vec![]);
    assert_eq!(http_headers_fmt(&h), "A: 1,2\r\nB: ");
    h.insert("A".to_string(), strings(&["3"]));
    assert_eq!(http_headers_fmt(&h), "A: 3\r\nB: ");
}

#[test]
fn response_is_framed() {
    let mut h = HttpHeaders::new();
    h.insert("Content-Type".to_string(), strings(&["text/html"]));
    let r = HttpResponse::new(HttpVersion::HTTP1x1, HttpStatusCode::Not_Found, h, b"hi");
    assert_eq!(r.to_vec(), b"HTTP/1.1 404 Not Found\r\nContent-Type: text/html\r\n\r\nhi".to_vec());
    let empty = HttpResponse::new(HttpVersion::HTTP1x0, HttpStatusCode::OK, HttpHeaders::new(), b"x");
    assert_eq!(empty.to_vec(), b"HTTP/1.0 200 OK\r\n\r\n\r\nx".to_vec());
}

#[test]
fn response_text_replaces_invalid_utf8() {
    let r = HttpResponse::new(HttpVersion::HTTP1x1, HttpStatusCode::Created, HttpHeaders::new(), b"a\xffb");
    assert_eq!(r.to_string(), "HTTP/1.1 201 Created\r\n\r\n\r\na\u{FFFD}b");
}

#[test]
fn default_request_is_body_complete() {
    let r = HttpRequest::default();
    assert_eq!(r.method, HttpMethod::GET);
    assert_eq!(r.version, HttpVersion::HTTP1x1);
    assert_eq!(r.requested_object, "");
    assert_eq!(r.headers.len(), 0);
    assert!(r.body.is_empty());
    assert!(r.is_body_complete_or_absent());
}

#[test]
fn body_shorter_than_declared_is_incomplete() {
    let mut r = HttpRequest::from_vec(b"POST /a HTTP/1.1\r\nContent-Length: 4\r\n\r\nabcd").unwrap();
    assert!(r.is_body_complete_or_absent());
    r.body.truncate(2);
    assert!(!r.is_body_complete_or_absent());
}

#[test]
fn written_headers_read_back_with_the_space_on_the_first_value() {
    let mut h = HttpHeaders::new();
    h.insert("A".to_string(), strings(&["1", "2"]));
    h.insert("B".to_string(), vec![]);
    h.insert("Content-Length".to_string(), strings(&["2"]));
    let mut req = b"GET / HTTP/1.1\r\n".to_vec();
    req.extend_from_slice(http_headers_fmt(&h).as_bytes());
    req.extend_from_slice(b"\r\n\r\nxyz");
    let r = HttpRequest::from_vec(&req).unwrap();
    assert_eq!(r.headers.len(), 3);
    assert_eq!(r.headers.get("A"), Some(&strings(&[" 1", "2"])));
    assert_eq!(r.headers.get("B"), Some(&strings(&[" "])));
    assert_eq!(r.headers.get("Content-Length"), Some(&strings(&[" 2"])));
    assert_eq!(r.body, b"xy".to_vec());
}

#[test]
fn stringified_values_split_back() {
    let values = strings(&["a", "", "bc"]);
    let joined: Vec<char> = array_stringify(&values, ',').chars().collect();
    let parts: Vec<String> = split_on_char(&joined, ',').into_iter().map(|p| p.into_iter().collect()).collect();
    assert_eq!(parts, values);
    let single: Vec<char> = "x".chars().collect();
    assert_eq!(split_on_char(&single, ','), vec![vec!['x']]);
}

#[test]
fn inserted_values_are_read_back_and_others_kept() {
    let mut h = HttpHeaders::new();
    h.insert("K".to_string(), strings(&["v"]));
    h.insert("L".to_string(), strings(&["w"]));
    h.insert("K".to_string(), strings(&["z"]));
    assert_eq!(h.get("K"), Some(&strings(&["z"])));
    assert_eq!(h.get("L"), Some(&strings(&["w"])));
    assert_eq!(h.len(), 2);
}

#[test]
fn cloned_request_keeps_everything() {
    let r = HttpRequest::from_vec(b"POST /c HTTP/1.1\r\nA: 1\r\nContent-Length: 2\r\n\r\nhi").unwrap();
    let c = r.clone();
    assert_eq!(c.method, r.method);
    assert_eq!(c.requested_object, r.requested_object);
    assert_eq!(c.version, r.version);
    assert_eq!(c.headers.get("A"), r.headers.get("A"));
    assert_eq!(c.headers.len(), r.headers.len());
    assert_eq!(c.body, r.body);
}

#[test]
fn response_bytes_are_its_text_when_the_body_is_utf8() {
    let mut h = HttpHeaders::new();
    h.insert("Content-Type".to_string(), strings(&["text/plain"]));
    h.insert("X".to_string(), strings(&["é", "ß"]));
    let r = HttpResponse::new(HttpVersion::HTTP1x1, HttpStatusCode::OK, h, "héllo\r\n\r\nwörld".as_bytes());
    assert_eq!(r.to_vec(), r.to_string().into_bytes());
}

#[test]
fn response_splits_at_its_blank_line() {
    let mut h = HttpHeaders::new();
    h.insert("Content-Type".to_string(), strings(&["text/plain"]));
    h.insert("Ünï".to_string(), strings(&["a", "b"]));
    let body = b"\r\n\r\nbody".to_vec();
    let r = HttpResponse::new(HttpVersion::HTTP1x0, HttpStatusCode::Conflict, h, &body);
    let bytes = r.to_vec();
    let end = HttpRequest::headers_terminated(&bytes).unwrap();
    let head = format!("{} {}\r\n{}", r.version.to_string(), r.status.to_string(), http_headers_fmt(&r.headers));
    assert_eq!(&bytes[..end], head.as_bytes());
    assert_eq!(&bytes[end + 4..], &body[..]);
}

#[test]
fn more_bytes_after_the_header_block_change_only_the_body() {
    // without Content-Length the new bytes join the body
    let p = b"GET /a HTTP/1.1\r\nX: y\r\n\r\nab".to_vec();
    let mut q = p.clone();
    q.extend_from_slice(b"cd\r\n\r\nef");
    let r = HttpRequest::from_vec(&p).unwrap();
    let r2 = HttpRequest::from_vec(&q).unwrap();
    assert_eq!(r2.method, r.method);
    assert_eq!(r2.requested_object, r.requested_object);
    assert_eq!(r2.version, r.version);
    assert_eq!(r2.headers.len(), r.headers.len());
    assert_eq!(r2.headers.get("X"), r.headers.get("X"));
    assert_eq!(r2.body, b"abcd\r\n\r\nef".to_vec());
    // once the declared length has arrived, the body stays
    let p = b"POST /f HTTP/1.1\r\nContent-Length: 2\r\n\r\nxy".to_vec();
    let mut q = p.clone();
    q.extend_from_slice(b"zzz");
    assert_eq!(HttpRequest::from_vec(&q).unwrap().body, HttpRequest::from_vec(&p).unwrap().body);
    // before it has arrived, the new bytes replace the padding
    let p = b"POST /f HTTP/1.1\r\nContent-Length: 3\r\n\r\nx".to_vec();
    let mut q = p.clone();
    q.extend_from_slice(b"yz!");
    assert_eq!(HttpRequest::from_vec(&p).unwrap().body, vec![b'x', 0, 0]);
    assert_eq!(HttpRequest::from_vec(&q).unwrap().body, b"xyz".to_vec());
}
