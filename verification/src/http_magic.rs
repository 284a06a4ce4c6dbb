//! HTTP/1.x messages: methods, versions, status codes, requests read from the
//! bytes of a connection and responses framed into bytes.
use vstd::prelude::*;
use vstd::utf8::{decode_utf8, encode_scalar, encode_utf8, valid_utf8};
use crate::encoding::{
    lemma_encode_ascii_scalar, lemma_encode_concat, lemma_encode_first_ascii, lemma_encode_prefix_len,
    lemma_encode_wide_scalar,
};
use crate::headers::{HeaderList, HttpHeaders, key_pos, lookup, insert_entry, unique_keys};
use crate::number::{decimal_digits, parse_usize, spec_parse_usize};
use crate::strings::{chars_of, string_of};
use crate::text::{
    copy_range, crlf_index, find_char_from, find_crlf, index_of, is_first_of, join, lines,
    lines_of, split_on, split_on_char, trim, trim_chars, words, words_of, lemma_index_of_found,
    lemma_join_no_char, lemma_join_prefix_first, lemma_lines_join, lemma_split_join,
};
use crate::utils::array_stringify;

verus! {

// ---------------------------------------------------------------------------
// Errors
// ---------------------------------------------------------------------------

/// Why a message could not be read.
#[derive(Debug)]
pub struct HttpParseError {
    detail: String,
}

impl View for HttpParseError {
    type V = Seq<char>;

    closed spec fn view(&self) -> Seq<char> {
        self.detail@
    }
}

impl HttpParseError {
    /// An error explained by `msg`.
    pub fn new(msg: &str) -> (res: HttpParseError)
        ensures
            res@ == msg@,
    {
        HttpParseError { detail: msg.to_owned() }
    }

    /// The explanation carried by the error.
    pub fn detail(&self) -> (res: &str)
        ensures
            res@ == self@,
    {
        self.detail.as_str()
    }
}

// ---------------------------------------------------------------------------
// Status codes
// ---------------------------------------------------------------------------

/// The status codes this server answers with.
#[allow(non_camel_case_types)]
#[derive(Copy, Clone, Debug, PartialEq, Eq, Structural)]
pub enum HttpStatusCode {
    OK,
    Created,
    Not_Found,
    Conflict,
}

/// The number of a status code.
pub open spec fn status_number(s: HttpStatusCode) -> u16 {
    match s {
        HttpStatusCode::OK => 200,
        HttpStatusCode::Created => 201,
        HttpStatusCode::Not_Found => 404,
        HttpStatusCode::Conflict => 409,
    }
}

/// How a status code is written in a status line: number, space, reason.
pub open spec fn status_text(s: HttpStatusCode) -> Seq<char> {
    match s {
        HttpStatusCode::OK => seq!['2', '0', '0', ' ', 'O', 'K'],
        HttpStatusCode::Created => seq!['2', '0', '1', ' ', 'C', 'r', 'e', 'a', 't', 'e', 'd'],
        HttpStatusCode::Not_Found => seq![
            '4',
            '0',
            '4',
            ' ',
            'N',
            'o',
            't',
            ' ',
            'F',
            'o',
            'u',
            'n',
            'd',
        ],
        HttpStatusCode::Conflict => seq![
            '4',
            '0',
            '9',
            ' ',
            'C',
            'o',
            'n',
            'f',
            'l',
            'i',
            'c',
            't',
        ],
    }
}

impl HttpStatusCode {
    /// The number of the status code.
    pub fn code(&self) -> (res: u16)
        ensures
            res == status_number(*self),
            decimal_digits(res as nat) == status_text(*self).take(3),
    {
        proof {
            lemma_status_number_is_written(*self);
        }
        match self {
            HttpStatusCode::OK => 200,
            HttpStatusCode::Created => 201,
            HttpStatusCode::Not_Found => 404,
            HttpStatusCode::Conflict => 409,
        }
    }

    /// The status as it stands in a status line, such as `404 Not Found`.
    pub fn to_string(&self) -> (res: String)
        ensures
            res@ == status_text(*self),
    {
        match self {
            HttpStatusCode::OK => {
                let s = String::from_str("200 OK");
                proof {
                    reveal_strlit("200 OK");
                    assert(s@ =~= status_text(*self));
                }
                s
            },
            HttpStatusCode::Created => {
                let s = String::from_str("201 Created");
                proof {
                    reveal_strlit("201 Created");
                    assert(s@ =~= status_text(*self));
                }
                s
            },
            HttpStatusCode::Not_Found => {
                let s = String::from_str("404 Not Found");
                proof {
                    reveal_strlit("404 Not Found");
                    assert(s@ =~= status_text(*self));
                }
                s
            },
            HttpStatusCode::Conflict => {
                let s = String::from_str("409 Conflict");
                proof {
                    reveal_strlit("409 Conflict");
                    assert(s@ =~= status_text(*self));
                }
                s
            },
        }
    }
}

// ---------------------------------------------------------------------------
// Methods
// ---------------------------------------------------------------------------

/// The request methods this server understands.
#[derive(Copy, Clone, Debug, PartialEq, Eq, Structural)]
pub enum HttpMethod {
    GET,
    POST,
}

/// The upper-case form of an ASCII lower-case letter.
pub open spec fn ascii_upper(c: char) -> char {
    if 'a' <= c <= 'z' {
        ((c as int) - 32) as char
    } else {
        c
    }
}

/// `s` spells the lower-case word `word`, each letter in either case.
pub open spec fn matches_word(s: Seq<char>, word: Seq<char>) -> bool {
    &&& s.len() == word.len()
    &&& forall|i: int| 0 <= i < s.len() ==> s[i] == word[i] || s[i] == ascii_upper(word[i])
}

/// The method that `s` names: `get` or `post` in any letter case.
pub open spec fn spec_method(s: Seq<char>) -> Option<HttpMethod> {
    if matches_word(s, seq!['g', 'e', 't']) {
        Some(HttpMethod::GET)
    } else if matches_word(s, seq!['p', 'o', 's', 't']) {
        Some(HttpMethod::POST)
    } else {
        None
    }
}

/// Message of the error for an unknown method.
pub open spec fn invalid_method_msg() -> Seq<char> {
    "invalid http method"@
}

/// Message of the error for an unknown version.
pub open spec fn invalid_version_msg() -> Seq<char> {
    "invalid http version"@
}

fn letter_is(c: char, lower: char, upper: char) -> (res: bool)
    ensures
        res == (c == lower || c == upper),
{
    c == lower || c == upper
}

fn method_of_chars(v: &Vec<char>) -> (res: Option<HttpMethod>)
    ensures
        res == spec_method(v@),
{
    let len = v.len();
    if len == 3 && letter_is(v[0], 'g', 'G') && letter_is(v[1], 'e', 'E') && letter_is(
        v[2],
        't',
        'T',
    ) {
        proof {
            assert(matches_word(v@, seq!['g', 'e', 't']));
        }
        return Some(HttpMethod::GET);
    }
    proof {
        if matches_word(v@, seq!['g', 'e', 't']) {
            assert(v@[0] == 'g' || v@[0] == ascii_upper('g'));
            assert(v@[1] == 'e' || v@[1] == ascii_upper('e'));
            assert(v@[2] == 't' || v@[2] == ascii_upper('t'));
        }
    }
    if len == 4 && letter_is(v[0], 'p', 'P') && letter_is(v[1], 'o', 'O') && letter_is(
        v[2],
        's',
        'S',
    ) && letter_is(v[3], 't', 'T') {
        proof {
            assert(matches_word(v@, seq!['p', 'o', 's', 't']));
        }
        return Some(HttpMethod::POST);
    }
    proof {
        if matches_word(v@, seq!['p', 'o', 's', 't']) {
            assert(v@[0] == 'p' || v@[0] == ascii_upper('p'));
            assert(v@[1] == 'o' || v@[1] == ascii_upper('o'));
            assert(v@[2] == 's' || v@[2] == ascii_upper('s'));
            assert(v@[3] == 't' || v@[3] == ascii_upper('t'));
        }
    }
    None
}

impl HttpMethod {
    /// The method named by `method`, `get` or `post` in any letter case.
    pub fn new(method: &str) -> (res: Result<HttpMethod, HttpParseError>)
        ensures
            match spec_method(method@) {
                Some(m) => res == Ok::<HttpMethod, HttpParseError>(m),
                None => res is Err && res->Err_0@ == invalid_method_msg(),
            },
    {
        let v = chars_of(method);
        match method_of_chars(&v) {
            Some(m) => Ok(m),
            None => Err(HttpParseError::new("invalid http method")),
        }
    }
}

// ---------------------------------------------------------------------------
// Versions
// ---------------------------------------------------------------------------

/// The protocol versions this server speaks.
#[derive(Copy, Clone, Debug, PartialEq, Eq, Structural)]
pub enum HttpVersion {
    HTTP1x0,
    HTTP1x1,
}

/// How a version is written: `HTTP/1.0` or `HTTP/1.1`.
pub open spec fn version_text(v: HttpVersion) -> Seq<char> {
    match v {
        HttpVersion::HTTP1x0 => seq!['H', 'T', 'T', 'P', '/', '1', '.', '0'],
        HttpVersion::HTTP1x1 => seq!['H', 'T', 'T', 'P', '/', '1', '.', '1'],
    }
}

/// The version that `s` spells exactly.
pub open spec fn spec_version(s: Seq<char>) -> Option<HttpVersion> {
    if s == version_text(HttpVersion::HTTP1x0) {
        Some(HttpVersion::HTTP1x0)
    } else if s == version_text(HttpVersion::HTTP1x1) {
        Some(HttpVersion::HTTP1x1)
    } else {
        None
    }
}

fn version_of_chars(v: &Vec<char>) -> (res: Option<HttpVersion>)
    ensures
        res == spec_version(v@),
{
    if v.len() == 8 && v[0] == 'H' && v[1] == 'T' && v[2] == 'T' && v[3] == 'P' && v[4] == '/'
        && v[5] == '1' && v[6] == '.' {
        if v[7] == '0' {
            proof {
                assert(v@ =~= version_text(HttpVersion::HTTP1x0));
            }
            return Some(HttpVersion::HTTP1x0);
        }
        if v[7] == '1' {
            proof {
                assert(v@ =~= version_text(HttpVersion::HTTP1x1));
            }
            return Some(HttpVersion::HTTP1x1);
        }
        proof {
            assert(v@[7] != version_text(HttpVersion::HTTP1x0)[7]);
            assert(v@[7] != version_text(HttpVersion::HTTP1x1)[7]);
        }
        return None;
    }
    proof {
        if v@ == version_text(HttpVersion::HTTP1x0) || v@ == version_text(HttpVersion::HTTP1x1) {
            assert(v@.len() == 8);
            assert(v@[0] == 'H' && v@[1] == 'T' && v@[2] == 'T' && v@[3] == 'P');
            assert(v@[4] == '/' && v@[5] == '1' && v@[6] == '.');
        }
    }
    None
}

impl HttpVersion {
    /// The version spelled exactly by `method`.
    pub fn new(method: &str) -> (res: Result<HttpVersion, HttpParseError>)
        ensures
            match spec_version(method@) {
                Some(v) => res == Ok::<HttpVersion, HttpParseError>(v),
                None => res is Err && res->Err_0@ == invalid_version_msg(),
            },
    {
        let v = chars_of(method);
        match version_of_chars(&v) {
            Some(m) => Ok(m),
            None => Err(HttpParseError::new("invalid http version")),
        }
    }

    /// The version as it is written, such as `HTTP/1.1`.
    pub fn to_string(&self) -> (res: String)
        ensures
            res@ == version_text(*self),
    {
        match self {
            HttpVersion::HTTP1x0 => {
                let s = String::from_str("HTTP/1.0");
                proof {
                    reveal_strlit("HTTP/1.0");
                    assert(s@ =~= version_text(*self));
                }
                s
            },
            HttpVersion::HTTP1x1 => {
                let s = String::from_str("HTTP/1.1");
                proof {
                    reveal_strlit("HTTP/1.1");
                    assert(s@ =~= version_text(*self));
                }
                s
            },
        }
    }
}


// ---------------------------------------------------------------------------
// Header fields as text
// ---------------------------------------------------------------------------

/// One header field as it is written: `name: v1,v2,...`.
pub open spec fn header_line(e: (Seq<char>, Seq<Seq<char>>)) -> Seq<char> {
    e.0 + seq![':', ' '] + join(e.1, seq![','])
}

/// All header fields, one per line, lines separated by `\r\n`.
pub open spec fn format_headers(h: HeaderList) -> Seq<char> {
    join(h.map_values(|e: (Seq<char>, Seq<Seq<char>>)| header_line(e)), seq!['\r', '\n'])
}

/// The header fields as text: `name: v1,v2` lines separated by `\r\n`, with no
/// line break after the last one.
pub fn http_headers_fmt(header_map: &HttpHeaders) -> (res: String)
    ensures
        res@ == format_headers(header_map@),
{
    let ghost lines = header_map@.map_values(
        |e: (Seq<char>, Seq<Seq<char>>)| header_line(e),
    );
    let mut displayed = String::new();
    let n = header_map.len();
    let mut i: usize = 0;
    while i < n
        invariant
            n == header_map@.len(),
            lines == header_map@.map_values(|e: (Seq<char>, Seq<Seq<char>>)| header_line(e)),
            i <= n,
            displayed@ == join(lines.take(i as int), seq!['\r', '\n']),
        decreases n - i,
    {
        let ghost before = displayed@;
        if i > 0 {
            displayed.push('\r');
            displayed.push('\n');
        }
        let (k, v) = header_map.entry_at(i);
        let ghost mid = displayed@;
        displayed.append(k.as_str());
        displayed.push(':');
        displayed.push(' ');
        let joined = array_stringify(v.as_slice(), ',');
        displayed.append(joined.as_str());
        proof {
            assert(v@.map_values(|s: String| s@) =~= v.deep_view());
            assert(displayed@ =~= mid + header_line(header_map@[i as int]));
            let t = lines.take(i + 1);
            assert(t.drop_last() =~= lines.take(i as int));
            assert(t.last() == header_line(header_map@[i as int]));
            if i == 0 {
                assert(displayed@ =~= t[0]);
            } else {
                assert(displayed@ =~= before + seq!['\r', '\n'] + t.last());
            }
        }
        i = i + 1;
    }
    proof {
        assert(lines.take(n as int) =~= lines);
    }
    displayed
}

// ---------------------------------------------------------------------------
// Responses
// ---------------------------------------------------------------------------

/// The bytes of a response: the status line, the header fields, an empty line
/// and the body.
pub open spec fn response_bytes(
    version: HttpVersion,
    status: HttpStatusCode,
    headers: HeaderList,
    body: Seq<u8>,
) -> Seq<u8> {
    encode_utf8(version_text(version)) + seq![32u8] + encode_utf8(status_text(status)) + seq![
        13u8,
        10u8,
    ] + encode_utf8(format_headers(headers)) + seq![13u8, 10u8, 13u8, 10u8] + body
}

/// Text that some bytes stand for, invalid UTF-8 replaced by U+FFFD.
pub uninterp spec fn utf8_lossy(bytes: Seq<u8>) -> Seq<char>;

/// `String::from_utf8_lossy`, made an owned `String`: decodes `bytes` as UTF-8,
/// each invalid sequence replaced by U+FFFD. For valid UTF-8 the text is the
/// one that the bytes encode; how invalid input is replaced is not stated.
#[verifier::external_body]
fn decode_utf8_lossy(bytes: &[u8]) -> (res: String)
    ensures
        res@ == utf8_lossy(bytes@),
        vstd::utf8::valid_utf8(bytes@) ==> res@ == vstd::utf8::decode_utf8(bytes@),
{
    String::from_utf8_lossy(bytes).to_string()
}

/// The response as text, the body decoded with replacement of invalid UTF-8.
pub open spec fn response_text(
    version: HttpVersion,
    status: HttpStatusCode,
    headers: HeaderList,
    body: Seq<u8>,
) -> Seq<char> {
    version_text(version) + seq![' '] + status_text(status) + seq!['\r', '\n'] + format_headers(
        headers,
    ) + seq!['\r', '\n', '\r', '\n'] + utf8_lossy(body)
}

fn append_bytes(out: &mut Vec<u8>, bytes: &[u8])
    ensures
        final(out)@ == old(out)@ + bytes@,
{
    let len = bytes.len();
    let mut i: usize = 0;
    while i < len
        invariant
            len == bytes@.len(),
            i <= len,
            out@ == old(out)@ + bytes@.take(i as int),
        decreases len - i,
    {
        out.push(bytes[i]);
        proof {
            assert(bytes@.take(i + 1) =~= bytes@.take(i as int).push(bytes@[i as int]));
        }
        i = i + 1;
    }
    proof {
        assert(bytes@.take(len as int) =~= bytes@);
    }
}

/// A response to send back.
pub struct HttpResponse {
    pub version: HttpVersion,
    pub status: HttpStatusCode,
    pub headers: HttpHeaders,
    pub body: Vec<u8>,
}

impl HttpResponse {
    /// A response with a copy of `body`.
    pub fn new(version: HttpVersion, status: HttpStatusCode, headers: HttpHeaders, body: &[u8]) -> (res:
        HttpResponse)
        ensures
            res.version == version,
            res.status == status,
            res.headers@ == headers@,
            res.body@ == body@,
    {
        HttpResponse { version, status, headers, body: vstd::slice::slice_to_vec(body) }
    }

    /// The response framed as bytes for the wire.
    pub fn to_vec(&self) -> (res: Vec<u8>)
        ensures
            res@ == response_bytes(self.version, self.status, self.headers@, self.body@),
    {
        let mut response: Vec<u8> = Vec::new();
        let version = self.version.to_string();
        append_bytes(&mut response, version.as_str().as_bytes());
        response.push(32u8);
        let status = self.status.to_string();
        append_bytes(&mut response, status.as_str().as_bytes());
        response.push(13u8);
        response.push(10u8);
        let headers = http_headers_fmt(&self.headers);
        append_bytes(&mut response, headers.as_str().as_bytes());
        response.push(13u8);
        response.push(10u8);
        response.push(13u8);
        response.push(10u8);
        append_bytes(&mut response, self.body.as_slice());
        proof {
            assert(response@ =~= response_bytes(
                self.version,
                self.status,
                self.headers@,
                self.body@,
            ));
        }
        response
    }

    /// The response as text; invalid UTF-8 in the body is replaced.
    pub fn to_string(&self) -> (res: String)
        ensures
            res@ == response_text(self.version, self.status, self.headers@, self.body@),
            valid_utf8(self.body@) ==> utf8_lossy(self.body@) == decode_utf8(self.body@),
            valid_utf8(self.body@) ==> encode_utf8(res@) == response_bytes(
                self.version,
                self.status,
                self.headers@,
                self.body@,
            ),
    {
        let mut out = self.version.to_string();
        out.push(' ');
        let status = self.status.to_string();
        out.append(status.as_str());
        out.push('\r');
        out.push('\n');
        let headers = http_headers_fmt(&self.headers);
        out.append(headers.as_str());
        out.push('\r');
        out.push('\n');
        out.push('\r');
        out.push('\n');
        let body = decode_utf8_lossy(self.body.as_slice());
        out.append(body.as_str());
        proof {
            assert(out@ =~= response_text(self.version, self.status, self.headers@, self.body@));
            if valid_utf8(self.body@) {
                assert(out@ =~= response_head_text(self.version, self.status, self.headers@)
                    + seq!['\r', '\n', '\r', '\n'] + decode_utf8(self.body@));
                lemma_response_text_bytes(self.version, self.status, self.headers@, self.body@);
            }
        }
        out
    }
}


// ---------------------------------------------------------------------------
// Requests
// ---------------------------------------------------------------------------

/// The end of the header block: the first `\r\n\r\n` in `msg`.
pub open spec fn is_terminator_at(msg: Seq<u8>, i: int) -> bool {
    &&& 0 <= i
    &&& i + 4 <= msg.len()
    &&& msg[i] == 13u8
    &&& msg[i + 1] == 10u8
    &&& msg[i + 2] == 13u8
    &&& msg[i + 3] == 10u8
}

/// `i` is where the first `\r\n\r\n` of `msg` starts.
pub open spec fn is_first_terminator(msg: Seq<u8>, i: int) -> bool {
    &&& is_terminator_at(msg, i)
    &&& forall|j: int| 0 <= j < i ==> !is_terminator_at(msg, j)
}

/// Where the header block of `msg` ends, if it is complete.
pub open spec fn spec_headers_end(msg: Seq<u8>) -> Option<int> {
    if exists|i: int| is_first_terminator(msg, i) {
        Some(choose|i: int| is_first_terminator(msg, i))
    } else {
        None
    }
}

/// The name of the field that gives the length of the body.
pub open spec fn content_length_key() -> Seq<char> {
    "Content-Length"@
}

/// Message of the error for a header block without a line break.
pub open spec fn missing_line_msg() -> Seq<char> {
    "missing request line"@
}

/// Message of the error for an empty request line.
pub open spec fn missing_method_msg() -> Seq<char> {
    "missing http method"@
}

/// Message of the error for a request line with one word.
pub open spec fn missing_target_msg() -> Seq<char> {
    "missing requested object"@
}

/// Message of the error for a request line with two words.
pub open spec fn missing_version_msg() -> Seq<char> {
    "missing http version"@
}

/// Message of the error for a header line without a colon.
pub open spec fn bad_header_msg() -> Seq<char> {
    "header line without a colon"@
}

/// Message of the error for a `Content-Length` that is not a number.
pub open spec fn bad_length_msg() -> Seq<char> {
    "invalid content length"@
}

/// A header line split at its first colon: the name, then the values between
/// commas (neither is trimmed).
pub open spec fn parse_header_line(line: Seq<char>) -> Option<(Seq<char>, Seq<Seq<char>>)> {
    match index_of(line, ':') {
        Some(k) => Some((line.take(k), split_on(line.skip(k + 1), ','))),
        None => None,
    }
}

/// The header map built from `ls`, later lines replacing earlier ones with the
/// same name; `None` when a line has no colon.
pub open spec fn collect_headers(ls: Seq<Seq<char>>) -> Option<HeaderList>
    decreases ls.len(),
{
    if ls.len() == 0 {
        Some(Seq::empty())
    } else {
        match collect_headers(ls.drop_last()) {
            Some(h) => match parse_header_line(ls.last()) {
                Some(e) => Some(insert_entry(h, e.0, e.1)),
                None => None,
            },
            None => None,
        }
    }
}

/// The declared body length: absent, a number, or an error when the first
/// value of `Content-Length`, trimmed, is not a `usize` (or is missing).
pub open spec fn spec_content_length(h: HeaderList) -> Result<Option<usize>, Seq<char>> {
    match lookup(h, content_length_key()) {
        None => Ok(None),
        Some(vs) => if vs.len() > 0 {
            match spec_parse_usize(trim(vs[0])) {
                Some(n) => Ok(Some(n)),
                None => Err(bad_length_msg()),
            }
        } else {
            Err(bad_length_msg())
        },
    }
}

/// `body` cut or padded with zeros to `n` bytes.
pub open spec fn resized(body: Seq<u8>, n: int) -> Seq<u8> {
    if n <= body.len() {
        body.take(n)
    } else {
        body + Seq::new((n - body.len()) as nat, |i: int| 0u8)
    }
}

/// The abstract content of a request.
pub struct RequestModel {
    pub method: HttpMethod,
    pub target: Seq<char>,
    pub version: HttpVersion,
    pub headers: HeaderList,
    pub body: Seq<u8>,
}

/// The request that a decoded header block `head` and the bytes after it
/// make: the request line is the text before the first `\r\n`, its first
/// three words are method, requested object and version; each further line
/// is a header field; the body is cut or padded to `Content-Length`.
pub open spec fn spec_parse_head(head: Seq<char>, body: Seq<u8>) -> Result<RequestModel, Seq<char>> {
    match crlf_index(head) {
        None => Err(missing_line_msg()),
        Some(i) => {
            let w = words(head.take(i));
            if w.len() == 0 {
                Err(missing_method_msg())
            } else {
                match spec_method(w[0]) {
                    None => Err(invalid_method_msg()),
                    Some(m) => if w.len() < 2 {
                        Err(missing_target_msg())
                    } else if w.len() < 3 {
                        Err(missing_version_msg())
                    } else {
                        match spec_version(w[2]) {
                            None => Err(invalid_version_msg()),
                            Some(v) => match collect_headers(lines(head.skip(i + 2))) {
                                None => Err(bad_header_msg()),
                                Some(h) => match spec_content_length(h) {
                                    Err(e) => Err(e),
                                    Ok(None) => Ok(
                                        RequestModel {
                                            method: m,
                                            target: w[1],
                                            version: v,
                                            headers: h,
                                            body: body,
                                        },
                                    ),
                                    Ok(Some(n)) => Ok(
                                        RequestModel {
                                            method: m,
                                            target: w[1],
                                            version: v,
                                            headers: h,
                                            body: resized(body, n as int),
                                        },
                                    ),
                                },
                            },
                        }
                    },
                }
            }
        },
    }
}

/// What reading `req` gives: `None` while the header block is incomplete,
/// else the outcome of parsing the decoded header block with the bytes after
/// the blank line.
pub open spec fn spec_read_request(req: Seq<u8>) -> Option<Result<RequestModel, Seq<char>>> {
    match spec_headers_end(req) {
        None => None,
        Some(i) => Some(spec_parse_head(utf8_lossy(req.take(i)), req.skip(i + 4))),
    }
}

/// The body is as long as `Content-Length` says, or there is none.
pub open spec fn spec_body_complete(m: RequestModel) -> bool {
    match spec_content_length(m.headers) {
        Ok(None) => true,
        Ok(Some(n)) => n == m.body.len(),
        Err(_) => false,
    }
}

/// A request read from a connection.
#[derive(Clone)]
pub struct HttpRequest {
    pub method: HttpMethod,
    pub requested_object: String,
    pub version: HttpVersion,
    pub headers: HttpHeaders,
    pub body: Vec<u8>,
}

impl View for HttpRequest {
    type V = RequestModel;

    open spec fn view(&self) -> RequestModel {
        RequestModel {
            method: self.method,
            target: self.requested_object@,
            version: self.version,
            headers: self.headers@,
            body: self.body@,
        }
    }
}

impl Default for HttpRequest {
    fn default() -> (res: HttpRequest)
        ensures
            res.method == HttpMethod::GET,
            res.requested_object@ == Seq::<char>::empty(),
            res.version == HttpVersion::HTTP1x1,
            res.headers@ == Seq::<(Seq<char>, Seq<Seq<char>>)>::empty(),
            res.body@ == Seq::<u8>::empty(),
    {
        HttpRequest {
            method: HttpMethod::GET,
            requested_object: String::new(),
            version: HttpVersion::HTTP1x1,
            headers: HttpHeaders::new(),
            body: Vec::new(),
        }
    }
}

fn strings_of(parts: &Vec<Vec<char>>) -> (res: Vec<String>)
    ensures
        res.deep_view() == parts.deep_view(),
{
    let mut out: Vec<String> = Vec::new();
    let len = parts.len();
    let mut i: usize = 0;
    while i < len
        invariant
            len == parts@.len(),
            i <= len,
            out@.len() == i,
            out.deep_view() == parts.deep_view().take(i as int),
        decreases len - i,
    {
        let s = string_of(&parts[i]);
        let ghost before = out@;
        let ghost sv = s@;
        out.push(s);
        proof {
            assert(out@[i as int]@ == sv);
            assert(parts@[i as int].deep_view() =~= parts@[i as int]@);
            assert(out.deep_view() =~= parts.deep_view().take(i + 1));
        }
        i = i + 1;
    }
    proof {
        assert(parts.deep_view().take(len as int) =~= parts.deep_view());
    }
    out
}

fn copy_bytes(v: &[u8], from: usize, to: usize) -> (res: Vec<u8>)
    requires
        from <= to <= v@.len(),
    ensures
        res@ == v@.subrange(from as int, to as int),
{
    let mut out: Vec<u8> = Vec::new();
    let mut i = from;
    while i < to
        invariant
            from <= i <= to <= v@.len(),
            out@ == v@.subrange(from as int, i as int),
        decreases to - i,
    {
        out.push(v[i]);
        proof {
            assert(out@ =~= v@.subrange(from as int, i + 1));
        }
        i = i + 1;
    }
    out
}

/// Builds the header map from the header lines.
fn collect_header_lines(ls: &Vec<Vec<char>>) -> (res: Option<HttpHeaders>)
    ensures
        match collect_headers(ls.deep_view()) {
            Some(h) => res is Some && res->Some_0@ == h,
            None => res is None,
        },
{
    let ghost lsv = ls.deep_view();
    let mut headers = HttpHeaders::new();
    let n = ls.len();
    let mut i: usize = 0;
    proof {
        assert(lsv.take(0) =~= Seq::<Seq<char>>::empty());
    }
    while i < n
        invariant
            n == lsv.len(),
            lsv == ls.deep_view(),
            i <= n,
            collect_headers(lsv.take(i as int)) == Some(headers@),
        decreases n - i,
    {
        let line = &ls[i];
        proof {
            assert(line.deep_view() =~= line@);
            assert(lsv[i as int] == line@);
            let t = lsv.take(i + 1);
            assert(t.drop_last() =~= lsv.take(i as int));
            assert(t.last() == line@);
        }
        let len = line.len();
        match find_char_from(line, 0, ':') {
            None => {
                proof {
                    assert(line@.skip(0) =~= line@);
                    assert(parse_header_line(line@) is None);
                    lemma_collect_headers_stays_none(lsv, i as int + 1);
                }
                return None;
            },
            Some(k) => {
                proof {
                    assert(line@.skip(0) =~= line@);
                }
                let key_chars = copy_range(line, 0, k);
                let rest = copy_range(line, k + 1, len);
                let parts = split_on_char(&rest, ',');
                let key = string_of(&key_chars);
                let values = strings_of(&parts);
                proof {
                    assert(key_chars@ =~= line@.take(k as int));
                    assert(rest@ =~= line@.skip(k + 1));
                }
                headers.insert(key, values);
            },
        }
        i = i + 1;
    }
    proof {
        assert(lsv.take(n as int) =~= lsv);
    }
    Some(headers)
}

proof fn lemma_collect_headers_stays_none(ls: Seq<Seq<char>>, k: int)
    requires
        0 < k <= ls.len(),
        collect_headers(ls.take(k)) is None,
    ensures
        collect_headers(ls) is None,
    decreases ls.len() - k,
{
    if k == ls.len() {
        assert(ls.take(k) =~= ls);
    } else {
        let t = ls.take(k + 1);
        assert(t.drop_last() =~= ls.take(k));
        lemma_collect_headers_stays_none(ls, k + 1);
    }
}

/// The length that `Content-Length` declares in `headers`.
fn declared_length(headers: &HttpHeaders) -> (res: Result<Option<usize>, HttpParseError>)
    ensures
        match spec_content_length(headers@) {
            Ok(n) => res is Ok && res->Ok_0 == n,
            Err(e) => res is Err && res->Err_0@ == e,
        },
{
    match headers.get("Content-Length") {
        None => Ok(None),
        Some(vs) => {
            if vs.len() == 0 {
                return Err(HttpParseError::new("invalid content length"));
            }
            proof {
                assert(vs.deep_view()[0] == vs@[0]@);
            }
            let first = chars_of(vs[0].as_str());
            let trimmed = trim_chars(&first);
            match parse_usize(&trimmed) {
                Some(n) => Ok(Some(n)),
                None => Err(HttpParseError::new("invalid content length")),
            }
        },
    }
}

/// `body` cut or padded with zeros to `n` bytes.
fn resize_body(body: &[u8], n: usize) -> (res: Vec<u8>)
    ensures
        res@ == resized(body@, n as int),
{
    let mut out = vstd::slice::slice_to_vec(body);
    let len = out.len();
    if n <= len {
        out.truncate(n);
    } else {
        let mut k = len;
        while k < n
            invariant
                len <= k <= n,
                len == body@.len(),
                out@ == body@ + Seq::new((k - len) as nat, |j: int| 0u8),
            decreases n - k,
        {
            out.push(0u8);
            proof {
                assert(out@ =~= body@ + Seq::new((k + 1 - len) as nat, |j: int| 0u8));
            }
            k = k + 1;
        }
    }
    out
}

impl HttpRequest {
    /// The length that `Content-Length` declares: `Ok(None)` when the field is
    /// absent, an error when its first value, trimmed, is not a `usize`.
    pub fn content_length(&self) -> (res: Result<Option<usize>, HttpParseError>)
        ensures
            match spec_content_length(self.headers@) {
                Ok(n) => res is Ok && res->Ok_0 == n,
                Err(e) => res is Err && res->Err_0@ == e,
            },
    {
        declared_length(&self.headers)
    }

    /// Whether the body is as long as `Content-Length` declares (always, when
    /// the field is absent).
    pub fn is_body_complete_or_absent(&self) -> (res: bool)
        requires
            spec_content_length(self.headers@) is Ok,
        ensures
            res == spec_body_complete(self@),
            spec_content_length(self.headers@) matches Ok(Some(n)) ==> res == (n
                == self.body@.len()),
            spec_content_length(self.headers@) is Ok && spec_content_length(self.headers@)->Ok_0
                is None ==> res,
    {
        proof {
            lemma_body_complete_exactly(self@);
        }
        match self.content_length() {
            Ok(None) => true,
            Ok(Some(n)) => n == self.body.len(),
            Err(_) => false,
        }
    }

    /// The position of the first `\r\n\r\n` in `msg`: where the header block
    /// ends, if it is complete.
    pub fn headers_terminated(msg: &[u8]) -> (res: Option<usize>)
        ensures
            match res {
                Some(i) => spec_headers_end(msg@) == Some(i as int) && is_first_terminator(
                    msg@,
                    i as int,
                ),
                None => spec_headers_end(msg@) is None,
            },
    {
        let len = msg.len();
        let mut i: usize = 0;
        while len >= 4 && i <= len - 4
            invariant
                len == msg@.len(),
                i <= len,
                forall|j: int| 0 <= j < i ==> !is_terminator_at(msg@, j),
            decreases len - i,
        {
            if msg[i] == 13 && msg[i + 1] == 10 && msg[i + 2] == 13 && msg[i + 3] == 10 {
                proof {
                    assert(is_first_terminator(msg@, i as int));
                    let k = choose|k: int| is_first_terminator(msg@, k);
                    assert(is_first_terminator(msg@, k));
                    if k < i {
                        assert(!is_terminator_at(msg@, k));
                    }
                    if i < k {
                        assert(!is_terminator_at(msg@, i as int));
                    }
                }
                return Some(i);
            }
            i = i + 1;
        }
        proof {
            assert forall|j: int| !is_first_terminator(msg@, j) by {
                if is_first_terminator(msg@, j) {
                    assert(!is_terminator_at(msg@, j));
                }
            }
        }
        None
    }

    /// The decoded header block and the bytes after the blank line. On the
    /// bytes of a response with header fields free of line breaks, these are
    /// the response's status line and header lines, and its body.
    fn split_body_from_msg(req: &[u8]) -> (res: Option<(String, Vec<u8>)>)
        ensures
            match spec_headers_end(req@) {
                None => res is None,
                Some(i) => res is Some && res->Some_0.0@ == utf8_lossy(req@.take(i))
                    && res->Some_0.1@ == req@.skip(i + 4) && (vstd::utf8::valid_utf8(
                    req@.take(i),
                ) ==> utf8_lossy(req@.take(i)) == vstd::utf8::decode_utf8(req@.take(i))),
            },
            forall|v: HttpVersion, s: HttpStatusCode, h: HeaderList, b: Seq<u8>|
                #[trigger] response_bytes(v, s, h, b) == req@ && h.len() > 0 && plain_headers(h)
                    ==> res is Some && res->Some_0.0@ == response_head_text(v, s, h)
                    && res->Some_0.1@ == b,
    {
        match HttpRequest::headers_terminated(req) {
            None => {
                proof {
                    assert forall|v: HttpVersion, s: HttpStatusCode, h: HeaderList, b: Seq<u8>|
                        #[trigger] response_bytes(v, s, h, b) == req@ && h.len() > 0
                            && plain_headers(h) implies false by {
                        lemma_response_split(v, s, h, b);
                    }
                }
                None
            },
            Some(index) => {
                let n = req.len();
                let rest = copy_bytes(req, 0, index);
                let body = copy_bytes(req, index + 4, n);
                let text = decode_utf8_lossy(rest.as_slice());
                proof {
                    assert(rest@ =~= req@.take(index as int));
                    assert(body@ =~= req@.skip(index + 4));
                    assert forall|v: HttpVersion, s: HttpStatusCode, h: HeaderList, b: Seq<u8>|
                        #[trigger] response_bytes(v, s, h, b) == req@ && h.len() > 0
                            && plain_headers(h) implies text@ == response_head_text(v, s, h)
                            && body@ == b by {
                        lemma_response_split(v, s, h, b);
                    }
                }
                Some((text, body))
            },
        }
    }

    /// The request made of the decoded header block `head` and the bytes
    /// `body` that followed it.
    pub fn parse_head(head: &str, body: &[u8]) -> (res: Result<HttpRequest, HttpParseError>)
        ensures
            match spec_parse_head(head@, body@) {
                Ok(m) => res is Ok && res->Ok_0@ == m,
                Err(e) => res is Err && res->Err_0@ == e,
            },
    {
        let chars = chars_of(head);
        let i = match find_crlf(&chars) {
            None => return Err(HttpParseError::new("missing request line")),
            Some(i) => i,
        };
        let line = copy_range(&chars, 0, i);
        let n = chars.len();
        let rest = copy_range(&chars, i + 2, n);
        proof {
            assert(line@ =~= head@.take(i as int));
            assert(rest@ =~= head@.skip(i + 2));
        }
        let w = words_of(&line);
        proof {
            assert(forall|k: int| 0 <= k < w@.len() ==> w.deep_view()[k] == #[trigger] w@[k]@) by {
                assert forall|k: int| 0 <= k < w@.len() implies w.deep_view()[k] == #[trigger] w@[k]@ by {
                    assert(w@[k].deep_view() =~= w@[k]@);
                }
            }
        }
        if w.len() == 0 {
            return Err(HttpParseError::new("missing http method"));
        }
        let method = match method_of_chars(&w[0]) {
            None => return Err(HttpParseError::new("invalid http method")),
            Some(m) => m,
        };
        if w.len() < 2 {
            return Err(HttpParseError::new("missing requested object"));
        }
        if w.len() < 3 {
            return Err(HttpParseError::new("missing http version"));
        }
        let version = match version_of_chars(&w[2]) {
            None => return Err(HttpParseError::new("invalid http version")),
            Some(v) => v,
        };
        let target = string_of(&w[1]);
        let ls = lines_of(&rest);
        let headers = match collect_header_lines(&ls) {
            None => return Err(HttpParseError::new("header line without a colon")),
            Some(h) => h,
        };
        let declared = match declared_length(&headers) {
            Err(e) => return Err(e),
            Ok(d) => d,
        };
        let body = match declared {
            None => vstd::slice::slice_to_vec(body),
            Some(n) => resize_body(body, n),
        };
        Ok(HttpRequest { method, requested_object: target, version, headers, body })
    }

    /// The request at the start of `req`, or `None` while its header block is
    /// incomplete. The caller promises that a complete header block is well
    /// formed (see `try_from_vec` for the version that reports errors).
    pub fn from_vec(req: &[u8]) -> (res: Option<HttpRequest>)
        requires
            spec_read_request(req@) matches Some(r) ==> r is Ok,
        ensures
            match spec_read_request(req@) {
                None => res is None,
                Some(r) => res is Some && res->Some_0@ == r->Ok_0,
            },
            spec_headers_end(req@) matches Some(i) ==> (vstd::utf8::valid_utf8(req@.take(i))
                ==> utf8_lossy(req@.take(i)) == vstd::utf8::decode_utf8(req@.take(i))),
    {
        match HttpRequest::split_body_from_msg(req) {
            None => None,
            Some((rest, body)) => match HttpRequest::parse_head(rest.as_str(), body.as_slice()) {
                Ok(r) => Some(r),
                Err(_) => None,
            },
        }
    }

    /// The request at the start of `req`: `Ok(None)` while its header block is
    /// incomplete, an error when the header block is malformed.
    pub fn try_from_vec(req: &[u8]) -> (res: Result<Option<HttpRequest>, HttpParseError>)
        ensures
            match spec_read_request(req@) {
                None => res is Ok && res->Ok_0 is None,
                Some(Ok(m)) => res is Ok && res->Ok_0 is Some && res->Ok_0->Some_0@ == m,
                Some(Err(e)) => res is Err && res->Err_0@ == e,
            },
            spec_headers_end(req@) matches Some(i) ==> (vstd::utf8::valid_utf8(req@.take(i))
                ==> utf8_lossy(req@.take(i)) == vstd::utf8::decode_utf8(req@.take(i))),
    {
        match HttpRequest::split_body_from_msg(req) {
            None => Ok(None),
            Some((rest, body)) => match HttpRequest::parse_head(rest.as_str(), body.as_slice()) {
                Ok(_) => Ok(HttpRequest::from_vec(req)),
                Err(e) => Err(e),
            },
        }
    }
}


// ---------------------------------------------------------------------------
// Laws
// ---------------------------------------------------------------------------

/// The number of a status code is the number its status line starts with:
/// written in decimal, it is the first three characters of the status text.
pub proof fn lemma_status_number_is_written(s: HttpStatusCode)
    ensures
        decimal_digits(status_number(s) as nat) == status_text(s).take(3),
        100 <= status_number(s) < 1000,
{
    reveal_with_fuel(decimal_digits, 3);
    let n = status_number(s) as nat;
    assert(decimal_digits(n) =~= seq![
        crate::number::digit_char((n / 100) as int),
        crate::number::digit_char(((n / 10) % 10) as int),
        crate::number::digit_char((n % 10) as int),
    ]);
    assert(status_text(s).take(3) =~= decimal_digits(n));
}

/// The status lines this server writes.
pub proof fn lemma_status_lines(s: HttpStatusCode)
    ensures
        s == HttpStatusCode::OK ==> status_text(s) == "200 OK"@,
        s == HttpStatusCode::Created ==> status_text(s) == "201 Created"@,
        s == HttpStatusCode::Not_Found ==> status_text(s) == "404 Not Found"@,
        s == HttpStatusCode::Conflict ==> status_text(s) == "409 Conflict"@,
{
    reveal_strlit("200 OK");
    reveal_strlit("201 Created");
    reveal_strlit("404 Not Found");
    reveal_strlit("409 Conflict");
    assert(status_text(HttpStatusCode::OK) =~= "200 OK"@);
    assert(status_text(HttpStatusCode::Created) =~= "201 Created"@);
    assert(status_text(HttpStatusCode::Not_Found) =~= "404 Not Found"@);
    assert(status_text(HttpStatusCode::Conflict) =~= "409 Conflict"@);
}

/// A body is complete exactly when it has as many bytes as `Content-Length`
/// declares, neither fewer nor more; without the field it always is, and a
/// malformed field never makes it so.
pub proof fn lemma_body_complete_exactly(m: RequestModel)
    ensures
        spec_content_length(m.headers) matches Ok(Some(n)) ==> (spec_body_complete(m) <==> m.body.len()
            == n),
        spec_content_length(m.headers) matches Ok(Some(n)) && m.body.len() != n
            ==> !spec_body_complete(m),
        spec_content_length(m.headers) is Ok && spec_content_length(m.headers)->Ok_0 is None
            ==> spec_body_complete(m),
        spec_content_length(m.headers) is Err ==> !spec_body_complete(m),
{
}

/// A parsed request comes from the words of its request line, the text
/// before the first `\r\n`: the method is read from the first word, the
/// requested object is the second word exactly as written, and the version is
/// read from the third.
pub proof fn lemma_request_line_words(head: Seq<char>, body: Seq<u8>)
    ensures
        spec_parse_head(head, body) is Ok ==> ({
            let m = spec_parse_head(head, body)->Ok_0;
            &&& crlf_index(head) is Some
            &&& words(head.take(crlf_index(head)->Some_0)).len() >= 3
            &&& m.target == words(head.take(crlf_index(head)->Some_0))[1]
            &&& spec_method(words(head.take(crlf_index(head)->Some_0))[0]) == Some(m.method)
            &&& spec_version(words(head.take(crlf_index(head)->Some_0))[2]) == Some(m.version)
        }),
        crlf_index(head) is None ==> spec_parse_head(head, body) is Err,
        crlf_index(head) matches Some(i) && (words(head.take(i)).len() < 3 || spec_method(
            words(head.take(i))[0],
        ) is None || spec_version(words(head.take(i))[2]) is None) ==> spec_parse_head(
            head,
            body,
        ) is Err,
{
}

/// The methods are spelled `GET` and `POST`, each letter in either case;
/// nothing else names a method.
pub proof fn lemma_method_spelling(s: Seq<char>)
    ensures
        spec_method(s) == Some(HttpMethod::GET) <==> (s.len() == 3 && (s[0] == 'g' || s[0] == 'G')
            && (s[1] == 'e' || s[1] == 'E') && (s[2] == 't' || s[2] == 'T')),
        spec_method(s) == Some(HttpMethod::POST) <==> (s.len() == 4 && (s[0] == 'p' || s[0]
            == 'P') && (s[1] == 'o' || s[1] == 'O') && (s[2] == 's' || s[2] == 'S') && (s[3]
            == 't' || s[3] == 'T')),
{
    assert(ascii_upper('g') == 'G' && ascii_upper('e') == 'E' && ascii_upper('t') == 'T');
    assert(ascii_upper('p') == 'P' && ascii_upper('o') == 'O' && ascii_upper('s') == 'S');
    let get = seq!['g', 'e', 't'];
    let post = seq!['p', 'o', 's', 't'];
    if s.len() == 3 && (s[0] == 'g' || s[0] == 'G') && (s[1] == 'e' || s[1] == 'E') && (s[2]
        == 't' || s[2] == 'T') {
        assert(matches_word(s, get));
    }
    if s.len() == 4 && (s[0] == 'p' || s[0] == 'P') && (s[1] == 'o' || s[1] == 'O') && (s[2]
        == 's' || s[2] == 'S') && (s[3] == 't' || s[3] == 'T') {
        assert(matches_word(s, post));
        assert(!matches_word(s, get));
    }
    if matches_word(s, get) {
        assert(s[0] == get[0] || s[0] == ascii_upper(get[0]));
        assert(s[1] == get[1] || s[1] == ascii_upper(get[1]));
        assert(s[2] == get[2] || s[2] == ascii_upper(get[2]));
    }
    if matches_word(s, post) {
        assert(s[0] == post[0] || s[0] == ascii_upper(post[0]));
        assert(s[1] == post[1] || s[1] == ascii_upper(post[1]));
        assert(s[2] == post[2] || s[2] == ascii_upper(post[2]));
        assert(s[3] == post[3] || s[3] == ascii_upper(post[3]));
    }
}

/// The versions are spelled exactly `HTTP/1.0` and `HTTP/1.1`; nothing else
/// names a version.
pub proof fn lemma_version_spelling(s: Seq<char>)
    ensures
        spec_version(s) == Some(HttpVersion::HTTP1x0) <==> s == "HTTP/1.0"@,
        spec_version(s) == Some(HttpVersion::HTTP1x1) <==> s == "HTTP/1.1"@,
        spec_version(s) is Some <==> (s == "HTTP/1.0"@ || s == "HTTP/1.1"@),
{
    reveal_strlit("HTTP/1.0");
    reveal_strlit("HTTP/1.1");
    assert(version_text(HttpVersion::HTTP1x0) =~= "HTTP/1.0"@);
    assert(version_text(HttpVersion::HTTP1x1) =~= "HTTP/1.1"@);
    assert("HTTP/1.0"@ != "HTTP/1.1"@) by {
        assert("HTTP/1.0"@[7] != "HTTP/1.1"@[7]);
    }
}

/// The body of a request read from `req` is taken from the bytes after the
/// blank line: all of them without `Content-Length`; with a declared length
/// `n`, exactly `n` bytes, the first of those bytes followed by zeros where
/// fewer arrived.
pub proof fn lemma_read_request_body(req: Seq<u8>)
    ensures
        spec_read_request(req) matches Some(Ok(m)) ==> (spec_content_length(m.headers) == Ok::<
            Option<usize>,
            Seq<char>,
        >(None) ==> m.body == req.skip(spec_headers_end(req)->Some_0 + 4)),
        spec_read_request(req) matches Some(Ok(m)) ==> (spec_content_length(m.headers) matches Ok(
            Some(n),
        ) ==> m.body.len() == n && forall|k: int|
            0 <= k < n ==> #[trigger] m.body[k] == (if spec_headers_end(req)->Some_0 + 4 + k
                < req.len() {
                req[spec_headers_end(req)->Some_0 + 4 + k]
            } else {
                0u8
            })),
{
    if let Some(Ok(m)) = spec_read_request(req) {
        let i = spec_headers_end(req)->Some_0;
        let b = req.skip(i + 4);
        if let Ok(Some(n)) = spec_content_length(m.headers) {
            assert(m.body == resized(b, n as int));
            assert forall|k: int| 0 <= k < n implies #[trigger] m.body[k] == (if i + 4 + k
                < req.len() {
                req[i + 4 + k]
            } else {
                0u8
            }) by {
                if k < b.len() {
                    assert(b[k] == req[i + 4 + k]);
                }
            }
        }
    }
}

/// `Content-Length` is read from the first value of the field: absent field,
/// no declared length; a field without values, an error; a first value that
/// is a number in decimal, with white space around it, that number.
pub proof fn lemma_content_length_reads_number(
    h: HeaderList,
    vs: Seq<Seq<char>>,
    pre: Seq<char>,
    n: usize,
    post: Seq<char>,
)
    requires
        forall|j: int| 0 <= j < pre.len() ==> crate::text::is_unicode_ws(#[trigger] pre[j]),
        forall|j: int| 0 <= j < post.len() ==> crate::text::is_unicode_ws(#[trigger] post[j]),
    ensures
        lookup(h, "Content-Length"@) is None ==> spec_content_length(h) == Ok::<
            Option<usize>,
            Seq<char>,
        >(None),
        lookup(h, "Content-Length"@) == Some(Seq::<Seq<char>>::empty())
            ==> spec_content_length(h) is Err,
        lookup(h, "Content-Length"@) == Some(vs) && vs.len() > 0 && vs[0] == pre
            + decimal_digits(n as nat) + post ==> spec_content_length(h) == Ok::<
            Option<usize>,
            Seq<char>,
        >(Some(n)),
{
    assert(content_length_key() == "Content-Length"@);
    let d = decimal_digits(n as nat);
    crate::number::lemma_decimal_digits(n as nat);
    crate::number::lemma_decimal_round_trip(n);
    assert(crate::number::is_digit(d[0]));
    assert(crate::number::is_digit(d[d.len() - 1]));
    crate::text::lemma_trim_exact(pre, d, post);
}

/// Writing a version and reading it back gives the same version.
pub proof fn lemma_version_round_trip(v: HttpVersion)
    ensures
        spec_version(version_text(v)) == Some(v),
{
    assert(version_text(HttpVersion::HTTP1x0) != version_text(HttpVersion::HTTP1x1)) by {
        assert(version_text(HttpVersion::HTTP1x0)[7] != version_text(HttpVersion::HTTP1x1)[7]);
    }
}

/// A request that `from_vec` reads has a body exactly as long as its
/// `Content-Length` declares (or no such field), so checking it with
/// `is_body_complete_or_absent` is allowed and answers `true`.
pub proof fn lemma_read_request_body_complete(req: Seq<u8>)
    ensures
        spec_read_request(req) matches Some(Ok(m)) ==> spec_content_length(m.headers) is Ok
            && spec_body_complete(m),
{
    if let Some(Ok(m)) = spec_read_request(req) {
        let i = spec_headers_end(req).unwrap();
        let body = req.skip(i + 4);
        match spec_content_length(m.headers) {
            Ok(Some(n)) => {
                assert(m.body == resized(body, n as int));
                if n <= body.len() {
                } else {
                    assert(resized(body, n as int).len() == n);
                }
            },
            _ => {},
        }
    }
}

/// Bytes that arrive after a complete header block leave the block where it
/// was: the same header text is read, and the new bytes follow the old ones
/// after the blank line.
proof fn lemma_headers_end_extend(p: Seq<u8>, e: Seq<u8>)
    requires
        spec_headers_end(p) is Some,
    ensures
        spec_headers_end(p + e) == spec_headers_end(p),
        (p + e).take(spec_headers_end(p)->Some_0) == p.take(spec_headers_end(p)->Some_0),
        (p + e).skip(spec_headers_end(p)->Some_0 + 4) == p.skip(spec_headers_end(p)->Some_0 + 4)
            + e,
{
    let i = spec_headers_end(p)->Some_0;
    let q = p + e;
    assert(is_first_terminator(p, i));
    assert(is_terminator_at(q, i)) by {
        assert(q[i] == p[i] && q[i + 1] == p[i + 1] && q[i + 2] == p[i + 2] && q[i + 3] == p[i
            + 3]);
    }
    assert forall|j: int| 0 <= j < i implies !is_terminator_at(q, j) by {
        if is_terminator_at(q, j) {
            assert(q[j] == p[j] && q[j + 1] == p[j + 1] && q[j + 2] == p[j + 2] && q[j + 3] == p[j
                + 3]);
            assert(is_terminator_at(p, j));
        }
    }
    assert(is_first_terminator(q, i));
    let k = choose|k: int| is_first_terminator(q, k);
    assert(is_first_terminator(q, k));
    if k < i {
        assert(!is_terminator_at(q, k));
    }
    if i < k {
        assert(!is_terminator_at(q, i));
    }
    assert(q.take(i) =~= p.take(i));
    assert(q.skip(i + 4) =~= p.skip(i + 4) + e);
}

/// Bytes that arrive after a request's header block is complete change only
/// its body: the request is still read, with the same method, requested
/// object, version and header fields. Without `Content-Length` the new bytes
/// join the body; once the declared length has arrived, the body stays as it
/// was.
pub proof fn lemma_read_request_more_bytes(p: Seq<u8>, e: Seq<u8>)
    ensures
        spec_headers_end(p) matches Some(i) ==> spec_headers_end(p + e) == Some(i)
            && spec_read_request(p + e) == Some(
            spec_parse_head(utf8_lossy(p.take(i)), p.skip(i + 4) + e),
        ),
        spec_read_request(p) matches Some(Ok(m)) ==> (spec_read_request(p + e) matches Some(
            Ok(m2),
        ) && m2.method == m.method && m2.target == m.target && m2.version == m.version
            && m2.headers == m.headers),
        spec_read_request(p) matches Some(Ok(m)) ==> (spec_content_length(m.headers) == Ok::<
            Option<usize>,
            Seq<char>,
        >(None) ==> spec_read_request(p + e) == Some(
            Ok::<RequestModel, Seq<char>>(RequestModel { body: m.body + e, ..m }),
        )),
        spec_read_request(p) matches Some(Ok(m)) ==> (spec_content_length(m.headers) matches Ok(
            Some(n),
        ) && spec_headers_end(p)->Some_0 + 4 + n <= p.len() ==> spec_read_request(p + e) == Some(
            Ok::<RequestModel, Seq<char>>(m),
        )),
{
    if spec_headers_end(p) is Some {
        lemma_headers_end_extend(p, e);
        let i = spec_headers_end(p)->Some_0;
        let head = utf8_lossy(p.take(i));
        let b = p.skip(i + 4);
        assert(spec_read_request(p + e) == Some(spec_parse_head(head, b + e)));
        if let Some(Ok(m)) = spec_read_request(p) {
            match spec_content_length(m.headers) {
                Ok(Some(n)) => {
                    if n <= b.len() {
                        assert((b + e).take(n as int) =~= b.take(n as int));
                    }
                },
                _ => {},
            }
        }
    }
}


/// The values that reading back a written field gives: the first value
/// carries the space written after the colon (an empty list reads back as
/// that one space).
pub open spec fn read_back_values(vs: Seq<Seq<char>>) -> Seq<Seq<char>> {
    if vs.len() == 0 {
        seq![seq![' ']]
    } else {
        vs.update(0, seq![' '] + vs[0])
    }
}

/// The header map that reading back the written fields of `h` gives.
pub open spec fn read_back(h: HeaderList) -> HeaderList {
    h.map_values(|e: (Seq<char>, Seq<Seq<char>>)| (e.0, read_back_values(e.1)))
}

/// Header fields that can be written and read back: names without colons,
/// values without commas, and no line feeds anywhere.
pub open spec fn writable_headers(h: HeaderList) -> bool {
    &&& unique_keys(h)
    &&& forall|i: int|
        0 <= i < h.len() ==> !(#[trigger] h[i]).0.contains(':') && !h[i].0.contains('\n')
    &&& forall|i: int, j: int|
        0 <= i < h.len() && 0 <= j < h[i].1.len() ==> !(#[trigger] h[i].1[j]).contains(',')
            && !h[i].1[j].contains('\n')
}

proof fn lemma_parse_written_line(k: Seq<char>, vs: Seq<Seq<char>>)
    requires
        !k.contains(':'),
        forall|j: int| 0 <= j < vs.len() ==> !(#[trigger] vs[j]).contains(','),
    ensures
        parse_header_line(header_line((k, vs))) == Some((k, read_back_values(vs))),
{
    let line = header_line((k, vs));
    let joined = join(vs, seq![',']);
    assert(line =~= k + (seq![':', ' '] + joined));
    assert forall|j: int| 0 <= j < k.len() implies line[j] != ':' by {
        assert(line[j] == k[j]);
        if k[j] == ':' {
            assert(k.contains(':'));
        }
    }
    assert(is_first_of(line, ':', k.len() as int));
    lemma_index_of_found(line, ':', k.len() as int);
    assert(line.take(k.len() as int) =~= k);
    let after = line.skip(k.len() as int + 1);
    assert(after =~= seq![' '] + joined);
    if vs.len() == 0 {
        assert(joined == Seq::<char>::empty());
        assert(after =~= seq![' ']);
        assert(forall|j: int| 0 <= j < after.len() ==> after[j] != ',');
        crate::text::lemma_index_of_absent(after, ',');
    } else {
        let q = vs.update(0, seq![' '] + vs[0]);
        lemma_join_prefix_first(vs, seq![','], seq![' ']);
        assert forall|j: int| 0 <= j < q.len() implies !(#[trigger] q[j]).contains(',') by {
            if j == 0 {
                assert(!vs[0].contains(','));
                if q[0].contains(',') {
                    let t = choose|t: int| 0 <= t < q[0].len() && q[0][t] == ',';
                    assert(q[0][t] == vs[0][t - 1]);
                }
            } else {
                assert(q[j] == vs[j]);
            }
        }
        lemma_split_join(q, ',');
    }
}

proof fn lemma_collect_written(h: HeaderList)
    requires
        writable_headers(h),
    ensures
        collect_headers(h.map_values(|e: (Seq<char>, Seq<Seq<char>>)| header_line(e))) == Some(
            read_back(h),
        ),
    decreases h.len(),
{
    let ls = h.map_values(|e: (Seq<char>, Seq<Seq<char>>)| header_line(e));
    if h.len() == 0 {
        assert(read_back(h) =~= Seq::<(Seq<char>, Seq<Seq<char>>)>::empty());
    } else {
        let d = h.drop_last();
        assert(writable_headers(d)) by {
            assert forall|i: int| 0 <= i < d.len() implies !(#[trigger] d[i]).0.contains(':')
                && !d[i].0.contains('\n') by {
                assert(d[i] == h[i]);
            }
            assert forall|i: int, j: int|
                0 <= i < d.len() && 0 <= j < d[i].1.len() implies !(#[trigger] d[i].1[j]).contains(
                ',',
            ) && !d[i].1[j].contains('\n') by {
                assert(d[i] == h[i]);
            }
        }
        lemma_collect_written(d);
        assert(ls.drop_last() =~= d.map_values(
            |e: (Seq<char>, Seq<Seq<char>>)| header_line(e),
        ));
        let e = h.last();
        assert(e == h[h.len() - 1]);
        assert forall|j: int| 0 <= j < e.1.len() implies !(#[trigger] e.1[j]).contains(',') by {
            assert(e.1[j] == h[h.len() - 1].1[j]);
        }
        lemma_parse_written_line(e.0, e.1);
        assert(ls.last() == header_line(e));
        let prev = read_back(d);
        assert forall|i: int| 0 <= i < prev.len() implies prev[i].0 != e.0 by {
            assert(prev[i].0 == h[i].0);
            assert(h[i].0 != h[h.len() - 1].0);
        }
        assert(key_pos(prev, e.0) is None);
        assert(insert_entry(prev, e.0, read_back_values(e.1)) =~= read_back(h));
    }
}

/// Header fields written by `http_headers_fmt` and read back line by line, as
/// the request reader does, give the same names in the same order with the
/// same values, but for the space after the colon, which stays on the first
/// value.
pub proof fn lemma_headers_read_back(h: HeaderList)
    requires
        writable_headers(h),
    ensures
        collect_headers(lines(format_headers(h))) == Some(read_back(h)),
{
    let ls = h.map_values(|e: (Seq<char>, Seq<Seq<char>>)| header_line(e));
    if h.len() > 0 {
        assert forall|i: int| 0 <= i < ls.len() implies (#[trigger] ls[i]).len() > 0 && !ls[i].contains(
            '\n',
        ) by {
            let e = h[i];
            let l = header_line(e);
            assert(ls[i] == l);
            assert(l[e.0.len() as int] == ':');
            if l.contains('\n') {
                let t = choose|t: int| 0 <= t < l.len() && l[t] == '\n';
                let joined = join(e.1, seq![',']);
                if t < e.0.len() {
                    assert(l[t] == e.0[t]);
                    assert(e.0.contains('\n'));
                } else if t < e.0.len() + 2 {
                } else {
                    assert(l[t] == joined[t - e.0.len() - 2]);
                    assert forall|j: int| 0 <= j < e.1.len() implies !(#[trigger] e.1[j]).contains(
                        '\n',
                    ) by {
                        assert(e.1[j] == h[i].1[j]);
                    }
                    lemma_join_no_char(e.1, ',', '\n');
                    assert(joined.contains('\n'));
                }
            }
        }
        lemma_lines_join(ls);
    } else {
        assert(ls.len() == 0);
        assert(format_headers(h) == Seq::<char>::empty());
        assert(lines(Seq::<char>::empty()) == Seq::<Seq<char>>::empty());
    }
    lemma_collect_written(h);
}


// ---------------------------------------------------------------------------
// Laws on the bytes of a response
// ---------------------------------------------------------------------------

/// The text before the blank line of a response: status line and header
/// fields.
pub open spec fn response_head_text(
    version: HttpVersion,
    status: HttpStatusCode,
    headers: HeaderList,
) -> Seq<char> {
    version_text(version) + seq![' '] + status_text(status) + seq!['\r', '\n'] + format_headers(
        headers,
    )
}

/// Text without carriage returns or line feeds.
pub open spec fn line_safe(x: Seq<char>) -> bool {
    !x.contains('\r') && !x.contains('\n')
}

/// Header fields whose names and values hold no carriage return or line feed.
pub open spec fn plain_headers(h: HeaderList) -> bool {
    &&& forall|i: int| 0 <= i < h.len() ==> line_safe(#[trigger] h[i].0)
    &&& forall|i: int, j: int| 0 <= i < h.len() && 0 <= j < h[i].1.len() ==> line_safe(
        #[trigger] h[i].1[j],
    )
}

/// `\r\n\r\n` starts at `k` in `t`.
pub open spec fn blank_line_at(t: Seq<char>, k: int) -> bool {
    &&& 0 <= k
    &&& k + 4 <= t.len()
    &&& t[k] == '\r'
    &&& t[k + 1] == '\n'
    &&& t[k + 2] == '\r'
    &&& t[k + 3] == '\n'
}

/// Every carriage return of `x` has two more characters after it, and the
/// second of them is no carriage return.
pub open spec fn single_breaks(x: Seq<char>) -> bool {
    forall|i: int| 0 <= i < x.len() && #[trigger] x[i] == '\r' ==> i + 2 < x.len() && x[i + 2] != '\r'
}

proof fn lemma_ascii_run(s: Seq<char>, q: int)
    requires
        0 <= q <= encode_utf8(s).len(),
        forall|i: int| 0 <= i < q ==> encode_utf8(s)[i] < 0x80,
    ensures
        q <= s.len(),
        forall|i: int| 0 <= i < q ==> s[i] as u32 == encode_utf8(s)[i],
    decreases q,
{
    if q > 0 {
        lemma_encode_first_ascii(s);
        let t = s.drop_first();
        assert forall|i: int| 0 <= i < q - 1 implies encode_utf8(t)[i] < 0x80 by {
            assert(encode_utf8(t)[i] == encode_utf8(s)[i + 1]);
        }
        lemma_ascii_run(t, q - 1);
        assert forall|i: int| 0 <= i < q implies s[i] as u32 == encode_utf8(s)[i] by {
            if i > 0 {
                assert(s[i] == t[i - 1]);
                assert(encode_utf8(s)[i] == encode_utf8(t)[i - 1]);
            }
        }
    }
}

proof fn lemma_terminator_in_encoding(t: Seq<char>, rest: Seq<u8>, j: int)
    requires
        is_terminator_at(encode_utf8(t) + rest, j),
        j + 4 <= encode_utf8(t).len(),
    ensures
        exists|k: int| encode_utf8(t.take(k)).len() == j && blank_line_at(t, k),
    decreases t.len(),
{
    let e = encode_utf8(t);
    let b = e + rest;
    assert(t.len() > 0);
    let c = t[0] as u32;
    let w = encode_scalar(c).len() as int;
    let t1 = t.drop_first();
    assert(e == encode_scalar(c) + encode_utf8(t1));
    vstd::utf8::char_is_scalar(t[0]);
    if j >= w {
        let b1 = encode_utf8(t1) + rest;
        assert forall|x: int| 0 <= x < b1.len() implies b1[x] == b[x + w] by {}
        assert(is_terminator_at(b1, j - w));
        lemma_terminator_in_encoding(t1, rest, j - w);
        let k1 = choose|k: int| encode_utf8(t1.take(k)).len() == j - w && blank_line_at(t1, k);
        let k = k1 + 1;
        let p = t.take(k);
        assert(p.len() > 0);
        assert(p[0] == t[0]);
        assert(p.drop_first() =~= t1.take(k1));
        assert(encode_utf8(p) == encode_scalar(c) + encode_utf8(t1.take(k1)));
        assert(blank_line_at(t, k)) by {
            assert(t[k] == t1[k1]);
            assert(t[k + 1] == t1[k1 + 1]);
            assert(t[k + 2] == t1[k1 + 2]);
            assert(t[k + 3] == t1[k1 + 3]);
        }
    } else {
        if !vstd::utf8::has_width_1_encoding(c) {
            lemma_encode_wide_scalar(c);
            assert(e[j] == encode_scalar(c)[j]);
            assert(false);
        }
        lemma_encode_ascii_scalar(c);
        assert(j == 0);
        lemma_ascii_run(t, 4);
        assert(t.take(0) =~= Seq::<char>::empty());
        assert(t[0] as u32 == 13);
        assert(t[1] as u32 == 10);
        assert(t[2] as u32 == 13);
        assert(t[3] as u32 == 10);
        vstd::utf8::char_u32_cast(t[0], 13);
        vstd::utf8::char_u32_cast(t[1], 10);
        vstd::utf8::char_u32_cast(t[2], 13);
        vstd::utf8::char_u32_cast(t[3], 10);
        vstd::utf8::char_u32_cast('\r', 13);
        vstd::utf8::char_u32_cast('\n', 10);
        assert(blank_line_at(t, 0));
    }
}

proof fn lemma_join_single_breaks(ls: Seq<Seq<char>>)
    requires
        ls.len() > 0,
        forall|i: int| 0 <= i < ls.len() ==> (#[trigger] ls[i]).len() > 0 && !ls[i].contains('\r'),
    ensures
        join(ls, seq!['\r', '\n']).len() > 0,
        join(ls, seq!['\r', '\n'])[0] == ls[0][0],
        single_breaks(join(ls, seq!['\r', '\n'])),
    decreases ls.len(),
{
    let sep = seq!['\r', '\n'];
    let a = ls[0];
    assert(a.len() > 0 && !a.contains('\r'));
    if ls.len() == 1 {
        assert forall|i: int| 0 <= i < a.len() && #[trigger] a[i] == '\r' implies i + 2 < a.len() && a[i + 2]
            != '\r' by {
            assert(a.contains('\r'));
        }
    } else {
        let rest = ls.skip(1);
        crate::text::lemma_join_front(ls, sep);
        assert forall|i: int| 0 <= i < rest.len() implies (#[trigger] rest[i]).len() > 0
            && !rest[i].contains('\r') by {
            assert(rest[i] == ls[i + 1]);
        }
        lemma_join_single_breaks(rest);
        let b = join(rest, sep);
        let x = a + sep + b;
        assert(x[0] == a[0]);
        assert forall|i: int| 0 <= i < x.len() && #[trigger] x[i] == '\r' implies i + 2 < x.len() && x[i + 2]
            != '\r' by {
            if i < a.len() {
                assert(x[i] == a[i]);
                assert(a.contains('\r'));
            } else if i == a.len() {
                assert(x[i + 2] == b[0]);
                assert(b[0] == rest[0][0]);
                assert(rest[0].contains('\r') || rest[0][0] != '\r');
            } else if i == a.len() + 1 {
            } else {
                let q = i - a.len() - 2;
                assert(x[i] == b[q]);
                assert(x[i + 2] == b[q + 2]);
            }
        }
    }
}

proof fn lemma_line_safe_header_line(e: (Seq<char>, Seq<Seq<char>>))
    requires
        line_safe(e.0),
        forall|j: int| 0 <= j < e.1.len() ==> line_safe(#[trigger] e.1[j]),
    ensures
        header_line(e).len() > 0,
        !header_line(e).contains('\r'),
        !header_line(e).contains('\n'),
{
    let joined = join(e.1, seq![',']);
    crate::text::lemma_join_no_char(e.1, ',', '\r');
    crate::text::lemma_join_no_char(e.1, ',', '\n');
    let l = header_line(e);
    assert(l =~= e.0 + (seq![':', ' '] + joined));
    assert forall|c: char| (c == '\r' || c == '\n') implies !l.contains(c) by {
        if l.contains(c) {
            let t = choose|t: int| 0 <= t < l.len() && l[t] == c;
            if t < e.0.len() {
                assert(l[t] == e.0[t]);
                assert(e.0.contains(c));
            } else if t >= e.0.len() + 2 {
                assert(l[t] == joined[t - e.0.len() - 2]);
                assert(joined.contains(c));
            }
        }
    }
}

proof fn lemma_status_line_plain(version: HttpVersion, status: HttpStatusCode)
    ensures
        !(version_text(version) + seq![' '] + status_text(status)).contains('\r'),
{
    let p = version_text(version) + seq![' '] + status_text(status);
    if p.contains('\r') {
        let t = choose|t: int| 0 <= t < p.len() && p[t] == '\r';
        let v = version_text(version);
        let st = status_text(status);
        if t < v.len() {
            assert(p[t] == v[t]);
        } else if t > v.len() {
            assert(p[t] == st[t - v.len() - 1]);
        }
    }
}

proof fn lemma_head_single_breaks(version: HttpVersion, status: HttpStatusCode, h: HeaderList)
    requires
        h.len() > 0,
        plain_headers(h),
    ensures
        single_breaks(response_head_text(version, status, h)),
{
    let ls = h.map_values(|e: (Seq<char>, Seq<Seq<char>>)| header_line(e));
    assert forall|i: int| 0 <= i < ls.len() implies (#[trigger] ls[i]).len() > 0 && !ls[i].contains(
        '\r',
    ) by {
        let e = h[i];
        assert(line_safe(e.0));
        assert forall|j: int| 0 <= j < e.1.len() implies line_safe(#[trigger] e.1[j]) by {
            assert(e.1[j] == h[i].1[j]);
        }
        lemma_line_safe_header_line(e);
    }
    lemma_join_single_breaks(ls);
    let f = format_headers(h);
    let p = version_text(version) + seq![' '] + status_text(status);
    lemma_status_line_plain(version, status);
    let x = response_head_text(version, status, h);
    assert(x =~= p + seq!['\r', '\n'] + f);
    assert(x[p.len() as int + 1] == '\n');
    assert forall|i: int| 0 <= i < x.len() && #[trigger] x[i] == '\r' implies i + 2 < x.len() && x[i + 2]
        != '\r' by {
        if i < p.len() {
            assert(x[i] == p[i]);
            assert(p.contains('\r'));
        } else if i == p.len() {
            assert(x[i + 2] == f[0]);
            assert(f[0] == ls[0][0]);
            assert(ls[0].contains('\r') || ls[0][0] != '\r');
        } else if i == p.len() + 1 {
        } else {
            let q = i - p.len() - 2;
            assert(x[i] == f[q]);
            assert(x[i + 2] == f[q + 2]);
        }
    }
}

proof fn lemma_encode_breaks()
    ensures
        encode_utf8(seq![' ']) == seq![32u8],
        encode_utf8(seq!['\r', '\n']) == seq![13u8, 10u8],
        encode_utf8(seq!['\r', '\n', '\r', '\n']) == seq![13u8, 10u8, 13u8, 10u8],
{
    lemma_encode_ascii_scalar(32);
    lemma_encode_ascii_scalar(13);
    lemma_encode_ascii_scalar(10);
    let sp = seq![' '];
    assert(sp.drop_first() =~= Seq::<char>::empty());
    assert(encode_utf8(Seq::<char>::empty()) == Seq::<u8>::empty());
    assert(sp[0] as u32 == 32);
    assert(encode_utf8(sp) == encode_scalar(32) + encode_utf8(sp.drop_first()));
    assert(encode_utf8(sp) =~= seq![32u8]);
    let nl = seq!['\n'];
    assert(nl.drop_first() =~= Seq::<char>::empty());
    assert(nl[0] as u32 == 10);
    assert(encode_utf8(nl) == encode_scalar(10) + encode_utf8(nl.drop_first()));
    assert(encode_utf8(nl) =~= seq![10u8]);
    let crlf = seq!['\r', '\n'];
    assert(crlf.drop_first() =~= nl);
    assert(crlf[0] as u32 == 13);
    assert(encode_utf8(crlf) == encode_scalar(13) + encode_utf8(crlf.drop_first()));
    assert(encode_utf8(crlf) =~= seq![13u8, 10u8]);
    lemma_encode_concat(crlf, crlf);
    assert(crlf + crlf =~= seq!['\r', '\n', '\r', '\n']);
    assert(encode_utf8(crlf) + encode_utf8(crlf) =~= seq![13u8, 10u8, 13u8, 10u8]);
}

/// The bytes of a response are the encoded status line and header fields, the
/// blank line, and the body.
pub proof fn lemma_response_bytes_layout(
    version: HttpVersion,
    status: HttpStatusCode,
    headers: HeaderList,
    body: Seq<u8>,
)
    ensures
        response_bytes(version, status, headers, body) == encode_utf8(
            response_head_text(version, status, headers) + seq!['\r', '\n', '\r', '\n'],
        ) + body,
        encode_utf8(response_head_text(version, status, headers) + seq!['\r', '\n', '\r', '\n'])
            == encode_utf8(response_head_text(version, status, headers)) + seq![
            13u8,
            10u8,
            13u8,
            10u8,
        ],
{
    let v = version_text(version);
    let st = status_text(status);
    let f = format_headers(headers);
    lemma_encode_breaks();
    lemma_encode_concat(v, seq![' ']);
    lemma_encode_concat(v + seq![' '], st);
    lemma_encode_concat(v + seq![' '] + st, seq!['\r', '\n']);
    lemma_encode_concat(v + seq![' '] + st + seq!['\r', '\n'], f);
    let head = response_head_text(version, status, headers);
    lemma_encode_concat(head, seq!['\r', '\n', '\r', '\n']);
    assert(response_bytes(version, status, headers, body) =~= encode_utf8(head) + seq![
        13u8,
        10u8,
        13u8,
        10u8,
    ] + body);
}

/// A response whose header fields are not empty and hold no line breaks,
/// framed by `to_vec`, splits at its blank line back into its status line and
/// header fields, as valid UTF-8, and its body: the header block ends right
/// after the last header field, and everything after the blank line is the
/// body.
pub proof fn lemma_response_split(
    version: HttpVersion,
    status: HttpStatusCode,
    headers: HeaderList,
    body: Seq<u8>,
)
    requires
        headers.len() > 0,
        plain_headers(headers),
    ensures
        ({
            let bytes = response_bytes(version, status, headers, body);
            let head = response_head_text(version, status, headers);
            let n = encode_utf8(head).len() as int;
            &&& spec_headers_end(bytes) == Some(n)
            &&& bytes.take(n) == encode_utf8(head)
            &&& bytes.skip(n + 4) == body
            &&& valid_utf8(bytes.take(n))
            &&& decode_utf8(bytes.take(n)) == head
        }),
{
    let bytes = response_bytes(version, status, headers, body);
    let head = response_head_text(version, status, headers);
    let t = head + seq!['\r', '\n', '\r', '\n'];
    let n = encode_utf8(head).len() as int;
    lemma_response_bytes_layout(version, status, headers, body);
    assert(bytes =~= encode_utf8(head) + seq![13u8, 10u8, 13u8, 10u8] + body);
    assert(bytes.take(n) =~= encode_utf8(head));
    assert(bytes.skip(n + 4) =~= body);
    assert(is_terminator_at(bytes, n));
    lemma_head_single_breaks(version, status, headers);
    assert forall|j: int| 0 <= j < n implies !is_terminator_at(bytes, j) by {
        if is_terminator_at(bytes, j) {
            assert(bytes == encode_utf8(t) + body);
            lemma_terminator_in_encoding(t, body, j);
            let k = choose|k: int| encode_utf8(t.take(k)).len() == j && blank_line_at(t, k);
            assert(t.take(head.len() as int) =~= head);
            if k >= head.len() {
                lemma_encode_prefix_len(t, head.len() as int, k);
            } else {
                assert(t[k] == head[k]);
                assert(k + 2 < head.len());
                assert(t[k + 2] == head[k + 2]);
            }
        }
    }
    assert(is_first_terminator(bytes, n));
    let c = choose|i: int| is_first_terminator(bytes, i);
    assert(is_first_terminator(bytes, c));
    if c < n {
        assert(!is_terminator_at(bytes, c));
    }
    if n < c {
        assert(!is_terminator_at(bytes, n));
    }
    vstd::utf8::encode_utf8_valid_utf8(head);
    vstd::utf8::encode_utf8_decode_utf8(head);
}

/// A response whose body is valid UTF-8 is, as text, exactly what `to_vec`
/// writes: its encoding is the response's bytes.
pub proof fn lemma_response_text_bytes(
    version: HttpVersion,
    status: HttpStatusCode,
    headers: HeaderList,
    body: Seq<u8>,
)
    requires
        valid_utf8(body),
    ensures
        encode_utf8(
            response_head_text(version, status, headers) + seq!['\r', '\n', '\r', '\n']
                + decode_utf8(body),
        ) == response_bytes(version, status, headers, body),
{
    let head = response_head_text(version, status, headers);
    lemma_response_bytes_layout(version, status, headers, body);
    lemma_encode_concat(head + seq!['\r', '\n', '\r', '\n'], decode_utf8(body));
    vstd::utf8::decode_utf8_encode_utf8(body);
}

} // verus!
