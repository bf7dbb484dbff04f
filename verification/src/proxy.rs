//! The bridge in front of a development server: reading a request's head,
//! deciding whether it may pass, and what goes to either side.

use crate::bytes::{
    bytes_of, find_bytes, find_header_end, header_end, line_break, lossy, lossy_text, push_bytes,
};
use crate::cli::{
    authority_ends, host_port, lemma_loopback_chars, loopback_host, url_authority, Target,
    TargetUrl,
};
use crate::number::{
    decimal, decimal_string, digit_value, lemma_radix_roundtrip, number_of, parse_decimal,
};
use crate::text::{
    after_prefix, before_any, chars_of, contains_text, find_any_char, find_sub, has_prefix,
    lemma_find_any_from, lemma_find_sub_from, lemma_rfind_to, lower_text, lowered, occurs_at,
    rsplit_once, same_ignoring_case, same_letters, spells, split_at_char, split_char, split_first,
    split_last, split_on, split_once, split_text, split_words, string_of, strip_prefix, trim,
    trim_end_char, trimmed, views, without_trailing, words,
};
use vstd::prelude::*;
use vstd::slice::slice_subrange;
use vstd::utf8::{encode_utf8, is_ascii_chars, is_ascii_chars_encode_utf8};

verus! {

/// The most bytes a head may have before its end is seen.
pub const MAX_HEADER_BYTES: usize = 32768;

/// The longest request body that is passed on.
pub const MAX_REQUEST_BODY_BYTES: u64 = 16777216;

/// A request's head as it was read, with what was read past its end.
#[derive(Debug)]
pub struct RequestHead {
    pub method: String,
    pub upgrade: bool,
    pub has_body_length: bool,
    pub chunked: bool,
    pub headers: Vec<(String, String)>,
    pub header_bytes: Vec<u8>,
}

/// What a `RequestHead` holds.
pub struct Request {
    pub method: Seq<char>,
    pub upgrade: bool,
    pub has_body_length: bool,
    pub chunked: bool,
    pub headers: Seq<(Seq<char>, Seq<char>)>,
    pub bytes: Seq<u8>,
}

/// The texts of pairs of strings.
pub open spec fn pairs(list: Seq<(String, String)>) -> Seq<(Seq<char>, Seq<char>)> {
    list.map_values(|pair: (String, String)| (pair.0@, pair.1@))
}

impl View for RequestHead {
    type V = Request;

    open spec fn view(&self) -> Request {
        Request {
            method: self.method@,
            upgrade: self.upgrade,
            has_body_length: self.has_body_length,
            chunked: self.chunked,
            headers: pairs(self.headers@),
            bytes: self.header_bytes@,
        }
    }
}

/// What every connection of a bridge shares: where requests go, and the
/// authority of the public route.
pub struct Shared {
    pub target: TargetUrl,
    pub authority: String,
}

/// What a `Shared` holds.
pub struct Route {
    pub target: Target,
    pub authority: Seq<char>,
}

impl View for Shared {
    type V = Route;

    open spec fn view(&self) -> Route {
        Route { target: self.target@, authority: self.authority@ }
    }
}

// ------------------------------------------------------------------ headers

/// The value of the first header from index `i` on whose name is `name`, letter
/// case aside.
pub open spec fn header_from(
    headers: Seq<(Seq<char>, Seq<char>)>,
    name: Seq<char>,
    i: int,
) -> Option<Seq<char>>
    decreases headers.len() - i,
{
    if i < 0 || i >= headers.len() {
        None
    } else if same_letters(headers[i].0, name) {
        Some(headers[i].1)
    } else {
        header_from(headers, name, i + 1)
    }
}

/// The value of the first header whose name is `name`, letter case aside.
pub open spec fn header_of(headers: Seq<(Seq<char>, Seq<char>)>, name: Seq<char>) -> Option<
    Seq<char>,
> {
    header_from(headers, name, 0)
}

/// The value of the first header whose name is `name`, letter case aside.
pub fn header_value(headers: &[(String, String)], name: &str) -> (r: Option<String>)
    ensures
        match r {
            Some(value) => header_of(pairs(headers@), name@) == Some(value@),
            None => header_of(pairs(headers@), name@) is None,
        },
{
    let wanted: Vec<char> = chars_of(name);
    let mut i: usize = 0;
    while i < headers.len()
        invariant
            i <= headers@.len(),
            wanted@ == name@,
            header_of(pairs(headers@), name@) == header_from(pairs(headers@), name@, i as int),
        decreases headers@.len() - i,
    {
        let key: Vec<char> = chars_of(headers[i].0.as_str());
        assert(pairs(headers@)[i as int] == (headers@[i as int].0@, headers@[i as int].1@));
        if same_ignoring_case(key.as_slice(), wanted.as_slice()) {
            return Some(headers[i].1.clone());
        }
        i = i + 1;
    }
    None
}

/// Whether a comma-separated value lists `token`, letter case and surrounding
/// white space aside.
pub open spec fn lists_token(value: Seq<char>, token: Seq<char>) -> bool {
    exists|k: int|
        0 <= k < split_char(value, ',').len() && same_letters(
            trim(#[trigger] split_char(value, ',')[k]),
            token,
        )
}

fn has_token(value: &str, token: &str) -> (r: bool)
    ensures
        r == lists_token(value@, token@),
{
    let chars: Vec<char> = chars_of(value);
    let wanted: Vec<char> = chars_of(token);
    let parts: Vec<Vec<char>> = split_at_char(chars.as_slice(), ',');
    let ghost all = split_char(value@, ',');
    let mut i: usize = 0;
    while i < parts.len()
        invariant
            i <= parts@.len(),
            views(parts@) == all,
            all == split_char(value@, ','),
            wanted@ == token@,
            forall|k: int| 0 <= k < i ==> !same_letters(trim(#[trigger] all[k]), token@),
        decreases parts@.len() - i,
    {
        assert(all[i as int] == parts@[i as int]@);
        if same_ignoring_case(trimmed(parts[i].as_slice()), wanted.as_slice()) {
            return true;
        }
        i = i + 1;
    }
    assert(all.len() == parts@.len());
    false
}

/// The length that a `Content-Length` header gives, where it can be read.
pub open spec fn body_length(headers: Seq<(Seq<char>, Seq<char>)>) -> Option<nat> {
    match header_of(headers, "Content-Length"@) {
        Some(value) => parse_decimal(trim(value), 0xffff_ffff_ffff_ffff),
        None => None,
    }
}

fn content_length(headers: &[(String, String)]) -> (r: Option<u64>)
    ensures
        match r {
            Some(length) => body_length(pairs(headers@)) == Some(length as nat),
            None => body_length(pairs(headers@)) is None,
        },
{
    match header_value(headers, "Content-Length") {
        Some(value) => {
            let chars: Vec<char> = chars_of(value.as_str());
            number_of(trimmed(chars.as_slice()), 10, 0xffff_ffff_ffff_ffff)
        },
        None => None,
    }
}

// -------------------------------------------------------------- reading a head

/// The name and value of a header line.
pub open spec fn header_line(line: Seq<char>) -> Option<(Seq<char>, Seq<char>)> {
    match split_once(line, ':') {
        Some((name, value)) => Some((trim(name), trim(value))),
        None => None,
    }
}

/// The headers on the lines from `i` on, up to the first empty line. A line
/// without a colon is passed over.
pub open spec fn headers_from(lines: Seq<Seq<char>>, i: int) -> Seq<(Seq<char>, Seq<char>)>
    decreases lines.len() - i,
{
    if i < 0 || i >= lines.len() || lines[i].len() == 0 {
        Seq::empty()
    } else {
        match header_line(lines[i]) {
            Some(header) => seq![header] + headers_from(lines, i + 1),
            None => headers_from(lines, i + 1),
        }
    }
}

/// The lines of a head.
pub open spec fn head_lines(bytes: Seq<u8>) -> Seq<Seq<char>> {
    split_on(lossy_text(bytes), "\r\n"@)
}

/// The word at `i`, or nothing.
pub open spec fn word_at(list: Seq<Seq<char>>, i: int) -> Seq<char> {
    if 0 <= i < list.len() {
        list[i]
    } else {
        Seq::empty()
    }
}

/// The request that a complete head makes, or why it makes none.
pub open spec fn request_of(bytes: Seq<u8>) -> Result<Request, Seq<char>> {
    let parts = words(head_lines(bytes)[0]);
    let headers = headers_from(head_lines(bytes), 1);
    if word_at(parts, 0).len() == 0 || strip_prefix(word_at(parts, 2), "HTTP/"@) is None {
        Err("malformed request line"@)
    } else {
        Ok(
            Request {
                method: word_at(parts, 0),
                upgrade: header_of(headers, "Upgrade"@) is Some && lists_token(
                    match header_of(headers, "Connection"@) {
                        Some(value) => value,
                        None => ""@,
                    },
                    "upgrade"@,
                ),
                has_body_length: body_length(headers) is Some,
                chunked: match header_of(headers, "Transfer-Encoding"@) {
                    Some(value) => lists_token(value, "chunked"@),
                    None => false,
                },
                headers,
                bytes,
            },
        )
    }
}

fn text_lines(bytes: &[u8]) -> (r: Vec<Vec<char>>)
    ensures
        views(r@) == head_lines(bytes@),
        r@.len() >= 1,
{
    let text: String = lossy(bytes);
    let chars: Vec<char> = chars_of(text.as_str());
    let mark: Vec<char> = chars_of("\r\n");
    proof {
        reveal_strlit("\r\n");
    }
    split_text(chars.as_slice(), mark.as_slice())
}

fn read_headers(lines: &Vec<Vec<char>>) -> (r: Vec<(String, String)>)
    ensures
        pairs(r@) == headers_from(views(lines@), 1),
{
    let mut out: Vec<(String, String)> = Vec::new();
    let ghost all = views(lines@);
    let mut i: usize = 1;
    assert(pairs(out@) =~= Seq::empty());
    assert(pairs(out@) + headers_from(all, 1) =~= headers_from(all, 1));
    while i < lines.len() && lines[i].len() > 0
        invariant
            1 <= i,
            all == views(lines@),
            pairs(out@) + headers_from(all, i as int) == headers_from(all, 1),
        decreases lines@.len() - i,
    {
        assert(all[i as int] == lines@[i as int]@);
        match split_first(lines[i].as_slice(), ':') {
            Some((name, value)) => {
                let key: String = string_of(trimmed(name));
                let content: String = string_of(trimmed(value));
                let ghost before = out@;
                let ghost header = (key@, content@);
                out.push((key, content));
                assert(pairs(out@) =~= pairs(before).push(header));
                assert(pairs(before) + (seq![header] + headers_from(all, i + 1)) =~= pairs(out@)
                    + headers_from(all, i + 1));
            },
            None => {},
        }
        i = i + 1;
    }
    assert(i < lines@.len() ==> all[i as int] == lines@[i as int]@);
    assert(pairs(out@) + headers_from(all, i as int) =~= pairs(out@));
    out
}

fn word(list: &Vec<Vec<char>>, i: usize) -> (r: Vec<char>)
    ensures
        r@ == word_at(views(list@), i as int),
{
    if i < list.len() {
        vstd::slice::slice_to_vec(list[i].as_slice())
    } else {
        let none: Vec<char> = Vec::new();
        assert(none@ =~= Seq::empty());
        none
    }
}

/// Reads a complete head.
pub fn parse_request_head(bytes: Vec<u8>) -> (r: Result<RequestHead, String>)
    ensures
        match (r, request_of(bytes@)) {
            (Ok(head), Ok(request)) => head@ == request,
            (Err(error), Err(message)) => error@ == message,
            _ => false,
        },
{
    let lines: Vec<Vec<char>> = text_lines(bytes.as_slice());
    assert(views(lines@)[0] == lines@[0]@);
    let parts: Vec<Vec<char>> = split_words(lines[0].as_slice());
    let method: Vec<char> = word(&parts, 0);
    let version: Vec<char> = word(&parts, 2);
    if method.len() == 0 || after_prefix(version.as_slice(), "HTTP/").is_none() {
        return Err("malformed request line".to_owned());
    }
    let headers: Vec<(String, String)> = read_headers(&lines);
    let connection: String = match header_value(headers.as_slice(), "Connection") {
        Some(value) => value,
        None => "".to_owned(),
    };
    let upgrade: bool = header_value(headers.as_slice(), "Upgrade").is_some() && has_token(
        connection.as_str(),
        "upgrade",
    );
    let has_body_length: bool = content_length(headers.as_slice()).is_some();
    let chunked: bool = match header_value(headers.as_slice(), "Transfer-Encoding") {
        Some(value) => has_token(value.as_str(), "chunked"),
        None => false,
    };
    Ok(
        RequestHead {
            method: string_of(method.as_slice()),
            upgrade,
            has_body_length,
            chunked,
            headers,
            header_bytes: bytes,
        },
    )
}

/// What one read from a connection gave.
pub enum ReadEvent {
    Data(Vec<u8>),
    Closed,
    TimedOut,
    Interrupted,
    Failed(String),
}

/// Where the reading of a request's head stands after a read.
pub enum HeadProgress {
    /// Read on.
    More,
    /// The connection closed before its first byte.
    Nothing,
    Failed(String),
    Complete(RequestHead),
}

/// What a `HeadProgress` holds.
pub enum Progress {
    More,
    Nothing,
    Failed(Seq<char>),
    Complete(Request),
}

impl View for HeadProgress {
    type V = Progress;

    open spec fn view(&self) -> Progress {
        match *self {
            HeadProgress::More => Progress::More,
            HeadProgress::Nothing => Progress::Nothing,
            HeadProgress::Failed(error) => Progress::Failed(error@),
            HeadProgress::Complete(head) => Progress::Complete(head@),
        }
    }
}

/// What is buffered after a read.
pub open spec fn buffered_after(buffered: Seq<u8>, event: ReadEvent) -> Seq<u8> {
    match event {
        ReadEvent::Data(data) => buffered + data@,
        _ => buffered,
    }
}

/// Where the reading of a head stands when `event` follows `buffered` bytes: the
/// head is complete with its empty line, too large when it outgrows the limit
/// without one, and cut off when the connection ends in between.
pub open spec fn head_step(buffered: Seq<u8>, event: ReadEvent) -> Progress {
    match event {
        ReadEvent::Data(data) => if header_end(buffered + data@) is Some {
            match request_of(buffered + data@) {
                Ok(request) => Progress::Complete(request),
                Err(message) => Progress::Failed(message),
            }
        } else if (buffered + data@).len() > MAX_HEADER_BYTES {
            Progress::Failed("request head too large"@)
        } else {
            Progress::More
        },
        ReadEvent::Closed => if buffered.len() == 0 {
            Progress::Nothing
        } else {
            Progress::Failed("connection closed mid-request"@)
        },
        ReadEvent::TimedOut => Progress::Failed("request header timeout"@),
        ReadEvent::Interrupted => Progress::More,
        ReadEvent::Failed(error) => Progress::Failed(error@),
    }
}

/// Takes in one read of a request's head.
pub fn read_request_head(buffered: &mut Vec<u8>, event: ReadEvent) -> (r: HeadProgress)
    ensures
        r@ == head_step(old(buffered)@, event),
        final(buffered)@ == buffered_after(old(buffered)@, event),
{
    match event {
        ReadEvent::Data(data) => {
            push_bytes(buffered, data.as_slice());
            if find_header_end(buffered.as_slice()).is_some() {
                let mut bytes: Vec<u8> = Vec::new();
                push_bytes(&mut bytes, buffered.as_slice());
                assert(bytes@ =~= buffered@);
                match parse_request_head(bytes) {
                    Ok(head) => HeadProgress::Complete(head),
                    Err(error) => HeadProgress::Failed(error),
                }
            } else if buffered.len() > MAX_HEADER_BYTES {
                HeadProgress::Failed("request head too large".to_owned())
            } else {
                HeadProgress::More
            }
        },
        ReadEvent::Closed => {
            if buffered.len() == 0 {
                HeadProgress::Nothing
            } else {
                HeadProgress::Failed("connection closed mid-request".to_owned())
            }
        },
        ReadEvent::TimedOut => HeadProgress::Failed("request header timeout".to_owned()),
        ReadEvent::Interrupted => HeadProgress::More,
        ReadEvent::Failed(error) => HeadProgress::Failed(error),
    }
}

// ---------------------------------------------------------------- admission

/// Whether the request is addressed to `authority`.
pub open spec fn host_ok(headers: Seq<(Seq<char>, Seq<char>)>, authority: Seq<char>) -> bool {
    match header_of(headers, "Host"@) {
        Some(host) => same_letters(trim(host), authority),
        None => false,
    }
}

/// The host of an authority, without its port.
pub open spec fn host_of(authority: Seq<char>) -> Seq<char> {
    match rsplit_once(authority, ':') {
        Some((host, _)) => host,
        None => authority,
    }
}

/// The authority part of an https origin, without trailing dots.
pub open spec fn origin_authority(rest: Seq<char>) -> Seq<char> {
    trim_end_char(before_any(rest, authority_ends()), '.')
}

/// Whether an origin is the route's own https site: its scheme is https, and its
/// authority is the route's, or the route's host with no port at all.
pub open spec fn origin_ok(origin: Seq<char>, authority: Seq<char>) -> bool {
    match strip_prefix(origin, "https://"@) {
        None => false,
        Some(rest) => {
            let own = origin_authority(rest);
            if same_letters(own, authority) {
                true
            } else {
                match rsplit_once(own, ':') {
                    None => own.len() > 0 && same_letters(own, host_of(authority)),
                    Some((host, port)) => match rsplit_once(authority, ':') {
                        None => false,
                        Some((expected_host, expected_port)) => port == expected_port
                            && same_letters(host, expected_host),
                    },
                }
            }
        },
    }
}

/// Whether the request is addressed to `authority`.
pub fn host_matches(head: &RequestHead, authority: &str) -> (r: bool)
    ensures
        r == host_ok(head@.headers, authority@),
{
    match header_value(head.headers.as_slice(), "Host") {
        Some(host) => {
            let chars: Vec<char> = chars_of(host.as_str());
            let wanted: Vec<char> = chars_of(authority);
            same_ignoring_case(trimmed(chars.as_slice()), wanted.as_slice())
        },
        None => false,
    }
}

/// Only the route's own https origin passes: scheme must be https and the
/// authority must be this route, or the bare MagicDNS hostname (the certificate
/// also answers it without a port).
pub fn origin_matches(origin: &str, authority: &str) -> (r: bool)
    ensures
        r == origin_ok(origin@, authority@),
{
    let chars: Vec<char> = chars_of(origin);
    let rest: &[char] = match after_prefix(chars.as_slice(), "https://") {
        Some(rest) => rest,
        None => return false,
    };
    let mut ends: Vec<char> = Vec::new();
    ends.push('/');
    ends.push('?');
    ends.push('#');
    assert(ends@ =~= authority_ends());
    proof {
        lemma_find_any_from(rest@, ends@, 0);
    }
    let stop: usize = match find_any_char(rest, ends.as_slice()) {
        Some(index) => index,
        None => rest.len(),
    };
    let part: &[char] = slice_subrange(rest, 0, stop);
    assert(part@ =~= before_any(rest@, authority_ends()));
    let own: &[char] = without_trailing(part, '.');
    let wanted: Vec<char> = chars_of(authority);
    if same_ignoring_case(own, wanted.as_slice()) {
        return true;
    }
    match split_last(own, ':') {
        None => {
            let expected: &[char] = match split_last(wanted.as_slice(), ':') {
                Some((host, _)) => host,
                None => wanted.as_slice(),
            };
            own.len() > 0 && same_ignoring_case(own, expected)
        },
        Some((host, port)) => match split_last(wanted.as_slice(), ':') {
            None => false,
            Some((expected_host, expected_port)) => {
                crate::text::same_chars(port, expected_port) && same_ignoring_case(
                    host,
                    expected_host,
                )
            },
        },
    }
}

/// The reason phrase of the answers that the bridge gives by itself.
pub open spec fn reason(status: nat) -> Seq<char> {
    if status == 400 {
        "Bad Request"@
    } else if status == 403 {
        "Forbidden"@
    } else if status == 411 {
        "Length Required"@
    } else if status == 413 {
        "Payload Too Large"@
    } else if status == 431 {
        "Request Header Fields Too Large"@
    } else if status == 502 {
        "Bad Gateway"@
    } else {
        "Error"@
    }
}

/// A plain-text answer.
pub open spec fn answer(status: nat, message: Seq<char>) -> Seq<char> {
    "HTTP/1.1 "@ + decimal(status) + " "@ + reason(status)
        + "\r\nContent-Type: text/plain; charset=utf-8\r\nContent-Length: "@ + decimal(
        encode_utf8(message + "\n"@).len(),
    ) + "\r\nConnection: close\r\n\r\n"@ + message + "\n"@
}

fn reason_text(status: u16) -> (r: String)
    ensures
        r@ == reason(status as nat),
{
    if status == 400 {
        "Bad Request".to_owned()
    } else if status == 403 {
        "Forbidden".to_owned()
    } else if status == 411 {
        "Length Required".to_owned()
    } else if status == 413 {
        "Payload Too Large".to_owned()
    } else if status == 431 {
        "Request Header Fields Too Large".to_owned()
    } else if status == 502 {
        "Bad Gateway".to_owned()
    } else {
        "Error".to_owned()
    }
}

/// The bytes of a plain-text answer.
pub fn simple_response(status: u16, message: &str) -> (r: Vec<u8>)
    ensures
        r@ == encode_utf8(answer(status as nat, message@)),
{
    let mut body: String = message.to_owned();
    body.append("\n");
    let length: usize = body.as_str().as_bytes().len();
    let mut text: String = "HTTP/1.1 ".to_owned();
    let code: String = decimal_string(status as u64);
    text.append(code.as_str());
    text.append(" ");
    let phrase: String = reason_text(status);
    text.append(phrase.as_str());
    text.append("\r\nContent-Type: text/plain; charset=utf-8\r\nContent-Length: ");
    let shown: String = decimal_string(length as u64);
    text.append(shown.as_str());
    text.append("\r\nConnection: close\r\n\r\n");
    text.append(message);
    text.append("\n");
    bytes_of(text.as_str())
}

/// The answer to a head that could not be read.
pub open spec fn head_error_answer(error: Seq<char>) -> Seq<char> {
    answer(
        if find_sub(error, "too large"@) is Some {
            431
        } else {
            400
        },
        "Bad Request"@,
    )
}

/// The answer to a head that could not be read.
pub fn head_error_response(error: &str) -> (r: Vec<u8>)
    ensures
        r@ == encode_utf8(head_error_answer(error@)),
{
    let chars: Vec<char> = chars_of(error);
    let mark: Vec<char> = chars_of("too large");
    let status: u16 = if contains_text(chars.as_slice(), mark.as_slice()) {
        431
    } else {
        400
    };
    simple_response(status, "Bad Request")
}

/// What becomes of a request: the answer that refuses it, or nothing where it
/// may pass.
pub open spec fn refusal(
    headers: Seq<(Seq<char>, Seq<char>)>,
    authority: Seq<char>,
) -> Option<Seq<char>> {
    if !host_ok(headers, authority) {
        Some(answer(403, "Host is not this Poros route"@))
    } else {
        match header_of(headers, "Origin"@) {
            Some(origin) => if origin_ok(origin, authority) {
                None
            } else {
                Some(answer(403, "Origin does not match this Tailscale node"@))
            },
            None => None,
        }
    }
}

/// Holds a request's Host and Origin against the route. Gives the refusing
/// answer, or nothing where the request may pass to the development server.
pub fn refuse(head: &RequestHead, authority: &str) -> (r: Option<Vec<u8>>)
    ensures
        match (r, refusal(head@.headers, authority@)) {
            (Some(bytes), Some(text)) => bytes@ == encode_utf8(text),
            (None, None) => true,
            _ => false,
        },
{
    if !host_matches(head, authority) {
        return Some(simple_response(403, "Host is not this Poros route"));
    }
    match header_value(head.headers.as_slice(), "Origin") {
        Some(origin) => {
            if origin_matches(origin.as_str(), authority) {
                None
            } else {
                Some(simple_response(403, "Origin does not match this Tailscale node"))
            }
        },
        None => None,
    }
}

/// The answer while the development server cannot be reached.
pub fn not_ready_response() -> (r: Vec<u8>)
    ensures
        r@ == encode_utf8(answer(502, "Development server is not ready"@)),
{
    simple_response(502, "Development server is not ready")
}

// --------------------------------------------------------------- forwarding

/// Headers that belong to one connection and are not passed on, and the host,
/// which is replaced.
pub open spec fn is_hop_by_hop(name: Seq<char>) -> bool {
    let low = lower_text(name);
    ||| low == "host"@
    ||| low == "connection"@
    ||| low == "keep-alive"@
    ||| low == "proxy-connection"@
    ||| low == "transfer-encoding"@
    ||| low == "upgrade"@
    ||| low == "te"@
    ||| low == "trailer"@
}

/// The headers that are passed on, in their order.
pub open spec fn passed_on(headers: Seq<(Seq<char>, Seq<char>)>) -> Seq<(Seq<char>, Seq<char>)> {
    headers.filter(|header: (Seq<char>, Seq<char>)| !is_hop_by_hop(header.0))
}

/// Header lines.
pub open spec fn header_block(headers: Seq<(Seq<char>, Seq<char>)>) -> Seq<char>
    decreases headers.len(),
{
    if headers.len() == 0 {
        ""@
    } else {
        header_block(headers.drop_last()) + headers.last().0 + ": "@ + headers.last().1 + "\r\n"@
    }
}

/// The path on a request line; the root where it has none.
pub open spec fn request_path(bytes: Seq<u8>) -> Seq<char> {
    let parts = words(head_lines(bytes)[0]);
    if parts.len() > 1 {
        parts[1]
    } else {
        "/"@
    }
}

/// The head that goes to the development server in place of the client's: HTTP
/// 1.0, the server's own host, the headers that are passed on, and those that
/// tell where the request came in.
pub open spec fn forwarded(request: Request, length: nat, route: Route) -> Seq<char> {
    request.method + " "@ + request_path(request.bytes) + " HTTP/1.0\r\n"@ + header_block(
        passed_on(request.headers),
    ) + "Host: "@ + host_port(route.target) + "\r\n"@ + (if length > 0 {
        "Content-Length: "@ + decimal(length) + "\r\n"@
    } else {
        ""@
    }) + "X-Forwarded-Proto: https\r\n"@ + "X-Forwarded-Host: "@ + route.authority + "\r\n"@
        + "X-Forwarded-For: 127.0.0.1\r\n"@ + "Via: 1.0 poros\r\n"@ + "Connection: close\r\n\r\n"@
}

fn hop_by_hop(name: &str) -> (r: bool)
    ensures
        r == is_hop_by_hop(name@),
{
    let chars: Vec<char> = chars_of(name);
    let low: Vec<char> = lowered(chars.as_slice());
    let text: &[char] = low.as_slice();
    spells(text, "host") || spells(text, "connection") || spells(text, "keep-alive") || spells(
        text,
        "proxy-connection",
    ) || spells(text, "transfer-encoding") || spells(text, "upgrade") || spells(text, "te")
        || spells(text, "trailer")
}

fn block_of(headers: &[(String, String)]) -> (r: String)
    ensures
        r@ == header_block(passed_on(pairs(headers@))),
{
    let mut text: String = "".to_owned();
    let mut i: usize = 0;
    let ghost all = pairs(headers@);
    let ghost keep = |header: (Seq<char>, Seq<char>)| !is_hop_by_hop(header.0);
    proof {
        reveal(Seq::filter);
        assert(all.take(0) =~= Seq::empty());
    }
    while i < headers.len()
        invariant
            i <= headers@.len(),
            all == pairs(headers@),
            keep == (|header: (Seq<char>, Seq<char>)| !is_hop_by_hop(header.0)),
            text@ == header_block(all.take(i as int).filter(keep)),
        decreases headers@.len() - i,
    {
        proof {
            reveal(Seq::filter);
            assert(all.take(i + 1).drop_last() =~= all.take(i as int));
            assert(all.take(i + 1).last() == all[i as int]);
            assert(all[i as int] == (headers@[i as int].0@, headers@[i as int].1@));
            let kept = all.take(i as int).filter(keep);
            assert(kept.push(all[i as int]).drop_last() =~= kept);
        }
        if !hop_by_hop(headers[i].0.as_str()) {
            text.append(headers[i].0.as_str());
            text.append(": ");
            text.append(headers[i].1.as_str());
            text.append("\r\n");
        }
        i = i + 1;
    }
    assert(all.take(i as int) =~= all);
    text
}

/// Builds the head that goes to the development server.
pub fn build_forwarded_request(head: &RequestHead, content_length: u64, shared: &Shared) -> (r: Vec<
    u8,
>)
    ensures
        r@ == encode_utf8(forwarded(head@, content_length as nat, shared@)),
{
    let lines: Vec<Vec<char>> = text_lines(head.header_bytes.as_slice());
    assert(views(lines@)[0] == lines@[0]@);
    let parts: Vec<Vec<char>> = split_words(lines[0].as_slice());
    let path: String = if parts.len() > 1 {
        assert(views(parts@)[1] == parts@[1]@);
        string_of(parts[1].as_slice())
    } else {
        "/".to_owned()
    };
    let mut text: String = head.method.clone();
    text.append(" ");
    text.append(path.as_str());
    text.append(" HTTP/1.0\r\n");
    let block: String = block_of(head.headers.as_slice());
    text.append(block.as_str());
    text.append("Host: ");
    let target: String = shared.target.authority();
    text.append(target.as_str());
    text.append("\r\n");
    let mut length: String = "".to_owned();
    if content_length > 0 {
        length = "Content-Length: ".to_owned();
        let shown: String = decimal_string(content_length);
        length.append(shown.as_str());
        length.append("\r\n");
    }
    text.append(length.as_str());
    text.append("X-Forwarded-Proto: https\r\n");
    text.append("X-Forwarded-Host: ");
    text.append(shared.authority.as_str());
    text.append("\r\n");
    text.append("X-Forwarded-For: 127.0.0.1\r\n");
    text.append("Via: 1.0 poros\r\n");
    text.append("Connection: close\r\n\r\n");
    bytes_of(text.as_str())
}

/// Where the body starts in what was read: behind the empty line.
pub open spec fn body_start(bytes: Seq<u8>) -> int {
    match header_end(bytes) {
        Some(end) => end + 4,
        None => bytes.len() as int,
    }
}

/// What becomes of a plain request: refused, or a new head, the part of the body
/// that was read with the head, and how much of it is still to come.
pub enum Plan {
    Refuse(Seq<char>),
    Forward { request: Seq<char>, body: Seq<u8>, remaining: nat },
}

/// The plan for a plain request. A body of unknown length is refused, and so is
/// one over the limit.
pub open spec fn plan_of(request: Request, route: Route) -> Plan {
    let length = match body_length(request.headers) {
        Some(length) => length,
        None => 0,
    };
    let body = request.bytes.skip(body_start(request.bytes));
    if request.chunked && !request.has_body_length {
        Plan::Refuse(answer(411, "Length Required"@))
    } else if length > MAX_REQUEST_BODY_BYTES {
        Plan::Refuse(answer(413, "Payload Too Large"@))
    } else {
        Plan::Forward {
            request: forwarded(request, length, route),
            body,
            remaining: if length > body.len() {
                (length - body.len()) as nat
            } else {
                0
            },
        }
    }
}

/// What to do with a plain request.
pub enum RequestPlan {
    Refuse(Vec<u8>),
    Forward { request: Vec<u8>, body: Vec<u8>, remaining: u64 },
}

/// Whether `plan` is what `intended` says, text as UTF-8.
pub open spec fn plan_is(plan: RequestPlan, intended: Plan) -> bool {
    match (plan, intended) {
        (RequestPlan::Refuse(bytes), Plan::Refuse(text)) => bytes@ == encode_utf8(text),
        (
            RequestPlan::Forward { request, body, remaining },
            Plan::Forward { request: text, body: part, remaining: rest },
        ) => request@ == encode_utf8(text) && body@ == part && remaining == rest,
        _ => false,
    }
}

/// Plans a plain request: HTTP 1.0 to the development server (no keep-alive, no
/// chunked ambiguity), with forwarded headers.
pub fn plan_request(head: &RequestHead, shared: &Shared) -> (r: RequestPlan)
    ensures
        plan_is(r, plan_of(head@, shared@)),
{
    if head.chunked && !head.has_body_length {
        return RequestPlan::Refuse(simple_response(411, "Length Required"));
    }
    let length: u64 = match content_length(head.headers.as_slice()) {
        Some(length) => length,
        None => 0,
    };
    if length > MAX_REQUEST_BODY_BYTES {
        return RequestPlan::Refuse(simple_response(413, "Payload Too Large"));
    }
    let request: Vec<u8> = build_forwarded_request(head, length, shared);
    let n: usize = head.header_bytes.len();
    let start: usize = match find_header_end(head.header_bytes.as_slice()) {
        Some(end) => end + 4,
        None => n,
    };
    let body: Vec<u8> = vstd::slice::slice_to_vec(
        slice_subrange(head.header_bytes.as_slice(), start, n),
    );
    assert(body@ =~= head@.bytes.skip(body_start(head@.bytes)));
    let relayed: u64 = body.len() as u64;
    let remaining: u64 = if length > relayed {
        length - relayed
    } else {
        0
    };
    RequestPlan::Forward { request, body, remaining }
}

/// How much of a body to ask for next: what is left, at most a buffer full.
pub fn relay_want(remaining: u64) -> (r: usize)
    ensures
        r == if remaining < 8192 {
            remaining as int
        } else {
            8192
        },
{
    if remaining < 8192 {
        remaining as usize
    } else {
        8192
    }
}

/// What is left of a body after `read` bytes of it; nothing read before its end
/// means that the client is gone.
pub fn relay_exact(remaining: u64, read: usize) -> (r: Result<u64, ()>)
    requires
        read <= remaining,
    ensures
        r == if read == 0 && remaining > 0 {
            Err::<u64, ()>(())
        } else {
            Ok::<u64, ()>((remaining - read) as u64)
        },
{
    if read == 0 && remaining > 0 {
        Err(())
    } else {
        Ok(remaining - (read as u64))
    }
}

// ----------------------------------------------------------------- upgrades

/// The length of the first line, with its line break.
pub open spec fn first_line(s: Seq<u8>) -> int {
    match find_sub(s, line_break()) {
        Some(i) => i + 2,
        None => s.len() as int,
    }
}

/// Whether a line of bytes is a Host header.
pub open spec fn is_host_line(line: Seq<u8>) -> bool {
    match header_line(lossy_text(line)) {
        Some((name, _)) => same_letters(name, "Host"@),
        None => false,
    }
}

/// Header lines with every Host header replaced by one for `host`; from the
/// empty line on, all bytes as they are.
pub open spec fn with_host(s: Seq<u8>, host: Seq<char>) -> Seq<u8>
    decreases s.len(),
{
    proof {
        lemma_find_sub_from(s, line_break(), 0);
    }
    if s.len() == 0 || s.take(first_line(s)) == line_break() {
        s
    } else {
        (if is_host_line(s.take(first_line(s))) {
            encode_utf8("Host: "@ + host + "\r\n"@)
        } else {
            s.take(first_line(s))
        }) + with_host(s.skip(first_line(s)), host)
    }
}

/// The bytes of an upgrade request as they go to the development server: with
/// its own host, and otherwise untouched.
pub open spec fn upgrade_bytes(bytes: Seq<u8>, host: Seq<char>) -> Seq<u8> {
    bytes.take(first_line(bytes)) + with_host(bytes.skip(first_line(bytes)), host)
}

fn line_length(s: &[u8]) -> (r: usize)
    ensures
        r == first_line(s@),
        r <= s@.len(),
        s@.len() > 0 ==> r > 0,
{
    let mut pattern: Vec<u8> = Vec::new();
    pattern.push(13);
    pattern.push(10);
    assert(pattern@ =~= line_break());
    let n: usize = s.len();
    match find_bytes(s, pattern.as_slice()) {
        Some(i) => i + 2,
        None => n,
    }
}

fn host_line(line: &[u8]) -> (r: bool)
    ensures
        r == is_host_line(line@),
{
    let text: String = lossy(line);
    let chars: Vec<char> = chars_of(text.as_str());
    match split_first(chars.as_slice(), ':') {
        Some((name, _)) => {
            let wanted: Vec<char> = chars_of("Host");
            same_ignoring_case(trimmed(name), wanted.as_slice())
        },
        None => false,
    }
}

/// WebSocket pass-through: after the Host and Origin checks the client's bytes
/// go to the development server, with that server's own host in place of the
/// public one, and both directions relay until close.
pub fn upgrade_request(head: &RequestHead, shared: &Shared) -> (r: Vec<u8>)
    ensures
        r@ == upgrade_bytes(head@.bytes, host_port(shared@.target)),
{
    let host: String = shared.target.authority();
    let mut line: String = "Host: ".to_owned();
    line.append(host.as_str());
    line.append("\r\n");
    let replacement: Vec<u8> = bytes_of(line.as_str());
    let bytes: &[u8] = head.header_bytes.as_slice();
    let n: usize = bytes.len();
    let first: usize = line_length(bytes);
    let mut out: Vec<u8> = vstd::slice::slice_to_vec(slice_subrange(bytes, 0, first));
    let mut rest: &[u8] = slice_subrange(bytes, first, n);
    assert(out@ =~= bytes@.take(first as int));
    assert(rest@ =~= bytes@.skip(first as int));
    let mut done: bool = false;
    while !done
        invariant
            replacement@ == encode_utf8("Host: "@ + host@ + "\r\n"@),
            host@ == host_port(shared@.target),
            !done ==> out@ + with_host(rest@, host@) == upgrade_bytes(head@.bytes, host@),
            done ==> out@ == upgrade_bytes(head@.bytes, host@),
        decreases
                (if done {
                    0int
                } else {
                    1
                }), rest@.len(),
    {
        let size: usize = line_length(rest);
        let count: usize = rest.len();
        let line_bytes: &[u8] = slice_subrange(rest, 0, size);
        assert(line_bytes@ =~= rest@.take(size as int));
        assert(line_bytes@.len() == 2 && line_bytes@[0] == 13 && line_bytes@[1] == 10
            ==> line_bytes@ =~= line_break());
        if count == 0 || (size == 2 && line_bytes[0] == 13 && line_bytes[1] == 10) {
            push_bytes(&mut out, rest);
            done = true;
        } else {
            let ghost before = out@;
            let ghost tail = with_host(rest@.skip(size as int), host@);
            if host_line(line_bytes) {
                push_bytes(&mut out, replacement.as_slice());
                assert(before + (replacement@ + tail) =~= out@ + tail);
            } else {
                push_bytes(&mut out, line_bytes);
                assert(before + (line_bytes@ + tail) =~= out@ + tail);
            }
            let next: &[u8] = slice_subrange(rest, size, count);
            assert(next@ =~= rest@.skip(size as int));
            rest = next;
        }
    }
    out
}

// ---------------------------------------------------------------- admission

/// What becomes of a request whose head was read.
pub enum Admission {
    /// The answer; the development server is not even connected to.
    Refuse(Vec<u8>),
    /// The bytes that open an upgraded connection to the development server;
    /// from then on both directions are relayed.
    Upgrade(Vec<u8>),
    /// The plan for a plain request.
    Plain(RequestPlan),
}

/// Decides on a request before the development server is connected to: one that
/// is not for this route is refused, whatever else it asks for; an upgrade and a
/// plain request go on in ways of their own.
pub fn admission(head: &RequestHead, shared: &Shared) -> (r: Admission)
    ensures
        match refusal(head@.headers, shared@.authority) {
            Some(text) => r matches Admission::Refuse(bytes) && bytes@ == encode_utf8(text),
            None => if head@.upgrade {
                r matches Admission::Upgrade(bytes) && bytes@ == upgrade_bytes(
                    head@.bytes,
                    host_port(shared@.target),
                )
            } else {
                r matches Admission::Plain(plan) && plan_is(plan, plan_of(head@, shared@))
            },
        },
{
    match refuse(head, shared.authority.as_str()) {
        Some(answer) => Admission::Refuse(answer),
        None => {
            if head.upgrade {
                Admission::Upgrade(upgrade_request(head, shared))
            } else {
                Admission::Plain(plan_request(head, shared))
            }
        },
    }
}

// ----------------------------------------------------------------- responses

/// What stands behind `Location:` on a line.
pub open spec fn location_of(line: Seq<char>) -> Option<Seq<char>> {
    match strip_prefix(line, "Location:"@) {
        Some(rest) => Some(rest),
        None => strip_prefix(line, "location:"@),
    }
}

/// What follows `authority` in a URL without its scheme, where that is the whole
/// of the URL's authority: a path, a query, a fragment or nothing.
pub open spec fn path_behind(rest: Seq<char>, authority: Seq<char>) -> Option<Seq<char>> {
    match strip_prefix(rest, authority) {
        Some(path) => if path.len() == 0 || authority_ends().contains(path[0]) {
            Some(path)
        } else {
            None
        },
        None => None,
    }
}

/// What follows the development server's address in an absolute URL of it, with
/// or without the brackets of an IPv6 address.
pub open spec fn local_path(location: Seq<char>, target: Target) -> Option<Seq<char>> {
    match strip_prefix(location, "http://"@) {
        Some(rest) => match path_behind(rest, url_authority(target)) {
            Some(path) => Some(path),
            None => path_behind(rest, host_port(target)),
        },
        None => None,
    }
}

/// A line of a response head, with a Location at the development server moved to
/// the public site.
pub open spec fn public_line(line: Seq<char>, route: Route) -> Seq<char> {
    match location_of(line) {
        Some(rest) => match local_path(trim(rest), route.target) {
            Some(path) => "Location: https://"@ + route.authority + path,
            None => line,
        },
        None => line,
    }
}

/// The lines of a response head from `i` on, up to the first empty one.
pub open spec fn public_lines(lines: Seq<Seq<char>>, i: int, route: Route) -> Seq<char>
    decreases lines.len() - i,
{
    if i < 0 || i >= lines.len() {
        Seq::empty()
    } else if lines[i].len() == 0 {
        "\r\n"@
    } else {
        public_line(lines[i], route) + "\r\n"@ + public_lines(lines, i + 1, route)
    }
}

/// A response head as the client gets it.
pub open spec fn public_head(head: Seq<u8>, route: Route) -> Seq<char> {
    public_lines(head_lines(head), 0, route)
}

/// What follows `authority` in a URL without its scheme, where that is the whole
/// of the URL's authority.
fn behind<'a>(rest: &'a [char], authority: &str) -> (r: Option<&'a [char]>)
    ensures
        match r {
            Some(path) => path_behind(rest@, authority@) == Some(path@),
            None => path_behind(rest@, authority@) is None,
        },
{
    match after_prefix(rest, authority) {
        Some(path) => {
            if path.len() == 0 {
                return Some(path);
            }
            let first: char = path[0];
            assert(authority_ends()[0] == '/' && authority_ends()[1] == '?' && authority_ends()[2]
                == '#');
            if first == '/' || first == '?' || first == '#' {
                Some(path)
            } else {
                None
            }
        },
        None => None,
    }
}

fn rewrite_line(
    line: &[char],
    in_url: &str,
    plain: &str,
    authority: &str,
    Ghost(route): Ghost<Route>,
) -> (r: String)
    requires
        in_url@ == url_authority(route.target),
        plain@ == host_port(route.target),
        authority@ == route.authority,
    ensures
        r@ == public_line(line@, route),
{
    let rest: Option<&[char]> = match after_prefix(line, "Location:") {
        Some(rest) => Some(rest),
        None => after_prefix(line, "location:"),
    };
    match rest {
        Some(rest) => match after_prefix(trimmed(rest), "http://") {
            Some(address) => {
                let found: Option<&[char]> = match behind(address, in_url) {
                    Some(path) => Some(path),
                    None => behind(address, plain),
                };
                match found {
                    Some(path) => {
                        let mut text: String = "Location: https://".to_owned();
                        text.append(authority);
                        let shown: String = string_of(path);
                        text.append(shown.as_str());
                        text
                    },
                    None => string_of(line),
                }
            },
            None => string_of(line),
        },
        None => string_of(line),
    }
}

/// Rewrites an absolute Location pointing at the local target back to the
/// public authority so browser redirects land on the HTTPS site.
pub fn rewrite_response_head(head: &[u8], shared: &Shared) -> (r: Vec<u8>)
    ensures
        r@ == encode_utf8(public_head(head@, shared@)),
{
    let lines: Vec<Vec<char>> = text_lines(head);
    let ghost all = views(lines@);
    let in_url: String = shared.target.in_url();
    let plain: String = shared.target.authority();
    let mut text: String = String::new();
    let mut i: usize = 0;
    assert(text@ + public_lines(all, 0, shared@) =~= public_lines(all, 0, shared@));
    while i < lines.len() && lines[i].len() > 0
        invariant
            i <= lines@.len(),
            all == views(lines@),
            in_url@ == url_authority(shared@.target),
            plain@ == host_port(shared@.target),
            text@ + public_lines(all, i as int, shared@) == public_lines(all, 0, shared@),
        decreases lines@.len() - i,
    {
        let ghost before = text@;
        assert(all[i as int] == lines@[i as int]@);
        let line: String = rewrite_line(
            lines[i].as_slice(),
            in_url.as_str(),
            plain.as_str(),
            shared.authority.as_str(),
            Ghost(shared@),
        );
        text.append(line.as_str());
        text.append("\r\n");
        i = i + 1;
        assert(before + (line@ + "\r\n"@ + public_lines(all, i as int, shared@)) =~= text@
            + public_lines(all, i as int, shared@));
    }
    if i < lines.len() {
        assert(all[i as int] == lines@[i as int]@);
        text.append("\r\n");
    } else {
        assert(text@ + public_lines(all, i as int, shared@) =~= text@);
    }
    bytes_of(text.as_str())
}

/// Where the reading of a response's head stands after a read.
pub enum ResponseProgress {
    More,
    /// The connection is dropped without an answer.
    GiveUp,
    /// What the client gets: the head, and the part of the body that came with
    /// it.
    Complete { head: Vec<u8>, body: Vec<u8> },
}

/// What a `ResponseProgress` holds.
pub enum Reply {
    More,
    GiveUp,
    Complete { head: Seq<char>, body: Seq<u8> },
}

/// Where the reading of a response's head stands when `event` follows `buffered`
/// bytes.
pub open spec fn response_step(buffered: Seq<u8>, event: ReadEvent, route: Route) -> Reply {
    match event {
        ReadEvent::Data(data) => {
            let bytes = buffered + data@;
            match header_end(bytes) {
                Some(end) => Reply::Complete {
                    head: public_head(bytes.take(end + 4), route),
                    body: bytes.skip(end + 4),
                },
                None => if bytes.len() > MAX_HEADER_BYTES {
                    Reply::GiveUp
                } else {
                    Reply::More
                },
            }
        },
        _ => Reply::GiveUp,
    }
}

/// Takes in one read of a response's head.
pub fn read_response_head(buffered: &mut Vec<u8>, event: ReadEvent, shared: &Shared) -> (r:
    ResponseProgress)
    ensures
        match (r, response_step(old(buffered)@, event, shared@)) {
            (ResponseProgress::More, Reply::More) => true,
            (ResponseProgress::GiveUp, Reply::GiveUp) => true,
            (
                ResponseProgress::Complete { head, body },
                Reply::Complete { head: text, body: rest },
            ) => head@ == encode_utf8(text) && body@ == rest,
            _ => false,
        },
        final(buffered)@ == buffered_after(old(buffered)@, event),
{
    match event {
        ReadEvent::Data(data) => {
            push_bytes(buffered, data.as_slice());
            let n: usize = buffered.len();
            match find_header_end(buffered.as_slice()) {
                Some(end) => {
                    let top: &[u8] = slice_subrange(buffered.as_slice(), 0, end + 4);
                    let rest: &[u8] = slice_subrange(buffered.as_slice(), end + 4, n);
                    assert(top@ =~= buffered@.take(end + 4));
                    assert(rest@ =~= buffered@.skip(end + 4));
                    let head: Vec<u8> = rewrite_response_head(top, shared);
                    let body: Vec<u8> = vstd::slice::slice_to_vec(rest);
                    ResponseProgress::Complete { head, body }
                },
                None => {
                    if n > MAX_HEADER_BYTES {
                        ResponseProgress::GiveUp
                    } else {
                        ResponseProgress::More
                    }
                },
            }
        },
        _ => ResponseProgress::GiveUp,
    }
}

// --------------------------------------------------------------------- laws

/// A request passes exactly when its Host is the route, letter case aside, and
/// its Origin, where it has one, is the route's own https site. Any other
/// request is answered 403 and nothing of it reaches the development server.
pub proof fn only_own_requests_pass(headers: Seq<(Seq<char>, Seq<char>)>, authority: Seq<char>)
    ensures
        refusal(headers, authority) is None <==> (header_of(headers, "Host"@) matches Some(host)
            && same_letters(trim(host), authority)) && (header_of(headers, "Origin"@) matches Some(
            origin,
        ) ==> origin_ok(origin, authority)),
        refusal(headers, authority) matches Some(text) ==> {
            ||| text == answer(403, "Host is not this Poros route"@)
            ||| text == answer(403, "Origin does not match this Tailscale node"@)
        },
{
}

/// An accepted origin is an https URL, and its authority is the route's own: the
/// whole of it, or its host without a port.
pub proof fn accepted_origins_are_own(origin: Seq<char>, authority: Seq<char>)
    requires
        origin_ok(origin, authority),
    ensures
        strip_prefix(origin, "https://"@) is Some,
        ({
            let own = origin_authority(strip_prefix(origin, "https://"@).unwrap());
            same_letters(own, authority) || same_letters(own, host_of(authority))
        }),
{
    let own = origin_authority(strip_prefix(origin, "https://"@).unwrap());
    if !same_letters(own, authority) {
        if let Some((host, port)) = rsplit_once(own, ':') {
            let (expected_host, expected_port) = rsplit_once(authority, ':').unwrap();
            lemma_rfind_to(own, ':', own.len() as int);
            lemma_rfind_to(authority, ':', authority.len() as int);
            assert(own =~= host + seq![':'] + port);
            assert(authority =~= expected_host + seq![':'] + expected_port);
            assert(lower_text(own) =~= lower_text(host) + lower_text(seq![':']) + lower_text(port));
            assert(lower_text(authority) =~= lower_text(expected_host) + lower_text(seq![':'])
                + lower_text(expected_port));
        }
    }
}

/// No header that belongs to one connection is passed on, nor the public Host;
/// every other header is, unchanged and in its order.
pub proof fn hop_by_hop_headers_stay_behind(headers: Seq<(Seq<char>, Seq<char>)>)
    ensures
        forall|i: int| 0 <= i < passed_on(headers).len() ==> !is_hop_by_hop(
            (#[trigger] passed_on(headers)[i]).0,
        ),
        forall|i: int|
            0 <= i < headers.len() && !is_hop_by_hop((#[trigger] headers[i]).0) ==> passed_on(
                headers,
            ).contains(headers[i]),
        (forall|i: int| 0 <= i < headers.len() ==> !is_hop_by_hop((#[trigger] headers[i]).0))
            ==> passed_on(headers) == headers,
    decreases headers.len(),
{
    let keep = |header: (Seq<char>, Seq<char>)| !is_hop_by_hop(header.0);
    assert forall|i: int| 0 <= i < passed_on(headers).len() implies !is_hop_by_hop(
        (#[trigger] passed_on(headers)[i]).0,
    ) by {
        headers.lemma_filter_pred(keep, i);
    }
    assert forall|i: int|
        0 <= i < headers.len() && !is_hop_by_hop((#[trigger] headers[i]).0) implies passed_on(
        headers,
    ).contains(headers[i]) by {
        headers.lemma_filter_contains(keep, i);
    }
    if forall|i: int| 0 <= i < headers.len() ==> !is_hop_by_hop((#[trigger] headers[i]).0) {
        reveal(Seq::filter);
        if headers.len() > 0 {
            let front = headers.drop_last();
            assert forall|i: int| 0 <= i < front.len() implies !is_hop_by_hop(
                (#[trigger] front[i]).0,
            ) by {
                assert(front[i] == headers[i]);
            }
            hop_by_hop_headers_stay_behind(front);
            assert(!is_hop_by_hop(headers[headers.len() - 1].0));
            assert(front.push(headers.last()) =~= headers);
        }
    }
}

proof fn lemma_no_header(headers: Seq<(Seq<char>, Seq<char>)>, name: Seq<char>, i: int)
    requires
        0 <= i,
        forall|k: int| 0 <= k < headers.len() ==> !same_letters((#[trigger] headers[k]).0, name),
    ensures
        header_from(headers, name, i) is None,
    decreases headers.len() - i,
{
    if i < headers.len() {
        lemma_no_header(headers, name, i + 1);
    }
}

/// A plain request that is passed on brings no Host of its own: the local one is
/// the only one.
pub proof fn public_hosts_stay_behind(headers: Seq<(Seq<char>, Seq<char>)>)
    ensures
        header_of(passed_on(headers), "Host"@) is None,
{
    reveal_strlit("Host");
    reveal_strlit("host");
    assert(lower_text("Host"@) =~= "host"@);
    hop_by_hop_headers_stay_behind(headers);
    lemma_no_header(passed_on(headers), "Host"@, 0);
}

/// Whether every Host header among header lines is `line`; from the empty line on
/// there are no headers.
pub open spec fn hosts_are(s: Seq<u8>, line: Seq<u8>) -> bool
    decreases s.len(),
{
    proof {
        lemma_find_sub_from(s, line_break(), 0);
    }
    if s.len() == 0 || s.take(first_line(s)) == line_break() {
        true
    } else {
        (is_host_line(s.take(first_line(s))) ==> s.take(first_line(s)) == line) && hosts_are(
            s.skip(first_line(s)),
            line,
        )
    }
}

/// A line that ends in its only line break is the first line of what starts
/// with it.
proof fn lemma_first_line(line: Seq<u8>, rest: Seq<u8>)
    requires
        find_sub(line, line_break()) == Some(line.len() - 2),
    ensures
        first_line(line + rest) == line.len(),
        (line + rest).take(line.len() as int) == line,
        (line + rest).skip(line.len() as int) == rest,
{
    let s = line + rest;
    let mark = line_break();
    lemma_find_sub_from(line, mark, 0);
    lemma_find_sub_from(s, mark, 0);
    assert(s.subrange(line.len() - 2, line.len() as int) =~= line.subrange(
        line.len() - 2,
        line.len() as int,
    ));
    assert(occurs_at(s, mark, line.len() - 2));
    assert forall|j: int| 0 <= j < line.len() - 2 implies !occurs_at(s, mark, j) by {
        assert(!occurs_at(line, mark, j));
        assert(s.subrange(j, j + 2) =~= line.subrange(j, j + 2));
    }
    assert(s.take(line.len() as int) =~= line);
    assert(s.skip(line.len() as int) =~= rest);
}

/// The Host line for a loopback host holds one line break, at its end.
proof fn lemma_local_line(target: Target)
    requires
        loopback_host(target.host),
    ensures
        ({
            let line = encode_utf8("Host: "@ + host_port(target) + "\r\n"@);
            find_sub(line, line_break()) == Some(line.len() - 2)
        }),
{
    reveal_strlit("Host: ");
    reveal_strlit(":");
    reveal_strlit("\r\n");
    let host = host_port(target);
    let text = "Host: "@ + host + "\r\n"@;
    let line = encode_utf8(text);
    let n = text.len() as int;
    let digits = decimal(target.port);
    lemma_radix_roundtrip(target.port, 10);
    assert forall|i: int| 0 <= i < host.len() implies '!' <= #[trigger] host[i] <= '~' by {
        if i < target.host.len() {
            lemma_loopback_chars(target.host, i);
        } else if i > target.host.len() {
            assert(host[i] == digits[i - target.host.len() - 1]);
            assert(digit_value(digits[i - target.host.len() - 1], 10) is Some);
        }
    }
    assert forall|i: int| 0 <= i < n - 2 implies ' ' <= #[trigger] text[i] <= '~' by {
        if i >= 6 {
            assert(text[i] == host[i - 6]);
        }
    }
    assert(text[n - 2] == '\r' && text[n - 1] == '\n');
    assert(is_ascii_chars(text));
    is_ascii_chars_encode_utf8(text);
    let mark = line_break();
    lemma_find_sub_from(line, mark, 0);
    assert(line[n - 2] == 13u8) by {
        assert(text[n - 2] as u8 == line[n - 2]);
    }
    assert(line[n - 1] == 10u8) by {
        assert(text[n - 1] as u8 == line[n - 1]);
    }
    assert(line.subrange(n - 2, n) =~= mark);
    assert(occurs_at(line, mark, n - 2));
    assert forall|j: int| 0 <= j < n - 2 implies !occurs_at(line, mark, j) by {
        assert(text[j] as u8 == line[j]);
        assert(line.subrange(j, j + 2)[0] == line[j]);
    }
}

proof fn lemma_with_host(s: Seq<u8>, target: Target)
    requires
        loopback_host(target.host),
    ensures
        hosts_are(
            with_host(s, host_port(target)),
            encode_utf8("Host: "@ + host_port(target) + "\r\n"@),
        ),
    decreases s.len(),
{
    let local = encode_utf8("Host: "@ + host_port(target) + "\r\n"@);
    let size = first_line(s);
    lemma_find_sub_from(s, line_break(), 0);
    if s.len() > 0 && s.take(size) != line_break() {
        let line = s.take(size);
        let rest = s.skip(size);
        lemma_with_host(rest, target);
        let more = with_host(rest, host_port(target));
        if is_host_line(line) {
            lemma_local_line(target);
            lemma_first_line(local, more);
        } else if find_sub(s, line_break()) is Some {
            lemma_find_sub_from(line, line_break(), 0);
            assert(line.subrange(size - 2, size) =~= s.subrange(size - 2, size));
            assert(occurs_at(line, line_break(), size - 2));
            assert forall|j: int| 0 <= j < size - 2 implies !occurs_at(line, line_break(), j) by {
                assert(!occurs_at(s, line_break(), j));
                assert(line.subrange(j, j + 2) =~= s.subrange(j, j + 2));
            }
            lemma_first_line(line, more);
        } else {
            assert(line =~= s);
            assert(line + more =~= s);
            assert(s.skip(size) =~= Seq::empty());
        }
    }
}

/// An upgrade reaches the development server under that server's own name: every
/// Host header it carries is the local one.
pub proof fn upgrades_carry_the_local_host(bytes: Seq<u8>, target: Target)
    requires
        loopback_host(target.host),
    ensures
        ({
            let sent = upgrade_bytes(bytes, host_port(target));
            let line = first_line(bytes);
            sent.take(line) == bytes.take(line) && hosts_are(
                sent.skip(line),
                encode_utf8("Host: "@ + host_port(target) + "\r\n"@),
            )
        }),
{
    let line = first_line(bytes);
    lemma_find_sub_from(bytes, line_break(), 0);
    lemma_with_host(bytes.skip(line), target);
    let sent = upgrade_bytes(bytes, host_port(target));
    assert(sent.take(line) =~= bytes.take(line));
    assert(sent.skip(line) =~= with_host(bytes.skip(line), host_port(target)));
}

/// A body that is passed on never exceeds the limit, and what is still to come
/// is what the head announced less what came with it.
pub proof fn forwarded_bodies_are_bounded(request: Request, route: Route)
    ensures
        plan_of(request, route) matches Plan::Forward { body, remaining, .. } ==> remaining
            <= MAX_REQUEST_BODY_BYTES && (body_length(request.headers) matches Some(length)
            ==> length <= MAX_REQUEST_BODY_BYTES && (length >= body.len() ==> body.len() + remaining
            == length)),
{
}

/// A response head none of whose lines is a Location at the development server
/// reaches the client word for word.
pub proof fn other_response_heads_are_kept(text: Seq<char>, route: Route)
    requires
        find_sub(text, "\r\n\r\n"@) == Some(text.len() - 4),
        !has_prefix(text, "\r\n"@),
        forall|i: int|
            0 <= i < split_on(text, "\r\n"@).len() ==> public_line(
                #[trigger] split_on(text, "\r\n"@)[i],
                route,
            ) == split_on(text, "\r\n"@)[i],
    ensures
        public_lines(split_on(text, "\r\n"@), 0, route) == text,
    decreases text.len(),
{
    reveal_strlit("\r\n");
    reveal_strlit("\r\n\r\n");
    let mark = "\r\n"@;
    let double = "\r\n\r\n"@;
    let n = text.len() as int;
    lemma_find_sub_from(text, double, 0);
    lemma_find_sub_from(text, mark, 0);
    assert(text.subrange(n - 4, n) == double);
    assert(text.subrange(n - 4, n - 2) =~= mark) by {
        assert(text[n - 4] == text.subrange(n - 4, n)[0]);
        assert(text[n - 3] == text.subrange(n - 4, n)[1]);
    }
    assert(text.subrange(n - 2, n) =~= mark) by {
        assert(text[n - 2] == text.subrange(n - 4, n)[2]);
        assert(text[n - 1] == text.subrange(n - 4, n)[3]);
    }
    assert(occurs_at(text, mark, n - 4));
    let i = find_sub(text, mark).unwrap();
    let rest = text.skip(i + 2);
    let lines = split_on(text, mark);
    assert(lines =~= seq![text.take(i)] + split_on(rest, mark));
    assert(0 < i <= n - 4);
    assert(text.subrange(i, i + 2) == mark);
    assert(text[i] == text.subrange(i, i + 2)[0]);
    assert(text[i + 1] == text.subrange(i, i + 2)[1]);
    let tail = split_on(rest, mark);
    assert forall|k: int| 0 <= k < tail.len() implies public_line(#[trigger] tail[k], route)
        == tail[k] by {
        assert(tail[k] == lines[k + 1]);
    }
    lemma_public_lines_shift(lines, tail, 0, route);
    if i == n - 4 {
        assert(rest =~= mark);
        lemma_find_sub_from(rest, mark, 0);
        assert(occurs_at(rest, mark, 0)) by {
            assert(rest.subrange(0, 2) =~= mark);
        }
        assert(find_sub(rest, mark) == Some(0int));
        assert(tail[0] == rest.take(0));
        assert(public_lines(tail, 0, route) == mark);
    } else {
        assert(!has_prefix(rest, mark)) by {
            if has_prefix(rest, mark) {
                assert(rest[0] == rest.take(2)[0]);
                assert(rest[1] == rest.take(2)[1]);
                assert(text.subrange(i, i + 4) =~= double);
                assert(occurs_at(text, double, i));
            }
        }
        lemma_find_sub_from(rest, double, 0);
        assert(occurs_at(rest, double, rest.len() - 4)) by {
            assert(rest.subrange(rest.len() - 4, rest.len() as int) =~= double) by {
                assert(text.subrange(n - 4, n) == double);
            }
        }
        assert forall|j: int| 0 <= j < rest.len() - 4 implies !occurs_at(
            rest,
            double,
            j,
        ) by {
            if occurs_at(rest, double, j) {
                assert(text.subrange(i + 2 + j, i + 6 + j) =~= rest.subrange(j, j + 4));
                assert(occurs_at(text, double, i + 2 + j));
            }
        }
        assert(find_sub(rest, double) == Some(rest.len() - 4));
        other_response_heads_are_kept(rest, route);
    }
    assert(lines[0] == text.take(i));
    assert(text =~= text.take(i) + mark + rest);
}

proof fn lemma_public_lines_shift(
    lines: Seq<Seq<char>>,
    tail: Seq<Seq<char>>,
    i: int,
    route: Route,
)
    requires
        lines.len() == tail.len() + 1,
        forall|k: int| 0 <= k < tail.len() ==> lines[k + 1] == #[trigger] tail[k],
        0 <= i <= tail.len(),
    ensures
        public_lines(lines, i + 1, route) == public_lines(tail, i, route),
    decreases tail.len() - i,
{
    if i < tail.len() {
        assert(lines[i + 1] == tail[i]);
        lemma_public_lines_shift(lines, tail, i + 1, route);
    }
}

} // verus!
