//! Minimal client for tailscaled's LocalAPI over its Unix socket. Poros holds
//! the foreground Serve session itself instead of keeping a `tailscale serve`
//! process alive for the whole run.

use crate::bytes::{
    bytes_of, find_bytes, find_header_end, header_end, line_break, lossy, lossy_text, push_bytes,
    utf8, utf8_error,
};
use crate::json::{
    bool_value, boolean, into_members, is_null, is_null_value, members, no_members, nothing, object,
    object_members, object_value, read_json, read_value, set_member, single, string, string_text,
    string_value, take_member, with_member, write_json, written_value,
};
use crate::number::{
    decimal, decimal_string, digit_value, lemma_radix_roundtrip, number_of, parse_decimal,
    parse_radix, port_number, radix_text,
};
use crate::tailscale::{
    document_in, funnelled, handler_for, keys_in, lemma_session_uses, own_port_used,
    parse_serve_config, port_used, route_for, route_owned, session_owns, ServeConfig, WebHandler,
    WebRoute,
};
use crate::text::{
    before_any, chars_of, find_any_char, find_sub, is_white, lemma_find_any_from,
    lemma_find_sub_from, occurs_at, same_ignoring_case, same_letters, split_at_char, split_char,
    split_first, split_on, split_once, split_text, string_of, texts, trim, trim_end, trim_start,
    trimmed, views,
};
use vstd::prelude::*;
use vstd::slice::slice_subrange;
use vstd::utf8::{
    decode_utf8, encode_utf8, encode_utf8_decode_utf8, encode_utf8_valid_utf8, is_ascii_chars,
    is_ascii_chars_encode_utf8, valid_utf8,
};

verus! {

/// The longest answer that is read.
pub const MAX_RESPONSE_BYTES: usize = 4194304;

/// How often a changed configuration is tried.
pub const SET_ATTEMPTS: u64 = 4;

/// A client of the tailscaled that listens on a socket.
#[derive(Debug)]
pub struct LocalApi {
    pub socket: String,
}

/// An answer.
#[derive(Debug)]
pub struct Response {
    pub status: u16,
    pub etag: Option<String>,
    pub body: Vec<u8>,
}

/// What a `Response` holds.
pub struct Answer {
    pub status: nat,
    pub etag: Option<Seq<char>>,
    pub body: Seq<u8>,
}

impl View for Response {
    type V = Answer;

    open spec fn view(&self) -> Answer {
        Answer {
            status: self.status as nat,
            etag: match self.etag {
                Some(etag) => Some(etag@),
                None => None,
            },
            body: self.body@,
        }
    }
}

// -------------------------------------------------------------------- heads

/// What the head of an answer says.
pub struct HeadFacts {
    pub status: nat,
    pub chunked: bool,
    pub etag: Option<Seq<char>>,
}

/// The status code on a status line: what stands between its first and second
/// space.
pub open spec fn status_code(line: Seq<char>) -> Option<nat> {
    let parts = split_char(line, ' ');
    if parts.len() > 1 {
        parse_decimal(parts[1], 65535)
    } else {
        None
    }
}

/// Whether the lines say that the body is chunked; the last one counts.
pub open spec fn chunked_in(lines: Seq<Seq<char>>) -> bool
    decreases lines.len(),
{
    if lines.len() == 0 {
        false
    } else {
        match split_once(lines.last(), ':') {
            Some((name, value)) => if same_letters(name, "transfer-encoding"@) {
                same_letters(trim(value), "chunked"@)
            } else {
                chunked_in(lines.drop_last())
            },
            None => chunked_in(lines.drop_last()),
        }
    }
}

/// The entity tag on the lines; the last one counts.
pub open spec fn etag_in(lines: Seq<Seq<char>>) -> Option<Seq<char>>
    decreases lines.len(),
{
    if lines.len() == 0 {
        None
    } else {
        match split_once(lines.last(), ':') {
            Some((name, value)) => if same_letters(name, "etag"@) {
                Some(trim(value))
            } else {
                etag_in(lines.drop_last())
            },
            None => etag_in(lines.drop_last()),
        }
    }
}

/// What a head says, or why it cannot be read.
pub open spec fn head_of(head: Seq<u8>) -> Result<HeadFacts, Seq<char>> {
    if !valid_utf8(head) {
        Err("invalid response head"@)
    } else {
        let lines = split_on(decode_utf8(head), "\r\n"@);
        match status_code(lines[0]) {
            None => Err("invalid response status"@),
            Some(status) => Ok(
                HeadFacts {
                    status,
                    chunked: chunked_in(lines.skip(1)),
                    etag: etag_in(lines.skip(1)),
                },
            ),
        }
    }
}

struct Head {
    status: u16,
    chunked: bool,
    etag: Option<String>,
}

impl View for Head {
    type V = HeadFacts;

    closed spec fn view(&self) -> HeadFacts {
        HeadFacts {
            status: self.status as nat,
            chunked: self.chunked,
            etag: match self.etag {
                Some(etag) => Some(etag@),
                None => None,
            },
        }
    }
}

fn read_status(line: &[char]) -> (r: Option<u16>)
    ensures
        match r {
            Some(status) => status_code(line@) == Some(status as nat),
            None => status_code(line@) is None,
        },
{
    let parts: Vec<Vec<char>> = split_at_char(line, ' ');
    assert(views(parts@).len() == parts@.len());
    if parts.len() > 1 {
        assert(views(parts@)[1] == parts@[1]@);
        port_number(parts[1].as_slice())
    } else {
        None
    }
}

fn parse_head(head: &[u8]) -> (r: Result<Head, String>)
    ensures
        match (r, head_of(head@)) {
            (Ok(facts), Ok(f)) => facts@ == f,
            (Err(error), Err(message)) => error@ == message,
            _ => false,
        },
{
    let text: String = match utf8(head) {
        Ok(text) => text,
        Err(_) => return Err("invalid response head".to_owned()),
    };
    let chars: Vec<char> = chars_of(text.as_str());
    let mark: Vec<char> = chars_of("\r\n");
    proof {
        reveal_strlit("\r\n");
    }
    let lines: Vec<Vec<char>> = split_text(chars.as_slice(), mark.as_slice());
    let ghost all = views(lines@);
    assert(all[0] == lines@[0]@);
    let status: u16 = match read_status(lines[0].as_slice()) {
        Some(status) => status,
        None => return Err("invalid response status".to_owned()),
    };
    let mut chunked: bool = false;
    let mut etag: Option<String> = None;
    let mut i: usize = 1;
    let ghost rest = all.skip(1);
    let coded: Vec<char> = chars_of("transfer-encoding");
    let pieces: Vec<char> = chars_of("chunked");
    let tag: Vec<char> = chars_of("etag");
    proof {
        assert(rest.take(0) =~= Seq::empty());
        reveal_strlit("etag");
        reveal_strlit("transfer-encoding");
        lemma_different_names();
    }
    while i < lines.len()
        invariant
            1 <= i <= lines@.len(),
            all == views(lines@),
            rest == all.skip(1),
            coded@ == "transfer-encoding"@,
            pieces@ == "chunked"@,
            tag@ == "etag"@,
            forall|name: Seq<char>|
                same_letters(name, "transfer-encoding"@) ==> !(#[trigger] same_letters(
                    name,
                    "etag"@,
                )),
            chunked == chunked_in(rest.take(i - 1)),
            match etag {
                Some(text) => etag_in(rest.take(i - 1)) == Some(text@),
                None => etag_in(rest.take(i - 1)) is None,
            },
        decreases lines@.len() - i,
    {
        assert(rest.take(i as int).drop_last() =~= rest.take(i - 1));
        assert(rest.take(i as int).last() == lines@[i as int]@);
        match split_first(lines[i].as_slice(), ':') {
            None => {},
            Some((name, value)) => {
                if same_ignoring_case(name, coded.as_slice()) {
                    chunked = same_ignoring_case(trimmed(value), pieces.as_slice());
                } else if same_ignoring_case(name, tag.as_slice()) {
                    etag = Some(string_of(trimmed(value)));
                }
                assert(same_letters(name@, "transfer-encoding"@) ==> !same_letters(
                    name@,
                    "etag"@,
                ));
            },
        }
        i = i + 1;
    }
    assert(rest.take(i - 1) =~= rest);
    Ok(Head { status, chunked, etag })
}

proof fn lemma_different_names()
    ensures
        forall|name: Seq<char>|
            same_letters(name, "transfer-encoding"@) ==> !(#[trigger] same_letters(
                name,
                "etag"@,
            )),
{
    reveal_strlit("etag");
    reveal_strlit("transfer-encoding");
    assert forall|name: Seq<char>| same_letters(name, "transfer-encoding"@) implies !(
    #[trigger] same_letters(name, "etag"@)) by {
        if same_letters(name, "etag"@) {
            let a = crate::text::lower_text("transfer-encoding"@);
            let b = crate::text::lower_text("etag"@);
            assert(a.len() == "transfer-encoding"@.len());
            assert(b.len() == "etag"@.len());
        }
    }
}

// ------------------------------------------------------------------- chunks

/// The size line of a chunk: hexadecimal digits, up to an extension.
pub open spec fn chunk_size(line: Seq<u8>) -> Option<nat> {
    if valid_utf8(line) {
        parse_radix(trim(before_any(decode_utf8(line), seq![';'])), 16, usize::MAX as nat)
    } else {
        None
    }
}

/// The payload of complete chunks, and whether the terminating zero-size chunk
/// was seen.
pub open spec fn chunks_of(data: Seq<u8>) -> Result<(Seq<u8>, bool), Seq<char>>
    decreases data.len(),
{
    match find_sub(data, line_break()) {
        None => Ok((Seq::empty(), false)),
        Some(end) => match chunk_size(data.take(end)) {
            None => Err("invalid chunk size"@),
            Some(size) => if size == 0 {
                Ok((Seq::empty(), true))
            } else if end + 2 + size > usize::MAX {
                Err("invalid chunk size"@)
            } else if data.len() < end + 2 + size + 2 {
                Ok((Seq::empty(), false))
            } else {
                proof {
                    lemma_find_sub_from(data, line_break(), 0);
                }
                match chunks_of(data.skip(end + 2 + size as int + 2)) {
                    Err(message) => Err(message),
                    Ok((rest, done)) => Ok(
                        (data.subrange(end + 2, end + 2 + size as int) + rest, done),
                    ),
                }
            },
        },
    }
}

fn read_size(line: &[u8]) -> (r: Option<usize>)
    ensures
        match r {
            Some(size) => chunk_size(line@) == Some(size as nat),
            None => chunk_size(line@) is None,
        },
{
    let text: String = match utf8(line) {
        Ok(text) => text,
        Err(_) => return None,
    };
    let chars: Vec<char> = chars_of(text.as_str());
    let mut ends: Vec<char> = Vec::new();
    ends.push(';');
    assert(ends@ =~= seq![';']);
    proof {
        lemma_find_any_from(chars@, ends@, 0);
    }
    let stop: usize = match find_any_char(chars.as_slice(), ends.as_slice()) {
        Some(index) => index,
        None => chars.len(),
    };
    let digits: &[char] = slice_subrange(chars.as_slice(), 0, stop);
    assert(digits@ =~= before_any(chars@, seq![';']));
    match number_of(trimmed(digits), 16, usize::MAX as u64) {
        Some(size) => Some(size as usize),
        None => None,
    }
}

/// Decodes complete chunks; returns the payload and whether the terminating
/// zero-size chunk was seen.
pub fn decode_chunks(data: &[u8]) -> (r: Result<(Vec<u8>, bool), String>)
    ensures
        match (r, chunks_of(data@)) {
            (Ok((payload, done)), Ok((p, d))) => payload@ == p && done == d,
            (Err(error), Err(message)) => error@ == message,
            _ => false,
        },
{
    let mut payload: Vec<u8> = Vec::new();
    let mut rest: &[u8] = data;
    let mut pattern: Vec<u8> = Vec::new();
    pattern.push(13);
    pattern.push(10);
    assert(pattern@ =~= line_break());
    proof {
        assert(payload@ + chunks_of(data@)->Ok_0.0 =~= chunks_of(data@)->Ok_0.0);
    }
    loop
        invariant
            pattern@ == line_break(),
            match (chunks_of(rest@), chunks_of(data@)) {
                (Ok((p, d)), Ok((q, e))) => payload@ + p == q && d == e,
                (Err(m), Err(n)) => m == n,
                _ => false,
            },
        decreases rest@.len(),
    {
        let n: usize = rest.len();
        let end: usize = match find_bytes(rest, pattern.as_slice()) {
            Some(end) => end,
            None => {
                assert(payload@ + Seq::<u8>::empty() =~= payload@);
                return Ok((payload, false));
            },
        };
        let line: &[u8] = slice_subrange(rest, 0, end);
        assert(line@ =~= rest@.take(end as int));
        let size: usize = match read_size(line) {
            Some(size) => size,
            None => return Err("invalid chunk size".to_owned()),
        };
        if size == 0 {
            assert(payload@ + Seq::<u8>::empty() =~= payload@);
            return Ok((payload, true));
        }
        let start: usize = end + 2;
        if size > usize::MAX - start {
            return Err("invalid chunk size".to_owned());
        }
        let stop: usize = start + size;
        if stop > n || n - stop < 2 {
            assert(payload@ + Seq::<u8>::empty() =~= payload@);
            return Ok((payload, false));
        }
        let ghost before = payload@;
        let chunk: &[u8] = slice_subrange(rest, start, stop);
        push_bytes(&mut payload, chunk);
        let next: &[u8] = slice_subrange(rest, stop + 2, n);
        assert(next@ =~= rest@.skip(end + 2 + size as int + 2));
        proof {
            if let Ok((p, d)) = chunks_of(next@) {
                assert(before + (chunk@ + p) =~= payload@ + p);
            }
        }
        rest = next;
    }
}

// ---------------------------------------------------------------- responses

/// The answer that raw bytes make, or why they make none.
pub open spec fn answer_of(raw: Seq<u8>) -> Result<Answer, Seq<char>> {
    match header_end(raw) {
        None => Err("truncated response"@),
        Some(end) => match head_of(raw.take(end + 4)) {
            Err(message) => Err(message),
            Ok(head) => if head.chunked {
                match chunks_of(raw.skip(end + 4)) {
                    Err(message) => Err(message),
                    Ok((payload, _)) => Ok(
                        Answer { status: head.status, etag: head.etag, body: payload },
                    ),
                }
            } else {
                Ok(Answer { status: head.status, etag: head.etag, body: raw.skip(end + 4) })
            },
        },
    }
}

/// Reads an answer.
pub fn parse_response(raw: &[u8]) -> (r: Result<Response, String>)
    ensures
        match (r, answer_of(raw@)) {
            (Ok(response), Ok(answer)) => response@ == answer,
            (Err(error), Err(message)) => error@ == message,
            _ => false,
        },
{
    let n: usize = raw.len();
    let end: usize = match find_header_end(raw) {
        Some(end) => end + 4,
        None => return Err("truncated response".to_owned()),
    };
    let top: &[u8] = slice_subrange(raw, 0, end);
    let rest: &[u8] = slice_subrange(raw, end, n);
    assert(top@ =~= raw@.take(end as int));
    assert(rest@ =~= raw@.skip(end as int));
    match parse_head(top) {
        Err(error) => Err(error),
        Ok(head) => {
            if head.chunked {
                match decode_chunks(rest) {
                    Err(error) => Err(error),
                    Ok((payload, _)) => Ok(
                        Response { status: head.status, etag: head.etag, body: payload },
                    ),
                }
            } else {
                let body: Vec<u8> = vstd::slice::slice_to_vec(rest);
                Ok(Response { status: head.status, etag: head.etag, body })
            }
        },
    }
}

/// The first line of a payload, where it has ended.
pub open spec fn first_line_of(payload: Seq<u8>) -> Option<Seq<u8>> {
    match find_sub(payload, seq![10u8]) {
        Some(i) => Some(payload.take(i)),
        None => None,
    }
}

/// The first newline-terminated notification of a watch response, once it has
/// fully arrived. There is none in an answer other than 200.
pub open spec fn notify_in(raw: Seq<u8>) -> Result<Option<Seq<u8>>, Seq<char>> {
    match header_end(raw) {
        None => Ok(None),
        Some(end) => match head_of(raw.take(end + 4)) {
            Err(message) => Err(message),
            Ok(head) => if head.status != 200 {
                Ok(None)
            } else if head.chunked {
                match chunks_of(raw.skip(end + 4)) {
                    Err(message) => Err(message),
                    Ok((payload, _)) => Ok(first_line_of(payload)),
                }
            } else {
                Ok(first_line_of(raw.skip(end + 4)))
            },
        },
    }
}

fn cut_line(payload: &[u8]) -> (r: Option<Vec<u8>>)
    ensures
        match r {
            Some(line) => first_line_of(payload@) == Some(line@),
            None => first_line_of(payload@) is None,
        },
{
    let mut pattern: Vec<u8> = Vec::new();
    pattern.push(10);
    assert(pattern@ =~= seq![10u8]);
    match find_bytes(payload, pattern.as_slice()) {
        Some(i) => {
            let line: &[u8] = slice_subrange(payload, 0, i);
            assert(line@ =~= payload@.take(i as int));
            Some(vstd::slice::slice_to_vec(line))
        },
        None => None,
    }
}

/// The first notification of a watch response, once it has fully arrived.
pub fn first_notify(raw: &[u8]) -> (r: Result<Option<Vec<u8>>, String>)
    ensures
        match (r, notify_in(raw@)) {
            (Ok(Some(line)), Ok(Some(l))) => line@ == l,
            (Ok(None), Ok(None)) => true,
            (Err(error), Err(message)) => error@ == message,
            _ => false,
        },
{
    let n: usize = raw.len();
    let end: usize = match find_header_end(raw) {
        Some(end) => end + 4,
        None => return Ok(None),
    };
    let top: &[u8] = slice_subrange(raw, 0, end);
    let rest: &[u8] = slice_subrange(raw, end, n);
    assert(top@ =~= raw@.take(end as int));
    assert(rest@ =~= raw@.skip(end as int));
    match parse_head(top) {
        Err(error) => Err(error),
        Ok(head) => {
            if head.status != 200 {
                Ok(None)
            } else if head.chunked {
                match decode_chunks(rest) {
                    Err(error) => Err(error),
                    Ok((payload, _)) => Ok(cut_line(payload.as_slice())),
                }
            } else {
                Ok(cut_line(rest))
            }
        },
    }
}

// ----------------------------------------------------------------- failures

/// What is said of an answer that is not the one hoped for. Where access was
/// denied, how an administrator can allow it.
pub open spec fn failure_text(answer: Answer, action: Seq<char>) -> Seq<char> {
    let text = trim(lossy_text(answer.body));
    if answer.status == 403 {
        action + ": tailscaled denied access ("@ + text
            + "); an administrator can allow it with: sudo tailscale set --operator=$USER"@
    } else {
        action + ": tailscaled answered "@ + decimal(answer.status) + " "@ + text
    }
}

/// What is said of an answer that is not the one hoped for.
pub fn describe_failure(response: &Response, action: &str) -> (r: String)
    ensures
        r@ == failure_text(response@, action@),
{
    let body: String = lossy(response.body.as_slice());
    let chars: Vec<char> = chars_of(body.as_str());
    let text: String = string_of(trimmed(chars.as_slice()));
    let mut message: String = action.to_owned();
    if response.status == 403 {
        message.append(": tailscaled denied access (");
        message.append(text.as_str());
        message.append(
            "); an administrator can allow it with: sudo tailscale set --operator=$USER",
        );
    } else {
        message.append(": tailscaled answered ");
        let status: String = decimal_string(response.status as u64);
        message.append(status.as_str());
        message.append(" ");
        message.append(text.as_str());
    }
    message
}

fn expect_ok(response: &Response, label: &str) -> (r: Result<(), String>)
    ensures
        match r {
            Ok(()) => response.status == 200,
            Err(error) => response.status != 200 && error@ == failure_text(
                response@,
                "read "@ + label@,
            ),
        },
{
    if response.status == 200 {
        return Ok(());
    }
    let mut action: String = "read ".to_owned();
    action.append(label);
    Err(describe_failure(response, action.as_str()))
}

// ----------------------------------------------------------------- exchanges

/// The head of a request. A body is JSON; a change names the version of what it
/// changes.
pub open spec fn request_head(
    method: Seq<char>,
    path: Seq<char>,
    if_match: Option<Seq<char>>,
    body: Option<Seq<u8>>,
) -> Seq<char> {
    method + " "@ + path
        + " HTTP/1.1\r\nHost: local-tailscaled.sock\r\nConnection: close\r\n"@ + (match if_match {
        Some(etag) => "If-Match: "@ + etag + "\r\n"@,
        None => ""@,
    }) + (match body {
        Some(bytes) => "Content-Type: application/json\r\nContent-Length: "@ + decimal(bytes.len())
            + "\r\n\r\n"@,
        None => "\r\n"@,
    })
}

/// The bytes of a request.
pub open spec fn request_bytes(
    method: Seq<char>,
    path: Seq<char>,
    if_match: Option<Seq<char>>,
    body: Option<Seq<u8>>,
) -> Seq<u8> {
    encode_utf8(request_head(method, path, if_match, body)) + match body {
        Some(bytes) => bytes,
        None => Seq::empty(),
    }
}

/// Writes a request.
pub fn build_request(method: &str, path: &str, if_match: Option<&str>, body: Option<&[u8]>) -> (r:
    Vec<u8>)
    ensures
        r@ == request_bytes(
            method@,
            path@,
            match if_match {
                Some(etag) => Some(etag@),
                None => None,
            },
            match body {
                Some(bytes) => Some(bytes@),
                None => None,
            },
        ),
{
    let mut head: String = method.to_owned();
    head.append(" ");
    head.append(path);
    head.append(" HTTP/1.1\r\nHost: local-tailscaled.sock\r\nConnection: close\r\n");
    let mut condition: String = "".to_owned();
    match if_match {
        Some(etag) => {
            condition = "If-Match: ".to_owned();
            condition.append(etag);
            condition.append("\r\n");
        },
        None => {},
    }
    head.append(condition.as_str());
    match body {
        Some(bytes) => {
            let mut fields: String =
                "Content-Type: application/json\r\nContent-Length: ".to_owned();
            let length: String = decimal_string(bytes.len() as u64);
            fields.append(length.as_str());
            fields.append("\r\n\r\n");
            head.append(fields.as_str());
            let mut out: Vec<u8> = bytes_of(head.as_str());
            push_bytes(&mut out, bytes);
            out
        },
        None => {
            head.append("\r\n");
            let out: Vec<u8> = bytes_of(head.as_str());
            assert(out@ + Seq::<u8>::empty() =~= out@);
            out
        },
    }
}

/// What came back over the socket.
pub enum Reply {
    /// The socket could not be connected to.
    Unreachable(String),
    /// The connection could not be set up.
    Unusable(String),
    /// Writing or reading failed.
    Broken(String),
    /// Everything up to the end, or to one byte over the limit.
    Bytes(Vec<u8>),
}

/// The answer to a request, or why there is none.
pub open spec fn exchanged(
    socket: Seq<char>,
    method: Seq<char>,
    path: Seq<char>,
    reply: Reply,
) -> Result<Answer, Seq<char>> {
    match reply {
        Reply::Unreachable(error) => Err(
            "connect to tailscaled at "@ + socket + ": "@ + error@,
        ),
        Reply::Unusable(error) => Err("configure tailscaled socket: "@ + error@),
        Reply::Broken(error) => Err(method + " "@ + path + ": "@ + error@),
        Reply::Bytes(raw) => if raw@.len() > MAX_RESPONSE_BYTES {
            Err(method + " "@ + path + ": "@ + "response too large"@)
        } else {
            match answer_of(raw@) {
                Ok(answer) => Ok(answer),
                Err(message) => Err(method + " "@ + path + ": "@ + message),
            }
        },
    }
}

/// The status text in an answer, or why there is none.
pub open spec fn status_in(answer: Result<Answer, Seq<char>>) -> Result<Seq<char>, Seq<char>> {
    match answer {
        Err(message) => Err(message),
        Ok(found) => if found.status != 200 {
            Err(failure_text(found, "read "@ + "status"@))
        } else if valid_utf8(found.body) {
            Ok(decode_utf8(found.body))
        } else {
            Err("parse status: "@ + utf8_error(found.body))
        },
    }
}

/// The Serve configuration text in an answer and its version, or why there is
/// none.
pub open spec fn config_in(answer: Result<Answer, Seq<char>>) -> Result<
    (Seq<char>, Seq<char>),
    Seq<char>,
> {
    match answer {
        Err(message) => Err(message),
        Ok(found) => if found.status != 200 {
            Err(failure_text(found, "read "@ + "Serve config"@))
        } else {
            match found.etag {
                None => Err("read Serve config: tailscaled sent no ETag"@),
                Some(etag) => if valid_utf8(found.body) {
                    Ok((decode_utf8(found.body), etag))
                } else {
                    Err("parse Serve config: "@ + utf8_error(found.body))
                },
            }
        },
    }
}

/// The path of the status.
pub open spec fn status_path() -> Seq<char> {
    "/localapi/v0/status?peers=false"@
}

/// The path of the Serve configuration.
pub open spec fn config_path() -> Seq<char> {
    "/localapi/v0/serve-config"@
}

fn about(method: &str, path: &str, error: &str) -> (r: String)
    ensures
        r@ == method@ + " "@ + path@ + ": "@ + error@,
{
    let mut message: String = method.to_owned();
    message.append(" ");
    message.append(path);
    message.append(": ");
    message.append(error);
    message
}

/// Where tailscaled listens: Linux distributions, then the open-source macOS
/// daemon. The macOS GUI app has no socket.
pub fn socket_paths() -> (r: Vec<String>)
    ensures
        texts(r@) == seq![
            "/run/tailscale/tailscaled.sock"@,
            "/var/run/tailscale/tailscaled.sock"@,
            "/var/run/tailscaled.socket"@,
        ],
{
    let mut out: Vec<String> = Vec::new();
    out.push("/run/tailscale/tailscaled.sock".to_owned());
    out.push("/var/run/tailscale/tailscaled.sock".to_owned());
    out.push("/var/run/tailscaled.socket".to_owned());
    assert(texts(out@) =~= seq![
        "/run/tailscale/tailscaled.sock"@,
        "/var/run/tailscale/tailscaled.sock"@,
        "/var/run/tailscaled.socket"@,
    ]);
    out
}

impl LocalApi {
    /// The client of the first path that is a socket, which the flag of each
    /// says.
    pub fn discover(paths: &Vec<(String, bool)>) -> (r: Option<LocalApi>)
        ensures
            match r {
                Some(api) => crate::tailscale::first_usable(paths@, 0) == Some(api.socket@),
                None => crate::tailscale::first_usable(paths@, 0) is None,
            },
    {
        let mut i: usize = 0;
        while i < paths.len()
            invariant
                i <= paths@.len(),
                crate::tailscale::first_usable(paths@, 0) == crate::tailscale::first_usable(
                    paths@,
                    i as int,
                ),
            decreases paths@.len() - i,
        {
            if paths[i].1 {
                return Some(LocalApi { socket: paths[i].0.clone() });
            }
            i = i + 1;
        }
        None
    }

    /// Reads what came back for a request.
    pub fn exchange(&self, method: &str, path: &str, reply: Reply) -> (r: Result<Response, String>)
        ensures
            match (r, exchanged(self.socket@, method@, path@, reply)) {
                (Ok(response), Ok(answer)) => response@ == answer,
                (Err(error), Err(message)) => error@ == message,
                _ => false,
            },
    {
        match reply {
            Reply::Unreachable(error) => {
                let mut message: String = "connect to tailscaled at ".to_owned();
                message.append(self.socket.as_str());
                message.append(": ");
                message.append(error.as_str());
                Err(message)
            },
            Reply::Unusable(error) => {
                let mut message: String = "configure tailscaled socket: ".to_owned();
                message.append(error.as_str());
                Err(message)
            },
            Reply::Broken(error) => Err(about(method, path, error.as_str())),
            Reply::Bytes(raw) => {
                if raw.len() > MAX_RESPONSE_BYTES {
                    return Err(about(method, path, "response too large"));
                }
                match parse_response(raw.as_slice()) {
                    Ok(response) => Ok(response),
                    Err(error) => Err(about(method, path, error.as_str())),
                }
            },
        }
    }

    /// The request for the status.
    pub fn status_request(&self) -> (r: Vec<u8>)
        ensures
            r@ == request_bytes("GET"@, status_path(), None, None),
    {
        build_request("GET", "/localapi/v0/status?peers=false", None, None)
    }

    /// The status, from what came back for its request.
    pub fn status(&self, reply: Reply) -> (r: Result<String, String>)
        ensures
            match (r, status_in(exchanged(self.socket@, "GET"@, status_path(), reply))) {
                (Ok(text), Ok(t)) => text@ == t,
                (Err(error), Err(message)) => error@ == message,
                _ => false,
            },
    {
        let response: Response = match self.exchange(
            "GET",
            "/localapi/v0/status?peers=false",
            reply,
        ) {
            Ok(response) => response,
            Err(error) => return Err(error),
        };
        match expect_ok(&response, "status") {
            Ok(()) => {},
            Err(error) => return Err(error),
        }
        match utf8(response.body.as_slice()) {
            Ok(text) => Ok(text),
            Err(error) => {
                let mut message: String = "parse status: ".to_owned();
                message.append(error.as_str());
                Err(message)
            },
        }
    }

    /// The request for the Serve configuration.
    pub fn serve_config_request(&self) -> (r: Vec<u8>)
        ensures
            r@ == request_bytes("GET"@, config_path(), None, None),
    {
        build_request("GET", "/localapi/v0/serve-config", None, None)
    }

    /// The Serve config JSON and its ETag, from what came back for its request.
    pub fn serve_config(&self, reply: Reply) -> (r: Result<(String, String), String>)
        ensures
            match (r, config_in(exchanged(self.socket@, "GET"@, config_path(), reply))) {
                (Ok((text, etag)), Ok((t, e))) => text@ == t && etag@ == e,
                (Err(error), Err(message)) => error@ == message,
                _ => false,
            },
    {
        let response: Response = match self.exchange("GET", "/localapi/v0/serve-config", reply) {
            Ok(response) => response,
            Err(error) => return Err(error),
        };
        match expect_ok(&response, "Serve config") {
            Ok(()) => {},
            Err(error) => return Err(error),
        }
        let etag: String = match response.etag {
            Some(etag) => etag,
            None => return Err("read Serve config: tailscaled sent no ETag".to_owned()),
        };
        match utf8(response.body.as_slice()) {
            Ok(text) => Ok((text, etag)),
            Err(error) => {
                let mut message: String = "parse Serve config: ".to_owned();
                message.append(error.as_str());
                Err(message)
            },
        }
    }
}

// ----------------------------------------------------------------- the watch

/// The mask of the watch: the initial state, which carries the session ID (2),
/// netmap updates at most every three seconds (256), and peer deltas in place of
/// full maps (4096).
pub const WATCH_MASK: u32 = 4354;

/// The request that opens a watch, and with it a session.
pub open spec fn watch_text() -> Seq<char> {
    "GET /localapi/v0/watch-ipn-bus?mask="@ + decimal(WATCH_MASK as nat)
        + " HTTP/1.1\r\nHost: local-tailscaled.sock\r\nConnection: close\r\n\r\n"@
}

/// The request that opens a watch. `Connection: close` makes an error answer end
/// the stream; a 200 watch stays open for as long as the session lives.
pub fn watch_request() -> (r: Vec<u8>)
    ensures
        r@ == encode_utf8(watch_text()),
{
    let mut text: String = "GET /localapi/v0/watch-ipn-bus?mask=".to_owned();
    let mask: String = decimal_string(WATCH_MASK as u64);
    text.append(mask.as_str());
    text.append(" HTTP/1.1\r\nHost: local-tailscaled.sock\r\nConnection: close\r\n\r\n");
    bytes_of(text.as_str())
}

/// What one read of a watch gave.
pub enum WatchEvent {
    Data(Vec<u8>),
    Closed,
    Interrupted,
    Failed(String),
}

/// Where a watch stands after a read.
pub enum WatchStep {
    More,
    /// The first notification.
    Line(Vec<u8>),
    Failed(String),
}

/// What a `WatchStep` holds.
pub enum Watched {
    More,
    Line(Seq<u8>),
    Failed(Seq<char>),
}

impl View for WatchStep {
    type V = Watched;

    open spec fn view(&self) -> Watched {
        match *self {
            WatchStep::More => Watched::More,
            WatchStep::Line(line) => Watched::Line(line@),
            WatchStep::Failed(error) => Watched::Failed(error@),
        }
    }
}

/// Where a watch stands with these bytes.
pub open spec fn watch_state(raw: Seq<u8>) -> Watched {
    match notify_in(raw) {
        Err(message) => Watched::Failed(message),
        Ok(Some(line)) => Watched::Line(line),
        Ok(None) => if raw.len() > MAX_RESPONSE_BYTES {
            Watched::Failed("watch tailscaled: response too large"@)
        } else {
            Watched::More
        },
    }
}

/// Where a watch stands when `event` follows `raw`. An answer that ends without
/// a notification says why.
pub open spec fn watch_step_of(raw: Seq<u8>, event: WatchEvent) -> Watched {
    match event {
        WatchEvent::Data(data) => watch_state(raw + data@),
        WatchEvent::Interrupted => Watched::More,
        WatchEvent::Failed(error) => Watched::Failed("watch tailscaled: "@ + error@),
        WatchEvent::Closed => match answer_of(raw) {
            Err(message) => Watched::Failed(message),
            Ok(answer) => Watched::Failed(failure_text(answer, "watch tailscaled"@)),
        },
    }
}

/// Takes in one read of a watch.
pub fn watch(raw: &mut Vec<u8>, event: WatchEvent) -> (r: WatchStep)
    ensures
        r@ == watch_step_of(old(raw)@, event),
        final(raw)@ == match event {
            WatchEvent::Data(data) => old(raw)@ + data@,
            _ => old(raw)@,
        },
{
    match event {
        WatchEvent::Data(data) => {
            push_bytes(raw, data.as_slice());
            match first_notify(raw.as_slice()) {
                Err(error) => WatchStep::Failed(error),
                Ok(Some(line)) => WatchStep::Line(line),
                Ok(None) => {
                    if raw.len() > MAX_RESPONSE_BYTES {
                        WatchStep::Failed("watch tailscaled: response too large".to_owned())
                    } else {
                        WatchStep::More
                    }
                },
            }
        },
        WatchEvent::Interrupted => WatchStep::More,
        WatchEvent::Failed(error) => {
            let mut message: String = "watch tailscaled: ".to_owned();
            message.append(error.as_str());
            WatchStep::Failed(message)
        },
        WatchEvent::Closed => match parse_response(raw.as_slice()) {
            Err(error) => WatchStep::Failed(error),
            Ok(response) => WatchStep::Failed(describe_failure(&response, "watch tailscaled")),
        },
    }
}

/// The session ID of a decoded notification, or why there is none.
pub fn session_id(decoded: Result<String, String>) -> (r: Result<String, String>)
    ensures
        match (r, decoded) {
            (Ok(id), Ok(found)) => id == found && found@.len() > 0,
            (Err(error), Err(cause)) => error@ == "parse tailscaled notification: "@ + cause@,
            (Err(error), Ok(found)) => found@.len() == 0 && error@
                == "tailscaled sent no Serve session ID"@,
            (Ok(_), Err(_)) => false,
        },
{
    match decoded {
        Err(error) => {
            let mut message: String = "parse tailscaled notification: ".to_owned();
            message.append(error.as_str());
            Err(message)
        },
        Ok(id) => {
            let chars: Vec<char> = chars_of(id.as_str());
            if chars.len() == 0 {
                Err("tailscaled sent no Serve session ID".to_owned())
            } else {
                Ok(id)
            }
        },
    }
}

/// What a read of an open session means: it goes on, nothing is left to read for
/// now, or tailscaled has ended it (restart, reset, or config change).
pub fn drain(event: &crate::proxy::ReadEvent) -> (r: Option<bool>)
    ensures
        r == match *event {
            crate::proxy::ReadEvent::Data(_) => None,
            crate::proxy::ReadEvent::Interrupted => None,
            crate::proxy::ReadEvent::TimedOut => Some(true),
            crate::proxy::ReadEvent::Closed => Some(false),
            crate::proxy::ReadEvent::Failed(_) => Some(false),
        },
{
    match event {
        crate::proxy::ReadEvent::Data(_) => None,
        crate::proxy::ReadEvent::Interrupted => None,
        crate::proxy::ReadEvent::TimedOut => Some(true),
        crate::proxy::ReadEvent::Closed => Some(false),
        crate::proxy::ReadEvent::Failed(_) => Some(false),
    }
}

// ----------------------------------------------------------------- the route

/// A foreground session that serves HTTPS on a port and proxies the authority's
/// root to the bridge.
pub open spec fn route_value(
    https_port: nat,
    authority: Seq<char>,
    bridge_url: Seq<char>,
) -> serde_json::Value {
    object_value(
        nothing().insert(
            "TCP"@,
            single(decimal(https_port), single("HTTPS"@, bool_value(true))),
        ).insert(
            "Web"@,
            single(
                authority,
                single("Handlers"@, single("/"@, single("Proxy"@, string_value(bridge_url)))),
            ),
        ),
    )
}

/// Whether `value` is an object with a single member, and this is it.
pub open spec fn has_just(
    value: serde_json::Value,
    name: Seq<char>,
    member: serde_json::Value,
) -> bool {
    object_members(value) == Some(nothing().insert(name, member))
}

/// Whether a value says, member by member, that HTTPS is served on a port and the
/// authority's root is proxied to the bridge, and nothing else.
pub open spec fn says_route(
    route: serde_json::Value,
    https_port: nat,
    authority: Seq<char>,
    bridge_url: Seq<char>,
) -> bool {
    let secure = single("HTTPS"@, bool_value(true));
    let tcp = single(decimal(https_port), secure);
    let proxy = string_value(bridge_url);
    let root = single("Proxy"@, proxy);
    let handlers = single("/"@, root);
    let host = single("Handlers"@, handlers);
    let web = single(authority, host);
    &&& object_members(route) == Some(nothing().insert("TCP"@, tcp).insert("Web"@, web))
    &&& has_just(tcp, decimal(https_port), secure)
    &&& has_just(web, authority, host)
    &&& has_just(host, "Handlers"@, handlers)
    &&& has_just(handlers, "/"@, root)
    &&& has_just(root, "Proxy"@, proxy)
    &&& string_text(proxy) == Some(bridge_url)
}

/// The members of a document; none where it is null.
pub open spec fn members_or_none(document: serde_json::Value) -> Option<
    Map<Seq<char>, serde_json::Value>,
> {
    if is_null_value(document) {
        Some(nothing())
    } else {
        object_members(document)
    }
}

/// The foreground sessions in a document's members.
pub open spec fn sessions_in(root: Map<Seq<char>, serde_json::Value>) -> Option<
    Map<Seq<char>, serde_json::Value>,
> {
    if root.dom().contains("Foreground"@) {
        members_or_none(root["Foreground"@])
    } else {
        Some(nothing())
    }
}

/// A document's members with one more foreground session; every other member,
/// and every other session, stays as it is.
pub open spec fn with_session(
    root: Map<Seq<char>, serde_json::Value>,
    sessions: Map<Seq<char>, serde_json::Value>,
    session: Seq<char>,
    route: serde_json::Value,
) -> Map<Seq<char>, serde_json::Value> {
    root.insert("Foreground"@, object_value(sessions.insert(session, route)))
}

/// `after` is the document `before` with one foreground session set: every other
/// member, and every other session, is there in both or in neither, and the same.
pub open spec fn route_added(
    before: serde_json::Value,
    after: serde_json::Value,
    session: Seq<char>,
    route: serde_json::Value,
) -> bool {
    match (members_or_none(before), object_members(after)) {
        (Some(root), Some(new_root)) => match sessions_in(root) {
            Some(sessions) => {
                &&& new_root.remove("Foreground"@) == root.remove("Foreground"@)
                &&& new_root.dom().contains("Foreground"@)
                &&& object_members(new_root["Foreground"@]) == Some(sessions.insert(session, route))
            },
            None => false,
        },
        _ => false,
    }
}

/// The document that a configuration becomes with this session's route, or why
/// it cannot take one.
pub open spec fn routed(
    config: Seq<char>,
    session: Seq<char>,
    https_port: nat,
    authority: Seq<char>,
    bridge_url: Seq<char>,
) -> Result<serde_json::Value, Seq<char>> {
    match read_value(config) {
        Err(error) => Err("parse Serve config: "@ + error),
        Ok(document) => match members_or_none(document) {
            None => Err("parse Serve config: expected an object"@),
            Some(root) => match sessions_in(root) {
                None => Err("parse Serve config: Foreground is not an object"@),
                Some(sessions) => Ok(
                    object_value(
                        with_session(
                            root,
                            sessions,
                            session,
                            route_value(https_port, authority, bridge_url),
                        ),
                    ),
                ),
            },
        },
    }
}

fn read_members(value: serde_json::Value) -> (r: Option<
    serde_json::Map<String, serde_json::Value>,
>)
    ensures
        match r {
            Some(map) => members_or_none(value) == Some(members(map)),
            None => members_or_none(value) is None,
        },
{
    if is_null(&value) {
        return Some(no_members());
    }
    match into_members(value) {
        Ok(map) => Some(map),
        Err(_) => None,
    }
}

fn make_route(https_port: u16, authority: &str, bridge_url: &str) -> (r: serde_json::Value)
    ensures
        r == route_value(https_port as nat, authority@, bridge_url@),
        says_route(r, https_port as nat, authority@, bridge_url@),
{
    let port: String = decimal_string(https_port as u64);
    let tcp: serde_json::Value = with_member(
        port.as_str(),
        with_member("HTTPS", boolean(true)),
    );
    let handlers: serde_json::Value = with_member(
        "/",
        with_member("Proxy", string(bridge_url)),
    );
    let web: serde_json::Value = with_member(authority, with_member("Handlers", handlers));
    let mut map: serde_json::Map<String, serde_json::Value> = no_members();
    set_member(&mut map, "TCP", tcp);
    set_member(&mut map, "Web", web);
    object(map)
}

/// Inserts this session's route into the config without touching any other
/// field: tailscaled decodes the body into its own struct, so the round trip
/// through a generic value keeps everything it sent.
pub fn with_foreground_route(
    config: &str,
    session: &str,
    https_port: u16,
    authority: &str,
    bridge_url: &str,
) -> (r: Result<String, String>)
    ensures
        match routed(config@, session@, https_port as nat, authority@, bridge_url@) {
            Err(message) => r matches Err(error) && error@ == message,
            Ok(document) => r matches Ok(text) && text@ == written_value(document),
        },
        routed(config@, session@, https_port as nat, authority@, bridge_url@) matches Ok(document)
            ==> ({
            let route = route_value(https_port as nat, authority@, bridge_url@);
            route_added(read_value(config@)->Ok_0, document, session@, route) && says_route(
                route,
                https_port as nat,
                authority@,
                bridge_url@,
            )
        }),
{
    let document: serde_json::Value = match read_json(config) {
        Ok(document) => document,
        Err(error) => {
            let mut message: String = "parse Serve config: ".to_owned();
            message.append(error.as_str());
            return Err(message);
        },
    };
    let mut root: serde_json::Map<String, serde_json::Value> = match read_members(document) {
        Some(map) => map,
        None => return Err("parse Serve config: expected an object".to_owned()),
    };
    let ghost whole = members(root);
    let foreground: Option<serde_json::Value> = take_member(&mut root, "Foreground");
    let mut sessions: serde_json::Map<String, serde_json::Value> = match foreground {
        None => no_members(),
        Some(value) => match read_members(value) {
            Some(map) => map,
            None => return Err("parse Serve config: Foreground is not an object".to_owned()),
        },
    };
    let ghost old_sessions = members(sessions);
    let route: serde_json::Value = make_route(https_port, authority, bridge_url);
    set_member(&mut sessions, session, route);
    let updated: serde_json::Value = object(sessions);
    set_member(&mut root, "Foreground", updated);
    assert(whole.remove("Foreground"@).insert("Foreground"@, updated) =~= with_session(
        whole,
        old_sessions,
        session@,
        route,
    ));
    let result: serde_json::Value = object(root);
    proof {
        let new_root = with_session(whole, old_sessions, session@, route);
        assert(new_root.remove("Foreground"@) =~= whole.remove("Foreground"@));
        assert(object_members(result) == Some(new_root));
        assert(new_root["Foreground"@] == updated);
    }
    match write_json(&result) {
        Ok(text) => Ok(text),
        Err(error) => {
            let mut message: String = "encode Serve config: ".to_owned();
            message.append(error.as_str());
            Err(message)
        },
    }
}

/// What is said when a port is taken.
pub open spec fn port_taken(https_port: nat) -> Seq<char> {
    "HTTPS port "@ + decimal(https_port)
        + " is already configured in Tailscale Serve; choose another with --https"@
}

/// What is said when a port is taken.
pub fn port_taken_message(https_port: u16) -> (r: String)
    ensures
        r@ == port_taken(https_port as nat),
{
    let mut message: String = "HTTPS port ".to_owned();
    let port: String = decimal_string(https_port as u64);
    message.append(port.as_str());
    message.append(" is already configured in Tailscale Serve; choose another with --https");
    message
}

/// The body that adds this session's route to the configuration that was read,
/// `decoded` being its document. A port in use is never taken over.
pub fn route_body(
    config: &str,
    decoded: Result<ServeConfig, String>,
    session: &str,
    https_port: u16,
    authority: &str,
    bridge_url: &str,
) -> (r: Result<String, String>)
    ensures
        match decoded {
            Err(cause) if document_in(config@) is Some => r matches Err(error) && error@
                == "unsupported Serve status: "@ + cause@,
            Ok(found) if document_in(config@) is Some && port_used(found, https_port as nat) =>
                r matches Err(error) && error@ == port_taken(https_port as nat),
            _ => match routed(config@, session@, https_port as nat, authority@, bridge_url@) {
                Err(message) => r matches Err(error) && error@ == message,
                Ok(document) => r matches Ok(text) && text@ == written_value(document),
            },
        },
{
    match parse_serve_config(config, decoded) {
        Err(error) => Err(error),
        Ok(found) => {
            proof {
                if document_in(config@) is None {
                    crate::tailscale::empty_config_is_free(
                        found,
                        https_port as nat,
                        authority@,
                        bridge_url@,
                    );
                }
            }
            if found.uses_port(https_port) {
                return Err(port_taken_message(https_port));
            }
            with_foreground_route(config, session, https_port, authority, bridge_url)
        },
    }
}

/// What an attempt to set the configuration leads to.
#[derive(Debug)]
pub enum RouteStep {
    Done,
    /// Read the configuration again after this many milliseconds: another client
    /// changed it between read and write.
    Retry(u64),
    Failed(String),
}

/// Judges the answer to attempt number `attempt`, counted from one, to set the
/// configuration.
pub fn open_route(attempt: u64, response: &Response) -> (r: RouteStep)
    requires
        1 <= attempt <= SET_ATTEMPTS,
    ensures
        if response.status == 200 {
            r is Done
        } else if response.status == 412 && attempt < SET_ATTEMPTS {
            r == RouteStep::Retry((100 * attempt) as u64)
        } else {
            r matches RouteStep::Failed(error) && error@ == failure_text(
                response@,
                "set Serve config"@,
            )
        },
{
    if response.status == 200 {
        RouteStep::Done
    } else if response.status == 412 && attempt < SET_ATTEMPTS {
        RouteStep::Retry(100 * attempt)
    } else {
        RouteStep::Failed(describe_failure(response, "set Serve config"))
    }
}

// --------------------------------------------------------------------- laws

/// Adding a route touches nothing else: each other member of the document is as
/// it was read, or still absent, and so is each other session, while this session
/// has the route.
pub proof fn other_fields_stay(
    before: serde_json::Value,
    after: serde_json::Value,
    session: Seq<char>,
    route: serde_json::Value,
    name: Seq<char>,
)
    requires
        route_added(before, after, session, route),
    ensures
        ({
            let root = members_or_none(before).unwrap();
            let new_root = object_members(after).unwrap();
            name != "Foreground"@ ==> (new_root.dom().contains(name) <==> root.dom().contains(name))
                && (root.dom().contains(name) ==> new_root[name] == root[name])
        }),
        ({
            let sessions = sessions_in(members_or_none(before).unwrap()).unwrap();
            let new_sessions = object_members(
                object_members(after).unwrap()["Foreground"@],
            ).unwrap();
            name != session ==> (new_sessions.dom().contains(name) <==> sessions.dom().contains(
                name,
            )) && (sessions.dom().contains(name) ==> new_sessions[name] == sessions[name])
        }),
        object_members(object_members(after).unwrap()["Foreground"@]).unwrap()[session] == route,
{
    let root = members_or_none(before).unwrap();
    let new_root = object_members(after).unwrap();
    let rest = root.remove("Foreground"@);
    if name != "Foreground"@ {
        assert(rest.dom().contains(name) <==> root.dom().contains(name));
        assert(rest.dom().contains(name) <==> new_root.dom().contains(name));
        if root.dom().contains(name) {
            assert(rest[name] == root[name]);
            assert(rest[name] == new_root[name]);
        }
    }
}

/// The members of a member that is an object; none where it is missing or none.
pub open spec fn members_at(value: serde_json::Value, name: Seq<char>) -> Map<
    Seq<char>,
    serde_json::Value,
> {
    match object_members(value) {
        Some(all) => if all.dom().contains(name) {
            match object_members(all[name]) {
                Some(inner) => inner,
                None => nothing(),
            }
        } else {
            nothing()
        },
        None => nothing(),
    }
}

/// Whether a handler holds what a value says: where it proxies to, an empty text
/// where that is not said.
pub open spec fn handler_reads(value: serde_json::Value, handler: WebHandler) -> bool {
    match object_members(value) {
        Some(all) => if all.dom().contains("Proxy"@) {
            string_text(all["Proxy"@]) == Some(handler.proxy@)
        } else {
            handler.proxy@.len() == 0
        },
        None => false,
    }
}

/// Whether a host's handlers hold what a value says.
pub open spec fn route_reads(value: serde_json::Value, route: WebRoute) -> bool {
    let handlers = members_at(value, "Handlers"@);
    &&& keys_in(route.handlers@).to_set() == handlers.dom()
    &&& forall|i: int|
        0 <= i < route.handlers@.len() ==> handler_reads(
            handlers[(#[trigger] route.handlers@[i]).0@],
            route.handlers@[i].1,
        )
}

/// Whether a configuration holds what a document says, member by member, a null
/// session as none.
pub open spec fn config_reads(value: serde_json::Value, config: ServeConfig) -> bool
    decreases config,
{
    let web = members_at(value, "Web"@);
    let sessions = members_at(value, "Foreground"@);
    &&& config.keys_once()
    &&& texts(config.tcp@).to_set() == members_at(value, "TCP"@).dom()
    &&& keys_in(config.web@).to_set() == web.dom()
    &&& forall|i: int|
        0 <= i < config.web@.len() ==> route_reads(
            web[(#[trigger] config.web@[i]).0@],
            config.web@[i].1,
        )
    &&& keys_in(config.allow_funnel@).to_set() == members_at(value, "AllowFunnel"@).dom()
    &&& keys_in(config.foreground@).to_set() == sessions.dom()
    &&& forall|i: int|
        0 <= i < config.foreground@.len() ==> match (#[trigger] config.foreground@[i]).1 {
            Some(session) => config_reads(sessions[config.foreground@[i].0@], session),
            None => object_members(sessions[config.foreground@[i].0@]) is None,
        }
}

proof fn lemma_key_at<V>(list: Seq<(String, V)>, key: Seq<char>) -> (i: int)
    requires
        keys_in(list).to_set().contains(key),
    ensures
        0 <= i < list.len(),
        list[i].0@ == key,
{
    let keys = keys_in(list);
    let i = choose|i: int| 0 <= i < keys.len() && keys[i] == key;
    assert(keys[i] == list[i].0@);
    i
}

/// A session that holds what a route says owns the route and uses its port.
proof fn lemma_route_owned(
    route: serde_json::Value,
    child: ServeConfig,
    https_port: nat,
    authority: Seq<char>,
    bridge_url: Seq<char>,
)
    requires
        says_route(route, https_port, authority, bridge_url),
        config_reads(route, child),
    ensures
        session_owns(Some(child), authority, bridge_url),
        own_port_used(child, https_port),
{
    reveal_strlit("TCP");
    reveal_strlit("Web");
    reveal_strlit("AllowFunnel");
    assert("TCP"@[0] == 'T' && "Web"@[0] == 'W' && "AllowFunnel"@[0] == 'A');
    let all = object_members(route).unwrap();
    let tcp = members_at(route, "TCP"@);
    assert(tcp.dom().contains(decimal(https_port)));
    let ports = texts(child.tcp@);
    assert(ports.to_set().contains(decimal(https_port)));
    let p = choose|p: int| 0 <= p < ports.len() && ports[p] == decimal(https_port);
    assert(child.tcp@[p]@ == decimal(https_port));
    let web = members_at(route, "Web"@);
    assert(web.dom().contains(authority));
    let k = lemma_key_at(child.web@, authority);
    lemma_first_route(child.web@, authority, k, 0);
    let m = choose|m: int|
        0 <= m < child.web@.len() && (#[trigger] child.web@[m]).0@ == authority && route_for(
            child.web@,
            authority,
            0,
        ) == Some(child.web@[m].1);
    let host = child.web@[m].1;
    assert(route_reads(web[authority], host));
    let paths = members_at(web[authority], "Handlers"@);
    assert(paths.dom().contains("/"@));
    let h = lemma_key_at(host.handlers@, "/"@);
    lemma_first_handler(host.handlers@, "/"@, h, 0);
    let n = choose|n: int|
        0 <= n < host.handlers@.len() && (#[trigger] host.handlers@[n]).0@ == "/"@ && handler_for(
            host.handlers@,
            "/"@,
            0,
        ) == Some(host.handlers@[n].1);
    assert(handler_reads(paths["/"@], host.handlers@[n].1));
    assert(members_at(route, "AllowFunnel"@) == nothing());
    if funnelled(child.allow_funnel@, authority) {
        let f = choose|f: int|
            0 <= f < child.allow_funnel@.len() && (#[trigger] child.allow_funnel@[f]).0@
                == authority;
        assert(keys_in(child.allow_funnel@)[f] == authority);
        assert(keys_in(child.allow_funnel@).to_set().contains(authority));
    }
}

proof fn lemma_first_route(web: Seq<(String, WebRoute)>, key: Seq<char>, k: int, i: int)
    requires
        0 <= i <= k < web.len(),
        web[k].0@ == key,
    ensures
        exists|m: int|
            i <= m < web.len() && (#[trigger] web[m]).0@ == key && route_for(web, key, i) == Some(
                web[m].1,
            ),
    decreases k - i,
{
    if web[i].0@ != key {
        lemma_first_route(web, key, k, i + 1);
    }
}

proof fn lemma_first_handler(
    handlers: Seq<(String, WebHandler)>,
    key: Seq<char>,
    k: int,
    i: int,
)
    requires
        0 <= i <= k < handlers.len(),
        handlers[k].0@ == key,
    ensures
        exists|m: int|
            i <= m < handlers.len() && (#[trigger] handlers[m]).0@ == key && handler_for(
                handlers,
                key,
                i,
            ) == Some(handlers[m].1),
    decreases k - i,
{
    if handlers[i].0@ != key {
        lemma_first_handler(handlers, key, k, i + 1);
    }
}

/// A route that was just added to a document is owned, and its port in use, in
/// every configuration that holds what the document says.
pub proof fn added_routes_are_owned(
    before: serde_json::Value,
    after: serde_json::Value,
    session: Seq<char>,
    https_port: nat,
    authority: Seq<char>,
    bridge_url: Seq<char>,
    config: ServeConfig,
)
    requires
        route_added(before, after, session, route_value(https_port, authority, bridge_url)),
        says_route(
            route_value(https_port, authority, bridge_url),
            https_port,
            authority,
            bridge_url,
        ),
        config_reads(after, config),
    ensures
        route_owned(config, authority, bridge_url),
        port_used(config, https_port),
{
    let route = route_value(https_port, authority, bridge_url);
    let sessions = members_at(after, "Foreground"@);
    assert(sessions.dom().contains(session) && sessions[session] == route);
    let i = lemma_key_at(config.foreground@, session);
    let child = config.foreground@[i].1.unwrap();
    assert(config.foreground@[i].1 is Some);
    lemma_route_owned(route, child, https_port, authority, bridge_url);
    assert(session_owns(config.foreground@[i].1, authority, bridge_url));
    assert(port_used(child, https_port));
    lemma_session_uses(config, https_port, i, 0);
}

/// A chunk as it is sent: its length in hexadecimal, a line break, the bytes, and
/// a line break.
pub open spec fn chunk_bytes(chunk: Seq<u8>) -> Seq<u8> {
    encode_utf8(radix_text(chunk.len(), 16)) + line_break() + chunk + line_break()
}

/// Chunks one after the other.
pub open spec fn sent_chunks(chunks: Seq<Seq<u8>>) -> Seq<u8>
    decreases chunks.len(),
{
    if chunks.len() == 0 {
        Seq::empty()
    } else {
        chunk_bytes(chunks[0]) + sent_chunks(chunks.skip(1))
    }
}

/// The payload of chunks.
pub open spec fn joined(chunks: Seq<Seq<u8>>) -> Seq<u8>
    decreases chunks.len(),
{
    if chunks.len() == 0 {
        Seq::empty()
    } else {
        chunks[0] + joined(chunks.skip(1))
    }
}

/// The chunk of size zero that ends a body, and the empty line behind it.
pub open spec fn end_chunk() -> Seq<u8> {
    seq![48u8, 13u8, 10u8, 13u8, 10u8]
}

/// No chunk is empty: an empty one would be the end.
pub open spec fn none_empty(chunks: Seq<Seq<u8>>) -> bool {
    forall|i: int| 0 <= i < chunks.len() ==> (#[trigger] chunks[i]).len() > 0
}

/// The size line of a chunk reads as its length, and holds no carriage return.
proof fn lemma_size_line(size: nat)
    requires
        size <= usize::MAX,
    ensures
        chunk_size(encode_utf8(radix_text(size, 16))) == Some(size),
        encode_utf8(radix_text(size, 16)).len() > 0,
        forall|i: int|
            0 <= i < encode_utf8(radix_text(size, 16)).len() ==> #[trigger] encode_utf8(
                radix_text(size, 16),
            )[i] != 13,
{
    let text = radix_text(size, 16);
    let line = encode_utf8(text);
    lemma_radix_roundtrip(size, 16);
    assert forall|i: int| 0 <= i < text.len() implies '0' <= #[trigger] text[i] <= 'z' && text[i]
        != ';' && !is_white(text[i]) by {
        assert(digit_value(text[i], 16) is Some);
    }
    assert(is_ascii_chars(text));
    is_ascii_chars_encode_utf8(text);
    assert forall|i: int| 0 <= i < line.len() implies #[trigger] line[i] != 13 by {
        assert(text[i] as u8 == line[i]);
    }
    encode_utf8_valid_utf8(text);
    encode_utf8_decode_utf8(text);
    lemma_find_any_from(text, seq![';'], 0);
    assert forall|i: int| 0 <= i < text.len() implies !seq![';'].contains(#[trigger] text[i]) by {
        assert(text[i] != ';');
    }
    assert(before_any(text, seq![';']) == text);
    assert(!is_white(text[text.len() - 1]));
    assert(trim_end(text) =~= text);
    assert(!is_white(text[0]));
    assert(trim_start(text) =~= text);
}

/// Where the first line of `line`, a line break and `rest` ends.
proof fn lemma_line_end(line: Seq<u8>, rest: Seq<u8>)
    requires
        forall|i: int| 0 <= i < line.len() ==> #[trigger] line[i] != 13,
    ensures
        find_sub(line + line_break() + rest, line_break()) == Some(line.len() as int),
        (line + line_break() + rest).take(line.len() as int) == line,
{
    let data = line + line_break() + rest;
    let n = line.len() as int;
    assert(data.subrange(n, n + 2) =~= line_break());
    assert(data.take(n) =~= line);
    assert forall|j: int| 0 <= j < n implies data[j] != 13 by {
        assert(data[j] == line[j]);
    }
    lemma_break_at(data, n);
}

proof fn lemma_break_at(data: Seq<u8>, n: int)
    requires
        0 <= n,
        n + 2 <= data.len(),
        data.subrange(n, n + 2) == line_break(),
        forall|j: int| 0 <= j < n ==> data[j] != 13,
    ensures
        find_sub(data, line_break()) == Some(n),
{
    lemma_find_sub_from(data, line_break(), 0);
    assert(occurs_at(data, line_break(), n));
    let k = find_sub(data, line_break())->Some_0;
    if k < n {
        assert(data.subrange(k, k + 2)[0] == data[k]);
    }
}

/// A complete chunk gives its bytes, and what follows is read on its own.
proof fn lemma_whole_chunk(chunk: Seq<u8>, rest: Seq<u8>)
    requires
        chunk.len() > 0,
        chunk_bytes(chunk).len() <= usize::MAX,
    ensures
        chunks_of(chunk_bytes(chunk) + rest) == match chunks_of(rest) {
            Ok((payload, done)) => Ok::<(Seq<u8>, bool), Seq<char>>((chunk + payload, done)),
            Err(message) => Err(message),
        },
{
    let line = encode_utf8(radix_text(chunk.len(), 16));
    let data = chunk_bytes(chunk) + rest;
    lemma_size_line(chunk.len());
    let tail = chunk + line_break() + rest;
    assert(data =~= line + line_break() + tail);
    lemma_line_end(line, tail);
    let end = line.len() as int;
    let size = chunk.len() as int;
    assert(data.subrange(end + 2, end + 2 + size) =~= chunk);
    assert(data.skip(end + 2 + size + 2) =~= rest);
}

/// A chunk that has not arrived whole gives nothing yet.
proof fn lemma_part_of_chunk(chunk: Seq<u8>, n: int)
    requires
        chunk.len() > 0,
        chunk_bytes(chunk).len() <= usize::MAX,
        0 <= n < chunk_bytes(chunk).len(),
    ensures
        chunks_of(chunk_bytes(chunk).take(n)) == Ok::<(Seq<u8>, bool), Seq<char>>(
            (Seq::empty(), false),
        ),
{
    let line = encode_utf8(radix_text(chunk.len(), 16));
    let data = chunk_bytes(chunk).take(n);
    lemma_size_line(chunk.len());
    let end = line.len() as int;
    if n < end + 2 {
        lemma_cut_line(line, data);
    } else {
        let tail = (chunk + line_break()).take(n - end - 2);
        assert(data =~= line + line_break() + tail);
        lemma_line_end(line, tail);
    }
}

/// What holds less than a line and its line break holds no line.
proof fn lemma_cut_line(line: Seq<u8>, data: Seq<u8>)
    requires
        forall|i: int| 0 <= i < line.len() ==> #[trigger] line[i] != 13,
        data.len() < line.len() + 2,
        forall|i: int| 0 <= i < data.len() && i < line.len() ==> #[trigger] data[i] == line[i],
    ensures
        find_sub(data, line_break()) is None,
{
    lemma_find_sub_from(data, line_break(), 0);
    if let Some(k) = find_sub(data, line_break()) {
        assert(occurs_at(data, line_break(), k));
        assert(data.subrange(k, k + 2)[0] == data[k]);
        assert(data[k] == line[k]);
    }
}

/// Chunks that were sent one after the other, and the end, decode to their
/// payload, and the end is seen.
pub proof fn sent_chunks_decode(chunks: Seq<Seq<u8>>)
    requires
        none_empty(chunks),
        (sent_chunks(chunks) + end_chunk()).len() <= usize::MAX,
    ensures
        chunks_of(sent_chunks(chunks) + end_chunk()) == Ok::<(Seq<u8>, bool), Seq<char>>(
            (joined(chunks), true),
        ),
    decreases chunks.len(),
{
    if chunks.len() == 0 {
        let zero = seq![48u8];
        let data = sent_chunks(chunks) + end_chunk();
        assert(radix_text(0, 16) =~= seq!['0']);
        lemma_size_line(0);
        is_ascii_chars_encode_utf8(seq!['0']);
        assert(encode_utf8(seq!['0']) =~= zero) by {
            assert(seq!['0'][0] as u8 == encode_utf8(seq!['0'])[0]);
        }
        assert(data =~= zero + line_break() + line_break());
        lemma_line_end(zero, line_break());
    } else {
        let more = chunks.skip(1);
        let rest = sent_chunks(more) + end_chunk();
        assert forall|i: int| 0 <= i < more.len() implies (#[trigger] more[i]).len() > 0 by {
            assert(more[i] == chunks[i + 1]);
        }
        assert(chunks[0].len() > 0);
        assert(sent_chunks(chunks) + end_chunk() =~= chunk_bytes(chunks[0]) + rest);
        sent_chunks_decode(more);
        lemma_whole_chunk(chunks[0], rest);
    }
}

/// What arrived of chunks before their end was complete decodes to the chunks
/// that arrived whole, the first `m` of them, and the end is not seen.
pub proof fn cut_off_chunks_decode(chunks: Seq<Seq<u8>>, n: int, m: int)
    requires
        none_empty(chunks),
        (sent_chunks(chunks) + end_chunk()).len() <= usize::MAX,
        0 <= m <= chunks.len(),
        sent_chunks(chunks.take(m)).len() <= n <= (sent_chunks(chunks) + end_chunk()).len(),
        m < chunks.len() ==> n < sent_chunks(chunks.take(m + 1)).len(),
        m == chunks.len() ==> n < sent_chunks(chunks).len() + 3,
    ensures
        chunks_of((sent_chunks(chunks) + end_chunk()).take(n)) == Ok::<
            (Seq<u8>, bool),
            Seq<char>,
        >((joined(chunks.take(m)), false)),
    decreases chunks.len(),
{
    let data = (sent_chunks(chunks) + end_chunk()).take(n);
    assert(chunks.take(0) =~= Seq::empty());
    assert(chunks.take(chunks.len() as int) =~= chunks);
    if chunks.len() == 0 {
        lemma_cut_line(seq![48u8], data);
    } else {
        let first = chunks[0];
        let more = chunks.skip(1);
        let rest = sent_chunks(more) + end_chunk();
        assert(first.len() > 0);
        assert(sent_chunks(chunks) + end_chunk() =~= chunk_bytes(first) + rest);
        if m == 0 {
            let one = chunks.take(1);
            assert(one.skip(1) =~= Seq::empty());
            assert(sent_chunks(one) =~= chunk_bytes(first));
            assert(data =~= chunk_bytes(first).take(n));
            lemma_part_of_chunk(first, n);
        } else {
            let size = chunk_bytes(first).len() as int;
            assert forall|i: int| 0 <= i < more.len() implies (#[trigger] more[i]).len() > 0 by {
                assert(more[i] == chunks[i + 1]);
            }
            assert(chunks.take(m).skip(1) =~= more.take(m - 1));
            assert(chunks.take(m)[0] == first);
            if m < chunks.len() {
                assert(chunks.take(m + 1).skip(1) =~= more.take(m));
                assert(chunks.take(m + 1)[0] == first);
            }
            assert(more.len() == chunks.len() - 1);
            assert(sent_chunks(chunks.take(m)).len() == size + sent_chunks(more.take(m - 1)).len());
            cut_off_chunks_decode(more, n - size, m - 1);
            assert(data =~= chunk_bytes(first) + rest.take(n - size));
            lemma_whole_chunk(first, rest.take(n - size));
            assert(joined(chunks.take(m)) == first + joined(more.take(m - 1)));
        }
    }
}

} // verus!
