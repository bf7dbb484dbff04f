//! The bridge at work: when a head is complete, what becomes of a body, whose
//! requests pass, and what the browser is told.

use crate::bytes::{blank_line, header_end, line_break, lossy_text};
use crate::cli::{authority_ends, host_port, url_authority};
use crate::laws::bridge::{
    fit_lines, fits_a_line, head_text, lemma_written_one, lemma_written_sum,
    requests_are_forwarded_as_they_came, requests_are_read, written,
};
use crate::laws::session::answer_text;
use crate::laws::texts::{
    a_first_line_comes_first, all_white, before_the_first_of, found_first_at, found_where_it_stands,
    no_white, split_last_at, split_nowhere, stripping_undoes_putting, tight, trailing_characters_go,
    trimming_takes_white_space_alone,
};
use crate::number::decimal;
use crate::proxy::{
    answer, body_length, buffered_after, first_line, head_error_answer, head_step, header_of,
    is_host_line, lists_token, local_path, origin_ok, plan_is, plan_of, public_head, public_line,
    public_lines, request_of, response_step, upgrade_bytes, with_host, Plan, Progress, ReadEvent,
    Reply, RequestPlan, Route,
};
use crate::text::{
    find_sub, has_prefix, lower_text, occurs_at, same_letters, split_on, strip_prefix,
};
use vstd::prelude::*;
use vstd::utf8::encode_utf8;

verus! {

// -------------------------------------------------------------------- heads

/// Whether the empty line behind `front` is the first.
pub open spec fn no_empty_line_before(front: Seq<u8>) -> bool {
    forall|j: int| 0 <= j < front.len() ==> !occurs_at(front + blank_line(), blank_line(), j)
}

/// A head ends at its first empty line, whatever follows.
pub proof fn heads_end_at_the_first_empty_line(front: Seq<u8>, more: Seq<u8>)
    requires
        no_empty_line_before(front),
    ensures
        header_end(front + blank_line() + more) == Some(front.len() as int),
{
    let data = front + blank_line() + more;
    let head = front + blank_line();
    let blank = blank_line();
    let n = front.len() as int;
    assert forall|j: int| 0 <= j < n implies !#[trigger] occurs_at(data, blank, j) by {
        if occurs_at(data, blank, j) {
            lemma_occurs_earlier(head, more, blank, j);
            assert(occurs_at(front + blank_line(), blank_line(), j));
        }
    }
    assert(data.subrange(n, n + 4) =~= blank);
    found_first_at(data, blank, n);
}

proof fn lemma_occurs_earlier(head: Seq<u8>, more: Seq<u8>, pattern: Seq<u8>, j: int)
    requires
        occurs_at(head + more, pattern, j),
        j + pattern.len() <= head.len(),
    ensures
        occurs_at(head, pattern, j),
{
    assert(head.subrange(j, j + pattern.len()) =~= (head + more).subrange(j, j + pattern.len()));
}

/// Whether no part of `bytes` is an empty line.
pub open spec fn no_empty_line(bytes: Seq<u8>) -> bool {
    forall|j: int| 0 <= j ==> !occurs_at(bytes, blank_line(), j)
}

/// A head without an empty line has no end.
pub proof fn lemma_no_end(bytes: Seq<u8>)
    ensures
        no_empty_line(bytes) == (header_end(bytes) is None),
{
    found_where_it_stands(bytes, blank_line());
}

/// A head is read on until its empty line has come, in however many pieces: the
/// request is that of all bytes together. Without an empty line, 32 KiB are
/// waited for and no more; a connection that ends in between is told from one
/// that never said anything.
pub proof fn heads_may_come_in_pieces(
    buffered: Seq<u8>,
    piece: Vec<u8>,
    whole: Vec<u8>,
)
    requires
        whole@ == buffered + piece@,
    ensures
        head_step(buffered, ReadEvent::Data(piece)) == head_step(
            Seq::empty(),
            ReadEvent::Data(whole),
        ),
        no_empty_line(whole@) && whole@.len() <= 32 * 1024 ==> head_step(
            buffered,
            ReadEvent::Data(piece),
        ) is More,
        no_empty_line(whole@) && whole@.len() > 32 * 1024 ==> head_step(
            buffered,
            ReadEvent::Data(piece),
        ) == Progress::Failed("request head too large"@),
        head_step(buffered, ReadEvent::Interrupted) is More,
        head_step(buffered, ReadEvent::TimedOut) is Failed,
        head_step(buffered, ReadEvent::Closed) is Nothing <==> buffered.len() == 0,
        head_step(buffered, ReadEvent::Closed) is Failed <==> buffered.len() > 0,
{
    assert(Seq::<u8>::empty() + whole@ =~= whole@);
    lemma_no_end(whole@);
}

/// Once its empty line is there, a head that was put together of a method, a
/// target, a version and headers makes the request that they say.
pub proof fn complete_heads_make_their_request(
    buffered: Seq<u8>,
    piece: Vec<u8>,
    front: Seq<u8>,
    part: Seq<u8>,
    method: Seq<char>,
    target: Seq<char>,
    version: Seq<char>,
    headers: Seq<(Seq<char>, Seq<char>)>,
    more: Seq<char>,
)
    requires
        buffered + piece@ == front + blank_line() + part,
        no_empty_line_before(front),
        lossy_text(buffered + piece@) == head_text(method, target, version, headers) + more,
        method.len() > 0 && no_white(method),
        target.len() > 0 && no_white(target),
        no_white(version),
        has_prefix(version, "HTTP/"@),
        fit_lines(headers),
    ensures
        head_step(buffered, ReadEvent::Data(piece)) matches Progress::Complete(request)
            && request.method == method && request.headers == headers && request.bytes == buffered
            + piece@,
{
    heads_end_at_the_first_empty_line(front, part);
    requests_are_read(buffered + piece@, method, target, version, headers, more);
}

// ------------------------------------------------------------------- bodies

/// A request reaches the development server with the part of its body that came
/// with the head, byte for byte, and as much is still read as its length says.
/// Over 16 MiB it is refused, and so is a chunked body without a length.
pub proof fn bodies_follow_their_head(
    bytes: Seq<u8>,
    front: Seq<u8>,
    part: Seq<u8>,
    method: Seq<char>,
    target: Seq<char>,
    version: Seq<char>,
    headers: Seq<(Seq<char>, Seq<char>)>,
    more: Seq<char>,
    route: Route,
)
    requires
        bytes == front + blank_line() + part,
        no_empty_line_before(front),
        lossy_text(bytes) == head_text(method, target, version, headers) + more,
        method.len() > 0 && no_white(method),
        target.len() > 0 && no_white(target),
        no_white(version),
        has_prefix(version, "HTTP/"@),
        fit_lines(headers),
    ensures
        ({
            let plan = plan_of(request_of(bytes)->Ok_0, route);
            let chunked = header_of(headers, "Transfer-Encoding"@) matches Some(value)
                && lists_token(value, "chunked"@);
            let length = match body_length(headers) {
                Some(length) => length,
                None => 0,
            };
            &&& request_of(bytes) is Ok
            &&& chunked && body_length(headers) is None ==> plan == Plan::Refuse(
                answer(411, "Length Required"@),
            )
            &&& length > 16 * 1024 * 1024 ==> plan == Plan::Refuse(
                answer(413, "Payload Too Large"@),
            )
            &&& length <= 16 * 1024 * 1024 && !(chunked && body_length(headers) is None) ==> (
            plan matches Plan::Forward { request, body, remaining } && has_prefix(
                request,
                method + " "@ + target + " HTTP/1.0\r\n"@,
            ) && body == part && remaining + part.len() == (if length > part.len() {
                length
            } else {
                part.len()
            }))
        }),
{
    heads_end_at_the_first_empty_line(front, part);
    requests_are_read(bytes, method, target, version, headers, more);
    let length = match body_length(headers) {
        Some(length) => length,
        None => 0,
    };
    requests_are_forwarded_as_they_came(
        bytes,
        method,
        target,
        version,
        headers,
        more,
        length,
        route,
    );
    assert(bytes.skip(front.len() as int + 4) =~= part);
}

// ------------------------------------------------------------------ answers

/// The answers that the bridge gives by itself say their status and reason, that
/// they are plain text, how long they are, and what is the matter.
#[verifier::rlimit(40)]
pub proof fn own_answers_are_spelled_out(status: nat, phrase: Seq<char>, message: Seq<char>)
    requires
        (status, phrase) == (400nat, "Bad Request"@) || (status, phrase) == (403nat, "Forbidden"@)
            || (status, phrase) == (411nat, "Length Required"@) || (status, phrase) == (
            413nat,
            "Payload Too Large"@,
        ) || (status, phrase) == (431nat, "Request Header Fields Too Large"@) || (status, phrase)
            == (502nat, "Bad Gateway"@) || (status != 400 && status != 403 && status != 411
            && status != 413 && status != 431 && status != 502 && phrase == "Error"@),
    ensures
        answer(status, message) == answer_text(
            "HTTP/1.1"@,
            status,
            phrase,
            seq![
                ("Content-Type"@, "text/plain; charset=utf-8"@),
                ("Content-Length"@, decimal(encode_utf8(message + "\n"@).len())),
                ("Connection"@, "close"@),
            ],
        ) + message + "\n"@,
{
    reveal_strlit("HTTP/1.1");
    reveal_strlit("HTTP/1.1 ");
    reveal_strlit(" ");
    reveal_strlit(": ");
    reveal_strlit("\r\n");
    reveal_strlit("Content-Type");
    reveal_strlit("text/plain; charset=utf-8");
    reveal_strlit("Content-Length");
    reveal_strlit("Connection");
    reveal_strlit("close");
    reveal_strlit("\r\nContent-Type: text/plain; charset=utf-8\r\nContent-Length: ");
    reveal_strlit("\r\nConnection: close\r\n\r\n");
    let size = decimal(encode_utf8(message + "\n"@).len());
    let a = ("Content-Type"@, "text/plain; charset=utf-8"@);
    let b = ("Content-Length"@, size);
    let c = ("Connection"@, "close"@);
    lemma_written_sum(seq![a], seq![b]);
    lemma_written_sum(seq![a] + seq![b], seq![c]);
    lemma_written_one(a);
    lemma_written_one(b);
    lemma_written_one(c);
    assert(seq![a, b, c] =~= seq![a] + seq![b] + seq![c]);
    let lines = "\r\nContent-Type: text/plain; charset=utf-8\r\nContent-Length: "@ + size
        + "\r\nConnection: close\r\n\r\n"@;
    assert(lines =~= "\r\n"@ + written(seq![a, b, c]) + "\r\n"@);
    assert(answer(status, message) =~= "HTTP/1.1 "@ + decimal(status) + " "@ + phrase + lines
        + message + "\n"@);
    assert(answer(status, message) =~= answer_text("HTTP/1.1"@, status, phrase, seq![a, b, c])
        + message + "\n"@);
}

/// A head that is too large is told so; any other that cannot be read is a bad
/// request.
pub proof fn unreadable_heads_are_told_why(before: Seq<char>, after: Seq<char>, other: Seq<char>)
    requires
        forall|j: int| 0 <= j ==> !occurs_at(other, "too large"@, j),
    ensures
        head_error_answer(before + "too large"@ + after) == answer(431, "Bad Request"@),
        head_error_answer(other) == answer(400, "Bad Request"@),
{
    reveal_strlit("too large");
    let mark = "too large"@;
    let error = before + mark + after;
    let n = before.len() as int;
    assert(error.subrange(n, n + mark.len()) =~= mark);
    assert(occurs_at(error, mark, n));
    found_where_it_stands(error, mark);
    found_where_it_stands(other, mark);
}

// ----------------------------------------------------------------- origins

/// The route's own https site is accepted as an origin, letter case aside, with
/// or without its port, with trailing dots, and with whatever follows the
/// authority.
#[verifier::spinoff_prover]
#[verifier::rlimit(40)]
pub proof fn own_origins_are_accepted(
    host: Seq<char>,
    port: Seq<char>,
    written_host: Seq<char>,
    dots: nat,
    tail: Seq<char>,
)
    requires
        host.len() > 0,
        !port.contains(':'),
        same_letters(written_host, host),
        !written_host.contains(':'),
        written_host.last() != '.',
        port.len() > 0 && port.last() != '.',
        forall|i: int|
            0 <= i < written_host.len() ==> !authority_ends().contains(#[trigger] written_host[i]),
        forall|i: int| 0 <= i < port.len() ==> !authority_ends().contains(#[trigger] port[i]),
        tail.len() == 0 || authority_ends().contains(tail[0]),
    ensures
        ({
            let dotted = Seq::new(dots, |i: int| '.');
            let authority = host + ":"@ + port;
            &&& origin_ok("https://"@ + written_host + ":"@ + port + dotted + tail, authority)
            &&& origin_ok("https://"@ + written_host + dotted + tail, authority)
            &&& origin_ok("https://"@ + written_host + dotted + tail, host)
        }),
{
    reveal_strlit(":");
    let dotted = Seq::new(dots, |i: int| '.');
    let colon = seq![':'];
    assert(":"@ =~= colon);
    let authority = host + ":"@ + port;
    assert(written_host.len() == host.len()) by {
        assert(lower_text(written_host).len() == written_host.len());
        assert(lower_text(host).len() == host.len());
    }
    assert(!host.contains(':')) by {
        if host.contains(':') {
            let k = choose|k: int| 0 <= k < host.len() && host[k] == ':';
            assert(lower_text(host)[k] == ':');
            assert(lower_text(written_host)[k] == ':');
            crate::laws::texts::capitals_go_with_their_letters(written_host[k], ':');
            assert(written_host[k] == ':');
        }
    }
    assert(lower_text(written_host + ":"@ + port) =~= lower_text(authority)) by {
        assert(lower_text(written_host + ":"@ + port) =~= lower_text(written_host) + lower_text(
            colon,
        ) + lower_text(port));
        assert(lower_text(authority) =~= lower_text(host) + lower_text(colon) + lower_text(port));
    }
    lemma_origin(written_host + ":"@ + port, dots, tail);
    lemma_origin(written_host, dots, tail);
    let full = written_host + ":"@ + port + dotted + tail;
    stripping_undoes_putting("https://"@, full);
    assert("https://"@ + full =~= "https://"@ + written_host + ":"@ + port + dotted + tail);
    let bare = written_host + dotted + tail;
    stripping_undoes_putting("https://"@, bare);
    assert("https://"@ + bare =~= "https://"@ + written_host + dotted + tail);
    split_nowhere(written_host, ':');
    split_nowhere(host, ':');
    split_last_at(host, ':', port);
    assert(authority =~= host + colon + port);
}

proof fn lemma_origin(own: Seq<char>, dots: nat, tail: Seq<char>)
    requires
        own.len() > 0,
        own.last() != '.',
        forall|i: int| 0 <= i < own.len() ==> !authority_ends().contains(#[trigger] own[i]),
        tail.len() == 0 || authority_ends().contains(tail[0]),
    ensures
        crate::proxy::origin_authority(own + Seq::new(dots, |i: int| '.') + tail) == own,
{
    let dotted = Seq::new(dots, |i: int| '.');
    let ends = authority_ends();
    let long = own + dotted;
    assert forall|i: int| 0 <= i < long.len() implies !ends.contains(#[trigger] long[i]) by {
        if i < own.len() {
            assert(long[i] == own[i]);
        } else {
            assert(long[i] == '.');
            if ends.contains('.') {
                let k = choose|k: int| 0 <= k < ends.len() && ends[k] == '.';
            }
        }
    }
    before_the_first_of(long, ends, tail);
    trailing_characters_go(own, '.', dots);
}

/// An origin of any other scheme is refused, and so is one on another host or
/// another port.
pub proof fn other_origins_are_refused(
    host: Seq<char>,
    port: Seq<char>,
    other: Seq<char>,
    other_port: Seq<char>,
    tail: Seq<char>,
    any: Seq<char>,
)
    requires
        !has_prefix(any, "https://"@),
        !port.contains(':'),
        !other.contains(':'),
        !other_port.contains(':'),
        other.len() > 0 && other.last() != '.',
        other_port.len() > 0 && other_port.last() != '.',
        forall|i: int| 0 <= i < other.len() ==> !authority_ends().contains(#[trigger] other[i]),
        forall|i: int|
            0 <= i < other_port.len() ==> !authority_ends().contains(#[trigger] other_port[i]),
        tail.len() == 0 || authority_ends().contains(tail[0]),
        !host.contains(':'),
    ensures
        !origin_ok(any, host + ":"@ + port),
        !same_letters(other, host) ==> !origin_ok("https://"@ + other + tail, host + ":"@ + port),
        !same_letters(other, host) || !same_letters(other_port, port) ==> !origin_ok(
            "https://"@ + other + ":"@ + other_port + tail,
            host + ":"@ + port,
        ),
{
    reveal_strlit(":");
    let colon = seq![':'];
    assert(":"@ =~= colon);
    let authority = host + ":"@ + port;
    let none = Seq::new(0, |i: int| '.');
    lemma_origin(other, 0, tail);
    lemma_origin(other + ":"@ + other_port, 0, tail);
    assert(other + none + tail =~= other + tail);
    assert(other + ":"@ + other_port + none + tail =~= other + ":"@ + other_port + tail);
    stripping_undoes_putting("https://"@, other + tail);
    stripping_undoes_putting("https://"@, other + ":"@ + other_port + tail);
    assert("https://"@ + (other + tail) =~= "https://"@ + other + tail);
    assert("https://"@ + (other + ":"@ + other_port + tail) =~= "https://"@ + other + ":"@
        + other_port + tail);
    split_nowhere(other, ':');
    split_last_at(host, ':', port);
    assert(authority =~= host + colon + port);
    split_last_at(other, ':', other_port);
    assert(other + ":"@ + other_port =~= other + colon + other_port);
    lemma_letters(other, host, port);
    lemma_two_parts(other, other_port, host, port);
}

/// A text without a colon has other letters than one with a colon.
proof fn lemma_letters(s: Seq<char>, host: Seq<char>, port: Seq<char>)
    requires
        !s.contains(':'),
    ensures
        !same_letters(s, host + seq![':'] + port),
{
    let t = host + seq![':'] + port;
    if same_letters(s, t) {
        let k = host.len() as int;
        assert(lower_text(s).len() == s.len() && lower_text(t).len() == t.len());
        assert(lower_text(t)[k] == ':');
        assert(lower_text(s)[k] == ':');
        crate::laws::texts::capitals_go_with_their_letters(s[k], ':');
        assert(s[k] == ':');
    }
}

proof fn lemma_two_parts(a: Seq<char>, b: Seq<char>, host: Seq<char>, port: Seq<char>)
    requires
        !a.contains(':'),
        !host.contains(':'),
    ensures
        same_letters(a + seq![':'] + b, host + seq![':'] + port) ==> same_letters(a, host)
            && same_letters(b, port),
{
    let s = a + seq![':'] + b;
    let t = host + seq![':'] + port;
    if same_letters(s, t) {
        assert(lower_text(s).len() == s.len() && lower_text(t).len() == t.len());
        if a.len() < host.len() {
            let k = a.len() as int;
            assert(lower_text(s)[k] == ':');
            assert(lower_text(t)[k] == ':');
            assert(t[k] == host[k]);
            crate::laws::texts::capitals_go_with_their_letters(host[k], ':');
        } else if a.len() > host.len() {
            let k = host.len() as int;
            assert(lower_text(t)[k] == ':');
            assert(lower_text(s)[k] == ':');
            assert(s[k] == a[k]);
            crate::laws::texts::capitals_go_with_their_letters(a[k], ':');
        }
        assert(a.len() == host.len());
        assert forall|i: int| 0 <= i < a.len() implies lower_text(a)[i] == lower_text(host)[i] by {
            assert(lower_text(s)[i] == lower_text(t)[i]);
            assert(s[i] == a[i] && t[i] == host[i]);
        }
        assert(lower_text(a) =~= lower_text(host));
        let n = a.len() + 1;
        assert forall|i: int| 0 <= i < b.len() implies lower_text(b)[i] == lower_text(port)[i] by {
            assert(lower_text(s)[n + i] == lower_text(t)[n + i]);
            assert(s[n + i] == b[i] && t[n + i] == port[i]);
        }
        assert(lower_text(b) =~= lower_text(port));
    }
}

// ---------------------------------------------------------------- locations

/// A redirect to the development server is sent to the public site, with its
/// path, query and fragment as they are.
pub proof fn own_redirects_become_public(
    before: Seq<char>,
    path: Seq<char>,
    after: Seq<char>,
    route: Route,
)
    requires
        all_white(before),
        all_white(after),
        path.len() == 0 || (path[0] == '/' || path[0] == '?' || path[0] == '#'),
        tight("http://"@ + url_authority(route.target) + path),
        tight("http://"@ + host_port(route.target) + path),
    ensures
        ({
            let public = "Location: https://"@ + route.authority + path;
            let own = "http://"@ + url_authority(route.target) + path;
            let plain = "http://"@ + host_port(route.target) + path;
            &&& public_line("Location:"@ + before + own + after, route) == public
            &&& public_line("location:"@ + before + own + after, route) == public
            &&& public_line("Location:"@ + before + plain + after, route) == public
            &&& public_line("location:"@ + before + plain + after, route) == public
        }),
{
    reveal_strlit("[");
    let target = route.target;
    let bracketed = url_authority(target);
    let rest = host_port(target) + path;
    if bracketed != host_port(target) && has_prefix(rest, bracketed) {
        assert(target.host.len() > 0);
        assert(bracketed[0] == '[');
        assert(rest.take(bracketed.len() as int)[0] == rest[0]);
        assert(rest[0] == target.host[0]);
    }
    lemma_moves(before, url_authority(route.target), path, after, route);
    lemma_moves(before, host_port(route.target), path, after, route);
}

#[verifier::spinoff_prover]
#[verifier::rlimit(40)]
proof fn lemma_moves(
    before: Seq<char>,
    authority: Seq<char>,
    path: Seq<char>,
    after: Seq<char>,
    route: Route,
)
    requires
        all_white(before),
        all_white(after),
        path.len() == 0 || (path[0] == '/' || path[0] == '?' || path[0] == '#'),
        tight("http://"@ + authority + path),
        authority == url_authority(route.target) || (authority == host_port(route.target) && (
        strip_prefix(authority + path, url_authority(route.target)) is None || authority
            == url_authority(route.target))),
    ensures
        ({
            let public = "Location: https://"@ + route.authority + path;
            let own = "http://"@ + authority + path;
            &&& public_line("Location:"@ + before + own + after, route) == public
            &&& public_line("location:"@ + before + own + after, route) == public
        }),
{
    reveal_strlit("Location:");
    reveal_strlit("location:");
    let own = "http://"@ + authority + path;
    let spaced = before + own + after;
    trimming_takes_white_space_alone(before, own, after);
    stripping_undoes_putting("Location:"@, spaced);
    stripping_undoes_putting("location:"@, spaced);
    assert("Location:"@ + spaced =~= "Location:"@ + before + own + after);
    assert("location:"@ + spaced =~= "location:"@ + before + own + after);
    let low = "location:"@ + spaced;
    assert(!has_prefix(low, "Location:"@)) by {
        if has_prefix(low, "Location:"@) {
            assert(low.take(9)[0] == low[0]);
        }
    }
    stripping_undoes_putting("http://"@, authority + path);
    assert("http://"@ + (authority + path) =~= own);
    stripping_undoes_putting(authority, path);
    assert(authority_ends()[0] == '/' && authority_ends()[1] == '?' && authority_ends()[2] == '#');
    assert(path.len() > 0 ==> authority_ends().contains(path[0]));
    assert(local_path(own, route.target) == Some(path));
}

/// Every other line of an answer's head stays as it is: one that is no redirect,
/// one to another scheme, and one to another host or port.
#[verifier::spinoff_prover]
#[verifier::rlimit(40)]
pub proof fn other_lines_stay(
    line: Seq<char>,
    before: Seq<char>,
    elsewhere: Seq<char>,
    after: Seq<char>,
    route: Route,
)
    requires
        all_white(before),
        all_white(after),
        tight(elsewhere),
        !has_prefix(elsewhere, "http://"@) || (strip_prefix(elsewhere, "http://"@) matches Some(
            rest,
        ) && !has_prefix(rest, url_authority(route.target)) && !has_prefix(
            rest,
            host_port(route.target),
        )),
    ensures
        !has_prefix(line, "Location:"@) && !has_prefix(line, "location:"@) ==> public_line(
            line,
            route,
        ) == line,
        public_line("Location:"@ + before + elsewhere + after, route) == "Location:"@ + before
            + elsewhere + after,
        public_line("location:"@ + before + elsewhere + after, route) == "location:"@ + before
            + elsewhere + after,
{
    reveal_strlit("Location:");
    reveal_strlit("location:");
    let spaced = before + elsewhere + after;
    trimming_takes_white_space_alone(before, elsewhere, after);
    stripping_undoes_putting("Location:"@, spaced);
    stripping_undoes_putting("location:"@, spaced);
    assert("Location:"@ + spaced =~= "Location:"@ + before + elsewhere + after);
    assert("location:"@ + spaced =~= "location:"@ + before + elsewhere + after);
    let low = "location:"@ + spaced;
    assert(!has_prefix(low, "Location:"@)) by {
        if has_prefix(low, "Location:"@) {
            assert(low.take(9)[0] == low[0]);
        }
    }
}

/// Lines as they are written, each with its line break.
pub open spec fn lined(lines: Seq<Seq<char>>) -> Seq<char>
    decreases lines.len(),
{
    if lines.len() == 0 {
        Seq::empty()
    } else {
        lines[0] + "\r\n"@ + lined(lines.skip(1))
    }
}

/// An answer's head reaches the browser line by line, in order, up to its empty
/// line: each line is sent as it would be by itself.
pub proof fn heads_are_sent_line_by_line(head: Seq<u8>, lines: Seq<Seq<char>>, route: Route)
    requires
        lossy_text(head) == lined(lines) + "\r\n"@,
        forall|i: int|
            0 <= i < lines.len() ==> (#[trigger] lines[i]).len() > 0 && !lines[i].contains('\n'),
    ensures
        public_head(head, route) == lined(
            lines.map_values(|line: Seq<char>| public_line(line, route)),
        ) + "\r\n"@,
{
    lemma_lined(Seq::empty(), lines, route);
    assert(Seq::<Seq<char>>::empty() + split_on(lined(lines) + "\r\n"@, "\r\n"@) =~= split_on(
        lined(lines) + "\r\n"@,
        "\r\n"@,
    ));
}

proof fn lemma_lined(front: Seq<Seq<char>>, lines: Seq<Seq<char>>, route: Route)
    requires
        forall|i: int|
            0 <= i < lines.len() ==> (#[trigger] lines[i]).len() > 0 && !lines[i].contains('\n'),
    ensures
        public_lines(
            front + split_on(lined(lines) + "\r\n"@, "\r\n"@),
            front.len() as int,
            route,
        ) == lined(lines.map_values(|line: Seq<char>| public_line(line, route))) + "\r\n"@,
    decreases lines.len(),
{
    reveal_strlit("\r\n");
    let mark = "\r\n"@;
    let text = lined(lines) + mark;
    let f = |line: Seq<char>| public_line(line, route);
    let all = front + split_on(text, mark);
    let n = front.len() as int;
    let none = Seq::<char>::empty();
    if lines.len() == 0 {
        a_first_line_comes_first(none, none);
        assert(text =~= none + mark + none);
        assert(all[n] == none);
        assert(lined(lines.map_values(f)) + mark =~= mark);
    } else {
        let rest = lines.skip(1);
        assert forall|i: int| 0 <= i < rest.len() implies (#[trigger] rest[i]).len() > 0
            && !rest[i].contains('\n') by {
            assert(rest[i] == lines[i + 1]);
        }
        a_first_line_comes_first(lines[0], lined(rest) + mark);
        assert(text =~= lines[0] + mark + (lined(rest) + mark));
        let longer = front.push(lines[0]);
        lemma_lined(longer, rest, route);
        assert(longer + split_on(lined(rest) + mark, mark) =~= all);
        assert(all[n] == lines[0]);
        assert(lines.map_values(f).skip(1) =~= rest.map_values(f));
        assert(lines.map_values(f)[0] == f(lines[0]));
        assert(public_line(lines[0], route) + mark + (lined(rest.map_values(f)) + mark) =~= lined(
            lines.map_values(f),
        ) + mark);
    }
}

/// The head of an answer ends at its first empty line, and what follows is its
/// body, byte for byte, however the bytes came.
pub proof fn answers_split_at_their_empty_line(
    buffered: Seq<u8>,
    piece: Vec<u8>,
    front: Seq<u8>,
    body: Seq<u8>,
    route: Route,
)
    ensures
        buffered + piece@ == front + blank_line() + body && no_empty_line_before(front)
            ==> response_step(buffered, ReadEvent::Data(piece), route) == (Reply::Complete {
            head: public_head(front + blank_line(), route),
            body,
        }),
        no_empty_line(buffered + piece@) ==> response_step(buffered, ReadEvent::Data(piece), route)
            == (if (buffered + piece@).len() > 32 * 1024 {
            Reply::GiveUp
        } else {
            Reply::More
        }),
{
    let bytes = buffered + piece@;
    if bytes == front + blank_line() + body && no_empty_line_before(front) {
        heads_end_at_the_first_empty_line(front, body);
        let n = front.len() as int;
        assert(bytes.take(n + 4) =~= front + blank_line());
        assert(bytes.skip(n + 4) =~= body);
    }
    lemma_no_end(bytes);
}

// ----------------------------------------------------------------- upgrades

/// A line of bytes that holds a header is a Host line exactly where the header
/// is named so, letter case aside.
pub proof fn host_lines_are_told(line: Seq<u8>, header: (Seq<char>, Seq<char>))
    requires
        fits_a_line(header),
        tight(header.1),
        lossy_text(line) == header.0 + ": "@ + header.1 + "\r\n"@,
    ensures
        is_host_line(line) <==> same_letters(header.0, "Host"@),
{
    reveal_strlit(": ");
    reveal_strlit("\r\n");
    let text = lossy_text(line);
    let none = Seq::<char>::empty();
    let blank = seq![' '];
    assert(text =~= header.0 + seq![':'] + (blank + header.1 + "\r\n"@));
    crate::laws::texts::split_once_at(header.0, ':', blank + header.1 + "\r\n"@);
    trimming_takes_white_space_alone(none, header.0, none);
    assert(none + header.0 + none =~= header.0);
    trimming_takes_white_space_alone(blank, header.1, "\r\n"@);
}

/// Lines of bytes, each with its line break.
pub open spec fn byte_lines(lines: Seq<Seq<u8>>) -> Seq<u8>
    decreases lines.len(),
{
    if lines.len() == 0 {
        Seq::empty()
    } else {
        lines[0] + line_break() + byte_lines(lines.skip(1))
    }
}

/// An upgrade reaches the development server line by line: a Host line names the
/// server, every other line and all that follows the head stay byte for byte.
pub proof fn upgrades_change_the_host_alone(
    first: Seq<u8>,
    lines: Seq<Seq<u8>>,
    rest: Seq<u8>,
    host: Seq<char>,
)
    requires
        !first.contains(10),
        forall|i: int|
            0 <= i < lines.len() ==> (#[trigger] lines[i]).len() > 0 && !lines[i].contains(10),
    ensures
        upgrade_bytes(first + line_break() + byte_lines(lines) + line_break() + rest, host) == first
            + line_break() + host_replaced(lines, host) + line_break() + rest,
{
    let tail = byte_lines(lines) + line_break() + rest;
    lemma_first_line(first, tail);
    let bytes = first + line_break() + byte_lines(lines) + line_break() + rest;
    assert(bytes =~= first + line_break() + tail);
    lemma_replaced(lines, rest, host);
    assert(upgrade_bytes(bytes, host) =~= first + line_break() + host_replaced(lines, host)
        + line_break() + rest);
}

/// Lines of bytes with the Host lines replaced.
pub open spec fn host_replaced(lines: Seq<Seq<u8>>, host: Seq<char>) -> Seq<u8>
    decreases lines.len(),
{
    if lines.len() == 0 {
        Seq::empty()
    } else {
        (if is_host_line(lines[0] + line_break()) {
            encode_utf8("Host: "@ + host + "\r\n"@)
        } else {
            lines[0] + line_break()
        }) + host_replaced(lines.skip(1), host)
    }
}

/// The first line break stands behind a line without line feeds.
pub proof fn lemma_break_behind(line: Seq<u8>, tail: Seq<u8>)
    requires
        !line.contains(10),
    ensures
        find_sub(line + line_break() + tail, line_break()) == Some(line.len() as int),
{
    let data = line + line_break() + tail;
    let mark = line_break();
    let n = line.len() as int;
    assert forall|k: int| 0 <= k < n implies !#[trigger] occurs_at(data, mark, k) by {
        if occurs_at(data, mark, k) {
            let found = data.subrange(k, k + 2);
            assert(found[1] == data[k + 1]);
            if k + 1 < n {
                assert(data[k + 1] == line[k + 1]);
                assert(line.contains(10));
            } else {
                assert(data[k + 1] == 13);
            }
        }
    }
    assert(data.subrange(n, n + 2) =~= mark);
    found_first_at(data, mark, n);
}

proof fn lemma_first_line(line: Seq<u8>, tail: Seq<u8>)
    requires
        !line.contains(10),
    ensures
        first_line(line + line_break() + tail) == line.len() + 2,
        (line + line_break() + tail).take(line.len() as int + 2) == line + line_break(),
        (line + line_break() + tail).skip(line.len() as int + 2) == tail,
{
    let s = line + line_break() + tail;
    let n = line.len() as int;
    lemma_break_behind(line, tail);
    assert(s.take(n + 2) =~= line + line_break());
    assert(s.skip(n + 2) =~= tail);
}

proof fn lemma_replaced(lines: Seq<Seq<u8>>, rest: Seq<u8>, host: Seq<char>)
    requires
        forall|i: int|
            0 <= i < lines.len() ==> (#[trigger] lines[i]).len() > 0 && !lines[i].contains(10),
    ensures
        with_host(byte_lines(lines) + line_break() + rest, host) == host_replaced(lines, host)
            + line_break() + rest,
    decreases lines.len(),
{
    let s = byte_lines(lines) + line_break() + rest;
    if lines.len() == 0 {
        let none = Seq::<u8>::empty();
        lemma_first_line(none, rest);
        assert(s =~= none + line_break() + rest);
        assert(none + line_break() =~= line_break());
        assert(host_replaced(lines, host) + line_break() + rest =~= s);
    } else {
        let more = lines.skip(1);
        assert forall|i: int| 0 <= i < more.len() implies (#[trigger] more[i]).len() > 0
            && !more[i].contains(10) by {
            assert(more[i] == lines[i + 1]);
        }
        let tail = byte_lines(more) + line_break() + rest;
        assert(s =~= lines[0] + line_break() + tail);
        lemma_first_line(lines[0], tail);
        assert((lines[0] + line_break()).len() > 2);
        assert(s.take(first_line(s)) != line_break());
        lemma_replaced(more, rest, host);
        assert(with_host(s, host) =~= host_replaced(lines, host) + line_break() + rest);
    }
}

/// A plan is carried out to the byte: the answer, or the head, the part of the
/// body and what is still to be read.
pub proof fn plans_are_carried_out_to_the_byte(plan: RequestPlan, intended: Plan)
    requires
        plan_is(plan, intended),
    ensures
        intended matches Plan::Refuse(text) ==> (plan matches RequestPlan::Refuse(bytes) && bytes@
            == encode_utf8(text)),
        intended matches Plan::Forward { request: text, body: part, remaining: rest } ==> (
        plan matches RequestPlan::Forward { request, body, remaining } && request@ == encode_utf8(
            text,
        ) && body@ == part && remaining == rest),
{
}

/// What was read is kept, in order; what is no data adds nothing.
pub proof fn reads_are_kept(buffered: Seq<u8>, piece: Vec<u8>, error: String)
    ensures
        buffered_after(buffered, ReadEvent::Data(piece)) == buffered + piece@,
        buffered_after(buffered, ReadEvent::Closed) == buffered,
        buffered_after(buffered, ReadEvent::TimedOut) == buffered,
        buffered_after(buffered, ReadEvent::Interrupted) == buffered,
        buffered_after(buffered, ReadEvent::Failed(error)) == buffered,
{
}

} // verus!
