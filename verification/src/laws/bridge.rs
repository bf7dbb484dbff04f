//! The bridge: what a request says once it is read, what of it reaches the
//! development server, and what of an answer reaches the browser.

use crate::bytes::lossy_text;
use crate::laws::numbers::only_digits_are_numbers;
use crate::laws::scanning::joined_words_come_apart;
use crate::laws::texts::{
    a_first_line_comes_first, a_word_and_a_blank, all_white, joined_texts_split,
    letter_case_is_character_by_character, no_white, one_word, split_once_at, tight,
    trimming_takes_white_space_alone,
};
use crate::number::{decimal, decimal_reads_back, digit_value, lemma_radix_roundtrip};
use crate::proxy::{
    body_length, forwarded, head_lines, header_block, header_from, header_line, header_of,
    headers_from, is_hop_by_hop, lists_token, passed_on, request_of, request_path, Route,
};
use crate::text::{
    has_prefix, is_white, join, lower_text, same_letters, split_char, split_on, trim, words,
};
use vstd::prelude::*;

verus! {

// ----------------------------------------------------------------- requests

/// Headers as they are written, one on each line.
pub open spec fn written(headers: Seq<(Seq<char>, Seq<char>)>) -> Seq<char>
    decreases headers.len(),
{
    if headers.len() == 0 {
        Seq::empty()
    } else {
        headers[0].0 + ": "@ + headers[0].1 + "\r\n"@ + written(headers.skip(1))
    }
}

/// The head of a request as it is written: a request line, the headers, and an
/// empty line.
pub open spec fn head_text(
    method: Seq<char>,
    target: Seq<char>,
    version: Seq<char>,
    headers: Seq<(Seq<char>, Seq<char>)>,
) -> Seq<char> {
    method + " "@ + target + " "@ + version + "\r\n"@ + written(headers) + "\r\n"@
}

/// A header that one line can hold: a name without white space and colons, and a
/// value with no white space around it and no line feed in it.
pub open spec fn fits_a_line(header: (Seq<char>, Seq<char>)) -> bool {
    &&& header.0.len() > 0
    &&& no_white(header.0)
    &&& !header.0.contains(':')
    &&& tight(header.1) || header.1.len() == 0
    &&& !header.1.contains('\n')
}

/// Every header fits a line.
pub open spec fn fit_lines(headers: Seq<(Seq<char>, Seq<char>)>) -> bool {
    forall|i: int| 0 <= i < headers.len() ==> fits_a_line(#[trigger] headers[i])
}

proof fn lemma_no_feed(s: Seq<char>)
    requires
        no_white(s),
    ensures
        !s.contains('\n'),
        !s.contains('\r'),
        !s.contains(' '),
{
    if s.contains('\n') {
        let k = choose|k: int| 0 <= k < s.len() && s[k] == '\n';
        assert(is_white(s[k]));
    }
    if s.contains('\r') {
        let k = choose|k: int| 0 <= k < s.len() && s[k] == '\r';
        assert(is_white(s[k]));
    }
    if s.contains(' ') {
        let k = choose|k: int| 0 <= k < s.len() && s[k] == ' ';
        assert(is_white(s[k]));
    }
}

proof fn lemma_contains_sum(a: Seq<char>, b: Seq<char>, c: char)
    ensures
        (a + b).contains(c) <==> a.contains(c) || b.contains(c),
{
    let s = a + b;
    if a.contains(c) {
        let k = choose|k: int| 0 <= k < a.len() && a[k] == c;
        assert(s[k] == c);
    }
    if b.contains(c) {
        let k = choose|k: int| 0 <= k < b.len() && b[k] == c;
        assert(s[a.len() + k] == c);
    }
    if s.contains(c) {
        let k = choose|k: int| 0 <= k < s.len() && s[k] == c;
        if k < a.len() {
            assert(a[k] == c);
        } else {
            assert(b[k - a.len()] == c);
        }
    }
}

/// A header line is read as the header that was written on it.
pub proof fn header_lines_are_read(header: (Seq<char>, Seq<char>))
    requires
        fits_a_line(header),
    ensures
        header_line(header.0 + ": "@ + header.1) == Some(header),
        !(header.0 + ": "@ + header.1).contains('\n'),
{
    reveal_strlit(": ");
    let (name, value) = header;
    let blank = seq![' '];
    let line = name + ": "@ + value;
    assert(line =~= name + seq![':'] + (blank + value));
    split_once_at(name, ':', blank + value);
    let none = Seq::<char>::empty();
    assert(tight(name));
    trimming_takes_white_space_alone(none, name, none);
    trimming_takes_white_space_alone(blank, value, none);
    assert(blank + value + none =~= blank + value);
    lemma_no_feed(name);
    lemma_contains_sum(name, ": "@, '\n');
    lemma_contains_sum(name + ": "@, value, '\n');
    assert(!": "@.contains('\n'));
}

proof fn lemma_headers_read(
    headers: Seq<(Seq<char>, Seq<char>)>,
    front: Seq<Seq<char>>,
    more: Seq<char>,
)
    requires
        fit_lines(headers),
    ensures
        headers_from(
            front + split_on(written(headers) + "\r\n"@ + more, "\r\n"@),
            front.len() as int,
        ) == headers,
    decreases headers.len(),
{
    reveal_strlit("\r\n");
    let mark = "\r\n"@;
    let text = written(headers) + mark + more;
    let lines = front + split_on(text, mark);
    let n = front.len() as int;
    if headers.len() == 0 {
        let none = Seq::<char>::empty();
        assert(text =~= none + mark + more);
        a_first_line_comes_first(none, more);
        assert(lines[n] == none);
        assert(headers_from(lines, n) =~= headers);
    } else {
        let header = headers[0];
        let rest = headers.skip(1);
        let line = header.0 + ": "@ + header.1;
        header_lines_are_read(header);
        let tail = written(rest) + mark + more;
        assert(text =~= line + mark + tail);
        a_first_line_comes_first(line, tail);
        assert forall|i: int| 0 <= i < rest.len() implies fits_a_line(#[trigger] rest[i]) by {
            assert(rest[i] == headers[i + 1]);
        }
        lemma_headers_read(rest, front.push(line), more);
        assert(lines =~= front.push(line) + split_on(tail, mark));
        assert(lines[n] == line);
        assert(line.len() > 0);
        assert(seq![header] + rest =~= headers);
    }
}

/// A request reads as it was written: method, target and headers, each character
/// for character.
pub proof fn requests_are_read(
    bytes: Seq<u8>,
    method: Seq<char>,
    target: Seq<char>,
    version: Seq<char>,
    headers: Seq<(Seq<char>, Seq<char>)>,
    more: Seq<char>,
)
    requires
        lossy_text(bytes) == head_text(method, target, version, headers) + more,
        method.len() > 0 && no_white(method),
        target.len() > 0 && no_white(target),
        no_white(version),
        has_prefix(version, "HTTP/"@),
        fit_lines(headers),
    ensures
        request_of(bytes) matches Ok(request) && request.method == method && request.headers
            == headers && request.bytes == bytes && request.upgrade == (header_of(
            headers,
            "Upgrade"@,
        ) is Some && (header_of(headers, "Connection"@) matches Some(value) && lists_token(
            value,
            "Upgrade"@,
        ))) && request.chunked == (header_of(headers, "Transfer-Encoding"@) matches Some(value)
            && lists_token(value, "chunked"@)) && request.has_body_length == (body_length(headers)
            is Some),
        request_path(bytes) == target,
{
    reveal_strlit(" ");
    reveal_strlit("\r\n");
    reveal_strlit("HTTP/");
    reveal_strlit("");
    let mark = "\r\n"@;
    let first = method + " "@ + target + " "@ + version;
    let text = lossy_text(bytes);
    let tail = written(headers) + mark + more;
    assert(text =~= first + mark + tail);
    lemma_no_feed(method);
    lemma_no_feed(target);
    lemma_no_feed(version);
    assert(!" "@.contains('\n'));
    lemma_contains_sum(method, " "@, '\n');
    lemma_contains_sum(method + " "@, target, '\n');
    lemma_contains_sum(method + " "@ + target, " "@, '\n');
    lemma_contains_sum(method + " "@ + target + " "@, version, '\n');
    a_first_line_comes_first(first, tail);
    let lines = head_lines(bytes);
    assert(lines[0] == first);
    assert(version.len() >= 5);
    one_word(version);
    a_word_and_a_blank(target, version);
    a_word_and_a_blank(method, target + " "@ + version);
    assert(first =~= method + " "@ + (target + " "@ + version));
    let parts = words(first);
    assert(parts =~= seq![method, target, version]);
    lemma_headers_read(headers, seq![first], more);
    lemma_upgrade_token();
}

/// Tokens are compared up to letter case.
proof fn lemma_upgrade_token()
    ensures
        forall|value: Seq<char>| #[trigger]
            lists_token(value, "Upgrade"@) == lists_token(value, "upgrade"@),
        !lists_token(""@, "upgrade"@),
{
    reveal_strlit("Upgrade");
    reveal_strlit("upgrade");
    reveal_strlit("");
    assert(lower_text("Upgrade"@) =~= lower_text("upgrade"@));
    assert forall|value: Seq<char>| #[trigger]
        lists_token(value, "Upgrade"@) == lists_token(value, "upgrade"@) by {
        assert(forall|s: Seq<char>|
            same_letters(s, "Upgrade"@) == #[trigger] same_letters(s, "upgrade"@));
        let pieces = split_char(value, ',');
        if lists_token(value, "Upgrade"@) {
            let k = choose|k: int|
                0 <= k < pieces.len() && same_letters(trim(#[trigger] pieces[k]), "Upgrade"@);
            assert(same_letters(trim(pieces[k]), "upgrade"@));
        }
        if lists_token(value, "upgrade"@) {
            let k = choose|k: int|
                0 <= k < pieces.len() && same_letters(trim(#[trigger] pieces[k]), "upgrade"@);
            assert(same_letters(trim(pieces[k]), "upgrade"@));
        }
    }
    let none = Seq::<char>::empty();
    assert(""@ =~= none);
    crate::laws::texts::split_nowhere(none, ',');
    trimming_takes_white_space_alone(none, none, none);
    letter_case_is_character_by_character(none, "upgrade"@);
}

/// A value lists just the tokens that stand between its commas, white space and
/// letter case aside.
pub proof fn tokens_stand_between_commas(tokens: Seq<Seq<char>>, token: Seq<char>)
    requires
        tokens.len() > 0,
        forall|i: int| 0 <= i < tokens.len() ==> !(#[trigger] tokens[i]).contains(','),
    ensures
        lists_token(join(tokens, seq![',']), token) <==> exists|i: int|
            0 <= i < tokens.len() && same_letters(trim(#[trigger] tokens[i]), token),
{
    joined_texts_split(tokens, ',');
}

/// A header is looked up by its name, letter case aside, and the first counts.
pub proof fn the_first_header_counts(
    headers: Seq<(Seq<char>, Seq<char>)>,
    name: Seq<char>,
    k: int,
)
    requires
        0 <= k < headers.len(),
        same_letters(headers[k].0, name),
        forall|i: int| 0 <= i < k ==> !same_letters((#[trigger] headers[i]).0, name),
    ensures
        header_of(headers, name) == Some(headers[k].1),
{
    lemma_first_header(headers, name, k, 0);
}

proof fn lemma_first_header(
    headers: Seq<(Seq<char>, Seq<char>)>,
    name: Seq<char>,
    k: int,
    i: int,
)
    requires
        0 <= i <= k < headers.len(),
        same_letters(headers[k].0, name),
        forall|j: int| i <= j < k ==> !same_letters((#[trigger] headers[j]).0, name),
    ensures
        header_from(headers, name, i) == Some(headers[k].1),
    decreases k - i,
{
    if i < k {
        assert(!same_letters(headers[i].0, name));
        lemma_first_header(headers, name, k, i + 1);
    }
}

/// Without a header of the name there is none to find.
pub proof fn missing_headers_are_not_found(headers: Seq<(Seq<char>, Seq<char>)>, name: Seq<char>)
    requires
        forall|i: int| 0 <= i < headers.len() ==> !same_letters((#[trigger] headers[i]).0, name),
    ensures
        header_of(headers, name) is None,
{
    lemma_missing(headers, name, 0);
}

proof fn lemma_missing(headers: Seq<(Seq<char>, Seq<char>)>, name: Seq<char>, i: int)
    requires
        0 <= i,
        forall|k: int| 0 <= k < headers.len() ==> !same_letters((#[trigger] headers[k]).0, name),
    ensures
        header_from(headers, name, i) is None,
    decreases headers.len() - i,
{
    if i < headers.len() {
        assert(!same_letters(headers[i].0, name));
        lemma_missing(headers, name, i + 1);
    }
}

/// A body's length is the number that its header spells.
pub proof fn body_lengths_are_read(
    headers: Seq<(Seq<char>, Seq<char>)>,
    before: Seq<char>,
    after: Seq<char>,
    n: nat,
)
    requires
        header_of(headers, "Content-Length"@) == Some(before + decimal(n) + after),
        all_white(before),
        all_white(after),
        n <= 0xffff_ffff_ffff_ffff,
    ensures
        body_length(headers) == Some(n),
{
    lemma_decimal_is_tight(n);
    trimming_takes_white_space_alone(before, decimal(n), after);
    decimal_reads_back(n, 0xffff_ffff_ffff_ffff);
}

pub proof fn lemma_decimal_is_tight(n: nat)
    ensures
        tight(decimal(n)),
        no_white(decimal(n)),
        !decimal(n).contains(':'),
        !decimal(n).contains('\n'),
        !decimal(n).contains(']'),
        !decimal(n).contains('/'),
        !decimal(n).contains('.'),
        !decimal(n).contains(' '),
{
    lemma_radix_roundtrip(n, 10);
    let digits = decimal(n);
    assert forall|i: int| 0 <= i < digits.len() implies '0' <= #[trigger] digits[i] <= '9' by {
        assert(digit_value(digits[i], 10) is Some);
    }
}

// ---------------------------------------------------------------- forwarding

/// The names of the headers that belong to one connection, and of the host.
pub open spec fn connection_names() -> Seq<Seq<char>> {
    seq![
        "Host"@,
        "Connection"@,
        "Keep-Alive"@,
        "Proxy-Connection"@,
        "Transfer-Encoding"@,
        "Upgrade"@,
        "TE"@,
        "Trailer"@,
    ]
}

/// A header stays behind just where its name is one of a connection's or the
/// host's, letter case aside.
pub proof fn just_connection_headers_stay_behind(name: Seq<char>)
    ensures
        is_hop_by_hop(name) <==> exists|i: int|
            0 <= i < connection_names().len() && same_letters(
                name,
                #[trigger] connection_names()[i],
            ),
{
    reveal_strlit("Host");
    reveal_strlit("host");
    reveal_strlit("Connection");
    reveal_strlit("connection");
    reveal_strlit("Keep-Alive");
    reveal_strlit("keep-alive");
    reveal_strlit("Proxy-Connection");
    reveal_strlit("proxy-connection");
    reveal_strlit("Transfer-Encoding");
    reveal_strlit("transfer-encoding");
    reveal_strlit("Upgrade");
    reveal_strlit("upgrade");
    reveal_strlit("TE");
    reveal_strlit("te");
    reveal_strlit("Trailer");
    reveal_strlit("trailer");
    assert(lower_text("Host"@) =~= "host"@);
    assert(lower_text("Connection"@) =~= "connection"@);
    assert(lower_text("Keep-Alive"@) =~= "keep-alive"@);
    assert(lower_text("Proxy-Connection"@) =~= "proxy-connection"@);
    assert(lower_text("Transfer-Encoding"@) =~= "transfer-encoding"@);
    assert(lower_text("Upgrade"@) =~= "upgrade"@);
    assert(lower_text("TE"@) =~= "te"@);
    assert(lower_text("Trailer"@) =~= "trailer"@);
    let names = connection_names();
    assert(names[0] == "Host"@ && names[1] == "Connection"@ && names[2] == "Keep-Alive"@ && names[3]
        == "Proxy-Connection"@ && names[4] == "Transfer-Encoding"@ && names[5] == "Upgrade"@
        && names[6] == "TE"@ && names[7] == "Trailer"@);
    if is_hop_by_hop(name) {
        let low = lower_text(name);
        let k: int = if low == "host"@ {
            0
        } else if low == "connection"@ {
            1
        } else if low == "keep-alive"@ {
            2
        } else if low == "proxy-connection"@ {
            3
        } else if low == "transfer-encoding"@ {
            4
        } else if low == "upgrade"@ {
            5
        } else if low == "te"@ {
            6
        } else {
            7
        };
        assert(same_letters(name, names[k]));
    }
}

/// What the bridge says of itself: the local host, the length of the body where
/// there is one, where the request came in, and that the connection ends.
pub open spec fn own_headers(length: nat, route: Route) -> Seq<(Seq<char>, Seq<char>)> {
    seq![("Host"@, route.target.host + ":"@ + decimal(route.target.port))] + (if length > 0 {
        seq![("Content-Length"@, decimal(length))]
    } else {
        Seq::empty()
    }) + seq![
        ("X-Forwarded-Proto"@, "https"@),
        ("X-Forwarded-Host"@, route.authority),
        ("X-Forwarded-For"@, "127.0.0.1"@),
        ("Via"@, "1.0 poros"@),
        ("Connection"@, "close"@),
    ]
}

pub proof fn lemma_written_sum(
    a: Seq<(Seq<char>, Seq<char>)>,
    b: Seq<(Seq<char>, Seq<char>)>,
)
    ensures
        written(a + b) == written(a) + written(b),
    decreases a.len(),
{
    if a.len() == 0 {
        assert(a + b =~= b);
        assert(written(a) + written(b) =~= written(b));
    } else {
        lemma_written_sum(a.skip(1), b);
        assert((a + b).skip(1) =~= a.skip(1) + b);
        let line = a[0].0 + ": "@ + a[0].1 + "\r\n"@;
        assert(line + (written(a.skip(1)) + written(b)) =~= written(a) + written(b));
    }
}

pub proof fn lemma_written_one(header: (Seq<char>, Seq<char>))
    ensures
        written(seq![header]) == header.0 + ": "@ + header.1 + "\r\n"@,
{
    let rest = seq![header].skip(1);
    assert(rest.len() == 0);
    assert(written(rest) == Seq::<char>::empty());
    let line = header.0 + ": "@ + header.1 + "\r\n"@;
    assert(line + Seq::<char>::empty() =~= line);
}

proof fn lemma_block_is_written(headers: Seq<(Seq<char>, Seq<char>)>)
    ensures
        header_block(headers) == written(headers),
    decreases headers.len(),
{
    reveal_strlit("");
    if headers.len() == 0 {
        assert(""@ =~= Seq::<char>::empty());
    } else {
        let front = headers.drop_last();
        let last = headers.last();
        lemma_block_is_written(front);
        lemma_written_sum(front, seq![last]);
        lemma_written_one(last);
        assert(headers =~= front + seq![last]);
        assert(header_block(front) + last.0 + ": "@ + last.1 + "\r\n"@ =~= header_block(front) + (
        last.0 + ": "@ + last.1 + "\r\n"@));
    }
}

/// What reaches the development server of a request: its method and its target,
/// query and all, as they were; its headers but for those of the connection; and
/// what the bridge says of itself.
#[verifier::rlimit(40)]
pub proof fn requests_are_forwarded_as_they_came(
    bytes: Seq<u8>,
    method: Seq<char>,
    target: Seq<char>,
    version: Seq<char>,
    headers: Seq<(Seq<char>, Seq<char>)>,
    more: Seq<char>,
    length: nat,
    route: Route,
)
    requires
        lossy_text(bytes) == head_text(method, target, version, headers) + more,
        method.len() > 0 && no_white(method),
        target.len() > 0 && no_white(target),
        no_white(version),
        has_prefix(version, "HTTP/"@),
        fit_lines(headers),
    ensures
        request_of(bytes) matches Ok(request) && forwarded(request, length, route) == head_text(
            method,
            target,
            "HTTP/1.0"@,
            passed_on(headers) + own_headers(length, route),
        ) && has_prefix(
            forwarded(request, length, route),
            method + " "@ + target + " HTTP/1.0\r\n"@,
        ),
{
    requests_are_read(bytes, method, target, version, headers, more);
    let request = request_of(bytes)->Ok_0;
    let kept = passed_on(headers);
    lemma_block_is_written(kept);
    lemma_own_headers(length, route);
    lemma_written_sum(kept, own_headers(length, route));
    reveal_strlit(" HTTP/1.0\r\n");
    reveal_strlit("HTTP/1.0");
    reveal_strlit(" ");
    reveal_strlit("\r\n");
    reveal_strlit("Connection: close\r\n\r\n");
    reveal_strlit("Connection: close\r\n");
    let all = forwarded(request, length, route);
    let start = method + " "@ + target + " HTTP/1.0\r\n"@;
    assert(start =~= method + " "@ + target + " "@ + "HTTP/1.0"@ + "\r\n"@);
    let own = own_text(length, route);
    assert("Connection: close\r\n\r\n"@ =~= "Connection: close\r\n"@ + "\r\n"@);
    assert(all =~= start + written(kept) + own + "\r\n"@);
    assert(written(kept) + own == written(kept + own_headers(length, route)));
    assert(all =~= start + written(kept + own_headers(length, route)) + "\r\n"@);
    assert(all.take(start.len() as int) =~= start);
}

spec fn own_text(length: nat, route: Route) -> Seq<char> {
    "Host: "@ + (route.target.host + ":"@ + decimal(route.target.port)) + "\r\n"@ + (if length > 0 {
        "Content-Length: "@ + decimal(length) + "\r\n"@
    } else {
        ""@
    }) + "X-Forwarded-Proto: https\r\n"@ + "X-Forwarded-Host: "@ + route.authority + "\r\n"@
        + "X-Forwarded-For: 127.0.0.1\r\n"@ + "Via: 1.0 poros\r\n"@ + "Connection: close\r\n"@
}

proof fn lemma_own_headers(length: nat, route: Route)
    ensures
        written(own_headers(length, route)) == own_text(length, route),
{
    reveal_strlit("");
    reveal_strlit(": ");
    reveal_strlit("\r\n");
    reveal_strlit("Host");
    reveal_strlit("Host: ");
    reveal_strlit("Content-Length");
    reveal_strlit("Content-Length: ");
    let host = ("Host"@, route.target.host + ":"@ + decimal(route.target.port));
    let size = ("Content-Length"@, decimal(length));
    let sized = if length > 0 {
        seq![size]
    } else {
        Seq::empty()
    };
    let rest = seq![
        ("X-Forwarded-Proto"@, "https"@),
        ("X-Forwarded-Host"@, route.authority),
        ("X-Forwarded-For"@, "127.0.0.1"@),
        ("Via"@, "1.0 poros"@),
        ("Connection"@, "close"@),
    ];
    lemma_written_sum(seq![host], sized);
    lemma_written_sum(seq![host] + sized, rest);
    lemma_written_one(host);
    lemma_written_one(size);
    lemma_rest_headers(route);
    let sized_text = if length > 0 {
        "Content-Length: "@ + decimal(length) + "\r\n"@
    } else {
        ""@
    };
    assert(written(sized) =~= sized_text) by {
        if length > 0 {
            assert("Content-Length"@ + ": "@ + decimal(length) + "\r\n"@ =~= sized_text);
        }
    }
    assert(written(seq![host]) =~= "Host: "@ + host.1 + "\r\n"@);
    assert(own_text(length, route) =~= ("Host: "@ + host.1 + "\r\n"@) + sized_text + (
    "X-Forwarded-Proto: https\r\n"@ + "X-Forwarded-Host: "@ + route.authority + "\r\n"@
        + "X-Forwarded-For: 127.0.0.1\r\n"@ + "Via: 1.0 poros\r\n"@ + "Connection: close\r\n"@));
}

proof fn lemma_rest_headers(route: Route)
    ensures
        written(
            seq![
                ("X-Forwarded-Proto"@, "https"@),
                ("X-Forwarded-Host"@, route.authority),
                ("X-Forwarded-For"@, "127.0.0.1"@),
                ("Via"@, "1.0 poros"@),
                ("Connection"@, "close"@),
            ],
        ) == "X-Forwarded-Proto: https\r\n"@ + "X-Forwarded-Host: "@ + route.authority + "\r\n"@
            + "X-Forwarded-For: 127.0.0.1\r\n"@ + "Via: 1.0 poros\r\n"@ + "Connection: close\r\n"@,
{
    reveal_strlit(": ");
    reveal_strlit("\r\n");
    reveal_strlit("X-Forwarded-Proto");
    reveal_strlit("https");
    reveal_strlit("X-Forwarded-Proto: https\r\n");
    reveal_strlit("X-Forwarded-Host");
    reveal_strlit("X-Forwarded-Host: ");
    reveal_strlit("X-Forwarded-For");
    reveal_strlit("127.0.0.1");
    reveal_strlit("X-Forwarded-For: 127.0.0.1\r\n");
    reveal_strlit("Via");
    reveal_strlit("1.0 poros");
    reveal_strlit("Via: 1.0 poros\r\n");
    reveal_strlit("Connection");
    reveal_strlit("close");
    reveal_strlit("Connection: close\r\n");
    let a = ("X-Forwarded-Proto"@, "https"@);
    let b = ("X-Forwarded-Host"@, route.authority);
    let c = ("X-Forwarded-For"@, "127.0.0.1"@);
    let d = ("Via"@, "1.0 poros"@);
    let e = ("Connection"@, "close"@);
    let all = seq![a, b, c, d, e];
    assert(all =~= seq![a] + seq![b] + seq![c] + seq![d] + seq![e]);
    lemma_written_sum(seq![a], seq![b]);
    lemma_written_sum(seq![a] + seq![b], seq![c]);
    lemma_written_sum(seq![a] + seq![b] + seq![c], seq![d]);
    lemma_written_sum(seq![a] + seq![b] + seq![c] + seq![d], seq![e]);
    lemma_written_one(a);
    lemma_written_one(b);
    lemma_written_one(c);
    lemma_written_one(d);
    lemma_written_one(e);
    assert(written(seq![a]) =~= "X-Forwarded-Proto: https\r\n"@);
    assert(written(seq![b]) =~= "X-Forwarded-Host: "@ + route.authority + "\r\n"@);
    assert(written(seq![c]) =~= "X-Forwarded-For: 127.0.0.1\r\n"@);
    assert(written(seq![d]) =~= "Via: 1.0 poros\r\n"@);
    assert(written(seq![e]) =~= "Connection: close\r\n"@);
    assert("X-Forwarded-Proto: https\r\n"@ + ("X-Forwarded-Host: "@ + route.authority + "\r\n"@)
        =~= "X-Forwarded-Proto: https\r\n"@ + "X-Forwarded-Host: "@ + route.authority + "\r\n"@);
}

/// A request line is a method, a target and a version, which starts with HTTP and
/// a slash, with blanks between them; any other is refused.
pub proof fn other_request_lines_are_refused(
    bytes: Seq<u8>,
    parts: Seq<Seq<char>>,
    rest: Seq<char>,
)
    requires
        lossy_text(bytes) == join(parts, " "@) + "\r\n"@ + rest,
        forall|i: int|
            0 <= i < parts.len() ==> (#[trigger] parts[i]).len() > 0 && no_white(parts[i]),
    ensures
        parts.len() >= 3 && has_prefix(parts[2], "HTTP/"@) <==> request_of(bytes) is Ok,
        request_of(bytes) matches Err(message) ==> message == "malformed request line"@,
        request_of(bytes) matches Ok(request) ==> request.method == parts[0]
            && request_path(bytes) == parts[1],
{
    reveal_strlit("HTTP/");
    let line = join(parts, " "@);
    joined_words_come_apart(parts);
    lemma_joined_line(parts);
    a_first_line_comes_first(line, rest);
    let lines = head_lines(bytes);
    assert(lines[0] == line);
    if parts.len() < 3 {
        let none = Seq::<char>::empty();
        if has_prefix(none, "HTTP/"@) {
            assert(none.take(5).len() == 5);
        }
    }
}

proof fn lemma_joined_line(parts: Seq<Seq<char>>)
    requires
        forall|i: int|
            0 <= i < parts.len() ==> (#[trigger] parts[i]).len() > 0 && no_white(parts[i]),
    ensures
        !join(parts, " "@).contains('\n'),
    decreases parts.len(),
{
    reveal_strlit(" ");
    if parts.len() == 1 {
        lemma_no_feed(parts[0]);
    } else if parts.len() > 1 {
        let front = parts.drop_last();
        assert forall|i: int| 0 <= i < front.len() implies (#[trigger] front[i]).len() > 0
            && no_white(front[i]) by {
            assert(front[i] == parts[i]);
        }
        lemma_joined_line(front);
        let last = parts.last();
        assert(parts[parts.len() - 1] == last);
        lemma_no_feed(last);
        assert(!" "@.contains('\n'));
        lemma_contains_sum(join(front, " "@), " "@, '\n');
        lemma_contains_sum(join(front, " "@) + " "@, last, '\n');
    }
}

/// A length that is not spelled with digits is no length.
pub proof fn other_lengths_are_not_read(
    headers: Seq<(Seq<char>, Seq<char>)>,
    value: Seq<char>,
    k: int,
)
    requires
        header_of(headers, "Content-Length"@) == Some(value),
        tight(value),
        0 <= k < value.len(),
        !('0' <= value[k] <= '9'),
        k == 0 ==> value[k] != '+',
    ensures
        body_length(headers) is None,
{
    let none = Seq::<char>::empty();
    trimming_takes_white_space_alone(none, value, none);
    only_digits_are_numbers(0, 0xffff_ffff_ffff_ffff, value, k);
}

/// A header is its name and its value, white space around either aside; a line
/// without a colon is none, and the first empty line ends the headers.
pub proof fn header_lines_are_taken_apart(
    before: Seq<char>,
    name: Seq<char>,
    after: Seq<char>,
    lead: Seq<char>,
    value: Seq<char>,
    trail: Seq<char>,
    lines: Seq<Seq<char>>,
    i: int,
)
    requires
        all_white(before) && all_white(after) && all_white(lead) && all_white(trail),
        tight(name),
        tight(value) || value.len() == 0,
        !before.contains(':') && !name.contains(':') && !after.contains(':'),
        0 <= i < lines.len(),
    ensures
        header_line(before + name + after + ":"@ + lead + value + trail) == Some((name, value)),
        lines[i].len() == 0 ==> headers_from(lines, i) == Seq::<(Seq<char>, Seq<char>)>::empty(),
        lines[i].len() > 0 && !lines[i].contains(':') ==> headers_from(lines, i) == headers_from(
            lines,
            i + 1,
        ),
        headers_from(lines, lines.len() as int) == Seq::<(Seq<char>, Seq<char>)>::empty(),
{
    reveal_strlit(":");
    let front = before + name + after;
    let back = lead + value + trail;
    let line = before + name + after + ":"@ + lead + value + trail;
    assert(line =~= front + seq![':'] + back);
    lemma_contains_sum(before, name, ':');
    lemma_contains_sum(before + name, after, ':');
    split_once_at(front, ':', back);
    trimming_takes_white_space_alone(before, name, after);
    trimming_takes_white_space_alone(lead, value, trail);
    if !lines[i].contains(':') {
        crate::laws::texts::split_nowhere(lines[i], ':');
    }
}

} // verus!
