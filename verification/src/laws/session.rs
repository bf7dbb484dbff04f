//! The conversation with tailscaled: what an answer says once it is read, and
//! what a request looks like.

use crate::bytes::{blank_line, header_end, line_break, lossy_text};
use crate::json::{is_null_value, object_members, object_value, read_value};
use crate::laws::bridge::{
    fit_lines, fits_a_line, head_text, header_lines_are_read, lemma_decimal_is_tight,
    lemma_written_one, lemma_written_sum, written,
};
use crate::laws::relay::{lemma_break_behind, lemma_no_end, no_empty_line};
use crate::laws::texts::{
    a_first_line_comes_first, a_first_piece_comes_first, all_white, before_the_first_of,
    found_first_at, found_where_it_stands, no_white, split_nowhere, split_once_at, tight,
    trimming_takes_white_space_alone,
};
use crate::localapi::{
    answer_of, chunked_in, chunks_of, config_in, config_path, cut_off_chunks_decode, end_chunk,
    etag_in, exchanged, failure_text, first_line_of, head_of, joined, none_empty, notify_in,
    request_bytes, request_head, route_value, routed, sent_chunks, sent_chunks_decode, status_in,
    status_path, watch_step_of, watch_text, Answer, HeadFacts, Reply, WatchEvent, Watched,
};
use crate::number::{decimal, decimal_reads_back, parse_radix};
use crate::text::{
    before_any, has_prefix, lemma_find_sub_from, lower_text, occurs_at, same_letters, split_on,
    trim,
};
use vstd::prelude::*;
use vstd::utf8::{
    encode_utf8, encode_utf8_decode_utf8, encode_utf8_valid_utf8, is_ascii_chars,
    is_ascii_chars_encode_utf8,
};

verus! {

// -------------------------------------------------------------------- heads

/// The head of an answer as it is written.
pub open spec fn answer_text(
    version: Seq<char>,
    status: nat,
    reason: Seq<char>,
    headers: Seq<(Seq<char>, Seq<char>)>,
) -> Seq<char> {
    version + " "@ + decimal(status) + " "@ + reason + "\r\n"@ + written(headers) + "\r\n"@
}

/// The value of the last header of a name, letter case aside.
pub open spec fn last_value(
    headers: Seq<(Seq<char>, Seq<char>)>,
    name: Seq<char>,
) -> Option<Seq<char>>
    decreases headers.len(),
{
    if headers.len() == 0 {
        None
    } else if same_letters(headers.last().0, name) {
        Some(headers.last().1)
    } else {
        last_value(headers.drop_last(), name)
    }
}

/// The line of a header.
pub open spec fn line_of(header: (Seq<char>, Seq<char>)) -> Seq<char> {
    header.0 + ": "@ + header.1
}

proof fn lemma_lines(headers: Seq<(Seq<char>, Seq<char>)>)
    requires
        fit_lines(headers),
    ensures
        split_on(written(headers) + "\r\n"@, "\r\n"@) == headers.map_values(
            |h: (Seq<char>, Seq<char>)| line_of(h),
        ) + seq![Seq::<char>::empty(), Seq::<char>::empty()],
    decreases headers.len(),
{
    reveal_strlit("\r\n");
    let mark = "\r\n"@;
    let none = Seq::<char>::empty();
    let f = |h: (Seq<char>, Seq<char>)| line_of(h);
    let text = written(headers) + mark;
    if headers.len() == 0 {
        assert(text =~= none + mark + none);
        a_first_line_comes_first(none, none);
        crate::laws::texts::one_line(none);
        assert(split_on(text, mark) =~= headers.map_values(f) + seq![none, none]);
    } else {
        let rest = headers.skip(1);
        let line = line_of(headers[0]);
        header_lines_are_read(headers[0]);
        assert(text =~= line + mark + (written(rest) + mark));
        a_first_line_comes_first(line, written(rest) + mark);
        assert forall|i: int| 0 <= i < rest.len() implies fits_a_line(#[trigger] rest[i]) by {
            assert(rest[i] == headers[i + 1]);
        }
        lemma_lines(rest);
        assert(headers.map_values(f) =~= seq![line] + rest.map_values(f));
        assert(split_on(text, mark) =~= headers.map_values(f) + seq![none, none]);
    }
}

proof fn lemma_said(headers: Seq<(Seq<char>, Seq<char>)>)
    requires
        fit_lines(headers),
    ensures
        chunked_in(headers.map_values(|h: (Seq<char>, Seq<char>)| line_of(h))) == (last_value(
            headers,
            "Transfer-Encoding"@,
        ) matches Some(value) && same_letters(value, "chunked"@)),
        etag_in(headers.map_values(|h: (Seq<char>, Seq<char>)| line_of(h))) == last_value(
            headers,
            "ETag"@,
        ),
    decreases headers.len(),
{
    reveal_strlit("Transfer-Encoding");
    reveal_strlit("transfer-encoding");
    reveal_strlit("ETag");
    reveal_strlit("etag");
    reveal_strlit(": ");
    assert(lower_text("Transfer-Encoding"@) =~= lower_text("transfer-encoding"@));
    assert(lower_text("ETag"@) =~= lower_text("etag"@));
    let f = |h: (Seq<char>, Seq<char>)| line_of(h);
    let lines = headers.map_values(f);
    if headers.len() > 0 {
        let front = headers.drop_last();
        let last = headers.last();
        assert(headers[headers.len() - 1] == last);
        assert forall|i: int| 0 <= i < front.len() implies fits_a_line(#[trigger] front[i]) by {
            assert(front[i] == headers[i]);
        }
        lemma_said(front);
        assert(lines.drop_last() =~= front.map_values(f));
        assert(lines.last() == line_of(last));
        let blank = seq![' '];
        let none = Seq::<char>::empty();
        assert(line_of(last) =~= last.0 + seq![':'] + (blank + last.1));
        split_once_at(last.0, ':', blank + last.1);
        trimming_takes_white_space_alone(blank, last.1, none);
        assert(blank + last.1 + none =~= blank + last.1);
    }
}

proof fn lemma_empty_lines(lines: Seq<Seq<char>>)
    ensures
        chunked_in(lines + seq![Seq::<char>::empty(), Seq::<char>::empty()]) == chunked_in(lines),
        etag_in(lines + seq![Seq::<char>::empty(), Seq::<char>::empty()]) == etag_in(lines),
{
    let none = Seq::<char>::empty();
    let all = lines + seq![none, none];
    split_nowhere(none, ':');
    assert(all.last() == none);
    assert(all.drop_last() =~= lines.push(none));
    let part = lines.push(none);
    assert(part.drop_last() =~= lines);
    assert(part.last() == none);
    assert(chunked_in(all) == chunked_in(part) && etag_in(all) == etag_in(part));
    assert(chunked_in(part) == chunked_in(lines) && etag_in(part) == etag_in(lines));
}

/// An answer that can be written down: ASCII, and one line for each of its parts.
pub open spec fn plain_answer(
    version: Seq<char>,
    reason: Seq<char>,
    headers: Seq<(Seq<char>, Seq<char>)>,
) -> bool {
    &&& version.len() > 0 && no_white(version)
    &&& !reason.contains('\n')
    &&& is_ascii_chars(version)
    &&& is_ascii_chars(reason)
    &&& fit_lines(headers)
    &&& is_ascii_chars(written(headers))
}

/// The head of an answer reads as it was written: its status, whether its body is
/// chunked, and the version of what it carries; of several headers of a name the
/// last counts.
pub proof fn answer_heads_are_read(
    version: Seq<char>,
    status: nat,
    reason: Seq<char>,
    headers: Seq<(Seq<char>, Seq<char>)>,
)
    requires
        plain_answer(version, reason, headers),
        status <= 65535,
    ensures
        head_of(encode_utf8(answer_text(version, status, reason, headers))) == Ok::<
            HeadFacts,
            Seq<char>,
        >(
            HeadFacts {
                status,
                chunked: last_value(headers, "Transfer-Encoding"@) matches Some(value)
                    && same_letters(value, "chunked"@),
                etag: last_value(headers, "ETag"@),
            },
        ),
{
    reveal_strlit(" ");
    reveal_strlit("\r\n");
    let text = answer_text(version, status, reason, headers);
    let first = version + " "@ + decimal(status) + " "@ + reason;
    let mark = "\r\n"@;
    let f = |h: (Seq<char>, Seq<char>)| line_of(h);
    encode_utf8_valid_utf8(text);
    encode_utf8_decode_utf8(text);
    lemma_decimal_is_tight(status);
    decimal_reads_back(status, 65535);
    assert(!first.contains('\n')) by {
        if first.contains('\n') {
            let k = choose|k: int| 0 <= k < first.len() && first[k] == '\n';
            let v = version.len() as int;
            let d = decimal(status).len() as int;
            if k < v {
                assert(first[k] == version[k]);
                assert(crate::text::is_white('\n'));
            } else if v < k < v + 1 + d {
                assert(first[k] == decimal(status)[k - v - 1]);
            } else if k > v + 1 + d {
                assert(first[k] == reason[k - v - 2 - d]);
            }
        }
    }
    assert(text =~= first + mark + (written(headers) + mark));
    a_first_line_comes_first(first, written(headers) + mark);
    lemma_lines(headers);
    lemma_said(headers);
    let none = Seq::<char>::empty();
    let rest = headers.map_values(f) + seq![none, none];
    let lines = split_on(text, mark);
    assert(lines =~= seq![first] + rest);
    assert(lines.skip(1) =~= rest);
    lemma_empty_lines(headers.map_values(f));
    assert(!version.contains(' ')) by {
        if version.contains(' ') {
            let k = choose|k: int| 0 <= k < version.len() && version[k] == ' ';
            assert(crate::text::is_white(version[k]));
        }
    }
    a_first_piece_comes_first(version, ' ', decimal(status) + " "@ + reason);
    assert(first =~= version + seq![' '] + (decimal(status) + " "@ + reason));
    a_first_piece_comes_first(decimal(status), ' ', reason);
    assert(decimal(status) + " "@ + reason =~= decimal(status) + seq![' '] + reason);
    let pieces = crate::text::split_char(first, ' ');
    assert(pieces[1] == decimal(status));
}

// ----------------------------------------------------- where the head ends

proof fn lemma_ascii_sum(a: Seq<char>, b: Seq<char>)
    requires
        is_ascii_chars(a),
        is_ascii_chars(b),
    ensures
        encode_utf8(a + b) == encode_utf8(a) + encode_utf8(b),
        is_ascii_chars(a + b),
{
    let s = a + b;
    assert(is_ascii_chars(s)) by {
        assert forall|i| 0 <= i < s.len() implies '\0' <= #[trigger] s[i] <= '\u{7f}' by {
            if i < a.len() {
                assert(s[i] == a[i]);
            } else {
                assert(s[i] == b[i - a.len()]);
            }
        }
    }
    is_ascii_chars_encode_utf8(a);
    is_ascii_chars_encode_utf8(b);
    is_ascii_chars_encode_utf8(s);
    assert forall|i: int| 0 <= i < s.len() implies encode_utf8(s)[i] == (encode_utf8(a)
        + encode_utf8(b))[i] by {
        assert(s[i] as u8 == encode_utf8(s)[i]);
        if i < a.len() {
            assert(s[i] == a[i]);
            assert(a[i] as u8 == encode_utf8(a)[i]);
        } else {
            assert(s[i] == b[i - a.len()]);
            assert(b[i - a.len()] as u8 == encode_utf8(b)[i - a.len()]);
        }
    }
    assert(encode_utf8(s) =~= encode_utf8(a) + encode_utf8(b));
}

proof fn lemma_no_ten(line: Seq<char>)
    requires
        is_ascii_chars(line),
        !line.contains('\n'),
    ensures
        forall|i: int| 0 <= i < encode_utf8(line).len() ==> #[trigger] encode_utf8(line)[i] != 10,
        encode_utf8(line).len() == line.len(),
{
    is_ascii_chars_encode_utf8(line);
    assert forall|i: int| 0 <= i < encode_utf8(line).len() implies #[trigger] encode_utf8(line)[i]
        != 10 by {
        assert(line[i] as u8 == encode_utf8(line)[i]);
        assert(line[i] != '\n');
        assert((line[i] as u32) < 128 && (line[i] as u32) != 10);
    }
}

/// A line, a line break and an empty line: the head ends behind the line.
proof fn lemma_end_here(line: Seq<u8>, body: Seq<u8>)
    requires
        forall|i: int| 0 <= i < line.len() ==> #[trigger] line[i] != 10,
    ensures
        header_end(line + line_break() + line_break() + body) == Some(line.len() as int),
{
    let data = line + line_break() + line_break() + body;
    let n = line.len() as int;
    let blank = blank_line();
    assert forall|k: int| 0 <= k < n implies !#[trigger] occurs_at(data, blank, k) by {
        if occurs_at(data, blank, k) {
            assert(data.subrange(k, k + 4)[1] == data[k + 1]);
            if k + 1 < n {
                assert(data[k + 1] == line[k + 1]);
            } else {
                assert(data[k + 1] == 13);
            }
        }
    }
    assert(data.subrange(n, n + 4) =~= blank);
    found_first_at(data, blank, n);
}

/// A line in front of a head that goes on moves its end by the line.
proof fn lemma_end_later(line: Seq<u8>, tail: Seq<u8>, k: int)
    requires
        forall|i: int| 0 <= i < line.len() ==> #[trigger] line[i] != 10,
        !has_prefix(tail, line_break()),
        header_end(tail) == Some(k),
    ensures
        header_end(line + line_break() + tail) == Some(line.len() + 2 + k),
{
    let data = line + line_break() + tail;
    let n = line.len() as int;
    let blank = blank_line();
    lemma_find_sub_from(tail, blank, 0);
    assert(data.subrange(n + 2 + k, n + 6 + k) =~= tail.subrange(k, k + 4));
    assert forall|j: int| 0 <= j < n + 2 + k implies !#[trigger] occurs_at(data, blank, j) by {
        if occurs_at(data, blank, j) {
            lemma_not_across(line, tail, j);
            assert(occurs_at(tail, blank, j - n - 2));
        }
    }
    found_first_at(data, blank, n + 2 + k);
}

/// An empty line does not stand across a line and what follows it.
proof fn lemma_not_across(line: Seq<u8>, tail: Seq<u8>, j: int)
    requires
        forall|i: int| 0 <= i < line.len() ==> #[trigger] line[i] != 10,
        !has_prefix(tail, line_break()),
        occurs_at(line + line_break() + tail, blank_line(), j),
    ensures
        j >= line.len() + 2,
        occurs_at(tail, blank_line(), j - line.len() - 2),
{
    let data = line + line_break() + tail;
    let n = line.len() as int;
    let found = data.subrange(j, j + 4);
    assert(found[0] == data[j]);
    assert(found[1] == data[j + 1]);
    assert(found[2] == data[j + 2]);
    assert(found[3] == data[j + 3]);
    if j < n {
        if j + 1 < n {
            assert(data[j + 1] == line[j + 1]);
        } else {
            assert(data[j + 1] == 13);
        }
    } else if j == n {
        assert(tail[0] == data[j + 2] && tail[1] == data[j + 3]);
        assert(tail.take(2) =~= line_break());
    } else if j == n + 1 {
        assert(data[j] == 10);
    }
    assert(tail.subrange(j - n - 2, j - n + 2) =~= found);
}

proof fn lemma_head_end(first: Seq<char>, headers: Seq<(Seq<char>, Seq<char>)>, body: Seq<u8>)
    requires
        is_ascii_chars(first),
        !first.contains('\n'),
        fit_lines(headers),
        is_ascii_chars(written(headers)),
    ensures
        ({
            let text = first + "\r\n"@ + written(headers) + "\r\n"@;
            &&& is_ascii_chars(text)
            &&& header_end(encode_utf8(text) + body) == Some(encode_utf8(text).len() - 4)
        }),
    decreases headers.len(),
{
    reveal_strlit("\r\n");
    reveal_strlit(": ");
    let mark = "\r\n"@;
    let text = first + mark + written(headers) + mark;
    assert(is_ascii_chars(mark));
    is_ascii_chars_encode_utf8(mark);
    assert(encode_utf8(mark) =~= line_break()) by {
        assert(mark[0] as u8 == encode_utf8(mark)[0]);
        assert(mark[1] as u8 == encode_utf8(mark)[1]);
    }
    lemma_no_ten(first);
    let line = encode_utf8(first);
    lemma_ascii_sum(first, mark);
    if headers.len() == 0 {
        assert(text =~= first + mark + mark);
        lemma_ascii_sum(first + mark, mark);
        lemma_end_here(line, body);
        assert(encode_utf8(text) + body =~= line + line_break() + line_break() + body);
    } else {
        let next = line_of(headers[0]);
        let rest = headers.skip(1);
        assert(written(headers) =~= next + mark + written(rest));
        let whole = written(headers);
        assert(is_ascii_chars(next)) by {
            assert forall|i| 0 <= i < next.len() implies '\0' <= #[trigger] next[i]
                <= '\u{7f}' by {
                assert(whole[i] == next[i]);
            }
        }
        assert(is_ascii_chars(written(rest))) by {
            let more = written(rest);
            assert forall|i| 0 <= i < more.len() implies '\0' <= #[trigger] more[i]
                <= '\u{7f}' by {
                assert(whole[next.len() + 2 + i] == more[i]);
            }
        }
        header_lines_are_read(headers[0]);
        assert forall|i: int| 0 <= i < rest.len() implies fits_a_line(#[trigger] rest[i]) by {
            assert(rest[i] == headers[i + 1]);
        }
        lemma_head_end(next, rest, body);
        let tail_text = next + mark + written(rest) + mark;
        let tail = encode_utf8(tail_text) + body;
        assert(text =~= first + mark + tail_text);
        lemma_ascii_sum(first + mark, tail_text);
        is_ascii_chars_encode_utf8(tail_text);
        assert(!has_prefix(tail, line_break())) by {
            assert(next.len() >= 2);
            assert(tail_text[1] == next[1]);
            assert(tail_text[1] as u8 == encode_utf8(tail_text)[1]);
            if has_prefix(tail, line_break()) {
                assert(tail.take(2)[1] == tail[1]);
                assert(next[1] != '\n');
                assert((next[1] as u32) < 128 && (next[1] as u32) != 10);
            }
        }
        lemma_end_later(line, tail, encode_utf8(tail_text).len() - 4);
        assert(encode_utf8(text) + body =~= line + line_break() + tail);
    }
}

proof fn lemma_answer_end(
    version: Seq<char>,
    status: nat,
    reason: Seq<char>,
    headers: Seq<(Seq<char>, Seq<char>)>,
    body: Seq<u8>,
)
    requires
        plain_answer(version, reason, headers),
    ensures
        ({
            let head = encode_utf8(answer_text(version, status, reason, headers));
            &&& header_end(head + body) == Some(head.len() - 4)
            &&& (head + body).take(head.len() as int) == head
            &&& (head + body).skip(head.len() as int) == body
        }),
{
    reveal_strlit(" ");
    let first = version + " "@ + decimal(status) + " "@ + reason;
    lemma_decimal_is_tight(status);
    crate::number::lemma_radix_roundtrip(status, 10);
    let digits = decimal(status);
    let v = version.len() as int;
    let d = digits.len() as int;
    assert forall|i| 0 <= i < first.len() implies '\0' <= #[trigger] first[i] <= '\u{7f}'
        && first[i] != '\n' by {
        if i < v {
            assert(first[i] == version[i]);
            assert(crate::text::is_white('\n'));
        } else if v < i < v + 1 + d {
            assert(first[i] == digits[i - v - 1]);
            assert(crate::number::digit_value(digits[i - v - 1], 10) is Some);
        } else if i > v + 1 + d {
            assert(first[i] == reason[i - v - 2 - d]);
        }
    }
    assert(is_ascii_chars(first));
    lemma_head_end(first, headers, body);
    let head = encode_utf8(answer_text(version, status, reason, headers));
    assert((head + body).take(head.len() as int) =~= head);
    assert((head + body).skip(head.len() as int) =~= body);
}

// ------------------------------------------------------------------ answers

/// An answer reads as it was sent: status, version, and the body behind the empty
/// line, byte for byte; of a chunked body the payload, without the framing.
pub proof fn answers_are_read(
    version: Seq<char>,
    status: nat,
    reason: Seq<char>,
    headers: Seq<(Seq<char>, Seq<char>)>,
    body: Seq<u8>,
    chunks: Seq<Seq<u8>>,
)
    requires
        plain_answer(version, reason, headers),
        status <= 65535,
        none_empty(chunks),
        (sent_chunks(chunks) + end_chunk()).len() <= usize::MAX,
    ensures
        ({
            let head = encode_utf8(answer_text(version, status, reason, headers));
            let chunked = last_value(headers, "Transfer-Encoding"@) matches Some(value)
                && same_letters(value, "chunked"@);
            let etag = last_value(headers, "ETag"@);
            &&& !chunked ==> answer_of(head + body) == Ok::<Answer, Seq<char>>(
                Answer { status, etag, body },
            )
            &&& chunked ==> answer_of(head + (sent_chunks(chunks) + end_chunk())) == Ok::<
                Answer,
                Seq<char>,
            >(Answer { status, etag, body: joined(chunks) })
        }),
{
    answer_heads_are_read(version, status, reason, headers);
    lemma_answer_end(version, status, reason, headers, body);
    lemma_answer_end(version, status, reason, headers, sent_chunks(chunks) + end_chunk());
    sent_chunks_decode(chunks);
}

/// The first notification of a watch is the first line of the payload, once it
/// has ended: of a chunked answer, whatever chunks have arrived whole, without
/// their framing.
pub proof fn the_first_notification_is_the_first_line(
    version: Seq<char>,
    reason: Seq<char>,
    headers: Seq<(Seq<char>, Seq<char>)>,
    chunks: Seq<Seq<u8>>,
    n: int,
    m: int,
    line: Seq<u8>,
    more: Seq<u8>,
)
    requires
        plain_answer(version, reason, headers),
        none_empty(chunks),
        (sent_chunks(chunks) + end_chunk()).len() <= usize::MAX,
        0 <= m <= chunks.len(),
        sent_chunks(chunks.take(m)).len() <= n <= (sent_chunks(chunks) + end_chunk()).len(),
        m < chunks.len() ==> n < sent_chunks(chunks.take(m + 1)).len(),
        m == chunks.len() ==> n < sent_chunks(chunks).len() + 3,
        !line.contains(10),
    ensures
        ({
            let head = encode_utf8(answer_text(version, 200, reason, headers));
            let sent = (sent_chunks(chunks) + end_chunk()).take(n);
            let payload = line + seq![10u8] + more;
            let chunked = last_value(headers, "Transfer-Encoding"@) matches Some(value)
                && same_letters(value, "chunked"@);
            &&& chunked && joined(chunks.take(m)) == payload ==> notify_in(head + sent) == Ok::<
                Option<Seq<u8>>,
                Seq<char>,
            >(Some(line))
            &&& chunked && joined(chunks.take(m)) == line ==> notify_in(head + sent) == Ok::<
                Option<Seq<u8>>,
                Seq<char>,
            >(None)
            &&& chunked && joined(chunks) == payload ==> notify_in(
                head + (sent_chunks(chunks) + end_chunk()),
            ) == Ok::<Option<Seq<u8>>, Seq<char>>(Some(line))
            &&& !chunked ==> notify_in(head + payload) == Ok::<Option<Seq<u8>>, Seq<char>>(
                Some(line),
            )
            &&& !chunked ==> notify_in(head + line) == Ok::<Option<Seq<u8>>, Seq<char>>(None)
        }),
{
    let sent = (sent_chunks(chunks) + end_chunk()).take(n);
    let payload = line + seq![10u8] + more;
    answer_heads_are_read(version, 200, reason, headers);
    lemma_answer_end(version, 200, reason, headers, sent);
    lemma_answer_end(version, 200, reason, headers, sent_chunks(chunks) + end_chunk());
    lemma_answer_end(version, 200, reason, headers, payload);
    lemma_answer_end(version, 200, reason, headers, line);
    cut_off_chunks_decode(chunks, n, m);
    sent_chunks_decode(chunks);
    lemma_first_ended_line(line, more);
}

proof fn lemma_first_ended_line(line: Seq<u8>, more: Seq<u8>)
    requires
        !line.contains(10),
    ensures
        first_line_of(line + seq![10u8] + more) == Some(line),
        first_line_of(line) is None,
{
    let feed = seq![10u8];
    let payload = line + feed + more;
    let n = line.len() as int;
    assert forall|k: int| 0 <= k < n implies !#[trigger] occurs_at(payload, feed, k) by {
        if occurs_at(payload, feed, k) {
            assert(payload.subrange(k, k + 1)[0] == payload[k]);
            assert(payload[k] == line[k]);
        }
    }
    assert(payload.subrange(n, n + 1) =~= feed);
    found_first_at(payload, feed, n);
    assert(payload.take(n) =~= line);
    assert forall|j: int| 0 <= j implies !#[trigger] occurs_at(line, feed, j) by {
        if occurs_at(line, feed, j) {
            assert(line.subrange(j, j + 1)[0] == line[j]);
        }
    }
    found_where_it_stands(line, feed);
}

/// An answer other than 200 holds no notification.
pub proof fn refusals_notify_of_nothing(
    version: Seq<char>,
    status: nat,
    reason: Seq<char>,
    headers: Seq<(Seq<char>, Seq<char>)>,
    body: Seq<u8>,
)
    requires
        plain_answer(version, reason, headers),
        status <= 65535,
        status != 200,
    ensures
        notify_in(encode_utf8(answer_text(version, status, reason, headers)) + body) == Ok::<
            Option<Seq<u8>>,
            Seq<char>,
        >(None),
{
    answer_heads_are_read(version, status, reason, headers);
    lemma_answer_end(version, status, reason, headers, body);
}

// ----------------------------------------------------------------- requests

/// The headers of a request to tailscaled.
pub open spec fn request_headers(
    if_match: Option<Seq<char>>,
    body: Option<Seq<u8>>,
) -> Seq<(Seq<char>, Seq<char>)> {
    seq![("Host"@, "local-tailscaled.sock"@), ("Connection"@, "close"@)] + (match if_match {
        Some(etag) => seq![("If-Match"@, etag)],
        None => Seq::empty(),
    }) + (match body {
        Some(bytes) => seq![
            ("Content-Type"@, "application/json"@),
            ("Content-Length"@, decimal(bytes.len())),
        ],
        None => Seq::empty(),
    })
}

/// A request to tailscaled names its method and path, the version that a change
/// is made to, and the length of its body, which follows.
pub proof fn requests_to_tailscaled_are_spelled_out(
    method: Seq<char>,
    path: Seq<char>,
    if_match: Option<Seq<char>>,
    body: Option<Seq<u8>>,
)
    ensures
        request_bytes(method, path, if_match, body) == encode_utf8(
            head_text(method, path, "HTTP/1.1"@, request_headers(if_match, body)),
        ) + (match body {
            Some(bytes) => bytes,
            None => Seq::empty(),
        }),
{
    reveal_strlit("");
    reveal_strlit(" ");
    reveal_strlit(": ");
    reveal_strlit("\r\n");
    reveal_strlit("HTTP/1.1");
    reveal_strlit("Host");
    reveal_strlit("local-tailscaled.sock");
    reveal_strlit("Connection");
    reveal_strlit("close");
    reveal_strlit(" HTTP/1.1\r\nHost: local-tailscaled.sock\r\nConnection: close\r\n");
    reveal_strlit("If-Match");
    reveal_strlit("If-Match: ");
    reveal_strlit("Content-Type");
    reveal_strlit("application/json");
    reveal_strlit("Content-Length");
    reveal_strlit("Content-Type: application/json\r\nContent-Length: ");
    reveal_strlit("\r\n\r\n");
    let a = ("Host"@, "local-tailscaled.sock"@);
    let b = ("Connection"@, "close"@);
    let start = seq![a, b];
    let matched = match if_match {
        Some(etag) => seq![("If-Match"@, etag)],
        None => Seq::empty(),
    };
    let sized = match body {
        Some(bytes) => seq![
            ("Content-Type"@, "application/json"@),
            ("Content-Length"@, decimal(bytes.len())),
        ],
        None => Seq::empty(),
    };
    lemma_written_sum(start, matched);
    lemma_written_sum(start + matched, sized);
    lemma_written_sum(seq![a], seq![b]);
    lemma_written_one(a);
    lemma_written_one(b);
    assert(start =~= seq![a] + seq![b]);
    assert(written(start) =~= "Host"@ + ": "@ + "local-tailscaled.sock"@ + "\r\n"@ + "Connection"@
        + ": "@ + "close"@ + "\r\n"@);
    let matched_text = match if_match {
        Some(etag) => "If-Match: "@ + etag + "\r\n"@,
        None => ""@,
    };
    assert(written(matched) =~= matched_text) by {
        if let Some(etag) = if_match {
            lemma_written_one(("If-Match"@, etag));
        }
    }
    if let Some(bytes) = body {
        let c = ("Content-Type"@, "application/json"@);
        let d = ("Content-Length"@, decimal(bytes.len()));
        lemma_written_sum(seq![c], seq![d]);
        lemma_written_one(c);
        lemma_written_one(d);
        assert(sized =~= seq![c] + seq![d]);
        assert(written(sized) + "\r\n"@ =~= "Content-Type: application/json\r\nContent-Length: "@
            + decimal(bytes.len()) + "\r\n\r\n"@);
    }
    let tail_text = match body {
        Some(bytes) => "Content-Type: application/json\r\nContent-Length: "@ + decimal(bytes.len())
            + "\r\n\r\n"@,
        None => "\r\n"@,
    };
    assert(written(sized) + "\r\n"@ =~= tail_text);
    assert(" HTTP/1.1\r\nHost: local-tailscaled.sock\r\nConnection: close\r\n"@ =~= " "@
        + "HTTP/1.1"@ + "\r\n"@ + written(start));
    assert(request_head(method, path, if_match, body) =~= head_text(
        method,
        path,
        "HTTP/1.1"@,
        request_headers(if_match, body),
    ));
}

/// The watch that opens a session is a request of the same kind.
pub proof fn watches_are_spelled_out()
    ensures
        watch_text() == head_text(
            "GET"@,
            "/localapi/v0/watch-ipn-bus?mask="@ + decimal(4354),
            "HTTP/1.1"@,
            request_headers(None, None),
        ),
{
    reveal_strlit(" ");
    reveal_strlit(": ");
    reveal_strlit("\r\n");
    reveal_strlit("GET");
    reveal_strlit("HTTP/1.1");
    reveal_strlit("Host");
    reveal_strlit("local-tailscaled.sock");
    reveal_strlit("Connection");
    reveal_strlit("close");
    reveal_strlit("/localapi/v0/watch-ipn-bus?mask=");
    reveal_strlit("GET /localapi/v0/watch-ipn-bus?mask=");
    reveal_strlit(" HTTP/1.1\r\nHost: local-tailscaled.sock\r\nConnection: close\r\n\r\n");
    let a = ("Host"@, "local-tailscaled.sock"@);
    let b = ("Connection"@, "close"@);
    lemma_written_sum(seq![a], seq![b]);
    lemma_written_one(a);
    lemma_written_one(b);
    assert(request_headers(None, None) =~= seq![a] + seq![b]);
    assert(watch_text() =~= head_text(
        "GET"@,
        "/localapi/v0/watch-ipn-bus?mask="@ + decimal(4354),
        "HTTP/1.1"@,
        request_headers(None, None),
    ));
}

/// The status, and the Serve configuration with its version, are the text that a
/// good answer carries; any other answer is an error, and so is a configuration
/// without a version.
pub proof fn good_answers_carry_their_text(text: Seq<char>, etag: Seq<char>, answer: Answer)
    ensures
        ({
            let body = encode_utf8(text);
            &&& status_in(Ok(Answer { status: 200, etag: None, body })) == Ok::<
                Seq<char>,
                Seq<char>,
            >(text)
            &&& config_in(Ok(Answer { status: 200, etag: Some(etag), body })) == Ok::<
                (Seq<char>, Seq<char>),
                Seq<char>,
            >((text, etag))
            &&& config_in(Ok(Answer { status: 200, etag: None, body })) is Err
        }),
        answer.status != 200 ==> status_in(Ok(answer)) is Err && config_in(Ok(answer)) is Err,
{
    encode_utf8_valid_utf8(text);
    encode_utf8_decode_utf8(text);
}

/// A refusal says what was asked for and what tailscaled said; a denied one says
/// how access is given.
pub proof fn failures_say_what_was_refused(answer: Answer, action: Seq<char>, said: Seq<char>)
    requires
        trim(lossy_text(answer.body)) == said,
    ensures
        answer.status != 403 ==> failure_text(answer, action) == action
            + ": tailscaled answered "@ + decimal(answer.status) + " "@ + said,
        answer.status == 403 ==> failure_text(answer, action) == action
            + ": tailscaled denied access ("@ + said
            + "); an administrator can allow it with: sudo tailscale set --operator=$USER"@,
{
}

/// A watch goes on until its first notification has ended, over however many
/// reads; up to 4 MiB are waited for.
pub proof fn watches_wait_for_their_line(raw: Seq<u8>, piece: Vec<u8>, line: Seq<u8>)
    ensures
        notify_in(raw + piece@) == Ok::<Option<Seq<u8>>, Seq<char>>(Some(line)) ==> watch_step_of(
            raw,
            WatchEvent::Data(piece),
        ) == Watched::Line(line),
        notify_in(raw + piece@) == Ok::<Option<Seq<u8>>, Seq<char>>(None) ==> watch_step_of(
            raw,
            WatchEvent::Data(piece),
        ) == (if (raw + piece@).len() <= 4 * 1024 * 1024 {
            Watched::More
        } else {
            Watched::Failed("watch tailscaled: response too large"@)
        }),
        watch_step_of(raw, WatchEvent::Interrupted) is More,
        watch_step_of(raw, WatchEvent::Closed) is Failed,
{
}

/// An answer of up to 4 MiB is taken; a larger one is refused, and every failure
/// says of which request.
pub proof fn exchanges_are_bounded(
    socket: Seq<char>,
    method: Seq<char>,
    path: Seq<char>,
    raw: Vec<u8>,
)
    ensures
        raw@.len() <= 4 * 1024 * 1024 && answer_of(raw@) is Ok ==> exchanged(
            socket,
            method,
            path,
            Reply::Bytes(raw),
        ) == answer_of(raw@),
        raw@.len() > 4 * 1024 * 1024 ==> exchanged(
            socket,
            method,
            path,
            Reply::Bytes(raw),
        ) == Err::<Answer, Seq<char>>(method + " "@ + path + ": response too large"@),
        exchanged(socket, method, path, Reply::Bytes(raw)) matches Err(message) ==> has_prefix(
            message,
            method + " "@ + path + ": "@,
        ),
{
    reveal_strlit(": ");
    reveal_strlit("response too large");
    reveal_strlit(": response too large");
    let start = method + " "@ + path + ": "@;
    assert(start + "response too large"@ =~= method + " "@ + path + ": response too large"@);
    if let Err(message) = exchanged(socket, method, path, Reply::Bytes(raw)) {
        assert(message.take(start.len() as int) =~= start);
    }
}

/// The status and the Serve configuration are asked for by their paths.
pub proof fn questions_name_their_path()
    ensures
        request_bytes("GET"@, status_path(), None, None) == encode_utf8(
            head_text(
                "GET"@,
                "/localapi/v0/status?peers=false"@,
                "HTTP/1.1"@,
                request_headers(None, None),
            ),
        ),
        request_bytes("GET"@, config_path(), None, None) == encode_utf8(
            head_text(
                "GET"@,
                "/localapi/v0/serve-config"@,
                "HTTP/1.1"@,
                request_headers(None, None),
            ),
        ),
{
    requests_to_tailscaled_are_spelled_out("GET"@, status_path(), None, None);
    requests_to_tailscaled_are_spelled_out("GET"@, config_path(), None, None);
}

/// A route can be added to every document that is an object or null and whose
/// sessions, where it has any, are: it becomes one more session, and all else is
/// kept. A text that is no document takes none.
pub proof fn every_configuration_takes_a_route(
    config: Seq<char>,
    document: serde_json::Value,
    session: Seq<char>,
    port: nat,
    authority: Seq<char>,
    bridge: Seq<char>,
)
    ensures
        ({
            let result = routed(config, session, port, authority, bridge);
            let route = route_value(port, authority, bridge);
            let root = if is_null_value(document) {
                Map::empty()
            } else {
                object_members(document)->Some_0
            };
            let known = is_null_value(document) || object_members(document) is Some;
            let held = root["Foreground"@];
            let sessions = if !root.dom().contains("Foreground"@) || is_null_value(held) {
                Map::empty()
            } else {
                object_members(held)->Some_0
            };
            let usable = !root.dom().contains("Foreground"@) || is_null_value(held)
                || object_members(held) is Some;
            &&& read_value(config) is Err ==> result is Err
            &&& read_value(config) == Ok::<serde_json::Value, Seq<char>>(document) && known
                && usable ==> result == Ok::<serde_json::Value, Seq<char>>(
                object_value(
                    root.insert("Foreground"@, object_value(sessions.insert(session, route))),
                ),
            )
            &&& read_value(config) == Ok::<serde_json::Value, Seq<char>>(document) && !known
                ==> result is Err
        }),
{
}

/// An answer whose head has not ended is cut off, and notifies of nothing yet.
pub proof fn heads_that_have_not_ended_say_nothing(raw: Seq<u8>)
    requires
        no_empty_line(raw),
    ensures
        answer_of(raw) == Err::<Answer, Seq<char>>("truncated response"@),
        notify_in(raw) == Ok::<Option<Seq<u8>>, Seq<char>>(None),
{
    lemma_no_end(raw);
}

/// A head whose first line holds no status is refused.
pub proof fn heads_without_a_status_are_refused(first: Seq<char>, rest: Seq<char>)
    requires
        !first.contains(' '),
        !first.contains('\n'),
    ensures
        head_of(encode_utf8(first + "\r\n"@ + rest)) == Err::<HeadFacts, Seq<char>>(
            "invalid response status"@,
        ),
{
    let text = first + "\r\n"@ + rest;
    encode_utf8_valid_utf8(text);
    encode_utf8_decode_utf8(text);
    a_first_line_comes_first(first, rest);
    split_nowhere(first, ' ');
}

/// The size of a chunk is the hexadecimal number up to an extension, white space
/// aside; the chunk follows, byte for byte, and then the rest. A size that is no
/// such number is refused.
pub proof fn chunks_follow_their_size(
    before: Seq<char>,
    digits: Seq<char>,
    after: Seq<char>,
    extension: Seq<char>,
    chunk: Seq<u8>,
    rest: Seq<u8>,
)
    requires
        all_white(before),
        all_white(after),
        tight(digits),
        !before.contains(';') && !digits.contains(';') && !after.contains(';'),
        extension.len() == 0 || extension[0] == ';',
        is_ascii_chars(before + digits + after + extension),
        !(before + digits + after + extension).contains('\n'),
        chunk.len() > 0,
        (before + digits + after + extension).len() + 4 + chunk.len() <= usize::MAX,
    ensures
        ({
            let line = encode_utf8(before + digits + after + extension);
            let data = line + line_break() + chunk + line_break() + rest;
            &&& parse_radix(digits, 16, usize::MAX as nat) == Some(chunk.len()) ==> chunks_of(data)
                == (match chunks_of(rest) {
                Ok((payload, done)) => Ok::<(Seq<u8>, bool), Seq<char>>((chunk + payload, done)),
                Err(message) => Err(message),
            })
            &&& parse_radix(digits, 16, usize::MAX as nat) is None ==> chunks_of(data) == Err::<
                (Seq<u8>, bool),
                Seq<char>,
            >("invalid chunk size"@)
        }),
{
    let text = before + digits + after + extension;
    let line = encode_utf8(text);
    let data = line + line_break() + chunk + line_break() + rest;
    let tail = chunk + line_break() + rest;
    lemma_no_ten(text);
    assert(!line.contains(10));
    lemma_break_behind(line, tail);
    assert(data =~= line + line_break() + tail);
    let n = line.len() as int;
    assert(data.take(n) =~= line);
    encode_utf8_valid_utf8(text);
    encode_utf8_decode_utf8(text);
    lemma_size_text(before, digits, after, extension);
    let size = chunk.len() as int;
    assert(data.subrange(n + 2, n + 2 + size) =~= chunk);
    assert(data.skip(n + 2 + size + 2) =~= rest);
}

proof fn lemma_size_text(
    before: Seq<char>,
    digits: Seq<char>,
    after: Seq<char>,
    extension: Seq<char>,
)
    requires
        all_white(before),
        all_white(after),
        tight(digits),
        !before.contains(';') && !digits.contains(';') && !after.contains(';'),
        extension.len() == 0 || extension[0] == ';',
    ensures
        trim(before_any(before + digits + after + extension, seq![';'])) == digits,
{
    let ends = seq![';'];
    let front = before + digits + after;
    assert forall|i: int| 0 <= i < front.len() implies !ends.contains(#[trigger] front[i]) by {
        if i < before.len() {
            assert(front[i] == before[i]);
        } else if i < before.len() + digits.len() {
            assert(front[i] == digits[i - before.len()]);
        } else {
            assert(front[i] == after[i - before.len() - digits.len()]);
        }
        assert(ends[0] == ';');
    }
    assert(ends.contains(';')) by {
        assert(ends[0] == ';');
    }
    before_the_first_of(front, ends, extension);
    trimming_takes_white_space_alone(before, digits, after);
}

} // verus!
