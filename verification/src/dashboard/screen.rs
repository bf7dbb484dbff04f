//! What the dashboard writes: one table, or a frame of the screen.

use crate::dashboard::rows::{entries, Entry, Row};
use crate::dashboard::state::{Board, State};
use crate::number::{decimal, decimal_string, write_radix};
use crate::text::{chars_of, join, join_strings, push_chars, string_of, trim_end, trimmed_end};
use vstd::prelude::*;
use vstd::slice::slice_subrange;

verus! {

// ------------------------------------------------------------------ fitting

/// `count` spaces.
pub open spec fn spaces(count: int) -> Seq<char> {
    Seq::new(
        if count > 0 {
            count as nat
        } else {
            0
        },
        |i: int| ' ',
    )
}

/// `text` at the right of `width` characters.
pub open spec fn right(text: Seq<char>, width: int) -> Seq<char> {
    spaces(width - text.len()) + text
}

/// `text` at the left of `width` characters.
pub open spec fn left(text: Seq<char>, width: int) -> Seq<char> {
    text + spaces(width - text.len())
}

/// The start of `text`, cut to `width` characters with an ellipsis.
pub open spec fn cut(text: Seq<char>, width: int) -> Seq<char> {
    if text.len() <= width {
        text
    } else {
        text.take(
            if width > 0 {
                width - 1
            } else {
                0
            },
        ).push('…')
    }
}

/// The end of `text`, cut to `width` characters with an ellipsis.
pub open spec fn cut_front(text: Seq<char>, width: int) -> Seq<char> {
    if text.len() <= width {
        text
    } else {
        seq!['…'] + text.skip(
            text.len() + 1 - if width > 1 {
                width
            } else {
                1
            },
        )
    }
}

fn push_spaces(out: &mut Vec<char>, count: usize)
    ensures
        final(out)@ == old(out)@ + spaces(count as int),
{
    let ghost start = out@;
    let mut i: usize = 0;
    assert(start + spaces(0) =~= start);
    while i < count
        invariant
            i <= count,
            out@ == start + spaces(i as int),
        decreases count - i,
    {
        out.push(' ');
        i = i + 1;
        assert(out@ =~= start + spaces(i as int));
    }
}

fn push_right(out: &mut Vec<char>, text: &[char], width: usize)
    ensures
        final(out)@ == old(out)@ + right(text@, width as int),
{
    let ghost start = out@;
    if text.len() < width {
        push_spaces(out, width - text.len());
    } else {
        assert(start + spaces(width - text@.len()) =~= start);
    }
    push_chars(out, text);
    assert(out@ =~= start + right(text@, width as int));
}

fn push_left(out: &mut Vec<char>, text: &[char], width: usize)
    ensures
        final(out)@ == old(out)@ + left(text@, width as int),
{
    let ghost start = out@;
    push_chars(out, text);
    if text.len() < width {
        push_spaces(out, width - text.len());
    } else {
        assert(start + text@ + spaces(width - text@.len()) =~= start + text@);
    }
    assert(out@ =~= start + left(text@, width as int));
}

fn cut_to(text: &[char], width: usize) -> (r: Vec<char>)
    ensures
        r@ == cut(text@, width as int),
{
    if text.len() <= width {
        vstd::slice::slice_to_vec(text)
    } else {
        let keep: usize = if width > 0 {
            width - 1
        } else {
            0
        };
        let mut out: Vec<char> = vstd::slice::slice_to_vec(slice_subrange(text, 0, keep));
        assert(out@ =~= text@.take(keep as int));
        out.push('…');
        out
    }
}

fn cut_front_to(text: &[char], width: usize) -> (r: Vec<char>)
    ensures
        r@ == cut_front(text@, width as int),
{
    let count: usize = text.len();
    if count <= width {
        vstd::slice::slice_to_vec(text)
    } else {
        let room: usize = if width > 1 {
            width
        } else {
            1
        };
        let rest: &[char] = slice_subrange(text, count - (room - 1), count);
        assert(rest@ =~= text@.skip(count + 1 - room));
        let mut out: Vec<char> = Vec::new();
        out.push('…');
        push_chars(&mut out, rest);
        assert(out@ =~= cut_front(text@, width as int));
        out
    }
}

/// Truncates to `width` characters, marking the cut with an ellipsis.
pub fn fit(text: &str, width: usize) -> (r: String)
    ensures
        r@ == cut(text@, width as int),
{
    let chars: Vec<char> = chars_of(text);
    let out: Vec<char> = cut_to(chars.as_slice(), width);
    string_of(out.as_slice())
}

/// Like `fit`, but keeps the end: a directory's last components name it.
pub fn fit_tail(text: &str, width: usize) -> (r: String)
    ensures
        r@ == cut_front(text@, width as int),
{
    let chars: Vec<char> = chars_of(text);
    let out: Vec<char> = cut_front_to(chars.as_slice(), width);
    string_of(out.as_slice())
}

// ------------------------------------------------------------------ columns

/// The widths of the columns.
#[derive(Clone, Copy, Debug, PartialEq, Eq, Structural)]
pub struct Columns {
    pub pid: usize,
    pub listen: usize,
    pub url: usize,
    pub dir: usize,
}

/// What a row shows in each column.
pub open spec fn listen_text(row: Entry) -> Seq<char> {
    join(row.endpoints, " "@)
}

/// The URLs of a row.
pub open spec fn url_text(row: Entry) -> Seq<char> {
    join(row.urls, " "@)
}

/// The greatest of the lengths that `f` gives the rows.
pub open spec fn widest(rows: Seq<Entry>, f: spec_fn(Entry) -> nat) -> nat
    decreases rows.len(),
{
    if rows.len() == 0 {
        0
    } else {
        let before = widest(rows.drop_last(), f);
        if f(rows.last()) > before {
            f(rows.last())
        } else {
            before
        }
    }
}

/// A column's width: its widest value, at least its heading, at most a cap.
pub open spec fn column_width(value: nat, heading: nat, cap: nat) -> nat {
    let wide = if value > heading {
        value
    } else {
        heading
    };
    if wide < cap {
        wide
    } else {
        cap
    }
}

/// The widths of the columns for `rows`.
pub open spec fn columns_of(rows: Seq<Entry>) -> Columns {
    Columns {
        pid: column_width(
            widest(rows, |row: Entry| decimal(row.pid as nat).len()),
            3,
            10,
        ) as usize,
        listen: column_width(
            widest(rows, |row: Entry| listen_text(row).len()),
            6,
            32,
        ) as usize,
        url: column_width(widest(rows, |row: Entry| url_text(row).len()), 3, 56) as usize,
        dir: column_width(widest(rows, |row: Entry| row.dir.len()), 3, 32) as usize,
    }
}

fn capped(value: usize, heading: usize, cap: usize) -> (r: usize)
    ensures
        r == column_width(value as nat, heading as nat, cap as nat),
{
    let wide: usize = if value > heading {
        value
    } else {
        heading
    };
    if wide < cap {
        wide
    } else {
        cap
    }
}

fn joined(list: &Vec<String>) -> (r: Vec<char>)
    ensures
        r@ == join(crate::text::texts(list@), " "@),
{
    let text: String = join_strings(list, " ");
    chars_of(text.as_str())
}

fn greater(a: usize, b: usize) -> (r: usize)
    ensures
        r == if a > b {
            a
        } else {
            b
        },
{
    if a > b {
        a
    } else {
        b
    }
}

/// The widths of the columns for `rows`.
pub fn columns(rows: &Vec<Row>) -> (r: Columns)
    ensures
        r == columns_of(entries(rows@)),
{
    let ghost all = entries(rows@);
    let ghost f1 = |row: Entry| decimal(row.pid as nat).len();
    let ghost f2 = |row: Entry| listen_text(row).len();
    let ghost f3 = |row: Entry| url_text(row).len();
    let ghost f4 = |row: Entry| row.dir.len();
    let mut pid: usize = 0;
    let mut listen: usize = 0;
    let mut url: usize = 0;
    let mut dir: usize = 0;
    let mut i: usize = 0;
    assert(all.take(0) =~= Seq::empty());
    while i < rows.len()
        invariant
            i <= rows@.len(),
            all == entries(rows@),
            f1 == (|row: Entry| decimal(row.pid as nat).len()),
            f2 == (|row: Entry| listen_text(row).len()),
            f3 == (|row: Entry| url_text(row).len()),
            f4 == (|row: Entry| row.dir.len()),
            pid == widest(all.take(i as int), f1),
            listen == widest(all.take(i as int), f2),
            url == widest(all.take(i as int), f3),
            dir == widest(all.take(i as int), f4),
        decreases rows@.len() - i,
    {
        assert(all.take(i + 1).drop_last() =~= all.take(i as int));
        assert(all.take(i + 1).last() == rows@[i as int]@);
        let number: Vec<char> = write_radix(rows[i].pid as u64, 10);
        let ends: Vec<char> = joined(&rows[i].endpoints);
        let urls: Vec<char> = joined(&rows[i].urls);
        let place: Vec<char> = chars_of(rows[i].dir.as_str());
        pid = greater(number.len(), pid);
        listen = greater(ends.len(), listen);
        url = greater(urls.len(), url);
        dir = greater(place.len(), dir);
        i = i + 1;
    }
    assert(all.take(i as int) =~= all);
    Columns {
        pid: capped(pid, 3, 10),
        listen: capped(listen, 6, 32),
        url: capped(url, 3, 56),
        dir: capped(dir, 3, 32),
    }
}

/// The line of a row.
pub open spec fn row_text(row: Entry, columns: Columns) -> Seq<char> {
    right(decimal(row.pid as nat), columns.pid as int) + "  "@ + left(
        cut(listen_text(row), columns.listen as int),
        columns.listen as int,
    ) + "  "@ + left(
        cut(
            if row.urls.len() == 0 {
                "-"@
            } else {
                url_text(row)
            },
            columns.url as int,
        ),
        columns.url as int,
    ) + "  "@ + left(cut_front(row.dir, columns.dir as int), columns.dir as int) + "  "@
        + row.command
}

/// The heading.
pub open spec fn heading(columns: Columns) -> Seq<char> {
    right("PID"@, columns.pid as int) + "  "@ + left("LISTEN"@, columns.listen as int) + "  "@
        + left("URL"@, columns.url as int) + "  "@ + left("DIR"@, columns.dir as int) + "  "@
        + "COMMAND"@
}

fn push_text(out: &mut Vec<char>, text: &str)
    ensures
        final(out)@ == old(out)@ + text@,
{
    let chars: Vec<char> = chars_of(text);
    push_chars(out, chars.as_slice());
}

fn row_chars(row: &Row, columns: &Columns) -> (r: Vec<char>)
    ensures
        r@ == row_text(row@, *columns),
{
    let mut out: Vec<char> = Vec::new();
    let number: Vec<char> = write_radix(row.pid as u64, 10);
    push_right(&mut out, number.as_slice(), columns.pid);
    assert(out@ =~= right(decimal(row.pid as nat), columns.pid as int));
    push_text(&mut out, "  ");
    let ends: Vec<char> = joined(&row.endpoints);
    let ends_cut: Vec<char> = cut_to(ends.as_slice(), columns.listen);
    push_left(&mut out, ends_cut.as_slice(), columns.listen);
    push_text(&mut out, "  ");
    assert(row@.urls.len() == row.urls@.len());
    let urls: Vec<char> = if row.urls.len() == 0 {
        chars_of("-")
    } else {
        joined(&row.urls)
    };
    let urls_cut: Vec<char> = cut_to(urls.as_slice(), columns.url);
    push_left(&mut out, urls_cut.as_slice(), columns.url);
    push_text(&mut out, "  ");
    let place: Vec<char> = chars_of(row.dir.as_str());
    let place_cut: Vec<char> = cut_front_to(place.as_slice(), columns.dir);
    push_left(&mut out, place_cut.as_slice(), columns.dir);
    push_text(&mut out, "  ");
    push_text(&mut out, row.command.as_str());
    out
}

/// The line of a row.
pub fn row_line(row: &Row, columns: &Columns) -> (r: String)
    ensures
        r@ == row_text(row@, *columns),
{
    let out: Vec<char> = row_chars(row, columns);
    string_of(out.as_slice())
}

/// The heading.
pub fn header_line(columns: &Columns) -> (r: String)
    ensures
        r@ == heading(*columns),
{
    let mut out: Vec<char> = Vec::new();
    let pid: Vec<char> = chars_of("PID");
    push_right(&mut out, pid.as_slice(), columns.pid);
    assert(out@ =~= right("PID"@, columns.pid as int));
    push_text(&mut out, "  ");
    let listen: Vec<char> = chars_of("LISTEN");
    push_left(&mut out, listen.as_slice(), columns.listen);
    push_text(&mut out, "  ");
    let url: Vec<char> = chars_of("URL");
    push_left(&mut out, url.as_slice(), columns.url);
    push_text(&mut out, "  ");
    let dir: Vec<char> = chars_of("DIR");
    push_left(&mut out, dir.as_slice(), columns.dir);
    push_text(&mut out, "  ");
    push_text(&mut out, "COMMAND");
    string_of(out.as_slice())
}

// -------------------------------------------------------------------- table

/// The rows as lines of a table.
pub open spec fn table_rows(rows: Seq<Entry>, columns: Columns) -> Seq<char>
    decreases rows.len(),
{
    if rows.len() == 0 {
        ""@
    } else {
        table_rows(rows.drop_last(), columns) + trim_end(row_text(rows.last(), columns)) + "\n"@
    }
}

/// Why there are no URLs.
pub open spec fn note_text(note: Seq<char>) -> Seq<char> {
    "Tailscale URLs unavailable: "@ + note
}

/// The whole table, as it is printed once.
pub open spec fn table(board: Board) -> Seq<char> {
    let columns = columns_of(board.rows);
    heading(columns) + "\n"@ + table_rows(board.rows, columns) + (match board.note {
        Some(note) => note_text(note) + "\n"@,
        None => ""@,
    })
}

/// The table of all rows, for output that is no terminal.
pub fn print_table(state: &State) -> (r: String)
    ensures
        r@ == table(state@),
{
    let widths: Columns = columns(&state.rows);
    let mut text: String = header_line(&widths);
    text.append("\n");
    let ghost all = entries(state.rows@);
    let mut body: String = "".to_owned();
    let mut i: usize = 0;
    assert(all.take(0) =~= Seq::empty());
    while i < state.rows.len()
        invariant
            i <= state.rows@.len(),
            all == entries(state.rows@),
            body@ == table_rows(all.take(i as int), widths),
        decreases state.rows@.len() - i,
    {
        assert(all.take(i + 1).drop_last() =~= all.take(i as int));
        assert(all.take(i + 1).last() == state.rows@[i as int]@);
        let line: Vec<char> = row_chars(&state.rows[i], &widths);
        let kept: String = string_of(trimmed_end(line.as_slice()));
        body.append(kept.as_str());
        body.append("\n");
        i = i + 1;
    }
    assert(all.take(i as int) =~= all);
    text.append(body.as_str());
    let mut tail: String = "".to_owned();
    match &state.tailscale_note {
        Some(note) => {
            tail = "Tailscale URLs unavailable: ".to_owned();
            tail.append(note.as_str());
            tail.append("\n");
        },
        None => {},
    }
    text.append(tail.as_str());
    text
}

// -------------------------------------------------------------------- frame

/// How many rows fit: all but the title, two blank lines, the heading, the
/// message and the keys.
pub open spec fn visible_rows(height: int) -> int {
    if height > 7 {
        height - 6
    } else {
        1
    }
}

/// The first row shown: moved as little as keeps the selection in view.
pub open spec fn scrolled(board: Board, visible: int) -> int {
    let moved = if board.selected < board.offset {
        board.selected
    } else if board.selected >= board.offset + visible {
        board.selected + 1 - visible
    } else {
        board.offset
    };
    let most = if board.rows.len() > visible {
        board.rows.len() - visible
    } else {
        0
    };
    if moved < most {
        moved
    } else {
        most
    }
}

/// One line of the frame: cleared, styled, cut to the width.
pub open spec fn frame_line(text: Seq<char>, style: Seq<char>, width: int) -> Seq<char> {
    "\x1b[2K"@ + style + cut(text, width) + (if style.len() > 0 {
        "\x1b[0m"@
    } else {
        ""@
    }) + "\r\n"@
}

/// The lines of the rows from `from` up to `to`, the selected one inverted.
pub open spec fn frame_rows(
    board: Board,
    columns: Columns,
    from: int,
    to: int,
    width: int,
) -> Seq<char>
    decreases to - from,
{
    if to <= from {
        ""@
    } else {
        frame_rows(board, columns, from, to - 1, width) + frame_line(
            left(row_text(board.rows[to - 1], columns), width),
            if to - 1 == board.selected {
                "\x1b[7m"@
            } else {
                ""@
            },
            width,
        )
    }
}

/// The title.
pub open spec fn title(count: nat) -> Seq<char> {
    "poros dashboard: "@ + decimal(count) + " listening server"@ + (if count == 1 {
        ""@
    } else {
        "s"@
    })
}

/// The message line: what was last said, and otherwise why there are no URLs.
pub open spec fn message_line(board: Board) -> Seq<char> {
    if board.message.len() > 0 {
        board.message
    } else {
        match board.note {
            Some(note) => note_text(note),
            None => ""@,
        }
    }
}

/// The end of the rows that are shown.
pub open spec fn shown_end(board: Board, visible: int) -> int {
    if board.offset + visible < board.rows.len() {
        board.offset + visible
    } else {
        board.rows.len() as int
    }
}

/// A frame of the screen.
pub open spec fn frame(board: Board, width: int, height: int) -> Seq<char> {
    let columns = columns_of(board.rows);
    "\x1b[H"@ + frame_line(title(board.rows.len()), "\x1b[1m"@, width) + frame_line(""@, ""@, width)
        + frame_line(heading(columns), "\x1b[2m"@, width) + (if board.rows.len() == 0 {
        frame_line("No listening TCP servers owned by this user."@, ""@, width)
    } else {
        ""@
    }) + frame_rows(
        board,
        columns,
        board.offset,
        shown_end(board, visible_rows(height)),
        width,
    ) + frame_line(""@, ""@, width) + frame_line(message_line(board), ""@, width)
        + "\x1b[2K\x1b[2m"@ + cut("↑/↓ or j/k select   x stop   r refresh   q quit"@, width)
        + "\x1b[0m\x1b[J"@
}

fn line(text: &str, style: &str, width: usize) -> (r: String)
    ensures
        r@ == frame_line(text@, style@, width as int),
{
    let mut out: String = "\x1b[2K".to_owned();
    out.append(style);
    let kept: String = fit(text, width);
    out.append(kept.as_str());
    let marks: Vec<char> = chars_of(style);
    if marks.len() > 0 {
        out.append("\x1b[0m");
    } else {
        out.append("");
    }
    out.append("\r\n");
    out
}

fn row_lines(state: &State, widths: &Columns, from: usize, to: usize, width: usize) -> (r: String)
    requires
        from <= to <= state.rows@.len(),
    ensures
        r@ == frame_rows(state@, *widths, from as int, to as int, width as int),
{
    let mut out: String = "".to_owned();
    let mut i: usize = from;
    while i < to
        invariant
            from <= i <= to <= state.rows@.len(),
            out@ == frame_rows(state@, *widths, from as int, i as int, width as int),
        decreases to - i,
    {
        assert(state@.rows[i as int] == state.rows@[i as int]@);
        let text: Vec<char> = row_chars(&state.rows[i], widths);
        let mut wide: Vec<char> = Vec::new();
        push_left(&mut wide, text.as_slice(), width);
        assert(wide@ =~= left(text@, width as int));
        let shown: String = string_of(wide.as_slice());
        let row: String = if i == state.selected {
            line(shown.as_str(), "\x1b[7m", width)
        } else {
            line(shown.as_str(), "", width)
        };
        out.append(row.as_str());
        i = i + 1;
    }
    out
}

fn scroll(state: &mut State, visible: usize)
    requires
        visible >= 1,
    ensures
        final(state)@ == (Board { offset: scrolled(old(state)@, visible as int), ..old(state)@ }),
{
    let count: usize = state.rows.len();
    assert(state@.rows.len() == count);
    let mut offset: usize = state.offset;
    if state.selected < offset {
        offset = state.selected;
    } else if state.selected - offset >= visible {
        offset = state.selected - (visible - 1);
    }
    let most: usize = if count > visible {
        count - visible
    } else {
        0
    };
    if offset >= most {
        offset = most;
    }
    state.offset = offset;
}

/// Draws the screen: scrolls so that the selection is in view, and gives the
/// bytes to write as text.
pub fn render(state: &mut State, width: usize, height: usize) -> (r: String)
    ensures
        final(state)@ == (Board {
            offset: scrolled(old(state)@, visible_rows(height as int)),
            ..old(state)@
        }),
        r@ == frame(final(state)@, width as int, height as int),
{
    let visible: usize = if height > 7 {
        height - 6
    } else {
        1
    };
    scroll(state, visible);
    let widths: Columns = columns(&state.rows);
    let count: usize = state.rows.len();
    assert(state@.rows.len() == count);
    let mut name: String = "poros dashboard: ".to_owned();
    let number: String = decimal_string(count as u64);
    name.append(number.as_str());
    name.append(" listening server");
    if count == 1 {
        name.append("");
    } else {
        name.append("s");
    }
    let mut out: String = "\x1b[H".to_owned();
    let head: String = line(name.as_str(), "\x1b[1m", width);
    out.append(head.as_str());
    let blank: String = line("", "", width);
    out.append(blank.as_str());
    let labels: String = header_line(&widths);
    let styled: String = line(labels.as_str(), "\x1b[2m", width);
    out.append(styled.as_str());
    let mut none: String = "".to_owned();
    if count == 0 {
        none = line("No listening TCP servers owned by this user.", "", width);
    }
    out.append(none.as_str());
    let end: usize = if state.offset < count && visible < count - state.offset {
        state.offset + visible
    } else {
        count
    };
    let body: String = row_lines(state, &widths, state.offset, end, width);
    out.append(body.as_str());
    out.append(blank.as_str());
    let said: Vec<char> = chars_of(state.message.as_str());
    let mut message: String = "".to_owned();
    if said.len() > 0 {
        message = state.message.clone();
    } else {
        match &state.tailscale_note {
            Some(note) => {
                message = "Tailscale URLs unavailable: ".to_owned();
                message.append(note.as_str());
            },
            None => {},
        }
    }
    let shown: String = line(message.as_str(), "", width);
    out.append(shown.as_str());
    out.append("\x1b[2K\x1b[2m");
    let keys: String = fit("↑/↓ or j/k select   x stop   r refresh   q quit", width);
    out.append(keys.as_str());
    out.append("\x1b[0m\x1b[J");
    out
}

// --------------------------------------------------------------------- laws

/// The selected row is always in view: a frame starts no later than it and ends
/// behind it.
pub proof fn selection_is_in_view(board: Board, height: int)
    requires
        0 <= board.offset,
        0 <= board.selected < board.rows.len(),
    ensures
        ({
            let visible = visible_rows(height);
            let offset = scrolled(board, visible);
            offset <= board.selected < shown_end(Board { offset, ..board }, visible)
        }),
{
}

/// A cut text is never wider than its column.
pub proof fn cut_texts_fit(text: Seq<char>, width: int)
    requires
        width >= 1,
    ensures
        cut(text, width).len() <= width,
        cut_front(text, width).len() <= width,
        text.len() <= width ==> cut(text, width) == text && cut_front(text, width) == text,
{
}

} // verus!
