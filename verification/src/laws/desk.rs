//! The dashboard in use: keys, the selection, questions, and what is drawn.

use crate::dashboard::keys::{key_at, keys_from, lemma_sequence_end, sequence_end, Key};
use crate::dashboard::rows::{home_path, Entry};
use crate::dashboard::screen::{
    columns_of, cut, cut_front, frame, frame_line, frame_rows, heading, left, listen_text, row_text,
    scrolled, shown_end, spaces, table, table_rows, title, url_text, visible_rows, widest, Columns,
};
use crate::dashboard::state::{
    ahead, all_placed, directory_for, first_word_of, key_step, placed, question, report, reported,
    routes_due, routes_loaded, row_of, scan_due, scan_key, settled, Action, Board, Pending,
    StopOrder, AFTER_STOP_REFRESH, REFRESH_INTERVAL,
};
use crate::discovery::{Listener, Process};
use crate::laws::texts::{a_word_and_a_blank, no_white, one_word, split_last_at, split_nowhere};
use crate::number::decimal;
use crate::text::{after_last, has_prefix, has_suffix, join, occurs_at, trim_end};
use vstd::prelude::*;

verus! {

// --------------------------------------------------------------------- keys

/// What a terminal sends for a key.
pub open spec fn sent_for(code: Seq<u8>, key: Key) -> bool {
    match key {
        Key::Up => code == seq![0x1bu8, 0x5bu8, 0x41u8] || code == seq![0x1bu8, 0x4fu8, 0x41u8]
            || code == seq!['k' as u8],
        Key::Down => code == seq![0x1bu8, 0x5bu8, 0x42u8] || code == seq![0x1bu8, 0x4fu8, 0x42u8]
            || code == seq!['j' as u8],
        Key::Home => code == seq![0x1bu8, 0x5bu8, 0x48u8] || code == seq![0x1bu8, 0x4fu8, 0x48u8]
            || code == seq!['g' as u8],
        Key::End => code == seq![0x1bu8, 0x5bu8, 0x46u8] || code == seq![0x1bu8, 0x4fu8, 0x46u8]
            || code == seq!['G' as u8],
        Key::Stop => code == seq![0x1bu8, 0x5bu8, 0x33u8, 0x7eu8] || code == seq!['x' as u8] || code
            == seq!['d' as u8],
        Key::Refresh => code == seq!['r' as u8],
        Key::Yes => code == seq!['y' as u8] || code == seq!['Y' as u8],
        Key::Quit => code == seq!['q' as u8] || code == seq![3u8] || code == seq![4u8],
        Key::Escape => false,
        Key::Other => code.len() == 1 && code[0] != 0x1b && code[0] != 'k' as u8 && code[0]
            != 'j' as u8 && code[0] != 'g' as u8 && code[0] != 'G' as u8 && code[0] != 'x' as u8
            && code[0] != 'd' as u8 && code[0] != 'r' as u8 && code[0] != 'y' as u8 && code[0]
            != 'Y' as u8 && code[0] != 'q' as u8 && code[0] != 3 && code[0] != 4,
    }
}

/// Keys are told from what a terminal sends for them, one after the other; an
/// escape by itself is the escape key.
pub proof fn keys_come_in_turn(code: Seq<u8>, key: Key, rest: Seq<u8>)
    requires
        sent_for(code, key),
    ensures
        keys_from(code + rest, 0) == seq![key] + keys_from(rest, 0),
        keys_from(seq![0x1bu8], 0) == seq![Key::Escape],
        keys_from(Seq::empty(), 0) == Seq::<Key>::empty(),
{
    let s = code + rest;
    let n = code.len() as int;
    assert forall|i: int| 0 <= i < n implies s[i] == code[i] by {}
    assert(key_at(s, 0) == (key, n));
    lemma_keys_shift(code, rest, 0);
    assert(keys_from(s, 0) == seq![key] + keys_from(s, n));
    let alone = seq![0x1bu8];
    assert(key_at(alone, 0) == (Key::Escape, 1int));
    assert(keys_from(alone, 1) =~= Seq::<Key>::empty());
    assert(keys_from(alone, 0) =~= seq![Key::Escape]);
}

/// A control sequence that means nothing here is passed over as one key, up to
/// its final byte.
pub proof fn unknown_sequences_are_one_key(inner: Seq<u8>, last: u8, rest: Seq<u8>)
    requires
        forall|i: int| 0 <= i < inner.len() ==> !(0x40 <= #[trigger] inner[i] <= 0x7e),
        0x40 <= last <= 0x7e,
        inner.len() == 0 ==> last != 0x41 && last != 0x42 && last != 0x48 && last != 0x46,
        !(inner == seq![0x33u8] && last == 0x7e),
    ensures
        keys_from(seq![0x1bu8, 0x5bu8] + inner + seq![last] + rest, 0) == seq![Key::Other]
            + keys_from(rest, 0),
{
    let code = seq![0x1bu8, 0x5bu8] + inner + seq![last];
    let s = code + rest;
    assert(s =~= seq![0x1bu8, 0x5bu8] + inner + seq![last] + rest);
    let n = inner.len() as int;
    assert forall|i: int| 0 <= i < n implies s[i + 2] == #[trigger] inner[i] by {}
    assert(s[n + 2] == last);
    lemma_sequence(s, inner, last, 0);
    if n == 1 && inner[0] == 0x33 {
        assert(inner =~= seq![0x33u8]);
    }
    if n > 0 {
        assert(s[2] == inner[0]);
        assert(!(0x40 <= inner[0] <= 0x7e));
    }
    if n > 1 {
        assert(s[3] == inner[1]);
        assert(!(0x40 <= inner[1] <= 0x7e));
    }
    assert(key_at(s, 0) == (Key::Other, n + 3));
    lemma_keys_shift(code, rest, 0);
}

proof fn lemma_sequence(s: Seq<u8>, inner: Seq<u8>, last: u8, i: int)
    requires
        0 <= i <= inner.len(),
        s.len() >= inner.len() + 3,
        forall|k: int| 0 <= k < inner.len() ==> s[k + 2] == #[trigger] inner[k],
        forall|k: int| 0 <= k < inner.len() ==> !(0x40 <= #[trigger] inner[k] <= 0x7e),
        s[inner.len() as int + 2] == last,
        0x40 <= last <= 0x7e,
    ensures
        sequence_end(s, i + 2) == inner.len() + 3,
    decreases inner.len() - i,
{
    if i < inner.len() {
        assert(s[i + 2] == inner[i]);
        lemma_sequence(s, inner, last, i + 1);
    }
}

proof fn lemma_end_shift(front: Seq<u8>, s: Seq<u8>, i: int)
    requires
        0 <= i,
    ensures
        sequence_end(front + s, front.len() + i) == front.len() + sequence_end(s, i),
    decreases s.len() - i,
{
    if i < s.len() {
        assert((front + s)[front.len() + i] == s[i]);
        lemma_end_shift(front, s, i + 1);
    }
}

proof fn lemma_keys_shift(front: Seq<u8>, s: Seq<u8>, i: int)
    requires
        0 <= i,
    ensures
        keys_from(front + s, front.len() + i) == keys_from(s, i),
    decreases s.len() - i,
{
    let all = front + s;
    let n = front.len();
    if i < s.len() {
        assert forall|k: int| 0 <= k < s.len() implies all[n + k] == s[k] by {}
        assert(all[n + i] == s[i]);
        if i + 1 < s.len() {
            assert(all[n + i + 1] == s[i + 1]);
            lemma_sequence_end(s, i + 2);
        }
        if i + 2 < s.len() {
            assert(all[n + i + 2] == s[i + 2]);
        }
        if i + 3 < s.len() {
            assert(all[n + i + 3] == s[i + 3]);
        }
        lemma_end_shift(front, s, i + 2);
        assert(key_at(all, n + i) == (key_at(s, i).0, n + key_at(s, i).1));
        lemma_keys_shift(front, s, key_at(s, i).1);
    }
}

// ---------------------------------------------------------------- selection

/// The selection moves by one row, to the first or to the last, and nothing else
/// of the dashboard does.
pub proof fn arrows_move_the_selection(board: Board, own_group: Option<u32>)
    requires
        board.pending is None,
        0 <= board.selected < board.rows.len(),
    ensures
        ({
            let last = board.rows.len() - 1;
            &&& board.selected > 0 ==> key_step(board, Key::Up, own_group) == (
                Board { selected: board.selected - 1, ..board },
                Action::Nothing,
            )
            &&& board.selected == 0 ==> key_step(board, Key::Up, own_group) == (
                board,
                Action::Nothing,
            )
            &&& board.selected < last ==> key_step(board, Key::Down, own_group) == (
                Board { selected: board.selected + 1, ..board },
                Action::Nothing,
            )
            &&& board.selected == last ==> key_step(board, Key::Down, own_group) == (
                board,
                Action::Nothing,
            )
            &&& key_step(board, Key::Home, own_group) == (
                Board { selected: 0, ..board },
                Action::Nothing,
            )
            &&& key_step(board, Key::End, own_group) == (
                Board { selected: last, ..board },
                Action::Nothing,
            )
            &&& key_step(board, Key::Quit, own_group) == (board, Action::Quit)
            &&& key_step(board, Key::Escape, own_group) == (board, Action::Quit)
            &&& key_step(board, Key::Other, own_group) == (board, Action::Nothing)
            &&& key_step(board, Key::Yes, own_group) == (board, Action::Nothing)
            &&& key_step(board, Key::Refresh, own_group).1 == Action::Refresh
        }),
{
}

/// A question is closed by the next key, whichever it is. Any but `y` leaves
/// everything else as it was and says so.
pub proof fn questions_close_with_the_next_key(board: Board, key: Key, own_group: Option<u32>)
    requires
        board.pending is Some,
    ensures
        key_step(board, key, own_group).0.pending is None,
        key_step(board, key, own_group).0.rows == board.rows,
        key_step(board, key, own_group).0.selected == board.selected,
        key != Key::Yes ==> key_step(board, key, own_group) == (
            Board { pending: None, message: "Cancelled."@, ..board },
            Action::Nothing,
        ),
{
}

/// A confirmed stop of a group's leader is meant for the whole group, unless that
/// is the dashboard's own; any other is meant for the process alone. This process
/// and those that must never be signalled are refused.
pub proof fn confirmed_stops_go_where_they_were_meant(
    board: Board,
    kind: Pending,
    k: int,
    own_group: Option<u32>,
)
    requires
        0 <= k < board.rows.len(),
        board.pending == Some((board.rows[k].pid, kind)),
        forall|j: int| 0 <= j < k ==> (#[trigger] board.rows[j]).pid != board.rows[k].pid,
    ensures
        ({
            let row = board.rows[k];
            let refused = row.pid == board.own_pid || row.pid <= 1;
            let (after, action) = key_step(board, Key::Yes, own_group);
            &&& !refused ==> action == Action::Signal(
                StopOrder {
                    pid: row.pid,
                    group: row.group && own_group != Some(row.pid),
                    kind,
                    session: row.session,
                },
            ) && after == (Board { pending: None, ..board })
            &&& refused ==> action == Action::RefreshSoon && after.message == "Refusing to signal "@
                + decimal(row.pid as nat) + "."@
        }),
{
    lemma_row_found(board.rows, board.rows[k].pid, 0, k);
}

/// A stop of a process that is gone is told, and nothing is signalled.
pub proof fn gone_processes_are_told(board: Board, pid: u32, kind: Pending, own_group: Option<u32>)
    requires
        board.pending == Some((pid, kind)),
        forall|j: int| 0 <= j < board.rows.len() ==> (#[trigger] board.rows[j]).pid != pid,
    ensures
        key_step(board, Key::Yes, own_group) == (
            Board { pending: None, message: decimal(pid as nat) + " already exited."@, ..board },
            Action::Refresh,
        ),
{
    lemma_row_missing(board.rows, pid, 0);
}

/// A question names what is to be done, the process, and the program that it
/// runs, without its directory.
pub proof fn questions_name_the_program(
    row: Entry,
    directory: Seq<char>,
    program: Seq<char>,
    arguments: Seq<char>,
)
    requires
        directory.len() == 0 || directory.last() == '/',
        no_white(directory),
        no_white(program),
        program.len() > 0,
        !program.contains('/'),
        row.command == directory + program || row.command == directory + program + " "@ + arguments,
    ensures
        question(row, Pending::Stop) == "Stop "@ + decimal(row.pid as nat) + " ("@ + program
            + ")? y/N"@,
        question(row, Pending::Kill) == "Force-kill "@ + decimal(row.pid as nat) + " ("@ + program
            + ")? y/N"@,
{
    reveal_strlit(" ");
    reveal_strlit("Stop");
    reveal_strlit("Stop ");
    reveal_strlit("Force-kill");
    reveal_strlit("Force-kill ");
    let whole = directory + program;
    assert(no_white(whole)) by {
        assert forall|i: int| 0 <= i < whole.len() implies !crate::text::is_white(
            #[trigger] whole[i],
        ) by {
            if i < directory.len() {
                assert(whole[i] == directory[i]);
            } else {
                assert(whole[i] == program[i - directory.len()]);
            }
        }
    }
    one_word(whole);
    a_word_and_a_blank(whole, arguments);
    assert(after_last(whole, '/') == program) by {
        if directory.len() == 0 {
            assert(whole =~= program);
            split_nowhere(program, '/');
        } else {
            let up = directory.drop_last();
            assert(whole =~= up + seq!['/'] + program);
            split_last_at(up, '/', program);
        }
    }
    assert(first_word_of(row.command) == program);
    assert(question(row, Pending::Stop) =~= "Stop "@ + decimal(row.pid as nat) + " ("@ + program
        + ")? y/N"@);
    assert(question(row, Pending::Kill) =~= "Force-kill "@ + decimal(row.pid as nat) + " ("@
        + program + ")? y/N"@);
}

/// Once an order was carried out, it is said what was sent and to whom; a stop of
/// a plain process says how to force it.
pub proof fn orders_are_reported(pid: u32, session: bool, error: Seq<char>, group: bool)
    ensures
        ({
            let stop = StopOrder { pid, group, kind: Pending::Stop, session };
            let kill = StopOrder { pid, group, kind: Pending::Kill, session };
            let whom = (if group {
                "group "@
            } else {
                "process "@
            }) + decimal(pid as nat);
            &&& report(stop, None) == "Sent SIGTERM to "@ + whom + (if session {
                "."@
            } else {
                ". Press x again to force-kill."@
            })
            &&& report(kill, None) == "Sent SIGKILL to "@ + whom + "."@
            &&& report(stop, Some(error)) == "Could not signal "@ + decimal(pid as nat) + ": "@
                + error
            &&& report(kill, Some(error)) == "Could not signal "@ + decimal(pid as nat) + ": "@
                + error
        }),
{
    reveal_strlit("Sent ");
    reveal_strlit("SIGTERM");
    reveal_strlit("SIGKILL");
    reveal_strlit(" to ");
    reveal_strlit("group");
    reveal_strlit("process");
    reveal_strlit("group ");
    reveal_strlit("process ");
    reveal_strlit(" ");
    reveal_strlit("Sent SIGTERM to ");
    reveal_strlit("Sent SIGKILL to ");
    let stop = StopOrder { pid, group, kind: Pending::Stop, session };
    let kill = StopOrder { pid, group, kind: Pending::Kill, session };
    let whom = (if group {
        "group "@
    } else {
        "process "@
    }) + decimal(pid as nat);
    assert(report(stop, None) =~= "Sent SIGTERM to "@ + whom + (if session {
        "."@
    } else {
        ". Press x again to force-kill."@
    }));
    assert(report(kill, None) =~= "Sent SIGKILL to "@ + whom + "."@);
}

// --------------------------------------------------------------- new rows

proof fn lemma_row_found(rows: Seq<Entry>, pid: u32, i: int, j: int)
    requires
        0 <= i <= j < rows.len(),
        rows[j].pid == pid,
        forall|k: int| i <= k < j ==> (#[trigger] rows[k]).pid != pid,
    ensures
        row_of(rows, pid, i) == Some(j),
    decreases j - i,
{
    if i < j {
        lemma_row_found(rows, pid, i + 1, j);
    }
}

proof fn lemma_row_missing(rows: Seq<Entry>, pid: u32, i: int)
    requires
        0 <= i,
        forall|k: int| i <= k < rows.len() ==> (#[trigger] rows[k]).pid != pid,
    ensures
        row_of(rows, pid, i) is None,
    decreases rows.len() - i,
{
    if i < rows.len() {
        lemma_row_missing(rows, pid, i + 1);
    }
}

/// New rows keep the selection on its process, wherever that has moved; where it
/// is gone the selection stays in its place, on the last row at most.
pub proof fn the_selection_follows_its_process(
    board: Board,
    rows: Seq<Entry>,
    directories: Seq<(u32, Seq<char>)>,
    home: Seq<char>,
    processes: Seq<Process>,
    j: int,
)
    requires
        0 <= board.selected < board.rows.len(),
    ensures
        ({
            let pid = board.rows[board.selected].pid;
            let after = settled(board, rows, directories, home, processes);
            &&& 0 <= j < rows.len() && rows[j].pid == pid && (forall|k: int|
                0 <= k < j ==> (#[trigger] rows[k]).pid != pid) ==> after.selected == j
            &&& (forall|k: int| 0 <= k < rows.len() ==> (#[trigger] rows[k]).pid != pid)
                ==> after.selected == (if board.selected < rows.len() {
                board.selected
            } else if rows.len() > 0 {
                rows.len() - 1
            } else {
                0
            })
        }),
{
    let pid = board.rows[board.selected].pid;
    let shown = all_placed(rows, directories, home);
    assert forall|k: int| 0 <= k < rows.len() implies (#[trigger] shown[k]).pid == rows[k].pid by {
        assert(shown[k] == placed(rows[k], directories, home));
    }
    if 0 <= j < rows.len() && rows[j].pid == pid && (forall|k: int|
        0 <= k < j ==> (#[trigger] rows[k]).pid != pid) {
        assert(shown[j].pid == pid);
        assert forall|k: int| 0 <= k < j implies (#[trigger] shown[k]).pid != pid by {
            assert(rows[k].pid != pid);
        }
        lemma_row_found(shown, pid, 0, j);
    }
    if forall|k: int| 0 <= k < rows.len() ==> (#[trigger] rows[k]).pid != pid {
        assert forall|k: int| 0 <= k < shown.len() implies (#[trigger] shown[k]).pid != pid by {
            assert(rows[k].pid != pid);
        }
        lemma_row_missing(shown, pid, 0);
    }
}

/// An open question stays open exactly as long as its process is listed, and a
/// process counts as stopped exactly as long as it runs.
pub proof fn settling_forgets_what_is_gone(
    board: Board,
    rows: Seq<Entry>,
    directories: Seq<(u32, Seq<char>)>,
    home: Seq<char>,
    processes: Seq<Process>,
    pid: u32,
)
    ensures
        ({
            let after = settled(board, rows, directories, home, processes);
            &&& after.stopped.contains(pid) <==> board.stopped.contains(pid) && exists|k: int|
                0 <= k < processes.len() && (#[trigger] processes[k]).pid == pid
            &&& board.pending matches Some((asked, kind)) ==> ((exists|k: int|
                0 <= k < rows.len() && (#[trigger] rows[k]).pid == asked) ==> after.pending
                == board.pending)
            &&& board.pending matches Some((asked, kind)) ==> ((forall|k: int|
                0 <= k < rows.len() ==> (#[trigger] rows[k]).pid != asked)
                ==> after.pending is None)
            &&& board.pending is None ==> after.pending is None
            &&& after.message == board.message && after.routes == board.routes && after.own_pid
                == board.own_pid
        }),
{
    let shown = all_placed(rows, directories, home);
    assert forall|k: int| 0 <= k < rows.len() implies (#[trigger] shown[k]).pid == rows[k].pid by {
        assert(shown[k] == placed(rows[k], directories, home));
    }
    if let Some((asked, kind)) = board.pending {
        if exists|k: int| 0 <= k < rows.len() && (#[trigger] rows[k]).pid == asked {
            let k = choose|k: int| 0 <= k < rows.len() && (#[trigger] rows[k]).pid == asked;
            assert(shown[k].pid == asked);
            lemma_some_row(shown, asked, 0, k);
        }
        if forall|k: int| 0 <= k < rows.len() ==> (#[trigger] rows[k]).pid != asked {
            assert forall|k: int| 0 <= k < shown.len() implies (#[trigger] shown[k]).pid
                != asked by {
                assert(rows[k].pid != asked);
            }
            lemma_row_missing(shown, asked, 0);
        }
    }
    let pids = processes.map_values(|process: Process| process.pid);
    if pids.contains(pid) {
        let k = choose|k: int| 0 <= k < pids.len() && pids[k] == pid;
        assert(processes[k].pid == pid);
    }
    if exists|k: int| 0 <= k < processes.len() && (#[trigger] processes[k]).pid == pid {
        let k = choose|k: int| 0 <= k < processes.len() && (#[trigger] processes[k]).pid == pid;
        assert(pids[k] == pid);
    }
}

proof fn lemma_some_row(rows: Seq<Entry>, pid: u32, i: int, k: int)
    requires
        0 <= i <= k < rows.len(),
        rows[k].pid == pid,
    ensures
        row_of(rows, pid, i) is Some,
    decreases k - i,
{
    if rows[i].pid != pid {
        lemma_some_row(rows, pid, i + 1, k);
    }
}

proof fn lemma_directory(directories: Seq<(u32, Seq<char>)>, pid: u32, i: int)
    requires
        0 <= i < directories.len(),
        directories[i].0 == pid,
        forall|j: int| i < j < directories.len() ==> (#[trigger] directories[j]).0 != pid,
    ensures
        directory_for(directories, pid) == Some(directories[i].1),
    decreases directories.len(),
{
    let front = directories.drop_last();
    if i < directories.len() - 1 {
        assert(directories.last() == directories[directories.len() - 1]);
        assert forall|j: int| i < j < front.len() implies (#[trigger] front[j]).0 != pid by {
            assert(front[j] == directories[j]);
        }
        lemma_directory(front, pid, i);
    }
}

proof fn lemma_no_directory(directories: Seq<(u32, Seq<char>)>, pid: u32)
    requires
        forall|j: int| 0 <= j < directories.len() ==> (#[trigger] directories[j]).0 != pid,
    ensures
        directory_for(directories, pid) is None,
    decreases directories.len(),
{
    if directories.len() > 0 {
        let front = directories.drop_last();
        assert(directories.last() == directories[directories.len() - 1]);
        assert forall|j: int| 0 <= j < front.len() implies (#[trigger] front[j]).0 != pid by {
            assert(front[j] == directories[j]);
        }
        lemma_no_directory(front, pid);
    }
}

/// The rows are shown as they came, each with the directory of its own process,
/// where that is known.
pub proof fn rows_get_their_directory(
    board: Board,
    rows: Seq<Entry>,
    directories: Seq<(u32, Seq<char>)>,
    home: Seq<char>,
    processes: Seq<Process>,
    k: int,
    i: int,
)
    requires
        0 <= k < rows.len(),
    ensures
        ({
            let after = settled(board, rows, directories, home, processes);
            let pid = rows[k].pid;
            &&& after.rows.len() == rows.len()
            &&& 0 <= i < directories.len() && directories[i].0 == pid && (forall|j: int|
                i < j < directories.len() ==> (#[trigger] directories[j]).0 != pid)
                ==> after.rows[k] == (Entry { dir: home_path(directories[i].1, home), ..rows[k] })
            &&& (forall|j: int|
                0 <= j < directories.len() ==> (#[trigger] directories[j]).0 != pid)
                ==> after.rows[k] == rows[k]
        }),
{
    let pid = rows[k].pid;
    let shown = all_placed(rows, directories, home);
    assert(shown[k] == placed(rows[k], directories, home));
    if 0 <= i < directories.len() && directories[i].0 == pid && (forall|j: int|
        i < j < directories.len() ==> (#[trigger] directories[j]).0 != pid) {
        lemma_directory(directories, pid, i);
    }
    if forall|j: int| 0 <= j < directories.len() ==> (#[trigger] directories[j]).0 != pid {
        lemma_no_directory(directories, pid);
    }
}

// -------------------------------------------------------------- refreshing

/// Whether two lists hold sockets of the same processes on the same ports.
pub open spec fn same_sockets(a: Seq<Listener>, b: Seq<Listener>) -> bool {
    &&& forall|i: int|
        0 <= i < a.len() ==> exists|j: int|
            0 <= j < b.len() && (#[trigger] a[i]).pid == (#[trigger] b[j]).pid && a[i].port
                == b[j].port
    &&& forall|j: int|
        0 <= j < b.len() ==> exists|i: int|
            0 <= i < a.len() && (#[trigger] a[i]).pid == (#[trigger] b[j]).pid && a[i].port
                == b[j].port
}

/// The served URLs are loaded once for a set of sockets: not again while the
/// same processes listen on the same ports, unless loading them failed.
pub proof fn urls_are_loaded_once(
    board: Board,
    before: Seq<Listener>,
    after: Seq<Listener>,
    routes: Seq<(u16, Seq<char>)>,
    error: Seq<char>,
)
    ensures
        ({
            let loaded = routes_loaded(board, before, Ok(routes));
            let failed = routes_loaded(board, before, Err(error));
            &&& loaded.routes == routes && loaded.note is None
            &&& failed.routes.len() == 0 && failed.note == Some(error)
            &&& same_sockets(before, after) ==> !routes_due(loaded, after)
            &&& !same_sockets(before, after) ==> routes_due(loaded, after)
            &&& routes_due(failed, after)
        }),
{
    lemma_same_key(before, after);
}

proof fn lemma_same_key(a: Seq<Listener>, b: Seq<Listener>)
    ensures
        same_sockets(a, b) <==> scan_key(a) == scan_key(b),
{
    let f = |listener: Listener| (listener.pid, listener.port);
    let x = a.map_values(f);
    let y = b.map_values(f);
    if same_sockets(a, b) {
        assert forall|p: (u32, u16)| x.contains(p) <==> y.contains(p) by {
            if x.contains(p) {
                let i = choose|i: int| 0 <= i < x.len() && x[i] == p;
                let j = choose|j: int|
                    0 <= j < b.len() && (#[trigger] a[i]).pid == (#[trigger] b[j]).pid && a[i].port
                        == b[j].port;
                assert(y[j] == p);
            }
            if y.contains(p) {
                let j = choose|j: int| 0 <= j < y.len() && y[j] == p;
                let i = choose|i: int|
                    0 <= i < a.len() && (#[trigger] a[i]).pid == (#[trigger] b[j]).pid && a[i].port
                        == b[j].port;
                assert(x[i] == p);
            }
        }
        assert(scan_key(a) =~= scan_key(b));
    }
    if scan_key(a) == scan_key(b) {
        assert forall|i: int| 0 <= i < a.len() implies exists|j: int|
            0 <= j < b.len() && (#[trigger] a[i]).pid == (#[trigger] b[j]).pid && a[i].port
                == b[j].port by {
            assert(x[i] == (a[i].pid, a[i].port));
            assert(x.to_set().contains(x[i]));
            assert(y.to_set().contains(x[i]));
            let j = choose|j: int| 0 <= j < y.len() && y[j] == x[i];
            assert(b[j].pid == a[i].pid && b[j].port == a[i].port);
        }
        assert forall|j: int| 0 <= j < b.len() implies exists|i: int|
            0 <= i < a.len() && (#[trigger] a[i]).pid == (#[trigger] b[j]).pid && a[i].port
                == b[j].port by {
            assert(y[j] == (b[j].pid, b[j].port));
            assert(y.to_set().contains(y[j]));
            assert(x.to_set().contains(y[j]));
            let i = choose|i: int| 0 <= i < x.len() && x[i] == y[j];
            assert(b[j].pid == a[i].pid && b[j].port == a[i].port);
        }
    }
}

/// A full scan is made when it is asked for, when the listener list looks
/// different, and otherwise every thirty seconds. A refresh comes every two
/// seconds, and four tenths of a second after a stop.
pub proof fn scans_are_spaced(board: Board, at: u64, now: u64)
    requires
        board.scanned_at == Some(at),
        at <= now,
        now <= u64::MAX - 2_000_000_000,
    ensures
        !board.force_scan ==> (scan_due(board, board.signature, now) <==> now - at
            >= 30_000_000_000),
        board.force_scan ==> scan_due(board, board.signature, now),
        forall|signature: Seq<char>|
            signature != board.signature ==> #[trigger] scan_due(board, signature, now),
        scan_due(Board { scanned_at: None, ..board }, board.signature, now),
        ahead(now, REFRESH_INTERVAL) == now + 2_000_000_000,
        ahead(now, AFTER_STOP_REFRESH) == now + 400_000_000,
{
}

// ------------------------------------------------------------------ drawing

/// A text that fits is drawn as it is; one that does not keeps its start, or its
/// end, with an ellipsis for the rest, and fills the width.
pub proof fn long_texts_keep_their_start_or_end(text: Seq<char>, width: int)
    requires
        1 <= width,
    ensures
        text.len() <= width ==> cut(text, width) == text && cut_front(text, width) == text,
        text.len() > width ==> {
            &&& cut(text, width) == text.take(width - 1) + seq!['…']
            &&& cut_front(text, width) == seq!['…'] + text.skip(text.len() - (width - 1))
            &&& cut(text, width).len() == width
            &&& cut_front(text, width).len() == width
        },
{
    if text.len() > width {
        assert(cut(text, width) =~= text.take(width - 1) + seq!['…']);
        assert(cut_front(text, width) =~= seq!['…'] + text.skip(text.len() - (width - 1)));
    }
}

proof fn lemma_widest(rows: Seq<Entry>, f: spec_fn(Entry) -> nat, k: int)
    requires
        0 <= k < rows.len(),
    ensures
        f(rows[k]) <= widest(rows, f),
    decreases rows.len(),
{
    if k < rows.len() - 1 {
        assert(rows.drop_last()[k] == rows[k]);
        lemma_widest(rows.drop_last(), f, k);
    } else {
        assert(rows.last() == rows[k]);
    }
}

spec fn tens(count: nat) -> nat
    decreases count,
{
    if count == 0 {
        1
    } else {
        10 * tens((count - 1) as nat)
    }
}

proof fn lemma_digits(n: nat, count: nat)
    requires
        count > 0,
        n < tens(count),
    ensures
        decimal(n).len() <= count,
    decreases count,
{
    if n >= 10 {
        if count == 1 {
            assert(tens(0) == 1);
        } else {
            lemma_digits(n / 10, (count - 1) as nat);
        }
    }
}

proof fn lemma_pid_fits(pid: u32)
    ensures
        decimal(pid as nat).len() <= 10,
{
    reveal_with_fuel(tens, 11);
    lemma_digits(pid as nat, 10);
}

/// Blanks.
pub open spec fn blanks(count: int) -> Seq<char> {
    Seq::new(
        if count > 0 {
            count as nat
        } else {
            0
        },
        |i: int| ' ',
    )
}

/// A row whose parts fit their columns is drawn whole: its pid at the right of
/// the first column, then its endpoints, its URLs or a dash, its directory, each
/// at the left of its column, and its command.
#[verifier::rlimit(40)]
pub proof fn rows_are_drawn_whole(rows: Seq<Entry>, k: int)
    requires
        0 <= k < rows.len(),
        join(rows[k].endpoints, " "@).len() <= 32,
        join(rows[k].urls, " "@).len() <= 56,
        rows[k].dir.len() <= 32,
    ensures
        ({
            let row = rows[k];
            let columns = columns_of(rows);
            let pid = decimal(row.pid as nat);
            let listen = join(row.endpoints, " "@);
            let urls = if row.urls.len() > 0 {
                join(row.urls, " "@)
            } else {
                "-"@
            };
            &&& pid.len() <= columns.pid <= 10
            &&& listen.len() <= columns.listen <= 32
            &&& urls.len() <= columns.url <= 56
            &&& row.dir.len() <= columns.dir <= 32
            &&& row_text(row, columns) == blanks(columns.pid - pid.len()) + pid + "  "@ + listen
                + blanks(columns.listen - listen.len()) + "  "@ + urls + blanks(
                columns.url - urls.len(),
            ) + "  "@ + row.dir + blanks(columns.dir - row.dir.len()) + "  "@ + row.command
        }),
{
    reveal_strlit("-");
    let row = rows[k];
    lemma_widest(rows, |row: Entry| decimal(row.pid as nat).len(), k);
    lemma_widest(rows, |row: Entry| listen_text(row).len(), k);
    lemma_widest(rows, |row: Entry| url_text(row).len(), k);
    lemma_widest(rows, |row: Entry| row.dir.len(), k);
    lemma_pid_fits(row.pid);
    assert forall|n: int| #[trigger] spaces(n) == blanks(n) by {
        assert(spaces(n) =~= blanks(n));
    }
}

/// Every row has its line in the table, behind the heading.
#[verifier::rlimit(40)]
pub proof fn every_row_is_printed(board: Board, k: int)
    requires
        0 <= k < board.rows.len(),
    ensures
        ({
            let columns = columns_of(board.rows);
            let line = "\n"@ + trim_end(row_text(board.rows[k], columns)) + "\n"@;
            exists|i: int|
                heading(columns).len() <= i && #[trigger] occurs_at(table(board), line, i)
        }),
{
    reveal_strlit("\n");
    let columns = columns_of(board.rows);
    let text = trim_end(row_text(board.rows[k], columns));
    let line = "\n"@ + text + "\n"@;
    lemma_table_line(board.rows, columns, k);
    let (before, after) = choose|before: Seq<char>, after: Seq<char>|
        around(table_rows(board.rows, columns), before, text + "\n"@, after);
    let end = match board.note {
        Some(note) => crate::dashboard::screen::note_text(note) + "\n"@,
        None => ""@,
    };
    let whole = table(board);
    assert(whole =~= heading(columns) + "\n"@ + before + text + "\n"@ + after + end);
    let n = heading(columns).len() + before.len();
    let front = heading(columns) + "\n"@ + before;
    assert(front.last() == '\n') by {
        if before.len() == 0 {
            assert(front =~= heading(columns) + "\n"@);
        } else {
            assert(front.last() == before.last());
        }
    }
    assert(whole.subrange(n as int, (n + line.len()) as int) =~= line) by {
        assert(whole[n as int] == front[n as int]);
        assert(front[n as int] == front.last());
    }
    assert(occurs_at(whole, line, n as int));
}

/// Whether `s` is `part` with `before` in front of it and `after` behind it; in
/// front stands nothing, or a whole line.
spec fn around(s: Seq<char>, before: Seq<char>, part: Seq<char>, after: Seq<char>) -> bool {
    s == before + part + after && (before.len() == 0 || before.last() == '\n')
}

proof fn lemma_table_line(rows: Seq<Entry>, columns: Columns, k: int)
    requires
        0 <= k < rows.len(),
    ensures
        exists|before: Seq<char>, after: Seq<char>|
            around(
                table_rows(rows, columns),
                before,
                trim_end(row_text(rows[k], columns)) + "\n"@,
                after,
            ),
    decreases rows.len(),
{
    reveal_strlit("\n");
    reveal_strlit("");
    let front = rows.drop_last();
    let part = trim_end(row_text(rows[k], columns)) + "\n"@;
    let whole = table_rows(rows, columns);
    let last = trim_end(row_text(rows.last(), columns)) + "\n"@;
    assert(whole =~= table_rows(front, columns) + last);
    if k < rows.len() - 1 {
        assert(front[k] == rows[k]);
        lemma_table_line(front, columns, k);
        let (before, after) = choose|before: Seq<char>, after: Seq<char>|
            around(table_rows(front, columns), before, part, after);
        assert(whole =~= before + part + (after + last));
        assert(around(whole, before, part, after + last));
    } else {
        assert(rows.last() == rows[k]);
        lemma_table_ends(front, columns);
        let none = Seq::<char>::empty();
        assert(whole =~= table_rows(front, columns) + part + none);
        assert(around(whole, table_rows(front, columns), part, none));
    }
}

proof fn lemma_table_ends(rows: Seq<Entry>, columns: Columns)
    ensures
        table_rows(rows, columns).len() == 0 || table_rows(rows, columns).last() == '\n',
{
    reveal_strlit("\n");
    reveal_strlit("");
}

/// Whether `part` stands somewhere in `s`.
pub open spec fn appears(part: Seq<char>, s: Seq<char>) -> bool {
    exists|i: int| #[trigger] occurs_at(s, part, i)
}

/// A row on the screen: its line, cleared first, the selected one inverted.
pub open spec fn drawn_row(board: Board, width: int, k: int) -> Seq<char> {
    let text = cut(left(row_text(board.rows[k], columns_of(board.rows)), width), width);
    if k == board.selected {
        "\x1b[2K\x1b[7m"@ + text + "\x1b[0m\r\n"@
    } else {
        "\x1b[2K"@ + text + "\r\n"@
    }
}

/// Every row in view is on the screen, cut to its width, and the selected one is
/// inverted.
pub proof fn rows_in_view_are_drawn(board: Board, width: int, height: int, k: int)
    requires
        0 <= board.offset <= k < board.rows.len(),
        k < board.offset + (if height > 7 {
            height - 6
        } else {
            1
        }),
        width >= 1,
    ensures
        appears(drawn_row(board, width, k), frame(board, width, height)),
{
    let columns = columns_of(board.rows);
    let line = drawn_row(board, width, k);
    lemma_framed(board, width, k);
    let to = shown_end(board, visible_rows(height));
    lemma_frame_row(board, columns, board.offset, to, width, k);
    let (before, after) = choose|before: Seq<char>, after: Seq<char>|
        frame_rows(board, columns, board.offset, to, width) == #[trigger] between(
            before,
            framed(board, columns, width, k),
            after,
        );
    let (start, end) = lemma_frame_parts(board, width, height);
    lemma_appears(start, before, line, after, end);
}

proof fn lemma_appears(
    start: Seq<char>,
    before: Seq<char>,
    line: Seq<char>,
    after: Seq<char>,
    end: Seq<char>,
)
    ensures
        appears(line, start + between(before, line, after) + end),
{
    let whole = start + between(before, line, after) + end;
    let n = (start.len() + before.len()) as int;
    assert(whole.subrange(n, n + line.len()) =~= line);
    assert(occurs_at(whole, line, n));
}

#[verifier::rlimit(40)]
proof fn lemma_frame_parts(board: Board, width: int, height: int) -> (r: (Seq<char>, Seq<char>))
    ensures
        frame(board, width, height) == r.0 + frame_rows(
            board,
            columns_of(board.rows),
            board.offset,
            shown_end(board, visible_rows(height)),
            width,
        ) + r.1,
{
    let columns = columns_of(board.rows);
    let rows = frame_rows(
        board,
        columns,
        board.offset,
        shown_end(board, visible_rows(height)),
        width,
    );
    let start = "\x1b[H"@ + frame_line(title(board.rows.len()), "\x1b[1m"@, width) + frame_line(
        ""@,
        ""@,
        width,
    ) + frame_line(heading(columns), "\x1b[2m"@, width) + (if board.rows.len() == 0 {
        frame_line("No listening TCP servers owned by this user."@, ""@, width)
    } else {
        ""@
    });
    let a = frame_line(""@, ""@, width);
    let b = frame_line(crate::dashboard::screen::message_line(board), ""@, width);
    let c = "\x1b[2K\x1b[2m"@;
    let d = cut("↑/↓ or j/k select   x stop   r refresh   q quit"@, width);
    let e = "\x1b[0m\x1b[J"@;
    assert(frame(board, width, height) == start + rows + a + b + c + d + e);
    let end = a + b + c + d + e;
    assert(start + rows + a + b + c + d + e =~= start + rows + end);
    (start, end)
}

proof fn lemma_framed(board: Board, width: int, k: int)
    ensures
        framed(board, columns_of(board.rows), width, k) == drawn_row(board, width, k),
{
    reveal_strlit("");
    reveal_strlit("\x1b[2K\x1b[7m");
    reveal_strlit("\x1b[2K");
    reveal_strlit("\x1b[7m");
    reveal_strlit("\x1b[0m\r\n");
    reveal_strlit("\x1b[0m");
    reveal_strlit("\r\n");
    let text = cut(left(row_text(board.rows[k], columns_of(board.rows)), width), width);
    let clear = "\x1b[2K"@;
    let end = "\r\n"@;
    if k == board.selected {
        assert(clear + "\x1b[7m"@ =~= "\x1b[2K\x1b[7m"@);
        assert("\x1b[0m"@ + end =~= "\x1b[0m\r\n"@);
        assert(clear + "\x1b[7m"@ + text + "\x1b[0m"@ + end =~= clear + "\x1b[7m"@ + text + (
        "\x1b[0m"@ + end));
    } else {
        assert(clear + ""@ + text + ""@ + end =~= clear + text + end);
    }
}

/// What was last said is on the screen; where nothing was, why there are no URLs.
pub proof fn the_message_is_on_the_screen(board: Board, width: int, height: int)
    requires
        width >= 1,
    ensures
        board.message.len() > 0 ==> appears(
            "\x1b[2K"@ + cut(board.message, width) + "\r\n"@,
            frame(board, width, height),
        ),
        board.message.len() == 0 ==> (board.note matches Some(note) ==> appears(
            "\x1b[2K"@ + cut("Tailscale URLs unavailable: "@ + note, width) + "\r\n"@,
            frame(board, width, height),
        )),
{
    reveal_strlit("");
    let text = crate::dashboard::screen::message_line(board);
    let line = "\x1b[2K"@ + cut(text, width) + "\r\n"@;
    assert(frame_line(text, ""@, width) =~= line);
    let columns = columns_of(board.rows);
    let rows = frame_rows(
        board,
        columns,
        board.offset,
        shown_end(board, visible_rows(height)),
        width,
    );
    let start = "\x1b[H"@ + frame_line(title(board.rows.len()), "\x1b[1m"@, width) + frame_line(
        ""@,
        ""@,
        width,
    ) + frame_line(heading(columns), "\x1b[2m"@, width) + (if board.rows.len() == 0 {
        frame_line("No listening TCP servers owned by this user."@, ""@, width)
    } else {
        ""@
    }) + rows + frame_line(""@, ""@, width);
    let c = "\x1b[2K\x1b[2m"@;
    let d = cut("↑/↓ or j/k select   x stop   r refresh   q quit"@, width);
    let e = "\x1b[0m\x1b[J"@;
    assert(frame(board, width, height) == start + line + c + d + e);
    let none = Seq::<char>::empty();
    lemma_appears(start, none, line, none, c + d + e);
    assert(start + between(none, line, none) + (c + d + e) =~= start + line + c + d + e);
}

/// The view scrolls only where it must: as long as the selection is in it, and no
/// line of it would stay empty, it stays where it is.
pub proof fn the_view_stays_where_it_can(board: Board, visible: int)
    requires
        visible >= 1,
        0 <= board.offset <= board.selected < board.offset + visible,
        board.offset + visible <= board.rows.len(),
    ensures
        scrolled(board, visible) == board.offset,
{
}

spec fn between(before: Seq<char>, part: Seq<char>, after: Seq<char>) -> Seq<char> {
    before + part + after
}

spec fn framed(board: Board, columns: Columns, width: int, k: int) -> Seq<char> {
    frame_line(
        left(row_text(board.rows[k], columns), width),
        if k == board.selected {
            "\x1b[7m"@
        } else {
            ""@
        },
        width,
    )
}

proof fn lemma_frame_row(
    board: Board,
    columns: Columns,
    from: int,
    to: int,
    width: int,
    k: int,
)
    requires
        from <= k < to,
    ensures
        exists|before: Seq<char>, after: Seq<char>|
            frame_rows(board, columns, from, to, width) == #[trigger] between(
                before,
                framed(board, columns, width, k),
                after,
            ),
    decreases to - from,
{
    let line = framed(board, columns, width, k);
    let front = frame_rows(board, columns, from, to - 1, width);
    let whole = frame_rows(board, columns, from, to, width);
    if k == to - 1 {
        let none = Seq::<char>::empty();
        assert(whole =~= between(front, line, none));
    } else {
        lemma_frame_row(board, columns, from, to - 1, width, k);
        let (before, after) = choose|before: Seq<char>, after: Seq<char>|
            front == #[trigger] between(before, line, after);
        let last = framed(board, columns, width, to - 1);
        assert(whole =~= between(before, line, after + last));
    }
}

/// The title counts the servers.
pub proof fn titles_count(count: nat)
    ensures
        title(1) == "poros dashboard: 1 listening server"@,
        count != 1 ==> title(count) == "poros dashboard: "@ + decimal(count)
            + " listening servers"@,
{
    reveal_strlit("");
    reveal_strlit("s");
    reveal_strlit("poros dashboard: ");
    reveal_strlit(" listening server");
    reveal_strlit(" listening servers");
    reveal_strlit("poros dashboard: 1 listening server");
    assert(decimal(1) =~= seq!['1']);
    assert(title(1) =~= "poros dashboard: 1 listening server"@);
    assert(" listening server"@ + "s"@ =~= " listening servers"@);
    if count != 1 {
        assert(title(count) =~= "poros dashboard: "@ + decimal(count) + (" listening server"@
            + "s"@));
    }
}

/// The heading names the columns, each at the same place as in the rows.
pub proof fn the_heading_names_the_columns(rows: Seq<Entry>)
    ensures
        ({
            let columns = columns_of(rows);
            &&& columns.pid >= 3 && columns.listen >= 6 && columns.url >= 3 && columns.dir >= 3
            &&& heading(columns) == blanks(columns.pid - 3) + "PID"@ + "  "@ + "LISTEN"@ + blanks(
                columns.listen - 6,
            ) + "  "@ + "URL"@ + blanks(columns.url - 3) + "  "@ + "DIR"@ + blanks(columns.dir - 3)
                + "  "@ + "COMMAND"@
        }),
{
    reveal_strlit("PID");
    reveal_strlit("LISTEN");
    reveal_strlit("URL");
    reveal_strlit("DIR");
    assert forall|n: int| #[trigger] spaces(n) == blanks(n) by {
        assert(spaces(n) =~= blanks(n));
    }
}

/// Without rows the selection stays at the top, and there is nothing to stop.
pub proof fn an_empty_board_has_nothing_to_select(board: Board, key: Key, own_group: Option<u32>)
    requires
        board.rows.len() == 0,
        board.selected == 0,
        board.pending is None,
    ensures
        key_step(board, key, own_group).0.selected == 0,
        key_step(board, key, own_group).0.pending is None,
        key_step(board, Key::Stop, own_group) == (board, Action::Nothing),
{
}

/// The first rows leave the selection where it is, on the last of them at most.
pub proof fn first_rows_keep_the_selection(
    board: Board,
    rows: Seq<Entry>,
    directories: Seq<(u32, Seq<char>)>,
    home: Seq<char>,
    processes: Seq<Process>,
)
    requires
        board.rows.len() == 0,
        board.selected >= 0,
    ensures
        settled(board, rows, directories, home, processes).selected == (if board.selected
            < rows.len() {
            board.selected
        } else if rows.len() > 0 {
            rows.len() - 1
        } else {
            0
        }),
{
    assert(all_placed(rows, directories, home).len() == rows.len());
}

/// A report changes what is said and marks the process as stopped; nothing else.
pub proof fn reports_change_what_is_said(
    board: Board,
    order: StopOrder,
    failure: Option<Seq<char>>,
)
    ensures
        reported(board, order, failure) == (Board {
            message: report(order, failure),
            stopped: board.stopped.insert(order.pid),
            ..board
        }),
{
}

/// A row whose parts are wider than their columns is drawn with these cut: the
/// endpoints and the URLs at their end, the directory at its start.
pub proof fn long_rows_are_cut(row: Entry, columns: Columns)
    ensures
        ({
            let pid = decimal(row.pid as nat);
            let listen = cut(join(row.endpoints, " "@), columns.listen as int);
            let urls = cut(
                if row.urls.len() > 0 {
                    join(row.urls, " "@)
                } else {
                    "-"@
                },
                columns.url as int,
            );
            let dir = cut_front(row.dir, columns.dir as int);
            row_text(row, columns) == blanks(columns.pid - pid.len()) + pid + "  "@ + listen
                + blanks(columns.listen - listen.len()) + "  "@ + urls + blanks(
                columns.url - urls.len(),
            ) + "  "@ + dir + blanks(columns.dir - dir.len()) + "  "@ + row.command
        }),
{
    assert forall|n: int| #[trigger] spaces(n) == blanks(n) by {
        assert(spaces(n) =~= blanks(n));
    }
}

proof fn lemma_widest_is_some(rows: Seq<Entry>, f: spec_fn(Entry) -> nat)
    ensures
        widest(rows, f) == 0 || exists|k: int|
            0 <= k < rows.len() && f(#[trigger] rows[k]) == widest(rows, f),
    decreases rows.len(),
{
    if rows.len() > 0 {
        let front = rows.drop_last();
        lemma_widest_is_some(front, f);
        let n = rows.len() - 1;
        assert(rows[n] == rows.last());
        if widest(front, f) == widest(rows, f) && widest(rows, f) > 0 {
            let k = choose|k: int| 0 <= k < front.len() && f(#[trigger] front[k]) == widest(front, f);
            assert(rows[k] == front[k]);
        } else if widest(rows, f) > 0 {
            assert(f(rows[n]) == widest(rows, f));
        }
    }
}

/// No column is wider than it must be: it is as wide as its heading, as its widest
/// part, or as the most that it may take.
pub proof fn columns_are_no_wider_than_needed(rows: Seq<Entry>)
    ensures
        ({
            let columns = columns_of(rows);
            &&& columns.pid == 3 || columns.pid == 10 || exists|k: int|
                0 <= k < rows.len() && decimal((#[trigger] rows[k]).pid as nat).len() == columns.pid
            &&& columns.listen == 6 || columns.listen == 32 || exists|k: int|
                0 <= k < rows.len() && join((#[trigger] rows[k]).endpoints, " "@).len()
                    == columns.listen
            &&& columns.url == 3 || columns.url == 56 || exists|k: int|
                0 <= k < rows.len() && join((#[trigger] rows[k]).urls, " "@).len() == columns.url
            &&& columns.dir == 3 || columns.dir == 32 || exists|k: int|
                0 <= k < rows.len() && (#[trigger] rows[k]).dir.len() == columns.dir
        }),
{
    lemma_widest_is_some(rows, |row: Entry| decimal(row.pid as nat).len());
    lemma_widest_is_some(rows, |row: Entry| listen_text(row).len());
    lemma_widest_is_some(rows, |row: Entry| url_text(row).len());
    lemma_widest_is_some(rows, |row: Entry| row.dir.len());
}

/// Why there are no URLs is printed below the table.
pub proof fn notes_are_printed_below(board: Board, note: Seq<char>)
    requires
        board.note == Some(note),
    ensures
        has_suffix(table(board), "Tailscale URLs unavailable: "@ + note + "\n"@),
{
    let end = "Tailscale URLs unavailable: "@ + note + "\n"@;
    let whole = table(board);
    assert(whole.skip(whole.len() - end.len()) =~= end);
}

/// The screen starts at its top with the title.
pub proof fn the_title_comes_first(board: Board, width: int, height: int)
    ensures
        has_prefix(
            frame(board, width, height),
            "\x1b[H"@ + ("\x1b[2K"@ + "\x1b[1m"@ + cut(title(board.rows.len()), width)
                + "\x1b[0m"@ + "\r\n"@),
        ),
{
    reveal_strlit("\x1b[1m");
    let line = frame_line(title(board.rows.len()), "\x1b[1m"@, width);
    let first = "\x1b[H"@ + line;
    let columns = columns_of(board.rows);
    let a = frame_line(""@, ""@, width);
    let b = frame_line(heading(columns), "\x1b[2m"@, width);
    let c = if board.rows.len() == 0 {
        frame_line("No listening TCP servers owned by this user."@, ""@, width)
    } else {
        ""@
    };
    let rows = frame_rows(
        board,
        columns,
        board.offset,
        shown_end(board, visible_rows(height)),
        width,
    );
    let d = frame_line(crate::dashboard::screen::message_line(board), ""@, width);
    let e = "\x1b[2K\x1b[2m"@;
    let f = cut("↑/↓ or j/k select   x stop   r refresh   q quit"@, width);
    let g = "\x1b[0m\x1b[J"@;
    assert(first.take(first.len() as int) =~= first);
    lemma_starts(first, a, first);
    lemma_starts(first + a, b, first);
    lemma_starts(first + a + b, c, first);
    lemma_starts(first + a + b + c, rows, first);
    lemma_starts(first + a + b + c + rows, a, first);
    lemma_starts(first + a + b + c + rows + a, d, first);
    lemma_starts(first + a + b + c + rows + a + d, e, first);
    lemma_starts(first + a + b + c + rows + a + d + e, f, first);
    lemma_starts(first + a + b + c + rows + a + d + e + f, g, first);
}

proof fn lemma_starts(text: Seq<char>, more: Seq<char>, start: Seq<char>)
    requires
        has_prefix(text, start),
    ensures
        has_prefix(text + more, start),
{
    let n = start.len() as int;
    assert((text + more).take(n) =~= text.take(n));
}

/// The view is never left with empty lines while there are rows to fill them.
pub proof fn the_view_is_filled(board: Board, visible: int)
    requires
        visible >= 1,
    ensures
        board.rows.len() >= visible ==> scrolled(board, visible) + visible <= board.rows.len(),
        board.rows.len() < visible ==> scrolled(board, visible) <= 0,
{
}

} // verus!
