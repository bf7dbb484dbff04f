//! The state of the dashboard, and what keys and scans do to it.

use crate::dashboard::keys::Key;
use crate::dashboard::rows::{
    build_rows, entries, has_pid, home_path, home_relative, rows_of, Entry, Row, Scene,
};
use crate::discovery::{processes_of, Listener, Process, ProcessInfo};
use crate::number::{decimal, decimal_string};
use crate::text::{
    after_last, chars_of, keyed_texts, same_text, split_words, string_of, tail_after, views, words,
};
use vstd::prelude::*;

verus! {

/// The time after which a full scan is due in any case, in nanoseconds: a safety
/// net for changes the listener fingerprint cannot see.
pub const FULL_SCAN_INTERVAL: u64 = 30_000_000_000;

/// What is asked before a process is signalled.
#[derive(Clone, Copy, Debug, PartialEq, Eq, Structural)]
pub enum Pending {
    Stop,
    Kill,
}

/// An order to signal a process, or its whole group.
#[derive(Clone, Copy, Debug, PartialEq, Eq, Structural)]
pub struct StopOrder {
    pub pid: u32,
    pub group: bool,
    pub kind: Pending,
    pub session: bool,
}

/// What a key leads to.
#[derive(Clone, Copy, Debug, PartialEq, Eq, Structural)]
pub enum Action {
    Nothing,
    Refresh,
    /// Scan again shortly after a stop, so that the row disappears promptly.
    RefreshSoon,
    Quit,
    /// Carry out the order, report back, and then refresh soon.
    Signal(StopOrder),
}

/// The dashboard: its rows, the selection, and what was found in the last scan.
/// Times are nanoseconds on one clock.
pub struct State {
    pub rows: Vec<Row>,
    pub selected: usize,
    pub offset: usize,
    pub routes: Vec<(u16, String)>,
    pub routes_key: Vec<(u32, u16)>,
    pub tailscale_note: Option<String>,
    pub message: String,
    pub pending: Option<(u32, Pending)>,
    pub stopped: Vec<u32>,
    pub own_pid: u32,
    pub signature: String,
    pub scanned_at: Option<u64>,
    pub force_scan: bool,
}

/// What a `State` holds.
#[verifier::ext_equal]
pub struct Board {
    pub rows: Seq<Entry>,
    pub selected: int,
    pub offset: int,
    pub routes: Seq<(u16, Seq<char>)>,
    pub routes_key: Set<(u32, u16)>,
    pub note: Option<Seq<char>>,
    pub message: Seq<char>,
    pub pending: Option<(u32, Pending)>,
    pub stopped: Set<u32>,
    pub own_pid: u32,
    pub signature: Seq<char>,
    pub scanned_at: Option<u64>,
    pub force_scan: bool,
}

impl View for State {
    type V = Board;

    open spec fn view(&self) -> Board {
        Board {
            rows: entries(self.rows@),
            selected: self.selected as int,
            offset: self.offset as int,
            routes: keyed_texts(self.routes@),
            routes_key: self.routes_key@.to_set(),
            note: match self.tailscale_note {
                Some(note) => Some(note@),
                None => None,
            },
            message: self.message@,
            pending: self.pending,
            stopped: self.stopped@.to_set(),
            own_pid: self.own_pid,
            signature: self.signature@,
            scanned_at: self.scanned_at,
            force_scan: self.force_scan,
        }
    }
}

/// A dashboard before its first scan.
pub open spec fn new_board(own_pid: u32) -> Board {
    Board {
        rows: Seq::empty(),
        selected: 0,
        offset: 0,
        routes: Seq::empty(),
        routes_key: Set::empty(),
        note: None,
        message: ""@,
        pending: None,
        stopped: Set::empty(),
        own_pid,
        signature: ""@,
        scanned_at: None,
        force_scan: true,
    }
}

// --------------------------------------------------------------------- keys

/// The program that a command line runs, without its directory.
pub open spec fn first_word_of(command: Seq<char>) -> Seq<char> {
    if words(command).len() > 0 {
        after_last(words(command)[0], '/')
    } else {
        after_last(command, '/')
    }
}

/// The row of a pid: the first of several.
pub open spec fn row_of(rows: Seq<Entry>, pid: u32, i: int) -> Option<int>
    decreases rows.len() - i,
{
    if i < 0 || i >= rows.len() {
        None
    } else if rows[i].pid == pid {
        Some(i)
    } else {
        row_of(rows, pid, i + 1)
    }
}

/// The last index of a list; zero where it is empty.
pub open spec fn last_index(count: nat) -> int {
    if count > 0 {
        count - 1
    } else {
        0
    }
}

/// What is asked of a row when it is to be stopped. A Poros session escalates to
/// SIGKILL for its own children and removes its Serve route; killing it outright
/// would orphan both.
pub open spec fn kind_for(board: Board, row: Entry) -> Pending {
    if board.stopped.contains(row.pid) && !row.session {
        Pending::Kill
    } else {
        Pending::Stop
    }
}

/// The question before a stop.
pub open spec fn question(row: Entry, kind: Pending) -> Seq<char> {
    (match kind {
        Pending::Stop => "Stop"@,
        Pending::Kill => "Force-kill"@,
    }) + " "@ + decimal(row.pid as nat) + " ("@ + first_word_of(row.command) + ")? y/N"@
}

/// What follows when a stop has been confirmed. This process, and those that
/// must not be signalled at all, are refused; a group is signalled only where it
/// is not this process's own.
pub open spec fn confirmed(
    board: Board,
    row: Entry,
    kind: Pending,
    own_group: Option<u32>,
) -> (Board, Action) {
    if row.pid == board.own_pid || row.pid <= 1 {
        (
            Board {
                message: "Refusing to signal "@ + decimal(row.pid as nat) + "."@,
                stopped: board.stopped.insert(row.pid),
                ..board
            },
            Action::RefreshSoon,
        )
    } else {
        (
            board,
            Action::Signal(
                StopOrder {
                    pid: row.pid,
                    group: row.group && own_group != Some(row.pid),
                    kind,
                    session: row.session,
                },
            ),
        )
    }
}

/// What a key does. With a question open, `y` confirms it and any other key
/// cancels it.
pub open spec fn key_step(board: Board, key: Key, own_group: Option<u32>) -> (Board, Action) {
    match board.pending {
        Some((pid, kind)) => {
            let asked = Board { pending: None, ..board };
            if key != Key::Yes {
                (Board { message: "Cancelled."@, ..asked }, Action::Nothing)
            } else {
                match row_of(board.rows, pid, 0) {
                    None => (
                        Board { message: decimal(pid as nat) + " already exited."@, ..asked },
                        Action::Refresh,
                    ),
                    Some(i) => confirmed(asked, board.rows[i], kind, own_group),
                }
            }
        },
        None => {
            let last = last_index(board.rows.len());
            match key {
                Key::Up => (
                    Board {
                        selected: if board.selected > 0 {
                            board.selected - 1
                        } else {
                            0
                        },
                        ..board
                    },
                    Action::Nothing,
                ),
                Key::Down => (
                    Board {
                        selected: if board.selected < last {
                            board.selected + 1
                        } else {
                            last
                        },
                        ..board
                    },
                    Action::Nothing,
                ),
                Key::Home => (Board { selected: 0, ..board }, Action::Nothing),
                Key::End => (Board { selected: last, ..board }, Action::Nothing),
                Key::Refresh => (Board { message: ""@, ..board }, Action::Refresh),
                Key::Quit => (board, Action::Quit),
                Key::Escape => (board, Action::Quit),
                Key::Stop => if board.selected < board.rows.len() {
                    let row = board.rows[board.selected];
                    let kind = kind_for(board, row);
                    (
                        Board {
                            message: question(row, kind),
                            pending: Some((row.pid, kind)),
                            ..board
                        },
                        Action::Nothing,
                    )
                } else {
                    (board, Action::Nothing)
                },
                Key::Yes => (board, Action::Nothing),
                Key::Other => (board, Action::Nothing),
            }
        },
    }
}

/// What is said after an order was carried out, or could not be.
pub open spec fn report(order: StopOrder, sent: Option<Seq<char>>) -> Seq<char> {
    match sent {
        Some(error) => "Could not signal "@ + decimal(order.pid as nat) + ": "@ + error,
        None => "Sent "@ + (match order.kind {
            Pending::Stop => "SIGTERM"@,
            Pending::Kill => "SIGKILL"@,
        }) + " to "@ + (if order.group {
            "group"@
        } else {
            "process"@
        }) + " "@ + decimal(order.pid as nat) + (if order.kind == Pending::Stop && !order.session {
            ". Press x again to force-kill."@
        } else {
            "."@
        }),
    }
}

/// What the report on an order does: the process counts as stopped from then on.
pub open spec fn reported(board: Board, order: StopOrder, failure: Option<Seq<char>>) -> Board {
    Board {
        message: report(order, failure),
        stopped: board.stopped.insert(order.pid),
        ..board
    }
}

/// The program that a command line runs, without its directory.
pub fn first_word(command: &str) -> (r: String)
    ensures
        r@ == first_word_of(command@),
{
    let chars: Vec<char> = chars_of(command);
    let parts: Vec<Vec<char>> = split_words(chars.as_slice());
    assert(views(parts@).len() == parts@.len());
    if parts.len() > 0 {
        assert(views(parts@)[0] == parts@[0]@);
        string_of(tail_after(parts[0].as_slice(), '/'))
    } else {
        string_of(tail_after(chars.as_slice(), '/'))
    }
}

fn find_row(rows: &Vec<Row>, pid: u32) -> (r: Option<usize>)
    ensures
        match r {
            Some(i) => row_of(entries(rows@), pid, 0) == Some(i as int) && i < rows@.len(),
            None => row_of(entries(rows@), pid, 0) is None,
        },
{
    let mut i: usize = 0;
    while i < rows.len()
        invariant
            i <= rows@.len(),
            row_of(entries(rows@), pid, 0) == row_of(entries(rows@), pid, i as int),
        decreases rows@.len() - i,
    {
        assert(entries(rows@)[i as int] == rows@[i as int]@);
        if rows[i].pid == pid {
            return Some(i);
        }
        i = i + 1;
    }
    None
}

fn insert_pid(pids: &mut Vec<u32>, pid: u32)
    ensures
        final(pids)@.to_set() == old(pids)@.to_set().insert(pid),
{
    let ghost before = pids@;
    if has_pid(pids, pid) {
        assert(before.to_set().insert(pid) =~= before.to_set());
    } else {
        pids.push(pid);
        assert(pids@.to_set() =~= before.to_set().insert(pid)) by {
            assert forall|p: u32| pids@.to_set().contains(p) <==> before.to_set().insert(
                pid,
            ).contains(p) by {
                if before.contains(p) {
                    let k = choose|k: int| 0 <= k < before.len() && before[k] == p;
                    assert(pids@[k] == p);
                }
                assert(pids@[before.len() as int] == pid);
                if pids@.contains(p) {
                    let k = choose|k: int| 0 <= k < pids@.len() && pids@[k] == p;
                    if k < before.len() {
                        assert(before[k] == p);
                    }
                }
            }
        }
    }
}

impl State {
    /// A dashboard before its first scan.
    pub fn new(own_pid: u32) -> (r: State)
        ensures
            r@ == new_board(own_pid),
    {
        let r: State = State {
            rows: Vec::new(),
            selected: 0,
            offset: 0,
            routes: Vec::new(),
            routes_key: Vec::new(),
            tailscale_note: None,
            message: "".to_owned(),
            pending: None,
            stopped: Vec::new(),
            own_pid,
            signature: "".to_owned(),
            scanned_at: None,
            force_scan: true,
        };
        assert(r@.rows =~= Seq::empty());
        assert(r@.routes =~= Seq::empty());
        assert(r@.routes_key =~= Set::empty());
        assert(r@.stopped =~= Set::empty());
        r
    }

    fn confirm(&mut self, i: usize, kind: Pending, own_group: Option<u32>) -> (r: Action)
        requires
            i < old(self).rows@.len(),
        ensures
            (final(self)@, r) == confirmed(
                old(self)@,
                entries(old(self).rows@)[i as int],
                kind,
                own_group,
            ),
    {
        let pid: u32 = self.rows[i].pid;
        let ghost row = entries(self.rows@)[i as int];
        assert(row == self.rows@[i as int]@);
        if pid == self.own_pid || pid <= 1 {
            let mut message: String = "Refusing to signal ".to_owned();
            let shown: String = decimal_string(pid as u64);
            message.append(shown.as_str());
            message.append(".");
            self.message = message;
            insert_pid(&mut self.stopped, pid);
            return Action::RefreshSoon;
        }
        let own: bool = match own_group {
            Some(group) => group == pid,
            None => false,
        };
        Action::Signal(
            StopOrder {
                pid,
                group: self.rows[i].group && !own,
                kind,
                session: self.rows[i].session,
            },
        )
    }

    fn ask(&mut self)
        requires
            old(self).selected < old(self).rows@.len(),
            old(self).pending is None,
        ensures
            (final(self)@, Action::Nothing) == key_step(old(self)@, Key::Stop, None),
    {
        let i: usize = self.selected;
        let pid: u32 = self.rows[i].pid;
        assert(entries(self.rows@)[i as int] == self.rows@[i as int]@);
        let kill: bool = has_pid(&self.stopped, pid) && !self.rows[i].session;
        assert(self@.stopped.contains(pid) == self.stopped@.contains(pid));
        let kind: Pending = if kill {
            Pending::Kill
        } else {
            Pending::Stop
        };
        let mut message: String = if kill {
            "Force-kill".to_owned()
        } else {
            "Stop".to_owned()
        };
        message.append(" ");
        let shown: String = decimal_string(pid as u64);
        message.append(shown.as_str());
        message.append(" (");
        let word: String = first_word(self.rows[i].command.as_str());
        message.append(word.as_str());
        message.append(")? y/N");
        self.message = message;
        self.pending = Some((pid, kind));
    }

    /// What a key does. `own_group` is the process group of the dashboard itself.
    pub fn handle(&mut self, key: Key, own_group: Option<u32>) -> (r: Action)
        ensures
            (final(self)@, r) == key_step(old(self)@, key, own_group),
    {
        match self.pending {
            Some((pid, kind)) => {
                self.pending = None;
                if key != Key::Yes {
                    self.message = "Cancelled.".to_owned();
                    return Action::Nothing;
                }
                match find_row(&self.rows, pid) {
                    None => {
                        let mut message: String = decimal_string(pid as u64);
                        message.append(" already exited.");
                        self.message = message;
                        Action::Refresh
                    },
                    Some(i) => self.confirm(i, kind, own_group),
                }
            },
            None => {
                let count: usize = self.rows.len();
                assert(entries(self.rows@).len() == self.rows@.len());
                let last: usize = if count > 0 {
                    count - 1
                } else {
                    0
                };
                match key {
                    Key::Up => {
                        if self.selected > 0 {
                            self.selected = self.selected - 1;
                        }
                        Action::Nothing
                    },
                    Key::Down => {
                        if self.selected < last {
                            self.selected = self.selected + 1;
                        } else {
                            self.selected = last;
                        }
                        Action::Nothing
                    },
                    Key::Home => {
                        self.selected = 0;
                        Action::Nothing
                    },
                    Key::End => {
                        self.selected = last;
                        Action::Nothing
                    },
                    Key::Refresh => {
                        self.message = "".to_owned();
                        Action::Refresh
                    },
                    Key::Quit => Action::Quit,
                    Key::Escape => Action::Quit,
                    Key::Stop => {
                        if self.selected < count {
                            self.ask();
                        }
                        Action::Nothing
                    },
                    Key::Yes => Action::Nothing,
                    Key::Other => Action::Nothing,
                }
            },
        }
    }

    /// Takes in what became of an order: `failure` says why it could not be
    /// carried out.
    pub fn signalled(&mut self, order: &StopOrder, failure: Option<String>)
        ensures
            final(self)@ == reported(
                old(self)@,
                *order,
                match failure {
                    Some(error) => Some(error@),
                    None => None,
                },
            ),
    {
        let shown: String = decimal_string(order.pid as u64);
        match failure {
            Some(error) => {
                let mut message: String = "Could not signal ".to_owned();
                message.append(shown.as_str());
                message.append(": ");
                message.append(error.as_str());
                self.message = message;
            },
            None => {
                let mut message: String = "Sent ".to_owned();
                match order.kind {
                    Pending::Stop => message.append("SIGTERM"),
                    Pending::Kill => message.append("SIGKILL"),
                }
                message.append(" to ");
                if order.group {
                    message.append("group");
                } else {
                    message.append("process");
                }
                message.append(" ");
                message.append(shown.as_str());
                if order.kind == Pending::Stop && !order.session {
                    message.append(". Press x again to force-kill.");
                } else {
                    message.append(".");
                }
                self.message = message;
            },
        }
        insert_pid(&mut self.stopped, order.pid);
    }
}

// -------------------------------------------------------------------- scans

/// Whether a full scan is due: it was asked for, the listener list changed, or
/// the last scan is too old or never was.
pub open spec fn scan_due(board: Board, signature: Seq<char>, now: u64) -> bool {
    board.force_scan || signature != board.signature || match board.scanned_at {
        Some(at) => now >= at && now - at >= FULL_SCAN_INTERVAL,
        None => true,
    }
}

/// The pids and ports that listen. Serve status only changes when these do.
pub open spec fn scan_key(listeners: Seq<Listener>) -> Set<(u32, u16)> {
    listeners.map_values(|listener: Listener| (listener.pid, listener.port)).to_set()
}

/// Whether the served URLs must be loaded anew: the listeners changed, or the
/// last load failed.
pub open spec fn routes_due(board: Board, listeners: Seq<Listener>) -> bool {
    scan_key(listeners) != board.routes_key || board.note is Some
}

/// What a load of the served URLs does.
pub open spec fn routes_loaded(
    board: Board,
    listeners: Seq<Listener>,
    loaded: Result<Seq<(u16, Seq<char>)>, Seq<char>>,
) -> Board {
    match loaded {
        Ok(routes) => Board { routes, note: None, routes_key: scan_key(listeners), ..board },
        Err(error) => Board {
            routes: Seq::empty(),
            note: Some(error),
            routes_key: scan_key(listeners),
            ..board
        },
    }
}

/// The directory of a pid: the last of several.
pub open spec fn directory_for(directories: Seq<(u32, Seq<char>)>, pid: u32) -> Option<Seq<char>>
    decreases directories.len(),
{
    if directories.len() == 0 {
        None
    } else if directories.last().0 == pid {
        Some(directories.last().1)
    } else {
        directory_for(directories.drop_last(), pid)
    }
}

/// A row with its directory, where that is known.
pub open spec fn placed(
    row: Entry,
    directories: Seq<(u32, Seq<char>)>,
    home: Seq<char>,
) -> Entry {
    match directory_for(directories, row.pid) {
        Some(directory) => Entry { dir: home_path(directory, home), ..row },
        None => row,
    }
}

/// Rows with their directories.
pub open spec fn all_placed(
    rows: Seq<Entry>,
    directories: Seq<(u32, Seq<char>)>,
    home: Seq<char>,
) -> Seq<Entry> {
    rows.map_values(|row: Entry| placed(row, directories, home))
}

/// The pids of processes.
pub open spec fn live_pids(processes: Seq<Process>) -> Set<u32> {
    processes.map_values(|process: Process| process.pid).to_set()
}

/// The selection after new rows: it stays with its process, and otherwise at its
/// place, as far as there are rows.
pub open spec fn kept_selection(board: Board, rows: Seq<Entry>) -> int {
    let wanted = if 0 <= board.selected < board.rows.len() {
        match row_of(rows, board.rows[board.selected].pid, 0) {
            Some(i) => i,
            None => board.selected,
        }
    } else {
        board.selected
    };
    if wanted < last_index(rows.len()) {
        wanted
    } else {
        last_index(rows.len())
    }
}

/// What new rows do: an open question about a row that is gone is dropped, and
/// so is the memory of stopped processes that are gone.
pub open spec fn settled(
    board: Board,
    rows: Seq<Entry>,
    directories: Seq<(u32, Seq<char>)>,
    home: Seq<char>,
    processes: Seq<Process>,
) -> Board {
    let shown = all_placed(rows, directories, home);
    Board {
        rows: shown,
        stopped: board.stopped.intersect(live_pids(processes)),
        pending: match board.pending {
            Some((pid, kind)) => if row_of(shown, pid, 0) is Some {
                board.pending
            } else {
                None
            },
            None => None,
        },
        selected: kept_selection(board, shown),
        ..board
    }
}

fn holds_key(keys: &Vec<(u32, u16)>, key: (u32, u16)) -> (r: bool)
    ensures
        r == keys@.contains(key),
{
    let mut i: usize = 0;
    while i < keys.len()
        invariant
            i <= keys@.len(),
            forall|k: int| 0 <= k < i ==> keys@[k] != key,
        decreases keys@.len() - i,
    {
        if keys[i].0 == key.0 && keys[i].1 == key.1 {
            assert(keys@[i as int] == key);
            return true;
        }
        i = i + 1;
    }
    false
}

fn within(a: &Vec<(u32, u16)>, b: &Vec<(u32, u16)>) -> (r: bool)
    ensures
        r == a@.to_set().subset_of(b@.to_set()),
{
    let mut i: usize = 0;
    while i < a.len()
        invariant
            i <= a@.len(),
            forall|k: int| 0 <= k < i ==> b@.contains(#[trigger] a@[k]),
        decreases a@.len() - i,
    {
        if !holds_key(b, a[i]) {
            proof {
                let key = a@[i as int];
                assert(a@.contains(key));
                assert(a@.to_set().contains(key));
                assert(!b@.to_set().contains(key));
            }
            return false;
        }
        i = i + 1;
    }
    proof {
        assert forall|key: (u32, u16)| a@.to_set().contains(key) implies b@.to_set().contains(
            key,
        ) by {
            let k = choose|k: int| 0 <= k < a@.len() && a@[k] == key;
            assert(b@.contains(a@[k]));
        }
    }
    true
}

fn key_of(listeners: &[Listener]) -> (r: Vec<(u32, u16)>)
    ensures
        r@.to_set() == scan_key(listeners@),
{
    let mut out: Vec<(u32, u16)> = Vec::new();
    let ghost all = listeners@.map_values(|listener: Listener| (listener.pid, listener.port));
    let mut i: usize = 0;
    while i < listeners.len()
        invariant
            i <= listeners@.len(),
            all == listeners@.map_values(|listener: Listener| (listener.pid, listener.port)),
            out@ == all.take(i as int),
        decreases listeners@.len() - i,
    {
        out.push((listeners[i].pid, listeners[i].port));
        i = i + 1;
        assert(all.take(i as int) =~= all.take(i - 1).push(all[i - 1]));
    }
    assert(all.take(i as int) =~= all);
    out
}

fn find_directory<'a>(directories: &'a [(u32, String)], pid: u32) -> (r: Option<&'a String>)
    ensures
        match r {
            Some(directory) => directory_for(keyed_texts(directories@), pid) == Some(
                directory@,
            ),
            None => directory_for(keyed_texts(directories@), pid) is None,
        },
{
    let mut i: usize = directories.len();
    let ghost all = keyed_texts(directories@);
    assert(all.take(i as int) =~= all);
    while i > 0
        invariant
            i <= directories@.len(),
            all == keyed_texts(directories@),
            directory_for(all, pid) == directory_for(all.take(i as int), pid),
        decreases i,
    {
        assert(all.take(i as int).last() == (directories@[i - 1].0, directories@[i - 1].1@));
        assert(all.take(i as int).drop_last() =~= all.take(i - 1));
        if directories[i - 1].0 == pid {
            return Some(&directories[i - 1].1);
        }
        i = i - 1;
    }
    None
}

fn place_rows(rows: Vec<Row>, directories: &[(u32, String)], home: &str) -> (r: Vec<Row>)
    ensures
        entries(r@) == all_placed(entries(rows@), keyed_texts(directories@), home@),
{
    let mut rest: Vec<Row> = rows;
    let ghost all = entries(rest@);
    let ghost known = keyed_texts(directories@);
    let ghost shown = all_placed(all, known, home@);
    let mut out: Vec<Row> = Vec::new();
    let total: usize = rest.len();
    let mut i: usize = 0;
    assert(all.skip(0) =~= all);
    while rest.len() > 0
        invariant
            i <= all.len(),
            known == keyed_texts(directories@),
            shown == all_placed(all, known, home@),
            entries(rest@) == all.skip(i as int),
            entries(out@) == shown.take(i as int),
            i + rest@.len() == total,
            total == all.len(),
        decreases rest@.len(),
    {
        let ghost before = out@;
        let ghost left = rest@;
        let mut row: Row = rest.remove(0);
        let ghost entry = row@;
        assert(entry == all[i as int]) by {
            assert(entries(left)[0] == left[0]@);
            assert(all.skip(i as int)[0] == all[i as int]);
        }
        match find_directory(directories, row.pid) {
            Some(directory) => {
                row.dir = home_relative(directory.as_str(), home);
            },
            None => {},
        }
        assert(row@ == placed(entry, known, home@));
        let ghost now_shown = row@;
        out.push(row);
        assert(entries(out@) =~= entries(before).push(now_shown));
        assert(entries(rest@) =~= all.skip(i + 1)) by {
            assert forall|k: int| 0 <= k < rest@.len() implies entries(rest@)[k] == all.skip(
                i + 1,
            )[k] by {
                assert(entries(left)[k + 1] == left[k + 1]@);
                assert(all.skip(i as int)[k + 1] == all[i + k + 1]);
            }
        }
        assert(shown.take(i + 1) =~= shown.take(i as int).push(now_shown));
        assert(all.skip(i as int).len() > 0);
        i = i + 1;
    }
    assert(shown.take(i as int) =~= shown);
    out
}

fn is_live(processes: &[ProcessInfo], pid: u32) -> (r: bool)
    ensures
        r == live_pids(processes_of(processes@)).contains(pid),
{
    let ghost pids = processes_of(processes@).map_values(|process: Process| process.pid);
    let mut i: usize = 0;
    while i < processes.len()
        invariant
            i <= processes@.len(),
            pids == processes_of(processes@).map_values(|process: Process| process.pid),
            forall|k: int| 0 <= k < i ==> pids[k] != pid,
        decreases processes@.len() - i,
    {
        assert(pids[i as int] == processes@[i as int].pid);
        if processes[i].pid == pid {
            assert(pids.contains(pid));
            return true;
        }
        i = i + 1;
    }
    assert(!pids.contains(pid));
    false
}

fn keep_live(stopped: &Vec<u32>, processes: &[ProcessInfo]) -> (r: Vec<u32>)
    ensures
        r@.to_set() == stopped@.to_set().intersect(live_pids(processes_of(processes@))),
{
    let ghost live = live_pids(processes_of(processes@));
    let mut out: Vec<u32> = Vec::new();
    let mut i: usize = 0;
    assert(out@.to_set() =~= stopped@.take(0).to_set().intersect(live));
    while i < stopped.len()
        invariant
            i <= stopped@.len(),
            live == live_pids(processes_of(processes@)),
            out@.to_set() == stopped@.take(i as int).to_set().intersect(live),
        decreases stopped@.len() - i,
    {
        let ghost part = stopped@.take(i as int);
        let ghost next = stopped@.take(i + 1);
        let pid: u32 = stopped[i];
        assert(next.to_set() =~= part.to_set().insert(pid)) by {
            assert forall|p: u32| next.to_set().contains(p) <==> part.to_set().insert(pid).contains(
                p,
            ) by {
                if part.contains(p) {
                    let k = choose|k: int| 0 <= k < part.len() && part[k] == p;
                    assert(next[k] == p);
                }
                assert(next[i as int] == pid);
                if next.contains(p) {
                    let k = choose|k: int| 0 <= k < next.len() && next[k] == p;
                    if k < i {
                        assert(part[k] == p);
                    }
                }
            }
        }
        if is_live(processes, pid) {
            insert_pid(&mut out, pid);
            assert(part.to_set().intersect(live).insert(pid) =~= next.to_set().intersect(live));
        } else {
            assert(part.to_set().intersect(live) =~= next.to_set().intersect(live));
        }
        i = i + 1;
    }
    assert(stopped@.take(i as int) =~= stopped@);
    out
}

impl State {
    /// Takes in the fingerprint of the listening sockets. Gives it back where a
    /// full scan is due; a failed look keeps the last rows on screen and says
    /// why.
    pub fn check(&mut self, signature: Result<String, String>, now: u64) -> (r: Option<String>)
        ensures
            match signature {
                Err(error) => r is None && final(self)@ == (Board {
                    message: error@,
                    ..old(self)@
                }),
                Ok(text) => final(self)@ == old(self)@ && match r {
                    Some(same) => scan_due(old(self)@, text@, now) && same@ == text@,
                    None => !scan_due(old(self)@, text@, now),
                },
            },
    {
        match signature {
            Err(error) => {
                self.message = error;
                None
            },
            Ok(text) => {
                let fresh: bool = match self.scanned_at {
                    Some(at) => now < at || now - at < FULL_SCAN_INTERVAL,
                    None => false,
                };
                if !self.force_scan && fresh && same_text(text.as_str(), self.signature.as_str()) {
                    None
                } else {
                    Some(text)
                }
            },
        }
    }

    /// Takes in the listening sockets of a full scan. Says whether the served
    /// URLs must be loaded too; a failed scan keeps the last rows on screen and
    /// says why.
    pub fn scanned(
        &mut self,
        signature: String,
        listeners: &Result<Vec<Listener>, String>,
        now: u64,
    ) -> (r: Option<bool>)
        ensures
            match *listeners {
                Err(error) => r is None && final(self)@ == (Board {
                    message: error@,
                    ..old(self)@
                }),
                Ok(found) => r == Some(routes_due(old(self)@, found@)) && final(self)@ == (Board {
                    signature: signature@,
                    scanned_at: Some(now),
                    force_scan: false,
                    ..old(self)@
                }),
            },
    {
        match listeners {
            Err(error) => {
                self.message = error.clone();
                None
            },
            Ok(found) => {
                self.signature = signature;
                self.scanned_at = Some(now);
                self.force_scan = false;
                let key: Vec<(u32, u16)> = key_of(found.as_slice());
                let same: bool = within(&key, &self.routes_key) && within(&self.routes_key, &key);
                assert(same == (key@.to_set() =~= self.routes_key@.to_set()));
                Some(!same || self.tailscale_note.is_some())
            },
        }
    }

    /// Takes in the served URLs, by local port.
    pub fn load(&mut self, listeners: &[Listener], loaded: Result<Vec<(u16, String)>, String>)
        ensures
            final(self)@ == routes_loaded(
                old(self)@,
                listeners@,
                match loaded {
                    Ok(routes) => Ok(keyed_texts(routes@)),
                    Err(error) => Err(error@),
                },
            ),
    {
        match loaded {
            Ok(routes) => {
                self.routes = routes;
                self.tailscale_note = None;
            },
            Err(error) => {
                self.routes = Vec::new();
                assert(keyed_texts(self.routes@) =~= Seq::empty());
                self.tailscale_note = Some(error);
            },
        }
        self.routes_key = key_of(listeners);
    }

    /// The rows that a scan makes, before their directories are known.
    pub fn next_rows(&self, processes: &[ProcessInfo], listeners: &[Listener]) -> (r: Vec<Row>)
        ensures
            entries(r@) == rows_of(
                Scene {
                    processes: processes_of(processes@),
                    listeners: listeners@,
                    routes: self@.routes,
                    own: self.own_pid,
                },
            ),
    {
        build_rows(processes, listeners, self.routes.as_slice(), self.own_pid)
    }

    /// Takes in new rows and the directories of their processes.
    pub fn settle(
        &mut self,
        rows: Vec<Row>,
        directories: &[(u32, String)],
        home: &str,
        processes: &[ProcessInfo],
    )
        ensures
            final(self)@ == settled(
                old(self)@,
                entries(rows@),
                keyed_texts(directories@),
                home@,
                processes_of(processes@),
            ),
    {
        let shown: Vec<Row> = place_rows(rows, directories, home);
        let count: usize = shown.len();
        assert(entries(shown@).len() == shown@.len());
        assert(entries(self.rows@).len() == self.rows@.len());
        let last: usize = if count > 0 {
            count - 1
        } else {
            0
        };
        let wanted: usize = if self.selected < self.rows.len() {
            assert(entries(self.rows@)[self.selected as int] == self.rows@[self.selected as int]@);
            match find_row(&shown, self.rows[self.selected].pid) {
                Some(i) => i,
                None => self.selected,
            }
        } else {
            self.selected
        };
        self.stopped = keep_live(&self.stopped, processes);
        match self.pending {
            Some((pid, _)) => {
                if find_row(&shown, pid).is_none() {
                    self.pending = None;
                }
            },
            None => {},
        }
        self.rows = shown;
        self.selected = if wanted < last {
            wanted
        } else {
            last
        };
    }
}

// --------------------------------------------------------------------- time

/// How often the dashboard looks for changes, in nanoseconds.
pub const REFRESH_INTERVAL: u64 = 2_000_000_000;

/// How soon it looks again after a stop, in nanoseconds.
pub const AFTER_STOP_REFRESH: u64 = 400_000_000;

/// A time that lies `delay` ahead, as far as the clock goes.
pub open spec fn ahead(now: u64, delay: u64) -> u64 {
    if now + delay > u64::MAX {
        u64::MAX
    } else {
        (now + delay) as u64
    }
}

/// A time that lies `delay` ahead, as far as the clock goes.
pub fn time_ahead(now: u64, delay: u64) -> (r: u64)
    ensures
        r == ahead(now, delay),
{
    if now > u64::MAX - delay {
        u64::MAX
    } else {
        now + delay
    }
}

impl State {
    /// When the next refresh is due after a key's action, which was carried out;
    /// none where the dashboard is to be left. A refresh that was asked for scans
    /// in any case.
    pub fn interact(&mut self, action: &Action, now: u64, next_refresh: u64) -> (r: Option<u64>)
        ensures
            match *action {
                Action::Quit => r is None && final(self)@ == old(self)@,
                Action::Refresh => r == Some(now) && final(self)@ == (Board {
                    force_scan: true,
                    ..old(self)@
                }),
                Action::RefreshSoon => r == Some(ahead(now, AFTER_STOP_REFRESH)) && final(self)@
                    == (Board { force_scan: true, ..old(self)@ }),
                Action::Signal(_) => r == Some(ahead(now, AFTER_STOP_REFRESH)) && final(self)@
                    == (Board { force_scan: true, ..old(self)@ }),
                Action::Nothing => r == Some(next_refresh) && final(self)@ == old(self)@,
            },
    {
        match action {
            Action::Quit => None,
            Action::Refresh => {
                self.force_scan = true;
                Some(now)
            },
            Action::RefreshSoon => {
                self.force_scan = true;
                Some(time_ahead(now, AFTER_STOP_REFRESH))
            },
            Action::Signal(_) => {
                self.force_scan = true;
                Some(time_ahead(now, AFTER_STOP_REFRESH))
            },
            Action::Nothing => Some(next_refresh),
        }
    }
}

// --------------------------------------------------------------------- laws

/// Whether the selection is on a row, or at the top of an empty list.
pub open spec fn selection_ok(board: Board) -> bool {
    0 <= board.selected <= last_index(board.rows.len())
}

/// The selection never leaves the rows: a fresh dashboard starts on it, new rows
/// pull it back, and no key moves it off.
pub proof fn selection_stays_on_a_row(
    board: Board,
    key: Key,
    own_group: Option<u32>,
    rows: Seq<Entry>,
    directories: Seq<(u32, Seq<char>)>,
    home: Seq<char>,
    processes: Seq<Process>,
    own_pid: u32,
)
    ensures
        selection_ok(new_board(own_pid)),
        board.selected >= 0 ==> selection_ok(
            settled(board, rows, directories, home, processes),
        ),
        selection_ok(board) ==> selection_ok(key_step(board, key, own_group).0),
{
    let shown = all_placed(rows, directories, home);
    if 0 <= board.selected < board.rows.len() {
        lemma_row_of(shown, board.rows[board.selected].pid, 0);
    }
}

proof fn lemma_row_of(rows: Seq<Entry>, pid: u32, i: int)
    requires
        0 <= i,
    ensures
        row_of(rows, pid, i) matches Some(k) ==> i <= k < rows.len() && rows[k].pid == pid,
        row_of(rows, pid, i) is None ==> forall|k: int|
            i <= k < rows.len() ==> (#[trigger] rows[k]).pid != pid,
    decreases rows.len() - i,
{
    if i < rows.len() && rows[i].pid != pid {
        lemma_row_of(rows, pid, i + 1);
    }
}

/// Nothing is signalled without a question that `y` answers, and the process
/// signalled is the one that was asked about, listed in a row, not this process,
/// and not one that must never be signalled.
pub proof fn signals_need_consent(board: Board, key: Key, own_group: Option<u32>)
    ensures
        key_step(board, key, own_group).1 matches Action::Signal(order) ==> {
            &&& key == Key::Yes
            &&& board.pending == Some((order.pid, order.kind))
            &&& order.pid != board.own_pid
            &&& order.pid > 1
            &&& order.group ==> own_group != Some(order.pid)
            &&& exists|k: int|
                0 <= k < board.rows.len() && (#[trigger] board.rows[k]).pid == order.pid
                    && board.rows[k].session == order.session && (order.group
                    ==> board.rows[k].group)
        },
{
    if let Some((pid, kind)) = board.pending {
        lemma_row_of(board.rows, pid, 0);
    }
}

/// A second stop of a process offers to force-kill it; a session is never
/// offered to be killed.
pub proof fn only_stopped_processes_are_offered_to_be_killed(board: Board, own_group: Option<u32>)
    requires
        board.pending is None,
        0 <= board.selected < board.rows.len(),
    ensures
        ({
            let row = board.rows[board.selected];
            key_step(board, Key::Stop, own_group).0.pending == Some(
                (
                    row.pid,
                    if board.stopped.contains(row.pid) && !row.session {
                        Pending::Kill
                    } else {
                        Pending::Stop
                    },
                ),
            )
        }),
{
}

/// Asking to stop the selected process and confirming signals that process, with
/// what was asked: every process but the dashboard itself and those that must
/// never be signalled can be stopped.
pub proof fn a_confirmed_stop_signals_the_selected_process(board: Board, own_group: Option<u32>)
    requires
        board.pending is None,
        0 <= board.selected < board.rows.len(),
        board.rows[board.selected].pid != board.own_pid,
        board.rows[board.selected].pid > 1,
    ensures
        ({
            let row = board.rows[board.selected];
            let asked = key_step(board, Key::Stop, own_group).0;
            key_step(asked, Key::Yes, own_group).1 matches Action::Signal(order) && order.pid
                == row.pid && order.kind == kind_for(board, row)
        }),
{
    lemma_row_of(board.rows, board.rows[board.selected].pid, 0);
}

/// Once a stop was carried out, or could not be, the next stop of the same
/// process offers to force-kill it, unless it is a session.
pub proof fn a_second_stop_offers_a_kill(
    board: Board,
    order: StopOrder,
    failure: Option<Seq<char>>,
    own_group: Option<u32>,
)
    requires
        board.pending is None,
        0 <= board.selected < board.rows.len(),
        board.rows[board.selected].pid == order.pid,
        !board.rows[board.selected].session,
    ensures
        key_step(reported(board, order, failure), Key::Stop, own_group).0.pending == Some(
            (order.pid, Pending::Kill),
        ),
{
}

} // verus!
