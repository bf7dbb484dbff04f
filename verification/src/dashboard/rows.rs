//! The rows of the dashboard: which processes can be stopped, and what is shown
//! of each.

use crate::discovery::{processes_of, Listener, Process, ProcessInfo};
use crate::ip::{format_host, host_text, IpAddr};
use crate::list::{all_distinct, sorted_set, text_set, unique, unique_keeps_each_once};
use crate::number::{decimal, decimal_string};
use crate::order::{
    in_order, lemma_sort_by_map, sort_by, sort_by_is_ordered, sort_by_keeps_items, sort_vec,
};
use crate::text::{
    after_last, after_prefix, chars_of, keyed_texts, same_text, split_first, split_once, string_of,
    strip_prefix, tail_after, texts,
};
use vstd::prelude::*;
use vstd::utf8::encode_utf8;

verus! {

/// One stoppable unit: a Poros session (with its dev server's ports) or a
/// standalone listening process.
#[derive(Clone, Debug, PartialEq, Eq)]
pub struct Row {
    pub pid: u32,
    /// Signal the whole process group: set only when the listener leads its own
    /// group, so a parent shell is never hit.
    pub group: bool,
    /// A process that Tailscale Serve proxies to and whose descendants listen,
    /// i.e. a Poros session. It stops its own tree on SIGTERM.
    pub session: bool,
    pub command: String,
    /// Working directory, `~`-relative; empty until it is looked up.
    pub dir: String,
    pub endpoints: Vec<String>,
    pub urls: Vec<String>,
    pub first_port: u16,
}

/// What a `Row` holds.
pub struct Entry {
    pub pid: u32,
    pub group: bool,
    pub session: bool,
    pub command: Seq<char>,
    pub dir: Seq<char>,
    pub endpoints: Seq<Seq<char>>,
    pub urls: Seq<Seq<char>>,
    pub first_port: u16,
}

impl View for Row {
    type V = Entry;

    open spec fn view(&self) -> Entry {
        Entry {
            pid: self.pid,
            group: self.group,
            session: self.session,
            command: self.command@,
            dir: self.dir@,
            endpoints: texts(self.endpoints@),
            urls: texts(self.urls@),
            first_port: self.first_port,
        }
    }
}

/// What a list of rows holds.
pub open spec fn entries(rows: Seq<Row>) -> Seq<Entry> {
    rows.map_values(|row: Row| row@)
}

// ------------------------------------------------------------------- pieces

/// The process with a pid; the last of several.
pub open spec fn process_with(processes: Seq<Process>, pid: u32) -> Option<Process>
    decreases processes.len(),
{
    if processes.len() == 0 {
        None
    } else if processes.last().pid == pid {
        Some(processes.last())
    } else {
        process_with(processes.drop_last(), pid)
    }
}

/// The children of a process, in the order of the table.
pub open spec fn children_of(processes: Seq<Process>, pid: u32) -> Seq<u32>
    decreases processes.len(),
{
    if processes.len() == 0 {
        Seq::empty()
    } else {
        let before = children_of(processes.drop_last(), pid);
        let last = processes.last();
        if last.ppid == pid && last.ppid != last.pid {
            before.push(last.pid)
        } else {
            before
        }
    }
}

/// The listeners of a process, in their order; none of this process itself.
pub open spec fn listeners_of(listeners: Seq<Listener>, own: u32, pid: u32) -> Seq<Listener>
    decreases listeners.len(),
{
    if listeners.len() == 0 {
        Seq::empty()
    } else {
        let before = listeners_of(listeners.drop_last(), own, pid);
        if listeners.last().pid == pid && listeners.last().pid != own {
            before.push(listeners.last())
        } else {
            before
        }
    }
}

/// The processes that listen, each once, but for this one.
pub open spec fn listening(listeners: Seq<Listener>, own: u32) -> Seq<u32>
    decreases listeners.len(),
{
    if listeners.len() == 0 {
        Seq::empty()
    } else {
        let before = listening(listeners.drop_last(), own);
        let pid = listeners.last().pid;
        if pid == own || before.contains(pid) {
            before
        } else {
            before.push(pid)
        }
    }
}

/// The URLs that are served from a port.
pub open spec fn port_urls(routes: Seq<(u16, Seq<char>)>, port: u16) -> Seq<Seq<char>>
    decreases routes.len(),
{
    if routes.len() == 0 {
        Seq::empty()
    } else {
        let before = port_urls(routes.drop_last(), port);
        if routes.last().0 == port {
            before.push(routes.last().1)
        } else {
            before
        }
    }
}

/// The URLs that are served from listeners that serve loopback clients.
pub open spec fn listener_urls(
    listeners: Seq<Listener>,
    routes: Seq<(u16, Seq<char>)>,
) -> Seq<Seq<char>>
    decreases listeners.len(),
{
    if listeners.len() == 0 {
        Seq::empty()
    } else {
        let before = listener_urls(listeners.drop_last(), routes);
        let last = listeners.last();
        if last.ip.loopback() || last.ip.unspecified() {
            before + port_urls(routes, last.port)
        } else {
            before
        }
    }
}

/// The URLs that are served from a process, in order, each once.
pub open spec fn urls_for(
    listeners: Seq<Listener>,
    routes: Seq<(u16, Seq<char>)>,
    own: u32,
    pid: u32,
) -> Seq<Seq<char>> {
    text_set(listener_urls(listeners_of(listeners, own, pid), routes))
}

/// A listener's endpoint: `*` for every interface.
pub open spec fn endpoint_text(ip: IpAddr, port: u16) -> Seq<char> {
    if ip.unspecified() {
        "*:"@ + decimal(port as nat)
    } else {
        host_text(ip) + ":"@ + decimal(port as nat)
    }
}

/// The endpoints of listeners, each once, in their order.
pub open spec fn endpoints_of(listeners: Seq<Listener>) -> Seq<Seq<char>> {
    unique(listeners.map_values(|listener: Listener| endpoint_text(listener.ip, listener.port)))
}

/// The command line with the program reduced to its file name; a name in
/// brackets without one.
pub open spec fn command_text(process: Option<Process>) -> Seq<char> {
    match process {
        None => "?"@,
        Some(process) => if process.command.len() == 0 {
            "["@ + process.name + "]"@
        } else {
            match split_once(process.command, ' ') {
                None => after_last(process.command, '/'),
                Some((program, arguments)) => if arguments.len() == 0 {
                    after_last(program, '/')
                } else {
                    after_last(program, '/') + " "@ + arguments
                },
            }
        },
    }
}

fn find_process<'a>(processes: &'a [ProcessInfo], pid: u32) -> (r: Option<&'a ProcessInfo>)
    ensures
        match r {
            Some(process) => process_with(processes_of(processes@), pid) == Some(process@),
            None => process_with(processes_of(processes@), pid) is None,
        },
{
    let mut i: usize = processes.len();
    let ghost all = processes_of(processes@);
    assert(all.take(i as int) =~= all);
    while i > 0
        invariant
            i <= processes@.len(),
            all == processes_of(processes@),
            process_with(all, pid) == process_with(all.take(i as int), pid),
        decreases i,
    {
        assert(all.take(i as int).last() == processes@[i - 1]@);
        assert(all.take(i as int).drop_last() =~= all.take(i - 1));
        if processes[i - 1].pid == pid {
            return Some(&processes[i - 1]);
        }
        i = i - 1;
    }
    None
}

fn child_pids(processes: &[ProcessInfo], pid: u32) -> (r: Vec<u32>)
    ensures
        r@ == children_of(processes_of(processes@), pid),
{
    let mut out: Vec<u32> = Vec::new();
    let ghost all = processes_of(processes@);
    let mut i: usize = 0;
    assert(all.take(0) =~= Seq::empty());
    while i < processes.len()
        invariant
            i <= processes@.len(),
            all == processes_of(processes@),
            out@ == children_of(all.take(i as int), pid),
        decreases processes@.len() - i,
    {
        assert(all.take(i + 1).drop_last() =~= all.take(i as int));
        assert(all.take(i + 1).last() == processes@[i as int]@);
        if processes[i].ppid == pid && processes[i].ppid != processes[i].pid {
            out.push(processes[i].pid);
        }
        i = i + 1;
    }
    assert(all.take(i as int) =~= all);
    out
}

fn pid_listeners(listeners: &[Listener], own: u32, pid: u32) -> (r: Vec<Listener>)
    ensures
        r@ == listeners_of(listeners@, own, pid),
{
    let mut out: Vec<Listener> = Vec::new();
    let ghost all = listeners@;
    let mut i: usize = 0;
    assert(all.take(0) =~= Seq::empty());
    while i < listeners.len()
        invariant
            i <= listeners@.len(),
            all == listeners@,
            out@ == listeners_of(all.take(i as int), own, pid),
        decreases listeners@.len() - i,
    {
        assert(all.take(i + 1).drop_last() =~= all.take(i as int));
        assert(all.take(i + 1).last() == listeners@[i as int]);
        if listeners[i].pid == pid && listeners[i].pid != own {
            out.push(listeners[i]);
        }
        i = i + 1;
    }
    assert(all.take(i as int) =~= all);
    out
}

/// Whether `pid` is in `pids`.
pub fn has_pid(pids: &Vec<u32>, pid: u32) -> (r: bool)
    ensures
        r == pids@.contains(pid),
{
    let mut i: usize = 0;
    while i < pids.len()
        invariant
            i <= pids@.len(),
            forall|k: int| 0 <= k < i ==> pids@[k] != pid,
        decreases pids@.len() - i,
    {
        if pids[i] == pid {
            assert(pids@[i as int] == pid);
            return true;
        }
        i = i + 1;
    }
    false
}

fn listening_pids(listeners: &[Listener], own: u32) -> (r: Vec<u32>)
    ensures
        r@ == listening(listeners@, own),
{
    let mut out: Vec<u32> = Vec::new();
    let ghost all = listeners@;
    let mut i: usize = 0;
    assert(all.take(0) =~= Seq::empty());
    while i < listeners.len()
        invariant
            i <= listeners@.len(),
            all == listeners@,
            out@ == listening(all.take(i as int), own),
        decreases listeners@.len() - i,
    {
        assert(all.take(i + 1).drop_last() =~= all.take(i as int));
        assert(all.take(i + 1).last() == listeners@[i as int]);
        if listeners[i].pid != own && !has_pid(&out, listeners[i].pid) {
            out.push(listeners[i].pid);
        }
        i = i + 1;
    }
    assert(all.take(i as int) =~= all);
    out
}

fn push_port_urls(out: &mut Vec<String>, routes: &[(u16, String)], port: u16)
    ensures
        texts(final(out)@) == texts(old(out)@) + port_urls(keyed_texts(routes@), port),
{
    let ghost start = texts(out@);
    let ghost all = keyed_texts(routes@);
    let mut i: usize = 0;
    assert(all.take(0) =~= Seq::empty());
    assert(start + port_urls(all.take(0), port) =~= start);
    while i < routes.len()
        invariant
            i <= routes@.len(),
            all == keyed_texts(routes@),
            texts(out@) == start + port_urls(all.take(i as int), port),
        decreases routes@.len() - i,
    {
        let ghost before = out@;
        assert(all.take(i + 1).drop_last() =~= all.take(i as int));
        assert(all.take(i + 1).last() == (routes@[i as int].0, routes@[i as int].1@));
        if routes[i].0 == port {
            out.push(routes[i].1.clone());
            assert(texts(out@) =~= texts(before).push(routes@[i as int].1@));
            assert(texts(out@) =~= start + port_urls(all.take(i + 1), port));
        }
        i = i + 1;
    }
    assert(all.take(i as int) =~= all);
}

fn pid_urls(listeners: &[Listener], routes: &[(u16, String)], own: u32, pid: u32) -> (r: Vec<
    String,
>)
    ensures
        texts(r@) == urls_for(listeners@, keyed_texts(routes@), own, pid),
{
    let own_listeners: Vec<Listener> = pid_listeners(listeners, own, pid);
    let ghost all = own_listeners@;
    let ghost shown = keyed_texts(routes@);
    let mut out: Vec<String> = Vec::new();
    let mut i: usize = 0;
    assert(all.take(0) =~= Seq::empty());
    assert(texts(out@) =~= Seq::empty());
    while i < own_listeners.len()
        invariant
            i <= own_listeners@.len(),
            all == own_listeners@,
            shown == keyed_texts(routes@),
            texts(out@) == listener_urls(all.take(i as int), shown),
        decreases own_listeners@.len() - i,
    {
        assert(all.take(i + 1).drop_last() =~= all.take(i as int));
        assert(all.take(i + 1).last() == own_listeners@[i as int]);
        if own_listeners[i].ip.is_loopback() || own_listeners[i].ip.is_unspecified() {
            push_port_urls(&mut out, routes, own_listeners[i].port);
        }
        i = i + 1;
    }
    assert(all.take(i as int) =~= all);
    sorted_set(out)
}

/// A listener's endpoint.
pub fn endpoint(ip: IpAddr, port: u16) -> (r: String)
    ensures
        r@ == endpoint_text(ip, port),
{
    let shown: String = decimal_string(port as u64);
    if ip.is_unspecified() {
        let mut text: String = "*:".to_owned();
        text.append(shown.as_str());
        return text;
    }
    let mut text: String = format_host(&ip);
    text.append(":");
    text.append(shown.as_str());
    text
}

fn has_text(list: &Vec<String>, text: &str) -> (r: bool)
    ensures
        r == texts(list@).contains(text@),
{
    let mut i: usize = 0;
    while i < list.len()
        invariant
            i <= list@.len(),
            forall|k: int| 0 <= k < i ==> texts(list@)[k] != text@,
        decreases list@.len() - i,
    {
        if same_text(list[i].as_str(), text) {
            assert(texts(list@)[i as int] == text@);
            return true;
        }
        i = i + 1;
    }
    false
}

/// The endpoints of listeners, each once, in their order.
pub fn endpoints(listeners: &[Listener]) -> (r: Vec<String>)
    ensures
        texts(r@) == endpoints_of(listeners@),
{
    let mut seen: Vec<String> = Vec::new();
    let ghost all = listeners@.map_values(
        |listener: Listener| endpoint_text(listener.ip, listener.port),
    );
    let mut i: usize = 0;
    assert(all.take(0) =~= Seq::empty());
    assert(texts(seen@) =~= Seq::empty());
    while i < listeners.len()
        invariant
            i <= listeners@.len(),
            all == listeners@.map_values(
                |listener: Listener| endpoint_text(listener.ip, listener.port),
            ),
            texts(seen@) == unique(all.take(i as int)),
        decreases listeners@.len() - i,
    {
        assert(all.take(i + 1).drop_last() =~= all.take(i as int));
        let text: String = endpoint(listeners[i].ip, listeners[i].port);
        assert(all.take(i + 1).last() == text@);
        if !has_text(&seen, text.as_str()) {
            let ghost before = seen@;
            let ghost shown = text@;
            seen.push(text);
            assert(texts(seen@) =~= texts(before).push(shown));
        }
        i = i + 1;
    }
    assert(all.take(i as int) =~= all);
    seen
}

/// The command line with the program reduced to its file name; store and
/// install paths carry no signal in a narrow terminal.
pub fn command_of(process: Option<&ProcessInfo>) -> (r: String)
    ensures
        r@ == command_text(
            match process {
                Some(process) => Some(process@),
                None => None,
            },
        ),
{
    match process {
        None => "?".to_owned(),
        Some(process) => {
            let chars: Vec<char> = chars_of(process.command.as_str());
            if chars.len() == 0 {
                let mut text: String = "[".to_owned();
                text.append(process.name.as_str());
                text.append("]");
                return text;
            }
            match split_first(chars.as_slice(), ' ') {
                None => string_of(tail_after(chars.as_slice(), '/')),
                Some((program, arguments)) => {
                    let mut text: String = string_of(tail_after(program, '/'));
                    if arguments.len() > 0 {
                        text.append(" ");
                        let rest: String = string_of(arguments);
                        text.append(rest.as_str());
                    }
                    text
                },
            }
        },
    }
}

/// A path with the home directory written as `~`.
pub open spec fn home_path(path: Seq<char>, home: Seq<char>) -> Seq<char> {
    if encode_utf8(home).len() > 1 && path == home {
        "~"@
    } else {
        match strip_prefix(path, home) {
            Some(rest) => if encode_utf8(home).len() > 1 && rest.len() > 0 && rest[0] == '/' {
                "~"@ + rest
            } else {
                path
            },
            None => path,
        }
    }
}

/// A path with the home directory written as `~`.
pub fn home_relative(path: &str, home: &str) -> (r: String)
    ensures
        r@ == home_path(path@, home@),
{
    if home.as_bytes().len() > 1 {
        if same_text(path, home) {
            return "~".to_owned();
        }
        let chars: Vec<char> = chars_of(path);
        match after_prefix(chars.as_slice(), home) {
            Some(rest) => {
                if rest.len() > 0 && rest[0] == '/' {
                    let mut text: String = "~".to_owned();
                    let shown: String = string_of(rest);
                    text.append(shown.as_str());
                    return text;
                }
            },
            None => {},
        }
    }
    path.to_owned()
}

// -------------------------------------------------------------- descendants

/// The pids of `kids` that are not in `seen`, each once.
pub open spec fn fresh(kids: Seq<u32>, seen: Seq<u32>) -> Seq<u32>
    decreases kids.len(),
{
    if kids.len() == 0 {
        Seq::empty()
    } else {
        let before = fresh(kids.drop_last(), seen);
        if seen.contains(kids.last()) || before.contains(kids.last()) {
            before
        } else {
            before.push(kids.last())
        }
    }
}

/// How many processes have not been seen.
pub open spec fn unseen(processes: Seq<Process>, seen: Seq<u32>) -> nat
    decreases processes.len(),
{
    if processes.len() == 0 {
        0
    } else {
        unseen(processes.drop_last(), seen) + if seen.contains(processes.last().pid) {
            0nat
        } else {
            1nat
        }
    }
}

proof fn lemma_fresh(kids: Seq<u32>, seen: Seq<u32>)
    ensures
        forall|p: u32| #[trigger]
            fresh(kids, seen).contains(p) <==> kids.contains(p) && !seen.contains(p),
    decreases kids.len(),
{
    if kids.len() > 0 {
        let front = kids.drop_last();
        let last = kids.last();
        lemma_fresh(front, seen);
        let before = fresh(front, seen);
        let r = fresh(kids, seen);
        assert forall|p: u32| #[trigger] r.contains(p) <==> kids.contains(p) && !seen.contains(p) by {
            assert(kids.contains(p) <==> front.contains(p) || p == last) by {
                if front.contains(p) {
                    let k = choose|k: int| 0 <= k < front.len() && front[k] == p;
                    assert(kids[k] == p);
                }
                if kids.contains(p) {
                    let k = choose|k: int| 0 <= k < kids.len() && kids[k] == p;
                    if k < front.len() {
                        assert(front[k] == p);
                    }
                }
                assert(kids[kids.len() - 1] == last);
            }
            if !(seen.contains(last) || before.contains(last)) {
                assert(r.contains(p) <==> before.contains(p) || p == last) by {
                    if before.contains(p) {
                        let k = choose|k: int| 0 <= k < before.len() && before[k] == p;
                        assert(r[k] == p);
                    }
                    assert(r[before.len() as int] == last);
                    if r.contains(p) {
                        let k = choose|k: int| 0 <= k < r.len() && r[k] == p;
                        if k < before.len() {
                            assert(before[k] == p);
                        }
                    }
                }
            }
        }
    }
}

proof fn lemma_contains_append(a: Seq<u32>, b: Seq<u32>, p: u32)
    ensures
        (a + b).contains(p) <==> a.contains(p) || b.contains(p),
{
    if a.contains(p) {
        let k = choose|k: int| 0 <= k < a.len() && a[k] == p;
        assert((a + b)[k] == p);
    }
    if b.contains(p) {
        let k = choose|k: int| 0 <= k < b.len() && b[k] == p;
        assert((a + b)[a.len() + k] == p);
    }
    if (a + b).contains(p) {
        let k = choose|k: int| 0 <= k < (a + b).len() && (a + b)[k] == p;
        if k < a.len() {
            assert(a[k] == p);
        } else {
            assert(b[k - a.len()] == p);
        }
    }
}

/// A process is a child exactly when the table gives it that parent.
proof fn lemma_children(processes: Seq<Process>, pid: u32)
    ensures
        forall|p: u32| #[trigger]
            children_of(processes, pid).contains(p) <==> is_child(processes, pid, p),
    decreases processes.len(),
{
    if processes.len() > 0 {
        let front = processes.drop_last();
        let last = processes.last();
        lemma_children(front, pid);
        let before = children_of(front, pid);
        let r = children_of(processes, pid);
        assert forall|p: u32| #[trigger] r.contains(p) <==> is_child(processes, pid, p) by {
            if before.contains(p) {
                let k = choose|k: int| 0 <= k < before.len() && before[k] == p;
                assert(r[k] == p);
            }
            if r.contains(p) && !before.contains(p) {
                let k = choose|k: int| 0 <= k < r.len() && r[k] == p;
                if k < before.len() {
                    assert(before[k] == p);
                }
                assert(processes[processes.len() - 1] == last);
                assert(child_at(processes, pid, p, processes.len() - 1));
            }
            if is_child(front, pid, p) {
                let k = choose|k: int| child_at(front, pid, p, k);
                assert(child_at(processes, pid, p, k));
            }
            if is_child(processes, pid, p) {
                let k = choose|k: int| child_at(processes, pid, p, k);
                if k < front.len() {
                    assert(child_at(front, pid, p, k));
                } else {
                    assert(r[before.len() as int] == p);
                }
            }
        }
    }
}

/// Whether row `k` of the table makes `child` a child of `parent`.
pub open spec fn child_at(processes: Seq<Process>, parent: u32, child: u32, k: int) -> bool {
    0 <= k < processes.len() && processes[k].pid == child && processes[k].ppid == parent && child
        != parent
}

/// Whether the table makes `child` a child of `parent`.
pub open spec fn is_child(processes: Seq<Process>, parent: u32, child: u32) -> bool {
    exists|k: int| child_at(processes, parent, child, k)
}

proof fn lemma_unseen(processes: Seq<Process>, seen: Seq<u32>, new: Seq<u32>)
    ensures
        unseen(processes, seen + new) <= unseen(processes, seen),
        (exists|k: int|
            0 <= k < processes.len() && !seen.contains((#[trigger] processes[k]).pid)
                && new.contains(processes[k].pid)) ==> unseen(processes, seen + new) < unseen(
            processes,
            seen,
        ),
    decreases processes.len(),
{
    if processes.len() > 0 {
        let front = processes.drop_last();
        let last = processes.last();
        lemma_unseen(front, seen, new);
        lemma_contains_append(seen, new, last.pid);
        if exists|k: int|
            0 <= k < processes.len() && !seen.contains((#[trigger] processes[k]).pid)
                && new.contains(processes[k].pid) {
            let k = choose|k: int|
                0 <= k < processes.len() && !seen.contains((#[trigger] processes[k]).pid)
                    && new.contains(processes[k].pid);
            if k < front.len() {
                assert(front[k] == processes[k]);
            }
        }
    }
}

/// Looking at one more process sees new ones, or leaves fewer to look at.
pub proof fn lemma_walk_step(processes: Seq<Process>, pid: u32, seen: Seq<u32>)
    ensures
        ({
            let new = fresh(children_of(processes, pid), seen);
            new.len() == 0 || unseen(processes, seen + new) < unseen(processes, seen)
        }),
{
    let kids = children_of(processes, pid);
    let new = fresh(kids, seen);
    lemma_unseen(processes, seen, new);
    if new.len() > 0 {
        let p = new[0];
        assert(new.contains(p));
        lemma_fresh(kids, seen);
        lemma_children(processes, pid);
        assert(is_child(processes, pid, p));
        let k = choose|k: int| child_at(processes, pid, p, k);
        assert(!seen.contains(processes[k].pid) && new.contains(processes[k].pid));
    }
}

/// All processes seen by looking at those in `frontier`, the last first, and at
/// every child not seen before.
pub open spec fn walk(processes: Seq<Process>, frontier: Seq<u32>, seen: Seq<u32>) -> Seq<u32>
    decreases unseen(processes, seen), frontier.len(),
{
    if frontier.len() == 0 {
        seen
    } else {
        let new = fresh(children_of(processes, frontier.last()), seen);
        proof {
            lemma_walk_step(processes, frontier.last(), seen);
            if new.len() == 0 {
                assert(seen + new =~= seen);
            }
        }
        walk(processes, frontier.drop_last() + new, seen + new)
    }
}

/// The descendants of a process, in the order in which they are come upon.
pub open spec fn descendants_of(processes: Seq<Process>, root: u32) -> Seq<u32> {
    walk(processes, seq![root], seq![root]).skip(1)
}

fn push_fresh(seen: &mut Vec<u32>, frontier: &mut Vec<u32>, kids: &Vec<u32>)
    ensures
        final(seen)@ == old(seen)@ + fresh(kids@, old(seen)@),
        final(frontier)@ == old(frontier)@ + fresh(kids@, old(seen)@),
{
    let ghost start = seen@;
    let ghost edge = frontier@;
    let ghost all = kids@;
    let mut i: usize = 0;
    assert(all.take(0) =~= Seq::empty());
    assert(start + fresh(all.take(0), start) =~= start);
    assert(edge + fresh(all.take(0), start) =~= edge);
    while i < kids.len()
        invariant
            i <= kids@.len(),
            all == kids@,
            seen@ == start + fresh(all.take(i as int), start),
            frontier@ == edge + fresh(all.take(i as int), start),
        decreases kids@.len() - i,
    {
        let ghost before = fresh(all.take(i as int), start);
        let kid: u32 = kids[i];
        assert(all.take(i + 1).drop_last() =~= all.take(i as int));
        assert(all.take(i + 1).last() == kid);
        proof {
            lemma_contains_append(start, before, kid);
        }
        if !has_pid(seen, kid) {
            seen.push(kid);
            frontier.push(kid);
            assert(seen@ =~= start + before.push(kid));
            assert(frontier@ =~= edge + before.push(kid));
        }
        i = i + 1;
    }
    assert(all.take(i as int) =~= all);
}

fn descendants(root: u32, processes: &[ProcessInfo]) -> (r: Vec<u32>)
    ensures
        r@ == descendants_of(processes_of(processes@), root),
{
    let ghost table = processes_of(processes@);
    let mut seen: Vec<u32> = Vec::new();
    seen.push(root);
    let mut frontier: Vec<u32> = Vec::new();
    frontier.push(root);
    assert(seen@ =~= seq![root]);
    assert(frontier@ =~= seq![root]);
    while frontier.len() > 0
        invariant
            table == processes_of(processes@),
            seen@.len() >= 1,
            walk(table, frontier@, seen@) == walk(table, seq![root], seq![root]),
        decreases unseen(table, seen@), frontier@.len(),
    {
        let ghost edge = frontier@;
        let ghost start = seen@;
        let last: usize = frontier.len() - 1;
        let pid: u32 = frontier[last];
        frontier.pop();
        assert(frontier@ =~= edge.drop_last());
        let kids: Vec<u32> = child_pids(processes, pid);
        push_fresh(&mut seen, &mut frontier, &kids);
        proof {
            lemma_walk_step(table, pid, start);
            if fresh(kids@, start).len() == 0 {
                assert(seen@ =~= start);
            }
        }
    }
    let ghost all = seen@;
    seen.remove(0);
    assert(seen@ =~= all.skip(1));
    seen
}

// --------------------------------------------------------------------- rows

/// The order of listeners by port.
pub open spec fn port_order() -> spec_fn(Listener, Listener) -> bool {
    |a: Listener, b: Listener| a.port <= b.port
}

fn port_not_after(a: &Listener, b: &Listener) -> (r: bool)
    ensures
        r == (a.port <= b.port),
{
    a.port <= b.port
}

/// The order of pids.
pub open spec fn pid_order() -> spec_fn(u32, u32) -> bool {
    |a: u32, b: u32| a <= b
}

fn pid_not_after(a: &u32, b: &u32) -> (r: bool)
    ensures
        r == (*a <= *b),
{
    *a <= *b
}

/// Whether a row comes no later than another: by its first port, then its pid.
pub open spec fn entry_le(a: Entry, b: Entry) -> bool {
    a.first_port < b.first_port || (a.first_port == b.first_port && a.pid <= b.pid)
}

/// The order of rows.
pub open spec fn entry_order() -> spec_fn(Entry, Entry) -> bool {
    |a: Entry, b: Entry| entry_le(a, b)
}

fn row_not_after(a: &Row, b: &Row) -> (r: bool)
    ensures
        r == entry_le(a@, b@),
{
    a.first_port < b.first_port || (a.first_port == b.first_port && a.pid <= b.pid)
}

/// What a set of rows is made from.
pub struct Scene {
    pub processes: Seq<Process>,
    pub listeners: Seq<Listener>,
    pub routes: Seq<(u16, Seq<char>)>,
    pub own: u32,
}

/// A row for `pid` that shows `shown`.
pub open spec fn entry_for(
    scene: Scene,
    pid: u32,
    shown: Seq<Listener>,
    session: bool,
) -> Entry {
    let sorted = sort_by(shown, port_order());
    let process = process_with(scene.processes, pid);
    Entry {
        pid,
        group: !session && match process {
            Some(process) => process.pgid == pid,
            None => false,
        },
        session,
        command: command_text(process),
        dir: ""@,
        endpoints: endpoints_of(sorted),
        urls: urls_for(scene.listeners, scene.routes, scene.own, pid),
        first_port: if sorted.len() > 0 {
            sorted[0].port
        } else {
            0
        },
    }
}

/// The listening processes with a served URL, by pid.
pub open spec fn served(scene: Scene) -> Seq<u32> {
    sort_by(
        listening(scene.listeners, scene.own).filter(
            |pid: u32| urls_for(scene.listeners, scene.routes, scene.own, pid).len() > 0,
        ),
        pid_order(),
    )
}

/// The listening descendants of `pid` that no earlier row covers.
pub open spec fn covered(scene: Scene, pid: u32, consumed: Seq<u32>) -> Seq<u32> {
    descendants_of(scene.processes, pid).filter(
        |child: u32| listening(scene.listeners, scene.own).contains(child) && !consumed.contains(child),
    )
}

/// The listeners of several processes, one process after the other.
pub open spec fn listeners_of_all(scene: Scene, pids: Seq<u32>) -> Seq<Listener>
    decreases pids.len(),
{
    if pids.len() == 0 {
        Seq::empty()
    } else {
        listeners_of_all(scene, pids.drop_last()) + listeners_of(
            scene.listeners,
            scene.own,
            pids.last(),
        )
    }
}

/// The session rows of `pids` in turn, and the processes that they cover: a
/// served listener whose descendants also listen is a proxy in front of them,
/// and one row stands for the whole tree.
pub open spec fn sessions(scene: Scene, pids: Seq<u32>) -> (Seq<Entry>, Seq<u32>)
    decreases pids.len(),
{
    if pids.len() == 0 {
        (Seq::empty(), Seq::empty())
    } else {
        let (rows, consumed) = sessions(scene, pids.drop_last());
        let pid = pids.last();
        let children = covered(scene, pid, consumed);
        if children.len() == 0 {
            (rows, consumed)
        } else {
            (
                rows.push(entry_for(scene, pid, listeners_of_all(scene, children), true)),
                consumed.push(pid) + children,
            )
        }
    }
}

/// A row for each of `pids` by itself.
pub open spec fn standalone(scene: Scene, pids: Seq<u32>) -> Seq<Entry> {
    pids.map_values(
        |pid: u32|
            entry_for(scene, pid, listeners_of(scene.listeners, scene.own, pid), false),
    )
}

/// The rows of the dashboard: the sessions, every other listening process, by
/// first port and pid.
pub open spec fn rows_of(scene: Scene) -> Seq<Entry> {
    let (rows, consumed) = sessions(scene, served(scene));
    let rest = listening(scene.listeners, scene.own).filter(|pid: u32| !consumed.contains(pid));
    sort_by(rows + standalone(scene, rest), entry_order())
}

fn make_row(
    processes: &[ProcessInfo],
    listeners: &[Listener],
    routes: &[(u16, String)],
    own: u32,
    pid: u32,
    shown: Vec<Listener>,
    session: bool,
    Ghost(scene): Ghost<Scene>,
) -> (r: Row)
    requires
        scene == (Scene {
            processes: processes_of(processes@),
            listeners: listeners@,
            routes: keyed_texts(routes@),
            own,
        }),
    ensures
        r@ == entry_for(scene, pid, shown@, session),
{
    let sorted: Vec<Listener> = sort_vec(shown, port_not_after, Ghost(port_order()));
    let process: Option<&ProcessInfo> = find_process(processes, pid);
    let group: bool = !session && match process {
        Some(process) => process.pgid == pid,
        None => false,
    };
    let first_port: u16 = if sorted.len() > 0 {
        sorted[0].port
    } else {
        0
    };
    Row {
        pid,
        group,
        session,
        command: command_of(process),
        dir: "".to_owned(),
        endpoints: endpoints(sorted.as_slice()),
        urls: pid_urls(listeners, routes, own, pid),
        first_port,
    }
}

fn served_pids(
    listeners: &[Listener],
    routes: &[(u16, String)],
    own: u32,
    pids: &Vec<u32>,
    Ghost(scene): Ghost<Scene>,
) -> (r: Vec<u32>)
    requires
        scene.listeners == listeners@,
        scene.routes == keyed_texts(routes@),
        scene.own == own,
        pids@ == listening(listeners@, own),
    ensures
        r@ == served(scene),
{
    let ghost keep = |pid: u32|
        urls_for(scene.listeners, scene.routes, scene.own, pid).len() > 0;
    let mut out: Vec<u32> = Vec::new();
    let mut i: usize = 0;
    proof {
        reveal(Seq::filter);
        assert(pids@.take(0) =~= Seq::empty());
    }
    while i < pids.len()
        invariant
            i <= pids@.len(),
            scene.listeners == listeners@,
            scene.routes == keyed_texts(routes@),
            scene.own == own,
            keep == (|pid: u32| urls_for(scene.listeners, scene.routes, scene.own, pid).len() > 0),
            out@ == pids@.take(i as int).filter(keep),
        decreases pids@.len() - i,
    {
        proof {
            reveal(Seq::filter);
            assert(pids@.take(i + 1).drop_last() =~= pids@.take(i as int));
            assert(pids@.take(i + 1).last() == pids@[i as int]);
        }
        let urls: Vec<String> = pid_urls(listeners, routes, own, pids[i]);
        assert(texts(urls@).len() == urls@.len());
        if urls.len() > 0 {
            out.push(pids[i]);
        }
        i = i + 1;
    }
    assert(pids@.take(i as int) =~= pids@);
    sort_vec(out, pid_not_after, Ghost(pid_order()))
}

fn covered_pids(
    processes: &[ProcessInfo],
    pids: &Vec<u32>,
    pid: u32,
    consumed: &Vec<u32>,
    Ghost(scene): Ghost<Scene>,
) -> (r: Vec<u32>)
    requires
        scene.processes == processes_of(processes@),
        pids@ == listening(scene.listeners, scene.own),
    ensures
        r@ == covered(scene, pid, consumed@),
{
    let found: Vec<u32> = descendants(pid, processes);
    let ghost keep = |child: u32|
        listening(scene.listeners, scene.own).contains(child) && !consumed@.contains(child);
    let mut out: Vec<u32> = Vec::new();
    let mut i: usize = 0;
    proof {
        reveal(Seq::filter);
        assert(found@.take(0) =~= Seq::empty());
    }
    while i < found.len()
        invariant
            i <= found@.len(),
            pids@ == listening(scene.listeners, scene.own),
            keep == (|child: u32|
                listening(scene.listeners, scene.own).contains(child) && !consumed@.contains(child)),
            out@ == found@.take(i as int).filter(keep),
        decreases found@.len() - i,
    {
        proof {
            reveal(Seq::filter);
            assert(found@.take(i + 1).drop_last() =~= found@.take(i as int));
            assert(found@.take(i + 1).last() == found@[i as int]);
        }
        if has_pid(pids, found[i]) && !has_pid(consumed, found[i]) {
            out.push(found[i]);
        }
        i = i + 1;
    }
    assert(found@.take(i as int) =~= found@);
    out
}

fn all_pid_listeners(
    listeners: &[Listener],
    own: u32,
    pids: &Vec<u32>,
    Ghost(scene): Ghost<Scene>,
) -> (r: Vec<Listener>)
    requires
        scene.listeners == listeners@,
        scene.own == own,
    ensures
        r@ == listeners_of_all(scene, pids@),
{
    let mut out: Vec<Listener> = Vec::new();
    let mut i: usize = 0;
    assert(pids@.take(0) =~= Seq::empty());
    while i < pids.len()
        invariant
            i <= pids@.len(),
            scene.listeners == listeners@,
            scene.own == own,
            out@ == listeners_of_all(scene, pids@.take(i as int)),
        decreases pids@.len() - i,
    {
        assert(pids@.take(i + 1).drop_last() =~= pids@.take(i as int));
        assert(pids@.take(i + 1).last() == pids@[i as int]);
        let more: Vec<Listener> = pid_listeners(listeners, own, pids[i]);
        let ghost before = out@;
        let mut k: usize = 0;
        assert(before + more@.take(0) =~= before);
        while k < more.len()
            invariant
                k <= more@.len(),
                out@ == before + more@.take(k as int),
            decreases more@.len() - k,
        {
            out.push(more[k]);
            k = k + 1;
            assert(out@ =~= before + more@.take(k as int));
        }
        assert(more@.take(k as int) =~= more@);
        i = i + 1;
    }
    assert(pids@.take(i as int) =~= pids@);
    out
}

/// The rows of the dashboard, from the process table, the listening sockets and
/// the served URLs by local port.
pub fn build_rows(
    processes: &[ProcessInfo],
    listeners: &[Listener],
    routes: &[(u16, String)],
    own_pid: u32,
) -> (r: Vec<Row>)
    ensures
        entries(r@) == rows_of(
            Scene {
                processes: processes_of(processes@),
                listeners: listeners@,
                routes: keyed_texts(routes@),
                own: own_pid,
            },
        ),
{
    let ghost scene = Scene {
        processes: processes_of(processes@),
        listeners: listeners@,
        routes: keyed_texts(routes@),
        own: own_pid,
    };
    let pids: Vec<u32> = listening_pids(listeners, own_pid);
    let proxies: Vec<u32> = served_pids(listeners, routes, own_pid, &pids, Ghost(scene));
    let mut rows: Vec<Row> = Vec::new();
    let mut consumed: Vec<u32> = Vec::new();
    let mut i: usize = 0;
    assert(proxies@.take(0) =~= Seq::empty());
    assert(entries(rows@) =~= Seq::empty());
    while i < proxies.len()
        invariant
            i <= proxies@.len(),
            scene == (Scene {
                processes: processes_of(processes@),
                listeners: listeners@,
                routes: keyed_texts(routes@),
                own: own_pid,
            }),
            pids@ == listening(scene.listeners, scene.own),
            (entries(rows@), consumed@) == sessions(scene, proxies@.take(i as int)),
        decreases proxies@.len() - i,
    {
        assert(proxies@.take(i + 1).drop_last() =~= proxies@.take(i as int));
        assert(proxies@.take(i + 1).last() == proxies@[i as int]);
        let pid: u32 = proxies[i];
        i = i + 1;
        let children: Vec<u32> = covered_pids(processes, &pids, pid, &consumed, Ghost(scene));
        if children.len() > 0 {
            let shown: Vec<Listener> = all_pid_listeners(
                listeners,
                own_pid,
                &children,
                Ghost(scene),
            );
            let row: Row = make_row(
                processes,
                listeners,
                routes,
                own_pid,
                pid,
                shown,
                true,
                Ghost(scene),
            );
            let ghost before = rows@;
            let ghost entry = row@;
            let ghost was = consumed@;
            rows.push(row);
            assert(entries(rows@) =~= entries(before).push(entry));
            consumed.push(pid);
            let mut k: usize = 0;
            assert(was.push(pid) + children@.take(0) =~= was.push(pid));
            while k < children.len()
                invariant
                    k <= children@.len(),
                    consumed@ == was.push(pid) + children@.take(k as int),
                decreases children@.len() - k,
            {
                consumed.push(children[k]);
                k = k + 1;
                assert(consumed@ =~= was.push(pid) + children@.take(k as int));
            }
            assert(children@.take(k as int) =~= children@);
        }
    }
    assert(proxies@.take(i as int) =~= proxies@);
    let ghost session_rows = entries(rows@);
    let ghost keep = |pid: u32| !consumed@.contains(pid);
    let mut j: usize = 0;
    proof {
        reveal(Seq::filter);
        assert(pids@.take(0) =~= Seq::empty());
        assert(session_rows + standalone(scene, pids@.take(0).filter(keep)) =~= session_rows);
    }
    while j < pids.len()
        invariant
            j <= pids@.len(),
            scene == (Scene {
                processes: processes_of(processes@),
                listeners: listeners@,
                routes: keyed_texts(routes@),
                own: own_pid,
            }),
            keep == (|pid: u32| !consumed@.contains(pid)),
            entries(rows@) == session_rows + standalone(
                scene,
                pids@.take(j as int).filter(keep),
            ),
        decreases pids@.len() - j,
    {
        proof {
            reveal(Seq::filter);
            assert(pids@.take(j + 1).drop_last() =~= pids@.take(j as int));
            assert(pids@.take(j + 1).last() == pids@[j as int]);
        }
        let pid: u32 = pids[j];
        if !has_pid(&consumed, pid) {
            let shown: Vec<Listener> = pid_listeners(listeners, own_pid, pid);
            let row: Row = make_row(
                processes,
                listeners,
                routes,
                own_pid,
                pid,
                shown,
                false,
                Ghost(scene),
            );
            let ghost before = rows@;
            let ghost entry = row@;
            let ghost part = pids@.take(j as int).filter(keep);
            rows.push(row);
            assert(entries(rows@) =~= entries(before).push(entry));
            assert(standalone(scene, part.push(pid)) =~= standalone(scene, part).push(entry));
            assert(session_rows + standalone(scene, part.push(pid)) =~= entries(rows@));
        }
        j = j + 1;
    }
    assert(pids@.take(j as int) =~= pids@);
    let ghost le = |a: Row, b: Row| entry_le(a@, b@);
    let ghost f = |row: Row| row@;
    proof {
        lemma_sort_by_map(rows@, le, f, entry_order());
        assert(entries(rows@) =~= rows@.map_values(f));
    }
    let sorted: Vec<Row> = sort_vec(rows, row_not_after, Ghost(le));
    assert(entries(sorted@) =~= sorted@.map_values(f));
    sorted
}

// --------------------------------------------------------------------- laws

/// Whether `pid` descends from `root` over at most `steps` parents.
pub open spec fn descends_within(
    processes: Seq<Process>,
    root: u32,
    pid: u32,
    steps: nat,
) -> bool
    decreases steps,
{
    pid == root || (steps > 0 && exists|parent: u32| #[trigger]
        is_child(processes, parent, pid) && descends_within(
            processes,
            root,
            parent,
            (steps - 1) as nat,
        ))
}

/// Whether `pid` is `root` or descends from it.
pub open spec fn descends(processes: Seq<Process>, root: u32, pid: u32) -> bool {
    exists|steps: nat| descends_within(processes, root, pid, steps)
}

/// Every child of `pid` is in `seen`.
spec fn children_in(processes: Seq<Process>, seen: Seq<u32>, pid: u32) -> bool {
    forall|child: u32| #[trigger] is_child(processes, pid, child) ==> seen.contains(child)
}

spec fn no_twice(s: Seq<u32>) -> bool {
    forall|i: int, j: int| 0 <= i < j < s.len() ==> #[trigger] s[i] != #[trigger] s[j]
}

proof fn lemma_fresh_no_twice(kids: Seq<u32>, seen: Seq<u32>)
    ensures
        no_twice(fresh(kids, seen)),
    decreases kids.len(),
{
    if kids.len() > 0 {
        lemma_fresh_no_twice(kids.drop_last(), seen);
        let before = fresh(kids.drop_last(), seen);
        if !before.contains(kids.last()) {
            assert forall|i: int| 0 <= i < before.len() implies before[i] != kids.last() by {
                if before[i] == kids.last() {
                    assert(before.contains(kids.last()));
                }
            }
        }
    }
}

proof fn lemma_walk(processes: Seq<Process>, frontier: Seq<u32>, seen: Seq<u32>, root: u32)
    requires
        seen.len() > 0,
        seen[0] == root,
        no_twice(seen),
        forall|p: u32| frontier.contains(p) ==> #[trigger] seen.contains(p),
        forall|p: u32| #[trigger] seen.contains(p) ==> descends(processes, root, p),
        forall|p: u32|
            #[trigger] seen.contains(p) && !frontier.contains(p) ==> children_in(
                processes,
                seen,
                p,
            ),
    ensures
        ({
            let r = walk(processes, frontier, seen);
            &&& r.len() > 0
            &&& r[0] == root
            &&& no_twice(r)
            &&& forall|p: u32| #[trigger] r.contains(p) ==> descends(processes, root, p)
            &&& forall|p: u32| #[trigger] r.contains(p) ==> children_in(processes, r, p)
        }),
    decreases unseen(processes, seen), frontier.len(),
{
    if frontier.len() == 0 {
        assert forall|p: u32| #[trigger] seen.contains(p) implies children_in(processes, seen, p) by {
            assert(!frontier.contains(p));
        }
    } else {
        let pid = frontier.last();
        let rest = frontier.drop_last();
        let kids = children_of(processes, pid);
        let new = fresh(kids, seen);
        lemma_walk_step(processes, pid, seen);
        lemma_fresh(kids, seen);
        lemma_fresh_no_twice(kids, seen);
        lemma_children(processes, pid);
        assert(frontier[frontier.len() - 1] == pid);
        assert(frontier.contains(pid));
        if new.len() == 0 {
            assert(seen + new =~= seen);
        }
        let more = seen + new;
        let edge = rest + new;
        assert(no_twice(more)) by {
            assert forall|i: int, j: int| 0 <= i < j < more.len() implies #[trigger] more[i]
                != #[trigger] more[j] by {
                if i < seen.len() && j >= seen.len() {
                    assert(seen.contains(more[i]));
                    assert(new.contains(more[j])) by {
                        assert(new[j - seen.len()] == more[j]);
                    }
                } else if i >= seen.len() {
                    assert(new[i - seen.len()] != new[j - seen.len()]);
                }
            }
        }
        assert forall|p: u32| edge.contains(p) implies #[trigger] more.contains(p) by {
            lemma_contains_append(rest, new, p);
            lemma_contains_append(seen, new, p);
            if rest.contains(p) {
                let k = choose|k: int| 0 <= k < rest.len() && rest[k] == p;
                assert(frontier[k] == p);
                assert(frontier.contains(p));
                assert(seen.contains(p));
            }
        }
        assert forall|p: u32| #[trigger] more.contains(p) implies descends(processes, root, p) by {
            lemma_contains_append(seen, new, p);
            if !seen.contains(p) {
                assert(new.contains(p));
                assert(is_child(processes, pid, p));
                assert(seen.contains(pid));
                let steps = choose|steps: nat| descends_within(processes, root, pid, steps);
                assert(descends_within(processes, root, p, steps + 1));
            }
        }
        assert forall|p: u32| #[trigger] more.contains(p) && !edge.contains(p) implies children_in(
            processes,
            more,
            p,
        ) by {
            lemma_contains_append(seen, new, p);
            lemma_contains_append(rest, new, p);
            assert(seen.contains(p));
            assert forall|child: u32| #[trigger] is_child(processes, p, child) implies more.contains(
                child,
            ) by {
                lemma_contains_append(seen, new, child);
                if p == pid {
                    assert(kids.contains(child));
                } else {
                    assert(!frontier.contains(p)) by {
                        if frontier.contains(p) {
                            let k = choose|k: int| 0 <= k < frontier.len() && frontier[k] == p;
                            assert(rest[k] == p);
                        }
                    }
                    assert(children_in(processes, seen, p));
                }
            }
        }
        assert(more[0] == seen[0]);
        lemma_walk(processes, edge, more, root);
    }
}

proof fn lemma_closed(
    processes: Seq<Process>,
    seen: Seq<u32>,
    root: u32,
    pid: u32,
    steps: nat,
)
    requires
        seen.contains(root),
        forall|p: u32| #[trigger] seen.contains(p) ==> children_in(processes, seen, p),
        descends_within(processes, root, pid, steps),
    ensures
        seen.contains(pid),
    decreases steps,
{
    if pid != root {
        let parent = choose|parent: u32| #[trigger]
            is_child(processes, parent, pid) && descends_within(
                processes,
                root,
                parent,
                (steps - 1) as nat,
            );
        lemma_closed(processes, seen, root, parent, (steps - 1) as nat);
        assert(children_in(processes, seen, parent));
    }
}

/// The descendants that a session row covers are exactly the processes below it
/// in the process tree, whatever order the table is in and also where parents
/// form a cycle.
pub proof fn descendants_are_the_tree_below(processes: Seq<Process>, root: u32, pid: u32)
    ensures
        descendants_of(processes, root).contains(pid) <==> pid != root && descends(
            processes,
            root,
            pid,
        ),
        descendants_of(processes, root).no_duplicates(),
{
    let start = seq![root];
    assert(descends_within(processes, root, root, 0));
    assert forall|p: u32| #[trigger] start.contains(p) implies descends(processes, root, p) by {
        assert(p == root);
    }
    assert forall|p: u32| #[trigger] start.contains(p) && !start.contains(p) implies children_in(
        processes,
        start,
        p,
    ) by {
    }
    lemma_walk(processes, start, start, root);
    let all = walk(processes, start, start);
    let below = descendants_of(processes, root);
    assert(all.contains(root));
    assert forall|i: int, j: int| 0 <= i < j < below.len() implies below[i] != below[j] by {
        assert(all[i + 1] != all[j + 1]);
    }
    if below.contains(pid) {
        let k = choose|k: int| 0 <= k < below.len() && below[k] == pid;
        assert(all[k + 1] == pid);
        assert(all.contains(pid));
        assert(all[0] != all[k + 1]);
    }
    if pid != root && descends(processes, root, pid) {
        let steps = choose|steps: nat| descends_within(processes, root, pid, steps);
        lemma_closed(processes, all, root, pid, steps);
        let k = choose|k: int| 0 <= k < all.len() && all[k] == pid;
        assert(below[k - 1] == pid);
    }
}

/// Whether some row stands for `pid`: its own, or that of a session above it.
pub open spec fn stands_for(row: Entry, processes: Seq<Process>, pid: u32) -> bool {
    row.pid == pid || (row.session && descendants_of(processes, row.pid).contains(pid))
}

/// Whether one of `rows` stands for `pid`.
pub open spec fn shown_in(rows: Seq<Entry>, processes: Seq<Process>, pid: u32) -> bool {
    exists|k: int| 0 <= k < rows.len() && #[trigger] stands_for(rows[k], processes, pid)
}

proof fn lemma_sessions_cover(scene: Scene, pids: Seq<u32>)
    ensures
        forall|pid: u32| #[trigger]
            sessions(scene, pids).1.contains(pid) ==> shown_in(
                sessions(scene, pids).0,
                scene.processes,
                pid,
            ),
        forall|k: int|
            0 <= k < sessions(scene, pids).0.len() ==> pids.contains(
                (#[trigger] sessions(scene, pids).0[k]).pid,
            ),
    decreases pids.len(),
{
    if pids.len() > 0 {
        let front = pids.drop_last();
        lemma_sessions_cover(scene, front);
        let (rows, consumed) = sessions(scene, front);
        let pid = pids.last();
        let children = covered(scene, pid, consumed);
        let (all, taken) = sessions(scene, pids);
        assert forall|p: u32| #[trigger] taken.contains(p) implies shown_in(
            all,
            scene.processes,
            p,
        ) by {
            if children.len() > 0 {
                lemma_contains_append(consumed.push(pid), children, p);
                if consumed.push(pid).contains(p) && !consumed.contains(p) {
                    let k = choose|k: int|
                        0 <= k < consumed.push(pid).len() && consumed.push(pid)[k] == p;
                    if k < consumed.len() {
                        assert(consumed[k] == p);
                    }
                    assert(stands_for(all[rows.len() as int], scene.processes, p));
                } else if consumed.contains(p) {
                    assert(shown_in(rows, scene.processes, p));
                    let k = choose|k: int|
                        0 <= k < rows.len() && #[trigger] stands_for(rows[k], scene.processes, p);
                    assert(all[k] == rows[k]);
                    assert(stands_for(all[k], scene.processes, p));
                } else {
                    let keep = |child: u32|
                        listening(scene.listeners, scene.own).contains(child)
                            && !consumed.contains(child);
                    descendants_of(scene.processes, pid).lemma_filter_contains_rev(keep, p);
                    assert(stands_for(all[rows.len() as int], scene.processes, p));
                }
            }
        }
        assert forall|k: int| 0 <= k < all.len() implies pids.contains((#[trigger] all[k]).pid) by {
            if k < rows.len() {
                assert(front.contains(rows[k].pid));
                let m = choose|m: int| 0 <= m < front.len() && front[m] == rows[k].pid;
                assert(pids[m] == all[k].pid);
            } else {
                assert(pids[pids.len() - 1] == pid);
            }
        }
    }
}

proof fn lemma_sorted_contains<T>(s: Seq<T>, le: spec_fn(T, T) -> bool, x: T)
    ensures
        sort_by(s, le).contains(x) <==> s.contains(x),
{
    sort_by_keeps_items(s, le);
    s.to_multiset_ensures();
    sort_by(s, le).to_multiset_ensures();
    assert(s.contains(x) <==> s.to_multiset().count(x) > 0);
    assert(sort_by(s, le).contains(x) <==> sort_by(s, le).to_multiset().count(x) > 0);
}

proof fn lemma_listening(listeners: Seq<Listener>, own: u32)
    ensures
        !listening(listeners, own).contains(own),
        forall|i: int|
            0 <= i < listeners.len() && (#[trigger] listeners[i]).pid != own ==> listening(
                listeners,
                own,
            ).contains(listeners[i].pid),
    decreases listeners.len(),
{
    if listeners.len() > 0 {
        let front = listeners.drop_last();
        lemma_listening(front, own);
        let before = listening(front, own);
        let r = listening(listeners, own);
        assert forall|i: int|
            0 <= i < listeners.len() && (#[trigger] listeners[i]).pid != own implies r.contains(
            listeners[i].pid,
        ) by {
            let p = listeners[i].pid;
            if i < front.len() {
                assert(front[i] == listeners[i]);
                assert(before.contains(p));
                let k = choose|k: int| 0 <= k < before.len() && before[k] == p;
                assert(r[k] == p);
            } else if !before.contains(p) {
                assert(r[before.len() as int] == p);
            }
        }
        if r.contains(own) {
            let k = choose|k: int| 0 <= k < r.len() && r[k] == own;
            assert(before[k] == own);
            assert(before.contains(own));
        }
    }
}

proof fn lemma_listeners_of(listeners: Seq<Listener>, own: u32, pid: u32)
    ensures
        forall|l: Listener| #[trigger]
            listeners_of(listeners, own, pid).contains(l) <==> listeners.contains(l) && l.pid == pid
                && pid != own,
    decreases listeners.len(),
{
    if listeners.len() > 0 {
        let front = listeners.drop_last();
        let last = listeners.last();
        lemma_listeners_of(front, own, pid);
        let before = listeners_of(front, own, pid);
        let r = listeners_of(listeners, own, pid);
        assert forall|l: Listener| #[trigger] r.contains(l) <==> listeners.contains(l) && l.pid
            == pid && pid != own by {
            assert(listeners =~= front.push(last));
            lemma_push_contains(front, last, l);
            lemma_push_contains(before, last, l);
        }
    }
}

proof fn lemma_push_contains<T>(s: Seq<T>, last: T, x: T)
    ensures
        s.push(last).contains(x) <==> s.contains(x) || x == last,
{
    let r = s.push(last);
    if s.contains(x) {
        let k = choose|k: int| 0 <= k < s.len() && s[k] == x;
        assert(r[k] == x);
    }
    assert(r[s.len() as int] == last);
    if r.contains(x) {
        let k = choose|k: int| 0 <= k < r.len() && r[k] == x;
        if k < s.len() {
            assert(s[k] == x);
        }
    }
}

/// The listeners of several processes are those that any of them holds.
proof fn lemma_listeners_of_all(scene: Scene, pids: Seq<u32>)
    requires
        !pids.contains(scene.own),
    ensures
        forall|l: Listener| #[trigger]
            listeners_of_all(scene, pids).contains(l) <==> scene.listeners.contains(l)
                && pids.contains(l.pid),
    decreases pids.len(),
{
    if pids.len() > 0 {
        let front = pids.drop_last();
        let last = pids.last();
        assert(pids =~= front.push(last));
        lemma_push_contains(front, last, scene.own);
        lemma_listeners_of_all(scene, front);
        lemma_listeners_of(scene.listeners, scene.own, last);
        let before = listeners_of_all(scene, front);
        let more = listeners_of(scene.listeners, scene.own, last);
        let r = listeners_of_all(scene, pids);
        assert forall|l: Listener| #[trigger] r.contains(l) <==> scene.listeners.contains(l)
            && pids.contains(l.pid) by {
            lemma_push_contains(front, last, l.pid);
            assert(r.contains(l) <==> before.contains(l) || more.contains(l)) by {
                assert(r =~= before + more);
                if before.contains(l) {
                    let k = choose|k: int| 0 <= k < before.len() && before[k] == l;
                    assert(r[k] == l);
                }
                if more.contains(l) {
                    let k = choose|k: int| 0 <= k < more.len() && more[k] == l;
                    assert(r[before.len() + k] == l);
                }
                if r.contains(l) {
                    let k = choose|k: int| 0 <= k < r.len() && r[k] == l;
                    if k < before.len() {
                        assert(before[k] == l);
                    } else {
                        assert(more[k - before.len()] == l);
                    }
                }
            }
        }
    }
}

/// A process that listens holds a socket.
proof fn lemma_listening_holds(listeners: Seq<Listener>, own: u32, pid: u32)
    requires
        listening(listeners, own).contains(pid),
    ensures
        pid != own,
        exists|l: Listener| listeners.contains(l) && #[trigger] l.pid == pid,
    decreases listeners.len(),
{
    if listeners.len() > 0 {
        let front = listeners.drop_last();
        let before = listening(front, own);
        let last = listeners.last();
        assert(listeners[listeners.len() - 1] == last);
        if before.contains(pid) {
            lemma_listening_holds(front, own, pid);
            let l = choose|l: Listener| front.contains(l) && #[trigger] l.pid == pid;
            let k = choose|k: int| 0 <= k < front.len() && front[k] == l;
            assert(listeners[k] == l);
            assert(listeners.contains(l));
        } else {
            if last.pid != own {
                lemma_push_contains(before, last.pid, pid);
            }
            assert(listeners.contains(last));
            assert(last.pid == pid);
        }
    }
}

proof fn lemma_listening_distinct(listeners: Seq<Listener>, own: u32)
    ensures
        listening(listeners, own).no_duplicates(),
    decreases listeners.len(),
{
    if listeners.len() > 0 {
        let front = listeners.drop_last();
        lemma_listening_distinct(front, own);
        let before = listening(front, own);
        let pid = listeners.last().pid;
        if pid != own && !before.contains(pid) {
            let r = before.push(pid);
            assert forall|i: int, j: int| 0 <= i < r.len() && 0 <= j < r.len() && i != j implies r[i]
                != r[j] by {
                if i < before.len() {
                    assert(before.contains(before[i]));
                }
                if j < before.len() {
                    assert(before.contains(before[j]));
                }
            }
        }
    }
}

proof fn lemma_sorted_distinct<T>(s: Seq<T>, le: spec_fn(T, T) -> bool)
    requires
        s.no_duplicates(),
    ensures
        sort_by(s, le).no_duplicates(),
{
    sort_by_keeps_items(s, le);
    s.lemma_multiset_has_no_duplicates();
    assert forall|x: T| sort_by(s, le).to_multiset().contains(x) implies sort_by(
        s,
        le,
    ).to_multiset().count(x) == 1 by {}
    sort_by(s, le).lemma_multiset_has_no_duplicates_conv();
}

/// Whether `row` is a session that stands for `children`: it shows their
/// sockets.
pub open spec fn session_over(scene: Scene, row: Entry, children: Seq<u32>) -> bool {
    &&& row == entry_for(scene, row.pid, listeners_of_all(scene, children), true)
    &&& children.len() > 0
    &&& forall|c: u32| #[trigger]
        children.contains(c) ==> listening(scene.listeners, scene.own).contains(c)
            && descendants_of(scene.processes, row.pid).contains(c)
}

spec fn over_some(scene: Scene, row: Entry) -> bool {
    exists|children: Seq<u32>| session_over(scene, row, children)
}

/// Whether one of `rows` is the session of `pid`, or stands for it as a child.
spec fn taken_by(scene: Scene, rows: Seq<Entry>, pid: u32, k: int, children: Seq<u32>) -> bool {
    0 <= k < rows.len() && session_over(scene, rows[k], children) && (rows[k].pid == pid
        || children.contains(pid))
}

proof fn lemma_sessions_show(scene: Scene, pids: Seq<u32>)
    requires
        pids.no_duplicates(),
    ensures
        forall|k: int|
            0 <= k < sessions(scene, pids).0.len() ==> over_some(
                scene,
                #[trigger] sessions(scene, pids).0[k],
            ),
        forall|pid: u32| #[trigger]
            sessions(scene, pids).1.contains(pid) ==> exists|k: int, children: Seq<u32>|
                taken_by(scene, sessions(scene, pids).0, pid, k, children),
        forall|k: int|
            0 <= k < sessions(scene, pids).0.len() ==> sessions(scene, pids).1.contains(
                (#[trigger] sessions(scene, pids).0[k]).pid,
            ),
        forall|i: int, j: int|
            0 <= i < j < sessions(scene, pids).0.len() ==> (#[trigger] sessions(scene, pids).0[i]).pid
                != (#[trigger] sessions(scene, pids).0[j]).pid,
    decreases pids.len(),
{
    if pids.len() > 0 {
        let front = pids.drop_last();
        lemma_sessions_show(scene, front);
        lemma_sessions_cover(scene, front);
        let (rows, consumed) = sessions(scene, front);
        let pid = pids.last();
        let children = covered(scene, pid, consumed);
        let (all, taken) = sessions(scene, pids);
        if children.len() > 0 {
            let n = rows.len() as int;
            let row = all[n];
            let keep = |child: u32|
                listening(scene.listeners, scene.own).contains(child) && !consumed.contains(child);
            assert forall|c: u32| #[trigger] children.contains(c) implies listening(
                scene.listeners,
                scene.own,
            ).contains(c) && descendants_of(scene.processes, row.pid).contains(c) by {
                descendants_of(scene.processes, pid).lemma_filter_contains_rev(keep, c);
                let k = choose|k: int| 0 <= k < children.len() && children[k] == c;
                descendants_of(scene.processes, pid).lemma_filter_pred(keep, k);
            }
            assert(session_over(scene, row, children));
            assert forall|k: int| 0 <= k < all.len() implies over_some(
                scene,
                #[trigger] all[k],
            ) by {
                if k < n {
                    assert(all[k] == rows[k]);
                }
            }
            assert forall|p: u32| #[trigger] taken.contains(p) implies exists|
                k: int,
                kids: Seq<u32>,
            | taken_by(scene, all, p, k, kids) by {
                lemma_contains_append(consumed.push(pid), children, p);
                lemma_push_contains(consumed, pid, p);
                if consumed.contains(p) {
                    let (k, kids) = choose|k: int, kids: Seq<u32>|
                        taken_by(scene, rows, p, k, kids);
                    assert(all[k] == rows[k]);
                    assert(taken_by(scene, all, p, k, kids));
                } else {
                    assert(taken_by(scene, all, p, n, children));
                }
            }
            assert forall|k: int| 0 <= k < all.len() implies taken.contains(
                (#[trigger] all[k]).pid,
            ) by {
                lemma_contains_append(consumed.push(pid), children, all[k].pid);
                lemma_push_contains(consumed, pid, all[k].pid);
                if k < n {
                    assert(all[k] == rows[k]);
                }
            }
            assert forall|i: int, j: int| 0 <= i < j < all.len() implies (#[trigger] all[i]).pid
                != (#[trigger] all[j]).pid by {
                assert(all[i] == rows[i]);
                if j < n {
                    assert(all[j] == rows[j]);
                } else {
                    assert(front.contains(rows[i].pid));
                    let m = choose|m: int| 0 <= m < front.len() && front[m] == rows[i].pid;
                    assert(pids[m] != pids[pids.len() - 1]);
                }
            }
        } else {
            assert(front.no_duplicates());
        }
    }
}

/// The first of `listeners` with each endpoint.
spec fn firsts(listeners: Seq<Listener>) -> Seq<Listener>
    decreases listeners.len(),
{
    if listeners.len() == 0 {
        listeners
    } else {
        let front = listeners.drop_last();
        let last = listeners.last();
        if endpoints_of(front).contains(endpoint_text(last.ip, last.port)) {
            firsts(front)
        } else {
            firsts(front).push(last)
        }
    }
}

proof fn lemma_firsts(listeners: Seq<Listener>)
    requires
        in_order(listeners, port_order()),
    ensures
        endpoints_of(listeners) == firsts(listeners).map_values(
            |l: Listener| endpoint_text(l.ip, l.port),
        ),
        in_order(firsts(listeners), port_order()),
        forall|i: int| 0 <= i < firsts(listeners).len() ==> listeners.contains(
            #[trigger] firsts(listeners)[i],
        ),
        listeners.len() > 0 ==> firsts(listeners).len() > 0 && firsts(listeners)[0] == listeners[0],
    decreases listeners.len(),
{
    let show = |l: Listener| endpoint_text(l.ip, l.port);
    let le = port_order();
    if listeners.len() > 0 {
        let front = listeners.drop_last();
        let last = listeners.last();
        assert(in_order(front, le)) by {
            assert forall|i: int, j: int| 0 <= i < j < front.len() implies le(
                #[trigger] front[i],
                #[trigger] front[j],
            ) by {
                assert(le(listeners[i], listeners[j]));
            }
        }
        lemma_firsts(front);
        let texts = listeners.map_values(show);
        assert(texts.drop_last() =~= front.map_values(show));
        assert(texts.last() == show(last));
        let kept = firsts(front);
        let r = firsts(listeners);
        assert(kept.push(last).map_values(show) =~= kept.map_values(show).push(show(last)));
        assert forall|i: int| 0 <= i < r.len() implies listeners.contains(#[trigger] r[i]) by {
            if i < kept.len() {
                assert(kept[i] == r[i]);
                let k = choose|k: int| 0 <= k < front.len() && front[k] == kept[i];
                assert(listeners[k] == r[i]);
            } else {
                assert(listeners[listeners.len() - 1] == r[i]);
            }
        }
        assert forall|i: int, j: int| 0 <= i < j < r.len() implies le(
            #[trigger] r[i],
            #[trigger] r[j],
        ) by {
            if j < kept.len() {
                assert(le(kept[i], kept[j]));
            } else {
                assert(front.contains(kept[i]));
                let k = choose|k: int| 0 <= k < front.len() && front[k] == kept[i];
                assert(le(listeners[k], listeners[listeners.len() - 1]));
            }
        }
        if front.len() == 0 {
            assert(endpoints_of(front).len() == 0);
        }
    } else {
        assert(listeners.map_values(show) =~= Seq::empty());
        assert(unique(listeners.map_values(show)) =~= Seq::empty());
        assert(firsts(listeners).map_values(show) =~= Seq::empty());
    }
}

/// Whether `row` shows `listeners`, by port: its endpoints are theirs in turn,
/// its first port is the least of theirs, and each is held by a process that the
/// row stands for.
pub open spec fn shows(scene: Scene, row: Entry, listeners: Seq<Listener>) -> bool {
    &&& listeners.len() > 0
    &&& row.endpoints == listeners.map_values(|l: Listener| endpoint_text(l.ip, l.port))
    &&& in_order(listeners, port_order())
    &&& row.first_port == listeners[0].port
    &&& forall|i: int|
        0 <= i < listeners.len() ==> scene.listeners.contains(#[trigger] listeners[i])
            && stands_for(row, scene.processes, listeners[i].pid)
}

/// A row made for listeners shows them.
proof fn lemma_entry_shows(scene: Scene, pid: u32, shown: Seq<Listener>, session: bool)
    requires
        shown.len() > 0,
        forall|l: Listener| #[trigger]
            shown.contains(l) ==> scene.listeners.contains(l) && (l.pid == pid || (session
                && descendants_of(scene.processes, pid).contains(l.pid))),
    ensures
        exists|by: Seq<Listener>| shows(scene, entry_for(scene, pid, shown, session), by),
        all_distinct(entry_for(scene, pid, shown, session).endpoints),
        forall|l: Listener| #[trigger]
            shown.contains(l) ==> entry_for(scene, pid, shown, session).endpoints.contains(
                endpoint_text(l.ip, l.port),
            ) && entry_for(scene, pid, shown, session).first_port <= l.port,
{
    let le = port_order();
    let show = |l: Listener| endpoint_text(l.ip, l.port);
    let row = entry_for(scene, pid, shown, session);
    let sorted = sort_by(shown, le);
    sort_by_is_ordered(shown, le);
    sort_by_keeps_items(shown, le);
    lemma_firsts(sorted);
    let by = firsts(sorted);
    assert forall|i: int| 0 <= i < by.len() implies scene.listeners.contains(#[trigger] by[i])
        && stands_for(row, scene.processes, by[i].pid) by {
        lemma_sorted_contains(shown, le, by[i]);
        assert(shown.contains(by[i]));
    }
    assert(shows(scene, row, by));
    unique_keeps_each_once(sorted.map_values(show));
    assert forall|l: Listener| #[trigger] shown.contains(l) implies row.endpoints.contains(
        endpoint_text(l.ip, l.port),
    ) && row.first_port <= l.port by {
        lemma_sorted_contains(shown, le, l);
        let k = choose|k: int| 0 <= k < sorted.len() && sorted[k] == l;
        assert(sorted.map_values(show)[k] == show(l));
        assert(sorted.map_values(show).contains(show(l)));
        assert(unique(sorted.map_values(show)).contains(show(l)));
        if k > 0 {
            assert(le(sorted[0], sorted[k]));
        }
    }
}

/// A session shows its children's sockets.
proof fn lemma_session_shows(scene: Scene, row: Entry, children: Seq<u32>)
    requires
        session_over(scene, row, children),
    ensures
        exists|by: Seq<Listener>| shows(scene, row, by),
        all_distinct(row.endpoints),
        forall|l: Listener| #[trigger]
            scene.listeners.contains(l) && children.contains(l.pid) ==> row.endpoints.contains(
                endpoint_text(l.ip, l.port),
            ) && row.first_port <= l.port,
{
    let shown = listeners_of_all(scene, children);
    if children.contains(scene.own) {
        lemma_listening_holds(scene.listeners, scene.own, scene.own);
    }
    lemma_listeners_of_all(scene, children);
    let first = children[0];
    assert(children.contains(first));
    lemma_listening_holds(scene.listeners, scene.own, first);
    let l = choose|l: Listener| scene.listeners.contains(l) && #[trigger] l.pid == first;
    assert(shown.contains(l));
    lemma_entry_shows(scene, row.pid, shown, true);
    assert forall|l: Listener| #[trigger]
        scene.listeners.contains(l) && children.contains(l.pid) implies row.endpoints.contains(
        endpoint_text(l.ip, l.port),
    ) && row.first_port <= l.port by {
        assert(shown.contains(l));
    }
}

/// A row of its own shows its process's sockets.
proof fn lemma_standalone_shows(scene: Scene, pid: u32)
    requires
        listening(scene.listeners, scene.own).contains(pid),
    ensures
        ({
            let row = entry_for(
                scene,
                pid,
                listeners_of(scene.listeners, scene.own, pid),
                false,
            );
            &&& exists|by: Seq<Listener>| shows(scene, row, by)
            &&& all_distinct(row.endpoints)
            &&& forall|l: Listener| #[trigger]
                scene.listeners.contains(l) && l.pid == pid ==> row.endpoints.contains(
                    endpoint_text(l.ip, l.port),
                ) && row.first_port <= l.port
        }),
{
    let shown = listeners_of(scene.listeners, scene.own, pid);
    lemma_listening_holds(scene.listeners, scene.own, pid);
    lemma_listeners_of(scene.listeners, scene.own, pid);
    let l = choose|l: Listener| scene.listeners.contains(l) && #[trigger] l.pid == pid;
    assert(shown.contains(l));
    lemma_entry_shows(scene, pid, shown, false);
    let row = entry_for(scene, pid, shown, false);
    assert forall|l: Listener| #[trigger] scene.listeners.contains(l) && l.pid == pid implies row.endpoints.contains(
    endpoint_text(l.ip, l.port)) && row.first_port <= l.port by {
        assert(shown.contains(l));
    }
}

proof fn lemma_served_distinct(scene: Scene)
    ensures
        served(scene).no_duplicates(),
{
    let pids = listening(scene.listeners, scene.own);
    let serving = |pid: u32| urls_for(scene.listeners, scene.routes, scene.own, pid).len() > 0;
    lemma_listening_distinct(scene.listeners, scene.own);
    lemma_filter_distinct(pids, serving);
    lemma_sorted_distinct(pids.filter(serving), pid_order());
}

proof fn lemma_filter_distinct(s: Seq<u32>, keep: spec_fn(u32) -> bool)
    requires
        s.no_duplicates(),
    ensures
        s.filter(keep).no_duplicates(),
    decreases s.len(),
{
    reveal(Seq::filter);
    if s.len() > 0 {
        let front = s.drop_last();
        lemma_filter_distinct(front, keep);
        let r = front.filter(keep);
        assert forall|i: int| 0 <= i < r.len() implies r[i] != s.last() by {
            assert(r.contains(r[i]));
            front.lemma_filter_contains_rev(keep, r[i]);
            let k = choose|k: int| 0 <= k < front.len() && front[k] == r[i];
            assert(s[k] != s[s.len() - 1]);
        }
    }
}

/// Whether a row comes before another: by its first port, then its pid.
pub open spec fn entry_before(a: Entry, b: Entry) -> bool {
    a.first_port < b.first_port || (a.first_port == b.first_port && a.pid < b.pid)
}

/// The rows come by first port and pid, no two for one process; each shows its
/// sockets by port, starting with its first port, and no endpoint twice.
pub proof fn rows_are_in_order(scene: Scene)
    ensures
        forall|i: int, j: int|
            0 <= i < j < rows_of(scene).len() ==> (#[trigger] rows_of(scene)[i]).pid != (
            #[trigger] rows_of(scene)[j]).pid,
        forall|i: int, j: int|
            0 <= i < j < rows_of(scene).len() ==> entry_before(
                #[trigger] rows_of(scene)[i],
                #[trigger] rows_of(scene)[j],
            ),
        forall|k: int|
            0 <= k < rows_of(scene).len() ==> all_distinct(
                (#[trigger] rows_of(scene)[k]).endpoints,
            ) && exists|by: Seq<Listener>| shows(scene, rows_of(scene)[k], by),
{
    let le = entry_order();
    let pids = listening(scene.listeners, scene.own);
    let (rows, consumed) = sessions(scene, served(scene));
    let keep = |pid: u32| !consumed.contains(pid);
    let rest = pids.filter(keep);
    let own_rows = standalone(scene, rest);
    let all = rows + own_rows;
    let sorted = rows_of(scene);
    lemma_served_distinct(scene);
    lemma_sessions_show(scene, served(scene));
    lemma_listening_distinct(scene.listeners, scene.own);
    lemma_filter_distinct(pids, keep);
    assert forall|n: int| 0 <= n < rest.len() implies pids.contains(#[trigger] rest[n])
        && !consumed.contains(rest[n]) && own_rows[n].pid == rest[n] by {
        assert(rest.contains(rest[n]));
        pids.lemma_filter_contains_rev(keep, rest[n]);
        pids.lemma_filter_pred(keep, n);
    }
    assert forall|i: int, j: int| 0 <= i < j < all.len() implies (#[trigger] all[i]).pid != (
    #[trigger] all[j]).pid by {
        if j < rows.len() {
            assert(rows[i].pid != rows[j].pid);
        } else {
            let n = j - rows.len();
            assert(all[j] == own_rows[n]);
            assert(!consumed.contains(rest[n]));
            if i < rows.len() {
                assert(consumed.contains(rows[i].pid));
            } else {
                assert(all[i] == own_rows[i - rows.len()]);
                assert(rest[i - rows.len()] != rest[n]);
            }
        }
    }
    assert(all.no_duplicates());
    lemma_sorted_distinct(all, le);
    sort_by_is_ordered(all, le);
    assert forall|i: int, j: int| 0 <= i < j < sorted.len() implies entry_before(
        #[trigger] sorted[i],
        #[trigger] sorted[j],
    ) && sorted[i].pid != sorted[j].pid by {
        assert(le(sorted[i], sorted[j]));
        assert(sorted.contains(sorted[i]) && sorted.contains(sorted[j]));
        lemma_sorted_contains(all, le, sorted[i]);
        lemma_sorted_contains(all, le, sorted[j]);
        let a = choose|a: int| 0 <= a < all.len() && all[a] == sorted[i];
        let b = choose|b: int| 0 <= b < all.len() && all[b] == sorted[j];
        assert(a != b);
        if a < b {
            assert(all[a].pid != all[b].pid);
        } else {
            assert(all[b].pid != all[a].pid);
        }
    }
    assert forall|k: int| 0 <= k < sorted.len() implies all_distinct(
        (#[trigger] sorted[k]).endpoints,
    ) && exists|by: Seq<Listener>| shows(scene, sorted[k], by) by {
        assert(sorted.contains(sorted[k]));
        lemma_sorted_contains(all, le, sorted[k]);
        let a = choose|a: int| 0 <= a < all.len() && all[a] == sorted[k];
        if a < rows.len() {
            assert(all[a] == rows[a]);
            assert(over_some(scene, rows[a]));
            let children = choose|children: Seq<u32>| session_over(scene, rows[a], children);
            lemma_session_shows(scene, rows[a], children);
        } else {
            let n = a - rows.len();
            assert(all[a] == own_rows[n]);
            assert(pids.contains(rest[n]));
            lemma_standalone_shows(scene, rest[n]);
        }
    }
}

/// Whether `row` lists a socket: it stands for the process that holds it, and
/// shows its endpoint unless that process is the session itself, whose row shows
/// the servers behind it.
pub open spec fn lists(scene: Scene, row: Entry, socket: Listener) -> bool {
    stands_for(row, scene.processes, socket.pid) && ((row.session && row.pid == socket.pid)
        || (row.endpoints.contains(endpoint_text(socket.ip, socket.port)) && row.first_port
        <= socket.port))
}

/// Every listening server is on the dashboard: each socket of a process other
/// than the dashboard itself belongs to a row, the process's own or that of the
/// session above it, and the row shows the socket's endpoint unless the process
/// is a session.
pub proof fn every_listening_server_is_listed(scene: Scene, i: int)
    requires
        0 <= i < scene.listeners.len(),
        scene.listeners[i].pid != scene.own,
    ensures
        exists|k: int|
            0 <= k < rows_of(scene).len() && #[trigger] lists(
                scene,
                rows_of(scene)[k],
                scene.listeners[i],
            ),
        shown_in(rows_of(scene), scene.processes, scene.listeners[i].pid),
{
    let socket = scene.listeners[i];
    let pid = socket.pid;
    assert(scene.listeners.contains(socket));
    let pids = listening(scene.listeners, scene.own);
    lemma_listening(scene.listeners, scene.own);
    assert(pids.contains(pid));
    lemma_served_distinct(scene);
    lemma_sessions_show(scene, served(scene));
    let (rows, consumed) = sessions(scene, served(scene));
    let keep = |pid: u32| !consumed.contains(pid);
    let rest = pids.filter(keep);
    let all = rows + standalone(scene, rest);
    let k: int;
    if consumed.contains(pid) {
        let (n, children) = choose|n: int, children: Seq<u32>|
            taken_by(scene, rows, pid, n, children);
        k = n;
        assert(all[k] == rows[k]);
        lemma_session_shows(scene, rows[k], children);
    } else {
        let m = choose|m: int| 0 <= m < pids.len() && pids[m] == pid;
        pids.lemma_filter_contains(keep, m);
        let n = choose|n: int| 0 <= n < rest.len() && rest[n] == pid;
        k = rows.len() + n;
        assert(all[k] == standalone(scene, rest)[n]);
        lemma_standalone_shows(scene, pid);
    }
    assert(lists(scene, all[k], socket));
    lemma_sorted_contains(all, entry_order(), all[k]);
    assert(all.contains(all[k]));
    let sorted = rows_of(scene);
    let j = choose|j: int| 0 <= j < sorted.len() && sorted[j] == all[k];
    assert(lists(scene, sorted[j], socket));
    assert(stands_for(sorted[j], scene.processes, pid));
}

/// No row is the dashboard's own process, and a row is signalled as a group only
/// where its process leads that group and is no session.
pub proof fn rows_are_safe_to_signal(scene: Scene, k: int)
    requires
        0 <= k < rows_of(scene).len(),
    ensures
        rows_of(scene)[k].pid != scene.own,
        rows_of(scene)[k].group ==> !rows_of(scene)[k].session && (process_with(
            scene.processes,
            rows_of(scene)[k].pid,
        ) matches Some(process) && process.pgid == rows_of(scene)[k].pid),
{
    let pids = listening(scene.listeners, scene.own);
    lemma_listening(scene.listeners, scene.own);
    let (rows, consumed) = sessions(scene, served(scene));
    let keep = |pid: u32| !consumed.contains(pid);
    let rest = pids.filter(keep);
    let all = rows + standalone(scene, rest);
    let row = rows_of(scene)[k];
    assert(rows_of(scene).contains(row));
    lemma_sorted_contains(all, entry_order(), row);
    let j = choose|j: int| 0 <= j < all.len() && all[j] == row;
    lemma_sessions_cover(scene, served(scene));
    lemma_session_rows(scene, served(scene));
    if j < rows.len() {
        assert(served(scene).contains(rows[j].pid));
        let serving = |pid: u32|
            urls_for(scene.listeners, scene.routes, scene.own, pid).len() > 0;
        lemma_sorted_contains(pids.filter(serving), pid_order(), row.pid);
        pids.lemma_filter_contains_rev(serving, row.pid);
    } else {
        let n = j - rows.len();
        assert(all[j] == standalone(scene, rest)[n]);
        assert(rest.contains(rest[n]));
        pids.lemma_filter_contains_rev(keep, rest[n]);
    }
}

proof fn lemma_session_rows(scene: Scene, pids: Seq<u32>)
    ensures
        forall|k: int|
            0 <= k < sessions(scene, pids).0.len() ==> (#[trigger] sessions(scene, pids).0[k]).session
                && !sessions(scene, pids).0[k].group,
    decreases pids.len(),
{
    if pids.len() > 0 {
        lemma_session_rows(scene, pids.drop_last());
        let rows = sessions(scene, pids.drop_last()).0;
        let all = sessions(scene, pids).0;
        assert forall|k: int| 0 <= k < all.len() implies (#[trigger] all[k]).session
            && !all[k].group by {
            if k < rows.len() {
                assert(all[k] == rows[k]);
            }
        }
    }
}

proof fn lemma_trees_are_covered(scene: Scene, pids: Seq<u32>, top: u32, child: u32)
    requires
        pids.contains(top),
        descendants_of(scene.processes, top).contains(child),
        listening(scene.listeners, scene.own).contains(child),
    ensures
        sessions(scene, pids).1.contains(child),
    decreases pids.len(),
{
    let front = pids.drop_last();
    let pid = pids.last();
    let consumed = sessions(scene, front).1;
    let children = covered(scene, pid, consumed);
    let all = sessions(scene, pids).1;
    if consumed.contains(child) {
        let i = choose|i: int| 0 <= i < consumed.len() && consumed[i] == child;
        assert(all[i] == child);
    } else if pid == top {
        let below = descendants_of(scene.processes, pid);
        let keep = |c: u32|
            listening(scene.listeners, scene.own).contains(c) && !consumed.contains(c);
        let i = choose|i: int| 0 <= i < below.len() && below[i] == child;
        below.lemma_filter_contains(keep, i);
        let j = choose|j: int| 0 <= j < children.len() && children[j] == child;
        assert(all[consumed.len() + 1 + j] == child);
    } else {
        let i = choose|i: int| 0 <= i < pids.len() && pids[i] == top;
        assert(front[i] == top);
        lemma_trees_are_covered(scene, front, top, child);
    }
}

/// A process that listens below one that listens and is served is shown with a
/// session, not by itself.
pub proof fn served_trees_are_sessions(scene: Scene, top: u32, child: u32)
    requires
        listening(scene.listeners, scene.own).contains(top),
        urls_for(scene.listeners, scene.routes, scene.own, top).len() > 0,
        descendants_of(scene.processes, top).contains(child),
        listening(scene.listeners, scene.own).contains(child),
    ensures
        exists|k: int|
            0 <= k < rows_of(scene).len() && rows_of(scene)[k].session && #[trigger] stands_for(
                rows_of(scene)[k],
                scene.processes,
                child,
            ),
{
    let pids = listening(scene.listeners, scene.own);
    let serving = |pid: u32| urls_for(scene.listeners, scene.routes, scene.own, pid).len() > 0;
    let i = choose|i: int| 0 <= i < pids.len() && pids[i] == top;
    pids.lemma_filter_contains(serving, i);
    lemma_sorted_contains(pids.filter(serving), pid_order(), top);
    lemma_trees_are_covered(scene, served(scene), top, child);
    lemma_served_distinct(scene);
    lemma_sessions_show(scene, served(scene));
    let (rows, consumed) = sessions(scene, served(scene));
    let (n, children) = choose|n: int, children: Seq<u32>|
        taken_by(scene, rows, child, n, children);
    let rest = pids.filter(|pid: u32| !consumed.contains(pid));
    let all = rows + standalone(scene, rest);
    assert(all[n] == rows[n]);
    assert(rows[n].session);
    assert(stands_for(rows[n], scene.processes, child));
    assert(all.contains(all[n]));
    lemma_sorted_contains(all, entry_order(), all[n]);
    let sorted = rows_of(scene);
    let j = choose|j: int| 0 <= j < sorted.len() && sorted[j] == all[n];
    assert(stands_for(sorted[j], scene.processes, child));
}

proof fn lemma_descent_goes_on(
    processes: Seq<Process>,
    top: u32,
    middle: u32,
    pid: u32,
    steps: nat,
)
    requires
        descends(processes, top, middle),
        descends_within(processes, middle, pid, steps),
    ensures
        descends(processes, top, pid),
    decreases steps,
{
    if pid != middle {
        let parent = choose|parent: u32| #[trigger]
            is_child(processes, parent, pid) && descends_within(
                processes,
                middle,
                parent,
                (steps - 1) as nat,
            );
        lemma_descent_goes_on(processes, top, middle, parent, (steps - 1) as nat);
        let more = choose|more: nat| descends_within(processes, top, parent, more);
        assert(descends_within(processes, top, pid, more + 1));
    }
}

/// Whether every listening process below one of `pids` is one of them.
pub open spec fn closed_below(scene: Scene, pids: Seq<u32>) -> bool {
    forall|p: u32, c: u32|
        #![trigger pids.contains(p), descendants_of(scene.processes, p).contains(c)]
        pids.contains(p) && descendants_of(scene.processes, p).contains(c) && listening(
            scene.listeners,
            scene.own,
        ).contains(c) ==> pids.contains(c)
}

/// No process is covered by two sessions, nor twice by one: each server behind a
/// proxy is shown with one row.
pub proof fn no_process_is_covered_twice(scene: Scene, pids: Seq<u32>)
    ensures
        sessions(scene, pids).1.no_duplicates(),
        closed_below(scene, sessions(scene, pids).1),
    decreases pids.len(),
{
    if pids.len() > 0 {
        let front = pids.drop_last();
        let pid = pids.last();
        no_process_is_covered_twice(scene, front);
        let consumed = sessions(scene, front).1;
        let children = covered(scene, pid, consumed);
        if children.len() > 0 {
            lemma_one_more_session(scene, consumed, pid);
        }
    }
}

proof fn lemma_one_more_session(scene: Scene, consumed: Seq<u32>, pid: u32)
    requires
        consumed.no_duplicates(),
        closed_below(scene, consumed),
        covered(scene, pid, consumed).len() > 0,
    ensures
        (consumed.push(pid) + covered(scene, pid, consumed)).no_duplicates(),
        closed_below(scene, consumed.push(pid) + covered(scene, pid, consumed)),
{
    let children = covered(scene, pid, consumed);
    let below = descendants_of(scene.processes, pid);
    let listed = listening(scene.listeners, scene.own);
    let keep = |child: u32| listed.contains(child) && !consumed.contains(child);
    let all = consumed.push(pid) + children;
    descendants_are_the_tree_below(scene.processes, pid, pid);
    lemma_filter_distinct(below, keep);
    assert forall|c: u32| #[trigger] children.contains(c) implies below.contains(c)
        && listed.contains(c) && !consumed.contains(c) && c != pid by {
        below.lemma_filter_contains_rev(keep, c);
        let k = choose|k: int| 0 <= k < children.len() && children[k] == c;
        below.lemma_filter_pred(keep, k);
        descendants_are_the_tree_below(scene.processes, pid, c);
    }
    assert(!consumed.contains(pid)) by {
        if consumed.contains(pid) {
            assert(children.contains(children[0]));
            assert(below.contains(children[0]));
        }
    }
    assert forall|i: int, j: int| 0 <= i < j < all.len() implies all[i] != all[j] by {
        let n = consumed.len() as int;
        if i < n {
            assert(consumed.contains(all[i]));
        }
        if j > n {
            assert(children.contains(all[j]));
            assert(all[j] == children[j - n - 1]);
        }
        if i > n {
            assert(all[i] == children[i - n - 1]);
        }
    }
    assert forall|p: u32, c: u32|
        #![trigger all.contains(p), descendants_of(scene.processes, p).contains(c)]
        all.contains(p) && descendants_of(scene.processes, p).contains(c)
            && listed.contains(c) implies all.contains(c) by {
        lemma_contains_append(consumed.push(pid), children, p);
        lemma_push_contains(consumed, pid, p);
        lemma_contains_append(consumed.push(pid), children, c);
        lemma_push_contains(consumed, pid, c);
        if !consumed.contains(p) && c != pid {
            descendants_are_the_tree_below(scene.processes, p, c);
            descendants_are_the_tree_below(scene.processes, pid, c);
            descendants_are_the_tree_below(scene.processes, pid, p);
            if p != pid {
                let steps = choose|steps: nat| descends_within(scene.processes, p, c, steps);
                lemma_descent_goes_on(scene.processes, pid, p, c, steps);
            }
            assert(below.contains(c));
            if !consumed.contains(c) {
                let k = choose|k: int| 0 <= k < below.len() && below[k] == c;
                below.lemma_filter_contains(keep, k);
            }
        }
    }
}

} // verus!
