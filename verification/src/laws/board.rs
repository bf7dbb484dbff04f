//! The dashboard: what each row says of its process.

use crate::dashboard::rows::{
    child_at, covered, descendants_are_the_tree_below, descendants_of, descends, descends_within,
    endpoint_text, entry_for, entry_order, home_path, is_child, listener_urls, listeners_of,
    listeners_of_all, listening, port_order, port_urls, process_with, rows_of, served,
    served_trees_are_sessions, sessions, standalone, stands_for, urls_for, Entry, Scene,
};
use crate::discovery::{Listener, Process};
use crate::ip::{host_text, IpAddr};
use crate::laws::addresses::{dotted, dotted_numbers_are_addresses};
use crate::laws::texts::{split_last_at, split_nowhere, split_once_at, stripping_undoes_putting};
use crate::list::{all_distinct, text_set_is_a_set, unique_keeps_each_once};
use crate::number::decimal;
use crate::order::{in_order, sort_by, sort_by_keeps_items, text_order};
use crate::text::{after_last, has_prefix};
use vstd::prelude::*;
use vstd::utf8::encode_utf8;

verus! {

/// Whether `process` is what the table says of `pid`: the last of its lines on
/// that pid.
pub open spec fn known(processes: Seq<Process>, pid: u32, process: Process) -> bool {
    exists|i: int|
        0 <= i < processes.len() && #[trigger] processes[i] == process && process.pid == pid
            && forall|j: int| i < j < processes.len() ==> (#[trigger] processes[j]).pid != pid
}

/// Whether the table has nothing on `pid`.
pub open spec fn unknown(processes: Seq<Process>, pid: u32) -> bool {
    forall|i: int| 0 <= i < processes.len() ==> (#[trigger] processes[i]).pid != pid
}

proof fn lemma_table(processes: Seq<Process>, pid: u32, process: Process)
    ensures
        known(processes, pid, process) ==> process_with(processes, pid) == Some(process),
        unknown(processes, pid) ==> process_with(processes, pid) is None,
    decreases processes.len(),
{
    if processes.len() > 0 {
        let front = processes.drop_last();
        let n = processes.len() - 1;
        assert(processes.last() == processes[n]);
        lemma_table(front, pid, process);
        if known(processes, pid, process) {
            let i = choose|i: int|
                0 <= i < processes.len() && #[trigger] processes[i] == process && process.pid == pid
                    && forall|j: int|
                    i < j < processes.len() ==> (#[trigger] processes[j]).pid != pid;
            if i < n {
                assert(front[i] == process);
                assert forall|j: int| i < j < front.len() implies (#[trigger] front[j]).pid
                    != pid by {
                    assert(front[j] == processes[j]);
                }
                assert(known(front, pid, process));
            }
        }
        if unknown(processes, pid) {
            assert forall|i: int| 0 <= i < front.len() implies (#[trigger] front[i]).pid != pid by {
                assert(front[i] == processes[i]);
            }
        }
    }
}

/// Whether `row` is made of the scene for its own pid, and shows `shown`.
spec fn made_of(scene: Scene, row: Entry, shown: Seq<Listener>) -> bool {
    row == entry_for(scene, row.pid, shown, row.session)
}

spec fn made(scene: Scene, row: Entry) -> bool {
    exists|shown: Seq<Listener>| made_of(scene, row, shown)
}

proof fn lemma_sessions_made(scene: Scene, pids: Seq<u32>)
    ensures
        forall|k: int|
            0 <= k < sessions(scene, pids).0.len() ==> made(
                scene,
                #[trigger] sessions(scene, pids).0[k],
            ),
    decreases pids.len(),
{
    if pids.len() > 0 {
        let front = pids.drop_last();
        lemma_sessions_made(scene, front);
        let rows = sessions(scene, front).0;
        let all = sessions(scene, pids).0;
        assert forall|k: int| 0 <= k < all.len() implies made(scene, #[trigger] all[k]) by {
            if k < rows.len() {
                assert(all[k] == rows[k]);
            } else {
                let children = crate::dashboard::rows::covered(
                    scene,
                    pids.last(),
                    sessions(scene, front).1,
                );
                let shown = crate::dashboard::rows::listeners_of_all(scene, children);
                assert(made_of(scene, all[k], shown));
            }
        }
    }
}

proof fn lemma_row_made(scene: Scene, k: int)
    requires
        0 <= k < rows_of(scene).len(),
    ensures
        made(scene, rows_of(scene)[k]),
{
    broadcast use vstd::seq_lib::group_to_multiset_ensures;

    let (rows, consumed) = sessions(scene, served(scene));
    let rest = listening(scene.listeners, scene.own).filter(|pid: u32| !consumed.contains(pid));
    let all = rows + standalone(scene, rest);
    let row = rows_of(scene)[k];
    sort_by_keeps_items(all, entry_order());
    assert(rows_of(scene).contains(row));
    assert(all.to_multiset().contains(row));
    assert(all.contains(row));
    let j = choose|j: int| 0 <= j < all.len() && all[j] == row;
    lemma_sessions_made(scene, served(scene));
    if j < rows.len() {
        assert(all[j] == rows[j]);
    } else {
        let n = j - rows.len();
        assert(all[j] == standalone(scene, rest)[n]);
        let shown = listeners_of(scene.listeners, scene.own, rest[n]);
        assert(made_of(scene, row, shown));
    }
}

/// Every row, of a session or not, names its process as the table has it: the
/// program without its directory, and its arguments as they are; the name in
/// brackets where there is no command line; a question mark where the table has
/// nothing on the process.
pub proof fn rows_name_their_command(
    scene: Scene,
    k: int,
    process: Process,
    directory: Seq<char>,
    program: Seq<char>,
    arguments: Seq<char>,
)
    requires
        0 <= k < rows_of(scene).len(),
        directory.len() == 0 || directory.last() == '/',
        !directory.contains(' '),
        !program.contains(' '),
        !program.contains('/'),
        directory.len() + program.len() > 0,
    ensures
        ({
            let row = rows_of(scene)[k];
            &&& known(scene.processes, row.pid, process) ==> {
                &&& process.command == directory + program ==> row.command == program
                &&& process.command == directory + program + " "@ + arguments && arguments.len() > 0
                    ==> row.command == program + " "@ + arguments
                &&& process.command.len() == 0 ==> row.command == "["@ + process.name + "]"@
            }
            &&& unknown(scene.processes, row.pid) ==> row.command == "?"@
        }),
{
    reveal_strlit(" ");
    let row = rows_of(scene)[k];
    lemma_row_made(scene, k);
    lemma_table(scene.processes, row.pid, process);
    let whole = directory + program;
    assert(!whole.contains(' ')) by {
        if whole.contains(' ') {
            let i = choose|i: int| 0 <= i < whole.len() && whole[i] == ' ';
            if i < directory.len() {
                assert(directory[i] == ' ');
            } else {
                assert(program[i - directory.len()] == ' ');
            }
        }
    }
    split_nowhere(whole, ' ');
    split_once_at(whole, ' ', arguments);
    assert(whole + " "@ + arguments =~= whole + seq![' '] + arguments);
    assert(after_last(whole, '/') == program) by {
        if directory.len() == 0 {
            assert(whole =~= program);
            split_nowhere(program, '/');
        } else {
            let up = directory.drop_last();
            assert(whole =~= up + seq!['/'] + program);
            split_last_at(up, '/', program);
        }
    }
    assert((whole + seq![' '] + arguments).len() > 0);
}

/// A row outside a session stands for its whole group exactly where its process
/// leads it; a session never does.
pub proof fn leaders_stand_for_their_group(scene: Scene, k: int, process: Process)
    requires
        0 <= k < rows_of(scene).len(),
    ensures
        ({
            let row = rows_of(scene)[k];
            &&& known(scene.processes, row.pid, process) ==> row.group == (!row.session
                && process.pgid == row.pid)
            &&& unknown(scene.processes, row.pid) ==> !row.group
        }),
{
    lemma_row_made(scene, k);
    lemma_table(scene.processes, rows_of(scene)[k].pid, process);
}

/// Whether a socket of `pid`, reachable over the loopback interface, is served
/// under `url`.
pub open spec fn served_under(scene: Scene, pid: u32, url: Seq<char>) -> bool {
    exists|i: int, j: int|
        0 <= i < scene.listeners.len() && 0 <= j < scene.routes.len()
            && (#[trigger] scene.listeners[i]).pid == pid && pid != scene.own && (
        scene.listeners[i].ip.loopback() || scene.listeners[i].ip.unspecified())
            && #[trigger] scene.routes[j] == (scene.listeners[i].port, url)
}

proof fn lemma_push<T>(s: Seq<T>, last: T, x: T)
    ensures
        s.push(last).contains(x) <==> s.contains(x) || x == last,
{
    let all = s.push(last);
    if s.contains(x) {
        let i = choose|i: int| 0 <= i < s.len() && s[i] == x;
        assert(all[i] == x);
    }
    if x == last {
        assert(all[s.len() as int] == x);
    }
    if all.contains(x) {
        let i = choose|i: int| 0 <= i < all.len() && all[i] == x;
        if i < s.len() {
            assert(s[i] == x);
        }
    }
}

proof fn lemma_sum<T>(a: Seq<T>, b: Seq<T>, x: T)
    ensures
        (a + b).contains(x) <==> a.contains(x) || b.contains(x),
{
    if a.contains(x) {
        let i = choose|i: int| 0 <= i < a.len() && a[i] == x;
        assert((a + b)[i] == x);
    }
    if b.contains(x) {
        let i = choose|i: int| 0 <= i < b.len() && b[i] == x;
        assert((a + b)[a.len() + i] == x);
    }
    if (a + b).contains(x) {
        let i = choose|i: int| 0 <= i < (a + b).len() && (a + b)[i] == x;
        if i < a.len() {
            assert(a[i] == x);
        } else {
            assert(b[i - a.len()] == x);
        }
    }
}

proof fn lemma_port_urls(routes: Seq<(u16, Seq<char>)>, port: u16, url: Seq<char>)
    ensures
        port_urls(routes, port).contains(url) <==> routes.contains((port, url)),
    decreases routes.len(),
{
    if routes.len() > 0 {
        let front = routes.drop_last();
        lemma_port_urls(front, port, url);
        assert(routes =~= front.push(routes.last()));
        lemma_push(front, routes.last(), (port, url));
        lemma_push(port_urls(front, port), routes.last().1, url);
    }
}

proof fn lemma_own_listeners(listeners: Seq<Listener>, own: u32, pid: u32, l: Listener)
    ensures
        listeners_of(listeners, own, pid).contains(l) <==> listeners.contains(l) && l.pid == pid
            && pid != own,
    decreases listeners.len(),
{
    if listeners.len() > 0 {
        let front = listeners.drop_last();
        lemma_own_listeners(front, own, pid, l);
        assert(listeners =~= front.push(listeners.last()));
        lemma_push(front, listeners.last(), l);
        lemma_push(listeners_of(front, own, pid), listeners.last(), l);
    }
}

/// Whether one of `listeners`, reachable over the loopback interface, has a
/// route to `url`.
spec fn routed(listeners: Seq<Listener>, routes: Seq<(u16, Seq<char>)>, url: Seq<char>) -> bool {
    exists|l: Listener| #[trigger]
        listeners.contains(l) && (l.ip.loopback() || l.ip.unspecified()) && routes.contains(
            (l.port, url),
        )
}

proof fn lemma_routed(listeners: Seq<Listener>, routes: Seq<(u16, Seq<char>)>, url: Seq<char>)
    ensures
        listener_urls(listeners, routes).contains(url) <==> routed(listeners, routes, url),
    decreases listeners.len(),
{
    if listeners.len() > 0 {
        let front = listeners.drop_last();
        let last = listeners.last();
        lemma_routed(front, routes, url);
        assert(listeners =~= front.push(last));
        lemma_port_urls(routes, last.port, url);
        lemma_sum(listener_urls(front, routes), port_urls(routes, last.port), url);
        lemma_push(front, last, last);
        if routed(front, routes, url) {
            let l = choose|l: Listener| #[trigger]
                front.contains(l) && (l.ip.loopback() || l.ip.unspecified()) && routes.contains(
                    (l.port, url),
                );
            lemma_push(front, last, l);
            assert(listeners.contains(l));
        }
        if routed(listeners, routes, url) {
            let l = choose|l: Listener| #[trigger]
                listeners.contains(l) && (l.ip.loopback() || l.ip.unspecified())
                    && routes.contains((l.port, url));
            lemma_push(front, last, l);
            if front.contains(l) {
                assert(routed(front, routes, url));
            }
        }
    } else {
        assert(!routed(listeners, routes, url));
    }
}

/// A row lists exactly the URLs that its process is served under, each once and
/// in text order.
pub proof fn rows_list_their_urls(scene: Scene, k: int, url: Seq<char>)
    requires
        0 <= k < rows_of(scene).len(),
    ensures
        ({
            let row = rows_of(scene)[k];
            &&& row.urls.contains(url) <==> served_under(scene, row.pid, url)
            &&& all_distinct(row.urls)
            &&& in_order(row.urls, text_order())
        }),
{
    let row = rows_of(scene)[k];
    lemma_row_made(scene, k);
    let own = listeners_of(scene.listeners, scene.own, row.pid);
    text_set_is_a_set(listener_urls(own, scene.routes));
    lemma_routed(own, scene.routes, url);
    if row.urls.contains(url) {
        let l = choose|l: Listener| #[trigger]
            own.contains(l) && (l.ip.loopback() || l.ip.unspecified()) && scene.routes.contains(
                (l.port, url),
            );
        lemma_own_listeners(scene.listeners, scene.own, row.pid, l);
        let i = choose|i: int| 0 <= i < scene.listeners.len() && scene.listeners[i] == l;
        let j = choose|j: int| 0 <= j < scene.routes.len() && scene.routes[j] == (l.port, url);
        assert(scene.listeners[i].pid == row.pid);
        assert(scene.routes[j] == (scene.listeners[i].port, url));
    }
    if served_under(scene, row.pid, url) {
        let (i, j) = choose|i: int, j: int|
            0 <= i < scene.listeners.len() && 0 <= j < scene.routes.len()
                && (#[trigger] scene.listeners[i]).pid == row.pid && row.pid != scene.own && (
            scene.listeners[i].ip.loopback() || scene.listeners[i].ip.unspecified())
                && #[trigger] scene.routes[j] == (scene.listeners[i].port, url);
        lemma_own_listeners(scene.listeners, scene.own, row.pid, scene.listeners[i]);
        assert(own.contains(scene.listeners[i]));
        assert(scene.routes.contains(scene.routes[j]));
    }
}

proof fn lemma_listens(listeners: Seq<Listener>, own: u32, i: int)
    requires
        0 <= i < listeners.len(),
        listeners[i].pid != own,
    ensures
        listening(listeners, own).contains(listeners[i].pid),
    decreases listeners.len(),
{
    let front = listeners.drop_last();
    let last = listeners.last();
    let before = listening(front, own);
    assert(listeners[listeners.len() - 1] == last);
    lemma_push(before, last.pid, listeners[i].pid);
    if i < listeners.len() - 1 {
        assert(front[i] == listeners[i]);
        lemma_listens(front, own, i);
    }
}

/// A server below a process that is served is shown with its session: the proxy
/// and the servers behind it are one row, not several.
pub proof fn servers_behind_a_proxy_share_its_row(
    scene: Scene,
    top: int,
    child: int,
    url: Seq<char>,
)
    requires
        0 <= top < scene.listeners.len(),
        0 <= child < scene.listeners.len(),
        scene.listeners[child].pid != scene.own,
        scene.listeners[child].pid != scene.listeners[top].pid,
        served_under(scene, scene.listeners[top].pid, url),
        descends(scene.processes, scene.listeners[top].pid, scene.listeners[child].pid),
    ensures
        exists|k: int|
            0 <= k < rows_of(scene).len() && rows_of(scene)[k].session && #[trigger] stands_for(
                rows_of(scene)[k],
                scene.processes,
                scene.listeners[child].pid,
            ),
{
    let p = scene.listeners[top].pid;
    let c = scene.listeners[child].pid;
    let own = listeners_of(scene.listeners, scene.own, p);
    lemma_listens(scene.listeners, scene.own, top);
    lemma_listens(scene.listeners, scene.own, child);
    let (i, j) = choose|i: int, j: int|
        0 <= i < scene.listeners.len() && 0 <= j < scene.routes.len()
            && (#[trigger] scene.listeners[i]).pid == p && p != scene.own && (
        scene.listeners[i].ip.loopback() || scene.listeners[i].ip.unspecified())
            && #[trigger] scene.routes[j] == (scene.listeners[i].port, url);
    lemma_own_listeners(scene.listeners, scene.own, p, scene.listeners[i]);
    assert(scene.listeners.contains(scene.listeners[i]));
    assert(scene.routes.contains(scene.routes[j]));
    assert(own.contains(scene.listeners[i]));
    lemma_routed(own, scene.routes, url);
    text_set_is_a_set(listener_urls(own, scene.routes));
    assert(urls_for(scene.listeners, scene.routes, scene.own, p).contains(url));
    descendants_are_the_tree_below(scene.processes, p, c);
    served_trees_are_sessions(scene, p, c);
}

/// A directory at or below home is written from `~`; any other stays as it is,
/// one that merely starts with the same letters as well.
pub proof fn home_is_a_tilde(home: Seq<char>, below: Seq<char>, other: Seq<char>)
    requires
        encode_utf8(home).len() > 1,
        !has_prefix(other, home) || (other.len() > home.len() && other[home.len() as int] != '/'),
    ensures
        home_path(home, home) == "~"@,
        home_path(home + "/"@ + below, home) == "~/"@ + below,
        home_path(other, home) == other,
{
    reveal_strlit("~");
    reveal_strlit("/");
    reveal_strlit("~/");
    let path = home + "/"@ + below;
    let rest = "/"@ + below;
    assert(path =~= home + rest);
    stripping_undoes_putting(home, rest);
    assert(path.len() > home.len());
    assert("~"@ + rest =~= "~/"@ + below);
    if other == home {
        assert(other.take(home.len() as int) =~= home);
    }
}

/// An endpoint is the address and the port, a star for every interface.
pub proof fn endpoints_are_address_and_port(a: nat, b: nat, c: nat, d: nat, v: u128, port: u16)
    requires
        a <= 255 && b <= 255 && c <= 255 && d <= 255,
        a + b + c + d > 0,
        v > 0,
    ensures
        endpoint_text(IpAddr::V4(0), port) == "*:"@ + decimal(port as nat),
        endpoint_text(IpAddr::V6(0), port) == "*:"@ + decimal(port as nat),
        endpoint_text(
            IpAddr::V4((a * 0x100_0000 + b * 0x1_0000 + c * 0x100 + d) as u32),
            port,
        ) == dotted(a, b, c, d) + ":"@ + decimal(port as nat),
        endpoint_text(IpAddr::V6(v), port) == host_text(IpAddr::V6(v)) + ":"@ + decimal(
            port as nat,
        ),
{
    dotted_numbers_are_addresses(a, b, c, d);
}

/// Descent goes from parent to child by the lines of the table, and in no other
/// way.
pub proof fn descent_goes_by_parents(processes: Seq<Process>, root: u32, pid: u32)
    ensures
        descends(processes, root, root),
        forall|k: int|
            0 <= k < processes.len() && (#[trigger] processes[k]).pid == pid && processes[k].ppid
                != pid && descends(processes, root, processes[k].ppid) ==> descends(
                processes,
                root,
                pid,
            ),
        descends(processes, root, pid) && pid != root ==> exists|k: int|
            0 <= k < processes.len() && (#[trigger] processes[k]).pid == pid && processes[k].ppid
                != pid && descends(processes, root, processes[k].ppid),
{
    assert(descends_within(processes, root, root, 0));
    assert forall|k: int|
        0 <= k < processes.len() && (#[trigger] processes[k]).pid == pid && processes[k].ppid != pid
            && descends(processes, root, processes[k].ppid) implies descends(
        processes,
        root,
        pid,
    ) by {
        let parent = processes[k].ppid;
        let steps = choose|steps: nat| descends_within(processes, root, parent, steps);
        assert(child_at(processes, parent, pid, k));
        assert(is_child(processes, parent, pid));
        assert(descends_within(processes, root, pid, steps + 1));
    }
    if descends(processes, root, pid) && pid != root {
        let steps = choose|steps: nat| descends_within(processes, root, pid, steps);
        let parent = choose|parent: u32| #[trigger]
            is_child(processes, parent, pid) && descends_within(
                processes,
                root,
                parent,
                (steps - 1) as nat,
            );
        let k = choose|k: int| child_at(processes, parent, pid, k);
        assert(processes[k].pid == pid && processes[k].ppid == parent);
        assert(descends(processes, root, parent));
    }
}

proof fn lemma_all_listeners(scene: Scene, pids: Seq<u32>, l: Listener)
    ensures
        listeners_of_all(scene, pids).contains(l) <==> scene.listeners.contains(l)
            && pids.contains(l.pid) && l.pid != scene.own,
    decreases pids.len(),
{
    if pids.len() > 0 {
        let front = pids.drop_last();
        let last = pids.last();
        lemma_all_listeners(scene, front, l);
        lemma_own_listeners(scene.listeners, scene.own, last, l);
        lemma_sum(
            listeners_of_all(scene, front),
            listeners_of(scene.listeners, scene.own, last),
            l,
        );
        assert(pids =~= front.push(last));
        lemma_push(front, last, l.pid);
    }
}

/// Whether some of `pids`, each below `top`, hold what a row shows.
spec fn shows_below(scene: Scene, row: Entry, pids: Seq<u32>) -> bool {
    &&& row == entry_for(scene, row.pid, listeners_of_all(scene, pids), true)
    &&& forall|c: u32| #[trigger]
        pids.contains(c) ==> descendants_of(scene.processes, row.pid).contains(c)
}

spec fn shows_some_below(scene: Scene, row: Entry) -> bool {
    exists|pids: Seq<u32>| shows_below(scene, row, pids)
}

proof fn lemma_sessions_below(scene: Scene, pids: Seq<u32>)
    ensures
        forall|k: int|
            0 <= k < sessions(scene, pids).0.len() ==> shows_some_below(
                scene,
                #[trigger] sessions(scene, pids).0[k],
            ),
    decreases pids.len(),
{
    if pids.len() > 0 {
        let front = pids.drop_last();
        lemma_sessions_below(scene, front);
        let (rows, consumed) = sessions(scene, front);
        let all = sessions(scene, pids).0;
        let top = pids.last();
        let children = covered(scene, top, consumed);
        let below = descendants_of(scene.processes, top);
        let keep = |child: u32|
            listening(scene.listeners, scene.own).contains(child) && !consumed.contains(child);
        assert forall|k: int| 0 <= k < all.len() implies shows_some_below(
            scene,
            #[trigger] all[k],
        ) by {
            if k < rows.len() {
                assert(all[k] == rows[k]);
            } else {
                assert forall|c: u32| #[trigger] children.contains(c) implies below.contains(c) by {
                    below.lemma_filter_contains_rev(keep, c);
                }
                assert(shows_below(scene, all[k], children));
            }
        }
    }
}

/// A session shows the sockets of the servers below it, not its own.
pub proof fn sessions_show_the_servers_below_them(scene: Scene, k: int, endpoint: Seq<char>)
    requires
        0 <= k < rows_of(scene).len(),
        rows_of(scene)[k].session,
        rows_of(scene)[k].endpoints.contains(endpoint),
    ensures
        exists|i: int|
            0 <= i < scene.listeners.len() && (#[trigger] scene.listeners[i]).pid != rows_of(
                scene,
            )[k].pid && scene.listeners[i].pid != scene.own && descends(
                scene.processes,
                rows_of(scene)[k].pid,
                scene.listeners[i].pid,
            ) && endpoint_text(scene.listeners[i].ip, scene.listeners[i].port) == endpoint,
{
    broadcast use vstd::seq_lib::group_to_multiset_ensures;

    let (rows, consumed) = sessions(scene, served(scene));
    let rest = listening(scene.listeners, scene.own).filter(|pid: u32| !consumed.contains(pid));
    let all = rows + standalone(scene, rest);
    let row = rows_of(scene)[k];
    sort_by_keeps_items(all, entry_order());
    assert(rows_of(scene).contains(row));
    assert(all.to_multiset().contains(row));
    assert(all.contains(row));
    let j = choose|j: int| 0 <= j < all.len() && all[j] == row;
    if j >= rows.len() {
        assert(all[j] == standalone(scene, rest)[j - rows.len()]);
        assert(!row.session);
    }
    assert(all[j] == rows[j]);
    lemma_sessions_below(scene, served(scene));
    assert(shows_some_below(scene, row));
    let pids = choose|pids: Seq<u32>| shows_below(scene, row, pids);
    let shown = listeners_of_all(scene, pids);
    let sorted = sort_by(shown, port_order());
    let texts = sorted.map_values(|listener: Listener| endpoint_text(listener.ip, listener.port));
    unique_keeps_each_once(texts);
    assert(texts.contains(endpoint));
    let n = choose|n: int| 0 <= n < texts.len() && texts[n] == endpoint;
    let l = sorted[n];
    sort_by_keeps_items(shown, port_order());
    assert(sorted.contains(l));
    assert(shown.to_multiset().contains(l));
    assert(shown.contains(l));
    lemma_all_listeners(scene, pids, l);
    descendants_are_the_tree_below(scene.processes, row.pid, l.pid);
    let i = choose|i: int| 0 <= i < scene.listeners.len() && scene.listeners[i] == l;
    assert(scene.listeners[i].pid != row.pid);
}

} // verus!
