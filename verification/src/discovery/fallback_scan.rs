//! Discovery elsewhere, from the output of `ps`, `lsof` and `netstat`.

use crate::discovery::{processes_of, Listener, Process, ProcessInfo};
use crate::ip::{parse_ip, IpAddr};
use crate::list::{lemma_pick_ends, lemma_pick_step, sorted_set, text_set};
use crate::number::{decimal, decimal_string, parse_decimal, port_number, word_number};
use crate::text::{
    after_last, after_prefix, before_suffix, chars_of, inside_brackets, join, join_strings,
    keyed_texts, lines, rsplit_once, spells, split_last, split_lines, split_words, string_of,
    strip_prefix, strip_suffix, tail_after, texts, views, within_brackets, words,
};
use vstd::prelude::*;

verus! {

/// How long a run of `ps`, `lsof` or `netstat` may take, in nanoseconds.
pub const INSPECT_TIMEOUT: u64 = 2_000_000_000;

/// The captured text; nothing where the capture failed.
pub open spec fn captured_text(captured: Result<String, String>) -> Seq<char> {
    match captured {
        Ok(text) => text@,
        Err(_) => ""@,
    }
}

fn lines_of(text: &str) -> (r: Vec<Vec<char>>)
    ensures
        views(r@) == lines(text@),
{
    let chars: Vec<char> = chars_of(text);
    split_lines(chars.as_slice())
}

// ---------------------------------------------------------------- processes

/// The program's name: the last part of the first word of its command line.
pub open spec fn program_name(command: Seq<char>) -> Seq<char> {
    if words(command).len() == 0 {
        ""@
    } else {
        after_last(words(command)[0], '/')
    }
}

/// The process on a line of `ps`: pid, parent, group, then its command line.
pub open spec fn ps_process(line: Seq<char>) -> Option<Process> {
    let fields = words(line);
    if fields.len() < 3 {
        None
    } else {
        match (
            parse_decimal(fields[0], 0xffff_ffff),
            parse_decimal(fields[1], 0xffff_ffff),
            parse_decimal(fields[2], 0xffff_ffff),
        ) {
            (Some(pid), Some(ppid), Some(pgid)) => {
                let command = join(fields.skip(3), " "@);
                Some(
                    Process {
                        pid: pid as u32,
                        ppid: ppid as u32,
                        pgid: pgid as u32,
                        name: program_name(command),
                        command,
                    },
                )
            },
            _ => None,
        }
    }
}

fn name_of(command: &str) -> (r: String)
    ensures
        r@ == program_name(command@),
{
    let chars: Vec<char> = chars_of(command);
    let parts: Vec<Vec<char>> = split_words(chars.as_slice());
    assert(views(parts@).len() == parts@.len());
    if parts.len() == 0 {
        "".to_owned()
    } else {
        assert(views(parts@)[0] == parts@[0]@);
        string_of(tail_after(parts[0].as_slice(), '/'))
    }
}

fn read_process(line: &[char]) -> (r: Option<ProcessInfo>)
    ensures
        match (r, ps_process(line@)) {
            (Some(process), Some(p)) => process@ == p,
            (None, None) => true,
            _ => false,
        },
{
    let fields: Vec<Vec<char>> = split_words(line);
    let n: usize = fields.len();
    let ghost all = views(fields@);
    assert(all.len() == n);
    if n < 3 {
        return None;
    }
    assert(all[0] == fields@[0]@);
    assert(all[1] == fields@[1]@);
    assert(all[2] == fields@[2]@);
    let pid: u32 = match word_number(fields[0].as_slice()) {
        Some(v) => v,
        None => return None,
    };
    let ppid: u32 = match word_number(fields[1].as_slice()) {
        Some(v) => v,
        None => return None,
    };
    let pgid: u32 = match word_number(fields[2].as_slice()) {
        Some(v) => v,
        None => return None,
    };
    let mut rest: Vec<String> = Vec::new();
    let mut i: usize = 3;
    while i < n
        invariant
            3 <= i <= n,
            n == fields@.len(),
            all == views(fields@),
            texts(rest@) == all.skip(3).take(i - 3),
        decreases n - i,
    {
        let ghost before = rest@;
        let field: String = string_of(fields[i].as_slice());
        rest.push(field);
        i = i + 1;
        assert(texts(rest@) =~= texts(before).push(fields@[i - 1]@));
        assert(all.skip(3).take(i - 3) =~= all.skip(3).take(i - 4).push(fields@[i - 1]@));
    }
    assert(all.skip(3).take(i - 3) =~= all.skip(3));
    let command: String = join_strings(&rest, " ");
    let name: String = name_of(command.as_str());
    Some(ProcessInfo { pid, ppid, pgid, name, command })
}

/// Every visible process with its parent, group, name, and command line, from
/// the output of `ps -axo pid=,ppid=,pgid=,command=`.
pub fn process_table(captured: Result<String, String>) -> (r: Vec<ProcessInfo>)
    ensures
        processes_of(r@) == match captured {
            Ok(output) => lines(output@).filter_map(|line: Seq<char>| ps_process(line)),
            Err(_) => Seq::empty(),
        },
{
    let mut out: Vec<ProcessInfo> = Vec::new();
    assert(processes_of(out@) =~= Seq::empty());
    let output: String = match captured {
        Ok(output) => output,
        Err(_) => return out,
    };
    let rows: Vec<Vec<char>> = lines_of(output.as_str());
    let ghost all = views(rows@);
    let ghost f = |line: Seq<char>| ps_process(line);
    proof {
        lemma_pick_ends(all, f);
    }
    let mut i: usize = 0;
    while i < rows.len()
        invariant
            i <= rows@.len(),
            all == views(rows@),
            f == (|line: Seq<char>| ps_process(line)),
            processes_of(out@) == all.take(i as int).filter_map(f),
        decreases rows@.len() - i,
    {
        proof {
            lemma_pick_step(all, f, i as int);
        }
        assert(all[i as int] == rows@[i as int]@);
        match read_process(rows[i].as_slice()) {
            Some(process) => {
                let ghost before = out@;
                let ghost shown = process@;
                out.push(process);
                assert(processes_of(out@) =~= processes_of(before).push(shown));
            },
            None => {},
        }
        i = i + 1;
    }
    out
}

/// The pid on a line of `ps` whose group is `root`.
pub open spec fn group_member(line: Seq<char>, root: nat) -> Option<nat> {
    let fields = words(line);
    if fields.len() < 3 {
        None
    } else {
        match (parse_decimal(fields[0], 0xffff_ffff), parse_decimal(fields[2], 0xffff_ffff)) {
            (Some(pid), Some(pgid)) => if pgid == root {
                Some(pid)
            } else {
                None
            },
            _ => None,
        }
    }
}

/// Whether one of `rows` names `pid` as a member of the group `root`.
pub open spec fn names_member(rows: Seq<Seq<char>>, root: nat, pid: nat) -> bool {
    exists|i: int| 0 <= i < rows.len() && #[trigger] group_member(rows[i], root) == Some(pid)
}

fn read_member(line: &[char], root: u32) -> (r: Option<u32>)
    ensures
        match r {
            Some(pid) => group_member(line@, root as nat) == Some(pid as nat),
            None => group_member(line@, root as nat) is None,
        },
{
    let fields: Vec<Vec<char>> = split_words(line);
    assert(views(fields@).len() == fields@.len());
    if fields.len() < 3 {
        return None;
    }
    assert(views(fields@)[0] == fields@[0]@);
    assert(views(fields@)[2] == fields@[2]@);
    match (word_number(fields[0].as_slice()), word_number(fields[2].as_slice())) {
        (Some(pid), Some(pgid)) => {
            if pgid == root {
                Some(pid)
            } else {
                None
            }
        },
        _ => None,
    }
}

/// Puts `pid` in its place among ascending pids.
fn insert_pid(pids: &mut Vec<u32>, pid: u32)
    requires
        ascending(old(pids)@),
    ensures
        ascending(final(pids)@),
        forall|p: u32| #[trigger] final(pids)@.contains(p) <==> old(pids)@.contains(p) || p == pid,
{
    let mut k: usize = pids.len();
    let ghost all = pids@;
    while k > 0 && pids[k - 1] > pid
        invariant
            k <= pids@.len(),
            pids@ == all,
            forall|m: int| k <= m < all.len() ==> #[trigger] all[m] > pid,
        decreases k,
    {
        k = k - 1;
    }
    if k > 0 && pids[k - 1] == pid {
        assert(all[k - 1] == pid);
        return ;
    }
    pids.insert(k, pid);
    proof {
        let r = pids@;
        assert(r =~= all.insert(k as int, pid));
        assert forall|i: int, j: int| 0 <= i < j < r.len() implies #[trigger] r[i] < #[trigger] r[j] by {
            if j < k {
                assert(all[i] < all[j]);
            } else if j == k {
                if i < k - 1 {
                    assert(all[i] < all[k - 1]);
                }
            } else if i < k {
                assert(all[i] < all[j - 1]);
            } else if i == k {
                assert(all[j - 1] > pid);
            } else {
                assert(all[i - 1] < all[j - 1]);
            }
        }
        assert forall|p: u32| #[trigger] r.contains(p) <==> all.contains(p) || p == pid by {
            if r.contains(p) {
                let m = choose|m: int| 0 <= m < r.len() && r[m] == p;
                if m < k {
                    assert(all[m] == p);
                } else if m > k {
                    assert(all[m - 1] == p);
                }
            }
            if all.contains(p) {
                let m = choose|m: int| 0 <= m < all.len() && all[m] == p;
                if m < k {
                    assert(r[m] == p);
                } else {
                    assert(r[m + 1] == p);
                }
            }
            assert(r[k as int] == pid);
        }
    }
}

/// Whether pids ascend, none twice.
pub open spec fn ascending(pids: Seq<u32>) -> bool {
    forall|i: int, j: int| 0 <= i < j < pids.len() ==> #[trigger] pids[i] < #[trigger] pids[j]
}

/// Every process in the group of `root_pid`, from the output of `ps -axo
/// pid=,ppid=,pgid=`.
pub fn owned_processes(root_pid: u32, captured: Result<String, String>) -> (r: Vec<u32>)
    ensures
        ascending(r@),
        forall|pid: u32| #[trigger]
            r@.contains(pid) <==> captured is Ok && names_member(
                lines(captured_text(captured)),
                root_pid as nat,
                pid as nat,
            ),
{
    let mut out: Vec<u32> = Vec::new();
    let output: String = match captured {
        Ok(output) => output,
        Err(_) => return out,
    };
    let rows: Vec<Vec<char>> = lines_of(output.as_str());
    let ghost all = views(rows@);
    let mut i: usize = 0;
    while i < rows.len()
        invariant
            i <= rows@.len(),
            all == views(rows@),
            ascending(out@),
            forall|pid: u32| #[trigger]
                out@.contains(pid) <==> names_member(
                    all.take(i as int),
                    root_pid as nat,
                    pid as nat,
                ),
        decreases rows@.len() - i,
    {
        let ghost before = out@;
        let ghost part = all.take(i as int);
        let ghost next = all.take(i + 1);
        assert(all[i as int] == rows@[i as int]@);
        let found: Option<u32> = read_member(rows[i].as_slice(), root_pid);
        match found {
            Some(pid) => insert_pid(&mut out, pid),
            None => {},
        }
        proof {
            assert forall|pid: u32| #[trigger] out@.contains(pid) <==> names_member(
                next,
                root_pid as nat,
                pid as nat,
            ) by {
                let p = pid as nat;
                let root = root_pid as nat;
                assert(before.contains(pid) <==> names_member(part, root, p));
                if names_member(part, root, p) {
                    let m = choose|m: int|
                        0 <= m < part.len() && #[trigger] group_member(part[m], root) == Some(p);
                    assert(next[m] == part[m]);
                    assert(group_member(next[m], root) == Some(p));
                }
                if found == Some(pid) {
                    assert(group_member(next[i as int], root) == Some(p));
                }
                if names_member(next, root, p) {
                    let m = choose|m: int|
                        0 <= m < next.len() && #[trigger] group_member(next[m], root) == Some(p);
                    if m < i {
                        assert(part[m] == next[m]);
                        assert(group_member(part[m], root) == Some(p));
                    }
                }
            }
        }
        i = i + 1;
    }
    assert(all.take(i as int) =~= all);
    out
}

// ------------------------------------------------------------------ sockets

/// The pid that the last `p` line of `lsof` names, where it can be read.
pub open spec fn lsof_pid(rows: Seq<Seq<char>>) -> Option<nat>
    decreases rows.len(),
{
    if rows.len() == 0 {
        None
    } else {
        match strip_prefix(rows.last(), "p"@) {
            Some(value) => parse_decimal(value, 0xffff_ffff),
            None => lsof_pid(rows.drop_last()),
        }
    }
}

/// A host without the brackets around it.
pub open spec fn bare_host(host: Seq<char>) -> Seq<char> {
    match inside_brackets(host) {
        Some(inner) => inner,
        None => host,
    }
}

/// The listener that an `n` line of `lsof` gives the process `pid`.
pub open spec fn lsof_listener(line: Seq<char>, pid: Option<nat>) -> Option<Listener> {
    match (strip_prefix(line, "n"@), pid) {
        (Some(address), Some(owner)) => match rsplit_once(address, ':') {
            None => None,
            Some((host, port_text)) => match parse_decimal(port_text, 65535) {
                None => None,
                Some(port) => {
                    let ip = if bare_host(host) == "*"@ {
                        Some(IpAddr::V4(0))
                    } else {
                        parse_ip(bare_host(host))
                    };
                    match ip {
                        Some(ip) => Some(
                            Listener { pid: owner as u32, ip, port: port as u16 },
                        ),
                        None => None,
                    }
                },
            },
        },
        _ => None,
    }
}

/// The listeners in the output of `lsof`, each once: a `p` line names a process,
/// the `n` lines behind it where it listens.
pub open spec fn lsof_listeners(rows: Seq<Seq<char>>) -> Seq<Listener>
    decreases rows.len(),
{
    if rows.len() == 0 {
        Seq::empty()
    } else {
        let before = lsof_listeners(rows.drop_last());
        if strip_prefix(rows.last(), "p"@) is Some {
            before
        } else {
            match lsof_listener(rows.last(), lsof_pid(rows.drop_last())) {
                Some(listener) => if before.contains(listener) {
                    before
                } else {
                    before.push(listener)
                },
                None => before,
            }
        }
    }
}

fn read_bare_host<'a>(host: &'a [char]) -> (r: &'a [char])
    ensures
        r@ == bare_host(host@),
{
    match within_brackets(host) {
        Some(inner) => inner,
        None => host,
    }
}

fn read_listener(line: &[char], pid: Option<u32>) -> (r: Option<Listener>)
    ensures
        r == lsof_listener(
            line@,
            match pid {
                Some(p) => Some(p as nat),
                None => None,
            },
        ),
{
    let address: &[char] = match after_prefix(line, "n") {
        Some(address) => address,
        None => return None,
    };
    let owner: u32 = match pid {
        Some(pid) => pid,
        None => return None,
    };
    match split_last(address, ':') {
        None => None,
        Some((host, port_text)) => match port_number(port_text) {
            None => None,
            Some(port) => {
                let bare: &[char] = read_bare_host(host);
                if spells(bare, "*") {
                    Some(Listener { pid: owner, ip: IpAddr::V4(0), port })
                } else {
                    match IpAddr::parse(bare) {
                        Some(ip) => Some(Listener { pid: owner, ip, port }),
                        None => None,
                    }
                }
            },
        },
    }
}

fn has_listener(list: &Vec<Listener>, listener: &Listener) -> (r: bool)
    ensures
        r == list@.contains(*listener),
{
    let mut i: usize = 0;
    while i < list.len()
        invariant
            i <= list@.len(),
            forall|k: int| 0 <= k < i ==> list@[k] != *listener,
        decreases list@.len() - i,
    {
        if list[i] == *listener {
            assert(list@[i as int] == *listener);
            return true;
        }
        i = i + 1;
    }
    false
}

/// Every listening TCP socket held by a process this user can inspect, from the
/// output of `lsof -nP -iTCP -sTCP:LISTEN -Fpn`.
pub fn all_listeners(captured: Result<String, String>) -> (r: Result<Vec<Listener>, String>)
    ensures
        match (r, captured) {
            (Ok(listeners), Ok(output)) => listeners@ == lsof_listeners(lines(output@)),
            (Err(error), Err(failure)) => error == failure,
            _ => false,
        },
{
    let output: String = match captured {
        Ok(output) => output,
        Err(error) => return Err(error),
    };
    let rows: Vec<Vec<char>> = lines_of(output.as_str());
    let ghost all = views(rows@);
    let mut out: Vec<Listener> = Vec::new();
    let mut pid: Option<u32> = None;
    let mut i: usize = 0;
    assert(all.take(0) =~= Seq::empty());
    while i < rows.len()
        invariant
            i <= rows@.len(),
            all == views(rows@),
            out@ == lsof_listeners(all.take(i as int)),
            lsof_pid(all.take(i as int)) == match pid {
                Some(p) => Some(p as nat),
                None => None,
            },
        decreases rows@.len() - i,
    {
        assert(all.take(i + 1).drop_last() =~= all.take(i as int));
        assert(all.take(i + 1).last() == rows@[i as int]@);
        let line: &[char] = rows[i].as_slice();
        i = i + 1;
        match after_prefix(line, "p") {
            Some(value) => {
                pid = word_number(value);
            },
            None => {
                match read_listener(line, pid) {
                    Some(listener) => {
                        if !has_listener(&out, &listener) {
                            out.push(listener);
                        }
                    },
                    None => {},
                }
            },
        }
    }
    assert(all.take(i as int) =~= all);
    Ok(out)
}

/// Whether `host` names the loopback interface. One that stands for every
/// interface does not.
pub open spec fn on_loopback(host: Seq<char>) -> bool {
    bare_host(host) == "localhost"@ || match parse_ip(bare_host(host)) {
        Some(ip) => ip.loopback(),
        None => false,
    }
}

/// The loopback address that an `n` line of `lsof` gives. A server that is bound
/// to every interface ("*:port") listens on the network, and gives none.
pub open spec fn lsof_address(line: Seq<char>) -> Option<Seq<char>> {
    match strip_prefix(line, "n"@) {
        None => None,
        Some(address) => match rsplit_once(address, ':') {
            None => None,
            Some((host, port)) => if parse_decimal(port, 65535) is Some
                && on_loopback(host) {
                match inside_brackets(host) {
                    Some(plain) => Some("["@ + plain + "]:"@ + port),
                    None => Some("127.0.0.1:"@ + port),
                }
            } else {
                None
            },
        },
    }
}

/// Whether `host` names the loopback interface.
pub fn is_loopback_host(host: &[char]) -> (r: bool)
    ensures
        r == on_loopback(host@),
{
    let bare: &[char] = read_bare_host(host);
    if spells(bare, "localhost") {
        return true;
    }
    match IpAddr::parse(bare) {
        Some(ip) => ip.is_loopback(),
        None => false,
    }
}

fn read_address(line: &[char]) -> (r: Option<String>)
    ensures
        match r {
            Some(address) => lsof_address(line@) == Some(address@),
            None => lsof_address(line@) is None,
        },
{
    let address: &[char] = match after_prefix(line, "n") {
        Some(address) => address,
        None => return None,
    };
    match split_last(address, ':') {
        None => None,
        Some((host, port)) => {
            if port_number(port).is_none() || !is_loopback_host(host) {
                return None;
            }
            let shown: String = string_of(port);
            match within_brackets(host) {
                Some(plain) => {
                    let mut text: String = "[".to_owned();
                    let inner: String = string_of(plain);
                    text.append(inner.as_str());
                    text.append("]:");
                    text.append(shown.as_str());
                    Some(text)
                },
                None => {
                    let mut text: String = "127.0.0.1:".to_owned();
                    text.append(shown.as_str());
                    Some(text)
                },
            }
        },
    }
}

/// Listening loopback sockets of `pids`, not those on the network, from the
/// output of `lsof` about them: each address once, in order. Without pids there
/// are none, whatever was captured.
pub fn loopback_listeners(pids: &[u32], captured: Result<String, String>) -> (r: Result<
    Vec<String>,
    String,
>)
    ensures
        match r {
            Ok(addresses) => if pids@.len() == 0 {
                addresses@ == Seq::<String>::empty()
            } else {
                captured is Ok && texts(addresses@) == text_set(
                    lines(captured_text(captured)).filter_map(
                        |line: Seq<char>| lsof_address(line),
                    ),
                )
            },
            Err(error) => pids@.len() > 0 && captured == Err::<String, String>(error),
        },
{
    let mut out: Vec<String> = Vec::new();
    if pids.len() == 0 {
        return Ok(out);
    }
    let output: String = match captured {
        Ok(output) => output,
        Err(error) => return Err(error),
    };
    let rows: Vec<Vec<char>> = lines_of(output.as_str());
    let ghost all = views(rows@);
    let ghost f = |line: Seq<char>| lsof_address(line);
    proof {
        lemma_pick_ends(all, f);
    }
    let mut i: usize = 0;
    assert(texts(out@) =~= Seq::empty());
    while i < rows.len()
        invariant
            i <= rows@.len(),
            all == views(rows@),
            f == (|line: Seq<char>| lsof_address(line)),
            texts(out@) == all.take(i as int).filter_map(f),
        decreases rows@.len() - i,
    {
        proof {
            lemma_pick_step(all, f, i as int);
        }
        assert(all[i as int] == rows@[i as int]@);
        match read_address(rows[i].as_slice()) {
            Some(address) => {
                let ghost before = out@;
                let ghost shown = address@;
                out.push(address);
                assert(texts(out@) =~= texts(before).push(shown));
            },
            None => {},
        }
        i = i + 1;
    }
    Ok(sorted_set(out))
}

// --------------------------------------------------------------- directories

/// The directories in the output of `lsof`: each `n` line under the process that
/// the `p` line before it names.
pub open spec fn lsof_directories(rows: Seq<Seq<char>>) -> Seq<(u32, Seq<char>)>
    decreases rows.len(),
{
    if rows.len() == 0 {
        Seq::empty()
    } else {
        let before = lsof_directories(rows.drop_last());
        if strip_prefix(rows.last(), "p"@) is Some {
            before
        } else {
            match (strip_prefix(rows.last(), "n"@), lsof_pid(rows.drop_last())) {
                (Some(path), Some(pid)) => before.push((pid as u32, path)),
                _ => before,
            }
        }
    }
}

/// Current directory of each pid, where readable, from the output of `lsof`. Of
/// several for one pid the last counts.
pub fn working_directories(pids: &[u32], captured: Result<String, String>) -> (r: Vec<
    (u32, String),
>)
    ensures
        keyed_texts(r@) == if pids@.len() == 0 {
            Seq::empty()
        } else {
            lsof_directories(lines(captured_text(captured)))
        },
{
    let mut out: Vec<(u32, String)> = Vec::new();
    assert(keyed_texts(out@) =~= Seq::empty());
    if pids.len() == 0 {
        return out;
    }
    let output: String = match captured {
        Ok(output) => output,
        Err(_) => "".to_owned(),
    };
    let rows: Vec<Vec<char>> = lines_of(output.as_str());
    let ghost all = views(rows@);
    let mut pid: Option<u32> = None;
    let mut i: usize = 0;
    assert(all.take(0) =~= Seq::empty());
    while i < rows.len()
        invariant
            i <= rows@.len(),
            all == views(rows@),
            keyed_texts(out@) == lsof_directories(all.take(i as int)),
            lsof_pid(all.take(i as int)) == match pid {
                Some(p) => Some(p as nat),
                None => None,
            },
        decreases rows@.len() - i,
    {
        assert(all.take(i + 1).drop_last() =~= all.take(i as int));
        assert(all.take(i + 1).last() == rows@[i as int]@);
        let line: &[char] = rows[i].as_slice();
        i = i + 1;
        match after_prefix(line, "p") {
            Some(value) => {
                pid = word_number(value);
            },
            None => {
                match (after_prefix(line, "n"), pid) {
                    (Some(path), Some(owner)) => {
                        let ghost before = out@;
                        let text: String = string_of(path);
                        let ghost shown = (owner, text@);
                        out.push((owner, text));
                        assert(keyed_texts(out@) =~= keyed_texts(before).push(shown));
                    },
                    _ => {},
                }
            },
        }
    }
    assert(all.take(i as int) =~= all);
    out
}

/// Cheap fingerprint of every LISTEN socket: one `netstat` call instead of
/// `lsof` and `ps`. It is the lines of the output that end in LISTEN.
pub fn listen_signature(captured: Result<String, String>) -> (r: Result<String, String>)
    ensures
        match (r, captured) {
            (Ok(signature), Ok(output)) => signature@ == join(
                lines(output@).filter_map(
                    |line: Seq<char>|
                        if strip_suffix(line, "LISTEN"@) is Some {
                            Some(line)
                        } else {
                            None
                        },
                ),
                "\n"@,
            ),
            (Err(error), Err(failure)) => error == failure,
            _ => false,
        },
{
    let output: String = match captured {
        Ok(output) => output,
        Err(error) => return Err(error),
    };
    let rows: Vec<Vec<char>> = lines_of(output.as_str());
    let ghost all = views(rows@);
    let ghost f = |line: Seq<char>|
        if strip_suffix(line, "LISTEN"@) is Some {
            Some(line)
        } else {
            None
        };
    let mut out: Vec<String> = Vec::new();
    proof {
        lemma_pick_ends(all, f);
    }
    let mut i: usize = 0;
    assert(texts(out@) =~= Seq::empty());
    while i < rows.len()
        invariant
            i <= rows@.len(),
            all == views(rows@),
            f == (|line: Seq<char>|
                if strip_suffix(line, "LISTEN"@) is Some {
                    Some(line)
                } else {
                    None
                }),
            texts(out@) == all.take(i as int).filter_map(f),
        decreases rows@.len() - i,
    {
        proof {
            lemma_pick_step(all, f, i as int);
        }
        assert(all[i as int] == rows@[i as int]@);
        if before_suffix(rows[i].as_slice(), "LISTEN").is_some() {
            let ghost before = out@;
            let line: String = string_of(rows[i].as_slice());
            out.push(line);
            assert(texts(out@) =~= texts(before).push(rows@[i as int]@));
        }
        i = i + 1;
    }
    Ok(join_strings(&out, "\n"))
}

// ----------------------------------------------------------------- arguments

/// Pids with commas between them.
pub open spec fn pid_list(pids: Seq<u32>) -> Seq<char> {
    join(pids.map_values(|pid: u32| decimal(pid as nat)), ","@)
}

fn list_pids(pids: &[u32]) -> (r: String)
    ensures
        r@ == pid_list(pids@),
{
    let mut shown: Vec<String> = Vec::new();
    let ghost all = pids@.map_values(|pid: u32| decimal(pid as nat));
    let mut i: usize = 0;
    while i < pids.len()
        invariant
            i <= pids@.len(),
            all == pids@.map_values(|pid: u32| decimal(pid as nat)),
            texts(shown@) == all.take(i as int),
        decreases pids@.len() - i,
    {
        let ghost before = shown@;
        let text: String = decimal_string(pids[i] as u64);
        let ghost item = text@;
        shown.push(text);
        i = i + 1;
        assert(texts(shown@) =~= texts(before).push(item));
        assert(all.take(i as int) =~= all.take(i - 1).push(item));
    }
    assert(all.take(i as int) =~= all);
    join_strings(&shown, ",")
}

/// The command that lists where `pids` listen.
pub fn listener_arguments(pids: &[u32]) -> (r: Vec<String>)
    ensures
        texts(r@) == seq![
            "lsof"@,
            "-nP"@,
            "-a"@,
            "-p"@,
            pid_list(pids@),
            "-iTCP"@,
            "-sTCP:LISTEN"@,
            "-Fn"@,
        ],
{
    let mut out: Vec<String> = Vec::new();
    out.push("lsof".to_owned());
    out.push("-nP".to_owned());
    out.push("-a".to_owned());
    out.push("-p".to_owned());
    out.push(list_pids(pids));
    out.push("-iTCP".to_owned());
    out.push("-sTCP:LISTEN".to_owned());
    out.push("-Fn".to_owned());
    assert(texts(out@) =~= seq![
        "lsof"@,
        "-nP"@,
        "-a"@,
        "-p"@,
        pid_list(pids@),
        "-iTCP"@,
        "-sTCP:LISTEN"@,
        "-Fn"@,
    ]);
    out
}

/// The command that lists the current directories of `pids`.
pub fn directory_arguments(pids: &[u32]) -> (r: Vec<String>)
    ensures
        texts(r@) == seq!["lsof"@, "-a"@, "-d"@, "cwd"@, "-p"@, pid_list(pids@), "-Fpn"@],
{
    let mut out: Vec<String> = Vec::new();
    out.push("lsof".to_owned());
    out.push("-a".to_owned());
    out.push("-d".to_owned());
    out.push("cwd".to_owned());
    out.push("-p".to_owned());
    out.push(list_pids(pids));
    out.push("-Fpn".to_owned());
    assert(texts(out@) =~= seq![
        "lsof"@,
        "-a"@,
        "-d"@,
        "cwd"@,
        "-p"@,
        pid_list(pids@),
        "-Fpn"@,
    ]);
    out
}

} // verus!
