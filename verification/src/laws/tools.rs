//! The output of `ps` and `lsof`: what a line about a process or a socket says.

use crate::discovery::Listener;
use crate::discovery::fallback_scan::{
    group_member, lsof_address, lsof_directories, lsof_listener, lsof_listeners, lsof_pid,
    names_member, pid_list, program_name, ps_process,
};
use crate::ip::{parse_ip, IpAddr};
use crate::laws::addresses::{dotted, dotted_numbers_are_addresses};
use crate::laws::bridge::lemma_decimal_is_tight;
use crate::laws::scanning::joined_words_come_apart;
use crate::laws::texts::{
    a_word_and_a_blank, joined_texts_split, no_white, one_word, split_last_at, split_nowhere,
    stripping_undoes_putting,
};
use crate::list::all_distinct;
use crate::number::{decimal, decimal_reads_back, lemma_radix_roundtrip};
use crate::text::{has_prefix, inside_brackets, join, split_char, strip_prefix};
use vstd::prelude::*;

verus! {

// ----------------------------------------------------------------------- ps

/// A program's name is the last part of its path.
pub proof fn programs_go_by_their_file(
    directory: Seq<char>,
    program: Seq<char>,
    arguments: Seq<char>,
)
    requires
        directory.len() == 0 || directory.last() == '/',
        no_white(directory),
        no_white(program),
        program.len() > 0,
        !program.contains('/'),
    ensures
        program_name(directory + program) == program,
        program_name(directory + program + " "@ + arguments) == program,
{
    let whole = directory + program;
    assert(no_white(whole)) by {
        assert forall|i: int| 0 <= i < whole.len() implies !crate::text::is_white(
            #[trigger] whole[i],
        ) by {
            if i < directory.len() {
                assert(whole[i] == directory[i]);
            } else {
                assert(whole[i] == program[i - directory.len()]);
            }
        }
    }
    one_word(whole);
    a_word_and_a_blank(whole, arguments);
    if directory.len() == 0 {
        assert(whole =~= program);
        split_nowhere(program, '/');
    } else {
        let up = directory.drop_last();
        assert(whole =~= up + seq!['/'] + program);
        split_last_at(up, '/', program);
    }
}

/// A line of `ps` is the pid, the parent and the group of a process, and then its
/// command line.
pub proof fn ps_lines_are_read(pid: nat, ppid: nat, pgid: nat, command: Seq<Seq<char>>, root: nat)
    requires
        pid <= u32::MAX && ppid <= u32::MAX && pgid <= u32::MAX,
        forall|i: int|
            0 <= i < command.len() ==> (#[trigger] command[i]).len() > 0 && no_white(command[i]),
    ensures
        ({
            let line = join(seq![decimal(pid), decimal(ppid), decimal(pgid)] + command, " "@);
            &&& ps_process(line) matches Some(process) && process.pid == pid && process.ppid == ppid
                && process.pgid == pgid && process.command == join(command, " "@) && process.name
                == program_name(join(command, " "@))
            &&& group_member(line, root) == (if pgid == root {
                Some(pid)
            } else {
                None
            })
        }),
{
    let fields = seq![decimal(pid), decimal(ppid), decimal(pgid)] + command;
    lemma_decimal_is_tight(pid);
    lemma_decimal_is_tight(ppid);
    lemma_decimal_is_tight(pgid);
    decimal_reads_back(pid, 0xffff_ffff);
    decimal_reads_back(ppid, 0xffff_ffff);
    decimal_reads_back(pgid, 0xffff_ffff);
    assert forall|i: int| 0 <= i < fields.len() implies (#[trigger] fields[i]).len() > 0
        && no_white(fields[i]) by {
        if i >= 3 {
            assert(fields[i] == command[i - 3]);
        }
    }
    joined_words_come_apart(fields);
    assert(fields.skip(3) =~= command);
}

// --------------------------------------------------------------------- lsof

/// Whether row `j` names the process `pid`, and is the last before row `k` that
/// names one.
pub open spec fn names_owner(rows: Seq<Seq<char>>, j: int, k: int, pid: nat) -> bool {
    &&& 0 <= j < k <= rows.len()
    &&& rows[j] == "p"@ + decimal(pid)
    &&& forall|i: int| j < i < k ==> !has_prefix(#[trigger] rows[i], "p"@)
}

proof fn lemma_owner(rows: Seq<Seq<char>>, j: int, k: int, pid: nat)
    requires
        names_owner(rows, j, k, pid),
        pid <= u32::MAX,
    ensures
        lsof_pid(rows.take(k)) == Some(pid),
    decreases k - j,
{
    let part = rows.take(k);
    assert(part.last() == rows[k - 1]);
    assert(part.drop_last() =~= rows.take(k - 1));
    if j == k - 1 {
        stripping_undoes_putting("p"@, decimal(pid));
        decimal_reads_back(pid, 0xffff_ffff);
    } else {
        assert(!has_prefix(rows[k - 1], "p"@));
        lemma_owner(rows, j, k - 1, pid);
    }
}

/// The address of a host as `lsof` writes it: the star is every interface.
pub open spec fn listed_ip(host: Seq<char>) -> Option<IpAddr> {
    if host == "*"@ {
        Some(IpAddr::V4(0))
    } else {
        parse_ip(host)
    }
}

proof fn lemma_name_line(host: Seq<char>, port: nat)
    requires
        port <= 65535,
    ensures
        ({
            let line = "n"@ + host + ":"@ + decimal(port);
            &&& strip_prefix(line, "n"@) == Some(host + ":"@ + decimal(port))
            &&& !has_prefix(line, "p"@)
            &&& crate::text::rsplit_once(host + ":"@ + decimal(port), ':') == Some(
                (host, decimal(port)),
            )
            &&& crate::number::parse_decimal(decimal(port), 65535) == Some(port)
        }),
{
    reveal_strlit("n");
    reveal_strlit("p");
    reveal_strlit(":");
    let rest = host + ":"@ + decimal(port);
    let line = "n"@ + host + ":"@ + decimal(port);
    assert(line =~= "n"@ + rest);
    stripping_undoes_putting("n"@, rest);
    lemma_decimal_is_tight(port);
    decimal_reads_back(port, 65535);
    split_last_at(host, ':', decimal(port));
    assert(rest =~= host + seq![':'] + decimal(port));
    if has_prefix(line, "p"@) {
        assert(line.take(1)[0] == line[0]);
    }
}

/// A socket that `lsof` lists below a process is a listener of that process, on
/// the address and the port that its line names, in brackets or not.
pub proof fn lsof_sockets_belong_to_their_process(
    rows: Seq<Seq<char>>,
    j: int,
    k: int,
    pid: nat,
    host: Seq<char>,
    ip: IpAddr,
    port: nat,
)
    requires
        0 <= k < rows.len(),
        names_owner(rows, j, k, pid),
        pid <= u32::MAX,
        port <= 65535,
        listed_ip(host) == Some(ip),
        inside_brackets(host) is None,
        rows[k] == "n"@ + host + ":"@ + decimal(port) || rows[k] == "n"@ + ("["@ + host + "]"@)
            + ":"@ + decimal(port),
    ensures
        lsof_listeners(rows).contains(Listener { pid: pid as u32, ip, port: port as u16 }),
{
    let listener = Listener { pid: pid as u32, ip, port: port as u16 };
    lemma_owner(rows, j, k, pid);
    lemma_socket_line(rows[k], pid, host, ip, port);
    lemma_appended(rows, k, listener);
    lemma_kept(rows, k + 1, listener);
}

proof fn lemma_socket_line(line: Seq<char>, pid: nat, host: Seq<char>, ip: IpAddr, port: nat)
    requires
        port <= 65535,
        listed_ip(host) == Some(ip),
        inside_brackets(host) is None,
        line == "n"@ + host + ":"@ + decimal(port) || line == "n"@ + ("["@ + host + "]"@) + ":"@
            + decimal(port),
    ensures
        lsof_listener(line, Some(pid)) == Some(
            Listener { pid: pid as u32, ip, port: port as u16 },
        ),
        strip_prefix(line, "p"@) is None,
{
    reveal_strlit("[");
    reveal_strlit("]");
    let bracketed = "["@ + host + "]"@;
    lemma_name_line(host, port);
    lemma_name_line(bracketed, port);
    assert(bracketed.subrange(1, bracketed.len() - 1) =~= host);
}

proof fn lemma_appended(rows: Seq<Seq<char>>, k: int, listener: Listener)
    requires
        0 <= k < rows.len(),
        strip_prefix(rows[k], "p"@) is None,
        lsof_listener(rows[k], lsof_pid(rows.take(k))) == Some(listener),
    ensures
        lsof_listeners(rows.take(k + 1)).contains(listener),
{
    let part = rows.take(k + 1);
    assert(part.last() == rows[k]);
    assert(part.drop_last() =~= rows.take(k));
    let before = lsof_listeners(rows.take(k));
    if !before.contains(listener) {
        assert(lsof_listeners(part) == before.push(listener));
        assert(before.push(listener)[before.len() as int] == listener);
    }
}

proof fn lemma_kept(rows: Seq<Seq<char>>, k: int, listener: Listener)
    requires
        0 <= k <= rows.len(),
        lsof_listeners(rows.take(k)).contains(listener),
    ensures
        lsof_listeners(rows).contains(listener),
    decreases rows.len() - k,
{
    if k == rows.len() {
        assert(rows.take(k) =~= rows);
    } else {
        let part = rows.take(k + 1);
        assert(part.last() == rows[k]);
        assert(part.drop_last() =~= rows.take(k));
        let before = lsof_listeners(rows.take(k));
        let after = lsof_listeners(part);
        let i = choose|i: int| 0 <= i < before.len() && before[i] == listener;
        assert(after[i] == listener);
        lemma_kept(rows, k + 1, listener);
    }
}

/// Every listener that `lsof` gives is the one of some line, below the process
/// that holds it, and none is given twice.
pub proof fn lsof_gives_no_other_listeners(rows: Seq<Seq<char>>, listener: Listener)
    ensures
        lsof_listeners(rows).contains(listener) ==> exists|k: int|
            0 <= k < rows.len() && has_prefix(#[trigger] rows[k], "n"@) && lsof_pid(rows.take(k))
                == Some(listener.pid as nat) && lsof_listener(rows[k], lsof_pid(rows.take(k)))
                == Some(listener),
        all_distinct(lsof_listeners(rows)),
    decreases rows.len(),
{
    if rows.len() > 0 {
        let front = rows.drop_last();
        let n = rows.len() - 1;
        lsof_gives_no_other_listeners(front, listener);
        assert(rows.last() == rows[n]);
        assert(rows.take(n) =~= front);
        let before = lsof_listeners(front);
        let all = lsof_listeners(rows);
        if all.contains(listener) {
            if before.contains(listener) {
                let k = choose|k: int|
                    0 <= k < front.len() && has_prefix(#[trigger] front[k], "n"@) && lsof_pid(
                        front.take(k),
                    ) == Some(listener.pid as nat) && lsof_listener(
                        front[k],
                        lsof_pid(front.take(k)),
                    ) == Some(listener);
                assert(front[k] == rows[k]);
                assert(front.take(k) =~= rows.take(k));
            } else {
                let i = choose|i: int| 0 <= i < all.len() && all[i] == listener;
                assert(i == before.len()) by {
                    if i < before.len() {
                        assert(before[i] == listener);
                    }
                }
                assert(lsof_listener(rows[n], lsof_pid(front)) == Some(listener));
                assert(has_prefix(rows[n], "n"@));
                lemma_pid_fits(front);
            }
        }
        if all.len() > before.len() {
            let new = all.last();
            assert forall|i: int, j: int| 0 <= i < j < all.len() implies #[trigger] all[i]
                != #[trigger] all[j] by {
                if j < before.len() {
                    assert(all[i] == before[i] && all[j] == before[j]);
                } else {
                    assert(all[j] == new);
                    assert(before[i] == all[i]);
                    if all[i] == new {
                        assert(before.contains(new));
                    }
                }
            }
        }
    }
}

proof fn lemma_pid_fits(rows: Seq<Seq<char>>)
    ensures
        lsof_pid(rows) matches Some(pid) ==> pid <= u32::MAX,
    decreases rows.len(),
{
    if rows.len() > 0 {
        lemma_pid_fits(rows.drop_last());
    }
}

/// A directory that `lsof` lists below a process is that of the process, as it is
/// written.
pub proof fn lsof_directories_belong_to_their_process(
    rows: Seq<Seq<char>>,
    j: int,
    k: int,
    pid: nat,
    path: Seq<char>,
)
    requires
        0 <= k < rows.len(),
        names_owner(rows, j, k, pid),
        pid <= u32::MAX,
        rows[k] == "n"@ + path,
    ensures
        lsof_directories(rows).contains((pid as u32, path)),
{
    reveal_strlit("n");
    reveal_strlit("p");
    lemma_owner(rows, j, k, pid);
    stripping_undoes_putting("n"@, path);
    if has_prefix(rows[k], "p"@) {
        assert(rows[k].take(1)[0] == rows[k][0]);
    }
    let part = rows.take(k + 1);
    assert(part.last() == rows[k]);
    assert(part.drop_last() =~= rows.take(k));
    let before = lsof_directories(rows.take(k));
    assert(lsof_directories(part) == before.push((pid as u32, path)));
    assert(before.push((pid as u32, path))[before.len() as int] == (pid as u32, path));
    lemma_directory_kept(rows, k + 1, (pid as u32, path));
}

proof fn lemma_directory_kept(rows: Seq<Seq<char>>, k: int, found: (u32, Seq<char>))
    requires
        0 <= k <= rows.len(),
        lsof_directories(rows.take(k)).contains(found),
    ensures
        lsof_directories(rows).contains(found),
    decreases rows.len() - k,
{
    if k == rows.len() {
        assert(rows.take(k) =~= rows);
    } else {
        let part = rows.take(k + 1);
        assert(part.last() == rows[k]);
        assert(part.drop_last() =~= rows.take(k));
        let before = lsof_directories(rows.take(k));
        let after = lsof_directories(part);
        let i = choose|i: int| 0 <= i < before.len() && before[i] == found;
        assert(after[i] == found);
        lemma_directory_kept(rows, k + 1, found);
    }
}

/// A loopback socket in the output of `lsof` is found under the IPv4 loopback
/// address, or under its own address where that is in brackets. One on another
/// interface, or on every interface, is not.
#[verifier::rlimit(40)]
pub proof fn lsof_addresses_are_on_the_loopback(
    a: nat,
    b: nat,
    c: nat,
    d: nat,
    inner: Seq<char>,
    port: nat,
)
    requires
        a <= 255 && b <= 255 && c <= 255 && d <= 255,
        port <= 65535,
    ensures
        a == 127 ==> lsof_address("n"@ + dotted(a, b, c, d) + ":"@ + decimal(port)) == Some(
            "127.0.0.1:"@ + decimal(port),
        ),
        a != 127 ==> lsof_address("n"@ + dotted(a, b, c, d) + ":"@ + decimal(port)) is None,
        lsof_address("n"@ + "localhost"@ + ":"@ + decimal(port)) == Some(
            "127.0.0.1:"@ + decimal(port),
        ),
        lsof_address("n"@ + "*"@ + ":"@ + decimal(port)) is None,
        lsof_address("n"@ + ("["@ + inner + "]"@) + ":"@ + decimal(port)) == (if inner
            == "localhost"@ || (parse_ip(inner) matches Some(ip) && ip.loopback()) {
            Some("["@ + inner + "]:"@ + decimal(port))
        } else {
            None
        }),
{
    reveal_strlit("[");
    reveal_strlit("]");
    reveal_strlit("*");
    reveal_strlit("localhost");
    let host = dotted(a, b, c, d);
    lemma_name_line(host, port);
    lemma_name_line("localhost"@, port);
    lemma_name_line("*"@, port);
    let bracketed = "["@ + inner + "]"@;
    lemma_name_line(bracketed, port);
    assert(bracketed.subrange(1, bracketed.len() - 1) =~= inner);
    dotted_numbers_are_addresses(a, b, c, d);
    lemma_radix_roundtrip(a, 10);
    assert(host[0] == decimal(a)[0]);
    assert(crate::number::digit_value(decimal(a)[0], 10) is Some);
    assert(host != "localhost"@) by {
        if host == "localhost"@ {
            assert(host[0] == 'l');
        }
    }
    lemma_star();
}

proof fn lemma_star()
    ensures
        parse_ip("*"@) is None,
{
    reveal_strlit("*");
    if parse_ip("*"@) is Some {
        crate::ip::lemma_ip_shape("*"@);
        assert(crate::ip::ip_chars()("*"@[0]));
    }
}

/// The processes that `lsof` is asked about are named by their pids, with commas
/// between them.
pub proof fn lsof_is_asked_for_every_process(pids: Seq<u32>)
    requires
        pids.len() > 0,
    ensures
        split_char(pid_list(pids), ',') == pids.map_values(|pid: u32| decimal(pid as nat)),
{
    reveal_strlit(",");
    assert(","@ =~= seq![',']);
    let texts = pids.map_values(|pid: u32| decimal(pid as nat));
    assert forall|i: int| 0 <= i < texts.len() implies !(#[trigger] texts[i]).contains(',') by {
        let n = pids[i] as nat;
        lemma_radix_roundtrip(n, 10);
        if decimal(n).contains(',') {
            let k = choose|k: int| 0 <= k < decimal(n).len() && decimal(n)[k] == ',';
            assert(crate::number::digit_value(decimal(n)[k], 10) is Some);
        }
    }
    joined_texts_split(texts, ',');
}

/// A process is a member of a group exactly where a line of `ps` says so.
pub proof fn members_are_those_that_ps_names(
    rows: Seq<Seq<char>>,
    i: int,
    pid: nat,
    ppid: nat,
    pgid: nat,
    command: Seq<Seq<char>>,
    root: nat,
    any: nat,
)
    requires
        0 <= i < rows.len(),
        pid <= u32::MAX && ppid <= u32::MAX && pgid <= u32::MAX,
        forall|k: int|
            0 <= k < command.len() ==> (#[trigger] command[k]).len() > 0 && no_white(command[k]),
        rows[i] == join(seq![decimal(pid), decimal(ppid), decimal(pgid)] + command, " "@),
    ensures
        pgid == root ==> names_member(rows, root, pid),
        names_member(rows, root, any) ==> exists|k: int|
            0 <= k < rows.len() && #[trigger] group_member(rows[k], root) == Some(any),
{
    ps_lines_are_read(pid, ppid, pgid, command, root);
    if pgid == root {
        assert(group_member(rows[i], root) == Some(pid));
    }
}

/// A process that cannot be read is none: what follows it belongs to nobody.
pub proof fn unreadable_owners_own_nothing(rows: Seq<Seq<char>>, value: Seq<char>, line: Seq<char>)
    requires
        crate::number::parse_decimal(value, u32::MAX as nat) is None,
        !has_prefix(line, "p"@),
    ensures
        lsof_pid(rows.push("p"@ + value)) is None,
        lsof_listeners(rows.push("p"@ + value).push(line)) == lsof_listeners(rows),
        lsof_directories(rows.push("p"@ + value).push(line)) == lsof_directories(rows),
{
    let named = rows.push("p"@ + value);
    let all = named.push(line);
    stripping_undoes_putting("p"@, value);
    assert(named.drop_last() =~= rows);
    assert(all.drop_last() =~= named);
    assert(lsof_listeners(named) == lsof_listeners(rows));
    assert(lsof_directories(named) == lsof_directories(rows));
    assert(all.last() == line);
}

} // verus!
