//! The kernel's tables: what a line about a process or a socket says.

use crate::bytes::lossy_text;
use crate::discovery::Listener;
use crate::discovery::proc_scan::{
    arguments_from, command_line, group_of, hex_address, hex_byte, is_owned, listen_entry,
    little_word, loopback_address, owned_by, owned_within, owners_of, pid_word, process_of, run_end,
    socket_inode, socket_of, sockets_of, stat_of, table_lines, table_of, ProcEntry,
};
use crate::ip::{host_text, IpAddr};
use crate::laws::bridge::lemma_decimal_is_tight;
use crate::laws::texts::{
    a_word_and_a_blank, all_white, leading_white_makes_no_word, no_white, one_word, split_last_at,
    split_once_at, stripping_undoes_putting, tight, trimming_takes_white_space_alone,
};
use crate::number::{
    decimal, decimal_reads_back, digit_value, lemma_radix_roundtrip, parse_radix, parse_signed,
};
use crate::text::{has_prefix, join, lines, words};
use vstd::prelude::*;

verus! {

// ------------------------------------------------------------------- fields

/// A list of words as it is written, with blanks between them.
pub proof fn joined_words_come_apart(list: Seq<Seq<char>>)
    requires
        forall|i: int|
            0 <= i < list.len() ==> (#[trigger] list[i]).len() > 0 && no_white(list[i]),
    ensures
        words(join(list, " "@)) == list,
    decreases list.len(),
{
    if list.len() == 0 {
        assert(words(join(list, " "@)) =~= list);
    } else if list.len() == 1 {
        one_word(list[0]);
        assert(seq![list[0]] =~= list);
    } else {
        let rest = list.skip(1);
        assert forall|i: int| 0 <= i < rest.len() implies (#[trigger] rest[i]).len() > 0
            && no_white(rest[i]) by {
            assert(rest[i] == list[i + 1]);
        }
        joined_words_come_apart(rest);
        lemma_join_front(list, " "@);
        a_word_and_a_blank(list[0], join(rest, " "@));
        assert(seq![list[0]] + rest =~= list);
    }
}

/// A joined list starts with its first text.
pub proof fn lemma_join_front(list: Seq<Seq<char>>, separator: Seq<char>)
    requires
        list.len() > 1,
    ensures
        join(list, separator) == list[0] + separator + join(list.skip(1), separator),
    decreases list.len(),
{
    let front = list.drop_last();
    let rest = list.skip(1);
    if list.len() == 2 {
        assert(front[0] == list[0] && rest[0] == list[1]);
        assert(join(front, separator) == list[0]);
        assert(join(rest, separator) == list[1]);
    } else {
        lemma_join_front(front, separator);
        assert(front.skip(1) =~= rest.drop_last());
        assert(rest.last() == list.last());
        assert(join(list, separator) =~= list[0] + separator + join(rest, separator));
    }
}

// ---------------------------------------------------------------- processes

/// A process's stat line gives its pid, parent and group, whatever its name:
/// blanks and parentheses in it do not matter.
#[verifier::rlimit(40)]
pub proof fn stat_lines_are_read(
    pid: nat,
    name: Seq<char>,
    state: Seq<char>,
    ppid: nat,
    pgid: nat,
    more: Seq<char>,
)
    requires
        pid <= i64::MAX && ppid <= i64::MAX && pgid <= i64::MAX,
        state.len() > 0 && no_white(state) && !state.contains(')'),
        !more.contains(')'),
    ensures
        stat_of(
            decimal(pid) + " ("@ + name + ") "@ + state + " "@ + decimal(ppid) + " "@ + decimal(
                pgid,
            ) + " "@ + more,
        ) == Some((pid as int, ppid as int, pgid as int)),
{
    reveal_strlit(" ");
    reveal_strlit(" (");
    reveal_strlit(") ");
    let text = decimal(pid) + " ("@ + name + ") "@ + state + " "@ + decimal(ppid) + " "@ + decimal(
        pgid,
    ) + " "@ + more;
    let rest = state + " "@ + decimal(ppid) + " "@ + decimal(pgid) + " "@ + more;
    let before = decimal(pid) + " ("@ + name;
    let behind = seq![' '] + rest;
    lemma_fields(pid);
    lemma_fields(ppid);
    lemma_fields(pgid);
    assert(text =~= before + seq![')'] + behind);
    assert(!behind.contains(')')) by {
        if behind.contains(')') {
            let k = choose|k: int| 0 <= k < behind.len() && behind[k] == ')';
            let a = 1 + state.len() as int;
            let b = a + 1 + decimal(ppid).len();
            let c = b + 1 + decimal(pgid).len();
            if 0 < k < a {
                assert(state[k - 1] == ')');
            } else if a < k < b {
                assert(decimal(ppid)[k - a - 1] == ')');
            } else if b < k < c {
                assert(decimal(pgid)[k - b - 1] == ')');
            } else if k > c {
                assert(more[k - c - 1] == ')');
            }
        }
    }
    split_last_at(before, ')', behind);
    let close = before.len() as int;
    assert(text.take(close) =~= before);
    assert(text.skip(close + 1) =~= behind);
    a_word_and_a_blank(decimal(pid), "("@ + name);
    reveal_strlit("(");
    assert(before =~= decimal(pid) + " "@ + ("("@ + name));
    assert(all_white(seq![' ']));
    leading_white_makes_no_word(seq![' '], rest);
    let tail2 = decimal(pgid) + " "@ + more;
    let tail1 = decimal(ppid) + " "@ + tail2;
    assert(rest =~= state + " "@ + tail1);
    a_word_and_a_blank(state, tail1);
    a_word_and_a_blank(decimal(ppid), tail2);
    a_word_and_a_blank(decimal(pgid), more);
    let after = words(rest);
    assert(after[1] == decimal(ppid));
    assert(after[2] == decimal(pgid));
}

proof fn lemma_fields(n: nat)
    requires
        n <= i64::MAX,
    ensures
        parse_signed(decimal(n)) == Some(n as int),
        decimal(n).len() > 0,
        no_white(decimal(n)),
        !decimal(n).contains(')'),
{
    lemma_radix_roundtrip(n, 10);
    lemma_decimal_is_tight(n);
    let digits = decimal(n);
    assert(digit_value(digits[0], 10) is Some);
    if digits.contains(')') {
        let k = choose|k: int| 0 <= k < digits.len() && digits[k] == ')';
        assert(digit_value(digits[k], 10) is Some);
    }
}

/// The table holds, of each process, what its last stat line says.
pub proof fn the_last_stat_line_counts(
    stats: Seq<Seq<char>>,
    i: int,
    pid: int,
    ppid: int,
    pgid: int,
)
    requires
        0 <= i < stats.len(),
        stat_of(stats[i]) == Some((pid, ppid, pgid)),
        forall|j: int| i < j < stats.len() ==> !#[trigger] about(stats, j, pid),
    ensures
        table_of(stats).dom().contains(pid),
        table_of(stats)[pid] == (ppid, pgid),
    decreases stats.len(),
{
    let front = stats.drop_last();
    let n = stats.len() - 1;
    assert(stats.last() == stats[n]);
    if i < n {
        assert(front[i] == stats[i]);
        assert forall|j: int| i < j < front.len() implies !#[trigger] about(front, j, pid) by {
            assert(front[j] == stats[j]);
            assert(!about(stats, j, pid));
        }
        the_last_stat_line_counts(front, i, pid, ppid, pgid);
        assert(!about(stats, n, pid));
    }
}

/// A process without a stat line is not in the table.
pub proof fn unlisted_processes_are_not_in_the_table(stats: Seq<Seq<char>>, pid: int)
    requires
        forall|j: int| 0 <= j < stats.len() ==> !#[trigger] about(stats, j, pid),
    ensures
        !table_of(stats).dom().contains(pid),
    decreases stats.len(),
{
    if stats.len() > 0 {
        let front = stats.drop_last();
        let n = stats.len() - 1;
        assert(stats.last() == stats[n]);
        assert forall|j: int| 0 <= j < front.len() implies !#[trigger] about(front, j, pid) by {
            assert(front[j] == stats[j]);
            assert(!about(stats, j, pid));
        }
        unlisted_processes_are_not_in_the_table(front, pid);
        assert(!about(stats, n, pid));
    }
}

/// Whether stat line `i` is about `pid`.
pub open spec fn about(stats: Seq<Seq<char>>, i: int, pid: int) -> bool {
    0 <= i < stats.len() && (stat_of(stats[i]) matches Some(fields) && fields.0 == pid)
}

/// A listed process belongs to a run where it is in the run's group, or its
/// parent belongs to the run; and nothing else does.
pub proof fn groups_and_their_children_are_owned(
    table: Map<int, (int, int)>,
    root: int,
    pid: int,
)
    ensures
        ({
            let group = if table.dom().contains(root) {
                table[root].1
            } else {
                root
            };
            &&& group_of(table, root) == group
            &&& is_owned(table, group, pid) <==> table.dom().contains(pid) && (table[pid].1 == group
                || is_owned(table, group, table[pid].0))
        }),
{
    let group = group_of(table, root);
    if is_owned(table, group, pid) {
        let steps = choose|steps: nat| owned_within(table, group, pid, steps);
        if table[pid].1 != group {
            assert(owned_within(table, group, table[pid].0, (steps - 1) as nat));
        }
    }
    if table.dom().contains(pid) && table[pid].1 == group {
        assert(owned_within(table, group, pid, 0));
    }
    if table.dom().contains(pid) && is_owned(table, group, table[pid].0) {
        let steps = choose|steps: nat| owned_within(table, group, table[pid].0, steps);
        assert(owned_within(table, group, pid, steps + 1));
    }
}

proof fn lemma_run(word: Seq<u8>, rest: Seq<u8>, i: int)
    requires
        0 <= i <= word.len(),
        forall|k: int| 0 <= k < word.len() ==> #[trigger] word[k] != 0,
        rest.len() > 0 ==> rest[0] == 0,
    ensures
        run_end(word + rest, i) == word.len(),
    decreases word.len() - i,
{
    let s = word + rest;
    if i < word.len() {
        assert(s[i] == word[i]);
        lemma_run(word, rest, i + 1);
    } else if rest.len() > 0 {
        assert(s[i] == rest[0]);
    }
}

proof fn lemma_run_shift(front: Seq<u8>, s: Seq<u8>, i: int)
    requires
        0 <= i,
    ensures
        run_end(front + s, front.len() + i) == front.len() + run_end(s, i),
    decreases s.len() - i,
{
    if i < s.len() {
        assert((front + s)[front.len() + i] == s[i]);
        if s[i] != 0 {
            lemma_run_shift(front, s, i + 1);
        }
    }
}

proof fn lemma_arguments_shift(front: Seq<u8>, s: Seq<u8>, i: int)
    requires
        0 <= i,
    ensures
        arguments_from(front + s, front.len() + i) == arguments_from(s, i),
    decreases s.len() - i,
{
    let all = front + s;
    let n = front.len();
    if i < s.len() {
        assert(all[n + i] == s[i]);
        if s[i] == 0 {
            lemma_arguments_shift(front, s, i + 1);
        } else {
            crate::discovery::proc_scan::lemma_run_end(s, i);
            lemma_run_shift(front, s, i);
            let end = run_end(s, i);
            assert(all.subrange(n + i, n + end) =~= s.subrange(i, end));
            lemma_arguments_shift(front, s, end);
        }
    }
}

/// A command line is its arguments, one after the other, each ended by a zero
/// byte, with blanks between them.
pub proof fn arguments_come_in_turn(word: Seq<u8>, rest: Seq<u8>)
    requires
        word.len() > 0,
        forall|k: int| 0 <= k < word.len() ==> #[trigger] word[k] != 0,
    ensures
        arguments_from(word + seq![0u8] + rest, 0) == seq![lossy_text(word)] + arguments_from(
            rest,
            0,
        ),
        arguments_from(word, 0) == seq![lossy_text(word)],
        command_line(rest) == join(arguments_from(rest, 0), " "@),
{
    let none = Seq::<u8>::empty();
    let s = word + seq![0u8] + rest;
    let tail = seq![0u8] + rest;
    assert(s =~= word + tail);
    lemma_run(word, tail, 0);
    assert(s[0] == word[0]);
    assert(s.subrange(0, word.len() as int) =~= word);
    lemma_arguments_shift(word, tail, 0);
    lemma_arguments_shift(seq![0u8], rest, 0);
    assert(arguments_from(tail, 0) == arguments_from(tail, 1));
    lemma_run(word, none, 0);
    assert(word + none =~= word);
    assert(word.subrange(0, word.len() as int) =~= word);
    assert(arguments_from(word, word.len() as int) =~= Seq::<Seq<char>>::empty());
    assert(arguments_from(word, 0) =~= seq![lossy_text(word)]);
}

/// A process is listed under its own pid, with the parent and the group of its
/// stat line, its name, and its command line; one whose stat line cannot be read
/// is not.
pub proof fn processes_are_what_their_files_say(
    entry: ProcEntry,
    pid: int,
    ppid: u32,
    pgid: u32,
    name: Seq<char>,
    after: Seq<char>,
)
    requires
        tight(name),
        all_white(after),
    ensures
        entry.stat is None ==> process_of(entry) is None,
        (entry.stat matches Some(stat) && stat_of(stat@) == Some((pid, ppid as int, pgid as int)))
            ==> {
            let process = process_of(entry);
            &&& process matches Some(found) && found.pid == entry.pid && found.ppid == ppid
                && found.pgid == pgid
            &&& entry.comm matches Some(text) ==> (text@ == name + after
                ==> process->Some_0.name == name)
            &&& entry.cmdline matches Some(bytes) ==> process->Some_0.command == command_line(
                bytes@,
            )
            &&& entry.cmdline is None ==> process->Some_0.command.len() == 0
        },
{
    reveal_strlit("");
    let none = Seq::<char>::empty();
    trimming_takes_white_space_alone(none, name, after);
    assert(none + name + after =~= name + after);
    assert(none + name =~= name);
}

// ------------------------------------------------------------------ sockets

/// A descriptor that is a socket names its inode; any other link is none.
pub proof fn socket_links_name_their_inode(inode: nat, other: Seq<char>)
    requires
        inode <= 0xffff_ffff_ffff_ffff,
        !has_prefix(other, "socket:["@),
    ensures
        socket_inode("socket:["@ + decimal(inode) + "]"@) == Some(inode),
        socket_inode(other) is None,
{
    let inner = decimal(inode) + "]"@;
    assert("socket:["@ + decimal(inode) + "]"@ =~= "socket:["@ + inner);
    stripping_undoes_putting("socket:["@, inner);
    stripping_undoes_putting("]"@, decimal(inode));
    decimal_reads_back(inode, 0xffff_ffff_ffff_ffff);
}

/// A socket belongs to the first process found holding it.
pub proof fn the_first_holder_owns_a_socket(links: Seq<(u32, Seq<char>)>, i: int, inode: u64)
    requires
        holds(links, i, inode),
        forall|j: int| 0 <= j < i ==> !#[trigger] holds(links, j, inode),
    ensures
        owners_of(links).dom().contains(inode),
        owners_of(links)[inode] == links[i].0,
    decreases links.len(),
{
    let front = links.drop_last();
    let n = links.len() - 1;
    assert(links.last() == links[n]);
    if i < n {
        assert(front[i] == links[i]);
        assert forall|j: int| 0 <= j < i implies !#[trigger] holds(front, j, inode) by {
            assert(front[j] == links[j]);
            assert(!holds(links, j, inode));
        }
        the_first_holder_owns_a_socket(front, i, inode);
    } else {
        assert forall|j: int| 0 <= j < front.len() implies !#[trigger] holds(front, j, inode) by {
            assert(front[j] == links[j]);
            assert(!holds(links, j, inode));
        }
        sockets_that_nobody_holds_have_no_owner(front, inode);
    }
}

/// A socket that no process holds has no owner.
pub proof fn sockets_that_nobody_holds_have_no_owner(links: Seq<(u32, Seq<char>)>, inode: u64)
    requires
        forall|j: int| 0 <= j < links.len() ==> !#[trigger] holds(links, j, inode),
    ensures
        !owners_of(links).dom().contains(inode),
    decreases links.len(),
{
    if links.len() > 0 {
        let front = links.drop_last();
        let n = links.len() - 1;
        assert(links.last() == links[n]);
        assert forall|j: int| 0 <= j < front.len() implies !#[trigger] holds(front, j, inode) by {
            assert(front[j] == links[j]);
            assert(!holds(links, j, inode));
        }
        sockets_that_nobody_holds_have_no_owner(front, inode);
        assert(!holds(links, n, inode));
    }
}

/// Whether link `i` is a descriptor on the socket `inode`.
pub open spec fn holds(links: Seq<(u32, Seq<char>)>, i: int, inode: u64) -> bool {
    0 <= i < links.len() && socket_inode(links[i].1) == Some(inode as nat)
}

/// Whether the two hexadecimal digits at `i` are those of `byte`.
pub open spec fn spells_byte(text: Seq<char>, i: int, byte: nat) -> bool {
    match (digit_value(text[i], 16), digit_value(text[i + 1], 16)) {
        (Some(high), Some(low)) => byte == 16 * high + low,
        _ => false,
    }
}

proof fn lemma_byte(text: Seq<char>, i: int, byte: nat)
    requires
        0 <= i,
        i + 2 <= text.len(),
        spells_byte(text, i, byte),
    ensures
        hex_byte(text, i) == Some(byte),
        byte <= 255,
{
    let pair = text.subrange(i, i + 2);
    assert(pair[0] == text[i] && pair[1] == text[i + 1]);
    assert(pair.drop_last() =~= seq![text[i]]);
    let first = seq![text[i]];
    assert(first.drop_last() =~= Seq::<char>::empty());
    reveal_with_fuel(crate::number::radix_value, 3);
    assert(pair.last() == text[i + 1]);
    assert(first.last() == text[i]);
    assert(pair[0] != '+') by {
        assert(digit_value(pair[0], 16) is Some);
    }
    let high = digit_value(text[i], 16)->Some_0;
    let low = digit_value(text[i + 1], 16)->Some_0;
    assert(crate::number::radix_value(first, 16) == high);
    assert(crate::number::radix_value(pair, 16) == high * 16 + low);
}

/// The kernel spells an IPv4 address with its lowest octet first.
pub proof fn kernel_addresses_are_read_backwards(
    text: Seq<char>,
    a: nat,
    b: nat,
    c: nat,
    d: nat,
)
    requires
        text.len() == 8,
        spells_byte(text, 0, d),
        spells_byte(text, 2, c),
        spells_byte(text, 4, b),
        spells_byte(text, 6, a),
    ensures
        hex_address(text) == Some(
            IpAddr::V4((a * 0x100_0000 + b * 0x1_0000 + c * 0x100 + d) as u32),
        ),
{
    lemma_byte(text, 0, d);
    lemma_byte(text, 2, c);
    lemma_byte(text, 4, b);
    lemma_byte(text, 6, a);
}

/// Whether byte `b` of word `w` is the octet that stands there in an IPv6 address,
/// the lowest of each word first.
pub open spec fn spells_octet(text: Seq<char>, octets: Seq<nat>, w: int, b: int) -> bool {
    spells_byte(text, 8 * w + 2 * b, octets[4 * w + 3 - b])
}

/// An IPv6 address is spelled in four words, each with its lowest octet first.
pub proof fn kernel_addresses_are_read_by_words(text: Seq<char>, octets: Seq<nat>)
    requires
        text.len() == 32,
        octets.len() == 16,
        forall|w: int, b: int|
            0 <= w < 4 && 0 <= b < 4 ==> #[trigger] spells_octet(text, octets, w, b),
    ensures
        hex_address(text) == Some(
            IpAddr::V6(
                (0x1_0000_0000_0000_0000_0000_0000 * word_of(octets, 0) + 0x1_0000_0000_0000_0000
                    * word_of(octets, 1) + 0x1_0000_0000 * word_of(octets, 2) + word_of(
                    octets,
                    3,
                )) as u128,
            ),
        ),
{
    lemma_word(text, octets, 0);
    lemma_word(text, octets, 1);
    lemma_word(text, octets, 2);
    lemma_word(text, octets, 3);
}

/// Four octets as a number, the first highest.
pub open spec fn word_of(octets: Seq<nat>, w: int) -> nat {
    octets[4 * w] * 0x100_0000 + octets[4 * w + 1] * 0x1_0000 + octets[4 * w + 2] * 0x100
        + octets[4 * w + 3]
}

proof fn lemma_word(text: Seq<char>, octets: Seq<nat>, w: int)
    requires
        text.len() == 32,
        octets.len() == 16,
        0 <= w < 4,
        forall|v: int, b: int|
            0 <= v < 4 && 0 <= b < 4 ==> #[trigger] spells_octet(text, octets, v, b),
    ensures
        little_word(text, 8 * w) == Some(word_of(octets, w)),
{
    assert(spells_octet(text, octets, w, 0));
    assert(spells_octet(text, octets, w, 1));
    assert(spells_octet(text, octets, w, 2));
    assert(spells_octet(text, octets, w, 3));
    lemma_byte(text, 8 * w, octets[4 * w + 3]);
    lemma_byte(text, 8 * w + 2, octets[4 * w + 2]);
    lemma_byte(text, 8 * w + 4, octets[4 * w + 1]);
    lemma_byte(text, 8 * w + 6, octets[4 * w]);
}

/// A line about a listening socket that a known process holds gives that process,
/// the local address and the local port. A socket in another state, or one that
/// no known process holds, gives none.
pub proof fn listening_lines_are_read(
    columns: Seq<Seq<char>>,
    address: Seq<char>,
    port: Seq<char>,
    number: nat,
    ip: IpAddr,
    inode: nat,
    owners: Map<u64, u32>,
)
    requires
        columns.len() >= 10,
        forall|i: int|
            0 <= i < columns.len() ==> (#[trigger] columns[i]).len() > 0 && no_white(columns[i]),
        !address.contains(':'),
        columns[1] == address + ":"@ + port,
        hex_address(address) == Some(ip),
        parse_radix(port, 16, 65535) == Some(number),
        columns[9] == decimal(inode),
        inode <= 0xffff_ffff_ffff_ffff,
    ensures
        columns[3] == "0A"@ && owners.dom().contains(inode as u64) ==> socket_of(
            join(columns, " "@),
            owners,
        ) == Some(Listener { pid: owners[inode as u64], ip, port: number as u16 }),
        columns[3] != "0A"@ ==> socket_of(join(columns, " "@), owners) is None,
        !owners.dom().contains(inode as u64) ==> socket_of(join(columns, " "@), owners) is None,
{
    reveal_strlit(":");
    joined_words_come_apart(columns);
    decimal_reads_back(inode, 0xffff_ffff_ffff_ffff);
    split_once_at(address, ':', port);
    assert(columns[1] =~= address + seq![':'] + port);
}

/// Whether line `k` of table `t`, below its heading, is about `socket`.
pub open spec fn told(
    tables: Seq<Seq<char>>,
    owners: Map<u64, u32>,
    t: int,
    k: int,
    socket: Listener,
) -> bool {
    0 <= t < tables.len() && 1 <= k < lines(tables[t]).len() && socket_of(
        lines(tables[t])[k],
        owners,
    ) == Some(socket)
}

/// The listening sockets are those of every line of every table below its
/// heading, and no others.
pub proof fn every_line_of_every_table_counts(
    tables: Seq<Seq<char>>,
    owners: Map<u64, u32>,
    socket: Listener,
)
    ensures
        sockets_of(tables, owners).contains(socket) <==> exists|t: int, k: int|
            told(tables, owners, t, k, socket),
{
    if sockets_of(tables, owners).contains(socket) {
        lemma_told(tables, owners, socket);
    }
    if exists|t: int, k: int| told(tables, owners, t, k, socket) {
        let (t, k) = choose|t: int, k: int| told(tables, owners, t, k, socket);
        lemma_listed(tables, owners, t, k, socket);
    }
}

spec fn table_sockets(table: Seq<char>, owners: Map<u64, u32>) -> Seq<Listener> {
    table_lines(table).filter_map(|line: Seq<char>| socket_of(line, owners))
}

spec fn told_in(table: Seq<char>, owners: Map<u64, u32>, k: int, socket: Listener) -> bool {
    1 <= k < lines(table).len() && socket_of(lines(table)[k], owners) == Some(socket)
}

proof fn lemma_row(table: Seq<char>, owners: Map<u64, u32>, socket: Listener)
    ensures
        table_sockets(table, owners).contains(socket) <==> exists|k: int|
            told_in(table, owners, k, socket),
{
    let f = |line: Seq<char>| socket_of(line, owners);
    let rows = table_lines(table);
    lemma_picked(rows, f, socket);
    if rows.filter_map(f).contains(socket) {
        let j = choose|j: int| 0 <= j < rows.len() && f(#[trigger] rows[j]) == Some(socket);
        assert(lines(table)[j + 1] == rows[j]);
        assert(told_in(table, owners, j + 1, socket));
    }
    if exists|k: int| told_in(table, owners, k, socket) {
        let k = choose|k: int| told_in(table, owners, k, socket);
        assert(rows[k - 1] == lines(table)[k]);
        assert(f(rows[k - 1]) == Some(socket));
    }
}

proof fn lemma_last_table(tables: Seq<Seq<char>>, owners: Map<u64, u32>, socket: Listener)
    requires
        tables.len() > 0,
    ensures
        sockets_of(tables, owners).contains(socket) <==> sockets_of(
            tables.drop_last(),
            owners,
        ).contains(socket) || table_sockets(tables.last(), owners).contains(socket),
{
    let before = sockets_of(tables.drop_last(), owners);
    let own = table_sockets(tables.last(), owners);
    let all = before + own;
    assert(sockets_of(tables, owners) == all);
    if before.contains(socket) {
        let i = choose|i: int| 0 <= i < before.len() && before[i] == socket;
        assert(all[i] == socket);
    }
    if own.contains(socket) {
        let i = choose|i: int| 0 <= i < own.len() && own[i] == socket;
        assert(all[before.len() + i] == socket);
    }
    if all.contains(socket) {
        let i = choose|i: int| 0 <= i < all.len() && all[i] == socket;
        if i < before.len() {
            assert(before[i] == socket);
        } else {
            assert(own[i - before.len()] == socket);
        }
    }
}

proof fn lemma_listed(
    tables: Seq<Seq<char>>,
    owners: Map<u64, u32>,
    t: int,
    k: int,
    socket: Listener,
)
    requires
        told(tables, owners, t, k, socket),
    ensures
        sockets_of(tables, owners).contains(socket),
    decreases tables.len(),
{
    lemma_last_table(tables, owners, socket);
    if t < tables.len() - 1 {
        assert(tables.drop_last()[t] == tables[t]);
        lemma_listed(tables.drop_last(), owners, t, k, socket);
    } else {
        lemma_row(tables.last(), owners, socket);
        assert(told_in(tables.last(), owners, k, socket));
    }
}

proof fn lemma_told(tables: Seq<Seq<char>>, owners: Map<u64, u32>, socket: Listener)
    requires
        sockets_of(tables, owners).contains(socket),
    ensures
        exists|t: int, k: int| told(tables, owners, t, k, socket),
    decreases tables.len(),
{
    let front = tables.drop_last();
    lemma_last_table(tables, owners, socket);
    if sockets_of(front, owners).contains(socket) {
        lemma_told(front, owners, socket);
        let (t, k) = choose|t: int, k: int| told(front, owners, t, k, socket);
        assert(front[t] == tables[t]);
        assert(told(tables, owners, t, k, socket));
    } else {
        lemma_row(tables.last(), owners, socket);
        let k = choose|k: int| told_in(tables.last(), owners, k, socket);
        assert(told(tables, owners, tables.len() - 1, k, socket));
    }
}

/// What a list gives when each item gives something or nothing.
pub proof fn lemma_picked<A, B>(list: Seq<A>, f: spec_fn(A) -> Option<B>, x: B)
    ensures
        list.filter_map(f).contains(x) <==> exists|j: int|
            0 <= j < list.len() && f(#[trigger] list[j]) == Some(x),
    decreases list.len(),
{
    if list.len() > 0 {
        let front = list.drop_last();
        let n = list.len() - 1;
        lemma_picked(front, f, x);
        crate::list::lemma_pick_step(list, f, n);
        crate::list::lemma_pick_ends(list, f);
        assert(list.take(n) =~= front);
        assert(list.take(n + 1) =~= list);
        let before = front.filter_map(f);
        if before.contains(x) {
            let j = choose|j: int| 0 <= j < front.len() && f(#[trigger] front[j]) == Some(x);
            assert(list[j] == front[j]);
            let i = choose|i: int| 0 <= i < before.len() && before[i] == x;
            assert(list.filter_map(f)[i] == x);
        }
        if f(list[n]) == Some(x) {
            assert(list.filter_map(f)[before.len() as int] == x);
        }
        if list.filter_map(f).contains(x) {
            let all = list.filter_map(f);
            let i = choose|i: int| 0 <= i < all.len() && all[i] == x;
            if i < before.len() {
                assert(before[i] == x);
            } else {
                assert(f(list[n]) == Some(x));
            }
        }
        if exists|j: int| 0 <= j < list.len() && f(#[trigger] list[j]) == Some(x) {
            let j = choose|j: int| 0 <= j < list.len() && f(#[trigger] list[j]) == Some(x);
            if j < n {
                assert(front[j] == list[j]);
            }
        }
    }
}

/// A loopback socket is found under its address; one on another interface, or on
/// every interface, is not.
pub proof fn only_loopback_sockets_have_an_address(
    pid: u32,
    a: nat,
    b: nat,
    c: nat,
    d: nat,
    port: u16,
)
    requires
        a <= 255 && b <= 255 && c <= 255 && d <= 255,
    ensures
        ({
            let value = (a * 0x100_0000 + b * 0x1_0000 + c * 0x100 + d) as u32;
            let address = loopback_address(Listener { pid, ip: IpAddr::V4(value), port });
            &&& a == 127 ==> address == Some(
                crate::laws::addresses::dotted(a, b, c, d) + ":"@ + decimal(port as nat),
            )
            &&& a != 127 ==> address is None
        }),
        loopback_address(Listener { pid, ip: IpAddr::V6(1), port }) == Some(
            host_text(IpAddr::V6(1)) + ":"@ + decimal(port as nat),
        ),
        loopback_address(Listener { pid, ip: IpAddr::V6(0), port }) is None,
{
    crate::laws::addresses::dotted_numbers_are_addresses(a, b, c, d);
}

/// The processes of a run are listed in ascending order: each that belongs to it,
/// and no other.
pub proof fn owned_processes_are_all_listed(
    pids: Seq<i64>,
    table: Map<int, (int, int)>,
    root: int,
    pid: i64,
)
    requires
        owned_by(pids, table, root),
    ensures
        pids.contains(pid) <==> is_owned(
            table,
            if table.dom().contains(root) {
                table[root].1
            } else {
                root
            },
            pid as int,
        ),
        forall|i: int, j: int|
            0 <= i < j < pids.len() ==> #[trigger] pids[i] < #[trigger] pids[j],
        0 <= pid <= u32::MAX ==> pid_word(pid) == pid,
{
}

/// The fingerprint keeps, of each line about a listening socket, the address, the
/// uid and the inode; of any other line nothing.
pub proof fn fingerprints_keep_what_matters(columns: Seq<Seq<char>>)
    requires
        columns.len() >= 10,
        forall|i: int|
            0 <= i < columns.len() ==> (#[trigger] columns[i]).len() > 0 && no_white(columns[i]),
    ensures
        listen_entry(join(columns, " "@)) == (if columns[3] == "0A"@ {
            Some((columns[1], columns[7], columns[9]))
        } else {
            None
        }),
{
    joined_words_come_apart(columns);
}

} // verus!
