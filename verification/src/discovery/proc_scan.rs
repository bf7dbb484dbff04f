//! Discovery on Linux, from the text of the kernel's process and socket tables.

use crate::bytes::{lossy, lossy_text};
use crate::discovery::{processes_of, Listener, Process, ProcessInfo};
use crate::ip::{format_host, host_text, IpAddr};
use crate::list::{lemma_pick_ends, lemma_pick_step, sorted_set, text_set};
use crate::number::{
    decimal, decimal_string, number_of, parse_decimal, parse_radix, parse_signed, signed_number,
    word_number,
};
use crate::order::{is_order, sort_by_is_ordered, sort_by_keeps_items, sort_vec};
use crate::text::{
    after_prefix, before_suffix, chars_of, is_white, join, join_strings, keyed_texts,
    lemma_rfind_to, lemma_word_end, lines, rfind, rfind_char, spells, split_first, split_lines,
    split_once, split_words, string_of, strip_prefix, strip_suffix, texts, trim_end, trimmed_end,
    views, word_end, words, words_from,
};
use std::collections::HashMap;
use vstd::prelude::*;
use vstd::slice::slice_subrange;

verus! {

// ---------------------------------------------------------------- processes

/// The pid, parent and group in a process's stat line. The name in parentheses
/// may itself hold spaces and parentheses, so the fields start behind the last
/// closing one.
pub open spec fn stat_of(text: Seq<char>) -> Option<(int, int, int)> {
    match rfind(text, ')') {
        None => None,
        Some(close) => {
            let before = words(text.take(close));
            let after = words(text.skip(close + 1));
            if before.len() > 0 && after.len() >= 3 {
                match (parse_signed(before[0]), parse_signed(after[1]), parse_signed(after[2])) {
                    (Some(pid), Some(ppid), Some(pgid)) => Some((pid, ppid, pgid)),
                    _ => None,
                }
            } else {
                None
            }
        },
    }
}

/// Extracts (pid, ppid, pgid) from a process's stat line.
pub fn stat_fields(text: &str) -> (r: Option<(i64, i64, i64)>)
    ensures
        match r {
            Some((pid, ppid, pgid)) => stat_of(text@) == Some(
                (pid as int, ppid as int, pgid as int),
            ),
            None => stat_of(text@) is None,
        },
{
    let chars: Vec<char> = chars_of(text);
    let n: usize = chars.len();
    proof {
        lemma_rfind_to(chars@, ')', chars@.len() as int);
    }
    let close: usize = match rfind_char(chars.as_slice(), ')') {
        Some(close) => close,
        None => return None,
    };
    let front: &[char] = slice_subrange(chars.as_slice(), 0, close);
    let back: &[char] = slice_subrange(chars.as_slice(), close + 1, n);
    assert(front@ =~= text@.take(close as int));
    assert(back@ =~= text@.skip(close + 1));
    let before: Vec<Vec<char>> = split_words(front);
    let after: Vec<Vec<char>> = split_words(back);
    assert(views(before@).len() == before@.len());
    assert(views(after@).len() == after@.len());
    if before.len() == 0 || after.len() < 3 {
        return None;
    }
    assert(views(before@)[0] == before@[0]@);
    assert(views(after@)[1] == after@[1]@);
    assert(views(after@)[2] == after@[2]@);
    let pid: i64 = match signed_number(before[0].as_slice()) {
        Some(v) => v,
        None => return None,
    };
    let ppid: i64 = match signed_number(after[1].as_slice()) {
        Some(v) => v,
        None => return None,
    };
    let pgid: i64 = match signed_number(after[2].as_slice()) {
        Some(v) => v,
        None => return None,
    };
    Some((pid, ppid, pgid))
}

/// The pids among the names in the process directory.
pub fn proc_pids(names: &Vec<String>) -> (r: Vec<u32>)
    ensures
        r@.map_values(|pid: u32| pid as nat) == texts(names@).filter_map(
            |name: Seq<char>| parse_decimal(name, 0xffff_ffff),
        ),
{
    let mut out: Vec<u32> = Vec::new();
    let ghost all = texts(names@);
    let ghost f = |name: Seq<char>| parse_decimal(name, 0xffff_ffff);
    let ghost show = |pid: u32| pid as nat;
    proof {
        lemma_pick_ends(all, f);
    }
    let mut i: usize = 0;
    assert(out@.map_values(show) =~= Seq::empty());
    while i < names.len()
        invariant
            i <= names@.len(),
            all == texts(names@),
            f == (|name: Seq<char>| parse_decimal(name, 0xffff_ffff)),
            show == (|pid: u32| pid as nat),
            out@.map_values(show) == all.take(i as int).filter_map(f),
        decreases names@.len() - i,
    {
        proof {
            lemma_pick_step(all, f, i as int);
        }
        let chars: Vec<char> = chars_of(names[i].as_str());
        match word_number(chars.as_slice()) {
            Some(pid) => {
                let ghost before = out@;
                out.push(pid);
                assert(out@.map_values(show) =~= before.map_values(show).push(pid as nat));
            },
            None => {},
        }
        i = i + 1;
    }
    out
}

/// Parent and group of each process, by its pid. A later stat line for a pid
/// replaces an earlier one.
pub open spec fn table_of(stats: Seq<Seq<char>>) -> Map<int, (int, int)>
    decreases stats.len(),
{
    if stats.len() == 0 {
        Map::empty()
    } else {
        match stat_of(stats.last()) {
            Some((pid, ppid, pgid)) => table_of(stats.drop_last()).insert(pid, (ppid, pgid)),
            None => table_of(stats.drop_last()),
        }
    }
}

/// The group of the process `root`; its own pid where it is not listed.
pub open spec fn group_of(table: Map<int, (int, int)>, root: int) -> int {
    if table.dom().contains(root) {
        table[root].1
    } else {
        root
    }
}

/// Whether a process is in `group`, or descends over at most `steps` parents
/// from one that is.
pub open spec fn owned_within(
    table: Map<int, (int, int)>,
    group: int,
    pid: int,
    steps: nat,
) -> bool
    decreases steps,
{
    table.dom().contains(pid) && (table[pid].1 == group || (steps > 0 && owned_within(
        table,
        group,
        table[pid].0,
        (steps - 1) as nat,
    )))
}

/// Whether a process is owned by the group: it is in it, or a descendant of one
/// that is.
pub open spec fn is_owned(table: Map<int, (int, int)>, group: int, pid: int) -> bool {
    exists|steps: nat| owned_within(table, group, pid, steps)
}

/// Whether `rows` lists `table`, each pid once.
pub open spec fn lists_table(rows: Seq<(i64, i64, i64)>, table: Map<int, (int, int)>) -> bool {
    &&& forall|i: int|
        0 <= i < rows.len() ==> table.dom().contains((#[trigger] rows[i]).0 as int)
            && table[rows[i].0 as int] == (rows[i].1 as int, rows[i].2 as int)
    &&& forall|pid: int| #[trigger] table.dom().contains(pid) ==> row_for(rows, pid)
    &&& forall|i: int, j: int|
        0 <= i < j < rows.len() ==> (#[trigger] rows[i]).0 != (#[trigger] rows[j]).0
}

/// Whether some row is about `pid`.
pub open spec fn row_for(rows: Seq<(i64, i64, i64)>, pid: int) -> bool {
    exists|i: int| 0 <= i < rows.len() && (#[trigger] rows[i]).0 == pid
}

fn find_row(rows: &Vec<(i64, i64, i64)>, pid: i64) -> (r: Option<usize>)
    ensures
        match r {
            Some(i) => i < rows@.len() && rows@[i as int].0 == pid,
            None => !row_for(rows@, pid as int),
        },
{
    let mut i: usize = 0;
    while i < rows.len()
        invariant
            i <= rows@.len(),
            forall|k: int| 0 <= k < i ==> (#[trigger] rows@[k]).0 != pid,
        decreases rows@.len() - i,
    {
        if rows[i].0 == pid {
            return Some(i);
        }
        i = i + 1;
    }
    None
}

fn read_table(stats: &Vec<String>) -> (r: Vec<(i64, i64, i64)>)
    ensures
        lists_table(r@, table_of(texts(stats@))),
{
    let mut rows: Vec<(i64, i64, i64)> = Vec::new();
    let ghost all = texts(stats@);
    let mut i: usize = 0;
    assert(all.take(0) =~= Seq::empty());
    while i < stats.len()
        invariant
            i <= stats@.len(),
            all == texts(stats@),
            lists_table(rows@, table_of(all.take(i as int))),
        decreases stats@.len() - i,
    {
        let ghost table = table_of(all.take(i as int));
        let ghost next = table_of(all.take(i + 1));
        assert(all.take(i + 1).drop_last() =~= all.take(i as int));
        assert(all.take(i + 1).last() == stats@[i as int]@);
        match stat_fields(stats[i].as_str()) {
            Some((pid, ppid, pgid)) => {
                let ghost before = rows@;
                match find_row(&rows, pid) {
                    Some(k) => {
                        rows.set(k, (pid, ppid, pgid));
                        proof {
                            assert forall|p: int| #[trigger] next.dom().contains(p) implies row_for(
                                rows@,
                                p,
                            ) by {
                                if p == pid {
                                    assert(rows@[k as int].0 == p);
                                } else {
                                    assert(table.dom().contains(p));
                                    let m = choose|m: int|
                                        0 <= m < before.len() && (#[trigger] before[m]).0 == p;
                                    assert(rows@[m].0 == p);
                                }
                            }
                            assert forall|a: int, b: int| 0 <= a < b < rows@.len() implies (
                            #[trigger] rows@[a]).0 != (#[trigger] rows@[b]).0 by {
                                assert(before[a].0 != before[b].0);
                            }
                            assert forall|a: int| 0 <= a < rows@.len() implies next.dom().contains(
                                (#[trigger] rows@[a]).0 as int,
                            ) && next[rows@[a].0 as int] == (rows@[a].1 as int, rows@[a].2 as int) by {
                                if a != k {
                                    assert(before[a].0 != before[k as int].0);
                                }
                            }
                        }
                    },
                    None => {
                        rows.push((pid, ppid, pgid));
                        proof {
                            assert forall|p: int| #[trigger] next.dom().contains(p) implies row_for(
                                rows@,
                                p,
                            ) by {
                                if p == pid {
                                    assert(rows@[before.len() as int].0 == p);
                                } else {
                                    assert(table.dom().contains(p));
                                    let m = choose|m: int|
                                        0 <= m < before.len() && (#[trigger] before[m]).0 == p;
                                    assert(rows@[m].0 == p);
                                }
                            }
                            assert forall|a: int| 0 <= a < before.len() implies (
                            #[trigger] before[a]).0 != pid by {
                                if before[a].0 == pid {
                                    assert(row_for(before, pid as int));
                                }
                            }
                        }
                    },
                }
            },
            None => {},
        }
        i = i + 1;
    }
    assert(all.take(i as int) =~= all);
    rows
}

/// How many flags are not set.
spec fn unset(flags: Seq<bool>) -> nat
    decreases flags.len(),
{
    if flags.len() == 0 {
        0
    } else {
        unset(flags.drop_last()) + if flags.last() {
            0nat
        } else {
            1nat
        }
    }
}

proof fn lemma_unset(flags: Seq<bool>, j: int)
    requires
        0 <= j < flags.len(),
        !flags[j],
    ensures
        unset(flags.update(j, true)) + 1 == unset(flags),
    decreases flags.len(),
{
    let set = flags.update(j, true);
    if j == flags.len() - 1 {
        assert(set.drop_last() =~= flags.drop_last());
    } else {
        assert(set.drop_last() =~= flags.drop_last().update(j, true));
        lemma_unset(flags.drop_last(), j);
    }
}

/// Every row whose parent is the row `i` is flagged.
spec fn children_set(rows: Seq<(i64, i64, i64)>, flags: Seq<bool>, i: int) -> bool {
    forall|j: int| 0 <= j < rows.len() && (#[trigger] rows[j]).1 == rows[i].0 ==> flags[j]
}

proof fn lemma_owned_flagged(
    rows: Seq<(i64, i64, i64)>,
    flags: Seq<bool>,
    table: Map<int, (int, int)>,
    group: int,
    i: int,
    steps: nat,
)
    requires
        lists_table(rows, table),
        flags.len() == rows.len(),
        forall|k: int| 0 <= k < rows.len() && (#[trigger] rows[k]).2 == group ==> flags[k],
        forall|k: int| 0 <= k < rows.len() && flags[k] ==> #[trigger] children_set(rows, flags, k),
        0 <= i < rows.len(),
        owned_within(table, group, rows[i].0 as int, steps),
    ensures
        flags[i],
    decreases steps,
{
    assert(table[rows[i].0 as int] == (rows[i].1 as int, rows[i].2 as int));
    if rows[i].2 != group {
        let parent = rows[i].1 as int;
        assert(owned_within(table, group, parent, (steps - 1) as nat));
        assert(row_for(rows, parent));
        let p = choose|p: int| 0 <= p < rows.len() && (#[trigger] rows[p]).0 == parent;
        lemma_owned_flagged(rows, flags, table, group, p, (steps - 1) as nat);
        assert(children_set(rows, flags, p));
    }
}

proof fn lemma_owned_child(
    table: Map<int, (int, int)>,
    group: int,
    parent: int,
    child: int,
)
    requires
        table.dom().contains(child),
        table[child].0 == parent,
        is_owned(table, group, parent),
    ensures
        is_owned(table, group, child),
{
    let steps = choose|steps: nat| owned_within(table, group, parent, steps);
    assert(owned_within(table, group, child, steps + 1));
}

/// Which rows are owned by the group.
fn owned_flags(rows: &Vec<(i64, i64, i64)>, group: i64, Ghost(table): Ghost<
    Map<int, (int, int)>,
>) -> (r: Vec<bool>)
    requires
        lists_table(rows@, table),
    ensures
        r@.len() == rows@.len(),
        forall|i: int|
            0 <= i < rows@.len() ==> (#[trigger] r@[i]) == is_owned(
                table,
                group as int,
                rows@[i].0 as int,
            ),
{
    let n: usize = rows.len();
    let mut flags: Vec<bool> = Vec::new();
    let mut frontier: Vec<usize> = Vec::new();
    let mut i: usize = 0;
    while i < n
        invariant
            i <= n,
            n == rows@.len(),
            flags@.len() == i,
            lists_table(rows@, table),
            forall|k: int| 0 <= k < i ==> (#[trigger] flags@[k]) == (rows@[k].2 == group),
            forall|k: int| 0 <= k < i && flags@[k] ==> frontier@.contains(k as usize),
            forall|k: int|
                0 <= k < frontier@.len() ==> (#[trigger] frontier@[k]) < i
                    && flags@[frontier@[k] as int],
        decreases n - i,
    {
        let inside: bool = rows[i].2 == group;
        let ghost old_flags = flags@;
        let ghost old_frontier = frontier@;
        flags.push(inside);
        if inside {
            frontier.push(i);
            assert(frontier@[old_frontier.len() as int] == i);
        }
        assert forall|k: int| 0 <= k < i + 1 && flags@[k] implies frontier@.contains(k as usize) by {
            if k < i {
                assert(old_flags[k]);
                let m = choose|m: int| 0 <= m < old_frontier.len() && old_frontier[m] == k as usize;
                assert(frontier@[m] == k as usize);
            }
        }
        assert forall|k: int| 0 <= k < frontier@.len() implies (#[trigger] frontier@[k]) < i + 1
            && flags@[frontier@[k] as int] by {
            if k < old_frontier.len() {
                assert(old_frontier[k] < i);
                assert(old_flags[old_frontier[k] as int]);
            }
        }
        i = i + 1;
    }
    assert forall|k: int| 0 <= k < n && flags@[k] implies is_owned(
        table,
        group as int,
        #[trigger] rows@[k].0 as int,
    ) by {
        assert(owned_within(table, group as int, rows@[k].0 as int, 0));
    }
    while frontier.len() > 0
        invariant
            n == rows@.len(),
            flags@.len() == n,
            lists_table(rows@, table),
            forall|k: int| 0 <= k < n && (#[trigger] rows@[k]).2 == group ==> flags@[k],
            forall|k: int|
                0 <= k < n && flags@[k] ==> is_owned(
                    table,
                    group as int,
                    #[trigger] rows@[k].0 as int,
                ),
            forall|k: int|
                0 <= k < n && flags@[k] && !frontier@.contains(k as usize)
                    ==> #[trigger] children_set(rows@, flags@, k),
            forall|k: int|
                0 <= k < frontier@.len() ==> (#[trigger] frontier@[k]) < n
                    && flags@[frontier@[k] as int],
        decreases unset(flags@), frontier@.len(),
    {
        let ghost whole = frontier@;
        let ghost start_unset = unset(flags@);
        let last: usize = frontier.len() - 1;
        let p: usize = frontier[last];
        frontier.pop();
        assert(whole =~= frontier@.push(p));
        assert forall|k: int|
            0 <= k < n && flags@[k] && k != p && !frontier@.contains(
                k as usize,
            ) implies #[trigger] children_set(rows@, flags@, k) by {
            if whole.contains(k as usize) {
                let m = choose|m: int| 0 <= m < whole.len() && whole[m] == k as usize;
                assert(m < frontier@.len());
                assert(frontier@[m] == k as usize);
            }
        }
        assert forall|k: int| 0 <= k < frontier@.len() implies (#[trigger] frontier@[k]) < n
            && flags@[frontier@[k] as int] by {
            assert(whole[k] < n && flags@[whole[k] as int]);
        }
        let mut j: usize = 0;
        while j < n
            invariant
                j <= n,
                n == rows@.len(),
                p < n,
                flags@.len() == n,
                lists_table(rows@, table),
                flags@[p as int],
                forall|k: int| 0 <= k < n && (#[trigger] rows@[k]).2 == group ==> flags@[k],
                forall|k: int|
                    0 <= k < n && flags@[k] ==> is_owned(
                        table,
                        group as int,
                        #[trigger] rows@[k].0 as int,
                    ),
                forall|k: int|
                    0 <= k < j && (#[trigger] rows@[k]).1 == rows@[p as int].0 ==> flags@[k],
                forall|k: int|
                    0 <= k < n && flags@[k] && k != p && !frontier@.contains(k as usize)
                        ==> #[trigger] children_set(rows@, flags@, k),
                forall|k: int|
                    0 <= k < frontier@.len() ==> (#[trigger] frontier@[k]) < n
                        && flags@[frontier@[k] as int],
                unset(flags@) <= start_unset,
                unset(flags@) == start_unset ==> frontier@.len() == whole.len() - 1,
            decreases n - j,
        {
            if rows[j].1 == rows[p].0 && !flags[j] {
                let ghost old_flags = flags@;
                let ghost old_frontier = frontier@;
                proof {
                    lemma_unset(flags@, j as int);
                    assert(table[rows@[j as int].0 as int].0 == rows@[p as int].0);
                    lemma_owned_child(
                        table,
                        group as int,
                        rows@[p as int].0 as int,
                        rows@[j as int].0 as int,
                    );
                }
                flags.set(j, true);
                frontier.push(j);
                proof {
                    assert(frontier@[old_frontier.len() as int] == j);
                    assert forall|k: int|
                        0 <= k < n && flags@[k] && k != p && !frontier@.contains(
                            k as usize,
                        ) implies #[trigger] children_set(rows@, flags@, k) by {
                        if k == j {
                            assert(frontier@.contains(k as usize));
                        } else {
                            assert(old_flags[k]);
                            if old_frontier.contains(k as usize) {
                                let m = choose|m: int|
                                    0 <= m < old_frontier.len() && old_frontier[m] == k as usize;
                                assert(frontier@[m] == k as usize);
                            }
                            assert(children_set(rows@, old_flags, k));
                        }
                    }
                    assert forall|k: int| 0 <= k < frontier@.len() implies (
                    #[trigger] frontier@[k]) < n && flags@[frontier@[k] as int] by {
                        if k < old_frontier.len() {
                            assert(old_frontier[k] < n && old_flags[old_frontier[k] as int]);
                        }
                    }
                }
            }
            j = j + 1;
        }
        assert(children_set(rows@, flags@, p as int));
    }
    proof {
        assert forall|k: int| 0 <= k < n && flags@[k] implies #[trigger] children_set(
            rows@,
            flags@,
            k,
        ) by {
            assert(!frontier@.contains(k as usize));
        }
        assert forall|k: int| 0 <= k < n implies (#[trigger] flags@[k]) == is_owned(
            table,
            group as int,
            rows@[k].0 as int,
        ) by {
            if is_owned(table, group as int, rows@[k].0 as int) {
                let steps = choose|steps: nat|
                    owned_within(table, group as int, rows@[k].0 as int, steps);
                lemma_owned_flagged(rows@, flags@, table, group as int, k, steps);
            }
        }
    }
    flags
}

/// The order of pids.
pub open spec fn pid_order() -> spec_fn(i64, i64) -> bool {
    |a: i64, b: i64| a <= b
}

fn pid_not_after(a: &i64, b: &i64) -> (r: bool)
    ensures
        r == (*a <= *b),
{
    *a <= *b
}

/// Whether `pids` lists the processes that `root` owns, in ascending order: its
/// process group and all descendants of that.
pub open spec fn owned_by(pids: Seq<i64>, table: Map<int, (int, int)>, root: int) -> bool {
    &&& forall|i: int, j: int|
        0 <= i < j < pids.len() ==> #[trigger] pids[i] < #[trigger] pids[j]
    &&& forall|pid: i64| #[trigger]
        pids.contains(pid) <==> is_owned(table, group_of(table, root), pid as int)
}

/// A pid's low 32 bits.
pub open spec fn pid_word(pid: i64) -> u32 {
    (pid as int % 0x1_0000_0000) as u32
}

fn owned_pids(stats: &Vec<String>, root: i64) -> (r: Vec<i64>)
    ensures
        owned_by(r@, table_of(texts(stats@)), root as int),
{
    let rows: Vec<(i64, i64, i64)> = read_table(stats);
    let ghost table = table_of(texts(stats@));
    let group: i64 = match find_row(&rows, root) {
        Some(i) => rows[i].2,
        None => root,
    };
    proof {
        if table.dom().contains(root as int) {
            assert(row_for(rows@, root as int));
        }
    }
    let flags: Vec<bool> = owned_flags(&rows, group, Ghost(table));
    let mut found: Vec<i64> = Vec::new();
    let mut i: usize = 0;
    while i < rows.len()
        invariant
            i <= rows@.len(),
            flags@.len() == rows@.len(),
            forall|k: int|
                0 <= k < found@.len() ==> row_flagged(rows@, flags@, i as int, #[trigger] found@[k]),
            forall|k: int|
                0 <= k < i && flags@[k] ==> found@.contains(#[trigger] rows@[k].0),
            forall|a: int, b: int|
                0 <= a < b < found@.len() ==> #[trigger] found@[a] != #[trigger] found@[b],
            forall|a: int, b: int|
                0 <= a < b < rows@.len() ==> (#[trigger] rows@[a]).0 != (#[trigger] rows@[b]).0,
        decreases rows@.len() - i,
    {
        let ghost before = found@;
        if flags[i] {
            found.push(rows[i].0);
            assert(found@[before.len() as int] == rows@[i as int].0);
        }
        proof {
            assert forall|k: int| 0 <= k < found@.len() implies row_flagged(
                rows@,
                flags@,
                i + 1,
                #[trigger] found@[k],
            ) by {
                if k < before.len() {
                    assert(row_flagged(rows@, flags@, i as int, before[k]));
                    let m = choose|m: int|
                        0 <= m < i && flags@[m] && (#[trigger] rows@[m]).0 == before[k];
                    assert(rows@[m].0 == found@[k]);
                } else {
                    assert(rows@[i as int].0 == found@[k]);
                }
            }
            assert forall|k: int| 0 <= k < i + 1 && flags@[k] implies found@.contains(
                #[trigger] rows@[k].0,
            ) by {
                if k < i {
                    let m = choose|m: int| 0 <= m < before.len() && before[m] == rows@[k].0;
                    assert(found@[m] == rows@[k].0);
                }
            }
            assert forall|a: int, b: int| 0 <= a < b < found@.len() implies #[trigger] found@[a]
                != #[trigger] found@[b] by {
                if b == before.len() {
                    assert(row_flagged(rows@, flags@, i as int, before[a]));
                    let m = choose|m: int|
                        0 <= m < i && flags@[m] && (#[trigger] rows@[m]).0 == before[a];
                    assert(rows@[m].0 != rows@[i as int].0);
                }
            }
        }
        i = i + 1;
    }
    let ghost unsorted = found@;
    let r: Vec<i64> = sort_vec(found, pid_not_after, Ghost(pid_order()));
    proof {
        let le = pid_order();
        assert(is_order(le));
        sort_by_is_ordered(unsorted, le);
        sort_by_keeps_items(unsorted, le);
        unsorted.to_multiset_ensures();
        r@.to_multiset_ensures();
        assert(unsorted.no_duplicates());
        unsorted.lemma_multiset_has_no_duplicates();
        r@.lemma_multiset_has_no_duplicates_conv();
        assert forall|a: int, b: int| 0 <= a < b < r@.len() implies #[trigger] r@[a]
            < #[trigger] r@[b] by {
            assert(le(r@[a], r@[b]));
            assert(r@[a] != r@[b]);
        }
        assert forall|pid: i64| #[trigger] r@.contains(pid) <==> is_owned(
            table,
            group_of(table, root as int),
            pid as int,
        ) by {
            assert(r@.contains(pid) <==> r@.to_multiset().count(pid) > 0);
            assert(unsorted.contains(pid) <==> unsorted.to_multiset().count(pid) > 0);
            if unsorted.contains(pid) {
                let k = choose|k: int| 0 <= k < unsorted.len() && unsorted[k] == pid;
                assert(row_flagged(rows@, flags@, rows@.len() as int, unsorted[k]));
                let m = choose|m: int|
                    0 <= m < rows@.len() && flags@[m] && (#[trigger] rows@[m]).0 == pid;
                assert(flags@[m] == is_owned(table, group as int, rows@[m].0 as int));
            }
            if is_owned(table, group_of(table, root as int), pid as int) {
                let steps = choose|steps: nat| owned_within(table, group as int, pid as int, steps);
                assert(table.dom().contains(pid as int));
                assert(row_for(rows@, pid as int));
                let m = choose|m: int| 0 <= m < rows@.len() && (#[trigger] rows@[m]).0 == pid;
                assert(flags@[m] == is_owned(table, group as int, rows@[m].0 as int));
                assert(unsorted.contains(rows@[m].0));
            }
        }
    }
    r
}

/// Whether `pid` is that of a flagged row before `n`.
spec fn row_flagged(rows: Seq<(i64, i64, i64)>, flags: Seq<bool>, n: int, pid: i64) -> bool {
    exists|m: int| 0 <= m < n && flags[m] && (#[trigger] rows[m]).0 == pid
}

/// Every process owned by the spawned child, from the stat lines of all
/// processes: its process group plus all ppid-descendants, which covers servers
/// that detach into new sessions.
pub fn owned_processes(root_pid: u32, stats: &Vec<String>) -> (r: Vec<u32>)
    ensures
        exists|pids: Seq<i64>| #[trigger]
            owned_by(pids, table_of(texts(stats@)), root_pid as int) && r@ == pids.map_values(
                |pid: i64| pid_word(pid),
            ),
{
    let pids: Vec<i64> = owned_pids(stats, root_pid as i64);
    let ghost f = |pid: i64| pid_word(pid);
    let mut out: Vec<u32> = Vec::new();
    let mut i: usize = 0;
    while i < pids.len()
        invariant
            i <= pids@.len(),
            f == (|pid: i64| pid_word(pid)),
            out@ == pids@.map_values(f).take(i as int),
        decreases pids@.len() - i,
    {
        let wide: i128 = (pids[i] as i128) + 0x1_0000_0000_0000_0000;
        let word: u32 = ((wide as u128) % 0x1_0000_0000) as u32;
        assert(word == pid_word(pids@[i as int]));
        out.push(word);
        i = i + 1;
        assert(pids@.map_values(f).take(i as int) =~= pids@.map_values(f).take(i - 1).push(word));
    }
    assert(pids@.map_values(f).take(i as int) =~= pids@.map_values(f));
    out
}

// ------------------------------------------------------------ process table

/// What the process directory says of one process; what cannot be read is left
/// out.
pub struct ProcEntry {
    pub pid: u32,
    pub stat: Option<String>,
    pub comm: Option<String>,
    pub cmdline: Option<Vec<u8>>,
}

/// Where a run of bytes other than zero that starts at `i` ends.
pub open spec fn run_end(s: Seq<u8>, i: int) -> int
    decreases s.len() - i,
{
    if 0 <= i < s.len() && s[i] != 0 {
        run_end(s, i + 1)
    } else {
        i
    }
}

/// A run ends no earlier than it starts.
pub proof fn lemma_run_end(s: Seq<u8>, i: int)
    requires
        0 <= i <= s.len(),
    ensures
        i <= run_end(s, i) <= s.len(),
        i < s.len() && s[i] != 0 ==> run_end(s, i) > i,
    decreases s.len() - i,
{
    if i < s.len() && s[i] != 0 {
        lemma_run_end(s, i + 1);
    }
}

/// The texts between zero bytes from `i` on, without empty ones.
pub open spec fn arguments_from(s: Seq<u8>, i: int) -> Seq<Seq<char>>
    decreases s.len() - i,
{
    if i < 0 || i >= s.len() {
        Seq::empty()
    } else if s[i] == 0 {
        arguments_from(s, i + 1)
    } else {
        proof {
            lemma_run_end(s, i);
        }
        seq![lossy_text(s.subrange(i, run_end(s, i)))] + arguments_from(s, run_end(s, i))
    }
}

/// A command line: its zero-separated arguments with spaces between them.
pub open spec fn command_line(bytes: Seq<u8>) -> Seq<char> {
    join(arguments_from(bytes, 0), " "@)
}

/// The process that an entry describes, where its stat line can be read and its
/// parent and group are pids.
pub open spec fn process_of(entry: ProcEntry) -> Option<Process> {
    match entry.stat {
        None => None,
        Some(stat) => match stat_of(stat@) {
            None => None,
            Some((_, ppid, pgid)) => if 0 <= ppid <= 0xffff_ffff && 0 <= pgid <= 0xffff_ffff {
                Some(
                    Process {
                        pid: entry.pid,
                        ppid: ppid as u32,
                        pgid: pgid as u32,
                        name: match entry.comm {
                            Some(text) => trim_end(text@),
                            None => ""@,
                        },
                        command: match entry.cmdline {
                            Some(bytes) => command_line(bytes@),
                            None => ""@,
                        },
                    },
                )
            } else {
                None
            },
        },
    }
}

fn read_command_line(bytes: &[u8]) -> (r: String)
    ensures
        r@ == command_line(bytes@),
{
    let mut parts: Vec<String> = Vec::new();
    let mut i: usize = 0;
    assert(texts(parts@) =~= Seq::empty());
    assert(texts(parts@) + arguments_from(bytes@, 0) =~= arguments_from(bytes@, 0));
    while i < bytes.len()
        invariant
            i <= bytes@.len(),
            texts(parts@) + arguments_from(bytes@, i as int) == arguments_from(bytes@, 0),
        decreases bytes@.len() - i,
    {
        if bytes[i] == 0 {
            i = i + 1;
        } else {
            let start: usize = i;
            while i < bytes.len() && bytes[i] != 0
                invariant
                    start <= i <= bytes@.len(),
                    run_end(bytes@, start as int) == run_end(bytes@, i as int),
                decreases bytes@.len() - i,
            {
                i = i + 1;
            }
            proof {
                lemma_run_end(bytes@, start as int);
            }
            let part: String = lossy(slice_subrange(bytes, start, i));
            let ghost before = parts@;
            let ghost shown = part@;
            parts.push(part);
            assert(texts(parts@) =~= texts(before).push(shown));
            assert(texts(before) + (seq![shown] + arguments_from(bytes@, i as int)) =~= texts(
                parts@,
            ) + arguments_from(bytes@, i as int));
        }
    }
    assert(arguments_from(bytes@, i as int) =~= Seq::empty());
    assert(texts(parts@) =~= arguments_from(bytes@, 0));
    join_strings(&parts, " ")
}

fn read_process(entry: &ProcEntry) -> (r: Option<ProcessInfo>)
    ensures
        match (r, process_of(*entry)) {
            (Some(process), Some(p)) => process@ == p,
            (None, None) => true,
            _ => false,
        },
{
    match &entry.stat {
        None => None,
        Some(stat) => match stat_fields(stat.as_str()) {
            None => None,
            Some((_, ppid, pgid)) => {
                if ppid < 0 || ppid > 0xffff_ffff || pgid < 0 || pgid > 0xffff_ffff {
                    return None;
                }
                let name: String = match &entry.comm {
                    Some(text) => {
                        let chars: Vec<char> = chars_of(text.as_str());
                        string_of(trimmed_end(chars.as_slice()))
                    },
                    None => "".to_owned(),
                };
                let command: String = match &entry.cmdline {
                    Some(bytes) => read_command_line(bytes.as_slice()),
                    None => "".to_owned(),
                };
                Some(
                    ProcessInfo {
                        pid: entry.pid,
                        ppid: ppid as u32,
                        pgid: pgid as u32,
                        name,
                        command,
                    },
                )
            },
        },
    }
}

/// Every visible process with its parent, group, name, and command line.
pub fn process_table(entries: &Vec<ProcEntry>) -> (r: Vec<ProcessInfo>)
    ensures
        processes_of(r@) == entries@.filter_map(|entry: ProcEntry| process_of(entry)),
{
    let mut out: Vec<ProcessInfo> = Vec::new();
    let ghost f = |entry: ProcEntry| process_of(entry);
    proof {
        lemma_pick_ends(entries@, f);
    }
    let mut i: usize = 0;
    assert(processes_of(out@) =~= Seq::empty());
    while i < entries.len()
        invariant
            i <= entries@.len(),
            f == (|entry: ProcEntry| process_of(entry)),
            processes_of(out@) == entries@.take(i as int).filter_map(f),
        decreases entries@.len() - i,
    {
        proof {
            lemma_pick_step(entries@, f, i as int);
        }
        match read_process(&entries[i]) {
            Some(process) => {
                let ghost before = out@;
                let ghost shown = process@;
                out.push(process);
                assert(processes_of(out@) =~= processes_of(before).push(shown));
            },
            None => {},
        }
        i = i + 1;
    }
    out
}

// ------------------------------------------------------------------ sockets

/// The inode of the socket that a file descriptor's link names.
pub open spec fn socket_inode(link: Seq<char>) -> Option<nat> {
    match strip_prefix(link, "socket:["@) {
        None => None,
        Some(rest) => match strip_suffix(rest, "]"@) {
            None => None,
            Some(inode) => parse_decimal(inode, 0xffff_ffff_ffff_ffff),
        },
    }
}

/// The pid that holds each socket inode; the first of several.
pub open spec fn owners_of(links: Seq<(u32, Seq<char>)>) -> Map<u64, u32>
    decreases links.len(),
{
    if links.len() == 0 {
        Map::empty()
    } else {
        let before = owners_of(links.drop_last());
        match socket_inode(links.last().1) {
            Some(inode) => if before.dom().contains(inode as u64) {
                before
            } else {
                before.insert(inode as u64, links.last().0)
            },
            None => before,
        }
    }
}

fn read_inode(link: &str) -> (r: Option<u64>)
    ensures
        match r {
            Some(inode) => socket_inode(link@) == Some(inode as nat),
            None => socket_inode(link@) is None,
        },
{
    let chars: Vec<char> = chars_of(link);
    match after_prefix(chars.as_slice(), "socket:[") {
        None => None,
        Some(rest) => match before_suffix(rest, "]") {
            None => None,
            Some(inode) => number_of(inode, 10, 0xffff_ffff_ffff_ffff),
        },
    }
}

/// Maps socket inodes to the pid holding them, from the links of each pid's file
/// descriptors.
pub fn socket_owners(links: &Vec<(u32, String)>) -> (r: HashMap<u64, u32>)
    ensures
        r@ == owners_of(keyed_texts(links@)),
{
    broadcast use vstd::std_specs::hash::group_hash_axioms;

    let mut owners: HashMap<u64, u32> = HashMap::new();
    let ghost all = keyed_texts(links@);
    let mut i: usize = 0;
    assert(all.take(0) =~= Seq::empty());
    while i < links.len()
        invariant
            i <= links@.len(),
            all == keyed_texts(links@),
            owners@ == owners_of(all.take(i as int)),
        decreases links@.len() - i,
    {
        assert(all.take(i + 1).drop_last() =~= all.take(i as int));
        assert(all.take(i + 1).last() == (links@[i as int].0, links@[i as int].1@));
        match read_inode(links[i].1.as_str()) {
            Some(inode) => {
                if !owners.contains_key(&inode) {
                    owners.insert(inode, links[i].0);
                }
            },
            None => {},
        }
        i = i + 1;
    }
    assert(all.take(i as int) =~= all);
    owners
}

/// The byte that two hexadecimal digits at `i` spell.
pub open spec fn hex_byte(text: Seq<char>, i: int) -> Option<nat> {
    parse_radix(text.subrange(i, i + 2), 16, 255)
}

/// The number of the four bytes at `i`, the lowest first.
pub open spec fn little_word(text: Seq<char>, i: int) -> Option<nat> {
    match (hex_byte(text, i), hex_byte(text, i + 2), hex_byte(text, i + 4), hex_byte(text, i + 6)) {
        (Some(a), Some(b), Some(c), Some(d)) => Some(
            a + 0x100 * b + 0x1_0000 * c + 0x100_0000 * d,
        ),
        _ => None,
    }
}

/// The address that the kernel's tables spell: IPv4 as the little-endian view of
/// the big-endian address, and IPv6 as four little-endian words.
pub open spec fn hex_address(text: Seq<char>) -> Option<IpAddr> {
    if text.len() == 8 {
        match little_word(text, 0) {
            Some(v) => Some(IpAddr::V4(v as u32)),
            None => None,
        }
    } else if text.len() == 32 {
        match (
            little_word(text, 0),
            little_word(text, 8),
            little_word(text, 16),
            little_word(text, 24),
        ) {
            (Some(a), Some(b), Some(c), Some(d)) => Some(
                IpAddr::V6(
                    (0x1_0000_0000_0000_0000_0000_0000 * a + 0x1_0000_0000_0000_0000 * b
                        + 0x1_0000_0000 * c + d) as u128,
                ),
            ),
            _ => None,
        }
    } else {
        None
    }
}

fn read_hex_byte(text: &[char], i: usize) -> (r: Option<u32>)
    requires
        i <= 30,
        i + 2 <= text@.len(),
    ensures
        match r {
            Some(v) => hex_byte(text@, i as int) == Some(v as nat) && v <= 255,
            None => hex_byte(text@, i as int) is None,
        },
{
    match number_of(slice_subrange(text, i, i + 2), 16, 255) {
        Some(v) => Some(v as u32),
        None => None,
    }
}

fn read_word(text: &[char], i: usize) -> (r: Option<u32>)
    requires
        i <= 24,
        i + 8 <= text@.len(),
    ensures
        match r {
            Some(v) => little_word(text@, i as int) == Some(v as nat),
            None => little_word(text@, i as int) is None,
        },
{
    let a: u32 = match read_hex_byte(text, i) {
        Some(v) => v,
        None => return None,
    };
    let b: u32 = match read_hex_byte(text, i + 2) {
        Some(v) => v,
        None => return None,
    };
    let c: u32 = match read_hex_byte(text, i + 4) {
        Some(v) => v,
        None => return None,
    };
    let d: u32 = match read_hex_byte(text, i + 6) {
        Some(v) => v,
        None => return None,
    };
    Some(a + 0x100 * b + 0x1_0000 * c + 0x100_0000 * d)
}

/// Reads an address of the kernel's socket tables.
pub fn parse_hex_address(text: &[char]) -> (r: Option<IpAddr>)
    ensures
        r == hex_address(text@),
{
    if text.len() == 8 {
        match read_word(text, 0) {
            Some(v) => Some(IpAddr::V4(v)),
            None => None,
        }
    } else if text.len() == 32 {
        let a: u32 = match read_word(text, 0) {
            Some(v) => v,
            None => return None,
        };
        let b: u32 = match read_word(text, 8) {
            Some(v) => v,
            None => return None,
        };
        let c: u32 = match read_word(text, 16) {
            Some(v) => v,
            None => return None,
        };
        let d: u32 = match read_word(text, 24) {
            Some(v) => v,
            None => return None,
        };
        Some(
            IpAddr::V6(
                0x1_0000_0000_0000_0000_0000_0000 * (a as u128) + 0x1_0000_0000_0000_0000 * (
                b as u128) + 0x1_0000_0000 * (c as u128) + (d as u128),
            ),
        )
    } else {
        None
    }
}

/// The lines of a table below its heading.
pub open spec fn table_lines(table: Seq<char>) -> Seq<Seq<char>> {
    if lines(table).len() == 0 {
        Seq::empty()
    } else {
        lines(table).skip(1)
    }
}

/// The columns of a line about a socket in the LISTEN state, which is 0A: slot,
/// local address, remote address, state, and further on the inode.
pub open spec fn listen_columns(line: Seq<char>) -> Option<Seq<Seq<char>>> {
    let columns = words(line);
    if columns.len() >= 10 && columns[3] == "0A"@ {
        Some(columns)
    } else {
        None
    }
}

/// The listening socket that a line describes, where one of `owners` holds it.
pub open spec fn socket_of(line: Seq<char>, owners: Map<u64, u32>) -> Option<Listener> {
    match listen_columns(line) {
        None => None,
        Some(columns) => match parse_decimal(columns[9], 0xffff_ffff_ffff_ffff) {
            None => None,
            Some(inode) => if !owners.dom().contains(inode as u64) {
                None
            } else {
                match split_once(columns[1], ':') {
                    None => None,
                    Some((address, port)) => match (parse_radix(port, 16, 65535), hex_address(
                        address,
                    )) {
                        (Some(number), Some(ip)) => Some(
                            Listener { pid: owners[inode as u64], ip, port: number as u16 },
                        ),
                        _ => None,
                    },
                }
            },
        },
    }
}

/// The listening sockets in `tables` that one of `owners` holds.
pub open spec fn sockets_of(tables: Seq<Seq<char>>, owners: Map<u64, u32>) -> Seq<Listener>
    decreases tables.len(),
{
    if tables.len() == 0 {
        Seq::empty()
    } else {
        sockets_of(tables.drop_last(), owners) + table_lines(tables.last()).filter_map(
            |line: Seq<char>| socket_of(line, owners),
        )
    }
}

fn columns_of(line: &[char]) -> (r: Option<Vec<Vec<char>>>)
    ensures
        match r {
            Some(columns) => listen_columns(line@) == Some(views(columns@)) && columns@.len() >= 10,
            None => listen_columns(line@) is None,
        },
{
    let columns: Vec<Vec<char>> = split_words(line);
    assert(views(columns@).len() == columns@.len());
    if columns.len() < 10 {
        return None;
    }
    assert(views(columns@)[3] == columns@[3]@);
    if spells(columns[3].as_slice(), "0A") {
        Some(columns)
    } else {
        None
    }
}

fn read_socket(line: &[char], owners: &HashMap<u64, u32>) -> (r: Option<Listener>)
    ensures
        r == socket_of(line@, owners@),
{
    broadcast use vstd::std_specs::hash::group_hash_axioms;

    let columns: Vec<Vec<char>> = match columns_of(line) {
        Some(columns) => columns,
        None => return None,
    };
    assert(views(columns@)[9] == columns@[9]@);
    assert(views(columns@)[1] == columns@[1]@);
    let inode: u64 = match number_of(columns[9].as_slice(), 10, 0xffff_ffff_ffff_ffff) {
        Some(inode) => inode,
        None => return None,
    };
    let pid: u32 = match owners.get(&inode) {
        Some(pid) => *pid,
        None => return None,
    };
    match split_first(columns[1].as_slice(), ':') {
        None => None,
        Some((address, port)) => match number_of(port, 16, 65535) {
            None => None,
            Some(number) => match parse_hex_address(address) {
                None => None,
                Some(ip) => Some(Listener { pid, ip, port: number as u16 }),
            },
        },
    }
}

fn rows_of(table: &str) -> (r: Vec<Vec<char>>)
    ensures
        views(r@) == table_lines(table@),
{
    let chars: Vec<char> = chars_of(table);
    let mut rows: Vec<Vec<char>> = split_lines(chars.as_slice());
    let ghost all = rows@;
    assert(views(all).len() == all.len());
    if rows.len() > 0 {
        rows.remove(0);
        assert(views(rows@) =~= views(all).skip(1));
    } else {
        assert(views(rows@) =~= Seq::empty());
    }
    rows
}

/// Every TCP socket in LISTEN state held by one of `owners`.
pub fn listening_sockets(owners: &HashMap<u64, u32>, tables: &Vec<String>) -> (r: Vec<Listener>)
    ensures
        r@ == sockets_of(texts(tables@), owners@),
{
    let mut out: Vec<Listener> = Vec::new();
    let ghost all = texts(tables@);
    let ghost f = |line: Seq<char>| socket_of(line, owners@);
    let mut t: usize = 0;
    assert(all.take(0) =~= Seq::empty());
    while t < tables.len()
        invariant
            t <= tables@.len(),
            all == texts(tables@),
            f == (|line: Seq<char>| socket_of(line, owners@)),
            out@ == sockets_of(all.take(t as int), owners@),
        decreases tables@.len() - t,
    {
        let rows: Vec<Vec<char>> = rows_of(tables[t].as_str());
        let ghost before = out@;
        let ghost shown = views(rows@);
        proof {
            lemma_pick_ends(shown, f);
            assert(before + shown.take(0).filter_map(f) =~= before);
        }
        let mut i: usize = 0;
        while i < rows.len()
            invariant
                i <= rows@.len(),
                shown == views(rows@),
                f == (|line: Seq<char>| socket_of(line, owners@)),
                out@ == before + shown.take(i as int).filter_map(f),
            decreases rows@.len() - i,
        {
            proof {
                lemma_pick_step(shown, f, i as int);
            }
            assert(shown[i as int] == rows@[i as int]@);
            match read_socket(rows[i].as_slice(), owners) {
                Some(listener) => {
                    out.push(listener);
                    assert(before + shown.take(i as int).filter_map(f).push(listener) =~= out@);
                },
                None => {},
            }
            i = i + 1;
        }
        assert(all.take(t + 1).drop_last() =~= all.take(t as int));
        assert(all.take(t + 1).last() == tables@[t as int]@);
        t = t + 1;
    }
    assert(all.take(t as int) =~= all);
    out
}

/// Every listening TCP socket held by a process this user can inspect.
pub fn all_listeners(links: &Vec<(u32, String)>, tables: &Vec<String>) -> (r: Vec<Listener>)
    ensures
        r@ == sockets_of(texts(tables@), owners_of(keyed_texts(links@))),
{
    let owners: HashMap<u64, u32> = socket_owners(links);
    listening_sockets(&owners, tables)
}

/// The address of a loopback listener. One that is bound to every interface
/// (0.0.0.0 / ::) listens on the network, and has none.
pub open spec fn loopback_address(listener: Listener) -> Option<Seq<char>> {
    if listener.ip.loopback() {
        Some(host_text(listener.ip) + ":"@ + decimal(listener.port as nat))
    } else {
        None
    }
}

/// Listening loopback sockets, not those on the network, held by the owned
/// processes, whose file descriptor links are given: each address once, in order.
pub fn loopback_listeners(links: &Vec<(u32, String)>, tables: &Vec<String>) -> (r: Vec<String>)
    ensures
        texts(r@) == text_set(
            sockets_of(texts(tables@), owners_of(keyed_texts(links@))).filter_map(
                |listener: Listener| loopback_address(listener),
            ),
        ),
{
    let listeners: Vec<Listener> = all_listeners(links, tables);
    let ghost f = |listener: Listener| loopback_address(listener);
    let mut out: Vec<String> = Vec::new();
    proof {
        lemma_pick_ends(listeners@, f);
    }
    let mut i: usize = 0;
    assert(texts(out@) =~= Seq::empty());
    while i < listeners.len()
        invariant
            i <= listeners@.len(),
            f == (|listener: Listener| loopback_address(listener)),
            texts(out@) == listeners@.take(i as int).filter_map(f),
        decreases listeners@.len() - i,
    {
        proof {
            lemma_pick_step(listeners@, f, i as int);
        }
        let listener: Listener = listeners[i];
        i = i + 1;
        if listener.ip.is_loopback() {
            let mut address: String = format_host(&listener.ip);
            address.append(":");
            let port: String = decimal_string(listener.port as u64);
            address.append(port.as_str());
            let ghost before = out@;
            let ghost shown = address@;
            out.push(address);
            assert(texts(out@) =~= texts(before).push(shown));
        }
    }
    sorted_set(out)
}

// ---------------------------------------------------------------- signature

/// What a line about a listening socket adds to the fingerprint.
pub open spec fn signature_line(line: Seq<char>) -> Seq<char> {
    match listen_columns(line) {
        Some(columns) => columns[1] + " "@ + columns[7] + " "@ + columns[9] + "\n"@,
        None => ""@,
    }
}

/// The fingerprint of the lines of a table.
pub open spec fn table_signature(rows: Seq<Seq<char>>) -> Seq<char>
    decreases rows.len(),
{
    if rows.len() == 0 {
        ""@
    } else {
        table_signature(rows.drop_last()) + signature_line(rows.last())
    }
}

/// The fingerprint of every LISTEN socket: address, uid and inode.
pub open spec fn signature_of(tables: Seq<Seq<char>>) -> Seq<char>
    decreases tables.len(),
{
    if tables.len() == 0 {
        ""@
    } else {
        signature_of(tables.drop_last()) + table_signature(table_lines(tables.last()))
    }
}

fn sign_table(table: &str) -> (r: String)
    ensures
        r@ == table_signature(table_lines(table@)),
{
    let rows: Vec<Vec<char>> = rows_of(table);
    let ghost all = views(rows@);
    let mut out: String = "".to_owned();
    let mut i: usize = 0;
    assert(all.take(0) =~= Seq::empty());
    while i < rows.len()
        invariant
            i <= rows@.len(),
            all == views(rows@),
            out@ == table_signature(all.take(i as int)),
        decreases rows@.len() - i,
    {
        assert(all.take(i + 1).drop_last() =~= all.take(i as int));
        assert(all.take(i + 1).last() == rows@[i as int]@);
        let mut line: String = "".to_owned();
        match columns_of(rows[i].as_slice()) {
            Some(columns) => {
                assert(views(columns@)[1] == columns@[1]@);
                assert(views(columns@)[7] == columns@[7]@);
                assert(views(columns@)[9] == columns@[9]@);
                line = string_of(columns[1].as_slice());
                line.append(" ");
                let uid: String = string_of(columns[7].as_slice());
                line.append(uid.as_str());
                line.append(" ");
                let inode: String = string_of(columns[9].as_slice());
                line.append(inode.as_str());
                line.append("\n");
            },
            None => {},
        }
        out.append(line.as_str());
        i = i + 1;
    }
    assert(all.take(i as int) =~= all);
    out
}

/// Cheap fingerprint of every LISTEN socket (address, uid, inode): two small
/// kernel tables, no per-process work. Equal fingerprints mean the full scan
/// would find the same listeners.
pub fn listen_signature(tables: &Vec<String>) -> (r: String)
    ensures
        r@ == signature_of(texts(tables@)),
{
    let ghost all = texts(tables@);
    let mut out: String = "".to_owned();
    let mut t: usize = 0;
    assert(all.take(0) =~= Seq::empty());
    while t < tables.len()
        invariant
            t <= tables@.len(),
            all == texts(tables@),
            out@ == signature_of(all.take(t as int)),
        decreases tables@.len() - t,
    {
        assert(all.take(t + 1).drop_last() =~= all.take(t as int));
        assert(all.take(t + 1).last() == tables@[t as int]@);
        let part: String = sign_table(tables[t].as_str());
        out.append(part.as_str());
        t = t + 1;
    }
    assert(all.take(t as int) =~= all);
    out
}

/// What the fingerprint keeps of a line: the address, the uid and the inode.
pub open spec fn listen_entry(line: Seq<char>) -> Option<(Seq<char>, Seq<char>, Seq<char>)> {
    match listen_columns(line) {
        Some(columns) => Some((columns[1], columns[7], columns[9])),
        None => None,
    }
}

/// What the fingerprint keeps of all tables.
pub open spec fn entries_of(tables: Seq<Seq<char>>) -> Seq<(Seq<char>, Seq<char>, Seq<char>)>
    decreases tables.len(),
{
    if tables.len() == 0 {
        Seq::empty()
    } else {
        entries_of(tables.drop_last()) + table_lines(tables.last()).filter_map(
            |line: Seq<char>| listen_entry(line),
        )
    }
}

spec fn encoded(entries: Seq<(Seq<char>, Seq<char>, Seq<char>)>) -> Seq<char>
    decreases entries.len(),
{
    if entries.len() == 0 {
        ""@
    } else {
        encoded(entries.drop_last()) + (entries.last().0 + " "@ + entries.last().1 + " "@
            + entries.last().2 + "\n"@)
    }
}

/// The socket of an address and an inode; the uid has no part in it.
spec fn entry_socket(entry: (Seq<char>, Seq<char>, Seq<char>), owners: Map<u64, u32>) -> Option<Listener> {
    match parse_decimal(entry.2, 0xffff_ffff_ffff_ffff) {
        None => None,
        Some(inode) => if !owners.dom().contains(inode as u64) {
            None
        } else {
            match split_once(entry.0, ':') {
                None => None,
                Some((address, port)) => match (parse_radix(port, 16, 65535), hex_address(address)) {
                    (Some(number), Some(ip)) => Some(
                        Listener { pid: owners[inode as u64], ip, port: number as u16 },
                    ),
                    _ => None,
                },
            }
        },
    }
}

spec fn clean(s: Seq<char>) -> bool {
    !s.contains(' ') && !s.contains('\n')
}

spec fn all_clean(entries: Seq<(Seq<char>, Seq<char>, Seq<char>)>) -> bool {
    forall|i: int|
        0 <= i < entries.len() ==> clean((#[trigger] entries[i]).0) && clean(entries[i].1) && clean(
            entries[i].2,
        )
}

proof fn lemma_words_clean(s: Seq<char>, i: int)
    requires
        0 <= i <= s.len(),
    ensures
        forall|k: int| 0 <= k < words_from(s, i).len() ==> clean(#[trigger] words_from(s, i)[k]),
    decreases s.len() - i,
{
    if i < s.len() {
        if is_white(s[i]) {
            lemma_words_clean(s, i + 1);
            assert(words_from(s, i) == words_from(s, i + 1));
        } else {
            lemma_word_end(s, i);
            let e = word_end(s, i);
            lemma_words_clean(s, e);
            let w = s.subrange(i, e);
            assert forall|j: int| 0 <= j < w.len() implies !is_white(#[trigger] w[j]) by {
                assert(w[j] == s[i + j]);
            }
            assert(clean(w));
            let rest = words_from(s, e);
            assert forall|k: int| 0 <= k < words_from(s, i).len() implies clean(
                #[trigger] words_from(s, i)[k],
            ) by {
                if k > 0 {
                    assert(words_from(s, i)[k] == rest[k - 1]);
                }
            }
        }
    }
}

proof fn lemma_pick_append<A, B>(a: Seq<A>, b: Seq<A>, f: spec_fn(A) -> Option<B>)
    ensures
        (a + b).filter_map(f) == a.filter_map(f) + b.filter_map(f),
    decreases b.len(),
{
    if b.len() == 0 {
        assert(a + b =~= a);
        assert(a.filter_map(f) + b.filter_map(f) =~= a.filter_map(f));
    } else {
        lemma_pick_append(a, b.drop_last(), f);
        assert((a + b).drop_last() =~= a + b.drop_last());
        assert((a + b).last() == b.last());
        assert((a + b).filter_map(f) =~= a.filter_map(f) + b.filter_map(f));
    }
}

/// A table's fingerprint and sockets both go by its entries alone.
proof fn lemma_table_entries(rows: Seq<Seq<char>>, owners: Map<u64, u32>)
    ensures
        table_signature(rows) == encoded(rows.filter_map(|line: Seq<char>| listen_entry(line))),
        rows.filter_map(|line: Seq<char>| socket_of(line, owners)) == rows.filter_map(
            |line: Seq<char>| listen_entry(line),
        ).filter_map(|entry: (Seq<char>, Seq<char>, Seq<char>)| entry_socket(entry, owners)),
        all_clean(rows.filter_map(|line: Seq<char>| listen_entry(line))),
    decreases rows.len(),
{
    let pick = |line: Seq<char>| listen_entry(line);
    let show = |entry: (Seq<char>, Seq<char>, Seq<char>)| entry_socket(entry, owners);
    let socket = |line: Seq<char>| socket_of(line, owners);
    reveal_strlit("");
    if rows.len() > 0 {
        let front = rows.drop_last();
        lemma_table_entries(front, owners);
        lemma_words_clean(rows.last(), 0);
        let kept = front.filter_map(pick);
        match listen_entry(rows.last()) {
            Some(entry) => {
                let all = kept + seq![entry];
                assert(rows.filter_map(pick) =~= all);
                assert(all.drop_last() =~= kept);
                assert(all.last() == entry);
                let columns = words(rows.last());
                assert(clean(columns[1]) && clean(columns[7]) && clean(columns[9]));
                lemma_pick_append(kept, seq![entry], show);
                assert(seq![entry].drop_last() =~= Seq::empty());
                assert(Seq::<(Seq<char>, Seq<char>, Seq<char>)>::empty().filter_map(show) =~= Seq::empty());
                match show(entry) {
                    Some(listener) => {
                        assert(seq![entry].filter_map(show) =~= seq![listener]);
                        assert(rows.filter_map(socket) =~= front.filter_map(socket) + seq![
                            listener,
                        ]);
                    },
                    None => {
                        assert(seq![entry].filter_map(show) =~= Seq::empty());
                        assert(front.filter_map(socket) + Seq::<Listener>::empty()
                            =~= front.filter_map(socket));
                    },
                }
                assert(signature_line(rows.last()) =~= entry.0 + " "@ + entry.1 + " "@ + entry.2
                    + "\n"@);
            },
            None => {
                assert(rows.filter_map(pick) =~= kept);
                assert(table_signature(front) + ""@ =~= table_signature(front));
            },
        }
    }
}

proof fn lemma_encoded_append(a: Seq<(Seq<char>, Seq<char>, Seq<char>)>, b: Seq<(Seq<char>, Seq<char>, Seq<char>)>)
    ensures
        encoded(a + b) == encoded(a) + encoded(b),
    decreases b.len(),
{
    reveal_strlit("");
    if b.len() == 0 {
        assert(a + b =~= a);
        assert(encoded(a) + encoded(b) =~= encoded(a));
    } else {
        lemma_encoded_append(a, b.drop_last());
        assert((a + b).drop_last() =~= a + b.drop_last());
        assert((a + b).last() == b.last());
        assert(encoded(a + b) =~= encoded(a) + encoded(b));
    }
}

proof fn lemma_entries(tables: Seq<Seq<char>>, owners: Map<u64, u32>)
    ensures
        signature_of(tables) == encoded(entries_of(tables)),
        sockets_of(tables, owners) == entries_of(tables).filter_map(
            |entry: (Seq<char>, Seq<char>, Seq<char>)| entry_socket(entry, owners),
        ),
        all_clean(entries_of(tables)),
    decreases tables.len(),
{
    let pick = |line: Seq<char>| listen_entry(line);
    let show = |entry: (Seq<char>, Seq<char>, Seq<char>)| entry_socket(entry, owners);
    if tables.len() > 0 {
        let front = tables.drop_last();
        lemma_entries(front, owners);
        let rows = table_lines(tables.last());
        lemma_table_entries(rows, owners);
        lemma_encoded_append(entries_of(front), rows.filter_map(pick));
        lemma_pick_append(entries_of(front), rows.filter_map(pick), show);
    }
}

proof fn lemma_encoded_ends(entries: Seq<(Seq<char>, Seq<char>, Seq<char>)>)
    requires
        entries.len() > 0,
    ensures
        encoded(entries).len() > 0,
        encoded(entries).last() == '\n',
{
    reveal_strlit("\n");
    let tail = entries.last().0 + " "@ + entries.last().1 + " "@ + entries.last().2 + "\n"@;
    assert(tail.last() == '\n');
    assert(encoded(entries).last() == tail.last());
}

/// A text falls apart at its last `c` in one way.
proof fn lemma_last_word(p: Seq<char>, x: Seq<char>, q: Seq<char>, y: Seq<char>, c: char)
    requires
        !x.contains(c),
        !y.contains(c),
        p + seq![c] + x == q + seq![c] + y,
    ensures
        p == q,
        x == y,
{
    let whole = p + seq![c] + x;
    let other = q + seq![c] + y;
    let i = p.len() as int;
    let j = q.len() as int;
    assert(whole[i] == c);
    assert(other[j] == c);
    assert(whole.len() == i + 1 + x.len() && other.len() == j + 1 + y.len());
    if i < j {
        assert(whole[j] == x[j - i - 1]);
    }
    if j < i {
        assert(other[i] == y[i - j - 1]);
    }
    assert(p =~= whole.take(i));
    assert(q =~= other.take(j));
    assert(x =~= whole.skip(i + 1));
    assert(y =~= other.skip(j + 1));
}

/// A text that consists of whole lines and a piece of one does so in one way.
proof fn lemma_last_line(p: Seq<char>, x: Seq<char>, q: Seq<char>, y: Seq<char>)
    requires
        p.len() > 0 ==> p.last() == '\n',
        q.len() > 0 ==> q.last() == '\n',
        !x.contains('\n'),
        !y.contains('\n'),
        p + x == q + y,
    ensures
        p == q,
        x == y,
{
    let whole = p + x;
    let other = q + y;
    let i = p.len() as int;
    let j = q.len() as int;
    if i < j {
        assert(other[j - 1] == q.last());
        assert(whole[j - 1] == x[j - 1 - i]);
    }
    if j < i {
        assert(whole[i - 1] == p.last());
        assert(other[i - 1] == y[i - 1 - j]);
    }
    assert(p =~= whole.take(i));
    assert(q =~= other.take(j));
    assert(x =~= whole.skip(i));
    assert(y =~= other.skip(j));
}

proof fn lemma_encoded_injective(
    a: Seq<(Seq<char>, Seq<char>, Seq<char>)>,
    b: Seq<(Seq<char>, Seq<char>, Seq<char>)>,
)
    requires
        all_clean(a),
        all_clean(b),
        encoded(a) == encoded(b),
    ensures
        a == b,
    decreases a.len(),
{
    reveal_strlit("");
    reveal_strlit(" ");
    reveal_strlit("\n");
    if a.len() == 0 {
        if b.len() > 0 {
            lemma_encoded_ends(b);
        }
        assert(a =~= b);
    } else if b.len() == 0 {
        lemma_encoded_ends(a);
    } else {
        let x = a.last();
        let y = b.last();
        let front_a = encoded(a.drop_last());
        let front_b = encoded(b.drop_last());
        assert(a[a.len() - 1] == x && b[b.len() - 1] == y);
        assert(clean(x.0) && clean(x.1) && clean(x.2) && clean(y.0) && clean(y.1) && clean(y.2));
        let pa = front_a + x.0 + seq![' '] + x.1;
        let pb = front_b + y.0 + seq![' '] + y.1;
        assert(encoded(a).drop_last() =~= pa + seq![' '] + x.2);
        assert(encoded(b).drop_last() =~= pb + seq![' '] + y.2);
        lemma_last_word(pa, x.2, pb, y.2, ' ');
        lemma_last_word(front_a + x.0, x.1, front_b + y.0, y.1, ' ');
        lemma_front_ends(a);
        lemma_front_ends(b);
        lemma_last_line(front_a, x.0, front_b, y.0);
        assert(all_clean(a.drop_last())) by {
            assert forall|i: int| 0 <= i < a.drop_last().len() implies clean(
                (#[trigger] a.drop_last()[i]).0,
            ) && clean(a.drop_last()[i].1) && clean(a.drop_last()[i].2) by {
                assert(a.drop_last()[i] == a[i]);
            }
        }
        assert(all_clean(b.drop_last())) by {
            assert forall|i: int| 0 <= i < b.drop_last().len() implies clean(
                (#[trigger] b.drop_last()[i]).0,
            ) && clean(b.drop_last()[i].1) && clean(b.drop_last()[i].2) by {
                assert(b.drop_last()[i] == b[i]);
            }
        }
        lemma_encoded_injective(a.drop_last(), b.drop_last());
        assert(a =~= a.drop_last().push(x));
        assert(b =~= b.drop_last().push(y));
    }
}

proof fn lemma_front_ends(entries: Seq<(Seq<char>, Seq<char>, Seq<char>)>)
    requires
        entries.len() > 0,
    ensures
        encoded(entries.drop_last()).len() > 0 ==> encoded(entries.drop_last()).last() == '\n',
{
    reveal_strlit("");
    if entries.drop_last().len() > 0 {
        lemma_encoded_ends(entries.drop_last());
    }
}

/// Equal fingerprints mean the same addresses, uids and inodes, and that the full
/// scan finds the same listeners, as long as the same processes hold the sockets.
pub proof fn equal_signatures_mean_equal_listeners(
    a: Seq<Seq<char>>,
    b: Seq<Seq<char>>,
    owners: Map<u64, u32>,
)
    requires
        signature_of(a) == signature_of(b),
    ensures
        entries_of(a) == entries_of(b),
        sockets_of(a, owners) == sockets_of(b, owners),
{
    lemma_entries(a, owners);
    lemma_entries(b, owners);
    lemma_encoded_injective(entries_of(a), entries_of(b));
}

/// The fingerprint depends on nothing but the addresses, uids and inodes of the
/// listening sockets: as long as these stay, it stays.
pub proof fn signatures_change_with_the_listeners_alone(a: Seq<Seq<char>>, b: Seq<Seq<char>>)
    requires
        entries_of(a) == entries_of(b),
    ensures
        signature_of(a) == signature_of(b),
{
    lemma_entries(a, Map::empty());
    lemma_entries(b, Map::empty());
}

} // verus!
