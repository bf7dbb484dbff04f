//! Finding the development server: which address becomes the target.

use crate::cli::Target;
use crate::discovery::{listener_parts, probe_text, target_among};
use crate::laws::bridge::{head_text, lemma_decimal_is_tight};
use crate::laws::texts::{split_last_at, split_once_at};
use crate::number::{decimal, decimal_reads_back};
use crate::order::{sort_by_keeps_items, sort_texts, text_order};
use crate::text::has_prefix;
use vstd::prelude::*;

verus! {

/// A listener's address comes apart into the host and the port that it was made
/// of, with brackets around the host or without.
pub proof fn listener_addresses_come_apart(host: Seq<char>, port: nat)
    requires
        port <= 0xffff_ffff,
        !host.contains(']'),
    ensures
        !(host.len() > 0 && host[0] == '[') ==> listener_parts(host + ":"@ + decimal(port)) == Ok::<
            (Seq<char>, nat),
            Seq<char>,
        >((host, port)),
        listener_parts("["@ + host + "]:"@ + decimal(port)) == Ok::<(Seq<char>, nat), Seq<char>>(
            (host, port),
        ),
{
    reveal_strlit(":");
    reveal_strlit("[");
    reveal_strlit("]:");
    let digits = decimal(port);
    lemma_decimal_is_tight(port);
    decimal_reads_back(port, 0xffff_ffff);
    let plain = host + ":"@ + digits;
    assert(plain =~= host + seq![':'] + digits);
    split_last_at(host, ':', digits);
    if host.len() > 0 {
        assert(plain[0] == host[0]);
    } else {
        assert(plain[0] == ':');
    }
    assert(plain.take(host.len() as int) =~= host);
    assert(plain.skip(host.len() as int + 1) =~= digits);
    let bracketed = "["@ + host + "]:"@ + digits;
    let inner = bracketed.skip(1);
    let after = seq![':'] + digits;
    assert(inner =~= host + seq![']'] + after);
    split_once_at(host, ']', after);
    assert(bracketed[0] == '[');
    assert(inner.take(host.len() as int) =~= host);
    assert(inner.skip(host.len() as int + 1) =~= after);
    assert(after.skip(1) =~= digits);
}

/// The one address that answered becomes the target, host and port as they are.
pub proof fn the_only_listener_is_the_target(host: Seq<char>, port: nat)
    requires
        port <= 65535,
        !host.contains(']'),
    ensures
        !(host.len() > 0 && host[0] == '[') ==> target_among(seq![host + ":"@ + decimal(port)])
            == Ok::<Option<Target>, Seq<char>>(Some(Target { host, port })),
        target_among(seq!["["@ + host + "]:"@ + decimal(port)]) == Ok::<
            Option<Target>,
            Seq<char>,
        >(Some(Target { host, port })),
{
    listener_addresses_come_apart(host, port);
    lemma_sort_one(host + ":"@ + decimal(port));
    lemma_sort_one("["@ + host + "]:"@ + decimal(port));
}

proof fn lemma_sort_one(address: Seq<char>)
    ensures
        sort_texts(seq![address]) == seq![address],
{
    let list = seq![address];
    reveal_with_fuel(crate::order::sort_by, 2);
    assert(list.drop_last() =~= Seq::<Seq<char>>::empty());
    assert(sort_texts(list) =~= list);
}

/// As long as nothing answered there is no target, and where several answered
/// none is picked: the choice is asked for.
pub proof fn no_listener_is_picked_among_several(responding: Seq<Seq<char>>)
    ensures
        responding.len() == 0 ==> target_among(responding) == Ok::<Option<Target>, Seq<char>>(None),
        responding.len() > 1 ==> (target_among(responding) matches Err(message) && has_prefix(
            message,
            "multiple child HTTP listeners found: "@,
        )),
{
    sort_by_keeps_items(responding, text_order());
    if responding.len() > 1 {
        let message = target_among(responding)->Err_0;
        let start = "multiple child HTTP listeners found: "@;
        assert(message.take(start.len() as int) =~= start);
    }
}

/// A listener is asked for its root under its own address.
pub proof fn probes_ask_for_the_root(address: Seq<char>)
    ensures
        probe_text(address) == head_text(
            "GET"@,
            "/"@,
            "HTTP/1.1"@,
            seq![("Host"@, address), ("Connection"@, "close"@)],
        ),
{
    reveal_strlit("GET");
    reveal_strlit("/");
    reveal_strlit(" ");
    reveal_strlit("HTTP/1.1");
    reveal_strlit("\r\n");
    reveal_strlit(": ");
    reveal_strlit("Host");
    reveal_strlit("Connection");
    reveal_strlit("close");
    reveal_strlit("GET / HTTP/1.1\r\nHost: ");
    reveal_strlit("\r\nConnection: close\r\n\r\n");
    let a = ("Host"@, address);
    let b = ("Connection"@, "close"@);
    crate::laws::bridge::lemma_written_sum(seq![a], seq![b]);
    crate::laws::bridge::lemma_written_one(a);
    crate::laws::bridge::lemma_written_one(b);
    assert(seq![a, b] =~= seq![a] + seq![b]);
    assert(probe_text(address) =~= head_text("GET"@, "/"@, "HTTP/1.1"@, seq![a, b]));
}

} // verus!
