//! The command line: what each flag sets, and which targets are taken.

use crate::cli::{
    authority_ends, canonical_host, choose_flag, config_of, lemma_loopback_chars, loopback_host,
    next_step, no_choices, scan_flags, target_of, Choices, Outcome, Target, Token,
};
use crate::duration::duration_of;
use crate::laws::bridge::lemma_decimal_is_tight;
use crate::laws::texts::{
    before_the_first_of, split_last_at, split_nowhere, split_once_at, stripping_undoes_putting,
};
use crate::number::{decimal, decimal_reads_back, digit_value, lemma_radix_roundtrip};
use crate::text::{
    before_any, find, has_prefix, has_suffix, lower_text, strip_prefix, trim_start_char,
};
use vstd::prelude::*;

verus! {

// ------------------------------------------------------------------ targets

/// A host that is written as it is kept: a loopback host in lower case, with no
/// trailing dot.
pub open spec fn plain_host(host: Seq<char>) -> bool {
    loopback_host(host) && lower_text(host) == host && host.len() > 0 && host.last() != '.'
}

proof fn lemma_plain(host: Seq<char>)
    requires
        plain_host(host),
    ensures
        canonical_host(host) == host,
        forall|i: int|
            0 <= i < host.len() ==> !authority_ends().contains(#[trigger] host[i]) && host[i]
                != '@',
{
    reveal_strlit(".");
    if has_suffix(host, "."@) {
        assert(host.skip(host.len() - 1)[0] == host.last());
    }
    assert forall|i: int| 0 <= i < host.len() implies !authority_ends().contains(
        #[trigger] host[i],
    ) && host[i] != '@' by {
        lemma_loopback_chars(host, i);
    }
}

proof fn lemma_not_an_end(c: char)
    requires
        c != '/' && c != '?' && c != '#',
    ensures
        !authority_ends().contains(c),
{
    let ends = authority_ends();
    if ends.contains(c) {
        let k = choose|k: int| 0 <= k < ends.len() && ends[k] == c;
        assert(k == 0 || k == 1 || k == 2);
    }
}

/// The part of a URL up to its path, where no character of it ends it.
proof fn lemma_authority(authority: Seq<char>, path: Seq<char>)
    requires
        forall|i: int|
            0 <= i < authority.len() ==> !authority_ends().contains(#[trigger] authority[i]),
        path.len() == 0 || path[0] == '/' || path[0] == '?' || path[0] == '#',
    ensures
        strip_prefix("http://"@ + authority + path, "http://"@) == Some(authority + path),
        before_any(authority + path, authority_ends()) == authority,
        (authority + path).skip(authority.len() as int) == path,
{
    let ends = authority_ends();
    assert(ends[0] == '/' && ends[1] == '?' && ends[2] == '#');
    assert(path.len() > 0 ==> ends.contains(path[0]));
    before_the_first_of(authority, ends, path);
    stripping_undoes_putting("http://"@, authority + path);
    assert("http://"@ + (authority + path) =~= "http://"@ + authority + path);
    assert((authority + path).skip(authority.len() as int) =~= path);
}

/// A loopback URL names its host and its port, 80 where it has none; a path of
/// one slash does not matter, and an IPv6 address stands in brackets.
pub proof fn loopback_urls_are_targets(host: Seq<char>, port: nat, slash: Seq<char>)
    requires
        plain_host(host),
        1 <= port <= 65535,
        slash.len() == 0 || slash == "/"@,
    ensures
        !host.contains(':') && host[0] != '[' ==> {
            &&& target_of("http://"@ + host + ":"@ + decimal(port) + slash) == Ok::<
                Target,
                Seq<char>,
            >(Target { host, port })
            &&& target_of("http://"@ + host + slash) == Ok::<Target, Seq<char>>(
                Target { host, port: 80 },
            )
        },
        !host.contains(']') ==> target_of("http://["@ + host + "]:"@ + decimal(port) + slash)
            == Ok::<Target, Seq<char>>(Target { host, port }),
{
    reveal_strlit("/");
    lemma_plain(host);
    let value = "http://"@ + host + ":"@ + decimal(port) + slash;
    if !host.contains(':') && host[0] != '[' {
        lemma_plain_target(host, port, slash);
    }
    if !host.contains(']') {
        lemma_bracketed_target(host, port, slash);
    }
}

proof fn lemma_port(port: nat)
    requires
        1 <= port <= 65535,
    ensures
        decimal(port) != "0"@,
        !decimal(port).contains(':'),
        crate::number::parse_decimal(decimal(port), 65535) == Some(port),
        forall|i: int|
            0 <= i < decimal(port).len() ==> !authority_ends().contains(#[trigger] decimal(port)[i])
                && decimal(port)[i] != '@',
{
    reveal_strlit("0");
    lemma_radix_roundtrip(port, 10);
    lemma_decimal_is_tight(port);
    decimal_reads_back(port, 65535);
    let digits = decimal(port);
    if digits == "0"@ {
        assert(digits[0] == '0');
    }
    assert forall|i: int| 0 <= i < digits.len() implies !authority_ends().contains(
        #[trigger] digits[i],
    ) && digits[i] != '@' by {
        assert(digit_value(digits[i], 10) is Some);
        lemma_not_an_end(digits[i]);
    }
}

proof fn lemma_plain_target(host: Seq<char>, port: nat, slash: Seq<char>)
    requires
        plain_host(host),
        1 <= port <= 65535,
        slash.len() == 0 || slash == "/"@,
        !host.contains(':'),
        host[0] != '[',
    ensures
        target_of("http://"@ + host + ":"@ + decimal(port) + slash) == Ok::<Target, Seq<char>>(
            Target { host, port },
        ),
        target_of("http://"@ + host + slash) == Ok::<Target, Seq<char>>(Target { host, port: 80 }),
{
    reveal_strlit("/");
    reveal_strlit(":");
    lemma_plain(host);
    lemma_port(port);
    let digits = decimal(port);
    let authority = host + ":"@ + digits;
    assert(authority =~= host + seq![':'] + digits);
    assert forall|i: int| 0 <= i < authority.len() implies !authority_ends().contains(
        #[trigger] authority[i],
    ) && authority[i] != '@' by {
        if i < host.len() {
            assert(authority[i] == host[i]);
        } else if i == host.len() {
            lemma_not_an_end(':');
        } else {
            assert(authority[i] == digits[i - host.len() - 1]);
        }
    }
    lemma_authority(authority, slash);
    assert("http://"@ + host + ":"@ + digits + slash =~= "http://"@ + authority + slash);
    split_last_at(host, ':', digits);
    assert(authority[0] == host[0]);
    assert(authority.take(host.len() as int) =~= host);
    assert(authority.skip(host.len() as int + 1) =~= digits);
    assert(!authority.contains('@'));
    lemma_authority(host, slash);
    assert(!host.contains('@'));
    split_nowhere(host, ':');
    crate::text::lemma_rfind_to(host, ':', host.len() as int);
}

#[verifier::rlimit(40)]
proof fn lemma_bracketed_target(host: Seq<char>, port: nat, slash: Seq<char>)
    requires
        plain_host(host),
        1 <= port <= 65535,
        slash.len() == 0 || slash == "/"@,
        !host.contains(']'),
    ensures
        target_of("http://["@ + host + "]:"@ + decimal(port) + slash) == Ok::<Target, Seq<char>>(
            Target { host, port },
        ),
{
    reveal_strlit("/");
    reveal_strlit("]:");
    reveal_strlit("http://");
    reveal_strlit("http://[");
    lemma_plain(host);
    lemma_port(port);
    let digits = decimal(port);
    let authority = seq!['['] + host + "]:"@ + digits;
    assert forall|i: int| 0 <= i < authority.len() implies !authority_ends().contains(
        #[trigger] authority[i],
    ) && authority[i] != '@' by {
        if i == 0 {
            lemma_not_an_end('[');
        } else if i <= host.len() {
            assert(authority[i] == host[i - 1]);
        } else if i == host.len() + 1 {
            lemma_not_an_end(']');
        } else if i == host.len() + 2 {
            lemma_not_an_end(':');
        } else {
            assert(authority[i] == digits[i - host.len() - 3]);
        }
    }
    lemma_authority(authority, slash);
    assert("http://["@ + host + "]:"@ + digits + slash =~= "http://"@ + authority + slash);
    assert(!authority.contains('@'));
    let inner = authority.skip(1);
    let after = seq![':'] + digits;
    assert(inner =~= host + seq![']'] + after);
    split_once_at(host, ']', after);
    assert(inner.take(host.len() as int) =~= host);
    assert(inner.skip(host.len() as int + 1) =~= after);
    assert(after.skip(1) =~= digits);
}

/// A target of another scheme, with credentials, with a path, a query or a
/// fragment, or on a host that is not the loopback, is refused; so is port zero.
#[verifier::rlimit(40)]
pub proof fn other_targets_are_refused(
    value: Seq<char>,
    authority: Seq<char>,
    path: Seq<char>,
    host: Seq<char>,
    port: nat,
    over: nat,
)
    requires
        forall|i: int|
            0 <= i < authority.len() ==> !authority_ends().contains(#[trigger] authority[i]),
        path.len() == 0 || path[0] == '/' || path[0] == '?' || path[0] == '#',
        forall|i: int| 0 <= i < host.len() ==> !authority_ends().contains(#[trigger] host[i]),
        host.len() > 0 && host[0] != '[',
        1 <= port <= 65535,
    ensures
        ({
            let message =
                "target must be a loopback HTTP URL without credentials, path, query, or fragment"@;
            &&& !has_prefix(value, "http://"@) ==> target_of(value) == Err::<Target, Seq<char>>(
                message,
            )
            &&& (path.len() > 0 && path != "/"@) || authority.len() == 0 || authority.contains('@')
                ==> target_of("http://"@ + authority + path) == Err::<Target, Seq<char>>(message)
            &&& !loopback_host(canonical_host(host)) ==> target_of(
                "http://"@ + host + ":"@ + decimal(port),
            ) == Err::<Target, Seq<char>>(message)
            &&& target_of("http://"@ + host + ":0"@) is Err
            &&& over > 65535 ==> target_of("http://"@ + host + ":"@ + decimal(over)) is Err
        }),
{
    reveal_strlit("/");
    reveal_strlit(":");
    reveal_strlit(":0");
    reveal_strlit("0");
    lemma_authority(authority, path);
    lemma_port(port);
    let digits = decimal(port);
    lemma_radix_roundtrip(port, 10);
    assert forall|i: int| 0 <= i < digits.len() implies ('0' <= #[trigger] digits[i] <= '9') by {
        assert(digit_value(digits[i], 10) is Some);
    }
    lemma_host_refused(host, digits);
    lemma_host_refused(host, "0"@);
    let large = decimal(over);
    lemma_radix_roundtrip(over, 10);
    assert forall|i: int| 0 <= i < large.len() implies ('0' <= #[trigger] large[i] <= '9') by {
        assert(digit_value(large[i], 10) is Some);
    }
    lemma_host_refused(host, large);
    assert("http://"@ + (host + ":"@ + large) =~= "http://"@ + host + ":"@ + large);
    assert(host + ":"@ + "0"@ =~= host + ":0"@);
    assert("http://"@ + (host + ":"@ + "0"@) =~= "http://"@ + host + ":0"@);
    assert("http://"@ + (host + ":"@ + digits) =~= "http://"@ + host + ":"@ + digits);
}

proof fn lemma_host_refused(host: Seq<char>, digits: Seq<char>)
    requires
        forall|i: int| 0 <= i < host.len() ==> !authority_ends().contains(#[trigger] host[i]),
        forall|i: int|
            0 <= i < digits.len() ==> ('0' <= #[trigger] digits[i] <= '9'),
        host.len() > 0 && host[0] != '[',
    ensures
        digits != "0"@ && crate::number::parse_decimal(digits, 65535) is Some && !loopback_host(
            canonical_host(host),
        ) ==> target_of("http://"@ + (host + ":"@ + digits)) == Err::<Target, Seq<char>>(
            crate::cli::target_rejected(),
        ),
        digits == "0"@ || crate::number::parse_decimal(digits, 65535) is None ==> target_of(
            "http://"@ + (host + ":"@ + digits),
        ) is Err,
{
    reveal_strlit(":");
    let none = Seq::<char>::empty();
    let authority = host + ":"@ + digits;
    assert forall|i: int| 0 <= i < authority.len() implies !authority_ends().contains(
        #[trigger] authority[i],
    ) by {
        if i < host.len() {
            assert(authority[i] == host[i]);
        } else if i == host.len() {
            lemma_not_an_end(':');
        } else {
            assert(authority[i] == digits[i - host.len() - 1]);
            lemma_not_an_end(authority[i]);
        }
    }
    lemma_authority(authority, none);
    assert("http://"@ + authority + none =~= "http://"@ + authority);
    assert(authority + none =~= authority);
    assert(authority =~= host + seq![':'] + digits);
    assert(!digits.contains(':')) by {
        if digits.contains(':') {
            let k = choose|k: int| 0 <= k < digits.len() && digits[k] == ':';
        }
    }
    split_last_at(host, ':', digits);
    assert(authority[0] == host[0]);
    assert(authority.take(host.len() as int) =~= host);
    assert(authority.skip(host.len() as int + 1) =~= digits);
}

// -------------------------------------------------------------------- flags

/// A name that a flag can have.
pub open spec fn flag_name(name: Seq<char>) -> bool {
    name.len() > 0 && name[0] != '-' && !name.contains('=')
}

/// A dash or more.
pub open spec fn dashes(count: nat) -> Seq<char> {
    Seq::new(count, |i: int| '-')
}

/// A flag has its value behind an equals sign or in the next argument; version
/// and help need none. The flags end at the first argument that is none, or
/// behind two dashes.
pub proof fn flags_come_with_their_value(
    args: Seq<Seq<char>>,
    i: int,
    count: nat,
    name: Seq<char>,
    value: Seq<char>,
)
    requires
        0 <= i < args.len(),
        count > 0,
        flag_name(name),
    ensures
        ({
            let alone = name == "version"@ || name == "help"@ || name == "h"@;
            &&& args[i] == dashes(count) + name + "="@ + value ==> next_step(args, i) == Ok::<
                (Token, int),
                Seq<char>,
            >((Token::Flag(name, value), i + 1))
            &&& args[i] == dashes(count) + name && alone ==> next_step(args, i) == Ok::<
                (Token, int),
                Seq<char>,
            >((Token::Flag(name, "true"@), i + 1))
            &&& args[i] == dashes(count) + name && !alone && i + 1 < args.len() ==> next_step(
                args,
                i,
            ) == Ok::<(Token, int), Seq<char>>((Token::Flag(name, args[i + 1]), i + 2))
            &&& args[i] == dashes(count) + name && !alone && i + 1 == args.len() ==> next_step(
                args,
                i,
            ) == Err::<(Token, int), Seq<char>>("flag needs an argument: -"@ + name)
            &&& args[i] == dashes(count) + "="@ + value || (args[i] == dashes(count) && count > 2)
                ==> next_step(args, i) == Err::<(Token, int), Seq<char>>(
                "bad flag syntax: "@ + args[i],
            )
            &&& args[i].len() == 0 || args[i][0] != '-' || args[i] == "-"@ ==> next_step(args, i)
                == Ok::<(Token, int), Seq<char>>((Token::End, i))
            &&& args[i] == "--"@ ==> next_step(args, i) == Ok::<(Token, int), Seq<char>>(
                (Token::Terminator, i + 1),
            )
            &&& next_step(args, args.len() as int) == Ok::<(Token, int), Seq<char>>(
                (Token::End, args.len() as int),
            )
        }),
{
    reveal_strlit("--");
    reveal_strlit("-");
    reveal_strlit("=");
    let item = args[i];
    let rest = name + "="@ + value;
    if item == dashes(count) + name + "="@ + value {
        assert(item =~= dashes(count) + rest);
        lemma_dashes(count, rest);
        assert(item[0] == '-');
        assert(item[count as int] == name[0]);
        assert(rest =~= name + seq!['='] + value);
        split_once_at(name, '=', value);
        crate::text::lemma_find_from(rest, '=', 0);
        lemma_first_equals(name, value);
        assert(rest.take(name.len() as int) =~= name);
        assert(rest.skip(name.len() as int + 1) =~= value);
    }
    if item == dashes(count) + "="@ + value {
        let sign = "="@ + value;
        assert(item =~= dashes(count) + sign);
        lemma_dashes(count, sign);
        assert(item[0] == '-' && item[count as int] == '=');
        lemma_first_equals(Seq::empty(), value);
        assert(sign =~= Seq::<char>::empty() + seq!['='] + value);
    }
    if item == dashes(count) && count > 2 {
        lemma_all_dashes(count);
        assert(item.len() > 2 && item[0] == '-');
    }
    if item == dashes(count) + name {
        lemma_dashes(count, name);
        assert(item[0] == '-');
        assert(item[count as int] == name[0]);
        crate::text::lemma_find_from(name, '=', 0);
        if let Some(k) = find(name, '=') {
            assert(name[k] == '=');
        }
    }
}

proof fn lemma_all_dashes(count: nat)
    ensures
        trim_start_char(dashes(count), '-').len() == 0,
    decreases count,
{
    if count > 0 {
        let less = (count - 1) as nat;
        lemma_all_dashes(less);
        assert(dashes(count).skip(1) =~= dashes(less));
        assert(dashes(count)[0] == '-');
    }
}

proof fn lemma_first_equals(name: Seq<char>, value: Seq<char>)
    requires
        !name.contains('='),
    ensures
        find(name + seq!['='] + value, '=') == Some(name.len() as int),
{
    let text = name + seq!['='] + value;
    let n = name.len() as int;
    crate::text::lemma_find_from(text, '=', 0);
    assert(text[n] == '=');
    let k = find(text, '=')->Some_0;
    if k < n {
        assert(text[k] == name[k]);
        assert(name.contains('='));
    }
}

proof fn lemma_dashes(count: nat, rest: Seq<char>)
    requires
        rest.len() > 0 && rest[0] != '-',
    ensures
        trim_start_char(dashes(count) + rest, '-') == rest,
    decreases count,
{
    let text = dashes(count) + rest;
    if count == 0 {
        assert(text =~= rest);
    } else {
        let less = (count - 1) as nat;
        lemma_dashes(less, rest);
        assert(text.skip(1) =~= dashes(less) + rest);
        assert(text[0] == '-');
    }
}

/// Each flag sets what it is named for, and nothing else; a flag of any other
/// name is refused.
pub proof fn flags_set_what_they_name(
    choices: Choices,
    port: nat,
    text: Seq<char>,
    target: Target,
    name: Seq<char>,
)
    requires
        target_of(text) == Ok::<Target, Seq<char>>(target) || target_of(text) is Err,
        name != "https"@ && name != "tailscale-cli"@ && name != "target"@ && name != "timeout"@
            && name != "version"@ && name != "help"@ && name != "h"@,
    ensures
        ({
            let refused = Err::<Choices, Seq<char>>("HTTPS port must be between 1 and 65535"@);
            &&& choose_flag(choices, "https"@, decimal(port)) == (if 1 <= port <= 65535 {
                Ok::<Choices, Seq<char>>(Choices { https_port: Some(port), ..choices })
            } else {
                refused
            })
            &&& choose_flag(choices, "tailscale-cli"@, text) == Ok::<Choices, Seq<char>>(
                Choices { tailscale_cli: Some(text), ..choices },
            )
            &&& target_of(text) is Ok ==> choose_flag(choices, "target"@, text) == Ok::<
                Choices,
                Seq<char>,
            >(Choices { target: Some(target), ..choices })
            &&& target_of(text) is Err ==> choose_flag(choices, "target"@, text) is Err
            &&& duration_of(text) matches Ok(nanos) ==> choose_flag(choices, "timeout"@, text) == (
            if nanos > 0 {
                Ok::<Choices, Seq<char>>(Choices { timeout: nanos, ..choices })
            } else {
                Err("timeout must be positive"@)
            })
            &&& duration_of(text) is Err ==> choose_flag(choices, "timeout"@, text) is Err
            &&& choose_flag(choices, "version"@, "true"@) == Ok::<Choices, Seq<char>>(
                Choices { version: true, ..choices },
            )
            &&& choose_flag(choices, "version"@, "false"@) == Ok::<Choices, Seq<char>>(
                Choices { version: false, ..choices },
            )
            &&& choose_flag(choices, "version"@, "1"@) == Ok::<Choices, Seq<char>>(
                Choices { version: true, ..choices },
            )
            &&& choose_flag(choices, "version"@, "0"@) == Ok::<Choices, Seq<char>>(
                Choices { version: false, ..choices },
            )
            &&& text != "true"@ && text != "1"@ && text != "false"@ && text != "0"@
                ==> choose_flag(choices, "version"@, text) is Err
            &&& choose_flag(choices, "help"@, text) == Ok::<Choices, Seq<char>>(
                Choices { help: true, ..choices },
            )
            &&& choose_flag(choices, "h"@, text) == Ok::<Choices, Seq<char>>(
                Choices { help: true, ..choices },
            )
            &&& choose_flag(choices, name, text) == Err::<Choices, Seq<char>>(
                "flag provided but not defined: -"@ + name,
            )
        }),
{
    reveal_strlit("https");
    reveal_strlit("tailscale-cli");
    reveal_strlit("target");
    reveal_strlit("timeout");
    reveal_strlit("version");
    reveal_strlit("help");
    reveal_strlit("h");
    reveal_strlit("true");
    reveal_strlit("false");
    reveal_strlit("1");
    reveal_strlit("0");
    lemma_radix_roundtrip(port, 10);
    lemma_names();
    assert("1"@[0] == '1' && "0"@[0] == '0' && "1"@.len() == 1 && "0"@.len() == 1);
}

proof fn lemma_names()
    ensures
        "https"@ != "tailscale-cli"@,
        "https"@ != "target"@,
        "https"@ != "timeout"@,
        "https"@ != "version"@,
        "https"@ != "help"@,
        "https"@ != "h"@,
        "tailscale-cli"@ != "target"@,
        "tailscale-cli"@ != "timeout"@,
        "tailscale-cli"@ != "version"@,
        "tailscale-cli"@ != "help"@,
        "tailscale-cli"@ != "h"@,
        "target"@ != "timeout"@,
        "target"@ != "version"@,
        "target"@ != "help"@,
        "target"@ != "h"@,
        "timeout"@ != "version"@,
        "timeout"@ != "help"@,
        "timeout"@ != "h"@,
        "version"@ != "help"@,
        "version"@ != "h"@,
        "true"@ != "false"@,
{
    reveal_strlit("https");
    reveal_strlit("tailscale-cli");
    reveal_strlit("target");
    reveal_strlit("timeout");
    reveal_strlit("version");
    reveal_strlit("help");
    reveal_strlit("h");
    reveal_strlit("true");
    reveal_strlit("false");
    assert("https"@.len() == 5 && "tailscale-cli"@.len() == 13 && "target"@.len() == 6);
    assert("help"@.len() == 4 && "h"@.len() == 1 && "true"@.len() == 4 && "false"@.len() == 5);
    assert("timeout"@.len() == 7 && "version"@.len() == 7);
    assert("timeout"@[0] == 't' && "version"@[0] == 'v');
}

/// Flags in a row, each with its value behind an equals sign.
pub open spec fn spelled(flags: Seq<(Seq<char>, Seq<char>)>) -> Seq<Seq<char>> {
    flags.map_values(|flag: (Seq<char>, Seq<char>)| "--"@ + flag.0 + "="@ + flag.1)
}

/// What flags in a row choose, the first first.
pub open spec fn chosen(choices: Choices, flags: Seq<(Seq<char>, Seq<char>)>) -> Result<
    Choices,
    Seq<char>,
>
    decreases flags.len(),
{
    if flags.len() == 0 {
        Ok(choices)
    } else {
        match choose_flag(choices, flags[0].0, flags[0].1) {
            Ok(more) => chosen(more, flags.skip(1)),
            Err(message) => Err(message),
        }
    }
}

/// A run is what its flags say, each in turn, and the command is what follows
/// them, word for word. Help comes first, then the version; without a command
/// there must be a target.
pub proof fn runs_are_what_their_flags_say(
    flags: Seq<(Seq<char>, Seq<char>)>,
    command: Seq<Seq<char>>,
    version: Seq<char>,
)
    requires
        forall|i: int| 0 <= i < flags.len() ==> flag_name((#[trigger] flags[i]).0),
        command.len() > 0 ==> (command[0].len() == 0 || command[0][0] != '-' || command[0] == "-"@),
        flags.len() > 0 || command.len() == 0 || command[0] != "dashboard"@,
    ensures
        ({
            let base = Choices {
                https_port: None,
                tailscale_cli: None,
                target: None,
                version: false,
                timeout: 30_000_000_000,
                help: false,
            };
            let result = config_of(spelled(flags) + command, version);
            match chosen(base, flags) {
                Err(message) => result == Err::<Outcome, Seq<char>>(message),
                Ok(choices) => {
                    &&& choices.help ==> result == Ok::<Outcome, Seq<char>>(Outcome::Help)
                    &&& !choices.help && choices.version ==> result == Ok::<Outcome, Seq<char>>(
                        Outcome::Version(version),
                    )
                    &&& !choices.help && !choices.version && command.len() == 0
                        && choices.target is None ==> result is Err
                    &&& !choices.help && !choices.version && (command.len() > 0
                        || choices.target is Some) ==> (result matches Ok(Outcome::Config(settings))
                        && settings.command == command && settings.port == (
                    match choices.https_port {
                        Some(port) => port,
                        None => 0,
                    }) && settings.tailscale_cli == choices.tailscale_cli && settings.target
                        == choices.target && settings.timeout == choices.timeout)
                },
            }
        }),
{
    reveal_strlit("--");
    reveal_strlit("dashboard");
    let args = spelled(flags) + command;
    if flags.len() > 0 {
        assert(args[0] == "--"@ + flags[0].0 + "="@ + flags[0].1);
        assert(args[0][0] == '-');
    } else {
        assert(args =~= command);
    }
    lemma_scan(Seq::empty(), flags, command, no_choices());
    assert(Seq::<Seq<char>>::empty() + spelled(flags) + command =~= args);
    assert(args.skip(flags.len() as int) =~= command);
}

proof fn lemma_scan(
    front: Seq<Seq<char>>,
    flags: Seq<(Seq<char>, Seq<char>)>,
    command: Seq<Seq<char>>,
    choices: Choices,
)
    requires
        forall|i: int| 0 <= i < flags.len() ==> flag_name((#[trigger] flags[i]).0),
        command.len() > 0 ==> (command[0].len() == 0 || command[0][0] != '-' || command[0] == "-"@),
    ensures
        ({
            let args = front + spelled(flags) + command;
            match chosen(choices, flags) {
                Ok(all) => scan_flags(args, front.len() as int, choices) == Ok::<
                    (Choices, int),
                    Seq<char>,
                >((all, (front.len() + flags.len()) as int)),
                Err(message) => scan_flags(args, front.len() as int, choices) == Err::<
                    (Choices, int),
                    Seq<char>,
                >(message),
            }
        }),
    decreases flags.len(),
{
    reveal_strlit("--");
    reveal_strlit("-");
    let args = front + spelled(flags) + command;
    let i = front.len() as int;
    if flags.len() == 0 {
        assert(spelled(flags).len() == 0);
        if command.len() > 0 {
            assert(args[i] == command[0]);
            assert(command[0] != "--"@) by {
                if command[0] == "--"@ {
                    assert(command[0][0] == '-');
                    assert(command[0].len() == 2);
                }
            }
        }
    } else {
        let (name, value) = flags[0];
        assert(flag_name(flags[0].0));
        assert(args[i] == "--"@ + name + "="@ + value);
        assert("--"@ =~= dashes(2));
        flags_come_with_their_value(args, i, 2, name, value);
        let rest = flags.skip(1);
        assert forall|k: int| 0 <= k < rest.len() implies flag_name((#[trigger] rest[k]).0) by {
            assert(rest[k] == flags[k + 1]);
        }
        if let Ok(more) = choose_flag(choices, name, value) {
            lemma_scan(front.push(args[i]), rest, command, more);
            assert(front.push(args[i]) + spelled(rest) + command =~= args);
        }
    }
}

/// The dashboard is asked for by its name, and takes no arguments.
pub proof fn the_dashboard_takes_no_arguments(more: Seq<Seq<char>>, version: Seq<char>)
    ensures
        more.len() == 0 ==> config_of(seq!["dashboard"@] + more, version) == Ok::<
            Outcome,
            Seq<char>,
        >(Outcome::Dashboard),
        more.len() > 0 ==> config_of(seq!["dashboard"@] + more, version) is Err,
{
    let args = seq!["dashboard"@] + more;
    assert(args[0] == "dashboard"@);
}

/// Flags are taken one after the other, each from behind the one before it; the
/// flags end where the first argument that is none stands, or behind the two
/// dashes that end them.
pub proof fn flags_are_taken_in_turn(args: Seq<Seq<char>>, i: int, choices: Choices)
    requires
        0 <= i < args.len(),
    ensures
        next_step(args, i) matches Ok((Token::Flag(name, value), after)) ==> i < after
            <= args.len() && scan_flags(args, i, choices) == (match choose_flag(
            choices,
            name,
            value,
        ) {
            Ok(more) => scan_flags(args, after, more),
            Err(message) => Err::<(Choices, int), Seq<char>>(message),
        }),
        next_step(args, i) matches Ok((Token::End, after)) ==> scan_flags(args, i, choices) == Ok::<
            (Choices, int),
            Seq<char>,
        >((choices, i)),
        next_step(args, i) matches Ok((Token::Terminator, after)) ==> scan_flags(args, i, choices)
            == Ok::<(Choices, int), Seq<char>>((choices, i + 1)),
        next_step(args, i) matches Err(message) ==> scan_flags(args, i, choices) == Err::<
            (Choices, int),
            Seq<char>,
        >(message),
        scan_flags(args, args.len() as int, choices) == Ok::<(Choices, int), Seq<char>>(
            (choices, args.len() as int),
        ),
{
}

} // verus!
