//! What Tailscale serves: which URL leads to which port, and which ports are in
//! use.

use crate::ip::spells_loopback;
use crate::laws::bridge::lemma_decimal_is_tight;
use crate::laws::texts::{
    before_the_first_of, found_first_at, split_last_at, stripping_undoes_putting,
};
use crate::number::{decimal, decimal_reads_back};
use crate::order::{sort_by, sort_by_keeps_items};
use crate::tailscale::{
    funnelled, handler_for, host_port_number, host_routes, node_name, port_used, proxy_port,
    route_for, route_order, route_owned, route_url, routes_in, session_owns, session_routes,
    session_uses_port, web_routes, ServeConfig, StatusDocument, WebHandler, WebRoute,
};
use crate::text::{find_sub, lemma_find_sub_from, occurs_at, same_letters};
use vstd::prelude::*;

verus! {

// ------------------------------------------------------------------- routes

/// Whether one of a host's paths leads to a loopback port under a URL.
pub open spec fn leads_to(
    authority: Seq<char>,
    handlers: Seq<(String, WebHandler)>,
    j: int,
    port: u16,
    url: Seq<char>,
) -> bool {
    0 <= j < handlers.len() && proxy_port(handlers[j].1.proxy@) == Some(port as nat) && url
        == route_url(authority, handlers[j].0@)
}

/// Whether one of the hosts leads to a loopback port under a URL.
pub open spec fn host_leads_to(
    web: Seq<(String, WebRoute)>,
    i: int,
    port: u16,
    url: Seq<char>,
) -> bool {
    0 <= i < web.len() && exists|j: int|
        leads_to(web[i].0@, web[i].1.handlers@, j, port, url)
}

/// Whether a foreground session has a route.
pub open spec fn session_has(config: ServeConfig, i: int, route: (u16, Seq<char>)) -> bool {
    0 <= i < config.foreground@.len() && (config.foreground@[i].1 matches Some(child) && routes_in(
        child,
    ).contains(route))
}

proof fn lemma_contains_sum<T>(a: Seq<T>, b: Seq<T>, x: T)
    ensures
        (a + b).contains(x) <==> a.contains(x) || b.contains(x),
{
    let s = a + b;
    if a.contains(x) {
        let k = choose|k: int| 0 <= k < a.len() && a[k] == x;
        assert(s[k] == x);
    }
    if b.contains(x) {
        let k = choose|k: int| 0 <= k < b.len() && b[k] == x;
        assert(s[a.len() + k] == x);
    }
    if s.contains(x) {
        let k = choose|k: int| 0 <= k < s.len() && s[k] == x;
        if k < a.len() {
            assert(a[k] == x);
        } else {
            assert(b[k - a.len()] == x);
        }
    }
}

proof fn lemma_port_fits(proxy: Seq<char>)
    ensures
        proxy_port(proxy) matches Some(port) ==> port <= 65535,
{
}

proof fn lemma_host_routes(
    authority: Seq<char>,
    handlers: Seq<(String, WebHandler)>,
    port: u16,
    url: Seq<char>,
)
    ensures
        host_routes(authority, handlers).contains((port, url)) <==> exists|j: int|
            leads_to(authority, handlers, j, port, url),
    decreases handlers.len(),
{
    let r = host_routes(authority, handlers);
    if handlers.len() == 0 {
        assert forall|j: int| !leads_to(authority, handlers, j, port, url) by {}
    } else {
        let front = handlers.drop_last();
        let last = handlers.last();
        let n = front.len() as int;
        lemma_host_routes(authority, front, port, url);
        lemma_port_fits(last.1.proxy@);
        let before = host_routes(authority, front);
        assert forall|j: int| 0 <= j < n implies leads_to(authority, handlers, j, port, url)
            == #[trigger] leads_to(authority, front, j, port, url) by {
            assert(front[j] == handlers[j]);
        }
        assert(handlers[n] == last);
        match proxy_port(last.1.proxy@) {
            Some(p) => {
                let route = (p as u16, route_url(authority, last.0@));
                assert(r =~= before + seq![route]);
                lemma_contains_sum(before, seq![route], (port, url));
                assert(seq![route].contains((port, url)) <==> route == (port, url)) by {
                    assert(seq![route][0] == route);
                }
            },
            None => {},
        }
        if before.contains((port, url)) {
            let j = choose|j: int| leads_to(authority, front, j, port, url);
            assert(leads_to(authority, handlers, j, port, url));
        }
        if r.contains((port, url)) && !before.contains((port, url)) {
            assert(leads_to(authority, handlers, n, port, url));
        }
        if exists|j: int| leads_to(authority, handlers, j, port, url) {
            let j = choose|j: int| leads_to(authority, handlers, j, port, url);
            if j < n {
                assert(leads_to(authority, front, j, port, url));
            }
        }
    }
}

proof fn lemma_web_routes(web: Seq<(String, WebRoute)>, port: u16, url: Seq<char>)
    ensures
        web_routes(web).contains((port, url)) <==> exists|i: int|
            host_leads_to(web, i, port, url),
    decreases web.len(),
{
    if web.len() == 0 {
        assert forall|i: int| !host_leads_to(web, i, port, url) by {}
    } else {
        let front = web.drop_last();
        let n = front.len() as int;
        lemma_web_routes(front, port, url);
        lemma_host_routes(web.last().0@, web.last().1.handlers@, port, url);
        lemma_contains_sum(
            web_routes(front),
            host_routes(web.last().0@, web.last().1.handlers@),
            (port, url),
        );
        assert(web[n] == web.last());
        assert forall|i: int| 0 <= i < n implies host_leads_to(web, i, port, url)
            == #[trigger] host_leads_to(front, i, port, url) by {
            assert(front[i] == web[i]);
        }
        if web_routes(front).contains((port, url)) {
            let i = choose|i: int| host_leads_to(front, i, port, url);
            assert(host_leads_to(web, i, port, url));
        }
        if host_routes(web.last().0@, web.last().1.handlers@).contains((port, url)) {
            assert(host_leads_to(web, n, port, url));
        }
        if exists|i: int| host_leads_to(web, i, port, url) {
            let i = choose|i: int| host_leads_to(web, i, port, url);
            if i < n {
                assert(host_leads_to(front, i, port, url));
            }
        }
    }
}

proof fn lemma_session_routes(config: ServeConfig, n: int, route: (u16, Seq<char>))
    requires
        0 <= n <= config.foreground@.len(),
    ensures
        session_routes(config, n).contains(route) <==> exists|i: int|
            i < n && #[trigger] session_has(config, i, route),
    decreases n,
{
    if n > 0 {
        lemma_session_routes(config, n - 1, route);
        let more = match config.foreground@[n - 1].1 {
            Some(child) => routes_in(child),
            None => Seq::empty(),
        };
        lemma_contains_sum(session_routes(config, n - 1), more, route);
        if more.contains(route) {
            assert(session_has(config, n - 1, route));
        }
        if exists|i: int| i < n && #[trigger] session_has(config, i, route) {
            let i = choose|i: int| i < n && #[trigger] session_has(config, i, route);
            if i < n - 1 {
                assert(session_has(config, i, route));
            }
        }
    }
}

proof fn lemma_sorted_contains<T>(s: Seq<T>, le: spec_fn(T, T) -> bool, x: T)
    ensures
        sort_by(s, le).contains(x) <==> s.contains(x),
{
    sort_by_keeps_items(s, le);
    s.to_multiset_ensures();
    sort_by(s, le).to_multiset_ensures();
    assert(s.contains(x) <==> s.to_multiset().count(x) > 0);
    assert(sort_by(s, le).contains(x) <==> sort_by(s, le).to_multiset().count(x) > 0);
}

/// A route is listed just where a path of a host of the configuration itself
/// leads to the port under the URL, or one of its foreground sessions, whichever,
/// lists it.
pub proof fn every_served_url_is_listed(config: ServeConfig, port: u16, url: Seq<char>)
    ensures
        routes_in(config).contains((port, url)) <==> (exists|i: int|
            host_leads_to(config.web@, i, port, url)) || (exists|i: int| #[trigger]
            session_has(config, i, (port, url))),
{
    let n = config.foreground@.len() as int;
    let own = web_routes(config.web@);
    let others = session_routes(config, n);
    lemma_sorted_contains(own + others, route_order(), (port, url));
    lemma_contains_sum(own, others, (port, url));
    lemma_web_routes(config.web@, port, url);
    lemma_session_routes(config, n, (port, url));
    if exists|i: int| #[trigger] session_has(config, i, (port, url)) {
        let i = choose|i: int| #[trigger] session_has(config, i, (port, url));
        assert(i < n && session_has(config, i, (port, url)));
    }
}

/// A session's routes are all among those of the whole, each as often at least.
pub proof fn no_session_loses_a_route(config: ServeConfig, i: int, route: (u16, Seq<char>))
    requires
        0 <= i < config.foreground@.len(),
    ensures
        config.foreground@[i].1 matches Some(child) ==> routes_in(child).to_multiset().count(route)
            <= routes_in(config).to_multiset().count(route),
        web_routes(config.web@).to_multiset().count(route) <= routes_in(
            config,
        ).to_multiset().count(route),
        routes_in(config).len() == web_routes(config.web@).len() + session_routes(
            config,
            config.foreground@.len() as int,
        ).len(),
{
    let n = config.foreground@.len() as int;
    let own = web_routes(config.web@);
    let others = session_routes(config, n);
    sort_by_keeps_items(own + others, route_order());
    vstd::seq_lib::lemma_multiset_commutative(own, others);
    lemma_session_counts(config, n, i, route);
}

proof fn lemma_session_counts(config: ServeConfig, n: int, i: int, route: (u16, Seq<char>))
    requires
        0 <= i < n <= config.foreground@.len(),
    ensures
        config.foreground@[i].1 matches Some(child) ==> routes_in(child).to_multiset().count(route)
            <= session_routes(config, n).to_multiset().count(route),
    decreases n,
{
    let before = session_routes(config, n - 1);
    let more = match config.foreground@[n - 1].1 {
        Some(child) => routes_in(child),
        None => Seq::empty(),
    };
    vstd::seq_lib::lemma_multiset_commutative(before, more);
    if i < n - 1 {
        lemma_session_counts(config, n - 1, i, route);
    }
}

/// A proxy target on this machine, with a scheme and a path or without, gives
/// its port; a bare port gives itself; a target elsewhere gives none.
#[verifier::rlimit(40)]
pub proof fn proxies_give_their_port(
    scheme: Seq<char>,
    host: Seq<char>,
    port: nat,
    path: Seq<char>,
)
    requires
        port <= 65535,
        scheme.len() == 0 || scheme == "http://"@ || scheme == "https+insecure://"@,
        !host.contains(':') && !host.contains('/') && !host.contains('['),
        path.len() > 0 ==> path[0] == '/',
        scheme.len() == 0 ==> find_sub(path, "://"@) is None,
    ensures
        proxy_port(scheme + host + ":"@ + decimal(port) + path) == (if same_letters(
            host,
            "localhost"@,
        ) || spells_loopback(host) {
            Some(port)
        } else {
            None
        }),
        proxy_port(decimal(port)) == Some(port),
{
    reveal_strlit(":");
    let digits = decimal(port);
    lemma_decimal_is_tight(port);
    decimal_reads_back(port, 65535);
    let rest = host + ":"@ + digits + path;
    let text = scheme + host + ":"@ + digits + path;
    assert(text =~= scheme + rest);
    lemma_scheme(scheme, host, digits, path);
    let authority = host + seq![':'] + digits;
    assert(rest =~= authority + path);
    assert forall|i: int| 0 <= i < authority.len() implies !seq!['/'].contains(
        #[trigger] authority[i],
    ) by {
        if i < host.len() {
            assert(authority[i] == host[i]);
        } else if i > host.len() {
            assert(authority[i] == digits[i - host.len() - 1]);
        }
        assert(seq!['/'][0] == '/');
    }
    assert(seq!['/'].contains('/')) by {
        assert(seq!['/'][0] == '/');
    }
    before_the_first_of(authority, seq!['/'], path);
    split_last_at(host, ':', digits);
    if host.len() > 0 {
        assert(host[0] != '[');
    }
    lemma_bare_port(port);
}

/// A proxy target with an IPv6 address in brackets gives its port where that is
/// the loopback address.
#[verifier::rlimit(40)]
pub proof fn bracketed_proxies_give_their_port(
    scheme: Seq<char>,
    inner: Seq<char>,
    port: nat,
    path: Seq<char>,
)
    requires
        port <= 65535,
        scheme == "http://"@ || scheme == "https+insecure://"@,
        !inner.contains('/'),
        path.len() > 0 ==> path[0] == '/',
    ensures
        proxy_port(scheme + "["@ + inner + "]:"@ + decimal(port) + path) == (if same_letters(
            inner,
            "localhost"@,
        ) || spells_loopback(inner) {
            Some(port)
        } else {
            None
        }),
{
    reveal_strlit("[");
    reveal_strlit("]:");
    let digits = decimal(port);
    lemma_decimal_is_tight(port);
    decimal_reads_back(port, 65535);
    let host = "["@ + inner + seq![']'];
    let authority = host + seq![':'] + digits;
    let rest = authority + path;
    let text = scheme + "["@ + inner + "]:"@ + digits + path;
    assert(text =~= scheme + rest);
    lemma_after_scheme(scheme, rest);
    let ends = seq!['/'];
    assert forall|i: int| 0 <= i < authority.len() implies !ends.contains(
        #[trigger] authority[i],
    ) by {
        if 0 < i <= inner.len() {
            assert(authority[i] == inner[i - 1]);
        } else if i > inner.len() + 2 {
            assert(authority[i] == digits[i - inner.len() - 3]);
        }
        assert(ends[0] == '/');
    }
    assert(ends.contains('/')) by {
        assert(ends[0] == '/');
    }
    before_the_first_of(authority, ends, path);
    split_last_at(host, ':', digits);
    assert(host.subrange(1, host.len() - 1) =~= inner);
}

proof fn lemma_after_scheme(scheme: Seq<char>, rest: Seq<char>)
    requires
        scheme == "http://"@ || scheme == "https+insecure://"@,
    ensures
        crate::tailscale::after_scheme(scheme + rest) == rest,
{
    reveal_strlit("://");
    reveal_strlit("http://");
    reveal_strlit("https+insecure://");
    let mark = "://"@;
    let text = scheme + rest;
    let n = scheme.len() as int;
    assert(occurs_at(text, mark, n - 3)) by {
        assert(text.subrange(n - 3, n) =~= mark);
    }
    assert forall|k: int| 0 <= k < n - 3 implies !#[trigger] occurs_at(text, mark, k) by {
        if occurs_at(text, mark, k) {
            assert(text.subrange(k, k + 3)[0] == text[k]);
            assert(text[k] == scheme[k]);
        }
    }
    found_first_at(text, mark, n - 3);
    assert(text.skip(n) =~= rest);
}

proof fn lemma_bare_port(port: nat)
    requires
        port <= 65535,
    ensures
        proxy_port(decimal(port)) == Some(port),
{
    reveal_strlit("://");
    let digits = decimal(port);
    lemma_decimal_is_tight(port);
    decimal_reads_back(port, 65535);
    lemma_find_sub_from(digits, "://"@, 0);
    if let Some(k) = find_sub(digits, "://"@) {
        assert(occurs_at(digits, "://"@, k));
        assert(digits.subrange(k, k + 3)[0] == digits[k]);
    }
    let none = Seq::<char>::empty();
    assert forall|i: int| 0 <= i < digits.len() implies !seq!['/'].contains(
        #[trigger] digits[i],
    ) by {
        assert(seq!['/'][0] == '/');
    }
    before_the_first_of(digits, seq!['/'], none);
    assert(digits + none =~= digits);
    crate::laws::texts::split_nowhere(digits, ':');
}

proof fn lemma_scheme(scheme: Seq<char>, host: Seq<char>, digits: Seq<char>, path: Seq<char>)
    requires
        scheme.len() == 0 || scheme == "http://"@ || scheme == "https+insecure://"@,
        !host.contains(':') && !host.contains('/'),
        !digits.contains(':') && !digits.contains('/') && digits.len() > 0,
        path.len() > 0 ==> path[0] == '/',
        scheme.len() == 0 ==> find_sub(path, "://"@) is None,
    ensures
        crate::tailscale::after_scheme(scheme + (host + ":"@ + digits + path)) == host + ":"@
            + digits + path,
{
    reveal_strlit("://");
    reveal_strlit(":");
    reveal_strlit("http://");
    reveal_strlit("https+insecure://");
    let mark = "://"@;
    let rest = host + ":"@ + digits + path;
    let text = scheme + rest;
    if scheme.len() > 0 {
        lemma_after_scheme(scheme, rest);
    } else {
        assert(text =~= rest);
        lemma_find_sub_from(text, mark, 0);
        if let Some(k) = find_sub(text, mark) {
            assert(occurs_at(text, mark, k));
            assert(text.subrange(k, k + 3)[0] == text[k]);
            assert(text.subrange(k, k + 3)[1] == text[k + 1]);
            let h = host.len() as int;
            let d = digits.len() as int;
            if k < h {
                assert(text[k] == host[k]);
            } else if k == h {
                assert(text[k + 1] == digits[0]);
            } else if k < h + 1 + d {
                assert(text[k] == digits[k - h - 1]);
            } else {
                let j = k - h - 1 - d;
                lemma_find_sub_from(path, mark, 0);
                assert(path.subrange(j, j + 3) =~= text.subrange(k, k + 3));
                assert(occurs_at(path, mark, j));
            }
        }
    }
}

/// A served URL is https, the host with its port unless that is the usual one,
/// and the path unless that is the root.
pub proof fn served_urls_are_spelled_out(host: Seq<char>, port: nat, path: Seq<char>)
    requires
        path != "/"@,
    ensures
        port != 443 ==> route_url(host + ":"@ + decimal(port), "/"@) == "https://"@ + host + ":"@
            + decimal(port),
        port != 443 ==> route_url(host + ":"@ + decimal(port), path) == "https://"@ + host + ":"@
            + decimal(port) + path,
        route_url(host + ":443"@, "/"@) == "https://"@ + host,
        route_url(host + ":443"@, path) == "https://"@ + host + path,
{
    reveal_strlit("");
    reveal_strlit(":");
    reveal_strlit(":443");
    let digits = decimal(port);
    let usual = ":443"@;
    stripping_undoes_putting(usual, host);
    if port != 443 {
        let authority = host + ":"@ + digits;
        stripping_undoes_putting(usual, authority);
        lemma_decimal_is_tight(port);
        decimal_443();
        if let Some(rest) = crate::text::strip_suffix(authority, usual) {
            assert(rest + usual =~= rest + seq![':'] + decimal(443));
            assert(authority =~= host + seq![':'] + digits);
            lemma_decimal_is_tight(443);
            split_last_at(rest, ':', decimal(443));
            split_last_at(host, ':', digits);
            crate::number::decimal_is_injective(port, 443);
        }
        assert("https://"@ + authority + ""@ =~= "https://"@ + host + ":"@ + digits);
        assert("https://"@ + authority + path =~= "https://"@ + host + ":"@ + digits + path);
    }
    assert("https://"@ + host + ""@ =~= "https://"@ + host);
}

proof fn decimal_443()
    ensures
        ":443"@ == seq![':'] + decimal(443),
{
    reveal_strlit(":443");
    reveal_with_fuel(crate::number::radix_text, 4);
    assert(decimal(443) =~= seq!['4', '4', '3']);
    assert(":443"@ =~= seq![':'] + decimal(443));
}

// -------------------------------------------------------------------- ports

/// A port is in use where a TCP forward names it, where a served host ends in it,
/// and where a foreground session, whichever, uses it.
pub proof fn ports_in_use_are_seen(config: ServeConfig, port: nat, i: int, host: Seq<char>)
    requires
        port <= 65535,
    ensures
        0 <= i < config.tcp@.len() && config.tcp@[i]@ == decimal(port) ==> port_used(config, port),
        0 <= i < config.web@.len() && config.web@[i].0@ == host + ":"@ + decimal(port)
            ==> port_used(config, port),
        0 <= i < config.allow_funnel@.len() && config.allow_funnel@[i].1
            && config.allow_funnel@[i].0@ == host + ":"@ + decimal(port) ==> port_used(
            config,
            port,
        ),
        0 <= i < config.foreground@.len() && (config.foreground@[i].1 matches Some(child)
            && port_used(child, port)) ==> port_used(config, port),
{
    reveal_strlit(":");
    lemma_decimal_is_tight(port);
    decimal_reads_back(port, 65535);
    split_last_at(host, ':', decimal(port));
    assert(host + ":"@ + decimal(port) =~= host + seq![':'] + decimal(port));
    assert(host_port_number(host + ":"@ + decimal(port)) == Some(port));
    if 0 <= i < config.tcp@.len() && config.tcp@[i]@ == decimal(port) {
        assert(crate::tailscale::own_port_used(config, port));
    }
    if 0 <= i < config.foreground@.len() && (config.foreground@[i].1 matches Some(child)
        && port_used(child, port)) {
        crate::tailscale::lemma_session_uses(config, port, i, 0);
    }
}

/// A port that is in use is named by a TCP forward, ends a served host, ends a
/// host that is open to the internet, or is used by a foreground session.
pub proof fn free_ports_are_not_taken_for_used(config: ServeConfig, port: nat)
    requires
        port_used(config, port),
    ensures
        (exists|i: int| 0 <= i < config.tcp@.len() && (#[trigger] config.tcp@[i])@ == decimal(port))
            || (exists|i: int|
            0 <= i < config.web@.len() && host_port_number((#[trigger] config.web@[i]).0@) == Some(
                port,
            )) || (exists|i: int|
            0 <= i < config.allow_funnel@.len() && (#[trigger] config.allow_funnel@[i]).1
                && host_port_number(config.allow_funnel@[i].0@) == Some(port)) || (exists|i: int|
            0 <= i < config.foreground@.len() && ((#[trigger] config.foreground@[i]).1 matches Some(
                child,
            ) && port_used(child, port))),
{
    if !crate::tailscale::own_port_used(config, port) {
        lemma_some_session(config, port, 0);
    }
}

proof fn lemma_some_session(config: ServeConfig, port: nat, from: int)
    requires
        0 <= from,
        session_uses_port(config, port, from),
    ensures
        exists|i: int|
            0 <= i < config.foreground@.len() && ((#[trigger] config.foreground@[i]).1 matches Some(
                child,
            ) && port_used(child, port)),
    decreases config.foreground@.len() - from,
{
    if from < config.foreground@.len() {
        if !(config.foreground@[from].1 matches Some(child) && port_used(child, port)) {
            lemma_some_session(config, port, from + 1);
        }
    }
}

// --------------------------------------------------------------------- node

/// A running node goes by its name, without the dot at its end.
pub proof fn nodes_go_by_their_name(document: StatusDocument, name: Seq<char>, n: nat)
    requires
        document.backend_state@ == "Running"@,
        name.len() > 0,
        name.last() != '.',
        document.self_status matches Some(own) && own.dns_name@ == name + Seq::new(
            n,
            |i: int| '.',
        ),
    ensures
        node_name(Ok(document)) == Ok::<Seq<char>, Seq<char>>(name),
{
    crate::laws::texts::trailing_characters_go(name, '.', n);
}

/// Whether session `i` proxies the root of `authority` to `bridge`: its first
/// entry for that host, in which the first entry for the root is that proxy, and
/// nothing of the session is open to the internet under that host.
pub open spec fn session_proxies(
    config: ServeConfig,
    i: int,
    j: int,
    k: int,
    authority: Seq<char>,
    bridge: Seq<char>,
) -> bool {
    &&& 0 <= i < config.foreground@.len()
    &&& config.foreground@[i].1 matches Some(child) && {
        let web = child.web@;
        &&& 0 <= j < web.len()
        &&& web[j].0@ == authority
        &&& forall|n: int| 0 <= n < j ==> (#[trigger] web[n]).0@ != authority
        &&& 0 <= k < web[j].1.handlers@.len()
        &&& web[j].1.handlers@[k].0@ == "/"@
        &&& forall|n: int| 0 <= n < k ==> (#[trigger] web[j].1.handlers@[n]).0@ != "/"@
        &&& web[j].1.handlers@[k].1.proxy@ == bridge
        &&& forall|n: int|
            0 <= n < child.allow_funnel@.len() ==> (#[trigger] child.allow_funnel@[n]).0@
                != authority
    }
}

proof fn lemma_route_found(web: Seq<(String, WebRoute)>, key: Seq<char>, j: int, from: int)
    requires
        0 <= from <= j < web.len(),
        web[j].0@ == key,
        forall|n: int| from <= n < j ==> (#[trigger] web[n]).0@ != key,
    ensures
        route_for(web, key, from) == Some(web[j].1),
    decreases j - from,
{
    if from < j {
        lemma_route_found(web, key, j, from + 1);
    }
}

proof fn lemma_handler_found(
    handlers: Seq<(String, WebHandler)>,
    path: Seq<char>,
    k: int,
    from: int,
)
    requires
        0 <= from <= k < handlers.len(),
        handlers[k].0@ == path,
        forall|n: int| from <= n < k ==> (#[trigger] handlers[n]).0@ != path,
    ensures
        handler_for(handlers, path, from) == Some(handlers[k].1),
    decreases k - from,
{
    if from < k {
        lemma_handler_found(handlers, path, k, from + 1);
    }
}

proof fn lemma_route_at(web: Seq<(String, WebRoute)>, key: Seq<char>, from: int) -> (j: int)
    requires
        0 <= from,
        route_for(web, key, from) is Some,
    ensures
        from <= j < web.len(),
        web[j].0@ == key,
        forall|n: int| from <= n < j ==> (#[trigger] web[n]).0@ != key,
        route_for(web, key, from) == Some(web[j].1),
    decreases web.len() - from,
{
    if web[from].0@ == key {
        from
    } else {
        lemma_route_at(web, key, from + 1)
    }
}

proof fn lemma_handler_at(
    handlers: Seq<(String, WebHandler)>,
    path: Seq<char>,
    from: int,
) -> (k: int)
    requires
        0 <= from,
        handler_for(handlers, path, from) is Some,
    ensures
        from <= k < handlers.len(),
        handlers[k].0@ == path,
        forall|n: int| from <= n < k ==> (#[trigger] handlers[n]).0@ != path,
        handler_for(handlers, path, from) == Some(handlers[k].1),
    decreases handlers.len() - from,
{
    if handlers[from].0@ == path {
        from
    } else {
        lemma_handler_at(handlers, path, from + 1)
    }
}

/// A route is owned exactly where some session, at any index, proxies the root of
/// exactly that authority to exactly that bridge, with no Funnel under that host.
pub proof fn owned_routes_are_exact(
    config: ServeConfig,
    authority: Seq<char>,
    bridge: Seq<char>,
)
    ensures
        route_owned(config, authority, bridge) <==> exists|i: int, j: int, k: int|
            session_proxies(config, i, j, k, authority, bridge),
{
    if exists|i: int, j: int, k: int| session_proxies(config, i, j, k, authority, bridge) {
        let (i, j, k) = choose|i: int, j: int, k: int|
            session_proxies(config, i, j, k, authority, bridge);
        let child = config.foreground@[i].1.unwrap();
        lemma_route_found(child.web@, authority, j, 0);
        lemma_handler_found(child.web@[j].1.handlers@, "/"@, k, 0);
        assert(session_owns(config.foreground@[i].1, authority, bridge));
    }
    if route_owned(config, authority, bridge) {
        let i = choose|i: int|
            0 <= i < config.foreground@.len() && session_owns(
                (#[trigger] config.foreground@[i]).1,
                authority,
                bridge,
            );
        let child = config.foreground@[i].1.unwrap();
        let j = lemma_route_at(child.web@, authority, 0);
        let k = lemma_handler_at(child.web@[j].1.handlers@, "/"@, 0);
        assert forall|n: int| 0 <= n < child.allow_funnel@.len() implies (
        #[trigger] child.allow_funnel@[n]).0@ != authority by {
            if child.allow_funnel@[n].0@ == authority {
                assert(funnelled(child.allow_funnel@, authority));
            }
        }
        assert(session_proxies(config, i, j, k, authority, bridge));
    }
}

/// A machine that does not run Tailscale, or has no name, is told so.
pub proof fn nodes_without_a_name_are_told(document: StatusDocument, error: String)
    ensures
        node_name(Err(error)) is Err,
        document.backend_state@ != "Running"@ ==> node_name(Ok(document)) == Err::<
            Seq<char>,
            Seq<char>,
        >("Tailscale is not running (state: "@ + document.backend_state@ + ")"@),
        document.self_status is None ==> node_name(Ok(document)) is Err,
        (document.self_status matches Some(own) && own.dns_name@.len() == 0) ==> node_name(
            Ok(document),
        ) is Err,
{
}

} // verus!
